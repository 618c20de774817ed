use worker_pool::http::HttpRequest;
use worker_pool::route::{read_status, route, ReadFailure, Route, Router, Status};

fn chars(s: &str) -> Vec<char> {
    s.chars().collect()
}

fn site() -> Router {
    let mut r = Router::new();
    r.insert(chars("/"), chars("assets/index.html"));
    r
}

fn request(raw: &str) -> HttpRequest {
    HttpRequest::from_text(&chars(raw)).unwrap()
}

#[test]
fn get_of_a_known_path_is_served_from_its_file() {
    match route(&request("GET / HTTP/1.1\r\n\r\n"), &site()) {
        Route::Serve(p) => assert_eq!(p.iter().collect::<String>(), "assets/index.html"),
        Route::Reply(_) => panic!("expected a file"),
    }
}

#[test]
fn get_of_an_unknown_path_is_not_found() {
    assert!(matches!(
        route(&request("GET /missing HTTP/1.1\r\n\r\n"), &site()),
        Route::Reply(Status::NotFound)
    ));
}

#[test]
fn other_methods_are_not_allowed() {
    assert!(matches!(
        route(&request("POST / HTTP/1.1\r\n\r\n"), &site()),
        Route::Reply(Status::MethodNotAllowed)
    ));
    assert!(matches!(
        route(&request("get / HTTP/1.1\r\n\r\n"), &site()),
        Route::Reply(Status::MethodNotAllowed)
    ));
}

#[test]
fn a_later_route_replaces_an_earlier_one() {
    let mut r = site();
    r.insert(chars("/"), chars("assets/other.html"));
    assert_eq!(r.lookup(&chars("/")).unwrap().iter().collect::<String>(), "assets/other.html");
    assert!(r.lookup(&chars("/x")).is_none());
}

#[test]
fn read_outcome_gives_the_status() {
    assert_eq!(read_status(None), Status::Success);
    assert_eq!(read_status(Some(ReadFailure::NotFound)), Status::NotFound);
    assert_eq!(read_status(Some(ReadFailure::Other)), Status::InternalError);
}

#[test]
fn status_headers() {
    assert_eq!(Status::Success.header(), "HTTP/1.1 200 OK\r\n\r\n");
    assert_eq!(Status::NotFound.header(), "HTTP/1.1 404 NOT FOUND\r\n\r\n");
    assert_eq!(
        Status::MethodNotAllowed.header(),
        "HTTP/1.1 405 METHOD NOT ALLOWED\r\nAllow: GET\r\n\r\n"
    );
    assert_eq!(Status::InternalError.header(), "Http/1.1 500 INTERNAL ERROR\r\n\r\n");
}
