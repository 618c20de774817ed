use worker_pool::http::{split_chars, HttpRequest};

fn chars(s: &str) -> Vec<char> {
    s.chars().collect()
}

fn text(v: &Vec<char>) -> String {
    v.iter().collect()
}

#[test]
fn parse_reads_request_line_and_headers() {
    let raw = b"GET /index.html HTTP/1.1\r\nHost: localhost:8080\r\nAccept: */*\r\n\r\n";
    let r = HttpRequest::parse(raw).unwrap();
    assert_eq!(text(r.method()), "GET");
    assert_eq!(text(r.url()), "/index.html");
    assert_eq!(text(r.version()), "HTTP/1.1");
    assert_eq!(r.header_count(), 2);
    assert_eq!(text(r.header(&chars("Host")).unwrap()), "localhost:8080");
    assert_eq!(text(r.header(&chars("Accept")).unwrap()), "*/*");
    assert!(r.header(&chars("Cookie")).is_none());
}

#[test]
fn parse_ignores_the_last_line_and_lines_without_separator() {
    let raw = b"POST / HTTP/1.0\r\nX: 1\r\nbroken line\r\nbody: not a header";
    let r = HttpRequest::parse(raw).unwrap();
    assert_eq!(text(r.method()), "POST");
    assert_eq!(r.header_count(), 1);
    assert!(r.header(&chars("body")).is_none());
}

#[test]
fn parse_keeps_the_last_of_repeated_headers() {
    let raw = b"GET / HTTP/1.1\r\nA: first\r\nA: second\r\n\r\n";
    let r = HttpRequest::parse(raw).unwrap();
    assert_eq!(r.header_count(), 2);
    assert_eq!(text(r.header(&chars("A")).unwrap()), "second");
}

#[test]
fn parse_takes_the_value_up_to_the_next_separator() {
    let raw = b"GET / HTTP/1.1\r\nK: a: b\r\n\r\n";
    let r = HttpRequest::parse(raw).unwrap();
    assert_eq!(text(r.header(&chars("K")).unwrap()), "a");
}

#[test]
fn parse_refuses_a_short_request_line() {
    assert!(HttpRequest::parse(b"GET /\r\n\r\n").is_none());
    assert!(HttpRequest::parse(b"").is_none());
}

#[test]
fn parse_without_line_breaks_has_no_headers() {
    let r = HttpRequest::parse(b"GET / HTTP/1.1").unwrap();
    assert_eq!(text(r.version()), "HTTP/1.1");
    assert_eq!(r.header_count(), 0);
}

#[test]
fn parse_replaces_invalid_bytes() {
    let raw = b"G\xffT / HTTP/1.1\r\n\r\n";
    let r = HttpRequest::parse(raw).unwrap();
    assert_eq!(text(r.method()), "G\u{FFFD}T");
}

#[test]
fn from_text_splits_on_single_spaces() {
    let r = HttpRequest::from_text(&chars("GET  / HTTP/1.1")).unwrap();
    assert_eq!(text(r.method()), "GET");
    assert_eq!(text(r.url()), "");
    assert_eq!(text(r.version()), "/");
}

#[test]
fn split_chars_cuts_at_each_separator() {
    let pieces = split_chars(&chars("a\r\nb\r\n\r\n"), &chars("\r\n"));
    let got: Vec<String> = pieces.iter().map(text).collect();
    assert_eq!(got, vec!["a", "b", "", ""]);
    let one = split_chars(&chars("abc"), &chars("::"));
    assert_eq!(one.len(), 1);
    assert_eq!(text(&one[0]), "abc");
    let none = split_chars(&chars(""), &chars(" "));
    assert_eq!(none.len(), 1);
    assert_eq!(text(&none[0]), "");
}
