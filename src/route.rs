//! What the server answers to a request: the decisions around the file
//! that a route names, apart from reading the file and writing the reply.
use crate::http::{chars_eq, last_wins, lookup_last, pair_views, HttpRequest, RequestView};
use vstd::prelude::*;

verus! {

/// The status of a reply.
#[derive(PartialEq, Eq, Structural, Clone, Copy, Debug)]
pub enum Status {
    Success,
    NotFound,
    MethodNotAllowed,
    InternalError,
}

/// The header block that opens a reply with status `s`.
pub open spec fn status_text(s: Status) -> Seq<char> {
    match s {
        Status::Success => "HTTP/1.1 200 OK\r\n\r\n"@,
        Status::NotFound => "HTTP/1.1 404 NOT FOUND\r\n\r\n"@,
        Status::MethodNotAllowed => "HTTP/1.1 405 METHOD NOT ALLOWED\r\nAllow: GET\r\n\r\n"@,
        Status::InternalError => "Http/1.1 500 INTERNAL ERROR\r\n\r\n"@,
    }
}

impl Status {
    /// The header block that opens a reply with this status.
    pub fn header(&self) -> (r: &'static str)
        ensures
            r@ == status_text(*self),
    {
        match self {
            Status::Success => "HTTP/1.1 200 OK\r\n\r\n",
            Status::NotFound => "HTTP/1.1 404 NOT FOUND\r\n\r\n",
            Status::MethodNotAllowed => "HTTP/1.1 405 METHOD NOT ALLOWED\r\nAllow: GET\r\n\r\n",
            Status::InternalError => "Http/1.1 500 INTERNAL ERROR\r\n\r\n",
        }
    }
}

/// The one method that the server serves.
pub open spec fn get_method() -> Seq<char> {
    seq!['G', 'E', 'T']
}

/// A table from request paths to the files that answer them.
pub struct Router {
    routes: Vec<(Vec<char>, Vec<char>)>,
}

impl View for Router {
    type V = Map<Seq<char>, Seq<char>>;

    closed spec fn view(&self) -> Map<Seq<char>, Seq<char>> {
        last_wins(pair_views(self.routes@))
    }
}

impl Router {
    pub fn new() -> (r: Router)
        ensures
            r@ == Map::<Seq<char>, Seq<char>>::empty(),
    {
        let r = Router { routes: Vec::new() };
        assert(pair_views(r.routes@) =~= Seq::<(Seq<char>, Seq<char>)>::empty());
        r
    }

    /// Maps `url` to `path`, in place of any earlier mapping of `url`.
    pub fn insert(&mut self, url: Vec<char>, path: Vec<char>)
        ensures
            final(self)@ == old(self)@.insert(url@, path@),
    {
        let ghost before = self.routes@;
        self.routes.push((url, path));
        assert(pair_views(self.routes@).drop_last() =~= pair_views(before));
    }

    /// The file that answers `url`, if any.
    pub fn lookup(&self, url: &Vec<char>) -> (r: Option<&Vec<char>>)
        ensures
            match r {
                Some(p) => self@.contains_key(url@) && self@[url@] == p@,
                None => !self@.contains_key(url@),
            },
    {
        lookup_last(&self.routes, url)
    }
}

/// What to do with a request.
pub enum Route {
    /// Send the contents of this file.
    Serve(Vec<char>),
    /// Answer with this status and no body.
    Reply(Status),
}

/// A request other than GET is refused; a GET of a path that no route
/// names is not found; any other is served from the file of its route.
pub open spec fn route_of(req: RequestView, routes: Map<Seq<char>, Seq<char>>) -> Result<
    Seq<char>,
    Status,
> {
    if req.method != get_method() {
        Err(Status::MethodNotAllowed)
    } else if !routes.contains_key(req.url) {
        Err(Status::NotFound)
    } else {
        Ok(routes[req.url])
    }
}

/// Decides how to answer `req`.
pub fn route(req: &HttpRequest, router: &Router) -> (r: Route)
    ensures
        match r {
            Route::Serve(p) => route_of(req@, router@) == Ok::<Seq<char>, Status>(p@),
            Route::Reply(s) => route_of(req@, router@) == Err::<Seq<char>, Status>(s),
        },
{
    let get: Vec<char> = vec!['G', 'E', 'T'];
    assert(get@ =~= get_method());
    if !chars_eq(req.method(), &get) {
        return Route::Reply(Status::MethodNotAllowed);
    }
    match router.lookup(req.url()) {
        None => Route::Reply(Status::NotFound),
        Some(p) => {
            let mut copy: Vec<char> = Vec::with_capacity(p.len());
            let mut k: usize = 0;
            while k < p.len()
                invariant
                    k <= p@.len(),
                    copy@ == p@.subrange(0, k as int),
                decreases p@.len() - k,
            {
                copy.push(p[k]);
                k = k + 1;
                assert(copy@ =~= p@.subrange(0, k as int));
            }
            assert(p@.subrange(0, p@.len() as int) =~= p@);
            Route::Serve(copy)
        },
    }
}

/// Why the file of a route could not be read.
#[derive(PartialEq, Eq, Structural, Clone, Copy, Debug)]
pub enum ReadFailure {
    NotFound,
    Other,
}

/// The status of a reply after reading the file of a route: found, the file
/// is sent; missing, not found; any other failure, an internal error.
pub fn read_status(outcome: Option<ReadFailure>) -> (s: Status)
    ensures
        s == match outcome {
            None => Status::Success,
            Some(ReadFailure::NotFound) => Status::NotFound,
            Some(ReadFailure::Other) => Status::InternalError,
        },
{
    match outcome {
        None => Status::Success,
        Some(ReadFailure::NotFound) => Status::NotFound,
        Some(ReadFailure::Other) => Status::InternalError,
    }
}

} // verus!
