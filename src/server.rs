use vstd::prelude::*;
use vstd::string::StringSliceAdditionalSpecFns;

use crate::method::HttpMethod;
use crate::request::ParsedRequest;
use crate::response::{default_header, response_bytes, serialize, HttpResponse};

verus! {

/// The handler that a route list gives `(m, p)`: the last entry for that key.
pub open spec fn route_of<H>(rs: Seq<(HttpMethod, Vec<u8>, H)>, m: HttpMethod, p: Seq<u8>) -> Option<
    H,
>
    decreases rs.len(),
{
    if rs.len() == 0 {
        None
    } else if rs.last().0 == m && rs.last().1@ == p {
        Some(rs.last().2)
    } else {
        route_of(rs.drop_last(), m, p)
    }
}

/// A response with no body and the default headers.
pub open spec fn is_empty_response(r: HttpResponse, code: u16) -> bool {
    &&& r.status_code == code
    &&& r.body is None
    &&& r.wf()
    &&& forall|k: Seq<char>| #[trigger] r.header(k) == default_header(None, k)
}

/// The body handed to a handler: absent when the request carried none.
pub open spec fn handler_arg(body: Vec<u8>) -> Option<Vec<u8>> {
    if body@.len() > 0 {
        Some(body)
    } else {
        None
    }
}

fn bytes_eq(a: &[u8], b: &[u8]) -> (r: bool)
    ensures
        r == (a@ == b@),
{
    if a.len() != b.len() {
        return false;
    }
    let mut i: usize = 0;
    while i < a.len()
        invariant
            a@.len() == b@.len(),
            i <= a@.len(),
            forall|j: int| 0 <= j < i ==> a@[j] == b@[j],
        decreases a@.len() - i,
    {
        if a[i] != b[i] {
            return false;
        }
        i = i + 1;
    }
    assert(a@ =~= b@);
    true
}

/// An HTTP server's route table: each `(method, exact path)` leads to a
/// handler that turns the request body into a response.
pub struct Server<H> {
    routes: Vec<(HttpMethod, Vec<u8>, H)>,
}

impl<H: Fn(Option<Vec<u8>>) -> HttpResponse> Server<H> {
    /// The handler registered for method `m` and the path whose UTF-8 bytes are `p`.
    pub closed spec fn handler_for(&self, m: HttpMethod, p: Seq<u8>) -> Option<H> {
        route_of(self.routes@, m, p)
    }

    pub closed spec fn wf(&self) -> bool {
        &&& forall|i: int, j: int|
            0 <= i < j < self.routes@.len() ==> !(self.routes@[i].0 == self.routes@[j].0
                && self.routes@[i].1@ == self.routes@[j].1@)
        &&& forall|i: int, b: Option<Vec<u8>>|
            0 <= i < self.routes@.len() ==> #[trigger] self.routes@[i].2.requires((b,))
    }

    /// A server with no routes.
    pub fn new() -> (r: Server<H>)
        ensures
            r.wf(),
            forall|m: HttpMethod, p: Seq<u8>| #[trigger] r.handler_for(m, p) is None,
    {
        Server { routes: Vec::new() }
    }

    /// Registers `handler` for `method` and `path`, replacing the handler
    /// that key had.
    fn route(&mut self, method: HttpMethod, path: &str, handler: H)
        requires
            old(self).wf(),
            forall|b: Option<Vec<u8>>| handler.requires((b,)),
        ensures
            final(self).wf(),
            forall|m: HttpMethod, p: Seq<u8>|
                #[trigger] final(self).handler_for(m, p) == if m == method && p
                    == path.spec_bytes() {
                    Some(handler)
                } else {
                    old(self).handler_for(m, p)
                },
    {
        let key = path.as_bytes();
        let ghost s = self.routes@;
        let mut i: usize = 0;
        let mut found: bool = false;
        while i < self.routes.len() && !found
            invariant
                self.routes@ == s,
                i <= s.len(),
                forall|j: int| 0 <= j < i ==> !(s[j].0 == method && s[j].1@ == key@),
                found ==> i < s.len() && s[i as int].0 == method && s[i as int].1@ == key@,
            decreases s.len() - i + (if found { 0int } else { 1int }),
        {
            if self.routes[i].0 == method && bytes_eq(self.routes[i].1.as_slice(), key) {
                found = true;
            } else {
                i = i + 1;
            }
        }
        let ghost mid;
        if found {
            self.routes.remove(i);
            proof {
                mid = s.remove(i as int);
                assert(forall|j: int| 0 <= j < mid.len() ==> mid[j] == (if j < i {
                    s[j]
                } else {
                    s[j + 1]
                }));
                assert forall|m: HttpMethod, p: Seq<u8>| !(m == method && p == key@) implies route_of(
                    mid,
                    m,
                    p,
                ) == route_of(s, m, p) by {
                    lemma_route_of_remove(s, i as int, m, p);
                }
            }
        } else {
            proof {
                mid = s;
            }
        }
        assert(forall|j: int| 0 <= j < mid.len() ==> !(mid[j].0 == method && mid[j].1@ == key@));
        let mut stored: Vec<u8> = Vec::new();
        crate::bytes::push_all(&mut stored, key);
        let ghost x = (method, stored, handler);
        self.routes.push((method, stored, handler));
        proof {
            assert(self.routes@ == mid.push(x));
            assert forall|m: HttpMethod, p: Seq<u8>| #[trigger] route_of(self.routes@, m, p)
                == if m == method && p == key@ {
                Some(handler)
            } else {
                route_of(s, m, p)
            } by {
                assert(mid.push(x).drop_last() =~= mid);
            }
        }
    }

    /// Registers a GET route.
    pub fn get(&mut self, path: &str, handler: H)
        requires
            old(self).wf(),
            forall|b: Option<Vec<u8>>| handler.requires((b,)),
        ensures
            final(self).wf(),
            forall|m: HttpMethod, p: Seq<u8>|
                #[trigger] final(self).handler_for(m, p) == if m == HttpMethod::GET && p
                    == path.spec_bytes() {
                    Some(handler)
                } else {
                    old(self).handler_for(m, p)
                },
    {
        self.route(HttpMethod::GET, path, handler);
    }

    /// Registers a POST route.
    pub fn post(&mut self, path: &str, handler: H)
        requires
            old(self).wf(),
            forall|b: Option<Vec<u8>>| handler.requires((b,)),
        ensures
            final(self).wf(),
            forall|m: HttpMethod, p: Seq<u8>|
                #[trigger] final(self).handler_for(m, p) == if m == HttpMethod::POST && p
                    == path.spec_bytes() {
                    Some(handler)
                } else {
                    old(self).handler_for(m, p)
                },
    {
        self.route(HttpMethod::POST, path, handler);
    }

    /// What answering a request may give: 405 for a method this server does
    /// not route, 404 for a path with no route, else whatever the route's
    /// handler may return for the body.
    pub open spec fn answers(
        &self,
        method: Option<HttpMethod>,
        path: Seq<u8>,
        body: Vec<u8>,
        r: HttpResponse,
    ) -> bool {
        match method {
            None => is_empty_response(r, 405),
            Some(m) => match self.handler_for(m, path) {
                None => is_empty_response(r, 404),
                Some(h) => h.ensures((handler_arg(body),), r),
            },
        }
    }

    /// Finds the route for `method` and `path` and runs its handler on the body;
    /// 404 when there is none.
    pub fn processing_response(&self, body: Vec<u8>, method: HttpMethod, path: &Vec<u8>) -> (r:
        HttpResponse)
        requires
            self.wf(),
        ensures
            self.answers(Some(method), path@, body, r),
    {
        let mut i: usize = self.routes.len();
        assert(self.routes@.subrange(0, i as int) =~= self.routes@);
        while i > 0
            invariant
                self.wf(),
                i <= self.routes@.len(),
                route_of(self.routes@.subrange(0, i as int), method, path@) == route_of(
                    self.routes@,
                    method,
                    path@,
                ),
            decreases i,
        {
            let ghost t = self.routes@.subrange(0, i as int);
            assert(t.drop_last() =~= self.routes@.subrange(0, i - 1));
            if self.routes[i - 1].0 == method && bytes_eq(
                self.routes[i - 1].1.as_slice(),
                path.as_slice(),
            ) {
                let arg = if body.len() > 0 {
                    Some(body)
                } else {
                    None
                };
                let handler = &self.routes[i - 1].2;
                assert(self.routes@[i - 1].2.requires((arg,)));
                assert(t.last() == self.routes@[i - 1]);
                return handler(arg);
            }
            i = i - 1;
        }
        HttpResponse::new(404, None)
    }

    /// Answers a parsed request.
    pub fn handle_request(&self, request: ParsedRequest) -> (r: HttpResponse)
        requires
            self.wf(),
        ensures
            self.answers(request.method, request.path@, request.body, r),
    {
        match request.method {
            None => HttpResponse::new(405, None),
            Some(m) => self.processing_response(request.body, m, &request.path),
        }
    }

    /// The bytes to send for a response.
    pub fn generate_http_response(response: &HttpResponse) -> (r: Vec<u8>)
        ensures
            r@ == response_bytes(*response),
    {
        serialize(response)
    }
}

proof fn lemma_route_of_remove<H>(
    s: Seq<(HttpMethod, Vec<u8>, H)>,
    i: int,
    m: HttpMethod,
    p: Seq<u8>,
)
    requires
        0 <= i < s.len(),
        !(s[i].0 == m && s[i].1@ == p),
    ensures
        route_of(s.remove(i), m, p) == route_of(s, m, p),
    decreases s.len(),
{
    if i == s.len() - 1 {
        assert(s.remove(i) =~= s.drop_last());
    } else {
        assert(s.remove(i).drop_last() =~= s.drop_last().remove(i));
        assert(s.remove(i).last() == s.last());
        lemma_route_of_remove(s.drop_last(), i, m, p);
    }
}

} // verus!

verus! {

/// A request for a registered method and path is answered with exactly what
/// that route's handler returns for the request body.
pub proof fn lemma_registered_route_answers<H: Fn(Option<Vec<u8>>) -> HttpResponse>(
    server: Server<H>,
    m: HttpMethod,
    path: Seq<u8>,
    handler: H,
    body: Vec<u8>,
    r: HttpResponse,
)
    requires
        server.handler_for(m, path) == Some(handler),
    ensures
        server.answers(Some(m), path, body, r) <==> handler.ensures((handler_arg(body),), r),
{
}

/// A request whose method is not one this server routes gets 405 with no
/// body, whatever its path; the route table plays no part in the answer.
pub proof fn lemma_unsupported_method_is_405<H: Fn(Option<Vec<u8>>) -> HttpResponse>(
    server: Server<H>,
    other: Server<H>,
    path: Seq<u8>,
    body: Vec<u8>,
    r: HttpResponse,
)
    ensures
        server.answers(None, path, body, r) <==> is_empty_response(r, 405),
        server.answers(None, path, body, r) <==> other.answers(None, path, body, r),
{
}

/// A request for a routed method on a path with no route gets 404 with no body.
pub proof fn lemma_unregistered_path_is_404<H: Fn(Option<Vec<u8>>) -> HttpResponse>(
    server: Server<H>,
    m: HttpMethod,
    path: Seq<u8>,
    body: Vec<u8>,
    r: HttpResponse,
)
    requires
        server.handler_for(m, path) is None,
    ensures
        server.answers(Some(m), path, body, r) <==> is_empty_response(r, 404),
{
}

} // verus!
