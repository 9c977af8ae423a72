//! A small URL router: a table from URL to canned response.
//!
//! A request is answered with the response registered for its URL, or with
//! the not-found response when no route matches.

use vstd::prelude::*;

use vstd::string::StrSliceExecFns;
use vstd::string::StringSliceAdditionalSpecFns;
use vstd::string::StringExecFns;

verus! {

/// An HTTP-style request.
pub struct Request {
    pub method: String,
    pub url: String,
    pub header: Vec<(String, String)>,
    pub body: Vec<u8>,
}

/// An HTTP-style response.
pub struct Response {
    pub code: u32,
    pub header: Vec<(String, String)>,
    pub body: Vec<u8>,
}

/// The mathematical content of a response: code, header pairs and body.
pub open spec fn resp_model(r: Response) -> (u32, Seq<(Seq<char>, Seq<char>)>, Seq<u8>) {
    (r.code, r.header@.map_values(|p: (String, String)| (p.0@, p.1@)), r.body@)
}

/// The response registered for a URL: the first route whose URL matches.
pub open spec fn route_lookup(rs: Seq<(String, Response)>, url: Seq<char>) -> Option<
    (u32, Seq<(Seq<char>, Seq<char>)>, Seq<u8>),
>
    decreases rs.len(),
{
    if rs.len() == 0 {
        None
    } else if rs[0].0@ == url {
        Some(resp_model(rs[0].1))
    } else {
        route_lookup(rs.skip(1), url)
    }
}

/// Replacing the first matching route changes exactly that URL's response.
proof fn lemma_lookup_update(rs: Seq<(String, Response)>, i: int, p: (String, Response))
    requires
        0 <= i < rs.len(),
        rs[i].0@ == p.0@,
        forall|j: int| 0 <= j < i ==> (#[trigger] rs[j]).0@ != p.0@,
    ensures
        forall|u: Seq<char>|
            #[trigger] route_lookup(rs.update(i, p), u) == if u == p.0@ {
                Some(resp_model(p.1))
            } else {
                route_lookup(rs, u)
            },
    decreases i,
{
    let r = rs.update(i, p);
    if i == 0 {
        assert forall|u: Seq<char>|
            #[trigger] route_lookup(r, u) == if u == p.0@ {
                Some(resp_model(p.1))
            } else {
                route_lookup(rs, u)
            } by {
            assert(r[0] == p);
            assert(r.skip(1) =~= rs.skip(1));
            if u == p.0@ {
                assert(route_lookup(r, u) == Some(resp_model(r[0].1)));
            } else {
                assert(route_lookup(r, u) == route_lookup(r.skip(1), u));
            }
        }
    } else {
        assert(forall|j: int| 0 <= j < rs.skip(1).len() ==> rs.skip(1)[j] == rs[j + 1]);
        lemma_lookup_update(rs.skip(1), i - 1, p);
        assert forall|u: Seq<char>|
            #[trigger] route_lookup(r, u) == if u == p.0@ {
                Some(resp_model(p.1))
            } else {
                route_lookup(rs, u)
            } by {
            assert(r[0] == rs[0]);
            assert(r.skip(1) =~= rs.skip(1).update(i - 1, p));
            assert(rs[0].0@ != p.0@);
            if u == p.0@ {
                assert(route_lookup(r, u) == route_lookup(r.skip(1), u));
                assert(route_lookup(r.skip(1), u) == Some(resp_model(p.1)));
            } else if rs[0].0@ == u {
                assert(route_lookup(r, u) == Some(resp_model(rs[0].1)));
                assert(route_lookup(rs, u) == Some(resp_model(rs[0].1)));
            } else {
                assert(route_lookup(r, u) == route_lookup(r.skip(1), u));
                assert(route_lookup(rs, u) == route_lookup(rs.skip(1), u));
            }
        }
    }
}

/// Appending a route for a fresh URL adds exactly that URL's response.
proof fn lemma_lookup_push(rs: Seq<(String, Response)>, p: (String, Response))
    requires
        forall|j: int| 0 <= j < rs.len() ==> (#[trigger] rs[j]).0@ != p.0@,
    ensures
        forall|u: Seq<char>|
            #[trigger] route_lookup(rs.push(p), u) == if u == p.0@ {
                Some(resp_model(p.1))
            } else {
                route_lookup(rs, u)
            },
    decreases rs.len(),
{
    let r = rs.push(p);
    if rs.len() == 0 {
        assert forall|u: Seq<char>|
            #[trigger] route_lookup(r, u) == if u == p.0@ {
                Some(resp_model(p.1))
            } else {
                route_lookup(rs, u)
            } by {
            assert(r[0] == p);
            assert(r.skip(1) =~= Seq::<(String, Response)>::empty());
            if u == p.0@ {
                assert(route_lookup(r, u) == Some(resp_model(r[0].1)));
            } else {
                assert(route_lookup(r, u) == route_lookup(r.skip(1), u));
                assert(route_lookup(r.skip(1), u) is None);
                assert(route_lookup(rs, u) is None);
            }
        }
    } else {
        assert(forall|j: int| 0 <= j < rs.skip(1).len() ==> rs.skip(1)[j] == rs[j + 1]);
        lemma_lookup_push(rs.skip(1), p);
        assert forall|u: Seq<char>|
            #[trigger] route_lookup(r, u) == if u == p.0@ {
                Some(resp_model(p.1))
            } else {
                route_lookup(rs, u)
            } by {
            assert(r[0] == rs[0]);
            assert(r.skip(1) =~= rs.skip(1).push(p));
            assert(rs[0].0@ != p.0@);
            if u == p.0@ {
                assert(route_lookup(r, u) == route_lookup(r.skip(1), u));
                assert(route_lookup(r.skip(1), u) == Some(resp_model(p.1)));
            } else if rs[0].0@ == u {
                assert(route_lookup(r, u) == Some(resp_model(rs[0].1)));
                assert(route_lookup(rs, u) == Some(resp_model(rs[0].1)));
            } else {
                assert(route_lookup(r, u) == route_lookup(r.skip(1), u));
                assert(route_lookup(rs, u) == route_lookup(rs.skip(1), u));
            }
        }
    }
}

/// Copies a byte vector.
fn clone_bytes(v: &Vec<u8>) -> (r: Vec<u8>)
    ensures
        r@ == v@,
{
    let mut r: Vec<u8> = Vec::new();
    let mut i: usize = 0;
    while i < v.len()
        invariant
            0 <= i <= v@.len(),
            r@ == v@.take(i as int),
        decreases v@.len() - i,
    {
        r.push(v[i]);
        proof {
            assert(v@.take(i + 1) =~= v@.take(i as int).push(v@[i as int]));
        }
        i = i + 1;
    }
    proof {
        assert(v@.take(v@.len() as int) =~= v@);
    }
    r
}

/// Copies a header table.
fn clone_header(h: &Vec<(String, String)>) -> (r: Vec<(String, String)>)
    ensures
        r@.map_values(|p: (String, String)| (p.0@, p.1@)) == h@.map_values(
            |p: (String, String)| (p.0@, p.1@),
        ),
{
    let mut r: Vec<(String, String)> = Vec::new();
    let mut i: usize = 0;
    while i < h.len()
        invariant
            0 <= i <= h@.len(),
            r@.map_values(|p: (String, String)| (p.0@, p.1@)) == h@.take(i as int).map_values(
                |p: (String, String)| (p.0@, p.1@),
            ),
        decreases h@.len() - i,
    {
        let ghost pre = r@;
        let k = String::from_str(h[i].0.as_str());
        let v = String::from_str(h[i].1.as_str());
        let ghost kv = (k, v);
        r.push((k, v));
        proof {
            let ghost lhs = r@.map_values(|p: (String, String)| (p.0@, p.1@));
            let ghost rhs = h@.take(i + 1).map_values(|p: (String, String)| (p.0@, p.1@));
            assert(pre.map_values(|p: (String, String)| (p.0@, p.1@)).len() == pre.len());
            assert(h@.take(i as int).map_values(|p: (String, String)| (p.0@, p.1@)).len()
                == h@.take(i as int).len());
            assert(pre.len() == i as int);
            assert(lhs.len() == i + 1);
            assert(rhs.len() == i + 1);
            assert forall|l: int| 0 <= l < lhs.len() implies lhs[l] == #[trigger] rhs[l] by {
                if l < pre.len() {
                    assert(r@[l] == pre[l]);
                    assert(pre.map_values(|p: (String, String)| (p.0@, p.1@))[l] == h@.take(
                        i as int,
                    ).map_values(|p: (String, String)| (p.0@, p.1@))[l]);
                    assert(h@.take(i as int)[l] == h@.take(i + 1)[l]);
                } else {
                    assert(r@[l] == kv);
                    assert(h@.take(i + 1)[l] == h@[i as int]);
                    assert(kv.0@ == h@[i as int].0@);
                    assert(kv.1@ == h@[i as int].1@);
                }
            }
            assert(lhs =~= rhs);
        }
        i = i + 1;
    }
    proof {
        assert(h@.take(h@.len() as int) =~= h@);
    }
    r
}

/// Copies a response.
fn clone_response(r: &Response) -> (c: Response)
    ensures
        resp_model(c) == resp_model(*r),
{
    Response { code: r.code, header: clone_header(&r.header), body: clone_bytes(&r.body) }
}

/// The not-found response: code 404.
pub fn not_found_response() -> (r: Response)
    ensures
        r.code == 404,
        r.header@.len() == 0,
        r.body@ == "<h1>Page not found</h1>".spec_bytes(),
{
    Response {
        code: 404,
        header: Vec::new(),
        body: "<h1>Page not found</h1>".as_bytes_vec(),
    }
}

/// The form response: code 200.
pub fn get_form_response() -> (r: Response)
    ensures
        r.code == 200,
        r.header@.len() == 0,
        r.body@ == "<form>".spec_bytes(),
{
    Response { code: 200, header: Vec::new(), body: "<form>".as_bytes_vec() }
}

/// A stub handler: answers 500, whatever the request says.
pub fn get_gcd_response(_req: &Request) -> (r: Response)
    ensures
        r.code == 500,
        r.header@.len() == 0,
        r.body@ == "<h1>Internal server error</h1>".spec_bytes(),
{
    Response {
        code: 500,
        header: Vec::new(),
        body: "<h1>Internal server error</h1>".as_bytes_vec(),
    }
}

/// A GET request for a URL, with no headers and an empty body.
pub fn req(url: &str) -> (r: Request)
    ensures
        r.method@ == "GET"@,
        r.url@ == url@,
        r.header@.len() == 0,
        r.body@.len() == 0,
{
    Request {
        method: String::from_str("GET"),
        url: String::from_str(url),
        header: Vec::new(),
        body: Vec::new(),
    }
}

/// The router: registered routes and the not-found fallback.
pub struct BasicRouter {
    pub routes: Vec<(String, Response)>,
    pub fallback: Response,
}

impl BasicRouter {
    /// An empty router: every request falls back to not-found.
    pub fn new() -> (r: BasicRouter)
        ensures
            r.routes@.len() == 0,
            resp_model(r.fallback).0 == 404,
    {
        BasicRouter { routes: Vec::new(), fallback: not_found_response() }
    }

    /// Registers `response` for `url`, replacing any earlier registration
    /// of the same URL and touching no other route.
    pub fn add_route(&mut self, url: &str, response: Response)
        ensures
            final(self).fallback == old(self).fallback,
            forall|u: Seq<char>|
                #[trigger] route_lookup(final(self).routes@, u) == if u == url@ {
                    Some(resp_model(response))
                } else {
                    route_lookup(old(self).routes@, u)
                },
    {
        let ghost rs = self.routes@;
        let key = String::from_str(url);
        let n = self.routes.len();
        let mut i: usize = 0;
        while i < n
            invariant
                0 <= i <= n,
                n == self.routes@.len(),
                self.routes@ == rs,
                rs == old(self).routes@,
                self.fallback == old(self).fallback,
                key@ == url@,
                forall|j: int| 0 <= j < i ==> (#[trigger] rs[j]).0@ != url@,
            decreases n - i,
        {
            if self.routes[i].0 == key {
                let pair = (key, response);
                let ghost pairg = pair;
                let _ = self.routes.remove(i);
                self.routes.insert(i, pair);
                proof {
                    assert(self.routes@ =~= rs.update(i as int, pairg));
                    lemma_lookup_update(rs, i as int, pairg);
                }
                return ;
            }
            i = i + 1;
        }
        let pair = (key, response);
        let ghost pairg = pair;
        self.routes.push(pair);
        proof {
            lemma_lookup_push(rs, pairg);
        }
    }

    /// Answers a request: the registered response for its URL, or the
    /// not-found fallback when no route matches.
    pub fn handle_request(&self, request: &Request) -> (r: Response)
        ensures
            resp_model(r) == match route_lookup(self.routes@, request.url@) {
                Some(m) => m,
                None => resp_model(self.fallback),
            },
    {
        let n = self.routes.len();
        let mut i: usize = 0;
        proof {
            assert(self.routes@.skip(0) =~= self.routes@);
        }
        while i < n
            invariant
                0 <= i <= n,
                n == self.routes@.len(),
                route_lookup(self.routes@, request.url@) == route_lookup(
                    self.routes@.skip(i as int),
                    request.url@,
                ),
            decreases n - i,
        {
            proof {
                assert(self.routes@.skip(i as int)[0] == self.routes@[i as int]);
                assert(self.routes@.skip(i as int).skip(1) =~= self.routes@.skip(i + 1));
            }
            if self.routes[i].0 == request.url {
                return clone_response(&self.routes[i].1);
            }
            i = i + 1;
        }
        proof {
            assert(self.routes@.skip(n as int).len() == 0);
        }
        clone_response(&self.fallback)
    }
}

} // verus!
