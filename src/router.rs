//! The route table, the middleware list, and request dispatch.
use vstd::prelude::*;

use crate::context::Context;
use crate::error::WebRouterError;
use crate::request::Request;
use crate::response::Response;
use crate::table::{with_entry, Table};
use crate::text::{split_on, split_text, texts, lemma_split_nonempty};
use crate::utils::{format_path_by_slashes, normalize, HttpMethod, HttpStatusCode};

verus! {

/// One registered path pattern and its handlers, one per method.
pub struct Route<H> {
    path: String,
    handlers: Vec<(HttpMethod, H)>,
}

/// Routes requests to handlers after running every middleware in order.
/// `H` is a handler (context to response), `M` a middleware (context to context).
pub struct WebRouter<H, M> {
    routes: Vec<Route<H>>,
    middlewares: Vec<M>,
}

/// The route table as plain values: each pattern with the methods it has handlers for.
pub type RouteTable = Seq<(Seq<char>, Seq<HttpMethod>)>;

/// The index of the first route with pattern `p` at or after `k`, or -1.
pub open spec fn path_index(rs: RouteTable, p: Seq<char>, k: int) -> int
    decreases rs.len() - k,
{
    if k < 0 || k >= rs.len() {
        -1
    } else if rs[k].0 == p {
        k
    } else {
        path_index(rs, p, k + 1)
    }
}

/// The index of the first occurrence of `m` at or after `k`, or -1.
pub open spec fn method_index(ms: Seq<HttpMethod>, m: HttpMethod, k: int) -> int
    decreases ms.len() - k,
{
    if k < 0 || k >= ms.len() {
        -1
    } else if ms[k] == m {
        k
    } else {
        method_index(ms, m, k + 1)
    }
}

/// The table after registering method `m` at the normalized pattern `p`.
pub open spec fn with_route(rs: RouteTable, p: Seq<char>, m: HttpMethod) -> RouteTable {
    let i = path_index(rs, p, 0);
    if i >= 0 {
        if method_index(rs[i].1, m, 0) >= 0 {
            rs
        } else {
            rs.update(i, (p, rs[i].1.push(m)))
        }
    } else {
        rs.push((p, seq![m]))
    }
}

/// Whether a pattern segment binds a parameter.
pub open spec fn is_param(seg: Seq<char>) -> bool {
    seg.len() > 0 && seg[0] == ':'
}

/// The parameters bound by the first `n` segments, none if a literal segment differs.
pub open spec fn bind_segments(
    pat: Seq<Seq<char>>,
    req: Seq<Seq<char>>,
    n: int,
) -> Option<Seq<(Seq<char>, Seq<char>)>>
    decreases n,
{
    if n <= 0 {
        Some(Seq::empty())
    } else {
        match bind_segments(pat, req, n - 1) {
            None => None,
            Some(acc) => if is_param(pat[n - 1]) {
                Some(with_entry(acc, pat[n - 1].skip(1), req[n - 1]))
            } else if pat[n - 1] == req[n - 1] {
                Some(acc)
            } else {
                None
            },
        }
    }
}

/// The segments of a request path, its query left out.
pub open spec fn request_segments(path: Seq<char>) -> Seq<Seq<char>> {
    split_on(split_on(path, '?')[0], '/')
}

/// The parameters with which `pattern` matches request path `path`, if it does:
/// both have the same number of segments, each literal segment is equal, and
/// each `:name` segment binds `name` to the request's segment.
pub open spec fn dynamic_params(path: Seq<char>, pattern: Seq<char>) -> Option<Seq<(Seq<char>, Seq<char>)>> {
    let req = request_segments(path);
    let pat = split_on(pattern, '/');
    if req.len() != pat.len() {
        None
    } else {
        bind_segments(pat, req, pat.len() as int)
    }
}

/// The query text of a path: what stands between its first and second `?`.
pub open spec fn query_text(path: Seq<char>) -> Option<Seq<char>> {
    let parts = split_on(path, '?');
    if parts.len() > 1 {
        Some(parts[1])
    } else {
        None
    }
}

/// The key of a query piece: the text before its first `=`.
pub open spec fn piece_key(piece: Seq<char>) -> Seq<char> {
    split_on(piece, '=')[0]
}

/// The value of a query piece: the text between its first and second `=`, or empty text.
pub open spec fn piece_value(piece: Seq<char>) -> Seq<char> {
    let kv = split_on(piece, '=');
    if kv.len() > 1 {
        kv[1]
    } else {
        Seq::empty()
    }
}

/// The parameters of the first `n` `&`-separated pieces, none if one has an empty key.
pub open spec fn query_pieces(pieces: Seq<Seq<char>>, n: int) -> Option<Seq<(Seq<char>, Seq<char>)>>
    decreases n,
{
    if n <= 0 {
        Some(Seq::empty())
    } else {
        match query_pieces(pieces, n - 1) {
            None => None,
            Some(acc) => if piece_key(pieces[n - 1]).len() == 0 {
                None
            } else {
                Some(with_entry(acc, piece_key(pieces[n - 1]), piece_value(pieces[n - 1])))
            },
        }
    }
}

/// The query parameters of a path; none where a piece has an empty key.
pub open spec fn query_params_of(path: Seq<char>) -> Option<Seq<(Seq<char>, Seq<char>)>> {
    match query_text(path) {
        None => Some(Seq::empty()),
        Some(q) => {
            let pieces = split_on(q, '&');
            query_pieces(pieces, pieces.len() as int)
        },
    }
}

/// The index of the first route at or after `k` that matches `path` dynamically
/// and has a handler for `m`, or -1.
pub open spec fn first_dynamic(rs: RouteTable, path: Seq<char>, m: HttpMethod, k: int) -> int
    decreases rs.len() - k,
{
    if k < 0 || k >= rs.len() {
        -1
    } else if dynamic_params(path, rs[k].0) is Some && method_index(rs[k].1, m, 0) >= 0 {
        k
    } else {
        first_dynamic(rs, path, m, k + 1)
    }
}

/// How a request path and method resolve against a route table.
pub enum Resolution {
    /// Run the handler at `slot` of route `route`; `exact` tells an exact
    /// match from a dynamic one.
    Run { route: int, slot: int, exact: bool },
    MethodNotAllowed,
    BadRequest,
    NotFound,
}

/// Resolution: an exact pattern first (405 if it lacks the method); else the
/// first dynamic match with the method, whose query must parse (else 400); else 404.
pub open spec fn resolve(rs: RouteTable, path: Seq<char>, m: HttpMethod) -> Resolution {
    let i = path_index(rs, path, 0);
    if i >= 0 {
        let j = method_index(rs[i].1, m, 0);
        if j >= 0 {
            Resolution::Run { route: i, slot: j, exact: true }
        } else {
            Resolution::MethodNotAllowed
        }
    } else {
        let d = first_dynamic(rs, path, m, 0);
        if d < 0 {
            Resolution::NotFound
        } else if query_params_of(path) is None {
            Resolution::BadRequest
        } else {
            Resolution::Run { route: d, slot: method_index(rs[d].1, m, 0), exact: false }
        }
    }
}

/// What the router decided for one request.
pub enum RouteMatch {
    /// The route and slot of a handler whose pattern equals the path.
    Exact(usize, usize),
    /// The route and slot of a handler matched dynamically, with the path and query parameters.
    Dynamic(usize, usize, Table<String>, Table<String>),
    MethodNotAllowed,
    BadRequest,
    NotFound,
}

pub proof fn lemma_path_index_bounds(rs: RouteTable, p: Seq<char>, k: int)
    ensures
        path_index(rs, p, k) == -1 || (k <= path_index(rs, p, k) < rs.len() && rs[path_index(rs, p, k)].0 == p),
    decreases rs.len() - k,
{
    if 0 <= k < rs.len() && rs[k].0 != p {
        lemma_path_index_bounds(rs, p, k + 1);
    }
}

pub proof fn lemma_method_index_bounds(ms: Seq<HttpMethod>, m: HttpMethod, k: int)
    ensures
        method_index(ms, m, k) == -1 || (k <= method_index(ms, m, k) < ms.len() && ms[method_index(ms, m, k)] == m),
    decreases ms.len() - k,
{
    if 0 <= k < ms.len() && ms[k] != m {
        lemma_method_index_bounds(ms, m, k + 1);
    }
}

pub proof fn lemma_first_dynamic_bounds(rs: RouteTable, path: Seq<char>, m: HttpMethod, k: int)
    ensures
        first_dynamic(rs, path, m, k) == -1 || ({
            let d = first_dynamic(rs, path, m, k);
            &&& k <= d < rs.len()
            &&& dynamic_params(path, rs[d].0) is Some
            &&& method_index(rs[d].1, m, 0) >= 0
        }),
    decreases rs.len() - k,
{
    if 0 <= k < rs.len() && !(dynamic_params(path, rs[k].0) is Some && method_index(rs[k].1, m, 0) >= 0) {
        lemma_first_dynamic_bounds(rs, path, m, k + 1);
    }
}

pub proof fn lemma_bind_none_stays(pat: Seq<Seq<char>>, req: Seq<Seq<char>>, n: int, k: int)
    requires
        0 <= n <= k,
        bind_segments(pat, req, n) is None,
    ensures
        bind_segments(pat, req, k) is None,
    decreases k - n,
{
    if n < k {
        lemma_bind_none_stays(pat, req, n, k - 1);
    }
}

pub proof fn lemma_query_none_stays(pieces: Seq<Seq<char>>, n: int, k: int)
    requires
        0 <= n <= k,
        query_pieces(pieces, n) is None,
    ensures
        query_pieces(pieces, k) is None,
    decreases k - n,
{
    if n < k {
        lemma_query_none_stays(pieces, n, k - 1);
    }
}

/// The dynamic parameters of `path` under `pattern`, if the pattern matches.
fn match_dynamic_route(request_path: &str, route_path: &str) -> (r: Option<Table<String>>)
    ensures
        match r {
            Some(t) => dynamic_params(request_path@, route_path@) == Some(t@),
            None => dynamic_params(request_path@, route_path@) is None,
        },
{
    let without_query = split_text(request_path, '?');
    proof {
        lemma_split_nonempty(request_path@, '?');
    }
    assert(without_query@[0]@ == split_on(request_path@, '?')[0]);
    let req = split_text(without_query[0].as_str(), '/');
    let pat = split_text(route_path, '/');
    let ghost rq = texts(req@);
    let ghost pt = texts(pat@);
    if req.len() != pat.len() {
        return None;
    }
    let mut params: Table<String> = Table::new();
    let mut i: usize = 0;
    while i < pat.len()
        invariant
            rq == texts(req@),
            pt == texts(pat@),
            rq == request_segments(request_path@),
            pt == split_on(route_path@, '/'),
            req@.len() == pat@.len(),
            i <= pat@.len(),
            bind_segments(pt, rq, i as int) == Some(params@),
        decreases pat@.len() - i,
    {
        let seg = pat[i].as_str();
        assert(seg@ == pt[i as int]);
        assert(req@[i as int]@ == rq[i as int]);
        let n = seg.unicode_len();
        if n > 0 && seg.get_char(0) == ':' {
            let name = String::from_str(seg.substring_char(1, n));
            assert(name@ =~= pt[i as int].skip(1));
            params.insert(name, req[i].clone());
        } else if !crate::text::same_text(seg, req[i].as_str()) {
            proof {
                assert(bind_segments(pt, rq, i as int + 1) is None);
                lemma_bind_none_stays(pt, rq, i as int + 1, pt.len() as int);
            }
            return None;
        }
        i = i + 1;
    }
    Some(params)
}

/// The query parameters of a path, none where a piece has an empty key.
fn parse_query(path: &str) -> (r: Option<Table<String>>)
    ensures
        match r {
            Some(t) => query_params_of(path@) == Some(t@),
            None => query_params_of(path@) is None,
        },
{
    let parts = split_text(path, '?');
    if parts.len() <= 1 {
        return Some(Table::new());
    }
    let pieces = split_text(parts[1].as_str(), '&');
    let ghost ps = texts(pieces@);
    let mut params: Table<String> = Table::new();
    let mut i: usize = 0;
    while i < pieces.len()
        invariant
            ps == texts(pieces@),
            query_text(path@) is Some,
            ps == split_on(query_text(path@)->Some_0, '&'),
            i <= pieces@.len(),
            query_pieces(ps, i as int) == Some(params@),
        decreases pieces@.len() - i,
    {
        let kv = split_text(pieces[i].as_str(), '=');
        proof {
            lemma_split_nonempty(ps[i as int], '=');
        }
        assert(kv@[0]@ == piece_key(ps[i as int]));
        if kv[0].unicode_len() == 0 {
            proof {
                assert(query_pieces(ps, i as int + 1) is None);
                lemma_query_none_stays(ps, i as int + 1, ps.len() as int);
            }
            return None;
        }
        let value = if kv.len() > 1 {
            kv[1].clone()
        } else {
            String::new()
        };
        assert(value@ == piece_value(ps[i as int]));
        params.insert(kv[0].clone(), value);
        i = i + 1;
    }
    Some(params)
}

impl<H, M> WebRouter<H, M> {
    /// The route table as plain values.
    pub closed spec fn table(&self) -> RouteTable {
        self.routes@.map_values(
            |r: Route<H>| (r.path@, r.handlers@.map_values(|e: (HttpMethod, H)| e.0)),
        )
    }

    /// The handler at `slot` of route `route`.
    pub closed spec fn handler(&self, route: int, slot: int) -> H {
        self.routes@[route].handlers@[slot].1
    }

    /// The middlewares, in the order they run.
    pub closed spec fn middleware_list(&self) -> Seq<M> {
        self.middlewares@
    }

    /// An empty router.
    pub fn new() -> (r: WebRouter<H, M>)
        ensures
            r.table() == RouteTable::empty(),
            r.middleware_list() == Seq::<M>::empty(),
    {
        let r = WebRouter { routes: Vec::new(), middlewares: Vec::new() };
        assert(r.table() =~= RouteTable::empty());
        r
    }

    /// The index of the route with pattern `p`.
    fn find_route(&self, p: &str) -> (r: Option<usize>)
        ensures
            match r {
                Some(i) => path_index(self.table(), p@, 0) == i as int,
                None => path_index(self.table(), p@, 0) == -1,
            },
    {
        let mut i: usize = 0;
        while i < self.routes.len()
            invariant
                i <= self.routes@.len(),
                self.table().len() == self.routes@.len(),
                path_index(self.table(), p@, 0) == path_index(self.table(), p@, i as int),
            decreases self.routes@.len() - i,
        {
            assert(self.table()[i as int].0 == self.routes@[i as int].path@);
            if crate::text::same_text(self.routes[i].path.as_str(), p) {
                return Some(i);
            }
            i = i + 1;
        }
        None
    }
}

/// A context as the router first builds it for `req`: the request with its
/// path normalized, a default response, and no parameters.
pub open spec fn fresh_context(c: Context, req: Request) -> bool {
    &&& c.request.method == req.method
    &&& c.request.path@ == normalize(req.path@)
    &&& c.request.version == req.version
    &&& c.request.headers == req.headers
    &&& c.request.body == req.body
    &&& c.request.cookies == req.cookies
    &&& c.response.status_code == HttpStatusCode::OK
    &&& c.response.headers@.len() == 0
    &&& c.response.body@.len() == 0
    &&& c.response.cookies@.len() == 0
    &&& c.params@.len() == 0
    &&& c.query_params@.len() == 0
}

/// A response the router makes itself: the status, its reason phrase as the
/// body, no headers and no cookies.
pub open spec fn status_response(r: Response, s: HttpStatusCode) -> bool {
    &&& r.status_code == s
    &&& r.body@ == crate::utils::reason(s)
    &&& r.headers@.len() == 0
    &&& r.cookies@.len() == 0
}

/// A response the router makes itself.
fn status_only(s: HttpStatusCode) -> (r: Response)
    ensures
        status_response(r, s),
{
    Response::new(s, String::from_str(s.code().0))
}

impl<H: Fn(Context) -> Response, M: Fn(Context) -> Context> WebRouter<H, M> {
    /// Every middleware and every handler accepts every context.
    pub open spec fn callable(&self) -> bool {
        &&& forall|k: int, c: Context|
            0 <= k < self.middleware_list().len() ==> #[trigger] call_requires(
                self.middleware_list()[k],
                (c,),
            )
        &&& forall|i: int, j: int, c: Context|
            0 <= i < self.table().len() && 0 <= j < self.table()[i].1.len() ==> #[trigger] call_requires(
                self.handler(i, j),
                (c,),
            )
    }

    /// `trace` is a run of the middleware chain on `req`: it starts at the
    /// fresh context, and each middleware turned one context into the next.
    pub open spec fn runs(&self, trace: Seq<Context>, req: Request) -> bool {
        &&& trace.len() == self.middleware_list().len() + 1
        &&& fresh_context(trace[0], req)
        &&& forall|k: int|
            0 <= k < self.middleware_list().len() ==> #[trigger] call_ensures(
                self.middleware_list()[k],
                (trace[k],),
                trace[k + 1],
            )
    }

    /// `r` is what the router answers for the context `c` that the middleware left.
    pub open spec fn answers(&self, c: Context, r: Response) -> bool {
        match resolve(self.table(), c.request.path@, c.request.method) {
            Resolution::Run { route, slot, exact } => if exact {
                call_ensures(self.handler(route, slot), (c,), r)
            } else {
                exists|c2: Context|
                    #[trigger] call_ensures(self.handler(route, slot), (c2,), r) && c2.request
                        == c.request && c2.response == c.response && dynamic_params(
                        c.request.path@,
                        self.table()[route].0,
                    ) == Some(c2.params@) && query_params_of(c.request.path@) == Some(
                        c2.query_params@,
                    )
            },
            Resolution::MethodNotAllowed => status_response(r, HttpStatusCode::MethodNotAllowed),
            Resolution::BadRequest => status_response(r, HttpStatusCode::BadRequest),
            Resolution::NotFound => status_response(r, HttpStatusCode::NotFound),
        }
    }

    /// Registers `handler` for `method` at the normalized `path`; a handler
    /// already registered there for that method is replaced.
    pub fn add(&mut self, path: String, method: HttpMethod, handler: H) -> (r: Result<(), WebRouterError>)
        ensures
            r is Ok,
            final(self).table() == with_route(old(self).table(), normalize(path@), method),
            final(self).middleware_list() == old(self).middleware_list(),
            ({
                let i = path_index(final(self).table(), normalize(path@), 0);
                let j = method_index(final(self).table()[i].1, method, 0);
                i >= 0 && j >= 0 && final(self).handler(i, j) == handler
            }),
            forall|i: int, j: int|
                0 <= i < old(self).table().len() && 0 <= j < old(self).table()[i].1.len() && !(i
                    == path_index(old(self).table(), normalize(path@), 0) && j == method_index(
                    old(self).table()[i].1,
                    method,
                    0,
                )) ==> #[trigger] final(self).handler(i, j) == old(self).handler(i, j),
    {
        let p = match format_path_by_slashes(path) {
            Ok(formatted) => formatted,
            Err(e) => {
                return Err(e);
            },
        };
        let ghost old_table = self.table();
        proof {
            lemma_path_index_bounds(old_table, p@, 0);
        }
        match self.find_route(p.as_str()) {
            Some(i) => {
                let mut route = self.routes.remove(i);
                let ghost ms = route.handlers@.map_values(|e: (HttpMethod, H)| e.0);
                assert(ms == old_table[i as int].1);
                proof {
                    lemma_method_index_bounds(ms, method, 0);
                }
                match find_method(&route.handlers, method) {
                    Some(j) => {
                        route.handlers.set(j, (method, handler));
                        assert(route.handlers@.map_values(|e: (HttpMethod, H)| e.0) =~= ms);
                    },
                    None => {
                        route.handlers.push((method, handler));
                        assert(route.handlers@.map_values(|e: (HttpMethod, H)| e.0) =~= ms.push(method));
                        proof {
                            lemma_method_index_push(ms, method);
                        }
                    },
                }
                self.routes.insert(i, route);
                assert(self.table() =~= with_route(old_table, p@, method));
                proof {
                    lemma_path_index_bounds(self.table(), p@, 0);
                    lemma_path_index_same(old_table, self.table(), p@, 0);
                }
            },
            None => {
                let mut handlers: Vec<(HttpMethod, H)> = Vec::new();
                handlers.push((method, handler));
                let ghost pv = p@;
                assert(handlers@.map_values(|e: (HttpMethod, H)| e.0) =~= seq![method]);
                self.routes.push(Route { path: p, handlers });
                assert(self.table() =~= old_table.push((pv, seq![method])));
                proof {
                    lemma_path_index_push(old_table, (pv, seq![method]), 0);
                    assert(method_index(seq![method], method, 0) == 0);
                }
            },
        }
        Ok(())
    }

    /// Appends a middleware; middlewares run in the order they were added.
    pub fn add_middleware(&mut self, middleware_func: M)
        ensures
            final(self).middleware_list() == old(self).middleware_list().push(middleware_func),
            final(self).table() == old(self).table(),
            forall|i: int, j: int| #[trigger] final(self).handler(i, j) == old(self).handler(i, j),
    {
        self.middlewares.push(middleware_func);
    }

    /// Resolves a normalized request path and a method against the table.
    pub fn resolve(&self, path: &str, method: HttpMethod) -> (r: RouteMatch)
        ensures
            match resolve(self.table(), path@, method) {
                Resolution::Run { route, slot, exact } => if exact {
                    r matches RouteMatch::Exact(i, j) && i == route && j == slot
                } else {
                    r matches RouteMatch::Dynamic(i, j, ps, qs) && i == route && j == slot
                        && dynamic_params(path@, self.table()[route].0) == Some(ps@)
                        && query_params_of(path@) == Some(qs@)
                },
                Resolution::MethodNotAllowed => r is MethodNotAllowed,
                Resolution::BadRequest => r is BadRequest,
                Resolution::NotFound => r is NotFound,
            },
    {
        let ghost t = self.table();
        proof {
            lemma_path_index_bounds(t, path@, 0);
        }
        match self.find_route(path) {
            Some(i) => {
                assert(t[i as int].1 == self.routes@[i as int].handlers@.map_values(|e: (HttpMethod, H)| e.0));
                match find_method(&self.routes[i].handlers, method) {
                    Some(j) => RouteMatch::Exact(i, j),
                    None => RouteMatch::MethodNotAllowed,
                }
            },
            None => {
                let mut k: usize = 0;
                while k < self.routes.len()
                    invariant
                        t == self.table(),
                        path_index(t, path@, 0) == -1,
                        k <= self.routes@.len(),
                        t.len() == self.routes@.len(),
                        first_dynamic(t, path@, method, 0) == first_dynamic(t, path@, method, k as int),
                    decreases self.routes@.len() - k,
                {
                    assert(t[k as int].0 == self.routes@[k as int].path@);
                    assert(t[k as int].1 == self.routes@[k as int].handlers@.map_values(|e: (HttpMethod, H)| e.0));
                    match match_dynamic_route(path, self.routes[k].path.as_str()) {
                        Some(params) => match find_method(&self.routes[k].handlers, method) {
                            Some(j) => {
                                return match parse_query(path) {
                                    Some(q) => RouteMatch::Dynamic(k, j, params, q),
                                    None => RouteMatch::BadRequest,
                                };
                            },
                            None => {},
                        },
                        None => {},
                    }
                    k = k + 1;
                }
                RouteMatch::NotFound
            },
        }
    }

    /// Normalizes the request's path, runs every middleware in order on a
    /// fresh context, then answers as `resolve` decides: the handler it names
    /// (with path and query parameters for a dynamic match), or a 405, 400 or
    /// 404 response with the reason phrase as its body.
    pub fn handle_request(&self, request: Request) -> (r: Result<Response, WebRouterError>)
        requires
            self.callable(),
        ensures
            r matches Ok(resp) && exists|trace: Seq<Context>|
                #[trigger] self.runs(trace, request) && self.answers(trace.last(), resp),
    {
        let ghost req0 = request;
        let Request { method, path, version, headers, body, cookies } = request;
        let path = match format_path_by_slashes(path) {
            Ok(formatted) => formatted,
            Err(e) => {
                return Err(e);
            },
        };
        let mut context = Context::new(Request { method, path, version, headers, body, cookies });
        let ghost mut trace: Seq<Context> = seq![context];
        let mut k: usize = 0;
        while k < self.middlewares.len()
            invariant
                self.callable(),
                k <= self.middlewares@.len(),
                trace.len() == k + 1,
                fresh_context(trace[0], req0),
                trace.last() == context,
                forall|q: int|
                    0 <= q < k ==> #[trigger] call_ensures(
                        self.middleware_list()[q],
                        (trace[q],),
                        trace[q + 1],
                    ),
            decreases self.middlewares@.len() - k,
        {
            let f = &self.middlewares[k];
            assert(call_requires(self.middleware_list()[k as int], (context,)));
            context = f(context);
            proof {
                let prev = trace;
                trace = trace.push(context);
                assert forall|q: int|
                    0 <= q < k + 1 implies #[trigger] call_ensures(
                        self.middleware_list()[q],
                        (trace[q],),
                        trace[q + 1],
                    ) by {
                    if q < k {
                        assert(trace[q] == prev[q] && trace[q + 1] == prev[q + 1]);
                    }
                }
            }
            k = k + 1;
        }
        assert(self.runs(trace, req0));
        let ghost t = self.table();
        let decision = self.resolve(context.request.path.as_str(), context.request.method);
        proof {
            lemma_path_index_bounds(t, context.request.path@, 0);
            lemma_first_dynamic_bounds(t, context.request.path@, context.request.method, 0);
            let i = path_index(t, context.request.path@, 0);
            if i >= 0 {
                lemma_method_index_bounds(t[i].1, context.request.method, 0);
            }
            let d = first_dynamic(t, context.request.path@, context.request.method, 0);
            if d >= 0 {
                lemma_method_index_bounds(t[d].1, context.request.method, 0);
            }
        }
        let ghost last = context;
        let resp = match decision {
            RouteMatch::Exact(i, j) => {
                let h = &self.routes[i].handlers[j].1;
                assert(call_requires(self.handler(i as int, j as int), (context,)));
                h(context)
            },
            RouteMatch::Dynamic(i, j, params, query) => {
                context.params = params;
                context.query_params = query;
                let h = &self.routes[i].handlers[j].1;
                assert(call_requires(self.handler(i as int, j as int), (context,)));
                let out = h(context);
                assert(call_ensures(self.handler(i as int, j as int), (context,), out));
                out
            },
            RouteMatch::MethodNotAllowed => status_only(HttpStatusCode::MethodNotAllowed),
            RouteMatch::BadRequest => status_only(HttpStatusCode::BadRequest),
            RouteMatch::NotFound => status_only(HttpStatusCode::NotFound),
        };
        assert(self.answers(last, resp));
        Ok(resp)
    }
}

pub proof fn lemma_method_index_push(ms: Seq<HttpMethod>, m: HttpMethod)
    requires
        method_index(ms, m, 0) == -1,
    ensures
        method_index(ms.push(m), m, 0) == ms.len(),
{
    assert forall|k: int| 0 <= k <= ms.len() implies method_index(ms.push(m), m, k) == ms.len() by {
        lemma_method_index_push_from(ms, m, k);
    }
}

proof fn lemma_method_index_push_from(ms: Seq<HttpMethod>, m: HttpMethod, k: int)
    requires
        0 <= k <= ms.len(),
        method_index(ms, m, 0) == -1,
    ensures
        method_index(ms.push(m), m, k) == ms.len(),
    decreases ms.len() - k,
{
    lemma_method_index_none(ms, m, 0);
    if k < ms.len() {
        lemma_method_index_push_from(ms, m, k + 1);
    }
}

proof fn lemma_method_index_none(ms: Seq<HttpMethod>, m: HttpMethod, k: int)
    requires
        0 <= k,
        method_index(ms, m, k) == -1,
    ensures
        forall|q: int| k <= q < ms.len() ==> ms[q] != m,
    decreases ms.len() - k,
{
    if k < ms.len() {
        lemma_method_index_none(ms, m, k + 1);
    }
}

proof fn lemma_path_index_none(rs: RouteTable, p: Seq<char>, k: int)
    requires
        0 <= k,
        path_index(rs, p, k) == -1,
    ensures
        forall|q: int| k <= q < rs.len() ==> rs[q].0 != p,
    decreases rs.len() - k,
{
    if k < rs.len() {
        lemma_path_index_none(rs, p, k + 1);
    }
}

proof fn lemma_path_index_push(rs: RouteTable, e: (Seq<char>, Seq<HttpMethod>), k: int)
    requires
        0 <= k <= rs.len(),
        path_index(rs, e.0, 0) == -1,
    ensures
        path_index(rs.push(e), e.0, k) == rs.len(),
    decreases rs.len() - k,
{
    lemma_path_index_none(rs, e.0, 0);
    if k < rs.len() {
        lemma_path_index_push(rs, e, k + 1);
    }
}

/// Two tables with the same patterns find a pattern at the same index.
proof fn lemma_path_index_same(a: RouteTable, b: RouteTable, p: Seq<char>, k: int)
    requires
        a.len() == b.len(),
        forall|q: int| 0 <= q < a.len() ==> #[trigger] a[q].0 == b[q].0,
    ensures
        path_index(a, p, k) == path_index(b, p, k),
    decreases a.len() - k,
{
    if 0 <= k < a.len() {
        lemma_path_index_same(a, b, p, k + 1);
    }
}


/// A request whose path and method exactly match a registration is answered by
/// that registration's handler, even where a dynamic pattern would match too.
pub proof fn exact_match_wins<H: Fn(Context) -> Response, M: Fn(Context) -> Context>(
    router: &WebRouter<H, M>,
    c: Context,
    resp: Response,
)
    requires
        path_index(router.table(), c.request.path@, 0) >= 0,
        method_index(
            router.table()[path_index(router.table(), c.request.path@, 0)].1,
            c.request.method,
            0,
        ) >= 0,
        router.answers(c, resp),
    ensures
        call_ensures(
            router.handler(
                path_index(router.table(), c.request.path@, 0),
                method_index(
                    router.table()[path_index(router.table(), c.request.path@, 0)].1,
                    c.request.method,
                    0,
                ),
            ),
            (c,),
            resp,
        ),
{
}

/// A pattern matches a request path dynamically only when both have the same
/// number of `/`-separated segments (the query left out).
pub proof fn dynamic_match_needs_equal_segments(path: Seq<char>, pattern: Seq<char>)
    requires
        dynamic_params(path, pattern) is Some,
    ensures
        request_segments(path).len() == split_on(pattern, '/').len(),
{
}

/// The slot of the handler for `m` in a route.
fn find_method<H>(handlers: &Vec<(HttpMethod, H)>, m: HttpMethod) -> (r: Option<usize>)
    ensures
        match r {
            Some(j) => method_index(handlers@.map_values(|e: (HttpMethod, H)| e.0), m, 0) == j as int,
            None => method_index(handlers@.map_values(|e: (HttpMethod, H)| e.0), m, 0) == -1,
        },
{
    let ghost ms = handlers@.map_values(|e: (HttpMethod, H)| e.0);
    let mut j: usize = 0;
    while j < handlers.len()
        invariant
            ms == handlers@.map_values(|e: (HttpMethod, H)| e.0),
            j <= handlers@.len(),
            method_index(ms, m, 0) == method_index(ms, m, j as int),
        decreases handlers@.len() - j,
    {
        if handlers[j].0 == m {
            return Some(j);
        }
        j = j + 1;
    }
    None
}

} // verus!
