//! Methods, status codes, cookies and the path normalization rule.
use vstd::prelude::*;

use crate::error::WebRouterError;
use crate::text::{is_ws, is_ws_char, trim, trim_end, trim_start, trim_str};

verus! {

/// The request methods the server tells apart.
#[derive(Debug, Clone, Copy, PartialEq, Eq, Structural)]
pub enum HttpMethod {
    GET,
    POST,
    PATCH,
    DELETE,
}

/// The name of a method as it appears on the wire.
pub open spec fn method_name(m: HttpMethod) -> Seq<char> {
    match m {
        HttpMethod::GET => "GET"@,
        HttpMethod::POST => "POST"@,
        HttpMethod::PATCH => "PATCH"@,
        HttpMethod::DELETE => "DELETE"@,
    }
}

/// The method a request line's first word names; an unknown word reads as GET.
pub open spec fn method_of(word: Seq<char>) -> HttpMethod {
    if word == "POST"@ {
        HttpMethod::POST
    } else if word == "PATCH"@ {
        HttpMethod::PATCH
    } else if word == "DELETE"@ {
        HttpMethod::DELETE
    } else {
        HttpMethod::GET
    }
}

impl HttpMethod {
    pub fn to_string(&self) -> (r: String)
        ensures
            r@ == method_name(*self),
    {
        match self {
            HttpMethod::GET => String::from_str("GET"),
            HttpMethod::POST => String::from_str("POST"),
            HttpMethod::PATCH => String::from_str("PATCH"),
            HttpMethod::DELETE => String::from_str("DELETE"),
        }
    }

    /// The method that `word` names, GET for any word that names none.
    pub fn from_word(word: &str) -> (r: HttpMethod)
        ensures
            r == method_of(word@),
    {
        if crate::text::same_text(word, "POST") {
            HttpMethod::POST
        } else if crate::text::same_text(word, "PATCH") {
            HttpMethod::PATCH
        } else if crate::text::same_text(word, "DELETE") {
            HttpMethod::DELETE
        } else {
            HttpMethod::GET
        }
    }
}

/// The status codes a response can carry.
#[derive(Debug, Clone, Copy, PartialEq, Eq, Structural)]
pub enum HttpStatusCode {
    OK,
    Created,
    Accepted,
    NoContent,
    MovedPermanently,
    Found,
    SeeOther,
    NotModified,
    BadRequest,
    Unauthorized,
    Forbidden,
    NotFound,
    MethodNotAllowed,
    InternalServerError,
    NotImplemented,
    BadGateway,
    ServiceUnavailable,
}

/// The reason phrase of a status.
pub open spec fn reason(s: HttpStatusCode) -> Seq<char> {
    match s {
        HttpStatusCode::OK => "OK"@,
        HttpStatusCode::Created => "Created"@,
        HttpStatusCode::Accepted => "Accepted"@,
        HttpStatusCode::NoContent => "No Content"@,
        HttpStatusCode::MovedPermanently => "Moved Permanently"@,
        HttpStatusCode::Found => "Found"@,
        HttpStatusCode::SeeOther => "See Other"@,
        HttpStatusCode::NotModified => "Not Modified"@,
        HttpStatusCode::BadRequest => "Bad Request"@,
        HttpStatusCode::Unauthorized => "Unauthorized"@,
        HttpStatusCode::Forbidden => "Forbidden"@,
        HttpStatusCode::NotFound => "Not Found"@,
        HttpStatusCode::MethodNotAllowed => "Method Not Allowed"@,
        HttpStatusCode::InternalServerError => "Internal Server Error"@,
        HttpStatusCode::NotImplemented => "Not Implemented"@,
        HttpStatusCode::BadGateway => "Bad Gateway"@,
        HttpStatusCode::ServiceUnavailable => "Service Unavailable"@,
    }
}

/// The numeric code of a status.
pub open spec fn status_number(s: HttpStatusCode) -> u16 {
    match s {
        HttpStatusCode::OK => 200,
        HttpStatusCode::Created => 201,
        HttpStatusCode::Accepted => 202,
        HttpStatusCode::NoContent => 204,
        HttpStatusCode::MovedPermanently => 301,
        HttpStatusCode::Found => 302,
        HttpStatusCode::SeeOther => 303,
        HttpStatusCode::NotModified => 304,
        HttpStatusCode::BadRequest => 400,
        HttpStatusCode::Unauthorized => 401,
        HttpStatusCode::Forbidden => 403,
        HttpStatusCode::NotFound => 404,
        HttpStatusCode::MethodNotAllowed => 405,
        HttpStatusCode::InternalServerError => 500,
        HttpStatusCode::NotImplemented => 501,
        HttpStatusCode::BadGateway => 502,
        HttpStatusCode::ServiceUnavailable => 503,
    }
}

impl HttpStatusCode {
    /// The reason phrase and the numeric code.
    pub fn code(&self) -> (r: (&'static str, u16))
        ensures
            r.0@ == reason(*self),
            r.1 == status_number(*self),
    {
        match self {
            HttpStatusCode::OK => ("OK", 200),
            HttpStatusCode::Created => ("Created", 201),
            HttpStatusCode::Accepted => ("Accepted", 202),
            HttpStatusCode::NoContent => ("No Content", 204),
            HttpStatusCode::MovedPermanently => ("Moved Permanently", 301),
            HttpStatusCode::Found => ("Found", 302),
            HttpStatusCode::SeeOther => ("See Other", 303),
            HttpStatusCode::NotModified => ("Not Modified", 304),
            HttpStatusCode::BadRequest => ("Bad Request", 400),
            HttpStatusCode::Unauthorized => ("Unauthorized", 401),
            HttpStatusCode::Forbidden => ("Forbidden", 403),
            HttpStatusCode::NotFound => ("Not Found", 404),
            HttpStatusCode::MethodNotAllowed => ("Method Not Allowed", 405),
            HttpStatusCode::InternalServerError => ("Internal Server Error", 500),
            HttpStatusCode::NotImplemented => ("Not Implemented", 501),
            HttpStatusCode::BadGateway => ("Bad Gateway", 502),
            HttpStatusCode::ServiceUnavailable => ("Service Unavailable", 503),
        }
    }
}

/// A cookie, as read from a request or to be set by a response.
/// `expires` counts seconds since the Unix epoch.
#[derive(Debug)]
pub struct Cookie {
    pub name: String,
    pub value: String,
    pub path: Option<String>,
    pub domain: Option<String>,
    pub expires: Option<i64>,
    pub raw_expires: Option<String>,
    pub max_age: Option<i64>,
    pub secure: bool,
    pub http_only: bool,
    pub raw: Option<String>,
}

/// What a cookie holds, as plain values.
pub struct CookieView {
    pub name: Seq<char>,
    pub value: Seq<char>,
    pub path: Option<Seq<char>>,
    pub domain: Option<Seq<char>>,
    pub expires: Option<i64>,
    pub raw_expires: Option<Seq<char>>,
    pub max_age: Option<i64>,
    pub secure: bool,
    pub http_only: bool,
    pub raw: Option<Seq<char>>,
}

/// A cookie with a name and a value and no attributes.
pub open spec fn plain_cookie(name: Seq<char>, value: Seq<char>) -> CookieView {
    CookieView {
        name,
        value,
        path: None,
        domain: None,
        expires: None,
        raw_expires: None,
        max_age: None,
        secure: false,
        http_only: false,
        raw: None,
    }
}

pub open spec fn opt_text(s: Option<String>) -> Option<Seq<char>> {
    match s {
        Some(t) => Some(t@),
        None => None,
    }
}

impl View for Cookie {
    type V = CookieView;

    open spec fn view(&self) -> CookieView {
        CookieView {
            name: self.name@,
            value: self.value@,
            path: opt_text(self.path),
            domain: opt_text(self.domain),
            expires: self.expires,
            raw_expires: opt_text(self.raw_expires),
            max_age: self.max_age,
            secure: self.secure,
            http_only: self.http_only,
            raw: opt_text(self.raw),
        }
    }
}

/// A copy of an optional string.
pub fn copy_opt(s: &Option<String>) -> (r: Option<String>)
    ensures
        r == *s,
{
    match s {
        Some(t) => Some(t.clone()),
        None => None,
    }
}

impl Cookie {
    /// A cookie with a name and a value and no attributes.
    pub fn new(name: &str, value: &str) -> (r: Cookie)
        ensures
            r@ == plain_cookie(name@, value@),
    {
        Cookie {
            name: String::from_str(name),
            value: String::from_str(value),
            path: None,
            domain: None,
            expires: None,
            raw_expires: None,
            max_age: None,
            secure: false,
            http_only: false,
            raw: None,
        }
    }
}

impl Default for Cookie {
    fn default() -> (r: Cookie)
        ensures
            r@ == plain_cookie(Seq::empty(), Seq::empty()),
    {
        Cookie {
            name: String::new(),
            value: String::new(),
            path: None,
            domain: None,
            expires: None,
            raw_expires: None,
            max_age: None,
            secure: false,
            http_only: false,
            raw: None,
        }
    }
}

impl Clone for Cookie {
    fn clone(&self) -> (r: Cookie)
        ensures
            r == *self,
    {
        Cookie {
            name: self.name.clone(),
            value: self.value.clone(),
            path: copy_opt(&self.path),
            domain: copy_opt(&self.domain),
            expires: self.expires,
            raw_expires: copy_opt(&self.raw_expires),
            max_age: self.max_age,
            secure: self.secure,
            http_only: self.http_only,
            raw: copy_opt(&self.raw),
        }
    }
}

/// A path with a single trailing slash removed; the root "/" stays.
pub open spec fn strip_trailing_slash(p: Seq<char>) -> Seq<char> {
    if p.len() > 1 && p.last() == '/' {
        p.drop_last()
    } else {
        p
    }
}

/// `p` with each "/?" turned into "?", scanning left to right.
pub open spec fn collapse_query_slash(p: Seq<char>) -> Seq<char>
    decreases p.len(),
{
    if p.len() >= 2 && p[0] == '/' && p[1] == '?' {
        seq!['?'] + collapse_query_slash(p.skip(2))
    } else if p.len() >= 1 {
        seq![p[0]] + collapse_query_slash(p.skip(1))
    } else {
        p
    }
}

/// The normalized form of a path: a blank path is the root, a single trailing
/// slash goes (but the root stays), and "/?" becomes "?".
pub open spec fn normalize(p: Seq<char>) -> Seq<char> {
    let base = if trim(p).len() == 0 { "/"@ } else { p };
    collapse_query_slash(strip_trailing_slash(base))
}


/// No "/" in `s` is directly followed by "?".
pub open spec fn no_slash_query(s: Seq<char>) -> bool {
    forall|i: int| 0 <= i < s.len() - 1 ==> !(s[i] == '/' && #[trigger] s[i + 1] == '?')
}

/// No "//?" stands in `s`.
pub open spec fn no_double_slash_query(s: Seq<char>) -> bool {
    forall|i: int| 0 <= i < s.len() - 2 ==> !(s[i] == '/' && s[i + 1] == '/' && #[trigger] s[i + 2] == '?')
}

/// The paths on which normalizing twice gives what normalizing once gives:
/// all but those holding "//?", those of three or more characters ending in
/// "//", and those made of whitespace and a final "/".
pub open spec fn stable_path(p: Seq<char>) -> bool {
    &&& no_double_slash_query(p)
    &&& !(p.len() >= 3 && p[p.len() - 1] == '/' && p[p.len() - 2] == '/')
    &&& !(p.len() >= 2 && p.last() == '/' && trim(p.drop_last()).len() == 0)
}

proof fn lemma_collapse_identity(s: Seq<char>)
    requires
        no_slash_query(s),
    ensures
        collapse_query_slash(s) == s,
    decreases s.len(),
{
    if s.len() >= 1 {
        let rest = s.skip(1);
        assert forall|i: int| 0 <= i < rest.len() - 1 implies !(rest[i] == '/' && #[trigger] rest[i + 1] == '?') by {
            assert(rest[i] == s[i + 1] && rest[i + 1] == s[i + 2]);
        }
        lemma_collapse_identity(rest);
        if s.len() >= 2 {
            assert(!(s[0] == '/' && s[1] == '?'));
        }
        assert(seq![s[0]] + rest =~= s);
    }
}

proof fn lemma_collapse_shape(s: Seq<char>)
    ensures
        collapse_query_slash(s).len() == 0 <==> s.len() == 0,
        s.len() > 0 ==> collapse_query_slash(s)[0] == (if s.len() >= 2 && s[0] == '/' && s[1] == '?' { '?' } else { s[0] }),
        s.len() > 0 ==> (collapse_query_slash(s).last() == '/' <==> s.last() == '/'),
        collapse_query_slash(s).len() <= s.len(),
    decreases s.len(),
{
    if s.len() >= 2 && s[0] == '/' && s[1] == '?' {
        let rest = s.skip(2);
        lemma_collapse_shape(rest);
        if rest.len() > 0 {
            assert(rest.last() == s.last());
        }
    } else if s.len() >= 1 {
        let rest = s.skip(1);
        lemma_collapse_shape(rest);
        if rest.len() > 0 {
            assert(rest.last() == s.last());
        }
    }
}

proof fn lemma_collapse_clean(s: Seq<char>)
    requires
        no_double_slash_query(s),
    ensures
        no_slash_query(collapse_query_slash(s)),
    decreases s.len(),
{
    let r = collapse_query_slash(s);
    if s.len() >= 1 {
        let k: int = if s.len() >= 2 && s[0] == '/' && s[1] == '?' { 2 } else { 1 };
        let rest = s.skip(k);
        assert forall|i: int| 0 <= i < rest.len() - 2 implies !(rest[i] == '/' && rest[i + 1] == '/' && #[trigger] rest[i + 2] == '?') by {
            assert(rest[i] == s[i + k] && rest[i + 1] == s[i + k + 1] && rest[i + 2] == s[i + k + 2]);
        }
        lemma_collapse_clean(rest);
        lemma_collapse_shape(rest);
        lemma_collapse_shape(s);
        let c = r[0];
        let tail = collapse_query_slash(rest);
        assert(r == seq![c] + tail);
        assert forall|i: int| 0 <= i < r.len() - 1 implies !(r[i] == '/' && #[trigger] r[i + 1] == '?') by {
            if i == 0 {
                if c == '/' {
                    assert(k == 1 && s[0] == '/');
                    assert(tail.len() > 0);
                    assert(rest.len() > 0);
                    assert(s.len() >= 2);
                    assert(s[1] != '?');
                    assert(rest[0] == s[1]);
                    assert(tail[0] == r[1]);
                    if rest.len() >= 2 && rest[0] == '/' && rest[1] == '?' {
                        assert(rest[1] == s[2]);
                        assert(s.len() >= 3);
                        assert(no_double_slash_query(s));
                        assert(!(s[0] == '/' && s[1] == '/' && s[0int + 2] == '?'));
                        assert(false);
                    } else {
                        assert(tail[0] == rest[0]);
                    }
                }
            } else {
                assert(r[i] == tail[i - 1] && r[i + 1] == tail[i]);
                assert(0 <= i - 1 < tail.len() - 1);
                assert(!(tail[i - 1] == '/' && tail[(i - 1) + 1] == '?'));
            }
        }
    }
}

proof fn lemma_trim_blank(s: Seq<char>)
    ensures
        trim(s).len() == 0 <==> forall|i: int| 0 <= i < s.len() ==> is_ws(#[trigger] s[i]),
    decreases s.len(),
{
    lemma_trim_start_blank(s);
    let t = trim_start(s);
    lemma_trim_end_blank(t);
}

proof fn lemma_trim_start_blank(s: Seq<char>)
    ensures
        trim_start(s).len() == 0 <==> forall|i: int| 0 <= i < s.len() ==> is_ws(#[trigger] s[i]),
        trim_start(s).len() > 0 ==> !is_ws(trim_start(s)[0]),
    decreases s.len(),
{
    if s.len() > 0 && is_ws(s[0]) {
        lemma_trim_start_blank(s.drop_first());
        if trim_start(s).len() == 0 {
            assert forall|i: int| 0 <= i < s.len() implies is_ws(#[trigger] s[i]) by {
                if i > 0 {
                    assert(s[i] == s.drop_first()[i - 1]);
                }
            }
        } else {
            if forall|i: int| 0 <= i < s.len() ==> is_ws(#[trigger] s[i]) {
                assert forall|i: int| 0 <= i < s.drop_first().len() implies is_ws(#[trigger] s.drop_first()[i]) by {
                    assert(s.drop_first()[i] == s[i + 1]);
                }
            }
        }
    }
}

proof fn lemma_trim_end_blank(s: Seq<char>)
    ensures
        s.len() > 0 && !is_ws(s[0]) ==> trim_end(s).len() > 0,
        s.len() == 0 ==> trim_end(s).len() == 0,
    decreases s.len(),
{
    if s.len() > 0 && is_ws(s.last()) {
        lemma_trim_end_blank(s.drop_last());
        if s.len() == 1 {
            assert(s[0] == s.last());
        } else {
            assert(s.drop_last()[0] == s[0]);
        }
    }
}

proof fn lemma_collapse_keeps_ink(s: Seq<char>, i: int)
    requires
        0 <= i < s.len(),
        !is_ws(s[i]),
    ensures
        exists|j: int| 0 <= j < collapse_query_slash(s).len() && !is_ws(#[trigger] collapse_query_slash(s)[j]),
    decreases s.len(),
{
    let r = collapse_query_slash(s);
    lemma_collapse_shape(s);
    if !is_ws(r[0]) {
        assert(!is_ws(r[0]));
    } else {
        let k: int = if s.len() >= 2 && s[0] == '/' && s[1] == '?' { 2 } else { 1 };
        assert(k == 1 && is_ws(s[0]));
        let rest = s.skip(1);
        assert(i >= 1);
        assert(rest[i - 1] == s[i]);
        lemma_collapse_keeps_ink(rest, i - 1);
        let tail = collapse_query_slash(rest);
        let j = choose|j: int| 0 <= j < tail.len() && !is_ws(#[trigger] tail[j]);
        assert(r == seq![s[0]] + tail);
        assert(r[j + 1] == tail[j]);
    }
}

/// Normalizing a path twice gives the same as normalizing it once, for every
/// path but those that `stable_path` leaves out.
pub proof fn normalize_is_idempotent(p: Seq<char>)
    requires
        stable_path(p),
    ensures
        normalize(normalize(p)) == normalize(p),
{
    let base = if trim(p).len() == 0 { "/"@ } else { p };
    reveal_strlit("/");
    let s = strip_trailing_slash(base);
    let r = collapse_query_slash(s);
    assert(normalize(p) == r);
    lemma_trim_blank(p);
    // s keeps no "//?": it is `base` or `base` without its last "/".
    if trim(p).len() == 0 {
        assert(s =~= seq!['/']);
    } else {
        assert forall|i: int| 0 <= i < s.len() - 2 implies !(s[i] == '/' && s[i + 1] == '/' && #[trigger] s[i + 2] == '?') by {
            assert(s[i] == p[i] && s[i + 1] == p[i + 1] && s[i + 2] == p[i + 2]);
        }
    }
    lemma_collapse_clean(s);
    lemma_collapse_identity(r);
    lemma_collapse_shape(s);
    // r is not blank.
    assert(s.len() > 0);
    if trim(p).len() == 0 {
        assert(!is_ws(s[0]));
        lemma_collapse_keeps_ink(s, 0);
    } else {
        let ink = choose|i: int| 0 <= i < p.len() && !is_ws(#[trigger] p[i]);
        if s.len() == p.len() {
            assert(s == p);
            lemma_collapse_keeps_ink(s, ink);
        } else {
            assert(s == p.drop_last());
            lemma_trim_blank(p.drop_last());
            let ink2 = choose|i: int| 0 <= i < s.len() && !is_ws(#[trigger] s[i]);
            lemma_collapse_keeps_ink(s, ink2);
        }
    }
    let j = choose|j: int| 0 <= j < r.len() && !is_ws(#[trigger] r[j]);
    lemma_trim_blank(r);
    assert(trim(r).len() != 0);
    // r does not end in "/" unless it is the root.
    if r.len() > 1 && r.last() == '/' {
        assert(s.last() == '/');
        if trim(p).len() != 0 {
            if s.len() == p.len() {
                assert(s.last() == p.last());
            } else {
                assert(p[p.len() - 2] == s.last());
            }
        }
    }
    assert(strip_trailing_slash(r) == r);
}

/// `p` with each "/?" turned into "?".
fn collapse_text(p: &str) -> (r: String)
    ensures
        r@ == collapse_query_slash(p@),
{
    let n = p.unicode_len();
    let mut out = String::new();
    let mut i: usize = 0;
    proof {
        reveal_strlit("?");
    }
    assert(p@.subrange(0, n as int) =~= p@);
    while i < n
        invariant
            n == p@.len(),
            i <= n,
            collapse_query_slash(p@) == out@ + collapse_query_slash(p@.subrange(i as int, n as int)),
        decreases n - i,
    {
        let ghost rest = p@.subrange(i as int, n as int);
        if i + 1 < n && p.get_char(i) == '/' && p.get_char(i + 1) == '?' {
            assert(rest.skip(2) =~= p@.subrange(i as int + 2, n as int));
            assert(rest[0] == '/' && rest[1] == '?');
            proof {
                reveal_strlit("?");
            }
            assert("?"@ =~= seq!['?']);
            let ghost before = out@;
            out.append("?");
            assert(before + collapse_query_slash(rest) =~= out@ + collapse_query_slash(rest.skip(2)));
            i = i + 2;
        } else {
            assert(rest.skip(1) =~= p@.subrange(i as int + 1, n as int));
            let ch = p.substring_char(i, i + 1);
            assert(ch@ =~= seq![rest[0]]);
            let ghost before = out@;
            out.append(ch);
            assert(before + collapse_query_slash(rest) =~= out@ + collapse_query_slash(rest.skip(1)));
            i = i + 1;
        }
    }
    assert(p@.subrange(n as int, n as int) =~= Seq::<char>::empty());
    assert(out@ + Seq::<char>::empty() =~= out@);
    out
}

/// Normalizes a path: a blank path becomes "/", a single trailing slash is
/// removed (the root "/" stays), and "/?" becomes "?". It never fails.
pub fn format_path_by_slashes(path: String) -> (r: Result<String, WebRouterError>)
    ensures
        r matches Ok(p) && p@ == normalize(path@),
{
    let blank = trim_str(path.as_str()).unicode_len() == 0;
    let root = "/";
    proof {
        reveal_strlit("/");
    }
    let base: &str = if blank { root } else { path.as_str() };
    let n = base.unicode_len();
    let end: usize = if n > 1 && base.get_char(n - 1) == '/' { n - 1 } else { n };
    let stripped = base.substring_char(0, end);
    assert(stripped@ =~= strip_trailing_slash(base@));
    Ok(collapse_text(stripped))
}

} // verus!
