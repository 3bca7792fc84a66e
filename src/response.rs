//! Responses and their rendering to wire text.
use vstd::prelude::*;
use vstd::utf8::encode_utf8;

use crate::table::Table;
use crate::text::{decimal, decimal_text, digit};
use crate::utils::{reason, status_number, Cookie, CookieView, HttpStatusCode};

verus! {

/// A response: a status, headers, a text body, and cookies to set.
#[derive(Debug)]
pub struct Response {
    pub status_code: HttpStatusCode,
    pub headers: Table<String>,
    pub body: String,
    pub cookies: Table<Cookie>,
}

/// The text of an IMF-fixdate ("Sun, 06 Nov 1994 08:49:37 GMT") for a count of
/// seconds since the Unix epoch, or none where that instant has no date.
pub uninterp spec fn http_date_of(secs: i64) -> Option<Seq<char>>;

/// Relies on chrono's `DateTime::<Utc>::from_timestamp` (none out of its date
/// range) and on `DateTime::format` with `%a, %d %b %Y %H:%M:%S GMT`.
#[verifier::external_body]
fn http_date(secs: i64) -> (r: Option<String>)
    ensures
        match r {
            Some(s) => http_date_of(secs) == Some(s@),
            None => http_date_of(secs) is None,
        },
{
    match chrono::DateTime::from_timestamp(secs, 0) {
        Some(d) => Some(d.format("%a, %d %b %Y %H:%M:%S GMT").to_string()),
        None => None,
    }
}

/// The decimal text of a signed number.
pub open spec fn signed_decimal(n: i64) -> Seq<char> {
    if n < 0 {
        seq!['-'] + decimal((-(n as int)) as nat)
    } else {
        decimal(n as nat)
    }
}

/// `"; <name>=<value>"` where the value is present.
pub open spec fn attribute(name: Seq<char>, value: Option<Seq<char>>) -> Seq<char> {
    match value {
        Some(v) => "; "@ + name + "="@ + v,
        None => Seq::empty(),
    }
}

/// The value of a `Set-Cookie` line, given the rendered expiry date if any:
/// name=value, then Path, Domain, Expires, Max-Age, Secure and HttpOnly.
pub open spec fn cookie_text(c: CookieView, expires: Option<Seq<char>>) -> Seq<char> {
    c.name + "="@ + c.value
        + attribute("Path"@, c.path)
        + attribute("Domain"@, c.domain)
        + attribute("Expires"@, expires)
        + attribute("Max-Age"@, match c.max_age { Some(m) => Some(signed_decimal(m)), None => None })
        + (if c.secure { "; Secure"@ } else { Seq::empty() })
        + (if c.http_only { "; HttpOnly"@ } else { Seq::empty() })
}

/// The expiry text that a cookie is rendered with.
pub open spec fn cookie_expiry(c: CookieView) -> Option<Seq<char>> {
    match c.expires {
        Some(t) => http_date_of(t),
        None => None,
    }
}

/// One `name: value` line per header.
pub open spec fn header_lines(hs: Seq<(Seq<char>, Seq<char>)>) -> Seq<char>
    decreases hs.len(),
{
    if hs.len() == 0 {
        Seq::empty()
    } else {
        header_lines(hs.drop_last()) + hs.last().0 + ": "@ + hs.last().1 + "\r\n"@
    }
}

/// One `Set-Cookie` line per cookie.
pub open spec fn cookie_lines(cs: Seq<(Seq<char>, CookieView)>) -> Seq<char>
    decreases cs.len(),
{
    if cs.len() == 0 {
        Seq::empty()
    } else {
        cookie_lines(cs.drop_last()) + "Set-Cookie: "@ + cookie_text(
            cs.last().1,
            cookie_expiry(cs.last().1),
        ) + "\r\n"@
    }
}

/// The status line of a response.
pub open spec fn status_line(s: HttpStatusCode) -> Seq<char> {
    "HTTP/1.1 "@ + decimal(status_number(s) as nat) + " "@ + reason(s) + "\r\n"@
}

/// The full wire text of a response.
pub open spec fn wire_text(
    s: HttpStatusCode,
    headers: Seq<(Seq<char>, Seq<char>)>,
    body: Seq<char>,
    cookies: Seq<(Seq<char>, CookieView)>,
) -> Seq<char> {
    status_line(s) + "Content-Length: "@ + decimal(encode_utf8(body).len()) + "\r\n"@
        + header_lines(headers) + cookie_lines(cookies) + "\r\n"@ + body
}


/// The wire text of a response starts with its status line, which carries the
/// numeric code and reason phrase, and ends with a blank line and then the body
/// exactly, whose length in bytes the `Content-Length` line gives.
pub proof fn wire_text_recovers_status_and_body(
    s: HttpStatusCode,
    headers: Seq<(Seq<char>, Seq<char>)>,
    body: Seq<char>,
    cookies: Seq<(Seq<char>, CookieView)>,
)
    ensures
        ({
            let w = wire_text(s, headers, body, cookies);
            let head = status_line(s) + "Content-Length: "@ + decimal(encode_utf8(body).len())
                + "\r\n"@;
            &&& w.take(status_line(s).len() as int) == status_line(s)
            &&& w.take(head.len() as int) == head
            &&& w.skip(w.len() - body.len()) == body
            &&& w.subrange(w.len() - body.len() - 2, w.len() - body.len()) == "\r\n"@
        }),
{
    let w = wire_text(s, headers, body, cookies);
    let head = status_line(s) + "Content-Length: "@ + decimal(encode_utf8(body).len()) + "\r\n"@;
    let rest = header_lines(headers) + cookie_lines(cookies);
    reveal_strlit("\r\n");
    assert(w =~= head + rest + "\r\n"@ + body);
    assert(w.take(status_line(s).len() as int) =~= status_line(s));
    assert(w.take(head.len() as int) =~= head);
    assert(w.skip(w.len() - body.len()) =~= body);
    assert(w.subrange(w.len() - body.len() - 2, w.len() - body.len()) =~= "\r\n"@);
}


proof fn lemma_digit_injective(a: nat, b: nat)
    requires
        a < 10,
        b < 10,
        digit(a) == digit(b),
    ensures
        a == b,
{
}

proof fn lemma_decimal_len(n: nat)
    ensures
        decimal(n).len() >= 1,
        n >= 10 ==> decimal(n).len() >= 2,
        n < 10 ==> decimal(n).len() == 1,
        10 <= n < 100 ==> decimal(n).len() == 2,
        100 <= n < 1000 ==> decimal(n).len() == 3,
    decreases n,
{
    if n >= 10 {
        lemma_decimal_len(n / 10);
    }
}

proof fn lemma_decimal_injective(m: nat, n: nat)
    requires
        decimal(m) == decimal(n),
    ensures
        m == n,
    decreases m,
{
    lemma_decimal_len(m);
    lemma_decimal_len(n);
    if m < 10 && n < 10 {
        assert(decimal(m)[0] == digit(m) && decimal(n)[0] == digit(n));
        lemma_digit_injective(m, n);
    } else if m >= 10 && n >= 10 {
        let dm = decimal(m);
        assert(dm.last() == digit(m % 10));
        assert(decimal(n).last() == digit(n % 10));
        lemma_digit_injective(m % 10, n % 10);
        assert(dm.drop_last() =~= decimal(m / 10));
        assert(decimal(n).drop_last() =~= decimal(n / 10));
        lemma_decimal_injective(m / 10, n / 10);
    } else {
        lemma_decimal_len(m / 10);
        lemma_decimal_len(n / 10);
    }
}

/// Two responses whose status lines are equal carry the same status: the
/// status line gives the status back.
pub proof fn status_line_recovers_status(a: HttpStatusCode, b: HttpStatusCode)
    requires
        status_line(a) == status_line(b),
    ensures
        a == b,
{
    let na = status_number(a) as nat;
    let nb = status_number(b) as nat;
    lemma_decimal_len(na);
    lemma_decimal_len(nb);
    reveal_strlit("HTTP/1.1 ");
    assert(status_line(a).subrange(9, 12) =~= decimal(na));
    assert(status_line(b).subrange(9, 12) =~= decimal(nb));
    lemma_decimal_injective(na, nb);
}

/// The decimal text of a signed number.
fn signed_decimal_text(n: i64) -> (r: String)
    ensures
        r@ == signed_decimal(n),
{
    if n < 0 {
        let mut s = String::from_str("-");
        proof {
            reveal_strlit("-");
        }
        let m: u64 = (-(n as i128)) as u64;
        let d = decimal_text(m);
        s.append(d.as_str());
        assert(s@ =~= seq!['-'] + decimal((-(n as int)) as nat));
        s
    } else {
        decimal_text(n as u64)
    }
}

/// Appends `"; <name>=<value>"` where the value is present.
fn push_attribute(out: &mut String, name: &str, value: Option<&str>)
    ensures
        final(out)@ == old(out)@ + attribute(
            name@,
            match value {
                Some(v) => Some(v@),
                None => None,
            },
        ),
{
    match value {
        Some(v) => {
            out.append("; ");
            out.append(name);
            out.append("=");
            out.append(v);
        },
        None => {
            assert(out@ =~= out@ + Seq::<char>::empty());
        },
    }
}

/// The value of a `Set-Cookie` line for `c`, with `expires` as the rendered
/// expiry date if it has one.
pub fn set_cookie_value(c: &Cookie, expires: Option<&str>) -> (r: String)
    ensures
        r@ == cookie_text(
            c@,
            match expires {
                Some(v) => Some(v@),
                None => None,
            },
        ),
{
    let mut out = c.name.clone();
    out.append("=");
    out.append(c.value.as_str());
    match &c.path {
        Some(p) => push_attribute(&mut out, "Path", Some(p.as_str())),
        None => push_attribute(&mut out, "Path", None),
    }
    match &c.domain {
        Some(d) => push_attribute(&mut out, "Domain", Some(d.as_str())),
        None => push_attribute(&mut out, "Domain", None),
    }
    push_attribute(&mut out, "Expires", expires);
    match c.max_age {
        Some(m) => {
            let t = signed_decimal_text(m);
            push_attribute(&mut out, "Max-Age", Some(t.as_str()));
        },
        None => push_attribute(&mut out, "Max-Age", None),
    }
    if c.secure {
        out.append("; Secure");
    } else {
        assert(out@ =~= out@ + Seq::<char>::empty());
    }
    if c.http_only {
        out.append("; HttpOnly");
    } else {
        assert(out@ =~= out@ + Seq::<char>::empty());
    }
    out
}

impl Default for Response {
    fn default() -> (r: Response)
        ensures
            r.status_code == HttpStatusCode::OK,
            r.headers@ == Seq::<(Seq<char>, Seq<char>)>::empty(),
            r.body@ == Seq::<char>::empty(),
            r.cookies@ == Seq::<(Seq<char>, CookieView)>::empty(),
    {
        Response {
            status_code: HttpStatusCode::OK,
            headers: Table::new(),
            body: String::new(),
            cookies: Table::new(),
        }
    }
}

impl Clone for Response {
    fn clone(&self) -> (r: Response)
        ensures
            r.status_code == self.status_code,
            r.headers@ == self.headers@,
            r.body@ == self.body@,
            r.cookies@ == self.cookies@,
    {
        Response {
            status_code: self.status_code,
            headers: self.headers.clone(),
            body: self.body.clone(),
            cookies: self.cookies.clone(),
        }
    }
}

impl Response {
    /// A response with a status and a body, and no headers or cookies.
    pub fn new(status_code: HttpStatusCode, body: String) -> (r: Response)
        ensures
            r.status_code == status_code,
            r.headers@ == Seq::<(Seq<char>, Seq<char>)>::empty(),
            r.body@ == body@,
            r.cookies@ == Seq::<(Seq<char>, CookieView)>::empty(),
    {
        Response { status_code, headers: Table::new(), body, cookies: Table::new() }
    }

    /// The wire text: status line, `Content-Length` (the body's length in
    /// bytes), the headers, one `Set-Cookie` line per cookie, a blank line,
    /// then the body.
    pub fn to_string(&self) -> (r: String)
        ensures
            r@ == wire_text(self.status_code, self.headers@, self.body@, self.cookies@),
    {
        let code = self.status_code.code();
        let mut out = String::from_str("HTTP/1.1 ");
        out.append(decimal_text(code.1 as u64).as_str());
        out.append(" ");
        out.append(code.0);
        out.append("\r\n");
        out.append("Content-Length: ");
        let blen = self.body.as_str().as_bytes().len();
        assert(blen as nat == encode_utf8(self.body@).len());
        out.append(decimal_text(blen as u64).as_str());
        out.append("\r\n");
        let ghost head = out@;
        assert(head =~= status_line(self.status_code) + "Content-Length: "@ + decimal(
            encode_utf8(self.body@).len(),
        ) + "\r\n"@);

        let mut i: usize = 0;
        assert(self.headers@.take(0) =~= Seq::<(Seq<char>, Seq<char>)>::empty());
        while i < self.headers.len()
            invariant
                i <= self.headers@.len(),
                out@ == head + header_lines(self.headers@.take(i as int)),
            decreases self.headers@.len() - i,
        {
            let (k, v) = self.headers.entry(i);
            let ghost before = out@;
            out.append(k.as_str());
            out.append(": ");
            out.append(v.as_str());
            out.append("\r\n");
            assert(self.headers@.take(i as int + 1).drop_last() =~= self.headers@.take(i as int));
            assert(out@ =~= before + k@ + ": "@ + v@ + "\r\n"@);
            i = i + 1;
        }
        assert(self.headers@.take(i as int) =~= self.headers@);
        let ghost mid = out@;

        let mut j: usize = 0;
        assert(self.cookies@.take(0) =~= Seq::<(Seq<char>, CookieView)>::empty());
        while j < self.cookies.len()
            invariant
                j <= self.cookies@.len(),
                out@ == mid + cookie_lines(self.cookies@.take(j as int)),
            decreases self.cookies@.len() - j,
        {
            let (_, c) = self.cookies.entry(j);
            let expires = match c.expires {
                Some(t) => http_date(t),
                None => None,
            };
            let line = match &expires {
                Some(e) => set_cookie_value(c, Some(e.as_str())),
                None => set_cookie_value(c, None),
            };
            let ghost before = out@;
            out.append("Set-Cookie: ");
            out.append(line.as_str());
            out.append("\r\n");
            assert(self.cookies@.take(j as int + 1).drop_last() =~= self.cookies@.take(j as int));
            assert(out@ =~= before + "Set-Cookie: "@ + line@ + "\r\n"@);
            j = j + 1;
        }
        assert(self.cookies@.take(j as int) =~= self.cookies@);
        out.append("\r\n");
        out.append(self.body.as_str());
        out
    }
}

} // verus!
