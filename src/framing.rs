//! Framing a request on a connection: which lines belong to it and how many
//! body bytes follow. The connection itself is read by the caller, which
//! feeds each line in and does what the returned step says.
use vstd::prelude::*;

use crate::error::WebServerError;
use crate::text::{texts, trim, trim_str};

verus! {

/// The value of a run of decimal digits.
pub open spec fn digits_value(s: Seq<char>) -> nat
    decreases s.len(),
{
    if s.len() == 0 {
        0
    } else {
        digits_value(s.drop_last()) * 10 + (s.last() as nat - '0' as nat) as nat
    }
}

pub open spec fn all_digits(s: Seq<char>) -> bool {
    forall|i: int| 0 <= i < s.len() ==> '0' <= #[trigger] s[i] <= '9'
}

/// The number that `usize::from_str` reads: an optional `+`, then one or more
/// decimal digits, and a value that fits.
pub open spec fn parse_usize(s: Seq<char>) -> Option<nat> {
    let d = if s.len() > 0 && s[0] == '+' { s.skip(1) } else { s };
    if d.len() > 0 && all_digits(d) && digits_value(d) <= usize::MAX {
        Some(digits_value(d))
    } else {
        None
    }
}

/// The header prefix that announces a body length.
pub open spec fn length_prefix() -> Seq<char> {
    "Content-Length: "@
}

/// What a line says of the body length: none for a line that is not a
/// `Content-Length` header, else the number after the prefix, trimmed.
pub open spec fn announced_length(line: Seq<char>) -> Option<Option<nat>> {
    if line.len() >= length_prefix().len() && line.take(length_prefix().len() as int) == length_prefix() {
        match parse_usize(trim(line.skip(length_prefix().len() as int))) {
            Some(n) => Some(Some(n)),
            None => None,
        }
    } else {
        Some(None)
    }
}

proof fn lemma_digits_prefix_grows(s: Seq<char>, i: int, j: int)
    requires
        0 <= i <= j <= s.len(),
    ensures
        digits_value(s.take(i)) <= digits_value(s.take(j)),
    decreases j - i,
{
    if i < j {
        lemma_digits_prefix_grows(s, i, j - 1);
        assert(s.take(j).drop_last() =~= s.take(j - 1));
    }
}

/// Reads a decimal number as `usize::from_str` does.
pub fn parse_decimal(s: &str) -> (r: Option<usize>)
    ensures
        match r {
            Some(n) => parse_usize(s@) == Some(n as nat),
            None => parse_usize(s@) is None,
        },
{
    let n = s.unicode_len();
    let start: usize = if n > 0 && s.get_char(0) == '+' { 1 } else { 0 };
    let ghost d = if s@.len() > 0 && s@[0] == '+' { s@.skip(1) } else { s@ };
    assert(d =~= s@.subrange(start as int, n as int));
    if start == n {
        return None;
    }
    let mut value: usize = 0;
    let mut i: usize = start;
    assert(d.take(0) =~= Seq::<char>::empty());
    while i < n
        invariant
            n == s@.len(),
            start <= i <= n,
            d == s@.subrange(start as int, n as int),
            d == (if s@.len() > 0 && s@[0] == '+' { s@.skip(1) } else { s@ }),
            all_digits(d.take(i - start)),
            value as nat == digits_value(d.take(i - start)),
        decreases n - i,
    {
        let c = s.get_char(i);
        let ghost k = i - start;
        assert(d.take(k + 1).drop_last() =~= d.take(k));
        assert(d[k] == c);
        if c < '0' || c > '9' {
            assert(!all_digits(d));
            return None;
        }
        let digit = (c as u32 - '0' as u32) as usize;
        if value > (usize::MAX - digit) / 10 {
            proof {
                lemma_digits_prefix_grows(d, k + 1, d.len() as int);
                assert(d.take(d.len() as int) =~= d);
                assert(digits_value(d.take(k + 1)) == value as nat * 10 + digit as nat);
                assert(value as nat * 10 + digit as nat > usize::MAX) by (nonlinear_arith)
                    requires
                        value > (usize::MAX - digit) / 10,
                        digit <= 9,
                ;
            }
            return None;
        }
        assert(value * 10 + digit <= usize::MAX) by (nonlinear_arith)
            requires
                value <= (usize::MAX - digit) / 10,
                digit <= 9,
        ;
        value = value * 10 + digit;
        assert(all_digits(d.take(k + 1)));
        i = i + 1;
    }
    assert(d.take(n - start) =~= d);
    Some(value)
}

/// What a request line says of the body length: `Ok(None)` for a line that is
/// not a `Content-Length` header, an error where its value is not a number.
pub fn content_length_of(line: &str) -> (r: Result<Option<usize>, WebServerError>)
    ensures
        match r {
            Ok(Some(n)) => announced_length(line@) == Some(Some(n as nat)),
            Ok(None) => announced_length(line@) == Some(None::<nat>),
            Err(_) => announced_length(line@) is None,
        },
{
    let prefix = "Content-Length: ";
    proof {
        reveal_strlit("Content-Length: ");
    }
    let p = prefix.unicode_len();
    let n = line.unicode_len();
    if n < p || !crate::text::same_text(line.substring_char(0, p), prefix) {
        return Ok(None);
    }
    let rest = trim_str(line.substring_char(p, n));
    assert(line@.subrange(p as int, n as int) =~= line@.skip(p as int));
    match parse_decimal(rest) {
        Some(v) => Ok(Some(v)),
        None => Err(WebServerError::IO(String::from_str("invalid Content-Length value"))),
    }
}

/// What the caller does next.
#[derive(Debug, PartialEq, Eq, Structural)]
pub enum ReadStep {
    /// Read one more line and pass it to `push_line`.
    NextLine,
    /// Read exactly this many body bytes and pass them to `push_body`.
    ReadBody(usize),
    /// The request is complete.
    Done,
}

/// The lines of a request read so far, and the body length announced so far.
pub struct RequestReader {
    lines: Vec<String>,
    content_length: usize,
}

/// The step after the header block ends: read the body if one was announced.
pub open spec fn after_headers(content_length: nat) -> ReadStep {
    if content_length > 0 {
        ReadStep::ReadBody(content_length as usize)
    } else {
        ReadStep::Done
    }
}

impl RequestReader {
    pub closed spec fn lines_view(&self) -> Seq<Seq<char>> {
        texts(self.lines@)
    }

    pub closed spec fn length_view(&self) -> nat {
        self.content_length as nat
    }

    pub fn new() -> (r: RequestReader)
        ensures
            r.lines_view() == Seq::<Seq<char>>::empty(),
            r.length_view() == 0,
    {
        let r = RequestReader { lines: Vec::new(), content_length: 0 };
        assert(r.lines_view() =~= Seq::<Seq<char>>::empty());
        r
    }

    /// Takes one line of the request. A `Content-Length` header sets the body
    /// length; an empty line ends the headers.
    pub fn push_line(&mut self, line: String) -> (r: Result<ReadStep, WebServerError>)
        ensures
            match announced_length(line@) {
                None => r is Err && *final(self) == *old(self),
                Some(a) => {
                    let len = match a {
                        Some(n) => n,
                        None => old(self).length_view(),
                    };
                    &&& final(self).length_view() == len
                    &&& final(self).lines_view() == old(self).lines_view().push(line@)
                    &&& r == Ok::<ReadStep, WebServerError>(
                        if line@.len() == 0 {
                            after_headers(len)
                        } else {
                            ReadStep::NextLine
                        },
                    )
                },
            },
    {
        match content_length_of(line.as_str()) {
            Ok(Some(n)) => {
                self.content_length = n;
            },
            Ok(None) => {},
            Err(e) => {
                return Err(e);
            },
        }
        let empty = line.as_str().unicode_len() == 0;
        let ghost before = self.lines@;
        let ghost lv = line@;
        self.lines.push(line);
        assert(self.lines_view() =~= texts(before).push(lv));
        if empty {
            Ok(self.body_step())
        } else {
            Ok(ReadStep::NextLine)
        }
    }

    /// The step at the end of the input or of the headers.
    pub fn body_step(&self) -> (r: ReadStep)
        ensures
            r == after_headers(self.length_view()),
    {
        if self.content_length > 0 {
            ReadStep::ReadBody(self.content_length)
        } else {
            ReadStep::Done
        }
    }

    /// Adds the body text as the last line.
    pub fn push_body(&mut self, body: String)
        ensures
            final(self).lines_view() == old(self).lines_view().push(body@),
            final(self).length_view() == old(self).length_view(),
    {
        let ghost before = self.lines@;
        let ghost bv = body@;
        self.lines.push(body);
        assert(self.lines_view() =~= texts(before).push(bv));
    }

    /// The lines, ready for `Request::new`.
    pub fn into_lines(self) -> (r: Vec<String>)
        ensures
            texts(r@) == self.lines_view(),
    {
        self.lines
    }
}

} // verus!
