//! Turning the lines of an HTTP request into a structured request.
use vstd::prelude::*;

use crate::error::RequestError;
use crate::table::{lookup, with_entry, Table};
use crate::text::{
    find_char, find_text_char, join_lines, split_on, split_text, texts, trim, trim_str, words,
    words_of,
};
use crate::utils::{method_of, opt_text, plain_cookie, Cookie, CookieView, HttpMethod};

verus! {

/// A parsed request. The router normalizes `path` once before matching.
#[derive(Debug)]
pub struct Request {
    pub method: HttpMethod,
    pub path: String,
    pub version: String,
    pub headers: Table<String>,
    pub body: Option<String>,
    pub cookies: Table<Cookie>,
}

/// The index of the blank line that ends the headers, searching from line `i`,
/// or the number of lines if there is none.
pub open spec fn header_end(lines: Seq<Seq<char>>, i: int) -> int
    decreases lines.len() - i,
{
    if i >= lines.len() {
        lines.len() as int
    } else if trim(lines[i]).len() == 0 {
        i
    } else {
        header_end(lines, i + 1)
    }
}

/// The headers that lines 1 to `n` (exclusive) give: each line is split at its
/// first colon and both sides trimmed; a line without a colon is skipped, and a
/// later header of the same name wins.
pub open spec fn headers_from(lines: Seq<Seq<char>>, n: int) -> Seq<(Seq<char>, Seq<char>)>
    decreases n,
{
    if n <= 1 {
        Seq::empty()
    } else {
        let acc = headers_from(lines, n - 1);
        let l = lines[n - 1];
        match find_char(l, ':') {
            Some(c) => with_entry(acc, trim(l.take(c)), trim(l.skip(c + 1))),
            None => acc,
        }
    }
}

/// The body: the lines after the blank line at `e`, joined by newlines, if any.
pub open spec fn body_from(lines: Seq<Seq<char>>, e: int) -> Option<Seq<char>> {
    if e + 1 < lines.len() {
        Some(join_lines(lines.skip(e + 1)))
    } else {
        None
    }
}

/// The cookies that the `;`-separated pieces of a `Cookie` header give: each
/// piece is split at its first `=`, keyed by its trimmed name; a piece without
/// `=` is dropped.
pub open spec fn cookies_from(pieces: Seq<Seq<char>>) -> Seq<(Seq<char>, CookieView)>
    decreases pieces.len(),
{
    if pieces.len() == 0 {
        Seq::empty()
    } else {
        let acc = cookies_from(pieces.drop_last());
        let p = pieces.last();
        match find_char(p, '=') {
            Some(c) => with_entry(acc, trim(p.take(c)), plain_cookie(p.take(c), p.skip(c + 1))),
            None => acc,
        }
    }
}

/// The pieces of the `Cookie` header, none if there is no such header.
pub open spec fn cookie_pieces(headers: Seq<(Seq<char>, Seq<char>)>) -> Seq<Seq<char>> {
    match lookup(headers, "Cookie"@) {
        Some(h) => split_on(h, ';'),
        None => Seq::empty(),
    }
}

pub open spec fn find_char_bounds(s: Seq<char>, c: char) -> bool {
    find_char(s, c) matches Some(i) ==> 0 <= i < s.len()
}

pub proof fn lemma_find_char_bounds(s: Seq<char>, c: char)
    ensures
        find_char_bounds(s, c),
    decreases s.len(),
{
    if s.len() > 0 {
        lemma_find_char_bounds(s.drop_last(), c);
    }
}

impl Default for Request {
    fn default() -> (r: Request)
        ensures
            r.method == HttpMethod::GET,
            r.path@ == "/"@,
            r.version@ == "HTTP/1.1"@,
            r.headers@ == Seq::<(Seq<char>, Seq<char>)>::empty(),
            r.body is None,
            r.cookies@ == Seq::<(Seq<char>, CookieView)>::empty(),
    {
        Request {
            method: HttpMethod::GET,
            path: String::from_str("/"),
            version: String::from_str("HTTP/1.1"),
            headers: Table::new(),
            body: None,
            cookies: Table::new(),
        }
    }
}

/// The part of `line` before index `c` and the part after it, both trimmed.
fn split_trimmed(line: &str, c: usize) -> (r: (String, String))
    requires
        c < line@.len(),
    ensures
        r.0@ == trim(line@.take(c as int)),
        r.1@ == trim(line@.skip(c as int + 1)),
{
    let n = line.unicode_len();
    let before = line.substring_char(0, c);
    let after = line.substring_char(c + 1, n);
    assert(before@ =~= line@.take(c as int));
    assert(after@ =~= line@.skip(c as int + 1));
    (String::from_str(trim_str(before)), String::from_str(trim_str(after)))
}

/// The cookies of a `Cookie` header's value.
fn parse_cookies(header: &str) -> (r: Table<Cookie>)
    ensures
        r@ == cookies_from(split_on(header@, ';')),
{
    let pieces = split_text(header, ';');
    let ghost ps = split_on(header@, ';');
    let mut cookies: Table<Cookie> = Table::new();
    let mut i: usize = 0;
    assert(ps.take(0) =~= Seq::<Seq<char>>::empty());
    while i < pieces.len()
        invariant
            texts(pieces@) == ps,
            i <= pieces@.len(),
            cookies@ == cookies_from(ps.take(i as int)),
        decreases pieces@.len() - i,
    {
        let piece = pieces[i].as_str();
        assert(piece@ == ps[i as int]);
        assert(ps.take(i as int + 1).drop_last() =~= ps.take(i as int));
        proof {
            lemma_find_char_bounds(piece@, '=');
        }
        match find_text_char(piece, '=') {
            Some(c) => {
                let n = piece.unicode_len();
                let name = piece.substring_char(0, c);
                let value = piece.substring_char(c + 1, n);
                assert(name@ =~= piece@.take(c as int));
                assert(value@ =~= piece@.skip(c as int + 1));
                let key = String::from_str(trim_str(name));
                cookies.insert(key, Cookie::new(name, value));
            },
            None => {},
        }
        i = i + 1;
    }
    assert(ps.take(pieces@.len() as int) =~= ps);
    cookies
}

/// The lines from index `from` on, joined by newlines.
fn join_from(input: &Vec<String>, from: usize) -> (r: String)
    requires
        from < input@.len(),
    ensures
        r@ == join_lines(texts(input@).skip(from as int)),
{
    let ghost lines = texts(input@);
    let n = input.len();
    let mut out = input[from].clone();
    let mut j: usize = from + 1;
    assert(lines.subrange(from as int, j as int) =~= seq![lines[from as int]]);
    while j < input.len()
        invariant
            lines == texts(input@),
            from < j <= input@.len(),
            out@ == join_lines(lines.subrange(from as int, j as int)),
        decreases input@.len() - j,
    {
        let ghost before = out@;
        proof {
            reveal_strlit("\n");
        }
        out.append("\n");
        out.append(input[j].as_str());
        let ghost sub = lines.subrange(from as int, j as int + 1);
        assert(sub.drop_last() =~= lines.subrange(from as int, j as int));
        assert("\n"@ =~= seq!['\n']);
        assert(out@ =~= before + seq!['\n'] + lines[j as int]);
        j = j + 1;
    }
    assert(lines.subrange(from as int, j as int) =~= lines.skip(from as int));
    out
}

impl Request {
    /// Builds a request from its lines: the request line, the header lines up
    /// to a blank line, and the body lines after it. A method word that names
    /// no known method reads as GET.
    pub fn new(input: &Vec<String>) -> (r: Result<Request, RequestError>)
        ensures
            ({
                let lines = texts(input@);
                let e = header_end(lines, 1);
                match r {
                    Err(RequestError::EmptyRequestError) => lines.len() == 0,
                    Err(RequestError::InvalidRequestLineError(l)) => lines.len() > 0 && words(
                        lines[0],
                    ).len() < 3 && l@ == lines[0],
                    Ok(req) => {
                        &&& lines.len() > 0
                        &&& words(lines[0]).len() >= 3
                        &&& req.method == method_of(words(lines[0])[0])
                        &&& req.path@ == words(lines[0])[1]
                        &&& req.version@ == words(lines[0])[2]
                        &&& req.headers@ == headers_from(lines, e)
                        &&& opt_text(req.body) == body_from(lines, e)
                        &&& req.cookies@ == cookies_from(cookie_pieces(req.headers@))
                    },
                }
            }),
    {
        let ghost lines = texts(input@);
        if input.len() == 0 {
            return Err(RequestError::EmptyRequestError);
        }
        let parts = words_of(input[0].as_str());
        if parts.len() < 3 {
            return Err(RequestError::InvalidRequestLineError(input[0].clone()));
        }
        let method = HttpMethod::from_word(parts[0].as_str());
        let path = parts[1].clone();
        let version = parts[2].clone();

        let mut headers: Table<String> = Table::new();
        let mut index: usize = 1;
        assert(headers@ =~= headers_from(lines, 1));
        while index < input.len() && trim_str(input[index].as_str()).unicode_len() != 0
            invariant
                lines == texts(input@),
                1 <= index <= input@.len(),
                headers@ == headers_from(lines, index as int),
                header_end(lines, 1) == header_end(lines, index as int),
            decreases input@.len() - index,
        {
            let line = input[index].as_str();
            assert(line@ == lines[index as int]);
            proof {
                lemma_find_char_bounds(line@, ':');
            }
            match find_text_char(line, ':') {
                Some(c) => {
                    let (k, v) = split_trimmed(line, c);
                    headers.insert(k, v);
                },
                None => {},
            }
            index = index + 1;
        }
        assert(header_end(lines, index as int) == index as int);

        let body = if index < input.len() - 1 {
            Some(join_from(input, index + 1))
        } else {
            None
        };

        let cookies = match headers.get("Cookie") {
            Some(h) => parse_cookies(h.as_str()),
            None => {
                let t: Table<Cookie> = Table::new();
                assert(t@ =~= cookies_from(Seq::empty()));
                t
            },
        };

        Ok(Request { method, path, version, headers, body, cookies })
    }
}

} // verus!
