use browzer_web::error::{RequestError, WebServerError};
use browzer_web::framing::{content_length_of, parse_decimal, ReadStep, RequestReader};
use browzer_web::request::Request;
use browzer_web::text::{decimal_text, same_text, split_text, trim_str, words_of};
use browzer_web::utils::{format_path_by_slashes, Cookie, HttpMethod, HttpStatusCode};

fn lines(ls: &[&str]) -> Vec<String> {
    ls.iter().map(|s| s.to_string()).collect()
}

fn norm(p: &str) -> String {
    format_path_by_slashes(p.to_string()).unwrap()
}

#[test]
fn normalize_trims_one_trailing_slash() {
    assert_eq!(norm("/menu/items/"), "/menu/items");
    assert_eq!(norm("/menu/items"), "/menu/items");
    assert_eq!(norm("/a//"), "/a/");
}

#[test]
fn normalize_keeps_root_and_fills_blank() {
    assert_eq!(norm("/"), "/");
    assert_eq!(norm(""), "/");
    assert_eq!(norm("   "), "/");
}

#[test]
fn normalize_collapses_slash_before_query() {
    assert_eq!(norm("/search/?q=rust"), "/search?q=rust");
    assert_eq!(norm("/a/?x/"), "/a?x");
}

#[test]
fn normalize_twice_is_normalize_once() {
    for p in ["/", "", "/menu/", "/users/:id", "/search/?q=1", "/x/y/z/", "?/", "/?"] {
        let once = norm(p);
        assert_eq!(norm(&once), once, "path {:?}", p);
    }
}

#[test]
fn normalize_not_stable_on_doubled_slashes() {
    // Inputs that a single trim cannot settle change again on a second pass.
    assert_eq!(norm("/a//"), "/a/");
    assert_eq!(norm("/a/"), "/a");
}

#[test]
fn method_names() {
    assert_eq!(HttpMethod::GET.to_string(), "GET");
    assert_eq!(HttpMethod::POST.to_string(), "POST");
    assert_eq!(HttpMethod::PATCH.to_string(), "PATCH");
    assert_eq!(HttpMethod::DELETE.to_string(), "DELETE");
    assert_eq!(HttpMethod::from_word("PATCH"), HttpMethod::PATCH);
    assert_eq!(HttpMethod::from_word("PUT"), HttpMethod::GET);
}

#[test]
fn status_codes_and_phrases() {
    assert_eq!(HttpStatusCode::OK.code(), ("OK", 200));
    assert_eq!(HttpStatusCode::NoContent.code(), ("No Content", 204));
    assert_eq!(HttpStatusCode::NotFound.code(), ("Not Found", 404));
    assert_eq!(HttpStatusCode::MethodNotAllowed.code(), ("Method Not Allowed", 405));
    assert_eq!(HttpStatusCode::ServiceUnavailable.code(), ("Service Unavailable", 503));
}

#[test]
fn cookie_new_has_no_attributes() {
    let c = Cookie::new("a", "1");
    assert_eq!(c.name, "a");
    assert_eq!(c.value, "1");
    assert!(c.path.is_none() && c.domain.is_none() && c.expires.is_none());
    assert!(c.max_age.is_none() && !c.secure && !c.http_only && c.raw.is_none());
    let d = Cookie::default();
    assert_eq!(d.name, "");
}

#[test]
fn text_helpers() {
    assert_eq!(trim_str("  a b \t"), "a b");
    assert_eq!(split_text("/users/42", '/'), vec!["", "users", "42"]);
    assert_eq!(split_text("", '/'), vec![""]);
    assert_eq!(words_of("  GET   /x  HTTP/1.1 "), vec!["GET", "/x", "HTTP/1.1"]);
    assert!(same_text("abc", "abc"));
    assert!(!same_text("abc", "abd"));
    assert_eq!(decimal_text(0), "0");
    assert_eq!(decimal_text(18446744073709551615), "18446744073709551615");
}

#[test]
fn empty_input_is_empty_request() {
    assert_eq!(Request::new(&Vec::new()).unwrap_err(), RequestError::EmptyRequestError);
}

#[test]
fn short_request_line_is_invalid() {
    let e = Request::new(&lines(&["GET /"])).unwrap_err();
    assert_eq!(e, RequestError::InvalidRequestLineError("GET /".to_string()));
}

#[test]
fn request_line_headers_and_body() {
    let r = Request::new(&lines(&[
        "POST /submit HTTP/1.1",
        "Host: example.com",
        "no colon here",
        "X-Note:  a: b ",
        "Host: other",
        "",
        "first",
        "second",
    ]))
    .unwrap();
    assert_eq!(r.method, HttpMethod::POST);
    assert_eq!(r.path, "/submit");
    assert_eq!(r.version, "HTTP/1.1");
    assert_eq!(r.headers.len(), 2);
    assert_eq!(r.headers.get("Host").unwrap(), "other");
    assert_eq!(r.headers.get("X-Note").unwrap(), "a: b");
    assert_eq!(r.body.as_deref(), Some("first\nsecond"));
}

#[test]
fn unknown_method_reads_as_get() {
    let r = Request::new(&lines(&["BREW /pot HTTP/1.1", ""])).unwrap();
    assert_eq!(r.method, HttpMethod::GET);
    assert!(r.body.is_none());
}

#[test]
fn cookies_from_cookie_header() {
    let r = Request::new(&lines(&["GET / HTTP/1.1", "Cookie: a=1; b=two=2; junk", ""])).unwrap();
    assert_eq!(r.cookies.len(), 2);
    assert_eq!(r.cookies.get("a").unwrap().value, "1");
    let b = r.cookies.get("b").unwrap();
    assert_eq!(b.name, " b");
    assert_eq!(b.value, "two=2");
    assert!(r.cookies.get("junk").is_none());
}

#[test]
fn decimal_parsing() {
    assert_eq!(parse_decimal("42"), Some(42));
    assert_eq!(parse_decimal("+7"), Some(7));
    assert_eq!(parse_decimal("+"), None);
    assert_eq!(parse_decimal(""), None);
    assert_eq!(parse_decimal("4a"), None);
    assert_eq!(parse_decimal("18446744073709551615"), Some(usize::MAX));
    assert_eq!(parse_decimal("18446744073709551616"), None);
}

#[test]
fn content_length_lines() {
    assert_eq!(content_length_of("Content-Length: 12"), Ok(Some(12)));
    assert_eq!(content_length_of("Content-Length:  3 "), Ok(Some(3)));
    assert_eq!(content_length_of("Host: x"), Ok(None));
    assert!(matches!(content_length_of("Content-Length: abc"), Err(WebServerError::IO(_))));
}

#[test]
fn reader_steps_through_a_request() {
    let mut rd = RequestReader::new();
    assert_eq!(rd.push_line("POST /x HTTP/1.1".to_string()), Ok(ReadStep::NextLine));
    assert_eq!(rd.push_line("Content-Length: 5".to_string()), Ok(ReadStep::NextLine));
    assert_eq!(rd.push_line("".to_string()), Ok(ReadStep::ReadBody(5)));
    rd.push_body("hello".to_string());
    let ls = rd.into_lines();
    let r = Request::new(&ls).unwrap();
    assert_eq!(r.body.as_deref(), Some("hello"));
    assert_eq!(r.headers.get("Content-Length").unwrap(), "5");
}

#[test]
fn reader_without_body_is_done() {
    let mut rd = RequestReader::new();
    assert_eq!(rd.push_line("GET / HTTP/1.1".to_string()), Ok(ReadStep::NextLine));
    assert_eq!(rd.push_line("".to_string()), Ok(ReadStep::Done));
    assert!(rd.push_line("Content-Length: x".to_string()).is_err());
    assert_eq!(rd.body_step(), ReadStep::Done);
}
