use browzer_web::context::{field_in_form, Context};
use browzer_web::request::Request;
use browzer_web::response::{set_cookie_value, Response};
use browzer_web::router::{RouteMatch, WebRouter};
use browzer_web::utils::{Cookie, HttpMethod, HttpStatusCode};

type Handler = Box<dyn Fn(Context) -> Response>;
type Middleware = Box<dyn Fn(Context) -> Context>;

fn router() -> WebRouter<Handler, Middleware> {
    WebRouter::new()
}

fn req(line: &str) -> Request {
    Request::new(&vec![line.to_string(), String::new()]).unwrap()
}

fn text(body: &'static str) -> Handler {
    Box::new(move |mut c: Context| c.send_string(HttpStatusCode::OK, body))
}

fn wire(r: &WebRouter<Handler, Middleware>, raw: &str) -> String {
    let ls: Vec<String> = raw.split("\r\n").map(|s| s.to_string()).collect();
    r.handle_request(Request::new(&ls).unwrap()).unwrap().to_string()
}

#[test]
fn end_to_end_hello() {
    let mut r = router();
    r.add("/hello".to_string(), HttpMethod::GET, text("hi")).unwrap();
    let out = wire(&r, "GET /hello HTTP/1.1\r\n\r\n");
    assert!(out.starts_with("HTTP/1.1 200 OK"));
    assert!(out.contains("Content-Length: 2\r\n"));
    assert!(out.ends_with("\r\n\r\nhi"));
}

#[test]
fn end_to_end_missing_is_404() {
    let r = router();
    let out = wire(&r, "GET /missing HTTP/1.1\r\n\r\n");
    assert_eq!(out, "HTTP/1.1 404 Not Found\r\nContent-Length: 9\r\n\r\nNot Found");
}

#[test]
fn end_to_end_wrong_method_is_405() {
    let mut r = router();
    r.add("/item".to_string(), HttpMethod::POST, text("made")).unwrap();
    let resp = r.handle_request(req("GET /item HTTP/1.1")).unwrap();
    assert_eq!(resp.status_code, HttpStatusCode::MethodNotAllowed);
    assert_eq!(resp.body, "Method Not Allowed");
    assert!(wire(&r, "GET /item HTTP/1.1\r\n\r\n").starts_with("HTTP/1.1 405 Method Not Allowed"));
}

#[test]
fn end_to_end_params_and_query() {
    let mut r = router();
    let h: Handler = Box::new(|mut c: Context| {
        let id = c.params.get("id").cloned().unwrap_or_default();
        let active = c.query_params.get("active").cloned().unwrap_or_default();
        assert_eq!(c.params.len(), 1);
        assert_eq!(c.query_params.len(), 1);
        c.send_string(HttpStatusCode::OK, &format!("{}|{}", id, active))
    });
    r.add("/users/:id".to_string(), HttpMethod::GET, h).unwrap();
    let resp = r.handle_request(req("GET /users/42?active=true HTTP/1.1")).unwrap();
    assert_eq!(resp.status_code, HttpStatusCode::OK);
    assert_eq!(resp.body, "42|true");
}

#[test]
fn dynamic_needs_same_segment_count() {
    let mut r = router();
    r.add("/users/:id".to_string(), HttpMethod::GET, text("user")).unwrap();
    assert!(matches!(r.resolve("/users/1/posts", HttpMethod::GET), RouteMatch::NotFound));
    let resp = r.handle_request(req("GET /users/1/posts HTTP/1.1")).unwrap();
    assert_eq!(resp.status_code, HttpStatusCode::NotFound);
    assert!(matches!(r.resolve("/users/1", HttpMethod::GET), RouteMatch::Dynamic(0, 0, _, _)));
}

#[test]
fn exact_route_beats_dynamic() {
    let mut r = router();
    r.add("/users/:id".to_string(), HttpMethod::GET, text("dynamic")).unwrap();
    r.add("/users/me".to_string(), HttpMethod::GET, text("exact")).unwrap();
    let resp = r.handle_request(req("GET /users/me HTTP/1.1")).unwrap();
    assert_eq!(resp.body, "exact");
    let resp = r.handle_request(req("GET /users/7 HTTP/1.1")).unwrap();
    assert_eq!(resp.body, "dynamic");
}

#[test]
fn query_pairs_and_empty_values() {
    let mut r = router();
    r.add("/search".to_string(), HttpMethod::GET, text("s")).unwrap();
    match r.resolve("/search?q=rust&x=", HttpMethod::GET) {
        RouteMatch::Dynamic(_, _, params, query) => {
            assert_eq!(params.len(), 0);
            assert_eq!(query.len(), 2);
            assert_eq!(query.get("q").unwrap(), "rust");
            assert_eq!(query.get("x").unwrap(), "");
        }
        _ => panic!("expected a dynamic match"),
    }
}

#[test]
fn empty_query_key_is_400() {
    let mut r = router();
    r.add("/search".to_string(), HttpMethod::GET, text("s")).unwrap();
    let resp = r.handle_request(req("GET /search?=v HTTP/1.1")).unwrap();
    assert_eq!(resp.status_code, HttpStatusCode::BadRequest);
    assert_eq!(resp.body, "Bad Request");
}

#[test]
fn trailing_slash_route_matches_with_query() {
    let mut r = router();
    r.add("/menu/items/".to_string(), HttpMethod::GET, text("menu")).unwrap();
    let resp = r.handle_request(req("GET /menu/items/?page=2 HTTP/1.1")).unwrap();
    assert_eq!(resp.body, "menu");
}

#[test]
fn reregistering_replaces_handler() {
    let mut r = router();
    r.add("/a".to_string(), HttpMethod::GET, text("old")).unwrap();
    r.add("/a/".to_string(), HttpMethod::GET, text("new")).unwrap();
    r.add("/a".to_string(), HttpMethod::DELETE, text("gone")).unwrap();
    assert_eq!(r.handle_request(req("GET /a HTTP/1.1")).unwrap().body, "new");
    assert_eq!(r.handle_request(req("DELETE /a HTTP/1.1")).unwrap().body, "gone");
}

#[test]
fn middlewares_run_in_order() {
    let mut r = router();
    r.add_middleware(Box::new(|mut c: Context| {
        c.response.headers.insert("X-Order".to_string(), "1".to_string());
        c
    }));
    r.add_middleware(Box::new(|mut c: Context| {
        let prev = c.response.headers.get("X-Order").cloned().unwrap_or_default();
        c.response.headers.insert("X-Order".to_string(), format!("{}2", prev));
        c.request.path = "/rewritten".to_string();
        c
    }));
    r.add("/rewritten".to_string(), HttpMethod::GET, Box::new(|mut c: Context| {
        let order = c.response.headers.get("X-Order").cloned().unwrap();
        c.send_string(HttpStatusCode::OK, &order)
    }))
    .unwrap();
    let resp = r.handle_request(req("GET /first HTTP/1.1")).unwrap();
    assert_eq!(resp.body, "12");
}

#[test]
fn response_wire_text_with_headers_and_cookies() {
    let mut resp = Response::new(HttpStatusCode::Created, "héllo".to_string());
    resp.headers.insert("X-A".to_string(), "1".to_string());
    let mut c = Cookie::new("sid", "abc");
    c.path = Some("/".to_string());
    c.max_age = Some(-5);
    c.secure = true;
    c.http_only = true;
    resp.cookies.insert("sid".to_string(), c);
    assert_eq!(
        resp.to_string(),
        "HTTP/1.1 201 Created\r\nContent-Length: 6\r\nX-A: 1\r\nSet-Cookie: sid=abc; Path=/; Max-Age=-5; Secure; HttpOnly\r\n\r\nhéllo"
    );
}

#[test]
fn cookie_expiry_is_an_http_date() {
    let mut resp = Response::default();
    let mut c = Cookie::new("t", "v");
    c.expires = Some(784111777);
    c.domain = Some("example.com".to_string());
    resp.cookies.insert("t".to_string(), c);
    assert_eq!(
        resp.to_string(),
        "HTTP/1.1 200 OK\r\nContent-Length: 0\r\nSet-Cookie: t=v; Domain=example.com; Expires=Sun, 06 Nov 1994 08:49:37 GMT\r\n\r\n"
    );
}

#[test]
fn set_cookie_value_with_given_expiry() {
    let c = Cookie::new("k", "v");
    assert_eq!(set_cookie_value(&c, Some("DATE")), "k=v; Expires=DATE");
    assert_eq!(set_cookie_value(&c, None), "k=v");
}

#[test]
fn round_trip_status_and_body() {
    let resp = Response::new(HttpStatusCode::NotModified, "line1\r\n\r\nline2".to_string());
    let w = resp.to_string();
    let status: u16 = w.split(' ').nth(1).unwrap().parse().unwrap();
    assert_eq!(status, 304);
    let len: usize = w
        .lines()
        .find_map(|l| l.strip_prefix("Content-Length: "))
        .unwrap()
        .parse()
        .unwrap();
    let body = &w[w.len() - len..];
    assert_eq!(body, "line1\r\n\r\nline2");
}

#[test]
fn send_string_and_redirect() {
    let mut c = Context::new(Request::default());
    let r = c.send_string(HttpStatusCode::Accepted, "ok");
    assert_eq!(r.status_code, HttpStatusCode::Accepted);
    assert_eq!(c.response.body, "ok");
    let r = c.redirect(HttpStatusCode::Found, "/login");
    assert_eq!(r.status_code, HttpStatusCode::Found);
    assert_eq!(r.headers.get("Location").unwrap(), "/login");
    assert_eq!(r.body, "ok");
}

#[test]
fn form_values_from_body() {
    let mut with_type = Request::new(&vec![
        "POST /f HTTP/1.1".to_string(),
        "Content-Type: application/x-www-form-urlencoded".to_string(),
        "".to_string(),
        "  name=J%C3%BCrgen&msg=hello+world&name=Ann  ".to_string(),
    ])
    .unwrap();
    with_type.path = "/f".to_string();
    let mut c = Context::new(with_type);
    assert_eq!(c.form_value("msg"), "hello world");
    assert_eq!(c.form_value("name"), "Ann");
    assert_eq!(c.form_value("none"), "");

    let no_type = Request::new(&vec!["POST /f HTTP/1.1".to_string(), "".to_string(), "a=1".to_string()]).unwrap();
    assert_eq!(Context::new(no_type).form_value("a"), "");
}

#[test]
fn form_field_lookup() {
    let pairs = Some(vec![("a".to_string(), "1".to_string()), ("a".to_string(), "2".to_string())]);
    assert_eq!(field_in_form(&pairs, "a"), "2");
    assert_eq!(field_in_form(&pairs, "b"), "");
    assert_eq!(field_in_form(&None, "a"), "");
}
