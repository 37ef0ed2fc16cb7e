use serv::api::{gen400, gen402, gen404, gen500, HTTPEndpointHandler, START_LINE_DETAIL};
use serv::http::{parse_request, Code, Request, Response};
use serv::routes::{example_echo, example_mult, example_passhead, example_passurl};

type Handler = fn(&Request) -> Response;

fn first(_: &Request) -> Response {
    let mut res = Response::new_ok();
    res.body = "first".to_string();
    res
}

fn second(_: &Request) -> Response {
    let mut res = Response::new_ok();
    res.body = "second".to_string();
    res
}

fn router() -> HTTPEndpointHandler<Handler> {
    let mut r: HTTPEndpointHandler<Handler> = HTTPEndpointHandler::new();
    r.add("/echo", example_echo);
    r.add("/mult", example_mult);
    r.add("/passurl", example_passurl);
    r.add("/passhead", example_passhead);
    r
}

fn answer(text: &str) -> Response {
    router().process(parse_request(text).unwrap())
}

#[test]
fn gen400_body() {
    let r = gen400("bad number".to_string());
    assert_eq!(r.code, Code::MalformedRequest);
    assert_eq!(r.body, "malformed request: bad number");
    assert!(r.headers.is_empty());
}

#[test]
fn gen402_body() {
    let req = Request::new("GET".to_string(), "/secret?x=1".to_string(), "HTTP/1.1".to_string(), vec![]);
    let r = gen402(&req);
    assert_eq!(r.code, Code::Forbidden);
    assert_eq!(r.body, "unauthorized for access to resource /secret");
}

#[test]
fn gen404_body() {
    let r = gen404();
    assert_eq!(r.code, Code::NotFound);
    assert_eq!(r.body, "HTTP/1.1 404 NOT FOUND");
}

#[test]
fn gen500_body() {
    let r = gen500("disk on fire".to_string());
    assert_eq!(r.code, Code::InternalError);
    assert_eq!(r.body, "HTTP/1.1 500 INTERNAL ERROR\ndisk on fire");
}

#[test]
fn mult_doubles_number() {
    let r = answer("GET /mult?number=21 HTTP/1.1\r\n\r\n");
    assert_eq!(r.code, Code::Success);
    assert_eq!(r.body, "42");
}

#[test]
fn mult_rejects_non_number() {
    let r = answer("GET /mult?number=abc HTTP/1.1\r\n\r\n");
    assert_eq!(r.code, Code::MalformedRequest);
    assert!(r.body.contains("malformed request:"));
}

#[test]
fn unknown_path_is_not_found() {
    let r = answer("GET /unknown HTTP/1.1\r\n\r\n");
    assert_eq!(r.code, Code::NotFound);
    assert_eq!(r.body, "HTTP/1.1 404 NOT FOUND");
    let empty: HTTPEndpointHandler<Handler> = HTTPEndpointHandler::new();
    let r = empty.process(parse_request("GET /echo HTTP/1.1\r\n").unwrap());
    assert_eq!(r.code, Code::NotFound);
}

#[test]
fn passhead_needs_header() {
    let r = answer("GET /passhead HTTP/1.1\r\nFoo: Bar\r\n\r\n");
    assert_eq!(r.code, Code::Success);
    assert_eq!(r.body, "ok");
    let r = answer("GET /passhead HTTP/1.1\r\n\r\n");
    assert_eq!(r.code, Code::Forbidden);
    assert_eq!(r.body, "unauthorized for access to resource /passhead");
}

#[test]
fn routing_ignores_query() {
    let r = answer("GET /echo?a=b HTTP/1.1\r\n\r\n");
    assert_eq!(r.code, Code::Success);
    assert_eq!(r.body, "/echo?a=b");
    let r = answer("GET /echo/ HTTP/1.1\r\n\r\n");
    assert_eq!(r.code, Code::NotFound);
}

#[test]
fn first_registered_handler_wins() {
    let mut r: HTTPEndpointHandler<Handler> = HTTPEndpointHandler::new();
    r.add("/dup", first);
    r.add("/dup", second);
    let res = r.process(parse_request("GET /dup HTTP/1.1\r\n").unwrap());
    assert_eq!(res.body, "first");
}

#[test]
fn echo_round_trip_keeps_path() {
    let out = router().handle_request(b"GET /echo?x=1&y=%20 HTTP/1.1\r\nHost: h\r\n\r\nignored body");
    assert!(out.starts_with("HTTP/1.1 200 OK\n"));
    assert!(out.contains("Content-Length: 15\n"));
    assert!(out.ends_with("\n\n/echo?x=1&y=%20"));
}

#[test]
fn worker_answers_full_exchange() {
    let out = router().handle_request(b"GET /mult?number=21 HTTP/1.1\r\n\r\n");
    assert_eq!(out, "HTTP/1.1 200 OK\nContent-Length: 2\n\n42");
    let out = router().handle_request(b"GET /unknown HTTP/1.1\r\n\r\n");
    assert_eq!(out, "HTTP/1.1 404 NOT FOUND\nContent-Length: 22\n\nHTTP/1.1 404 NOT FOUND");
}

#[test]
fn worker_answers_malformed_start_line_with_400() {
    let out = router().handle_request(b"GET\r\n\r\n");
    let body = format!("malformed request: {}", START_LINE_DETAIL);
    assert_eq!(out, format!("HTTP/1.1 400 MALFORMED REQUEST\nContent-Length: {}\n\n{}", body.len(), body));
}

#[test]
fn mult_trims_and_keeps_sign() {
    assert_eq!(answer("GET /mult?number=-21 HTTP/1.1\r\n").body, "-42");
    assert_eq!(answer("GET /mult?number=+7 HTTP/1.1\r\n").body, "14");
    assert_eq!(answer("GET /mult?number=0 HTTP/1.1\r\n").body, "0");
    assert_eq!(answer("GET /mult?number=%2021 HTTP/1.1\r\n").code, Code::MalformedRequest);
}

#[test]
fn mult_handles_i32_limits() {
    assert_eq!(answer("GET /mult?number=2147483647 HTTP/1.1\r\n").body, "4294967294");
    assert_eq!(answer("GET /mult?number=-2147483648 HTTP/1.1\r\n").body, "-4294967296");
    let r = answer("GET /mult?number=2147483648 HTTP/1.1\r\n");
    assert_eq!(r.code, Code::MalformedRequest);
    assert_eq!(r.body, "malformed request: number too large to fit in target type");
    let r = answer("GET /mult?number=abc HTTP/1.1\r\n");
    assert_eq!(r.body, "malformed request: invalid digit found in string");
}

#[test]
fn mult_without_number_is_empty_ok() {
    let r = answer("GET /mult HTTP/1.1\r\n");
    assert_eq!(r.code, Code::Success);
    assert_eq!(r.body, "");
}

#[test]
fn mult_trims_number() {
    let req = Request::new("GET".to_string(), "/mult?number= 21\t".to_string(), "HTTP/1.1".to_string(), vec![]);
    let r = example_mult(&req);
    assert_eq!(r.code, Code::Success);
    assert_eq!(r.body, "42");
}

#[test]
fn passurl_checks_param() {
    let r = answer("GET /passurl?foo=bar HTTP/1.1\r\n");
    assert_eq!(r.code, Code::Success);
    assert_eq!(r.body, "ok");
    let r = answer("GET /passurl?foo=baz HTTP/1.1\r\n");
    assert_eq!(r.code, Code::Success);
    assert_eq!(r.body, "");
    let r = answer("GET /passurl HTTP/1.1\r\n");
    assert_eq!(r.code, Code::Forbidden);
    assert_eq!(r.body, "unauthorized for access to resource /passurl");
}

#[test]
fn passhead_other_value_is_empty_ok() {
    let r = answer("GET /passhead HTTP/1.1\r\nFoo: Baz\r\n");
    assert_eq!(r.code, Code::Success);
    assert_eq!(r.body, "");
}

#[test]
fn echo_sets_content_type() {
    let r = answer("GET /echo HTTP/1.1\r\n");
    assert_eq!(r.headers.len(), 1);
    assert_eq!(r.headers[0].key, "Content-Type");
    assert_eq!(r.headers[0].value, "text/html; charset=utf-8");
}

#[test]
fn mult_trims_unicode_whitespace() {
    let req = Request::new("GET".to_string(), "/mult?number=\u{A0}21\u{2009}".to_string(), "HTTP/1.1".to_string(), vec![]);
    let r = example_mult(&req);
    assert_eq!(r.code, Code::Success);
    assert_eq!(r.body, "42");
}
