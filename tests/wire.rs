use serv::http::{parse_bytes, parse_request, serialize_response, Code, Header, ParseError, Request, Response};

fn header(key: &str, value: &str) -> Header {
    Header { key: key.to_string(), value: value.to_string() }
}

fn request(path: &str, headers: Vec<Header>) -> Request {
    Request::new("GET".to_string(), path.to_string(), "HTTP/1.1".to_string(), headers)
}

#[test]
fn code_texts() {
    assert_eq!(Code::Success.to_str(), "200 OK");
    assert_eq!(Code::MalformedRequest.to_str(), "400 MALFORMED REQUEST");
    assert_eq!(Code::Forbidden.to_str(), "402 FORBIDDEN");
    assert_eq!(Code::NotFound.to_str(), "404 NOT FOUND");
    assert_eq!(Code::InternalError.to_str(), "500 INTERNAL ERROR");
}

#[test]
fn path_without_query_is_its_own_loc() {
    let r = request("/echo", vec![]);
    assert_eq!(r.loc, "/echo");
    assert_eq!(r.path, "/echo");
    assert!(r.query.is_empty());
    assert_eq!(r.get_param("echo"), None);
}

#[test]
fn query_is_split_after_first_question_mark() {
    let r = request("/mult?number=21&x=y?z", vec![]);
    assert_eq!(r.loc, "/mult");
    assert_eq!(r.path, "/mult?number=21&x=y?z");
    assert_eq!(r.query.len(), 2);
    assert_eq!(r.query[0].key, "number");
    assert_eq!(r.query[0].value, "21");
    assert_eq!(r.query[1].key, "x");
    assert_eq!(r.query[1].value, "y?z");
    assert_eq!(r.get_param("number"), Some("21".to_string()));
}

#[test]
fn pairs_with_an_empty_side_are_dropped() {
    let r = request("/x?=1&a=", vec![]);
    assert_eq!(r.loc, "/x");
    assert_eq!(r.query.len(), 0);
    assert_eq!(r.get_param("a"), None);
    let r = request("/x?flag&&b=2&=", vec![]);
    assert_eq!(r.query.len(), 1);
    assert_eq!(r.get_param("b"), Some("2".to_string()));
    assert_eq!(r.get_param("flag"), None);
}

#[test]
fn pair_splits_on_first_equals() {
    let r = request("/p?a=b=c", vec![]);
    assert_eq!(r.get_param("a"), Some("b=c".to_string()));
}

#[test]
fn empty_query_string_has_no_params() {
    let r = request("/p?", vec![]);
    assert_eq!(r.loc, "/p");
    assert!(r.query.is_empty());
}

#[test]
fn get_param_takes_first_duplicate() {
    let r = request("/p?k=1&k=2", vec![]);
    assert_eq!(r.get_param("k"), Some("1".to_string()));
    assert_eq!(r.get_param("K"), None);
}

#[test]
fn get_header_takes_first_duplicate() {
    let r = request("/", vec![header("Foo", "a"), header("Foo", "b"), header("foo", "c")]);
    let h = r.get_header("Foo").unwrap();
    assert_eq!(h.key, "Foo");
    assert_eq!(h.value, "a");
    assert_eq!(r.get_header("foo").unwrap().value, "c");
    assert!(r.get_header("FOO").is_none());
    assert!(r.get_header("Bar").is_none());
}

#[test]
fn request_summary() {
    let r = request("/a?b=c", vec![header("A", "1"), header("B", "2")]);
    assert_eq!(r.to_string(), "GET /a?b=c HTTP/1.1 (2 headers)");
    let r = request("/", vec![]);
    assert_eq!(r.to_string(), "GET / HTTP/1.1 (0 headers)");
}

#[test]
fn header_text() {
    assert_eq!(header("Content-Type", "text/html").to_string(), "Content-Type: text/html");
}

#[test]
fn new_response_is_empty() {
    let r = Response::new(Code::NotFound);
    assert_eq!(r.version, "HTTP/1.1");
    assert_eq!(r.code, Code::NotFound);
    assert!(r.headers.is_empty());
    assert_eq!(r.body, "");
    let ok = Response::new_ok();
    assert_eq!(ok.code, Code::Success);
    assert_eq!(ok.to_string(), "HTTP/1.1 200 OK");
}

#[test]
fn mod_header_replaces_first_or_appends() {
    let mut r = Response::new_ok();
    r.mod_header("A", "1");
    r.mod_header("B", "2");
    assert_eq!(r.headers.len(), 2);
    r.headers.push(header("A", "3"));
    r.mod_header("A", "9");
    assert_eq!(r.headers.len(), 3);
    assert_eq!(r.headers[0].value, "9");
    assert_eq!(r.headers[1].value, "2");
    assert_eq!(r.headers[2].value, "3");
    r.mod_header("a", "x");
    assert_eq!(r.headers.len(), 4);
    assert_eq!(r.headers[3].key, "a");
}

#[test]
fn to_http_layout() {
    let mut r = Response::new_ok();
    r.mod_header("Content-Type", "text/html; charset=utf-8");
    r.mod_header("X", "y");
    r.body = "hello".to_string();
    assert_eq!(r.to_http(), "HTTP/1.1 200 OK\nContent-Type: text/html; charset=utf-8\nX: y\n\nhello");
    assert_eq!(Response::new(Code::Forbidden).to_http(), "HTTP/1.1 402 FORBIDDEN\n\n");
}

#[test]
fn serialize_sets_content_length() {
    let mut r = Response::new_ok();
    r.body = "42".to_string();
    assert_eq!(serialize_response(r), "HTTP/1.1 200 OK\nContent-Length: 2\n\n42");
}

#[test]
fn content_length_counts_bytes() {
    let mut r = Response::new_ok();
    r.body = "héllo wörld ✓".to_string();
    let text = serialize_response(r);
    assert!(text.contains("Content-Length: 17\n"));
    let mut r = Response::new_ok();
    r.body = "x".repeat(1234);
    assert!(serialize_response(r).contains("Content-Length: 1234\n"));
    let r = Response::new_ok();
    assert_eq!(serialize_response(r), "HTTP/1.1 200 OK\nContent-Length: 0\n\n");
}

#[test]
fn content_length_is_overwritten() {
    let mut r = Response::new_ok();
    r.mod_header("Content-Length", "999");
    r.mod_header("A", "b");
    r.body = "abc".to_string();
    assert_eq!(serialize_response(r), "HTTP/1.1 200 OK\nContent-Length: 3\nA: b\n\nabc");
}

#[test]
fn parse_start_line_and_headers() {
    let text = "GET /mult?number=21 HTTP/1.1\r\nHost: localhost\r\nFoo: Bar: Baz\r\nbroken\r\nEmpty: \r\n\r\nbody: text";
    let req = parse_request(text).unwrap();
    assert_eq!(req.method, "GET");
    assert_eq!(req.path, "/mult?number=21");
    assert_eq!(req.version, "HTTP/1.1");
    assert_eq!(req.loc, "/mult");
    assert_eq!(req.get_param("number"), Some("21".to_string()));
    assert_eq!(req.headers.len(), 3);
    assert_eq!(req.headers[0].key, "Host");
    assert_eq!(req.headers[0].value, "localhost");
    assert_eq!(req.headers[1].key, "Foo");
    assert_eq!(req.headers[1].value, "Bar: Baz");
    assert_eq!(req.headers[2].key, "body");
    assert_eq!(req.headers[2].value, "text");
}

#[test]
fn parse_trims_lines() {
    let req = parse_request("  POST /x HTTP/1.0  \n\t Key: Value \t\n").unwrap();
    assert_eq!(req.method, "POST");
    assert_eq!(req.path, "/x");
    assert_eq!(req.version, "HTTP/1.0");
    assert_eq!(req.get_header("Key").unwrap().value, "Value");
}

#[test]
fn parse_keeps_extra_start_tokens_out() {
    let req = parse_request("GET /a HTTP/1.1 extra\n").unwrap();
    assert_eq!(req.version, "HTTP/1.1");
    let req = parse_request("GET  /a HTTP/1.1\n").unwrap();
    assert_eq!(req.path, "");
    assert_eq!(req.version, "/a");
}

#[test]
fn short_start_line_is_an_error() {
    assert_eq!(parse_request("GET /\r\n\r\n").err(), Some(ParseError::MalformedStartLine));
    assert_eq!(parse_request("").err(), Some(ParseError::MalformedStartLine));
    assert_eq!(parse_request("\nA B C\n").err(), Some(ParseError::MalformedStartLine));
}

#[test]
fn parse_bytes_decodes_lossily() {
    let req = parse_bytes(b"GET /caf\xC3\xA9 HTTP/1.1\r\n\r\n").unwrap();
    assert_eq!(req.path, "/café");
    let req = parse_bytes(b"GET /a\xFFb HTTP/1.1\r\n\r\n").unwrap();
    assert_eq!(req.path, "/a\u{FFFD}b");
    assert_eq!(parse_bytes(b"").err(), Some(ParseError::MalformedStartLine));
}

#[test]
fn unicode_whitespace_is_trimmed() {
    let req = parse_request("\u{3000}GET /u HTTP/1.1\u{A0}\r\nA: B\u{A0}\r\n\u{2003}C: D\u{205F}\n").unwrap();
    assert_eq!(req.method, "GET");
    assert_eq!(req.version, "HTTP/1.1");
    assert_eq!(req.get_header("A").unwrap().value, "B");
    assert_eq!(req.get_header("C").unwrap().value, "D");
    assert_eq!(parse_request("A B \u{3000}\r\n").err(), Some(ParseError::MalformedStartLine));
}
