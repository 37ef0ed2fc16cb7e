use vstd::prelude::*;

use crate::api::{gen400, gen402};
use crate::http::{header_block, header_pairs, http_text, lookup, Code, Request, Response};
use crate::text::{chars_of, int_of, push_signed_decimal, string_of, trim, trim_chars, signed_decimal};

verus! {

/// `std::num::ParseIntError`, carried unopened from `parse_i32` to `error_text`.
#[verifier::external_type_specification]
#[verifier::external_body]
pub struct ExParseIntError(std::num::ParseIntError);

/// Relies on `str::parse::<i32>`: it accepts exactly an optional sign followed by one digit or
/// more whose value fits in an `i32`, and returns that value.
#[verifier::external_body]
fn parse_i32(s: &str) -> (r: Result<i32, std::num::ParseIntError>)
    ensures
        match r {
            Ok(v) => int_of(s@) == Some(v as int),
            Err(_) => !fits_i32(int_of(s@)),
        },
{
    s.parse::<i32>()
}

/// Relies on `ParseIntError`'s `Display`: the message that describes the error.
#[verifier::external_body]
fn error_text(e: &std::num::ParseIntError) -> (r: String) {
    e.to_string()
}

pub open spec fn fits_i32(x: Option<int>) -> bool {
    x is Some && i32::MIN <= x->0 <= i32::MAX
}

/// The plain `200 OK` response with a body and no headers.
pub open spec fn is_ok_with(r: Response, body: Seq<char>) -> bool {
    &&& r.version@ == "HTTP/1.1"@
    &&& r.code == Code::Success
    &&& r.headers@.len() == 0
    &&& r.body@ == body
}

/// The `402 FORBIDDEN` response for `req`.
pub open spec fn is_forbidden_for(r: Response, req: Request) -> bool {
    &&& r.version@ == "HTTP/1.1"@
    &&& r.code == Code::Forbidden
    &&& r.headers@.len() == 0
    &&& r.body@ == "unauthorized for access to resource "@ + req.loc@
}

/// Answers with the request's path, as HTML.
pub fn example_echo(req: &Request) -> (r: Response)
    ensures
        r.version@ == "HTTP/1.1"@,
        r.code == Code::Success,
        header_pairs(r.headers@) == seq![("Content-Type"@, "text/html; charset=utf-8"@)],
        r.body@ == req.path@,
{
    let mut res = Response::new_ok();
    res.mod_header("Content-Type", "text/html; charset=utf-8");
    assert(header_pairs(res.headers@) =~= seq![("Content-Type"@, "text/html; charset=utf-8"@)]);
    res.body = req.path.clone();
    res
}

/// Answers with twice the `number` parameter; with a 400 response when it is no `i32`, and with
/// an empty body when it is absent.
pub fn example_mult(req: &Request) -> (r: Response)
    ensures
        lookup(req.params(), "number"@) is None ==> is_ok_with(r, seq![]),
        lookup(req.params(), "number"@) is Some && fits_i32(
            int_of(trim(lookup(req.params(), "number"@)->0)),
        ) ==> is_ok_with(
            r,
            signed_decimal(2 * int_of(trim(lookup(req.params(), "number"@)->0))->0),
        ),
        lookup(req.params(), "number"@) is Some && !fits_i32(
            int_of(trim(lookup(req.params(), "number"@)->0)),
        ) ==> r.code == Code::MalformedRequest && r.headers@.len() == 0 && r.body@.take(19)
            == "malformed request: "@,
{
    let mut res = Response::new_ok();
    if let Some(n) = req.get_param("number") {
        let chars = chars_of(n.as_str());
        let t = trim_chars(&chars);
        let text = string_of(&t, 0, t.len());
        assert(text@ =~= trim(n@));
        match parse_i32(text.as_str()) {
            Ok(i) => {
                let mut body = String::new();
                push_signed_decimal(&mut body, 2 * (i as i64));
                res.body = body;
            },
            Err(e) => {
                res = gen400(error_text(&e));
                proof {
                    reveal_strlit("malformed request: ");
                }
                assert(res.body@.take(19) =~= "malformed request: "@);
            },
        }
    }
    res
}

/// An echo answer is written as the `200 OK` status line, its one `Content-Type` header, a blank
/// line, then the request's path exactly, query string included.
pub proof fn lemma_echo_text(req: Request, resp: Response)
    requires
        resp.version@ == "HTTP/1.1"@,
        resp.code == Code::Success,
        header_pairs(resp.headers@) == seq![("Content-Type"@, "text/html; charset=utf-8"@)],
        resp.body@ == req.path@,
    ensures
        http_text(resp.version@, resp.code, header_pairs(resp.headers@), resp.body@) == "HTTP/1.1"@
            + " "@ + "200 OK"@ + "\n"@ + "Content-Type"@ + ": "@ + "text/html; charset=utf-8"@
            + "\n"@ + "\n"@ + req.path@,
{
    let pairs = header_pairs(resp.headers@);
    assert(pairs.len() == 1);
    assert(pairs.last() == ("Content-Type"@, "text/html; charset=utf-8"@));
    assert(pairs.drop_last() =~= Seq::<(Seq<char>, Seq<char>)>::empty());
    assert(header_block(pairs.drop_last()) == Seq::<char>::empty());
    assert(header_block(pairs) =~= "Content-Type"@ + ": "@ + "text/html; charset=utf-8"@ + "\n"@);
    assert(http_text(resp.version@, resp.code, pairs, resp.body@) =~= "HTTP/1.1"@ + " "@ + "200 OK"@
        + "\n"@ + "Content-Type"@ + ": "@ + "text/html; charset=utf-8"@ + "\n"@ + "\n"@ + req.path@);
}

/// Answers `ok` when the `foo` parameter is `bar`, with an empty body for another value, and
/// with a 402 response when it is absent.
pub fn example_passurl(req: &Request) -> (r: Response)
    ensures
        lookup(req.params(), "foo"@) is None ==> is_forbidden_for(r, *req),
        lookup(req.params(), "foo"@) == Some("bar"@) ==> is_ok_with(r, "ok"@),
        lookup(req.params(), "foo"@) is Some && lookup(req.params(), "foo"@) != Some("bar"@)
            ==> is_ok_with(r, seq![]),
{
    let mut res = Response::new_ok();
    if let Some(n) = req.get_param("foo") {
        if n == String::from_str("bar") {
            res.body = String::from_str("ok");
        }
    } else {
        res = gen402(req);
    }
    res
}

/// Answers `ok` when the `Foo` header is `Bar`, with an empty body for another value, and with a
/// 402 response when it is absent.
pub fn example_passhead(req: &Request) -> (r: Response)
    ensures
        lookup(header_pairs(req.headers@), "Foo"@) is None ==> is_forbidden_for(r, *req),
        lookup(header_pairs(req.headers@), "Foo"@) == Some("Bar"@) ==> is_ok_with(r, "ok"@),
        lookup(header_pairs(req.headers@), "Foo"@) is Some && lookup(
            header_pairs(req.headers@),
            "Foo"@,
        ) != Some("Bar"@) ==> is_ok_with(r, seq![]),
{
    let mut res = Response::new_ok();
    if let Some(h) = req.get_header("Foo") {
        if h.value == String::from_str("Bar") {
            res.body = String::from_str("ok");
        }
    } else {
        res = gen402(req);
    }
    res
}

} // verus!
