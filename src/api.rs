use vstd::prelude::*;

use crate::http::{
    lossy_text, parse_bytes, parsed, serialize_response, start_tokens, status_line, wire_text, Code,
    Request, Response,
};

verus! {

/// The detail of the 400 response to a request whose start line lacks a token.
pub const START_LINE_DETAIL: &'static str = "start line needs a method, a path and a version";

/// A path bound to the handler that answers it.
pub struct Endpoint<H> {
    loc: String,
    func: H,
}

/// An ordered list of bindings from literal paths to handlers.
pub struct HTTPEndpointHandler<H> {
    endpoints: Vec<Endpoint<H>>,
}

impl<H> View for HTTPEndpointHandler<H> {
    type V = Seq<(Seq<char>, H)>;

    closed spec fn view(&self) -> Seq<(Seq<char>, H)> {
        self.endpoints@.map_values(|e: Endpoint<H>| (e.loc@, e.func))
    }
}

pub open spec fn is_first_route<H>(eps: Seq<(Seq<char>, H)>, loc: Seq<char>, i: int) -> bool {
    &&& 0 <= i < eps.len()
    &&& eps[i].0 == loc
    &&& forall|k: int| 0 <= k < i ==> eps[k].0 != loc
}

/// The position of the first binding for `loc`, or -1 when there is none.
pub open spec fn route_index<H>(eps: Seq<(Seq<char>, H)>, loc: Seq<char>) -> int {
    if exists|i: int| is_first_route(eps, loc, i) {
        choose|i: int| is_first_route(eps, loc, i)
    } else {
        -1
    }
}

pub proof fn lemma_route_index<H>(eps: Seq<(Seq<char>, H)>, loc: Seq<char>, i: int)
    requires
        is_first_route(eps, loc, i),
    ensures
        route_index(eps, loc) == i,
{
    let j = choose|j: int| is_first_route(eps, loc, j);
    assert(is_first_route(eps, loc, j));
    if j < i {
        assert(eps[j].0 != loc);
    } else if i < j {
        assert(eps[i].0 != loc);
    }
}

pub proof fn lemma_route_index_none<H>(eps: Seq<(Seq<char>, H)>, loc: Seq<char>)
    requires
        forall|k: int| 0 <= k < eps.len() ==> eps[k].0 != loc,
    ensures
        route_index(eps, loc) == -1,
{
    if exists|i: int| is_first_route(eps, loc, i) {
        let j = choose|j: int| is_first_route(eps, loc, j);
        assert(eps[j].0 == loc);
    }
}

/// Binding a path again leaves the earlier binding the one that answers it.
pub proof fn lemma_first_binding_wins<H>(eps: Seq<(Seq<char>, H)>, loc: Seq<char>, f: H)
    requires
        0 <= route_index(eps, loc),
    ensures
        route_index(eps.push((loc, f)), loc) == route_index(eps, loc),
{
    let i = route_index(eps, loc);
    assert(is_first_route(eps, loc, i));
    assert(is_first_route(eps.push((loc, f)), loc, i));
    lemma_route_index(eps.push((loc, f)), loc, i);
}

/// The first binding of a path that was not bound before is the one that answers it.
pub proof fn lemma_new_binding_answers<H>(eps: Seq<(Seq<char>, H)>, loc: Seq<char>, f: H)
    requires
        forall|k: int| 0 <= k < eps.len() ==> eps[k].0 != loc,
    ensures
        route_index(eps.push((loc, f)), loc) == eps.len(),
        eps.push((loc, f))[eps.len() as int].1 == f,
{
    assert(is_first_route(eps.push((loc, f)), loc, eps.len() as int));
    lemma_route_index(eps.push((loc, f)), loc, eps.len() as int);
}

/// The response sent when no binding matches: status 404, its status line as body.
pub open spec fn is_not_found(r: Response) -> bool {
    &&& r.version@ == "HTTP/1.1"@
    &&& r.code == Code::NotFound
    &&& r.headers@.len() == 0
    &&& r.body@ == status_line("HTTP/1.1"@, Code::NotFound)
}

impl<H: Fn(&Request) -> Response> HTTPEndpointHandler<H> {
    /// Every handler accepts every request.
    pub open spec fn accepts_all(&self) -> bool {
        forall|i: int, req: Request|
            0 <= i < self@.len() ==> #[trigger] self@[i].1.requires((&req,))
    }

    pub fn new() -> (r: HTTPEndpointHandler<H>)
        ensures
            r@ == Seq::<(Seq<char>, H)>::empty(),
    {
        let endpoints: Vec<Endpoint<H>> = Vec::new();
        let r = HTTPEndpointHandler { endpoints };
        assert(r@ =~= Seq::<(Seq<char>, H)>::empty());
        r
    }

    /// Appends a binding of `loc` to `func`; an earlier binding of the same path stays first.
    pub fn add(&mut self, loc: &str, func: H)
        ensures
            final(self)@ == old(self)@.push((loc@, func)),
    {
        let ghost before = self@;
        self.endpoints.push(Endpoint { loc: loc.to_owned(), func });
        assert(self@ =~= before.push((loc@, func)));
    }

    /// `resp` is an answer `process` may give to `req`.
    pub open spec fn answers(&self, req: Request, resp: Response) -> bool {
        &&& route_index(self@, req.loc@) == -1 ==> is_not_found(resp)
        &&& 0 <= route_index(self@, req.loc@) ==> self@[route_index(self@, req.loc@)].1.ensures(
            (&req,),
            resp,
        )
    }

    /// One connection's work: parses the bytes read, answers the request (with a 400 response
    /// when its start line is malformed) and returns the text to write back.
    pub fn handle_request(&self, buf: &[u8]) -> (r: String)
        requires
            self.accepts_all(),
        ensures
            start_tokens(lossy_text(buf@)).len() < 3 ==> exists|resp: Response|
                {
                    &&& resp.code == Code::MalformedRequest
                    &&& resp.version@ == "HTTP/1.1"@
                    &&& resp.headers@.len() == 0
                    &&& resp.body@ == "malformed request: "@ + START_LINE_DETAIL@
                    &&& r@ == wire_text(resp)
                },
            start_tokens(lossy_text(buf@)).len() >= 3 ==> exists|req: Request, resp: Response|
                {
                    &&& parsed(lossy_text(buf@), Ok(req))
                    &&& self.answers(req, resp)
                    &&& r@ == wire_text(resp)
                },
            vstd::utf8::valid_utf8(buf@) ==> lossy_text(buf@) == vstd::utf8::decode_utf8(buf@),
    {
        match parse_bytes(buf) {
            Ok(req) => {
                let ghost q = req;
                let resp = self.process(req);
                let r = serialize_response(resp);
                assert(parsed(lossy_text(buf@), Ok(q)) && self.answers(q, resp) && r@ == wire_text(resp));
                r
            },
            Err(_) => {
                let resp = gen400(String::from_str(START_LINE_DETAIL));
                let r = serialize_response(resp);
                assert(r@ == wire_text(resp));
                r
            },
        }
    }

    /// Answers `req` with the first handler bound to its `loc`, or with a 404 response.
    pub fn process(&self, req: Request) -> (r: Response)
        requires
            forall|i: int| 0 <= i < self@.len() ==> #[trigger] self@[i].1.requires((&req,)),
        ensures
            route_index(self@, req.loc@) == -1 ==> is_not_found(r),
            0 <= route_index(self@, req.loc@) ==> self@[route_index(self@, req.loc@)].1.ensures(
                (&req,),
                r,
            ),
    {
        let mut i: usize = 0;
        while i < self.endpoints.len()
            invariant
                i <= self@.len(),
                self@.len() == self.endpoints@.len(),
                forall|k: int| 0 <= k < i ==> self@[k].0 != req.loc@,
                forall|k: int| 0 <= k < self@.len() ==> #[trigger] self@[k].1.requires((&req,)),
            decreases self.endpoints@.len() - i,
        {
            if self.endpoints[i].loc == req.loc {
                proof {
                    assert(self@[i as int].0 == self.endpoints@[i as int].loc@);
                    lemma_route_index(self@, req.loc@, i as int);
                    assert(self@[i as int].1 == self.endpoints@[i as int].func);
                }
                return (self.endpoints[i].func)(&req);
            }
            i += 1;
        }
        proof {
            lemma_route_index_none(self@, req.loc@);
        }
        gen404()
    }
}

/// A `400 MALFORMED REQUEST` response whose body names the problem.
pub fn gen400(err: String) -> (r: Response)
    ensures
        r.version@ == "HTTP/1.1"@,
        r.code == Code::MalformedRequest,
        r.headers@.len() == 0,
        r.body@ == "malformed request: "@ + err@,
{
    let mut res = Response::new(Code::MalformedRequest);
    let mut body = String::from_str("malformed request: ");
    body.append(err.as_str());
    res.body = body;
    res
}

/// A `402 FORBIDDEN` response for the resource `req` asked for.
pub fn gen402(req: &Request) -> (r: Response)
    ensures
        r.version@ == "HTTP/1.1"@,
        r.code == Code::Forbidden,
        r.headers@.len() == 0,
        r.body@ == "unauthorized for access to resource "@ + req.loc@,
{
    let mut res = Response::new(Code::Forbidden);
    let mut body = String::from_str("unauthorized for access to resource ");
    body.append(req.loc.as_str());
    res.body = body;
    res
}

/// A `404 NOT FOUND` response whose body is its status line.
pub fn gen404() -> (r: Response)
    ensures
        is_not_found(r),
{
    let mut res = Response::new(Code::NotFound);
    res.body = res.to_string();
    res
}

/// A `500 INTERNAL ERROR` response: the status line, a line feed, then `err`.
pub fn gen500(err: String) -> (r: Response)
    ensures
        r.version@ == "HTTP/1.1"@,
        r.code == Code::InternalError,
        r.headers@.len() == 0,
        r.body@ == status_line("HTTP/1.1"@, Code::InternalError) + "\n"@ + err@,
{
    let mut res = Response::new(Code::InternalError);
    let mut body = res.to_string();
    body.append("\n");
    body.append(err.as_str());
    res.body = body;
    res
}

} // verus!
