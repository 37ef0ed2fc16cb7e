use vstd::prelude::*;

use crate::text::{
    is_blank, strip_back, strip_front,
    chars_of, find_from, first_index, lemma_first_index, lemma_first_index_none,
    push_decimal, decimal, split, split_chars, string_of, trim, trim_chars, views,
};

verus! {

/// A request as read from a connection; `loc` is `path` without its query string.
#[derive(Clone)]
pub struct Request {
    pub method: String,
    pub path: String,
    pub version: String,
    pub headers: Vec<Header>,
    pub loc: String,
    pub query: Vec<Query>,
}

/// A response to be written back to a connection.
#[derive(Clone)]
pub struct Response {
    pub version: String,
    pub code: Code,
    pub headers: Vec<Header>,
    pub body: String,
}

/// The status codes a response can carry.
#[derive(Clone, Copy, PartialEq, Eq, Structural, Debug)]
pub enum Code {
    Success,
    MalformedRequest,
    Forbidden,
    NotFound,
    InternalError,
}

/// One `key=value` pair of a query string.
#[derive(Clone)]
pub struct Query {
    pub key: String,
    pub value: String,
}

/// One `key: value` header line.
#[derive(Clone)]
pub struct Header {
    pub key: String,
    pub value: String,
}

/// The status text written after the protocol version.
pub open spec fn code_text(c: Code) -> Seq<char> {
    match c {
        Code::Success => "200 OK"@,
        Code::MalformedRequest => "400 MALFORMED REQUEST"@,
        Code::Forbidden => "402 FORBIDDEN"@,
        Code::NotFound => "404 NOT FOUND"@,
        Code::InternalError => "500 INTERNAL ERROR"@,
    }
}

impl Code {
    pub fn to_str(&self) -> (r: &'static str)
        ensures
            r@ == code_text(*self),
    {
        match self {
            Code::Success => "200 OK",
            Code::MalformedRequest => "400 MALFORMED REQUEST",
            Code::Forbidden => "402 FORBIDDEN",
            Code::NotFound => "404 NOT FOUND",
            Code::InternalError => "500 INTERNAL ERROR",
        }
    }
}

/// The (key, value) pairs of a sequence of headers.
pub open spec fn header_pairs(hs: Seq<Header>) -> Seq<(Seq<char>, Seq<char>)> {
    hs.map_values(|h: Header| (h.key@, h.value@))
}

/// The (key, value) pairs of a sequence of query parameters.
pub open spec fn query_pairs(qs: Seq<Query>) -> Seq<(Seq<char>, Seq<char>)> {
    qs.map_values(|q: Query| (q.key@, q.value@))
}

pub open spec fn is_first_key(pairs: Seq<(Seq<char>, Seq<char>)>, key: Seq<char>, i: int) -> bool {
    &&& 0 <= i < pairs.len()
    &&& pairs[i].0 == key
    &&& forall|k: int| 0 <= k < i ==> pairs[k].0 != key
}

/// The position of the first pair whose key is `key`, or -1 when there is none.
pub open spec fn key_index(pairs: Seq<(Seq<char>, Seq<char>)>, key: Seq<char>) -> int {
    if exists|i: int| is_first_key(pairs, key, i) {
        choose|i: int| is_first_key(pairs, key, i)
    } else {
        -1
    }
}

/// The value of the first pair whose key is `key`.
pub open spec fn lookup(pairs: Seq<(Seq<char>, Seq<char>)>, key: Seq<char>) -> Option<Seq<char>> {
    let i = key_index(pairs, key);
    if 0 <= i < pairs.len() {
        Some(pairs[i].1)
    } else {
        None
    }
}

/// `pairs` with the first pair keyed `key` given `value`, or with `(key, value)` appended.
pub open spec fn set_pair(pairs: Seq<(Seq<char>, Seq<char>)>, key: Seq<char>, value: Seq<char>) -> Seq<
    (Seq<char>, Seq<char>),
> {
    let i = key_index(pairs, key);
    if 0 <= i < pairs.len() {
        pairs.update(i, (key, value))
    } else {
        pairs.push((key, value))
    }
}

pub proof fn lemma_key_index(pairs: Seq<(Seq<char>, Seq<char>)>, key: Seq<char>, i: int)
    requires
        is_first_key(pairs, key, i),
    ensures
        key_index(pairs, key) == i,
{
    let j = choose|j: int| is_first_key(pairs, key, j);
    assert(is_first_key(pairs, key, j));
    if j < i {
        assert(pairs[j].0 != key);
    } else if i < j {
        assert(pairs[i].0 != key);
    }
}

pub proof fn lemma_key_index_none(pairs: Seq<(Seq<char>, Seq<char>)>, key: Seq<char>)
    requires
        forall|k: int| 0 <= k < pairs.len() ==> pairs[k].0 != key,
    ensures
        key_index(pairs, key) == -1,
{
    if exists|i: int| is_first_key(pairs, key, i) {
        let j = choose|j: int| is_first_key(pairs, key, j);
        assert(pairs[j].0 == key);
    }
}


/// The routing key of `path`: everything before its first `?`.
pub open spec fn loc_of(path: Seq<char>) -> Seq<char> {
    let i = first_index(path, '?');
    if 0 <= i < path.len() {
        path.take(i)
    } else {
        path
    }
}

/// The parameter that one `&`-separated piece of a query string holds, when both sides of
/// its first `=` are non-empty.
pub open spec fn param_of(piece: Seq<char>) -> Option<(Seq<char>, Seq<char>)> {
    let j = first_index(piece, '=');
    if 0 < j && j + 1 < piece.len() {
        Some((piece.take(j), piece.skip(j + 1)))
    } else {
        None
    }
}

/// What `f` keeps of `pieces`, in order.
pub open spec fn kept(
    pieces: Seq<Seq<char>>,
    f: spec_fn(Seq<char>) -> Option<(Seq<char>, Seq<char>)>,
) -> Seq<(Seq<char>, Seq<char>)>
    decreases pieces.len(),
{
    if pieces.len() == 0 {
        seq![]
    } else {
        let rest = kept(pieces.drop_last(), f);
        match f(pieces.last()) {
            Some(kv) => rest.push(kv),
            None => rest,
        }
    }
}

/// The parameters that a query string's pieces hold, in order.
pub open spec fn params_kept(pieces: Seq<Seq<char>>) -> Seq<(Seq<char>, Seq<char>)> {
    kept(pieces, |p: Seq<char>| param_of(p))
}

/// The query parameters of `path`.
pub open spec fn params_of(path: Seq<char>) -> Seq<(Seq<char>, Seq<char>)> {
    let i = first_index(path, '?');
    if 0 <= i < path.len() {
        params_kept(split(path.skip(i + 1), '&'))
    } else {
        seq![]
    }
}

fn query_of(piece: &Vec<char>) -> (r: Option<Query>)
    ensures
        match r {
            Some(q) => param_of(piece@) == Some((q.key@, q.value@)),
            None => param_of(piece@) is None,
        },
{
    let n = piece.len();
    match find_from(piece, '=', 0) {
        Some(j) => {
            assert(piece@.skip(0) =~= piece@);
            if 0 < j && j + 1 < n {
                Some(Query { key: string_of(piece, 0, j), value: string_of(piece, j + 1, n) })
            } else {
                None
            }
        },
        None => {
            assert(piece@.skip(0) =~= piece@);
            None
        },
    }
}

impl Request {
    /// The parsed query parameters, in order.
    pub open spec fn params(&self) -> Seq<(Seq<char>, Seq<char>)> {
        query_pairs(self.query@)
    }

    pub fn new(method: String, path: String, version: String, headers: Vec<Header>) -> (r: Request)
        ensures
            r.method == method,
            r.path == path,
            r.version == version,
            r.headers == headers,
            r.loc@ == loc_of(path@),
            r.params() == params_of(path@),
    {
        let p = chars_of(path.as_str());
        let n = p.len();
        let mut query: Vec<Query> = Vec::new();
        let loc;
        match find_from(&p, '?', 0) {
            None => {
                assert(p@.skip(0) =~= p@);
                loc = path.clone();
                assert(query_pairs(query@) =~= params_of(path@));
            },
            Some(i) => {
                assert(p@.skip(0) =~= p@);
                loc = string_of(&p, 0, i);
                assert(loc@ =~= loc_of(path@));
                let rest = crate::text::slice_of(&p, i + 1, n);
                assert(rest@ =~= path@.skip(i + 1));
                let pieces = split_chars(&rest, '&');
                let ghost f = |q: Seq<char>| param_of(q);
                let mut k: usize = 0;
                assert(views(pieces@).take(0) =~= seq![]);
                assert(query_pairs(query@) =~= seq![]);
                while k < pieces.len()
                    invariant
                        k <= pieces@.len(),
                        views(pieces@) == split(path@.skip(i + 1), '&'),
                        f == (|q: Seq<char>| param_of(q)),
                        query_pairs(query@) == kept(views(pieces@).take(k as int), f),
                    decreases pieces@.len() - k,
                {
                    let ghost before = query@;
                    let ghost t = views(pieces@).take(k + 1);
                    assert(t.drop_last() =~= views(pieces@).take(k as int));
                    assert(t.last() == pieces@[k as int]@);
                    match query_of(&pieces[k]) {
                        Some(q) => {
                            query.push(q);
                            assert(query_pairs(query@) =~= query_pairs(before).push((q.key@, q.value@)));
                        },
                        None => {},
                    }
                    k += 1;
                }
                assert(views(pieces@).take(pieces@.len() as int) =~= views(pieces@));
            },
        }
        Request { method, path, version, headers, loc, query }
    }

    /// The first header whose key is `key`.
    pub fn get_header(&self, key: &str) -> (r: Option<Header>)
        ensures
            match r {
                Some(h) => h.key@ == key@ && lookup(header_pairs(self.headers@), key@) == Some(h.value@),
                None => lookup(header_pairs(self.headers@), key@) is None,
            },
    {
        let k = key.to_owned();
        let ghost pairs = header_pairs(self.headers@);
        let mut i: usize = 0;
        while i < self.headers.len()
            invariant
                i <= self.headers@.len(),
                k@ == key@,
                pairs == header_pairs(self.headers@),
                forall|j: int| 0 <= j < i ==> pairs[j].0 != key@,
            decreases self.headers@.len() - i,
        {
            if self.headers[i].key == k {
                proof {
                    lemma_key_index(pairs, key@, i as int);
                }
                return Some(Header { key: self.headers[i].key.clone(), value: self.headers[i].value.clone() });
            }
            i += 1;
        }
        proof {
            lemma_key_index_none(pairs, key@);
        }
        None
    }

    /// The value of the first query parameter whose key is `key`.
    pub fn get_param(&self, key: &str) -> (r: Option<String>)
        ensures
            match r {
                Some(v) => lookup(self.params(), key@) == Some(v@),
                None => lookup(self.params(), key@) is None,
            },
    {
        let k = key.to_owned();
        let ghost pairs = self.params();
        let mut i: usize = 0;
        while i < self.query.len()
            invariant
                i <= self.query@.len(),
                k@ == key@,
                pairs == query_pairs(self.query@),
                forall|j: int| 0 <= j < i ==> pairs[j].0 != key@,
            decreases self.query@.len() - i,
        {
            if self.query[i].key == k {
                proof {
                    lemma_key_index(pairs, key@, i as int);
                }
                return Some(self.query[i].value.clone());
            }
            i += 1;
        }
        proof {
            lemma_key_index_none(pairs, key@);
        }
        None
    }
}


/// One header as written on the wire, with its line feed.
pub open spec fn header_line(h: (Seq<char>, Seq<char>)) -> Seq<char> {
    h.0 + ": "@ + h.1 + "\n"@
}

/// The header lines of `pairs`, in order.
pub open spec fn header_block(pairs: Seq<(Seq<char>, Seq<char>)>) -> Seq<char>
    decreases pairs.len(),
{
    if pairs.len() == 0 {
        seq![]
    } else {
        header_block(pairs.drop_last()) + header_line(pairs.last())
    }
}

/// The status line of a response, without a line feed.
pub open spec fn status_line(version: Seq<char>, code: Code) -> Seq<char> {
    version + " "@ + code_text(code)
}

/// The wire text of a response with these parts.
pub open spec fn http_text(
    version: Seq<char>,
    code: Code,
    pairs: Seq<(Seq<char>, Seq<char>)>,
    body: Seq<char>,
) -> Seq<char> {
    status_line(version, code) + "\n"@ + header_block(pairs) + "\n"@ + body
}

/// The number of bytes in the UTF-8 encoding of `s`.
pub open spec fn byte_len(s: Seq<char>) -> nat {
    vstd::utf8::encode_utf8(s).len()
}

impl Header {
    pub fn to_string(&self) -> (r: String)
        ensures
            r@ == self.key@ + ": "@ + self.value@,
    {
        let mut r = self.key.clone();
        r.append(": ");
        r.append(self.value.as_str());
        r
    }
}

impl Request {
    /// A one-line summary: method, path, version and the number of headers.
    pub fn to_string(&self) -> (r: String)
        ensures
            r@ == self.method@ + " "@ + self.path@ + " "@ + self.version@ + " ("@ + decimal(
                self.headers@.len(),
            ) + " headers)"@,
    {
        let mut r = self.method.clone();
        r.append(" ");
        r.append(self.path.as_str());
        r.append(" ");
        r.append(self.version.as_str());
        r.append(" (");
        push_decimal(&mut r, self.headers.len() as u64);
        r.append(" headers)");
        r
    }
}

impl Response {
    pub fn new(code: Code) -> (r: Response)
        ensures
            r.version@ == "HTTP/1.1"@,
            r.code == code,
            r.headers@.len() == 0,
            r.body@ == Seq::<char>::empty(),
    {
        let headers: Vec<Header> = Vec::new();
        Response { version: String::from_str("HTTP/1.1"), code, headers, body: String::new() }
    }

    pub fn new_ok() -> (r: Response)
        ensures
            r.version@ == "HTTP/1.1"@,
            r.code == Code::Success,
            r.headers@.len() == 0,
            r.body@ == Seq::<char>::empty(),
    {
        Self::new(Code::Success)
    }

    /// The status line: version and status text.
    pub fn to_string(&self) -> (r: String)
        ensures
            r@ == status_line(self.version@, self.code),
    {
        let mut r = self.version.clone();
        r.append(" ");
        r.append(self.code.to_str());
        r
    }

    /// The response as written on the wire.
    pub fn to_http(&self) -> (r: String)
        ensures
            r@ == http_text(self.version@, self.code, header_pairs(self.headers@), self.body@),
    {
        let mut r = self.to_string();
        r.append("\n");
        let ghost pairs = header_pairs(self.headers@);
        let ghost head = r@;
        let mut i: usize = 0;
        assert(pairs.take(0) =~= seq![]);
        while i < self.headers.len()
            invariant
                i <= self.headers@.len(),
                pairs == header_pairs(self.headers@),
                r@ == head + header_block(pairs.take(i as int)),
            decreases self.headers@.len() - i,
        {
            let ghost t = pairs.take(i + 1);
            assert(t.drop_last() =~= pairs.take(i as int));
            let line = self.headers[i].to_string();
            r.append(line.as_str());
            r.append("\n");
            i += 1;
            assert(r@ =~= head + header_block(pairs.take(i as int)));
        }
        assert(pairs.take(self.headers@.len() as int) =~= pairs);
        r.append("\n");
        r.append(self.body.as_str());
        r
    }

    /// Gives the first header keyed `key` the value `value`, or appends such a header.
    pub fn mod_header(&mut self, key: &str, value: &str)
        ensures
            header_pairs(final(self).headers@) == set_pair(header_pairs(old(self).headers@), key@, value@),
            final(self).version == old(self).version,
            final(self).code == old(self).code,
            final(self).body == old(self).body,
    {
        let k = key.to_owned();
        let ghost pairs = header_pairs(self.headers@);
        let mut i: usize = 0;
        while i < self.headers.len()
            invariant
                i <= self.headers@.len(),
                k@ == key@,
                pairs == header_pairs(self.headers@),
                self.version == old(self).version,
                self.code == old(self).code,
                self.body == old(self).body,
                self.headers == old(self).headers,
                forall|j: int| 0 <= j < i ==> pairs[j].0 != key@,
            decreases self.headers@.len() - i,
        {
            if self.headers[i].key == k {
                proof {
                    lemma_key_index(pairs, key@, i as int);
                }
                self.headers.set(i, Header { key: k, value: value.to_owned() });
                assert(header_pairs(self.headers@) =~= set_pair(pairs, key@, value@));
                return;
            }
            i += 1;
        }
        proof {
            lemma_key_index_none(pairs, key@);
        }
        self.headers.push(Header { key: k, value: value.to_owned() });
        assert(header_pairs(self.headers@) =~= set_pair(pairs, key@, value@));
    }
}


/// Why a request could not be parsed.
#[derive(Clone, Copy, PartialEq, Eq, Structural, Debug)]
pub enum ParseError {
    /// The start line has fewer than three space-separated tokens.
    MalformedStartLine,
}

pub open spec fn is_sep_at(s: Seq<char>, i: int) -> bool {
    0 <= i && i + 1 < s.len() && s[i] == ':' && s[i + 1] == ' '
}

pub open spec fn is_first_sep(s: Seq<char>, i: int) -> bool {
    &&& is_sep_at(s, i)
    &&& forall|k: int| 0 <= k < i ==> !#[trigger] is_sep_at(s, k)
}

/// The position of the first `": "` in `s`, or -1 when there is none.
pub open spec fn sep_index(s: Seq<char>) -> int {
    if exists|i: int| is_first_sep(s, i) {
        choose|i: int| is_first_sep(s, i)
    } else {
        -1
    }
}

/// The header that one line holds, once trimmed: the text before its first `": "` and the
/// text after it, when both are non-empty.
pub open spec fn header_of(line: Seq<char>) -> Option<(Seq<char>, Seq<char>)> {
    let t = trim(line);
    let j = sep_index(t);
    if 0 < j && j + 2 < t.len() {
        Some((t.take(j), t.skip(j + 2)))
    } else {
        None
    }
}

/// The lines of a request's text.
pub open spec fn lines_of(text: Seq<char>) -> Seq<Seq<char>> {
    split(text, '\n')
}

/// The space-separated tokens of the trimmed first line.
pub open spec fn start_tokens(text: Seq<char>) -> Seq<Seq<char>> {
    split(trim(lines_of(text)[0]), ' ')
}

/// The headers of a request's text: what `header_of` keeps of every line after the first.
pub open spec fn headers_of(text: Seq<char>) -> Seq<(Seq<char>, Seq<char>)> {
    kept(lines_of(text).skip(1), |l: Seq<char>| header_of(l))
}

fn find_sep(v: &Vec<char>) -> (r: Option<usize>)
    ensures
        match r {
            Some(i) => i == sep_index(v@),
            None => sep_index(v@) == -1,
        },
{
    let n = v.len();
    let mut i: usize = 0;
    while i < n
        invariant
            n == v@.len(),
            i <= n,
            forall|k: int| 0 <= k < i ==> !#[trigger] is_sep_at(v@, k),
        decreases n - i,
    {
        if i + 1 < n && v[i] == ':' && v[i + 1] == ' ' {
            proof {
                assert(is_first_sep(v@, i as int));
                let j = choose|j: int| is_first_sep(v@, j);
                assert(is_first_sep(v@, j));
                if j < i {
                    assert(!is_sep_at(v@, j));
                } else if i < j {
                    assert(!is_sep_at(v@, i as int));
                }
            }
            return Some(i);
        }
        i += 1;
    }
    proof {
        assert forall|k: int| 0 <= k implies !#[trigger] is_sep_at(v@, k) by {}
        if exists|j: int| is_first_sep(v@, j) {
            let j = choose|j: int| is_first_sep(v@, j);
            assert(is_sep_at(v@, j));
        }
    }
    None
}

fn header_from(line: &Vec<char>) -> (r: Option<Header>)
    ensures
        match r {
            Some(h) => header_of(line@) == Some((h.key@, h.value@)),
            None => header_of(line@) is None,
        },
{
    let t = trim_chars(line);
    let n = t.len();
    match find_sep(&t) {
        Some(j) => {
            if 0 < j && j + 2 < n {
                Some(Header { key: string_of(&t, 0, j), value: string_of(&t, j + 2, n) })
            } else {
                None
            }
        },
        None => None,
    }
}

/// `r` is what parsing `text` gives: the request its start line and header lines describe,
/// or an error when the start line has fewer than three tokens.
pub open spec fn parsed(text: Seq<char>, r: Result<Request, ParseError>) -> bool {
    match r {
        Ok(req) => {
            &&& start_tokens(text).len() >= 3
            &&& req.method@ == start_tokens(text)[0]
            &&& req.path@ == start_tokens(text)[1]
            &&& req.version@ == start_tokens(text)[2]
            &&& header_pairs(req.headers@) == headers_of(text)
            &&& req.loc@ == loc_of(req.path@)
            &&& req.params() == params_of(req.path@)
        },
        Err(e) => start_tokens(text).len() < 3 && e == ParseError::MalformedStartLine,
    }
}

/// Parses the text of a request: a start line `METHOD PATH VERSION`, then one candidate header
/// per line.
pub fn parse_request(text: &str) -> (r: Result<Request, ParseError>)
    ensures
        parsed(text@, r),
{
    let v = chars_of(text);
    let lines = split_chars(&v, '\n');
    assert(split(v@, '\n').len() >= 1);
    let start = trim_chars(&lines[0]);
    let tokens = split_chars(&start, ' ');
    if tokens.len() < 3 {
        return Err(ParseError::MalformedStartLine);
    }
    let method = string_of(&tokens[0], 0, tokens[0].len());
    let path = string_of(&tokens[1], 0, tokens[1].len());
    let version = string_of(&tokens[2], 0, tokens[2].len());
    assert(method@ =~= start_tokens(text@)[0]);
    assert(path@ =~= start_tokens(text@)[1]);
    assert(version@ =~= start_tokens(text@)[2]);
    let ghost rest = views(lines@).skip(1);
    let ghost f = |l: Seq<char>| header_of(l);
    let mut headers: Vec<Header> = Vec::new();
    let mut k: usize = 1;
    assert(rest.take(0) =~= seq![]);
    assert(header_pairs(headers@) =~= seq![]);
    while k < lines.len()
        invariant
            1 <= k <= lines@.len(),
            rest == views(lines@).skip(1),
            views(lines@) == lines_of(text@),
            f == (|l: Seq<char>| header_of(l)),
            header_pairs(headers@) == kept(rest.take(k - 1), f),
        decreases lines@.len() - k,
    {
        let ghost before = headers@;
        let ghost t = rest.take(k as int);
        assert(t.drop_last() =~= rest.take(k - 1));
        assert(t.last() == lines@[k as int]@);
        match header_from(&lines[k]) {
            Some(h) => {
                headers.push(h);
                assert(header_pairs(headers@) =~= header_pairs(before).push((h.key@, h.value@)));
            },
            None => {},
        }
        k += 1;
    }
    assert(rest.take(lines@.len() - 1) =~= rest);
    Ok(Request::new(method, path, version, headers))
}


/// The text that `String::from_utf8_lossy` makes of some bytes.
pub uninterp spec fn lossy_text(b: Seq<u8>) -> Seq<char>;

/// Relies on `String::from_utf8_lossy`: the text of `b`, each invalid sequence replaced by
/// U+FFFD; the text depends on the bytes alone, and valid UTF-8 decodes to its characters.
#[verifier::external_body]
fn decode_lossy(b: &[u8]) -> (r: String)
    ensures
        r@ == lossy_text(b@),
        vstd::utf8::valid_utf8(b@) ==> r@ == vstd::utf8::decode_utf8(b@),
{
    String::from_utf8_lossy(b).into_owned()
}

/// Parses a request from the bytes read off a connection.
pub fn parse_bytes(buf: &[u8]) -> (r: Result<Request, ParseError>)
    ensures
        parsed(lossy_text(buf@), r),
        vstd::utf8::valid_utf8(buf@) ==> parsed(vstd::utf8::decode_utf8(buf@), r),
        vstd::utf8::valid_utf8(buf@) ==> lossy_text(buf@) == vstd::utf8::decode_utf8(buf@),
{
    let text = decode_lossy(buf);
    parse_request(text.as_str())
}

/// The value of the `Content-Length` header for `body`: its length in bytes, in decimal.
pub open spec fn content_length(body: Seq<char>) -> Seq<char> {
    decimal((byte_len(body) as usize) as nat)
}

/// The headers a response goes out with: its own, with `Content-Length` set for its body.
pub open spec fn wire_pairs(r: Response) -> Seq<(Seq<char>, Seq<char>)> {
    set_pair(header_pairs(r.headers@), "Content-Length"@, content_length(r.body@))
}

/// The text a response is written as.
pub open spec fn wire_text(r: Response) -> Seq<char> {
    http_text(r.version@, r.code, wire_pairs(r), r.body@)
}

/// Sets `Content-Length` to the body's byte length, then writes the response out as text.
pub fn serialize_response(with: Response) -> (r: String)
    ensures
        r@ == wire_text(with),
{
    let mut with = with;
    let mut len = String::new();
    push_decimal(&mut len, with.body.as_str().len() as u64);
    assert(len@ =~= content_length(with.body@));
    with.mod_header("Content-Length", len.as_str());
    with.to_http()
}


/// A token of a start line: no space and no line feed in it.
pub open spec fn is_token(s: Seq<char>) -> bool {
    forall|i: int| 0 <= i < s.len() ==> s[i] != ' ' && s[i] != '\n'
}

/// The first line of a text is everything before its first line feed.
pub proof fn lemma_first_line(a: Seq<char>, rest: Seq<char>)
    requires
        forall|k: int| 0 <= k < a.len() ==> a[k] != '\n',
    ensures
        lines_of(a + seq!['\n'] + rest)[0] == a,
{
    let text = a + seq!['\n'] + rest;
    lemma_first_index(text, '\n', a.len() as int);
    assert(text.take(a.len() as int) =~= a);
}

/// A line with non-blank ends, followed by a carriage return, trims to itself.
pub proof fn lemma_trim_cr(b: Seq<char>)
    requires
        b.len() > 0,
        !is_blank(b[0]),
        !is_blank(b.last()),
    ensures
        trim(b + seq!['\r']) == b,
{
    let a = b + seq!['\r'];
    assert(a[0] == b[0]);
    assert(strip_front(a) == a);
    assert(a.drop_last() =~= b);
    assert(strip_back(a) == strip_back(b));
    assert(strip_back(b) == b);
}

/// `x`, a space, then `y` splits on spaces into `x` and the pieces of `y`, when `x` has no space.
pub proof fn lemma_split_space(x: Seq<char>, y: Seq<char>)
    requires
        forall|k: int| 0 <= k < x.len() ==> x[k] != ' ',
    ensures
        split(x + seq![' '] + y, ' ') == seq![x] + split(y, ' '),
{
    let b = x + seq![' '] + y;
    lemma_first_index(b, ' ', x.len() as int);
    assert(b.take(x.len() as int) =~= x);
    assert(b.skip((x.len() + 1) as int) =~= y);
}

/// A request written `method path version`, CR LF, then anything, parses; its method, path and
/// version are the three tokens, and a response echoing the path ends its text with it.
pub proof fn lemma_path_round_trip(
    method: Seq<char>,
    path: Seq<char>,
    version: Seq<char>,
    rest: Seq<char>,
    req: Request,
    resp: Response,
)
    requires
        is_token(method),
        is_token(path),
        is_token(version),
        method.len() > 0 && !is_blank(method[0]),
        version.len() > 0 && !is_blank(version.last()),
        parsed(method + seq![' '] + path + seq![' '] + version + seq!['\r', '\n'] + rest, Ok(req)),
        resp.body@ == req.path@,
    ensures
        start_tokens(method + seq![' '] + path + seq![' '] + version + seq!['\r', '\n'] + rest)
            == seq![method, path, version],
        req.method@ == method,
        req.path@ == path,
        req.version@ == version,
        wire_text(resp).skip(wire_text(resp).len() - path.len()) == path,
{
    let c = path + seq![' '] + version;
    let b = method + seq![' '] + c;
    let a = b + seq!['\r'];
    let text = method + seq![' '] + path + seq![' '] + version + seq!['\r', '\n'] + rest;
    assert(text =~= a + seq!['\n'] + rest);
    assert forall|k: int| 0 <= k < a.len() implies a[k] != '\n' by {
        if k < method.len() {
            assert(a[k] == method[k]);
        } else if method.len() < k < method.len() + 1 + path.len() {
            assert(a[k] == path[k - method.len() - 1]);
        } else if method.len() + 1 + path.len() < k < b.len() {
            assert(a[k] == version[k - method.len() - path.len() - 2]);
        }
    }
    lemma_first_line(a, rest);
    assert(b[0] == method[0]);
    assert(b.last() == version.last());
    lemma_trim_cr(b);
    lemma_split_space(method, c);
    lemma_split_space(path, version);
    lemma_first_index_none(version, ' ');
    assert(split(version, ' ') == seq![version]);
    assert(start_tokens(text) =~= seq![method, path, version]);
    let w = wire_text(resp);
    assert(w.skip(w.len() - path.len()) =~= path);
}

/// Every parameter kept from a query string has a non-empty key and a non-empty value.
pub proof fn lemma_params_nonempty(pieces: Seq<Seq<char>>)
    ensures
        forall|i: int|
            0 <= i < params_kept(pieces).len() ==> (#[trigger] params_kept(pieces)[i]).0.len() > 0
                && params_kept(pieces)[i].1.len() > 0,
    decreases pieces.len(),
{
    if pieces.len() > 0 {
        let d = pieces.drop_last();
        lemma_params_nonempty(d);
        let p = pieces.last();
        let j = first_index(p, '=');
        if 0 < j && j + 1 < p.len() {
            assert(p.take(j).len() > 0);
            assert(p.skip(j + 1).len() > 0);
            assert(params_kept(pieces) == params_kept(d).push((p.take(j), p.skip(j + 1))));
        } else {
            assert(params_kept(pieces) == params_kept(d));
        }
        assert forall|i: int| 0 <= i < params_kept(pieces).len() implies (
        #[trigger] params_kept(pieces)[i]).0.len() > 0 && params_kept(pieces)[i].1.len() > 0 by {
            if i < params_kept(d).len() {
                assert(params_kept(pieces)[i] == params_kept(d)[i]);
            }
        }
    }
}

/// Every piece that holds a parameter has it kept, and the kept parameters come in the order of
/// their pieces.
pub proof fn lemma_params_kept(pieces: Seq<Seq<char>>, j: int)
    requires
        0 <= j < pieces.len(),
        param_of(pieces[j]) is Some,
    ensures
        params_kept(pieces.take(j)).len() < params_kept(pieces).len(),
        params_kept(pieces)[params_kept(pieces.take(j)).len() as int] == param_of(pieces[j])->0,
    decreases pieces.len(),
{
    let last = pieces.len() - 1;
    if j == last {
        assert(pieces.take(j) =~= pieces.drop_last());
        let i = params_kept(pieces.take(j)).len() as int;
        assert(params_kept(pieces)[i] == param_of(pieces[j])->0);
    } else {
        let d = pieces.drop_last();
        assert(d[j] == pieces[j]);
        lemma_params_kept(d, j);
        assert(d.take(j) =~= pieces.take(j));
        let i = params_kept(pieces.take(j)).len() as int;
        assert(params_kept(d)[i] == param_of(pieces[j])->0);
        assert(params_kept(pieces)[i] == params_kept(d)[i]);
    }
}

/// The location of a path with a `?` is what precedes its first `?`, and its parameters are
/// those that the `&`-separated pieces after it hold, each with a non-empty key and value.
pub proof fn lemma_query_split(path: Seq<char>)
    requires
        path.contains('?'),
    ensures
        0 <= first_index(path, '?') < path.len(),
        loc_of(path) == path.take(first_index(path, '?')),
        params_of(path) == params_kept(split(path.skip(first_index(path, '?') + 1), '&')),
        forall|i: int|
            0 <= i < params_of(path).len() ==> (#[trigger] params_of(path)[i]).0.len() > 0
                && params_of(path)[i].1.len() > 0,
{
    let k = choose|k: int| 0 <= k < path.len() && path[k] == '?';
    lemma_some_first(path, '?', k);
    crate::text::lemma_first_index_range(path, '?');
    lemma_params_nonempty(split(path.skip(first_index(path, '?') + 1), '&'));
}

/// A character that occurs has a first occurrence.
pub proof fn lemma_some_first(s: Seq<char>, c: char, k: int)
    requires
        0 <= k < s.len(),
        s[k] == c,
    ensures
        0 <= first_index(s, c),
    decreases k,
{
    if forall|j: int| 0 <= j < k ==> s[j] != c {
        lemma_first_index(s, c, k);
    } else {
        let j = choose|j: int| 0 <= j < k && s[j] == c;
        lemma_some_first(s, c, j);
    }
}

/// A lookup finds the first pair with the key, and nothing when no pair has it.
pub proof fn lemma_lookup_first(pairs: Seq<(Seq<char>, Seq<char>)>, key: Seq<char>, i: int)
    requires
        0 <= i < pairs.len(),
        pairs[i].0 == key,
        forall|k: int| 0 <= k < i ==> pairs[k].0 != key,
    ensures
        lookup(pairs, key) == Some(pairs[i].1),
{
    lemma_key_index(pairs, key, i);
}

/// A lookup of a key that no pair has finds nothing.
pub proof fn lemma_lookup_absent(pairs: Seq<(Seq<char>, Seq<char>)>, key: Seq<char>)
    requires
        forall|k: int| 0 <= k < pairs.len() ==> pairs[k].0 != key,
    ensures
        lookup(pairs, key) is None,
{
    lemma_key_index_none(pairs, key);
}

/// After a header is set, looking its key up gives the value it was set to.
pub proof fn lemma_set_then_lookup(
    pairs: Seq<(Seq<char>, Seq<char>)>,
    key: Seq<char>,
    value: Seq<char>,
)
    ensures
        lookup(set_pair(pairs, key, value), key) == Some(value),
{
    let i = key_index(pairs, key);
    if 0 <= i < pairs.len() {
        assert(is_first_key(pairs, key, i));
        let u = pairs.update(i, (key, value));
        assert(is_first_key(u, key, i));
        lemma_key_index(u, key, i);
    } else {
        if exists|j: int| is_first_key(pairs, key, j) {
            let j = choose|j: int| is_first_key(pairs, key, j);
            assert(is_first_key(pairs, key, j));
        }
        assert forall|k: int| 0 <= k < pairs.len() implies pairs[k].0 != key by {
            if pairs[k].0 == key {
                lemma_some_key(pairs, key, k);
            }
        }
        let u = pairs.push((key, value));
        assert(is_first_key(u, key, pairs.len() as int));
        lemma_key_index(u, key, pairs.len() as int);
    }
}

/// A key that occurs has a first occurrence.
pub proof fn lemma_some_key(pairs: Seq<(Seq<char>, Seq<char>)>, key: Seq<char>, k: int)
    requires
        0 <= k < pairs.len(),
        pairs[k].0 == key,
    ensures
        0 <= key_index(pairs, key) < pairs.len(),
    decreases k,
{
    if forall|j: int| 0 <= j < k ==> pairs[j].0 != key {
        lemma_key_index(pairs, key, k);
    } else {
        let j = choose|j: int| 0 <= j < k && pairs[j].0 == key;
        lemma_some_key(pairs, key, j);
    }
}

/// Every response goes out with a `Content-Length` header whose value is the byte length of its
/// body, in decimal.
pub proof fn lemma_content_length(r: Response)
    requires
        byte_len(r.body@) <= usize::MAX,
    ensures
        lookup(wire_pairs(r), "Content-Length"@) == Some(decimal(byte_len(r.body@))),
{
    lemma_set_then_lookup(header_pairs(r.headers@), "Content-Length"@, content_length(r.body@));
}

} // verus!
