use vstd::prelude::*;
use vstd::slice::slice_to_vec;
use vstd::slice::slice_subrange;
use vstd::string::StringSliceAdditionalSpecFns;
use vstd::utf8::encode_utf8;
use crate::Opts;
use crate::buffer_utils::{
    bytes_eq,
    find_substring,
    first_match,
    lemma_first_match_bounds,
};
use crate::header_map::{HeaderMap, map_of};
use crate::lexical::{
    decimal,
    decimal_text,
    parse_usize,
    pieces,
    split_all,
    split_words,
    trim_range,
    trimmed,
    usize_of,
    words,
};

verus! {

/// Why a request or one of its parts could not be read.
#[derive(PartialEq, Eq, Structural, Debug, Clone, Copy)]
pub enum ParseError {
    /// The request line is missing its terminator or has fewer than three words.
    MalformedRequest,
    /// A header line has no `": "` delimiter, or a part has no header terminator.
    MalformedHeader,
    /// A multipart content type names no boundary.
    MissingBoundary,
}

pub open spec fn crlf() -> Seq<u8> {
    seq![13u8, 10u8]
}

pub open spec fn crlf2() -> Seq<u8> {
    seq![13u8, 10u8, 13u8, 10u8]
}

pub open spec fn colon_space() -> Seq<u8> {
    seq![58u8, 32u8]
}

/// The name and value of one header line, split at the first `": "`.
pub open spec fn header_line(line: Seq<u8>) -> Option<(Seq<u8>, Seq<u8>)> {
    match first_match(line, colon_space()) {
        Some(i) => Some((line.subrange(0, i), line.subrange(i + 2, line.len() as int))),
        None => None,
    }
}

/// The mapping that header lines give, later lines overwriting earlier ones;
/// `None` if a line is malformed.
pub open spec fn headers_of(lines: Seq<Seq<u8>>) -> Option<Map<Seq<u8>, Seq<u8>>>
    decreases lines.len(),
{
    if lines.len() == 0 {
        Some(Map::empty())
    } else {
        match (headers_of(lines.drop_last()), header_line(lines.last())) {
            (Some(m), Some(kv)) => Some(m.insert(kv.0, kv.1)),
            _ => None,
        }
    }
}

/// The lines of a header block: every `CRLF` ends a line; an empty block has none.
pub open spec fn header_lines(b: Seq<u8>) -> Seq<Seq<u8>> {
    if b.len() == 0 {
        Seq::empty()
    } else {
        pieces(b, crlf())
    }
}

/// The headers of a block of `CRLF`-separated header lines.
pub open spec fn header_block(b: Seq<u8>) -> Option<Map<Seq<u8>, Seq<u8>>> {
    headers_of(header_lines(b))
}

/// `v` without one pair of enclosing double quotes, if it has them.
pub open spec fn unquoted(v: Seq<u8>) -> Seq<u8> {
    if v.len() >= 2 && v[0] == 34 && v.last() == 34 {
        v.subrange(1, v.len() - 1)
    } else {
        v
    }
}

/// The key and value of one extra of a complex header, from its trimmed text.
pub open spec fn extra_pair(seg: Seq<u8>) -> (Seq<u8>, Seq<u8>) {
    match first_match(seg, seq![61u8]) {
        Some(i) => (seg.subrange(0, i), unquoted(seg.subrange(i + 1, seg.len() as int))),
        None => (seg, Seq::empty()),
    }
}

/// The extras that the segments after the first give, later keys winning.
pub open spec fn extras_of(segs: Seq<Seq<u8>>) -> Map<Seq<u8>, Seq<u8>>
    decreases segs.len(),
{
    if segs.len() == 0 {
        Map::empty()
    } else {
        let kv = extra_pair(trimmed(segs.last()));
        extras_of(segs.drop_last()).insert(kv.0, kv.1)
    }
}

/// The primary value of a complex header.
pub open spec fn complex_value(h: Seq<u8>) -> Seq<u8> {
    trimmed(pieces(h, seq![59u8])[0])
}

/// The extras of a complex header.
pub open spec fn complex_extras(h: Seq<u8>) -> Map<Seq<u8>, Seq<u8>> {
    extras_of(pieces(h, seq![59u8]).drop_first())
}

/// The first line of a request: method, URI and version.
pub struct ReqStatusLine {
    pub method: Vec<u8>,
    pub uri: Vec<u8>,
    pub http_version: Vec<u8>,
}

/// Another name for the request line.
pub type RequestLine = ReqStatusLine;

/// A parsed request.
pub struct Request {
    pub status_line: ReqStatusLine,
    pub headers: HeaderMap,
    pub body: Option<Vec<u8>>,
}

/// A header value made of a primary value and `key=value` extras.
pub struct ComplexHeader {
    pub value: Vec<u8>,
    pub extras: HeaderMap,
}

/// What a request holds, as mathematical values.
pub struct RequestModel {
    pub method: Seq<u8>,
    pub uri: Seq<u8>,
    pub http_version: Seq<u8>,
    pub headers: Map<Seq<u8>, Seq<u8>>,
    pub body: Option<Seq<u8>>,
}

impl View for Request {
    type V = RequestModel;

    open spec fn view(&self) -> RequestModel {
        RequestModel {
            method: self.status_line.method@,
            uri: self.status_line.uri@,
            http_version: self.status_line.http_version@,
            headers: self.headers@,
            body: match self.body {
                Some(b) => Some(b@),
                None => None,
            },
        }
    }
}

pub open spec fn content_length_name() -> Seq<u8> {
    seq![67u8, 111u8, 110u8, 116u8, 101u8, 110u8, 116u8, 45u8, 76u8, 101u8, 110u8, 103u8, 116u8, 104u8]
}

/// The body length that the `Content-Length` header declares, if it is there and reads as a number.
pub open spec fn declared_length(h: Map<Seq<u8>, Seq<u8>>) -> Option<usize> {
    if h.contains_key(content_length_name()) {
        usize_of(h[content_length_name()])
    } else {
        None
    }
}

/// The body of buffer `b` whose header terminator starts at `marker`: the
/// declared length of bytes after it, clipped to the buffer, or all the rest;
/// `None` when that is empty or there is no terminator.
pub open spec fn body_of(b: Seq<u8>, marker: Option<int>, h: Map<Seq<u8>, Seq<u8>>) -> Option<Seq<u8>> {
    match marker {
        None => None,
        Some(m) => {
            let start = m + 4;
            let end = match declared_length(h) {
                Some(n) => if start + n < b.len() { start + n } else { b.len() as int },
                None => b.len() as int,
            };
            if start < end {
                Some(b.subrange(start, end))
            } else {
                None
            }
        },
    }
}

/// What parsing the buffer `b` gives.
pub open spec fn request_of(b: Seq<u8>) -> Result<RequestModel, ParseError> {
    match first_match(b, crlf()) {
        None => Err(ParseError::MalformedRequest),
        Some(e) => {
            let ws = words(b.subrange(0, e));
            if ws.len() < 3 {
                Err(ParseError::MalformedRequest)
            } else {
                let marker = first_match(b, crlf2());
                let head_end = match marker {
                    Some(m) => m,
                    None => b.len() as int,
                };
                let head_start = if e + 2 <= head_end { e + 2 } else { head_end };
                match header_block(b.subrange(head_start, head_end)) {
                    None => Err(ParseError::MalformedHeader),
                    Some(h) => Ok(
                        RequestModel {
                            method: ws[0],
                            uri: ws[1],
                            http_version: ws[2],
                            headers: h,
                            body: body_of(b, marker, h),
                        },
                    ),
                }
            }
        },
    }
}

impl Request {
    /// Converts a raw request buffer into a `Request`.
    pub fn from_bytes(buffer: &[u8]) -> (r: Result<Request, ParseError>)
        ensures
            match r {
                Ok(req) => req.headers.wf() && request_of(buffer@) == Ok::<RequestModel, ParseError>(req@),
                Err(e) => request_of(buffer@) == Err::<RequestModel, ParseError>(e),
            },
    {
        let ghost b = buffer@;
        assert(buffer@.len() == buffer.len());
        let crlf_v: Vec<u8> = vec![13u8, 10u8];
        let crlf2_v: Vec<u8> = vec![13u8, 10u8, 13u8, 10u8];
        assert(crlf_v@ =~= crlf());
        assert(crlf2_v@ =~= crlf2());
        let end_status_line = match find_substring(buffer, crlf_v.as_slice()) {
            Some(e) => e,
            None => {
                return Err(ParseError::MalformedRequest);
            },
        };
        proof {
            lemma_first_match_bounds(b, crlf());
        }
        let status_line = match Request::parse_status_line(slice_subrange(buffer, 0, end_status_line)) {
            Ok(l) => l,
            Err(e) => {
                return Err(e);
            },
        };
        let marker = find_substring(buffer, crlf2_v.as_slice());
        proof {
            lemma_first_match_bounds(b, crlf2());
        }
        let end_headers: usize = match marker {
            Some(m) => m,
            None => buffer.len(),
        };
        let head_start: usize = if end_status_line <= end_headers && 2 <= end_headers - end_status_line {
            end_status_line + 2
        } else {
            end_headers
        };
        let headers = match Request::parse_headers(slice_subrange(buffer, head_start, end_headers)) {
            Ok(h) => h,
            Err(e) => {
                return Err(e);
            },
        };
        let cl_name: Vec<u8> = vec![67u8, 111u8, 110u8, 116u8, 101u8, 110u8, 116u8, 45u8, 76u8, 101u8, 110u8, 103u8, 116u8, 104u8];
        assert(cl_name@ =~= content_length_name());
        let declared = match headers.get(cl_name.as_slice()) {
            Some(v) => parse_usize(v.as_slice()),
            None => None,
        };
        let body = match marker {
            None => None,
            Some(m) => {
                let start: usize = m + 4;
                let end: usize = match declared {
                    Some(n) => if n < buffer.len() - start { start + n } else { buffer.len() },
                    None => buffer.len(),
                };
                if start < end {
                    Some(slice_to_vec(slice_subrange(buffer, start, end)))
                } else {
                    None
                }
            },
        };
        let req = Request { status_line, headers, body };
        proof {
            assert(req@ =~= request_of(b).unwrap());
        }
        Ok(req)
    }

    /// Converts a raw request string into a `Request`, as `from_bytes` does on its bytes.
    pub fn from_string(req: &str) -> (r: Result<Request, ParseError>)
        ensures
            match r {
                Ok(q) => q.headers.wf() && request_of(req.spec_bytes()) == Ok::<RequestModel, ParseError>(q@),
                Err(e) => request_of(req.spec_bytes()) == Err::<RequestModel, ParseError>(e),
            },
    {
        Request::from_bytes(req.as_bytes())
    }

    /// Reads the request line: its first three whitespace-separated words.
    pub fn parse_status_line(status_line: &[u8]) -> (r: Result<ReqStatusLine, ParseError>)
        ensures
            match r {
                Ok(l) => words(status_line@).len() >= 3 && l.method@ == words(status_line@)[0]
                    && l.uri@ == words(status_line@)[1] && l.http_version@ == words(status_line@)[2],
                Err(e) => e == ParseError::MalformedRequest && words(status_line@).len() < 3,
            },
    {
        let mut parts = split_words(status_line);
        if parts.len() < 3 {
            return Err(ParseError::MalformedRequest);
        }
        let ghost ws = parts@;
        let http_version = parts.remove(2);
        let uri = parts.remove(1);
        let method = parts.remove(0);
        assert(http_version@ == words(status_line@)[2]);
        Ok(ReqStatusLine { method, uri, http_version })
    }

    /// Parses a block of `Key: Value` lines separated by `CRLF`.
    pub fn parse_headers(headers: &[u8]) -> (r: Result<HeaderMap, ParseError>)
        ensures
            match r {
                Ok(h) => h.wf() && header_block(headers@) == Some(h@),
                Err(e) => e == ParseError::MalformedHeader && header_block(headers@) is None,
            },
    {
        let crlf_v: Vec<u8> = vec![13u8, 10u8];
        let delim: Vec<u8> = vec![58u8, 32u8];
        assert(crlf_v@ =~= crlf());
        assert(delim@ =~= colon_space());
        let lines: Vec<Vec<u8>> = if headers.len() == 0 {
            Vec::new()
        } else {
            split_all(headers, crlf_v.as_slice())
        };
        let ghost ls = header_lines(headers@);
        let mut map = HeaderMap::new();
        let mut i: usize = 0;
        assert(ls.take(0) =~= Seq::<Seq<u8>>::empty());
        while i < lines.len()
            invariant
                i <= lines@.len(),
                lines@.len() == ls.len(),
                ls == header_lines(headers@),
                delim@ == colon_space(),
                forall|k: int| 0 <= k < lines@.len() ==> #[trigger] lines@[k]@ == ls[k],
                map.wf(),
                headers_of(ls.take(i as int)) == Some(map@),
            decreases lines@.len() - i,
        {
            let line = &lines[i];
            let line_len = line.len();
            assert(ls.take(i + 1).drop_last() =~= ls.take(i as int));
            assert(ls.take(i + 1).last() == line@);
            match find_substring(line.as_slice(), delim.as_slice()) {
                Some(k) => {
                    proof {
                        lemma_first_match_bounds(line@, colon_space());
                    }
                    let key = slice_to_vec(slice_subrange(line.as_slice(), 0, k));
                    let value = slice_to_vec(slice_subrange(line.as_slice(), k + 2, line.len()));
                    map.insert(key, value);
                },
                None => {
                    proof {
                        lemma_headers_of_fails(ls, i as int);
                    }
                    return Err(ParseError::MalformedHeader);
                },
            }
            i += 1;
        }
        assert(ls.take(i as int) =~= ls);
        Ok(map)
    }

    /// Splits a multi-part header that consists of
    /// semicolon-separated `key=value` pairs.
    pub fn parse_complex_header(header: &[u8]) -> (r: ComplexHeader)
        ensures
            r.extras.wf(),
            r.value@ == complex_value(header@),
            r.extras@ == complex_extras(header@),
    {
        let semi: Vec<u8> = vec![59u8];
        let eq: Vec<u8> = vec![61u8];
        assert(semi@ =~= seq![59u8]);
        assert(eq@ =~= seq![61u8]);
        let sections = split_all(header, semi.as_slice());
        let ghost ps = pieces(header@, seq![59u8]);
        proof {
            crate::lexical::lemma_pieces_nonempty(header@, seq![59u8]);
        }
        let (lo, hi) = trim_range(sections[0].as_slice());
        let value = slice_to_vec(slice_subrange(sections[0].as_slice(), lo, hi));
        let mut extras = HeaderMap::new();
        let mut i: usize = 1;
        assert(ps.drop_first().take(0) =~= Seq::<Seq<u8>>::empty());
        while i < sections.len()
            invariant
                1 <= i <= sections@.len(),
                sections@.len() == ps.len(),
                ps == pieces(header@, seq![59u8]),
                eq@ == seq![61u8],
                forall|k: int| 0 <= k < sections@.len() ==> #[trigger] sections@[k]@ == ps[k],
                extras.wf(),
                extras_of(ps.drop_first().take(i - 1)) == extras@,
            decreases sections@.len() - i,
        {
            let seg = sections[i].as_slice();
            let (lo, hi) = trim_range(seg);
            let part = slice_subrange(seg, lo, hi);
            assert(ps.drop_first().take(i as int).drop_last() =~= ps.drop_first().take(i - 1));
            assert(ps.drop_first().take(i as int).last() == seg@);
            match find_substring(part, eq.as_slice()) {
                Some(k) => {
                    proof {
                        lemma_first_match_bounds(part@, seq![61u8]);
                    }
                    let key = slice_to_vec(slice_subrange(part, 0, k));
                    let raw = slice_subrange(part, k + 1, part.len());
                    let n = raw.len();
                    let val = if n >= 2 && raw[0] == 34 && raw[n - 1] == 34 {
                        slice_to_vec(slice_subrange(raw, 1, n - 1))
                    } else {
                        slice_to_vec(raw)
                    };
                    extras.insert(key, val);
                },
                None => {
                    extras.insert(slice_to_vec(part), Vec::new());
                },
            }
            i += 1;
        }
        assert(ps.drop_first().take(i - 1) =~= ps.drop_first());
        ComplexHeader { value, extras }
    }
}

proof fn lemma_headers_of_fails(ls: Seq<Seq<u8>>, i: int)
    requires
        0 <= i < ls.len(),
        header_line(ls[i]) is None,
    ensures
        headers_of(ls) is None,
    decreases ls.len(),
{
    if i < ls.len() - 1 {
        lemma_headers_of_fails(ls.drop_last(), i);
    }
}

} // verus!

verus! {

/// The request methods that have a handler.
#[derive(PartialEq, Eq, Structural, Debug, Clone, Copy)]
pub enum Method {
    Get,
    Post,
    Patch,
    Delete,
}

/// The handler a method token selects; `None` means the method is not supported.
pub open spec fn method_of(m: Seq<u8>) -> Option<Method> {
    if m == "GET".spec_bytes() {
        Some(Method::Get)
    } else if m == "POST".spec_bytes() {
        Some(Method::Post)
    } else if m == "PATCH".spec_bytes() {
        Some(Method::Patch)
    } else if m == "DELETE".spec_bytes() {
        Some(Method::Delete)
    } else {
        None
    }
}

/// Selects the handler for a request method.
pub fn route(method: &[u8]) -> (r: Option<Method>)
    ensures
        r == method_of(method@),
{
    if bytes_eq(method, "GET".as_bytes()) {
        Some(Method::Get)
    } else if bytes_eq(method, "POST".as_bytes()) {
        Some(Method::Post)
    } else if bytes_eq(method, "PATCH".as_bytes()) {
        Some(Method::Patch)
    } else if bytes_eq(method, "DELETE".as_bytes()) {
        Some(Method::Delete)
    } else {
        None
    }
}

/// The host that links in a response name: the request's `Host` header, or
/// the configured `host:port`.
pub open spec fn host_of(headers: Map<Seq<u8>, Seq<u8>>, host: Seq<char>, port: u16) -> Seq<u8> {
    if headers.contains_key("Host".spec_bytes()) {
        headers["Host".spec_bytes()]
    } else {
        encode_utf8(host) + ":".spec_bytes() + decimal_text(port as nat)
    }
}

/// Gets the host to use in links to uploaded files.
pub fn get_host(req: &Request, opts: &Opts) -> (r: Vec<u8>)
    requires
        req.headers.wf(),
    ensures
        r@ == host_of(req.headers@, opts.host@, opts.port),
{
    match req.headers.get("Host".as_bytes()) {
        Some(h) => h.clone(),
        None => {
            let mut out = slice_to_vec(opts.host.as_str().as_bytes());
            let mut colon = slice_to_vec(":".as_bytes());
            out.append(&mut colon);
            let mut port = decimal(opts.port as u64);
            out.append(&mut port);
            out
        },
    }
}

/// The body of a response to an upload: one `http://<host>/<path>` line per file.
pub open spec fn links_text(host: Seq<u8>, paths: Seq<Seq<u8>>) -> Seq<u8>
    decreases paths.len(),
{
    if paths.len() == 0 {
        Seq::empty()
    } else {
        links_text(host, paths.drop_last()) + "http://".spec_bytes() + host + "/".spec_bytes()
            + paths.last() + "\n".spec_bytes()
    }
}

/// The body of a response to an upload: the links, or a lone line break when there are none.
pub open spec fn links_body(host: Seq<u8>, paths: Seq<Seq<u8>>) -> Seq<u8> {
    if paths.len() == 0 {
        "\n".spec_bytes()
    } else {
        links_text(host, paths)
    }
}

/// Writes the links to uploaded files, one per line.
pub fn upload_links(host: &[u8], paths: &Vec<Vec<u8>>) -> (r: Vec<u8>)
    ensures
        r@ == links_body(host@, paths@.map_values(|p: Vec<u8>| p@)),
{
    if paths.len() == 0 {
        return slice_to_vec("\n".as_bytes());
    }
    let ghost ps = paths@.map_values(|p: Vec<u8>| p@);
    let mut out: Vec<u8> = Vec::new();
    let mut i: usize = 0;
    while i < paths.len()
        invariant
            i <= paths@.len(),
            ps == paths@.map_values(|p: Vec<u8>| p@),
            out@ == links_text(host@, ps.take(i as int)),
        decreases paths@.len() - i,
    {
        assert(ps.take(i + 1).drop_last() =~= ps.take(i as int));
        let mut a = slice_to_vec("http://".as_bytes());
        out.append(&mut a);
        let mut h = slice_to_vec(host);
        out.append(&mut h);
        let mut s = slice_to_vec("/".as_bytes());
        out.append(&mut s);
        let mut p = paths[i].clone();
        out.append(&mut p);
        let mut n = slice_to_vec("\n".as_bytes());
        out.append(&mut n);
        assert(out@ =~= links_text(host@, ps.take(i + 1)));
        i += 1;
    }
    assert(ps.take(i as int) =~= ps);
    out
}

} // verus!

verus! {

/// When a request declares a body length and at least that many bytes follow
/// the header terminator, the body is exactly those bytes, however many more
/// bytes the buffer holds after them.
pub proof fn law_declared_length_fixes_body(b: Seq<u8>, m: int, n: usize)
    requires
        request_of(b) is Ok,
        first_match(b, crlf2()) == Some(m),
        declared_length(request_of(b).unwrap().headers) == Some(n),
        m + 4 + n <= b.len(),
    ensures
        n > 0 ==> request_of(b).unwrap().body == Some(b.subrange(m + 4, m + 4 + n)),
        n > 0 ==> request_of(b).unwrap().body.unwrap().len() == n,
        n == 0 ==> request_of(b).unwrap().body is None,
{
    lemma_first_match_bounds(b, crlf2());
    assert(b.subrange(m + 4, m + 4 + n).len() == n);
}

} // verus!

verus! {

/// Bytes after a body of the declared length change nothing: appending any
/// bytes to such a buffer parses to the same request.
pub proof fn law_trailing_bytes_ignored(b: Seq<u8>, m: int, n: usize, slack: Seq<u8>)
    requires
        request_of(b) is Ok,
        first_match(b, crlf2()) == Some(m),
        declared_length(request_of(b).unwrap().headers) == Some(n),
        m + 4 + n <= b.len(),
    ensures
        request_of(b + slack) == request_of(b),
{
    let e = first_match(b, crlf()).unwrap();
    crate::buffer_utils::lemma_first_match_extend(b, slack, crlf(), 0);
    crate::buffer_utils::lemma_first_match_extend(b, slack, crlf2(), 0);
    lemma_first_match_bounds(b, crlf());
    lemma_first_match_bounds(b, crlf2());
    let bs = b + slack;
    assert(bs.subrange(0, e) =~= b.subrange(0, e));
    let head_start = if e + 2 <= m { e + 2 } else { m };
    assert(bs.subrange(head_start, m) =~= b.subrange(head_start, m));
    let h = request_of(b).unwrap().headers;
    assert(header_block(b.subrange(head_start, m)) == Some(h));
    if n > 0 {
        assert(bs.subrange(m + 4, m + 4 + n) =~= b.subrange(m + 4, m + 4 + n));
    }
    assert(body_of(bs, Some(m), h) == body_of(b, Some(m), h));
}

} // verus!
