use vstd::prelude::*;
use vstd::slice::slice_to_vec;
use vstd::string::StringSliceAdditionalSpecFns;
use crate::header_map::HeaderMap;
use crate::lexical::{decimal, decimal_text};

verus! {

/// The HTTP version that responses are written in.
pub const HTTP_VERSION: &'static str = "HTTP/1.1";

/// The content type that a resource path gives, as mime_guess's table has it.
pub uninterp spec fn guessed_mime(path: Seq<char>) -> Option<Seq<u8>>;

/// Relies on `mime_guess::from_path(..).first()`: the first MIME type that its
/// static table lists for the path's extension, if it lists one, as `mime` writes it.
#[verifier::external_body]
fn guess_mime(path: &str) -> (r: Option<Vec<u8>>)
    ensures
        match r {
            Some(m) => guessed_mime(path@) == Some(m@),
            None => guessed_mime(path@) is None,
        },
{
    match mime_guess::from_path(path).first() {
        Some(m) => Some(m.to_string().into_bytes()),
        None => None,
    }
}

/// Relies on `chrono::Local::now().to_rfc2822()`: the current local time in
/// RFC 2822 form. Nothing is claimed of the text.
#[verifier::external_body]
fn now_rfc2822() -> (r: Vec<u8>) {
    chrono::Local::now().to_rfc2822().into_bytes()
}

/// The content type sent for a resource path: the guessed one, or `text/html`.
pub open spec fn content_type_for(path: Seq<char>) -> Seq<u8> {
    match guessed_mime(path) {
        Some(m) => m,
        None => "text/html".spec_bytes(),
    }
}

/// The base headers of a response whose body has `len` bytes, for the
/// resource at `path`, written at the time `date`.
pub open spec fn standard_headers(len: nat, path: Seq<char>, date: Seq<u8>) -> Map<Seq<u8>, Seq<u8>> {
    Map::empty().insert("Server".spec_bytes(), "SimpleHTTP/0.1 Rust".spec_bytes()).insert(
        "Connection".spec_bytes(),
        "Keep-Alive".spec_bytes(),
    ).insert("Date".spec_bytes(), date).insert("Content-Length".spec_bytes(), decimal_text(len)).insert(
        "Content-Type".spec_bytes(),
        content_type_for(path),
    )
}

/// The reason phrase of a status code.
pub open spec fn reason_str(code: u16) -> &'static str {
    if code == 200 {
        "OK"
    } else if code == 400 {
        "BAD REQUEST"
    } else if code == 404 {
        "NOT FOUND"
    } else if code == 500 {
        "INTERNAL SERVER ERROR"
    } else if code == 501 {
        "NOT IMPLEMENTED"
    } else {
        "UNKNOWN ERROR"
    }
}

/// The HTML page of an error response.
pub open spec fn error_page(code: u16, details: Seq<u8>) -> Seq<u8> {
    "<!DOCTYPE html> <html lang=\"en\"> <head> <meta charset=\"UTF-8\"> <title>".spec_bytes()
        + decimal_text(code as nat) + " | ".spec_bytes() + reason_str(code).spec_bytes()
        + "</title> </head> <body> <h1>".spec_bytes() + reason_str(code).spec_bytes()
        + "</h1> <p>".spec_bytes() + details + "</p> </body> </html>".spec_bytes()
}

pub open spec fn details_bytes(details: Option<&str>) -> Seq<u8> {
    match details {
        Some(d) => d.spec_bytes(),
        None => Seq::empty(),
    }
}

/// One header line, `Key: Value`.
pub open spec fn header_text(kv: (Seq<u8>, Seq<u8>)) -> Seq<u8> {
    kv.0 + ": ".spec_bytes() + kv.1
}

/// The header lines joined by `CRLF`.
pub open spec fn joined_headers(ps: Seq<(Seq<u8>, Seq<u8>)>) -> Seq<u8>
    decreases ps.len(),
{
    if ps.len() == 0 {
        Seq::empty()
    } else if ps.len() == 1 {
        header_text(ps[0])
    } else {
        joined_headers(ps.drop_last()) + "\r\n".spec_bytes() + header_text(ps.last())
    }
}

/// A response to be written to a client.
pub struct Response {
    pub http_version: &'static str,
    pub status_code: u16,
    pub reason_phrase: &'static str,
    pub headers: HeaderMap,
    pub body: Option<Vec<u8>>,
}

/// The bytes of a response on the wire.
pub open spec fn response_text(r: Response) -> Seq<u8> {
    r.http_version.spec_bytes() + " ".spec_bytes() + decimal_text(r.status_code as nat) + " ".spec_bytes()
        + r.reason_phrase.spec_bytes() + "\r\n".spec_bytes() + joined_headers(r.headers.pairs())
        + "\r\n\r\n".spec_bytes() + match r.body {
        Some(b) => b@,
        None => Seq::empty(),
    }
}

fn append_str(out: &mut Vec<u8>, s: &str)
    ensures
        final(out)@ == old(out)@ + s.spec_bytes(),
{
    let mut b = slice_to_vec(s.as_bytes());
    out.append(&mut b);
}

impl Response {
    /// Converts the response object to a byte vector.
    ///
    /// The vec contains the formatted HTTP response
    /// which can be sent back to the client.
    pub fn to_bytes(&self) -> (r: Vec<u8>)
        ensures
            r@ == response_text(*self),
    {
        let mut out: Vec<u8> = Vec::new();
        append_str(&mut out, self.http_version);
        append_str(&mut out, " ");
        let mut code = decimal(self.status_code as u64);
        out.append(&mut code);
        append_str(&mut out, " ");
        append_str(&mut out, self.reason_phrase);
        append_str(&mut out, "\r\n");
        let ghost head = out@;
        let ghost ps = self.headers.pairs();
        let n = self.headers.len();
        let mut i: usize = 0;
        while i < n
            invariant
                n == ps.len(),
                ps == self.headers.pairs(),
                i <= n,
                out@ == head + joined_headers(ps.take(i as int)),
            decreases n - i,
        {
            let (k, v) = self.headers.entry(i);
            assert(ps.take(i + 1).drop_last() =~= ps.take(i as int));
            if i > 0 {
                append_str(&mut out, "\r\n");
            }
            let mut kb = k.clone();
            assert(kb@ == k@);
            out.append(&mut kb);
            append_str(&mut out, ": ");
            let mut vb = v.clone();
            out.append(&mut vb);
            proof {
                if i == 0 {
                    assert(joined_headers(ps.take(0)) =~= Seq::<u8>::empty());
                }
                assert(out@ =~= head + joined_headers(ps.take(i + 1)));
            }
            i += 1;
        }
        assert(ps.take(n as int) =~= ps);
        append_str(&mut out, "\r\n\r\n");
        match &self.body {
            Some(b) => {
                let mut bb = b.clone();
                out.append(&mut bb);
            },
            None => {},
        }
        assert(out@ =~= response_text(*self));
        out
    }

    /// Builds the base headers with the given date.
    pub fn headers_dated(content_length: usize, path: &str, date: Vec<u8>) -> (r: HeaderMap)
        ensures
            r.wf(),
            r@ == standard_headers(content_length as nat, path@, date@),
    {
        let mut headers = HeaderMap::new();
        headers.insert(slice_to_vec("Server".as_bytes()), slice_to_vec("SimpleHTTP/0.1 Rust".as_bytes()));
        headers.insert(slice_to_vec("Connection".as_bytes()), slice_to_vec("Keep-Alive".as_bytes()));
        headers.insert(slice_to_vec("Date".as_bytes()), date);
        headers.insert(slice_to_vec("Content-Length".as_bytes()), decimal(content_length as u64));
        let content_type = match guess_mime(path) {
            Some(m) => m,
            None => slice_to_vec("text/html".as_bytes()),
        };
        headers.insert(slice_to_vec("Content-Type".as_bytes()), content_type);
        headers
    }

    /// Gets a map of base response headers, dated now.
    pub fn get_headers(content_length: usize, path: &str) -> (r: HeaderMap)
        ensures
            r.wf(),
            exists|d: Seq<u8>| r@ == #[trigger] standard_headers(content_length as nat, path@, d),
    {
        let date = now_rfc2822();
        Response::headers_dated(content_length, path, date)
    }

    /// Returns an HTTP OK response; the status written is always 200.
    pub fn ok(code: u16, path: &str, content: Vec<u8>) -> (r: Response)
        requires
            200 <= code <= 300,
        ensures
            r.http_version == HTTP_VERSION,
            r.status_code == 200,
            r.reason_phrase == reason_str(200),
            r.headers.wf(),
            exists|d: Seq<u8>| r.headers@ == #[trigger] standard_headers(content@.len(), path@, d),
            r.body == Some(content),
    {
        let status: u16 = 200;
        let headers = Response::get_headers(content.len(), path);
        Response {
            http_version: HTTP_VERSION,
            status_code: status,
            reason_phrase: Response::reason_phrase(status),
            headers,
            body: Some(content),
        }
    }

    /// Returns an error response for the given error code.
    pub fn error(status_code: u16, details: Option<&str>) -> (r: Response)
        ensures
            r.http_version == HTTP_VERSION,
            r.status_code == status_code,
            r.reason_phrase == reason_str(status_code),
            r.headers.wf(),
            r.body matches Some(b) && b@ == error_page(status_code, details_bytes(details)),
            exists|d: Seq<u8>| r.headers@ == #[trigger] standard_headers(
                error_page(status_code, details_bytes(details)).len(),
                "error.html"@,
                d,
            ),
    {
        let content = Response::get_error_html(status_code, details);
        let headers = Response::get_headers(content.len(), "error.html");
        Response {
            http_version: HTTP_VERSION,
            status_code,
            reason_phrase: Response::reason_phrase(status_code),
            headers,
            body: Some(content),
        }
    }

    /// The HTML page for the given error code.
    pub fn get_error_html(code: u16, details: Option<&str>) -> (r: Vec<u8>)
        ensures
            r@ == error_page(code, details_bytes(details)),
    {
        let reason = Response::reason_phrase(code);
        let mut out: Vec<u8> = Vec::new();
        append_str(&mut out, "<!DOCTYPE html> <html lang=\"en\"> <head> <meta charset=\"UTF-8\"> <title>");
        let mut c = decimal(code as u64);
        out.append(&mut c);
        append_str(&mut out, " | ");
        append_str(&mut out, reason);
        append_str(&mut out, "</title> </head> <body> <h1>");
        append_str(&mut out, reason);
        append_str(&mut out, "</h1> <p>");
        match details {
            Some(d) => append_str(&mut out, d),
            None => {},
        }
        append_str(&mut out, "</p> </body> </html>");
        assert(out@ =~= error_page(code, details_bytes(details)));
        out
    }

    /// Gets the reason phrase string for a status code.
    pub fn reason_phrase(code: u16) -> (r: &'static str)
        ensures
            r == reason_str(code),
    {
        if code == 200 {
            "OK"
        } else if code == 400 {
            "BAD REQUEST"
        } else if code == 404 {
            "NOT FOUND"
        } else if code == 500 {
            "INTERNAL SERVER ERROR"
        } else if code == 501 {
            "NOT IMPLEMENTED"
        } else {
            "UNKNOWN ERROR"
        }
    }
}

} // verus!
