use vstd::prelude::*;
use vstd::slice::slice_to_vec;
use vstd::slice::slice_subrange;
use vstd::string::StringSliceAdditionalSpecFns;
use crate::UploadFile;
use crate::buffer_utils::{
    bytes_eq,
    find_substring,
    first_match,
    lemma_first_match_bounds,
    split,
    split_parts,
};
use crate::path_utils::{get_filename_or_fallback, is_fallback_name, sanitised};
use crate::request::{complex_extras, crlf2, header_block, ComplexHeader, ParseError, Request};

verus! {

/// The marker that opens each part: `--<boundary>\r\n`.
pub open spec fn opening_marker(boundary: Seq<u8>) -> Seq<u8> {
    "--".spec_bytes() + boundary + "\r\n".spec_bytes()
}

/// The marker that closes the body: `--<boundary>--\r\n`.
pub open spec fn closing_marker(boundary: Seq<u8>) -> Seq<u8> {
    "--".spec_bytes() + boundary + "--\r\n".spec_bytes()
}

pub open spec fn without_prefix(b: Seq<u8>, p: Seq<u8>) -> Seq<u8> {
    if p.len() <= b.len() && b.subrange(0, p.len() as int) == p {
        b.subrange(p.len() as int, b.len() as int)
    } else {
        b
    }
}

pub open spec fn without_suffix(b: Seq<u8>, p: Seq<u8>) -> Seq<u8> {
    if p.len() <= b.len() && b.subrange(b.len() - p.len(), b.len() as int) == p {
        b.subrange(0, b.len() - p.len())
    } else {
        b
    }
}

/// The parts of a multipart body, in order, each still with its own headers.
pub open spec fn sections(body: Seq<u8>, boundary: Seq<u8>) -> Seq<Seq<u8>> {
    split_parts(
        without_suffix(without_prefix(body, opening_marker(boundary)), closing_marker(boundary)),
        opening_marker(boundary),
    )
}

/// The `filename` extra of the `Content-Disposition` header, if any.
pub open spec fn filename_in(h: Map<Seq<u8>, Seq<u8>>) -> Option<Seq<u8>> {
    let disposition = if h.contains_key("Content-Disposition".spec_bytes()) {
        h["Content-Disposition".spec_bytes()]
    } else {
        Seq::empty()
    };
    let extras = complex_extras(disposition);
    if extras.contains_key("filename".spec_bytes()) {
        Some(extras["filename".spec_bytes()])
    } else {
        None
    }
}

/// The file name given and the body of one part; `None` if its headers are malformed.
pub open spec fn part_fields(part: Seq<u8>) -> Option<(Option<Seq<u8>>, Seq<u8>)> {
    match first_match(part, crlf2()) {
        None => None,
        Some(m) => match header_block(part.subrange(0, m)) {
            None => None,
            Some(h) => Some((filename_in(h), part.subrange(m + 4, part.len() as int))),
        },
    }
}

/// The name that an uploaded file gets from the name it was given.
pub open spec fn name_fits(given: Option<Seq<u8>>, name: Seq<u8>) -> bool {
    match given {
        Some(f) => name == sanitised(f),
        None => is_fallback_name(name),
    }
}

pub open spec fn request_body(req: &Request) -> Seq<u8> {
    match req.body {
        Some(b) => b@,
        None => Seq::empty(),
    }
}

/// The parts of a request's multipart body, split at the boundary that its content type names.
pub open spec fn upload_sections(req: &Request, content_type: &ComplexHeader) -> Seq<Seq<u8>> {
    sections(request_body(req), content_type.extras@["boundary".spec_bytes()])
}

fn has_prefix(b: &[u8], p: &[u8]) -> (r: bool)
    ensures
        r == (p@.len() <= b@.len() && b@.subrange(0, p@.len() as int) == p@),
{
    if p.len() > b.len() {
        return false;
    }
    let head = slice_subrange(b, 0, p.len());
    bytes_eq(head, p)
}

fn has_suffix(b: &[u8], p: &[u8]) -> (r: bool)
    ensures
        r == (p@.len() <= b@.len() && b@.subrange(b@.len() - p@.len(), b@.len() as int) == p@),
{
    if p.len() > b.len() {
        return false;
    }
    let tail = slice_subrange(b, b.len() - p.len(), b.len());
    bytes_eq(tail, p)
}

fn marker(boundary: &[u8], tail: &str) -> (r: Vec<u8>)
    ensures
        r@ == "--".spec_bytes() + boundary@ + tail.spec_bytes(),
{
    let mut out = slice_to_vec("--".as_bytes());
    let mut b = slice_to_vec(boundary);
    out.append(&mut b);
    let mut t = slice_to_vec(tail.as_bytes());
    out.append(&mut t);
    out
}

/// Parses a `multipart/*` request and returns the files to be handled.
pub fn parse(req: &Request, content_type: &ComplexHeader) -> (r: Result<Vec<UploadFile>, ParseError>)
    requires
        content_type.extras.wf(),
    ensures
        match r {
            Ok(files) => {
                &&& content_type.extras@.contains_key("boundary".spec_bytes())
                &&& files@.len() == upload_sections(req, content_type).len()
                &&& forall|i: int| 0 <= i < files@.len() ==> {
                    &&& #[trigger] part_fields(upload_sections(req, content_type)[i]) is Some
                    &&& files@[i].body@ == part_fields(upload_sections(req, content_type)[i]).unwrap().1
                    &&& name_fits(part_fields(upload_sections(req, content_type)[i]).unwrap().0, files@[i].name@)
                }
            },
            Err(e) => if !content_type.extras@.contains_key("boundary".spec_bytes()) {
                e == ParseError::MissingBoundary
            } else {
                &&& e == ParseError::MalformedHeader
                &&& exists|i: int|
                    0 <= i < upload_sections(req, content_type).len()
                        && #[trigger] part_fields(upload_sections(req, content_type)[i]) is None
            },
        },
{
    let base_boundary = match content_type.extras.get("boundary".as_bytes()) {
        Some(b) => b,
        None => {
            return Err(ParseError::MissingBoundary);
        },
    };
    let boundary = marker(base_boundary.as_slice(), "\r\n");
    let end_boundary = marker(base_boundary.as_slice(), "--\r\n");
    let empty: Vec<u8> = Vec::new();
    let whole: &[u8] = match &req.body {
        Some(b) => b.as_slice(),
        None => empty.as_slice(),
    };
    let body = if has_prefix(whole, boundary.as_slice()) {
        slice_subrange(whole, boundary.len(), whole.len())
    } else {
        whole
    };
    let body = if has_suffix(body, end_boundary.as_slice()) {
        slice_subrange(body, 0, body.len() - end_boundary.len())
    } else {
        body
    };
    let parts = split(body, boundary.as_slice());
    let ghost secs = sections(request_body(req), base_boundary@);
    assert(whole@ == request_body(req));
    assert(body@ == without_suffix(without_prefix(request_body(req), opening_marker(base_boundary@)), closing_marker(base_boundary@)));
    assert(secs == upload_sections(req, content_type));
    let crlf2_v: Vec<u8> = vec![13u8, 10u8, 13u8, 10u8];
    assert(crlf2_v@ =~= crlf2());
    let mut files: Vec<UploadFile> = Vec::new();
    let mut i: usize = 0;
    while i < parts.len()
        invariant
            secs == sections(request_body(req), base_boundary@),
            secs == upload_sections(req, content_type),
            content_type.extras@.contains_key("boundary".spec_bytes()),
            parts@.len() == secs.len(),
            forall|k: int| 0 <= k < parts@.len() ==> #[trigger] parts@[k]@ == secs[k],
            crlf2_v@ == crlf2(),
            i <= parts@.len(),
            files@.len() == i,
            forall|k: int| 0 <= k < i ==> {
                &&& #[trigger] part_fields(secs[k]) is Some
                &&& files@[k].body@ == part_fields(secs[k]).unwrap().1
                &&& name_fits(part_fields(secs[k]).unwrap().0, files@[k].name@)
            },
        decreases parts@.len() - i,
    {
        let part = parts[i].as_slice();
        let part_len = part.len();
        let m = match find_substring(part, crlf2_v.as_slice()) {
            Some(m) => m,
            None => {
                assert(part_fields(secs[i as int]) is None);
                return Err(ParseError::MalformedHeader);
            },
        };
        proof {
            lemma_first_match_bounds(part@, crlf2());
        }
        let headers = match Request::parse_headers(slice_subrange(part, 0, m)) {
            Ok(h) => h,
            Err(_) => {
                assert(part_fields(secs[i as int]) is None);
                return Err(ParseError::MalformedHeader);
            },
        };
        let empty_value: Vec<u8> = Vec::new();
        let disposition_value: &[u8] = match headers.get("Content-Disposition".as_bytes()) {
            Some(v) => v.as_slice(),
            None => empty_value.as_slice(),
        };
        let disposition = Request::parse_complex_header(disposition_value);
        let filename: Option<&[u8]> = match disposition.extras.get("filename".as_bytes()) {
            Some(f) => Some(f.as_slice()),
            None => None,
        };
        let name = get_filename_or_fallback(filename);
        let file_body = slice_to_vec(slice_subrange(part, m + 4, part.len()));
        files.push(UploadFile { name, body: file_body });
        i += 1;
    }
    Ok(files)
}

} // verus!
