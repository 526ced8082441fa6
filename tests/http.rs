use http_impl_demo::buffer_utils::{find_substring, split};
use http_impl_demo::header_map::HeaderMap;
use http_impl_demo::lexical::{decimal, parse_usize};
use http_impl_demo::multipart::parse;
use http_impl_demo::path_utils::{get_filename_or_fallback, is_filepath, random_string, sanitise};
use http_impl_demo::request::{ComplexHeader, ParseError, Request};
use http_impl_demo::Response;

fn contains(hay: &[u8], needle: &[u8]) -> bool {
    hay.windows(needle.len()).any(|w| w == needle)
}

#[test]
fn find_substring_first_occurrence() {
    assert_eq!(find_substring(b"abcabc", b"ca"), Some(2));
    assert_eq!(find_substring(b"abcabc", b"abc"), Some(0));
    assert_eq!(find_substring(b"abc", b"x"), None);
    assert_eq!(find_substring(b"ab", b"abc"), None);
}

#[test]
fn split_on_multibyte_delimiter() {
    let parts = split(b"a\r\nbb\r\nccc", b"\r\n");
    assert_eq!(parts, vec![b"a".to_vec(), b"bb".to_vec(), b"ccc".to_vec()]);
    let none: Vec<Vec<u8>> = split(b"", b"\r\n");
    assert!(none.is_empty());
    // a delimiter at the start of the remaining bytes is not a cut; later ones are
    let lead = split(b"\r\nx", b"\r\n");
    assert_eq!(lead, vec![b"\r\nx".to_vec()]);
    let later = split(b"--Xa--Xb", b"--X");
    assert_eq!(later, vec![b"--Xa".to_vec(), b"b".to_vec()]);
}

#[test]
fn parses_simple_get_request() {
    let req = Request::from_bytes(b"GET /a HTTP/1.1\r\nHost: x\r\n\r\n").unwrap();
    assert_eq!(req.status_line.method, b"GET".to_vec());
    assert_eq!(req.status_line.uri, b"/a".to_vec());
    assert_eq!(req.status_line.http_version, b"HTTP/1.1".to_vec());
    assert_eq!(req.headers.len(), 1);
    assert_eq!(req.headers.get(b"Host"), Some(&b"x".to_vec()));
    assert!(req.body.is_none());
}

#[test]
fn content_length_bounds_body_despite_slack() {
    let mut buf = b"POST /up HTTP/1.1\r\nContent-Length: 5\r\n\r\nhello".to_vec();
    buf.extend_from_slice(&[0u8; 64]);
    let req = Request::from_bytes(&buf).unwrap();
    let body = req.body.unwrap();
    assert_eq!(body.len(), 5);
    assert_eq!(body, b"hello".to_vec());
}

#[test]
fn content_length_clipped_to_buffer() {
    let req = Request::from_bytes(b"POST / HTTP/1.1\r\nContent-Length: 50\r\n\r\nabc").unwrap();
    assert_eq!(req.body, Some(b"abc".to_vec()));
}

#[test]
fn body_without_content_length_runs_to_end() {
    let req = Request::from_bytes(b"POST / HTTP/1.1\r\nHost: h\r\n\r\nrest of it").unwrap();
    assert_eq!(req.body, Some(b"rest of it".to_vec()));
}

#[test]
fn request_without_headers() {
    let req = Request::from_bytes(b"GET / HTTP/1.1\r\n\r\n").unwrap();
    assert_eq!(req.headers.len(), 0);
    assert!(req.body.is_none());
}

#[test]
fn from_string_parses_like_bytes() {
    let req = Request::from_string("DELETE /f.txt HTTP/1.1\r\nHost: h\r\n\r\n").unwrap();
    assert_eq!(req.status_line.method, b"DELETE".to_vec());
    assert_eq!(req.status_line.uri, b"/f.txt".to_vec());
}

#[test]
fn malformed_request_line() {
    assert_eq!(Request::from_bytes(b"GET / HTTP/1.1").err(), Some(ParseError::MalformedRequest));
    assert_eq!(Request::from_bytes(b"GET /\r\n\r\n").err(), Some(ParseError::MalformedRequest));
}

#[test]
fn malformed_header_line() {
    let r = Request::from_bytes(b"GET / HTTP/1.1\r\nHost x\r\n\r\n");
    assert_eq!(r.err(), Some(ParseError::MalformedHeader));
}

#[test]
fn parse_headers_last_wins() {
    let h = Request::parse_headers(b"A: 1\r\nB: 2\r\nA: 3").unwrap();
    assert_eq!(h.len(), 2);
    assert_eq!(h.get(b"A"), Some(&b"3".to_vec()));
    assert_eq!(h.get(b"B"), Some(&b"2".to_vec()));
    assert_eq!(Request::parse_headers(b"A: 1\r\n").err(), Some(ParseError::MalformedHeader));
    assert_eq!(
        Request::parse_headers(b"A: 1\r\n\r\nB: 2").err(),
        Some(ParseError::MalformedHeader)
    );
    assert_eq!(Request::parse_headers(b"Host: x\r\nBadLine").err(), Some(ParseError::MalformedHeader));
    assert_eq!(Request::parse_headers(b"").unwrap().len(), 0);
    let v = Request::parse_headers(b"K: a: b").unwrap();
    assert_eq!(v.get(b"K"), Some(&b"a: b".to_vec()));
}

#[test]
fn complex_header_boundary() {
    let c = Request::parse_complex_header(b"multipart/form-data; boundary=XYZ");
    assert_eq!(c.value, b"multipart/form-data".to_vec());
    assert_eq!(c.extras.len(), 1);
    assert_eq!(c.extras.get(b"boundary"), Some(&b"XYZ".to_vec()));
}

#[test]
fn complex_header_quotes_and_bare_keys() {
    let c = Request::parse_complex_header(b" form-data ; name=\"f\"; filename=\"a.txt\" ; flag");
    assert_eq!(c.value, b"form-data".to_vec());
    assert_eq!(c.extras.get(b"name"), Some(&b"f".to_vec()));
    assert_eq!(c.extras.get(b"filename"), Some(&b"a.txt".to_vec()));
    assert_eq!(c.extras.get(b"flag"), Some(&Vec::new()));
    let q = Request::parse_complex_header(b"x; k=\"");
    assert_eq!(q.extras.get(b"k"), Some(&b"\"".to_vec()));
}

fn multipart_request(body: &[u8]) -> Vec<u8> {
    let mut buf = format!(
        "POST /up HTTP/1.1\r\nContent-Type: multipart/form-data; boundary=ABC\r\nContent-Length: {}\r\n\r\n",
        body.len()
    )
    .into_bytes();
    buf.extend_from_slice(body);
    buf
}

#[test]
fn multipart_two_parts_in_order() {
    let body = b"--ABC\r\nContent-Disposition: form-data; name=\"a\"; filename=\"one.txt\"\r\n\r\nfirst\r\n--ABC\r\nContent-Disposition: form-data; name=\"b\"; filename=\"dir/two.txt\"\r\n\r\nsecond\r\n--ABC--\r\n";
    let buf = multipart_request(body);
    let req = Request::from_bytes(&buf).unwrap();
    let ct: ComplexHeader = Request::parse_complex_header(req.headers.get(b"Content-Type").unwrap());
    let files = parse(&req, &ct).unwrap();
    assert_eq!(files.len(), 2);
    assert_eq!(files[0].name, b"one.txt".to_vec());
    assert_eq!(files[0].body, b"first\r\n".to_vec());
    assert_eq!(files[1].name, b"dir_two.txt".to_vec());
    assert_eq!(files[1].body, b"second\r\n".to_vec());
}

#[test]
fn multipart_part_without_filename_gets_generated_name() {
    let body = b"--ABC\r\nContent-Disposition: form-data; name=\"a\"\r\n\r\ndata--ABC--\r\n";
    let buf = multipart_request(body);
    let req = Request::from_bytes(&buf).unwrap();
    let ct = Request::parse_complex_header(b"multipart/form-data; boundary=ABC");
    let files = parse(&req, &ct).unwrap();
    assert_eq!(files.len(), 1);
    assert_eq!(files[0].name.len(), 6);
    assert!(files[0].name.iter().all(|c| c.is_ascii_lowercase() || c.is_ascii_digit()));
    assert_eq!(files[0].body, b"data".to_vec());
}

#[test]
fn multipart_missing_boundary() {
    let buf = multipart_request(b"--ABC\r\n\r\nx--ABC--\r\n");
    let req = Request::from_bytes(&buf).unwrap();
    let ct = Request::parse_complex_header(b"multipart/form-data");
    assert_eq!(parse(&req, &ct).err(), Some(ParseError::MissingBoundary));
}

#[test]
fn multipart_part_without_header_terminator() {
    let buf = multipart_request(b"--ABC\r\nContent-Disposition: form-data\r\nno end--ABC--\r\n");
    let req = Request::from_bytes(&buf).unwrap();
    let ct = Request::parse_complex_header(b"multipart/form-data; boundary=ABC");
    assert_eq!(parse(&req, &ct).err(), Some(ParseError::MalformedHeader));
}

#[test]
fn fallback_filename_shape() {
    for _ in 0..20 {
        let n = get_filename_or_fallback(None);
        assert_eq!(n.len(), 6);
        assert!(n.iter().all(|c| c.is_ascii_lowercase() || c.is_ascii_digit()));
    }
    assert_eq!(get_filename_or_fallback(Some(b"x/y/z")), b"x_y_z".to_vec());
}

#[test]
fn sanitise_replaces_slashes() {
    assert_eq!(sanitise(b"a/b"), b"a_b".to_vec());
    assert_eq!(sanitise(b"../../etc"), b".._.._etc".to_vec());
    assert_eq!(sanitise(b""), Vec::<u8>::new());
}

#[test]
fn random_string_length_and_alphabet() {
    let s = random_string(32);
    assert_eq!(s.len(), 32);
    assert!(s.iter().all(|c| c.is_ascii_lowercase() || c.is_ascii_digit()));
    assert!(random_string(0).is_empty());
}

#[test]
fn is_filepath_checks_extension() {
    assert!(is_filepath("./dir/file.txt"));
    assert!(!is_filepath("./dir/folder"));
    assert!(!is_filepath("./dir/.hidden"));
    assert!(!is_filepath("/"));
}

#[test]
fn error_page_names_reason_and_detail() {
    let r = Response::error(404, Some("missing"));
    assert_eq!(r.status_code, 404);
    assert_eq!(r.reason_phrase, "NOT FOUND");
    let body = r.body.clone().unwrap();
    assert!(contains(&body, b"NOT FOUND"));
    assert!(contains(&body, b"missing"));
    assert!(contains(&body, b"<title>404 | NOT FOUND</title>"));
    let len = format!("{}", body.len()).into_bytes();
    assert_eq!(r.headers.get(b"Content-Length"), Some(&len));
    assert_eq!(r.headers.get(b"Content-Type"), Some(&b"text/html".to_vec()));
}

#[test]
fn error_page_exact_without_detail() {
    let page = Response::get_error_html(500, None);
    let expected = "<!DOCTYPE html> <html lang=\"en\"> <head> <meta charset=\"UTF-8\"> <title>500 | INTERNAL SERVER ERROR</title> </head> <body> <h1>INTERNAL SERVER ERROR</h1> <p></p> </body> </html>";
    assert_eq!(page, expected.as_bytes().to_vec());
}

#[test]
fn reason_phrase_table() {
    assert_eq!(Response::reason_phrase(200), "OK");
    assert_eq!(Response::reason_phrase(400), "BAD REQUEST");
    assert_eq!(Response::reason_phrase(404), "NOT FOUND");
    assert_eq!(Response::reason_phrase(500), "INTERNAL SERVER ERROR");
    assert_eq!(Response::reason_phrase(501), "NOT IMPLEMENTED");
    assert_eq!(Response::reason_phrase(201), "UNKNOWN ERROR");
    assert_eq!(Response::reason_phrase(418), "UNKNOWN ERROR");
}

#[test]
fn ok_always_writes_200() {
    let r = Response::ok(201, "up/file.txt", b"hi".to_vec());
    assert_eq!(r.status_code, 200);
    assert_eq!(r.reason_phrase, "OK");
    assert_eq!(r.headers.get(b"Content-Type"), Some(&b"text/plain".to_vec()));
    assert_eq!(r.headers.get(b"Connection"), Some(&b"Keep-Alive".to_vec()));
    assert_eq!(r.headers.get(b"Server"), Some(&b"SimpleHTTP/0.1 Rust".to_vec()));
    assert!(r.headers.get(b"Date").is_some());
    assert_eq!(r.body, Some(b"hi".to_vec()));
}

#[test]
fn headers_follow_path_extension() {
    let h = Response::headers_dated(3, "a/b.png", b"D".to_vec());
    assert_eq!(h.len(), 5);
    assert_eq!(h.get(b"Content-Type"), Some(&b"image/png".to_vec()));
    assert_eq!(h.get(b"Content-Length"), Some(&b"3".to_vec()));
    assert_eq!(h.get(b"Date"), Some(&b"D".to_vec()));
    let d = Response::headers_dated(0, "noext", b"D".to_vec());
    assert_eq!(d.get(b"Content-Type"), Some(&b"text/html".to_vec()));
}

#[test]
fn serializes_response_bytes() {
    let mut headers = HeaderMap::new();
    headers.insert(b"A".to_vec(), b"1".to_vec());
    headers.insert(b"B".to_vec(), b"2".to_vec());
    let r = Response {
        http_version: "HTTP/1.1",
        status_code: 404,
        reason_phrase: "NOT FOUND",
        headers,
        body: Some(b"xyz".to_vec()),
    };
    assert_eq!(r.to_bytes(), b"HTTP/1.1 404 NOT FOUND\r\nA: 1\r\nB: 2\r\n\r\nxyz".to_vec());
    let empty = Response {
        http_version: "HTTP/1.1",
        status_code: 200,
        reason_phrase: "OK",
        headers: HeaderMap::new(),
        body: None,
    };
    assert_eq!(empty.to_bytes(), b"HTTP/1.1 200 OK\r\n\r\n\r\n".to_vec());
}

#[test]
fn header_map_insert_replaces() {
    let mut h = HeaderMap::new();
    h.insert(b"k".to_vec(), b"1".to_vec());
    h.insert(b"k".to_vec(), b"2".to_vec());
    assert_eq!(h.len(), 1);
    assert_eq!(h.get(b"k"), Some(&b"2".to_vec()));
    assert_eq!(h.get(b"other"), None);
}

#[test]
fn decimal_and_parse_usize() {
    assert_eq!(decimal(0), b"0".to_vec());
    assert_eq!(decimal(1234567), b"1234567".to_vec());
    assert_eq!(parse_usize(b"42"), Some(42));
    assert_eq!(parse_usize(b"+7"), Some(7));
    assert_eq!(parse_usize(b""), None);
    assert_eq!(parse_usize(b"4x"), None);
    assert_eq!(parse_usize(b"99999999999999999999999"), None);
}

#[test]
fn unicode_whitespace_is_trimmed_and_separates_words() {
    let c = Request::parse_complex_header(b"a;\x0B");
    assert_eq!(c.extras.get(b""), Some(&Vec::new()));
    let nbsp = Request::parse_complex_header("\u{00A0}text/plain\u{3000}; k=v\u{2003}".as_bytes());
    assert_eq!(nbsp.value, b"text/plain".to_vec());
    assert_eq!(nbsp.extras.get(b"k"), Some(&b"v".to_vec()));
    let req = Request::from_bytes(b"GET\x0B/ HTTP/1.1\r\n\r\n").unwrap();
    assert_eq!(req.status_line.method, b"GET".to_vec());
    assert_eq!(req.status_line.uri, b"/".to_vec());
    let wide = Request::from_bytes("GET\u{2028}/x\u{00A0}HTTP/1.1\r\n\r\n".as_bytes()).unwrap();
    assert_eq!(wide.status_line.uri, b"/x".to_vec());
    assert_eq!(wide.status_line.http_version, b"HTTP/1.1".to_vec());
}

#[test]
fn request_without_terminator_keeps_header_lines() {
    let req = Request::from_bytes(b"GET / HTTP/1.1\r\nHost: x").unwrap();
    assert_eq!(req.headers.get(b"Host"), Some(&b"x".to_vec()));
    assert!(req.body.is_none());
}

#[test]
fn multipart_empty_part_is_still_split() {
    let body = b"--ABC\r\n--ABC\r\nContent-Disposition: form-data; filename=\"z.txt\"\r\n\r\nzz--ABC--\r\n";
    let buf = multipart_request(body);
    let req = Request::from_bytes(&buf).unwrap();
    let ct = Request::parse_complex_header(b"multipart/form-data; boundary=ABC");
    // a marker at the start of the remaining bytes is no cut: the part keeps it
    // as a header line without ": "
    assert_eq!(parse(&req, &ct).err(), Some(ParseError::MalformedHeader));
}

#[test]
fn is_filepath_edge_names() {
    assert!(is_filepath("a."));
    assert!(is_filepath(".cfg.bak"));
    assert!(!is_filepath("dir/.."));
    assert!(is_filepath("/srv/site/index.html"));
}
