use zahttp::buf::Out;
use zahttp::http::{parse_head, Parse, Request};
use zahttp::multipart::{
    multipart_boundary, param, parse_multipart, parse_part_headers, serve_upload, FormPart, MAX_PARTS,
};

fn upload<'a>(head: &'a str, body: &'a [u8]) -> Request<'a> {
    match parse_head(head.as_bytes()) {
        Parse::Ready(mut r) => {
            r.body = body;
            r
        }
        _ => panic!("bad head"),
    }
}

fn summary(content_type: &str, body: &[u8]) -> (Result<(), u16>, String) {
    let head = format!("POST /upload HTTP/1.1\r\nContent-Type: {}\r\n\r\n", content_type);
    let req = upload(&head, body);
    let mut room = [0u8; 4096];
    let mut out = Out::new(&mut room);
    let r = serve_upload(&req, &mut out);
    (r, String::from_utf8(out.as_slice().to_vec()).unwrap())
}

fn empty_parts() -> [FormPart<'static>; MAX_PARTS] {
    [FormPart { name: b"", filename: None, content_type: b"text/plain", body: b"" }; MAX_PARTS]
}

#[test]
fn a_form_is_summarised() {
    let body = b"--B\r\nContent-Disposition: form-data; name=\"field1\"\r\n\r\nvalue1\r\n--B\r\nContent-Disposition: form-data; name=\"file\"; filename=\"a.txt\"\r\nContent-Type: text/plain\r\n\r\nhello, world\r\n--B--\r\n";
    let (r, text) = summary("multipart/form-data; boundary=B", body);
    assert_eq!(r, Ok(()));
    assert_eq!(
        text,
        "parts: 2\npart 0: name=\"field1\" filename=\"-\" type=\"text/plain\" size=6\npart 1: name=\"file\" filename=\"a.txt\" type=\"text/plain\" size=12\n"
    );
}

#[test]
fn forms_that_are_refused() {
    assert_eq!(summary("text/plain", b""), (Err(400), "bad multipart boundary\n".to_string()));
    assert_eq!(summary("multipart/form-data", b""), (Err(400), "bad multipart boundary\n".to_string()));
    assert_eq!(summary("multipart/form-data; boundary=\"\"", b"").0, Err(400));
    let long = format!("multipart/form-data; boundary={}", "b".repeat(129));
    assert_eq!(summary(&long, b"").1, "bad multipart boundary\n");
    assert_eq!(
        summary("multipart/form-data; boundary=B", b"garbage"),
        (Err(400), "malformed multipart body\n".to_string())
    );
    assert_eq!(summary("multipart/form-data; boundary=B", b"--B\r\n\r\n\r\nno end").0, Err(400));
    assert_eq!(summary("multipart/form-data; boundary=B", b"--Bx").0, Err(400));
    assert_eq!(summary("multipart/form-data; boundary=B", b"--B\r\nA: b\r\n\r\nx\r\n--Bx").0, Err(400));
}

#[test]
fn too_many_parts_are_refused() {
    let mut body = b"--B".to_vec();
    for _ in 0..16 {
        body.extend_from_slice(b"\r\nA: b\r\n\r\nx\r\n--B");
    }
    let mut whole = body.clone();
    whole.extend_from_slice(b"--");
    assert_eq!(summary("multipart/form-data; boundary=B", &whole).0, Ok(()));
    body.extend_from_slice(b"\r\nA: b\r\n\r\nx\r\n--B--");
    assert_eq!(summary("multipart/form-data; boundary=B", &body), (Err(413), "too many parts\n".to_string()));
    body.extend_from_slice(b"\r\nepilogue");
    assert_eq!(summary("multipart/form-data; boundary=B", &body).0, Err(413));
}

#[test]
fn an_empty_form_has_no_parts() {
    assert_eq!(summary("multipart/form-data; boundary=B", b"--B--"), (Ok(()), "parts: 0\n".to_string()));
}

#[test]
fn a_form_reads_back() {
    let body = b"--xyz\r\nContent-Disposition: form-data; name=a\r\n\r\n\r\n--xyz\r\nContent-Disposition: form-data; name=b; filename=\"f;g\"\r\nContent-Type: image/png; q=1\r\n\r\n--xy\r\n--xyz--epilogue";
    let mut parts = empty_parts();
    assert_eq!(parse_multipart(body, b"xyz", &mut parts), Ok(2));
    assert_eq!(parts[0].name, b"a");
    assert_eq!(parts[0].filename, None);
    assert_eq!(parts[0].content_type, b"text/plain");
    assert_eq!(parts[0].body, b"");
    assert_eq!(parts[1].name, b"b");
    assert_eq!(parts[1].filename, Some(&b"f;g"[..]));
    assert_eq!(parts[1].content_type, b"image/png");
    assert_eq!(parts[1].body, b"--xy");
    assert_eq!(parts[2].body, b"");
}

#[test]
fn parameters_start_at_a_boundary() {
    let a = b"form-data; filename=\"f.txt\"; name=\"n\"";
    let b = b"form-data; name=\"n\"; filename=\"f.txt\"";
    for hv in [&a[..], &b[..]] {
        assert_eq!(param(hv, b"name"), Some(&b"n"[..]));
        assert_eq!(param(hv, b"filename"), Some(&b"f.txt"[..]));
    }
    assert_eq!(param(b"form-data; filename=\"only\"", b"name"), None);
    assert_eq!(param(b"x; NAME = spaced ; y", b"name"), Some(&b"spaced"[..]));
    assert_eq!(param(b"name=\"open", b"name"), None);
    assert_eq!(param(b"name; name=second", b"name"), Some(&b"second"[..]));
    assert_eq!(param(b"name=", b"name"), Some(&b""[..]));
    assert_eq!(param(b"na", b"name"), None);
}

#[test]
fn parameters_are_not_read_out_of_quotes() {
    let hv = b"form-data; filename=\"a; name=b\"; name=\"c\"";
    assert_eq!(param(hv, b"name"), Some(&b"c"[..]));
    assert_eq!(param(hv, b"filename"), Some(&b"a; name=b"[..]));
    assert_eq!(param(b"form-data; filename=\"a; name=b\"", b"name"), None);
    assert_eq!(param(b"form-data; filename=\"a; name=b", b"name"), None);
    assert_eq!(param(b"x; a=\"\"; name=d", b"name"), Some(&b"d"[..]));
    let (name, filename, _) =
        parse_part_headers(b"Content-Disposition: form-data; filename=\"x; name=y\"; name=z");
    assert_eq!(name, b"z");
    assert_eq!(filename, Some(&b"x; name=y"[..]));
}

#[test]
fn stray_quotes_hide_nothing() {
    assert_eq!(param(b"filename=\"a\\\"b\"; name=c", b"name"), Some(&b"c"[..]));
    assert_eq!(param(b"filename=\"a\\\"b\"; name=c", b"filename"), Some(&b"a\\"[..]));
    assert_eq!(param(b"x=a\"b; name=c", b"name"), Some(&b"c"[..]));
    assert_eq!(param(b"x=a\"b; name=c", b"x"), Some(&b"a\"b"[..]));
    assert_eq!(param(b"x=a=\"b; name=c", b"name"), Some(&b"c"[..]));
    assert_eq!(param(b"\"x; name=c", b"name"), Some(&b"c"[..]));
    assert_eq!(param(b"x\"=\"b; name=c", b"name"), Some(&b"c"[..]));
    assert_eq!(param(b"=\"b; name=c", b"name"), Some(&b"c"[..]));
}

#[test]
fn blanks_may_stand_before_a_quoted_value() {
    assert_eq!(param(b"x = \t\"a; name=b\"; name=c", b"name"), Some(&b"c"[..]));
    assert_eq!(param(b"y;x =\"a; name=b", b"name"), None);
    assert_eq!(param(b"y= x=\"a; name=b\" name=c", b"name"), Some(&b"c"[..]));
}

#[test]
fn boundaries_are_not_read_out_of_quotes() {
    let head = "POST /upload HTTP/1.1\r\nContent-Type: multipart/form-data; note=\"x; boundary=no\"; boundary=yes\r\n\r\n";
    assert_eq!(multipart_boundary(&upload(head, b"")), Some(&b"yes"[..]));
    let none = "POST /upload HTTP/1.1\r\nContent-Type: multipart/form-data; note=\"x; boundary=no\"\r\n\r\n";
    assert_eq!(multipart_boundary(&upload(none, b"")), None);
}

#[test]
fn truncated_forms_are_refused() {
    let body = b"--B\r\nA: b\r\n\r\none\r\n--B\r\n\r\n\r\ntwo\r\n--B--";
    let kind = "multipart/form-data; boundary=B";
    assert_eq!(summary(kind, body).0, Ok(()));
    for n in 0..body.len() {
        assert_eq!(summary(kind, &body[..n]), (Err(400), "malformed multipart body\n".to_string()));
    }
}

#[test]
fn part_heads() {
    let (name, filename, ctype) = parse_part_headers(b"X: y\r\nno colon\r\nCONTENT-TYPE: a/b ; c=d\r\nContent-Disposition: form-data; name=n");
    assert_eq!(name, b"n");
    assert_eq!(filename, None);
    assert_eq!(ctype, b"a/b");
    let (name, _, ctype) = parse_part_headers(b"");
    assert_eq!(name, b"");
    assert_eq!(ctype, b"text/plain");
}

#[test]
fn boundaries() {
    let head = "POST /upload HTTP/1.1\r\nContent-Type: Multipart/Form-Data; boundary=\"a b\"\r\n\r\n";
    assert_eq!(multipart_boundary(&upload(head, b"")), Some(&b"a b"[..]));
    let none = "POST /upload HTTP/1.1\r\n\r\n";
    assert_eq!(multipart_boundary(&upload(none, b"")), None);
}
