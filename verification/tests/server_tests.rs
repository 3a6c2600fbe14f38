use http_lolo::cgi::{cgi_env_name, cgi_finish, cgi_parse_output, cgi_query_string};
use http_lolo::reactor::{HttpServer, Handler, ReadAction, ServerCore, WriteAction};
use http_lolo::request::Request;
use http_lolo::response_writer::ResponseWriter;
use http_lolo::status::HttpStatus;
use http_lolo::text::{parse_usize, push_dec, trim, trim_quotes};

enum TestHandler {
    Plain,
    One,
    Two,
}

impl Handler for TestHandler {
    fn handle(&self, _req: &mut Request, resp: &mut ResponseWriter) {
        match self {
            TestHandler::Plain => resp.write_string("ok"),
            TestHandler::One => resp.write_string("one"),
            TestHandler::Two => resp.write_string("two"),
        }
    }
}

fn contains(haystack: &[u8], needle: &[u8]) -> bool {
    haystack.windows(needle.len()).any(|w| w == needle)
}

fn count(haystack: &[u8], needle: &[u8]) -> usize {
    haystack.windows(needle.len()).filter(|w| *w == needle).count()
}

#[test]
fn status_codes_round_trip() {
    assert_eq!(HttpStatus::from_code(404).code(), 404);
    assert_eq!(HttpStatus::from_code(404).reason_phrase(), "Not Found");
    assert_eq!(HttpStatus::from_code(200).reason_phrase(), "OK");
    assert_eq!(HttpStatus::from_code(405).reason_phrase(), "Method Not Allowed");
    assert_eq!(HttpStatus::from_code(777).code(), 777);
    assert_eq!(HttpStatus::from_code(777).reason_phrase(), "Unknown");
}

#[test]
fn decimal_parsing() {
    assert_eq!(parse_usize(b"123"), Some(123));
    assert_eq!(parse_usize(b"+7"), Some(7));
    assert_eq!(parse_usize(b"0"), Some(0));
    assert_eq!(parse_usize(b""), None);
    assert_eq!(parse_usize(b"+"), None);
    assert_eq!(parse_usize(b"12a"), None);
    assert_eq!(parse_usize(b"99999999999999999999999999999"), None);
}

#[test]
fn decimal_rendering() {
    let mut buf = Vec::new();
    push_dec(&mut buf, 404);
    assert_eq!(buf, b"404");
    let mut buf = Vec::new();
    push_dec(&mut buf, 0);
    assert_eq!(buf, b"0");
    let mut buf = Vec::new();
    push_dec(&mut buf, 65535);
    assert_eq!(buf, b"65535");
}

#[test]
fn trimming() {
    assert_eq!(trim(b"  a b \t"), &b"a b"[..]);
    assert_eq!(trim(b"\r\n x \r\n"), &b"x"[..]);
    assert_eq!(trim(b""), &b""[..]);
    assert_eq!(trim(b"   "), &b""[..]);
    assert_eq!(trim_quotes(b"\"abc\""), &b"abc"[..]);
    assert_eq!(trim_quotes(b"abc"), &b"abc"[..]);
    assert_eq!(trim_quotes(b"\"\"ab\""), &b"ab"[..]);
}

#[test]
fn response_round_trip_404() {
    let mut w = ResponseWriter::new(7);
    w.set_status(404);
    w.write_string("Not Found");
    let snap = w.take_pending().expect("finalized");
    let bytes = snap.render();
    assert!(bytes.starts_with(b"HTTP/1.1 404 Not Found\r\n"));
    assert!(!contains(&bytes, b"Content-Length"));
    assert!(!contains(&bytes, b"Transfer-Encoding"));
    assert!(bytes.ends_with(b"\r\n\r\nNot Found"));
}

#[test]
fn cookies_never_collapse() {
    let mut w = ResponseWriter::new(1);
    w.set_cookie("a", "1");
    w.set_cookie("b", "2");
    w.write_string("");
    let bytes = w.take_pending().unwrap().render();
    assert_eq!(count(&bytes, b"Set-Cookie: a=1\r\n"), 1);
    assert_eq!(count(&bytes, b"Set-Cookie: b=2\r\n"), 1);
    assert_eq!(count(&bytes, b"Set-Cookie"), 2);
}

#[test]
fn cookie_attributes() {
    let mut w = ResponseWriter::new(1);
    w.set_cookie_with_attributes(
        "user",
        "jd",
        &[("Path", Some("/")), ("HttpOnly", None), ("Max-Age", Some("3600"))],
    );
    w.write_string("");
    let bytes = w.take_pending().unwrap().render();
    assert!(contains(&bytes, b"Set-Cookie: user=jd; Path=/; HttpOnly; Max-Age=3600\r\n"));
}

#[test]
fn json_body_and_headers() {
    let mut v = json::JsonValue::new_object();
    v.insert("k", "v").unwrap();
    let mut w = ResponseWriter::new(1);
    w.write_json(v);
    let bytes = w.take_pending().unwrap().render();
    assert!(contains(&bytes, b"Content-Type: application/json\r\n"));
    assert!(bytes.ends_with(b"\r\n\r\n{\"k\":\"v\"}"));

    let mut hs = json::JsonValue::new_object();
    hs.insert("X-One", "1").unwrap();
    hs.insert("X-Two", "2").unwrap();
    let mut w = ResponseWriter::new(1);
    w.set_headers(hs);
    w.write_string("done");
    let bytes = w.take_pending().unwrap().render();
    assert!(contains(&bytes, b"X-One: 1\r\n"));
    assert!(contains(&bytes, b"X-Two: 2\r\n"));
}

#[test]
fn html_page() {
    let mut w = ResponseWriter::new(1);
    w.write_html("<h1>hi</h1>");
    let bytes = w.take_pending().unwrap().render();
    assert!(contains(&bytes, b"Content-Type: text/html\r\n"));
    assert!(bytes.ends_with(b"\r\n\r\n<h1>hi</h1>"));
}

#[test]
fn request_parses_head_and_cookies() {
    let mut r = Request::new(3, 1);
    let done = r.read_cb(b"GET /x?q=1 HTTP/1.1\r\nHost: h\r\nCookie: a=1; b=2\r\n\r\n");
    assert!(done);
    assert!(r.header_done);
    assert_eq!(r.method, b"GET");
    assert_eq!(r.path, b"/x?q=1");
    assert_eq!(r.protocol, b"HTTP/1.1");
    assert_eq!(r.cookies, vec![(b"a".to_vec(), b"1".to_vec()), (b"b".to_vec(), b"2".to_vec())]);
}

#[test]
fn fragmented_reads_parse_like_one() {
    let wire = b"GET / HTTP/1.1\r\nHost: x\r\nContent-Length: 2\r\n\r\nhi";
    let mut all = Request::new(0, 1);
    let done_all = all.read_cb(wire);
    let mut frag = Request::new(0, 1);
    let mut done_frag = false;
    for b in wire.iter() {
        done_frag = frag.read_cb(&[*b]);
    }
    assert!(done_all && done_frag);
    assert_eq!(all.method, frag.method);
    assert_eq!(all.path, frag.path);
    assert_eq!(all.headers, frag.headers);
    assert_eq!(all.body, frag.body);
    assert_eq!(all.body, b"hi");
}

#[test]
fn content_length_defaults_to_zero() {
    let mut r = Request::new(0, 1);
    r.read_cb(b"GET / HTTP/1.1\r\nContent-Length: abc\r\n\r\n");
    assert_eq!(r.content_length(), 0);
    let mut r2 = Request::new(0, 1);
    r2.read_cb(b"GET / HTTP/1.1\r\nHost: x\r\n\r\n");
    assert_eq!(r2.content_length(), 0);
}

#[test]
fn multipart_one_file_field() {
    let body: &[u8] =
        b"--XBOUND\r\nContent-Disposition: form-data; name=\"f\"\r\n\r\nhello\r\n--XBOUND--\r\n";
    let head = format!(
        "POST /upload HTTP/1.1\r\nHost: x\r\nContent-Type: multipart/form-data; boundary=XBOUND\r\nContent-Length: {}\r\n\r\n",
        body.len()
    );
    let mut wire = head.into_bytes();
    wire.extend_from_slice(body);
    let mut r = Request::new(0, 1);
    let done = r.read_cb(&wire);
    assert!(done);
    let fields = r.parse_multipart().expect("form data");
    assert_eq!(fields.len(), 1);
    assert_eq!(fields[0].0, b"f");
    assert_eq!(fields[0].1, b"hello");
}

#[test]
fn multipart_quoted_boundary() {
    let body: &[u8] =
        b"--QB\r\nContent-Disposition: form-data; name=\"n\"\r\n\r\nv\r\n--QB--\r\n";
    let head = format!(
        "POST /u HTTP/1.1\r\nContent-Type: multipart/form-data; boundary=\"QB\"\r\nContent-Length: {}\r\n\r\n",
        body.len()
    );
    let mut wire = head.into_bytes();
    wire.extend_from_slice(body);
    let mut r = Request::new(0, 1);
    r.read_cb(&wire);
    let fields = r.parse_multipart().expect("form data");
    assert_eq!(fields[0].0, b"n");
    assert_eq!(fields[0].1, b"v");
}

#[test]
fn multipart_without_boundary_is_none() {
    let mut r = Request::new(0, 1);
    r.read_cb(b"POST /u HTTP/1.1\r\nContent-Type: text/plain\r\n\r\n");
    assert!(r.parse_multipart().is_none());
}

fn drive(core: &mut ServerCore<TestHandler>, server: &HttpServer, wire: &[u8]) -> Vec<u8> {
    let id = core.accepted(server.server_id, 50).expect("accepted");
    let action = core.on_readable(id, wire);
    assert_eq!(action, ReadAction::Dispatched(50));
    match core.on_writable(id) {
        WriteAction::Close { fd, bytes } => {
            assert_eq!(fd, 50);
            bytes.expect("a finalized response")
        }
        WriteAction::Ignored => panic!("connection was live"),
    }
}

#[test]
fn end_to_end_get_ok() {
    let mut core: ServerCore<TestHandler> = ServerCore::new();
    let server = HttpServer::new(&mut core);
    server.handle_route(&mut core, "/", TestHandler::Plain);
    assert!(server.listen_on(&mut core, 10));
    let bytes = drive(&mut core, &server, b"GET / HTTP/1.1\r\nHost: x\r\n\r\n");
    assert_eq!(bytes, b"HTTP/1.1 200 OK\r\n\r\nok");
    assert!(core.requests.is_empty());
    assert!(core.writes.is_empty());
}

#[test]
fn unmatched_route_is_404_with_teardown() {
    let mut core: ServerCore<TestHandler> = ServerCore::new();
    let server = HttpServer::new(&mut core);
    server.handle_route(&mut core, "/", TestHandler::Plain);
    assert!(server.listen_on(&mut core, 11));
    let bytes = drive(&mut core, &server, b"GET /missing HTTP/1.1\r\nHost: x\r\n\r\n");
    assert_eq!(bytes, b"HTTP/1.1 404 Not Found\r\n\r\nNot Found");
    assert!(core.requests.is_empty());
    assert!(core.writes.is_empty());
}

#[test]
fn route_match_is_exact() {
    let mut core: ServerCore<TestHandler> = ServerCore::new();
    let s1 = HttpServer::new(&mut core);
    let s2 = HttpServer::new(&mut core);
    s1.handle_route(&mut core, "/a", TestHandler::One);
    assert!(s1.listen_on(&mut core, 12));
    assert!(s2.listen_on(&mut core, 13));
    // `/a` on the other server does not match.
    let bytes = drive(&mut core, &s2, b"GET /a HTTP/1.1\r\nHost: x\r\n\r\n");
    assert_eq!(bytes, b"HTTP/1.1 404 Not Found\r\n\r\nNot Found");
    // `/a/` on the registering server does not match either.
    let bytes = drive(&mut core, &s1, b"GET /a/ HTTP/1.1\r\nHost: x\r\n\r\n");
    assert_eq!(bytes, b"HTTP/1.1 404 Not Found\r\n\r\nNot Found");
    // The exact pair does.
    let bytes = drive(&mut core, &s1, b"GET /a HTTP/1.1\r\nHost: x\r\n\r\n");
    assert_eq!(bytes, b"HTTP/1.1 200 OK\r\n\r\none");
}

#[test]
fn same_path_two_servers() {
    let mut core: ServerCore<TestHandler> = ServerCore::new();
    let s1 = HttpServer::new(&mut core);
    let s2 = HttpServer::new(&mut core);
    s1.handle_route(&mut core, "/", TestHandler::One);
    s2.handle_route(&mut core, "/", TestHandler::Two);
    assert!(s1.listen_on(&mut core, 14));
    assert!(s2.listen_on(&mut core, 15));
    let bytes = drive(&mut core, &s1, b"GET / HTTP/1.1\r\nHost: x\r\n\r\n");
    assert_eq!(bytes, b"HTTP/1.1 200 OK\r\n\r\none");
    let bytes = drive(&mut core, &s2, b"GET / HTTP/1.1\r\nHost: x\r\n\r\n");
    assert_eq!(bytes, b"HTTP/1.1 200 OK\r\n\r\ntwo");
}

#[test]
fn dispatch_happens_once() {
    let mut core: ServerCore<TestHandler> = ServerCore::new();
    let server = HttpServer::new(&mut core);
    server.handle_route(&mut core, "/", TestHandler::Plain);
    assert!(server.listen_on(&mut core, 16));
    let id = core.accepted(server.server_id, 60).unwrap();
    // One-byte fragments: still exactly one dispatch.
    let wire = b"GET / HTTP/1.1\r\nHost: x\r\n\r\n";
    let mut dispatched = 0;
    for b in wire.iter() {
        match core.on_readable(id, &[*b]) {
            ReadAction::Dispatched(_) => dispatched += 1,
            ReadAction::KeepReading(_) => {}
            ReadAction::Ignored => panic!("live connection was ignored"),
        }
    }
    assert_eq!(dispatched, 1);
    // A stray readable event after dispatch is ignored.
    assert_eq!(core.on_readable(id, b"junk"), ReadAction::Ignored);
    match core.on_writable(id) {
        WriteAction::Close { bytes, .. } => {
            assert_eq!(bytes.unwrap(), b"HTTP/1.1 200 OK\r\n\r\nok");
        }
        WriteAction::Ignored => panic!("connection was live"),
    }
    // Its lifecycle ended: later events for the identifier are dropped.
    assert_eq!(core.on_readable(id, b"x"), ReadAction::Ignored);
    assert!(matches!(core.on_writable(id), WriteAction::Ignored));
}

#[test]
fn last_registration_wins() {
    let mut core: ServerCore<TestHandler> = ServerCore::new();
    let server = HttpServer::new(&mut core);
    server.handle_route(&mut core, "/", TestHandler::One);
    server.handle_route(&mut core, "/", TestHandler::Two);
    assert!(server.listen_on(&mut core, 17));
    let bytes = drive(&mut core, &server, b"GET / HTTP/1.1\r\nHost: x\r\n\r\n");
    assert_eq!(bytes, b"HTTP/1.1 200 OK\r\n\r\ntwo");
}

#[test]
fn cgi_environment() {
    assert_eq!(cgi_env_name(b"Content-Type"), b"HTTP_CONTENT_TYPE");
    assert_eq!(cgi_env_name(b"X-My-Header"), b"HTTP_X_MY_HEADER");
    assert_eq!(cgi_query_string(b"/p?x=1&y=2"), b"x=1&y=2");
    assert_eq!(cgi_query_string(b"/p"), b"");
}

#[test]
fn cgi_output_split_and_finish() {
    let output = b"Content-Type: text/html\r\nX-N: 1\r\n\r\nline one\nline two";
    let (rows, body) = cgi_parse_output(output);
    assert_eq!(rows.len(), 2);
    assert_eq!(rows[0], (b"Content-Type".to_vec(), b"text/html".to_vec()));
    assert_eq!(rows[1], (b"X-N".to_vec(), b"1".to_vec()));
    assert_eq!(body, b"line one\nline two\n");

    let mut w = ResponseWriter::new(1);
    cgi_finish(&mut w, rows, body, true);
    let bytes = w.take_pending().unwrap().render();
    assert!(bytes.starts_with(b"HTTP/1.1 200 OK\r\n"));
    assert!(contains(&bytes, b"Content-Type: text/html\r\n"));
    assert!(bytes.ends_with(b"\r\n\r\nline one\nline two\n"));
}

#[test]
fn cgi_failure_maps_to_404() {
    let (rows, body) = cgi_parse_output(b"X: 1\r\n\r\noops");
    let mut w = ResponseWriter::new(1);
    cgi_finish(&mut w, rows, body, false);
    let bytes = w.take_pending().unwrap().render();
    assert!(bytes.starts_with(b"HTTP/1.1 404 Not Found\r\n"));
    assert!(bytes.ends_with(b"\r\n\r\nNot Found"));
}

#[test]
fn unknown_event_identifiers_are_dropped() {
    let mut core: ServerCore<TestHandler> = ServerCore::new();
    assert_eq!(core.on_readable(9999, b"x"), ReadAction::Ignored);
    assert!(matches!(core.on_writable(9999), WriteAction::Ignored));
    assert!(core.accepted(9999, 1).is_none());
}
