use octo_telnet::http::{
    build_response, build_ws_upgrade_response, mime_type, parse_request, request_total_len,
};

const UPGRADE: &[u8] = b"GET /ws HTTP/1.1\r\nHost: example\r\nUpgrade: WebSocket\r\nConnection: keep-alive, Upgrade\r\nSec-WebSocket-Key: dGhlIHNhbXBsZSBub25jZQ==\r\n\r\n";

#[test]
fn parse_incomplete_request() {
    assert!(matches!(parse_request(b"GET / HTTP/1.1\r\nHost: x\r\n"), Ok(None)));
    assert!(matches!(parse_request(b""), Ok(None)));
    assert_eq!(request_total_len(b"GET / HTTP/1.1\r\n"), None);
}

#[test]
fn parse_upgrade_request() {
    let req = match parse_request(UPGRADE) {
        Ok(Some(r)) => r,
        _ => panic!("expected a request"),
    };
    assert_eq!(req.method, "GET");
    assert_eq!(req.path, "/ws");
    assert_eq!(req.headers.get("host").map(|v| v.as_str()), Some("example"));
    assert_eq!(req.headers.get("Host"), None);
    assert!(req.is_websocket_upgrade());
    assert_eq!(req.ws_key(), Some("dGhlIHNhbXBsZSBub25jZQ=="));
    assert_eq!(request_total_len(UPGRADE), Some(UPGRADE.len()));
}

#[test]
fn plain_get_is_not_upgrade() {
    let req = match parse_request(b"GET /style.css HTTP/1.1\r\nHost: h\r\n\r\n") {
        Ok(Some(r)) => r,
        _ => panic!("expected a request"),
    };
    assert_eq!(req.path, "/style.css");
    assert!(!req.is_websocket_upgrade());
    assert_eq!(req.ws_key(), None);
    let req = match parse_request(b"GET / HTTP/1.1\r\nUpgrade: websocket\r\nConnection: close\r\n\r\n") {
        Ok(Some(r)) => r,
        _ => panic!("expected a request"),
    };
    assert!(!req.is_websocket_upgrade());
}

#[test]
fn header_names_trimmed_lowercased_and_last_wins() {
    let req = match parse_request(b"POST /x HTTP/1.1\r\n  X-Thing :  one  \r\nx-thing: two\r\nnocolon\r\n\r\nbody") {
        Ok(Some(r)) => r,
        _ => panic!("expected a request"),
    };
    assert_eq!(req.method, "POST");
    assert_eq!(req.headers.get("x-thing").map(|v| v.as_str()), Some("two"));
    assert_eq!(req.headers.get("nocolon"), None);
}

#[test]
fn parse_errors() {
    match parse_request(b"\r\n\r\n") {
        Err(e) => assert_eq!(e, "Empty request"),
        _ => panic!("expected an error"),
    }
    match parse_request(b"GET /\r\n\r\n") {
        Err(e) => assert_eq!(e, "Malformed request line: GET /"),
        _ => panic!("expected an error"),
    }
    match parse_request(b"GET \xff HTTP/1.1\r\n\r\n") {
        Err(e) => {
            assert!(e.starts_with("Invalid UTF-8 in headers: "));
            assert_eq!(e, format!("Invalid UTF-8 in headers: {}", std::str::from_utf8(b"GET \xff HTTP/1.1").unwrap_err()));
        }
        _ => panic!("expected an error"),
    }
}

#[test]
fn request_is_stable_under_more_bytes() {
    let mut buf = UPGRADE.to_vec();
    buf.extend_from_slice(&[0x81, 0x85, 1, 2, 3]);
    let req = match parse_request(&buf) {
        Ok(Some(r)) => r,
        _ => panic!("expected a request"),
    };
    assert_eq!(req.path, "/ws");
    assert_eq!(request_total_len(&buf), Some(UPGRADE.len()));
}

#[test]
fn response_bytes() {
    let out = build_response(200, "OK", &[("Content-Type", "text/plain"), ("X", "y")], b"hello");
    assert_eq!(
        out,
        b"HTTP/1.1 200 OK\r\nContent-Type: text/plain\r\nX: y\r\nContent-Length: 5\r\n\r\nhello".to_vec()
    );
    let out = build_response(404, "Not Found", &[], b"");
    assert_eq!(out, b"HTTP/1.1 404 Not Found\r\nContent-Length: 0\r\n\r\n".to_vec());
}

#[test]
fn upgrade_response_bytes() {
    let out = build_ws_upgrade_response("s3pPLMBiTxaQ9kYGzzhZRbK+xOo=");
    assert_eq!(
        String::from_utf8(out).unwrap(),
        "HTTP/1.1 101 Switching Protocols\r\nUpgrade: websocket\r\nConnection: Upgrade\r\nSec-WebSocket-Accept: s3pPLMBiTxaQ9kYGzzhZRbK+xOo=\r\n\r\n"
    );
}

#[test]
fn mime_types() {
    assert_eq!(mime_type("/index.html"), "text/html; charset=utf-8");
    assert_eq!(mime_type("/a/b.HTM"), "text/html; charset=utf-8");
    assert_eq!(mime_type("style.css"), "text/css; charset=utf-8");
    assert_eq!(mime_type("app.js"), "application/javascript; charset=utf-8");
    assert_eq!(mime_type("x.json"), "application/json; charset=utf-8");
    assert_eq!(mime_type("x.PNG"), "image/png");
    assert_eq!(mime_type("x.jpg"), "image/jpeg");
    assert_eq!(mime_type("x.jpeg"), "image/jpeg");
    assert_eq!(mime_type("x.svg"), "image/svg+xml");
    assert_eq!(mime_type("favicon.ico"), "image/x-icon");
    assert_eq!(mime_type("archive.tar.gz"), "application/octet-stream");
    assert_eq!(mime_type("html"), "application/octet-stream");
    assert_eq!(mime_type("css"), "application/octet-stream");
    assert_eq!(mime_type(".css"), "text/css; charset=utf-8");
    assert_eq!(mime_type("noext"), "application/octet-stream");
    assert_eq!(mime_type("dir.html/"), "application/octet-stream");
}
