use octo_telnet::proxy::{
    connect_failure_error, connect_failure_frames, error_response, normalize_telnet_addr, not_found_response,
    on_client_frame, on_server_bytes, route_static, target_address, upgrade_response,
    asset_response, ClientAction, FrameReader, RequestReader, StaticAsset,
};
use octo_telnet::http::parse_request;
use octo_telnet::telnet::{TelnetParser, DO, IAC, OPT_ECHO, WILL};
use octo_telnet::websocket::{write_close_frame, write_frame, Opcode, WsFrame};

#[test]
fn telnet_addresses() {
    assert_eq!(normalize_telnet_addr("bbs.example.org"), "bbs.example.org:23");
    assert_eq!(normalize_telnet_addr("  bbs.example.org:2323 "), "bbs.example.org:2323");
    assert_eq!(normalize_telnet_addr("telnet://bbs.example.org"), "bbs.example.org:23");
    assert_eq!(normalize_telnet_addr(" telnet:// host:99"), "host:99");
    assert_eq!(normalize_telnet_addr("telnet:/x"), "telnet:/x");
    assert_eq!(normalize_telnet_addr(""), ":23");
    assert_eq!(normalize_telnet_addr("\u{3000}host\u{a0}\u{85}"), "host:23");
    assert_eq!(normalize_telnet_addr("ho st"), "ho st:23");
}

#[test]
fn target_from_first_frame() {
    assert_eq!(target_address(b" telnet://ptt.cc \n"), Ok("ptt.cc:23".to_string()));
    match target_address(b"\xc3\x28") {
        Err(e) => assert!(e.starts_with("Invalid UTF-8 in target address: ")),
        _ => panic!("expected an error"),
    }
}

#[test]
fn static_routes() {
    assert_eq!(route_static("/"), Some(StaticAsset::Index));
    assert_eq!(route_static("/index.html"), Some(StaticAsset::Index));
    assert_eq!(route_static("/style.css"), Some(StaticAsset::Style));
    assert_eq!(route_static("/app.js"), Some(StaticAsset::Script));
    assert_eq!(route_static("/secret"), None);
    assert_eq!(route_static("/app.js?x"), None);
}

#[test]
fn canned_responses() {
    assert_eq!(
        not_found_response(),
        b"HTTP/1.1 404 Not Found\r\nContent-Type: text/plain; charset=utf-8\r\nContent-Length: 13\r\n\r\n404 Not Found".to_vec()
    );
    assert_eq!(
        error_response(400, "Bad Request", "oops"),
        b"HTTP/1.1 400 Bad Request\r\nContent-Type: text/plain; charset=utf-8\r\nContent-Length: 17\r\n\r\nBad Request: oops".to_vec()
    );
    assert_eq!(
        asset_response(StaticAsset::Style, b"a{}"),
        b"HTTP/1.1 200 OK\r\nContent-Type: text/css; charset=utf-8\r\nCache-Control: no-cache\r\nContent-Length: 3\r\n\r\na{}".to_vec()
    );
}

#[test]
fn request_reader_hands_on_leftover() {
    let mut r = RequestReader::new();
    assert!(matches!(r.poll(), Ok(None)));
    assert_eq!(r.feed(b"GET /ws HTTP/1.1\r\nSec-WebSocket-Key: k\r\n"), Ok(()));
    assert!(matches!(r.poll(), Ok(None)));
    assert_eq!(r.feed(b"\r\n\x81\x00"), Ok(()));
    match r.poll() {
        Ok(Some((req, leftover))) => {
            assert_eq!(req.path, "/ws");
            assert_eq!(leftover, vec![0x81, 0x00]);
        }
        _ => panic!("expected a request"),
    }
    assert_eq!(r.feed(b""), Err("Connection closed before complete request".to_string()));
}

#[test]
fn request_reader_limit() {
    let mut r = RequestReader::new();
    let chunk = vec![b'a'; 40000];
    assert_eq!(r.feed(&chunk), Ok(()));
    assert_eq!(r.feed(&chunk), Err("HTTP request headers too large".to_string()));
}

#[test]
fn frame_reader_takes_frames_in_order() {
    let mut buf = vec![0x81, 0x85, 0x37, 0xfa, 0x21, 0x3d, 0x7f, 0x9f, 0x4d, 0x51, 0x58];
    buf.extend_from_slice(&[0x82, 0x01]);
    let mut r = FrameReader::new(buf);
    assert!(r.size_fits());
    match r.next_frame() {
        Ok(Some(f)) => assert_eq!(f.payload, b"Hello"),
        _ => panic!("expected a frame"),
    }
    assert!(matches!(r.next_frame(), Ok(None)));
    assert_eq!(r.feed(&[0x07]), Ok(()));
    match r.next_frame() {
        Ok(Some(f)) => {
            assert_eq!(f.opcode, Opcode::Binary);
            assert_eq!(f.payload, vec![0x07]);
        }
        _ => panic!("expected a frame"),
    }
    assert_eq!(r.feed(&[]), Err("WebSocket connection closed".to_string()));
    assert_eq!(r.feed(&write_close_frame(Some(1000))), Ok(()));
    match r.next_frame() {
        Err(e) => assert_eq!(e, "WebSocket closed by peer"),
        _ => panic!("expected an error"),
    }
    assert_eq!(r.into_buf(), write_close_frame(Some(1000)));
}

#[test]
fn frame_reader_oversized_length() {
    let r = FrameReader::new(vec![0x82, 127, 0xFF, 0xFF, 0xFF, 0xFF, 0xFF, 0xFF, 0xFF, 0xFF]);
    assert!(!r.size_fits());
    let mut r = FrameReader::new(vec![0x83, 127, 0xFF, 0xFF, 0xFF, 0xFF, 0xFF, 0xFF, 0xFF, 0xFF]);
    assert!(r.size_fits());
    match r.next_frame() {
        Err(e) => assert_eq!(e, "Invalid opcode: 0x3"),
        _ => panic!("expected an error"),
    }
}

#[test]
fn connect_failure_error_text() {
    assert_eq!(connect_failure_error("h:23", "refused"), "Failed to connect to h:23: refused");
}

#[test]
fn server_bytes_relay() {
    let mut parser = TelnetParser::new();
    let step = on_server_bytes(&mut parser, &[b'h', b'i', IAC, WILL, OPT_ECHO]);
    assert!(!step.finished);
    assert_eq!(step.to_server, Some(vec![IAC, DO, OPT_ECHO]));
    assert_eq!(step.to_browser, Some(write_frame(Opcode::Binary, b"hi")));
    let step = on_server_bytes(&mut parser, &[IAC]);
    assert_eq!(step.to_server, None);
    assert_eq!(step.to_browser, None);
    let step = on_server_bytes(&mut parser, &[]);
    assert!(step.finished);
    assert_eq!(step.to_browser, Some(write_close_frame(Some(1000))));
}

#[test]
fn client_frame_actions() {
    let frame = |opcode, payload: &[u8]| WsFrame { fin: true, opcode, payload: payload.to_vec() };
    assert!(matches!(on_client_frame(frame(Opcode::Text, b"ls\r")), ClientAction::Forward(ref b) if b == b"ls\r"));
    assert!(matches!(on_client_frame(frame(Opcode::Binary, b"\x03")), ClientAction::Forward(ref b) if b == b"\x03"));
    match on_client_frame(frame(Opcode::Ping, b"pp")) {
        ClientAction::Reply(f) => assert_eq!(f, write_frame(Opcode::Pong, b"pp")),
        _ => panic!("expected a reply"),
    }
    assert!(matches!(on_client_frame(frame(Opcode::Close, b"")), ClientAction::Stop));
    assert!(matches!(on_client_frame(frame(Opcode::Pong, b"")), ClientAction::Ignore));
    assert!(matches!(on_client_frame(frame(Opcode::Continuation, b"x")), ClientAction::Ignore));
}

#[test]
fn connect_failure() {
    let (text, close) = connect_failure_frames("h:23", "refused");
    let msg = "\r\n\r\n*** Failed to connect to h:23 ***\r\n\r\nError: refused\r\n";
    assert_eq!(text, write_frame(Opcode::Text, msg.as_bytes()));
    assert_eq!(close, write_close_frame(Some(1011)));
}

#[test]
fn upgrade_handshake() {
    let req = match parse_request(b"GET /ws HTTP/1.1\r\nSec-WebSocket-Key: dGhlIHNhbXBsZSBub25jZQ==\r\n\r\n") {
        Ok(Some(r)) => r,
        _ => panic!("expected a request"),
    };
    let resp = upgrade_response(&req).unwrap();
    assert!(String::from_utf8(resp).unwrap().contains("Sec-WebSocket-Accept: s3pPLMBiTxaQ9kYGzzhZRbK+xOo=\r\n"));
    let req = match parse_request(b"GET /ws HTTP/1.1\r\n\r\n") {
        Ok(Some(r)) => r,
        _ => panic!("expected a request"),
    };
    assert_eq!(upgrade_response(&req), Err("Missing Sec-WebSocket-Key header".to_string()));
}
