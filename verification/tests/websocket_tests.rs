use octo_telnet::websocket::{
    compute_accept_key, frame_len, read_frame, write_binary_frame, write_close_frame,
    write_frame, write_ping_frame, write_pong_frame, write_text_frame, Opcode, ReadResult,
};

#[test]
fn accept_key_rfc6455_example() {
    assert_eq!(
        compute_accept_key("dGhlIHNhbXBsZSBub25jZQ=="),
        "s3pPLMBiTxaQ9kYGzzhZRbK+xOo="
    );
}

#[test]
fn read_unmasked_text_frame() {
    let buf = [0x81, 0x05, 0x48, 0x65, 0x6c, 0x6c, 0x6f];
    match read_frame(&buf) {
        Ok(ReadResult::Frame(f)) => {
            assert!(f.fin);
            assert_eq!(f.opcode, Opcode::Text);
            assert_eq!(f.payload, b"Hello");
        }
        _ => panic!("expected a frame"),
    }
    assert_eq!(frame_len(&buf), Ok(7));
}

#[test]
fn read_masked_text_frame() {
    // RFC 6455 section 5.7: a masked "Hello".
    let buf = [0x81, 0x85, 0x37, 0xfa, 0x21, 0x3d, 0x7f, 0x9f, 0x4d, 0x51, 0x58];
    match read_frame(&buf) {
        Ok(ReadResult::Frame(f)) => {
            assert!(f.fin);
            assert_eq!(f.opcode, Opcode::Text);
            assert_eq!(f.payload, b"Hello");
        }
        _ => panic!("expected a frame"),
    }
    assert_eq!(frame_len(&buf), Ok(11));
}

#[test]
fn read_fragment_not_final() {
    let buf = [0x01, 0x03, 0x48, 0x65, 0x6c];
    match read_frame(&buf) {
        Ok(ReadResult::Frame(f)) => {
            assert!(!f.fin);
            assert_eq!(f.opcode, Opcode::Text);
            assert_eq!(f.payload, b"Hel");
        }
        _ => panic!("expected a frame"),
    }
}

#[test]
fn read_needs_more() {
    assert!(matches!(read_frame(&[]), Ok(ReadResult::NeedMore)));
    assert!(matches!(read_frame(&[0x81]), Ok(ReadResult::NeedMore)));
    assert!(matches!(read_frame(&[0x81, 0x05, 0x48]), Ok(ReadResult::NeedMore)));
    assert!(matches!(read_frame(&[0x82, 126, 0x01]), Ok(ReadResult::NeedMore)));
    assert!(matches!(read_frame(&[0x82, 127, 0, 0, 0]), Ok(ReadResult::NeedMore)));
    assert!(matches!(read_frame(&[0x81, 0x85, 0x37, 0xfa]), Ok(ReadResult::NeedMore)));
}

#[test]
fn read_invalid_opcode() {
    match read_frame(&[0x83, 0x00]) {
        Err(e) => assert_eq!(e, "Invalid opcode: 0x3"),
        _ => panic!("expected an error"),
    }
    match read_frame(&[0x83, 0x7F, 0xFF, 0xFF, 0xFF, 0xFF, 0xFF, 0xFF, 0xFF, 0xFF]) {
        Err(e) => assert_eq!(e, "Invalid opcode: 0x3"),
        _ => panic!("expected an error"),
    }
    match read_frame(&[0x84, 0x05]) {
        Err(e) => assert_eq!(e, "Invalid opcode: 0x4"),
        _ => panic!("expected an error"),
    }
    match read_frame(&[0x8F, 0x00]) {
        Err(e) => assert_eq!(e, "Invalid opcode: 0xf"),
        _ => panic!("expected an error"),
    }
}

#[test]
fn read_close_frames() {
    assert!(matches!(read_frame(&[0x88, 0x02, 0x03, 0xE8]), Ok(ReadResult::Closed(Some(1000)))));
    assert!(matches!(read_frame(&[0x88, 0x00]), Ok(ReadResult::Closed(None))));
    assert!(matches!(read_frame(&[0x88, 0x01, 0x03]), Ok(ReadResult::Closed(None))));
}

#[test]
fn frame_len_errors() {
    assert_eq!(frame_len(&[0x81]), Err("Buffer too short".to_string()));
    assert_eq!(frame_len(&[0x81, 126, 0]), Err("Incomplete extended length".to_string()));
    assert_eq!(frame_len(&[0x81, 127, 0, 0]), Err("Incomplete extended length".to_string()));
    assert_eq!(frame_len(&[0x81, 126, 0x01, 0x00]), Ok(4 + 256));
    assert_eq!(frame_len(&[0x81, 0xFE, 0x01, 0x00]), Ok(8 + 256));
}

#[test]
fn write_length_forms() {
    let small = write_frame(Opcode::Binary, &[1, 2, 3]);
    assert_eq!(small, vec![0x82, 3, 1, 2, 3]);
    let p125 = vec![9u8; 125];
    assert_eq!(&write_frame(Opcode::Binary, &p125)[..2], &[0x82, 125]);
    let p126 = vec![9u8; 126];
    assert_eq!(&write_frame(Opcode::Binary, &p126)[..4], &[0x82, 126, 0, 126]);
    let p65535 = vec![9u8; 65535];
    assert_eq!(&write_frame(Opcode::Binary, &p65535)[..4], &[0x82, 126, 0xFF, 0xFF]);
    let p65536 = vec![9u8; 65536];
    assert_eq!(
        &write_frame(Opcode::Binary, &p65536)[..10],
        &[0x82, 127, 0, 0, 0, 0, 0, 1, 0, 0]
    );
}

#[test]
fn write_then_read_roundtrip() {
    for n in [0usize, 1, 125, 126, 300, 65535, 65536, 70000] {
        let payload: Vec<u8> = (0..n).map(|i| (i % 251) as u8).collect();
        for op in [Opcode::Text, Opcode::Binary, Opcode::Ping, Opcode::Pong, Opcode::Continuation] {
            let frame = write_frame(op, &payload);
            assert_eq!(frame_len(&frame), Ok(frame.len()));
            match read_frame(&frame) {
                Ok(ReadResult::Frame(f)) => {
                    assert!(f.fin);
                    assert_eq!(f.opcode, op);
                    assert_eq!(f.payload, payload);
                }
                _ => panic!("expected a frame"),
            }
            if !frame.is_empty() {
                assert!(matches!(read_frame(&frame[..frame.len() - 1]), Ok(ReadResult::NeedMore)));
            }
        }
    }
}

#[test]
fn write_helpers() {
    assert_eq!(write_text_frame("hi"), vec![0x81, 2, b'h', b'i']);
    assert_eq!(write_binary_frame(b"x"), vec![0x82, 1, b'x']);
    assert_eq!(write_ping_frame(b"p"), vec![0x89, 1, b'p']);
    assert_eq!(write_pong_frame(b"p"), vec![0x8A, 1, b'p']);
    assert_eq!(write_close_frame(Some(1000)), vec![0x88, 0x02, 0x03, 0xE8]);
    assert_eq!(write_close_frame(Some(1011)), vec![0x88, 0x02, 0x03, 0xF3]);
    assert_eq!(write_close_frame(None), vec![0x88, 0x00]);
    assert!(matches!(
        read_frame(&write_close_frame(Some(1011))),
        Ok(ReadResult::Closed(Some(1011)))
    ));
}

#[test]
fn frame_followed_by_more_bytes() {
    let mut buf = write_frame(Opcode::Text, b"first");
    buf.extend_from_slice(&write_frame(Opcode::Binary, b"second"));
    match read_frame(&buf) {
        Ok(ReadResult::Frame(f)) => assert_eq!(f.payload, b"first"),
        _ => panic!("expected a frame"),
    }
    assert_eq!(frame_len(&buf), Ok(7));
    assert!(matches!(read_frame(&buf[..7]), Ok(ReadResult::Frame(ref f)) if f.payload == b"first"));
}

#[test]
fn opcode_numbers() {
    assert_eq!(Opcode::Continuation.to_u8(), 0);
    assert_eq!(Opcode::Close.to_u8(), 8);
    assert_eq!(Opcode::Pong.to_u8(), 10);
}
