use octo_telnet::base64::encode;

#[test]
fn test_encode_known_vectors() {
    // RFC 4648 test vectors
    assert_eq!(encode(b""), "");
    assert_eq!(encode(b"f"), "Zg==");
    assert_eq!(encode(b"fo"), "Zm8=");
    assert_eq!(encode(b"foo"), "Zm9v");
    assert_eq!(encode(b"foob"), "Zm9vYg==");
    assert_eq!(encode(b"fooba"), "Zm9vYmE=");
    assert_eq!(encode(b"foobar"), "Zm9vYmFy");
}

#[test]
fn encode_uses_plus_and_slash() {
    assert_eq!(encode(&[0xFB, 0xFF, 0xBF]), "+/+/");
    assert_eq!(encode(&[0x00, 0x00, 0x00]), "AAAA");
    assert_eq!(encode(&[0xFF]), "/w==");
}

#[test]
fn encode_length_is_four_per_started_group() {
    for n in 0..40usize {
        let input: Vec<u8> = (0..n).map(|i| (i * 37 % 256) as u8).collect();
        assert_eq!(encode(&input).len(), 4 * ((n + 2) / 3));
    }
}

#[test]
fn encode_of_whole_groups_concatenates() {
    let a = b"abcdef";
    let b = b"xyz12";
    let mut ab = a.to_vec();
    ab.extend_from_slice(b);
    assert_eq!(encode(&ab), format!("{}{}", encode(a), encode(b)));
}

#[test]
fn encode_padding_only_at_end() {
    let out = encode(b"hello world");
    assert_eq!(out, "aGVsbG8gd29ybGQ=");
    assert!(!out[..out.len() - 1].contains('='));
}
