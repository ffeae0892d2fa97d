use octo_telnet::telnet::{
    TelnetParser, DO, DONT, IAC, NOP, OPT_ECHO, OPT_NAWS, OPT_SGA, OPT_STATUS, OPT_TTYPE, SB, SE,
    TTYPE_IS, TTYPE_SEND, WILL, WONT,
};

const TERMINAL_TYPE: &[u8] = b"VT100";

#[test]
fn test_plain_data_passthrough() {
    let mut parser = TelnetParser::new();
    let output = parser.process(b"Hello, World!");
    assert_eq!(output.data, b"Hello, World!");
    assert!(output.responses.is_empty());
}

#[test]
fn test_iac_escape() {
    let mut parser = TelnetParser::new();
    let output = parser.process(&[0x41, IAC, IAC, 0x42]);
    assert_eq!(output.data, &[0x41, 0xFF, 0x42]);
}

#[test]
fn test_will_echo_negotiation() {
    let mut parser = TelnetParser::new();
    let output = parser.process(&[IAC, WILL, OPT_ECHO]);
    assert!(output.data.is_empty());
    assert_eq!(output.responses, &[IAC, DO, OPT_ECHO]);
}

#[test]
fn test_do_ttype_negotiation() {
    let mut parser = TelnetParser::new();
    let output = parser.process(&[IAC, DO, OPT_TTYPE]);
    assert!(output.data.is_empty());
    assert_eq!(output.responses, &[IAC, WILL, OPT_TTYPE]);
}

#[test]
fn test_subnegotiation_ttype() {
    let mut parser = TelnetParser::new();
    let output = parser.process(&[IAC, SB, OPT_TTYPE, TTYPE_SEND, IAC, SE]);
    assert!(output.data.is_empty());
    let mut expected = vec![IAC, SB, OPT_TTYPE, TTYPE_IS];
    expected.extend_from_slice(TERMINAL_TYPE);
    expected.extend_from_slice(&[IAC, SE]);
    assert_eq!(output.responses, expected);
}

#[test]
fn test_mixed_data_and_commands() {
    let mut parser = TelnetParser::new();
    let mut input = Vec::new();
    input.extend_from_slice(b"Welcome");
    input.extend_from_slice(&[IAC, WILL, OPT_ECHO]);
    input.extend_from_slice(b" to BBS");
    let output = parser.process(&input);
    assert_eq!(output.data, b"Welcome to BBS");
    assert_eq!(output.responses, &[IAC, DO, OPT_ECHO]);
}

#[test]
fn refusals_and_acceptances() {
    let mut parser = TelnetParser::new();
    let out = parser.process(&[IAC, WILL, OPT_STATUS, IAC, DO, OPT_NAWS, IAC, DO, OPT_STATUS]);
    assert_eq!(out.responses, &[IAC, DONT, OPT_STATUS, IAC, WILL, OPT_NAWS, IAC, WONT, OPT_STATUS]);
    let out = parser.process(&[IAC, WONT, OPT_SGA, IAC, DONT, OPT_ECHO]);
    assert_eq!(out.responses, &[IAC, DONT, OPT_SGA, IAC, WONT, OPT_ECHO]);
    assert!(out.data.is_empty());
}

#[test]
fn commands_without_option_are_dropped() {
    let mut parser = TelnetParser::new();
    let out = parser.process(&[b'a', IAC, NOP, b'b', IAC, 0x10, b'c']);
    assert_eq!(out.data, b"abc");
    assert!(out.responses.is_empty());
}

#[test]
fn command_split_across_chunks() {
    // The chunking law on concrete values: one call or two calls agree.
    let input = [b'x', IAC, WILL, OPT_ECHO, b'y', IAC, SB, OPT_TTYPE, TTYPE_SEND, IAC, SE, b'z'];
    let mut whole = TelnetParser::new();
    let all = whole.process(&input);
    for cut in 0..=input.len() {
        let mut parser = TelnetParser::new();
        let first = parser.process(&input[..cut]);
        let second = parser.process(&input[cut..]);
        let mut data = first.data.clone();
        data.extend_from_slice(&second.data);
        let mut responses = first.responses.clone();
        responses.extend_from_slice(&second.responses);
        assert_eq!(data, all.data);
        assert_eq!(responses, all.responses);
    }
    assert_eq!(all.data, b"xyz");
}

#[test]
fn subnegotiation_data_is_swallowed() {
    let mut parser = TelnetParser::new();
    let out = parser.process(&[IAC, SB, OPT_NAWS, 0, 80, IAC, IAC, 24, IAC, SE, b'!']);
    assert_eq!(out.data, b"!");
    assert!(out.responses.is_empty());
}

#[test]
fn reset_forgets_half_command() {
    let mut parser = TelnetParser::new();
    let out = parser.process(&[IAC]);
    assert!(out.data.is_empty());
    parser.reset();
    let out = parser.process(&[WILL]);
    assert_eq!(out.data, &[WILL]);
    let mut fresh = TelnetParser::default();
    assert_eq!(fresh.process(b"ok").data, b"ok");
}
