//! WebSocket protocol (RFC 6455): frame parser, encoder, and handshake.

use vstd::prelude::*;
use vstd::string::StringSliceAdditionalSpecFns;

use crate::bytes::{
    append_bytes, be_bytes, be_decode, be_encode, be_value, copy_range, lemma_be_bytes_len,
    lemma_be_roundtrip, lemma_pow256_facts,
};
use crate::text::{hex_digit, hex_digit_char, push_char};
use crate::base64::{encode, spec_encode};
use crate::sha1::{sha1, spec_sha1};

verus! {

/// The GUID that RFC 6455 appends to the client's key.
pub const WS_GUID: &'static str = "258EAFA5-E914-47DA-95CA-C5AB0DC85B11";

/// The `Sec-WebSocket-Accept` value for a client key: the Base64 encoding
/// of the SHA-1 digest of the key followed by the GUID.
pub open spec fn accept_key(client_key: Seq<u8>) -> Seq<char> {
    spec_encode(spec_sha1(client_key + WS_GUID.spec_bytes()))
}

proof fn lemma_guid_len()
    ensures
        WS_GUID.spec_bytes().len() == 36,
{
    broadcast use vstd::string::is_ascii_spec_bytes;

    reveal_strlit("258EAFA5-E914-47DA-95CA-C5AB0DC85B11");
    assert(WS_GUID@.len() == 36);
    assert(vstd::string::is_ascii(WS_GUID));
}

/// Compute the Sec-WebSocket-Accept value from the client's key.
pub fn compute_accept_key(client_key: &str) -> (key: String)
    requires
        client_key.spec_bytes().len() + 108 <= usize::MAX,
    ensures
        key@ == accept_key(client_key.spec_bytes()),
{
    let mut combined: Vec<u8> = Vec::new();
    append_bytes(&mut combined, client_key.as_bytes());
    let guid = WS_GUID.as_bytes();
    proof {
        lemma_guid_len();
    }
    append_bytes(&mut combined, guid);
    let hash = sha1(combined.as_slice());
    encode(hash.as_slice())
}

/// The opcode in the low four bits of a frame's first byte.
#[derive(Debug, Clone, Copy, PartialEq, Eq, Structural)]
pub enum Opcode {
    Continuation,
    Text,
    Binary,
    Close,
    Ping,
    Pong,
}

/// The number that stands for an opcode on the wire.
pub open spec fn opcode_byte(op: Opcode) -> u8 {
    match op {
        Opcode::Continuation => 0x0,
        Opcode::Text => 0x1,
        Opcode::Binary => 0x2,
        Opcode::Close => 0x8,
        Opcode::Ping => 0x9,
        Opcode::Pong => 0xA,
    }
}

/// The opcode that a number stands for, if any.
pub open spec fn opcode_of(val: u8) -> Option<Opcode> {
    if val == 0x0 {
        Some(Opcode::Continuation)
    } else if val == 0x1 {
        Some(Opcode::Text)
    } else if val == 0x2 {
        Some(Opcode::Binary)
    } else if val == 0x8 {
        Some(Opcode::Close)
    } else if val == 0x9 {
        Some(Opcode::Ping)
    } else if val == 0xA {
        Some(Opcode::Pong)
    } else {
        None
    }
}

impl Opcode {
    fn from_u8(val: u8) -> (res: Option<Self>)
        ensures
            res == opcode_of(val),
    {
        if val == 0x0 {
            Some(Opcode::Continuation)
        } else if val == 0x1 {
            Some(Opcode::Text)
        } else if val == 0x2 {
            Some(Opcode::Binary)
        } else if val == 0x8 {
            Some(Opcode::Close)
        } else if val == 0x9 {
            Some(Opcode::Ping)
        } else if val == 0xA {
            Some(Opcode::Pong)
        } else {
            None
        }
    }

    /// The number that stands for this opcode on the wire.
    pub fn to_u8(self) -> (b: u8)
        ensures
            b == opcode_byte(self),
    {
        match self {
            Opcode::Continuation => 0x0,
            Opcode::Text => 0x1,
            Opcode::Binary => 0x2,
            Opcode::Close => 0x8,
            Opcode::Ping => 0x9,
            Opcode::Pong => 0xA,
        }
    }
}

/// A data or control frame, unmasked.
pub struct WsFrame {
    pub fin: bool,
    pub opcode: Opcode,
    pub payload: Vec<u8>,
}

/// The outcome of trying to read one frame from the front of a buffer.
pub enum ReadResult {
    Frame(WsFrame),
    NeedMore,
    Closed(Option<u16>),
}

/// What a [`ReadResult`] stands for.
pub ghost enum FrameView {
    Frame { fin: bool, opcode: Opcode, payload: Seq<u8> },
    NeedMore,
    Closed(Option<u16>),
}

impl View for WsFrame {
    type V = (bool, Opcode, Seq<u8>);

    open spec fn view(&self) -> (bool, Opcode, Seq<u8>) {
        (self.fin, self.opcode, self.payload@)
    }
}

impl View for ReadResult {
    type V = FrameView;

    open spec fn view(&self) -> FrameView {
        match self {
            ReadResult::Frame(f) => FrameView::Frame {
                fin: f.fin,
                opcode: f.opcode,
                payload: f.payload@,
            },
            ReadResult::NeedMore => FrameView::NeedMore,
            ReadResult::Closed(c) => FrameView::Closed(*c),
        }
    }
}

// ---------------------------------------------------------------------------
// The frame header, read from the front of a buffer of at least two bytes.
// ---------------------------------------------------------------------------

/// The seven-bit length field of the second byte.
pub open spec fn len7(buf: Seq<u8>) -> u8 {
    buf[1] & 0x7F
}

/// Whether the mask bit of the second byte is set.
pub open spec fn is_masked(buf: Seq<u8>) -> bool {
    buf[1] & 0x80 != 0
}

/// How many extended length bytes follow the second byte: 0, 2 or 8.
pub open spec fn ext_len_bytes(buf: Seq<u8>) -> int {
    if len7(buf) <= 125 {
        0
    } else if len7(buf) == 126 {
        2
    } else {
        8
    }
}

/// Whether the buffer holds the whole length field.
pub open spec fn length_complete(buf: Seq<u8>) -> bool {
    buf.len() >= 2 + ext_len_bytes(buf)
}

/// The payload length that the header declares.
pub open spec fn declared_len(buf: Seq<u8>) -> nat {
    if len7(buf) <= 125 {
        len7(buf) as nat
    } else {
        be_value(buf.subrange(2, 2 + ext_len_bytes(buf)))
    }
}

/// The header length: two bytes, the extended length and the mask key.
pub open spec fn header_len(buf: Seq<u8>) -> int {
    2 + ext_len_bytes(buf) + if is_masked(buf) {
        4int
    } else {
        0int
    }
}

/// The number of bytes of the whole frame, header included.
pub open spec fn frame_total(buf: Seq<u8>) -> int {
    header_len(buf) + declared_len(buf)
}

/// The frame that the buffer starts with declares a size that an address
/// can hold (always so for a buffer that does not yet hold its length field).
pub open spec fn declared_size_fits(buf: Seq<u8>) -> bool {
    buf.len() >= 2 && length_complete(buf) ==> frame_total(buf) <= usize::MAX
}

/// What reading a frame needs: a frame with a known opcode declares a size
/// that fits (an unknown opcode is refused before its length is read).
pub open spec fn frame_readable(buf: Seq<u8>) -> bool {
    (buf.len() >= 2 && opcode_of(buf[0] & 0x0F) is Some) ==> declared_size_fits(buf)
}

/// `raw` with each byte XORed with the mask key byte at its position modulo 4.
pub open spec fn unmask(raw: Seq<u8>, key: Seq<u8>) -> Seq<u8> {
    Seq::new(raw.len(), |i: int| raw[i] ^ key[i % 4])
}

/// The payload of a complete frame, unmasked where the mask bit is set.
pub open spec fn frame_payload(buf: Seq<u8>) -> Seq<u8> {
    let raw = buf.subrange(header_len(buf), frame_total(buf));
    if is_masked(buf) {
        unmask(raw, buf.subrange(2 + ext_len_bytes(buf), 2 + ext_len_bytes(buf) + 4))
    } else {
        raw
    }
}

/// The status code that a close payload carries in its first two bytes.
pub open spec fn close_code(payload: Seq<u8>) -> Option<u16> {
    if payload.len() >= 2 {
        Some((payload[0] as int * 256 + payload[1] as int) as u16)
    } else {
        None
    }
}

/// What reading a frame from the front of `buf` gives: a frame, a close
/// (with its status code), a request for more bytes, or the unknown opcode
/// number that makes the buffer invalid.
pub open spec fn parse_frame(buf: Seq<u8>) -> Result<FrameView, u8> {
    if buf.len() < 2 {
        Ok(FrameView::NeedMore)
    } else {
        match opcode_of(buf[0] & 0x0F) {
            None => Err(buf[0] & 0x0F),
            Some(op) => if !length_complete(buf) || buf.len() < frame_total(buf) {
                Ok(FrameView::NeedMore)
            } else if op == Opcode::Close {
                Ok(FrameView::Closed(close_code(frame_payload(buf))))
            } else {
                Ok(
                    FrameView::Frame {
                        fin: buf[0] & 0x80 != 0,
                        opcode: op,
                        payload: frame_payload(buf),
                    },
                )
            },
        }
    }
}

/// The message for an unknown opcode: `Invalid opcode: 0x` and its hex digit.
pub open spec fn invalid_opcode_message(val: u8) -> Seq<char> {
    "Invalid opcode: 0x"@.push(hex_digit(val))
}

fn invalid_opcode_error(val: u8) -> (msg: String)
    requires
        val < 16,
    ensures
        msg@ == invalid_opcode_message(val),
{
    let mut msg = String::from_str("Invalid opcode: 0x");
    push_char(&mut msg, hex_digit_char(val));
    msg
}

/// Whether the frame at the front of `buf` declares a size that fits.
pub fn frame_size_fits(buf: &[u8]) -> (res: bool)
    ensures
        res == declared_size_fits(buf@),
{
    if buf.len() < 2 {
        return true;
    }
    let b1 = buf[1];
    let masked = (b1 & 0x80) != 0;
    let payload_len = b1 & 0x7F;
    assert(b1 & 0x7F <= 127) by (bit_vector);
    let extended_len_bytes: usize;
    let actual_len: u64;
    if payload_len <= 125 {
        extended_len_bytes = 0;
        actual_len = payload_len as u64;
    } else if payload_len == 126 {
        if buf.len() < 4 {
            return true;
        }
        extended_len_bytes = 2;
        actual_len = be_decode(buf, 2, 2);
    } else {
        if buf.len() < 10 {
            return true;
        }
        extended_len_bytes = 8;
        actual_len = be_decode(buf, 2, 8);
    }
    let header: usize = 2 + extended_len_bytes + if masked {
        4
    } else {
        0
    };
    actual_len <= (usize::MAX - header) as u64
}

/// Whether a frame can be read from the front of `buf` (see [`frame_readable`]).
pub fn frame_is_readable(buf: &[u8]) -> (res: bool)
    ensures
        res == frame_readable(buf@),
{
    if buf.len() >= 2 {
        let op = buf[0] & 0x0F;
        if Opcode::from_u8(op).is_none() {
            return true;
        }
    }
    frame_size_fits(buf)
}

/// Attempt to parse a WebSocket frame from the beginning of a buffer.
pub fn read_frame(buf: &[u8]) -> (res: Result<ReadResult, String>)
    requires
        frame_readable(buf@),
    ensures
        match parse_frame(buf@) {
            Ok(v) => res matches Ok(r) && r@ == v,
            Err(op) => res matches Err(e) && e@ == invalid_opcode_message(op),
        },
{
    if buf.len() < 2 {
        return Ok(ReadResult::NeedMore);
    }
    let b0 = buf[0];
    let b1 = buf[1];
    let fin = (b0 & 0x80) != 0;
    let opcode_val = b0 & 0x0F;
    assert(b0 & 0x0F < 16) by (bit_vector);
    let opcode = match Opcode::from_u8(opcode_val) {
        Some(op) => op,
        None => {
            return Err(invalid_opcode_error(opcode_val));
        },
    };
    let masked = (b1 & 0x80) != 0;
    let payload_len = b1 & 0x7F;
    assert(b1 & 0x7F <= 127) by (bit_vector);
    let extended_len_bytes: usize;
    let actual_len: usize;
    if payload_len <= 125 {
        extended_len_bytes = 0;
        actual_len = payload_len as usize;
    } else if payload_len == 126 {
        if buf.len() < 4 {
            return Ok(ReadResult::NeedMore);
        }
        extended_len_bytes = 2;
        actual_len = be_decode(buf, 2, 2) as usize;
    } else {
        if buf.len() < 10 {
            return Ok(ReadResult::NeedMore);
        }
        extended_len_bytes = 8;
        actual_len = be_decode(buf, 2, 8) as usize;
    }
    assert(actual_len == declared_len(buf@));
    let mask_len: usize = if masked {
        4
    } else {
        0
    };
    let header_len = 2 + extended_len_bytes + mask_len;
    let total_len = header_len + actual_len;
    if buf.len() < total_len {
        return Ok(ReadResult::NeedMore);
    }
    let payload: Vec<u8> = if masked {
        let key_start = 2 + extended_len_bytes;
        let ghost key = buf@.subrange(key_start as int, key_start + 4);
        let ghost raw = buf@.subrange(header_len as int, total_len as int);
        let mut data: Vec<u8> = Vec::new();
        let mut i: usize = 0;
        while i < actual_len
            invariant
                i <= actual_len,
                header_len + actual_len == total_len <= buf@.len(),
                key_start + 4 == header_len,
                key == buf@.subrange(key_start as int, key_start + 4),
                raw == buf@.subrange(header_len as int, total_len as int),
                data@ == unmask(raw, key).subrange(0, i as int),
            decreases actual_len - i,
        {
            data.push(buf[header_len + i] ^ buf[key_start + i % 4]);
            i = i + 1;
            assert(data@ =~= unmask(raw, key).subrange(0, i as int));
        }
        assert(data@ =~= unmask(raw, key));
        data
    } else {
        copy_range(buf, header_len, total_len)
    };
    if opcode == Opcode::Close {
        let status_code = if payload.len() >= 2 {
            Some((payload[0] as u16) * 256 + payload[1] as u16)
        } else {
            None
        };
        return Ok(ReadResult::Closed(status_code));
    }
    Ok(ReadResult::Frame(WsFrame { fin, opcode, payload }))
}

/// Get the number of bytes consumed by the frame at the beginning of buf.
pub fn frame_len(buf: &[u8]) -> (res: Result<usize, String>)
    requires
        declared_size_fits(buf@),
    ensures
        buf@.len() < 2 ==> (res matches Err(e) && e@ == "Buffer too short"@),
        buf@.len() >= 2 && !length_complete(buf@) ==> (res matches Err(e) && e@
            == "Incomplete extended length"@),
        buf@.len() >= 2 && length_complete(buf@) ==> res == Ok::<usize, String>(
            frame_total(buf@) as usize,
        ),
{
    if buf.len() < 2 {
        return Err(String::from_str("Buffer too short"));
    }
    let b1 = buf[1];
    let masked = (b1 & 0x80) != 0;
    let payload_len = b1 & 0x7F;
    assert(b1 & 0x7F <= 127) by (bit_vector);
    let extended_len_bytes: usize;
    let actual_len: usize;
    if payload_len <= 125 {
        extended_len_bytes = 0;
        actual_len = payload_len as usize;
    } else if payload_len == 126 {
        if buf.len() < 4 {
            return Err(String::from_str("Incomplete extended length"));
        }
        extended_len_bytes = 2;
        actual_len = be_decode(buf, 2, 2) as usize;
    } else {
        if buf.len() < 10 {
            return Err(String::from_str("Incomplete extended length"));
        }
        extended_len_bytes = 8;
        actual_len = be_decode(buf, 2, 8) as usize;
    }
    let mask_len: usize = if masked {
        4
    } else {
        0
    };
    Ok(2 + extended_len_bytes + mask_len + actual_len)
}

/// The length field of a server frame carrying `n` payload bytes: the
/// seven-bit form up to 125, then 126 and two bytes up to 65535, else 127
/// and eight bytes.
pub open spec fn length_field(n: nat) -> Seq<u8> {
    if n <= 125 {
        seq![n as u8]
    } else if n <= 65535 {
        seq![126u8] + be_bytes(n, 2)
    } else {
        seq![127u8] + be_bytes(n, 8)
    }
}

/// A final, unmasked frame with the given opcode and payload.
pub open spec fn encode_frame(op: Opcode, payload: Seq<u8>) -> Seq<u8> {
    seq![0x80u8 | opcode_byte(op)] + length_field(payload.len()) + payload
}

/// Encode a WebSocket frame for server-to-client transmission (no masking).
pub fn write_frame(opcode: Opcode, payload: &[u8]) -> (frame: Vec<u8>)
    requires
        payload@.len() + 14 <= usize::MAX,
    ensures
        frame@ == encode_frame(opcode, payload@),
{
    let mut frame: Vec<u8> = Vec::new();
    let first_byte = 0x80 | opcode.to_u8();
    frame.push(first_byte);
    let n = payload.len();
    if n <= 125 {
        frame.push(n as u8);
    } else if n <= 65535 {
        frame.push(126);
        let ext = be_encode(n as u64, 2);
        append_bytes(&mut frame, ext.as_slice());
    } else {
        frame.push(127);
        let ext = be_encode(n as u64, 8);
        append_bytes(&mut frame, ext.as_slice());
    }
    append_bytes(&mut frame, payload);
    assert(frame@ =~= encode_frame(opcode, payload@));
    frame
}

pub fn write_text_frame(text: &str) -> (frame: Vec<u8>)
    requires
        text.spec_bytes().len() + 14 <= usize::MAX,
    ensures
        frame@ == encode_frame(Opcode::Text, text.spec_bytes()),
{
    write_frame(Opcode::Text, text.as_bytes())
}

pub fn write_binary_frame(data: &[u8]) -> (frame: Vec<u8>)
    requires
        data@.len() + 14 <= usize::MAX,
    ensures
        frame@ == encode_frame(Opcode::Binary, data@),
{
    write_frame(Opcode::Binary, data)
}

pub fn write_ping_frame(data: &[u8]) -> (frame: Vec<u8>)
    requires
        data@.len() + 14 <= usize::MAX,
    ensures
        frame@ == encode_frame(Opcode::Ping, data@),
{
    write_frame(Opcode::Ping, data)
}

pub fn write_pong_frame(data: &[u8]) -> (frame: Vec<u8>)
    requires
        data@.len() + 14 <= usize::MAX,
    ensures
        frame@ == encode_frame(Opcode::Pong, data@),
{
    write_frame(Opcode::Pong, data)
}

/// The payload of a close frame: the status code in two bytes, or nothing.
pub open spec fn close_payload(status_code: Option<u16>) -> Seq<u8> {
    match status_code {
        Some(code) => be_bytes(code as nat, 2),
        None => Seq::empty(),
    }
}

/// Encode a close frame with optional status code.
pub fn write_close_frame(status_code: Option<u16>) -> (frame: Vec<u8>)
    ensures
        frame@ == encode_frame(Opcode::Close, close_payload(status_code)),
{
    let mut payload: Vec<u8> = Vec::new();
    if let Some(code) = status_code {
        payload = be_encode(code as u64, 2);
    }
    proof {
        if let Some(code) = status_code {
            lemma_be_bytes_len(code as nat, 2);
        }
    }
    write_frame(Opcode::Close, payload.as_slice())
}

} // verus!

verus! {

proof fn lemma_first_byte(op: Opcode)
    ensures
        (0x80u8 | opcode_byte(op)) & 0x0F == opcode_byte(op),
        (0x80u8 | opcode_byte(op)) & 0x80 != 0,
        opcode_of(opcode_byte(op)) == Some(op),
{
    let b = opcode_byte(op);
    assert(b <= 0x0F);
    assert(b <= 0x0F ==> (0x80u8 | b) & 0x0F == b && (0x80u8 | b) & 0x80 != 0) by (bit_vector);
}

proof fn lemma_second_byte(v: u8)
    requires
        v <= 127,
    ensures
        v & 0x7F == v,
        v & 0x80 == 0,
{
    assert(v <= 127 ==> v & 0x7F == v && v & 0x80 == 0) by (bit_vector);
}

/// The header facts of a frame that `encode_frame` wrote.
proof fn lemma_encoded_header(op: Opcode, payload: Seq<u8>)
    requires
        payload.len() + 14 <= usize::MAX,
    ensures
        ({
            let f = encode_frame(op, payload);
            &&& f.len() >= 2
            &&& f[0] & 0x0F == opcode_byte(op)
            &&& f[0] & 0x80 != 0
            &&& !is_masked(f)
            &&& length_complete(f)
            &&& declared_len(f) == payload.len()
            &&& header_len(f) == 1 + length_field(payload.len()).len()
            &&& frame_total(f) == f.len()
            &&& frame_payload(f) == payload
        }),
{
    let n = payload.len();
    let f = encode_frame(op, payload);
    let lf = length_field(n);
    lemma_first_byte(op);
    lemma_pow256_facts();
    if n <= 125 {
        lemma_second_byte(n as u8);
        assert(f[1] == n as u8);
    } else if n <= 65535 {
        lemma_second_byte(126);
        lemma_be_bytes_len(n, 2);
        lemma_be_roundtrip(n, 2);
        assert(f.subrange(2, 4) =~= be_bytes(n, 2));
        assert(f[1] == 126u8);
    } else {
        lemma_second_byte(127);
        lemma_be_bytes_len(n, 8);
        lemma_be_roundtrip(n, 8);
        assert(f.subrange(2, 10) =~= be_bytes(n, 8));
        assert(f[1] == 127u8);
    }
    assert(f.subrange(header_len(f), frame_total(f)) =~= payload);
}

/// Reading back what `write_frame` wrote gives the frame that was written:
/// a final frame with the same opcode and payload, or, for a close frame,
/// the status code in its payload. The frame is exactly as long as what
/// `frame_len` reports.
pub proof fn lemma_write_read_roundtrip(op: Opcode, payload: Seq<u8>)
    requires
        payload.len() + 14 <= usize::MAX,
    ensures
        declared_size_fits(encode_frame(op, payload)),
        length_complete(encode_frame(op, payload)),
        frame_total(encode_frame(op, payload)) == encode_frame(op, payload).len(),
        parse_frame(encode_frame(op, payload)) == if op == Opcode::Close {
            Ok::<FrameView, u8>(FrameView::Closed(close_code(payload)))
        } else {
            Ok::<FrameView, u8>(FrameView::Frame { fin: true, opcode: op, payload: payload })
        },
{
    lemma_encoded_header(op, payload);
    lemma_first_byte(op);
}

/// A close frame written with a status code is read back with that code.
pub proof fn lemma_close_roundtrip(status_code: Option<u16>)
    ensures
        parse_frame(encode_frame(Opcode::Close, close_payload(status_code)))
            == Ok::<FrameView, u8>(FrameView::Closed(status_code)),
{
    let p = close_payload(status_code);
    if let Some(code) = status_code {
        lemma_be_bytes_len(code as nat, 2);
        lemma_be_roundtrip(code as nat, 2);
        lemma_pow256_facts();
        reveal_with_fuel(be_value, 3);
        assert(p.drop_last() =~= seq![p[0]]);
        assert(seq![p[0]].drop_last() =~= Seq::<u8>::empty());
    }
    lemma_write_read_roundtrip(Opcode::Close, p);
}

/// Bytes after a complete frame do not change what is read: a frame (or a
/// close) at the front of a buffer is read the same whatever follows it.
pub proof fn lemma_parse_frame_extend(buf: Seq<u8>, extra: Seq<u8>)
    requires
        parse_frame(buf) matches Ok(v) && !(v is NeedMore),
    ensures
        parse_frame(buf + extra) == parse_frame(buf),
        declared_size_fits(buf) ==> declared_size_fits(buf + extra),
{
    let b2 = buf + extra;
    assert(b2[0] == buf[0] && b2[1] == buf[1]);
    assert(b2.subrange(2, 2 + ext_len_bytes(buf)) =~= buf.subrange(2, 2 + ext_len_bytes(buf)));
    assert(b2.subrange(header_len(buf), frame_total(buf)) =~= buf.subrange(
        header_len(buf),
        frame_total(buf),
    ));
    if is_masked(buf) {
        assert(b2.subrange(2 + ext_len_bytes(buf), 2 + ext_len_bytes(buf) + 4) =~= buf.subrange(
            2 + ext_len_bytes(buf),
            2 + ext_len_bytes(buf) + 4,
        ));
    }
}

/// Every strict prefix of a written frame asks for more bytes.
pub proof fn lemma_frame_prefix_needs_more(op: Opcode, payload: Seq<u8>, k: int)
    requires
        payload.len() + 14 <= usize::MAX,
        0 <= k < encode_frame(op, payload).len(),
    ensures
        parse_frame(encode_frame(op, payload).take(k)) == Ok::<FrameView, u8>(FrameView::NeedMore),
{
    let f = encode_frame(op, payload);
    let p = f.take(k);
    lemma_encoded_header(op, payload);
    if k >= 2 {
        assert(p[0] == f[0] && p[1] == f[1]);
        lemma_first_byte(op);
        if length_complete(p) {
            assert(p.subrange(2, 2 + ext_len_bytes(p)) =~= f.subrange(2, 2 + ext_len_bytes(f)));
        }
    }
}

/// Masking twice with the same key gives back the payload.
pub proof fn lemma_unmask_involution(payload: Seq<u8>, key: Seq<u8>)
    requires
        key.len() == 4,
    ensures
        unmask(unmask(payload, key), key) == payload,
{
    assert forall|i: int| 0 <= i < payload.len() implies #[trigger] unmask(
        unmask(payload, key),
        key,
    )[i] == payload[i] by {
        let a = payload[i];
        let b = key[i % 4];
        assert((a ^ b) ^ b == a) by (bit_vector);
    }
    assert(unmask(unmask(payload, key), key) =~= payload);
}

/// A final frame as a browser sends it: the mask bit set, the key after the
/// length, and the payload masked with the key.
pub open spec fn encode_masked_frame(op: Opcode, payload: Seq<u8>, key: Seq<u8>) -> Seq<u8> {
    let lf = length_field(payload.len());
    seq![0x80u8 | opcode_byte(op)] + seq![lf[0] | 0x80u8] + lf.drop_first() + key + unmask(
        payload,
        key,
    )
}

/// Reading a masked frame gives back the payload before masking.
pub proof fn lemma_masked_roundtrip(op: Opcode, payload: Seq<u8>, key: Seq<u8>)
    requires
        payload.len() + 14 <= usize::MAX,
        key.len() == 4,
    ensures
        declared_size_fits(encode_masked_frame(op, payload, key)),
        frame_total(encode_masked_frame(op, payload, key)) == encode_masked_frame(
            op,
            payload,
            key,
        ).len(),
        parse_frame(encode_masked_frame(op, payload, key)) == if op == Opcode::Close {
            Ok::<FrameView, u8>(FrameView::Closed(close_code(payload)))
        } else {
            Ok::<FrameView, u8>(FrameView::Frame { fin: true, opcode: op, payload: payload })
        },
{
    let n = payload.len();
    let f = encode_masked_frame(op, payload, key);
    let lf = length_field(n);
    lemma_first_byte(op);
    lemma_pow256_facts();
    let v = lf[0];
    assert(v <= 127 ==> (v | 0x80u8) & 0x7F == v && (v | 0x80u8) & 0x80 != 0) by (bit_vector);
    assert(f[1] == lf[0] | 0x80u8);
    if n <= 125 {
    } else if n <= 65535 {
        lemma_be_bytes_len(n, 2);
        lemma_be_roundtrip(n, 2);
        assert(f.subrange(2, 4) =~= be_bytes(n, 2));
    } else {
        lemma_be_bytes_len(n, 8);
        lemma_be_roundtrip(n, 8);
        assert(f.subrange(2, 10) =~= be_bytes(n, 8));
    }
    let k0 = 2 + ext_len_bytes(f);
    assert(f.subrange(k0, k0 + 4) =~= key);
    assert(f.subrange(header_len(f), frame_total(f)) =~= unmask(payload, key));
    lemma_unmask_involution(payload, key);
}

/// A frame is read the same from the bytes that `frame_len` counts as from
/// the whole buffer: the whole frame lies within its reported length.
pub proof fn lemma_frame_prefix_reads_same(buf: Seq<u8>)
    requires
        parse_frame(buf) matches Ok(v) && !(v is NeedMore),
    ensures
        length_complete(buf),
        2 <= frame_total(buf) <= buf.len(),
        parse_frame(buf.take(frame_total(buf))) == parse_frame(buf),
{
    let p = buf.take(frame_total(buf));
    assert(p[0] == buf[0] && p[1] == buf[1]);
    assert(p.subrange(2, 2 + ext_len_bytes(buf)) =~= buf.subrange(2, 2 + ext_len_bytes(buf)));
    assert(p.subrange(header_len(buf), frame_total(buf)) =~= buf.subrange(
        header_len(buf),
        frame_total(buf),
    ));
    if is_masked(buf) {
        assert(p.subrange(2 + ext_len_bytes(buf), 2 + ext_len_bytes(buf) + 4) =~= buf.subrange(
            2 + ext_len_bytes(buf),
            2 + ext_len_bytes(buf) + 4,
        ));
    }
}

/// A written frame followed by any bytes reads back as the frame written,
/// and ends where the written bytes end.
pub proof fn lemma_write_read_with_rest(op: Opcode, payload: Seq<u8>, extra: Seq<u8>)
    requires
        payload.len() + 14 <= usize::MAX,
        op != Opcode::Close,
    ensures
        frame_readable(encode_frame(op, payload) + extra),
        frame_total(encode_frame(op, payload) + extra) == encode_frame(op, payload).len(),
        parse_frame(encode_frame(op, payload) + extra) == Ok::<FrameView, u8>(
            FrameView::Frame { fin: true, opcode: op, payload: payload },
        ),
{
    let f = encode_frame(op, payload);
    lemma_write_read_roundtrip(op, payload);
    lemma_parse_frame_extend(f, extra);
    let b = f + extra;
    assert(b[1] == f[1]);
    assert(b.subrange(2, 2 + ext_len_bytes(f)) =~= f.subrange(2, 2 + ext_len_bytes(f)));
}

/// Where a frame's payload comes from: the length field is read from the
/// seven-bit field, or from the two or eight bytes after it; when the mask
/// bit is set the four bytes after the length are the key, and payload byte
/// `i` is the raw byte `i` after the header XORed with key byte `i mod 4`
/// (RFC 6455 section 5.3); unmasked, it is the raw byte itself.
pub proof fn lemma_payload_bytes(buf: Seq<u8>)
    requires
        parse_frame(buf) matches Ok(v) && !(v is NeedMore),
    ensures
        ({
            let n7 = buf[1] & 0x7F;
            let k: int = if n7 <= 125 {
                2
            } else if n7 == 126 {
                4
            } else {
                10
            };
            let masked = buf[1] & 0x80 != 0;
            let start: int = if masked {
                k + 4
            } else {
                k
            };
            let len: int = if n7 <= 125 {
                n7 as int
            } else if n7 == 126 {
                buf[2] as int * 256 + buf[3] as int
            } else {
                be_value(buf.subrange(2, 10)) as int
            };
            let p = frame_payload(buf);
            &&& start + len <= buf.len()
            &&& p.len() == len
            &&& masked ==> forall|i: int|
                0 <= i < len ==> #[trigger] p[i] == buf[start + i] ^ buf[k + i % 4]
            &&& !masked ==> forall|i: int| 0 <= i < len ==> #[trigger] p[i] == buf[start + i]
            &&& parse_frame(buf) matches Ok(FrameView::Frame { payload, .. }) ==> payload == p
            &&& parse_frame(buf) matches Ok(FrameView::Closed(c)) ==> c == (if len >= 2 {
                Some((p[0] as int * 256 + p[1] as int) as u16)
            } else {
                None
            })
        }),
{
    let n7 = buf[1] & 0x7F;
    if n7 == 126 {
        let s = buf.subrange(2, 4);
        assert(s.drop_last() =~= seq![buf[2]]);
        assert(seq![buf[2]].drop_last() =~= Seq::<u8>::empty());
        reveal_with_fuel(be_value, 3);
    }
}

} // verus!
