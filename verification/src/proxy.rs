//! The decisions of the connection handler, apart from its I/O: reading the
//! HTTP request and the WebSocket frames from what arrives, choosing the
//! response, the Telnet target, and what to forward in each direction.

use vstd::prelude::*;
use vstd::string::StringSliceAdditionalSpecFns;
use vstd::utf8::{decode_utf8, encode_utf8, valid_utf8};

use crate::bytes::{append_bytes, copy_range};
use crate::chars::{find, find_char, str_chars, string_of, trim, trimmed};
use crate::http::{
    build_response, build_ws_upgrade_response, header_bytes, header_end, parse_request, request_of,
    request_total_len, response_bytes, upgrade_response_bytes, HttpRequest,
};
use crate::telnet::{run, TelnetParser};
use crate::text::{push_str, utf8_decode, utf8_error_text};
use crate::websocket::{
    accept_key, close_payload, compute_accept_key, declared_size_fits, encode_frame, frame_len,
    frame_readable, frame_total, parse_frame, read_frame, write_binary_frame, write_close_frame, write_pong_frame,
    write_text_frame, FrameView, Opcode, ReadResult, WsFrame,
};

verus! {

// ---------------------------------------------------------------------------
// The Telnet target
// ---------------------------------------------------------------------------

/// Whether `s` starts with `telnet://`.
pub open spec fn has_telnet_scheme(s: Seq<char>) -> bool {
    s.len() >= 9 && s.take(9) == "telnet://"@
}

/// The address to connect to: trimmed, without a `telnet://` scheme (and
/// trimmed again after it), with port 23 when none is given.
pub open spec fn telnet_addr(raw: Seq<char>) -> Seq<char> {
    let t = trim(raw);
    let host = if has_telnet_scheme(t) {
        trim(t.skip(9))
    } else {
        t
    };
    if find_char(host, ':') is Some {
        host
    } else {
        host + ":23"@
    }
}

/// Normalize telnet address: strip telnet:// prefix, default port to 23.
pub fn normalize_telnet_addr(raw: &str) -> (addr: String)
    ensures
        addr@ == telnet_addr(raw@),
{
    let chars = str_chars(raw);
    let t = trimmed(chars.as_slice(), 0, chars.len());
    proof {
        assert(chars@.subrange(0, chars@.len() as int) =~= chars@);
    }
    let scheme = str_chars("telnet://");
    proof {
        reveal_strlit("telnet://");
    }
    let mut has_scheme = t.len() >= 9;
    let mut i: usize = 0;
    while has_scheme && i < 9
        invariant
            scheme@ == "telnet://"@,
            scheme@.len() == 9,
            i <= 9,
            has_scheme ==> t@.len() >= 9,
            has_scheme ==> forall|j: int| 0 <= j < i ==> t@[j] == scheme@[j],
            !has_scheme ==> !has_telnet_scheme(t@),
        decreases 9 - i,
    {
        if t[i] != scheme[i] {
            has_scheme = false;
            assert(t@.take(9)[i as int] != "telnet://"@[i as int]);
        }
        i = i + 1;
    }
    if has_scheme {
        assert(t@.take(9) =~= "telnet://"@);
    }
    let host = if has_scheme {
        let tl = t.len();
        let h = trimmed(t.as_slice(), 9, tl);
        proof {
            assert(t@.subrange(9, t@.len() as int) =~= t@.skip(9));
        }
        h
    } else {
        t
    };
    let mut addr = string_of(host.as_slice());
    if find(host.as_slice(), ':').is_none() {
        push_str(&mut addr, ":23");
    }
    addr
}

/// The target that the first frame's payload names, or the error message.
pub open spec fn target_of(payload: Seq<u8>) -> Result<Seq<char>, Seq<char>> {
    if valid_utf8(payload) {
        Ok(telnet_addr(trim(decode_utf8(payload))))
    } else {
        Err("Invalid UTF-8 in target address: "@ + utf8_error_text(payload))
    }
}

/// The Telnet address that the first WebSocket frame names.
pub fn target_address(payload: &[u8]) -> (res: Result<String, String>)
    ensures
        match target_of(payload@) {
            Ok(a) => res matches Ok(s) && s@ == a,
            Err(m) => res matches Err(e) && e@ == m,
        },
{
    match utf8_decode(payload) {
        Ok(text) => {
            let chars = str_chars(text.as_str());
            let t = trimmed(chars.as_slice(), 0, chars.len());
            proof {
                assert(chars@.subrange(0, chars@.len() as int) =~= chars@);
            }
            let raw = string_of(t.as_slice());
            Ok(normalize_telnet_addr(raw.as_str()))
        },
        Err(e) => {
            let mut msg = String::from_str("Invalid UTF-8 in target address: ");
            push_str(&mut msg, e.as_str());
            Err(msg)
        },
    }
}

/// The message shown in the browser when the Telnet server cannot be reached.
pub open spec fn connect_failure_text(target: Seq<char>, error: Seq<char>) -> Seq<char> {
    "\r\n\r\n*** Failed to connect to "@ + target + " ***\r\n\r\nError: "@ + error + "\r\n"@
}

/// The two frames sent when the Telnet server cannot be reached: the
/// message as a text frame, then a close frame with status 1011.
pub fn connect_failure_frames(target: &str, error: &str) -> (frames: (Vec<u8>, Vec<u8>))
    requires
        vstd::utf8::encode_utf8(connect_failure_text(target@, error@)).len() + 14 <= usize::MAX,
    ensures
        frames.0@ == encode_frame(
            Opcode::Text,
            vstd::utf8::encode_utf8(connect_failure_text(target@, error@)),
        ),
        frames.1@ == encode_frame(Opcode::Close, close_payload(Some(1011u16))),
{
    let mut msg = String::from_str("\r\n\r\n*** Failed to connect to ");
    push_str(&mut msg, target);
    push_str(&mut msg, " ***\r\n\r\nError: ");
    push_str(&mut msg, error);
    push_str(&mut msg, "\r\n");
    let text = msg.as_str();
    (write_text_frame(text), write_close_frame(Some(1011)))
}

/// The error reported when the Telnet server cannot be reached:
/// `Failed to connect to <target>: <error>`.
pub fn connect_failure_error(target: &str, error: &str) -> (msg: String)
    ensures
        msg@ == "Failed to connect to "@ + target@ + ": "@ + error@,
{
    let mut msg = String::from_str("Failed to connect to ");
    push_str(&mut msg, target);
    push_str(&mut msg, ": ");
    push_str(&mut msg, error);
    msg
}

// ---------------------------------------------------------------------------
// Reading the HTTP request
// ---------------------------------------------------------------------------

/// Above this many buffered bytes without a complete header block, the
/// request is refused.
pub const MAX_HEADER_BYTES: usize = 65536;

/// The bytes of a connection before its HTTP request is complete.
pub struct RequestReader {
    buf: Vec<u8>,
}

impl View for RequestReader {
    type V = Seq<u8>;

    closed spec fn view(&self) -> Seq<u8> {
        self.buf@
    }
}

impl RequestReader {
    pub fn new() -> (r: Self)
        ensures
            r@ == Seq::<u8>::empty(),
    {
        RequestReader { buf: Vec::new() }
    }

    /// The request, once the header block is complete, with the bytes after
    /// it (the start of the WebSocket stream); `None` while more is needed.
    pub fn poll(&self) -> (res: Result<Option<(HttpRequest, Vec<u8>)>, String>)
        ensures
            match request_of(self@) {
                Ok(None) => res matches Ok(None),
                Ok(Some(r)) => res matches Ok(Some(p)) && p.0@ == r && p.1@ == self@.skip(
                    header_end(self@)->0 + 4,
                ),
                Err(m) => res matches Err(e) && e@ == m,
            },
    {
        match parse_request(self.buf.as_slice()) {
            Err(e) => Err(e),
            Ok(None) => Ok(None),
            Ok(Some(req)) => {
                match request_total_len(self.buf.as_slice()) {
                    Some(total) => {
                        proof {
                            crate::http::lemma_crlfcrlf_from(self.buf@, 0);
                        }
                        let n = self.buf.len();
                        let leftover = copy_range(self.buf.as_slice(), total, n);
                        assert(leftover@ =~= self@.skip(header_end(self@)->0 + 4));
                        Ok(Some((req, leftover)))
                    },
                    None => Err(String::from_str("Failed to compute request length")),
                }
            },
        }
    }

    /// Adds what the last read returned; an empty read means the peer
    /// closed the connection, and too many bytes without a complete request
    /// are refused.
    pub fn feed(&mut self, bytes: &[u8]) -> (res: Result<(), String>)
        ensures
            bytes@.len() == 0 ==> (res matches Err(e) && e@
                == "Connection closed before complete request"@) && final(self)@ == old(self)@,
            bytes@.len() > 0 ==> final(self)@ == old(self)@ + bytes@,
            bytes@.len() > 0 && final(self)@.len() > MAX_HEADER_BYTES ==> (res matches Err(e)
                && e@ == "HTTP request headers too large"@),
            bytes@.len() > 0 && final(self)@.len() <= MAX_HEADER_BYTES ==> res is Ok,
    {
        if bytes.len() == 0 {
            return Err(String::from_str("Connection closed before complete request"));
        }
        append_bytes(&mut self.buf, bytes);
        if self.buf.len() > MAX_HEADER_BYTES {
            return Err(String::from_str("HTTP request headers too large"));
        }
        Ok(())
    }
}

// ---------------------------------------------------------------------------
// Responses
// ---------------------------------------------------------------------------

/// The static files that the server embeds.
#[derive(Debug, Clone, Copy, PartialEq, Eq, Structural)]
pub enum StaticAsset {
    Index,
    Style,
    Script,
}

/// The asset that a request path names.
pub open spec fn asset_of(path: Seq<char>) -> Option<StaticAsset> {
    if path == "/"@ || path == "/index.html"@ {
        Some(StaticAsset::Index)
    } else if path == "/style.css"@ {
        Some(StaticAsset::Style)
    } else if path == "/app.js"@ {
        Some(StaticAsset::Script)
    } else {
        None
    }
}

fn is_path(path: &Vec<char>, name: &str) -> (res: bool)
    ensures
        res == (path@ == name@),
{
    let n = str_chars(name);
    if path.len() != n.len() {
        return false;
    }
    let mut i: usize = 0;
    while i < n.len()
        invariant
            path@.len() == n@.len(),
            n@ == name@,
            i <= n@.len(),
            forall|j: int| 0 <= j < i ==> path@[j] == n@[j],
        decreases n@.len() - i,
    {
        if path[i] != n[i] {
            return false;
        }
        i = i + 1;
    }
    assert(path@ =~= n@);
    true
}

/// Serve a static file based on the request path: which one, if any.
pub fn route_static(path: &str) -> (res: Option<StaticAsset>)
    ensures
        res == asset_of(path@),
{
    let p = str_chars(path);
    if is_path(&p, "/") || is_path(&p, "/index.html") {
        Some(StaticAsset::Index)
    } else if is_path(&p, "/style.css") {
        Some(StaticAsset::Style)
    } else if is_path(&p, "/app.js") {
        Some(StaticAsset::Script)
    } else {
        None
    }
}

/// The path under which an asset is served by its file name.
pub open spec fn asset_path(a: StaticAsset) -> Seq<char> {
    match a {
        StaticAsset::Index => "/index.html"@,
        StaticAsset::Style => "/style.css"@,
        StaticAsset::Script => "/app.js"@,
    }
}

/// The content type of an asset.
pub open spec fn asset_mime(a: StaticAsset) -> Seq<char> {
    match a {
        StaticAsset::Index => "text/html; charset=utf-8"@,
        StaticAsset::Style => "text/css; charset=utf-8"@,
        StaticAsset::Script => "application/javascript; charset=utf-8"@,
    }
}

/// The content type of an asset.
pub fn mime_of_asset(a: StaticAsset) -> (m: &'static str)
    ensures
        m@ == asset_mime(a),
{
    match a {
        StaticAsset::Index => "text/html; charset=utf-8",
        StaticAsset::Style => "text/css; charset=utf-8",
        StaticAsset::Script => "application/javascript; charset=utf-8",
    }
}

/// The `200 OK` response carrying an asset.
pub fn asset_response(a: StaticAsset, content: &[u8]) -> (out: Vec<u8>)
    ensures
        out@ == response_bytes(
            200,
            "OK".spec_bytes(),
            seq![
                ("Content-Type".spec_bytes(), encode_utf8(asset_mime(a))),
                ("Cache-Control".spec_bytes(), "no-cache".spec_bytes()),
            ],
            content@,
        ),
{
    let mime = mime_of_asset(a);
    let headers = [("Content-Type", mime), ("Cache-Control", "no-cache")];
    let out = build_response(200, "OK", &headers, content);
    assert(header_bytes(headers@) =~= seq![
        ("Content-Type".spec_bytes(), encode_utf8(asset_mime(a))),
        ("Cache-Control".spec_bytes(), "no-cache".spec_bytes()),
    ]);
    out
}

/// The `404 Not Found` response.
pub fn not_found_response() -> (out: Vec<u8>)
    ensures
        out@ == response_bytes(
            404,
            "Not Found".spec_bytes(),
            seq![("Content-Type".spec_bytes(), "text/plain; charset=utf-8".spec_bytes())],
            "404 Not Found".spec_bytes(),
        ),
{
    let headers = [("Content-Type", "text/plain; charset=utf-8")];
    let out = build_response(404, "Not Found", &headers, "404 Not Found".as_bytes());
    assert(header_bytes(headers@) =~= seq![
        ("Content-Type".spec_bytes(), "text/plain; charset=utf-8".spec_bytes()),
    ]);
    out
}

/// An HTTP error response: the body is the status text, `: ` and the detail.
pub fn error_response(code: u16, text: &str, detail: &str) -> (out: Vec<u8>)
    ensures
        out@ == response_bytes(
            code,
            text.spec_bytes(),
            seq![("Content-Type".spec_bytes(), "text/plain; charset=utf-8".spec_bytes())],
            text.spec_bytes() + ": ".spec_bytes() + detail.spec_bytes(),
        ),
{
    let mut body: Vec<u8> = Vec::new();
    append_bytes(&mut body, text.as_bytes());
    append_bytes(&mut body, ": ".as_bytes());
    append_bytes(&mut body, detail.as_bytes());
    let headers = [("Content-Type", "text/plain; charset=utf-8")];
    let out = build_response(code, text, &headers, body.as_slice());
    assert(header_bytes(headers@) =~= seq![
        ("Content-Type".spec_bytes(), "text/plain; charset=utf-8".spec_bytes()),
    ]);
    out
}

/// The handshake reply to an upgrade request, or the error when the client
/// sent no key.
pub fn upgrade_response(request: &HttpRequest) -> (res: Result<Vec<u8>, String>)
    requires
        request.headers@.dom().contains("sec-websocket-key"@) ==> vstd::utf8::encode_utf8(
            request.headers@["sec-websocket-key"@],
        ).len() + 108 <= usize::MAX,
    ensures
        request.headers@.dom().contains("sec-websocket-key"@) ==> (res matches Ok(r) && r@
            == upgrade_response_bytes(
            vstd::utf8::encode_utf8(
                accept_key(vstd::utf8::encode_utf8(request.headers@["sec-websocket-key"@])),
            ),
        )),
        !request.headers@.dom().contains("sec-websocket-key"@) ==> (res matches Err(e) && e@
            == "Missing Sec-WebSocket-Key header"@),
{
    match request.ws_key() {
        None => Err(String::from_str("Missing Sec-WebSocket-Key header")),
        Some(key) => {
            let accept = compute_accept_key(key);
            Ok(build_ws_upgrade_response(accept.as_str()))
        },
    }
}

// ---------------------------------------------------------------------------
// Reading WebSocket frames
// ---------------------------------------------------------------------------

/// The bytes received from the browser and not yet taken as frames.
pub struct FrameReader {
    buf: Vec<u8>,
}

impl View for FrameReader {
    type V = Seq<u8>;

    closed spec fn view(&self) -> Seq<u8> {
        self.buf@
    }
}

impl FrameReader {
    /// A reader that starts with the bytes left over after the HTTP request.
    pub fn new(leftover: Vec<u8>) -> (r: Self)
        ensures
            r@ == leftover@,
    {
        FrameReader { buf: leftover }
    }

    /// The bytes not yet taken as frames.
    pub fn into_buf(self) -> (buf: Vec<u8>)
        ensures
            buf@ == self@,
    {
        self.buf
    }

    /// Whether the front of the buffer can be read: an unknown opcode can
    /// always be (it is refused), a known one when its declared size fits in
    /// memory.
    pub fn size_fits(&self) -> (res: bool)
        ensures
            res == frame_readable(self@),
    {
        crate::websocket::frame_is_readable(self.buf.as_slice())
    }

    /// Adds what the last read returned; an empty read means the browser
    /// closed the connection.
    pub fn feed(&mut self, bytes: &[u8]) -> (res: Result<(), String>)
        ensures
            bytes@.len() == 0 ==> (res matches Err(e) && e@ == "WebSocket connection closed"@)
                && final(self)@ == old(self)@,
            bytes@.len() > 0 ==> res is Ok && final(self)@ == old(self)@ + bytes@,
    {
        if bytes.len() == 0 {
            return Err(String::from_str("WebSocket connection closed"));
        }
        append_bytes(&mut self.buf, bytes);
        Ok(())
    }

    /// The next frame, taken off the front of the buffer; `None` while
    /// more bytes are needed. A close from the browser, or an unknown
    /// opcode, is an error.
    pub fn next_frame(&mut self) -> (res: Result<Option<WsFrame>, String>)
        requires
            frame_readable(old(self)@),
        ensures
            match parse_frame(old(self)@) {
                Err(op) => (res matches Err(e) && e@ == crate::websocket::invalid_opcode_message(
                    op,
                )) && final(self)@ == old(self)@,
                Ok(FrameView::NeedMore) => res matches Ok(None) && final(self)@ == old(self)@,
                Ok(FrameView::Closed(_)) => (res matches Err(e) && e@
                    == "WebSocket closed by peer"@) && final(self)@ == old(self)@,
                Ok(FrameView::Frame { fin, opcode, payload }) => (res matches Ok(Some(f)) && f@ == (
                    fin,
                    opcode,
                    payload,
                )) && final(self)@ == old(self)@.skip(frame_total(old(self)@)),
            },
    {
        match read_frame(self.buf.as_slice()) {
            Err(e) => Err(e),
            Ok(ReadResult::NeedMore) => Ok(None),
            Ok(ReadResult::Closed(_)) => Err(String::from_str("WebSocket closed by peer")),
            Ok(ReadResult::Frame(frame)) => {
                match frame_len(self.buf.as_slice()) {
                    Ok(len) => {
                        let n = self.buf.len();
                        let rest = copy_range(self.buf.as_slice(), len, n);
                        self.buf = rest;
                        Ok(Some(frame))
                    },
                    Err(e) => Err(e),
                }
            },
        }
    }
}

// ---------------------------------------------------------------------------
// Relaying
// ---------------------------------------------------------------------------

/// What to do with one read from the Telnet server.
pub struct ServerStep {
    /// Negotiation replies to send back to the server.
    pub to_server: Option<Vec<u8>>,
    /// A frame to send to the browser.
    pub to_browser: Option<Vec<u8>>,
    /// Whether the server has closed the connection.
    pub finished: bool,
}

/// Handles one read from the Telnet server: an empty read ends the session
/// with a close frame (status 1000); otherwise the bytes go through the
/// Telnet parser, its replies go back to the server and its clean data goes
/// to the browser as one binary frame, each only when not empty.
pub fn on_server_bytes(parser: &mut TelnetParser, chunk: &[u8]) -> (step: ServerStep)
    requires
        chunk@.len() + 14 <= usize::MAX,
    ensures
        chunk@.len() == 0 ==> step.finished && step.to_server is None && (step.to_browser matches Some(
            f,
        ) && f@ == encode_frame(Opcode::Close, close_payload(Some(1000u16))))
            && final(parser)@ == old(parser)@,
        chunk@.len() > 0 ==> ({
            let r = run(old(parser)@, chunk@);
            &&& !step.finished
            &&& final(parser)@ == r.0
            &&& r.2.len() == 0 ==> step.to_server is None
            &&& r.2.len() > 0 ==> (step.to_server matches Some(v) && v@ == r.2)
            &&& r.1.len() == 0 ==> step.to_browser is None
            &&& r.1.len() > 0 ==> (step.to_browser matches Some(f) && f@ == encode_frame(
                Opcode::Binary,
                r.1,
            ))
        }),
{
    if chunk.len() == 0 {
        return ServerStep { to_server: None, to_browser: Some(write_close_frame(Some(1000))), finished: true };
    }
    let output = parser.process(chunk);
    proof {
        crate::telnet::lemma_data_not_longer(old(parser)@, chunk@);
    }
    let to_server = if output.responses.len() > 0 {
        Some(output.responses)
    } else {
        None
    };
    let to_browser = if output.data.len() > 0 {
        Some(write_binary_frame(output.data.as_slice()))
    } else {
        None
    };
    ServerStep { to_server, to_browser, finished: false }
}

/// What to do with one frame from the browser.
pub enum ClientAction {
    /// Send these bytes to the Telnet server.
    Forward(Vec<u8>),
    /// Send this frame back to the browser.
    Reply(Vec<u8>),
    /// End the session.
    Stop,
    /// Nothing to do.
    Ignore,
}

/// Handles one frame from the browser: text and binary payloads go to the
/// Telnet server, a ping is answered with a pong of the same payload, a
/// close ends the session, pongs and continuations are ignored.
pub fn on_client_frame(frame: WsFrame) -> (action: ClientAction)
    requires
        frame.payload@.len() + 14 <= usize::MAX,
    ensures
        (frame.opcode == Opcode::Text || frame.opcode == Opcode::Binary) ==> (action matches ClientAction::Forward(
            b,
        ) && b@ == frame.payload@),
        frame.opcode == Opcode::Ping ==> (action matches ClientAction::Reply(f) && f@
            == encode_frame(Opcode::Pong, frame.payload@)),
        frame.opcode == Opcode::Close ==> action is Stop,
        (frame.opcode == Opcode::Pong || frame.opcode == Opcode::Continuation) ==> action is Ignore,
{
    match frame.opcode {
        Opcode::Text | Opcode::Binary => ClientAction::Forward(frame.payload),
        Opcode::Ping => ClientAction::Reply(write_pong_frame(frame.payload.as_slice())),
        Opcode::Close => ClientAction::Stop,
        Opcode::Pong | Opcode::Continuation => ClientAction::Ignore,
    }
}

// ---------------------------------------------------------------------------
// Laws
// ---------------------------------------------------------------------------

/// The frame reader gives back what the browser framed: with a masked frame
/// at the front of its buffer, the reader takes that frame, with the payload
/// as it was before masking, and keeps exactly the bytes after it.
pub proof fn lemma_reader_takes_frame(op: Opcode, payload: Seq<u8>, key: Seq<u8>, rest: Seq<u8>)
    requires
        payload.len() + 14 <= usize::MAX,
        key.len() == 4,
        op != Opcode::Close,
    ensures
        ({
            let buf = crate::websocket::encode_masked_frame(op, payload, key) + rest;
            &&& declared_size_fits(buf)
            &&& parse_frame(buf) == Ok::<FrameView, u8>(
                FrameView::Frame { fin: true, opcode: op, payload: payload },
            )
            &&& buf.skip(frame_total(buf)) == rest
        }),
{
    let f = crate::websocket::encode_masked_frame(op, payload, key);
    crate::websocket::lemma_masked_roundtrip(op, payload, key);
    crate::websocket::lemma_parse_frame_extend(f, rest);
    let buf = f + rest;
    assert(buf[1] == f[1]);
    assert(buf.subrange(2, 2 + crate::websocket::ext_len_bytes(f)) =~= f.subrange(
        2,
        2 + crate::websocket::ext_len_bytes(f),
    ));
    assert(buf.skip(frame_total(buf)) =~= rest);
}

/// The request reader hands on what follows the request: when the buffer is
/// a complete request followed by `extra`, the request is the one the
/// request bytes alone give, and the leftover is exactly `extra`.
pub proof fn lemma_request_leftover(req: Seq<u8>, extra: Seq<u8>)
    requires
        header_end(req) == Some(req.len() - 4),
    ensures
        request_of(req + extra) == request_of(req),
        header_end(req + extra) == header_end(req),
        (req + extra).skip(header_end(req + extra)->0 + 4) == extra,
{
    crate::http::lemma_request_stable(req, extra);
    assert((req + extra).skip(req.len() as int) =~= extra);
}

/// Each asset is served with the content type that its file name calls for:
/// the path `/index.html`, `/style.css` or `/app.js` routes to the asset, and
/// its content type is what `mime_type` guesses from that file's extension
/// (`text/html`, `text/css` and `application/javascript`, in UTF-8).
pub proof fn lemma_asset_content_types(a: StaticAsset)
    ensures
        asset_of(asset_path(a)) == Some(a),
        asset_mime(a) == crate::http::mime_of(crate::chars::lower(crate::http::extension(asset_path(a)))),
{
    reveal_strlit("/");
    reveal_strlit("/index.html");
    reveal_strlit("/style.css");
    reveal_strlit("/app.js");
    reveal_strlit("html");
    reveal_strlit("htm");
    reveal_strlit("css");
    reveal_strlit("js");
    reveal_strlit("json");
    reveal_strlit("png");
    reveal_strlit("jpg");
    reveal_strlit("jpeg");
    reveal_strlit("svg");
    reveal_strlit("ico");
    reveal_with_fuel(crate::http::last_segment, 12);
    let p = asset_path(a);
    match a {
        StaticAsset::Index => {
            assert(p[6] == '.');
            assert(crate::chars::lower(crate::http::extension(p)) =~= "html"@);
            assert(p.len() != "/"@.len());
            assert(crate::http::mime_of("html"@) == "text/html; charset=utf-8"@);
            assert(asset_mime(a) == "text/html; charset=utf-8"@);
            assert(asset_of(p) == Some(a));
            let e = crate::chars::lower(crate::http::extension(p));
            assert(e == "html"@);
            assert(crate::http::mime_of(e) == "text/html; charset=utf-8"@);
        },
        StaticAsset::Style => {
            assert(p[6] == '.');
            assert(crate::chars::lower(crate::http::extension(p)) =~= "css"@);
            assert(p.len() != "/"@.len());
            assert(p.len() != "/index.html"@.len());
            let e = crate::chars::lower(crate::http::extension(p));
            assert(e[0] == 'c' && "htm"@[0] == 'h');
            assert(e.len() != "html"@.len());
            assert(e != "html"@ && e != "htm"@);
            assert(crate::http::mime_of(e) == "text/css; charset=utf-8"@);
        },
        StaticAsset::Script => {
            assert(p[4] == '.');
            assert(crate::chars::lower(crate::http::extension(p)) =~= "js"@);
            assert(p.len() != "/"@.len());
            assert(p.len() != "/index.html"@.len());
            assert(p.len() != "/style.css"@.len());
            let e = crate::chars::lower(crate::http::extension(p));
            assert(e.len() == 2);
            assert(e != "html"@ && e != "htm"@ && e != "css"@);
            assert(crate::http::mime_of(e) == "application/javascript; charset=utf-8"@);
        },
    }
}

/// Whether `s` holds a `:`.
pub open spec fn holds_colon(s: Seq<char>) -> bool {
    exists|i: int| 0 <= i < s.len() && s[i] == ':'
}

/// The host part of an address: the trimmed text, and after a `telnet://`
/// scheme the trimmed text that follows it.
pub open spec fn addr_host(raw: Seq<char>) -> Seq<char> {
    if has_telnet_scheme(trim(raw)) {
        trim(trim(raw).skip(9))
    } else {
        trim(raw)
    }
}

/// The default port: a host without `:` gets exactly `:23` appended,
/// whatever character it ends with; a host that names a port (holds a `:`)
/// is kept as it is. Either way the address starts with the host and holds
/// a `:`.
pub proof fn lemma_telnet_port(raw: Seq<char>)
    ensures
        (forall|i: int| 0 <= i < addr_host(raw).len() ==> addr_host(raw)[i] != ':')
            ==> telnet_addr(raw) == addr_host(raw) + seq![':', '2', '3'],
        (exists|i: int| 0 <= i < addr_host(raw).len() && addr_host(raw)[i] == ':')
            ==> telnet_addr(raw) == addr_host(raw),
        telnet_addr(raw).take(addr_host(raw).len() as int) == addr_host(raw),
        exists|i: int| 0 <= i < telnet_addr(raw).len() && telnet_addr(raw)[i] == ':',
{
    reveal_strlit(":23");
    let h = addr_host(raw);
    crate::chars::lemma_find_from_bounds(h, ':', 0);
    if find_char(h, ':') is Some {
        let k = find_char(h, ':')->0;
        assert(telnet_addr(raw)[k] == ':');
        assert(h.take(h.len() as int) =~= h);
    } else {
        assert(":23"@ =~= seq![':', '2', '3']);
        let a = telnet_addr(raw);
        assert(a[h.len() as int] == ':');
        assert(a.take(h.len() as int) =~= h);
        if exists|i: int| 0 <= i < h.len() && h[i] == ':' {
            let i = choose|i: int| 0 <= i < h.len() && h[i] == ':';
            assert(h[i] != ':');
        }
    }
}

/// The target named by the first frame is a normalized address: for valid
/// UTF-8 it is the address of the decoded text, so it always names a port.
pub proof fn lemma_target_has_port(payload: Seq<u8>)
    requires
        valid_utf8(payload),
    ensures
        target_of(payload) is Ok,
        holds_colon(target_of(payload)->Ok_0),
{
    let raw = trim(decode_utf8(payload));
    lemma_telnet_port(raw);
    let a = telnet_addr(raw);
    let i = choose|i: int| 0 <= i < a.len() && a[i] == ':';
    assert(target_of(payload) == Ok::<Seq<char>, Seq<char>>(a));
    assert(0 <= i < a.len() && a[i] == ':');
    assert(holds_colon(a));
}

} // verus!
