# octo_telnet

A web-based Telnet client: the browser talks WebSocket to this server, the
server talks Telnet to a BBS. The protocol layers are a library verified
with Verus; the sockets are a small Tokio program around it.

## Layout

- `src/base64.rs` — Base64 encoding (RFC 4648), with its length, padding and
  lossless-decoding laws.
- `src/sha1.rs` — SHA-1 (RFC 3174), proved equal to the FIPS 180-4 definition.
- `src/websocket.rs` — frame parsing and encoding (RFC 6455) and the accept
  key of the handshake; a written frame reads back as itself, masked or not.
- `src/http.rs` — HTTP/1.1 request parsing (request line, headers by
  lowercase name) and response building.
- `src/telnet.rs` — the Telnet IAC state machine (RFC 854/855) with its
  negotiation replies; feeding a stream in pieces gives what feeding it at
  once gives.
- `src/proxy.rs` — what the connection handler decides: request and frame
  buffering, routing, the Telnet target address, and what to relay in each
  direction.
- `src/chars.rs`, `src/text.rs`, `src/bytes.rs` — the character, string and
  byte helpers the above are stated over.
- `app/` — the Tokio server: accepting connections, reading and writing
  sockets, and serving the frontend files from a `static/` directory.
- `tests/` — tests of the library on concrete values.
