//! Protocol layers of a web-based Telnet client: Base64, SHA-1, HTTP/1.1
//! request parsing and response building, WebSocket framing and the
//! Telnet option negotiation state machine, together with the decisions
//! that the connection proxy takes between them.

pub mod base64;
pub mod bytes;
pub mod chars;
pub mod http;
pub mod proxy;
pub mod sha1;
pub mod telnet;
pub mod text;
pub mod websocket;
