//! HTTP/1.1 request parser and response builder (RFC 7230).

use vstd::prelude::*;
use vstd::string::StringSliceAdditionalSpecFns;
use vstd::utf8::{decode_utf8, valid_utf8};

use crate::bytes::{append_bytes, copy_range};
use crate::chars::{
    find, find_char, lines, lower, split_into_lines, split_into_words, str_chars, string_of,
    to_lower, trim, trimmed, views, words,
};
use crate::text::{push_str, utf8_decode, utf8_error_text};

verus! {

// ---------------------------------------------------------------------------
// Header map
// ---------------------------------------------------------------------------

/// The request headers, by lowercase name; a later header of the same name
/// replaces an earlier one.
pub struct HeaderMap {
    entries: Vec<(String, String)>,
}

/// The map that a list of insertions leaves, later ones winning.
pub open spec fn map_of(entries: Seq<(Seq<char>, Seq<char>)>) -> Map<Seq<char>, Seq<char>>
    decreases entries.len(),
{
    if entries.len() == 0 {
        Map::empty()
    } else {
        map_of(entries.drop_last()).insert(entries.last().0, entries.last().1)
    }
}

pub open spec fn entry_views(entries: Seq<(String, String)>) -> Seq<(Seq<char>, Seq<char>)> {
    entries.map_values(|e: (String, String)| (e.0@, e.1@))
}

/// Entries after position `i` do not touch `key`: the map is the one of the
/// first `i` entries as far as `key` goes.
proof fn lemma_map_of_skip(entries: Seq<(Seq<char>, Seq<char>)>, key: Seq<char>, i: int)
    requires
        0 <= i <= entries.len(),
        forall|j: int| i <= j < entries.len() ==> entries[j].0 != key,
    ensures
        map_of(entries).dom().contains(key) == map_of(entries.take(i)).dom().contains(key),
        map_of(entries)[key] == map_of(entries.take(i))[key],
    decreases entries.len() - i,
{
    if i < entries.len() {
        lemma_map_of_skip(entries.drop_last(), key, i);
        assert(entries.drop_last().take(i) =~= entries.take(i));
    } else {
        assert(entries.take(i) =~= entries);
    }
}

impl View for HeaderMap {
    type V = Map<Seq<char>, Seq<char>>;

    closed spec fn view(&self) -> Map<Seq<char>, Seq<char>> {
        map_of(entry_views(self.entries@))
    }
}

impl HeaderMap {
    /// A map with no header.
    pub fn new() -> (m: Self)
        ensures
            m@ == Map::<Seq<char>, Seq<char>>::empty(),
    {
        HeaderMap { entries: Vec::new() }
    }

    /// Sets the value of a header name.
    pub fn insert(&mut self, key: String, value: String)
        ensures
            final(self)@ == old(self)@.insert(key@, value@),
    {
        let ghost before = self.entries@;
        self.entries.push((key, value));
        assert(entry_views(self.entries@).drop_last() =~= entry_views(before));
    }

    fn get_string(&self, key: &String) -> (res: Option<&String>)
        ensures
            res matches Some(v) ==> self@.dom().contains(key@) && v@ == self@[key@],
            res is None ==> !self@.dom().contains(key@),
    {
        let ghost ev = entry_views(self.entries@);
        let mut i = self.entries.len();
        while i > 0
            invariant
                i <= self.entries@.len(),
                ev == entry_views(self.entries@),
                forall|j: int| i <= j < ev.len() ==> ev[j].0 != key@,
            decreases i,
        {
            if self.entries[i - 1].0 == *key {
                proof {
                    lemma_map_of_skip(ev, key@, i as int);
                    assert(ev.take(i as int).drop_last() =~= ev.take(i - 1));
                }
                return Some(&self.entries[i - 1].1);
            }
            i = i - 1;
        }
        proof {
            lemma_map_of_skip(ev, key@, 0);
            assert(ev.take(0) =~= Seq::<(Seq<char>, Seq<char>)>::empty());
        }
        None
    }

    /// The value of a header, by its (lowercase) name.
    pub fn get(&self, key: &str) -> (res: Option<&String>)
        ensures
            res matches Some(v) ==> self@.dom().contains(key@) && v@ == self@[key@],
            res is None ==> !self@.dom().contains(key@),
    {
        let k = String::from_str(key);
        self.get_string(&k)
    }
}

// ---------------------------------------------------------------------------
// Requests
// ---------------------------------------------------------------------------

pub struct HttpRequest {
    pub method: String,
    pub path: String,
    pub headers: HeaderMap,
}

/// A request as the method, the path and the header map.
pub type RequestView = (Seq<char>, Seq<char>, Map<Seq<char>, Seq<char>>);

impl View for HttpRequest {
    type V = RequestView;

    open spec fn view(&self) -> RequestView {
        (self.method@, self.path@, self.headers@)
    }
}

/// Whether `buf` holds `\r\n\r\n` at position `i`.
pub open spec fn crlfcrlf_at(buf: Seq<u8>, i: int) -> bool {
    0 <= i && i + 4 <= buf.len() && buf[i] == 0x0D && buf[i + 1] == 0x0A && buf[i + 2] == 0x0D
        && buf[i + 3] == 0x0A
}

/// The first `\r\n\r\n` of `buf` at or after `i`.
pub open spec fn crlfcrlf_from(buf: Seq<u8>, i: int) -> Option<int>
    decreases buf.len() - i,
{
    if i < 0 || i + 4 > buf.len() {
        None
    } else if crlfcrlf_at(buf, i) {
        Some(i)
    } else {
        crlfcrlf_from(buf, i + 1)
    }
}

/// Where the header block of `buf` ends: its first `\r\n\r\n`.
pub open spec fn header_end(buf: Seq<u8>) -> Option<int> {
    crlfcrlf_from(buf, 0)
}

pub proof fn lemma_crlfcrlf_from(buf: Seq<u8>, i: int)
    requires
        0 <= i,
    ensures
        crlfcrlf_from(buf, i) matches Some(k) ==> i <= k && crlfcrlf_at(buf, k) && forall|j: int|
            i <= j < k ==> !crlfcrlf_at(buf, j),
        crlfcrlf_from(buf, i) is None ==> forall|j: int| i <= j ==> !crlfcrlf_at(buf, j),
    decreases buf.len() - i,
{
    if i + 4 <= buf.len() && !crlfcrlf_at(buf, i) {
        lemma_crlfcrlf_from(buf, i + 1);
    }
}

fn find_crlfcrlf(buf: &[u8]) -> (res: Option<usize>)
    ensures
        res matches Some(k) ==> header_end(buf@) == Some(k as int) && k + 4 <= buf@.len(),
        res is None ==> header_end(buf@) is None,
{
    proof {
        lemma_crlfcrlf_from(buf@, 0);
    }
    let n = buf.len();
    let mut i: usize = 0;
    while n >= 4 && i <= n - 4
        invariant
            n == buf@.len(),
            i <= n,
            header_end(buf@) == crlfcrlf_from(buf@, i as int),
        decreases n - i,
    {
        if buf[i] == 0x0D && buf[i + 1] == 0x0A && buf[i + 2] == 0x0D && buf[i + 3] == 0x0A {
            return Some(i);
        }
        i = i + 1;
    }
    None
}

/// The header map of the header lines: each line with a colon sets its
/// trimmed, lowercased name to its trimmed value; other lines are skipped.
pub open spec fn header_map(ls: Seq<Seq<char>>) -> Map<Seq<char>, Seq<char>>
    decreases ls.len(),
{
    if ls.len() == 0 {
        Map::empty()
    } else {
        let m = header_map(ls.drop_last());
        let l = ls.last();
        match find_char(l, ':') {
            Some(k) => m.insert(lower(trim(l.take(k))), trim(l.skip(k + 1))),
            None => m,
        }
    }
}

/// The request that the header text denotes, or the error message.
pub open spec fn request_of_text(text: Seq<char>) -> Result<RequestView, Seq<char>> {
    let ls = lines(text);
    if ls.len() == 0 {
        Err("Empty request"@)
    } else {
        let ws = words(ls[0]);
        if ws.len() < 3 {
            Err("Malformed request line: "@ + ls[0])
        } else {
            Ok((ws[0], ws[1], header_map(ls.skip(1))))
        }
    }
}

/// What parsing `buf` gives: nothing yet while the header block is not
/// complete, else the request or the error message.
pub open spec fn request_of(buf: Seq<u8>) -> Result<Option<RequestView>, Seq<char>> {
    match header_end(buf) {
        None => Ok(None),
        Some(end) => {
            let block = buf.take(end);
            if !valid_utf8(block) {
                Err("Invalid UTF-8 in headers: "@ + utf8_error_text(block))
            } else {
                match request_of_text(decode_utf8(block)) {
                    Ok(r) => Ok(Some(r)),
                    Err(m) => Err(m),
                }
            }
        },
    }
}

fn headers_of_lines(ls: &Vec<Vec<char>>) -> (m: HeaderMap)
    requires
        ls@.len() >= 1,
    ensures
        m@ == header_map(views(ls@).skip(1)),
{
    let mut m = HeaderMap::new();
    let mut i: usize = 1;
    while i < ls.len()
        invariant
            1 <= i <= ls@.len(),
            m@ == header_map(views(ls@).subrange(1, i as int)),
        decreases ls@.len() - i,
    {
        let line = &ls[i];
        proof {
            assert(views(ls@).subrange(1, i + 1).drop_last() =~= views(ls@).subrange(
                1,
                i as int,
            ));
            assert(views(ls@).subrange(1, i + 1).last() == line@);
        }
        match find(line.as_slice(), ':') {
            Some(k) => {
                let key_chars = trimmed(line.as_slice(), 0, k);
                let key_lower = to_lower(key_chars.as_slice());
                let ll = line.len();
                let value_chars = trimmed(line.as_slice(), k + 1, ll);
                proof {
                    assert(line@.subrange(0, k as int) =~= line@.take(k as int));
                    assert(line@.subrange(k + 1, line@.len() as int) =~= line@.skip(k + 1));
                }
                m.insert(string_of(key_lower.as_slice()), string_of(value_chars.as_slice()));
            },
            None => {},
        }
        i = i + 1;
    }
    assert(views(ls@).subrange(1, ls@.len() as int) =~= views(ls@).skip(1));
    m
}

/// Parse an HTTP request from a raw byte buffer.
/// Returns Ok(Some(req)) on complete request, Ok(None) if more data needed.
pub fn parse_request(buf: &[u8]) -> (res: Result<Option<HttpRequest>, String>)
    ensures
        match request_of(buf@) {
            Ok(None) => res matches Ok(None),
            Ok(Some(r)) => res matches Ok(Some(req)) && req@ == r,
            Err(m) => res matches Err(e) && e@ == m,
        },
{
    let header_end = match find_crlfcrlf(buf) {
        None => {
            return Ok(None);
        },
        Some(e) => e,
    };
    let block = copy_range(buf, 0, header_end);
    proof {
        assert(buf@.subrange(0, header_end as int) =~= buf@.take(header_end as int));
    }
    let header_str = match utf8_decode(block.as_slice()) {
        Ok(s) => s,
        Err(e) => {
            let mut msg = String::from_str("Invalid UTF-8 in headers: ");
            push_str(&mut msg, e.as_str());
            return Err(msg);
        },
    };
    let text = str_chars(header_str.as_str());
    let ls = split_into_lines(text.as_slice());
    if ls.len() == 0 {
        return Err(String::from_str("Empty request"));
    }
    let request_line = &ls[0];
    let parts = split_into_words(request_line.as_slice());
    if parts.len() < 3 {
        let mut msg = String::from_str("Malformed request line: ");
        let line = string_of(request_line.as_slice());
        push_str(&mut msg, line.as_str());
        return Err(msg);
    }
    let method = string_of(parts[0].as_slice());
    let path = string_of(parts[1].as_slice());
    let headers = headers_of_lines(&ls);
    Ok(Some(HttpRequest { method, path, headers }))
}

/// Return the total bytes consumed by the HTTP request (including CRLFCRLF).
pub fn request_total_len(buf: &[u8]) -> (res: Option<usize>)
    ensures
        match header_end(buf@) {
            Some(e) => res == Some((e + 4) as usize),
            None => res is None,
        },
{
    proof {
        lemma_crlfcrlf_from(buf@, 0);
    }
    let n = buf.len();
    match find_crlfcrlf(buf) {
        Some(pos) => Some(pos + 4),
        None => None,
    }
}

// ---------------------------------------------------------------------------
// Upgrade requests
// ---------------------------------------------------------------------------

/// Whether the `Upgrade` value names `websocket`, ASCII case ignored.
pub open spec fn upgrade_is_websocket(v: Seq<char>) -> bool {
    lower(v) == "websocket"@
}

/// Whether the lowercase of the `Connection` value contains `upgrade`.
pub open spec fn connection_has_upgrade(v: Seq<char>) -> bool {
    exists|i: int| 0 <= i && i + 7 <= v.len() && #[trigger] lower(v).subrange(i, i + 7) == "upgrade"@
}

/// Whether the headers ask for a WebSocket upgrade.
pub open spec fn is_upgrade(headers: Map<Seq<char>, Seq<char>>) -> bool {
    &&& headers.dom().contains("upgrade"@)
    &&& upgrade_is_websocket(headers["upgrade"@])
    &&& headers.dom().contains("connection"@)
    &&& connection_has_upgrade(headers["connection"@])
}

fn chars_equal(a: &[char], b: &[char]) -> (res: bool)
    ensures
        res == (a@ == b@),
{
    if a.len() != b.len() {
        return false;
    }
    let mut i: usize = 0;
    while i < a.len()
        invariant
            a@.len() == b@.len(),
            i <= a@.len(),
            forall|j: int| 0 <= j < i ==> a@[j] == b@[j],
        decreases a@.len() - i,
    {
        if a[i] != b[i] {
            return false;
        }
        i = i + 1;
    }
    assert(a@ =~= b@);
    true
}

/// Whether `needle` occurs in `hay`.
fn contains_chars(hay: &[char], needle: &[char]) -> (res: bool)
    ensures
        res == exists|i: int|
            0 <= i && i + needle@.len() <= hay@.len() && #[trigger] hay@.subrange(
                i,
                i + needle@.len(),
            ) == needle@,
{
    let n = hay.len();
    let m = needle.len();
    if m > n {
        return false;
    }
    let mut i: usize = 0;
    loop
        invariant
            n == hay@.len(),
            m == needle@.len(),
            m <= n,
            i <= n - m,
            forall|j: int| 0 <= j < i ==> #[trigger] hay@.subrange(j, j + m) != needle@,
        decreases n - m - i,
    {
        let piece = copy_chars(hay, i, i + m);
        if chars_equal(piece.as_slice(), needle) {
            return true;
        }
        if i == n - m {
            return false;
        }
        i = i + 1;
    }
}

fn copy_chars(v: &[char], start: usize, end: usize) -> (out: Vec<char>)
    requires
        start <= end <= v@.len(),
    ensures
        out@ == v@.subrange(start as int, end as int),
{
    let mut out: Vec<char> = Vec::new();
    let mut i = start;
    while i < end
        invariant
            start <= i <= end <= v@.len(),
            out@ == v@.subrange(start as int, i as int),
        decreases end - i,
    {
        out.push(v[i]);
        i = i + 1;
        assert(out@ =~= v@.subrange(start as int, i as int));
    }
    out
}

impl HttpRequest {
    /// Check if this is a WebSocket upgrade request.
    pub fn is_websocket_upgrade(&self) -> (res: bool)
        ensures
            res == is_upgrade(self.headers@),
    {
        let upgrade = match self.headers.get("upgrade") {
            Some(v) => {
                let lv = to_lower(str_chars(v.as_str()).as_slice());
                let target = str_chars("websocket");
                chars_equal(lv.as_slice(), target.as_slice())
            },
            None => false,
        };
        let connection = match self.headers.get("connection") {
            Some(v) => {
                let lv = to_lower(str_chars(v.as_str()).as_slice());
                let target = str_chars("upgrade");
                let r = contains_chars(lv.as_slice(), target.as_slice());
                proof {
                    reveal_strlit("upgrade");
                    if r {
                        let i = choose|i: int|
                            0 <= i && i + 7 <= lv@.len() && #[trigger] lv@.subrange(i, i + 7)
                                == target@;
                        assert(lower(v@).subrange(i, i + 7) == "upgrade"@);
                    }
                }
                r
            },
            None => false,
        };
        upgrade && connection
    }

    /// Get the Sec-WebSocket-Key header value.
    pub fn ws_key(&self) -> (res: Option<&str>)
        ensures
            self.headers@.dom().contains("sec-websocket-key"@) ==> (res matches Some(k) && k@
                == self.headers@["sec-websocket-key"@]),
            !self.headers@.dom().contains("sec-websocket-key"@) ==> res is None,
    {
        match self.headers.get("sec-websocket-key") {
            Some(v) => Some(v.as_str()),
            None => None,
        }
    }
}

// ---------------------------------------------------------------------------
// Responses
// ---------------------------------------------------------------------------

/// The decimal digits of `n`, as `{}` writes an unsigned integer.
pub open spec fn decimal(n: nat) -> Seq<u8>
    decreases n,
{
    if n < 10 {
        seq![(48 + n) as u8]
    } else {
        decimal(n / 10).push((48 + n % 10) as u8)
    }
}

/// The decimal digits of `n`.
pub fn decimal_bytes(n: u64) -> (out: Vec<u8>)
    ensures
        out@ == decimal(n as nat),
    decreases n,
{
    if n < 10 {
        let mut out: Vec<u8> = Vec::new();
        out.push((48 + n) as u8);
        out
    } else {
        let mut out = decimal_bytes(n / 10);
        out.push((48 + n % 10) as u8);
        out
    }
}

/// The header lines `name: value\r\n`, in order.
pub open spec fn header_lines(headers: Seq<(Seq<u8>, Seq<u8>)>) -> Seq<u8>
    decreases headers.len(),
{
    if headers.len() == 0 {
        Seq::empty()
    } else {
        header_lines(headers.drop_last()) + headers.last().0 + ": ".spec_bytes()
            + headers.last().1 + "\r\n".spec_bytes()
    }
}

/// The bytes of header name and value pairs.
pub open spec fn header_bytes(headers: Seq<(&str, &str)>) -> Seq<(Seq<u8>, Seq<u8>)> {
    headers.map_values(|h: (&str, &str)| (h.0.spec_bytes(), h.1.spec_bytes()))
}

/// A response: status line, the given headers, `Content-Length`, a blank
/// line and the body.
pub open spec fn response_bytes(
    status_code: u16,
    status_text: Seq<u8>,
    headers: Seq<(Seq<u8>, Seq<u8>)>,
    body: Seq<u8>,
) -> Seq<u8> {
    "HTTP/1.1 ".spec_bytes() + decimal(status_code as nat) + " ".spec_bytes() + status_text
        + "\r\n".spec_bytes() + header_lines(headers) + "Content-Length: ".spec_bytes() + decimal(
        body.len(),
    ) + "\r\n".spec_bytes() + "\r\n".spec_bytes() + body
}

/// Build a raw HTTP response as bytes.
pub fn build_response(
    status_code: u16,
    status_text: &str,
    headers: &[(&str, &str)],
    body: &[u8],
) -> (out: Vec<u8>)
    ensures
        out@ == response_bytes(status_code, status_text.spec_bytes(), header_bytes(headers@), body@),
{
    let mut result: Vec<u8> = Vec::new();
    append_bytes(&mut result, "HTTP/1.1 ".as_bytes());
    let code = decimal_bytes(status_code as u64);
    append_bytes(&mut result, code.as_slice());
    append_bytes(&mut result, " ".as_bytes());
    append_bytes(&mut result, status_text.as_bytes());
    append_bytes(&mut result, "\r\n".as_bytes());
    let ghost prefix = result@;
    let mut i: usize = 0;
    while i < headers.len()
        invariant
            i <= headers@.len(),
            result@ == prefix + header_lines(header_bytes(headers@.take(i as int))),
        decreases headers@.len() - i,
    {
        let (key, value) = headers[i];
        proof {
            assert(headers@.take(i + 1).drop_last() =~= headers@.take(i as int));
            assert(header_bytes(headers@.take(i + 1)).drop_last() =~= header_bytes(
                headers@.take(i as int),
            ));
        }
        append_bytes(&mut result, key.as_bytes());
        append_bytes(&mut result, ": ".as_bytes());
        append_bytes(&mut result, value.as_bytes());
        append_bytes(&mut result, "\r\n".as_bytes());
        i = i + 1;
        proof {
            assert(result@ =~= prefix + header_lines(header_bytes(headers@.take(i as int))));
        }
    }
    assert(headers@.take(headers@.len() as int) =~= headers@);
    append_bytes(&mut result, "Content-Length: ".as_bytes());
    let len = decimal_bytes(body.len() as u64);
    append_bytes(&mut result, len.as_slice());
    append_bytes(&mut result, "\r\n".as_bytes());
    append_bytes(&mut result, "\r\n".as_bytes());
    append_bytes(&mut result, body);
    assert(result@ =~= response_bytes(
        status_code,
        status_text.spec_bytes(),
        header_bytes(headers@),
        body@,
    ));
    result
}

/// The `101 Switching Protocols` response with the given accept key.
pub open spec fn upgrade_response_bytes(accept_key: Seq<u8>) -> Seq<u8> {
    "HTTP/1.1 101 Switching Protocols\r\nUpgrade: websocket\r\nConnection: Upgrade\r\nSec-WebSocket-Accept: ".spec_bytes()
        + accept_key + "\r\n\r\n".spec_bytes()
}

/// Build a WebSocket upgrade response (101 Switching Protocols).
pub fn build_ws_upgrade_response(accept_key: &str) -> (out: Vec<u8>)
    ensures
        out@ == upgrade_response_bytes(accept_key.spec_bytes()),
{
    let mut out: Vec<u8> = Vec::new();
    append_bytes(
        &mut out,
        "HTTP/1.1 101 Switching Protocols\r\nUpgrade: websocket\r\nConnection: Upgrade\r\nSec-WebSocket-Accept: ".as_bytes(),
    );
    append_bytes(&mut out, accept_key.as_bytes());
    append_bytes(&mut out, "\r\n\r\n".as_bytes());
    assert(out@ =~= upgrade_response_bytes(accept_key.spec_bytes()));
    out
}

/// The characters after the last `.` of `s` (all of `s` when it has none).
pub open spec fn last_segment(s: Seq<char>) -> Seq<char>
    decreases s.len(),
{
    if s.len() == 0 {
        Seq::empty()
    } else if s.last() == '.' {
        Seq::empty()
    } else {
        last_segment(s.drop_last()).push(s.last())
    }
}

/// Whether `s` holds a `.`.
pub open spec fn has_dot(s: Seq<char>) -> bool {
    exists|i: int| 0 <= i < s.len() && s[i] == '.'
}

/// The file extension of a path: what follows its last `.`; a path without
/// a `.` has none (the empty extension).
pub open spec fn extension(s: Seq<char>) -> Seq<char> {
    if has_dot(s) {
        last_segment(s)
    } else {
        Seq::empty()
    }
}

/// The MIME type for a lowercase extension.
pub open spec fn mime_of(ext: Seq<char>) -> Seq<char> {
    if ext == "html"@ || ext == "htm"@ {
        "text/html; charset=utf-8"@
    } else if ext == "css"@ {
        "text/css; charset=utf-8"@
    } else if ext == "js"@ {
        "application/javascript; charset=utf-8"@
    } else if ext == "json"@ {
        "application/json; charset=utf-8"@
    } else if ext == "png"@ {
        "image/png"@
    } else if ext == "jpg"@ || ext == "jpeg"@ {
        "image/jpeg"@
    } else if ext == "svg"@ {
        "image/svg+xml"@
    } else if ext == "ico"@ {
        "image/x-icon"@
    } else {
        "application/octet-stream"@
    }
}

fn is_ext(ext: &Vec<char>, name: &str) -> (res: bool)
    ensures
        res == (ext@ == name@),
{
    let n = str_chars(name);
    chars_equal(ext.as_slice(), n.as_slice())
}

/// Guess MIME type from file extension.
pub fn mime_type(path: &str) -> (mime: &'static str)
    ensures
        mime@ == mime_of(lower(extension(path@))),
{
    let chars = str_chars(path);
    let mut start: usize = 0;
    let mut seen_dot = false;
    let mut i: usize = 0;
    while i < chars.len()
        invariant
            start <= i <= chars@.len(),
            last_segment(chars@.take(i as int)) == chars@.subrange(start as int, i as int),
            seen_dot == exists|j: int| 0 <= j < i && chars@[j] == '.',
        decreases chars@.len() - i,
    {
        proof {
            assert(chars@.take(i + 1).drop_last() =~= chars@.take(i as int));
        }
        if chars[i] == '.' {
            start = i + 1;
            seen_dot = true;
        }
        i = i + 1;
        proof {
            assert(last_segment(chars@.take(i as int)) =~= chars@.subrange(
                start as int,
                i as int,
            ));
        }
    }
    assert(chars@.take(chars@.len() as int) =~= chars@);
    let ext = if seen_dot {
        copy_chars(chars.as_slice(), start, chars.len())
    } else {
        Vec::new()
    };
    assert(ext@ =~= extension(chars@));
    let e = to_lower(ext.as_slice());
    if is_ext(&e, "html") || is_ext(&e, "htm") {
        "text/html; charset=utf-8"
    } else if is_ext(&e, "css") {
        "text/css; charset=utf-8"
    } else if is_ext(&e, "js") {
        "application/javascript; charset=utf-8"
    } else if is_ext(&e, "json") {
        "application/json; charset=utf-8"
    } else if is_ext(&e, "png") {
        "image/png"
    } else if is_ext(&e, "jpg") || is_ext(&e, "jpeg") {
        "image/jpeg"
    } else if is_ext(&e, "svg") {
        "image/svg+xml"
    } else if is_ext(&e, "ico") {
        "image/x-icon"
    } else {
        "application/octet-stream"
    }
}

// ---------------------------------------------------------------------------
// Laws
// ---------------------------------------------------------------------------

proof fn lemma_crlfcrlf_from_extend(buf: Seq<u8>, extra: Seq<u8>, i: int, e: int)
    requires
        0 <= i <= e,
        crlfcrlf_from(buf, i) == Some(e),
    ensures
        crlfcrlf_from(buf + extra, i) == Some(e),
    decreases e - i,
{
    lemma_crlfcrlf_from(buf, i);
    let b2 = buf + extra;
    if i < e {
        assert(crlfcrlf_at(b2, i) == crlfcrlf_at(buf, i));
        lemma_crlfcrlf_from_extend(buf, extra, i + 1, e);
    } else {
        assert(crlfcrlf_at(b2, i));
    }
}

/// A complete request does not change when more bytes arrive after it:
/// parsing `buf + extra` gives what parsing `buf` gave, and the request
/// still ends at the same place.
pub proof fn lemma_request_stable(buf: Seq<u8>, extra: Seq<u8>)
    requires
        header_end(buf) is Some,
    ensures
        request_of(buf + extra) == request_of(buf),
        header_end(buf + extra) == header_end(buf),
{
    let e = header_end(buf)->0;
    lemma_crlfcrlf_from(buf, 0);
    lemma_crlfcrlf_from_extend(buf, extra, 0, e);
    assert((buf + extra).take(e) =~= buf.take(e));
}

proof fn lemma_lower_idempotent(s: Seq<char>)
    ensures
        lower(lower(s)) == lower(s),
{
    assert(lower(lower(s)) =~= lower(s));
}

/// Header names are stored in lowercase: every name in a parsed header map
/// is its own ASCII lowercase.
pub proof fn lemma_header_names_lowercase(ls: Seq<Seq<char>>)
    ensures
        forall|k: Seq<char>| #[trigger] header_map(ls).dom().contains(k) ==> lower(k) == k,
    decreases ls.len(),
{
    if ls.len() > 0 {
        lemma_header_names_lowercase(ls.drop_last());
        let l = ls.last();
        if let Some(c) = find_char(l, ':') {
            let key = lower(trim(l.take(c)));
            lemma_lower_idempotent(trim(l.take(c)));
            assert forall|k: Seq<char>| #[trigger]
                header_map(ls).dom().contains(k) implies lower(k) == k by {
                if k != key {
                    assert(header_map(ls.drop_last()).dom().contains(k));
                }
            }
        } else {
            assert(header_map(ls) == header_map(ls.drop_last()));
        }
    }
}

/// What the request parser accepts, it accepts with lowercase header names.
pub proof fn lemma_request_names_lowercase(buf: Seq<u8>)
    ensures
        request_of(buf) matches Ok(Some(r)) ==> forall|k: Seq<char>|
            #[trigger] r.2.dom().contains(k) ==> lower(k) == k,
{
    if let Some(e) = header_end(buf) {
        let block = buf.take(e);
        if valid_utf8(block) {
            let ls = lines(decode_utf8(block));
            if ls.len() > 0 {
                lemma_header_names_lowercase(ls.skip(1));
            }
        }
    }
}

/// Whether `k` is the position of the first `:` of `l`.
pub open spec fn first_colon_at(l: Seq<char>, k: int) -> bool {
    0 <= k < l.len() && l[k] == ':' && forall|j: int| 0 <= j < k ==> l[j] != ':'
}

proof fn lemma_first_colon_found(l: Seq<char>, k: int)
    requires
        first_colon_at(l, k),
    ensures
        find_char(l, ':') == Some(k),
{
    crate::chars::lemma_find_from_bounds(l, ':', 0);
    match find_char(l, ':') {
        Some(c) => {
            if c < k {
                assert(l[c] != ':');
            } else if c > k {
                assert(l[k] != ':');
            }
        },
        None => {
            assert(l[k] != ':');
        },
    }
}

/// Header values are kept whole: the value stored under a header's name is
/// all of the trimmed text after the first `:` of the last line with that
/// name, further colons included (as in `Host: localhost:2233`).
pub proof fn lemma_header_value_whole(ls: Seq<Seq<char>>, i: int, k: int)
    requires
        0 <= i < ls.len(),
        first_colon_at(ls[i], k),
        forall|j: int, c: int|
            i < j < ls.len() && #[trigger] first_colon_at(ls[j], c) ==> lower(trim(ls[j].take(c)))
                != lower(trim(ls[i].take(k))),
    ensures
        header_map(ls).dom().contains(lower(trim(ls[i].take(k)))),
        header_map(ls)[lower(trim(ls[i].take(k)))] == trim(ls[i].skip(k + 1)),
    decreases ls.len(),
{
    let name = lower(trim(ls[i].take(k)));
    let l = ls.last();
    if i == ls.len() - 1 {
        lemma_first_colon_found(l, k);
    } else {
        lemma_header_value_whole(ls.drop_last(), i, k);
        crate::chars::lemma_find_from_bounds(l, ':', 0);
        if let Some(c) = find_char(l, ':') {
            assert(first_colon_at(ls[ls.len() - 1], c));
        }
    }
}

} // verus!
