//! The HTTP upgrade handshake that opens a WebSocket connection.
use vstd::prelude::*;
use vstd::string::StringExecFns;
use vstd::utf8::{encode_utf8, valid_utf8};

use base64::Engine;
use sha1::Digest;

verus! {

/// The fixed GUID that the protocol appends to the client's key.
pub const WS_GUID: &'static str = "258EAFA5-E914-47DA-95CA-C5AB0DC85B11";

/// Why an upgrade request was refused.
#[derive(Debug, Clone, Copy, PartialEq, Eq, Structural)]
pub enum HandshakeError {
    /// The request is not well-formed UTF-8.
    InvalidEncoding,
    /// `Upgrade` is absent or not `websocket`.
    BadUpgrade,
    /// `Sec-WebSocket-Version` is absent or not `13`.
    UnsupportedVersion,
    /// `Connection` is present and not `Upgrade`.
    BadConnection,
    /// `Sec-WebSocket-Key` is absent.
    MissingKey,
}

/// The SHA-1 digest of `data`.
pub uninterp spec fn sha1_digest(data: Seq<u8>) -> Seq<u8>;

/// The standard, padded base64 text of `data`.
pub uninterp spec fn base64_standard(data: Seq<u8>) -> Seq<char>;

/// Relies on sha1's `Digest::digest` for `Sha1`: the 20-byte SHA-1 digest of `data`.
#[verifier::external_body]
fn sha1(data: &[u8]) -> (r: Vec<u8>)
    ensures
        r@ == sha1_digest(data@),
        r@.len() == 20,
{
    sha1::Sha1::digest(data).to_vec()
}

/// Relies on base64's `Engine::encode` with the `STANDARD` engine: the padded
/// base64 text of `data`. It panics only when the text's length overflows.
#[verifier::external_body]
fn base64_encode(data: &[u8]) -> (r: String)
    requires
        data@.len() <= 0x1000,
    ensures
        r@ == base64_standard(data@),
{
    base64::engine::general_purpose::STANDARD.encode(data)
}

/// The first `j` in `lo .. hi - 1` with `b[j] == x` and `b[j + 1] == y`, or `hi` when there is none.
pub open spec fn find_pair(b: Seq<u8>, lo: int, hi: int, x: u8, y: u8) -> int
    decreases hi - lo,
{
    if lo + 1 >= hi {
        hi
    } else if b[lo] == x && b[lo + 1] == y {
        lo
    } else {
        find_pair(b, lo + 1, hi, x, y)
    }
}

/// The header name of a request line: what stands before the first `": "`.
pub open spec fn header_name(line: Seq<u8>) -> Seq<u8> {
    line.subrange(0, find_pair(line, 0, line.len() as int, 0x3a, 0x20))
}

/// The header value of a request line: what follows the first `": "`, or nothing.
pub open spec fn header_value(line: Seq<u8>) -> Seq<u8> {
    let sep = find_pair(line, 0, line.len() as int, 0x3a, 0x20);
    if sep < line.len() {
        line.subrange(sep + 2, line.len() as int)
    } else {
        seq![]
    }
}

/// What the header lines read so far have established.
pub struct Seen {
    pub upgrade: bool,
    pub version: bool,
    pub key: Option<Seq<u8>>,
}

/// The state before any line has been read.
pub open spec fn nothing_seen() -> Seen {
    Seen { upgrade: false, version: false, key: None }
}

/// The effect of one request line on what has been seen; a header with a
/// wrong value fails at once.
pub open spec fn read_line(line: Seq<u8>, seen: Seen) -> Result<Seen, HandshakeError> {
    let name = header_name(line);
    let value = header_value(line);
    if name == encode_utf8("Upgrade"@) {
        if value == encode_utf8("websocket"@) {
            Ok(Seen { upgrade: true, ..seen })
        } else {
            Err(HandshakeError::BadUpgrade)
        }
    } else if name == encode_utf8("Sec-WebSocket-Version"@) {
        if value == encode_utf8("13"@) {
            Ok(Seen { version: true, ..seen })
        } else {
            Err(HandshakeError::UnsupportedVersion)
        }
    } else if name == encode_utf8("Connection"@) {
        if value == encode_utf8("Upgrade"@) {
            Ok(seen)
        } else {
            Err(HandshakeError::BadConnection)
        }
    } else if name == encode_utf8("Sec-WebSocket-Key"@) {
        Ok(Seen { key: Some(value), ..seen })
    } else {
        Ok(seen)
    }
}

/// Reads the CRLF-separated lines of `b` from `start` on, in order.
pub open spec fn read_lines(b: Seq<u8>, start: int, seen: Seen) -> Result<Seen, HandshakeError>
    decreases b.len() - start,
{
    let end = find_pair(b, start, b.len() as int, 0x0d, 0x0a);
    match read_line(b.subrange(start, end), seen) {
        Err(e) => Err(e),
        Ok(next) => if start <= end && end + 2 <= b.len() {
            read_lines(b, end + 2, next)
        } else {
            Ok(next)
        },
    }
}

/// The client key of an upgrade request, or why the request is refused.
/// A header with a wrong value is reported at the first such line; a missing
/// header after all lines are read, `Upgrade` first, then the version, then the key.
pub open spec fn request_key(b: Seq<u8>) -> Result<Seq<u8>, HandshakeError> {
    if !valid_utf8(b) {
        Err(HandshakeError::InvalidEncoding)
    } else {
        match read_lines(b, 0, nothing_seen()) {
            Err(e) => Err(e),
            Ok(seen) => if !seen.upgrade {
                Err(HandshakeError::BadUpgrade)
            } else if !seen.version {
                Err(HandshakeError::UnsupportedVersion)
            } else {
                match seen.key {
                    Some(k) => Ok(k),
                    None => Err(HandshakeError::MissingKey),
                }
            },
        }
    }
}


/// Finds the first `j` in `lo .. hi - 1` with `b[j] == x` and `b[j + 1] == y`; `hi` when there is none.
fn find_pair_in(b: &[u8], lo: usize, hi: usize, x: u8, y: u8) -> (r: usize)
    requires
        lo <= hi <= b@.len(),
    ensures
        r == find_pair(b@, lo as int, hi as int, x, y),
        lo <= r <= hi,
        r < hi ==> r + 1 < hi,
{
    let mut j = lo;
    while hi - j > 1
        invariant
            lo <= j <= hi,
            hi <= b@.len(),
            find_pair(b@, j as int, hi as int, x, y) == find_pair(b@, lo as int, hi as int, x, y),
        decreases hi - j,
    {
        if b[j] == x && b[j + 1] == y {
            return j;
        }
        j += 1;
    }
    hi
}

/// Whether `a` and `b` hold the same bytes.
pub(crate) fn same_bytes(a: &[u8], b: &[u8]) -> (r: bool)
    ensures
        r == (a@ == b@),
{
    if a.len() != b.len() {
        return false;
    }
    let mut i: usize = 0;
    while i < a.len()
        invariant
            a@.len() == b@.len(),
            i <= a@.len(),
            forall|j: int| 0 <= j < i ==> a@[j] == b@[j],
        decreases a@.len() - i,
    {
        if a[i] != b[i] {
            return false;
        }
        i += 1;
    }
    assert(a@ =~= b@);
    true
}

/// Copies a byte slice into a new vector.
fn to_vec(b: &[u8]) -> (r: Vec<u8>)
    ensures
        r@ == b@,
{
    let mut out: Vec<u8> = Vec::with_capacity(b.len());
    let mut i: usize = 0;
    while i < b.len()
        invariant
            i <= b@.len(),
            out@ == b@.subrange(0, i as int),
        decreases b@.len() - i,
    {
        out.push(b[i]);
        i += 1;
        assert(out@ =~= b@.subrange(0, i as int));
    }
    assert(b@.subrange(0, b@.len() as int) =~= b@);
    out
}

/// What the flags and key of the handshake scan stand for.
pub open spec fn seen_of(upgrade: bool, version: bool, key: Option<Vec<u8>>) -> Seen {
    Seen {
        upgrade,
        version,
        key: match key {
            Some(k) => Some(k@),
            None => None,
        },
    }
}

/// Applies one request line to what has been seen so far.
fn check_line(line: &[u8], upgrade: &mut bool, version: &mut bool, key: &mut Option<Vec<u8>>) -> (r:
    Result<(), HandshakeError>)
    ensures
        match read_line(line@, seen_of(*old(upgrade), *old(version), *old(key))) {
            Ok(seen) => r is Ok && seen == seen_of(*final(upgrade), *final(version), *final(key)),
            Err(e) => r == Err::<(), HandshakeError>(e),
        },
{
    let sep = find_pair_in(line, 0, line.len(), 0x3a, 0x20);
    let name = &line[0..sep];
    let value: &[u8] = if sep < line.len() {
        &line[sep + 2..line.len()]
    } else {
        &line[0..0]
    };
    proof {
        assert(name@ == header_name(line@));
        assert(value@ =~= header_value(line@));
    }
    if same_bytes(name, "Upgrade".as_bytes()) {
        if same_bytes(value, "websocket".as_bytes()) {
            *upgrade = true;
            Ok(())
        } else {
            Err(HandshakeError::BadUpgrade)
        }
    } else if same_bytes(name, "Sec-WebSocket-Version".as_bytes()) {
        if same_bytes(value, "13".as_bytes()) {
            *version = true;
            Ok(())
        } else {
            Err(HandshakeError::UnsupportedVersion)
        }
    } else if same_bytes(name, "Connection".as_bytes()) {
        if same_bytes(value, "Upgrade".as_bytes()) {
            Ok(())
        } else {
            Err(HandshakeError::BadConnection)
        }
    } else if same_bytes(name, "Sec-WebSocket-Key".as_bytes()) {
        *key = Some(to_vec(value));
        Ok(())
    } else {
        Ok(())
    }
}


/// Checks an upgrade request and returns the client's `Sec-WebSocket-Key`.
///
/// The request must be UTF-8; its CRLF-separated lines are read as
/// `Name: Value` headers. `Upgrade` must be `websocket` and
/// `Sec-WebSocket-Version` must be `13`, both present; `Connection`, where
/// present, must be `Upgrade`; the last `Sec-WebSocket-Key` line gives the key.
pub fn parse_request(request: &[u8]) -> (r: Result<Vec<u8>, HandshakeError>)
    ensures
        match request_key(request@) {
            Ok(k) => r matches Ok(v) && v@ == k,
            Err(e) => r == Err::<Vec<u8>, HandshakeError>(e),
        },
{
    if crate::frame::utf8_to_string(request).is_none() {
        return Err(HandshakeError::InvalidEncoding);
    }
    let n = request.len();
    let mut upgrade = false;
    let mut version = false;
    let mut key: Option<Vec<u8>> = None;
    let mut start: usize = 0;
    loop
        invariant
            n == request@.len(),
            valid_utf8(request@),
            start <= n,
            read_lines(request@, 0, nothing_seen()) == read_lines(
                request@,
                start as int,
                seen_of(upgrade, version, key),
            ),
        ensures
            read_lines(request@, 0, nothing_seen()) == Ok::<Seen, HandshakeError>(
                seen_of(upgrade, version, key),
            ),
        decreases n - start,
    {
        let ghost before = seen_of(upgrade, version, key);
        let end = find_pair_in(request, start, n, 0x0d, 0x0a);
        let line = &request[start..end];
        let checked = check_line(line, &mut upgrade, &mut version, &mut key);
        proof {
            assert(read_lines(request@, start as int, before) == match read_line(line@, before) {
                Err(e) => Err(e),
                Ok(next) => if start <= end && end + 2 <= n {
                    read_lines(request@, end + 2, next)
                } else {
                    Ok(next)
                },
            });
        }
        match checked {
            Err(e) => {
                assert(read_lines(request@, 0, nothing_seen()) == Err::<Seen, HandshakeError>(e));
                return Err(e);
            },
            Ok(()) => {},
        }
        if end < n {
            start = end + 2;
        } else {
            break;
        }
    }
    if !upgrade {
        return Err(HandshakeError::BadUpgrade);
    }
    if !version {
        return Err(HandshakeError::UnsupportedVersion);
    }
    match key {
        Some(k) => Ok(k),
        None => Err(HandshakeError::MissingKey),
    }
}

/// The `Sec-WebSocket-Accept` token for a client key: the base64 text of the
/// SHA-1 digest of the key followed by the protocol GUID.
pub fn accept_token(key: &[u8]) -> (r: String)
    ensures
        r@ == base64_standard(sha1_digest(key@ + encode_utf8(WS_GUID@))),
{
    let mut combined = to_vec(key);
    let guid = WS_GUID.as_bytes();
    let mut i: usize = 0;
    while i < guid.len()
        invariant
            i <= guid@.len(),
            guid@ == encode_utf8(WS_GUID@),
            combined@ == key@ + guid@.subrange(0, i as int),
        decreases guid@.len() - i,
    {
        combined.push(guid[i]);
        i += 1;
        assert(combined@ =~= key@ + guid@.subrange(0, i as int));
    }
    assert(guid@.subrange(0, guid@.len() as int) =~= guid@);
    let digest = sha1(combined.as_slice());
    base64_encode(digest.as_slice())
}

/// The text of the `101 Switching Protocols` response that carries `accept`.
pub open spec fn upgrade_response_text(accept: Seq<char>) -> Seq<char> {
    "HTTP/1.1 101 Switching Protocols\r\nUpgrade: websocket\r\nConnection: Upgrade\r\nSec-WebSocket-Accept: "@
        + accept + "\r\n\r\n"@
}

/// The `101 Switching Protocols` response that completes the handshake.
pub fn upgrade_response(accept: &str) -> (r: String)
    ensures
        r@ == upgrade_response_text(accept@),
{
    let head = String::from_str(
        "HTTP/1.1 101 Switching Protocols\r\nUpgrade: websocket\r\nConnection: Upgrade\r\nSec-WebSocket-Accept: ",
    );
    let mut out = head.concat(accept);
    out.append("\r\n\r\n");
    out
}

/// Negotiates the upgrade of a connection from the bytes of its first read:
/// the `101` response to send on success, else why the request was refused.
pub fn negotiate(request: &[u8]) -> (r: Result<String, HandshakeError>)
    ensures
        match request_key(request@) {
            Ok(k) => r matches Ok(s) && s@ == upgrade_response_text(
                base64_standard(sha1_digest(k + encode_utf8(WS_GUID@))),
            ),
            Err(e) => r == Err::<String, HandshakeError>(e),
        },
{
    let key = parse_request(request)?;
    let accept = accept_token(key.as_slice());
    Ok(upgrade_response(accept.as_str()))
}


/// Whether a request line starts at `i`: at the start, or just after a CRLF.
pub open spec fn starts_line(b: Seq<u8>, i: int) -> bool {
    i == 0 || (2 <= i <= b.len() && b[i - 2] == 0x0d && b[i - 1] == 0x0a)
}

/// The request line that starts at `i`.
pub open spec fn line_at(b: Seq<u8>, i: int) -> Seq<u8> {
    b.subrange(i, find_pair(b, i, b.len() as int, 0x0d, 0x0a))
}

/// Whether a request line reads `Sec-WebSocket-Version: 13`.
pub open spec fn is_version_13(line: Seq<u8>) -> bool {
    header_name(line) == encode_utf8("Sec-WebSocket-Version"@) && header_value(line) == encode_utf8(
        "13"@,
    )
}

/// `find_pair` answers a position in range, where the pair stands if it is not `hi`.
proof fn lemma_find_pair_bounds(b: Seq<u8>, lo: int, hi: int, x: u8, y: u8)
    requires
        0 <= lo <= hi <= b.len(),
    ensures
        lo <= find_pair(b, lo, hi, x, y) <= hi,
        find_pair(b, lo, hi, x, y) < hi ==> find_pair(b, lo, hi, x, y) + 1 < hi && b[find_pair(
            b,
            lo,
            hi,
            x,
            y,
        )] == x && b[find_pair(b, lo, hi, x, y) + 1] == y,
    decreases hi - lo,
{
    if lo + 1 < hi && !(b[lo] == x && b[lo + 1] == y) {
        lemma_find_pair_bounds(b, lo + 1, hi, x, y);
    }
}

/// Reading lines from `start` on sets the version flag only through a
/// `Sec-WebSocket-Version: 13` line at or after `start`.
proof fn lemma_version_needs_line(b: Seq<u8>, start: int, seen: Seen)
    requires
        0 <= start <= b.len(),
        starts_line(b, start),
        !seen.version,
        read_lines(b, start, seen) is Ok,
        read_lines(b, start, seen)->Ok_0.version,
    ensures
        exists|i: int| start <= i <= b.len() && starts_line(b, i) && is_version_13(#[trigger] line_at(b, i)),
    decreases b.len() - start,
{
    let end = find_pair(b, start, b.len() as int, 0x0d, 0x0a);
    lemma_find_pair_bounds(b, start, b.len() as int, 0x0d, 0x0a);
    let line = b.subrange(start, end);
    assert(line_at(b, start) == line);
    if !is_version_13(line) {
        let next = read_line(line, seen)->Ok_0;
        assert(!next.version);
        if end + 2 <= b.len() {
            lemma_version_needs_line(b, end + 2, next);
        }
    }
}

/// A request without a `Sec-WebSocket-Version: 13` line, one that leaves the
/// header out or asks for another version, is refused: it yields no key, so
/// `negotiate` produces no `101` response for it.
pub proof fn lemma_version_13_required(b: Seq<u8>)
    requires
        forall|i: int| 0 <= i <= b.len() && starts_line(b, i) ==> !is_version_13(#[trigger] line_at(b, i)),
    ensures
        request_key(b) is Err,
{
    if valid_utf8(b) && read_lines(b, 0, nothing_seen()) is Ok && read_lines(b, 0, nothing_seen())->Ok_0.version {
        lemma_version_needs_line(b, 0, nothing_seen());
    }
}


/// The description of a refusal, sent as the body of the `400` response.
pub open spec fn error_message(e: HandshakeError) -> Seq<char> {
    match e {
        HandshakeError::InvalidEncoding => "request is not valid UTF-8"@,
        HandshakeError::BadUpgrade => "invalid or missing Upgrade header"@,
        HandshakeError::UnsupportedVersion => "unsupported WebSocket version"@,
        HandshakeError::BadConnection => "invalid Connection header"@,
        HandshakeError::MissingKey => "missing Sec-WebSocket-Key header"@,
    }
}

/// The decimal digits of `n`, most significant first.
pub open spec fn decimal(n: nat) -> Seq<char>
    decreases n,
{
    if n < 10 {
        seq![(48 + n) as char]
    } else {
        decimal(n / 10) + seq![(48 + n % 10) as char]
    }
}

/// The text of the `400 Bad Request` response that carries `body`.
pub open spec fn bad_request_text(body: Seq<char>) -> Seq<char> {
    "HTTP/1.1 400 Bad Request\r\nContent-Type: text/plain\r\nContent-Length: "@ + decimal(
        encode_utf8(body).len(),
    ) + "\r\n\r\n"@ + body
}

impl HandshakeError {
    /// A one-line description of the refusal.
    pub fn message(&self) -> (r: &'static str)
        ensures
            r@ == error_message(*self),
    {
        match self {
            HandshakeError::InvalidEncoding => "request is not valid UTF-8",
            HandshakeError::BadUpgrade => "invalid or missing Upgrade header",
            HandshakeError::UnsupportedVersion => "unsupported WebSocket version",
            HandshakeError::BadConnection => "invalid Connection header",
            HandshakeError::MissingKey => "missing Sec-WebSocket-Key header",
        }
    }
}

/// The one-character text of a decimal digit.
fn digit_text(d: usize) -> (r: &'static str)
    requires
        d < 10,
    ensures
        r@ == seq![(48 + d) as char],
{
    proof {
        reveal_strlit("0");
        reveal_strlit("1");
        reveal_strlit("2");
        reveal_strlit("3");
        reveal_strlit("4");
        reveal_strlit("5");
        reveal_strlit("6");
        reveal_strlit("7");
        reveal_strlit("8");
        reveal_strlit("9");
    }
    let r = match d {
        0 => "0",
        1 => "1",
        2 => "2",
        3 => "3",
        4 => "4",
        5 => "5",
        6 => "6",
        7 => "7",
        8 => "8",
        _ => "9",
    };
    assert(r@ =~= seq![(48 + d) as char]);
    r
}

/// `n` written in decimal.
pub fn decimal_text(n: usize) -> (r: String)
    ensures
        r@ == decimal(n as nat),
    decreases n,
{
    if n < 10 {
        String::from_str(digit_text(n))
    } else {
        decimal_text(n / 10).concat(digit_text(n % 10))
    }
}

/// The `400 Bad Request` response for a refused handshake: a plain-text
/// body holding the refusal's description, and its length in bytes.
pub fn bad_request_response(e: HandshakeError) -> (r: String)
    ensures
        r@ == bad_request_text(error_message(e)),
{
    let body = e.message();
    let head = String::from_str(
        "HTTP/1.1 400 Bad Request\r\nContent-Type: text/plain\r\nContent-Length: ",
    );
    let mut out = head.concat(decimal_text(body.as_bytes().len()).as_str());
    out.append("\r\n\r\n");
    out.append(body);
    out
}

} // verus!
