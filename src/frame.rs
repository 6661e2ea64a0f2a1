//! Encoding and decoding of single, unfragmented WebSocket text frames.
use vstd::prelude::*;
use vstd::utf8::{decode_utf8, encode_utf8, valid_utf8};

verus! {

/// First byte of every frame this library writes: FIN set, text opcode.
pub const FIN_TEXT: u8 = 0x81;

/// The text opcode, the only one a decoded frame may carry.
pub const OPCODE_TEXT: u8 = 1;

/// Largest payload length that fits the one-byte length field.
pub const SHORT_LEN_MAX: usize = 125;

/// Length code announcing a two-byte extended length.
pub const LEN_CODE_16: u8 = 126;

/// Length code announcing an eight-byte extended length.
pub const LEN_CODE_64: u8 = 127;

/// Why a buffer could not be read as a text frame.
#[derive(Debug, Clone, Copy, PartialEq, Eq, Structural)]
pub enum DecodeError {
    /// The buffer ends before the header, mask key or payload does.
    Truncated,
    /// The payload is not well-formed UTF-8.
    InvalidEncoding,
    /// The frame carries an opcode other than text.
    UnsupportedOpcode,
}

/// The length code stored in the low seven bits of the second header byte.
pub open spec fn size_code(n: nat) -> u8 {
    if n <= 125 {
        n as u8
    } else if n < 0x10000 {
        126
    } else {
        127
    }
}

/// Big-endian bytes of a 64-bit length.
pub open spec fn be64_bytes(n: u64) -> Seq<u8> {
    seq![
        ((n >> 56u64) & 0xff) as u8,
        ((n >> 48u64) & 0xff) as u8,
        ((n >> 40u64) & 0xff) as u8,
        ((n >> 32u64) & 0xff) as u8,
        ((n >> 24u64) & 0xff) as u8,
        ((n >> 16u64) & 0xff) as u8,
        ((n >> 8u64) & 0xff) as u8,
        (n & 0xff) as u8,
    ]
}

/// The 64-bit length held big-endian in the first eight bytes of `b`.
pub open spec fn be64_value(b: Seq<u8>) -> u64
    recommends
        b.len() >= 8,
{
    ((b[0] as u64) << 56u64) | ((b[1] as u64) << 48u64) | ((b[2] as u64) << 40u64) | ((
    b[3] as u64) << 32u64) | ((b[4] as u64) << 24u64) | ((b[5] as u64) << 16u64) | ((
    b[6] as u64) << 8u64) | (b[7] as u64)
}

/// The extended length bytes that follow the length code: none, two or eight.
pub open spec fn size_ext(n: nat) -> Seq<u8> {
    if n <= 125 {
        seq![]
    } else if n < 0x10000 {
        seq![(n / 256) as u8, (n % 256) as u8]
    } else {
        be64_bytes(n as u64)
    }
}

/// Payload bytes XORed with the four-byte mask key, cycling over the key.
pub open spec fn apply_mask(p: Seq<u8>, key: Seq<u8>) -> Seq<u8> {
    Seq::new(p.len(), |i: int| p[i] ^ key[i % 4])
}

/// The unmasked text frame that carries `payload`.
pub open spec fn frame_of(payload: Seq<u8>) -> Seq<u8> {
    seq![FIN_TEXT, size_code(payload.len())] + size_ext(payload.len()) + payload
}

/// The masked text frame, as a client sends it, that carries `payload` under `key`.
pub open spec fn masked_frame_of(key: Seq<u8>, payload: Seq<u8>) -> Seq<u8> {
    seq![FIN_TEXT, (size_code(payload.len()) + 128) as u8] + size_ext(payload.len()) + key
        + apply_mask(payload, key)
}

/// Number of extended length bytes announced by a length code.
pub open spec fn ext_len(code: u8) -> int {
    if code <= 125 {
        0
    } else if code == 126 {
        2
    } else {
        8
    }
}

/// The payload length announced by the header of `b`, whose length code is `code`.
pub open spec fn announced_size(b: Seq<u8>, code: u8) -> int {
    if code <= 125 {
        code as int
    } else if code == 126 {
        b[2] * 256 + b[3]
    } else {
        be64_value(b.subrange(2, 10)) as int
    }
}

/// The payload that the frame at the start of `b` carries, unmasked; or why there is none.
/// Bytes after the frame are ignored.
pub open spec fn parse_frame(b: Seq<u8>) -> Result<Seq<u8>, DecodeError> {
    if b.len() < 2 {
        Err(DecodeError::Truncated)
    } else if b[0] % 16 != OPCODE_TEXT {
        Err(DecodeError::UnsupportedOpcode)
    } else {
        let masked = b[1] >= 128;
        let code = (b[1] % 128) as u8;
        let key_at = 2 + ext_len(code);
        let start = key_at + if masked {
            4int
        } else {
            0int
        };
        if b.len() < start {
            Err(DecodeError::Truncated)
        } else {
            let size = announced_size(b, code);
            if b.len() < start + size {
                Err(DecodeError::Truncated)
            } else if masked {
                Ok(apply_mask(b.subrange(start, start + size), b.subrange(key_at, key_at + 4)))
            } else {
                Ok(b.subrange(start, start + size))
            }
        }
    }
}

/// The text that the frame at the start of `b` carries; or why there is none.
pub open spec fn decode_text(b: Seq<u8>) -> Result<Seq<char>, DecodeError> {
    match parse_frame(b) {
        Err(e) => Err(e),
        Ok(p) => if valid_utf8(p) {
            Ok(decode_utf8(p))
        } else {
            Err(DecodeError::InvalidEncoding)
        },
    }
}

/// Number of bytes of the frame that carries a payload of `n` bytes.
pub open spec fn frame_len(n: nat) -> nat {
    2 + size_ext(n).len() + n
}

/// Relies on std::str::from_utf8: it accepts exactly the well-formed UTF-8
/// sequences, and then yields the characters they encode.
#[verifier::external_body]
pub(crate) fn utf8_to_string(b: &[u8]) -> (r: Option<String>)
    ensures
        r is Some <==> valid_utf8(b@),
        r matches Some(s) ==> s@ == decode_utf8(b@),
{
    match std::str::from_utf8(b) {
        Ok(s) => Some(s.to_string()),
        Err(_) => None,
    }
}


/// Reads the big-endian 64-bit length that starts at `at`.
fn read_be64(buf: &[u8], at: usize) -> (r: u64)
    requires
        at + 8 <= buf@.len(),
    ensures
        r == be64_value(buf@.subrange(at as int, at + 8)),
{
    ((buf[at] as u64) << 56u64) | ((buf[at + 1] as u64) << 48u64) | ((buf[at + 2] as u64)
        << 40u64) | ((buf[at + 3] as u64) << 32u64) | ((buf[at + 4] as u64) << 24u64) | ((buf[at
        + 5] as u64) << 16u64) | ((buf[at + 6] as u64) << 8u64) | (buf[at + 7] as u64)
}

/// Extracts the text carried by the frame at the start of `buf`.
///
/// The header, extended length, mask key and payload are all checked to lie
/// inside `buf` before they are read; a masked payload is unmasked with its
/// key, and the payload must be well-formed UTF-8.
pub fn get_text(buf: &[u8]) -> (r: Result<String, DecodeError>)
    ensures
        match decode_text(buf@) {
            Ok(t) => r matches Ok(s) && s@ == t,
            Err(e) => r == Err::<String, DecodeError>(e),
        },
{
    if buf.len() < 2 {
        return Err(DecodeError::Truncated);
    }
    if buf[0] % 16 != OPCODE_TEXT {
        return Err(DecodeError::UnsupportedOpcode);
    }
    let masked = buf[1] >= 128;
    let code = buf[1] % 128;
    let ext: usize = if code <= 125 {
        0
    } else if code == LEN_CODE_16 {
        2
    } else {
        8
    };
    let key_at: usize = 2 + ext;
    let start: usize = if masked {
        key_at + 4
    } else {
        key_at
    };
    if buf.len() < start {
        return Err(DecodeError::Truncated);
    }
    let size: u64 = if code <= 125 {
        code as u64
    } else if code == LEN_CODE_16 {
        (buf[2] as u64) * 256 + (buf[3] as u64)
    } else {
        read_be64(buf, 2)
    };
    assert(size == announced_size(buf@, code));
    if size > (buf.len() - start) as u64 {
        return Err(DecodeError::Truncated);
    }
    let size = size as usize;
    let ghost raw = buf@.subrange(start as int, start + size);
    let ghost key = buf@.subrange(key_at as int, key_at + 4);
    let n = buf.len();
    let mut data: Vec<u8> = Vec::with_capacity(size);
    let mut x: usize = 0;
    while x < size
        invariant
            x <= size,
            n == buf@.len(),
            start + size <= n,
            masked ==> key_at + 4 == start,
            raw == buf@.subrange(start as int, start + size),
            masked ==> key == buf@.subrange(key_at as int, key_at + 4),
            data@.len() == x,
            forall|j: int|
                0 <= j < x ==> #[trigger] data@[j] == if masked {
                    raw[j] ^ key[j % 4]
                } else {
                    raw[j]
                },
        decreases size - x,
    {
        let byte = if masked {
            buf[start + x] ^ buf[key_at + x % 4]
        } else {
            buf[start + x]
        };
        data.push(byte);
        x += 1;
    }
    proof {
        if masked {
            assert(data@ =~= apply_mask(raw, key));
        } else {
            assert(data@ =~= raw);
        }
    }
    match utf8_to_string(data.as_slice()) {
        Some(s) => Ok(s),
        None => Err(DecodeError::InvalidEncoding),
    }
}


/// Writes the text frame that carries `msg` at the start of `buf` and returns
/// its length. The frame is unmasked, its length field as short as the
/// payload allows; the bytes of `buf` after the frame are left as they were.
pub fn set_text(buf: &mut [u8], msg: &str) -> (r: usize)
    requires
        frame_len(encode_utf8(msg@).len()) <= old(buf)@.len(),
    ensures
        r == frame_len(encode_utf8(msg@).len()),
        final(buf)@.len() == old(buf)@.len(),
        final(buf)@.subrange(0, r as int) == frame_of(encode_utf8(msg@)),
        final(buf)@.subrange(r as int, final(buf)@.len() as int) == old(buf)@.subrange(
            r as int,
            old(buf)@.len() as int,
        ),
{
    let bytes = msg.as_bytes();
    let len = bytes.len();
    let ghost head: Seq<u8> = seq![FIN_TEXT, size_code(len as nat)] + size_ext(len as nat);
    buf[0] = FIN_TEXT;
    let mut i: usize;
    if len <= SHORT_LEN_MAX {
        buf[1] = len as u8;
        i = 2;
    } else if len < 0x10000 {
        buf[1] = LEN_CODE_16;
        buf[2] = (len / 256) as u8;
        buf[3] = (len % 256) as u8;
        i = 4;
    } else {
        let n = len as u64;
        buf[1] = LEN_CODE_64;
        buf[2] = ((n >> 56u64) & 0xff) as u8;
        buf[3] = ((n >> 48u64) & 0xff) as u8;
        buf[4] = ((n >> 40u64) & 0xff) as u8;
        buf[5] = ((n >> 32u64) & 0xff) as u8;
        buf[6] = ((n >> 24u64) & 0xff) as u8;
        buf[7] = ((n >> 16u64) & 0xff) as u8;
        buf[8] = ((n >> 8u64) & 0xff) as u8;
        buf[9] = (n & 0xff) as u8;
        i = 10;
    }
    assert(buf@.subrange(0, i as int) =~= head);
    let ghost before: Seq<u8> = buf@;
    let blen = buf.len();
    let mut k: usize = 0;
    while k < len
        invariant
            blen == buf@.len(),
            i == head.len(),
            len == bytes@.len(),
            bytes@ == encode_utf8(msg@),
            i + len <= buf@.len(),
            buf@.len() == old(buf)@.len(),
            before.len() == old(buf)@.len(),
            before.subrange(0, i as int) == head,
            forall|j: int| i + len <= j < before.len() ==> #[trigger] before[j] == old(buf)@[j],
            k <= len,
            forall|j: int| 0 <= j < i ==> #[trigger] buf@[j] == before[j],
            forall|j: int| 0 <= j < k ==> #[trigger] buf@[i + j] == bytes@[j],
            forall|j: int| i + k <= j < buf@.len() ==> #[trigger] buf@[j] == before[j],
        decreases len - k,
    {
        buf[i + k] = bytes[k];
        k += 1;
    }
    assert(buf@.subrange(0, (i + len) as int) =~= frame_of(bytes@)) by {
        assert(frame_of(bytes@) == head + bytes@);
        assert forall|j: int| 0 <= j < i + len implies #[trigger] buf@[j] == (head + bytes@)[j] by {
            if j < i {
                assert(head[j] == before.subrange(0, i as int)[j]);
            } else {
                assert(buf@[i + (j - i)] == bytes@[j - i]);
            }
        }
    }
    assert(buf@.subrange((i + len) as int, buf@.len() as int) =~= old(buf)@.subrange(
        (i + len) as int,
        old(buf)@.len() as int,
    ));
    i + len
}

/// The text frame that carries `msg`, as a fresh buffer.
pub fn encode_text(msg: &str) -> (r: Vec<u8>)
    requires
        frame_len(encode_utf8(msg@).len()) <= usize::MAX,
    ensures
        r@ == frame_of(encode_utf8(msg@)),
{
    let len = msg.as_bytes().len();
    let total: usize = if len <= SHORT_LEN_MAX {
        2 + len
    } else if len < 0x10000 {
        4 + len
    } else {
        10 + len
    };
    let mut out: Vec<u8> = vec![0u8; total];
    let n = set_text(out.as_mut_slice(), msg);
    assert(out@ =~= out@.subrange(0, n as int));
    out
}


/// Reading back the big-endian bytes of a 64-bit length gives that length.
pub proof fn lemma_be64_round_trip(n: u64)
    ensures
        be64_value(be64_bytes(n)) == n,
{
    let b = be64_bytes(n);
    assert(((((n >> 56u64) & 0xff) as u8 as u64) << 56u64) | ((((n >> 48u64) & 0xff) as u8 as u64)
        << 48u64) | ((((n >> 40u64) & 0xff) as u8 as u64) << 40u64) | ((((n >> 32u64) & 0xff) as u8
        as u64) << 32u64) | ((((n >> 24u64) & 0xff) as u8 as u64) << 24u64) | ((((n >> 16u64)
        & 0xff) as u8 as u64) << 16u64) | ((((n >> 8u64) & 0xff) as u8 as u64) << 8u64) | ((n
        & 0xff) as u8 as u64) == n) by (bit_vector);
}

/// The length field written for a payload of `n` bytes announces `n` again.
proof fn lemma_size_field(b: Seq<u8>, n: nat)
    requires
        n < 0x1_0000_0000_0000_0000,
        b.len() >= 2 + size_ext(n).len(),
        b.subrange(2, 2 + size_ext(n).len() as int) == size_ext(n),
    ensures
        ext_len(size_code(n)) == size_ext(n).len(),
        announced_size(b, size_code(n)) == n,
{
    if n <= 125 {
    } else if n < 0x10000 {
        assert(b[2] == size_ext(n)[0]);
        assert(b[3] == size_ext(n)[1]);
        assert((n / 256) * 256 + n % 256 == n);
    } else {
        assert(b.subrange(2, 10) == be64_bytes(n as u64));
        lemma_be64_round_trip(n as u64);
    }
}

/// Masking twice with the same key gives the payload back.
pub proof fn lemma_mask_involutive(p: Seq<u8>, key: Seq<u8>)
    requires
        key.len() == 4,
    ensures
        apply_mask(apply_mask(p, key), key) == p,
{
    assert forall|i: int| 0 <= i < p.len() implies #[trigger] apply_mask(apply_mask(p, key), key)[i]
        == p[i] by {
        let x = p[i];
        let k = key[i % 4];
        assert((x ^ k) ^ k == x) by (bit_vector);
    }
    assert(apply_mask(apply_mask(p, key), key) =~= p);
}

/// Decoding the unmasked frame of any payload gives that payload back.
pub proof fn lemma_parse_frame_of(p: Seq<u8>)
    requires
        p.len() < 0x1_0000_0000_0000_0000,
    ensures
        parse_frame(frame_of(p)) == Ok::<Seq<u8>, DecodeError>(p),
{
    let b = frame_of(p);
    let n = p.len();
    let ext = size_ext(n);
    assert(b.subrange(2, 2 + ext.len() as int) =~= ext);
    lemma_size_field(b, n);
    assert(b[1] == size_code(n));
    assert(b.subrange(2 + ext.len() as int, (2 + ext.len() + n) as int) =~= p);
}

/// Decoding a client's masked frame gives back exactly the bytes that were
/// masked, whatever the four-byte key.
pub proof fn lemma_masked_decode(key: Seq<u8>, p: Seq<u8>)
    requires
        key.len() == 4,
        p.len() < 0x1_0000_0000_0000_0000,
    ensures
        parse_frame(masked_frame_of(key, p)) == Ok::<Seq<u8>, DecodeError>(p),
{
    let b = masked_frame_of(key, p);
    let n = p.len();
    let ext = size_ext(n);
    let key_at: int = 2 + ext.len() as int;
    assert(b.subrange(2, key_at) =~= ext);
    lemma_size_field(b, n);
    let c = size_code(n);
    assert(b[1] == (c + 128) as u8);
    assert(b[1] >= 128 && (b[1] % 128) as u8 == c);
    assert(b.subrange(key_at, key_at + 4) =~= key);
    assert(b.subrange(key_at + 4, key_at + 4 + n) =~= apply_mask(p, key));
    lemma_mask_involutive(p, key);
}

/// A text survives the trip through its frame: decoding the frame that
/// `encode_text` or `set_text` writes for `m` gives `m` again.
pub proof fn lemma_text_round_trip(m: Seq<char>)
    requires
        encode_utf8(m).len() < 0x1_0000_0000_0000_0000,
    ensures
        decode_text(frame_of(encode_utf8(m))) == Ok::<Seq<char>, DecodeError>(m),
{
    broadcast use vstd::utf8::encode_utf8_valid_utf8, vstd::utf8::encode_utf8_decode_utf8;

    lemma_parse_frame_of(encode_utf8(m));
}

} // verus!
