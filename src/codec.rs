//! Hex payloads: the signed-order bytes and signatures that arrive as hex text.
use ethers::utils::hex;
use vstd::prelude::*;

verus! {

pub open spec fn is_hex_digit(c: char) -> bool {
    ('0' <= c && c <= '9') || ('a' <= c && c <= 'f') || ('A' <= c && c <= 'F')
}

pub open spec fn hex_digit_value(c: char) -> nat {
    if '0' <= c && c <= '9' {
        (c as u32 - '0' as u32) as nat
    } else if 'a' <= c && c <= 'f' {
        (c as u32 - 'a' as u32 + 10) as nat
    } else {
        (c as u32 - 'A' as u32 + 10) as nat
    }
}

/// `s` without a leading `0x` or `0X`, as the hex decoder skips it.
pub open spec fn skip_hex_marker(s: Seq<char>) -> Seq<char> {
    if s.len() >= 2 && s[0] == '0' && (s[1] == 'x' || s[1] == 'X') {
        s.skip(2)
    } else {
        s
    }
}

/// `s` without a leading lower-case `0x`: the one normalisation of an encoded order.
pub open spec fn strip_order_prefix(s: Seq<char>) -> Seq<char> {
    if s.len() >= 2 && s[0] == '0' && s[1] == 'x' {
        s.skip(2)
    } else {
        s
    }
}

/// The hex decoder accepts `s`: an even number of characters, all hex digits after
/// an optional `0x` / `0X` marker.
pub open spec fn hex_decodes(s: Seq<char>) -> bool {
    &&& s.len() % 2 == 0
    &&& forall|i: int| 0 <= i < skip_hex_marker(s).len() ==> is_hex_digit(#[trigger] skip_hex_marker(s)[i])
}

/// The bytes written by a string of hex digit pairs.
pub open spec fn hex_bytes(d: Seq<char>) -> Seq<u8> {
    Seq::new(d.len() / 2, |i: int| (hex_digit_value(d[2 * i]) * 16 + hex_digit_value(d[2 * i + 1])) as u8)
}

/// Relies on `ethers::utils::hex::decode` (const-hex): odd length fails, a leading
/// `0x`/`0X` is skipped, then every character must be a hex digit; each pair gives a byte.
#[verifier::external_body]
fn hex_decode(s: &str) -> (r: Option<Vec<u8>>)
    ensures
        r.is_some() == hex_decodes(s@),
        r.is_some() ==> r->0@ == hex_bytes(skip_hex_marker(s@)),
{
    hex::decode(s).ok()
}

/// A payload that is not valid hex.
#[derive(Debug, Clone, Copy, PartialEq, Eq)]
pub enum DecodeError {
    InvalidHex,
}

/// `t` is an even number of hex digits, with no marker of any kind.
pub open spec fn plain_hex(t: Seq<char>) -> bool {
    &&& t.len() % 2 == 0
    &&& forall|i: int| 0 <= i < t.len() ==> is_hex_digit(#[trigger] t[i])
}

/// What decoding an encoded order gives: after one optional leading `0x`, the
/// text must be an even number of hex digits.
pub open spec fn decode_order_spec(s: Seq<char>) -> Option<Seq<u8>> {
    let t = strip_order_prefix(s);
    if plain_hex(t) {
        Some(hex_bytes(t))
    } else {
        None
    }
}

/// Turns the hex text of a signed order into its bytes. Dropping one leading
/// `0x` is the only normalisation; any other malformed text (odd length, a
/// non-hex character, a second or upper-case marker) is a `DecodeError`.
pub fn decode_order(encoded_order: &str) -> (r: Result<Vec<u8>, DecodeError>)
    ensures
        r.is_ok() == decode_order_spec(encoded_order@).is_some(),
        r.is_ok() ==> r->Ok_0@ == decode_order_spec(encoded_order@)->0,
{
    let n = encoded_order.unicode_len();
    let body = if n >= 2 && encoded_order.get_char(0) == '0' && encoded_order.get_char(1) == 'x' {
        encoded_order.substring_char(2, n)
    } else {
        encoded_order
    };
    assert(body@ == strip_order_prefix(encoded_order@));
    let m = body.unicode_len();
    if m >= 2 && body.get_char(0) == '0' && (body.get_char(1) == 'x' || body.get_char(1) == 'X') {
        assert(!is_hex_digit(body@[1]));
        return Err(DecodeError::InvalidHex);
    }
    assert(skip_hex_marker(body@) == body@);
    match hex_decode(body) {
        Some(bytes) => Ok(bytes),
        None => Err(DecodeError::InvalidHex),
    }
}

/// What decoding a signature gives.
pub open spec fn decode_signature_spec(s: Seq<char>) -> Option<Seq<u8>> {
    if hex_decodes(s) {
        Some(hex_bytes(skip_hex_marker(s)))
    } else {
        None
    }
}

/// Turns the hex text of a signature into its bytes (a `0x` marker is optional).
pub fn decode_signature(signature: &str) -> (r: Option<Vec<u8>>)
    ensures
        r.is_some() == decode_signature_spec(signature@).is_some(),
        r.is_some() ==> r->0@ == decode_signature_spec(signature@)->0,
{
    hex_decode(signature)
}

} // verus!
