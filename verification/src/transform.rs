//! The per-byte transform between raw data and the wire, and the escaping
//! rules that keep critical octets off the wire.

use vstd::prelude::*;

use crate::consts::{ESCAPE_CHAR, ESCAPE_OFFSET, OFFSET};

verus! {

/// Raw-to-wire map: add 42, wrapping modulo 256.
pub open spec fn spec_encode_byte(b: u8) -> u8 {
    ((b as int + OFFSET as int) % 256) as u8
}

/// Wire-to-raw map: subtract 42, wrapping modulo 256.
pub open spec fn spec_decode_byte(b: u8) -> u8 {
    ((b as int + 256 - OFFSET as int) % 256) as u8
}

/// Wire octets that must not appear bare in an encoded body:
/// NUL, TAB, LF, CR, SPACE, `.`, `=`.
pub open spec fn spec_is_critical(e: u8) -> bool {
    e == 0 || e == 9 || e == 10 || e == 13 || e == 32 || e == 46 || e == 61
}

/// Raw bytes the encoder escapes: those whose wire form is critical,
/// and the escape marker itself.
pub open spec fn spec_needs_escape(b: u8) -> bool {
    spec_is_critical(spec_encode_byte(b)) || b == ESCAPE_CHAR
}

/// The second byte of an escape sequence for raw byte `b`.
pub open spec fn spec_escape_pair(b: u8) -> u8 {
    ((spec_encode_byte(b) as int + ESCAPE_OFFSET as int) % 256) as u8
}

/// The raw byte recovered from the second byte `x` of an escape sequence.
pub open spec fn spec_unescape(x: u8) -> u8 {
    spec_decode_byte(((x as int + 256 - ESCAPE_OFFSET as int) % 256) as u8)
}

/// Decoding undoes encoding on every byte.
pub proof fn lemma_decode_encode_byte(b: u8)
    ensures
        spec_decode_byte(spec_encode_byte(b)) == b,
{
    if (b as int + OFFSET as int) < 256 {
        assert((b as int + OFFSET as int) % 256 == b as int + OFFSET as int);
    } else {
        assert((b as int + OFFSET as int) % 256 == b as int + OFFSET as int - 256);
    }
}

/// Unescaping undoes the escape-pair construction on every byte.
pub proof fn lemma_unescape_escape_pair(b: u8)
    ensures
        spec_unescape(spec_escape_pair(b)) == b,
{
    lemma_decode_encode_byte(b);
}

/// Encode one raw byte.
pub fn encode_byte(byte: u8) -> (r: u8)
    ensures
        r == spec_encode_byte(byte),
{
    byte.wrapping_add(OFFSET)
}

/// Decode one wire byte.
pub fn decode_byte(byte: u8) -> (r: u8)
    ensures
        r == spec_decode_byte(byte),
{
    byte.wrapping_sub(OFFSET)
}

/// Recover the raw byte from the second byte of an escape sequence.
pub fn unescape_byte(byte: u8) -> (r: u8)
    ensures
        r == spec_unescape(byte),
{
    let shifted = if byte >= 64 {
        byte - 64
    } else {
        byte + 192
    };
    proof {
        if byte >= 64 {
            assert((byte as int + 192) % 256 == byte as int - 64);
        } else {
            assert((byte as int + 192) % 256 == byte as int + 192);
        }
    }
    decode_byte(shifted)
}

/// Whether a raw byte must be escaped, given its wire form.
pub fn needs_escape(byte: u8, encoded: u8) -> (r: bool)
    requires
        encoded == spec_encode_byte(byte),
    ensures
        r == spec_needs_escape(byte),
{
    encoded == 0 || encoded == 9 || encoded == 10 || encoded == 13 || encoded == 32
        || encoded == 46 || encoded == 61 || byte == ESCAPE_CHAR
}

/// Whether a raw byte is one of the seven canonical escapable values;
/// strict decoding accepts an escape sequence only when the raw byte it
/// yields is canonical.
pub open spec fn spec_is_canonical(b: u8) -> bool {
    b == 0 || b == 9 || b == 10 || b == 13 || b == 32 || b == 46 || b == 61
}

/// Exec check for [`spec_is_canonical`].
pub fn is_canonical(b: u8) -> (r: bool)
    ensures
        r == spec_is_canonical(b),
{
    b == 0 || b == 9 || b == 10 || b == 13 || b == 32 || b == 46 || b == 61
}

} // verus!
