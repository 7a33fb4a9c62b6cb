//! Numbers and text out of raw bytes.

use byteorder::{ByteOrder, LittleEndian};
use vstd::prelude::*;
use vstd::utf8::{decode_utf8, valid_utf8};

verus! {

/// The number that bytes write down, least significant byte first.
pub open spec fn le(bytes: Seq<u8>) -> int
    decreases bytes.len(),
{
    if bytes.len() == 0 {
        0
    } else {
        bytes[0] + 256 * le(bytes.drop_first())
    }
}

/// The number whose two's complement within `modulus` values is `v`.
pub open spec fn signed(v: int, modulus: int) -> int {
    if v < modulus / 2 {
        v
    } else {
        v - modulus
    }
}

/// `byteorder::LittleEndian::read_u16`: the first two bytes as an unsigned number. It panics on a
/// shorter slice.
#[verifier::external_body]
pub(crate) fn read_u16(buf: &[u8]) -> (v: u16)
    requires
        buf@.len() >= 2,
    ensures
        v == le(buf@.take(2)),
{
    LittleEndian::read_u16(buf)
}

/// `byteorder::LittleEndian::read_u32`: the first four bytes as an unsigned number. It panics on a
/// shorter slice.
#[verifier::external_body]
pub(crate) fn read_u32(buf: &[u8]) -> (v: u32)
    requires
        buf@.len() >= 4,
    ensures
        v == le(buf@.take(4)),
{
    LittleEndian::read_u32(buf)
}

/// `byteorder::LittleEndian::read_u64`: the first eight bytes as an unsigned number. It panics on a
/// shorter slice.
#[verifier::external_body]
pub(crate) fn read_u64(buf: &[u8]) -> (v: u64)
    requires
        buf@.len() >= 8,
    ensures
        v == le(buf@.take(8)),
{
    LittleEndian::read_u64(buf)
}

/// `byteorder::LittleEndian::read_i16`: the first two bytes in two's complement. It panics on a
/// shorter slice.
#[verifier::external_body]
pub(crate) fn read_i16(buf: &[u8]) -> (v: i16)
    requires
        buf@.len() >= 2,
    ensures
        v == signed(le(buf@.take(2)), 0x1_0000),
{
    LittleEndian::read_i16(buf)
}

/// `byteorder::LittleEndian::read_i32`: the first four bytes in two's complement. It panics on a
/// shorter slice.
#[verifier::external_body]
pub(crate) fn read_i32(buf: &[u8]) -> (v: i32)
    requires
        buf@.len() >= 4,
    ensures
        v == signed(le(buf@.take(4)), 0x1_0000_0000),
{
    LittleEndian::read_i32(buf)
}

/// `byteorder::LittleEndian::read_i64`: the first eight bytes in two's complement. It panics on a
/// shorter slice.
#[verifier::external_body]
pub(crate) fn read_i64(buf: &[u8]) -> (v: i64)
    requires
        buf@.len() >= 8,
    ensures
        v == signed(le(buf@.take(8)), 0x1_0000_0000_0000_0000),
{
    LittleEndian::read_i64(buf)
}

/// The text that `String::from_utf8_lossy` makes of bytes.
pub uninterp spec fn utf8_lossy(bytes: Seq<u8>) -> Seq<char>;

/// The character that stands for bytes that are not UTF-8.
pub const REPLACEMENT: char = '\u{fffd}';

/// `String::from_utf8_lossy`: text from bytes. Bytes that are UTF-8 give the text that they encode.
/// Others give a text with a replacement character where they are not UTF-8: leading bytes that are
/// UTF-8 give the text that they encode, and what is behind them gives what it does by itself.
#[verifier::external_body]
pub(crate) fn text_lossy(bytes: &[u8]) -> (s: String)
    ensures
        s@ == utf8_lossy(bytes@),
        valid_utf8(bytes@) ==> s@ == decode_utf8(bytes@),
        !valid_utf8(bytes@) ==> s@.contains(REPLACEMENT),
        forall|n: int|
            0 <= n <= bytes@.len() && valid_utf8(#[trigger] bytes@.take(n)) ==> s@ == decode_utf8(
                bytes@.take(n),
            ) + utf8_lossy(bytes@.skip(n)),
{
    String::from_utf8_lossy(bytes).into_owned()
}

/// The text of bytes: what they encode where they are UTF-8, else what `String::from_utf8_lossy`
/// makes of them.
pub open spec fn text_from(bytes: Seq<u8>) -> Seq<char> {
    if valid_utf8(bytes) {
        decode_utf8(bytes)
    } else {
        utf8_lossy(bytes)
    }
}

/// `text` is the text of bytes: what they encode where they are UTF-8. Else it holds a replacement
/// character, and starts with what leading bytes that are UTF-8 encode.
pub open spec fn spells(bytes: Seq<u8>, text: Seq<char>) -> bool {
    &&& text == utf8_lossy(bytes)
    &&& valid_utf8(bytes) ==> text == decode_utf8(bytes)
    &&& !valid_utf8(bytes) ==> text.contains(REPLACEMENT)
    &&& forall|n: int|
        0 <= n <= bytes.len() && valid_utf8(#[trigger] bytes.take(n)) ==> text == decode_utf8(
            bytes.take(n),
        ) + utf8_lossy(bytes.skip(n))
}

/// Appends a number, least significant byte first.
pub fn append_u32(out: &mut Vec<u8>, v: u32)
    ensures
        final(out)@.len() == old(out)@.len() + 4,
        final(out)@.take(old(out)@.len() as int) == old(out)@,
        le(final(out)@.skip(old(out)@.len() as int)) == v,
{
    out.push((v % 256) as u8);
    out.push((v / 256 % 256) as u8);
    out.push((v / 65536 % 256) as u8);
    out.push((v / 16777216) as u8);
    proof {
        let n = old(out)@.len() as int;
        let t = out@.skip(n);
        assert(out@.take(n) =~= old(out)@);
        reveal_with_fuel(le, 5);
        assert(t.drop_first().drop_first().drop_first().drop_first().len() == 0);
        assert(le(t) == t[0] + 256 * (t[1] + 256 * (t[2] + 256 * t[3])));
    }
}

} // verus!
