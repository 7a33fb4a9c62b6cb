//! A character for every byte, so that arbitrary bytes can be handled as text without spaces and
//! control characters.

use crate::text::char_from;
use vstd::prelude::*;

verus! {

/// The bytes that stand for themselves. The soft hyphen 0xad is not among them.
pub open spec fn is_plain(b: int) -> bool {
    0x21 <= b <= 0x7e || 0xa1 <= b <= 0xac || 0xae <= b <= 0xff
}

/// The number of the character of a byte: the byte itself where it is plain; the others follow
/// from 0x100 on, in their order.
pub open spec fn byte_number(b: u8) -> int {
    if is_plain(b as int) {
        b as int
    } else if b <= 0x20 {
        0x100 + b
    } else if b <= 0xa0 {
        0x100 + 33 + (b - 0x7f)
    } else {
        0x143
    }
}

/// The character of a byte.
pub open spec fn byte_char(b: u8) -> char {
    byte_number(b) as char
}

/// The byte of a character, where it is the character of one.
pub open spec fn char_byte(c: char) -> Option<u8> {
    let n = c as int;
    if n <= 0xff {
        if is_plain(n) {
            Some(n as u8)
        } else {
            None
        }
    } else if n < 0x100 + 33 {
        Some((n - 0x100) as u8)
    } else if n < 0x100 + 67 {
        Some((n - 0x100 - 33 + 0x7f) as u8)
    } else if n == 0x143 {
        Some(0xad)
    } else {
        None
    }
}

/// No two bytes share a character.
pub proof fn lemma_byte_char_inverse(b: u8)
    ensures
        char_byte(byte_char(b)) == Some(b),
        byte_char(b) as int == byte_number(b),
{
}

/// A character that belongs to a byte is the character of that byte.
pub proof fn lemma_char_byte_inverse(c: char)
    ensures
        char_byte(c) matches Some(b) ==> byte_char(b) == c,
{
}

/// The printable bytes are their own characters, the soft hyphen 0xad aside. The others have the
/// characters from 0x100 on, in the order of the bytes and without a gap.
pub proof fn lemma_byte_chars_in_order(a: u8, b: u8)
    ensures
        0x21 <= a <= 0x7e || 0xa1 <= a <= 0xac || 0xae <= a ==> byte_char(a) as int == a,
        a <= 0x20 || 0x7f <= a <= 0xa0 || a == 0xad ==> 0x100 <= byte_char(a) as int <= 0x143,
        (a <= 0x20 || 0x7f <= a <= 0xa0 || a == 0xad) && (b <= 0x20 || 0x7f <= b <= 0xa0 || b
            == 0xad) && a < b ==> (byte_char(a) as int) < byte_char(b) as int,
        byte_char(0) as int == 0x100,
        byte_char(0x20) as int == 0x120,
        byte_char(0x7f) as int == 0x121,
        byte_char(0xa0) as int == 0x142,
        byte_char(0xad) as int == 0x143,
{
}

/// The table lists the printable bytes first and then the others, both in ascending order.
pub proof fn lemma_table_in_order(i: int, j: int)
    requires
        0 <= i < j < 256,
    ensures
        0 <= table_byte(i) < 256,
        i < 188 ==> 0x21 <= table_byte(i) <= 0x7e || 0xa1 <= table_byte(i) <= 0xac || 0xae
            <= table_byte(i),
        188 <= i ==> table_byte(i) <= 0x20 || 0x7f <= table_byte(i) <= 0xa0,
        j < 188 || 188 <= i ==> table_byte(i) < table_byte(j),
        table_byte(255) == 0xad,
{
}

/// No byte has a space for its character.
pub proof fn lemma_byte_char_not_space(b: u8)
    ensures
        byte_char(b) != ' ',
{
    lemma_byte_char_inverse(b);
}

/// The byte in place `i` of the table: the plain ones first, then the others.
pub open spec fn table_byte(i: int) -> int {
    if i < 94 {
        0x21 + i
    } else if i < 106 {
        0xa1 + (i - 94)
    } else if i < 188 {
        0xae + (i - 106)
    } else if i < 221 {
        i - 188
    } else if i < 255 {
        0x7f + (i - 221)
    } else {
        0xad
    }
}

/// The bytes with their characters, the plain ones first, then the others, both in their order.
pub fn byte_to_unicode() -> (table: Vec<(u8, char)>)
    ensures
        table@.len() == 256,
        forall|i: int|
            0 <= i < 256 ==> #[trigger] table@[i] == (
                table_byte(i) as u8,
                byte_char(table_byte(i) as u8),
            ),
{
    let mut table: Vec<(u8, char)> = Vec::new();
    let mut i: u16 = 0;
    while i < 188
        invariant
            i <= 188,
            table@.len() == i,
            forall|j: int|
                0 <= j < i ==> #[trigger] table@[j] == (
                    table_byte(j) as u8,
                    byte_char(table_byte(j) as u8),
                ),
        decreases 188 - i,
    {
        let b: u8 = if i < 94 {
            (0x21 + i) as u8
        } else if i < 106 {
            (0xa1 + (i - 94)) as u8
        } else {
            (0xae + (i - 106)) as u8
        };
        table.push((b, b as char));
        i += 1;
    }
    let mut b: u16 = 0;
    let mut n: u32 = 0;
    while b < 256
        invariant
            b <= 256,
            n == if b <= 0x21 {
                b as int
            } else if b <= 0x7f {
                33
            } else if b <= 0xa1 {
                b - 0x7f + 33
            } else if b <= 0xad {
                67
            } else {
                68
            },
            table@.len() == 188 + n,
            forall|j: int|
                0 <= j < table@.len() ==> #[trigger] table@[j] == (
                    table_byte(j) as u8,
                    byte_char(table_byte(j) as u8),
                ),
        decreases 256 - b,
    {
        let plain: bool = (0x21 <= b && b <= 0x7e) || (0xa1 <= b && b <= 0xac) || 0xae <= b;
        if !plain {
            let c: char = char_from(0x100 + n);
            assert(byte_number(b as u8) == 0x100 + n);
            assert(table_byte(188 + n) == b);
            table.push((b as u8, c));
            n += 1;
        }
        b += 1;
    }
    table
}

/// The characters by byte, and the bytes by the number of their character.
pub fn bytes_to_unicode_map() -> (maps: (Vec<char>, Vec<Option<u8>>))
    ensures
        maps.0@.len() == 256,
        forall|b: int| 0 <= b < 256 ==> #[trigger] maps.0@[b] == byte_char(b as u8),
        maps.1@.len() == 0x144,
        forall|n: int| 0 <= n < 0x144 ==> #[trigger] maps.1@[n] == char_byte(n as char),
{
    let table: Vec<(u8, char)> = byte_to_unicode();
    let mut enc: Vec<char> = vec!['!';256];
    let mut dec: Vec<Option<u8>> = vec![None;0x144];
    let mut i: usize = 0;
    while i < 256
        invariant
            i <= 256,
            table@.len() == 256,
            enc@.len() == 256,
            dec@.len() == 0x144,
            forall|j: int|
                0 <= j < 256 ==> #[trigger] table@[j] == (
                    table_byte(j) as u8,
                    byte_char(table_byte(j) as u8),
                ),
            forall|j: int|
                0 <= j < i ==> enc@[#[trigger] table_byte(j)] == byte_char(table_byte(j) as u8),
            forall|n: int|
                0 <= n < 0x144 ==> #[trigger] dec@[n] == (if char_byte(n as char) is Some
                    && table_place(char_byte(n as char)->0 as int) < i {
                    char_byte(n as char)
                } else {
                    None
                }),
        decreases 256 - i,
    {
        let (b, c) = table[i];
        proof {
            lemma_byte_char_inverse(b);
            assert(table_place(b as int) == i);
        }
        enc[b as usize] = c;
        dec[c as usize] = Some(b);
        i += 1;
    }
    assert forall|b: int| 0 <= b < 256 implies #[trigger] enc@[b] == byte_char(b as u8) by {
        assert(table_byte(table_place(b)) == b);
    }
    (enc, dec)
}

/// The place of a byte in the table.
spec fn table_place(b: int) -> int {
    if b <= 0x20 {
        188 + b
    } else if b <= 0x7e {
        b - 0x21
    } else if b <= 0xa0 {
        221 + (b - 0x7f)
    } else if b <= 0xac {
        94 + (b - 0xa1)
    } else if b == 0xad {
        255
    } else {
        106 + (b - 0xae)
    }
}

} // verus!
