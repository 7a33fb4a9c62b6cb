//! GGUF model files: metadata and the directory of tensors.

use crate::bytes::{
    le, read_i16, read_i32, read_i64, read_u16, read_u32, read_u64, signed, text_from, text_lossy,
};
use crate::text::{concat2, decimal, decimal_of};
use vstd::prelude::*;
use vstd::slice::slice_subrange;

verus! {

/// The first four bytes of a GGUF file, "GGUF", as a number.
pub const MAGIC: u32 = 0x4655_4747;

/// Why bytes are not a GGUF file.
#[derive(Debug, Clone, Copy, PartialEq, Eq, Structural)]
pub enum GgufError {
    /// The bytes end where more are needed.
    UnexpectedEof,
    /// The file does not start with the magic number.
    NotGguf,
    /// A metadata value has a type that the format does not define.
    UnknownType(u32),
    /// A position lies beyond what a file can be positioned at.
    InvalidOffset,
}

impl GgufError {
    pub open spec fn text(self) -> Seq<char> {
        match self {
            GgufError::UnexpectedEof => "failed to fill whole buffer"@,
            GgufError::NotGguf => "not a GGUF file"@,
            GgufError::UnknownType(t) => "unknown gguf type "@ + decimal_of(t as int),
            GgufError::InvalidOffset => "Invalid argument (os error 22)"@,
        }
    }

    /// The error in words.
    pub fn message(&self) -> (s: String)
        ensures
            s@ == self.text(),
    {
        match self {
            GgufError::UnexpectedEof => "failed to fill whole buffer".to_owned(),
            GgufError::NotGguf => "not a GGUF file".to_owned(),
            GgufError::UnknownType(t) => concat2("unknown gguf type ", decimal(*t as u64).as_str()),
            GgufError::InvalidOffset => "Invalid argument (os error 22)".to_owned(),
        }
    }
}

/// A metadata value. Floating-point numbers are held as their bit patterns.
#[derive(Debug)]
pub enum GgufValue {
    U8(u8),
    I8(i8),
    U16(u16),
    I16(i16),
    U32(u32),
    I32(i32),
    F32(u32),
    Bool(bool),
    String(String),
    Array(Vec<GgufValue>),
    U64(u64),
    I64(i64),
    F64(u64),
}

/// What a metadata value is, with text and arrays as sequences.
pub enum MetaValue {
    U8(u8),
    I8(i8),
    U16(u16),
    I16(i16),
    U32(u32),
    I32(i32),
    F32(u32),
    Bool(bool),
    Text(Seq<char>),
    Array(Seq<MetaValue>),
    U64(u64),
    I64(i64),
    F64(u64),
}

impl View for GgufValue {
    type V = MetaValue;

    open spec fn view(&self) -> MetaValue
        decreases self,
    {
        match self {
            GgufValue::U8(v) => MetaValue::U8(*v),
            GgufValue::I8(v) => MetaValue::I8(*v),
            GgufValue::U16(v) => MetaValue::U16(*v),
            GgufValue::I16(v) => MetaValue::I16(*v),
            GgufValue::U32(v) => MetaValue::U32(*v),
            GgufValue::I32(v) => MetaValue::I32(*v),
            GgufValue::F32(v) => MetaValue::F32(*v),
            GgufValue::Bool(v) => MetaValue::Bool(*v),
            GgufValue::String(s) => MetaValue::Text(s@),
            GgufValue::Array(a) => MetaValue::Array(
                Seq::new(
                    a@.len(),
                    |i: int|
                        if 0 <= i < a@.len() {
                            a@[i]@
                        } else {
                            MetaValue::Bool(false)
                        },
                ),
            ),
            GgufValue::U64(v) => MetaValue::U64(*v),
            GgufValue::I64(v) => MetaValue::I64(*v),
            GgufValue::F64(v) => MetaValue::F64(*v),
        }
    }
}

/// Something read at a position, with the position behind it.
pub type Step<T> = Result<(T, int), GgufError>;

/// An unsigned number of `n` bytes at `pos`.
pub open spec fn uint_at(data: Seq<u8>, pos: int, n: int) -> Step<int> {
    if pos + n <= data.len() {
        Ok((le(data.subrange(pos, pos + n)), pos + n))
    } else {
        Err(GgufError::UnexpectedEof)
    }
}

/// A string: its length in eight bytes, then its bytes.
pub open spec fn string_at(data: Seq<u8>, pos: int) -> Step<Seq<char>> {
    match uint_at(data, pos, 8) {
        Ok((len, p)) => if p + len <= data.len() {
            Ok((text_from(data.subrange(p, p + len)), p + len))
        } else {
            Err(GgufError::UnexpectedEof)
        },
        Err(e) => Err(e),
    }
}

/// A metadata value of type `t`.
pub open spec fn value_at(data: Seq<u8>, pos: int, t: u32) -> Step<MetaValue>
    decreases data.len() - pos, 0nat,
{
    if t == 0 {
        match uint_at(data, pos, 1) {
            Ok((v, p)) => Ok((MetaValue::U8(v as u8), p)),
            Err(e) => Err(e),
        }
    } else if t == 1 {
        match uint_at(data, pos, 1) {
            Ok((v, p)) => Ok((MetaValue::I8(signed(v, 0x100) as i8), p)),
            Err(e) => Err(e),
        }
    } else if t == 2 {
        match uint_at(data, pos, 2) {
            Ok((v, p)) => Ok((MetaValue::U16(v as u16), p)),
            Err(e) => Err(e),
        }
    } else if t == 3 {
        match uint_at(data, pos, 2) {
            Ok((v, p)) => Ok((MetaValue::I16(signed(v, 0x1_0000) as i16), p)),
            Err(e) => Err(e),
        }
    } else if t == 4 {
        match uint_at(data, pos, 4) {
            Ok((v, p)) => Ok((MetaValue::U32(v as u32), p)),
            Err(e) => Err(e),
        }
    } else if t == 5 {
        match uint_at(data, pos, 4) {
            Ok((v, p)) => Ok((MetaValue::I32(signed(v, 0x1_0000_0000) as i32), p)),
            Err(e) => Err(e),
        }
    } else if t == 6 {
        match uint_at(data, pos, 4) {
            Ok((v, p)) => Ok((MetaValue::F32(v as u32), p)),
            Err(e) => Err(e),
        }
    } else if t == 7 {
        match uint_at(data, pos, 1) {
            Ok((v, p)) => Ok((MetaValue::Bool(v != 0), p)),
            Err(e) => Err(e),
        }
    } else if t == 8 {
        match string_at(data, pos) {
            Ok((s, p)) => Ok((MetaValue::Text(s), p)),
            Err(e) => Err(e),
        }
    } else if t == 9 {
        match uint_at(data, pos, 4) {
            Ok((elem, p)) => match uint_at(data, p, 8) {
                Ok((len, p)) => match items_at(data, p, elem as u32, len, Seq::empty()) {
                    Ok((items, p)) => Ok((MetaValue::Array(items), p)),
                    Err(e) => Err(e),
                },
                Err(e) => Err(e),
            },
            Err(e) => Err(e),
        }
    } else if t == 10 {
        match uint_at(data, pos, 8) {
            Ok((v, p)) => Ok((MetaValue::U64(v as u64), p)),
            Err(e) => Err(e),
        }
    } else if t == 11 {
        match uint_at(data, pos, 8) {
            Ok((v, p)) => Ok((MetaValue::I64(signed(v, 0x1_0000_0000_0000_0000) as i64), p)),
            Err(e) => Err(e),
        }
    } else if t == 12 {
        match uint_at(data, pos, 8) {
            Ok((v, p)) => Ok((MetaValue::F64(v as u64), p)),
            Err(e) => Err(e),
        }
    } else {
        Err(GgufError::UnknownType(t))
    }
}

/// `n` values of type `t`, one behind the other, after those in `before`. Every value takes at
/// least one byte, so that the last case but one does not arise.
pub open spec fn items_at(
    data: Seq<u8>,
    pos: int,
    t: u32,
    n: int,
    before: Seq<MetaValue>,
) -> Step<Seq<MetaValue>>
    decreases data.len() - pos, (if n < 0 { 0 } else { n as nat }) + 1,
{
    if n <= 0 {
        Ok((before, pos))
    } else {
        match value_at(data, pos, t) {
            Ok((v, p)) => if p <= pos || p > data.len() {
                Err(GgufError::UnexpectedEof)
            } else {
                items_at(data, p, t, n - 1, before.push(v))
            },
            Err(e) => Err(e),
        }
    }
}

fn u8_in(data: &[u8], pos: usize) -> (r: Result<(u8, usize), GgufError>)
    requires
        pos <= data@.len(),
    ensures
        match r {
            Ok((v, p)) => uint_at(data@, pos as int, 1) == Ok::<(int, int), GgufError>(
                (v as int, p as int),
            ) && p == pos + 1 && p <= data@.len(),
            Err(e) => uint_at(data@, pos as int, 1) == Err::<(int, int), GgufError>(e),
        },
{
    if data.len() == pos {
        return Err(GgufError::UnexpectedEof);
    }
    proof {
        let one = data@.subrange(pos as int, pos + 1);
        assert(one.drop_first().len() == 0);
        assert(le(one.drop_first()) == 0);
        assert(le(one) == one[0]);
    }
    Ok((data[pos], pos + 1))
}

fn u16_in(data: &[u8], pos: usize) -> (r: Result<(u16, usize), GgufError>)
    requires
        pos <= data@.len(),
    ensures
        match r {
            Ok((v, p)) => uint_at(data@, pos as int, 2) is Ok && v == le(data@.subrange(pos as int, pos + 2)) && p == pos + 2 && p
                <= data@.len(),
            Err(e) => uint_at(data@, pos as int, 2) == Err::<(int, int), GgufError>(e),
        },
{
    if data.len() - pos < 2 {
        return Err(GgufError::UnexpectedEof);
    }
    let buf: &[u8] = slice_subrange(data, pos, pos + 2);
    assert(buf@.take(2) =~= buf@);
    Ok((read_u16(buf), pos + 2))
}

fn u32_in(data: &[u8], pos: usize) -> (r: Result<(u32, usize), GgufError>)
    requires
        pos <= data@.len(),
    ensures
        match r {
            Ok((v, p)) => uint_at(data@, pos as int, 4) is Ok && v == le(data@.subrange(pos as int, pos + 4)) && p == pos + 4 && p
                <= data@.len(),
            Err(e) => uint_at(data@, pos as int, 4) == Err::<(int, int), GgufError>(e),
        },
{
    if data.len() - pos < 4 {
        return Err(GgufError::UnexpectedEof);
    }
    let buf: &[u8] = slice_subrange(data, pos, pos + 4);
    assert(buf@.take(4) =~= buf@);
    Ok((read_u32(buf), pos + 4))
}

fn u64_in(data: &[u8], pos: usize) -> (r: Result<(u64, usize), GgufError>)
    requires
        pos <= data@.len(),
    ensures
        match r {
            Ok((v, p)) => uint_at(data@, pos as int, 8) is Ok && v == le(data@.subrange(pos as int, pos + 8)) && p == pos + 8 && p
                <= data@.len(),
            Err(e) => uint_at(data@, pos as int, 8) == Err::<(int, int), GgufError>(e),
        },
{
    if data.len() - pos < 8 {
        return Err(GgufError::UnexpectedEof);
    }
    let buf: &[u8] = slice_subrange(data, pos, pos + 8);
    assert(buf@.take(8) =~= buf@);
    Ok((read_u64(buf), pos + 8))
}

fn i16_in(data: &[u8], pos: usize) -> (r: Result<(i16, usize), GgufError>)
    requires
        pos <= data@.len(),
    ensures
        match r {
            Ok((v, p)) => uint_at(data@, pos as int, 2) is Ok && v == signed(
                le(data@.subrange(pos as int, pos + 2)),
                0x1_0000,
            ) && p == pos + 2 && p
                <= data@.len(),
            Err(e) => uint_at(data@, pos as int, 2) == Err::<(int, int), GgufError>(e),
        },
{
    if data.len() - pos < 2 {
        return Err(GgufError::UnexpectedEof);
    }
    let buf: &[u8] = slice_subrange(data, pos, pos + 2);
    assert(buf@.take(2) =~= buf@);
    Ok((read_i16(buf), pos + 2))
}

fn i32_in(data: &[u8], pos: usize) -> (r: Result<(i32, usize), GgufError>)
    requires
        pos <= data@.len(),
    ensures
        match r {
            Ok((v, p)) => uint_at(data@, pos as int, 4) is Ok && v == signed(
                le(data@.subrange(pos as int, pos + 4)),
                0x1_0000_0000,
            ) && p == pos + 4 && p
                <= data@.len(),
            Err(e) => uint_at(data@, pos as int, 4) == Err::<(int, int), GgufError>(e),
        },
{
    if data.len() - pos < 4 {
        return Err(GgufError::UnexpectedEof);
    }
    let buf: &[u8] = slice_subrange(data, pos, pos + 4);
    assert(buf@.take(4) =~= buf@);
    Ok((read_i32(buf), pos + 4))
}

fn i64_in(data: &[u8], pos: usize) -> (r: Result<(i64, usize), GgufError>)
    requires
        pos <= data@.len(),
    ensures
        match r {
            Ok((v, p)) => uint_at(data@, pos as int, 8) is Ok && v == signed(
                le(data@.subrange(pos as int, pos + 8)),
                0x1_0000_0000_0000_0000,
            ) && p == pos + 8 && p
                <= data@.len(),
            Err(e) => uint_at(data@, pos as int, 8) == Err::<(int, int), GgufError>(e),
        },
{
    if data.len() - pos < 8 {
        return Err(GgufError::UnexpectedEof);
    }
    let buf: &[u8] = slice_subrange(data, pos, pos + 8);
    assert(buf@.take(8) =~= buf@);
    Ok((read_i64(buf), pos + 8))
}

/// Reads a string: its length in eight bytes, then its bytes.
fn read_string(data: &[u8], pos: usize) -> (r: Result<(String, usize), GgufError>)
    requires
        pos <= data@.len(),
    ensures
        match r {
            Ok((s, p)) => string_at(data@, pos as int) == Ok::<(Seq<char>, int), GgufError>(
                (s@, p as int),
            ) && pos + 8 <= p <= data@.len(),
            Err(e) => string_at(data@, pos as int) == Err::<(Seq<char>, int), GgufError>(e),
        },
{
    match u64_in(data, pos) {
        Err(e) => Err(e),
        Ok((len, p)) => {
            if len > (data.len() - p) as u64 {
                return Err(GgufError::UnexpectedEof);
            }
            let end: usize = p + len as usize;
            Ok((text_lossy(slice_subrange(data, p, end)), end))
        },
    }
}

/// Reads a metadata value of type `t`.
pub fn read_value(data: &[u8], pos: usize, t: u32) -> (r: Result<(GgufValue, usize), GgufError>)
    requires
        pos <= data@.len(),
    ensures
        match r {
            Ok((v, p)) => value_at(data@, pos as int, t) == Ok::<(MetaValue, int), GgufError>(
                (v@, p as int),
            ) && pos < p <= data@.len(),
            Err(e) => value_at(data@, pos as int, t) == Err::<(MetaValue, int), GgufError>(e),
        },
    decreases data@.len() - pos, 1nat,
{
    if t == 0 {
        match u8_in(data, pos) {
            Ok((v, p)) => Ok((GgufValue::U8(v), p)),
            Err(e) => Err(e),
        }
    } else if t == 1 {
        match u8_in(data, pos) {
            Ok((v, p)) => {
                let w: i8 = if v < 0x80 {
                    v as i8
                } else {
                    (v as i16 - 0x100) as i8
                };
                Ok((GgufValue::I8(w), p))
            },
            Err(e) => Err(e),
        }
    } else if t == 2 {
        match u16_in(data, pos) {
            Ok((v, p)) => Ok((GgufValue::U16(v), p)),
            Err(e) => Err(e),
        }
    } else if t == 3 {
        match i16_in(data, pos) {
            Ok((v, p)) => Ok((GgufValue::I16(v), p)),
            Err(e) => Err(e),
        }
    } else if t == 4 {
        match u32_in(data, pos) {
            Ok((v, p)) => Ok((GgufValue::U32(v), p)),
            Err(e) => Err(e),
        }
    } else if t == 5 {
        match i32_in(data, pos) {
            Ok((v, p)) => Ok((GgufValue::I32(v), p)),
            Err(e) => Err(e),
        }
    } else if t == 6 {
        match u32_in(data, pos) {
            Ok((v, p)) => Ok((GgufValue::F32(v), p)),
            Err(e) => Err(e),
        }
    } else if t == 7 {
        match u8_in(data, pos) {
            Ok((v, p)) => Ok((GgufValue::Bool(v != 0), p)),
            Err(e) => Err(e),
        }
    } else if t == 8 {
        match read_string(data, pos) {
            Ok((v, p)) => Ok((GgufValue::String(v), p)),
            Err(e) => Err(e),
        }
    } else if t == 9 {
        read_array(data, pos)
    } else if t == 10 {
        match u64_in(data, pos) {
            Ok((v, p)) => Ok((GgufValue::U64(v), p)),
            Err(e) => Err(e),
        }
    } else if t == 11 {
        match i64_in(data, pos) {
            Ok((v, p)) => Ok((GgufValue::I64(v), p)),
            Err(e) => Err(e),
        }
    } else if t == 12 {
        match u64_in(data, pos) {
            Ok((v, p)) => Ok((GgufValue::F64(v), p)),
            Err(e) => Err(e),
        }
    } else {
        Err(GgufError::UnknownType(t))
    }
}

/// The values that a vector holds.
pub open spec fn values_of(items: Seq<GgufValue>) -> Seq<MetaValue> {
    Seq::new(items.len(), |i: int| items[i]@)
}

/// What an array is follows from what its elements are.
pub proof fn lemma_array_view(items: Vec<GgufValue>)
    ensures
        GgufValue::Array(items)@ == MetaValue::Array(values_of(items@)),
{
    reveal_with_fuel(<GgufValue as View>::view, 2);
    let v = GgufValue::Array(items)@;
    assert(v is Array);
    assert(v->Array_0 =~= values_of(items@));
}

fn read_array(data: &[u8], pos: usize) -> (r: Result<(GgufValue, usize), GgufError>)
    requires
        pos <= data@.len(),
    ensures
        match r {
            Ok((v, p)) => value_at(data@, pos as int, 9) == Ok::<(MetaValue, int), GgufError>(
                (v@, p as int),
            ) && pos < p <= data@.len(),
            Err(e) => value_at(data@, pos as int, 9) == Err::<(MetaValue, int), GgufError>(e),
        },
    decreases data@.len() - pos, 0nat,
{
    let (elem, p0) = match u32_in(data, pos) {
        Ok(ok) => ok,
        Err(e) => {
            return Err(e);
        },
    };
    let (len, p1) = match u64_in(data, p0) {
        Ok(ok) => ok,
        Err(e) => {
            return Err(e);
        },
    };
    let mut items: Vec<GgufValue> = Vec::new();
    let mut p: usize = p1;
    let mut i: u64 = 0;
    assert(values_of(items@) =~= Seq::<MetaValue>::empty());
    while i < len
        invariant
            pos < p1 <= p <= data@.len(),
            i <= len,
            items_at(data@, p1 as int, elem, len as int, Seq::empty()) == items_at(
                data@,
                p as int,
                elem,
                len - i,
                values_of(items@),
            ),
            value_at(data@, pos as int, 9) == (match items_at(
                data@,
                p1 as int,
                elem,
                len as int,
                Seq::empty(),
            ) {
                Ok((items, p)) => Ok::<(MetaValue, int), GgufError>((MetaValue::Array(items), p)),
                Err(e) => Err(e),
            }),
        decreases len - i,
    {
        match read_value(data, p, elem) {
            Err(e) => {
                return Err(e);
            },
            Ok((v, q)) => {
                let ghost before = values_of(items@);
                let ghost w = v@;
                items.push(v);
                assert(values_of(items@) =~= before.push(w));
                p = q;
            },
        }
        i += 1;
    }
    let ghost all = items;
    let r: GgufValue = GgufValue::Array(items);
    proof {
        lemma_array_view(all);
    }
    Ok((r, p))
}

/// A floating-point number of either width, as its bit pattern.
#[derive(Debug, Clone, Copy, PartialEq, Eq, Structural)]
pub enum RealBits {
    Single(u32),
    Double(u64),
}

impl GgufValue {
    /// The same value again.
    fn copy(&self) -> (r: GgufValue)
        ensures
            r@ == self@,
        decreases self, 0nat,
    {
        match self {
            GgufValue::U8(v) => GgufValue::U8(*v),
            GgufValue::I8(v) => GgufValue::I8(*v),
            GgufValue::U16(v) => GgufValue::U16(*v),
            GgufValue::I16(v) => GgufValue::I16(*v),
            GgufValue::U32(v) => GgufValue::U32(*v),
            GgufValue::I32(v) => GgufValue::I32(*v),
            GgufValue::F32(v) => GgufValue::F32(*v),
            GgufValue::Bool(v) => GgufValue::Bool(*v),
            GgufValue::String(s) => GgufValue::String(s.clone()),
            GgufValue::Array(a) => {
                let items: Vec<GgufValue> = GgufValue::copy_all(a);
                proof {
                    lemma_array_view(*a);
                    lemma_array_view(items);
                }
                GgufValue::Array(items)
            },
            GgufValue::U64(v) => GgufValue::U64(*v),
            GgufValue::I64(v) => GgufValue::I64(*v),
            GgufValue::F64(v) => GgufValue::F64(*v),
        }
    }

    fn copy_all(items: &Vec<GgufValue>) -> (out: Vec<GgufValue>)
        ensures
            values_of(out@) == values_of(items@),
        decreases items, 1nat,
    {
        let mut out: Vec<GgufValue> = Vec::new();
        let mut i: usize = 0;
        while i < items.len()
            invariant
                i <= items@.len(),
                out@.len() == i,
                forall|j: int| 0 <= j < i ==> (#[trigger] out@[j])@ == items@[j]@,
            decreases items@.len() - i,
        {
            let item: GgufValue = items[i].copy();
            out.push(item);
            i += 1;
        }
        assert(values_of(out@) =~= values_of(items@));
        out
    }
}

impl Clone for GgufValue {
    fn clone(&self) -> (r: GgufValue)
        ensures
            r@ == self@,
    {
        self.copy()
    }
}

impl MetaValue {
    /// An integer of 32 or 64 bits, modulo 2^32.
    pub open spec fn to_u32(self) -> Option<u32> {
        match self {
            MetaValue::U32(v) => Some(v),
            MetaValue::I32(v) => Some((v as int % 0x1_0000_0000) as u32),
            MetaValue::U64(v) => Some((v as int % 0x1_0000_0000) as u32),
            MetaValue::I64(v) => Some((v as int % 0x1_0000_0000) as u32),
            _ => None,
        }
    }

    /// An integer of 32 or 64 bits, modulo 2^64.
    pub open spec fn to_u64(self) -> Option<u64> {
        match self {
            MetaValue::U64(v) => Some(v),
            MetaValue::I64(v) => Some((v as int % 0x1_0000_0000_0000_0000) as u64),
            MetaValue::U32(v) => Some(v as u64),
            MetaValue::I32(v) => Some((v as int % 0x1_0000_0000_0000_0000) as u64),
            _ => None,
        }
    }

    /// A floating-point number of either width.
    pub open spec fn to_real(self) -> Option<RealBits> {
        match self {
            MetaValue::F32(v) => Some(RealBits::Single(v)),
            MetaValue::F64(v) => Some(RealBits::Double(v)),
            _ => None,
        }
    }
}

/// An integer that is negative counts as what two's complement of the wanted width makes of it, and
/// one that is too large for it loses its upper bits.
pub proof fn lemma_integers_wrap(v: i64, w: i32, u: u64)
    ensures
        v < 0 ==> MetaValue::I64(v).to_u64() == Some((v + 0x1_0000_0000_0000_0000) as u64),
        w < 0 ==> MetaValue::I32(w).to_u64() == Some((w + 0x1_0000_0000_0000_0000) as u64),
        w < 0 ==> MetaValue::I32(w).to_u32() == Some((w + 0x1_0000_0000) as u32),
        MetaValue::I64(v).to_u32() matches Some(r) && (v - r) % 0x1_0000_0000 == 0,
        MetaValue::U64(u).to_u32() matches Some(r) && (u - r) % 0x1_0000_0000 == 0,
        v >= 0 ==> MetaValue::I64(v).to_u64() == Some(v as u64),
        w >= 0 ==> MetaValue::I32(w).to_u64() == Some(w as u64),
        w >= 0 ==> MetaValue::I32(w).to_u32() == Some(w as u32),
        MetaValue::U64(u).to_u64() == Some(u),
{
}

impl GgufValue {
    /// An integer of 32 or 64 bits, reduced to 32 bits.
    pub fn as_u32(&self) -> (r: Option<u32>)
        ensures
            r == self@.to_u32(),
    {
        match self {
            GgufValue::U32(v) => Some(*v),
            GgufValue::I32(v) => Some(low_half(*v as i64)),
            GgufValue::U64(v) => Some((*v % 0x1_0000_0000) as u32),
            GgufValue::I64(v) => Some(low_half(*v)),
            _ => None,
        }
    }

    /// An integer of 32 or 64 bits, in two's complement of 64 bits.
    pub fn as_u64(&self) -> (r: Option<u64>)
        ensures
            r == self@.to_u64(),
    {
        match self {
            GgufValue::U64(v) => Some(*v),
            GgufValue::I64(v) => Some(unsigned(*v)),
            GgufValue::U32(v) => Some(*v as u64),
            GgufValue::I32(v) => Some(unsigned(*v as i64)),
            _ => None,
        }
    }

    /// A floating-point number. One of double precision is yet to be rounded.
    pub fn as_f32(&self) -> (r: Option<RealBits>)
        ensures
            r == self@.to_real(),
    {
        match self {
            GgufValue::F32(v) => Some(RealBits::Single(*v)),
            GgufValue::F64(v) => Some(RealBits::Double(*v)),
            _ => None,
        }
    }

    pub fn as_str(&self) -> (r: Option<&str>)
        ensures
            match self@ {
                MetaValue::Text(s) => r is Some && r->0@ == s,
                _ => r is None,
            },
    {
        match self {
            GgufValue::String(s) => Some(s.as_str()),
            _ => None,
        }
    }

    pub fn as_bool(&self) -> (r: Option<bool>)
        ensures
            r == (match self@ {
                MetaValue::Bool(b) => Some(b),
                _ => None,
            }),
    {
        match self {
            GgufValue::Bool(b) => Some(*b),
            _ => None,
        }
    }

    pub fn as_array(&self) -> (r: Option<&[GgufValue]>)
        ensures
            match self@ {
                MetaValue::Array(items) => r is Some && values_of(r->0@) == items,
                _ => r is None,
            },
    {
        match self {
            GgufValue::Array(a) => {
                proof {
                    lemma_array_view(*a);
                }
                Some(a.as_slice())
            },
            _ => None,
        }
    }
}

fn low_half(v: i64) -> (r: u32)
    ensures
        r == v as int % 0x1_0000_0000,
{
    (unsigned(v) % 0x1_0000_0000) as u32
}

fn unsigned(v: i64) -> (r: u64)
    ensures
        r == v as int % 0x1_0000_0000_0000_0000,
{
    if v >= 0 {
        v as u64
    } else {
        (v as i128 + 0x1_0000_0000_0000_0000) as u64
    }
}

/// A tensor as the directory describes it.
#[derive(Debug, Clone)]
pub struct GgufTensorInfo {
    pub name: String,
    pub n_dims: u32,
    pub dims: Vec<u64>,
    pub ggml_type: u32,
    /// Where the data starts, counted from the start of the data area.
    pub offset: u64,
}

/// What an entry of the directory says.
pub struct TensorMeta {
    pub name: Seq<char>,
    pub n_dims: u32,
    pub dims: Seq<u64>,
    pub ggml_type: u32,
    pub offset: u64,
}

impl View for GgufTensorInfo {
    type V = TensorMeta;

    open spec fn view(&self) -> TensorMeta {
        TensorMeta {
            name: self.name@,
            n_dims: self.n_dims,
            dims: self.dims@,
            ggml_type: self.ggml_type,
            offset: self.offset,
        }
    }
}

/// The product of the dimensions.
pub open spec fn elements(dims: Seq<u64>) -> int
    decreases dims.len(),
{
    if dims.len() == 0 {
        1
    } else {
        elements(dims.drop_last()) * dims.last()
    }
}

/// The number of elements: one where there are no dimensions, and with one more dimension that many
/// times as many.
pub proof fn lemma_elements_multiply(dims: Seq<u64>, d: u64)
    ensures
        elements(Seq::empty()) == 1,
        elements(dims.push(d)) == elements(dims) * d,
        elements(seq![d]) == d,
{
    assert(dims.push(d).drop_last() =~= dims);
    assert(seq![d].drop_last() =~= Seq::<u64>::empty());
    assert(elements(seq![d].drop_last()) == 1);
}

/// No product of leading dimensions leaves 64 bits.
pub open spec fn elements_fit(dims: Seq<u64>) -> bool {
    forall|i: int| 0 <= i <= dims.len() ==> elements(#[trigger] dims.take(i)) <= u64::MAX
}

/// The header of a GGUF file.
pub struct GgufFile {
    /// The metadata. No key occurs twice.
    pub kv: Vec<(String, GgufValue)>,
    pub tensors: Vec<GgufTensorInfo>,
    /// Where the data area starts.
    pub data_offset: u64,
}

/// What the header of a GGUF file says.
pub struct GgufMeta {
    pub kv: Map<Seq<char>, MetaValue>,
    pub tensors: Seq<TensorMeta>,
    pub data_offset: int,
}

pub open spec fn entry_is(entries: Seq<(String, GgufValue)>, i: int, key: Seq<char>) -> bool {
    0 <= i < entries.len() && entries[i].0@ == key
}

/// The metadata as a map.
pub open spec fn entries_map(entries: Seq<(String, GgufValue)>) -> Map<Seq<char>, MetaValue> {
    Map::new(
        |key: Seq<char>| exists|i: int| entry_is(entries, i, key),
        |key: Seq<char>| entries[choose|i: int| entry_is(entries, i, key)].1@,
    )
}

pub open spec fn keys_distinct(entries: Seq<(String, GgufValue)>) -> bool {
    forall|i: int, j: int|
        0 <= i < entries.len() && 0 <= j < entries.len() && entries[i].0@ == entries[j].0@ ==> i
            == j
}

pub open spec fn metas_of(tensors: Seq<GgufTensorInfo>) -> Seq<TensorMeta> {
    Seq::new(tensors.len(), |i: int| tensors[i]@)
}

impl GgufFile {
    pub open spec fn wf(&self) -> bool {
        keys_distinct(self.kv@)
    }
}

impl View for GgufFile {
    type V = GgufMeta;

    open spec fn view(&self) -> GgufMeta {
        GgufMeta {
            kv: entries_map(self.kv@),
            tensors: metas_of(self.tensors@),
            data_offset: self.data_offset as int,
        }
    }
}

/// `n` metadata entries. Of two entries with the same key the later counts.
pub open spec fn entries_at(
    data: Seq<u8>,
    pos: int,
    n: int,
    before: Map<Seq<char>, MetaValue>,
) -> Step<Map<Seq<char>, MetaValue>>
    decreases n,
{
    if n <= 0 {
        Ok((before, pos))
    } else {
        match string_at(data, pos) {
            Ok((key, p)) => match uint_at(data, p, 4) {
                Ok((t, p)) => match value_at(data, p, t as u32) {
                    Ok((v, p)) => entries_at(data, p, n - 1, before.insert(key, v)),
                    Err(e) => Err(e),
                },
                Err(e) => Err(e),
            },
            Err(e) => Err(e),
        }
    }
}

/// `n` dimensions, eight bytes each.
pub open spec fn dims_at(data: Seq<u8>, pos: int, n: int, before: Seq<u64>) -> Step<Seq<u64>>
    decreases n,
{
    if n <= 0 {
        Ok((before, pos))
    } else {
        match uint_at(data, pos, 8) {
            Ok((d, p)) => dims_at(data, p, n - 1, before.push(d as u64)),
            Err(e) => Err(e),
        }
    }
}

/// One entry of the directory of tensors.
pub open spec fn tensor_at(data: Seq<u8>, pos: int) -> Step<TensorMeta> {
    match string_at(data, pos) {
        Ok((name, p)) => match uint_at(data, p, 4) {
            Ok((n_dims, p)) => match dims_at(data, p, n_dims, Seq::empty()) {
                Ok((dims, p)) => match uint_at(data, p, 4) {
                    Ok((ggml_type, p)) => match uint_at(data, p, 8) {
                        Ok((offset, p)) => Ok(
                            (
                                TensorMeta {
                                    name,
                                    n_dims: n_dims as u32,
                                    dims,
                                    ggml_type: ggml_type as u32,
                                    offset: offset as u64,
                                },
                                p,
                            ),
                        ),
                        Err(e) => Err(e),
                    },
                    Err(e) => Err(e),
                },
                Err(e) => Err(e),
            },
            Err(e) => Err(e),
        },
        Err(e) => Err(e),
    }
}

/// `n` entries of the directory of tensors.
pub open spec fn tensors_at(
    data: Seq<u8>,
    pos: int,
    n: int,
    before: Seq<TensorMeta>,
) -> Step<Seq<TensorMeta>>
    decreases n,
{
    if n <= 0 {
        Ok((before, pos))
    } else {
        match tensor_at(data, pos) {
            Ok((t, p)) => tensors_at(data, p, n - 1, before.push(t)),
            Err(e) => Err(e),
        }
    }
}

/// The next multiple of 32.
pub open spec fn aligned(pos: int) -> int {
    (pos + 31) / 32 * 32
}

/// The header of a GGUF file: magic number, version, the numbers of tensors and of metadata
/// entries, the metadata, the directory. The data area starts at the next multiple of 32; no file
/// reaches as far as one that cannot be written in 64 bits.
pub open spec fn header_of(data: Seq<u8>) -> Result<GgufMeta, GgufError> {
    match uint_at(data, 0, 4) {
        Err(e) => Err(e),
        Ok((magic, p)) => if magic != MAGIC {
            Err(GgufError::NotGguf)
        } else {
            match uint_at(data, p, 4) {
                Err(e) => Err(e),
                Ok((version, p)) => match uint_at(data, p, 8) {
                    Err(e) => Err(e),
                    Ok((n_tensors, p)) => match uint_at(data, p, 8) {
                        Err(e) => Err(e),
                        Ok((n_kv, p)) => match entries_at(data, p, n_kv, Map::empty()) {
                            Err(e) => Err(e),
                            Ok((kv, p)) => match tensors_at(data, p, n_tensors, Seq::empty()) {
                                Err(e) => Err(e),
                                Ok((tensors, p)) => if aligned(p) <= u64::MAX {
                                    Ok(GgufMeta { kv, tensors, data_offset: aligned(p) })
                                } else {
                                    Err(GgufError::UnexpectedEof)
                                },
                            },
                        },
                    },
                },
            }
        },
    }
}

proof fn lemma_entry_found(entries: Seq<(String, GgufValue)>, i: int)
    requires
        keys_distinct(entries),
        0 <= i < entries.len(),
    ensures
        entries_map(entries).contains_key(entries[i].0@),
        entries_map(entries)[entries[i].0@] == entries[i].1@,
{
    let key = entries[i].0@;
    assert(entry_is(entries, i, key));
    let j = choose|j: int| entry_is(entries, j, key);
    assert(entry_is(entries, j, key));
}

/// Adds an entry, or gives the key a new value.
fn insert_entry(entries: &mut Vec<(String, GgufValue)>, key: String, value: GgufValue)
    requires
        keys_distinct(old(entries)@),
    ensures
        keys_distinct(final(entries)@),
        entries_map(final(entries)@) == entries_map(old(entries)@).insert(key@, value@),
{
    let ghost before = entries@;
    let ghost k = key@;
    let ghost v = value@;
    let mut i: usize = 0;
    while i < entries.len()
        invariant
            i <= entries@.len(),
            entries@ == before,
            before == old(entries)@,
            keys_distinct(before),
            k == key@,
            v == value@,
            forall|j: int| 0 <= j < i ==> #[trigger] before[j].0@ != k,
        decreases entries@.len() - i,
    {
        if entries[i].0 == key {
            entries[i] = (key, value);
            proof {
                lemma_entry_replaced(before, entries@, i as int);
            }
            return ;
        }
        i += 1;
    }
    entries.push((key, value));
    proof {
        assert(entries@.drop_last() =~= before);
        lemma_entry_added(before, entries@);
    }
}

proof fn lemma_entry_replaced(
    before: Seq<(String, GgufValue)>,
    after: Seq<(String, GgufValue)>,
    i: int,
)
    requires
        keys_distinct(before),
        0 <= i < before.len(),
        after == before.update(i, after[i]),
        after[i].0@ == before[i].0@,
    ensures
        keys_distinct(after),
        entries_map(after) == entries_map(before).insert(after[i].0@, after[i].1@),
{
    assert forall|a: int, b: int|
        0 <= a < after.len() && 0 <= b < after.len() && after[a].0@ == after[b].0@ implies a == b by {
        assert(before[a].0@ == before[b].0@);
    }
    let m = entries_map(before).insert(after[i].0@, after[i].1@);
    assert forall|key: Seq<char>| m.contains_key(key) == #[trigger] entries_map(after).contains_key(
        key,
    ) && (m.contains_key(key) ==> m[key] == entries_map(after)[key]) by {
        if exists|j: int| entry_is(after, j, key) {
            let j = choose|j: int| entry_is(after, j, key);
            lemma_entry_found(after, j);
            assert(entry_is(before, j, key));
            lemma_entry_found(before, j);
        } else if exists|j: int| entry_is(before, j, key) {
            let j = choose|j: int| entry_is(before, j, key);
            assert(entry_is(after, j, key));
        } else {
            assert(entry_is(after, i, after[i].0@));
        }
    }
    assert(entries_map(after) =~= m);
}

proof fn lemma_entry_added(before: Seq<(String, GgufValue)>, after: Seq<(String, GgufValue)>)
    requires
        keys_distinct(before),
        after.len() == before.len() + 1,
        after.drop_last() == before,
        forall|j: int| 0 <= j < before.len() ==> #[trigger] before[j].0@ != after.last().0@,
    ensures
        keys_distinct(after),
        entries_map(after) == entries_map(before).insert(after.last().0@, after.last().1@),
{
    let n = before.len() as int;
    assert forall|j: int| 0 <= j < n implies before[j] == after[j] by {
        assert(after.drop_last()[j] == after[j]);
    }
    assert forall|a: int, b: int|
        0 <= a < after.len() && 0 <= b < after.len() && after[a].0@ == after[b].0@ implies a == b by {
        if a < n && b < n {
            assert(before[a].0@ == before[b].0@);
        } else if a < n {
            assert(before[a].0@ != after.last().0@);
        } else if b < n {
            assert(before[b].0@ != after.last().0@);
        }
    }
    let m = entries_map(before).insert(after.last().0@, after.last().1@);
    assert forall|key: Seq<char>| m.contains_key(key) == #[trigger] entries_map(after).contains_key(
        key,
    ) && (m.contains_key(key) ==> m[key] == entries_map(after)[key]) by {
        if exists|j: int| entry_is(after, j, key) {
            let j = choose|j: int| entry_is(after, j, key);
            lemma_entry_found(after, j);
            if j < n {
                assert(entry_is(before, j, key));
                lemma_entry_found(before, j);
                assert(before[j].0@ != after.last().0@);
            }
        } else if exists|j: int| entry_is(before, j, key) {
            let j = choose|j: int| entry_is(before, j, key);
            assert(entry_is(after, j, key));
        } else {
            assert(entry_is(after, n, after.last().0@));
        }
    }
    assert(entries_map(after) =~= m);
}

impl GgufFile {
    /// Reads the header out of the bytes of a file.
    pub fn open(data: &[u8]) -> (r: Result<GgufFile, GgufError>)
        ensures
            match r {
                Ok(f) => f.wf() && header_of(data@) == Ok::<GgufMeta, GgufError>(f@),
                Err(e) => header_of(data@) == Err::<GgufMeta, GgufError>(e),
            },
    {
        let (magic, p) = match u32_in(data, 0) {
            Ok(ok) => ok,
            Err(e) => {
                return Err(e);
            },
        };
        if magic != MAGIC {
            return Err(GgufError::NotGguf);
        }
        let (_version, p) = match u32_in(data, p) {
            Ok(ok) => ok,
            Err(e) => {
                return Err(e);
            },
        };
        let (n_tensors, p) = match u64_in(data, p) {
            Ok(ok) => ok,
            Err(e) => {
                return Err(e);
            },
        };
        let (n_kv, p) = match u64_in(data, p) {
            Ok(ok) => ok,
            Err(e) => {
                return Err(e);
            },
        };
        let (kv, p) = match read_entries(data, p, n_kv) {
            Ok(ok) => ok,
            Err(e) => {
                return Err(e);
            },
        };
        let (tensors, p) = match read_tensors(data, p, n_tensors) {
            Ok(ok) => ok,
            Err(e) => {
                return Err(e);
            },
        };
        if p as u64 > u64::MAX - 31 {
            return Err(GgufError::UnexpectedEof);
        }
        let data_offset: u64 = (p as u64 + 31) / 32 * 32;
        Ok(GgufFile { kv, tensors, data_offset })
    }

    /// The metadata value of a key.
    pub fn get(&self, key: &str) -> (r: Option<&GgufValue>)
        requires
            self.wf(),
        ensures
            match r {
                Some(v) => self@.kv.contains_key(key@) && v@ == self@.kv[key@],
                None => !self@.kv.contains_key(key@),
            },
    {
        let wanted: String = key.to_owned();
        let mut i: usize = 0;
        while i < self.kv.len()
            invariant
                self.wf(),
                wanted@ == key@,
                i <= self.kv@.len(),
                forall|j: int| 0 <= j < i ==> !entry_is(self.kv@, j, key@),
            decreases self.kv@.len() - i,
        {
            if self.kv[i].0 == wanted {
                proof {
                    lemma_entry_found(self.kv@, i as int);
                }
                return Some(&self.kv[i].1);
            }
            i += 1;
        }
        None
    }
}

fn read_entries(data: &[u8], pos: usize, n: u64) -> (r: Result<
    (Vec<(String, GgufValue)>, usize),
    GgufError,
>)
    requires
        pos <= data@.len(),
    ensures
        match r {
            Ok((kv, p)) => keys_distinct(kv@) && p <= data@.len() && entries_at(
                data@,
                pos as int,
                n as int,
                Map::empty(),
            ) == Ok::<(Map<Seq<char>, MetaValue>, int), GgufError>((entries_map(kv@), p as int)),
            Err(e) => entries_at(data@, pos as int, n as int, Map::empty()) == Err::<
                (Map<Seq<char>, MetaValue>, int),
                GgufError,
            >(e),
        },
{
    let mut kv: Vec<(String, GgufValue)> = Vec::new();
    let mut p: usize = pos;
    let mut i: u64 = 0;
    assert(entries_map(kv@) =~= Map::<Seq<char>, MetaValue>::empty());
    while i < n
        invariant
            pos <= p <= data@.len(),
            i <= n,
            keys_distinct(kv@),
            entries_at(data@, pos as int, n as int, Map::empty()) == entries_at(
                data@,
                p as int,
                n - i,
                entries_map(kv@),
            ),
        decreases n - i,
    {
        let (key, p1) = match read_string(data, p) {
            Ok(ok) => ok,
            Err(e) => {
                return Err(e);
            },
        };
        let (t, p2) = match u32_in(data, p1) {
            Ok(ok) => ok,
            Err(e) => {
                return Err(e);
            },
        };
        let (v, p3) = match read_value(data, p2, t) {
            Ok(ok) => ok,
            Err(e) => {
                return Err(e);
            },
        };
        insert_entry(&mut kv, key, v);
        p = p3;
        i += 1;
    }
    Ok((kv, p))
}

fn read_dims(data: &[u8], pos: usize, n: u32) -> (r: Result<(Vec<u64>, usize), GgufError>)
    requires
        pos <= data@.len(),
    ensures
        match r {
            Ok((dims, p)) => pos <= p <= data@.len() && dims_at(
                data@,
                pos as int,
                n as int,
                Seq::empty(),
            ) == Ok::<(Seq<u64>, int), GgufError>((dims@, p as int)) && dims@.len() == n,
            Err(e) => dims_at(data@, pos as int, n as int, Seq::empty()) == Err::<
                (Seq<u64>, int),
                GgufError,
            >(e),
        },
{
    let mut dims: Vec<u64> = Vec::new();
    let mut p: usize = pos;
    let mut i: u32 = 0;
    assert(dims@ =~= Seq::<u64>::empty());
    while i < n
        invariant
            pos <= p <= data@.len(),
            i <= n,
            dims@.len() == i,
            dims_at(data@, pos as int, n as int, Seq::empty()) == dims_at(
                data@,
                p as int,
                n - i,
                dims@,
            ),
        decreases n - i,
    {
        match u64_in(data, p) {
            Ok((d, q)) => {
                dims.push(d);
                p = q;
            },
            Err(e) => {
                return Err(e);
            },
        }
        i += 1;
    }
    Ok((dims, p))
}

fn read_tensor_info(data: &[u8], pos: usize) -> (r: Result<(GgufTensorInfo, usize), GgufError>)
    requires
        pos <= data@.len(),
    ensures
        match r {
            Ok((t, p)) => pos <= p <= data@.len() && t.n_dims == t.dims@.len() && tensor_at(
                data@,
                pos as int,
            ) == Ok::<(TensorMeta, int), GgufError>((t@, p as int)),
            Err(e) => tensor_at(data@, pos as int) == Err::<(TensorMeta, int), GgufError>(e),
        },
{
    let (name, p) = match read_string(data, pos) {
        Ok(ok) => ok,
        Err(e) => {
            return Err(e);
        },
    };
    let (n_dims, p) = match u32_in(data, p) {
        Ok(ok) => ok,
        Err(e) => {
            return Err(e);
        },
    };
    let (dims, p) = match read_dims(data, p, n_dims) {
        Ok(ok) => ok,
        Err(e) => {
            return Err(e);
        },
    };
    let (ggml_type, p) = match u32_in(data, p) {
        Ok(ok) => ok,
        Err(e) => {
            return Err(e);
        },
    };
    let (offset, p) = match u64_in(data, p) {
        Ok(ok) => ok,
        Err(e) => {
            return Err(e);
        },
    };
    Ok((GgufTensorInfo { name, n_dims, dims, ggml_type, offset }, p))
}

fn read_tensors(data: &[u8], pos: usize, n: u64) -> (r: Result<
    (Vec<GgufTensorInfo>, usize),
    GgufError,
>)
    requires
        pos <= data@.len(),
    ensures
        match r {
            Ok((tensors, p)) => p <= data@.len() && tensors_at(
                data@,
                pos as int,
                n as int,
                Seq::empty(),
            ) == Ok::<(Seq<TensorMeta>, int), GgufError>((metas_of(tensors@), p as int)),
            Err(e) => tensors_at(data@, pos as int, n as int, Seq::empty()) == Err::<
                (Seq<TensorMeta>, int),
                GgufError,
            >(e),
        },
{
    let mut tensors: Vec<GgufTensorInfo> = Vec::new();
    let mut p: usize = pos;
    let mut i: u64 = 0;
    assert(metas_of(tensors@) =~= Seq::<TensorMeta>::empty());
    while i < n
        invariant
            pos <= p <= data@.len(),
            i <= n,
            tensors_at(data@, pos as int, n as int, Seq::empty()) == tensors_at(
                data@,
                p as int,
                n - i,
                metas_of(tensors@),
            ),
        decreases n - i,
    {
        match read_tensor_info(data, p) {
            Ok((t, q)) => {
                let ghost before = metas_of(tensors@);
                let ghost m = t@;
                tensors.push(t);
                assert(metas_of(tensors@) =~= before.push(m));
                p = q;
            },
            Err(e) => {
                return Err(e);
            },
        }
        i += 1;
    }
    Ok((tensors, p))
}

/// The first position that a file cannot be positioned at: positions are signed 64-bit numbers.
pub const POSITION_LIMIT: u64 = 0x8000_0000_0000_0000;

/// `len` bytes from `start` on. The file is positioned at `start` first, whatever `len` is; to
/// read no bytes then succeeds, even behind the end.
pub open spec fn bytes_at(data: Seq<u8>, start: int, len: int) -> Result<Seq<u8>, GgufError> {
    if start >= POSITION_LIMIT {
        Err(GgufError::InvalidOffset)
    } else if len <= 0 {
        Ok(Seq::empty())
    } else if start + len <= data.len() {
        Ok(data.subrange(start, start + len))
    } else {
        Err(GgufError::UnexpectedEof)
    }
}

/// The block of a tensor type: its bytes and its elements.
pub open spec fn block_size(t: u32) -> (u64, u64) {
    if t == 0 || t == 41 || t == 43 {
        (4, 1)
    } else if t == 1 || t == 2 {
        (2, 1)
    } else if t == 7 || t == 32 || t == 34 {
        (5, 4)
    } else if t == 8 {
        (6, 8)
    } else if t == 40 || t == 42 {
        (8, 1)
    } else if t == 99 {
        (20, 64)
    } else {
        (0, 1)
    }
}

/// The block of a tensor type: its bytes and its elements.
pub fn type_block_size(t: u32) -> (r: (u64, u64))
    ensures
        r == block_size(t),
{
    match t {
        0 => (4, 1),
        1 => (2, 1),
        2 => (2, 1),
        7 => (5, 4),
        8 => (6, 8),
        32 => (5, 4),
        34 => (5, 4),
        40 => (8, 1),
        41 => (4, 1),
        42 => (8, 1),
        43 => (4, 1),
        99 => (20, 64),
        _ => (0, 1),
    }
}

/// The size that is given for a tensor of `ne` elements: four bytes for each element of the types
/// 0, 1 and 2, whole blocks for the others. It is not what is read of the types 1 and 2, whose
/// elements take two bytes each in the data area.
pub open spec fn data_len(t: u32, ne: int) -> int {
    if t <= 2 {
        ne * 4
    } else {
        ne / block_size(t).1 as int * block_size(t).0
    }
}

/// The product of the dimensions, where it fits in 128 bits.
pub fn count_elements(dims: &[u64]) -> (r: Option<u128>)
    ensures
        match r {
            Some(n) => n == elements(dims@),
            None => elements(dims@) > u128::MAX,
        },
{
    let mut i: usize = 0;
    while i < dims.len()
        invariant
            i <= dims@.len(),
            forall|j: int| 0 <= j < i ==> dims@[j] > 0,
        decreases dims@.len() - i,
    {
        if dims[i] == 0 {
            proof {
                lemma_elements_zero(dims@, i as int);
            }
            return Some(0);
        }
        i += 1;
    }
    let mut n: u128 = 1;
    i = 0;
    assert(dims@.take(0) =~= Seq::<u64>::empty());
    while i < dims.len()
        invariant
            i <= dims@.len(),
            n == elements(dims@.take(i as int)),
            forall|j: int| 0 <= j < dims@.len() ==> dims@[j] > 0,
        decreases dims@.len() - i,
    {
        let d: u64 = dims[i];
        let ghost next = dims@.take(i + 1);
        proof {
            assert(next.drop_last() =~= dims@.take(i as int));
            assert(elements(next) == n * d);
        }
        match n.checked_mul(d as u128) {
            Some(m) => {
                n = m;
            },
            None => {
                proof {
                    lemma_elements_grow(dims@, i + 1, dims@.len() as int);
                    assert(dims@.take(dims@.len() as int) =~= dims@);
                }
                return None;
            },
        }
        i += 1;
    }
    assert(dims@.take(i as int) =~= dims@);
    Some(n)
}

proof fn lemma_elements_zero(dims: Seq<u64>, i: int)
    requires
        0 <= i < dims.len(),
        dims[i] == 0,
    ensures
        elements(dims) == 0,
    decreases dims.len(),
{
    let last = dims.last() as int;
    if i < dims.len() - 1 {
        lemma_elements_zero(dims.drop_last(), i);
        assert(0 * last == 0);
    } else {
        let rest = elements(dims.drop_last());
        assert(rest * 0 == 0);
    }
}

proof fn lemma_elements_grow(dims: Seq<u64>, i: int, j: int)
    requires
        0 <= i <= j <= dims.len(),
        forall|k: int| 0 <= k < dims.len() ==> dims[k] > 0,
    ensures
        0 < elements(dims.take(i)) <= elements(dims.take(j)),
    decreases j,
{
    if j > 0 {
        assert(dims.take(j).drop_last() =~= dims.take(j - 1));
        let d = dims[j - 1] as int;
        if i < j {
            lemma_elements_grow(dims, i, j - 1);
        } else {
            lemma_elements_grow(dims, j - 1, j - 1);
        }
        let e = elements(dims.take(j - 1));
        assert(e <= e * d && 0 < e * d) by (nonlinear_arith)
            requires
                e > 0,
                d > 0,
        ;
    }
}

impl GgufFile {
    /// The bytes of a tensor, `len` of them, out of the bytes of the file.
    pub fn read_tensor_data<'a>(&self, data: &'a [u8], t: &GgufTensorInfo, len: u64) -> (r: Result<
        &'a [u8],
        GgufError,
    >)
        ensures
            match r {
                Ok(bytes) => bytes_at(data@, self.data_offset + t.offset, len as int) == Ok::<
                    Seq<u8>,
                    GgufError,
                >(bytes@),
                Err(e) => bytes_at(data@, self.data_offset + t.offset, len as int) == Err::<
                    Seq<u8>,
                    GgufError,
                >(e),
            },
    {
        let start: u128 = self.data_offset as u128 + t.offset as u128;
        if start >= POSITION_LIMIT as u128 {
            return Err(GgufError::InvalidOffset);
        }
        if len == 0 {
            let nothing: &[u8] = slice_subrange(data, 0, 0);
            assert(nothing@ =~= Seq::<u8>::empty());
            return Ok(nothing);
        }
        let end: u128 = start + len as u128;
        if end > data.len() as u128 {
            return Err(GgufError::UnexpectedEof);
        }
        Ok(slice_subrange(data, start as usize, end as usize))
    }

    /// The size that is given for a tensor: four bytes for each element of the types 0, 1 and 2,
    /// though those of the types 1 and 2 take two each in the data area, and whole blocks for the
    /// others.
    pub fn tensor_data_len(&self, t: &GgufTensorInfo) -> (r: u64)
        requires
            elements_fit(t.dims@),
            data_len(t.ggml_type, elements(t.dims@)) <= u64::MAX,
        ensures
            r == data_len(t.ggml_type, elements(t.dims@)),
    {
        let ne: u64 = self.n_elements(t);
        if t.ggml_type <= 2 {
            ne * 4
        } else {
            let (blk, per_blk) = type_block_size(t.ggml_type);
            ne / per_blk * blk
        }
    }

    /// The number of elements of a tensor.
    pub fn n_elements(&self, t: &GgufTensorInfo) -> (n: u64)
        requires
            elements_fit(t.dims@),
        ensures
            n == elements(t.dims@),
    {
        let mut n: u64 = 1;
        let mut i: usize = 0;
        assert(t.dims@.take(0) =~= Seq::<u64>::empty());
        while i < t.dims.len()
            invariant
                elements_fit(t.dims@),
                i <= t.dims@.len(),
                n == elements(t.dims@.take(i as int)),
            decreases t.dims@.len() - i,
        {
            proof {
                let next = t.dims@.take(i + 1);
                assert(next.drop_last() =~= t.dims@.take(i as int));
                assert(elements(next) <= u64::MAX);
                let d = t.dims@[i as int] as int;
                assert(n * d >= 0) by (nonlinear_arith)
                    requires
                        n >= 0,
                        d >= 0,
                ;
            }
            n = n * t.dims[i];
            i += 1;
        }
        assert(t.dims@.take(i as int) =~= t.dims@);
        n
    }
}

/// Bytes behind the header do not change it: what can be read out of a file can be read, with the
/// same result, out of every file that starts with the same bytes.
pub proof fn lemma_header_prefix(data: Seq<u8>, more: Seq<u8>)
    requires
        header_of(data) is Ok,
    ensures
        header_of(data + more) == header_of(data),
{
    let all = data + more;
    lemma_uint_prefix(data, more, 0, 4);
    lemma_uint_prefix(data, more, 4, 4);
    lemma_uint_prefix(data, more, 8, 8);
    lemma_uint_prefix(data, more, 16, 8);
    let n_tensors = uint_at(data, 8, 8)->Ok_0.0;
    let n_kv = uint_at(data, 16, 8)->Ok_0.0;
    lemma_entries_prefix(data, more, 24, n_kv, Map::empty());
    let (kv, p) = entries_at(data, 24, n_kv, Map::empty())->Ok_0;
    lemma_tensors_prefix(data, more, p, n_tensors, Seq::empty());
}

proof fn lemma_uint_prefix(data: Seq<u8>, more: Seq<u8>, pos: int, n: int)
    requires
        0 <= pos,
        0 <= n,
        uint_at(data, pos, n) is Ok,
    ensures
        uint_at(data + more, pos, n) == uint_at(data, pos, n),
        uint_at(data, pos, n)->Ok_0.1 == pos + n <= data.len(),
{
    assert((data + more).subrange(pos, pos + n) =~= data.subrange(pos, pos + n));
}

proof fn lemma_le_nonnegative(bytes: Seq<u8>)
    ensures
        le(bytes) >= 0,
    decreases bytes.len(),
{
    if bytes.len() > 0 {
        lemma_le_nonnegative(bytes.drop_first());
    }
}

proof fn lemma_string_prefix(data: Seq<u8>, more: Seq<u8>, pos: int)
    requires
        0 <= pos,
        string_at(data, pos) is Ok,
    ensures
        string_at(data + more, pos) == string_at(data, pos),
        pos < string_at(data, pos)->Ok_0.1 <= data.len(),
{
    lemma_uint_prefix(data, more, pos, 8);
    let (len, p) = uint_at(data, pos, 8)->Ok_0;
    lemma_le_nonnegative(data.subrange(pos, pos + 8));
    assert((data + more).subrange(p, p + len) =~= data.subrange(p, p + len));
}

proof fn lemma_value_prefix(data: Seq<u8>, more: Seq<u8>, pos: int, t: u32)
    requires
        0 <= pos,
        value_at(data, pos, t) is Ok,
    ensures
        value_at(data + more, pos, t) == value_at(data, pos, t),
        pos < value_at(data, pos, t)->Ok_0.1 <= data.len(),
    decreases data.len() - pos, 0nat,
{
    if t == 0 || t == 1 || t == 7 {
        lemma_uint_prefix(data, more, pos, 1);
    } else if t == 2 || t == 3 {
        lemma_uint_prefix(data, more, pos, 2);
    } else if t == 4 || t == 5 || t == 6 {
        lemma_uint_prefix(data, more, pos, 4);
    } else if t == 8 {
        lemma_string_prefix(data, more, pos);
    } else if t == 9 {
        lemma_uint_prefix(data, more, pos, 4);
        let (elem, p) = uint_at(data, pos, 4)->Ok_0;
        lemma_uint_prefix(data, more, p, 8);
        let (len, q) = uint_at(data, p, 8)->Ok_0;
        lemma_items_prefix(data, more, q, elem as u32, len, Seq::empty());
    } else {
        lemma_uint_prefix(data, more, pos, 8);
    }
}

proof fn lemma_items_prefix(
    data: Seq<u8>,
    more: Seq<u8>,
    pos: int,
    t: u32,
    n: int,
    before: Seq<MetaValue>,
)
    requires
        0 <= pos <= data.len(),
        items_at(data, pos, t, n, before) is Ok,
    ensures
        items_at(data + more, pos, t, n, before) == items_at(data, pos, t, n, before),
        pos <= items_at(data, pos, t, n, before)->Ok_0.1 <= data.len(),
    decreases data.len() - pos, (if n < 0 { 0 } else { n as nat }) + 1,
{
    if n > 0 {
        lemma_value_prefix(data, more, pos, t);
        let (v, p) = value_at(data, pos, t)->Ok_0;
        lemma_items_prefix(data, more, p, t, n - 1, before.push(v));
    }
}

proof fn lemma_entries_prefix(
    data: Seq<u8>,
    more: Seq<u8>,
    pos: int,
    n: int,
    before: Map<Seq<char>, MetaValue>,
)
    requires
        0 <= pos <= data.len(),
        entries_at(data, pos, n, before) is Ok,
    ensures
        entries_at(data + more, pos, n, before) == entries_at(data, pos, n, before),
        pos <= entries_at(data, pos, n, before)->Ok_0.1 <= data.len(),
    decreases n,
{
    if n > 0 {
        lemma_string_prefix(data, more, pos);
        let (key, p) = string_at(data, pos)->Ok_0;
        lemma_uint_prefix(data, more, p, 4);
        let (t, q) = uint_at(data, p, 4)->Ok_0;
        lemma_value_prefix(data, more, q, t as u32);
        let (v, r) = value_at(data, q, t as u32)->Ok_0;
        lemma_entries_prefix(data, more, r, n - 1, before.insert(key, v));
    }
}

proof fn lemma_dims_prefix(data: Seq<u8>, more: Seq<u8>, pos: int, n: int, before: Seq<u64>)
    requires
        0 <= pos <= data.len(),
        dims_at(data, pos, n, before) is Ok,
    ensures
        dims_at(data + more, pos, n, before) == dims_at(data, pos, n, before),
        pos <= dims_at(data, pos, n, before)->Ok_0.1 <= data.len(),
    decreases n,
{
    if n > 0 {
        lemma_uint_prefix(data, more, pos, 8);
        let (d, p) = uint_at(data, pos, 8)->Ok_0;
        lemma_dims_prefix(data, more, p, n - 1, before.push(d as u64));
    }
}

proof fn lemma_tensors_prefix(
    data: Seq<u8>,
    more: Seq<u8>,
    pos: int,
    n: int,
    before: Seq<TensorMeta>,
)
    requires
        0 <= pos <= data.len(),
        tensors_at(data, pos, n, before) is Ok,
    ensures
        tensors_at(data + more, pos, n, before) == tensors_at(data, pos, n, before),
        pos <= tensors_at(data, pos, n, before)->Ok_0.1 <= data.len(),
    decreases n,
{
    if n > 0 {
        lemma_string_prefix(data, more, pos);
        let p = string_at(data, pos)->Ok_0.1;
        lemma_uint_prefix(data, more, p, 4);
        let (n_dims, q) = uint_at(data, p, 4)->Ok_0;
        lemma_dims_prefix(data, more, q, n_dims, Seq::empty());
        let r = dims_at(data, q, n_dims, Seq::empty())->Ok_0.1;
        lemma_uint_prefix(data, more, r, 4);
        lemma_uint_prefix(data, more, r + 4, 8);
        let (t, s) = tensor_at(data, pos)->Ok_0;
        lemma_tensors_prefix(data, more, s, n - 1, before.push(t));
    }
}

/// The data area starts on a multiple of 32, at most 31 bytes behind the header, and never before
/// its end.
pub proof fn lemma_data_area_aligned(pos: int)
    requires
        0 <= pos,
    ensures
        aligned(pos) % 32 == 0,
        pos <= aligned(pos) < pos + 32,
{
}

} // verus!
