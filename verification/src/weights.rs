//! Tensors out of a GGUF file.

use crate::bytes::{le, read_u16, read_u32};
use crate::float::{bf16_to_f32, half_to_f32, lemma_widens_unique, widens};
use crate::gguf::{
    bytes_at, count_elements, elements, GgufError, GgufFile, GgufMeta, GgufTensorInfo, TensorMeta,
    POSITION_LIMIT,
};
use crate::i2::{code_at, pack_codes, unpack_wide, wide_code_at, I2Tensor};
use crate::text::{concat2, concat3, decimal, decimal_of};
use vstd::prelude::*;
use vstd::slice::slice_subrange;
use vstd::string::StringExecFns;

verus! {

/// The tensor type of ternary weights.
pub const GGML_TYPE_I2_S: u32 = 36;

/// Why a model cannot be loaded.
#[derive(Debug)]
pub enum ModelError {
    /// The file cannot be read, or is not a GGUF file.
    Io(GgufError),
    /// The file is not laid out as expected.
    Format(String),
}

/// What an error says.
pub enum LoadError {
    Io(GgufError),
    Format(Seq<char>),
}

impl View for ModelError {
    type V = LoadError;

    open spec fn view(&self) -> LoadError {
        match self {
            ModelError::Io(e) => LoadError::Io(*e),
            ModelError::Format(m) => LoadError::Format(m@),
        }
    }
}

impl From<GgufError> for ModelError {
    fn from(e: GgufError) -> (r: ModelError) {
        ModelError::Io(e)
    }
}

impl vstd::std_specs::convert::FromSpecImpl<GgufError> for ModelError {
    open spec fn obeys_from_spec() -> bool {
        true
    }

    open spec fn from_spec(e: GgufError) -> ModelError {
        ModelError::Io(e)
    }
}

impl ModelError {
    /// The error in words.
    pub fn message(&self) -> (s: String)
        ensures
            s@ == (match self@ {
                LoadError::Io(e) => "IO 错误: "@ + e.text(),
                LoadError::Format(m) => "模型格式错误: "@ + m,
            }),
    {
        match self {
            ModelError::Io(e) => concat2("IO 错误: ", e.message().as_str()),
            ModelError::Format(m) => concat2("模型格式错误: ", m.as_str()),
        }
    }
}

/// A weight matrix or vector: numbers as their bit patterns, or packed ternary weights.
pub enum TensorData {
    F32(Vec<u32>),
    I2(I2Tensor),
}

/// What a tensor holds.
pub enum Weights {
    Dense(Seq<u32>),
    Ternary { codes: Seq<u8>, scales: Seq<u32> },
}

/// The codes of a packed tensor.
pub open spec fn codes_of(t: I2Tensor) -> Seq<u8> {
    Seq::new(t.n as nat, |i: int| code_at(t.packed@, i))
}

impl View for TensorData {
    type V = Weights;

    open spec fn view(&self) -> Weights {
        match self {
            TensorData::F32(v) => Weights::Dense(v@),
            TensorData::I2(t) => Weights::Ternary { codes: codes_of(*t), scales: t.scales@ },
        }
    }
}

impl TensorData {
    /// Ternary weights come in whole blocks.
    pub open spec fn wf(&self) -> bool {
        self matches TensorData::I2(t) ==> t.wf()
    }
}

/// The first tensor of a name, from place `i` on.
pub open spec fn find_from(tensors: Seq<TensorMeta>, name: Seq<char>, i: int) -> Option<TensorMeta>
    decreases tensors.len() - i,
{
    if i >= tensors.len() {
        None
    } else if tensors[i].name == name {
        Some(tensors[i])
    } else {
        find_from(tensors, name, i + 1)
    }
}

/// Numbers of four bytes each.
pub open spec fn singles(bytes: Seq<u8>) -> Seq<u32> {
    Seq::new(bytes.len() / 4, |i: int| le(bytes.subrange(4 * i, 4 * i + 4)) as u32)
}

/// The upper halves of patterns, two bytes each.
pub open spec fn brains(bytes: Seq<u8>) -> Seq<u32> {
    Seq::new(bytes.len() / 2, |i: int| (le(bytes.subrange(2 * i, 2 * i + 2)) * 0x1_0000) as u32)
}

/// What a half-precision pattern widens to.
pub open spec fn widened(half: u16) -> u32 {
    choose|bits: u32| widens(half, bits)
}

/// Half-precision numbers, two bytes each.
pub open spec fn halves(bytes: Seq<u8>) -> Seq<u32> {
    Seq::new(bytes.len() / 2, |i: int| widened(le(bytes.subrange(2 * i, 2 * i + 2)) as u16))
}

/// Ternary weights as a file stores them: `n` codes, 128 to 32 bytes, then the scale of all.
pub open spec fn ternary_weights(bytes: Seq<u8>, n: int) -> Weights {
    Weights::Ternary {
        codes: Seq::new(n as nat, |i: int| wide_code_at(bytes, i)),
        scales: Seq::new(
            (n / 64) as nat,
            |b: int| le(bytes.subrange(n / 4, n / 4 + 4)) as u32,
        ),
    }
}

/// The tensor of a name in a file with the bytes `data`.
pub open spec fn tensor_of(g: GgufMeta, data: Seq<u8>, name: Seq<char>) -> Result<
    Weights,
    LoadError,
> {
    match find_from(g.tensors, name, 0) {
        None => Err(LoadError::Format("张量 "@ + name + " 不存在"@)),
        Some(t) => {
            let n = elements(t.dims);
            let start = g.data_offset + t.offset;
            if t.ggml_type == 0 {
                match bytes_at(data, start, n * 4) {
                    Ok(bytes) => Ok(Weights::Dense(singles(bytes))),
                    Err(e) => Err(LoadError::Io(e)),
                }
            } else if t.ggml_type == 1 {
                match bytes_at(data, start, n * 2) {
                    Ok(bytes) => Ok(Weights::Dense(halves(bytes))),
                    Err(e) => Err(LoadError::Io(e)),
                }
            } else if t.ggml_type == 2 {
                match bytes_at(data, start, n * 2) {
                    Ok(bytes) => Ok(Weights::Dense(brains(bytes))),
                    Err(e) => Err(LoadError::Io(e)),
                }
            } else if t.ggml_type == GGML_TYPE_I2_S {
                match bytes_at(data, start, n / 4 + 32) {
                    Ok(bytes) => if n % 128 == 0 && n <= usize::MAX {
                        Ok(ternary_weights(bytes, n))
                    } else {
                        Err(LoadError::Format("张量 "@ + name + " 的权重数无效"@))
                    },
                    Err(e) => Err(LoadError::Io(e)),
                }
            } else {
                Err(
                    LoadError::Format(
                        "不支持的张量类型 "@ + decimal_of(t.ggml_type as int) + "（"@ + (name
                            + "）"@),
                    ),
                )
            }
        },
    }
}

fn find_tensor<'a>(g: &'a GgufFile, name: &str) -> (r: Option<&'a GgufTensorInfo>)
    ensures
        match r {
            Some(t) => find_from(g@.tensors, name@, 0) == Some(t@),
            None => find_from(g@.tensors, name@, 0) is None,
        },
{
    let wanted: String = name.to_owned();
    let mut i: usize = 0;
    while i < g.tensors.len()
        invariant
            wanted@ == name@,
            i <= g.tensors@.len(),
            find_from(g@.tensors, name@, 0) == find_from(g@.tensors, name@, i as int),
        decreases g.tensors@.len() - i,
    {
        assert(g@.tensors[i as int] == g.tensors@[i as int]@);
        if g.tensors[i].name == wanted {
            return Some(&g.tensors[i]);
        }
        i += 1;
    }
    None
}

fn read_singles(bytes: &[u8]) -> (v: Vec<u32>)
    ensures
        v@ == singles(bytes@),
{
    let len: usize = bytes.len();
    let n: usize = len / 4;
    let mut v: Vec<u32> = Vec::new();
    let mut i: usize = 0;
    while i < n
        invariant
            len == bytes@.len(),
            n == len / 4,
            i <= n,
            v@.len() == i,
            forall|j: int| 0 <= j < i ==> #[trigger] v@[j] == singles(bytes@)[j],
        decreases n - i,
    {
        let four: &[u8] = slice_subrange(bytes, 4 * i, 4 * i + 4);
        assert(four@.take(4) =~= four@);
        v.push(read_u32(four));
        i += 1;
    }
    assert(v@ =~= singles(bytes@));
    v
}

fn read_brains(bytes: &[u8]) -> (v: Vec<u32>)
    ensures
        v@ == brains(bytes@),
{
    let len: usize = bytes.len();
    let n: usize = len / 2;
    let mut v: Vec<u32> = Vec::new();
    let mut i: usize = 0;
    while i < n
        invariant
            len == bytes@.len(),
            n == len / 2,
            i <= n,
            v@.len() == i,
            forall|j: int| 0 <= j < i ==> #[trigger] v@[j] == brains(bytes@)[j],
        decreases n - i,
    {
        let two: &[u8] = slice_subrange(bytes, 2 * i, 2 * i + 2);
        assert(two@.take(2) =~= two@);
        v.push(bf16_to_f32(read_u16(two)));
        i += 1;
    }
    assert(v@ =~= brains(bytes@));
    v
}

fn read_halves(bytes: &[u8]) -> (v: Vec<u32>)
    ensures
        v@ == halves(bytes@),
{
    let len: usize = bytes.len();
    let n: usize = len / 2;
    let mut v: Vec<u32> = Vec::new();
    let mut i: usize = 0;
    while i < n
        invariant
            len == bytes@.len(),
            n == len / 2,
            i <= n,
            v@.len() == i,
            forall|j: int| 0 <= j < i ==> #[trigger] v@[j] == halves(bytes@)[j],
        decreases n - i,
    {
        let two: &[u8] = slice_subrange(bytes, 2 * i, 2 * i + 2);
        assert(two@.take(2) =~= two@);
        let half: u16 = read_u16(two);
        let bits: u32 = half_to_f32(half);
        proof {
            let other = choose|b: u32| widens(half, b);
            lemma_widens_unique(half, bits, other);
        }
        v.push(bits);
        i += 1;
    }
    assert(v@ =~= halves(bytes@));
    v
}

/// Ternary weights out of the bytes of a file, brought from 128 weights in 32 bytes to 64 in 16.
fn read_ternary(bytes: &[u8], n: usize) -> (t: I2Tensor)
    requires
        n % 128 == 0,
        bytes@.len() == n as int / 4 + 32,
    ensures
        t.wf(),
        t.n == n,
        TensorData::I2(t)@ == ternary_weights(bytes@, n as int),
{
    let packed_size: usize = n / 4;
    let four: &[u8] = slice_subrange(bytes, packed_size, packed_size + 4);
    assert(four@.take(4) =~= four@);
    let scale: u32 = read_u32(four);
    let codes: Vec<u8> = unpack_wide(bytes, n);
    let packed: Vec<u8> = pack_codes(codes.as_slice());
    let n_blocks: usize = n / 64;
    let mut scales: Vec<u32> = Vec::new();
    let mut b: usize = 0;
    while b < n_blocks
        invariant
            b <= n_blocks,
            scales@.len() == b,
            forall|j: int| 0 <= j < b ==> #[trigger] scales@[j] == scale,
        decreases n_blocks - b,
    {
        scales.push(scale);
        b += 1;
    }
    let t: I2Tensor = I2Tensor::from_blocks(packed, scales);
    proof {
        assert forall|i: int| 0 <= i < n implies #[trigger] codes_of(t)[i] == wide_code_at(
            bytes@,
            i,
        ) by {
            assert(code_at(packed@, i) == codes@[i]);
        }
        let spec = ternary_weights(bytes@, n as int);
        assert(codes_of(t) =~= spec->codes);
        assert(t.scales@ =~= spec->scales);
    }
    t
}

/// The bytes of a tensor that the file can be positioned at, where there are that many.
fn tensor_bytes<'a>(g: &GgufFile, data: &'a [u8], t: &GgufTensorInfo, len: u128) -> (r: Result<
    &'a [u8],
    ModelError,
>)
    requires
        g.data_offset + t.offset < POSITION_LIMIT,
    ensures
        match r {
            Ok(bytes) => bytes_at(data@, g.data_offset + t.offset, len as int) == Ok::<
                Seq<u8>,
                GgufError,
            >(bytes@),
            Err(e) => bytes_at(data@, g.data_offset + t.offset, len as int) == Err::<
                Seq<u8>,
                GgufError,
            >(GgufError::UnexpectedEof) && e@ == LoadError::Io(GgufError::UnexpectedEof),
        },
{
    if len > data.len() as u128 {
        return Err(ModelError::Io(GgufError::UnexpectedEof));
    }
    match g.read_tensor_data(data, t, len as u64) {
        Ok(bytes) => Ok(bytes),
        Err(e) => Err(ModelError::Io(e)),
    }
}

/// Loads the tensor of a name.
pub fn load_tensor(g: &GgufFile, data: &[u8], name: &str) -> (r: Result<TensorData, ModelError>)
    ensures
        match r {
            Ok(t) => t.wf() && tensor_of(g@, data@, name@) == Ok::<Weights, LoadError>(t@),
            Err(e) => tensor_of(g@, data@, name@) == Err::<Weights, LoadError>(e@),
        },
{
    let t: &GgufTensorInfo = match find_tensor(g, name) {
        Some(t) => t,
        None => {
            return Err(ModelError::Format(concat3("张量 ", name, " 不存在")));
        },
    };
    if t.ggml_type > 2 && t.ggml_type != GGML_TYPE_I2_S {
        let end: String = concat2(name, "）");
        let mut m: String = concat3(
            "不支持的张量类型 ",
            decimal(t.ggml_type as u64).as_str(),
            "（",
        );
        m.append(end.as_str());
        return Err(ModelError::Format(m));
    }
    if g.data_offset as u128 + t.offset as u128 >= POSITION_LIMIT as u128 {
        return Err(ModelError::Io(GgufError::InvalidOffset));
    }
    let n: u128 = match count_elements(t.dims.as_slice()) {
        Some(n) => n,
        None => {
            let len: usize = data.len();
            assert(elements(t.dims@) / 4 > len);
            return Err(ModelError::Io(GgufError::UnexpectedEof));
        },
    };
    if t.ggml_type == GGML_TYPE_I2_S {
        match tensor_bytes(g, data, t, n / 4 + 32) {
            Err(e) => Err(e),
            Ok(bytes) => {
                if n % 128 != 0 || n > usize::MAX as u128 {
                    return Err(
                        ModelError::Format(concat3("张量 ", name, " 的权重数无效")),
                    );
                }
                Ok(TensorData::I2(read_ternary(bytes, n as usize)))
            },
        }
    } else {
        if n > data.len() as u128 {
            return Err(ModelError::Io(GgufError::UnexpectedEof));
        }
        if t.ggml_type == 0 {
            match tensor_bytes(g, data, t, n * 4) {
                Err(e) => Err(e),
                Ok(bytes) => Ok(TensorData::F32(read_singles(bytes))),
            }
        } else if t.ggml_type == 1 {
            match tensor_bytes(g, data, t, n * 2) {
                Err(e) => Err(e),
                Ok(bytes) => Ok(TensorData::F32(read_halves(bytes))),
            }
        } else {
            match tensor_bytes(g, data, t, n * 2) {
                Err(e) => Err(e),
                Ok(bytes) => Ok(TensorData::F32(read_brains(bytes))),
            }
        }
    }
}

} // verus!
