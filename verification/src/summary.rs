//! How many tensors of each type a file holds, and how many bytes they take.

use crate::gguf::{
    block_size, data_len, elements, elements_fit, metas_of, type_block_size, GgufFile, GgufTensorInfo,
    TensorMeta,
};
use vstd::prelude::*;

verus! {

/// The tensors of one type.
pub struct TypeTotal {
    pub ggml_type: u32,
    pub count: usize,
    pub bytes: u64,
}

/// The bytes of a tensor.
pub open spec fn tensor_bytes(t: TensorMeta) -> int {
    data_len(t.ggml_type, elements(t.dims))
}

/// The bytes of a tensor can be counted in 64 bits.
pub open spec fn countable(t: TensorMeta) -> bool {
    elements_fit(t.dims) && tensor_bytes(t) <= u64::MAX
}

/// The number of tensors of type `ty`.
pub open spec fn type_count(ts: Seq<TensorMeta>, ty: u32) -> int
    decreases ts.len(),
{
    if ts.len() == 0 {
        0
    } else {
        type_count(ts.drop_last(), ty) + if ts.last().ggml_type == ty {
            1int
        } else {
            0
        }
    }
}

/// The bytes of the tensors of type `ty`.
pub open spec fn type_bytes(ts: Seq<TensorMeta>, ty: u32) -> int
    decreases ts.len(),
{
    if ts.len() == 0 {
        0
    } else {
        type_bytes(ts.drop_last(), ty) + if ts.last().ggml_type == ty {
            tensor_bytes(ts.last())
        } else {
            0
        }
    }
}

/// The bytes of every tensor, and those of every type, can be counted in 64 bits.
pub open spec fn all_countable(ts: Seq<TensorMeta>) -> bool {
    &&& forall|i: int| 0 <= i < ts.len() ==> countable(#[trigger] ts[i])
    &&& forall|ty: u32| #[trigger] type_bytes(ts, ty) <= u64::MAX
}

/// `totals` says of each type of `ts`, once, how many tensors and how many bytes there are.
pub open spec fn totals_of(ts: Seq<TensorMeta>, totals: Seq<TypeTotal>) -> bool {
    &&& forall|j: int|
        0 <= j < totals.len() ==> (#[trigger] totals[j]).count == type_count(
            ts,
            totals[j].ggml_type,
        ) && totals[j].bytes == type_bytes(ts, totals[j].ggml_type)
    &&& forall|j: int, k: int|
        0 <= j < k < totals.len() ==> (#[trigger] totals[j]).ggml_type != (
        #[trigger] totals[k]).ggml_type
    &&& forall|ty: u32| #[trigger]
        type_count(ts, ty) > 0 <==> exists|j: int|
            0 <= j < totals.len() && (#[trigger] totals[j]).ggml_type == ty
}

/// The tensors of a type are counted one by one, and their bytes added up: two lists together have
/// the sum of what each has, and one tensor counts for its own type only, with four bytes for each
/// element where it is of type 0, 1 or 2.
pub proof fn lemma_totals_add_up(a: Seq<TensorMeta>, b: Seq<TensorMeta>, t: TensorMeta, ty: u32)
    ensures
        type_count(a + b, ty) == type_count(a, ty) + type_count(b, ty),
        type_bytes(a + b, ty) == type_bytes(a, ty) + type_bytes(b, ty),
        type_count(seq![t], ty) == if t.ggml_type == ty {
            1int
        } else {
            0
        },
        t.ggml_type == ty && ty <= 2 ==> type_bytes(seq![t], ty) == 4 * elements(t.dims),
        t.ggml_type != ty ==> type_bytes(seq![t], ty) == 0,
    decreases b.len(),
{
    reveal_with_fuel(type_count, 2);
    reveal_with_fuel(type_bytes, 2);
    assert(seq![t].drop_last() =~= Seq::<TensorMeta>::empty());
    if b.len() == 0 {
        assert(a + b =~= a);
    } else {
        lemma_totals_add_up(a, b.drop_last(), t, ty);
        assert((a + b).drop_last() =~= a + b.drop_last());
    }
}

proof fn lemma_elements_not_negative(dims: Seq<u64>)
    ensures
        elements(dims) >= 0,
    decreases dims.len(),
{
    if dims.len() > 0 {
        lemma_elements_not_negative(dims.drop_last());
        let a = elements(dims.drop_last());
        let b = dims.last() as int;
        assert(a * b >= 0) by (nonlinear_arith)
            requires
                a >= 0,
                b >= 0,
        ;
    }
}

proof fn lemma_tensor_bytes_not_negative(t: TensorMeta)
    ensures
        tensor_bytes(t) >= 0,
{
    lemma_elements_not_negative(t.dims);
    let e = elements(t.dims);
    if t.ggml_type > 2 {
        let (blk, per) = block_size(t.ggml_type);
        let q = e / per as int;
        let b = blk as int;
        assert(q >= 0) by (nonlinear_arith)
            requires
                q == e / per as int,
                e >= 0,
                per > 0,
        ;
        assert(q * b >= 0) by (nonlinear_arith)
            requires
                q >= 0,
                b >= 0,
        ;
    }
}

proof fn lemma_type_totals_grow(ts: Seq<TensorMeta>, ty: u32, i: int)
    requires
        0 <= i <= ts.len(),
    ensures
        0 <= type_count(ts.take(i), ty) <= i,
        0 <= type_bytes(ts.take(i), ty) <= type_bytes(ts, ty),
    decreases ts.len(),
{
    if ts.len() > 0 {
        lemma_tensor_bytes_not_negative(ts.last());
        let before = ts.drop_last();
        if i == ts.len() {
            assert(ts.take(i) =~= ts);
            lemma_type_totals_grow(before, ty, i - 1);
            assert(before.take(i - 1) =~= before);
        } else {
            lemma_type_totals_grow(before, ty, i);
            assert(before.take(i) =~= ts.take(i));
        }
    } else {
        assert(ts.take(i) =~= ts);
    }
}

/// The bytes of a tensor, where they can be counted in 64 bits.
pub fn count_bytes(t: &GgufTensorInfo) -> (r: Option<u64>)
    ensures
        match r {
            Some(n) => countable(t@) && n == tensor_bytes(t@),
            None => !countable(t@),
        },
{
    let mut ne: u64 = 1;
    let mut i: usize = 0;
    assert(t.dims@.take(0) =~= Seq::<u64>::empty());
    while i < t.dims.len()
        invariant
            i <= t.dims@.len(),
            ne == elements(t.dims@.take(i as int)),
            forall|j: int| 0 <= j <= i ==> elements(#[trigger] t.dims@.take(j)) <= u64::MAX,
        decreases t.dims@.len() - i,
    {
        proof {
            let next = t.dims@.take(i + 1);
            assert(next.drop_last() =~= t.dims@.take(i as int));
            assert(elements(next) == ne * t.dims@[i as int]);
        }
        match ne.checked_mul(t.dims[i]) {
            Some(n) => {
                ne = n;
            },
            None => {
                assert(elements(t.dims@.take(i + 1)) > u64::MAX);
                return None;
            },
        }
        i += 1;
    }
    assert(t.dims@.take(i as int) =~= t.dims@);
    if t.ggml_type <= 2 {
        ne.checked_mul(4)
    } else {
        let (blk, per) = type_block_size(t.ggml_type);
        (ne / per).checked_mul(blk)
    }
}

impl GgufFile {
    /// The tensors by type, in the order in which the types first occur, where their bytes can be
    /// counted in 64 bits.
    pub fn type_totals(&self) -> (r: Option<Vec<TypeTotal>>)
        ensures
            match r {
                Some(totals) => all_countable(self@.tensors) && totals_of(
                    self@.tensors,
                    totals@,
                ),
                None => !all_countable(self@.tensors),
            },
    {
        let ghost ts = self@.tensors;
        let mut totals: Vec<TypeTotal> = Vec::new();
        let n: usize = self.tensors.len();
        let mut i: usize = 0;
        assert(ts.take(0) =~= Seq::<TensorMeta>::empty());
        while i < n
            invariant
                n == self.tensors@.len(),
                ts == metas_of(self.tensors@),
                i <= n,
                totals_of(ts.take(i as int), totals@),
                forall|j: int| 0 <= j < i ==> countable(#[trigger] ts[j]),
                forall|j: int| 0 <= j < totals@.len() ==> (#[trigger] totals@[j]).count <= i,
            decreases n - i,
        {
            let ghost before = totals@;
            let ghost seen = ts.take(i as int);
            let ghost next = ts.take(i + 1);
            let ty: u32 = self.tensors[i].ggml_type;
            proof {
                assert(next.drop_last() =~= seen);
                assert(next.last() == ts[i as int]);
                lemma_type_totals_grow(ts, ty, i + 1);
            }
            let bytes: u64 = match count_bytes(&self.tensors[i]) {
                Some(b) => b,
                None => {
                    assert(!countable(ts[i as int]));
                    return None;
                },
            };
            let mut at: usize = 0;
            while at < totals.len() && totals[at].ggml_type != ty
                invariant
                    totals@ == before,
                    at <= totals@.len(),
                    forall|j: int| 0 <= j < at ==> (#[trigger] totals@[j]).ggml_type != ty,
                decreases totals@.len() - at,
            {
                at += 1;
            }
            if at < totals.len() {
                let sum: u64 = match totals[at].bytes.checked_add(bytes) {
                    Some(s) => s,
                    None => {
                        assert(type_bytes(next, ty) > u64::MAX);
                        assert(type_bytes(ts, ty) > u64::MAX);
                        return None;
                    },
                };
                let count: usize = totals[at].count + 1;
                totals.set(at, TypeTotal { ggml_type: ty, count, bytes: sum });
                proof {
                    assert forall|j: int| 0 <= j < totals@.len() implies (
                    #[trigger] totals@[j]).count == type_count(next, totals@[j].ggml_type)
                        && totals@[j].bytes == type_bytes(next, totals@[j].ggml_type) by {
                        assert(before[j].ggml_type == totals@[j].ggml_type);
                    }
                    assert forall|j: int, k: int| 0 <= j < k < totals@.len() implies (
                    #[trigger] totals@[j]).ggml_type != (#[trigger] totals@[k]).ggml_type by {
                        assert(before[j].ggml_type != before[k].ggml_type);
                    }
                    assert forall|t: u32| #[trigger] type_count(next, t) > 0 <==> exists|j: int|
                        0 <= j < totals@.len() && (#[trigger] totals@[j]).ggml_type == t by {
                        lemma_type_totals_grow(seen, t, i as int);
                        assert(seen.take(i as int) =~= seen);
                        if t == ty {
                            assert(totals@[at as int].ggml_type == t);
                        } else if type_count(seen, t) > 0 {
                            let j = choose|j: int|
                                0 <= j < before.len() && (#[trigger] before[j]).ggml_type == t;
                            assert(totals@[j].ggml_type == t);
                        } else if exists|j: int|
                            0 <= j < totals@.len() && (#[trigger] totals@[j]).ggml_type == t {
                            let j = choose|j: int|
                                0 <= j < totals@.len() && (#[trigger] totals@[j]).ggml_type == t;
                            assert(before[j].ggml_type == t);
                        }
                    }
                    assert forall|j: int| 0 <= j < totals@.len() implies (
                    #[trigger] totals@[j]).count <= i + 1 by {
                        assert(before[j].count <= i);
                    }
                }
            } else {
                totals.push(TypeTotal { ggml_type: ty, count: 1, bytes });
                proof {
                    lemma_type_totals_grow(seen, ty, i as int);
                    assert(seen.take(i as int) =~= seen);
                    assert(type_count(seen, ty) == 0);
                    lemma_absent(seen, ty);
                    assert forall|j: int| 0 <= j < totals@.len() implies (
                    #[trigger] totals@[j]).count == type_count(next, totals@[j].ggml_type)
                        && totals@[j].bytes == type_bytes(next, totals@[j].ggml_type) by {
                        if j < before.len() {
                            assert(before[j] == totals@[j]);
                        }
                    }
                    assert forall|j: int, k: int| 0 <= j < k < totals@.len() implies (
                    #[trigger] totals@[j]).ggml_type != (#[trigger] totals@[k]).ggml_type by {
                        assert(before[j] == totals@[j]);
                        if k < before.len() {
                            assert(before[k] == totals@[k]);
                        }
                    }
                    assert forall|t: u32| #[trigger] type_count(next, t) > 0 <==> exists|j: int|
                        0 <= j < totals@.len() && (#[trigger] totals@[j]).ggml_type == t by {
                        if t == ty {
                            assert(totals@[before.len() as int].ggml_type == t);
                        } else if type_count(seen, t) > 0 {
                            let j = choose|j: int|
                                0 <= j < before.len() && (#[trigger] before[j]).ggml_type == t;
                            assert(totals@[j].ggml_type == t);
                        } else if exists|j: int|
                            0 <= j < totals@.len() && (#[trigger] totals@[j]).ggml_type == t {
                            let j = choose|j: int|
                                0 <= j < totals@.len() && (#[trigger] totals@[j]).ggml_type == t;
                            assert(before[j].ggml_type == t);
                        }
                    }
                    assert forall|j: int| 0 <= j < totals@.len() implies (
                    #[trigger] totals@[j]).count <= i + 1 by {
                        if j < before.len() {
                            assert(before[j].count <= i);
                        }
                    }
                }
            }
            i += 1;
        }
        proof {
            assert(ts.take(n as int) =~= ts);
            assert forall|ty: u32| #[trigger] type_bytes(ts, ty) <= u64::MAX by {
                lemma_absent(ts, ty);
                lemma_type_totals_grow(ts, ty, n as int);
                if type_count(ts, ty) > 0 {
                    let j = choose|j: int|
                        0 <= j < totals@.len() && (#[trigger] totals@[j]).ggml_type == ty;
                    assert(totals@[j].bytes == type_bytes(ts, ty));
                }
            }
        }
        Some(totals)
    }
}

proof fn lemma_absent(ts: Seq<TensorMeta>, ty: u32)
    ensures
        type_count(ts, ty) == 0 ==> type_bytes(ts, ty) == 0,
        type_count(ts, ty) >= 0,
    decreases ts.len(),
{
    if ts.len() > 0 {
        lemma_absent(ts.drop_last(), ty);
    }
}

} // verus!
