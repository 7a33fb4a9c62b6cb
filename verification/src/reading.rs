//! What lies where in a GGUF file, and what is read of it.

use crate::bytes::le;
use crate::gguf::{
    dims_at, elements, entries_at, header_of, items_at, string_at, tensor_at, tensors_at, uint_at,
    value_at, GgufError, GgufMeta, MetaValue, TensorMeta,
};
use crate::weights::{find_from, tensor_of, widened};
use vstd::prelude::*;
use vstd::utf8::{decode_utf8, valid_utf8};

verus! {

/// A string is as long as the eight bytes before it say, in all of their bits. It is read if and
/// only if the file holds all of it, and where it is UTF-8 it is what it encodes.
pub proof fn lemma_string_in_a_file(data: Seq<u8>, pos: int)
    requires
        0 <= pos,
    ensures
        string_at(data, pos) is Ok <==> pos + 8 <= data.len() && pos + 8 + le(
            data.subrange(pos, pos + 8),
        ) <= data.len(),
        string_at(data, pos) matches Ok((text, end)) ==> {
            let len = le(data.subrange(pos, pos + 8));
            &&& end == pos + 8 + len
            &&& valid_utf8(data.subrange(pos + 8, pos + 8 + len)) ==> text == decode_utf8(
                data.subrange(pos + 8, pos + 8 + len),
            )
        },
{
}

/// The items of an array, one behind the other.
proof fn lemma_items_in_a_row(
    data: Seq<u8>,
    pos: int,
    t: u32,
    n: int,
    before: Seq<MetaValue>,
    items: Seq<MetaValue>,
    end: int,
) -> (places: Seq<int>)
    requires
        n >= 0,
        items_at(data, pos, t, n, before) == Ok::<_, GgufError>((items, end)),
    ensures
        items.len() == before.len() + n,
        forall|i: int| 0 <= i < before.len() ==> #[trigger] items[i] == before[i],
        places.len() == n + 1,
        places[0] == pos,
        places[n] == end,
        forall|i: int|
            0 <= i < n ==> value_at(data, #[trigger] places[i], t) == Ok::<_, GgufError>(
                (items[before.len() + i], places[i + 1]),
            ),
    decreases n,
{
    if n == 0 {
        seq![pos]
    } else {
        let (v, p) = value_at(data, pos, t)->Ok_0;
        let next = before.push(v);
        let rest = lemma_items_in_a_row(data, p, t, n - 1, next, items, end);
        let places = seq![pos] + rest;
        assert(items[before.len() as int] == next[before.len() as int]);
        assert forall|i: int| 0 <= i < before.len() implies #[trigger] items[i] == before[i] by {
            assert(items[i] == next[i]);
        }
        assert forall|i: int| 0 <= i < n implies value_at(data, #[trigger] places[i], t) == Ok::<
            _,
            GgufError,
        >((items[before.len() + i], places[i + 1])) by {
            if i > 0 {
                assert(places[i] == rest[i - 1]);
                assert(places[i + 1] == rest[i]);
            }
        }
        places
    }
}

/// An array has as many items as its eight bytes of length say, in all of their bits. They are of
/// one type, and lie one behind the other.
pub proof fn lemma_array_in_a_file(data: Seq<u8>, pos: int, items: Seq<MetaValue>, end: int) -> (places:
    Seq<int>)
    requires
        0 <= pos,
        value_at(data, pos, 9) == Ok::<_, GgufError>((MetaValue::Array(items), end)),
    ensures
        pos + 12 <= data.len(),
        items.len() == le(data.subrange(pos + 4, pos + 12)),
        places.len() == items.len() + 1,
        places[0] == pos + 12,
        places[items.len() as int] == end,
        forall|i: int|
            0 <= i < items.len() ==> value_at(
                data,
                #[trigger] places[i],
                le(data.subrange(pos, pos + 4)) as u32,
            ) == Ok::<_, GgufError>((items[i], places[i + 1])),
{
    let t = le(data.subrange(pos, pos + 4)) as u32;
    let n = le(data.subrange(pos + 4, pos + 12));
    lemma_le_bounds(data.subrange(pos + 4, pos + 12));
    lemma_items_in_a_row(data, pos + 12, t, n, Seq::empty(), items, end)
}

proof fn lemma_le_bounds(bytes: Seq<u8>)
    ensures
        le(bytes) >= 0,
    decreases bytes.len(),
{
    if bytes.len() > 0 {
        lemma_le_bounds(bytes.drop_first());
    }
}

/// Metadata entries, one behind the other.
proof fn lemma_entries_in_a_row(
    data: Seq<u8>,
    pos: int,
    n: int,
    before: Map<Seq<char>, MetaValue>,
    kv: Map<Seq<char>, MetaValue>,
    end: int,
) -> (r: (Seq<(Seq<char>, MetaValue)>, Seq<int>))
    requires
        n >= 0,
        entries_at(data, pos, n, before) == Ok::<_, GgufError>((kv, end)),
    ensures
        r.0.len() == n,
        r.1.len() == n + 1,
        r.1[0] == pos,
        r.1[n] == end,
        forall|i: int|
            0 <= i < n ==> is_entry(data, #[trigger] r.1[i], r.0[i].0, r.0[i].1, r.1[i + 1]),
        forall|i: int|
            #![trigger r.0[i]]
            0 <= i < n && (forall|j: int| i < j < n ==> (#[trigger] r.0[j]).0 != r.0[i].0)
                ==> kv.contains_key(r.0[i].0) && kv[r.0[i].0] == r.0[i].1,
        forall|key: Seq<char>| #[trigger]
            kv.contains_key(key) ==> before.contains_key(key) || exists|i: int|
                0 <= i < n && (#[trigger] r.0[i]).0 == key,
        forall|key: Seq<char>|
            before.contains_key(key) && (forall|j: int|
                0 <= j < n ==> (#[trigger] r.0[j]).0 != key) ==> #[trigger] kv.contains_key(key)
                && kv[key] == before[key],
    decreases n,
{
    if n == 0 {
        (Seq::empty(), seq![pos])
    } else {
        let (key, p) = string_at(data, pos)->Ok_0;
        let (t, p2) = uint_at(data, p, 4)->Ok_0;
        let (v, p3) = value_at(data, p2, t as u32)->Ok_0;
        let next = before.insert(key, v);
        let (rest, places) = lemma_entries_in_a_row(data, p3, n - 1, next, kv, end);
        let all = seq![(key, v)] + rest;
        let at = seq![pos] + places;
        assert forall|i: int| 0 <= i < n implies is_entry(
            data,
            #[trigger] at[i],
            all[i].0,
            all[i].1,
            at[i + 1],
        ) by {
            if i > 0 {
                assert(at[i] == places[i - 1]);
                assert(at[i + 1] == places[i]);
                assert(all[i] == rest[i - 1]);
            }
        }
        assert forall|i: int|
            #![trigger all[i]]
            0 <= i < n && (forall|j: int| i < j < n ==> (#[trigger] all[j]).0
                != all[i].0) implies kv.contains_key(all[i].0) && kv[all[i].0] == all[i].1 by {
            if i > 0 {
                assert(all[i] == rest[i - 1]);
                assert forall|j: int| i - 1 < j < n - 1 implies (#[trigger] rest[j]).0 != rest[i
                    - 1].0 by {
                    assert(all[j + 1] == rest[j]);
                }
            } else {
                assert forall|j: int| 0 <= j < n - 1 implies (#[trigger] rest[j]).0 != key by {
                    assert(all[j + 1] == rest[j]);
                }
                assert(next.contains_key(key));
            }
        }
        assert forall|k: Seq<char>| #[trigger]
            kv.contains_key(k) implies before.contains_key(k) || exists|i: int|
            0 <= i < n && (#[trigger] all[i]).0 == k by {
            if next.contains_key(k) {
                assert(all[0].0 == key);
            } else {
                let i = choose|i: int| 0 <= i < n - 1 && (#[trigger] rest[i]).0 == k;
                assert(all[i + 1].0 == k);
            }
        }
        assert forall|k: Seq<char>|
            before.contains_key(k) && (forall|j: int|
                0 <= j < n ==> (#[trigger] all[j]).0 != k) implies #[trigger] kv.contains_key(k)
            && kv[k] == before[k] by {
            assert(all[0].0 != k);
            assert forall|j: int| 0 <= j < n - 1 implies (#[trigger] rest[j]).0 != k by {
                assert(all[j + 1] == rest[j]);
            }
            assert(next.contains_key(k));
        }
        (all, at)
    }
}

/// A metadata entry lies from `pos` up to `end`: its key, the type of its value in four bytes, and
/// the value.
pub open spec fn is_entry(data: Seq<u8>, pos: int, key: Seq<char>, v: MetaValue, end: int) -> bool {
    &&& string_at(data, pos) matches Ok((text, p)) && text == key && p + 4 <= data.len()
        && value_at(data, p + 4, le(data.subrange(p, p + 4)) as u32) == Ok::<_, GgufError>((v, end))
}

/// Directory entries, one behind the other.
proof fn lemma_tensors_in_a_row(
    data: Seq<u8>,
    pos: int,
    n: int,
    before: Seq<TensorMeta>,
    tensors: Seq<TensorMeta>,
    end: int,
) -> (places: Seq<int>)
    requires
        n >= 0,
        tensors_at(data, pos, n, before) == Ok::<_, GgufError>((tensors, end)),
    ensures
        tensors.len() == before.len() + n,
        forall|i: int| 0 <= i < before.len() ==> #[trigger] tensors[i] == before[i],
        places.len() == n + 1,
        places[0] == pos,
        places[n] == end,
        forall|i: int|
            0 <= i < n ==> tensor_at(data, #[trigger] places[i]) == Ok::<_, GgufError>(
                (tensors[before.len() + i], places[i + 1]),
            ),
    decreases n,
{
    if n == 0 {
        seq![pos]
    } else {
        let (t, p) = tensor_at(data, pos)->Ok_0;
        let next = before.push(t);
        let rest = lemma_tensors_in_a_row(data, p, n - 1, next, tensors, end);
        let places = seq![pos] + rest;
        assert(tensors[before.len() as int] == next[before.len() as int]);
        assert forall|i: int| 0 <= i < before.len() implies #[trigger] tensors[i] == before[i] by {
            assert(tensors[i] == next[i]);
        }
        assert forall|i: int| 0 <= i < n implies tensor_at(data, #[trigger] places[i]) == Ok::<
            _,
            GgufError,
        >((tensors[before.len() + i], places[i + 1])) by {
            if i > 0 {
                assert(places[i] == rest[i - 1]);
                assert(places[i + 1] == rest[i]);
            }
        }
        places
    }
}

/// Where the parts of a header lie.
pub struct HeaderParts {
    /// The keys and values of the metadata, and where each entry starts; the last place is the end.
    pub entries: Seq<(Seq<char>, MetaValue)>,
    pub entry_places: Seq<int>,
    /// Where each entry of the directory starts; the last place is the end.
    pub tensor_places: Seq<int>,
}

/// A header has as many metadata entries and as many tensors as its counts of eight bytes say, in
/// all of their bits. The entries lie one behind the other from byte 24 on, and the directory of
/// tensors behind them. Of entries with the same key, the last one counts. The data start at the
/// first multiple of 32 that is not inside of the header.
pub proof fn lemma_header_of_a_file(data: Seq<u8>, g: GgufMeta) -> (r: HeaderParts)
    requires
        header_of(data) == Ok::<_, GgufError>(g),
    ensures
        data.len() >= 24,
        le(data.subrange(0, 4)) == 0x4655_4747,
        r.entries.len() == le(data.subrange(16, 24)),
        r.entry_places.len() == r.entries.len() + 1,
        r.entry_places[0] == 24,
        forall|i: int|
            0 <= i < r.entries.len() ==> is_entry(
                data,
                #[trigger] r.entry_places[i],
                r.entries[i].0,
                r.entries[i].1,
                r.entry_places[i + 1],
            ),
        forall|i: int|
            #![trigger r.entries[i]]
            0 <= i < r.entries.len() && (forall|j: int|
                i < j < r.entries.len() ==> (#[trigger] r.entries[j]).0 != r.entries[i].0)
                ==> g.kv.contains_key(r.entries[i].0) && g.kv[r.entries[i].0] == r.entries[i].1,
        forall|key: Seq<char>| #[trigger]
            g.kv.contains_key(key) ==> exists|i: int|
                0 <= i < r.entries.len() && (#[trigger] r.entries[i]).0 == key,
        g.tensors.len() == le(data.subrange(8, 16)),
        r.tensor_places.len() == g.tensors.len() + 1,
        r.tensor_places[0] == r.entry_places[r.entries.len() as int],
        forall|i: int|
            0 <= i < g.tensors.len() ==> tensor_at(data, #[trigger] r.tensor_places[i]) == Ok::<
                _,
                GgufError,
            >((g.tensors[i], r.tensor_places[i + 1])),
        g.data_offset % 32 == 0,
        r.tensor_places[g.tensors.len() as int] <= g.data_offset
            < r.tensor_places[g.tensors.len() as int] + 32,
{
    let n_tensors = le(data.subrange(8, 16));
    let n_kv = le(data.subrange(16, 24));
    lemma_le_bounds(data.subrange(8, 16));
    lemma_le_bounds(data.subrange(16, 24));
    let (kv, p) = entries_at(data, 24, n_kv, Map::empty())->Ok_0;
    let (tensors, end) = tensors_at(data, p, n_tensors, Seq::empty())->Ok_0;
    let (entries, entry_places) = lemma_entries_in_a_row(data, 24, n_kv, Map::empty(), kv, p);
    let tensor_places = lemma_tensors_in_a_row(data, p, n_tensors, Seq::empty(), tensors, end);
    let r = HeaderParts { entries, entry_places, tensor_places };
    assert forall|key: Seq<char>| #[trigger] g.kv.contains_key(key) implies exists|i: int|
        0 <= i < r.entries.len() && (#[trigger] r.entries[i]).0 == key by {
        assert(kv.contains_key(key));
        let i = choose|i: int| 0 <= i < n_kv && (#[trigger] entries[i]).0 == key;
        assert(r.entries[i].0 == key);
    }
    r
}

/// Dimensions, one behind the other.
proof fn lemma_dims_in_a_row(
    data: Seq<u8>,
    pos: int,
    n: int,
    before: Seq<u64>,
    dims: Seq<u64>,
    end: int,
)
    requires
        n >= 0,
        dims_at(data, pos, n, before) == Ok::<_, GgufError>((dims, end)),
    ensures
        end == pos + 8 * n,
        dims.len() == before.len() + n,
        forall|i: int| 0 <= i < before.len() ==> #[trigger] dims[i] == before[i],
        forall|i: int|
            before.len() <= i < dims.len() ==> #[trigger] dims[i] == le(
                data.subrange(pos + 8 * (i - before.len()), pos + 8 * (i - before.len()) + 8),
            ) as u64,
    decreases n,
{
    if n > 0 {
        let (d, p) = uint_at(data, pos, 8)->Ok_0;
        let next = before.push(d as u64);
        lemma_dims_in_a_row(data, p, n - 1, next, dims, end);
        assert forall|i: int| 0 <= i < before.len() implies #[trigger] dims[i] == before[i] by {
            assert(dims[i] == next[i]);
        }
        assert(dims[before.len() as int] == next[before.len() as int]);
    }
}

/// An entry of the directory: the name, the number of dimensions in four bytes, the dimensions in
/// eight bytes each, the type in four bytes and the offset in eight.
pub proof fn lemma_tensor_in_a_file(data: Seq<u8>, pos: int, t: TensorMeta, end: int)
    requires
        0 <= pos,
        tensor_at(data, pos) == Ok::<_, GgufError>((t, end)),
    ensures
        string_at(data, pos) is Ok,
        ({
            let (name, p) = string_at(data, pos)->Ok_0;
            let n = le(data.subrange(p, p + 4));
            &&& t.name == name
            &&& t.dims.len() == n
            &&& t.n_dims == n as u32
            &&& forall|i: int|
                0 <= i < n ==> #[trigger] t.dims[i] == le(
                    data.subrange(p + 4 + 8 * i, p + 4 + 8 * i + 8),
                ) as u64
            &&& t.ggml_type == le(data.subrange(p + 4 + 8 * n, p + 4 + 8 * n + 4)) as u32
            &&& t.offset == le(data.subrange(p + 4 + 8 * n + 4, p + 4 + 8 * n + 12)) as u64
            &&& end == p + 4 + 8 * n + 12
        }),
{
    let (name, p) = string_at(data, pos)->Ok_0;
    let n = le(data.subrange(p, p + 4));
    lemma_le_bounds(data.subrange(p, p + 4));
    let (dims, p2) = dims_at(data, p + 4, n, Seq::empty())->Ok_0;
    lemma_dims_in_a_row(data, p + 4, n, Seq::empty(), dims, p2);
}

/// The elements of a tensor that is found in the directory. Those of type 0 are four bytes each
/// from its offset in the data on, those of type 1 two bytes each, which are widened, and those of
/// type 2 the upper two bytes of four. Ternary ones are two bits each, 128 of them to 32 bytes:
/// element `i` lies in byte `i % 32` of its 32, in the two bits `i % 128 / 32` from the top; the one
/// scale, that of every 64 of them, lies behind them. A tensor whose bytes the file holds is loaded.
pub proof fn lemma_tensor_contents(g: GgufMeta, data: Seq<u8>, name: Seq<char>, t: TensorMeta)
    requires
        find_from(g.tensors, name, 0) == Some(t),
        g.data_offset >= 0,
    ensures
        ({
            let start = g.data_offset + t.offset;
            let n = elements(t.dims);
            &&& t.ggml_type == 0 && start < 0x8000_0000_0000_0000 && n > 0 && start + 4 * n
                <= data.len() ==> tensor_of(g, data, name) is Ok
            &&& (t.ggml_type == 1 || t.ggml_type == 2) && start < 0x8000_0000_0000_0000 && n > 0
                && start + 2 * n <= data.len() ==> tensor_of(g, data, name) is Ok
            &&& t.ggml_type == 36 && start < 0x8000_0000_0000_0000 && 0 < n <= usize::MAX && n % 128
                == 0 && start + n / 4 + 32 <= data.len() ==> tensor_of(g, data, name) is Ok
        }),
        t.ggml_type == 0 && elements(t.dims) > 0 ==> (tensor_of(g, data, name) matches Ok(w) ==> {
            let start = g.data_offset + t.offset;
            &&& w is Dense
            &&& w->Dense_0.len() == elements(t.dims)
            &&& forall|i: int|
                0 <= i < elements(t.dims) ==> #[trigger] w->Dense_0[i] == le(
                    data.subrange(start + 4 * i, start + 4 * i + 4),
                ) as u32
        }),
        t.ggml_type == 2 && elements(t.dims) > 0 ==> (tensor_of(g, data, name) matches Ok(w) ==> {
            let start = g.data_offset + t.offset;
            &&& w is Dense
            &&& w->Dense_0.len() == elements(t.dims)
            &&& forall|i: int|
                0 <= i < elements(t.dims) ==> #[trigger] w->Dense_0[i] == (le(
                    data.subrange(start + 2 * i, start + 2 * i + 2),
                ) * 0x1_0000) as u32
        }),
        t.ggml_type == 1 && elements(t.dims) > 0 ==> (tensor_of(g, data, name) matches Ok(w) ==> {
            let start = g.data_offset + t.offset;
            &&& w is Dense
            &&& w->Dense_0.len() == elements(t.dims)
            &&& forall|i: int|
                0 <= i < elements(t.dims) ==> #[trigger] w->Dense_0[i] == widened(
                    le(data.subrange(start + 2 * i, start + 2 * i + 2)) as u16,
                )
        }),
        t.ggml_type == 36 ==> (tensor_of(g, data, name) matches Ok(w) ==> {
            let start = g.data_offset + t.offset;
            let n = elements(t.dims);
            &&& w is Ternary
            &&& n >= 0 ==> w->codes.len() == n && w->scales.len() == n / 64
            &&& forall|b: int|
                0 <= b < n / 64 ==> #[trigger] w->scales[b] == le(
                    data.subrange(start + n / 4, start + n / 4 + 4),
                ) as u32
            &&& forall|i: int|
                #![trigger w->codes[i]]
                0 <= i < n ==> {
                    let byte = data[start + i / 128 * 32 + i % 32] as int;
                    &&& i % 128 < 32 ==> w->codes[i] == byte / 64
                    &&& 32 <= i % 128 < 64 ==> w->codes[i] == byte / 16 % 4
                    &&& 64 <= i % 128 < 96 ==> w->codes[i] == byte / 4 % 4
                    &&& 96 <= i % 128 ==> w->codes[i] == byte % 4
                }
        }),
{
    let start = g.data_offset + t.offset;
    let n = elements(t.dims);
    if t.ggml_type == 0 && n > 0 {
        if let Ok(w) = tensor_of(g, data, name) {
            let bytes = data.subrange(start, start + n * 4);
            assert forall|i: int| 0 <= i < n implies #[trigger] w->Dense_0[i] == le(
                data.subrange(start + 4 * i, start + 4 * i + 4),
            ) as u32 by {
                assert(bytes.subrange(4 * i, 4 * i + 4) =~= data.subrange(
                    start + 4 * i,
                    start + 4 * i + 4,
                ));
            }
        }
    }
    if t.ggml_type == 1 && n > 0 {
        if let Ok(w) = tensor_of(g, data, name) {
            let bytes = data.subrange(start, start + n * 2);
            assert forall|i: int| 0 <= i < n implies #[trigger] w->Dense_0[i] == widened(
                le(data.subrange(start + 2 * i, start + 2 * i + 2)) as u16,
            ) by {
                assert(bytes.subrange(2 * i, 2 * i + 2) =~= data.subrange(
                    start + 2 * i,
                    start + 2 * i + 2,
                ));
            }
        }
    }
    if t.ggml_type == 2 && n > 0 {
        if let Ok(w) = tensor_of(g, data, name) {
            let bytes = data.subrange(start, start + n * 2);
            assert forall|i: int| 0 <= i < n implies #[trigger] w->Dense_0[i] == (le(
                data.subrange(start + 2 * i, start + 2 * i + 2),
            ) * 0x1_0000) as u32 by {
                assert(bytes.subrange(2 * i, 2 * i + 2) =~= data.subrange(
                    start + 2 * i,
                    start + 2 * i + 2,
                ));
            }
        }
    }
    if t.ggml_type == 36 {
        if let Ok(w) = tensor_of(g, data, name) {
            if n >= 0 {
                let bytes = data.subrange(start, start + n / 4 + 32);
                assert(bytes.subrange(n / 4, n / 4 + 4) =~= data.subrange(
                    start + n / 4,
                    start + n / 4 + 4,
                ));
                assert forall|i: int|
                    #![trigger w->codes[i]]
                    0 <= i < n implies bytes[i / 128 * 32 + i % 32] == data[start + i / 128 * 32
                    + i % 32] by {}
            }
        }
    }
}

} // verus!
