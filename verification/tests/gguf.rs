use bitnet_rs::gguf::{
    count_elements, read_value, type_block_size, GgufError, GgufFile, GgufTensorInfo, GgufValue,
    RealBits, MAGIC,
};
use bitnet_rs::summary::count_bytes;

fn put_str(out: &mut Vec<u8>, s: &str) {
    out.extend_from_slice(&(s.len() as u64).to_le_bytes());
    out.extend_from_slice(s.as_bytes());
}

fn header(n_tensors: u64, n_kv: u64) -> Vec<u8> {
    let mut out = Vec::new();
    out.extend_from_slice(b"GGUF");
    out.extend_from_slice(&3u32.to_le_bytes());
    out.extend_from_slice(&n_tensors.to_le_bytes());
    out.extend_from_slice(&n_kv.to_le_bytes());
    out
}

fn put_kv(out: &mut Vec<u8>, key: &str, t: u32, value: &[u8]) {
    put_str(out, key);
    out.extend_from_slice(&t.to_le_bytes());
    out.extend_from_slice(value);
}

fn put_tensor(out: &mut Vec<u8>, name: &str, dims: &[u64], t: u32, offset: u64) {
    put_str(out, name);
    out.extend_from_slice(&(dims.len() as u32).to_le_bytes());
    for d in dims {
        out.extend_from_slice(&d.to_le_bytes());
    }
    out.extend_from_slice(&t.to_le_bytes());
    out.extend_from_slice(&offset.to_le_bytes());
}

fn open_err(data: &[u8]) -> GgufError {
    match GgufFile::open(data) {
        Ok(_) => panic!("opened"),
        Err(e) => e,
    }
}

#[test]
fn the_magic_number_spells_gguf() {
    assert_eq!(&MAGIC.to_le_bytes(), b"GGUF");
}

#[test]
fn an_empty_file_ends_too_soon() {
    assert_eq!(open_err(b""), GgufError::UnexpectedEof);
    assert_eq!(open_err(b"GGU"), GgufError::UnexpectedEof);
    assert_eq!(open_err(b"GGUF"), GgufError::UnexpectedEof);
    assert_eq!(GgufError::UnexpectedEof.message(), "failed to fill whole buffer");
}

#[test]
fn another_file_is_refused() {
    assert_eq!(open_err(b"NOPE and more"), GgufError::NotGguf);
    assert_eq!(GgufError::NotGguf.message(), "not a GGUF file");
}

#[test]
fn unknown_types_are_refused() {
    let mut d = header(0, 1);
    put_kv(&mut d, "k", 13, &[0; 16]);
    assert_eq!(open_err(&d), GgufError::UnknownType(13));
    assert_eq!(GgufError::UnknownType(13).message(), "unknown gguf type 13");
}

#[test]
fn every_prefix_of_a_header_ends_too_soon() {
    let mut d = header(1, 2);
    put_kv(&mut d, "a", 4, &7u32.to_le_bytes());
    put_kv(&mut d, "b", 7, &[1]);
    put_tensor(&mut d, "t", &[2, 3], 0, 64);
    for n in 0..d.len() {
        assert_eq!(open_err(&d[..n]), GgufError::UnexpectedEof);
    }
    assert!(GgufFile::open(&d).is_ok());
}

#[test]
fn values_of_all_types_are_read() {
    let mut d = header(0, 13);
    put_kv(&mut d, "u8", 0, &[200]);
    put_kv(&mut d, "i8", 1, &[0xfe]);
    put_kv(&mut d, "u16", 2, &[0x34, 0x12]);
    put_kv(&mut d, "i16", 3, &(-5i16).to_le_bytes());
    put_kv(&mut d, "u32", 4, &0xdead_beefu32.to_le_bytes());
    put_kv(&mut d, "i32", 5, &(-7i32).to_le_bytes());
    put_kv(&mut d, "f32", 6, &1.5f32.to_le_bytes());
    put_kv(&mut d, "bool", 7, &[2]);
    let mut text = Vec::new();
    put_str(&mut text, "héllo");
    put_kv(&mut d, "str", 8, &text);
    let mut array = Vec::new();
    array.extend_from_slice(&8u32.to_le_bytes());
    array.extend_from_slice(&2u64.to_le_bytes());
    put_str(&mut array, "x");
    put_str(&mut array, "");
    put_kv(&mut d, "arr", 9, &array);
    put_kv(&mut d, "u64", 10, &(u64::MAX - 1).to_le_bytes());
    put_kv(&mut d, "i64", 11, &(-9i64).to_le_bytes());
    put_kv(&mut d, "f64", 12, &0.1f64.to_le_bytes());
    let g = match GgufFile::open(&d) {
        Ok(g) => g,
        Err(e) => panic!("{}", e.message()),
    };
    assert_eq!(g.kv.len(), 13);
    assert!(matches!(g.get("u8"), Some(GgufValue::U8(200))));
    assert!(matches!(g.get("i8"), Some(GgufValue::I8(-2))));
    assert!(matches!(g.get("u16"), Some(GgufValue::U16(0x1234))));
    assert!(matches!(g.get("i16"), Some(GgufValue::I16(-5))));
    assert_eq!(g.get("u32").unwrap().as_u32(), Some(0xdead_beef));
    assert_eq!(g.get("u32").unwrap().as_u64(), Some(0xdead_beef));
    assert_eq!(g.get("i32").unwrap().as_u32(), Some((-7i32) as u32));
    assert_eq!(g.get("i32").unwrap().as_u64(), Some((-7i32) as u64));
    assert_eq!(g.get("u64").unwrap().as_u32(), Some(u32::MAX - 1));
    assert_eq!(g.get("u64").unwrap().as_u64(), Some(u64::MAX - 1));
    assert_eq!(g.get("i64").unwrap().as_u32(), Some((-9i64) as u32));
    assert_eq!(g.get("i64").unwrap().as_u64(), Some((-9i64) as u64));
    assert_eq!(g.get("f32").unwrap().as_f32(), Some(RealBits::Single(1.5f32.to_bits())));
    assert_eq!(g.get("f64").unwrap().as_f32(), Some(RealBits::Double(0.1f64.to_bits())));
    assert_eq!(g.get("bool").unwrap().as_bool(), Some(true));
    assert_eq!(g.get("str").unwrap().as_str(), Some("héllo"));
    let items = g.get("arr").unwrap().as_array().unwrap();
    assert_eq!(items.iter().map(|v| v.as_str().unwrap()).collect::<Vec<_>>(), vec!["x", ""]);
    assert!(g.get("none").is_none());
    assert_eq!(g.get("u8").unwrap().as_u32(), None);
    assert_eq!(g.get("str").unwrap().as_f32(), None);
    assert_eq!(g.get("u32").unwrap().as_str(), None);
    assert_eq!(g.get("u32").unwrap().as_bool(), None);
    assert!(g.get("u32").unwrap().as_array().is_none());
}

#[test]
fn the_last_of_equal_keys_counts() {
    let mut d = header(0, 3);
    put_kv(&mut d, "k", 0, &[1]);
    put_kv(&mut d, "other", 0, &[2]);
    put_kv(&mut d, "k", 0, &[3]);
    let g = GgufFile::open(&d).ok().unwrap();
    assert_eq!(g.kv.len(), 2);
    assert!(matches!(g.get("k"), Some(GgufValue::U8(3))));
}

#[test]
fn broken_keys_are_mended() {
    let mut d = header(0, 1);
    d.extend_from_slice(&2u64.to_le_bytes());
    d.extend_from_slice(&[b'a', 0xff]);
    d.extend_from_slice(&0u32.to_le_bytes());
    d.push(9);
    let g = GgufFile::open(&d).ok().unwrap();
    assert!(g.get("a\u{fffd}").is_some());
}

#[test]
fn arrays_may_hold_arrays() {
    let mut v = Vec::new();
    v.extend_from_slice(&9u32.to_le_bytes());
    v.extend_from_slice(&1u64.to_le_bytes());
    v.extend_from_slice(&0u32.to_le_bytes());
    v.extend_from_slice(&2u64.to_le_bytes());
    v.extend_from_slice(&[5, 6]);
    let (value, end) = read_value(&v, 0, 9).ok().unwrap();
    assert_eq!(end, v.len());
    let inner = value.as_array().unwrap()[0].as_array().unwrap();
    assert!(matches!(inner[1], GgufValue::U8(6)));
    assert_eq!(read_value(&v[..v.len() - 1], 0, 9).err(), Some(GgufError::UnexpectedEof));
}

#[test]
fn values_are_cloned() {
    let v = GgufValue::Array(vec![
        GgufValue::String("x".to_string()),
        GgufValue::Array(vec![GgufValue::F32(7), GgufValue::Bool(true)]),
    ]);
    let w = v.clone();
    drop(v);
    let items = w.as_array().unwrap();
    assert_eq!(items[0].as_str(), Some("x"));
    assert!(matches!(items[1].as_array().unwrap()[0], GgufValue::F32(7)));
    assert_eq!(items[1].as_array().unwrap()[1].as_bool(), Some(true));
}

#[test]
fn a_length_beyond_the_file_ends_too_soon() {
    let mut d = header(0, 1);
    d.extend_from_slice(&u64::MAX.to_le_bytes());
    d.extend_from_slice(b"key");
    assert_eq!(open_err(&d), GgufError::UnexpectedEof);
}

#[test]
fn the_data_area_is_aligned() {
    let mut d = header(1, 0);
    put_tensor(&mut d, "weights", &[4, 2], 0, 4);
    let end = d.len();
    let g = GgufFile::open(&d).ok().unwrap();
    assert_eq!(g.data_offset % 32, 0);
    assert!(g.data_offset as usize >= end && (g.data_offset as usize) < end + 32);
    d.resize(g.data_offset as usize, 0);
    d.extend_from_slice(&(0..40).collect::<Vec<u8>>());
    let t: &GgufTensorInfo = &g.tensors[0];
    assert_eq!((t.name.as_str(), t.n_dims, t.ggml_type, t.offset), ("weights", 2, 0, 4));
    assert_eq!(t.dims, vec![4, 2]);
    let bytes = g.read_tensor_data(&d, t, 36).ok().unwrap();
    assert_eq!(bytes.to_vec(), (4..40).collect::<Vec<u8>>());
    assert_eq!(g.read_tensor_data(&d, t, 37).err(), Some(GgufError::UnexpectedEof));
}

#[test]
fn positions_have_a_limit() {
    let mut d = header(3, 0);
    put_tensor(&mut d, "a", &[0], 0, 1 << 63);
    put_tensor(&mut d, "b", &[0], 0, (1 << 63) - 4096);
    put_tensor(&mut d, "c", &[4], 0, u64::MAX);
    let g = GgufFile::open(&d).ok().unwrap();
    let err = |i: usize, len: u64| g.read_tensor_data(&d, &g.tensors[i], len).err();
    assert_eq!(err(0, 0), Some(GgufError::InvalidOffset));
    assert_eq!(err(0, 1), Some(GgufError::InvalidOffset));
    assert_eq!(err(1, 0), None);
    assert_eq!(err(1, 1), Some(GgufError::UnexpectedEof));
    assert_eq!(err(2, 16), Some(GgufError::InvalidOffset));
    assert_eq!(GgufError::InvalidOffset.message(), "Invalid argument (os error 22)");
}

#[test]
fn sizes_of_tensors() {
    let mut d = header(4, 0);
    put_tensor(&mut d, "a", &[3, 5], 0, 0);
    put_tensor(&mut d, "b", &[128], 99, 0);
    put_tensor(&mut d, "c", &[130], 7, 0);
    put_tensor(&mut d, "e", &[], 1, 0);
    let g = GgufFile::open(&d).ok().unwrap();
    assert_eq!(g.n_elements(&g.tensors[0]), 15);
    assert_eq!(g.tensor_data_len(&g.tensors[0]), 60);
    assert_eq!(g.tensor_data_len(&g.tensors[1]), 40);
    assert_eq!(g.tensor_data_len(&g.tensors[2]), 160);
    assert_eq!(g.n_elements(&g.tensors[3]), 1);
    assert_eq!(g.tensor_data_len(&g.tensors[3]), 4);
}

#[test]
fn tensors_by_type() {
    let mut d = header(5, 0);
    put_tensor(&mut d, "a", &[3, 5], 0, 0);
    put_tensor(&mut d, "b", &[128], 99, 0);
    put_tensor(&mut d, "c", &[2], 0, 0);
    put_tensor(&mut d, "d", &[7], 36, 0);
    put_tensor(&mut d, "e", &[64], 99, 0);
    let g = GgufFile::open(&d).ok().unwrap();
    let totals: Vec<(u32, usize, u64)> = g
        .type_totals()
        .unwrap()
        .iter()
        .map(|t| (t.ggml_type, t.count, t.bytes))
        .collect();
    assert_eq!(totals, vec![(0, 2, 68), (99, 2, 60), (36, 1, 0)]);
    assert_eq!(count_bytes(&g.tensors[1]), Some(40));
}

#[test]
fn sizes_beyond_counting() {
    let mut d = header(2, 0);
    put_tensor(&mut d, "a", &[u64::MAX / 4], 0, 0);
    put_tensor(&mut d, "b", &[1, 1], 0, 0);
    let g = GgufFile::open(&d).ok().unwrap();
    assert!(count_bytes(&g.tensors[0]).is_some());
    assert!(g.type_totals().is_none());
    let mut d = header(1, 0);
    put_tensor(&mut d, "a", &[1 << 40, 1 << 40, 0], 0, 0);
    let g = GgufFile::open(&d).ok().unwrap();
    assert!(count_bytes(&g.tensors[0]).is_none());
    assert!(g.type_totals().is_none());
}

#[test]
fn blocks_by_type() {
    assert_eq!(type_block_size(0), (4, 1));
    assert_eq!(type_block_size(1), (2, 1));
    assert_eq!(type_block_size(2), (2, 1));
    assert_eq!(type_block_size(7), (5, 4));
    assert_eq!(type_block_size(8), (6, 8));
    assert_eq!(type_block_size(32), (5, 4));
    assert_eq!(type_block_size(34), (5, 4));
    assert_eq!(type_block_size(40), (8, 1));
    assert_eq!(type_block_size(41), (4, 1));
    assert_eq!(type_block_size(42), (8, 1));
    assert_eq!(type_block_size(43), (4, 1));
    assert_eq!(type_block_size(99), (20, 64));
    assert_eq!(type_block_size(36), (0, 1));
}

#[test]
fn products_of_dimensions() {
    assert_eq!(count_elements(&[]), Some(1));
    assert_eq!(count_elements(&[7, 6]), Some(42));
    assert_eq!(count_elements(&[u64::MAX, u64::MAX, u64::MAX]), None);
    assert_eq!(count_elements(&[u64::MAX, u64::MAX, u64::MAX, 0]), Some(0));
}
