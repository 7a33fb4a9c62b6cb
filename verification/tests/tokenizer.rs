use bitnet_rs::byte_table::byte_to_unicode;
use bitnet_rs::merges::MergeTable;
use bitnet_rs::text::{decimal, split_at_space};
use bitnet_rs::tokenizer::BpeTokenizer;
use std::collections::HashMap;

fn s(x: &str) -> String {
    x.to_string()
}

/// The tokens of the single bytes, numbered by their bytes.
fn byte_tokens() -> Vec<(String, u32)> {
    byte_to_unicode().into_iter().map(|(b, c)| (c.to_string(), b as u32)).collect()
}

#[test]
fn every_byte_has_its_own_character() {
    let table = byte_to_unicode();
    assert_eq!(table.len(), 256);
    let by_byte: HashMap<u8, char> = table.iter().copied().collect();
    let by_char: HashMap<char, u8> = table.iter().map(|(b, c)| (*c, *b)).collect();
    assert_eq!((by_byte.len(), by_char.len()), (256, 256));
    assert_eq!(by_byte[&b'A'], 'A');
    assert_eq!(by_byte[&b' '], '\u{120}');
    assert_eq!(by_byte[&b'\n'], '\u{10a}');
    assert_eq!(by_byte[&0x00], '\u{100}');
    assert_eq!(by_byte[&0xac], '\u{ac}');
    assert_eq!(by_byte[&0xad], '\u{143}');
    assert_eq!(by_byte[&0xae], '\u{ae}');
    assert_eq!(by_char[&'\u{ff}'], 0xff);
    assert!(!by_char.contains_key(&' '));
}

#[test]
fn the_table_lists_plain_bytes_first() {
    let table = byte_to_unicode();
    assert_eq!(table[0], (b'!', '!'));
    assert_eq!(table[187], (0xff, '\u{ff}'));
    assert_eq!(table[188], (0, '\u{100}'));
    assert_eq!(table[255], (0xad, '\u{143}'));
}

#[test]
fn texts_come_back() {
    let t = BpeTokenizer::new(byte_tokens(), vec![], vec![]);
    let none = HashMap::new();
    for text in ["", "a", "hello world", "你好，世界", "tab\there\n", "Ā \u{ad} é"] {
        let ids = t.encode(text, false, 0);
        assert_eq!(ids, text.bytes().map(|b| b as u32).collect::<Vec<u32>>());
        assert_eq!(t.decode(&ids, &none), text);
    }
}

#[test]
fn merges_apply_by_rank() {
    let mut tokens = byte_tokens();
    for (i, x) in ["lo", "hel", "he", "\u{120}w", "ello"].iter().enumerate() {
        tokens.push((s(x), 300 + i as u32));
    }
    let merges = vec![
        (s("l"), s("o")),
        (s("h"), s("e")),
        (s("he"), s("l")),
        (s("\u{120}"), s("w")),
    ];
    let t = BpeTokenizer::new(tokens, merges, vec![]);
    assert_eq!(t.encode("hello", false, 0), vec![301, 300]);
    assert_eq!(t.encode("hello w", true, 9), vec![9, 301, 300, 303]);
    assert_eq!(t.decode(&[301, 300, 303], &HashMap::new()), "hello w");
}

#[test]
fn a_pair_is_merged_wherever_it_stands() {
    let mut tokens = byte_tokens();
    tokens.push((s("aa"), 300));
    let t = BpeTokenizer::new(tokens, vec![(s("a"), s("a"))], vec![]);
    assert_eq!(t.encode("aaaaa", false, 0), vec![300, 300, b'a' as u32]);
    assert_eq!(t.encode("aabaa", false, 0), vec![300, b'b' as u32, 300]);
}

#[test]
fn unknown_pieces_fall_back_to_characters() {
    let tokens = vec![(s("a"), 1), (s("c"), 2)];
    let t = BpeTokenizer::new(tokens, vec![(s("a"), s("b")), (s("ab"), s("c"))], vec![]);
    assert_eq!(t.encode("abc", false, 0), vec![1, 2]);
    assert_eq!(t.encode("xyz", false, 0), Vec::<u32>::new());
}

#[test]
fn the_last_of_equal_entries_counts() {
    let t = BpeTokenizer::new(vec![(s("a"), 1), (s("a"), 2)], vec![], vec![]);
    assert_eq!(t.encode("a", false, 0), vec![2]);
    assert_eq!(t.decode(&[1], &HashMap::new()), "");
    assert_eq!(t.decode(&[2], &HashMap::new()), "a");
}

#[test]
fn special_texts_stand_as_they_are() {
    let t = BpeTokenizer::new(byte_tokens(), vec![], vec![(s("<eos>"), 256)]);
    let mut special = HashMap::new();
    special.insert(256, s("<你>"));
    assert_eq!(t.decode(&[b'a' as u32, 256, 999, b'b' as u32], &special), "a<你>b");
}

#[test]
fn broken_text_is_mended() {
    let t = BpeTokenizer::new(byte_tokens(), vec![], vec![]);
    assert_eq!(t.decode(&[0xe4, 0xbd], &HashMap::new()), "\u{fffd}");
    assert_eq!(t.decode(&[0xff, b'a' as u32], &HashMap::new()), "\u{fffd}a");
}

#[test]
fn decoding_joins_whole_texts() {
    let t = BpeTokenizer::new(byte_tokens(), vec![], vec![]);
    let none = HashMap::new();
    let a: Vec<u32> = "a你".bytes().map(|b| b as u32).collect();
    for b in [vec![], vec![0x62], vec![0xe4, 0xbd], vec![0xff, 0x63], vec![0xbd, 0xe4]] {
        let joined = [a.clone(), b.clone()].concat();
        assert_eq!(t.decode(&joined, &none), t.decode(&a, &none) + &t.decode(&b, &none));
    }
    let (x, y) = (vec![0xe4, 0xbd], vec![0xa0]);
    assert_eq!(t.decode(&[x.clone(), y.clone()].concat(), &none), "你");
    assert_ne!(t.decode(&x, &none) + &t.decode(&y, &none), "你");
    assert_eq!(t.decode(&[], &none), "");
}

#[test]
fn a_merge_table_keeps_the_last_rank() {
    let t = MergeTable::new().insert("a", "b", 3).insert("a", "c", 4).insert("a", "b", 5);
    assert_eq!(t.get("a", "b"), Some(5));
    assert_eq!(t.get("a", "c"), Some(4));
    assert_eq!(t.get("b", "a"), None);
}

#[test]
fn texts_split_at_the_first_space() {
    assert_eq!(split_at_space("ab cd e"), Some(("ab", "cd e")));
    assert_eq!(split_at_space(" 你 "), Some(("", "你 ")));
    assert_eq!(split_at_space("你"), None);
    assert_eq!(split_at_space(""), None);
}

#[test]
fn numbers_in_decimal() {
    assert_eq!(decimal(0), "0");
    assert_eq!(decimal(1234567890), "1234567890");
    assert_eq!(decimal(u64::MAX), u64::MAX.to_string());
}
