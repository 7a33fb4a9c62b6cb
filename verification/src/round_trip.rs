//! What the tokenizer keeps of a text.

use crate::byte_table::{byte_char, char_byte, lemma_byte_char_inverse};
use crate::bytes::{spells, REPLACEMENT};
use crate::merge_order::lemma_last_token_counts;
use crate::merges::Pair;
use crate::tokenizer::{
    all_ids, bpe_of, carries, char_ids, chars_bytes, first_carrier, id_bytes, ids_bytes, is_best,
    lemma_vocab_has, merged_from, piece_ids, pieces_of, text_ids, token_text, vocab_map, word_of, Token,
};
use vstd::prelude::*;
use vstd::utf8::{
    decode_utf8, encode_utf8, encode_utf8_decode_utf8, encode_utf8_valid_utf8, valid_utf8,
};

verus! {

/// No two texts share a number.
pub open spec fn ids_unique(tokens: Seq<Token>) -> bool {
    forall|a: Seq<char>, b: Seq<char>| #[trigger]
        vocab_map(tokens).contains_key(a) && #[trigger] vocab_map(tokens).contains_key(b)
            && vocab_map(tokens)[a] == vocab_map(tokens)[b] ==> a == b
}

/// The character of every byte in `bytes` is a token by itself.
pub open spec fn bytes_known(tokens: Seq<Token>, bytes: Seq<u8>) -> bool {
    forall|i: int|
        0 <= i < bytes.len() ==> vocab_map(tokens).contains_key(
            seq![byte_char(#[trigger] bytes[i])],
        )
}

/// No special text takes a number of the vocabulary.
pub open spec fn specials_apart(tokens: Seq<Token>, special: Map<u32, String>) -> bool {
    forall|a: Seq<char>| #[trigger]
        vocab_map(tokens).contains_key(a) ==> !special.contains_key(vocab_map(tokens)[a])
}

proof fn lemma_flatten_first(first: Seq<char>, rest: Seq<Seq<char>>)
    ensures
        (seq![first] + rest).flatten() == first + rest.flatten(),
{
    let all = seq![first] + rest;
    assert(all.first() == first);
    assert(all.drop_first() =~= rest);
}

proof fn lemma_merged_keeps_text(word: Seq<Seq<char>>, a: Seq<char>, b: Seq<char>, i: int)
    requires
        0 <= i <= word.len(),
    ensures
        merged_from(word, a, b, i).flatten() == word.skip(i).flatten(),
    decreases word.len() - i,
{
    if i == word.len() {
        assert(word.skip(i) =~= Seq::<Seq<char>>::empty());
    } else {
        assert(word.skip(i) =~= seq![word[i]] + word.skip(i + 1));
        lemma_flatten_first(word[i], word.skip(i + 1));
        if i < word.len() - 1 && word[i] == a && word[i + 1] == b {
            assert(word.skip(i + 1) =~= seq![word[i + 1]] + word.skip(i + 2));
            lemma_flatten_first(word[i + 1], word.skip(i + 2));
            lemma_merged_keeps_text(word, a, b, i + 2);
            lemma_flatten_first(a + b, merged_from(word, a, b, i + 2));
            let rest = word.skip(i + 2).flatten();
            assert((a + b) + rest =~= a + (b + rest));
        } else {
            lemma_merged_keeps_text(word, a, b, i + 1);
            lemma_flatten_first(word[i], merged_from(word, a, b, i + 1));
        }
    }
}

/// Merging cuts the text differently, and changes nothing of it.
pub proof fn lemma_bpe_keeps_text(ranks: Map<Pair, u32>, word: Seq<Seq<char>>)
    ensures
        bpe_of(ranks, word).flatten() == word.flatten(),
    decreases word.len(),
{
    if exists|i: int| is_best(ranks, word, i) {
        let i = choose|i: int| is_best(ranks, word, i);
        let next = merged_from(word, word[i], word[i + 1], 0);
        lemma_merged_keeps_text(word, word[i], word[i + 1], 0);
        assert(word.skip(0) =~= word);
        if next.len() < word.len() {
            lemma_bpe_keeps_text(ranks, next);
            assert(bpe_of(ranks, word) == bpe_of(ranks, next));
        }
    }
}

spec fn byte_text(bytes: Seq<u8>) -> Seq<char> {
    Seq::new(bytes.len(), |i: int| byte_char(bytes[i]))
}

proof fn lemma_word_text(bytes: Seq<u8>)
    ensures
        word_of(bytes).flatten() == byte_text(bytes),
    decreases bytes.len(),
{
    if bytes.len() == 0 {
        assert(word_of(bytes) =~= Seq::<Seq<char>>::empty());
        assert(byte_text(bytes) =~= Seq::<char>::empty());
    } else {
        let rest = bytes.drop_first();
        lemma_word_text(rest);
        assert(word_of(bytes) =~= seq![seq![byte_char(bytes[0])]] + word_of(rest));
        lemma_flatten_first(seq![byte_char(bytes[0])], word_of(rest));
        assert(byte_text(bytes) =~= seq![byte_char(bytes[0])] + byte_text(rest));
    }
}

proof fn lemma_pieces_text(ranks: Map<Pair, u32>, bytes: Seq<u8>)
    ensures
        pieces_of(ranks, bytes).flatten() == byte_text(bytes),
{
    if bytes.len() == 0 {
        let empty = Seq::<char>::empty();
        lemma_flatten_first(empty, Seq::<Seq<char>>::empty());
        assert(seq![empty] + Seq::<Seq<char>>::empty() =~= seq![empty]);
        assert(byte_text(bytes) =~= empty);
    } else {
        lemma_bpe_keeps_text(ranks, word_of(bytes));
        lemma_word_text(bytes);
    }
}

proof fn lemma_byte_text_bytes(bytes: Seq<u8>)
    ensures
        chars_bytes(byte_text(bytes)) == bytes,
    decreases bytes.len(),
{
    if bytes.len() == 0 {
        assert(chars_bytes(byte_text(bytes)) =~= bytes);
    } else {
        let before = bytes.drop_last();
        lemma_byte_text_bytes(before);
        assert(byte_text(bytes).drop_last() =~= byte_text(before));
        lemma_byte_char_inverse(bytes.last());
        assert(before.push(bytes.last()) =~= bytes);
    }
}

proof fn lemma_chars_bytes_concat(a: Seq<char>, b: Seq<char>)
    ensures
        chars_bytes(a + b) == chars_bytes(a) + chars_bytes(b),
    decreases b.len(),
{
    if b.len() == 0 {
        assert(a + b =~= a);
        assert(chars_bytes(a) + chars_bytes(b) =~= chars_bytes(a));
    } else {
        lemma_chars_bytes_concat(a, b.drop_last());
        assert((a + b).drop_last() =~= a + b.drop_last());
        assert((a + b).last() == b.last());
        match char_byte(b.last()) {
            Some(byte) => {
                assert(chars_bytes(a) + chars_bytes(b.drop_last()).push(byte) =~= (chars_bytes(a)
                    + chars_bytes(b.drop_last())).push(byte));
            },
            None => {},
        }
    }
}

proof fn lemma_ids_bytes_concat(
    tokens: Seq<Token>,
    special: Map<u32, String>,
    a: Seq<u32>,
    b: Seq<u32>,
)
    ensures
        ids_bytes(tokens, special, a + b) == ids_bytes(tokens, special, a) + ids_bytes(
            tokens,
            special,
            b,
        ),
    decreases b.len(),
{
    if b.len() == 0 {
        assert(a + b =~= a);
        assert(ids_bytes(tokens, special, a) + ids_bytes(tokens, special, b) =~= ids_bytes(
            tokens,
            special,
            a,
        ));
    } else {
        let c = b.drop_last();
        lemma_ids_bytes_concat(tokens, special, a, c);
        assert((a + b).drop_last() =~= a + c);
        assert((a + b).last() == b.last());
        let x = ids_bytes(tokens, special, a);
        let y = ids_bytes(tokens, special, c);
        let z = id_bytes(tokens, special, b.last());
        assert((x + y) + z =~= x + (y + z));
    }
}

/// Decoding joins: where the text of a first list of numbers is whole, which is to say that its
/// bytes are UTF-8, or that it holds no replacement character, the text of two lists, one behind
/// the other, is that of the first and then that of the second.
pub proof fn lemma_decode_joins(
    tokens: Seq<Token>,
    special: Map<u32, String>,
    a: Seq<u32>,
    b: Seq<u32>,
    text_a: Seq<char>,
    text_b: Seq<char>,
    text_ab: Seq<char>,
)
    requires
        spells(ids_bytes(tokens, special, a), text_a),
        spells(ids_bytes(tokens, special, b), text_b),
        spells(ids_bytes(tokens, special, a + b), text_ab),
        valid_utf8(ids_bytes(tokens, special, a)) || !text_a.contains(REPLACEMENT),
    ensures
        text_ab == text_a + text_b,
{
    lemma_ids_bytes_concat(tokens, special, a, b);
    let x = ids_bytes(tokens, special, a);
    let y = ids_bytes(tokens, special, b);
    let n = x.len() as int;
    assert((x + y).take(n) =~= x);
    assert((x + y).skip(n) =~= y);
}

/// No numbers have no text.
pub proof fn lemma_decode_nothing(tokens: Seq<Token>, special: Map<u32, String>, text: Seq<char>)
    requires
        spells(ids_bytes(tokens, special, Seq::empty()), text),
    ensures
        text == Seq::<char>::empty(),
{
    let none = ids_bytes(tokens, special, Seq::empty());
    assert(none =~= Seq::<u8>::empty());
    assert(encode_utf8(Seq::<char>::empty()) =~= Seq::<u8>::empty());
    encode_utf8_valid_utf8(Seq::<char>::empty());
    encode_utf8_decode_utf8(Seq::<char>::empty());
}

/// Some token gave a text the number that it has.
proof fn lemma_vocab_source(tokens: Seq<Token>, a: Seq<char>) -> (i: int)
    requires
        vocab_map(tokens).contains_key(a),
    ensures
        0 <= i < tokens.len(),
        tokens[i] == (a, vocab_map(tokens)[a]),
    decreases tokens.len(),
{
    if tokens.last().0 == a {
        tokens.len() - 1
    } else {
        lemma_vocab_source(tokens.drop_last(), a)
    }
}

proof fn lemma_first_carrier(tokens: Seq<Token>, i: int, id: u32)
    requires
        carries(tokens, i, id),
    ensures
        exists|k: int| first_carrier(tokens, k, id),
    decreases i,
{
    if !first_carrier(tokens, i, id) {
        let j = choose|j: int| #[trigger] carries(tokens, j, id) && j < i;
        lemma_first_carrier(tokens, j, id);
    }
}

/// Where no two texts share a number, the number of a text leads back to the text.
pub proof fn lemma_token_of_id(tokens: Seq<Token>, a: Seq<char>)
    requires
        ids_unique(tokens),
        vocab_map(tokens).contains_key(a),
    ensures
        token_text(tokens, vocab_map(tokens)[a]) == Some(a),
{
    let id = vocab_map(tokens)[a];
    let i = lemma_vocab_source(tokens, a);
    assert(carries(tokens, i, id));
    lemma_first_carrier(tokens, i, id);
    let k = choose|k: int| first_carrier(tokens, k, id);
    assert(carries(tokens, k, id));
    lemma_vocab_has(tokens, k);
    assert(vocab_map(tokens)[tokens[k].0] == id);
}

/// The bytes of one number: those of its special text, where it has one; else those that the
/// characters of its token stand for, where characters that stand for no byte are left out; and none
/// where no token has the number.
pub proof fn lemma_bytes_of_a_number(
    tokens: Seq<Token>,
    special: Map<u32, String>,
    id: u32,
    i: int,
    bytes: Seq<u8>,
)
    ensures
        special.contains_key(id) ==> ids_bytes(tokens, special, seq![id]) == encode_utf8(
            special[id]@,
        ),
        !special.contains_key(id) && (forall|j: int|
            0 <= j < tokens.len() ==> (#[trigger] tokens[j]).1 != id) ==> ids_bytes(
            tokens,
            special,
            seq![id],
        ) == Seq::<u8>::empty(),
        !special.contains_key(id) && 0 <= i < tokens.len() && tokens[i].1 == id && (forall|j: int|
            i < j < tokens.len() ==> (#[trigger] tokens[j]).0 != tokens[i].0) && (forall|j: int|
            0 <= j < tokens.len() && (#[trigger] tokens[j]).1 == id ==> tokens[j].0 == tokens[i].0)
            ==> {
            &&& ids_bytes(tokens, special, seq![id]) == tokens[i].0.filter(
                |c: char| char_byte(c) is Some,
            ).map_values(|c: char| char_byte(c)->Some_0)
            &&& tokens[i].0 == Seq::new(bytes.len(), |k: int| byte_char(bytes[k])) ==> ids_bytes(
                tokens,
                special,
                seq![id],
            ) == bytes
        },
{
    let one = seq![id];
    assert(one.drop_last() =~= Seq::<u32>::empty());
    assert(ids_bytes(tokens, special, one.drop_last()) =~= Seq::<u8>::empty());
    assert(ids_bytes(tokens, special, one) =~= id_bytes(tokens, special, id));
    if forall|j: int| 0 <= j < tokens.len() ==> (#[trigger] tokens[j]).1 != id {
        assert forall|j: int| !(#[trigger] first_carrier(tokens, j, id)) by {
            if first_carrier(tokens, j, id) {
                assert(tokens[j].1 == id);
            }
        }
    }
    if 0 <= i < tokens.len() && tokens[i].1 == id && (forall|j: int|
        i < j < tokens.len() ==> (#[trigger] tokens[j]).0 != tokens[i].0) && (forall|j: int|
        0 <= j < tokens.len() && (#[trigger] tokens[j]).1 == id ==> tokens[j].0 == tokens[i].0) {
        lemma_last_token_counts(tokens);
        assert(vocab_map(tokens)[tokens[i].0] == id);
        assert(carries(tokens, i, id));
        lemma_first_carrier(tokens, i, id);
        let k = choose|k: int| first_carrier(tokens, k, id);
        assert(carries(tokens, k, id));
        assert(tokens[k].0 == tokens[i].0);
        lemma_bytes_of_characters(tokens[i].0);
        if tokens[i].0 == Seq::new(bytes.len(), |k: int| byte_char(bytes[k])) {
            assert(tokens[i].0 =~= byte_text(bytes));
            lemma_byte_text_bytes(bytes);
        }
    }
}

proof fn lemma_bytes_of_characters(text: Seq<char>)
    ensures
        chars_bytes(text) == text.filter(|c: char| char_byte(c) is Some).map_values(
            |c: char| char_byte(c)->Some_0,
        ),
    decreases text.len(),
{
    reveal(Seq::filter);
    let known = |c: char| char_byte(c) is Some;
    let byte = |c: char| char_byte(c)->Some_0;
    if text.len() == 0 {
        assert(text.filter(known).map_values(byte) =~= Seq::<u8>::empty());
    } else {
        lemma_bytes_of_characters(text.drop_last());
        let rest = text.drop_last().filter(known);
        if known(text.last()) {
            assert(rest.push(text.last()).map_values(byte) =~= rest.map_values(byte).push(
                byte(text.last()),
            ));
        }
    }
}

spec fn chars_known(tokens: Seq<Token>, text: Seq<char>) -> bool {
    forall|i: int|
        0 <= i < text.len() ==> vocab_map(tokens).contains_key(seq![#[trigger] text[i]])
}

proof fn lemma_id_bytes_of(tokens: Seq<Token>, special: Map<u32, String>, a: Seq<char>)
    requires
        ids_unique(tokens),
        specials_apart(tokens, special),
        vocab_map(tokens).contains_key(a),
    ensures
        id_bytes(tokens, special, vocab_map(tokens)[a]) == chars_bytes(a),
{
    lemma_token_of_id(tokens, a);
}

proof fn lemma_char_ids_bytes(tokens: Seq<Token>, special: Map<u32, String>, piece: Seq<char>)
    requires
        ids_unique(tokens),
        specials_apart(tokens, special),
        chars_known(tokens, piece),
    ensures
        ids_bytes(tokens, special, char_ids(vocab_map(tokens), piece)) == chars_bytes(piece),
    decreases piece.len(),
{
    let vocab = vocab_map(tokens);
    if piece.len() > 0 {
        let before = piece.drop_last();
        let c = piece.last();
        assert forall|i: int| 0 <= i < before.len() implies vocab.contains_key(
            seq![#[trigger] before[i]],
        ) by {
            assert(before[i] == piece[i]);
        }
        lemma_char_ids_bytes(tokens, special, before);
        assert(vocab.contains_key(seq![piece[piece.len() - 1]]));
        let id = vocab[seq![c]];
        let ids = char_ids(vocab, piece);
        assert(ids.drop_last() =~= char_ids(vocab, before));
        lemma_id_bytes_of(tokens, special, seq![c]);
        lemma_chars_bytes_concat(before, seq![c]);
        assert(before + seq![c] =~= piece);
    }
}

proof fn lemma_all_ids_bytes(
    tokens: Seq<Token>,
    special: Map<u32, String>,
    pieces: Seq<Seq<char>>,
)
    requires
        ids_unique(tokens),
        specials_apart(tokens, special),
        chars_known(tokens, pieces.flatten()),
    ensures
        ids_bytes(tokens, special, all_ids(vocab_map(tokens), pieces)) == chars_bytes(
            pieces.flatten(),
        ),
    decreases pieces.len(),
{
    let vocab = vocab_map(tokens);
    if pieces.len() > 0 {
        let before = pieces.drop_last();
        let piece = pieces.last();
        assert(before.push(piece) =~= pieces);
        before.lemma_flatten_push(piece);
        let text = pieces.flatten();
        let head = before.flatten();
        assert(text == head + piece);
        assert forall|i: int| 0 <= i < head.len() implies vocab.contains_key(
            seq![#[trigger] head[i]],
        ) by {
            assert(head[i] == text[i]);
        }
        assert forall|i: int| 0 <= i < piece.len() implies vocab.contains_key(
            seq![#[trigger] piece[i]],
        ) by {
            assert(piece[i] == text[head.len() + i]);
        }
        lemma_all_ids_bytes(tokens, special, before);
        lemma_ids_bytes_concat(
            tokens,
            special,
            all_ids(vocab, before),
            piece_ids(vocab, piece),
        );
        lemma_chars_bytes_concat(head, piece);
        if vocab.contains_key(piece) {
            lemma_id_bytes_of(tokens, special, piece);
            let ids = seq![vocab[piece]];
            assert(ids.drop_last() =~= Seq::<u32>::empty());
            assert(ids_bytes(tokens, special, Seq::<u32>::empty()) =~= Seq::<u8>::empty());
            assert(Seq::<u8>::empty() + chars_bytes(piece) =~= chars_bytes(piece));
            assert(ids_bytes(tokens, special, ids) == chars_bytes(piece));
        } else {
            lemma_char_ids_bytes(tokens, special, piece);
        }
    } else {
        assert(pieces =~= Seq::<Seq<char>>::empty());
        assert(pieces.flatten() =~= Seq::<char>::empty());
    }
}

/// Decoding what a text was encoded to gives the text back, whatever the merges, where the
/// vocabulary gives no number twice and knows the bytes of the text.
pub proof fn lemma_round_trip(
    tokens: Seq<Token>,
    ranks: Map<Pair, u32>,
    special: Map<u32, String>,
    text: Seq<char>,
)
    requires
        ids_unique(tokens),
        bytes_known(tokens, encode_utf8(text)),
        specials_apart(tokens, special),
    ensures
        ids_bytes(tokens, special, text_ids(tokens, ranks, text)) == encode_utf8(text),
        valid_utf8(ids_bytes(tokens, special, text_ids(tokens, ranks, text))),
        decode_utf8(ids_bytes(tokens, special, text_ids(tokens, ranks, text))) == text,
{
    let bytes = encode_utf8(text);
    let pieces = pieces_of(ranks, bytes);
    lemma_pieces_text(ranks, bytes);
    assert forall|i: int| 0 <= i < pieces.flatten().len() implies vocab_map(tokens).contains_key(
        seq![#[trigger] pieces.flatten()[i]],
    ) by {
        assert(pieces.flatten()[i] == byte_char(bytes[i]));
    }
    lemma_all_ids_bytes(tokens, special, pieces);
    lemma_byte_text_bytes(bytes);
    encode_utf8_valid_utf8(text);
    encode_utf8_decode_utf8(text);
}

} // verus!
