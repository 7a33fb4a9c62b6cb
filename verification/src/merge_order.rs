//! The order of the merges: which pair is merged next, stated on places in the list of merges.

use crate::byte_table::byte_char;
use crate::merges::Pair;
use crate::tokenizer::{
    all_ids, bpe_of, char_ids, is_best, lemma_best_exists, lemma_merged_shorter, merged_from,
    piece_ids, rank_at, rank_map, ranked, text_ids, vocab_map, word_of, Token,
};
use vstd::prelude::*;
use vstd::utf8::{
    encode_utf8, encode_utf8_decode_utf8, is_ascii_chars, is_ascii_chars_encode_utf8,
};

verus! {

/// The rank of a pair is its last place in the list, and only the pairs of the list have one.
pub proof fn lemma_rank_is_place(merges: Seq<Pair>)
    ensures
        forall|p: int|
            #![trigger merges[p]]
            0 <= p < merges.len() && p < 0x1_0000_0000 && (forall|q: int|
                p < q < merges.len() ==> #[trigger] merges[q] != merges[p]) ==> rank_map(
                merges,
            ).contains_key(merges[p]) && rank_map(merges)[merges[p]] as int == p,
        forall|pair: Pair| #[trigger]
            rank_map(merges).contains_key(pair) <==> merges.contains(pair),
    decreases merges.len(),
{
    if merges.len() > 0 {
        let rest = merges.drop_last();
        let n = merges.len() - 1;
        lemma_rank_is_place(rest);
        assert forall|p: int|
            #![trigger merges[p]]
            0 <= p < merges.len() && p < 0x1_0000_0000 && (forall|q: int|
                p < q < merges.len() ==> #[trigger] merges[q] != merges[p]) implies rank_map(
            merges,
        ).contains_key(merges[p]) && rank_map(merges)[merges[p]] as int == p by {
            if p < n {
                assert(merges[n] != merges[p]);
                assert(rest[p] == merges[p]);
                assert forall|q: int| p < q < rest.len() implies #[trigger] rest[q] != rest[p] by {
                    assert(merges[q] != merges[p]);
                }
            }
        }
        assert forall|pair: Pair| #[trigger]
            rank_map(merges).contains_key(pair) <==> merges.contains(pair) by {
            assert(rank_map(rest).contains_key(pair) <==> rest.contains(pair));
            if merges.contains(pair) {
                let p = choose|p: int| 0 <= p < merges.len() && merges[p] == pair;
                if p < n {
                    assert(rest[p] == pair);
                }
            }
            if rest.contains(pair) {
                let p = choose|p: int| 0 <= p < rest.len() && rest[p] == pair;
                assert(merges[p] == pair);
            }
            assert(merges[n] == merges.last());
        }
    }
}

/// Every pair of the list has a last place in it.
proof fn lemma_last_place(merges: Seq<Pair>, p: int) -> (last: int)
    requires
        0 <= p < merges.len(),
    ensures
        p <= last < merges.len(),
        merges[last] == merges[p],
        forall|q: int| last < q < merges.len() ==> #[trigger] merges[q] != merges[last],
    decreases merges.len() - p,
{
    if exists|q: int| p < q < merges.len() && #[trigger] merges[q] == merges[p] {
        let q = choose|q: int| p < q < merges.len() && #[trigger] merges[q] == merges[p];
        lemma_last_place(merges, q)
    } else {
        p
    }
}

/// Piece `j` of `next` begins at piece `cuts[j]` of the word. Where the pair of `a` and `b` begins
/// there, the piece is the two of them, and else it is that one piece.
pub open spec fn cut_at(
    word: Seq<Seq<char>>,
    a: Seq<char>,
    b: Seq<char>,
    cuts: Seq<int>,
    next: Seq<Seq<char>>,
    j: int,
) -> bool {
    let c = cuts[j];
    let pair_begins = c + 1 < word.len() && word[c] == a && word[c + 1] == b;
    &&& 0 <= c < word.len()
    &&& pair_begins ==> next[j] == a + b && cuts[j + 1] == c + 2
    &&& !pair_begins ==> next[j] == word[c] && cuts[j + 1] == c + 1
}

/// A word that was cut into its pieces from left to right, the pair merged wherever it was met,
/// is the merged word.
proof fn lemma_merged_from_cuts(
    word: Seq<Seq<char>>,
    a: Seq<char>,
    b: Seq<char>,
    cuts: Seq<int>,
    next: Seq<Seq<char>>,
    k: int,
)
    requires
        cuts.len() == next.len() + 1,
        cuts.last() == word.len(),
        forall|j: int| 0 <= j < next.len() ==> #[trigger] cut_at(word, a, b, cuts, next, j),
        0 <= k <= next.len(),
    ensures
        merged_from(word, a, b, cuts[k]) == next.skip(k),
    decreases next.len() - k,
{
    if k < next.len() {
        lemma_merged_from_cuts(word, a, b, cuts, next, k + 1);
        assert(cut_at(word, a, b, cuts, next, k));
        assert(next.skip(k) =~= seq![next[k]] + next.skip(k + 1));
    } else {
        assert(next.skip(k) =~= Seq::<Seq<char>>::empty());
    }
}

/// The pair that stands first in the list is merged first. Let the pair at place `p` of the list
/// occur in the word, and let no pair of the word stand before `p` (a pair that is listed twice
/// stands where it is listed last). Then the word ends up as the word `next` does, in which this
/// pair was merged wherever it was met from left to right: piece `j` of `next` begins at piece
/// `cuts[j]` of the word, and is the merged pair where the pair begins there.
#[verifier::rlimit(40)]
pub proof fn lemma_first_in_list_is_merged_first(
    merges: Seq<Pair>,
    word: Seq<Seq<char>>,
    p: int,
    i: int,
    cuts: Seq<int>,
    next: Seq<Seq<char>>,
)
    requires
        merges.len() <= 0x1_0000_0000,
        0 <= p < merges.len(),
        forall|q: int| p < q < merges.len() ==> #[trigger] merges[q] != merges[p],
        0 <= i < word.len() - 1,
        merges[p] == (word[i], word[i + 1]),
        forall|q: int, j: int|
            #![trigger merges[q], word[j]]
            0 <= q < p && 0 <= j < word.len() - 1 && merges[q] == (word[j], word[j + 1])
                ==> exists|r: int| p <= r < merges.len() && #[trigger] merges[r] == merges[q],
        cuts.len() == next.len() + 1,
        cuts[0] == 0,
        cuts.last() == word.len(),
        forall|j: int|
            0 <= j < next.len() ==> #[trigger] cut_at(
                word,
                merges[p].0,
                merges[p].1,
                cuts,
                next,
                j,
            ),
    ensures
        bpe_of(rank_map(merges), word) == bpe_of(rank_map(merges), next),
        next.len() < word.len(),
{
    let ranks = rank_map(merges);
    lemma_rank_is_place(merges);
    let a = merges[p].0;
    let b = merges[p].1;
    lemma_merged_from_cuts(word, a, b, cuts, next, 0);
    assert(next.skip(0) =~= next);
    assert(ranked(ranks, word, i));
    assert forall|j: int| #[trigger] ranked(ranks, word, j) implies p <= rank_at(
        ranks,
        word,
        j,
    ) && (rank_at(ranks, word, j) == p ==> merges[p] == (word[j], word[j + 1])) by {
        let pair = (word[j], word[j + 1]);
        assert(ranks.contains_key(pair));
        let q = choose|q: int| 0 <= q < merges.len() && merges[q] == pair;
        if q < p {
            let r = choose|r: int| p <= r < merges.len() && #[trigger] merges[r] == merges[q];
            let last = lemma_last_place(merges, r);
            assert(ranks[merges[last]] == last);
        } else {
            let last = lemma_last_place(merges, q);
            assert(ranks[merges[last]] == last);
        }
    }
    assert(rank_at(ranks, word, i) == p);
    lemma_best_exists(ranks, word, i);
    let k = choose|k: int| is_best(ranks, word, k);
    assert(ranked(ranks, word, k));
    assert(rank_at(ranks, word, k) <= rank_at(ranks, word, i));
    lemma_merged_shorter(word, a, b, 0, i);
    assert(merged_from(word, word[k], word[k + 1], 0) == next);
}

/// A word none of whose neighbouring pieces are in the list stays as it is.
pub proof fn lemma_nothing_listed_nothing_merged(merges: Seq<Pair>, word: Seq<Seq<char>>)
    requires
        forall|q: int, j: int|
            #![trigger merges[q], word[j]]
            0 <= q < merges.len() && 0 <= j < word.len() - 1 ==> merges[q] != (word[j], word[j + 1]),
    ensures
        bpe_of(rank_map(merges), word) == word,
{
    let ranks = rank_map(merges);
    lemma_rank_is_place(merges);
    assert forall|i: int| !(#[trigger] is_best(ranks, word, i)) by {
        if is_best(ranks, word, i) {
            assert(ranked(ranks, word, i));
            let pair = (word[i], word[i + 1]);
            let q = choose|q: int| 0 <= q < merges.len() && merges[q] == pair;
            assert(merges[q] != (word[i], word[i + 1]));
        }
    }
}

/// The number of a text is that of the last token with this text, and only the texts of tokens
/// have one.
pub proof fn lemma_last_token_counts(tokens: Seq<Token>)
    ensures
        forall|i: int|
            #![trigger tokens[i]]
            0 <= i < tokens.len() && (forall|j: int|
                i < j < tokens.len() ==> (#[trigger] tokens[j]).0 != tokens[i].0) ==> vocab_map(
                tokens,
            ).contains_key(tokens[i].0) && vocab_map(tokens)[tokens[i].0] == tokens[i].1,
        forall|text: Seq<char>| #[trigger]
            vocab_map(tokens).contains_key(text) ==> exists|i: int|
                0 <= i < tokens.len() && (#[trigger] tokens[i]).0 == text,
    decreases tokens.len(),
{
    if tokens.len() > 0 {
        let rest = tokens.drop_last();
        let n = tokens.len() - 1;
        lemma_last_token_counts(rest);
        assert forall|i: int|
            #![trigger tokens[i]]
            0 <= i < tokens.len() && (forall|j: int|
                i < j < tokens.len() ==> (#[trigger] tokens[j]).0 != tokens[i].0) implies vocab_map(
            tokens,
        ).contains_key(tokens[i].0) && vocab_map(tokens)[tokens[i].0] == tokens[i].1 by {
            if i < n {
                assert(tokens[n].0 != tokens[i].0);
                assert(rest[i] == tokens[i]);
                assert forall|j: int| i < j < rest.len() implies (#[trigger] rest[j]).0
                    != rest[i].0 by {
                    assert(tokens[j].0 != tokens[i].0);
                }
            }
        }
        assert forall|text: Seq<char>| #[trigger] vocab_map(tokens).contains_key(text) implies exists|
            i: int,
        | 0 <= i < tokens.len() && (#[trigger] tokens[i]).0 == text by {
            if text == tokens.last().0 {
                assert(tokens[n].0 == text);
            } else {
                assert(vocab_map(rest).contains_key(text));
                let i = choose|i: int| 0 <= i < rest.len() && (#[trigger] rest[i]).0 == text;
                assert(tokens[i].0 == text);
            }
        }
    }
}

/// The numbers of two runs of pieces follow on each other. A piece that is a token has the one
/// number of this token. Of any other piece, those characters count that are tokens.
pub proof fn lemma_numbers_of_pieces(
    vocab: Map<Seq<char>, u32>,
    a: Seq<Seq<char>>,
    b: Seq<Seq<char>>,
    piece: Seq<char>,
)
    ensures
        all_ids(vocab, a + b) == all_ids(vocab, a) + all_ids(vocab, b),
        vocab.contains_key(piece) ==> all_ids(vocab, seq![piece]) == seq![vocab[piece]],
        !vocab.contains_key(piece) ==> all_ids(vocab, seq![piece]) == piece.filter(
            |c: char| vocab.contains_key(seq![c]),
        ).map_values(|c: char| vocab[seq![c]]),
    decreases b.len(),
{
    if b.len() == 0 {
        assert(a + b =~= a);
        assert(all_ids(vocab, a) + all_ids(vocab, b) =~= all_ids(vocab, a));
    } else {
        lemma_numbers_of_pieces(vocab, a, b.drop_last(), piece);
        assert((a + b).drop_last() =~= a + b.drop_last());
        assert(all_ids(vocab, a + b) =~= all_ids(vocab, a) + all_ids(vocab, b));
    }
    let one = seq![piece];
    assert(one.drop_last() =~= Seq::<Seq<char>>::empty());
    assert(all_ids(vocab, one) =~= piece_ids(vocab, piece)) by {
        assert(all_ids(vocab, one.drop_last()) =~= Seq::<u32>::empty());
    }
    lemma_numbers_of_characters(vocab, piece);
}

/// Of a piece that is no token, those characters count that are tokens.
proof fn lemma_numbers_of_characters(vocab: Map<Seq<char>, u32>, piece: Seq<char>)
    ensures
        char_ids(vocab, piece) == piece.filter(
            |c: char| vocab.contains_key(seq![c]),
        ).map_values(|c: char| vocab[seq![c]]),
    decreases piece.len(),
{
    reveal(Seq::filter);
    let known = |c: char| vocab.contains_key(seq![c]);
    let number = |c: char| vocab[seq![c]];
    if piece.len() == 0 {
        assert(piece.filter(known).map_values(number) =~= Seq::<u32>::empty());
    } else {
        lemma_numbers_of_characters(vocab, piece.drop_last());
        let rest = piece.drop_last().filter(known);
        if known(piece.last()) {
            assert(rest.push(piece.last()).map_values(number) =~= rest.map_values(number).push(
                number(piece.last()),
            ));
        }
    }
}

/// The numbers of a text are those of the pieces that its bytes are merged to, each byte as its
/// character. The empty text is one empty piece.
pub proof fn lemma_numbers_of_text(tokens: Seq<Token>, merges: Seq<Pair>, text: Seq<char>)
    ensures
        text.len() > 0 ==> text_ids(tokens, rank_map(merges), text) == all_ids(
            vocab_map(tokens),
            bpe_of(
                rank_map(merges),
                Seq::new(
                    encode_utf8(text).len(),
                    |i: int| seq![byte_char(encode_utf8(text)[i])],
                ),
            ),
        ),
        text.len() == 0 ==> text_ids(tokens, rank_map(merges), text) == all_ids(
            vocab_map(tokens),
            seq![Seq::<char>::empty()],
        ),
{
    let bytes = encode_utf8(text);
    if text.len() > 0 {
        encode_utf8_decode_utf8(text);
        assert(bytes.len() > 0);
        assert(Seq::new(bytes.len(), |i: int| seq![byte_char(bytes[i])]) =~= word_of(
            bytes,
        ));
    }
}

/// Of three pieces `a`, `b`, `c`, the pair that stands first in the list is merged first: where
/// `b`, `c` is listed before `a`, `b`, the pieces end up as `a`, `bc`, and where `a`, `b` is listed
/// before `b`, `c`, as `ab`, `c`, as long as nothing that comes out is listed in turn.
pub proof fn lemma_three_pieces(
    merges: Seq<Pair>,
    a: Seq<char>,
    b: Seq<char>,
    c: Seq<char>,
    p: int,
    q: int,
)
    requires
        merges.len() <= 0x1_0000_0000,
        merges.no_duplicates(),
        0 <= p < merges.len(),
        0 <= q < merges.len(),
        merges[p] == (b, c),
        merges[q] == (a, b),
        a != b,
        !merges.contains((a, b + c)),
        !merges.contains((a + b, c)),
    ensures
        p < q ==> bpe_of(rank_map(merges), seq![a, b, c]) == seq![a, b + c],
        q < p ==> bpe_of(rank_map(merges), seq![a, b, c]) == seq![a + b, c],
{
    let word = seq![a, b, c];
    if p < q {
        let next = seq![a, b + c];
        let cuts = seq![0int, 1, 3];
        assert(cut_at(word, b, c, cuts, next, 0));
        assert(cut_at(word, b, c, cuts, next, 1));
        lemma_first_in_list_is_merged_first(merges, word, p, 1, cuts, next);
        lemma_nothing_listed_nothing_merged(merges, next);
    }
    if q < p {
        let next = seq![a + b, c];
        let cuts = seq![0int, 2, 3];
        assert(cut_at(word, a, b, cuts, next, 0));
        assert(cut_at(word, a, b, cuts, next, 1));
        lemma_first_in_list_is_merged_first(merges, word, q, 0, cuts, next);
        lemma_nothing_listed_nothing_merged(merges, next);
    }
}

/// The text "abc" under the merges `b c` and `a b`, in this order: the numbers of "a" and "bc".
pub proof fn lemma_abc(tokens: Seq<Token>, i: int, j: int)
    requires
        0 <= i < tokens.len(),
        tokens[i].0 == seq!['a'],
        forall|k: int| i < k < tokens.len() ==> (#[trigger] tokens[k]).0 != seq!['a'],
        0 <= j < tokens.len(),
        tokens[j].0 == seq!['b', 'c'],
        forall|k: int| j < k < tokens.len() ==> (#[trigger] tokens[k]).0 != seq!['b', 'c'],
    ensures
        text_ids(
            tokens,
            rank_map(seq![(seq!['b'], seq!['c']), (seq!['a'], seq!['b'])]),
            seq!['a', 'b', 'c'],
        ) == seq![tokens[i].1, tokens[j].1],
{
    let merges = seq![(seq!['b'], seq!['c']), (seq!['a'], seq!['b'])];
    let text = seq!['a', 'b', 'c'];
    let vocab = vocab_map(tokens);
    lemma_numbers_of_text(tokens, merges, text);
    assert(is_ascii_chars(text));
    is_ascii_chars_encode_utf8(text);
    let bytes = encode_utf8(text);
    assert(text[0] as u8 == bytes[0] && text[1] as u8 == bytes[1] && text[2] as u8 == bytes[2]);
    assert(bytes =~= seq![97u8, 98, 99]);
    let word = Seq::new(bytes.len(), |i: int| seq![byte_char(bytes[i])]);
    assert(byte_char(97) == 'a' && byte_char(98) == 'b' && byte_char(99) == 'c');
    assert(word =~= seq![seq!['a'], seq!['b'], seq!['c']]);
    let (a, b, c) = (seq!['a'], seq!['b'], seq!['c']);
    assert(a[0] != b[0] && c[0] != b[0]);
    assert(b + c =~= seq!['b', 'c']);
    assert((b + c).len() == 2 && (a + b).len() == 2);
    lemma_three_pieces(merges, a, b, c, 0, 1);
    lemma_last_token_counts(tokens);
    let pieces = seq![a, b + c];
    assert(pieces =~= seq![a] + seq![b + c]);
    lemma_numbers_of_pieces(vocab, seq![a], seq![b + c], a);
    lemma_numbers_of_pieces(vocab, seq![a], seq![b + c], b + c);
    assert(seq![tokens[i].1] + seq![tokens[j].1] =~= seq![tokens[i].1, tokens[j].1]);
}

} // verus!
