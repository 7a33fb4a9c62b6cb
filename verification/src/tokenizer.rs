//! Byte-level byte-pair encoding.
//!
//! Text is taken byte by byte, each byte as the character that [`byte_to_unicode`] gives it.
//! Neighbouring pieces are merged in the order of the ranks of the merges, and the pieces that
//! remain are looked up in the vocabulary.

pub use crate::byte_table::{byte_to_unicode, bytes_to_unicode_map};
use crate::byte_table::{byte_char, char_byte};
use crate::bytes::{spells, text_lossy};
use crate::merge_order::lemma_rank_is_place;
use crate::merges::{MergeTable, Pair};
use crate::text::concat2;
use std::collections::HashMap;
use vstd::hash_map::StringHashMap;
use vstd::prelude::*;
use vstd::string::StrSliceExecFns;
use vstd::utf8::encode_utf8;

verus! {

/// A token: its text and its number.
pub type Token = (Seq<char>, u32);

pub open spec fn tokens_of(tokens: Seq<(String, u32)>) -> Seq<Token> {
    Seq::new(tokens.len(), |i: int| (tokens[i].0@, tokens[i].1))
}

pub open spec fn pairs_of(merges: Seq<(String, String)>) -> Seq<Pair> {
    Seq::new(merges.len(), |i: int| (merges[i].0@, merges[i].1@))
}

pub open spec fn texts_of(word: Seq<String>) -> Seq<Seq<char>> {
    Seq::new(word.len(), |i: int| word[i]@)
}

/// The numbers by text. Where a text occurs more than once, the last occurrence counts.
pub open spec fn vocab_map(tokens: Seq<Token>) -> Map<Seq<char>, u32>
    decreases tokens.len(),
{
    if tokens.len() == 0 {
        Map::empty()
    } else {
        vocab_map(tokens.drop_last()).insert(tokens.last().0, tokens.last().1)
    }
}

/// The ranks by pair: the place in the list, modulo 2^32. Where a pair occurs more than once, the
/// last occurrence counts.
pub open spec fn rank_map(merges: Seq<Pair>) -> Map<Pair, u32>
    decreases merges.len(),
{
    if merges.len() == 0 {
        Map::empty()
    } else {
        rank_map(merges.drop_last()).insert(
            merges.last(),
            ((merges.len() - 1) % 0x1_0000_0000) as u32,
        )
    }
}

/// Pieces `i` and `i + 1` of a word may be merged.
pub open spec fn ranked(ranks: Map<Pair, u32>, word: Seq<Seq<char>>, i: int) -> bool {
    0 <= i < word.len() - 1 && ranks.contains_key((word[i], word[i + 1]))
}

pub open spec fn rank_at(ranks: Map<Pair, u32>, word: Seq<Seq<char>>, i: int) -> u32 {
    ranks[(word[i], word[i + 1])]
}

/// The pair at `i` is the next to be merged: no other has a lower rank, none before it the same.
pub open spec fn is_best(ranks: Map<Pair, u32>, word: Seq<Seq<char>>, i: int) -> bool {
    &&& ranked(ranks, word, i)
    &&& forall|j: int| #[trigger]
        ranked(ranks, word, j) ==> rank_at(ranks, word, i) <= rank_at(ranks, word, j) && (j < i
            ==> rank_at(ranks, word, i) < rank_at(ranks, word, j))
}

/// The word from piece `i` on, with every `a` that is followed by `b` merged with it, from left
/// to right.
pub open spec fn merged_from(word: Seq<Seq<char>>, a: Seq<char>, b: Seq<char>, i: int) -> Seq<
    Seq<char>,
>
    decreases word.len() - i,
{
    if i >= word.len() {
        Seq::empty()
    } else if i < word.len() - 1 && word[i] == a && word[i + 1] == b {
        seq![a + b] + merged_from(word, a, b, i + 2)
    } else {
        seq![word[i]] + merged_from(word, a, b, i + 1)
    }
}

/// The pieces of a word after all merges.
pub open spec fn bpe_of(ranks: Map<Pair, u32>, word: Seq<Seq<char>>) -> Seq<Seq<char>>
    decreases word.len(),
{
    if exists|i: int| is_best(ranks, word, i) {
        let i = choose|i: int| is_best(ranks, word, i);
        let next = merged_from(word, word[i], word[i + 1], 0);
        if next.len() < word.len() {
            bpe_of(ranks, next)
        } else {
            word
        }
    } else {
        word
    }
}

/// One piece for each byte.
pub open spec fn word_of(bytes: Seq<u8>) -> Seq<Seq<char>> {
    Seq::new(bytes.len(), |i: int| seq![byte_char(bytes[i])])
}

/// The pieces of a text. The empty text has one piece, which is empty.
pub open spec fn pieces_of(ranks: Map<Pair, u32>, bytes: Seq<u8>) -> Seq<Seq<char>> {
    if bytes.len() == 0 {
        seq![Seq::empty()]
    } else {
        bpe_of(ranks, word_of(bytes))
    }
}

/// The numbers of those characters of a piece that are tokens by themselves.
pub open spec fn char_ids(vocab: Map<Seq<char>, u32>, piece: Seq<char>) -> Seq<u32>
    decreases piece.len(),
{
    if piece.len() == 0 {
        Seq::empty()
    } else if vocab.contains_key(seq![piece.last()]) {
        char_ids(vocab, piece.drop_last()).push(vocab[seq![piece.last()]])
    } else {
        char_ids(vocab, piece.drop_last())
    }
}

/// The numbers of a piece: that of the piece where it is a token, else those of its characters.
pub open spec fn piece_ids(vocab: Map<Seq<char>, u32>, piece: Seq<char>) -> Seq<u32> {
    if vocab.contains_key(piece) {
        seq![vocab[piece]]
    } else {
        char_ids(vocab, piece)
    }
}

pub open spec fn all_ids(vocab: Map<Seq<char>, u32>, pieces: Seq<Seq<char>>) -> Seq<u32>
    decreases pieces.len(),
{
    if pieces.len() == 0 {
        Seq::empty()
    } else {
        all_ids(vocab, pieces.drop_last()) + piece_ids(vocab, pieces.last())
    }
}

/// The numbers of a text.
pub open spec fn text_ids(tokens: Seq<Token>, ranks: Map<Pair, u32>, text: Seq<char>) -> Seq<u32> {
    all_ids(vocab_map(tokens), pieces_of(ranks, encode_utf8(text)))
}

/// Token `i` has the number `id`, and no later token took its text over with another number.
pub open spec fn carries(tokens: Seq<Token>, i: int, id: u32) -> bool {
    0 <= i < tokens.len() && tokens[i].1 == id && vocab_map(tokens)[tokens[i].0] == id
}

/// Token `i` is the first that carries `id`.
pub open spec fn first_carrier(tokens: Seq<Token>, i: int, id: u32) -> bool {
    carries(tokens, i, id) && forall|j: int| #[trigger] carries(tokens, j, id) ==> i <= j
}

/// The text of a number. Where several tokens carry the number, the first in the list speaks for
/// it.
pub open spec fn token_text(tokens: Seq<Token>, id: u32) -> Option<Seq<char>> {
    if exists|i: int| first_carrier(tokens, i, id) {
        Some(tokens[choose|i: int| first_carrier(tokens, i, id)].0)
    } else {
        None
    }
}

/// The bytes of those characters that belong to a byte.
pub open spec fn chars_bytes(text: Seq<char>) -> Seq<u8>
    decreases text.len(),
{
    if text.len() == 0 {
        Seq::empty()
    } else {
        match char_byte(text.last()) {
            Some(b) => chars_bytes(text.drop_last()).push(b),
            None => chars_bytes(text.drop_last()),
        }
    }
}

/// The bytes of a number: the text itself where it is special, else the bytes that the characters
/// of its token stand for.
pub open spec fn id_bytes(tokens: Seq<Token>, special: Map<u32, String>, id: u32) -> Seq<u8> {
    if special.contains_key(id) {
        encode_utf8(special[id]@)
    } else {
        match token_text(tokens, id) {
            Some(text) => chars_bytes(text),
            None => Seq::empty(),
        }
    }
}

pub open spec fn ids_bytes(tokens: Seq<Token>, special: Map<u32, String>, ids: Seq<u32>) -> Seq<u8>
    decreases ids.len(),
{
    if ids.len() == 0 {
        Seq::empty()
    } else {
        ids_bytes(tokens, special, ids.drop_last()) + id_bytes(tokens, special, ids.last())
    }
}

/// A vocabulary and the merges that lead to it.
pub struct BpeTokenizer {
    tokens: Vec<(String, u32)>,
    encoder: StringHashMap<u32>,
    bpe_ranks: MergeTable,
    byte_encoder: Vec<char>,
    byte_decoder: Vec<Option<u8>>,
    special_tokens: StringHashMap<u32>,
    vocab_size: u32,
}

impl BpeTokenizer {
    /// The tokens in the order in which they were given.
    pub closed spec fn tokens(&self) -> Seq<Token> {
        tokens_of(self.tokens@)
    }

    /// The ranks of the merges.
    pub closed spec fn ranks(&self) -> Map<Pair, u32> {
        self.bpe_ranks@
    }

    /// The numbers of the special tokens.
    pub closed spec fn specials(&self) -> Map<Seq<char>, u32> {
        self.special_tokens@
    }

    /// The number of tokens, the special ones included, modulo 2^32.
    pub closed spec fn size(&self) -> u32 {
        self.vocab_size
    }

    #[verifier::type_invariant]
    spec fn inv(&self) -> bool {
        &&& self.encoder@ == vocab_map(tokens_of(self.tokens@))
        &&& self.byte_encoder@.len() == 256
        &&& forall|b: int|
            0 <= b < 256 ==> #[trigger] self.byte_encoder@[b] == byte_char(b as u8)
        &&& self.byte_decoder@.len() == 0x144
        &&& forall|n: int|
            0 <= n < 0x144 ==> #[trigger] self.byte_decoder@[n] == char_byte(n as char)
    }

    pub fn new(
        tokens: Vec<(String, u32)>,
        merges: Vec<(String, String)>,
        special: Vec<(String, u32)>,
    ) -> (t: BpeTokenizer)
        ensures
            t.tokens() == tokens_of(tokens@),
            t.ranks() == rank_map(pairs_of(merges@)),
            t.specials() == vocab_map(tokens_of(special@)),
            t.size() == (tokens@.len() + vocab_map(tokens_of(special@)).len()) as int
                % 0x1_0000_0000,
            t.tokens().len() == tokens@.len(),
            forall|i: int|
                0 <= i < tokens@.len() ==> (#[trigger] t.tokens()[i]).0 == tokens@[i].0@
                    && t.tokens()[i].1 == tokens@[i].1,
            forall|p: int|
                #![trigger merges@[p]]
                0 <= p < merges@.len() && p < 0x1_0000_0000 && (forall|q: int|
                    p < q < merges@.len() ==> (#[trigger] merges@[q]).0@ != merges@[p].0@
                        || merges@[q].1@ != merges@[p].1@) ==> t.ranks().contains_key(
                    (merges@[p].0@, merges@[p].1@),
                ) && t.ranks()[(merges@[p].0@, merges@[p].1@)] as int == p,
    {
        proof {
            let pairs = pairs_of(merges@);
            lemma_rank_is_place(pairs);
            assert forall|p: int|
                #![trigger merges@[p]]
                0 <= p < merges@.len() && p < 0x1_0000_0000 && (forall|q: int|
                    p < q < merges@.len() ==> (#[trigger] merges@[q]).0@ != merges@[p].0@
                        || merges@[q].1@ != merges@[p].1@) implies rank_map(pairs).contains_key(
                (merges@[p].0@, merges@[p].1@),
            ) && rank_map(pairs)[(merges@[p].0@, merges@[p].1@)] as int == p by {
                assert(pairs[p] == (merges@[p].0@, merges@[p].1@));
                assert forall|q: int| p < q < pairs.len() implies #[trigger] pairs[q]
                    != pairs[p] by {
                    assert(merges@[q].0@ != merges@[p].0@ || merges@[q].1@ != merges@[p].1@);
                }
            }
        }
        let encoder: StringHashMap<u32> = index_tokens(&tokens);
        let bpe_ranks: MergeTable = index_merges(&merges);
        let special_tokens: StringHashMap<u32> = index_tokens(&special);
        let a: u64 = tokens.len() as u64 % 0x1_0000_0000;
        let b: u64 = special_tokens.len() as u64 % 0x1_0000_0000;
        let vocab_size: u32 = ((a + b) % 0x1_0000_0000) as u32;
        let (byte_encoder, byte_decoder) = bytes_to_unicode_map();
        BpeTokenizer {
            tokens,
            encoder,
            bpe_ranks,
            byte_encoder,
            byte_decoder,
            special_tokens,
            vocab_size,
        }
    }
}

fn index_tokens(tokens: &Vec<(String, u32)>) -> (m: StringHashMap<u32>)
    ensures
        m@ == vocab_map(tokens_of(tokens@)),
{
    let mut m: StringHashMap<u32> = StringHashMap::new();
    let ghost all = tokens_of(tokens@);
    let mut i: usize = 0;
    assert(all.take(0) =~= Seq::<Token>::empty());
    while i < tokens.len()
        invariant
            i <= tokens@.len(),
            all == tokens_of(tokens@),
            m@ == vocab_map(all.take(i as int)),
        decreases tokens@.len() - i,
    {
        m.insert(tokens[i].0.clone(), tokens[i].1);
        proof {
            let next = all.take(i + 1);
            assert(next.drop_last() =~= all.take(i as int));
            assert(next.last() == all[i as int]);
        }
        i += 1;
    }
    assert(all.take(i as int) =~= all);
    m
}

fn index_merges(merges: &Vec<(String, String)>) -> (m: MergeTable)
    ensures
        m@ == rank_map(pairs_of(merges@)),
{
    let mut m: MergeTable = MergeTable::new();
    let ghost all = pairs_of(merges@);
    let mut i: usize = 0;
    assert(all.take(0) =~= Seq::<Pair>::empty());
    while i < merges.len()
        invariant
            i <= merges@.len(),
            all == pairs_of(merges@),
            m@ == rank_map(all.take(i as int)),
        decreases merges@.len() - i,
    {
        let rank: u32 = (i as u64 % 0x1_0000_0000) as u32;
        m = m.insert(merges[i].0.as_str(), merges[i].1.as_str(), rank);
        proof {
            let next = all.take(i + 1);
            assert(next.drop_last() =~= all.take(i as int));
            assert(next.last() == all[i as int]);
        }
        i += 1;
    }
    assert(all.take(i as int) =~= all);
    m
}

/// Merging never makes a word longer.
proof fn lemma_merged_len(word: Seq<Seq<char>>, a: Seq<char>, b: Seq<char>, i: int)
    requires
        0 <= i,
    ensures
        i <= word.len() ==> merged_from(word, a, b, i).len() <= word.len() - i,
    decreases word.len() - i,
{
    if i < word.len() {
        lemma_merged_len(word, a, b, i + 1);
        if i + 1 < word.len() {
            lemma_merged_len(word, a, b, i + 2);
        }
    }
}

/// Where the pair occurs, merging makes a word shorter.
pub(crate) proof fn lemma_merged_shorter(word: Seq<Seq<char>>, a: Seq<char>, b: Seq<char>, i: int, at: int)
    requires
        0 <= i <= at < word.len() - 1,
        word[at] == a,
        word[at + 1] == b,
    ensures
        merged_from(word, a, b, i).len() < word.len() - i,
    decreases word.len() - i,
{
    lemma_merged_len(word, a, b, i + 1);
    lemma_merged_len(word, a, b, i + 2);
    if word[i] == a && word[i + 1] == b {
    } else {
        lemma_merged_shorter(word, a, b, i + 1, at);
    }
}

/// At most one pair is the best.
proof fn lemma_best_unique(ranks: Map<Pair, u32>, word: Seq<Seq<char>>, i: int, j: int)
    requires
        is_best(ranks, word, i),
        is_best(ranks, word, j),
    ensures
        i == j,
{
    assert(ranked(ranks, word, i) && ranked(ranks, word, j));
}

/// Where any pair may be merged, one is the best.
pub(crate) proof fn lemma_best_exists(ranks: Map<Pair, u32>, word: Seq<Seq<char>>, at: int)
    requires
        ranked(ranks, word, at),
    ensures
        exists|i: int| is_best(ranks, word, i),
    decreases rank_at(ranks, word, at), at,
{
    if !is_best(ranks, word, at) {
        let j = choose|j: int| #[trigger]
            ranked(ranks, word, j) && !(rank_at(ranks, word, at) <= rank_at(ranks, word, j) && (j
                < at ==> rank_at(ranks, word, at) < rank_at(ranks, word, j)));
        lemma_best_exists(ranks, word, j);
    }
}

/// When all merges are done, no two neighbouring pieces have a rank.
pub proof fn lemma_bpe_complete(ranks: Map<Pair, u32>, word: Seq<Seq<char>>)
    ensures
        forall|i: int| !(#[trigger] ranked(ranks, bpe_of(ranks, word), i)),
    decreases word.len(),
{
    if exists|i: int| is_best(ranks, word, i) {
        let i = choose|i: int| is_best(ranks, word, i);
        let next = merged_from(word, word[i], word[i + 1], 0);
        lemma_merged_shorter(word, word[i], word[i + 1], 0, i);
        lemma_bpe_complete(ranks, next);
        assert(bpe_of(ranks, word) == bpe_of(ranks, next));
    } else {
        assert(bpe_of(ranks, word) == word);
        assert forall|i: int| !(#[trigger] ranked(ranks, bpe_of(ranks, word), i)) by {
            if ranked(ranks, word, i) {
                lemma_best_exists(ranks, word, i);
            }
        }
    }
}

fn merge_pair(word: &Vec<String>, a: &String, b: &String) -> (next: Vec<String>)
    ensures
        texts_of(next@) == merged_from(texts_of(word@), a@, b@, 0),
{
    let mut next: Vec<String> = Vec::new();
    let ghost w = texts_of(word@);
    let n: usize = word.len();
    let mut i: usize = 0;
    assert(texts_of(next@) =~= Seq::<Seq<char>>::empty());
    assert(Seq::<Seq<char>>::empty() + merged_from(w, a@, b@, 0) =~= merged_from(w, a@, b@, 0));
    while i < n
        invariant
            n == word@.len(),
            i <= n,
            w == texts_of(word@),
            texts_of(next@) + merged_from(w, a@, b@, i as int) == merged_from(w, a@, b@, 0),
        decreases n - i,
    {
        let ghost before = texts_of(next@);
        let ghost rest = merged_from(w, a@, b@, i as int);
        if i < n - 1 && word[i] == *a && word[i + 1] == *b {
            let piece: String = concat2(a.as_str(), b.as_str());
            let ghost text = piece@;
            next.push(piece);
            proof {
                let tail = merged_from(w, a@, b@, i + 2);
                assert(rest == seq![a@ + b@] + tail);
                assert(texts_of(next@) =~= before.push(text));
                assert(before + (seq![text] + tail) =~= before.push(text) + tail);
            }
            i += 2;
        } else {
            let piece: String = word[i].clone();
            let ghost text = piece@;
            next.push(piece);
            proof {
                let tail = merged_from(w, a@, b@, i + 1);
                assert(rest == seq![w[i as int]] + tail);
                assert(texts_of(next@) =~= before.push(text));
                assert(before + (seq![text] + tail) =~= before.push(text) + tail);
            }
            i += 1;
        }
    }
    proof {
        assert(merged_from(w, a@, b@, i as int) =~= Seq::<Seq<char>>::empty());
        assert(texts_of(next@) + Seq::<Seq<char>>::empty() =~= texts_of(next@));
    }
    next
}

impl BpeTokenizer {
    /// The place of the pair to merge next.
    fn best_pair(&self, word: &Vec<String>) -> (r: Option<usize>)
        ensures
            match r {
                Some(i) => is_best(self.ranks(), texts_of(word@), i as int),
                None => forall|i: int| !is_best(self.ranks(), texts_of(word@), i),
            },
    {
        let ghost w = texts_of(word@);
        let ghost ranks = self.ranks();
        let mut best: Option<(usize, u32)> = None;
        let n: usize = word.len();
        let mut i: usize = 0;
        while i + 1 < n
            invariant
                n == word@.len(),
                i <= n,
                i + 1 <= n || n == 0,
                w == texts_of(word@),
                ranks == self.ranks(),
                match best {
                    Some((k, rank)) => {
                        &&& k < i
                        &&& ranked(ranks, w, k as int)
                        &&& rank == rank_at(ranks, w, k as int)
                        &&& forall|j: int| #[trigger]
                            ranked(ranks, w, j) && j < i ==> rank <= rank_at(ranks, w, j) && (j < k
                                ==> rank < rank_at(ranks, w, j))
                    },
                    None => forall|j: int| #[trigger] ranked(ranks, w, j) ==> j >= i,
                },
            decreases n - i,
        {
            let found: Option<u32> = self.bpe_ranks.get(word[i].as_str(), word[i + 1].as_str());
            proof {
                assert(w[i as int] == word@[i as int]@ && w[i + 1] == word@[i + 1]@);
                assert(ranked(ranks, w, i as int) <==> found is Some);
            }
            match found {
                Some(rank) => {
                    let better: bool = match best {
                        Some((_, r)) => rank < r,
                        None => true,
                    };
                    if better {
                        best = Some((i, rank));
                    }
                },
                None => {},
            }
            i += 1;
        }
        match best {
            Some((k, _)) => {
                assert(is_best(ranks, w, k as int));
                Some(k)
            },
            None => {
                assert forall|i: int| !is_best(ranks, w, i) by {
                    assert(is_best(ranks, w, i) ==> ranked(ranks, w, i));
                }
                None
            },
        }
    }

    /// The pieces of a word after all merges.
    fn bpe(&self, start: Vec<String>) -> (word: Vec<String>)
        ensures
            texts_of(word@) == bpe_of(self.ranks(), texts_of(start@)),
    {
        let ghost w0 = texts_of(start@);
        let mut word: Vec<String> = start;
        loop
            invariant
                bpe_of(self.ranks(), texts_of(word@)) == bpe_of(self.ranks(), w0),
            ensures
                texts_of(word@) == bpe_of(self.ranks(), w0),
            decreases word@.len(),
        {
            let ghost w = texts_of(word@);
            match self.best_pair(&word) {
                None => {
                    break;
                },
                Some(i) => {
                    assert(ranked(self.ranks(), w, i as int));
                    let n: usize = word.len();
                    assert(i + 1 < n);
                    let next: Vec<String> = merge_pair(&word, &word[i], &word[i + 1]);
                    proof {
                        let k = choose|k: int| is_best(self.ranks(), w, k);
                        lemma_best_unique(self.ranks(), w, i as int, k);
                        assert(texts_of(next@).len() == next@.len());
                    }
                    if next.len() >= word.len() {
                        break;
                    }
                    word = next;
                },
            }
        }
        word
    }

    /// The numbers of a text, after the number that starts every text where one is wanted.
    pub fn encode(&self, text: &str, add_bos: bool, bos_id: u32) -> (out: Vec<u32>)
        ensures
            out@ == (if add_bos {
                seq![bos_id]
            } else {
                Seq::empty()
            }) + text_ids(self.tokens(), self.ranks(), text@),
    {
        proof {
            use_type_invariant(self);
        }
        let mut out: Vec<u32> = Vec::new();
        if add_bos {
            out.push(bos_id);
        }
        let ghost start = out@;
        assert(add_bos ==> start =~= seq![bos_id]);
        let bytes: &[u8] = text.as_bytes();
        let pieces: Vec<String> = self.pieces(bytes);
        let ghost all = texts_of(pieces@);
        let ghost vocab = self.encoder@;
        let mut i: usize = 0;
        assert(all.take(0) =~= Seq::<Seq<char>>::empty());
        assert(start + Seq::<u32>::empty() =~= start);
        while i < pieces.len()
            invariant
                i <= pieces@.len(),
                all == texts_of(pieces@),
                vocab == self.encoder@,
                out@ == start + all_ids(vocab, all.take(i as int)),
            decreases pieces@.len() - i,
        {
            let ghost before = all_ids(vocab, all.take(i as int));
            let ghost piece = all[i as int];
            self.push_piece(&mut out, pieces[i].as_str());
            proof {
                let next = all.take(i + 1);
                assert(next.drop_last() =~= all.take(i as int));
                assert(next.last() == piece);
                assert((start + before) + piece_ids(vocab, piece) =~= start + (before + piece_ids(
                    vocab,
                    piece,
                )));
            }
            i += 1;
        }
        assert(all.take(i as int) =~= all);
        out
    }

    fn pieces(&self, bytes: &[u8]) -> (pieces: Vec<String>)
        ensures
            texts_of(pieces@) == pieces_of(self.ranks(), bytes@),
    {
        proof {
            use_type_invariant(self);
        }
        let mut word: Vec<String> = Vec::new();
        if bytes.len() == 0 {
            word.push(String::new());
            assert(texts_of(word@) =~= seq![Seq::<char>::empty()]);
            return word;
        }
        let mut i: usize = 0;
        while i < bytes.len()
            invariant
                i <= bytes@.len(),
                word@.len() == i,
                self.byte_encoder@.len() == 256,
                forall|b: int|
                    0 <= b < 256 ==> #[trigger] self.byte_encoder@[b] == byte_char(b as u8),
                forall|j: int| 0 <= j < i ==> (#[trigger] word@[j])@ == seq![byte_char(bytes@[j])],
            decreases bytes@.len() - i,
        {
            let mut piece: String = String::new();
            piece.push(self.byte_encoder[bytes[i] as usize]);
            assert(piece@ =~= seq![byte_char(bytes@[i as int])]);
            word.push(piece);
            i += 1;
        }
        assert(texts_of(word@) =~= word_of(bytes@));
        self.bpe(word)
    }

    fn push_piece(&self, out: &mut Vec<u32>, piece: &str)
        ensures
            final(out)@ == old(out)@ + piece_ids(self.encoder@, piece@),
    {
        let ghost before = out@;
        match self.encoder.get(piece) {
            Some(id) => {
                out.push(*id);
                assert(out@ =~= before + seq![*id]);
            },
            None => {
                let ghost vocab = self.encoder@;
                let n: usize = piece.unicode_len();
                let mut i: usize = 0;
                assert(piece@.take(0) =~= Seq::<char>::empty());
                assert(before + Seq::<u32>::empty() =~= before);
                while i < n
                    invariant
                        n == piece@.len(),
                        i <= n,
                        vocab == self.encoder@,
                        out@ == before + char_ids(vocab, piece@.take(i as int)),
                    decreases n - i,
                {
                    let ghost ids = char_ids(vocab, piece@.take(i as int));
                    let c: char = piece.get_char(i);
                    let mut single: String = String::new();
                    single.push(c);
                    proof {
                        let next = piece@.take(i + 1);
                        assert(next.drop_last() =~= piece@.take(i as int));
                        assert(next.last() == c);
                        assert(single@ =~= seq![c]);
                    }
                    match self.encoder.get(single.as_str()) {
                        Some(id) => {
                            out.push(*id);
                            assert(out@ =~= before + ids.push(*id));
                        },
                        None => {},
                    }
                    i += 1;
                }
                assert(piece@.take(i as int) =~= piece@);
            },
        }
    }

    /// The text of numbers. Bytes that are not UTF-8 are replaced.
    pub fn decode(&self, ids: &[u32], special: &HashMap<u32, String>) -> (text: String)
        ensures
            spells(ids_bytes(self.tokens(), special@, ids@), text@),
    {
        broadcast use vstd::std_specs::hash::group_hash_axioms;

        let mut bytes: Vec<u8> = Vec::new();
        let mut i: usize = 0;
        assert(ids@.take(0) =~= Seq::<u32>::empty());
        assert(bytes@ =~= Seq::<u8>::empty());
        while i < ids.len()
            invariant
                i <= ids@.len(),
                bytes@ == ids_bytes(self.tokens(), special@, ids@.take(i as int)),
            decreases ids@.len() - i,
        {
            let ghost before = bytes@;
            let id: u32 = ids[i];
            proof {
                let next = ids@.take(i + 1);
                assert(next.drop_last() =~= ids@.take(i as int));
                assert(next.last() == id);
            }
            match special.get(&id) {
                Some(s) => {
                    bytes.extend_from_slice(s.as_str().as_bytes());
                    assert(bytes@ =~= before + encode_utf8(s@));
                },
                None => {
                    self.push_token(&mut bytes, id);
                },
            }
            i += 1;
        }
        assert(ids@.take(i as int) =~= ids@);
        text_lossy(bytes.as_slice())
    }

    fn push_token(&self, bytes: &mut Vec<u8>, id: u32)
        ensures
            final(bytes)@ == old(bytes)@ + (match token_text(self.tokens(), id) {
                Some(text) => chars_bytes(text),
                None => Seq::empty(),
            }),
    {
        proof {
            use_type_invariant(self);
        }
        let ghost before = bytes@;
        match self.find_token(id) {
            None => {
                assert(before + Seq::<u8>::empty() =~= before);
            },
            Some(at) => {
                let text: &str = self.tokens[at].0.as_str();
                let n: usize = text.unicode_len();
                let mut i: usize = 0;
                assert(text@.take(0) =~= Seq::<char>::empty());
                assert(before + Seq::<u8>::empty() =~= before);
                while i < n
                    invariant
                        n == text@.len(),
                        i <= n,
                        bytes@ == before + chars_bytes(text@.take(i as int)),
                        self.byte_decoder@.len() == 0x144,
                        forall|n: int|
                            0 <= n < 0x144 ==> #[trigger] self.byte_decoder@[n] == char_byte(
                                n as char,
                            ),
                    decreases n - i,
                {
                    let ghost done = chars_bytes(text@.take(i as int));
                    let c: char = text.get_char(i);
                    proof {
                        let next = text@.take(i + 1);
                        assert(next.drop_last() =~= text@.take(i as int));
                        assert(next.last() == c);
                    }
                    if (c as u32) < 0x144 {
                        let found: Option<u8> = self.byte_decoder[c as usize];
                        match found {
                            Some(b) => {
                                bytes.push(b);
                                assert(bytes@ =~= before + done.push(b));
                            },
                            None => {},
                        }
                    }
                    i += 1;
                }
                assert(text@.take(i as int) =~= text@);
            },
        }
    }

    /// The place of the token that speaks for a number.
    fn find_token(&self, id: u32) -> (r: Option<usize>)
        ensures
            match r {
                Some(at) => at < self.tokens@.len() && token_text(self.tokens(), id) == Some(
                    self.tokens@[at as int].0@,
                ),
                None => token_text(self.tokens(), id) is None,
            },
    {
        proof {
            use_type_invariant(self);
        }
        let ghost tokens = self.tokens();
        let mut i: usize = 0;
        while i < self.tokens.len()
            invariant
                i <= self.tokens@.len(),
                tokens == self.tokens(),
                self.encoder@ == vocab_map(tokens),
                forall|j: int| #[trigger] carries(tokens, j, id) ==> j >= i,
            decreases self.tokens@.len() - i,
        {
            if self.tokens[i].1 == id {
                proof {
                    lemma_vocab_has(tokens, i as int);
                }
                match self.encoder.get(self.tokens[i].0.as_str()) {
                    Some(live) => {
                        if *live == id {
                            proof {
                                assert(carries(tokens, i as int, id));
                                assert(first_carrier(tokens, i as int, id));
                                let k = choose|k: int| first_carrier(tokens, k, id);
                                assert(carries(tokens, k, id));
                            }
                            return Some(i);
                        }
                    },
                    None => {},
                }
            }
            i += 1;
        }
        None
    }
}

/// Every token's text is in the vocabulary.
pub proof fn lemma_vocab_has(tokens: Seq<Token>, i: int)
    requires
        0 <= i < tokens.len(),
    ensures
        vocab_map(tokens).contains_key(tokens[i].0),
    decreases tokens.len(),
{
    if i < tokens.len() - 1 {
        lemma_vocab_has(tokens.drop_last(), i);
    }
}

} // verus!
