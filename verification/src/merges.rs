//! The ranks of the pairs that byte-pair encoding merges.

use vstd::hash_map::StringHashMap;
use vstd::prelude::*;

verus! {

/// Two neighbouring pieces of text.
pub type Pair = (Seq<char>, Seq<char>);

/// A map from pairs of texts to ranks.
pub struct MergeTable {
    /// A number for each text that is the first of a pair.
    firsts: StringHashMap<usize>,
    /// By that number, the ranks by second text.
    seconds: Vec<StringHashMap<u32>>,
}

impl View for MergeTable {
    type V = Map<Pair, u32>;

    closed spec fn view(&self) -> Map<Pair, u32> {
        Map::new(
            |p: Pair|
                self.firsts@.contains_key(p.0)
                    && self.seconds@[self.firsts@[p.0] as int]@.contains_key(p.1),
            |p: Pair| self.seconds@[self.firsts@[p.0] as int]@[p.1],
        )
    }
}

impl MergeTable {
    #[verifier::type_invariant]
    spec fn inv(&self) -> bool {
        &&& forall|a: Seq<char>| #[trigger]
            self.firsts@.contains_key(a) ==> self.firsts@[a] < self.seconds@.len()
        &&& forall|a: Seq<char>, b: Seq<char>| #[trigger]
            self.firsts@.contains_key(a) && #[trigger] self.firsts@.contains_key(b)
                && self.firsts@[a] == self.firsts@[b] ==> a == b
    }

    pub fn new() -> (t: MergeTable)
        ensures
            t@ == Map::<Pair, u32>::empty(),
    {
        let t = MergeTable { firsts: StringHashMap::new(), seconds: Vec::new() };
        assert(t@ =~= Map::<Pair, u32>::empty());
        t
    }

    /// The same table with a rank for one more pair, or a new rank for a pair.
    pub fn insert(self, a: &str, b: &str, rank: u32) -> (t: MergeTable)
        ensures
            t@ == self@.insert((a@, b@), rank),
    {
        proof {
            use_type_invariant(&self);
        }
        let ghost before = self@;
        let MergeTable { mut firsts, mut seconds } = self;
        let ghost f0 = firsts@;
        let ghost s0 = seconds@;
        let at: usize = match firsts.get(a) {
            Some(i) => *i,
            None => {
                let i: usize = seconds.len();
                seconds.push(StringHashMap::new());
                firsts.insert(a.to_owned(), i);
                i
            },
        };
        let ghost s1 = seconds@;
        seconds[at].insert(b.to_owned(), rank);
        let t = MergeTable { firsts, seconds };
        proof {
            let after = before.insert((a@, b@), rank);
            assert(seconds@[at as int]@ == s1[at as int]@.insert(b@, rank));
            assert forall|p: Pair| #[trigger]
                t@.contains_key(p) == after.contains_key(p) && (after.contains_key(p) ==> t@[p]
                    == after[p]) by {
                if firsts@.contains_key(p.0) && p.0 != a@ {
                    assert(f0.contains_key(p.0));
                    assert(firsts@[p.0] != at);
                    assert(seconds@[firsts@[p.0] as int] == s0[f0[p.0] as int]);
                }
            }
            assert(t@ =~= after);
        }
        t
    }

    /// The rank of a pair.
    pub fn get(&self, a: &str, b: &str) -> (r: Option<u32>)
        ensures
            r == (if self@.contains_key((a@, b@)) {
                Some(self@[(a@, b@)])
            } else {
                None
            }),
    {
        proof {
            use_type_invariant(self);
        }
        match self.firsts.get(a) {
            None => None,
            Some(i) => match self.seconds[*i].get(b) {
                None => None,
                Some(rank) => Some(*rank),
            },
        }
    }
}

} // verus!
