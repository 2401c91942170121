//! Signed occurrence counts of pairs.

use crate::word::Pair;
use std::collections::HashMap;
use vstd::prelude::*;

verus! {

/// The count that `counts` holds for `pair`: zero where it holds none.
pub open spec fn count_of(counts: Map<Pair, int>, pair: Pair) -> int {
    if counts.contains_key(pair) {
        counts[pair]
    } else {
        0
    }
}

/// `counts` with `delta` added to the count of `pair`.
pub open spec fn count_added(counts: Map<Pair, int>, pair: Pair, delta: int) -> Map<Pair, int> {
    counts.insert(pair, count_of(counts, pair) + delta)
}

/// No count is further from zero than `limit`.
pub open spec fn counts_within(counts: Map<Pair, int>, limit: int) -> bool {
    forall|p: Pair| counts.contains_key(p) ==> -limit <= #[trigger] counts[p] <= limit
}

/// The number under which a pair is filed: the left id in the upper half,
/// the right id in the lower. Pairs are ordered as their numbers are.
pub open spec fn pair_key(pair: Pair) -> u64 {
    (pair.0 * 0x1_0000_0000 + pair.1) as u64
}

/// Different pairs are filed under different numbers.
pub proof fn lemma_pair_key_injective(p: Pair, q: Pair)
    ensures
        pair_key(p) == pair_key(q) <==> p == q,
        pair_key(p) < pair_key(q) <==> (p.0 < q.0 || (p.0 == q.0 && p.1 < q.1)),
{
}

/// The number under which `pair` is filed.
pub fn key_of(pair: Pair) -> (k: u64)
    ensures
        k == pair_key(pair),
{
    (pair.0 as u64) * 0x1_0000_0000 + (pair.1 as u64)
}

/// The net number of occurrences of each pair, weighted by word frequency.
/// A count may be negative while the words are being rewritten.
pub struct PairCounts {
    map: HashMap<u64, i64>,
}

impl View for PairCounts {
    type V = Map<Pair, int>;

    /// The count of each pair that was ever counted.
    closed spec fn view(&self) -> Map<Pair, int> {
        Map::new(
            |p: Pair| self.map@.contains_key(pair_key(p)),
            |p: Pair| self.map@[pair_key(p)] as int,
        )
    }
}

impl PairCounts {
    /// Counts of no pair.
    pub fn new() -> (c: PairCounts)
        ensures
            c@ == Map::<Pair, int>::empty(),
    {
        let c = PairCounts { map: HashMap::new() };
        assert(c@ =~= Map::<Pair, int>::empty());
        c
    }

    /// The count of `pair`: zero if it was never counted.
    pub fn get(&self, pair: Pair) -> (n: i64)
        ensures
            n == count_of(self@, pair),
    {
        broadcast use vstd::std_specs::hash::group_hash_axioms;

        let k = key_of(pair);
        match self.map.get(&k) {
            Some(v) => *v,
            None => 0,
        }
    }

    /// Adds `delta` to the count of `pair`, which from then on is counted.
    pub fn add(&mut self, pair: Pair, delta: i64)
        requires
            i64::MIN <= count_of(old(self)@, pair) + delta <= i64::MAX,
        ensures
            final(self)@ == count_added(old(self)@, pair, delta as int),
    {
        broadcast use vstd::std_specs::hash::group_hash_axioms;

        let k = key_of(pair);
        let cur = match self.map.get(&k) {
            Some(v) => *v,
            None => 0,
        };
        let ghost before = *self;
        self.map.insert(k, cur + delta);
        proof {
            assert forall|p: Pair|
                self@.contains_key(p) <==> #[trigger] count_added(
                    before@,
                    pair,
                    delta as int,
                ).contains_key(p) by {
                lemma_pair_key_injective(p, pair);
            }
            assert forall|p: Pair| self@.contains_key(p) implies #[trigger] self@[p]
                == count_added(before@, pair, delta as int)[p] by {
                lemma_pair_key_injective(p, pair);
            }
            assert(self@ =~= count_added(before@, pair, delta as int));
        }
    }
}

} // verus!
