//! Merge candidates, and a table that holds at most one candidate for each pair.

use crate::pairs::{count_of, key_of, lemma_pair_key_injective, pair_key, PairCounts};
use crate::word::Pair;
use std::collections::HashMap;
use vstd::prelude::*;

verus! {

/// A candidate merge: a pair, the count it had when the candidate was last
/// priced, and the indices of the words to rewrite.
pub struct Merge {
    pub pair: Pair,
    pub count: i64,
    pub pos: Vec<usize>,
}

/// What a candidate holds, as mathematical values.
#[verifier::ext_equal]
pub struct MergeView {
    pub pair: Pair,
    pub count: int,
    pub pos: Seq<usize>,
}

impl View for Merge {
    type V = MergeView;

    /// The pair, the price and the positions of the candidate.
    open spec fn view(&self) -> MergeView {
        MergeView { pair: self.pair, count: self.count as int, pos: self.pos@ }
    }
}

/// The candidates of `v` as mathematical values, in order.
pub open spec fn merge_views(v: Seq<Merge>) -> Seq<MergeView> {
    v.map_values(|m: Merge| m@)
}

/// Candidate `x` is taken before candidate `y`: it has the higher count, or
/// the same count and the smaller pair.
pub open spec fn outranks(x: MergeView, y: MergeView) -> bool {
    x.count > y.count || (x.count == y.count && (x.pair.0 < y.pair.0 || (x.pair.0 == y.pair.0
        && x.pair.1 < y.pair.1)))
}

impl Merge {
    /// Whether `self` is taken before `other`.
    pub fn outranks(&self, other: &Merge) -> (b: bool)
        ensures
            b == outranks(self@, other@),
    {
        self.count > other.count || (self.count == other.count && (self.pair.0 < other.pair.0 || (
        self.pair.0 == other.pair.0 && self.pair.1 < other.pair.1)))
    }

    /// Whether neither of `self` and `other` is taken before the other.
    pub fn same_rank(&self, other: &Merge) -> (b: bool)
        ensures
            b == (self@.count == other@.count && self@.pair == other@.pair),
    {
        self.count == other.count && self.pair.0 == other.pair.0 && self.pair.1 == other.pair.1
    }
}

/// Slot `i` of `t` holds a candidate for `pair`.
pub open spec fn holds_pair(t: Seq<Option<MergeView>>, i: int, pair: Pair) -> bool {
    0 <= i < t.len() && t[i] is Some && t[i]->0.pair == pair
}

/// No two slots of `t` hold candidates for the same pair.
pub open spec fn one_slot_each(t: Seq<Option<MergeView>>) -> bool {
    forall|i: int, j: int|
        0 <= i < t.len() && 0 <= j < t.len() && t[i] is Some && t[j] is Some && (#[trigger] t[i])->0.pair
            == (#[trigger] t[j])->0.pair ==> i == j
}

/// The slot of `t` that holds a candidate for `pair`, if one does.
pub open spec fn slot_of(t: Seq<Option<MergeView>>, pair: Pair) -> Option<int> {
    if exists|i: int| holds_pair(t, i, pair) {
        Some(choose|i: int| holds_pair(t, i, pair))
    } else {
        None
    }
}

/// `pos` with `iw` at its end, unless it ends with `iw` already.
pub open spec fn extended(pos: Seq<usize>, iw: usize) -> Seq<usize> {
    if pos.len() > 0 && pos.last() == iw {
        pos
    } else {
        pos.push(iw)
    }
}

/// `t` after word `iw` was noted for `pair`: the candidate for `pair` gets
/// `iw` as a further position; if there is none, a new last slot holds one
/// with that position alone.
pub open spec fn noted(t: Seq<Option<MergeView>>, pair: Pair, iw: usize) -> Seq<Option<MergeView>> {
    match slot_of(t, pair) {
        Some(i) => t.update(i, Some(MergeView { pos: extended(t[i]->0.pos, iw), ..t[i]->0 })),
        None => t.push(Some(MergeView { pair, count: 0, pos: seq![iw] })),
    }
}

/// `t` after `m` was stored: it replaces the candidate for its pair; if
/// there is none, a new last slot holds it.
pub open spec fn stored(t: Seq<Option<MergeView>>, m: MergeView) -> Seq<Option<MergeView>> {
    match slot_of(t, m.pair) {
        Some(i) => t.update(i, Some(m)),
        None => t.push(Some(m)),
    }
}

/// `t` after the candidate for `pair` was taken out of its slot.
pub open spec fn without(t: Seq<Option<MergeView>>, pair: Pair) -> Seq<Option<MergeView>> {
    match slot_of(t, pair) {
        Some(i) => t.update(i, None),
        None => t,
    }
}

/// The candidates of `t` whose pair has a positive count in `counts`, in
/// slot order, each priced at that count.
pub open spec fn priced_entries(t: Seq<Option<MergeView>>, counts: Map<Pair, int>) -> Seq<
    MergeView,
>
    decreases t.len(),
{
    if t.len() == 0 {
        Seq::empty()
    } else {
        let before = priced_entries(t.drop_last(), counts);
        match t.last() {
            Some(m) => if count_of(counts, m.pair) > 0 {
                before.push(MergeView { count: count_of(counts, m.pair), ..m })
            } else {
                before
            },
            None => before,
        }
    }
}

/// The candidates that `t` holds, in slot order.
pub open spec fn held_entries(t: Seq<Option<MergeView>>) -> Seq<MergeView>
    decreases t.len(),
{
    if t.len() == 0 {
        Seq::empty()
    } else {
        match t.last() {
            Some(m) => held_entries(t.drop_last()).push(m),
            None => held_entries(t.drop_last()),
        }
    }
}

/// In a table without doubles, the slot found for a pair is the one that holds it.
pub proof fn lemma_slot_of(t: Seq<Option<MergeView>>, i: int, pair: Pair)
    requires
        one_slot_each(t),
        holds_pair(t, i, pair),
    ensures
        slot_of(t, pair) == Some(i),
{
    let j = choose|j: int| holds_pair(t, j, pair);
    assert(t[j]->0.pair == t[i]->0.pair);
}

/// The mathematical value of a slot.
pub open spec fn slot_view(s: Option<Merge>) -> Option<MergeView> {
    match s {
        Some(m) => Some(m@),
        None => None,
    }
}

/// A table with at most one candidate for each pair, in slots that keep
/// the order in which the pairs first came.
pub struct PairTable {
    slots: Vec<Option<Merge>>,
    index: HashMap<u64, usize>,
}

impl View for PairTable {
    type V = Seq<Option<MergeView>>;

    /// The slots in their order, each with the candidate that it holds.
    closed spec fn view(&self) -> Seq<Option<MergeView>> {
        self.slots@.map_values(|s: Option<Merge>| slot_view(s))
    }
}

impl PairTable {
    /// The index leads from each pair that has a candidate to its slot.
    pub closed spec fn wf(&self) -> bool {
        &&& forall|k: u64| #[trigger]
            self.index@.contains_key(k) ==> self.index@[k] < self.slots@.len()
                && self.slots@[self.index@[k] as int] is Some && pair_key(
                self.slots@[self.index@[k] as int]->0.pair,
            ) == k
        &&& forall|i: int|
            0 <= i < self.slots@.len() && (#[trigger] self.slots@[i]) is Some
                ==> self.index@.contains_key(pair_key(self.slots@[i]->0.pair)) && self.index@[pair_key(
                self.slots@[i]->0.pair,
            )] == i
    }

    /// A well-formed table holds no pair twice.
    pub proof fn lemma_one_slot_each(&self)
        requires
            self.wf(),
        ensures
            one_slot_each(self@),
    {
        assert forall|i: int, j: int|
            0 <= i < self@.len() && 0 <= j < self@.len() && self@[i] is Some && self@[j] is Some && (
            #[trigger] self@[i])->0.pair == (#[trigger] self@[j])->0.pair implies i == j by {
            assert(self.slots@[i] is Some);
            assert(self.slots@[j] is Some);
        }
    }

    /// An empty table.
    pub fn new() -> (t: PairTable)
        ensures
            t.wf(),
            t@ == Seq::<Option<MergeView>>::empty(),
    {
        let t = PairTable { slots: Vec::new(), index: HashMap::new() };
        assert(t@ =~= Seq::<Option<MergeView>>::empty());
        t
    }

    /// The number of slots.
    pub fn len(&self) -> (n: usize)
        ensures
            n == self@.len(),
    {
        self.slots.len()
    }

    /// The slot that holds the candidate for `pair`, if one does.
    pub fn find(&self, pair: Pair) -> (slot: Option<usize>)
        requires
            self.wf(),
        ensures
            slot matches Some(i) ==> slot_of(self@, pair) == Some(i as int) && holds_pair(
                self@,
                i as int,
                pair,
            ),
            slot is None ==> slot_of(self@, pair) is None,
    {
        broadcast use vstd::std_specs::hash::group_hash_axioms;

        let k = key_of(pair);
        match self.index.get(&k) {
            Some(i) => {
                proof {
                    self.lemma_one_slot_each();
                    lemma_pair_key_injective(self.slots@[*i as int]->0.pair, pair);
                    assert(holds_pair(self@, *i as int, pair));
                    lemma_slot_of(self@, *i as int, pair);
                }
                Some(*i)
            },
            None => {
                assert(slot_of(self@, pair) is None) by {
                    if exists|i: int| holds_pair(self@, i, pair) {
                        let i = choose|i: int| holds_pair(self@, i, pair);
                        assert(self.slots@[i] is Some);
                    }
                }
                None
            },
        }
    }

    /// The candidate in slot `i`.
    pub fn entry(&self, i: usize) -> (m: &Merge)
        requires
            i < self@.len(),
            self@[i as int] is Some,
        ensures
            self@[i as int] == Some(m@),
    {
        self.slots[i].as_ref().unwrap()
    }

    /// Notes word `iw` as a position of `pair`.
    pub fn note(&mut self, pair: Pair, iw: usize)
        requires
            old(self).wf(),
        ensures
            final(self).wf(),
            final(self)@ == noted(old(self)@, pair, iw),
    {
        broadcast use vstd::std_specs::hash::group_hash_axioms;

        let ghost before = *self;
        match self.find(pair) {
            Some(i) => {
                let n = self.slots[i].as_ref().unwrap().pos.len();
                if n == 0 || self.slots[i].as_ref().unwrap().pos[n - 1] != iw {
                    let mut tmp: Option<Merge> = None;
                    core::mem::swap(&mut tmp, &mut self.slots[i]);
                    let mut m = tmp.unwrap();
                    m.pos.push(iw);
                    self.slots[i] = Some(m);
                }
                proof {
                    assert(self@ =~= noted(before@, pair, iw));
                    assert forall|j: int|
                        0 <= j < self.slots@.len() && (#[trigger] self.slots@[j]) is Some implies self.index@.contains_key(
                        pair_key(self.slots@[j]->0.pair),
                    ) && self.index@[pair_key(self.slots@[j]->0.pair)] == j by {
                        assert(before.slots@[j] is Some);
                    }
                }
            },
            None => {
                let k = key_of(pair);
                let i = self.slots.len();
                let mut pos: Vec<usize> = Vec::new();
                pos.push(iw);
                assert(pos@ =~= seq![iw]);
                self.slots.push(Some(Merge { pair, count: 0, pos }));
                self.index.insert(k, i);
                proof {
                    assert(self@ =~= noted(before@, pair, iw));
                    assert forall|j: int|
                        0 <= j < self.slots@.len() && (#[trigger] self.slots@[j]) is Some implies self.index@.contains_key(
                        pair_key(self.slots@[j]->0.pair),
                    ) && self.index@[pair_key(self.slots@[j]->0.pair)] == j by {
                        if j < i {
                            assert(before.slots@[j] is Some);
                            assert(holds_pair(before@, j, before.slots@[j]->0.pair));
                            lemma_pair_key_injective(before.slots@[j]->0.pair, pair);
                        }
                    }
                }
            },
        }
    }

    /// Stores `m` as the candidate for its pair.
    pub fn store(&mut self, m: Merge)
        requires
            old(self).wf(),
        ensures
            final(self).wf(),
            final(self)@ == stored(old(self)@, m@),
    {
        broadcast use vstd::std_specs::hash::group_hash_axioms;

        let ghost before = *self;
        let ghost pair = m.pair;
        match self.find(m.pair) {
            Some(i) => {
                self.slots[i] = Some(m);
                proof {
                    assert(self@ =~= stored(before@, m@));
                    assert forall|j: int|
                        0 <= j < self.slots@.len() && (#[trigger] self.slots@[j]) is Some implies self.index@.contains_key(
                        pair_key(self.slots@[j]->0.pair),
                    ) && self.index@[pair_key(self.slots@[j]->0.pair)] == j by {
                        assert(before.slots@[j] is Some);
                    }
                }
            },
            None => {
                let k = key_of(m.pair);
                let i = self.slots.len();
                self.slots.push(Some(m));
                self.index.insert(k, i);
                proof {
                    assert(self@ =~= stored(before@, m@));
                    assert forall|j: int|
                        0 <= j < self.slots@.len() && (#[trigger] self.slots@[j]) is Some implies self.index@.contains_key(
                        pair_key(self.slots@[j]->0.pair),
                    ) && self.index@[pair_key(self.slots@[j]->0.pair)] == j by {
                        if j < i {
                            assert(before.slots@[j] is Some);
                            assert(holds_pair(before@, j, before.slots@[j]->0.pair));
                            lemma_pair_key_injective(before.slots@[j]->0.pair, pair);
                        }
                    }
                }
            },
        }
    }

    /// Takes the candidate for `pair` out of the table.
    pub fn remove(&mut self, pair: Pair) -> (m: Option<Merge>)
        requires
            old(self).wf(),
        ensures
            final(self).wf(),
            final(self)@ == without(old(self)@, pair),
            match slot_of(old(self)@, pair) {
                Some(i) => m is Some && old(self)@[i] == Some(m->0@),
                None => m is None,
            },
    {
        broadcast use vstd::std_specs::hash::group_hash_axioms;

        let ghost before = *self;
        match self.find(pair) {
            Some(i) => {
                let k = key_of(pair);
                let mut tmp: Option<Merge> = None;
                core::mem::swap(&mut tmp, &mut self.slots[i]);
                self.index.remove(&k);
                proof {
                    assert(self@ =~= without(before@, pair));
                    assert forall|j: int|
                        0 <= j < self.slots@.len() && (#[trigger] self.slots@[j]) is Some implies self.index@.contains_key(
                        pair_key(self.slots@[j]->0.pair),
                    ) && self.index@[pair_key(self.slots@[j]->0.pair)] == j by {
                        assert(before.slots@[j] is Some);
                        lemma_pair_key_injective(before.slots@[j]->0.pair, pair);
                    }
                }
                tmp
            },
            None => None,
        }
    }

    /// Empties the table into the list of its candidates whose pair has a
    /// positive count, each priced at that count.
    pub fn into_priced(self, counts: &PairCounts) -> (out: Vec<Merge>)
        ensures
            merge_views(out@) == priced_entries(self@, counts@),
    {
        let mut slots = self.slots;
        let ghost all = self@;
        let mut out: Vec<Merge> = Vec::new();
        let mut i: usize = 0;
        assert(all.take(0) =~= Seq::<Option<MergeView>>::empty());
        assert(merge_views(out@) =~= Seq::<MergeView>::empty());
        while i < slots.len()
            invariant
                i <= slots.len(),
                slots@.len() == all.len(),
                forall|j: int| i <= j < slots@.len() ==> slot_view(#[trigger] slots@[j]) == all[j],
                merge_views(out@) == priced_entries(all.take(i as int), counts@),
            decreases slots.len() - i,
        {
            let mut tmp: Option<Merge> = None;
            core::mem::swap(&mut tmp, &mut slots[i]);
            proof {
                assert(all.take(i + 1).drop_last() =~= all.take(i as int));
                assert(all.take(i + 1).last() == all[i as int]);
            }
            let ghost prior = merge_views(out@);
            match tmp {
                Some(m) => {
                    let n = counts.get(m.pair);
                    if n > 0 {
                        let priced = Merge { pair: m.pair, count: n, pos: m.pos };
                        out.push(priced);
                        assert(merge_views(out@) =~= prior.push(priced@));
                    }
                },
                None => {},
            }
            i += 1;
        }
        assert(all.take(all.len() as int) =~= all);
        out
    }

    /// Empties the table into the list of its candidates.
    pub fn into_entries(self) -> (out: Vec<Merge>)
        ensures
            merge_views(out@) == held_entries(self@),
    {
        let mut slots = self.slots;
        let ghost all = self@;
        let mut out: Vec<Merge> = Vec::new();
        let mut i: usize = 0;
        assert(all.take(0) =~= Seq::<Option<MergeView>>::empty());
        assert(merge_views(out@) =~= Seq::<MergeView>::empty());
        while i < slots.len()
            invariant
                i <= slots.len(),
                slots@.len() == all.len(),
                forall|j: int| i <= j < slots@.len() ==> slot_view(#[trigger] slots@[j]) == all[j],
                merge_views(out@) == held_entries(all.take(i as int)),
            decreases slots.len() - i,
        {
            let mut tmp: Option<Merge> = None;
            core::mem::swap(&mut tmp, &mut slots[i]);
            proof {
                assert(all.take(i + 1).drop_last() =~= all.take(i as int));
                assert(all.take(i + 1).last() == all[i as int]);
            }
            let ghost prior = merge_views(out@);
            match tmp {
                Some(m) => {
                    out.push(m);
                    assert(merge_views(out@) =~= prior.push(m@));
                },
                None => {},
            }
            i += 1;
        }
        assert(all.take(all.len() as int) =~= all);
        out
    }
}

} // verus!
