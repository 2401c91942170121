//! The queue of candidates: they wait in the order in which they came, and
//! the one to take is found by way of a heap of their keys.
//!
//! A key is put into the heap whenever a candidate comes or is priced
//! anew. Keys are never sought out in the heap: a key whose candidate has
//! left, or has another price by now, is dropped when it comes to the top.

use crate::discovery::{is_top, lemma_top_unique, top_of};
use crate::heap::{key_before, Key, KeyHeap};
use crate::pairs::{key_of, lemma_pair_key_injective, pair_key};
use crate::table::{held_entries, merge_views, outranks, slot_view, Merge, MergeView};
use crate::word::Pair;
use vstd::prelude::*;

verus! {

/// The candidates of the slots as mathematical values.
pub open spec fn slot_views(slots: Seq<Option<Merge>>) -> Seq<Option<MergeView>> {
    slots.map_values(|s: Option<Merge>| slot_view(s))
}

/// The number of candidates that wait in the first `i` slots.
pub open spec fn live_before(t: Seq<Option<MergeView>>, i: int) -> int
    decreases i,
{
    if i <= 0 {
        0
    } else {
        live_before(t, i - 1) + if t[i - 1] is Some {
            1int
        } else {
            0int
        }
    }
}

/// The key of candidate `m` in slot `slot`.
pub open spec fn key_for(m: MergeView, slot: int) -> Key {
    Key { count: m.count as i64, pair: pair_key(m.pair), slot: slot as usize }
}

/// The candidates that wait in the first `i` slots are those that wait in
/// all slots, up to their number.
pub proof fn lemma_live_before(t: Seq<Option<MergeView>>, i: int)
    requires
        0 <= i <= t.len(),
    ensures
        0 <= live_before(t, i) <= i,
        held_entries(t.take(i)).len() == live_before(t, i),
        live_before(t, i) <= held_entries(t).len(),
        held_entries(t).len() == live_before(t, t.len() as int),
        forall|j: int| 0 <= j < live_before(t, i) ==> held_entries(t.take(i))[j] == held_entries(t)[j],
    decreases t.len() - i,
{
    lemma_held_take(t, i);
    if i < t.len() {
        lemma_live_before(t, i + 1);
        lemma_held_take(t, i + 1);
        assert(t.take(i + 1).drop_last() =~= t.take(i));
        assert(t.take(i + 1).last() == t[i]);
    } else {
        assert(t.take(i) =~= t);
    }
}

/// The number of candidates that wait in the first `i` slots is the
/// number of candidates of those slots.
pub proof fn lemma_held_take(t: Seq<Option<MergeView>>, i: int)
    requires
        0 <= i <= t.len(),
    ensures
        0 <= live_before(t, i) <= i,
        held_entries(t.take(i)).len() == live_before(t, i),
    decreases i,
{
    if i > 0 {
        lemma_held_take(t, i - 1);
        assert(t.take(i).drop_last() =~= t.take(i - 1));
        assert(t.take(i).last() == t[i - 1]);
    } else {
        assert(t.take(0) =~= Seq::<Option<MergeView>>::empty());
    }
}

/// A candidate that waits in slot `i` waits at the position that is the
/// number of candidates before it; pricing it anew or taking it out does
/// to the waiting candidates what it does to the slot.
pub proof fn lemma_held_at(t: Seq<Option<MergeView>>, i: int, m: MergeView)
    requires
        0 <= i < t.len(),
        t[i] is Some,
    ensures
        0 <= live_before(t, i) < held_entries(t).len(),
        held_entries(t)[live_before(t, i)] == t[i]->0,
        held_entries(t.update(i, Some(m))) == held_entries(t).update(live_before(t, i), m),
        held_entries(t.update(i, None)) == held_entries(t).remove(live_before(t, i)),
    decreases t.len(),
{
    let head = t.drop_last();
    let n = t.len() - 1;
    assert(t.last() == t[n]);
    if i == n {
        lemma_held_take(t, n);
        assert(t.take(n) =~= head);
        assert(t.update(i, Some(m)).drop_last() =~= head);
        assert(t.update(i, None).drop_last() =~= head);
        assert(held_entries(t.update(i, Some(m))) =~= held_entries(t).update(live_before(t, i), m));
        assert(held_entries(t.update(i, None)) =~= held_entries(t).remove(live_before(t, i)));
    } else {
        lemma_held_at(head, i, m);
        assert(live_before(head, i) == live_before(t, i)) by {
            lemma_live_same(head, t, i);
        }
        assert(t.update(i, Some(m)).drop_last() =~= head.update(i, Some(m)));
        assert(t.update(i, None).drop_last() =~= head.update(i, None));
        assert(t.update(i, Some(m)).last() == t.last());
        assert(t.update(i, None).last() == t.last());
        assert(held_entries(t.update(i, Some(m))) =~= held_entries(t).update(live_before(t, i), m));
        assert(held_entries(t.update(i, None)) =~= held_entries(t).remove(live_before(t, i)));
    }
}

/// Slots that agree up to slot `i` have as many candidates before it.
pub proof fn lemma_live_same(s: Seq<Option<MergeView>>, t: Seq<Option<MergeView>>, i: int)
    requires
        0 <= i <= s.len(),
        i <= t.len(),
        forall|j: int| 0 <= j < i ==> s[j] == t[j],
    ensures
        live_before(s, i) == live_before(t, i),
    decreases i,
{
    if i > 0 {
        lemma_live_same(s, t, i - 1);
    }
}

/// Of two slots the later has at least the candidates of the earlier
/// before it, and one more if the earlier holds one.
pub proof fn lemma_live_grows(t: Seq<Option<MergeView>>, i: int, j: int)
    requires
        0 <= i < j <= t.len(),
    ensures
        live_before(t, i) + if t[i] is Some {
            1int
        } else {
            0int
        } <= live_before(t, j),
    decreases j,
{
    if i < j - 1 {
        lemma_live_grows(t, i, j - 1);
    }
}

/// The candidate that waits at position `j` waits in some slot.
pub proof fn lemma_held_from(t: Seq<Option<MergeView>>, j: int) -> (i: int)
    requires
        0 <= j < held_entries(t).len(),
    ensures
        0 <= i < t.len(),
        t[i] is Some,
        live_before(t, i) == j,
        held_entries(t)[j] == t[i]->0,
    decreases t.len(),
{
    let head = t.drop_last();
    let n = t.len() - 1;
    assert(t.last() == t[n]);
    if j < held_entries(head).len() {
        let i = lemma_held_from(head, j);
        lemma_live_same(head, t, i);
        assert(head[i] == t[i]);
        i
    } else {
        lemma_held_take(t, n);
        assert(t.take(n) =~= head);
        n
    }
}

/// The queue of candidates.
pub struct MergeQueue {
    slots: Vec<Option<Merge>>,
    heap: KeyHeap,
    live: usize,
}

impl View for MergeQueue {
    type V = Seq<MergeView>;

    /// The candidates that wait, in the order in which they came.
    closed spec fn view(&self) -> Seq<MergeView> {
        held_entries(slot_views(self.slots@))
    }
}

impl MergeQueue {
    /// The heap holds the key of every candidate that waits, and no key
    /// that speaks of another pair than its slot holds.
    pub closed spec fn wf(&self) -> bool {
        &&& self.heap.wf()
        &&& self.live == self@.len()
        &&& forall|i: int|
            0 <= i < self.slots@.len() && (#[trigger] self.slots@[i]) is Some ==> self.heap.holds(
                key_for(self.slots@[i]->0@, i),
            )
        &&& forall|k: Key| #[trigger]
            self.heap.holds(k) ==> k.slot < self.slots@.len() && (self.slots@[k.slot as int] is Some
                ==> k.pair == pair_key(self.slots@[k.slot as int]->0.pair))
    }

    /// Slot `slot` holds a candidate that waits.
    pub closed spec fn waits(&self, slot: usize) -> bool {
        slot < self.slots@.len() && self.slots@[slot as int] is Some
    }

    /// The position among the waiting candidates of the candidate in slot
    /// `slot`.
    pub closed spec fn position(&self, slot: usize) -> int {
        live_before(slot_views(self.slots@), slot as int)
    }

    /// A candidate that waits in a slot is the waiting candidate at the
    /// position of the slot.
    pub proof fn lemma_position(&self, slot: usize)
        requires
            self.waits(slot),
        ensures
            0 <= self.position(slot) < self@.len(),
    {
        let t = slot_views(self.slots@);
        lemma_held_at(t, slot as int, t[slot as int]->0);
    }

    /// A queue in which no candidate waits.
    pub fn new() -> (q: MergeQueue)
        ensures
            q.wf(),
            q@ == Seq::<MergeView>::empty(),
    {
        let q = MergeQueue { slots: Vec::new(), heap: KeyHeap::new(), live: 0 };
        assert(slot_views(q.slots@) =~= Seq::<Option<MergeView>>::empty());
        q
    }

    /// The number of candidates that wait.
    pub fn len(&self) -> (n: usize)
        requires
            self.wf(),
        ensures
            n == self@.len(),
    {
        self.live
    }

    /// The candidate in slot `slot`.
    pub fn entry(&self, slot: usize) -> (m: &Merge)
        requires
            self.waits(slot),
        ensures
            m@ == self@[self.position(slot)],
    {
        proof {
            let t = slot_views(self.slots@);
            lemma_held_at(t, slot as int, t[slot as int]->0);
        }
        self.slots[slot].as_ref().unwrap()
    }

    /// The pairs and the prices of the candidates that wait, in the order
    /// in which the candidates came.
    pub fn waiting(&self) -> (out: Vec<(Pair, i64)>)
        ensures
            out@.len() == self@.len(),
            forall|j: int|
                0 <= j < out@.len() ==> (#[trigger] out@[j]) == (self@[j].pair, self@[j].count as i64),
    {
        let ghost t = slot_views(self.slots@);
        let mut out: Vec<(Pair, i64)> = Vec::new();
        let mut i: usize = 0;
        proof {
            lemma_live_before(t, 0);
        }
        while i < self.slots.len()
            invariant
                i <= self.slots.len(),
                t == slot_views(self.slots@),
                out@.len() == live_before(t, i as int),
                forall|j: int|
                    0 <= j < out@.len() ==> (#[trigger] out@[j]) == (
                        held_entries(t)[j].pair,
                        held_entries(t)[j].count as i64,
                    ),
            decreases self.slots.len() - i,
        {
            proof {
                lemma_live_before(t, i as int);
                lemma_live_before(t, i + 1);
            }
            match &self.slots[i] {
                Some(m) => {
                    proof {
                        lemma_held_at(t, i as int, t[i as int]->0);
                    }
                    out.push((m.pair, m.count));
                },
                None => {},
            }
            i += 1;
        }
        proof {
            lemma_live_before(t, t.len() as int);
        }
        out
    }

    /// Lets candidate `m` wait behind the others.
    pub fn push(&mut self, m: Merge)
        requires
            old(self).wf(),
        ensures
            final(self).wf(),
            final(self)@ == old(self)@.push(m@),
    {
        let ghost t0 = slot_views(self.slots@);
        let ghost before = *self;
        let slot = self.slots.len();
        let key = Key { count: m.count, pair: key_of(m.pair), slot };
        let ghost mv = m@;
        self.slots.push(Some(m));
        self.heap.push(key);
        let filled = self.slots.len();
        proof {
            let t1 = slot_views(self.slots@);
            assert(filled == slot + 1);
            assert(t1 =~= t0.push(Some(mv)));
            assert(t1.drop_last() =~= t0);
            lemma_live_before(t0, t0.len() as int);
            assert forall|i: int|
                0 <= i < self.slots@.len() && (#[trigger] self.slots@[i]) is Some implies self.heap.holds(
                key_for(self.slots@[i]->0@, i),
            ) by {
                if i < slot {
                    assert(before.slots@[i] is Some);
                }
            }
            assert forall|k: Key| #[trigger] self.heap.holds(k) implies k.slot < self.slots@.len() && (
            self.slots@[k.slot as int] is Some ==> k.pair == pair_key(
                self.slots@[k.slot as int]->0.pair,
            )) by {
                if k != key {
                    assert(before.heap.holds(k));
                }
            }
        }
        self.live = self.live + 1;
    }

    /// Lets the candidates `fresh` wait behind the others, in their order.
    pub fn extend(&mut self, fresh: Vec<Merge>)
        requires
            old(self).wf(),
        ensures
            final(self).wf(),
            final(self)@ == old(self)@ + merge_views(fresh@),
    {
        let ghost q0 = self@;
        let ghost all = merge_views(fresh@);
        let mut fresh = fresh;
        let n = fresh.len();
        let mut rest: Vec<Merge> = Vec::new();
        // The candidates are taken from the end, so they are turned round first.
        while fresh.len() > 0
            invariant
                fresh@.len() + rest@.len() == n,
                n == all.len(),
                forall|j: int| 0 <= j < fresh@.len() ==> (#[trigger] fresh@[j])@ == all[j],
                forall|j: int| 0 <= j < rest@.len() ==> (#[trigger] rest@[j])@ == all[n - 1 - j],
            decreases fresh.len(),
        {
            let m = fresh.pop().unwrap();
            rest.push(m);
        }
        let mut k: usize = 0;
        assert(q0 + all.take(0) =~= q0);
        while rest.len() > 0
            invariant
                k + rest@.len() == n,
                n == all.len(),
                forall|j: int| 0 <= j < rest@.len() ==> (#[trigger] rest@[j])@ == all[n - 1 - j],
                self.wf(),
                self@ == q0 + all.take(k as int),
            decreases rest.len(),
        {
            let m = rest.pop().unwrap();
            assert(m@ == all[k as int]);
            self.push(m);
            assert((q0 + all.take(k as int)).push(all[k as int]) =~= q0 + all.take(k + 1));
            k += 1;
        }
        assert(all.take(n as int) =~= all);
    }

    /// The slot of the candidate to take, if one waits. The keys that
    /// have come to nothing are dropped on the way.
    pub fn top(&mut self) -> (slot: Option<usize>)
        requires
            old(self).wf(),
        ensures
            final(self).wf(),
            final(self)@ == old(self)@,
            match slot {
                Some(i) => final(self).waits(i) && final(self).position(i) == top_of(final(self)@)
                    && is_top(final(self)@, final(self).position(i)),
                None => final(self)@.len() == 0,
            },
    {
        let ghost t = slot_views(self.slots@);
        let mut found: Option<usize> = None;
        loop
            invariant
                self.wf(),
                self.slots@ == old(self).slots@,
                t == slot_views(self.slots@),
            ensures
                self.wf(),
                self.slots@ == old(self).slots@,
                t == slot_views(self.slots@),
                match found {
                    Some(i) => self.waits(i) && self.position(i) == top_of(self@) && is_top(
                        self@,
                        self.position(i),
                    ),
                    None => self@.len() == 0,
                },
            decreases self.heap.size(),
        {
            let ghost here = *self;
            match self.heap.peek() {
                None => {
                    proof {
                        if self@.len() > 0 {
                            let i = lemma_held_from(t, 0);
                            assert(self.slots@[i] is Some);
                        }
                    }
                    found = None;
                    break ;
                },
                Some(k) => {
                    let i = k.slot;
                    let valid = match &self.slots[i] {
                        Some(m) => m.count == k.count,
                        None => false,
                    };
                    if valid {
                        proof {
                            let at = live_before(t, i as int);
                            lemma_held_at(t, i as int, t[i as int]->0);
                            let q = self@;
                            assert(k == key_for(t[i as int]->0, i as int));
                            assert forall|j: int| 0 <= j < at implies outranks(q[at], #[trigger] q[j]) by {
                                let i2 = lemma_held_from(t, j);
                                if i2 >= i {
                                    if i2 > i {
                                        lemma_live_grows(t, i as int, i2);
                                    }
                                }
                                assert(self.slots@[i2] is Some);
                                let k2 = key_for(t[i2]->0, i2);
                                assert(self.heap.holds(k2));
                                assert(!key_before(k2, k));
                                lemma_pair_key_injective(q[at].pair, q[j].pair);
                                lemma_pair_key_injective(q[j].pair, q[at].pair);
                            }
                            assert forall|j: int| at < j < q.len() implies !outranks(#[trigger] q[j], q[at]) by {
                                let i2 = lemma_held_from(t, j);
                                if i2 <= i {
                                    if i2 < i {
                                        lemma_live_grows(t, i2, i as int);
                                    }
                                }
                                assert(self.slots@[i2] is Some);
                                let k2 = key_for(t[i2]->0, i2);
                                assert(self.heap.holds(k2));
                                assert(!key_before(k2, k));
                                lemma_pair_key_injective(q[at].pair, q[j].pair);
                                lemma_pair_key_injective(q[j].pair, q[at].pair);
                            }
                            lemma_top_unique(q, at);
                        }
                        found = Some(i);
                        break ;
                    }
                    let dropped = self.heap.pop();
                    proof {
                        let d = dropped->0;
                        assert(!key_before(d, k) && !key_before(k, d));
                        assert(d == k);
                        assert forall|j: int|
                            0 <= j < self.slots@.len() && (#[trigger] self.slots@[j]) is Some implies self.heap.holds(
                            key_for(self.slots@[j]->0@, j),
                        ) by {
                            let kj = key_for(self.slots@[j]->0@, j);
                            assert(here.slots@[j] is Some);
                            assert(here.heap.holds(kj));
                            if j == i {
                                assert(kj.count != k.count);
                            } else {
                                assert(self.slots@.len() == self.slots.len());
                                assert(kj.slot == j);
                            }
                        }
                        assert forall|x: Key| #[trigger] self.heap.holds(x) implies x.slot
                            < self.slots@.len() && (self.slots@[x.slot as int] is Some ==> x.pair
                            == pair_key(self.slots@[x.slot as int]->0.pair)) by {
                            assert(here.heap.holds(x));
                        }
                    }
                },
            }
        }
        found
    }

    /// Prices the candidate in slot `slot` anew.
    pub fn reprice(&mut self, slot: usize, count: i64)
        requires
            old(self).wf(),
            old(self).waits(slot),
        ensures
            final(self).wf(),
            final(self)@ == old(self)@.update(
                old(self).position(slot),
                MergeView { count: count as int, ..old(self)@[old(self).position(slot)] },
            ),
    {
        let ghost t0 = slot_views(self.slots@);
        let ghost before = *self;
        let pair = self.slots[slot].as_ref().unwrap().pair;
        let key = Key { count, pair: key_of(pair), slot };
        let mut tmp: Option<Merge> = None;
        core::mem::swap(&mut tmp, &mut self.slots[slot]);
        let mut m = tmp.unwrap();
        m.count = count;
        let ghost mv = m@;
        self.slots[slot] = Some(m);
        self.heap.push(key);
        proof {
            let t1 = slot_views(self.slots@);
            assert(t1 =~= t0.update(slot as int, Some(mv)));
            lemma_held_at(t0, slot as int, mv);
            assert forall|i: int|
                0 <= i < self.slots@.len() && (#[trigger] self.slots@[i]) is Some implies self.heap.holds(
                key_for(self.slots@[i]->0@, i),
            ) by {
                if i != slot {
                    assert(before.slots@[i] is Some);
                    assert(self.slots@[i] == before.slots@[i]);
                }
            }
            assert forall|k: Key| #[trigger] self.heap.holds(k) implies k.slot < self.slots@.len() && (
            self.slots@[k.slot as int] is Some ==> k.pair == pair_key(
                self.slots@[k.slot as int]->0.pair,
            )) by {
                if k != key {
                    assert(before.heap.holds(k));
                    if k.slot != slot {
                        assert(self.slots@[k.slot as int] == before.slots@[k.slot as int]);
                    }
                }
            }
        }
    }

    /// Takes the candidate in slot `slot` out of the queue.
    pub fn take(&mut self, slot: usize) -> (m: Merge)
        requires
            old(self).wf(),
            old(self).waits(slot),
        ensures
            final(self).wf(),
            m@ == old(self)@[old(self).position(slot)],
            final(self)@ == old(self)@.remove(old(self).position(slot)),
    {
        let ghost t0 = slot_views(self.slots@);
        let ghost before = *self;
        let mut tmp: Option<Merge> = None;
        core::mem::swap(&mut tmp, &mut self.slots[slot]);
        proof {
            let t1 = slot_views(self.slots@);
            assert(t1 =~= t0.update(slot as int, None));
            lemma_held_at(t0, slot as int, t0[slot as int]->0);
            assert forall|i: int|
                0 <= i < self.slots@.len() && (#[trigger] self.slots@[i]) is Some implies self.heap.holds(
                key_for(self.slots@[i]->0@, i),
            ) by {
                assert(before.slots@[i] is Some);
                assert(self.slots@[i] == before.slots@[i]);
            }
            assert forall|k: Key| #[trigger] self.heap.holds(k) implies k.slot < self.slots@.len() && (
            self.slots@[k.slot as int] is Some ==> k.pair == pair_key(
                self.slots@[k.slot as int]->0.pair,
            )) by {
                if k.slot != slot {
                    assert(self.slots@[k.slot as int] == before.slots@[k.slot as int]);
                }
            }
        }
        self.live = self.live - 1;
        tmp.unwrap()
    }
}

} // verus!
