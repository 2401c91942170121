//! A binary heap of keys, of which the one to take first is at hand.

use vstd::prelude::*;

verus! {

/// What a candidate is ranked by: its price, the number of its pair, and
/// the number of the slot in which it waits.
#[derive(Clone, Copy, Debug, PartialEq, Eq, Structural)]
pub struct Key {
    pub count: i64,
    pub pair: u64,
    pub slot: usize,
}

/// Key `a` is taken before key `b`: it has the higher count, or the same
/// count and the smaller pair, or the same count and pair and the lower slot.
pub open spec fn key_before(a: Key, b: Key) -> bool {
    a.count > b.count || (a.count == b.count && (a.pair < b.pair || (a.pair == b.pair && a.slot
        < b.slot)))
}

/// Whether key `a` is taken before key `b`.
pub fn before(a: Key, b: Key) -> (r: bool)
    ensures
        r == key_before(a, b),
{
    a.count > b.count || (a.count == b.count && (a.pair < b.pair || (a.pair == b.pair && a.slot
        < b.slot)))
}

/// The position above position `j` of a heap.
pub open spec fn parent(j: int) -> int {
    (j - 1) / 2
}

/// No key of `s` is taken before the key above it, but for the keys
/// directly below position `hole`.
pub open spec fn ordered_below(s: Seq<Key>, hole: int) -> bool {
    forall|j: int| 0 < j < s.len() && parent(j) != hole ==> !key_before(#[trigger] s[j], s[parent(j)])
}

/// No key of `s` is taken before the key above it, but for the key at
/// position `hole`.
pub open spec fn ordered_above(s: Seq<Key>, hole: int) -> bool {
    forall|j: int| 0 < j < s.len() && j != hole ==> !key_before(#[trigger] s[j], s[parent(j)])
}

/// No key directly below position `hole` is taken before the key above `hole`.
pub open spec fn grandchildren_wait(s: Seq<Key>, hole: int) -> bool {
    forall|j: int|
        0 < j < s.len() && parent(j) == hole && hole > 0 ==> !key_before(
            #[trigger] s[j],
            s[parent(hole)],
        )
}

/// In a heap no key is taken before the first.
pub proof fn lemma_first_is_top(s: Seq<Key>, i: int)
    requires
        ordered_above(s, 0),
        0 <= i < s.len(),
    ensures
        !key_before(s[i], s[0]),
    decreases i,
{
    if i > 0 {
        lemma_first_is_top(s, parent(i));
        assert(!key_before(s[i], s[parent(i)]));
    }
}

/// A heap of keys.
pub struct KeyHeap {
    keys: Vec<Key>,
}

impl KeyHeap {
    /// No key is taken before the key above it.
    pub closed spec fn wf(&self) -> bool {
        ordered_above(self.keys@, 0)
    }

    /// The heap holds key `k`.
    pub closed spec fn holds(&self, k: Key) -> bool {
        self.keys@.contains(k)
    }

    /// The number of keys in the heap.
    pub closed spec fn size(&self) -> nat {
        self.keys@.len()
    }

    /// A heap without keys.
    pub fn new() -> (h: KeyHeap)
        ensures
            h.wf(),
            h.size() == 0,
            forall|k: Key| !h.holds(k),
    {
        KeyHeap { keys: Vec::new() }
    }

    /// The key to take first, if the heap holds one.
    pub fn peek(&self) -> (top: Option<Key>)
        requires
            self.wf(),
        ensures
            match top {
                Some(k) => self.size() > 0 && self.holds(k) && forall|x: Key|
                    self.holds(x) ==> !key_before(x, k),
                None => self.size() == 0 && forall|x: Key| !self.holds(x),
            },
    {
        if self.keys.len() == 0 {
            None
        } else {
            let k = self.keys[0];
            proof {
                assert(self.keys@[0] == k);
                assert forall|x: Key| self.holds(x) implies !key_before(x, k) by {
                    let i = choose|i: int| 0 <= i < self.keys@.len() && self.keys@[i] == x;
                    lemma_first_is_top(self.keys@, i);
                }
            }
            Some(k)
        }
    }

    /// Puts key `k` into the heap.
    pub fn push(&mut self, k: Key)
        requires
            old(self).wf(),
        ensures
            final(self).wf(),
            final(self).size() == old(self).size() + 1,
            forall|x: Key| final(self).holds(x) <==> old(self).holds(x) || x == k,
    {
        let ghost before_keys = self.keys@;
        self.keys.push(k);
        let ghost pushed = self.keys@;
        assert forall|x: Key| pushed.contains(x) <==> before_keys.contains(x) || x == k by {
            if pushed.contains(x) {
                let i = choose|i: int| 0 <= i < pushed.len() && pushed[i] == x;
                if i < before_keys.len() {
                    assert(before_keys[i] == x);
                }
            }
            if before_keys.contains(x) {
                let i = choose|i: int| 0 <= i < before_keys.len() && before_keys[i] == x;
                assert(pushed[i] == x);
            }
            if x == k {
                assert(pushed[pushed.len() - 1] == x);
            }
        }
        let mut i: usize = self.keys.len() - 1;
        while i > 0 && before(self.keys[i], self.keys[(i - 1) / 2])
            invariant
                i < self.keys@.len(),
                self.keys@.len() == pushed.len(),
                ordered_above(self.keys@, i as int),
                grandchildren_wait(self.keys@, i as int),
                forall|x: Key| self.keys@.contains(x) <==> pushed.contains(x),
            decreases i,
        {
            let p = (i - 1) / 2;
            let ghost s = self.keys@;
            let a = self.keys[i];
            let b = self.keys[p];
            self.keys[i] = b;
            self.keys[p] = a;
            proof {
                let t = self.keys@;
                assert forall|x: Key| t.contains(x) <==> s.contains(x) by {
                    if t.contains(x) {
                        let j = choose|j: int| 0 <= j < t.len() && t[j] == x;
                        if j == i {
                            assert(s[p as int] == x);
                        } else if j == p {
                            assert(s[i as int] == x);
                        } else {
                            assert(s[j] == x);
                        }
                    }
                    if s.contains(x) {
                        let j = choose|j: int| 0 <= j < s.len() && s[j] == x;
                        if j == i {
                            assert(t[p as int] == x);
                        } else if j == p {
                            assert(t[i as int] == x);
                        } else {
                            assert(t[j] == x);
                        }
                    }
                }
                assert forall|j: int| 0 < j < t.len() && j != p implies !key_before(
                    #[trigger] t[j],
                    t[parent(j)],
                ) by {
                    if j == i {
                        // The key that went down waits behind the one that went up.
                    } else if parent(j) == i {
                        assert(!key_before(s[j], s[parent(i as int)]));
                    } else if parent(j) == p {
                        assert(!key_before(s[j], s[p as int]));
                    } else {
                        assert(!key_before(s[j], s[parent(j)]));
                    }
                }
                assert forall|j: int| 0 < j < t.len() && parent(j) == p && p > 0 implies !key_before(
                    #[trigger] t[j],
                    t[parent(p as int)],
                ) by {
                    assert(!key_before(s[p as int], s[parent(p as int)]));
                    if j != i {
                        assert(!key_before(s[j], s[p as int]));
                    }
                }
            }
            i = p;
        }
        proof {
            let t = self.keys@;
            assert forall|j: int| 0 < j < t.len() implies !key_before(#[trigger] t[j], t[parent(j)]) by {
                if j == i {
                }
            }
        }
    }

    /// Takes the key to take first out of the heap, if it holds one.
    pub fn pop(&mut self) -> (top: Option<Key>)
        requires
            old(self).wf(),
        ensures
            final(self).wf(),
            match top {
                Some(k) => old(self).holds(k) && final(self).size() + 1 == old(self).size()
                    && (forall|x: Key| old(self).holds(x) ==> !key_before(x, k)) && (forall|x: Key|
                    final(self).holds(x) ==> old(self).holds(x)) && (forall|x: Key|
                    old(self).holds(x) && x != k ==> final(self).holds(x)),
                None => old(self).size() == 0 && final(self).size() == 0,
            },
    {
        let ghost s0 = self.keys@;
        if self.keys.len() == 0 {
            return None;
        }
        let top = self.keys[0];
        proof {
            assert(s0[0] == top);
            assert forall|x: Key| s0.contains(x) implies !key_before(x, top) by {
                let i = choose|i: int| 0 <= i < s0.len() && s0[i] == x;
                lemma_first_is_top(s0, i);
            }
        }
        let last = self.keys.pop().unwrap();
        let n = self.keys.len();
        if n == 0 {
            assert(s0.len() == 1);
            assert forall|x: Key| s0.contains(x) && x != top implies self.keys@.contains(x) by {
                let j = choose|j: int| 0 <= j < s0.len() && s0[j] == x;
            }
            return Some(top);
        }
        self.keys[0] = last;
        let ghost s1 = self.keys@;
        proof {
            assert forall|x: Key| s1.contains(x) implies s0.contains(x) by {
                let j = choose|j: int| 0 <= j < s1.len() && s1[j] == x;
                if j == 0 {
                    assert(s0[s0.len() - 1] == x);
                } else {
                    assert(s0[j] == x);
                }
            }
            assert forall|x: Key| s0.contains(x) && x != top implies s1.contains(x) by {
                let j = choose|j: int| 0 <= j < s0.len() && s0[j] == x;
                if j == s0.len() - 1 {
                    assert(s1[0] == x);
                } else {
                    assert(s1[j] == x);
                }
            }
            assert forall|j: int| 0 < j < s1.len() && parent(j) != 0 implies !key_before(
                #[trigger] s1[j],
                s1[parent(j)],
            ) by {
                assert(!key_before(s0[j], s0[parent(j)]));
            }
        }
        let mut i: usize = 0;
        loop
            invariant
                n == self.keys@.len(),
                n == s1.len(),
                i < n,
                ordered_below(self.keys@, i as int),
                grandchildren_wait(self.keys@, i as int),
                forall|x: Key| self.keys@.contains(x) <==> s1.contains(x),
            ensures
                n == self.keys@.len(),
                ordered_above(self.keys@, 0),
                forall|x: Key| self.keys@.contains(x) <==> s1.contains(x),
            decreases n - i,
        {
            let ghost s = self.keys@;
            if n < 2 || i > (n - 2) / 2 {
                proof {
                    assert forall|j: int| 0 < j < s.len() implies !key_before(
                        #[trigger] s[j],
                        s[parent(j)],
                    ) by {
                        assert(parent(j) != i);
                    }
                }
                break ;
            }
            let l = 2 * i + 1;
            let c = if l + 1 < n && before(self.keys[l + 1], self.keys[l]) {
                l + 1
            } else {
                l
            };
            if !before(self.keys[c], self.keys[i]) {
                proof {
                    assert forall|j: int| 0 < j < s.len() implies !key_before(
                        #[trigger] s[j],
                        s[parent(j)],
                    ) by {
                        if parent(j) == i {
                            assert(j == l || j == l + 1);
                        }
                    }
                }
                break ;
            }
            let a = self.keys[i];
            let b = self.keys[c];
            self.keys[i] = b;
            self.keys[c] = a;
            proof {
                let t = self.keys@;
                assert forall|x: Key| t.contains(x) <==> s.contains(x) by {
                    if t.contains(x) {
                        let j = choose|j: int| 0 <= j < t.len() && t[j] == x;
                        if j == i {
                            assert(s[c as int] == x);
                        } else if j == c {
                            assert(s[i as int] == x);
                        } else {
                            assert(s[j] == x);
                        }
                    }
                    if s.contains(x) {
                        let j = choose|j: int| 0 <= j < s.len() && s[j] == x;
                        if j == i {
                            assert(t[c as int] == x);
                        } else if j == c {
                            assert(t[i as int] == x);
                        } else {
                            assert(t[j] == x);
                        }
                    }
                }
                assert forall|j: int| 0 < j < t.len() && parent(j) != c implies !key_before(
                    #[trigger] t[j],
                    t[parent(j)],
                ) by {
                    if j == i {
                        assert(!key_before(s[c as int], s[parent(i as int)]));
                    } else if parent(j) == i {
                        assert(j == l || j == l + 1);
                    } else {
                        assert(!key_before(s[j], s[parent(j)]));
                    }
                }
                assert forall|j: int| 0 < j < t.len() && parent(j) == c && c > 0 implies !key_before(
                    #[trigger] t[j],
                    t[parent(c as int)],
                ) by {
                    assert(!key_before(s[j], s[c as int]));
                }
            }
            i = c;
        }
        Some(top)
    }
}

} // verus!
