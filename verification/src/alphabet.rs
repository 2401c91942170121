//! The first symbols of a vocabulary: the characters of the training words.

use crate::encoding::{
    corpus_words, lemma_raw_weight_mono, raw_weight, raw_weight_upto,
};
use crate::text::chars_of;
use crate::trainer::{BpeTrainer, TrainError};
use crate::vocab::{grown_from, interned, lemma_interned, Vocab, MAX_TOKENS};
use vstd::prelude::*;

verus! {

/// The number of code points, each of which has a slot in the tally.
pub const CODES: usize = 0x11_0000;

/// Every character has a code point, which has a slot in the tally.
pub proof fn lemma_char_code(c: char)
    ensures
        0 <= (c as int),
        (c as int) < CODES,
{
}

/// The code point of `c`, which has a slot in the tally.
pub fn code_of(c: char) -> (k: usize)
    ensures
        k == c as int,
        k < CODES,
{
    c as u32 as usize
}

/// The number of times `c` stands among the first `m` characters of `word`.
pub open spec fn occurs_upto(word: Seq<char>, c: char, m: int) -> int
    decreases m,
{
    if m <= 0 {
        0
    } else {
        occurs_upto(word, c, m - 1) + if word[m - 1] == c {
            1int
        } else {
            0int
        }
    }
}

/// The number of times `c` stands in the first `n` words, each word taken
/// as often as it occurs.
pub open spec fn char_weight_upto(wc: Seq<(Seq<char>, u64)>, c: char, n: int) -> int
    decreases n,
{
    if n <= 0 {
        0
    } else {
        char_weight_upto(wc, c, n - 1) + wc[n - 1].1 * occurs_upto(
            wc[n - 1].0,
            c,
            wc[n - 1].0.len() as int,
        )
    }
}

/// `c` stands in one of the first `i` words, or among the first `j`
/// characters of word `i`.
pub open spec fn seen_before(wc: Seq<(Seq<char>, u64)>, c: char, i: int, j: int) -> bool {
    exists|a: int, b: int|
        0 <= a < wc.len() && 0 <= b < wc[a].0.len() && (a < i || (a == i && b < j))
            && #[trigger] wc[a].0[b] == c
}

/// `c` stands in one of the words.
pub open spec fn seen(wc: Seq<(Seq<char>, u64)>, c: char) -> bool {
    seen_before(wc, c, wc.len() as int, 0)
}

/// `c` belongs to the alphabet of the corpus: it stands in a word, or it is
/// one of the characters to include in any case.
pub open spec fn in_alphabet(wc: Seq<(Seq<char>, u64)>, initial: Seq<char>, c: char) -> bool {
    seen(wc, c) || initial.contains(c)
}

/// The weight by which `c` is kept or dropped: the number of times it
/// stands in the words, or the greatest weight if it is to be included in
/// any case.
pub open spec fn alphabet_weight(wc: Seq<(Seq<char>, u64)>, initial: Seq<char>, c: char) -> int {
    if initial.contains(c) {
        u64::MAX as int
    } else {
        char_weight_upto(wc, c, wc.len() as int)
    }
}

/// `c` is dropped before `d`: it weighs less, or the same and comes first.
pub open spec fn dropped_before(
    wc: Seq<(Seq<char>, u64)>,
    initial: Seq<char>,
    c: char,
    d: char,
) -> bool {
    alphabet_weight(wc, initial, c) < alphabet_weight(wc, initial, d) || (alphabet_weight(
        wc,
        initial,
        c,
    ) == alphabet_weight(wc, initial, d) && (c as int) < (d as int))
}

/// `kept` is the alphabet that training starts from: characters of the
/// alphabet of the corpus in ascending order, all of them if there is no
/// limit or the limit is not reached, and otherwise as many as the limit
/// allows, none of which is dropped before one that was left out.
pub open spec fn is_alphabet(
    wc: Seq<(Seq<char>, u64)>,
    initial: Seq<char>,
    limit: Option<usize>,
    kept: Seq<char>,
) -> bool {
    &&& forall|i: int, j: int| 0 <= i < j < kept.len() ==> (kept[i] as int) < (kept[j] as int)
    &&& forall|c: char| kept.contains(c) ==> in_alphabet(wc, initial, c)
    &&& limit is None ==> forall|c: char| in_alphabet(wc, initial, c) ==> kept.contains(c)
    &&& limit matches Some(l) ==> kept.len() <= l && forall|c: char|
        in_alphabet(wc, initial, c) && !kept.contains(c) ==> kept.len() == l
    &&& forall|c: char, d: char|
        in_alphabet(wc, initial, c) && !kept.contains(c) && #[trigger] kept.contains(d)
            ==> #[trigger] dropped_before(wc, initial, c, d)
}

/// The alphabet that training starts from.
pub open spec fn kept_alphabet(wc: Seq<(Seq<char>, u64)>, initial: Seq<char>, limit: Option<usize>) -> Seq<
    char,
> {
    choose|kept: Seq<char>| is_alphabet(wc, initial, limit, kept)
}

/// Characters in ascending order that are the same characters are the
/// same sequence.
pub proof fn lemma_ascending_same(x: Seq<char>, y: Seq<char>)
    requires
        forall|i: int, j: int| 0 <= i < j < x.len() ==> (x[i] as int) < (x[j] as int),
        forall|i: int, j: int| 0 <= i < j < y.len() ==> (y[i] as int) < (y[j] as int),
        forall|c: char| x.contains(c) <==> y.contains(c),
    ensures
        x == y,
    decreases x.len(),
{
    if x.len() == 0 {
        if y.len() > 0 {
            assert(y.contains(y[0]));
        }
        assert(x =~= y);
    } else {
        let a = x.last();
        assert(x.contains(a)) by {
            assert(x[x.len() - 1] == a);
        }
        assert(y.contains(a));
        let b = y.last();
        assert(y.contains(b)) by {
            assert(y[y.len() - 1] == b);
        }
        assert(x.contains(b));
        let ia = choose|i: int| 0 <= i < y.len() && y[i] == a;
        let ib = choose|i: int| 0 <= i < x.len() && x[i] == b;
        assert((a as int) <= (b as int)) by {
            if ia < y.len() - 1 {
                assert((y[ia] as int) < (y[y.len() - 1] as int));
            }
        }
        assert((b as int) <= (a as int)) by {
            if ib < x.len() - 1 {
                assert((x[ib] as int) < (x[x.len() - 1] as int));
            }
        }
        lemma_same_code(a, b);
        let xs = x.drop_last();
        let ys = y.drop_last();
        assert forall|c: char| xs.contains(c) <==> ys.contains(c) by {
            if xs.contains(c) {
                let i = choose|i: int| 0 <= i < xs.len() && xs[i] == c;
                assert(x[i] == c);
                assert((x[i] as int) < (x[x.len() - 1] as int));
                assert(x.contains(c));
                let j = choose|j: int| 0 <= j < y.len() && y[j] == c;
                assert(j < y.len() - 1);
                assert(ys[j] == c);
            }
            if ys.contains(c) {
                let i = choose|i: int| 0 <= i < ys.len() && ys[i] == c;
                assert(y[i] == c);
                assert((y[i] as int) < (y[y.len() - 1] as int));
                assert(y.contains(c));
                let j = choose|j: int| 0 <= j < x.len() && x[j] == c;
                assert(j < x.len() - 1);
                assert(xs[j] == c);
            }
        }
        lemma_ascending_same(xs, ys);
        assert(x =~= xs.push(a));
        assert(y =~= ys.push(b));
    }
}

/// Characters with the same code point are the same character.
pub proof fn lemma_same_code(a: char, b: char)
    requires
        a as int == b as int,
    ensures
        a == b,
{
}

/// Of two alphabets for the same corpus, every character of the one is a
/// character of the other.
pub proof fn lemma_alphabet_within(
    wc: Seq<(Seq<char>, u64)>,
    initial: Seq<char>,
    limit: Option<usize>,
    x: Seq<char>,
    y: Seq<char>,
    c: char,
)
    requires
        is_alphabet(wc, initial, limit, x),
        is_alphabet(wc, initial, limit, y),
        x.contains(c),
    ensures
        y.contains(c),
{
    if !y.contains(c) {
        // `y` is full, so it has a character that `x` lacks, and each of the
        // two would have to be dropped before the other.
        let l = limit->0;
        assert(y.len() == l && x.len() <= l);
        lemma_ascending_distinct(x);
        lemma_ascending_distinct(y);
        x.unique_seq_to_set();
        y.unique_seq_to_set();
        let sx = x.to_set();
        let sy = y.to_set();
        vstd::seq_lib::seq_to_set_is_finite(x);
        vstd::seq_lib::seq_to_set_is_finite(y);
        assert(sx.contains(c));
        if sy.subset_of(sx.remove(c)) {
            vstd::set_lib::lemma_len_subset(sy, sx.remove(c));
            assert(false);
        }
        let d = choose|d: char| sy.contains(d) && !sx.remove(c).contains(d);
        assert(y.contains(d));
        assert(d != c);
        assert(!x.contains(d));
        assert(dropped_before(wc, initial, c, d));
        assert(dropped_before(wc, initial, d, c));
    }
}

/// Characters in ascending order are all different.
pub proof fn lemma_ascending_distinct(x: Seq<char>)
    requires
        forall|i: int, j: int| 0 <= i < j < x.len() ==> (x[i] as int) < (x[j] as int),
    ensures
        x.no_duplicates(),
{
    assert forall|i: int, j: int| 0 <= i < x.len() && 0 <= j < x.len() && i != j implies x[i] != x[j] by {
        if i < j {
            assert((x[i] as int) < (x[j] as int));
        } else {
            assert((x[j] as int) < (x[i] as int));
        }
    }
}

/// There is one alphabet for a corpus, and no other.
pub proof fn lemma_alphabet_unique(
    wc: Seq<(Seq<char>, u64)>,
    initial: Seq<char>,
    limit: Option<usize>,
    kept: Seq<char>,
)
    requires
        is_alphabet(wc, initial, limit, kept),
    ensures
        kept == kept_alphabet(wc, initial, limit),
{
    let other = kept_alphabet(wc, initial, limit);
    assert(is_alphabet(wc, initial, limit, other));
    assert forall|c: char| kept.contains(c) <==> other.contains(c) by {
        if kept.contains(c) {
            lemma_alphabet_within(wc, initial, limit, kept, other, c);
        }
        if other.contains(c) {
            lemma_alphabet_within(wc, initial, limit, other, kept, c);
        }
    }
    lemma_ascending_same(kept, other);
}

/// The vocabulary after the first `n` characters of `kept` got ids as
/// symbols of one character, or `None` if one needed an id when none was
/// left. A character that is a symbol already keeps its id.
pub open spec fn with_chars_upto(vocab: Seq<Seq<char>>, kept: Seq<char>, n: int) -> Option<
    Seq<Seq<char>>,
>
    decreases n,
{
    if n <= 0 {
        Some(vocab)
    } else {
        match with_chars_upto(vocab, kept, n - 1) {
            None => None,
            Some(v) => if !v.contains(seq![kept[n - 1]]) && v.len() >= MAX_TOKENS {
                None
            } else {
                Some(interned(v, seq![kept[n - 1]]).0)
            },
        }
    }
}

/// The vocabulary after the characters of `kept` got ids.
pub open spec fn with_chars(vocab: Seq<Seq<char>>, kept: Seq<char>) -> Option<Seq<Seq<char>>> {
    with_chars_upto(vocab, kept, kept.len() as int)
}

/// Once no id is left, further characters cannot help.
pub proof fn lemma_with_chars_stays_none(vocab: Seq<Seq<char>>, kept: Seq<char>, i: int, n: int)
    requires
        with_chars_upto(vocab, kept, i) is None,
        i <= n,
    ensures
        with_chars_upto(vocab, kept, n) is None,
    decreases n,
{
    if i < n {
        lemma_with_chars_stays_none(vocab, kept, i, n - 1);
    }
}

/// The number of slots among the first `m` that hold a character.
pub open spec fn kept_upto(slots: Seq<Option<char>>, m: int) -> int
    decreases m,
{
    if m <= 0 {
        0
    } else {
        kept_upto(slots, m - 1) + if slots[m - 1] is Some {
            1int
        } else {
            0int
        }
    }
}

/// Emptying a slot that holds a character leaves one character less.
pub proof fn lemma_kept_cleared(slots: Seq<Option<char>>, k: int, m: int)
    requires
        0 <= k < slots.len(),
        0 <= m <= slots.len(),
        slots[k] is Some,
    ensures
        0 <= kept_upto(slots, m) <= m,
        kept_upto(slots.update(k, None), m) == kept_upto(slots, m) - if k < m {
            1int
        } else {
            0int
        },
    decreases m,
{
    if m > 0 {
        lemma_kept_cleared(slots, k, m - 1);
    }
}

/// Entry `x` comes no later than entry `y` where entries are in ascending
/// order: first by weight, then by code point.
pub open spec fn entry_le(x: (u64, u32), y: (u64, u32)) -> bool {
    x.0 < y.0 || (x.0 == y.0 && x.1 <= y.1)
}

/// `slice::sort_unstable`, on pairs of unsigned integers: afterwards the
/// vector holds the pairs it held before, each as often as before, in
/// ascending order, where pairs are ordered by their first part and, where
/// that is equal, by their second.
#[verifier::external_body]
fn sort_entries(v: &mut Vec<(u64, u32)>)
    ensures
        final(v)@.to_multiset() == old(v)@.to_multiset(),
        forall|i: int, j: int|
            0 <= i <= j < final(v)@.len() ==> entry_le(
                #[trigger] final(v)@[i],
                #[trigger] final(v)@[j],
            ),
{
    v.sort_unstable();
}

/// The tally of a corpus: for each code point the weight of its character,
/// and the character itself if it belongs to the alphabet.
pub struct Tally {
    pub weights: Vec<u64>,
    pub slots: Vec<Option<char>>,
}

impl Tally {
    /// Every code point has its slot, and a slot holds no character but its own.
    pub open spec fn wf(&self) -> bool {
        &&& self.weights@.len() == CODES
        &&& self.slots@.len() == CODES
        &&& forall|k: int|
            0 <= k < CODES && (#[trigger] self.slots@[k]) is Some ==> self.slots@[k]->0 as int == k
    }

    /// The tally is the one of the corpus `wc` with the characters
    /// `initial` included in any case.
    pub open spec fn counts(&self, wc: Seq<(Seq<char>, u64)>, initial: Seq<char>) -> bool {
        &&& forall|c: char| (#[trigger] self.slots@[c as int]) is Some <==> in_alphabet(wc, initial, c)
        &&& forall|c: char| #[trigger] self.weights@[c as int] == alphabet_weight(wc, initial, c)
    }
}

/// Tallies the characters of the corpus.
pub fn tally(wc: &Vec<(String, u64)>, initial: &Vec<char>) -> (t: Tally)
    requires
        raw_weight(corpus_words(wc@)) <= u64::MAX,
    ensures
        t.wf(),
        t.counts(corpus_words(wc@), initial@),
{
    let ghost cw = corpus_words(wc@);
    let mut weights: Vec<u64> = vec![0u64; CODES];
    let mut slots: Vec<Option<char>> = vec![None; CODES];
    let mut i: usize = 0;
    while i < wc.len()
        invariant
            i <= wc.len(),
            cw == corpus_words(wc@),
            raw_weight(cw) <= u64::MAX,
            weights@.len() == CODES,
            slots@.len() == CODES,
            forall|k: int| 0 <= k < CODES && (#[trigger] slots@[k]) is Some ==> slots@[k]->0 as int == k,
            forall|k: int| 0 <= k < CODES ==> #[trigger] weights@[k] <= raw_weight_upto(cw, i as int),
            forall|c: char|
                0 <= (c as int) < CODES ==> #[trigger] weights@[c as int] == char_weight_upto(
                    cw,
                    c,
                    i as int,
                ),
            forall|c: char|
                0 <= (c as int) < CODES ==> ((#[trigger] slots@[c as int]) is Some <==> seen_before(
                    cw,
                    c,
                    i as int,
                    0,
                )),
        decreases wc.len() - i,
    {
        let word = chars_of(wc[i].0.as_str());
        let f = wc[i].1;
        assert(cw[i as int] == (wc@[i as int].0@, wc@[i as int].1));
        proof {
            lemma_raw_weight_mono(cw, i + 1, cw.len() as int);
        }
        let mut j: usize = 0;
        while j < word.len()
            invariant
                j <= word.len(),
                i < wc.len(),
                cw == corpus_words(wc@),
                cw[i as int] == (word@, f),
                raw_weight_upto(cw, i + 1) <= u64::MAX,
                weights@.len() == CODES,
                slots@.len() == CODES,
                forall|k: int|
                    0 <= k < CODES && (#[trigger] slots@[k]) is Some ==> slots@[k]->0 as int == k,
                forall|k: int|
                    0 <= k < CODES ==> #[trigger] weights@[k] <= raw_weight_upto(cw, i as int) + f * j,
                forall|c: char|
                    0 <= (c as int) < CODES ==> #[trigger] weights@[c as int] == char_weight_upto(
                        cw,
                        c,
                        i as int,
                    ) + f * occurs_upto(word@, c, j as int),
                forall|c: char|
                    0 <= (c as int) < CODES ==> ((#[trigger] slots@[c as int]) is Some <==> seen_before(
                        cw,
                        c,
                        i as int,
                        j as int,
                    )),
            decreases word.len() - j,
        {
            let c = word[j];
            let code = code_of(c);
            let ghost before_w = weights@;
            let ghost before_s = slots@;
            proof {
                assert(f * (j + 1) == f * j + f) by (nonlinear_arith);
                assert(f * (j + 1) <= f * word@.len()) by (nonlinear_arith)
                    requires
                        j + 1 <= word@.len(),
                        0 <= f,
                ;
                assert(before_w[code as int] <= raw_weight_upto(cw, i as int) + f * j);
            }
            weights[code] = weights[code] + f;
            slots[code] = Some(c);
            proof {
                assert forall|d: char| 0 <= (d as int) < CODES implies #[trigger] weights@[d as int]
                    == char_weight_upto(cw, d, i as int) + f * occurs_upto(word@, d, j + 1) by {
                    assert(before_w[d as int] == char_weight_upto(cw, d, i as int) + f * occurs_upto(
                        word@,
                        d,
                        j as int,
                    ));
                    if d == c {
                        assert(f * (occurs_upto(word@, d, j as int) + 1) == f * occurs_upto(
                            word@,
                            d,
                            j as int,
                        ) + f) by (nonlinear_arith);
                    }
                }
                assert forall|d: char| 0 <= (d as int) < CODES implies ((#[trigger] slots@[d as int]) is Some
                    <==> seen_before(cw, d, i as int, j + 1)) by {
                    assert((before_s[d as int]) is Some <==> seen_before(cw, d, i as int, j as int));
                    if d == c {
                        assert(cw[i as int].0[j as int] == d);
                    } else if seen_before(cw, d, i as int, j + 1) {
                        let (a, b) = choose|a: int, b: int|
                            0 <= a < cw.len() && 0 <= b < cw[a].0.len() && (a < i || (a == i && b < j
                                + 1)) && #[trigger] cw[a].0[b] == d;
                        assert(cw[a].0[b] == d);
                        assert(a < i || (a == i && b < j));
                    }
                }
            }
            j += 1;
        }
        proof {
            assert forall|c: char| 0 <= (c as int) < CODES implies ((#[trigger] slots@[c as int]) is Some
                <==> seen_before(cw, c, i + 1, 0)) by {
                if seen_before(cw, c, i as int, word@.len() as int) {
                    let (a, b) = choose|a: int, b: int|
                        0 <= a < cw.len() && 0 <= b < cw[a].0.len() && (a < i || (a == i && b
                            < word@.len())) && #[trigger] cw[a].0[b] == c;
                    assert(cw[a].0[b] == c);
                }
                if seen_before(cw, c, i + 1, 0) {
                    let (a, b) = choose|a: int, b: int|
                        0 <= a < cw.len() && 0 <= b < cw[a].0.len() && (a < i + 1 || (a == i + 1 && b
                            < 0)) && #[trigger] cw[a].0[b] == c;
                    assert(cw[a].0[b] == c);
                }
            }
        }
        i += 1;
    }
    let mut k: usize = 0;
    assert(initial@.take(0) =~= Seq::<char>::empty());
    while k < initial.len()
        invariant
            k <= initial.len(),
            weights@.len() == CODES,
            slots@.len() == CODES,
            forall|m: int| 0 <= m < CODES && (#[trigger] slots@[m]) is Some ==> slots@[m]->0 as int == m,
            forall|c: char|
                0 <= (c as int) < CODES ==> ((#[trigger] slots@[c as int]) is Some <==> in_alphabet(
                    cw,
                    initial@.take(k as int),
                    c,
                )),
            forall|c: char|
                0 <= (c as int) < CODES ==> #[trigger] weights@[c as int] == alphabet_weight(
                    cw,
                    initial@.take(k as int),
                    c,
                ),
        decreases initial.len() - k,
    {
        let c = initial[k];
        let code = code_of(c);
        let ghost before_w = weights@;
        let ghost before_s = slots@;
        weights[code] = u64::MAX;
        slots[code] = Some(c);
        proof {
            let head = initial@.take(k as int);
            let more = initial@.take(k + 1);
            assert(more =~= head.push(c));
            assert forall|d: char| more.contains(d) <==> (head.contains(d) || d == c) by {
                if more.contains(d) {
                    let x = choose|x: int| 0 <= x < more.len() && more[x] == d;
                    if x < k {
                        assert(head[x] == d);
                    }
                }
                if head.contains(d) {
                    let x = choose|x: int| 0 <= x < head.len() && head[x] == d;
                    assert(more[x] == d);
                }
                if d == c {
                    assert(more[k as int] == d);
                }
            }
            assert forall|d: char| 0 <= (d as int) < CODES implies ((#[trigger] slots@[d as int]) is Some
                <==> in_alphabet(cw, more, d)) by {
                assert((before_s[d as int]) is Some <==> in_alphabet(cw, head, d));
            }
            assert forall|d: char| 0 <= (d as int) < CODES implies #[trigger] weights@[d as int]
                == alphabet_weight(cw, more, d) by {
                assert(before_w[d as int] == alphabet_weight(cw, head, d));
            }
        }
        k += 1;
    }
    assert(initial@.take(initial.len() as int) =~= initial@);
    let t = Tally { weights, slots };
    proof {
        assert forall|c: char| (#[trigger] t.slots@[c as int]) is Some <==> in_alphabet(
            cw,
            initial@,
            c,
        ) by {
            lemma_char_code(c);
        }
        assert forall|c: char| #[trigger] t.weights@[c as int] == alphabet_weight(cw, initial@, c) by {
            lemma_char_code(c);
        }
    }
    t
}

/// The number of characters that the tally holds.
pub fn count_kept(slots: &Vec<Option<char>>) -> (n: usize)
    requires
        slots@.len() == CODES,
    ensures
        n == kept_upto(slots@, CODES as int),
{
    let mut n: usize = 0;
    let mut k: usize = 0;
    while k < CODES
        invariant
            k <= CODES,
            slots@.len() == CODES,
            n == kept_upto(slots@, k as int),
            n <= k,
        decreases CODES - k,
    {
        if slots[k].is_some() {
            n += 1;
        }
        k += 1;
    }
    n
}

/// Empties the slots of the `to_remove` characters that weigh least, where
/// of two characters of one weight the one with the lower code point
/// counts as the lighter.
pub fn cull(t: &mut Tally, to_remove: usize)
    requires
        old(t).wf(),
        to_remove <= kept_upto(old(t).slots@, CODES as int),
    ensures
        final(t).wf(),
        final(t).weights@ == old(t).weights@,
        forall|k: int|
            0 <= k < CODES && (#[trigger] final(t).slots@[k]) is Some ==> final(t).slots@[k] == old(
                t,
            ).slots@[k],
        kept_upto(final(t).slots@, CODES as int) == kept_upto(old(t).slots@, CODES as int)
            - to_remove,
        forall|k: int, m: int|
            0 <= k < CODES && 0 <= m < CODES && old(t).slots@[k] is Some && (
            #[trigger] final(t).slots@[k]) is None && (#[trigger] final(t).slots@[m]) is Some
                ==> old(t).weights@[k] < old(t).weights@[m] || (old(t).weights@[k] == old(
                t,
            ).weights@[m] && k < m),
{
    let ghost w = t.weights@;
    let ghost s0 = t.slots@;
    let mut entries: Vec<(u64, u32)> = Vec::new();
    let mut k: usize = 0;
    while k < CODES
        invariant
            k <= CODES,
            t.wf(),
            t.weights@ == w,
            t.slots@ == s0,
            entries@.len() == kept_upto(s0, k as int),
            entries@.len() <= k,
            forall|x: int|
                0 <= x < entries@.len() ==> (#[trigger] entries@[x]).1 < k && s0[entries@[x].1 as int] is Some
                    && entries@[x].0 == w[entries@[x].1 as int],
            forall|x: int, y: int|
                0 <= x < y < entries@.len() ==> (#[trigger] entries@[x]).1 < (
                #[trigger] entries@[y]).1,
            forall|m: int|
                0 <= m < k && (#[trigger] s0[m]) is Some ==> entries@.contains((w[m], m as u32)),
        decreases CODES - k,
    {
        if t.slots[k].is_some() {
            let ghost before = entries@;
            entries.push((t.weights[k], k as u32));
            proof {
                assert forall|m: int| 0 <= m < k + 1 && (#[trigger] s0[m]) is Some implies entries@.contains(
                    (w[m], m as u32),
                ) by {
                    if m < k {
                        let x = choose|x: int| 0 <= x < before.len() && before[x] == (w[m], m as u32);
                        assert(entries@[x] == (w[m], m as u32));
                    } else {
                        assert(entries@[before.len() as int] == (w[m], m as u32));
                    }
                }
            }
        }
        k += 1;
    }
    let ghost listed = entries@;
    sort_entries(&mut entries);
    let ghost sorted = entries@;
    proof {
        assert(listed.no_duplicates());
        listed.lemma_multiset_has_no_duplicates();
        sorted.lemma_multiset_has_no_duplicates_conv();
        vstd::seq_lib::to_multiset_len(listed);
        vstd::seq_lib::to_multiset_len(sorted);
        assert forall|x: int| 0 <= x < sorted.len() implies listed.contains(#[trigger] sorted[x]) by {
            assert(sorted.contains(sorted[x]));
            vstd::seq_lib::to_multiset_contains(sorted, sorted[x]);
            vstd::seq_lib::to_multiset_contains(listed, sorted[x]);
        }
    }
    let mut n: usize = 0;
    while n < to_remove
        invariant
            n <= to_remove <= kept_upto(s0, CODES as int),
            t.wf(),
            t.weights@ == w,
            s0.len() == CODES,
            sorted == entries@,
            sorted.len() == kept_upto(s0, CODES as int),
            sorted.no_duplicates(),
            forall|x: int| 0 <= x < sorted.len() ==> listed.contains(#[trigger] sorted[x]),
            forall|x: int|
                0 <= x < listed.len() ==> (#[trigger] listed[x]).1 < CODES && s0[listed[x].1 as int] is Some
                    && listed[x].0 == w[listed[x].1 as int],
            forall|k: int|
                0 <= k < CODES ==> #[trigger] t.slots@[k] == if exists|x: int|
                    0 <= x < n && (#[trigger] sorted[x]).1 == k {
                    None
                } else {
                    s0[k]
                },
            kept_upto(t.slots@, CODES as int) == kept_upto(s0, CODES as int) - n,
        decreases to_remove - n,
    {
        let code = entries[n].1 as usize;
        let ghost before = t.slots@;
        proof {
            let e = sorted[n as int];
            assert(listed.contains(e));
            let y = choose|y: int| 0 <= y < listed.len() && listed[y] == e;
            assert(listed[y].1 < CODES && s0[listed[y].1 as int] is Some);
            assert(before[code as int] is Some) by {
                if exists|x: int| 0 <= x < n && (#[trigger] sorted[x]).1 == code {
                    let x = choose|x: int| 0 <= x < n && (#[trigger] sorted[x]).1 == code;
                    assert(listed.contains(sorted[x]));
                    let z = choose|z: int| 0 <= z < listed.len() && listed[z] == sorted[x];
                    assert(sorted[x] == sorted[n as int]);
                }
            }
            lemma_kept_cleared(before, code as int, CODES as int);
        }
        t.slots[code] = None;
        proof {
            assert(t.slots@ =~= before.update(code as int, None));
            assert forall|k: int| 0 <= k < CODES implies #[trigger] t.slots@[k] == if exists|x: int|
                0 <= x < n + 1 && (#[trigger] sorted[x]).1 == k {
                None
            } else {
                s0[k]
            } by {
                if k == code {
                    assert(sorted[n as int].1 == k);
                } else {
                    if exists|x: int| 0 <= x < n + 1 && (#[trigger] sorted[x]).1 == k {
                        let x = choose|x: int| 0 <= x < n + 1 && (#[trigger] sorted[x]).1 == k;
                        assert(x < n);
                    }
                }
            }
        }
        n += 1;
    }
    proof {
        assert forall|k: int, m: int|
            0 <= k < CODES && 0 <= m < CODES && s0[k] is Some && (#[trigger] t.slots@[k]) is None && (
            #[trigger] t.slots@[m]) is Some implies w[k] < w[m] || (w[k] == w[m] && k < m) by {
            let x = choose|x: int| 0 <= x < to_remove && (#[trigger] sorted[x]).1 == k;
            assert(listed.contains(sorted[x]));
            let z = choose|z: int| 0 <= z < listed.len() && listed[z] == sorted[x];
            assert(sorted[x].0 == w[k]);
            // The character that stays has an entry, and it comes later.
            assert(s0[m] is Some);
            lemma_sorted_holds(listed, sorted, (w[m], m as u32));
            let y = choose|y: int| 0 <= y < sorted.len() && sorted[y] == (w[m], m as u32);
            assert(sorted[y].1 == m);
            assert(y >= to_remove);
            assert(entry_le(sorted[x], sorted[y]));
        }
    }
}

/// What the unsorted entries hold, the sorted ones hold too.
pub proof fn lemma_sorted_holds(listed: Seq<(u64, u32)>, sorted: Seq<(u64, u32)>, e: (u64, u32))
    requires
        listed.to_multiset() == sorted.to_multiset(),
        listed.contains(e),
    ensures
        sorted.contains(e),
{
    vstd::seq_lib::to_multiset_contains(sorted, e);
    vstd::seq_lib::to_multiset_contains(listed, e);
}

/// The characters that the tally holds, in ascending order.
pub fn collect(slots: &Vec<Option<char>>) -> (kept: Vec<char>)
    requires
        slots@.len() == CODES,
        forall|k: int| 0 <= k < CODES && (#[trigger] slots@[k]) is Some ==> slots@[k]->0 as int == k,
    ensures
        kept@.len() == kept_upto(slots@, CODES as int),
        forall|i: int, j: int| 0 <= i < j < kept@.len() ==> (kept@[i] as int) < (kept@[j] as int),
        forall|c: char| kept@.contains(c) <==> (#[trigger] slots@[c as int]) is Some,
{
    let mut kept: Vec<char> = Vec::new();
    let mut k: usize = 0;
    while k < CODES
        invariant
            k <= CODES,
            slots@.len() == CODES,
            forall|m: int| 0 <= m < CODES && (#[trigger] slots@[m]) is Some ==> slots@[m]->0 as int == m,
            kept@.len() == kept_upto(slots@, k as int),
            forall|i: int| 0 <= i < kept@.len() ==> (#[trigger] kept@[i] as int) < k,
            forall|i: int, j: int|
                0 <= i < j < kept@.len() ==> (kept@[i] as int) < (kept@[j] as int),
            forall|c: char|
                0 <= (c as int) < CODES ==> (kept@.contains(c) <==> ((#[trigger] slots@[c as int]) is Some
                    && (c as int) < k)),
        decreases CODES - k,
    {
        match slots[k] {
            Some(c) => {
                let ghost before = kept@;
                kept.push(c);
                proof {
                    assert forall|d: char| 0 <= (d as int) < CODES implies (kept@.contains(d) <==> ((
                    #[trigger] slots@[d as int]) is Some && (d as int) < k + 1)) by {
                        if kept@.contains(d) {
                            let x = choose|x: int| 0 <= x < kept@.len() && kept@[x] == d;
                            if x < before.len() {
                                assert(before[x] == d);
                                assert(before.contains(d));
                            }
                        }
                        if slots@[d as int] is Some && (d as int) < k + 1 {
                            if (d as int) < k {
                                assert(before.contains(d));
                                let x = choose|x: int| 0 <= x < before.len() && before[x] == d;
                                assert(kept@[x] == d);
                            } else {
                                assert(kept@[before.len() as int] == d);
                            }
                        }
                    }
                }
            },
            None => {},
        }
        k += 1;
    }
    proof {
        assert forall|c: char| kept@.contains(c) <==> (#[trigger] slots@[c as int]) is Some by {
            lemma_char_code(c);
        }
    }
    kept
}

impl BpeTrainer {
    /// The alphabet that training starts from.
    pub fn select_alphabet(&self, wc: &Vec<(String, u64)>) -> (kept: Vec<char>)
        requires
            raw_weight(corpus_words(wc@)) <= u64::MAX,
        ensures
            is_alphabet(corpus_words(wc@), self@.initial_alphabet, self@.limit_alphabet, kept@),
            kept@ == kept_alphabet(corpus_words(wc@), self@.initial_alphabet, self@.limit_alphabet),
    {
        let ghost cw = corpus_words(wc@);
        let ghost initial = self@.initial_alphabet;
        let mut t = tally(wc, &self.initial_alphabet);
        let n = count_kept(&t.slots);
        let to_remove = match self.limit_alphabet {
            Some(limit) => if n > limit {
                n - limit
            } else {
                0
            },
            None => 0,
        };
        let ghost s0 = t.slots@;
        cull(&mut t, to_remove);
        let kept = collect(&t.slots);
        proof {
            assert forall|c: char| kept@.contains(c) implies in_alphabet(cw, initial, c) by {
                lemma_char_code(c);
                assert(t.slots@[c as int] is Some);
                assert(s0[c as int] is Some);
            }
            if to_remove == 0 {
                assert forall|k: int| 0 <= k < CODES implies #[trigger] t.slots@[k] == s0[k] by {
                    if t.slots@[k] is None && s0[k] is Some {
                        lemma_kept_same(s0, t.slots@, CODES as int, k);
                    }
                }
                assert forall|c: char| in_alphabet(cw, initial, c) implies kept@.contains(c) by {
                    lemma_char_code(c);
                    assert(s0[c as int] is Some);
                    assert(t.slots@[c as int] == s0[c as int]);
                }
            }
            assert forall|c: char| in_alphabet(cw, initial, c) && !kept@.contains(c) implies to_remove
                > 0 by {
                lemma_char_code(c);
                assert(s0[c as int] is Some);
                assert(t.slots@[c as int] is None);
            }
            assert forall|c: char, d: char|
                in_alphabet(cw, initial, c) && !kept@.contains(c) && #[trigger] kept@.contains(
                    d,
                ) implies #[trigger] dropped_before(cw, initial, c, d) by {
                lemma_char_code(c);
                lemma_char_code(d);
                assert(s0[c as int] is Some);
                assert(t.slots@[c as int] is None);
                assert(t.slots@[d as int] is Some);
                assert(s0[d as int] is Some);
                assert(in_alphabet(cw, initial, d));
            }
            lemma_alphabet_unique(cw, initial, self@.limit_alphabet, kept@);
        }
        kept
    }

    /// Gives the characters of `kept` ids as symbols of one character.
    pub fn add_chars(vocab: &mut Vocab, kept: &Vec<char>) -> (r: Result<(), TrainError>)
        requires
            old(vocab).wf(),
        ensures
            final(vocab).wf(),
            grown_from(final(vocab)@, old(vocab)@),
            match with_chars(old(vocab)@, kept@) {
                Some(v) => r is Ok && final(vocab)@ == v,
                None => r == Err::<(), TrainError>(TrainError::VocabularyFull),
            },
            r is Err ==> exists|k: int|
                0 <= k && #[trigger] with_chars_upto(old(vocab)@, kept@, k) == Some(final(vocab)@)
                    && with_chars_upto(old(vocab)@, kept@, k + 1) is None,
    {
        let ghost v0 = vocab@;
        let mut i: usize = 0;
        while i < kept.len()
            invariant
                i <= kept.len(),
                v0 == old(vocab)@,
                vocab.wf(),
                grown_from(vocab@, v0),
                with_chars_upto(v0, kept@, i as int) == Some(vocab@),
            decreases kept.len() - i,
        {
            let mut s: Vec<char> = Vec::new();
            s.push(kept[i]);
            assert(s@ =~= seq![kept@[i as int]]);
            let ghost here = vocab@;
            proof {
                vocab.lemma_sizes_agree();
                if here.contains(s@) || here.len() < MAX_TOKENS {
                    lemma_interned(here, s@);
                }
            }
            match vocab.intern(s) {
                Some(_) => {
                    assert(grown_from(vocab@, here));
                },
                None => {
                    proof {
                        assert(with_chars_upto(v0, kept@, i + 1) is None);
                        lemma_with_chars_stays_none(v0, kept@, i + 1, kept@.len() as int);
                    }
                    return Err(TrainError::VocabularyFull);
                },
            }
            i += 1;
        }
        Ok(())
    }

    /// Computes the alphabet that training starts from and gives its
    /// characters ids.
    pub fn compute_alphabet(&self, wc: &Vec<(String, u64)>, vocab: &mut Vocab) -> (r: Result<
        (),
        TrainError,
    >)
        requires
            old(vocab).wf(),
            raw_weight(corpus_words(wc@)) <= u64::MAX,
        ensures
            final(vocab).wf(),
            grown_from(final(vocab)@, old(vocab)@),
            match with_chars(
                old(vocab)@,
                kept_alphabet(corpus_words(wc@), self@.initial_alphabet, self@.limit_alphabet),
            ) {
                Some(v) => r is Ok && final(vocab)@ == v,
                None => r == Err::<(), TrainError>(TrainError::VocabularyFull),
            },
            r is Err ==> exists|k: int|
                0 <= k && #[trigger] with_chars_upto(
                    old(vocab)@,
                    kept_alphabet(corpus_words(wc@), self@.initial_alphabet, self@.limit_alphabet),
                    k,
                ) == Some(final(vocab)@) && with_chars_upto(
                    old(vocab)@,
                    kept_alphabet(corpus_words(wc@), self@.initial_alphabet, self@.limit_alphabet),
                    k + 1,
                ) is None,
    {
        let kept = self.select_alphabet(wc);
        Self::add_chars(vocab, &kept)
    }
}

/// Slots that hold no more than others, and as many, hold the same.
pub proof fn lemma_kept_same(s0: Seq<Option<char>>, s1: Seq<Option<char>>, m: int, k: int)
    requires
        0 <= k < m <= s0.len(),
        s0.len() == s1.len(),
        forall|x: int| 0 <= x < s0.len() && (#[trigger] s1[x]) is Some ==> s1[x] == s0[x],
        s0[k] is Some,
        s1[k] is None,
    ensures
        kept_upto(s1, m) < kept_upto(s0, m),
    decreases m,
{
    lemma_kept_le(s0, s1, m - 1);
    if k < m - 1 {
        lemma_kept_same(s0, s1, m - 1, k);
    }
}

/// Slots that hold no more than others hold no more characters.
pub proof fn lemma_kept_le(s0: Seq<Option<char>>, s1: Seq<Option<char>>, m: int)
    requires
        0 <= m <= s0.len(),
        s0.len() == s1.len(),
        forall|x: int| 0 <= x < s0.len() && (#[trigger] s1[x]) is Some ==> s1[x] == s0[x],
    ensures
        kept_upto(s1, m) <= kept_upto(s0, m),
    decreases m,
{
    if m > 0 {
        lemma_kept_le(s0, s1, m - 1);
    }
}

} // verus!
