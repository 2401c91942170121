//! Why a candidate names every word in which its pair stands, and why the
//! merges therefore tell what became of the words.
//!
//! This holds where no marker is configured and every merge is into a
//! symbol whose id is in no word and in no candidate, as it is whenever the
//! merged symbol is new to the vocabulary: then a pair can only come to
//! stand in a word by the merge that first forms it, which notes the word.

use crate::corpus::{applied, lemma_priced_below, recorded, rewritten, CorpusView};
use crate::discovery::{finished, run_for, step, top_of, TrainingView};
use crate::encoding::unit_symbols;
use crate::indexing::{adjacent, counted, counted_upto, lemma_counted_below};
use crate::laws::{lemma_run, lemma_top_of};
use crate::lengths::{
    lemma_counted_short, lemma_lens_stay, lemma_priced_short, lemma_rewrite_lens,
    lemma_rewritten_lens, lemma_step_lens, lens_agree, lens_ok, pair_short, unit_words,
    words_agree,
};
use crate::pairs::count_of;
use crate::replaying::{
    has_pair, lemma_replay, lemma_rewritten_words, merges_completely, positions_complete,
    replay_all,
};
use crate::rules::{rejected, stripped, RulesView};
use crate::table::{extended, holds_pair, noted, one_slot_each, priced_entries, slot_of, MergeView};
use crate::training::started;
use crate::vocab::{interned, is_vocabulary, lemma_interned};
use crate::word::{
    fits, joined_len, left_changes, merged, rewrite, right_changes, symbol_at, Change, Pair, Symbol,
};
use vstd::prelude::*;

verus! {

/// No symbol of `word` has the token id `c`.
pub open spec fn lacks(word: Seq<Symbol>, c: u32) -> bool {
    forall|j: int| 0 <= j < word.len() ==> (#[trigger] word[j]).c != c
}

/// Every pair that gains an occurrence has `c` as one of its two ids.
pub open spec fn gains_hold(changes: Seq<Change>, c: u32) -> bool {
    forall|j: int|
        0 <= j < changes.len() && (#[trigger] changes[j]).1 > 0 ==> changes[j].0.0 == c
            || changes[j].0.1 == c
}

/// The first symbol that a rewrite gives is the new one, or the first of
/// those that it was given.
pub proof fn lemma_rewrite_first(
    s: Seq<Symbol>,
    i: int,
    prev: Option<Symbol>,
    a: u32,
    b: u32,
    c: u32,
    max_len: usize,
)
    requires
        0 <= i < s.len(),
    ensures
        rewrite(s, i, prev, a, b, c, max_len).0.len() > 0,
        rewrite(s, i, prev, a, b, c, max_len).0[0] == s[i] || (i + 1 < s.len() && rewrite(
            s,
            i,
            prev,
            a,
            b,
            c,
            max_len,
        ).0[0] == Symbol { c, len: joined_len(s[i].len, s[i + 1].len) }),
{
}

/// Two symbols that stand side by side after a rewrite, neither of them
/// the new one, stood side by side before.
pub proof fn lemma_rewrite_keeps_apart(
    s: Seq<Symbol>,
    i: int,
    prev: Option<Symbol>,
    a: u32,
    b: u32,
    c: u32,
    max_len: usize,
    x: u32,
    y: u32,
)
    requires
        0 <= i <= s.len(),
        lacks(s, c),
        x != c,
        y != c,
        has_pair(rewrite(s, i, prev, a, b, c, max_len).0, x, y),
    ensures
        has_pair(s, x, y),
    decreases s.len() - i,
{
    let out = rewrite(s, i, prev, a, b, c, max_len).0;
    let j = choose|j: int| 0 <= j && j + 1 < out.len() && (#[trigger] out[j]).c == x && out[j + 1].c == y;
    if i >= s.len() {
    } else if i + 1 < s.len() && s[i].c == a && s[i + 1].c == b {
        let new = Symbol { c, len: joined_len(s[i].len, s[i + 1].len) };
        let rest = rewrite(s, i + 2, Some(new), a, b, c, max_len);
        assert(out =~= seq![new] + rest.0);
        assert(j >= 1);
        assert(rest.0[j - 1] == out[j]);
        assert(rest.0[j] == out[j + 1]);
        assert(has_pair(rest.0, x, y));
        lemma_rewrite_keeps_apart(s, i + 2, Some(new), a, b, c, max_len, x, y);
    } else {
        let rest = rewrite(s, i + 1, Some(s[i]), a, b, c, max_len);
        assert(out =~= seq![s[i]] + rest.0);
        if j == 0 {
            lemma_rewrite_first(s, i + 1, Some(s[i]), a, b, c, max_len);
            assert(rest.0[0] == out[1]);
            assert(rest.0[0] == s[i + 1]);
            assert(s[i].c == x && s[i + 1].c == y);
        } else {
            assert(rest.0[j - 1] == out[j]);
            assert(rest.0[j] == out[j + 1]);
            assert(has_pair(rest.0, x, y));
            lemma_rewrite_keeps_apart(s, i + 1, Some(s[i]), a, b, c, max_len, x, y);
        }
    }
}

/// The symbols at positions `j` and `j + 1` of `out` are neighbours of
/// which one is the new symbol `c`, and they are not too long together.
pub open spec fn gained_at(out: Seq<Symbol>, j: int, c: u32, max_len: usize) -> bool {
    &&& 0 <= j
    &&& j + 1 < out.len()
    &&& (out[j].c == c || out[j + 1].c == c)
    &&& fits(out[j].len, out[j + 1].len, max_len)
}

/// The gain of the pair at positions `j` and `j + 1` of `out`.
pub open spec fn gain_at(out: Seq<Symbol>, j: int) -> Change {
    ((out[j].c, out[j + 1].c), 1i32)
}

/// The changes `ch` report what the symbols `out`, which stand behind
/// `prev`, have gained: a gain for every pair of neighbours of which one is
/// the new symbol `c`, unless the pair is too long, and a gain for no pair
/// without `c`.
pub open spec fn reports(
    out: Seq<Symbol>,
    ch: Seq<Change>,
    prev: Option<Symbol>,
    c: u32,
    max_len: usize,
) -> bool {
    &&& gains_hold(ch, c)
    &&& prev is Some && out.len() > 0 && out[0].c == c && fits(prev->0.len, out[0].len, max_len)
        ==> ch.contains(((prev->0.c, c), 1i32))
    &&& forall|j: int| #[trigger] gained_at(out, j, c, max_len) ==> ch.contains(gain_at(out, j))
}

/// What is reported behind a rewritten pair is reported, together with the
/// gains of the new symbol, for the whole.
pub proof fn lemma_reports_behind_new(
    rest: Seq<Symbol>,
    rest_ch: Seq<Change>,
    prev: Option<Symbol>,
    next: Option<Symbol>,
    new: Symbol,
    a: u32,
    b: u32,
    max_len: usize,
)
    requires
        reports(rest, rest_ch, Some(new), new.c, max_len),
        rest.len() > 0 ==> rest[0].c == new.c || next == Some(rest[0]),
    ensures
        reports(
            seq![new] + rest,
            left_changes(prev, a, new, max_len) + right_changes(next, b, new, max_len) + rest_ch,
            prev,
            new.c,
            max_len,
        ),
{
    let c = new.c;
    let l = left_changes(prev, a, new, max_len);
    let r = right_changes(next, b, new, max_len);
    let out = seq![new] + rest;
    let ch = l + r + rest_ch;
    assert(gains_hold(l, c));
    assert(gains_hold(r, c));
    assert forall|e: Change| rest_ch.contains(e) implies ch.contains(e) by {
        let k = choose|k: int| 0 <= k < rest_ch.len() && rest_ch[k] == e;
        assert(ch[l.len() as int + r.len() as int + k] == e);
    }
    if prev is Some && fits(prev->0.len, new.len, max_len) {
        assert(ch[1] == ((prev->0.c, c), 1i32));
    }
    assert forall|j: int| #[trigger] gained_at(out, j, c, max_len) implies ch.contains(
        gain_at(out, j),
    ) by {
        if j == 0 {
            assert(out[1] == rest[0]);
            if rest[0].c == c {
                assert(rest_ch.contains(((c, c), 1i32)));
            } else {
                assert(r[1] == ((c, rest[0].c), 1i32));
                assert(ch[l.len() as int + 1] == ((c, rest[0].c), 1i32));
            }
        } else {
            assert(rest[j - 1] == out[j]);
            assert(rest[j] == out[j + 1]);
            assert(gained_at(rest, j - 1, c, max_len));
            assert(gain_at(rest, j - 1) == gain_at(out, j));
        }
    }
}

/// What is reported behind a symbol that stays is reported for the whole.
pub proof fn lemma_reports_behind_kept(
    rest: Seq<Symbol>,
    rest_ch: Seq<Change>,
    prev: Option<Symbol>,
    kept: Symbol,
    c: u32,
    max_len: usize,
)
    requires
        reports(rest, rest_ch, Some(kept), c, max_len),
        kept.c != c,
    ensures
        reports(seq![kept] + rest, rest_ch, prev, c, max_len),
{
    let out = seq![kept] + rest;
    assert forall|j: int| #[trigger] gained_at(out, j, c, max_len) implies rest_ch.contains(
        gain_at(out, j),
    ) by {
        if j == 0 {
            assert(out[1] == rest[0]);
        } else {
            assert(rest[j - 1] == out[j]);
            assert(rest[j] == out[j + 1]);
            assert(gained_at(rest, j - 1, c, max_len));
            assert(gain_at(rest, j - 1) == gain_at(out, j));
        }
    }
}

/// A rewrite to a symbol that was not in the word reports a gain for every
/// pair that it forms with the new symbol, unless the pair is too long;
/// and it reports a gain for no pair without the new symbol.
pub proof fn lemma_rewrite_reports(
    s: Seq<Symbol>,
    i: int,
    prev: Option<Symbol>,
    a: u32,
    b: u32,
    c: u32,
    max_len: usize,
)
    requires
        0 <= i <= s.len(),
        lacks(s, c),
    ensures
        reports(
            rewrite(s, i, prev, a, b, c, max_len).0,
            rewrite(s, i, prev, a, b, c, max_len).1,
            prev,
            c,
            max_len,
        ),
    decreases s.len() - i,
{
    if i >= s.len() {
    } else if i + 1 < s.len() && s[i].c == a && s[i + 1].c == b {
        let new = Symbol { c, len: joined_len(s[i].len, s[i + 1].len) };
        let rest = rewrite(s, i + 2, Some(new), a, b, c, max_len);
        lemma_rewrite_reports(s, i + 2, Some(new), a, b, c, max_len);
        if i + 2 < s.len() {
            lemma_rewrite_first(s, i + 2, Some(new), a, b, c, max_len);
        }
        lemma_reports_behind_new(rest.0, rest.1, prev, symbol_at(s, i + 2), new, a, b, max_len);
    } else {
        let rest = rewrite(s, i + 1, Some(s[i]), a, b, c, max_len);
        lemma_rewrite_reports(s, i + 1, Some(s[i]), a, b, c, max_len);
        lemma_reports_behind_kept(rest.0, rest.1, prev, s[i], c, max_len);
    }
}

/// The positions are in ascending order, and all below `bound`.
pub open spec fn ascending_upto(pos: Seq<usize>, bound: int) -> bool {
    &&& forall|x: int, y: int| 0 <= x < y < pos.len() ==> pos[x] < pos[y]
    &&& forall|x: int| 0 <= x < pos.len() ==> pos[x] < bound
}

/// The positions of every candidate that `t` holds are in ascending
/// order, and all below `bound`.
pub open spec fn table_ascending(t: Seq<Option<MergeView>>, bound: int) -> bool {
    forall|i: int|
        0 <= i < t.len() && (#[trigger] t[i]) is Some ==> ascending_upto(t[i]->0.pos, bound)
}

/// Every candidate that `t` holds is for a pair with the id `c`.
pub open spec fn table_holds(t: Seq<Option<MergeView>>, c: u32) -> bool {
    forall|i: int|
        0 <= i < t.len() && (#[trigger] t[i]) is Some ==> t[i]->0.pair.0 == c || t[i]->0.pair.1 == c
}

/// The table has word `iw` noted as a position of `pair`.
pub open spec fn notes(t: Seq<Option<MergeView>>, pair: Pair, iw: usize) -> bool {
    exists|i: int| #[trigger] holds_pair(t, i, pair) && t[i]->0.pos.contains(iw)
}

/// Noting a word that comes behind all words noted so far keeps the table
/// in order, and what was noted stays noted.
pub proof fn lemma_noted(t: Seq<Option<MergeView>>, pair: Pair, iw: usize)
    requires
        one_slot_each(t),
        table_ascending(t, iw + 1),
    ensures
        one_slot_each(noted(t, pair, iw)),
        table_ascending(noted(t, pair, iw), iw + 1),
        notes(noted(t, pair, iw), pair, iw),
        forall|p: Pair, w: usize| notes(t, p, w) ==> #[trigger] notes(noted(t, pair, iw), p, w),
        forall|c: u32| #[trigger]
            table_holds(t, c) && (pair.0 == c || pair.1 == c) ==> table_holds(
                noted(t, pair, iw),
                c,
            ),
{
    let n = noted(t, pair, iw);
    match slot_of(t, pair) {
        Some(k) => {
            assert(holds_pair(t, k, pair));
            let had = t[k]->0.pos;
            let has = extended(had, iw);
            assert(ascending_upto(had, iw + 1));
            assert(ascending_upto(has, iw + 1)) by {
                if !(had.len() > 0 && had.last() == iw) {
                    assert forall|x: int, y: int| 0 <= x < y < has.len() implies has[x] < has[y] by {
                        if y == had.len() {
                            if x < had.len() - 1 {
                                assert(had[x] < had[had.len() - 1]);
                            }
                        }
                    }
                }
            }
            assert(has.contains(iw)) by {
                assert(has[has.len() - 1] == iw);
            }
            assert(holds_pair(n, k, pair));
            assert forall|i: int, j: int|
                0 <= i < n.len() && 0 <= j < n.len() && n[i] is Some && n[j] is Some && (
                #[trigger] n[i])->0.pair == (#[trigger] n[j])->0.pair implies i == j by {
                assert(t[i] is Some && t[j] is Some);
                assert(t[i]->0.pair == t[j]->0.pair);
            }
            assert forall|i: int| 0 <= i < n.len() && (#[trigger] n[i]) is Some implies ascending_upto(
                n[i]->0.pos,
                iw + 1,
            ) by {
                if i != k {
                    assert(t[i] is Some);
                }
            }
            assert forall|p: Pair, w: usize| notes(t, p, w) implies #[trigger] notes(n, p, w) by {
                let i = choose|i: int| #[trigger] holds_pair(t, i, p) && t[i]->0.pos.contains(w);
                if i == k {
                    let x = choose|x: int| 0 <= x < had.len() && had[x] == w;
                    assert(has[x] == w);
                }
                assert(holds_pair(n, i, p));
            }
            assert forall|c: u32| #[trigger]
                table_holds(t, c) && (pair.0 == c || pair.1 == c) implies table_holds(n, c) by {
                assert forall|i: int| 0 <= i < n.len() && (#[trigger] n[i]) is Some implies n[i]->0.pair.0
                    == c || n[i]->0.pair.1 == c by {
                    assert(t[i] is Some);
                }
            }
        },
        None => {
            let k = t.len() as int;
            assert(seq![iw].contains(iw)) by {
                assert(seq![iw][0] == iw);
            }
            assert(holds_pair(n, k, pair));
            assert forall|i: int, j: int|
                0 <= i < n.len() && 0 <= j < n.len() && n[i] is Some && n[j] is Some && (
                #[trigger] n[i])->0.pair == (#[trigger] n[j])->0.pair implies i == j by {
                if i < t.len() && j < t.len() {
                    assert(t[i]->0.pair == t[j]->0.pair);
                } else if i < t.len() {
                    assert(holds_pair(t, i, pair));
                } else if j < t.len() {
                    assert(holds_pair(t, j, pair));
                }
            }
            assert forall|i: int| 0 <= i < n.len() && (#[trigger] n[i]) is Some implies ascending_upto(
                n[i]->0.pos,
                iw + 1,
            ) by {
                if i < t.len() {
                    assert(t[i] is Some);
                }
            }
            assert forall|p: Pair, w: usize| notes(t, p, w) implies #[trigger] notes(n, p, w) by {
                let i = choose|i: int| #[trigger] holds_pair(t, i, p) && t[i]->0.pos.contains(w);
                assert(holds_pair(n, i, p));
            }
            assert forall|c: u32| #[trigger]
                table_holds(t, c) && (pair.0 == c || pair.1 == c) implies table_holds(n, c) by {
                assert forall|i: int| 0 <= i < n.len() && (#[trigger] n[i]) is Some implies n[i]->0.pair.0
                    == c || n[i]->0.pair.1 == c by {
                    if i < t.len() {
                        assert(t[i] is Some);
                    }
                }
            }
        },
    }
}

/// Recording the changes of a word that comes behind all words noted so
/// far keeps the table in order and notes the word for every pair that
/// gained an occurrence; what was noted stays noted.
pub proof fn lemma_recorded_notes(
    counts: Map<Pair, int>,
    pending: Seq<Option<MergeView>>,
    changes: Seq<Change>,
    iw: usize,
    freq: u64,
)
    requires
        one_slot_each(pending),
        table_ascending(pending, iw + 1),
    ensures
        one_slot_each(recorded(counts, pending, changes, iw, freq).1),
        table_ascending(recorded(counts, pending, changes, iw, freq).1, iw + 1),
        forall|j: int|
            0 <= j < changes.len() && (#[trigger] changes[j]).1 > 0 ==> notes(
                recorded(counts, pending, changes, iw, freq).1,
                changes[j].0,
                iw,
            ),
        forall|p: Pair, w: usize|
            notes(pending, p, w) ==> #[trigger] notes(
                recorded(counts, pending, changes, iw, freq).1,
                p,
                w,
            ),
        forall|c: u32| #[trigger]
            table_holds(pending, c) && gains_hold(changes, c) ==> table_holds(
                recorded(counts, pending, changes, iw, freq).1,
                c,
            ),
    decreases changes.len(),
{
    if changes.len() > 0 {
        let head = changes.drop_last();
        lemma_recorded_notes(counts, pending, head, iw, freq);
        let before = recorded(counts, pending, head, iw, freq);
        let after = recorded(counts, pending, changes, iw, freq);
        let change = changes.last();
        assert(change == changes[changes.len() - 1]);
        if change.1 > 0 {
            lemma_noted(before.1, change.0, iw);
        }
        assert forall|j: int| 0 <= j < changes.len() && (#[trigger] changes[j]).1 > 0 implies notes(
            after.1,
            changes[j].0,
            iw,
        ) by {
            if j < head.len() {
                assert(head[j] == changes[j]);
                assert(notes(before.1, head[j].0, iw));
            }
        }
        assert forall|p: Pair, w: usize| notes(pending, p, w) implies #[trigger] notes(
            after.1,
            p,
            w,
        ) by {
            assert(notes(before.1, p, w));
        }
        assert forall|c: u32| #[trigger] table_holds(pending, c) && gains_hold(changes, c) implies table_holds(
            after.1,
            c,
        ) by {
            assert(gains_hold(head, c)) by {
                assert forall|j: int| 0 <= j < head.len() && (#[trigger] head[j]).1 > 0 implies head[j].0.0
                    == c || head[j].0.1 == c by {
                    assert(head[j] == changes[j]);
                }
            }
            assert(table_holds(before.1, c));
        }
    }
}

/// The table has word `iw` noted for every pair that gains an occurrence
/// by `changes`.
pub open spec fn all_noted(t: Seq<Option<MergeView>>, changes: Seq<Change>, iw: usize) -> bool {
    forall|j: int|
        0 <= j < changes.len() && (#[trigger] changes[j]).1 > 0 ==> notes(t, changes[j].0, iw)
}

/// No word has a symbol with the token id `c`.
pub open spec fn words_lack(words: Seq<Seq<Symbol>>, c: u32) -> bool {
    forall|i: int| 0 <= i < words.len() ==> lacks(#[trigger] words[i], c)
}

/// The bound below which the positions of a table stand after the words
/// at the positions `pos` were rewritten.
pub open spec fn reach(pos: Seq<usize>) -> int {
    if pos.len() > 0 {
        pos.last() + 1
    } else {
        0
    }
}

/// Rewriting the words at ascending positions to a symbol that none of
/// them held leaves a table in order that has each rewritten word noted
/// for every pair that gained an occurrence in it.
pub proof fn lemma_rewritten_notes(
    corpus: CorpusView,
    pos: Seq<usize>,
    a: u32,
    b: u32,
    c: u32,
    max_len: usize,
)
    requires
        corpus.words.len() == corpus.freqs.len(),
        corpus.words.len() <= usize::MAX,
        ascending_upto(pos, usize::MAX + 1),
        words_lack(corpus.words, c),
    ensures
        one_slot_each(rewritten(corpus, Seq::empty(), pos, a, b, c, max_len).1),
        table_ascending(rewritten(corpus, Seq::empty(), pos, a, b, c, max_len).1, reach(pos)),
        table_holds(rewritten(corpus, Seq::empty(), pos, a, b, c, max_len).1, c),
        forall|x: int|
            0 <= x < pos.len() && pos[x] < corpus.words.len() ==> #[trigger] all_noted(
                rewritten(corpus, Seq::empty(), pos, a, b, c, max_len).1,
                merged(corpus.words[pos[x] as int], a, b, c, max_len).1,
                pos[x],
            ),
    decreases pos.len(),
{
    if pos.len() > 0 {
        let head = pos.drop_last();
        let iw = pos.last();
        assert(ascending_upto(head, usize::MAX + 1)) by {
            assert forall|x: int, y: int| 0 <= x < y < head.len() implies head[x] < head[y] by {
                assert(head[x] == pos[x] && head[y] == pos[y]);
            }
        }
        assert(head.no_duplicates()) by {
            assert forall|x: int, y: int| 0 <= x < head.len() && 0 <= y < head.len() && x != y implies head[x]
                != head[y] by {
                if x < y {
                    assert(head[x] < head[y]);
                } else {
                    assert(head[y] < head[x]);
                }
            }
        }
        lemma_rewritten_notes(corpus, head, a, b, c, max_len);
        lemma_rewritten_words(corpus, Seq::empty(), head, a, b, c, max_len);
        let before = rewritten(corpus, Seq::empty(), head, a, b, c, max_len);
        let after = rewritten(corpus, Seq::empty(), pos, a, b, c, max_len);
        assert(reach(head) <= iw) by {
            if head.len() > 0 {
                assert(head[head.len() - 1] == pos[pos.len() - 2]);
                assert(pos[pos.len() - 2] < pos[pos.len() - 1]);
            }
        }
        assert(table_ascending(before.1, iw + 1)) by {
            assert forall|i: int| 0 <= i < before.1.len() && (#[trigger] before.1[i]) is Some implies ascending_upto(
                before.1[i]->0.pos,
                iw + 1,
            ) by {
                assert(ascending_upto(before.1[i]->0.pos, reach(head)));
            }
        }
        if iw < before.0.words.len() && iw < before.0.freqs.len() {
            assert(!head.contains(iw)) by {
                if head.contains(iw) {
                    let x = choose|x: int| 0 <= x < head.len() && head[x] == iw;
                    assert(pos[x] < pos[pos.len() - 1]);
                }
            }
            let word = corpus.words[iw as int];
            assert(before.0.words[iw as int] == word);
            assert(lacks(word, c));
            let m = merged(word, a, b, c, max_len);
            lemma_rewrite_reports(word, 0, None, a, b, c, max_len);
            lemma_recorded_notes(
                before.0.pair_counts,
                before.1,
                m.1,
                iw,
                before.0.freqs[iw as int],
            );
            assert(after.1 == recorded(
                before.0.pair_counts,
                before.1,
                m.1,
                iw,
                before.0.freqs[iw as int],
            ).1);
            assert(table_holds(before.1, c) && gains_hold(m.1, c));
        }
        assert forall|x: int| 0 <= x < pos.len() && pos[x] < corpus.words.len() implies #[trigger] all_noted(
            after.1,
            merged(corpus.words[pos[x] as int], a, b, c, max_len).1,
            pos[x],
        ) by {
            let changes = merged(corpus.words[pos[x] as int], a, b, c, max_len).1;
            if x < head.len() {
                assert(head[x] == pos[x]);
                assert(all_noted(before.1, changes, head[x]));
                assert forall|j: int| 0 <= j < changes.len() && (#[trigger] changes[j]).1 > 0 implies notes(
                    after.1,
                    changes[j].0,
                    pos[x],
                ) by {
                    assert(notes(before.1, changes[j].0, pos[x]));
                }
            }
        }
    }
}

/// Every priced candidate is the candidate of a slot, at the price of now.
pub proof fn lemma_priced_from_slots(t: Seq<Option<MergeView>>, counts: Map<Pair, int>, k: int) -> (i:
    int)
    requires
        0 <= k < priced_entries(t, counts).len(),
    ensures
        holds_pair(t, i, priced_entries(t, counts)[k].pair),
        t[i]->0.pos == priced_entries(t, counts)[k].pos,
    decreases t.len(),
{
    let head = t.drop_last();
    let before = priced_entries(head, counts);
    if k < before.len() {
        let i = lemma_priced_from_slots(head, counts, k);
        assert(head[i] == t[i]);
        i
    } else {
        assert(t.last() == t[t.len() - 1]);
        t.len() - 1
    }
}

/// What a merge into a symbol that no word held does to the candidates,
/// where every symbol covers as many characters as it has: every
/// candidate that the merge brings names, in ascending order, every word
/// in which its pair stands; and a candidate without the new symbol that
/// named every word in which its pair stood still does.
pub proof fn lemma_applied_covers(
    corpus: CorpusView,
    pair: Pair,
    pos: Seq<usize>,
    c: u32,
    max_len: usize,
    vocab: Seq<Seq<char>>,
)
    requires
        corpus.words.len() == corpus.freqs.len(),
        corpus.words.len() <= usize::MAX,
        ascending_upto(pos, usize::MAX + 1),
        words_lack(corpus.words, c),
        words_agree(corpus.words, vocab),
        pair.0 < vocab.len(),
        pair.1 < vocab.len(),
        c < vocab.len(),
        vocab[c as int].len() == vocab[pair.0 as int].len() + vocab[pair.1 as int].len(),
        vocab[c as int].len() <= usize::MAX,
    ensures
        forall|k: int|
            0 <= k < applied(corpus, pair, pos, c, max_len).1.len() ==> ascending_upto(
                (#[trigger] applied(corpus, pair, pos, c, max_len).1[k]).pos,
                usize::MAX + 1,
            ) && positions_complete(
                applied(corpus, pair, pos, c, max_len).0.words,
                applied(corpus, pair, pos, c, max_len).1[k].pair,
                applied(corpus, pair, pos, c, max_len).1[k].pos,
            ),
        forall|p: Pair, at: Seq<usize>|
            p.0 != c && p.1 != c && #[trigger] positions_complete(corpus.words, p, at)
                ==> positions_complete(applied(corpus, pair, pos, c, max_len).0.words, p, at),
{
    let a = pair.0;
    let b = pair.1;
    let r = rewritten(corpus, Seq::empty(), pos, a, b, c, max_len);
    let ap = applied(corpus, pair, pos, c, max_len);
    assert(pos.no_duplicates()) by {
        assert forall|x: int, y: int| 0 <= x < pos.len() && 0 <= y < pos.len() && x != y implies pos[x]
            != pos[y] by {
            if x < y {
                assert(pos[x] < pos[y]);
            } else {
                assert(pos[y] < pos[x]);
            }
        }
    }
    lemma_rewritten_words(corpus, Seq::empty(), pos, a, b, c, max_len);
    lemma_rewritten_notes(corpus, pos, a, b, c, max_len);
    lemma_rewritten_lens(corpus, Seq::empty(), pos, a, b, c, max_len, vocab);
    assert forall|k: int| 0 <= k < ap.1.len() implies ascending_upto(
        (#[trigger] ap.1[k]).pos,
        usize::MAX + 1,
    ) && positions_complete(ap.0.words, ap.1[k].pair, ap.1[k].pos) by {
        let e = ap.1[k];
        let i = lemma_priced_from_slots(r.1, r.0.pair_counts, k);
        assert(r.1[i] is Some);
        assert(ascending_upto(r.1[i]->0.pos, reach(pos)));
        assert(e.pos.no_duplicates()) by {
            assert forall|x: int, y: int| 0 <= x < e.pos.len() && 0 <= y < e.pos.len() && x != y implies e.pos[x]
                != e.pos[y] by {
                if x < y {
                    assert(e.pos[x] < e.pos[y]);
                } else {
                    assert(e.pos[y] < e.pos[x]);
                }
            }
        }
        assert(pair_short(vocab, e.pair, max_len as int));
        assert forall|w: int|
            0 <= w < ap.0.words.len() && has_pair(
                #[trigger] ap.0.words[w],
                e.pair.0,
                e.pair.1,
            ) implies e.pos.contains(w as usize) by {
            let out = ap.0.words[w];
            let j = choose|j: int|
                0 <= j && j + 1 < out.len() && (#[trigger] out[j]).c == e.pair.0 && out[j + 1].c
                    == e.pair.1;
            assert(lacks(corpus.words[w], c));
            if !pos.contains(w as usize) {
                assert(out == corpus.words[w]);
                assert(out[j].c != c && out[j + 1].c != c);
            } else {
                let x = choose|x: int| 0 <= x < pos.len() && pos[x] == w as usize;
                let word = corpus.words[w];
                let m = merged(word, a, b, c, max_len);
                assert(out == m.0);
                assert(lens_agree(word, vocab));
                lemma_rewrite_lens(word, 0, None, a, b, c, max_len, vocab);
                lemma_rewrite_reports(word, 0, None, a, b, c, max_len);
                assert(out[j].len == vocab[out[j].c as int].len());
                assert(out[j + 1].len == vocab[out[j + 1].c as int].len());
                assert(gained_at(out, j, c, max_len));
                assert(m.1.contains(gain_at(out, j)));
                let g = choose|g: int| 0 <= g < m.1.len() && m.1[g] == gain_at(out, j);
                assert(all_noted(r.1, merged(corpus.words[pos[x] as int], a, b, c, max_len).1, pos[x]));
                assert(m.1[g].1 > 0);
                assert(notes(r.1, m.1[g].0, pos[x]));
                let i2 = choose|i2: int|
                    #[trigger] holds_pair(r.1, i2, e.pair) && r.1[i2]->0.pos.contains(w as usize);
                assert(r.1[i2]->0.pair == r.1[i]->0.pair);
            }
        }
    }
    assert forall|p: Pair, at: Seq<usize>|
        p.0 != c && p.1 != c && #[trigger] positions_complete(corpus.words, p, at) implies positions_complete(
        ap.0.words,
        p,
        at,
    ) by {
        assert forall|w: int|
            0 <= w < ap.0.words.len() && has_pair(#[trigger] ap.0.words[w], p.0, p.1) implies at.contains(
            w as usize,
        ) by {
            if pos.contains(w as usize) {
                assert(lacks(corpus.words[w], c));
                lemma_rewrite_keeps_apart(corpus.words[w], 0, None, a, b, c, max_len, p.0, p.1);
            }
            assert(has_pair(corpus.words[w], p.0, p.1));
        }
    }
}

/// The run is in order for the replay property: the lengths are in
/// order, every word has a frequency, and every candidate names, in
/// ascending order, every word in which its pair stands.
pub open spec fn covers(s: TrainingView, limit: int) -> bool {
    &&& lens_ok(s, limit)
    &&& s.corpus.words.len() == s.corpus.freqs.len()
    &&& s.corpus.words.len() <= usize::MAX
    &&& forall|k: int|
        0 <= k < s.queue.len() ==> ascending_upto((#[trigger] s.queue[k]).pos, usize::MAX + 1)
            && positions_complete(s.corpus.words, s.queue[k].pair, s.queue[k].pos)
}

/// If the step that discovery takes from `s` is a merge, the symbol that
/// it makes is one that the vocabulary did not have.
pub open spec fn makes_new_symbol(s: TrainingView, r: RulesView) -> bool {
    step(s, r) is Some && step(s, r)->0.merges.len() > s.merges.len() ==> step(s, r)->0.vocab.len()
        > s.vocab.len()
}

/// No candidate of `q` is for a pair with the id `c`.
pub open spec fn entries_lack(q: Seq<MergeView>, c: u32) -> bool {
    forall|k: int| 0 <= k < q.len() ==> (#[trigger] q[k]).pair.0 != c && q[k].pair.1 != c
}

/// If the step that discovery takes from `s` is a merge, the id of the
/// symbol that it makes is in no word and in no candidate.
pub open spec fn merges_into_unused(s: TrainingView, r: RulesView) -> bool {
    step(s, r) is Some && step(s, r)->0.merges.len() > s.merges.len() ==> words_lack(
        s.corpus.words,
        step(s, r)->0.merges.last().1,
    ) && entries_lack(s.queue, step(s, r)->0.merges.last().1)
}

/// The id of a new symbol is in no word and in no candidate.
pub proof fn lemma_new_is_unused(s: TrainingView, r: RulesView)
    requires
        crate::laws::ids_ok(s),
        makes_new_symbol(s, r),
    ensures
        merges_into_unused(s, r),
{
    if step(s, r) is Some && step(s, r)->0.merges.len() > s.merges.len() {
        let next = step(s, r)->0;
        let t = top_of(s.queue);
        let top = s.queue[t];
        let left = s.vocab[top.pair.0 as int];
        let right = stripped(s.vocab[top.pair.1 as int], r.prefix);
        let v = interned(s.vocab, left + right);
        assert(next.merges == s.merges.push((top.pair, v.1)));
        assert(v.1 == s.vocab.len());
        assert forall|i: int| 0 <= i < s.corpus.words.len() implies lacks(
            #[trigger] s.corpus.words[i],
            v.1,
        ) by {
            assert(crate::word::symbols_below(s.corpus.words[i], s.vocab.len() as int));
        }
    }
}

/// Positions in ascending order are all different.
pub proof fn lemma_ascending_no_duplicates(pos: Seq<usize>, bound: int)
    requires
        ascending_upto(pos, bound),
    ensures
        pos.no_duplicates(),
{
    assert forall|x: int, y: int| 0 <= x < pos.len() && 0 <= y < pos.len() && x != y implies pos[x]
        != pos[y] by {
        if x < y {
            assert(pos[x] < pos[y]);
        } else {
            assert(pos[y] < pos[x]);
        }
    }
}

/// One step of discovery without marker that merges, if it merges at all,
/// into a symbol whose id is in no word and in no candidate keeps the run
/// in order for the replay property; and the candidate that it merges
/// names every word in which its pair stands.
pub proof fn lemma_step_covers(s: TrainingView, r: RulesView, limit: int)
    requires
        covers(s, limit),
        r.prefix is None,
        r.max_token_length <= limit <= usize::MAX,
        step(s, r) is Some,
        merges_into_unused(s, r),
    ensures
        covers(step(s, r)->0, limit),
        merges_completely(s, r),
{
    let next = step(s, r)->0;
    lemma_step_lens(s, r, limit);
    lemma_top_of(s.queue);
    let t = top_of(s.queue);
    let top = s.queue[t];
    let now = count_of(s.corpus.pair_counts, top.pair);
    if top.count != now {
        assert forall|k: int| 0 <= k < next.queue.len() implies ascending_upto(
            (#[trigger] next.queue[k]).pos,
            usize::MAX + 1,
        ) && positions_complete(next.corpus.words, next.queue[k].pair, next.queue[k].pos) by {
            assert(next.queue[k].pos == s.queue[k].pos && next.queue[k].pair == s.queue[k].pair);
        }
    } else {
        let left = s.vocab[top.pair.0 as int];
        let right = stripped(s.vocab[top.pair.1 as int], r.prefix);
        assert(right =~= s.vocab[top.pair.1 as int]);
        if rejected(r.filters, left, right) {
            assert forall|k: int| 0 <= k < next.queue.len() implies ascending_upto(
                (#[trigger] next.queue[k]).pos,
                usize::MAX + 1,
            ) && positions_complete(next.corpus.words, next.queue[k].pair, next.queue[k].pos) by {
                if k < t {
                    assert(next.queue[k] == s.queue[k]);
                } else {
                    assert(next.queue[k] == s.queue[k + 1]);
                }
            }
        } else {
            let token = left + right;
            lemma_interned(s.vocab, token);
            let v = interned(s.vocab, token);
            let c = v.1;
            assert(next.merges == s.merges.push((top.pair, c)));
            assert(next.merges.last() == (top.pair, c));
            assert(pair_short(s.vocab, top.pair, limit));
            lemma_lens_stay(s.corpus.words, s.queue, s.vocab, v.0, limit, limit);
            assert(v.0[top.pair.0 as int] == left);
            assert(v.0[top.pair.1 as int] == right);
            lemma_ascending_no_duplicates(top.pos, usize::MAX + 1);
            lemma_rewritten_words(
                s.corpus,
                Seq::empty(),
                top.pos,
                top.pair.0,
                top.pair.1,
                c,
                r.max_token_length,
            );
            lemma_applied_covers(s.corpus, top.pair, top.pos, c, r.max_token_length, v.0);
            let a = applied(s.corpus, top.pair, top.pos, c, r.max_token_length);
            let rest = s.queue.remove(t);
            assert forall|k: int| 0 <= k < next.queue.len() implies ascending_upto(
                (#[trigger] next.queue[k]).pos,
                usize::MAX + 1,
            ) && positions_complete(next.corpus.words, next.queue[k].pair, next.queue[k].pos) by {
                if k < rest.len() {
                    let e = if k < t {
                        s.queue[k]
                    } else {
                        s.queue[k + 1]
                    };
                    assert(next.queue[k] == e);
                    assert(e.pair.0 != c && e.pair.1 != c);
                    assert(positions_complete(s.corpus.words, e.pair, e.pos));
                } else {
                    assert(next.queue[k] == a.1[k - rest.len()]);
                }
            }
        }
    }
}

/// A run of discovery without marker in which every merge is into a
/// symbol whose id is in no word and in no candidate stays in order for
/// the replay property, and every candidate that it merges names every
/// word in which its pair stands.
pub proof fn lemma_run_covers(s: TrainingView, r: RulesView, limit: int, n: nat)
    requires
        covers(s, limit),
        r.prefix is None,
        r.max_token_length <= limit <= usize::MAX,
        forall|k: nat| k < n ==> merges_into_unused(#[trigger] run_for(s, r, k), r),
    ensures
        covers(run_for(s, r, n), limit),
        forall|k: nat| k < n ==> merges_completely(#[trigger] run_for(s, r, k), r),
    decreases n,
{
    if n > 0 {
        lemma_run_covers(s, r, limit, (n - 1) as nat);
        let before = run_for(s, r, (n - 1) as nat);
        assert(merges_into_unused(before, r));
        if step(before, r) is Some {
            lemma_step_covers(before, r, limit);
        }
        assert forall|k: nat| k < n implies merges_completely(#[trigger] run_for(s, r, k), r) by {
            if k == n - 1 {
                assert(run_for(s, r, k) == before);
            }
        }
    }
}

/// The vocabulary grows by no more symbols than merges are made; and
/// where it has grown by as many, every merge has made a new symbol.
pub proof fn lemma_growth(s: TrainingView, r: RulesView, n: nat)
    ensures
        s.vocab.len() <= run_for(s, r, n).vocab.len(),
        s.merges.len() <= run_for(s, r, n).merges.len(),
        run_for(s, r, n).vocab.len() - s.vocab.len() <= run_for(s, r, n).merges.len()
            - s.merges.len(),
        run_for(s, r, n).vocab.len() - s.vocab.len() == run_for(s, r, n).merges.len()
            - s.merges.len() ==> forall|k: nat|
            k < n ==> makes_new_symbol(#[trigger] run_for(s, r, k), r),
    decreases n,
{
    if n > 0 {
        lemma_growth(s, r, (n - 1) as nat);
        let before = run_for(s, r, (n - 1) as nat);
        let after = run_for(s, r, n);
        assert(before.vocab.len() <= after.vocab.len());
        assert(before.merges.len() <= after.merges.len());
        assert(after.vocab.len() - before.vocab.len() <= after.merges.len() - before.merges.len());
        if after.vocab.len() - s.vocab.len() == after.merges.len() - s.merges.len() {
            assert forall|k: nat| k < n implies makes_new_symbol(#[trigger] run_for(s, r, k), r) by {
                if k == n - 1 {
                    assert(run_for(s, r, k) == before);
                }
            }
        }
    }
}

/// The replay property of discovery: where no marker is configured and
/// every merge is into a symbol whose id is in no word and in no
/// candidate, the words after `n` steps are the words that discovery
/// started from with the merges that it has made applied to every one of
/// them, in the order of their ranks.
pub proof fn lemma_unused_replays(s: TrainingView, r: RulesView, limit: int, n: nat)
    requires
        covers(s, limit),
        r.prefix is None,
        r.max_token_length <= limit <= usize::MAX,
        forall|k: nat| k < n ==> merges_into_unused(#[trigger] run_for(s, r, k), r),
    ensures
        s.merges.len() <= run_for(s, r, n).merges.len(),
        run_for(s, r, n).corpus.words == replay_all(
            s.corpus.words,
            run_for(s, r, n).merges.skip(s.merges.len() as int),
            r.max_token_length,
        ),
{
    lemma_run_covers(s, r, limit, n);
    lemma_replay(s, r, n);
}

/// The replay property of discovery, for a run that can be told by its
/// end: where no marker is configured and the vocabulary has grown by one
/// symbol with every merge, the words after `n` steps are the words that
/// discovery started from with the merges that it has made applied to
/// every one of them, in the order of their ranks.
pub proof fn lemma_discovery_replays(s: TrainingView, r: RulesView, limit: int, n: nat)
    requires
        covers(s, limit),
        r.prefix is None,
        r.max_token_length <= limit <= usize::MAX,
        run_for(s, r, n).vocab.len() - s.vocab.len() == run_for(s, r, n).merges.len()
            - s.merges.len(),
    ensures
        s.merges.len() <= run_for(s, r, n).merges.len(),
        run_for(s, r, n).corpus.words == replay_all(
            s.corpus.words,
            run_for(s, r, n).merges.skip(s.merges.len() as int),
            r.max_token_length,
        ),
{
    lemma_growth(s, r, n);
    assert forall|k: nat| k < n implies merges_into_unused(#[trigger] run_for(s, r, k), r) by {
        lemma_run(s, r, k);
        lemma_new_is_unused(run_for(s, r, k), r);
    }
    lemma_unused_replays(s, r, limit, n);
}

/// The replay property of a finished run of discovery (see
/// `lemma_discovery_replays`).
pub proof fn lemma_finished_replays(s: TrainingView, r: RulesView, limit: int)
    requires
        covers(s, limit),
        r.prefix is None,
        r.max_token_length <= limit <= usize::MAX,
        finished(s, r).vocab.len() - s.vocab.len() == finished(s, r).merges.len() - s.merges.len(),
    ensures
        s.merges.len() <= finished(s, r).merges.len(),
        finished(s, r).corpus.words == replay_all(
            s.corpus.words,
            finished(s, r).merges.skip(s.merges.len() as int),
            r.max_token_length,
        ),
{
    let n = choose|n: nat| step(run_for(s, r, n), r) is None;
    lemma_discovery_replays(s, r, limit, n);
}

/// One of the `changes` is a gain of `pair`.
pub open spec fn gains_pair(changes: Seq<Change>, pair: Pair) -> bool {
    exists|j: int| 0 <= j < changes.len() && (#[trigger] changes[j]).0 == pair && changes[j].1 > 0
}

/// Noting a word for a pair notes nothing else.
pub proof fn lemma_noted_only(t: Seq<Option<MergeView>>, pair: Pair, iw: usize)
    ensures
        forall|p: Pair, w: usize| #[trigger]
            notes(noted(t, pair, iw), p, w) ==> notes(t, p, w) || (p == pair && w == iw),
{
    let n = noted(t, pair, iw);
    assert forall|p: Pair, w: usize| #[trigger] notes(n, p, w) implies notes(t, p, w) || (p == pair
        && w == iw) by {
        let i = choose|i: int| #[trigger] holds_pair(n, i, p) && n[i]->0.pos.contains(w);
        match slot_of(t, pair) {
            Some(k) => {
                assert(holds_pair(t, k, pair));
                if i != k {
                    assert(holds_pair(t, i, p));
                } else {
                    let had = t[k]->0.pos;
                    let x = choose|x: int| 0 <= x < n[i]->0.pos.len() && n[i]->0.pos[x] == w;
                    if x < had.len() {
                        assert(had[x] == w);
                        assert(holds_pair(t, k, p));
                    }
                }
            },
            None => {
                if i < t.len() {
                    assert(holds_pair(t, i, p));
                } else {
                    let x = choose|x: int| 0 <= x < n[i]->0.pos.len() && n[i]->0.pos[x] == w;
                    assert(seq![iw][x] == w);
                }
            },
        }
    }
}

/// Recording the changes of a word notes the word for the pairs that
/// gained an occurrence, and nothing else.
pub proof fn lemma_recorded_only(
    counts: Map<Pair, int>,
    pending: Seq<Option<MergeView>>,
    changes: Seq<Change>,
    iw: usize,
    freq: u64,
)
    ensures
        forall|p: Pair, w: usize| #[trigger]
            notes(recorded(counts, pending, changes, iw, freq).1, p, w) ==> notes(pending, p, w) || (
            w == iw && gains_pair(changes, p)),
    decreases changes.len(),
{
    if changes.len() > 0 {
        let head = changes.drop_last();
        lemma_recorded_only(counts, pending, head, iw, freq);
        let before = recorded(counts, pending, head, iw, freq);
        let after = recorded(counts, pending, changes, iw, freq);
        let change = changes.last();
        assert(change == changes[changes.len() - 1]);
        if change.1 > 0 {
            lemma_noted_only(before.1, change.0, iw);
        }
        assert forall|p: Pair, w: usize| #[trigger] notes(after.1, p, w) implies notes(pending, p, w)
            || (w == iw && gains_pair(changes, p)) by {
            if notes(before.1, p, w) {
                if !notes(pending, p, w) {
                    let j = choose|j: int|
                        0 <= j < head.len() && (#[trigger] head[j]).0 == p && head[j].1 > 0;
                    assert(changes[j] == head[j]);
                }
            }
        }
    }
}

/// The first count of the pairs notes a word for a pair only if the pair
/// stands in the word.
pub proof fn lemma_counted_only(words: Seq<Seq<Symbol>>, freqs: Seq<u64>, n: int)
    requires
        0 <= n <= words.len(),
        words.len() <= usize::MAX,
    ensures
        forall|p: Pair, w: usize| #[trigger]
            notes(counted_upto(words, freqs, n).1, p, w) ==> w < n && has_pair(
                words[w as int],
                p.0,
                p.1,
            ),
    decreases n,
{
    if n > 0 {
        lemma_counted_only(words, freqs, n - 1);
        let before = counted_upto(words, freqs, n - 1);
        let after = counted_upto(words, freqs, n);
        let word = words[n - 1];
        lemma_recorded_only(before.0, before.1, adjacent(word), (n - 1) as usize, freqs[n - 1]);
        assert forall|p: Pair, w: usize| #[trigger] notes(after.1, p, w) implies w < n && has_pair(
            words[w as int],
            p.0,
            p.1,
        ) by {
            if !notes(before.1, p, w) {
                let changes = adjacent(word);
                let j = choose|j: int|
                    0 <= j < changes.len() && (#[trigger] changes[j]).0 == p && changes[j].1 > 0;
                assert(word[j].c == p.0 && word[j + 1].c == p.1);
            }
        }
    } else {
        assert forall|p: Pair, w: usize| #[trigger]
            notes(counted_upto(words, freqs, n).1, p, w) implies false by {
            let i = choose|i: int| #[trigger]
                holds_pair(counted_upto(words, freqs, n).1, i, p);
        }
    }
}

/// The positions that the first count of the pairs notes for a pair are,
/// in ascending order, exactly the words in which the pair stands.
pub proof fn lemma_counted_positions(words: Seq<Seq<Symbol>>, freqs: Seq<u64>, i: int, w: usize)
    requires
        words.len() <= usize::MAX,
        0 <= i < counted(words, freqs).1.len(),
        counted(words, freqs).1[i] is Some,
    ensures
        ascending_upto(counted(words, freqs).1[i]->0.pos, words.len() as int),
        counted(words, freqs).1[i]->0.pos.contains(w) <==> w < words.len() && has_pair(
            words[w as int],
            counted(words, freqs).1[i]->0.pair.0,
            counted(words, freqs).1[i]->0.pair.1,
        ),
{
    let n = words.len() as int;
    let t = counted(words, freqs).1;
    let pair = t[i]->0.pair;
    lemma_counted_notes(words, freqs, n);
    lemma_counted_only(words, freqs, n);
    assert(holds_pair(t, i, pair));
    if t[i]->0.pos.contains(w) {
        assert(notes(t, pair, w));
    }
    if w < words.len() && has_pair(words[w as int], pair.0, pair.1) {
        let word = words[w as int];
        let j = choose|j: int|
            0 <= j && j + 1 < word.len() && (#[trigger] word[j]).c == pair.0 && word[j + 1].c == pair.1;
        let changes = adjacent(word);
        assert(changes[j] == (pair, 1i32));
        let k = w as int;
        assert(all_noted(counted_upto(words, freqs, n).1, adjacent(words[k]), k as usize));
        assert(notes(t, changes[j].0, w));
        let i2 = choose|i2: int| #[trigger] holds_pair(t, i2, pair) && t[i2]->0.pos.contains(w);
        assert(t[i2]->0.pair == t[i]->0.pair);
    }
}

/// The first count of the pairs leaves a table in order that has each
/// word noted for every pair that stands in it.
pub proof fn lemma_counted_notes(words: Seq<Seq<Symbol>>, freqs: Seq<u64>, n: int)
    requires
        0 <= n <= words.len(),
        words.len() <= usize::MAX,
    ensures
        one_slot_each(counted_upto(words, freqs, n).1),
        table_ascending(counted_upto(words, freqs, n).1, n),
        forall|i: int|
            0 <= i < n ==> #[trigger] all_noted(
                counted_upto(words, freqs, n).1,
                adjacent(words[i]),
                i as usize,
            ),
    decreases n,
{
    if n > 0 {
        lemma_counted_notes(words, freqs, n - 1);
        let before = counted_upto(words, freqs, n - 1);
        let after = counted_upto(words, freqs, n);
        let iw = (n - 1) as usize;
        assert(table_ascending(before.1, iw + 1)) by {
            assert forall|i: int| 0 <= i < before.1.len() && (#[trigger] before.1[i]) is Some implies ascending_upto(
                before.1[i]->0.pos,
                iw + 1,
            ) by {
                assert(ascending_upto(before.1[i]->0.pos, n - 1));
            }
        }
        lemma_recorded_notes(before.0, before.1, adjacent(words[n - 1]), iw, freqs[n - 1]);
        assert forall|i: int| 0 <= i < n implies #[trigger] all_noted(
            after.1,
            adjacent(words[i]),
            i as usize,
        ) by {
            let changes = adjacent(words[i]);
            if i < n - 1 {
                assert(all_noted(before.1, changes, i as usize));
                assert forall|j: int| 0 <= j < changes.len() && (#[trigger] changes[j]).1 > 0 implies notes(
                    after.1,
                    changes[j].0,
                    i as usize,
                ) by {
                    assert(notes(before.1, changes[j].0, i as usize));
                }
            }
        }
    }
}

/// Where every symbol of the encoded words has one character, discovery
/// starts from the words in order for the replay property.
pub proof fn lemma_started_covers(
    vocab: Seq<Seq<char>>,
    words: Seq<Seq<Symbol>>,
    freqs: Seq<u64>,
    limit: int,
)
    requires
        is_vocabulary(vocab),
        unit_words(words, vocab),
        words.len() == freqs.len(),
        words.len() <= usize::MAX,
        2 <= limit,
    ensures
        covers(started(vocab, words, freqs), limit),
{
    let s = started(vocab, words, freqs);
    let n = words.len() as int;
    let c = counted(words, freqs);
    assert(crate::corpus::words_below(words, vocab.len() as int)) by {
        assert forall|i: int| 0 <= i < words.len() implies crate::word::symbols_below(
            #[trigger] words[i],
            vocab.len() as int,
        ) by {
            assert(unit_symbols(words[i], vocab));
        }
    }
    lemma_counted_below(words, freqs, n, vocab.len() as int);
    lemma_priced_below(c.1, c.0, vocab.len() as int);
    lemma_counted_short(words, freqs, n, vocab);
    lemma_priced_short(c.1, c.0, vocab, 2);
    lemma_lens_stay(words, s.queue, vocab, vocab, 2, limit);
    lemma_counted_notes(words, freqs, n);
    assert forall|k: int| 0 <= k < s.queue.len() implies ascending_upto(
        (#[trigger] s.queue[k]).pos,
        usize::MAX + 1,
    ) && positions_complete(s.corpus.words, s.queue[k].pair, s.queue[k].pos) by {
        let e = s.queue[k];
        let i = lemma_priced_from_slots(c.1, c.0, k);
        assert(c.1[i] is Some);
        assert(ascending_upto(c.1[i]->0.pos, n));
        lemma_ascending_no_duplicates(e.pos, n);
        assert forall|w: int| 0 <= w < words.len() && has_pair(
            #[trigger] words[w],
            e.pair.0,
            e.pair.1,
        ) implies e.pos.contains(w as usize) by {
            let word = words[w];
            let j = choose|j: int|
                0 <= j && j + 1 < word.len() && (#[trigger] word[j]).c == e.pair.0 && word[j + 1].c
                    == e.pair.1;
            let changes = adjacent(word);
            assert(changes[j] == (e.pair, 1i32));
            assert(all_noted(c.1, adjacent(words[w]), w as usize));
            assert(notes(c.1, changes[j].0, w as usize));
            let i2 = choose|i2: int|
                #[trigger] holds_pair(c.1, i2, e.pair) && c.1[i2]->0.pos.contains(w as usize);
            assert(c.1[i2]->0.pair == c.1[i]->0.pair);
        }
    }
}

/// The replay property of training from the words alone: where no marker
/// is configured and the vocabulary has grown by one symbol with every
/// merge, the words at the end of the training are the encoded words with
/// the merges of the model applied to every one of them, in the order of
/// their ranks.
pub proof fn lemma_training_replays(
    vocab: Seq<Seq<char>>,
    words: Seq<Seq<Symbol>>,
    freqs: Seq<u64>,
    r: RulesView,
)
    requires
        is_vocabulary(vocab),
        unit_words(words, vocab),
        words.len() == freqs.len(),
        words.len() <= usize::MAX,
        r.prefix is None,
        finished(started(vocab, words, freqs), r).vocab.len() - vocab.len() == finished(
            started(vocab, words, freqs),
            r,
        ).merges.len(),
    ensures
        finished(started(vocab, words, freqs), r).corpus.words == replay_all(
            words,
            finished(started(vocab, words, freqs), r).merges,
            r.max_token_length,
        ),
{
    let s = started(vocab, words, freqs);
    let limit = if r.max_token_length >= 2 {
        r.max_token_length as int
    } else {
        2
    };
    lemma_started_covers(vocab, words, freqs, limit);
    lemma_finished_replays(s, r, limit);
    assert(finished(s, r).merges.skip(0) =~= finished(s, r).merges);
}

} // verus!
