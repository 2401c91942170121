//! The line-oriented listings that carry an earlier training into a new
//! one: symbols with their ids, and merges.
//!
//! A listing is cut into lines at every line feed, and a carriage return
//! before a line feed belongs to the line end. A line is cut into fields at
//! every space.

use crate::rules::{digit, is_digit};
use crate::trainer::TrainError;
use crate::vocab::{grown_from, Vocab};
use vstd::prelude::*;

verus! {

/// The number of characters from position `from` of `t` on that come
/// before the next `c`, or before the end of `t` if no `c` follows.
pub open spec fn run_len(t: Seq<char>, from: int, c: char) -> nat
    decreases t.len() - from,
{
    if from < 0 || from >= t.len() || t[from] == c {
        0
    } else {
        1 + run_len(t, from + 1, c)
    }
}

/// The first position at or behind `from` at which `t` holds `c`, or the
/// length of `t` if there is none.
pub open spec fn find(t: Seq<char>, from: int, c: char) -> int {
    from + run_len(t, from, c)
}

/// The line that begins at `from` and ends before the line feed at `end`,
/// or at the end of the text.
pub open spec fn line_between(t: Seq<char>, from: int, end: int) -> Seq<char> {
    if end < t.len() && from < end && t[end - 1] == '\r' {
        t.subrange(from, end - 1)
    } else {
        t.subrange(from, end)
    }
}

/// The lines of `t` from position `from` on.
pub open spec fn lines_from(t: Seq<char>, from: int) -> Seq<Seq<char>>
    decreases t.len() - from,
{
    if from < 0 || from >= t.len() {
        Seq::empty()
    } else {
        let end = find(t, from, '\n');
        if end < t.len() {
            seq![line_between(t, from, end)] + lines_from(t, end + 1)
        } else {
            seq![line_between(t, from, end)]
        }
    }
}

/// The lines of `t`.
pub open spec fn lines_of(t: Seq<char>) -> Seq<Seq<char>> {
    lines_from(t, 0)
}

/// The first field of `line`.
pub open spec fn first_field(line: Seq<char>) -> Seq<char> {
    line.subrange(0, find(line, 0, ' '))
}

/// The second field of `line`, if it has one.
pub open spec fn second_field(line: Seq<char>) -> Option<Seq<char>> {
    let e = find(line, 0, ' ');
    if e >= line.len() {
        None
    } else {
        Some(line.subrange(e + 1, find(line, e + 1, ' ')))
    }
}

/// The number that the decimal digits `s` stand for.
pub open spec fn digits_value(s: Seq<char>) -> int
    decreases s.len(),
{
    if s.len() == 0 {
        0
    } else {
        digits_value(s.drop_last()) * 10 + (s.last() as int - '0' as int)
    }
}

/// Every character of `s` is a decimal digit.
pub open spec fn all_digits(s: Seq<char>) -> bool {
    forall|i: int| 0 <= i < s.len() ==> is_digit(#[trigger] s[i])
}

/// The token id that `s` stands for: one or more decimal digits, which a
/// plus sign may precede, with a value that is a token id.
pub open spec fn parsed_id(s: Seq<char>) -> Option<u32> {
    let d = if s.len() > 0 && s[0] == '+' {
        s.skip(1)
    } else {
        s
    };
    if d.len() > 0 && all_digits(d) && digits_value(d) <= u32::MAX {
        Some(digits_value(d) as u32)
    } else {
        None
    }
}

/// The symbol and the id that `line` lists: its first two fields, the
/// second of which is a number.
pub open spec fn entry_of(line: Seq<char>) -> Option<(Seq<char>, u32)> {
    match second_field(line) {
        None => None,
        Some(f) => match parsed_id(f) {
            None => None,
            Some(id) => Some((first_field(line), id)),
        },
    }
}

/// The two symbols that `line` lists: its first two fields.
pub open spec fn merge_of(line: Seq<char>) -> Option<(Seq<char>, Seq<char>)> {
    match second_field(line) {
        None => None,
        Some(f) => Some((first_field(line), f)),
    }
}

/// The vocabulary after the first `n` lines of a symbol listing were
/// loaded, or the first fault in them. Each line must list a symbol that
/// has no id yet, with the id that is the number of symbols before it.
pub open spec fn listed_upto(vocab: Seq<Seq<char>>, lines: Seq<Seq<char>>, n: int) -> Result<
    Seq<Seq<char>>,
    TrainError,
>
    decreases n,
{
    if n <= 0 {
        Ok(vocab)
    } else {
        match listed_upto(vocab, lines, n - 1) {
            Err(e) => Err(e),
            Ok(v) => match entry_of(lines[n - 1]) {
                None => Err(TrainError::MalformedEntry { line: (n - 1) as usize }),
                Some(entry) => if entry.1 != v.len() {
                    Err(TrainError::IdOutOfSequence { line: (n - 1) as usize })
                } else if v.contains(entry.0) {
                    Err(TrainError::DuplicateSymbol { line: (n - 1) as usize })
                } else {
                    Ok(v.push(entry.0))
                },
            },
        }
    }
}

/// The vocabulary after the symbol listing `text` was loaded, or the first
/// fault in the listing.
pub open spec fn listed(vocab: Seq<Seq<char>>, text: Seq<char>) -> Result<
    Seq<Seq<char>>,
    TrainError,
> {
    listed_upto(vocab, lines_of(text), lines_of(text).len() as int)
}

/// The merges that lines `1` to `n - 1` of a merge listing give, or the
/// first fault in them. Line `0` is a header and gives none.
pub open spec fn merges_upto(lines: Seq<Seq<char>>, n: int) -> Result<
    Seq<(Seq<char>, Seq<char>)>,
    TrainError,
>
    decreases n,
{
    if n <= 1 {
        Ok(Seq::empty())
    } else {
        match merges_upto(lines, n - 1) {
            Err(e) => Err(e),
            Ok(m) => match merge_of(lines[n - 1]) {
                None => Err(TrainError::MalformedMerge { line: (n - 1) as usize }),
                Some(pair) => Ok(m.push(pair)),
            },
        }
    }
}

/// The merges that the merge listing `text` gives, or the first fault in it.
pub open spec fn merges_listed(text: Seq<char>) -> Result<Seq<(Seq<char>, Seq<char>)>, TrainError> {
    merges_upto(lines_of(text), lines_of(text).len() as int)
}

/// The symbols of listed merges as mathematical values.
pub open spec fn listed_views(m: Seq<(Vec<char>, Vec<char>)>) -> Seq<(Seq<char>, Seq<char>)> {
    m.map_values(|e: (Vec<char>, Vec<char>)| (e.0@, e.1@))
}

/// The lines of a text as mathematical values.
pub open spec fn line_views(lines: Seq<Vec<char>>) -> Seq<Seq<char>> {
    lines.map_values(|l: Vec<char>| l@)
}

/// The digits read so far stand for no more than all of them do.
pub proof fn lemma_digits_grow(s: Seq<char>, k: int)
    requires
        all_digits(s),
        0 <= k <= s.len(),
    ensures
        0 <= digits_value(s.take(k)) <= digits_value(s),
    decreases s.len() - k,
{
    if k < s.len() {
        lemma_digits_grow(s, k + 1);
        assert(s.take(k + 1).drop_last() =~= s.take(k));
        assert(is_digit(s[k]));
        lemma_digits_nonneg(s.take(k));
    } else {
        assert(s.take(k) =~= s);
        lemma_digits_nonneg(s);
    }
}

/// Digits stand for no negative number.
pub proof fn lemma_digits_nonneg(s: Seq<char>)
    requires
        all_digits(s),
    ensures
        0 <= digits_value(s),
    decreases s.len(),
{
    if s.len() > 0 {
        assert(is_digit(s[s.len() - 1]));
        lemma_digits_nonneg(s.drop_last());
    }
}

/// The first position at or behind `from` at which `t` holds `c`.
pub fn find_char(t: &Vec<char>, from: usize, c: char) -> (at: usize)
    requires
        from <= t@.len(),
    ensures
        at == find(t@, from as int, c),
        from <= at <= t@.len(),
{
    let mut i: usize = from;
    while i < t.len() && t[i] != c
        invariant
            from <= i <= t.len(),
            find(t@, from as int, c) == find(t@, i as int, c),
        decreases t.len() - i,
    {
        i += 1;
    }
    i
}

/// The characters of `t` from `from` up to `to`.
pub fn slice(t: &Vec<char>, from: usize, to: usize) -> (out: Vec<char>)
    requires
        from <= to <= t@.len(),
    ensures
        out@ == t@.subrange(from as int, to as int),
{
    let mut out: Vec<char> = Vec::new();
    let mut i: usize = from;
    while i < to
        invariant
            from <= i <= to <= t.len(),
            out@ == t@.subrange(from as int, i as int),
        decreases to - i,
    {
        out.push(t[i]);
        assert(t@.subrange(from as int, i as int).push(t@[i as int]) =~= t@.subrange(
            from as int,
            i + 1,
        ));
        i += 1;
    }
    out
}

/// The lines of `t`.
pub fn split_lines(t: &Vec<char>) -> (lines: Vec<Vec<char>>)
    ensures
        line_views(lines@) == lines_of(t@),
{
    let mut lines: Vec<Vec<char>> = Vec::new();
    let mut from: usize = 0;
    assert(line_views(lines@) =~= Seq::<Seq<char>>::empty());
    while from < t.len()
        invariant
            from <= t.len(),
            lines_of(t@) == line_views(lines@) + lines_from(t@, from as int),
        decreases t.len() - from,
    {
        let end = find_char(t, from, '\n');
        let stop = if end < t.len() && from < end && t[end - 1] == '\r' {
            end - 1
        } else {
            end
        };
        let line = slice(t, from, stop);
        let ghost done = line_views(lines@);
        let ghost rest = if end < t.len() {
            lines_from(t@, end + 1)
        } else {
            Seq::empty()
        };
        lines.push(line);
        proof {
            assert(line_views(lines@) =~= done.push(line@));
            assert(done.push(line@) + rest =~= done + (seq![line@] + rest));
            assert(seq![line@] + Seq::<Seq<char>>::empty() =~= seq![line@]);
        }
        if end == t.len() {
            from = end;
        } else {
            from = end + 1;
        }
    }
    assert(line_views(lines@) + Seq::<Seq<char>>::empty() =~= line_views(lines@));
    lines
}

/// The token id that `s` stands for.
pub fn parse_id(s: &Vec<char>) -> (id: Option<u32>)
    ensures
        id == parsed_id(s@),
{
    let start: usize = if s.len() > 0 && s[0] == '+' {
        1
    } else {
        0
    };
    let ghost d = if s@.len() > 0 && s@[0] == '+' {
        s@.skip(1)
    } else {
        s@
    };
    assert(d =~= s@.skip(start as int));
    if start == s.len() {
        return None;
    }
    let mut value: u64 = 0;
    let mut i: usize = start;
    assert(d.take(0) =~= Seq::<char>::empty());
    while i < s.len()
        invariant
            start <= i <= s.len(),
            d == s@.skip(start as int),
            d == if s@.len() > 0 && s@[0] == '+' {
                s@.skip(1)
            } else {
                s@
            },
            d.len() > 0,
            all_digits(d.take(i - start)),
            value == digits_value(d.take(i - start)),
            value <= u32::MAX,
        decreases s.len() - i,
    {
        let c = s[i];
        assert(d[i - start] == c);
        if !digit(c) {
            return None;
        }
        proof {
            assert(d.take(i + 1 - start).drop_last() =~= d.take(i - start));
            assert(d.take(i + 1 - start).last() == c);
            assert forall|j: int| 0 <= j < i + 1 - start implies is_digit(
                #[trigger] d.take(i + 1 - start)[j],
            ) by {
                if j < i - start {
                    assert(d.take(i - start)[j] == d[j]);
                }
            }
        }
        let next = value * 10 + (c as u64 - '0' as u64);
        if next > u32::MAX as u64 {
            proof {
                if all_digits(d) {
                    lemma_digits_grow(d, i + 1 - start);
                }
            }
            return None;
        }
        value = next;
        i += 1;
    }
    proof {
        assert(d.take(s.len() - start) =~= d);
    }
    Some(value as u32)
}

/// The symbol and the id that `line` lists.
pub fn parse_entry(line: &Vec<char>) -> (entry: Option<(Vec<char>, u32)>)
    ensures
        match entry_of(line@) {
            Some(e) => entry matches Some(x) && x.0@ == e.0 && x.1 == e.1,
            None => entry is None,
        },
{
    let e = find_char(line, 0, ' ');
    if e >= line.len() {
        return None;
    }
    let f = find_char(line, e + 1, ' ');
    let number = slice(line, e + 1, f);
    match parse_id(&number) {
        Some(id) => Some((slice(line, 0, e), id)),
        None => None,
    }
}

/// The two symbols that `line` lists.
pub fn parse_merge(line: &Vec<char>) -> (pair: Option<(Vec<char>, Vec<char>)>)
    ensures
        match merge_of(line@) {
            Some(m) => pair matches Some(x) && x.0@ == m.0 && x.1@ == m.1,
            None => pair is None,
        },
{
    let e = find_char(line, 0, ' ');
    if e >= line.len() {
        return None;
    }
    let f = find_char(line, e + 1, ' ');
    Some((slice(line, 0, e), slice(line, e + 1, f)))
}

/// Loads the symbol listing `text` into the vocabulary, up to its first
/// fault. The symbols that were there keep their ids in any case.
pub fn load_symbols(vocab: &mut Vocab, text: &Vec<char>) -> (r: Result<(), TrainError>)
    requires
        old(vocab).wf(),
    ensures
        final(vocab).wf(),
        grown_from(final(vocab)@, old(vocab)@),
        match listed(old(vocab)@, text@) {
            Ok(v) => r is Ok && final(vocab)@ == v,
            Err(e) => r == Err::<(), TrainError>(e),
        },
        r is Err ==> exists|k: int|
            0 <= k && #[trigger] listed_upto(old(vocab)@, lines_of(text@), k) == Ok::<
                Seq<Seq<char>>,
                TrainError,
            >(final(vocab)@) && listed_upto(old(vocab)@, lines_of(text@), k + 1) is Err,
{
    let lines = split_lines(text);
    let ghost ls = lines_of(text@);
    let ghost v0 = vocab@;
    let mut i: usize = 0;
    while i < lines.len()
        invariant
            i <= lines.len(),
            ls == line_views(lines@),
            ls == lines_of(text@),
            v0 == old(vocab)@,
            vocab.wf(),
            grown_from(vocab@, v0),
            listed_upto(v0, ls, i as int) == Ok::<Seq<Seq<char>>, TrainError>(vocab@),
        decreases lines.len() - i,
    {
        assert(ls[i as int] == lines@[i as int]@);
        let n = vocab.len();
        match parse_entry(&lines[i]) {
            None => {
                proof {
                    lemma_listed_stays_err(v0, ls, i + 1, ls.len() as int);
                    assert(listed_upto(v0, ls, i + 1) is Err);
                }
                return Err(TrainError::MalformedEntry { line: i });
            },
            Some(entry) => {
                if entry.1 as usize != n {
                    proof {
                        lemma_listed_stays_err(v0, ls, i + 1, ls.len() as int);
                        assert(listed_upto(v0, ls, i + 1) is Err);
                    }
                    return Err(TrainError::IdOutOfSequence { line: i });
                }
                if vocab.get(&entry.0).is_some() {
                    proof {
                        lemma_listed_stays_err(v0, ls, i + 1, ls.len() as int);
                        assert(listed_upto(v0, ls, i + 1) is Err);
                    }
                    return Err(TrainError::DuplicateSymbol { line: i });
                }
                let ghost here = vocab@;
                let id = vocab.intern(entry.0);
                assert(grown_from(vocab@, here));
            },
        }
        i += 1;
    }
    Ok(())
}

/// The merges that the merge listing `text` gives.
pub fn load_merges(text: &Vec<char>) -> (r: Result<Vec<(Vec<char>, Vec<char>)>, TrainError>)
    ensures
        match merges_listed(text@) {
            Ok(m) => r is Ok && listed_views(r->Ok_0@) == m,
            Err(e) => r == Err::<Vec<(Vec<char>, Vec<char>)>, TrainError>(e),
        },
{
    let lines = split_lines(text);
    let ghost ls = lines_of(text@);
    let mut merges: Vec<(Vec<char>, Vec<char>)> = Vec::new();
    if lines.len() <= 1 {
        assert(listed_views(merges@) =~= Seq::<(Seq<char>, Seq<char>)>::empty());
        return Ok(merges);
    }
    let mut i: usize = 1;
    assert(listed_views(merges@) =~= Seq::<(Seq<char>, Seq<char>)>::empty());
    while i < lines.len()
        invariant
            1 <= i <= lines.len(),
            ls == line_views(lines@),
            ls == lines_of(text@),
            merges_upto(ls, i as int) == Ok::<Seq<(Seq<char>, Seq<char>)>, TrainError>(
                listed_views(merges@),
            ),
        decreases lines.len() - i,
    {
        assert(ls[i as int] == lines@[i as int]@);
        let ghost done = listed_views(merges@);
        match parse_merge(&lines[i]) {
            None => {
                proof {
                    lemma_merges_stay_err(ls, i + 1, ls.len() as int);
                }
                return Err(TrainError::MalformedMerge { line: i });
            },
            Some(pair) => {
                let ghost pv = (pair.0@, pair.1@);
                merges.push(pair);
                assert(listed_views(merges@) =~= done.push(pv));
            },
        }
        i += 1;
    }
    Ok(merges)
}

/// The first fault in a symbol listing is the fault of the whole listing.
pub proof fn lemma_listed_stays_err(vocab: Seq<Seq<char>>, lines: Seq<Seq<char>>, i: int, n: int)
    requires
        listed_upto(vocab, lines, i) is Err,
        i <= n,
    ensures
        listed_upto(vocab, lines, n) == listed_upto(vocab, lines, i),
    decreases n,
{
    if i < n {
        lemma_listed_stays_err(vocab, lines, i, n - 1);
    }
}

/// The first fault in a merge listing is the fault of the whole listing.
pub proof fn lemma_merges_stay_err(lines: Seq<Seq<char>>, i: int, n: int)
    requires
        merges_upto(lines, i) is Err,
        i <= n,
    ensures
        merges_upto(lines, n) == merges_upto(lines, i),
    decreases n,
{
    if i < n {
        lemma_merges_stay_err(lines, i, n - 1);
    }
}

} // verus!
