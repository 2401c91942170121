//! The parameters of a training run, how a merged symbol is formed, and the
//! filters that keep a candidate from being merged.

use vstd::prelude::*;

verus! {

/// The character that marks where a word began in the text.
pub const SENTINEL: char = '\u{120}';

/// The largest number of sentinel-separated groups that a merged symbol may hold.
pub const MAX_GROUPS: usize = 20;

/// Which candidates the discovery of merges passes over.
#[derive(Clone, Copy, Debug, PartialEq, Eq, Structural)]
pub struct MergeFilters {
    /// Pass over a candidate whose symbol would hold more than
    /// `MAX_GROUPS` groups of characters between sentinels.
    pub sentinel_cap: bool,
    /// Pass over a candidate whose left symbol ends, or whose right symbol
    /// begins, with an ASCII digit.
    pub digit_guard: bool,
}

/// What the discovery of merges goes by.
pub struct Rules {
    /// The count below which no pair is merged.
    pub min_frequency: u64,
    /// The number of symbols at which discovery stops.
    pub vocab_size: usize,
    /// The marker that begins every symbol that does not begin a word.
    pub prefix: Option<Vec<char>>,
    /// The number of characters that no learned symbol is to exceed.
    pub max_token_length: usize,
    /// The candidates to pass over.
    pub filters: MergeFilters,
}

/// The rules as mathematical values.
pub struct RulesView {
    pub min_frequency: u64,
    pub vocab_size: usize,
    pub prefix: Option<Seq<char>>,
    pub max_token_length: usize,
    pub filters: MergeFilters,
}

/// The characters of an optional marker.
pub open spec fn marker_view(m: Option<Vec<char>>) -> Option<Seq<char>> {
    match m {
        Some(p) => Some(p@),
        None => None,
    }
}

impl View for Rules {
    type V = RulesView;

    /// The rules with the marker as a sequence of characters.
    open spec fn view(&self) -> RulesView {
        RulesView {
            min_frequency: self.min_frequency,
            vocab_size: self.vocab_size,
            prefix: marker_view(self.prefix),
            max_token_length: self.max_token_length,
            filters: self.filters,
        }
    }
}

/// The number of characters of `right` that the marker takes up: all of
/// the marker if `right` begins with it, none otherwise.
pub open spec fn marker_len(right: Seq<char>, prefix: Option<Seq<char>>) -> int {
    match prefix {
        Some(p) => if p.is_prefix_of(right) {
            p.len() as int
        } else {
            0
        },
        None => 0,
    }
}

/// `right` without the marker that it may begin with.
pub open spec fn stripped(right: Seq<char>, prefix: Option<Seq<char>>) -> Seq<char> {
    right.skip(marker_len(right, prefix))
}

/// The symbol that the merge of `left` and `right` gives.
pub open spec fn joined(left: Seq<char>, right: Seq<char>, prefix: Option<Seq<char>>) -> Seq<char> {
    left + stripped(right, prefix)
}

/// `c` is one of `0` to `9`.
pub open spec fn is_digit(c: char) -> bool {
    '0' <= c <= '9'
}

/// A group of characters between sentinels begins at position `i` of `t`.
pub open spec fn group_starts(t: Seq<char>, i: int) -> bool {
    t[i] != SENTINEL && (i == 0 || t[i - 1] == SENTINEL)
}

/// The number of groups that begin in the first `n` characters of `t`.
pub open spec fn groups_upto(t: Seq<char>, n: int) -> int
    decreases n,
{
    if n <= 0 {
        0
    } else {
        groups_upto(t, n - 1) + if group_starts(t, n - 1) {
            1int
        } else {
            0int
        }
    }
}

/// The number of non-empty groups that the sentinels divide `t` into.
pub open spec fn group_count(t: Seq<char>) -> int {
    groups_upto(t, t.len() as int)
}

/// `left` ends with a digit or `right` begins with one.
pub open spec fn digit_boundary(left: Seq<char>, right: Seq<char>) -> bool {
    (left.len() > 0 && is_digit(left.last())) || (right.len() > 0 && is_digit(right.first()))
}

/// The filters pass over the merge of `left` and `right`, the latter
/// already without its marker.
pub open spec fn rejected(filters: MergeFilters, left: Seq<char>, right: Seq<char>) -> bool {
    (filters.sentinel_cap && group_count(left + right) > MAX_GROUPS) || (filters.digit_guard
        && digit_boundary(left, right))
}

/// Whether `s` begins with `p`.
pub fn starts_with(s: &Vec<char>, p: &Vec<char>) -> (b: bool)
    ensures
        b == p@.is_prefix_of(s@),
{
    if p.len() > s.len() {
        return false;
    }
    let mut i: usize = 0;
    while i < p.len()
        invariant
            i <= p.len() <= s.len(),
            forall|j: int| 0 <= j < i ==> p@[j] == s@[j],
        decreases p.len() - i,
    {
        if p[i] != s[i] {
            assert(!(p@ =~= s@.subrange(0, p@.len() as int))) by {
                assert(s@.subrange(0, p@.len() as int)[i as int] == s@[i as int]);
            }
            return false;
        }
        i += 1;
    }
    assert(p@ =~= s@.subrange(0, p@.len() as int));
    true
}

/// The number of characters of `right` that the marker takes up.
pub fn marker_len_of(right: &Vec<char>, prefix: &Option<Vec<char>>) -> (n: usize)
    ensures
        n == marker_len(right@, marker_view(*prefix)),
        n <= right@.len(),
{
    match prefix {
        Some(p) => {
            if starts_with(right, p) {
                p.len()
            } else {
                0
            }
        },
        None => 0,
    }
}

/// The symbol that the merge of `left` and `right` gives.
pub fn join(left: &Vec<char>, right: &Vec<char>, prefix: &Option<Vec<char>>) -> (token: Vec<char>)
    ensures
        token@ == joined(left@, right@, marker_view(*prefix)),
        token@.len() <= usize::MAX,
{
    let start = marker_len_of(right, prefix);
    let mut token: Vec<char> = Vec::new();
    let mut i: usize = 0;
    while i < left.len()
        invariant
            i <= left.len(),
            token@ == left@.take(i as int),
        decreases left.len() - i,
    {
        token.push(left[i]);
        assert(left@.take(i as int).push(left@[i as int]) =~= left@.take(i + 1));
        i += 1;
    }
    assert(left@.take(left.len() as int) =~= left@);
    let mut j: usize = start;
    assert(right@.skip(start as int).take(0) =~= Seq::<char>::empty());
    assert(left@ + Seq::<char>::empty() =~= left@);
    while j < right.len()
        invariant
            start <= j <= right.len(),
            token@ == left@ + right@.skip(start as int).take(j - start),
        decreases right.len() - j,
    {
        token.push(right[j]);
        assert(right@.skip(start as int).take(j - start).push(right@[j as int]) =~= right@.skip(
            start as int,
        ).take(j + 1 - start));
        assert((left@ + right@.skip(start as int).take(j - start)).push(right@[j as int]) =~= left@
            + right@.skip(start as int).take(j - start).push(right@[j as int]));
        j += 1;
    }
    assert(right@.skip(start as int).take(right.len() - start) =~= right@.skip(start as int));
    assert(token@.len() == token.len());
    token
}

/// The number of non-empty groups that the sentinels divide `t` into.
pub fn count_groups(t: &Vec<char>) -> (n: usize)
    ensures
        n == group_count(t@),
{
    let mut n: usize = 0;
    let mut i: usize = 0;
    while i < t.len()
        invariant
            i <= t.len(),
            n == groups_upto(t@, i as int),
            n <= i,
        decreases t.len() - i,
    {
        if t[i] != SENTINEL && (i == 0 || t[i - 1] == SENTINEL) {
            n += 1;
        }
        i += 1;
    }
    n
}

/// Whether `c` is one of `0` to `9`.
pub fn digit(c: char) -> (b: bool)
    ensures
        b == is_digit(c),
{
    '0' <= c && c <= '9'
}

/// Whether the filters pass over the merge of `left` and `right`, whose
/// first `start` characters are its marker, into `token`.
pub fn rejects(
    filters: MergeFilters,
    left: &Vec<char>,
    right: &Vec<char>,
    start: usize,
    token: &Vec<char>,
) -> (b: bool)
    requires
        start <= right@.len(),
        token@ == left@ + right@.skip(start as int),
    ensures
        b == rejected(filters, left@, right@.skip(start as int)),
{
    if filters.sentinel_cap && count_groups(token) > MAX_GROUPS {
        return true;
    }
    if filters.digit_guard {
        if left.len() > 0 && digit(left[left.len() - 1]) {
            return true;
        }
        if start < right.len() && digit(right[start]) {
            return true;
        }
    }
    false
}

} // verus!
