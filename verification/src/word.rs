//! Words as sequences of symbols, and the rewriting of one pair inside a word.

use vstd::prelude::*;

verus! {

/// Two adjacent token ids, left then right.
pub type Pair = (u32, u32);

/// One occurrence gained (`1`) or lost (`-1`) by a pair.
pub type Change = (Pair, i32);

/// One symbol of a word: a token id and the number of characters it covers.
#[derive(Clone, Copy, Debug, PartialEq, Eq, Structural)]
pub struct Symbol {
    pub c: u32,
    pub len: usize,
}

/// A training word: the sequence of symbols it currently consists of.
pub struct Word {
    symbols: Vec<Symbol>,
}

/// The length of a symbol made of two, which stops at what `usize` can hold.
pub open spec fn joined_len(x: usize, y: usize) -> usize {
    if x + y > usize::MAX {
        usize::MAX
    } else {
        (x + y) as usize
    }
}

/// Whether a token made of symbols of lengths `x` and `y` stays within `max_len`.
pub open spec fn fits(x: usize, y: usize, max_len: usize) -> bool {
    x + y <= max_len
}

/// What a rewrite does to the pair formed with the symbol on its left:
/// the old adjacency is lost, and the new one is gained if a later merge
/// of it would stay within `max_len`.
pub open spec fn left_changes(prev: Option<Symbol>, a: u32, new: Symbol, max_len: usize) -> Seq<
    Change,
> {
    match prev {
        None => Seq::empty(),
        Some(p) => if fits(p.len, new.len, max_len) {
            seq![((p.c, a), -1i32), ((p.c, new.c), 1i32)]
        } else {
            seq![((p.c, a), -1i32)]
        },
    }
}

/// What a rewrite does to the pair formed with the symbol on its right.
pub open spec fn right_changes(next: Option<Symbol>, b: u32, new: Symbol, max_len: usize) -> Seq<
    Change,
> {
    match next {
        None => Seq::empty(),
        Some(n) => if fits(n.len, new.len, max_len) {
            seq![((b, n.c), -1i32), ((new.c, n.c), 1i32)]
        } else {
            seq![((b, n.c), -1i32)]
        },
    }
}

/// The symbol that follows position `i`, if there is one.
pub open spec fn symbol_at(s: Seq<Symbol>, i: int) -> Option<Symbol> {
    if 0 <= i < s.len() {
        Some(s[i])
    } else {
        None
    }
}

/// Rewrites `s` from position `i` on, left to right: every adjacency `(a, b)`
/// met becomes one symbol `c`, and the scan goes on behind it, so that
/// occurrences never overlap. `prev` is the symbol that now stands before
/// position `i`. Returns the rewritten symbols and the changes of pair
/// occurrences, in the order in which the rewrites cause them.
pub open spec fn rewrite(
    s: Seq<Symbol>,
    i: int,
    prev: Option<Symbol>,
    a: u32,
    b: u32,
    c: u32,
    max_len: usize,
) -> (Seq<Symbol>, Seq<Change>)
    decreases s.len() - i,
{
    if i < 0 || i >= s.len() {
        (Seq::empty(), Seq::empty())
    } else if i + 1 < s.len() && s[i].c == a && s[i + 1].c == b {
        let new = Symbol { c, len: joined_len(s[i].len, s[i + 1].len) };
        let rest = rewrite(s, i + 2, Some(new), a, b, c, max_len);
        (
            seq![new] + rest.0,
            left_changes(prev, a, new, max_len) + right_changes(
                symbol_at(s, i + 2),
                b,
                new,
                max_len,
            ) + rest.1,
        )
    } else {
        let rest = rewrite(s, i + 1, Some(s[i]), a, b, c, max_len);
        (seq![s[i]] + rest.0, rest.1)
    }
}

/// The word `s` after every non-overlapping occurrence of `(a, b)`, taken
/// from the left, has become `c`, with the changes of pair occurrences.
pub open spec fn merged(s: Seq<Symbol>, a: u32, b: u32, c: u32, max_len: usize) -> (
    Seq<Symbol>,
    Seq<Change>,
) {
    rewrite(s, 0, None, a, b, c, max_len)
}

/// Every token id in `s` is below `bound`.
pub open spec fn symbols_below(s: Seq<Symbol>, bound: int) -> bool {
    forall|j: int| 0 <= j < s.len() ==> (#[trigger] s[j]).c < bound
}

/// Every change is of a pair of token ids below `bound`.
pub open spec fn changes_below(d: Seq<Change>, bound: int) -> bool {
    forall|j: int| 0 <= j < d.len() ==> (#[trigger] d[j]).0.0 < bound && d[j].0.1 < bound
}

/// Every change is of one occurrence, gained or lost.
pub open spec fn unit_changes(d: Seq<Change>) -> bool {
    forall|j: int| 0 <= j < d.len() ==> (#[trigger] d[j]).1 == 1 || d[j].1 == -1
}

/// A rewrite never lengthens a word, causes at most four changes for each
/// symbol it removes, and leaves a word without an occurrence untouched.
pub proof fn lemma_rewrite_shape(
    s: Seq<Symbol>,
    i: int,
    prev: Option<Symbol>,
    a: u32,
    b: u32,
    c: u32,
    max_len: usize,
)
    requires
        0 <= i <= s.len(),
    ensures
        rewrite(s, i, prev, a, b, c, max_len).0.len() <= s.len() - i,
        rewrite(s, i, prev, a, b, c, max_len).1.len() <= 4 * (s.len() - i - rewrite(
            s,
            i,
            prev,
            a,
            b,
            c,
            max_len,
        ).0.len()),
        rewrite(s, i, prev, a, b, c, max_len).0.len() == s.len() - i ==> rewrite(
            s,
            i,
            prev,
            a,
            b,
            c,
            max_len,
        ) == (s.skip(i), Seq::<Change>::empty()),
        unit_changes(rewrite(s, i, prev, a, b, c, max_len).1),
    decreases s.len() - i,
{
    if i >= s.len() {
        assert(s.skip(i) =~= Seq::<Symbol>::empty());
    } else if i + 1 < s.len() && s[i].c == a && s[i + 1].c == b {
        let new = Symbol { c, len: joined_len(s[i].len, s[i + 1].len) };
        lemma_rewrite_shape(s, i + 2, Some(new), a, b, c, max_len);
        let rest = rewrite(s, i + 2, Some(new), a, b, c, max_len);
        let l = left_changes(prev, a, new, max_len);
        let r = right_changes(symbol_at(s, i + 2), b, new, max_len);
        assert(unit_changes(l));
        assert(unit_changes(r));
        assert(unit_changes(l + r + rest.1));
    } else {
        lemma_rewrite_shape(s, i + 1, Some(s[i]), a, b, c, max_len);
        let rest = rewrite(s, i + 1, Some(s[i]), a, b, c, max_len);
        if rest.0.len() == s.len() - i - 1 {
            assert(seq![s[i]] + s.skip(i + 1) =~= s.skip(i));
        }
    }
}

/// A rewrite brings in no token id but `c`, and its changes speak only of
/// token ids of the word and of `a`, `b` and `c`.
pub proof fn lemma_rewrite_ids(
    s: Seq<Symbol>,
    i: int,
    prev: Option<Symbol>,
    a: u32,
    b: u32,
    c: u32,
    max_len: usize,
    bound: int,
)
    requires
        0 <= i <= s.len(),
        symbols_below(s, bound),
        a < bound,
        b < bound,
        c < bound,
        prev matches Some(p) ==> p.c < bound,
    ensures
        symbols_below(rewrite(s, i, prev, a, b, c, max_len).0, bound),
        changes_below(rewrite(s, i, prev, a, b, c, max_len).1, bound),
    decreases s.len() - i,
{
    if i >= s.len() {
    } else if i + 1 < s.len() && s[i].c == a && s[i + 1].c == b {
        let new = Symbol { c, len: joined_len(s[i].len, s[i + 1].len) };
        lemma_rewrite_ids(s, i + 2, Some(new), a, b, c, max_len, bound);
        let rest = rewrite(s, i + 2, Some(new), a, b, c, max_len);
        let l = left_changes(prev, a, new, max_len);
        let r = right_changes(symbol_at(s, i + 2), b, new, max_len);
        assert(changes_below(l, bound));
        assert(changes_below(r, bound));
        assert(changes_below(l + r + rest.1, bound));
    } else {
        lemma_rewrite_ids(s, i + 1, Some(s[i]), a, b, c, max_len, bound);
    }
}

impl View for Word {
    type V = Seq<Symbol>;

    /// The symbols of the word, from left to right.
    closed spec fn view(&self) -> Seq<Symbol> {
        self.symbols@
    }
}

impl Word {
    /// An empty word.
    pub fn new() -> (w: Word)
        ensures
            w@ == Seq::<Symbol>::empty(),
    {
        Word { symbols: Vec::new() }
    }

    /// Appends a symbol with token id `c` that covers `len` characters.
    pub fn add(&mut self, c: u32, len: usize)
        ensures
            final(self)@ == old(self)@.push(Symbol { c, len }),
    {
        self.symbols.push(Symbol { c, len });
    }

    /// The number of symbols.
    pub fn len(&self) -> (n: usize)
        ensures
            n == self@.len(),
    {
        self.symbols.len()
    }

    /// The symbol at position `i`.
    pub fn symbol(&self, i: usize) -> (s: Symbol)
        requires
            i < self@.len(),
        ensures
            s == self@[i as int],
    {
        self.symbols[i]
    }

    /// The token ids of the symbols, in order.
    pub fn get_chars(&self) -> (ids: Vec<u32>)
        ensures
            ids@ == self@.map_values(|s: Symbol| s.c),
    {
        let mut ids: Vec<u32> = Vec::new();
        let mut i: usize = 0;
        while i < self.symbols.len()
            invariant
                i <= self.symbols.len(),
                ids@ == self.symbols@.take(i as int).map_values(|s: Symbol| s.c),
            decreases self.symbols.len() - i,
        {
            ids.push(self.symbols[i].c);
            assert(self.symbols@.take(i + 1).map_values(|s: Symbol| s.c)
                =~= self.symbols@.take(i as int).map_values(|s: Symbol| s.c).push(
                self.symbols@[i as int].c,
            ));
            i += 1;
        }
        assert(self.symbols@.take(self.symbols.len() as int) == self.symbols@);
        ids
    }

    /// Rewrites every occurrence of `(c1, c2)` to `replacement`, from the left
    /// and without overlap, and returns the changes of pair occurrences that
    /// this causes. A new adjacency whose merge would cover more than
    /// `max_length` characters is not reported as gained.
    pub fn merge(&mut self, c1: u32, c2: u32, replacement: u32, max_length: usize) -> (changes:
        Vec<Change>)
        ensures
            (final(self)@, changes@) == merged(old(self)@, c1, c2, replacement, max_length),
    {
        let n = self.symbols.len();
        let mut out: Vec<Symbol> = Vec::new();
        let mut changes: Vec<Change> = Vec::new();
        let mut prev: Option<Symbol> = None;
        let mut i: usize = 0;
        while i < n
            invariant
                n == self.symbols@.len(),
                i <= n,
                self.symbols@ == old(self).symbols@,
                merged(self.symbols@, c1, c2, replacement, max_length) == (
                    out@ + rewrite(self.symbols@, i as int, prev, c1, c2, replacement, max_length).0,
                    changes@ + rewrite(
                        self.symbols@,
                        i as int,
                        prev,
                        c1,
                        c2,
                        replacement,
                        max_length,
                    ).1,
                ),
            decreases n - i,
        {
            let first = self.symbols[i];
            if first.c == c1 && i + 1 < n && self.symbols[i + 1].c == c2 {
                let second = self.symbols[i + 1];
                let len = if first.len > usize::MAX - second.len {
                    usize::MAX
                } else {
                    first.len + second.len
                };
                let new = Symbol { c: replacement, len };
                let ghost rest = rewrite(
                    self.symbols@,
                    i + 2,
                    Some(new),
                    c1,
                    c2,
                    replacement,
                    max_length,
                );
                let ghost before = changes@;
                match prev {
                    Some(p) => {
                        changes.push(((p.c, c1), -1));
                        if p.len <= max_length && new.len <= max_length - p.len {
                            changes.push(((p.c, replacement), 1));
                        }
                    },
                    None => {},
                }
                assert(changes@ =~= before + left_changes(prev, c1, new, max_length));
                let ghost middle = changes@;
                if i + 2 < n {
                    let next = self.symbols[i + 2];
                    changes.push(((c2, next.c), -1));
                    if next.len <= max_length && new.len <= max_length - next.len {
                        changes.push(((replacement, next.c), 1));
                    }
                }
                assert(changes@ =~= middle + right_changes(
                    symbol_at(self.symbols@, i + 2),
                    c2,
                    new,
                    max_length,
                ));
                assert(changes@ + rest.1 =~= before + (left_changes(prev, c1, new, max_length)
                    + right_changes(symbol_at(self.symbols@, i + 2), c2, new, max_length)
                    + rest.1));
                assert(out@.push(new) + rest.0 =~= out@ + (seq![new] + rest.0));
                out.push(new);
                prev = Some(new);
                i += 2;
            } else {
                let ghost rest = rewrite(
                    self.symbols@,
                    i + 1,
                    Some(first),
                    c1,
                    c2,
                    replacement,
                    max_length,
                );
                assert(out@.push(first) + rest.0 =~= out@ + (seq![first] + rest.0));
                out.push(first);
                prev = Some(first);
                i += 1;
            }
        }
        assert(out@ + Seq::<Symbol>::empty() =~= out@);
        assert(changes@ + Seq::<Change>::empty() =~= changes@);
        self.symbols = out;
        changes
    }
}

} // verus!
