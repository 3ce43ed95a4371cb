//! Ratcliff–Obershelp similarity over interned token streams.
//!
//! This is the measure that decides whether two pieces of code are "the same
//! logic":
//!
//! > `ratio = 2 * M / T`, where `T` is the combined length of both sequences
//! > and `M` is the total size of the matching blocks found by recursively
//! > taking the longest matching block and recursing into the regions left and
//! > right of it.
//!
//! Only *contiguous* runs count, which is what "copy-pasted then edited" looks
//! like; scattered boilerplate shared by two functions does not add up.
//!
//! # The three-tier prune
//!
//! Comparing every pair of units is quadratic, and [`ratio`] is the expensive
//! part. Two cheap upper bounds run first: [`real_quick_ratio`], from the two
//! lengths alone, and [`quick_ratio`], from the token multisets.
//! [`lemma_quick_ratio_bounds_ratio`] and [`lemma_real_quick_ratio_bounds_quick_ratio`]
//! state that a pair ruled out by either could never have passed.

use std::collections::HashMap;

use vstd::multiset::Multiset;
use vstd::prelude::*;

use crate::ratio::Ratio;

verus! {

broadcast use vstd::std_specs::hash::group_hash_axioms;

/// A run of tokens common to both sequences.
#[derive(Clone, Copy, Debug, PartialEq, Eq, Structural)]
pub struct Match {
    /// Start index in the first sequence.
    pub a: usize,
    /// Start index in the second sequence.
    pub b: usize,
    /// Length of the run.
    pub size: usize,
}

/// A region of two sequences: `a[a_lo..a_hi]` beside `b[b_lo..b_hi]`.
#[derive(Clone, Copy, Debug)]
pub struct Window {
    /// First index in the first sequence.
    pub a_lo: usize,
    /// One past the last index in the first sequence.
    pub a_hi: usize,
    /// First index in the second sequence.
    pub b_lo: usize,
    /// One past the last index in the second sequence.
    pub b_hi: usize,
}

impl Window {
    /// The window lies inside the two sequences.
    pub open spec fn fits(self, a: Seq<u32>, b: Seq<u32>) -> bool {
        self.a_lo <= self.a_hi <= a.len() && self.b_lo <= self.b_hi <= b.len()
    }

    /// What lies before `m` in both sequences.
    pub open spec fn left_of(self, m: Match) -> Window {
        Window { a_lo: self.a_lo, a_hi: m.a, b_lo: self.b_lo, b_hi: m.b }
    }

    /// What lies after `m` in both sequences.
    pub open spec fn right_of(self, m: Match) -> Window {
        Window {
            a_lo: (m.a + m.size) as usize,
            a_hi: self.a_hi,
            b_lo: (m.b + m.size) as usize,
            b_hi: self.b_hi,
        }
    }
}

/// `m` is a run of equal tokens inside the window, possibly an empty one.
pub open spec fn common_run(a: Seq<u32>, b: Seq<u32>, w: Window, m: Match) -> bool {
    &&& w.a_lo <= m.a && m.a + m.size <= w.a_hi
    &&& w.b_lo <= m.b && m.b + m.size <= w.b_hi
    &&& forall|p: int| m.a <= p < m.a + m.size ==> #[trigger] a[p] == b[p - m.a + m.b]
}

/// `m` is preferred to `x`: it is longer, or as long and earlier in the first
/// sequence, or level there and no later in the second.
pub open spec fn preferred(m: Match, x: Match) -> bool {
    m.size > x.size || (m.size == x.size && (m.a < x.a || (m.a == x.a && m.b <= x.b)))
}

/// `m` is the longest common run of the window, the earliest among equals.
pub open spec fn is_longest(a: Seq<u32>, b: Seq<u32>, w: Window, m: Match) -> bool {
    &&& common_run(a, b, w, m)
    &&& forall|x: Match| #[trigger] common_run(a, b, w, x) ==> preferred(m, x)
}

/// The longest common run of the window.
pub open spec fn longest(a: Seq<u32>, b: Seq<u32>, w: Window) -> Match {
    choose|m: Match| is_longest(a, b, w, m)
}

/// The matching blocks of the window, left to right: those left of the longest
/// run, the longest run, those right of it.
pub open spec fn blocks_in(a: Seq<u32>, b: Seq<u32>, w: Window) -> Seq<Match>
    decreases w.a_hi - w.a_lo,
{
    let m = longest(a, b, w);
    if m.size == 0 || !common_run(a, b, w, m) {
        Seq::empty()
    } else {
        blocks_in(a, b, w.left_of(m)).push(m) + blocks_in(a, b, w.right_of(m))
    }
}

/// Combined size of a list of blocks.
pub open spec fn total_size(blocks: Seq<Match>) -> nat
    decreases blocks.len(),
{
    if blocks.len() == 0 {
        0
    } else {
        total_size(blocks.drop_last()) + blocks.last().size as nat
    }
}

/// Both sequences in full.
pub open spec fn whole(a: Seq<u32>, b: Seq<u32>) -> Window {
    Window { a_lo: 0, a_hi: a.len() as usize, b_lo: 0, b_hi: b.len() as usize }
}

/// The matching blocks of two sequences.
pub open spec fn blocks_of(a: Seq<u32>, b: Seq<u32>) -> Seq<Match> {
    blocks_in(a, b, whole(a, b))
}

/// `n`, or the largest count a score can hold.
pub open spec fn capped(n: nat) -> u64 {
    if n <= u64::MAX {
        n as u64
    } else {
        u64::MAX
    }
}

/// The score of `hits` tokens found on both sides, of `total` tokens on the two
/// sides together. Two empty sequences are identical.
pub open spec fn score_of(hits: nat, total: nat) -> Ratio {
    if total == 0 {
        Ratio { num: 1, den: 1 }
    } else {
        Ratio { num: capped(2 * hits), den: capped(total) }
    }
}

/// Ratcliff–Obershelp similarity.
pub open spec fn ratio_of(a: Seq<u32>, b: Seq<u32>) -> Ratio {
    score_of(total_size(blocks_of(a, b)), a.len() + b.len())
}

/// The tokens two sequences have in common, with multiplicity, order ignored.
pub open spec fn shared(a: Seq<u32>, b: Seq<u32>) -> nat {
    a.to_multiset().intersection_with(b.to_multiset()).len()
}

/// The bound that ignores order.
pub open spec fn quick_ratio_of(a: Seq<u32>, b: Seq<u32>) -> Ratio {
    score_of(shared(a, b), a.len() + b.len())
}

/// The smaller of two lengths.
pub open spec fn shorter(la: nat, lb: nat) -> nat {
    if la <= lb {
        la
    } else {
        lb
    }
}

/// The bound from the lengths alone.
pub open spec fn real_quick_ratio_of(la: nat, lb: nat) -> Ratio {
    score_of(shorter(la, lb), la + lb)
}

// ------------------------------------------------------------------ searching

/// Length of the run of equal tokens inside the window that ends at `(i, j)`.
spec fn run_ending(a: Seq<u32>, b: Seq<u32>, w: Window, i: int, j: int) -> nat
    decreases i - w.a_lo + 1,
{
    if i < w.a_lo || j < w.b_lo || a[i] != b[j] {
        0
    } else {
        1 + run_ending(a, b, w, i - 1, j - 1)
    }
}

proof fn lemma_run_ending(a: Seq<u32>, b: Seq<u32>, w: Window, i: int, j: int)
    requires
        w.fits(a, b),
        w.a_lo - 1 <= i < w.a_hi,
        w.b_lo - 1 <= j < w.b_hi,
    ensures
        run_ending(a, b, w, i, j) <= i + 1 - w.a_lo,
        run_ending(a, b, w, i, j) <= j + 1 - w.b_lo,
        forall|p: int|
            i + 1 - run_ending(a, b, w, i, j) <= p <= i ==> #[trigger] a[p] == b[p - i + j],
        forall|x: Match|
            #[trigger] common_run(a, b, w, x) && x.a + x.size == i + 1 && x.b + x.size == j + 1
                ==> x.size <= run_ending(a, b, w, i, j),
    decreases i - w.a_lo + 1,
{
    if i >= w.a_lo && j >= w.b_lo && a[i] == b[j] {
        lemma_run_ending(a, b, w, i - 1, j - 1);
        assert forall|x: Match|
            #[trigger] common_run(a, b, w, x) && x.a + x.size == i + 1 && x.b + x.size == j
                + 1 implies x.size <= run_ending(a, b, w, i, j) by {
            if x.size > 0 {
                let y = Match { a: x.a, b: x.b, size: (x.size - 1) as usize };
                assert(common_run(a, b, w, y));
            }
        }
    } else {
        assert forall|x: Match|
            #[trigger] common_run(a, b, w, x) && x.a + x.size == i + 1 && x.b + x.size == j
                + 1 implies x.size <= 0 by {
            if x.size > 0 {
                assert(a[i] == b[i - x.a + x.b]);
            }
        }
    }
}

/// Every common run ending before column `j` of row `i`, or in an earlier row,
/// is no better than `best`, which itself ends there.
spec fn settled(a: Seq<u32>, b: Seq<u32>, w: Window, best: Match, i: int, j: int) -> bool {
    &&& common_run(a, b, w, best)
    &&& best.size > 0 ==> (best.a + best.size <= i || (best.a + best.size == i + 1 && best.b
        + best.size <= j))
    &&& best.size == 0 ==> best.a == w.a_lo && best.b == w.b_lo
    &&& forall|x: Match|
        #[trigger] common_run(a, b, w, x) && x.size > 0 && (x.a + x.size <= i || (x.a + x.size == i
            + 1 && x.b + x.size <= j)) ==> preferred(best, x)
}

/// Columns with unequal tokens end no run, so the frontier can pass them.
proof fn lemma_skip_columns(a: Seq<u32>, b: Seq<u32>, w: Window, best: Match, i: int, j: int, k: int)
    requires
        settled(a, b, w, best, i, j),
        w.fits(a, b),
        w.a_lo <= i < w.a_hi,
        j <= k,
        forall|q: int| j <= q < k && w.b_lo <= q < w.b_hi ==> a[i] != #[trigger] b[q],
    ensures
        settled(a, b, w, best, i, k),
{
    assert forall|x: Match|
        #[trigger] common_run(a, b, w, x) && x.size > 0 && (x.a + x.size <= i || (x.a + x.size == i
            + 1 && x.b + x.size <= k)) implies preferred(best, x) by {
        if x.a + x.size == i + 1 && x.b + x.size > j {
            assert(a[i] == b[i - x.a + x.b]);
        }
    }
}

/// Taking the run that ends at `(i, j)` into account.
proof fn lemma_take_column(a: Seq<u32>, b: Seq<u32>, w: Window, best: Match, i: int, j: int)
    requires
        settled(a, b, w, best, i, j),
        w.fits(a, b),
        w.a_lo <= i < w.a_hi,
        w.b_lo <= j < w.b_hi,
    ensures
        ({
            let n = run_ending(a, b, w, i, j);
            let next = if n > best.size {
                Match { a: (i + 1 - n) as usize, b: (j + 1 - n) as usize, size: n as usize }
            } else {
                best
            };
            settled(a, b, w, next, i, j + 1)
        }),
{
    lemma_run_ending(a, b, w, i, j);
    let n = run_ending(a, b, w, i, j);
    let next = if n > best.size {
        Match { a: (i + 1 - n) as usize, b: (j + 1 - n) as usize, size: n as usize }
    } else {
        best
    };
    assert(common_run(a, b, w, next)) by {
        if n > best.size {
            assert forall|p: int| next.a <= p < next.a + next.size implies #[trigger] a[p] == b[p
                - next.a + next.b] by {
                assert(p - next.a + next.b == p - i + j);
            }
        }
    }
    assert forall|x: Match|
        #[trigger] common_run(a, b, w, x) && x.size > 0 && (x.a + x.size <= i || (x.a + x.size == i
            + 1 && x.b + x.size <= j + 1)) implies preferred(next, x) by {
        if x.a + x.size == i + 1 && x.b + x.size == j + 1 {
            assert(x.size <= n);
        } else {
            assert(preferred(best, x));
        }
    }
}

/// Once every row is settled the best run is the longest.
proof fn lemma_settled_is_longest(a: Seq<u32>, b: Seq<u32>, w: Window, best: Match)
    requires
        w.fits(a, b),
        settled(a, b, w, best, w.a_hi as int, 0),
    ensures
        is_longest(a, b, w, best),
{
    assert forall|x: Match| #[trigger] common_run(a, b, w, x) implies preferred(best, x) by {}
}

proof fn lemma_longest_unique(a: Seq<u32>, b: Seq<u32>, w: Window, m: Match)
    requires
        is_longest(a, b, w, m),
    ensures
        longest(a, b, w) == m,
{
    let x = longest(a, b, w);
    assert(is_longest(a, b, w, x));
    assert(preferred(m, x) && preferred(x, m));
}

/// Reusable row buffers for [`Matcher::find_longest_match`].
struct LongestMatchScratch {
    previous_row: Vec<usize>,
    current_row: Vec<usize>,
    previous_touched: Vec<usize>,
    current_touched: Vec<usize>,
}

/// Every non-zero entry of `row` is listed in `touched`.
spec fn tracked_by(row: Seq<usize>, touched: Seq<usize>) -> bool {
    &&& forall|k: int| 0 <= k < touched.len() ==> #[trigger] touched[k] < row.len()
    &&& forall|j: int| 0 <= j < row.len() && #[trigger] row[j] != 0 ==> touched.contains(j as usize)
}

spec fn all_zero(row: Seq<usize>) -> bool {
    forall|j: int| 0 <= j < row.len() ==> #[trigger] row[j] == 0
}

/// Zero a row, in time proportional to what was written to it.
fn clear_row(row: &mut Vec<usize>, touched: &Vec<usize>)
    requires
        tracked_by(old(row)@, touched@),
    ensures
        final(row)@.len() == old(row)@.len(),
        all_zero(final(row)@),
{
    let mut k: usize = 0;
    while k < touched.len()
        invariant
            k <= touched.len(),
            row@.len() == old(row)@.len(),
            forall|k: int| 0 <= k < touched.len() ==> #[trigger] touched[k] < row.len(),
            forall|j: int|
                0 <= j < row.len() && #[trigger] row[j] != 0 ==> exists|q: int|
                    k <= q < touched.len() && touched[q] == j,
        decreases touched.len() - k,
    {
        let j: usize = touched[k];
        row[j] = 0;
        k += 1;
    }
}

impl LongestMatchScratch {
    spec fn wf(self, n: nat) -> bool {
        &&& self.previous_row.len() == n
        &&& self.current_row.len() == n
        &&& tracked_by(self.previous_row@, self.previous_touched@)
        &&& tracked_by(self.current_row@, self.current_touched@)
    }

    fn new(b_len: usize) -> (s: Self)
        ensures
            s.wf(b_len as nat),
    {
        LongestMatchScratch {
            previous_row: vec![0; b_len],
            current_row: vec![0; b_len],
            previous_touched: Vec::new(),
            current_touched: Vec::new(),
        }
    }

    /// Zero both rows, in time proportional to what was written.
    fn reset(&mut self, Ghost(n): Ghost<nat>)
        requires
            old(self).wf(n),
        ensures
            final(self).wf(n),
            all_zero(final(self).previous_row@),
            all_zero(final(self).current_row@),
    {
        clear_row(&mut self.previous_row, &self.previous_touched);
        clear_row(&mut self.current_row, &self.current_touched);
        self.previous_touched.clear();
        self.current_touched.clear();
    }

    fn begin_row(&mut self, Ghost(n): Ghost<nat>)
        requires
            old(self).wf(n),
            all_zero(old(self).current_row@),
        ensures
            final(self).wf(n),
            final(self).previous_row@ == old(self).previous_row@,
            final(self).previous_touched@ == old(self).previous_touched@,
            final(self).current_row@ == old(self).current_row@,
            final(self).current_touched@ == Seq::<usize>::empty(),
    {
        self.current_touched.clear();
    }

    fn write(&mut self, j: usize, run: usize, Ghost(n): Ghost<nat>)
        requires
            old(self).wf(n),
            j < n,
        ensures
            final(self).wf(n),
            final(self).previous_row@ == old(self).previous_row@,
            final(self).current_row@ == old(self).current_row@.update(j as int, run),
    {
        let ghost before = self.current_touched@;
        self.current_row[j] = run;
        self.current_touched.push(j);
        proof {
            let after = self.current_touched@;
            assert(after[before.len() as int] == j);
            assert forall|q: int|
                0 <= q < self.current_row.len() && #[trigger] self.current_row[q]
                    != 0 implies after.contains(q as usize) by {
                if q != j {
                    assert(before.contains(q as usize));
                    let k = choose|k: int| 0 <= k < before.len() && before[k] == q as usize;
                    assert(after[k] == q as usize);
                }
            }
        }
    }

    /// Promote the current row to previous, leaving a zeroed buffer behind.
    fn end_row(&mut self, Ghost(n): Ghost<nat>)
        requires
            old(self).wf(n),
        ensures
            final(self).wf(n),
            final(self).previous_row@ == old(self).current_row@,
            all_zero(final(self).current_row@),
    {
        clear_row(&mut self.previous_row, &self.previous_touched);
        core::mem::swap(&mut self.previous_row, &mut self.current_row);
        core::mem::swap(&mut self.previous_touched, &mut self.current_touched);
    }
}

// ------------------------------------------------------------------- matching

/// `positions` lists, in ascending order, where `token` occurs in `b`.
spec fn lists_occurrences(b: Seq<u32>, token: u32, positions: Seq<usize>) -> bool {
    &&& forall|k: int|
        0 <= k < positions.len() ==> #[trigger] positions[k] < b.len() && b[positions[k] as int]
            == token
    &&& forall|k: int, q: int|
        0 <= k < q < positions.len() ==> #[trigger] positions[k] < #[trigger] positions[q]
    &&& forall|j: int|
        0 <= j < b.len() && #[trigger] b[j] == token ==> positions.contains(j as usize)
}

/// The index of a right-hand sequence up to some position.
spec fn indexes(b: Seq<u32>, occurrences: Map<u32, Vec<usize>>, counts: Map<u32, usize>) -> bool {
    &&& forall|t: u32| #[trigger] occurrences.contains_key(t) <==> b.contains(t)
    &&& forall|t: u32| #[trigger] counts.contains_key(t) <==> b.contains(t)
    &&& forall|t: u32| #[trigger] occurrences.contains_key(t) ==> lists_occurrences(
        b,
        t,
        occurrences[t]@,
    )
    &&& forall|t: u32| #[trigger] counts.contains_key(t) ==> counts[t] == b.to_multiset().count(t)
}

proof fn lemma_index_step(
    b: Seq<u32>,
    j: usize,
    before: Seq<usize>,
    after: Seq<usize>,
)
    requires
        j < b.len(),
        lists_occurrences(b.take(j as int), b[j as int], before),
        after == before.push(j),
    ensures
        lists_occurrences(b.take(j + 1), b[j as int], after),
{
    let prefix = b.take(j as int);
    let longer = b.take(j + 1);
    assert forall|q: int| 0 <= q < longer.len() && #[trigger] longer[q]
        == b[j as int] implies after.contains(q as usize) by {
        if q < j {
            assert(prefix[q] == b[j as int]);
            let k = choose|k: int| 0 <= k < before.len() && before[k] == q as usize;
            assert(after[k] == q as usize);
        } else {
            assert(after[before.len() as int] == j);
        }
    }
    assert forall|k: int| 0 <= k < after.len() implies #[trigger] after[k] < longer.len()
        && longer[after[k] as int] == b[j as int] by {
        if k < before.len() {
            assert(before[k] < prefix.len());
            assert(prefix[before[k] as int] == longer[before[k] as int]);
        }
    }
}

proof fn lemma_index_keep(b: Seq<u32>, j: usize, t: u32, positions: Seq<usize>)
    requires
        j < b.len(),
        t != b[j as int],
        lists_occurrences(b.take(j as int), t, positions),
    ensures
        lists_occurrences(b.take(j + 1), t, positions),
{
    let prefix = b.take(j as int);
    let longer = b.take(j + 1);
    assert forall|q: int| 0 <= q < longer.len() && #[trigger] longer[q]
        == t implies positions.contains(q as usize) by {
        assert(prefix[q] == t);
    }
    assert forall|k: int| 0 <= k < positions.len() implies #[trigger] positions[k] < longer.len()
        && longer[positions[k] as int] == t by {
        assert(positions[k] < prefix.len());
        assert(prefix[positions[k] as int] == longer[positions[k] as int]);
    }
}

proof fn lemma_take_next(b: Seq<u32>, j: int)
    requires
        0 <= j < b.len(),
    ensures
        b.take(j + 1) == b.take(j).push(b[j]),
        b.take(j + 1).to_multiset() == b.take(j).to_multiset().insert(b[j]),
        forall|t: u32|
            #[trigger] b.take(j + 1).contains(t) <==> (b.take(j).contains(t) || t == b[j]),
{
    broadcast use vstd::seq_lib::group_to_multiset_ensures;

    let prefix = b.take(j);
    let longer = b.take(j + 1);
    assert(longer =~= prefix.push(b[j]));
    assert forall|t: u32| #[trigger] longer.contains(t) <==> (prefix.contains(t) || t == b[j]) by {
        if prefix.contains(t) {
            let k = choose|k: int| 0 <= k < prefix.len() && prefix[k] == t;
            assert(longer[k] == t);
        }
        if t == b[j] {
            assert(longer[j] == t);
        }
        if longer.contains(t) && t != b[j] {
            let k = choose|k: int| 0 <= k < longer.len() && longer[k] == t;
            assert(prefix[k] == t);
        }
    }
}

/// A right-hand sequence with its index precomputed, for repeated comparison.
///
/// In a quadratic scan each unit is the right-hand side of many comparisons, so
/// the index is built once per unit rather than once per pair.
pub struct Matcher<'b> {
    b: &'b [u32],
    /// Ascending occurrence positions of each token in `b`.
    occurrences: HashMap<u32, Vec<usize>>,
    /// Multiplicity of each token in `b`, for [`Matcher::quick_ratio`].
    counts: HashMap<u32, usize>,
}

impl<'b> View for Matcher<'b> {
    type V = Seq<u32>;

    closed spec fn view(&self) -> Seq<u32> {
        self.b@
    }
}

impl<'b> Matcher<'b> {
    #[verifier::type_invariant]
    spec fn wf(self) -> bool {
        indexes(self.b@, self.occurrences@, self.counts@)
    }

    /// Index `b` for comparison against many left-hand sequences.
    pub fn new(b: &'b [u32]) -> (m: Self)
        ensures
            m@ == b@,
    {
        let mut occurrences: HashMap<u32, Vec<usize>> = HashMap::new();
        let mut counts: HashMap<u32, usize> = HashMap::new();
        proof {
            assert(b@.take(0) =~= Seq::empty());
        }
        let mut j: usize = 0;
        while j < b.len()
            invariant
                j <= b.len(),
                indexes(b@.take(j as int), occurrences@, counts@),
            decreases b.len() - j,
        {
            let token: u32 = b[j];
            let ghost prefix = b@.take(j as int);
            let ghost before = occurrences@;
            let ghost counted = counts@;
            proof {
                lemma_take_next(b@, j as int);
                lemma_count_bounded(prefix, token);
            }
            let (mut positions, seen): (Vec<usize>, usize) = match occurrences.remove(&token) {
                Some(positions) => match counts.get(&token) {
                    Some(seen) => (positions, *seen),
                    None => (positions, 0),
                },
                None => (Vec::new(), 0),
            };
            proof {
                if !before.contains_key(token) {
                    assert(lists_occurrences(prefix, token, positions@)) by {
                        assert forall|q: int| 0 <= q < prefix.len() implies #[trigger] prefix[q]
                            != token by {
                            assert(!prefix.contains(token));
                        }
                    }
                    lemma_count_absent(prefix, token);
                }
                lemma_index_step(b@, j, positions@, positions@.push(j));
            }
            positions.push(j);
            occurrences.insert(token, positions);
            counts.insert(token, seen + 1);
            proof {
                let longer = b@.take(j + 1);
                assert forall|t: u32| #[trigger] occurrences@.contains_key(
                    t,
                ) implies lists_occurrences(longer, t, occurrences@[t]@) by {
                    if t != token {
                        assert(before.contains_key(t));
                        lemma_index_keep(b@, j, t, before[t]@);
                    }
                }
                assert forall|t: u32| #[trigger] counts@.contains_key(t) implies counts@[t]
                    == longer.to_multiset().count(t) by {
                    if t != token {
                        assert(counted.contains_key(t));
                    }
                }
            }
            j += 1;
        }
        proof {
            assert(b@.take(b@.len() as int) =~= b@);
        }
        Matcher { b, occurrences, counts }
    }

    /// The indexed right-hand sequence.
    pub fn b(&self) -> (b: &[u32])
        ensures
            b@ == self@,
    {
        self.b
    }

    /// Longest contiguous run common to the two sides of a window.
    ///
    /// Ties resolve to the earliest run.
    fn find_longest_match(&self, a: &[u32], w: Window, scratch: &mut LongestMatchScratch) -> (m:
        Match)
        requires
            w.fits(a@, self@),
            old(scratch).wf(self@.len()),
        ensures
            final(scratch).wf(self@.len()),
            is_longest(a@, self@, w, m),
    {
        proof {
            use_type_invariant(self);
        }
        let ghost b = self@;
        let ghost n: nat = b.len();
        let mut best = Match { a: w.a_lo, b: w.b_lo, size: 0 };
        scratch.reset(Ghost(n));
        let mut i: usize = w.a_lo;
        while i < w.a_hi
            invariant
                self.wf(),
                b == self@,
                n == b.len(),
                w.fits(a@, b),
                w.a_lo <= i <= w.a_hi,
                scratch.wf(n),
                all_zero(scratch.current_row@),
                settled(a@, b, w, best, i as int, 0),
                forall|j: int|
                    0 <= j < n ==> #[trigger] scratch.previous_row[j] == row_value(
                        a@,
                        b,
                        w,
                        i - 1,
                        j,
                    ),
            decreases w.a_hi - i,
        {
            scratch.begin_row(Ghost(n));
            let ghost mut front: int = 0;
            match self.occurrences.get(&a[i]) {
                None => {},
                Some(positions) => {
                    let mut k: usize = 0;
                    while k < positions.len() && positions[k] < w.b_lo
                        invariant
                            k <= positions.len(),
                            forall|q: int| 0 <= q < k ==> #[trigger] positions[q] < w.b_lo,
                        decreases positions.len() - k,
                    {
                        k += 1;
                    }
                    proof {
                        front = w.b_lo as int;
                        lemma_skip_columns(a@, b, w, best, i as int, 0, front);
                    }
                    while k < positions.len() && positions[k] < w.b_hi
                        invariant
                            n == b.len(),
                            w.fits(a@, b),
                            w.a_lo <= i < w.a_hi,
                            lists_occurrences(b, a@[i as int], positions@),
                            k <= positions.len(),
                            w.b_lo <= front <= w.b_hi,
                            forall|q: int| 0 <= q < k ==> #[trigger] positions[q] < front,
                            forall|q: int| k <= q < positions.len() ==> front <= #[trigger] positions[q],
                            scratch.wf(n),
                            settled(a@, b, w, best, i as int, front),
                            forall|j: int|
                                0 <= j < n ==> #[trigger] scratch.previous_row[j] == row_value(
                                    a@,
                                    b,
                                    w,
                                    i - 1,
                                    j,
                                ),
                            forall|j: int|
                                0 <= j < n ==> #[trigger] scratch.current_row[j] == (if j < front {
                                    row_value(a@, b, w, i as int, j)
                                } else {
                                    0
                                }),
                        decreases positions.len() - k,
                    {
                        let j: usize = positions[k];
                        proof {
                            assert forall|q: int| front <= q < j implies a@[i as int]
                                != #[trigger] b[q] by {
                                if a@[i as int] == b[q] {
                                    let p = choose|p: int|
                                        0 <= p < positions.len() && positions[p] == q as usize;
                                    assert(positions[p] == q as usize);
                                }
                            }
                            lemma_skip_columns(a@, b, w, best, i as int, front, j as int);
                            lemma_run_ending(a@, b, w, i as int, j as int);
                            lemma_take_column(a@, b, w, best, i as int, j as int);
                        }
                        let before: usize = if j > 0 {
                            scratch.previous_row[j - 1]
                        } else {
                            0
                        };
                        let run: usize = before + 1;
                        assert(run == run_ending(a@, b, w, i as int, j as int));
                        scratch.write(j, run, Ghost(n));
                        if run > best.size {
                            best = Match { a: i + 1 - run, b: j + 1 - run, size: run };
                        }
                        k += 1;
                        proof {
                            front = j + 1;
                        }
                    }
                },
            }
            proof {
                assert forall|q: int| front <= q < n && w.b_lo <= q < w.b_hi implies a@[i as int]
                    != #[trigger] b[q] by {
                    if a@[i as int] == b[q] {
                        assert(b.contains(a@[i as int]));
                        let positions = self.occurrences@[a@[i as int]]@;
                        let p = choose|p: int|
                            0 <= p < positions.len() && positions[p] == q as usize;
                        assert(positions[p] == q as usize);
                    }
                }
                lemma_skip_columns(a@, b, w, best, i as int, front, n as int);
                lemma_next_row(a@, b, w, best, i as int);
            }
            scratch.end_row(Ghost(n));
            i += 1;
        }
        proof {
            lemma_settled_is_longest(a@, b, w, best);
        }
        best
    }

    /// The maximal contiguous common runs of `a` and the indexed sequence.
    ///
    /// No block-merging pass is needed: [`lemma_blocks_never_abut`].
    pub fn matching_blocks(&self, a: &[u32]) -> (blocks: Vec<Match>)
        ensures
            blocks@ == blocks_of(a@, self@),
    {
        let ghost b = self@;
        let mut blocks: Vec<Match> = Vec::new();
        let mut scratch = LongestMatchScratch::new(self.b.len());
        let start = Window { a_lo: 0, a_hi: a.len(), b_lo: 0, b_hi: self.b.len() };
        let mut tasks: Vec<Task> = Vec::new();
        tasks.push(Task::Search(start));
        proof {
            reveal_with_fuel(pending, 2);
            reveal_with_fuel(tasks_fit, 2);
            assert(tasks@.drop_last() =~= Seq::empty());
            assert(start == whole(a@, b));
            assert(blocks@ + pending(a@, b, tasks@) =~= blocks_of(a@, b));
        }
        while tasks.len() > 0
            invariant
                b == self@,
                scratch.wf(b.len()),
                tasks_fit(a@, b, tasks@),
                blocks@ + pending(a@, b, tasks@) == blocks_of(a@, b),
            decreases work_left(tasks@),
        {
            let ghost before = tasks@;
            let ghost found = blocks@;
            let task = tasks.pop();
            match task {
                None => {},
                Some(Task::Keep(m)) => {
                    blocks.push(m);
                    proof {
                        assert(tasks@ =~= before.drop_last());
                        assert(found + (seq![m] + pending(a@, b, tasks@)) =~= blocks@ + pending(
                            a@,
                            b,
                            tasks@,
                        ));
                    }
                },
                Some(Task::Search(w)) => {
                    assert(tasks@ =~= before.drop_last());
                    let ghost rest = tasks@;
                    let m = self.find_longest_match(a, w, &mut scratch);
                    proof {
                        lemma_longest_unique(a@, b, w, m);
                    }
                    if m.size > 0 {
                        let left = Window { a_lo: w.a_lo, a_hi: m.a, b_lo: w.b_lo, b_hi: m.b };
                        let right = Window {
                            a_lo: m.a + m.size,
                            a_hi: w.a_hi,
                            b_lo: m.b + m.size,
                            b_hi: w.b_hi,
                        };
                        tasks.push(Task::Search(right));
                        tasks.push(Task::Keep(m));
                        tasks.push(Task::Search(left));
                        proof {
                            assert(before =~= rest.push(Task::Search(w)));
                            lemma_split_task(a@, b, rest, w, m);
                            assert(tasks@ =~= rest.push(Task::Search(right)).push(
                                Task::Keep(m),
                            ).push(Task::Search(left)));
                        }
                    } else {
                        assert(found + pending(a@, b, before) =~= blocks@ + pending(
                            a@,
                            b,
                            tasks@,
                        ));
                    }
                },
            }
        }
        assert(blocks@ + pending(a@, b, tasks@) =~= blocks@);
        blocks
    }

    /// Upper bound on [`Matcher::ratio`] from lengths alone.
    pub fn real_quick_ratio(&self, a: &[u32]) -> (r: Ratio)
        ensures
            r == real_quick_ratio_of(a@.len(), self@.len()),
    {
        real_quick_ratio(a.len(), self.b.len())
    }

    /// Upper bound on [`Matcher::ratio`] from token multiset intersection.
    pub fn quick_ratio(&self, a: &[u32]) -> (r: Ratio)
        ensures
            r == quick_ratio_of(a@, self@),
    {
        proof {
            use_type_invariant(self);
        }
        let ghost bag = self@.to_multiset();
        let mut remaining: HashMap<u32, usize> = self.counts.clone();
        let mut hits: usize = 0;
        let mut i: usize = 0;
        proof {
            assert(a@.take(0) =~= Seq::empty());
            broadcast use vstd::seq_lib::group_to_multiset_ensures;

            lemma_nothing_shared(bag);
        }
        while i < a.len()
            invariant
                i <= a.len(),
                hits <= i,
                bag == self@.to_multiset(),
                hits == a@.take(i as int).to_multiset().intersection_with(bag).len(),
                forall|t: u32| #[trigger] remaining@.contains_key(t) <==> bag.contains(t),
                forall|t: u32|
                    #[trigger] remaining@.contains_key(t) ==> remaining@[t] == bag.count(t)
                        - a@.take(i as int).to_multiset().intersection_with(bag).count(t),
            decreases a.len() - i,
        {
            let token: u32 = a[i];
            let left: usize = match remaining.get(&token) {
                Some(left) => *left,
                None => 0,
            };
            proof {
                lemma_take_next(a@, i as int);
                lemma_share_step(a@.take(i as int).to_multiset(), bag, token);
            }
            if left > 0 {
                remaining.insert(token, left - 1);
                hits += 1;
            }
            i += 1;
        }
        assert(a@.take(a@.len() as int) =~= a@);
        score(hits, a.len(), self.b.len())
    }

    /// Ratcliff–Obershelp similarity of `a` against the indexed sequence.
    pub fn ratio(&self, a: &[u32]) -> (r: Ratio)
        ensures
            r == ratio_of(a@, self@),
    {
        let blocks = self.matching_blocks(a);
        let mut matched: usize = 0;
        let mut k: usize = 0;
        let (la, lb) = (a.len(), self.b.len());
        proof {
            lemma_total_bounded(a@, self@);
        }
        while k < blocks.len()
            invariant
                k <= blocks.len(),
                matched == total_size(blocks@.take(k as int)),
                total_size(blocks@) <= usize::MAX,
            decreases blocks.len() - k,
        {
            proof {
                let next = blocks@.take(k + 1);
                assert(next.drop_last() =~= blocks@.take(k as int));
                assert(blocks@ =~= next + blocks@.skip(k + 1));
                lemma_total_concat(next, blocks@.skip(k + 1));
            }
            matched += blocks[k].size;
            k += 1;
        }
        assert(blocks@.take(k as int) =~= blocks@);
        score(matched, la, lb)
    }
}

/// The score of `hits` tokens found on both sides of two sequences.
fn score(hits: usize, la: usize, lb: usize) -> (r: Ratio)
    ensures
        r == score_of(hits as nat, (la + lb) as nat),
{
    let twice: u128 = 2 * hits as u128;
    let total: u128 = la as u128 + lb as u128;
    if total == 0 {
        Ratio { num: 1, den: 1 }
    } else {
        let limit: u128 = u64::MAX as u128;
        let num: u64 = if twice <= limit {
            twice as u64
        } else {
            u64::MAX
        };
        let den: u64 = if total <= limit {
            total as u64
        } else {
            u64::MAX
        };
        Ratio { num, den }
    }
}

/// Upper bound on [`ratio`] derived from sequence lengths alone.
///
/// The matched total can never exceed the length of the shorter sequence. Two
/// empty sequences are defined as identical.
pub fn real_quick_ratio(la: usize, lb: usize) -> (r: Ratio)
    ensures
        r == real_quick_ratio_of(la as nat, lb as nat),
{
    let hits: usize = if la <= lb {
        la
    } else {
        lb
    };
    score(hits, la, lb)
}

/// Upper bound on [`ratio`] derived from token multiset intersection.
///
/// Ignores ordering entirely, so it counts every token that *could* take part
/// in some matching block.
pub fn quick_ratio(a: &[u32], b: &[u32]) -> (r: Ratio)
    ensures
        r == quick_ratio_of(a@, b@),
{
    Matcher::new(b).quick_ratio(a)
}

/// Ratcliff–Obershelp similarity of two token sequences.
///
/// Build a [`Matcher`] instead when comparing one sequence against many.
pub fn ratio(a: &[u32], b: &[u32]) -> (r: Ratio)
    ensures
        r == ratio_of(a@, b@),
{
    Matcher::new(b).ratio(a)
}

/// The maximal contiguous common runs of `a` and `b`, left to right.
pub fn matching_blocks(a: &[u32], b: &[u32]) -> (blocks: Vec<Match>)
    ensures
        blocks@ == blocks_of(a@, b@),
{
    Matcher::new(b).matching_blocks(a)
}

// ---------------------------------------------------------------- work in hand

/// A window still to search, or a run to hand out in its place.
enum Task {
    Search(Window),
    Keep(Match),
}

/// The blocks a stack of tasks stands for, the top of the stack first.
spec fn pending(a: Seq<u32>, b: Seq<u32>, tasks: Seq<Task>) -> Seq<Match>
    decreases tasks.len(),
{
    if tasks.len() == 0 {
        Seq::empty()
    } else {
        (match tasks.last() {
            Task::Search(w) => blocks_in(a, b, w),
            Task::Keep(m) => seq![m],
        }) + pending(a, b, tasks.drop_last())
    }
}

spec fn tasks_fit(a: Seq<u32>, b: Seq<u32>, tasks: Seq<Task>) -> bool
    decreases tasks.len(),
{
    tasks.len() == 0 || (tasks_fit(a, b, tasks.drop_last()) && (tasks.last() matches Task::Search(
        w,
    ) ==> w.fits(a, b)))
}

spec fn work_left(tasks: Seq<Task>) -> nat
    decreases tasks.len(),
{
    if tasks.len() == 0 {
        0
    } else {
        work_left(tasks.drop_last()) + (match tasks.last() {
            Task::Search(w) => if w.a_lo <= w.a_hi {
                (3 * (w.a_hi - w.a_lo) + 1) as nat
            } else {
                1
            },
            Task::Keep(_) => 1,
        })
    }
}

/// Replacing a search by its longest run and the searches on both sides of it.
proof fn lemma_split_task(a: Seq<u32>, b: Seq<u32>, rest: Seq<Task>, w: Window, m: Match)
    requires
        w.fits(a, b),
        m == longest(a, b, w),
        common_run(a, b, w, m),
        m.size > 0,
        tasks_fit(a, b, rest),
    ensures
        ({
            let next = rest.push(Task::Search(w.right_of(m))).push(Task::Keep(m)).push(
                Task::Search(w.left_of(m)),
            );
            &&& tasks_fit(a, b, next)
            &&& pending(a, b, next) == pending(a, b, rest.push(Task::Search(w)))
            &&& work_left(next) < work_left(rest.push(Task::Search(w)))
        }),
{
    let one = rest.push(Task::Search(w.right_of(m)));
    let two = one.push(Task::Keep(m));
    let next = two.push(Task::Search(w.left_of(m)));
    assert(next.drop_last() =~= two);
    assert(two.drop_last() =~= one);
    assert(one.drop_last() =~= rest);
    let whole_task = rest.push(Task::Search(w));
    assert(whole_task.drop_last() =~= rest);
    let left = blocks_in(a, b, w.left_of(m));
    let right = blocks_in(a, b, w.right_of(m));
    let tail = pending(a, b, rest);
    reveal_with_fuel(pending, 4);
    reveal_with_fuel(tasks_fit, 4);
    reveal_with_fuel(work_left, 4);
    assert(left + (seq![m] + (right + tail)) =~= (left.push(m) + right) + tail);
}

// ------------------------------------------------------------------ arithmetic

proof fn lemma_total_concat(x: Seq<Match>, y: Seq<Match>)
    ensures
        total_size(x + y) == total_size(x) + total_size(y),
    decreases y.len(),
{
    if y.len() == 0 {
        assert(x + y =~= x);
    } else {
        assert((x + y).drop_last() =~= x + y.drop_last());
        lemma_total_concat(x, y.drop_last());
    }
}

/// The tokens taking part in the matching blocks of a window.
spec fn matched_bag(a: Seq<u32>, b: Seq<u32>, w: Window) -> Multiset<u32>
    decreases w.a_hi - w.a_lo,
{
    let m = longest(a, b, w);
    if m.size == 0 || !common_run(a, b, w, m) {
        Multiset::empty()
    } else {
        matched_bag(a, b, w.left_of(m)).add(
            a.subrange(m.a as int, m.a + m.size).to_multiset(),
        ).add(matched_bag(a, b, w.right_of(m)))
    }
}

proof fn lemma_cut_bag(s: Seq<u32>, lo: int, x: int, y: int, hi: int)
    requires
        0 <= lo <= x <= y <= hi <= s.len(),
    ensures
        s.subrange(lo, hi).to_multiset() == s.subrange(lo, x).to_multiset().add(
            s.subrange(x, y).to_multiset(),
        ).add(s.subrange(y, hi).to_multiset()),
{
    let (p, q, r) = (s.subrange(lo, x), s.subrange(x, y), s.subrange(y, hi));
    assert(s.subrange(lo, hi) =~= (p + q) + r);
    vstd::seq_lib::lemma_multiset_commutative(p + q, r);
    vstd::seq_lib::lemma_multiset_commutative(p, q);
}

proof fn lemma_matched_bag(a: Seq<u32>, b: Seq<u32>, w: Window)
    requires
        w.fits(a, b),
    ensures
        matched_bag(a, b, w).len() == total_size(blocks_in(a, b, w)),
        matched_bag(a, b, w).subset_of(a.subrange(w.a_lo as int, w.a_hi as int).to_multiset()),
        matched_bag(a, b, w).subset_of(b.subrange(w.b_lo as int, w.b_hi as int).to_multiset()),
    decreases w.a_hi - w.a_lo,
{
    broadcast use vstd::seq_lib::group_to_multiset_ensures;

    let m = longest(a, b, w);
    if m.size == 0 || !common_run(a, b, w, m) {
    } else {
        let (left, right) = (w.left_of(m), w.right_of(m));
        lemma_matched_bag(a, b, left);
        lemma_matched_bag(a, b, right);
        let run = a.subrange(m.a as int, m.a + m.size);
        assert(run =~= b.subrange(m.b as int, m.b + m.size)) by {
            assert forall|k: int| 0 <= k < m.size implies run[k] == #[trigger] b.subrange(
                m.b as int,
                m.b + m.size,
            )[k] by {
                assert(a[m.a + k] == b[(m.a + k) - m.a + m.b]);
            }
        }
        lemma_cut_bag(a, w.a_lo as int, m.a as int, m.a + m.size, w.a_hi as int);
        lemma_cut_bag(b, w.b_lo as int, m.b as int, m.b + m.size, w.b_hi as int);
        let before = blocks_in(a, b, left);
        let after = blocks_in(a, b, right);
        lemma_total_concat(before.push(m), after);
        assert(before.push(m).drop_last() =~= before);
    }
}

proof fn lemma_subset_len(x: Multiset<u32>, y: Multiset<u32>)
    requires
        x.subset_of(y),
    ensures
        x.len() <= y.len(),
{
    broadcast use vstd::multiset::group_multiset_axioms;

    assert(y.sub(x).len() == y.len() - x.len());
}

proof fn lemma_total_bounded(a: Seq<u32>, b: Seq<u32>)
    requires
        a.len() <= usize::MAX,
        b.len() <= usize::MAX,
    ensures
        total_size(blocks_of(a, b)) <= shared(a, b),
        shared(a, b) <= shorter(a.len(), b.len()),
{
    broadcast use vstd::seq_lib::group_to_multiset_ensures;
    broadcast use vstd::multiset::group_multiset_properties;

    lemma_matched_bag(a, b, whole(a, b));
    assert(a.subrange(0, a.len() as int) =~= a);
    assert(b.subrange(0, b.len() as int) =~= b);
    let bag = matched_bag(a, b, whole(a, b));
    let both = a.to_multiset().intersection_with(b.to_multiset());
    assert(bag.subset_of(both));
    lemma_subset_len(bag, both);
    lemma_subset_len(both, a.to_multiset());
    lemma_subset_len(both, b.to_multiset());
}

proof fn lemma_nothing_shared(bag: Multiset<u32>)
    ensures
        Seq::<u32>::empty().to_multiset().intersection_with(bag) == Multiset::<u32>::empty(),
        Seq::<u32>::empty().to_multiset().intersection_with(bag).len() == 0,
{
    broadcast use vstd::seq_lib::group_to_multiset_ensures;
    broadcast use vstd::multiset::group_multiset_properties;
    broadcast use vstd::multiset::group_multiset_axioms;

    let none = Seq::<u32>::empty().to_multiset();
    assert(none =~= Multiset::<u32>::empty());
    assert(none.intersection_with(bag) =~= Multiset::<u32>::empty());
}

/// Taking one more token into account in an intersection.
proof fn lemma_share_step(x: Multiset<u32>, y: Multiset<u32>, t: u32)
    ensures
        x.intersection_with(y).count(t) <= y.count(t),
        x.intersection_with(y).count(t) < y.count(t) ==> x.insert(t).intersection_with(y)
            == x.intersection_with(y).insert(t),
        x.intersection_with(y).count(t) == y.count(t) ==> x.insert(t).intersection_with(y)
            == x.intersection_with(y),
        x.intersection_with(y).insert(t).len() == x.intersection_with(y).len() + 1,
{
    broadcast use vstd::multiset::group_multiset_properties;
    broadcast use vstd::multiset::group_multiset_axioms;

    if x.intersection_with(y).count(t) < y.count(t) {
        assert(x.insert(t).intersection_with(y) =~= x.intersection_with(y).insert(t));
    } else {
        assert(x.insert(t).intersection_with(y) =~= x.intersection_with(y));
    }
}

/// What a finished row holds at column `j`.
spec fn row_value(a: Seq<u32>, b: Seq<u32>, w: Window, i: int, j: int) -> nat {
    if w.b_lo <= j < w.b_hi {
        run_ending(a, b, w, i, j)
    } else {
        0
    }
}

proof fn lemma_next_row(a: Seq<u32>, b: Seq<u32>, w: Window, best: Match, i: int)
    requires
        w.fits(a, b),
        settled(a, b, w, best, i, b.len() as int),
    ensures
        settled(a, b, w, best, i + 1, 0),
{
    assert forall|x: Match|
        #[trigger] common_run(a, b, w, x) && x.size > 0 && (x.a + x.size <= i + 1 || (x.a + x.size
            == i + 2 && x.b + x.size <= 0)) implies preferred(best, x) by {}
}

proof fn lemma_count_bounded(s: Seq<u32>, t: u32)
    ensures
        s.to_multiset().count(t) <= s.len(),
{
    broadcast use vstd::seq_lib::group_to_multiset_ensures;

    assert(s.to_multiset().len() == s.len());
    vstd::multiset::axiom_count_le_len(s.to_multiset(), t);
}

proof fn lemma_count_absent(s: Seq<u32>, t: u32)
    requires
        !s.contains(t),
    ensures
        s.to_multiset().count(t) == 0,
{
    broadcast use vstd::seq_lib::group_to_multiset_ensures;

    if s.to_multiset().count(t) > 0 {
        assert(s.to_multiset().contains(t));
    }
}

// ------------------------------------------------------------------------ laws

proof fn lemma_score_monotone(h: nat, k: nat, total: nat)
    requires
        h <= k,
    ensures
        score_of(h, total).le(score_of(k, total)),
{
    let (x, y) = (score_of(h, total), score_of(k, total));
    assert(x.top() * y.bottom() <= y.top() * x.bottom()) by (nonlinear_arith)
        requires
            x.top() <= y.top(),
            x.bottom() == y.bottom(),
            x.bottom() > 0,
    ;
}

/// The bound that ignores order is never below the similarity: a pair it rules
/// out could not have passed any threshold.
pub proof fn lemma_quick_ratio_bounds_ratio(a: Seq<u32>, b: Seq<u32>)
    requires
        a.len() <= usize::MAX,
        b.len() <= usize::MAX,
    ensures
        ratio_of(a, b).le(quick_ratio_of(a, b)),
{
    lemma_total_bounded(a, b);
    lemma_score_monotone(total_size(blocks_of(a, b)), shared(a, b), a.len() + b.len());
}

/// The bound from the lengths alone is never below the bound that ignores order.
pub proof fn lemma_real_quick_ratio_bounds_quick_ratio(a: Seq<u32>, b: Seq<u32>)
    requires
        a.len() <= usize::MAX,
        b.len() <= usize::MAX,
    ensures
        quick_ratio_of(a, b).le(real_quick_ratio_of(a.len(), b.len())),
{
    lemma_total_bounded(a, b);
    lemma_score_monotone(shared(a, b), shorter(a.len(), b.len()), a.len() + b.len());
}

/// A similarity never exceeds one.
pub proof fn lemma_ratio_at_most_one(a: Seq<u32>, b: Seq<u32>)
    requires
        a.len() <= usize::MAX,
        b.len() <= usize::MAX,
    ensures
        ratio_of(a, b).le(Ratio { num: 1, den: 1 }),
{
    lemma_total_bounded(a, b);
}

/// Any sequence is entirely similar to itself.
pub proof fn lemma_identical_ratio_is_one(a: Seq<u32>)
    requires
        a.len() <= usize::MAX,
    ensures
        ratio_of(a, a).same(Ratio { num: 1, den: 1 }),
{
    let w = whole(a, a);
    let m = Match { a: 0, b: 0, size: a.len() as usize };
    if a.len() > 0 {
        assert(is_longest(a, a, w, m));
        lemma_longest_unique(a, a, w, m);
        lemma_empty_window(a, a, w.left_of(m));
        lemma_empty_window(a, a, w.right_of(m));
        assert(blocks_of(a, a) =~= seq![m]);
        assert(seq![m].drop_last() =~= Seq::empty());
        reveal_with_fuel(total_size, 2);
    }
}

proof fn lemma_empty_window(a: Seq<u32>, b: Seq<u32>, w: Window)
    requires
        w.a_lo == w.a_hi,
    ensures
        blocks_in(a, b, w) == Seq::<Match>::empty(),
{
    let m = longest(a, b, w);
}

/// Sequences without a token in common have no similarity at all.
pub proof fn lemma_disjoint_ratio_is_zero(a: Seq<u32>, b: Seq<u32>)
    requires
        a.len() <= usize::MAX,
        b.len() <= usize::MAX,
        a.len() + b.len() > 0,
        forall|t: u32| #[trigger] a.contains(t) ==> !b.contains(t),
    ensures
        ratio_of(a, b).same(Ratio { num: 0, den: 1 }),
        blocks_of(a, b) == Seq::<Match>::empty(),
{
    let w = whole(a, b);
    let m = longest(a, b, w);
    if m.size > 0 && common_run(a, b, w, m) {
        assert(a[m.a as int] == b[m.b as int]);
        assert(a.contains(a[m.a as int]) && b.contains(b[m.b as int]));
    }
}

/// There is a least number satisfying `p`, if one at all does from `lo` on.
proof fn lemma_least(p: spec_fn(int) -> bool, lo: int, hi: int) -> (r: int)
    requires
        lo <= hi,
        p(hi),
    ensures
        lo <= r <= hi,
        p(r),
        forall|k: int| lo <= k < r ==> !#[trigger] p(k),
    decreases hi - lo,
{
    if p(lo) {
        lo
    } else {
        let r = lemma_least(p, lo + 1, hi);
        assert forall|k: int| lo <= k < r implies !#[trigger] p(k) by {
            if k > lo {
            }
        }
        r
    }
}

/// Every window has a longest common run.
pub proof fn lemma_longest_exists(a: Seq<u32>, b: Seq<u32>, w: Window)
    requires
        w.fits(a, b),
    ensures
        is_longest(a, b, w, longest(a, b, w)),
{
    let none = Match { a: w.a_lo, b: w.b_lo, size: 0 };
    assert(common_run(a, b, w, none));
    let limit = usize::MAX as int;
    let by_size = |k: int|
        exists|x: Match| #[trigger] common_run(a, b, w, x) && x.size == limit - k;
    assert(by_size(limit));
    let size = limit - lemma_least(by_size, 0, limit);
    let some = choose|x: Match| #[trigger] common_run(a, b, w, x) && x.size == size;
    assert(common_run(a, b, w, some) && some.size == size);
    let by_a = |k: int|
        exists|x: Match| #[trigger] common_run(a, b, w, x) && x.size == size && x.a == k;
    assert(by_a(some.a as int));
    let first = lemma_least(by_a, 0, some.a as int);
    let early = choose|x: Match| #[trigger]
        common_run(a, b, w, x) && x.size == size && x.a == first;
    assert(common_run(a, b, w, early) && early.size == size && early.a == first);
    let by_b = |k: int|
        exists|x: Match| #[trigger]
            common_run(a, b, w, x) && x.size == size && x.a == first && x.b == k;
    assert(by_b(early.b as int));
    let second = lemma_least(by_b, 0, early.b as int);
    let m = choose|x: Match| #[trigger]
        common_run(a, b, w, x) && x.size == size && x.a == first && x.b == second;
    assert(common_run(a, b, w, m) && m.size == size && m.a == first && m.b == second);
    assert forall|x: Match| #[trigger] common_run(a, b, w, x) implies preferred(m, x) by {
        if x.size > size {
            assert(by_size(limit - x.size));
        } else if x.size == size {
            if x.a < first {
                assert(by_a(x.a as int));
            } else if x.a == first && x.b < second {
                assert(by_b(x.b as int));
            }
        }
    }
    assert(is_longest(a, b, w, m));
}

/// Every block of a window is a non-empty common run of it; the blocks come in
/// order in both sequences without overlap, and no two neighbours touch in both.
pub proof fn lemma_blocks_never_abut(a: Seq<u32>, b: Seq<u32>, w: Window)
    requires
        w.fits(a, b),
    ensures
        forall|k: int|
            0 <= k < blocks_in(a, b, w).len() ==> common_run(
                a,
                b,
                w,
                #[trigger] blocks_in(a, b, w)[k],
            ) && blocks_in(a, b, w)[k].size > 0,
        forall|k: int, l: int|
            0 <= k && l == k + 1 && l < blocks_in(a, b, w).len() ==> apart(
                #[trigger] blocks_in(a, b, w)[k],
                #[trigger] blocks_in(a, b, w)[l],
            ),
    decreases w.a_hi - w.a_lo,
{
    let m = longest(a, b, w);
    lemma_longest_exists(a, b, w);
    if m.size > 0 {
        let (left, right) = (w.left_of(m), w.right_of(m));
        lemma_blocks_never_abut(a, b, left);
        lemma_blocks_never_abut(a, b, right);
        let before = blocks_in(a, b, left);
        let after = blocks_in(a, b, right);
        let all = blocks_in(a, b, w);
        assert(all =~= before.push(m) + after);
        assert forall|k: int| 0 <= k < all.len() implies common_run(a, b, w, #[trigger] all[k])
            && all[k].size > 0 by {
            if k < before.len() {
                assert(all[k] == before[k]);
            } else if k > before.len() {
                assert(all[k] == after[k - before.len() - 1]);
            }
        }
        assert forall|k: int, l: int| 0 <= k && l == k + 1 && l < all.len() implies apart(
            #[trigger] all[k],
            #[trigger] all[l],
        ) by {
            if l < before.len() {
                assert(all[k] == before[k] && all[l] == before[l]);
            } else if k > before.len() {
                assert(all[k] == after[k - before.len() - 1]);
                assert(all[l] == after[l - before.len() - 1]);
            } else {
                if l == before.len() {
                    assert(all[k] == before[k] && common_run(a, b, left, before[k]));
                } else {
                    assert(all[l] == after[0] && common_run(a, b, right, after[0]));
                }
                lemma_touching_runs_join(a, b, w, all[k], all[l]);
            }
        }
    }
}

/// `y` follows `x` in both sequences, and touches it in at most one of them.
pub open spec fn apart(x: Match, y: Match) -> bool {
    &&& x.a + x.size <= y.a
    &&& x.b + x.size <= y.b
    &&& !(x.a + x.size == y.a && x.b + x.size == y.b)
}

proof fn lemma_touching_runs_join(a: Seq<u32>, b: Seq<u32>, w: Window, x: Match, y: Match)
    requires
        w.fits(a, b),
        common_run(a, b, w, x),
        common_run(a, b, w, y),
        x.size > 0,
        y.size > 0,
        longest(a, b, w) == x || longest(a, b, w) == y,
        is_longest(a, b, w, longest(a, b, w)),
    ensures
        !(x.a + x.size == y.a && x.b + x.size == y.b),
{
    if x.a + x.size == y.a && x.b + x.size == y.b {
        let joined = Match { a: x.a, b: x.b, size: (x.size + y.size) as usize };
        assert forall|p: int| joined.a <= p < joined.a + joined.size implies #[trigger] a[p] == b[p
            - joined.a + joined.b] by {
            if p >= y.a {
                assert(a[p] == b[p - y.a + y.b]);
            }
        }
        assert(common_run(a, b, w, joined));
    }
}

/// Two pairs of sequences that agree in the same places.
pub open spec fn alike(a: Seq<u32>, b: Seq<u32>, x: Seq<u32>, y: Seq<u32>) -> bool {
    &&& a.len() == x.len()
    &&& b.len() == y.len()
    &&& forall|i: int, j: int|
        0 <= i < a.len() && 0 <= j < b.len() ==> (#[trigger] a[i] == #[trigger] b[j] <==> x[i]
            == y[j])
}

proof fn lemma_runs_alike(a: Seq<u32>, b: Seq<u32>, x: Seq<u32>, y: Seq<u32>, w: Window, m: Match)
    requires
        alike(a, b, x, y),
        w.fits(a, b),
    ensures
        common_run(a, b, w, m) <==> common_run(x, y, w, m),
{
    if common_run(a, b, w, m) {
        assert forall|p: int| m.a <= p < m.a + m.size implies #[trigger] x[p] == y[p - m.a
            + m.b] by {
            assert(a[p] == b[p - m.a + m.b]);
        }
    }
    if common_run(x, y, w, m) {
        assert forall|p: int| m.a <= p < m.a + m.size implies #[trigger] a[p] == b[p - m.a
            + m.b] by {
            assert(x[p] == y[p - m.a + m.b]);
        }
    }
}

proof fn lemma_blocks_alike(a: Seq<u32>, b: Seq<u32>, x: Seq<u32>, y: Seq<u32>, w: Window)
    requires
        alike(a, b, x, y),
        w.fits(a, b),
    ensures
        blocks_in(a, b, w) == blocks_in(x, y, w),
    decreases w.a_hi - w.a_lo,
{
    lemma_longest_exists(a, b, w);
    let m = longest(a, b, w);
    lemma_runs_alike(a, b, x, y, w, m);
    assert forall|n: Match| #[trigger] common_run(x, y, w, n) implies preferred(m, n) by {
        lemma_runs_alike(a, b, x, y, w, n);
    }
    assert(is_longest(x, y, w, m));
    lemma_longest_unique(x, y, w, m);
    if m.size > 0 {
        lemma_blocks_alike(a, b, x, y, w.left_of(m));
        lemma_blocks_alike(a, b, x, y, w.right_of(m));
    }
}

/// The similarity of two sequences rests on where their tokens agree, not on which
/// numbers stand for them: two pairs that agree in the same places score the same.
pub proof fn lemma_ratio_rests_on_agreement(a: Seq<u32>, b: Seq<u32>, x: Seq<u32>, y: Seq<u32>)
    requires
        alike(a, b, x, y),
        a.len() <= usize::MAX,
        b.len() <= usize::MAX,
    ensures
        ratio_of(a, b) == ratio_of(x, y),
{
    lemma_blocks_alike(a, b, x, y, whole(a, b));
}

/// A run that stands further on in both sequences.
pub open spec fn moved(m: Match, da: int, db: int) -> Match {
    Match { a: (m.a + da) as usize, b: (m.b + db) as usize, size: m.size }
}

/// Runs that stand further on in both sequences.
pub open spec fn all_moved(blocks: Seq<Match>, da: int, db: int) -> Seq<Match> {
    Seq::new(blocks.len(), |i: int| moved(blocks[i], da, db))
}

spec fn window_moved(w: Window, da: int, db: int) -> Window {
    Window {
        a_lo: (w.a_lo + da) as usize,
        a_hi: (w.a_hi + da) as usize,
        b_lo: (w.b_lo + db) as usize,
        b_hi: (w.b_hi + db) as usize,
    }
}

/// `x` and `y` are the parts of `a` and `b` from `da` and `db` on.
spec fn parts_from(a: Seq<u32>, b: Seq<u32>, x: Seq<u32>, y: Seq<u32>, da: int, db: int) -> bool {
    &&& 0 <= da && da + x.len() <= a.len() <= usize::MAX
    &&& 0 <= db && db + y.len() <= b.len() <= usize::MAX
    &&& x == a.subrange(da, da + x.len())
    &&& y == b.subrange(db, db + y.len())
}

proof fn lemma_runs_move(
    a: Seq<u32>,
    b: Seq<u32>,
    x: Seq<u32>,
    y: Seq<u32>,
    da: int,
    db: int,
    w: Window,
    m: Match,
)
    requires
        parts_from(a, b, x, y, da, db),
        w.fits(x, y),
        w.a_lo <= m.a && m.a + m.size <= w.a_hi,
        w.b_lo <= m.b && m.b + m.size <= w.b_hi,
    ensures
        common_run(x, y, w, m) <==> common_run(a, b, window_moved(w, da, db), moved(m, da, db)),
{
    let n = moved(m, da, db);
    if common_run(x, y, w, m) {
        assert forall|p: int| n.a <= p < n.a + n.size implies #[trigger] a[p] == b[p - n.a
            + n.b] by {
            assert(x[p - da] == y[p - da - m.a + m.b]);
        }
    }
    if common_run(a, b, window_moved(w, da, db), n) {
        assert forall|p: int| m.a <= p < m.a + m.size implies #[trigger] x[p] == y[p - m.a
            + m.b] by {
            assert(a[p + da] == b[p + da - n.a + n.b]);
        }
    }
}

proof fn lemma_blocks_move(
    a: Seq<u32>,
    b: Seq<u32>,
    x: Seq<u32>,
    y: Seq<u32>,
    da: int,
    db: int,
    w: Window,
)
    requires
        parts_from(a, b, x, y, da, db),
        w.fits(x, y),
    ensures
        blocks_in(a, b, window_moved(w, da, db)) == all_moved(blocks_in(x, y, w), da, db),
    decreases w.a_hi - w.a_lo,
{
    let v = window_moved(w, da, db);
    lemma_longest_exists(x, y, w);
    let m = longest(x, y, w);
    let n = moved(m, da, db);
    lemma_runs_move(a, b, x, y, da, db, w, m);
    assert forall|k: Match| #[trigger] common_run(a, b, v, k) implies preferred(n, k) by {
        let back = Match { a: (k.a - da) as usize, b: (k.b - db) as usize, size: k.size };
        assert(moved(back, da, db) == k);
        lemma_runs_move(a, b, x, y, da, db, w, back);
        assert(preferred(m, back));
    }
    assert(is_longest(a, b, v, n));
    lemma_longest_unique(a, b, v, n);
    if m.size > 0 {
        lemma_blocks_move(a, b, x, y, da, db, w.left_of(m));
        lemma_blocks_move(a, b, x, y, da, db, w.right_of(m));
        assert(window_moved(w.left_of(m), da, db) == v.left_of(n));
        assert(window_moved(w.right_of(m), da, db) == v.right_of(n));
        let (left, right) = (blocks_in(x, y, w.left_of(m)), blocks_in(x, y, w.right_of(m)));
        assert(all_moved(left.push(m) + right, da, db) =~= all_moved(left, da, db).push(n)
            + all_moved(right, da, db));
    } else {
        assert(all_moved(Seq::empty(), da, db) =~= Seq::empty());
    }
}

/// The blocks of a window are those of the two parts it cuts out, each moved to where
/// its part begins.
pub proof fn lemma_blocks_of_a_window(a: Seq<u32>, b: Seq<u32>, w: Window)
    requires
        w.fits(a, b),
        a.len() <= usize::MAX,
        b.len() <= usize::MAX,
    ensures
        blocks_in(a, b, w) == all_moved(
            blocks_of(
                a.subrange(w.a_lo as int, w.a_hi as int),
                b.subrange(w.b_lo as int, w.b_hi as int),
            ),
            w.a_lo as int,
            w.b_lo as int,
        ),
{
    let x = a.subrange(w.a_lo as int, w.a_hi as int);
    let y = b.subrange(w.b_lo as int, w.b_hi as int);
    lemma_blocks_move(a, b, x, y, w.a_lo as int, w.b_lo as int, whole(x, y));
    assert(window_moved(whole(x, y), w.a_lo as int, w.b_lo as int) == w);
}

/// Ratcliff–Obershelp: two sequences without a token in common have no blocks. Others
/// have their longest common run, the earliest among equals; before it the blocks of
/// what lies before it in both, and behind it the blocks of what lies behind it in
/// both, moved to where that begins.
pub proof fn lemma_blocks_are_found_around_the_longest(a: Seq<u32>, b: Seq<u32>)
    requires
        a.len() <= usize::MAX,
        b.len() <= usize::MAX,
    ensures
        blocks_of(a, b).len() == 0 <==> forall|i: int, j: int|
            0 <= i < a.len() && 0 <= j < b.len() ==> #[trigger] a[i] != #[trigger] b[j],
        blocks_of(a, b).len() > 0 ==> ({
            let m = longest(a, b, whole(a, b));
            let (ea, eb) = (m.a + m.size, m.b + m.size);
            &&& is_longest(a, b, whole(a, b), m)
            &&& m.size > 0
            &&& blocks_of(a, b) == blocks_of(a.take(m.a as int), b.take(m.b as int)) + seq![m]
                + all_moved(blocks_of(a.skip(ea), b.skip(eb)), ea, eb)
        }),
{
    let w = whole(a, b);
    lemma_longest_exists(a, b, w);
    let m = longest(a, b, w);
    if m.size == 0 {
        assert forall|i: int, j: int|
            0 <= i < a.len() && 0 <= j < b.len() implies #[trigger] a[i] != #[trigger] b[j] by {
            if a[i] == b[j] {
                assert(common_run(a, b, w, Match { a: i as usize, b: j as usize, size: 1 }));
            }
        }
    } else {
        assert(a[m.a as int] == b[m.b as int]);
        let (ea, eb) = (m.a + m.size, m.b + m.size);
        let (left, right) = (w.left_of(m), w.right_of(m));
        lemma_blocks_of_a_window(a, b, left);
        lemma_blocks_of_a_window(a, b, right);
        assert(a.subrange(0, m.a as int) =~= a.take(m.a as int));
        assert(b.subrange(0, m.b as int) =~= b.take(m.b as int));
        assert(a.subrange(ea, a.len() as int) =~= a.skip(ea));
        assert(b.subrange(eb, b.len() as int) =~= b.skip(eb));
        let before = blocks_of(a.take(m.a as int), b.take(m.b as int));
        assert(all_moved(before, 0, 0) =~= before);
        assert(blocks_of(a, b) =~= before + seq![m] + all_moved(
            blocks_of(a.skip(ea), b.skip(eb)),
            ea,
            eb,
        ));
    }
}

// ------------------------------------------------------------ what a score amounts to

/// The same `n` tokens stand from `x` on in `a` and from `y` on in `b`.
pub open spec fn stands_in_both(a: Seq<u32>, b: Seq<u32>, x: int, y: int, n: int) -> bool {
    &&& 0 <= x && 0 <= y && 0 <= n
    &&& x + n <= a.len()
    &&& y + n <= b.len()
    &&& forall|k: int| 0 <= k < n ==> a[x + k] == #[trigger] b[y + k]
}

/// No longer run stands in both sequences, and none as long stands earlier in the first,
/// or level there and earlier in the second.
pub open spec fn is_first_of_the_longest(a: Seq<u32>, b: Seq<u32>, m: Match) -> bool {
    &&& stands_in_both(a, b, m.a as int, m.b as int, m.size as int)
    &&& forall|x: int, y: int, n: int| #[trigger]
        stands_in_both(a, b, x, y, n) ==> n < m.size || (n == m.size && (m.a < x || (m.a == x
            && m.b <= y)))
}

/// The places of the first sequence that lie in some block.
pub open spec fn covered(blocks: Seq<Match>) -> Set<int> {
    Set::new(
        |p: int|
            exists|k: int|
                0 <= k < blocks.len() && (#[trigger] blocks[k]).a <= p < blocks[k].a
                    + blocks[k].size,
    )
}

/// Two sequences match first in the longest run that stands in both, the earliest where
/// there are several, and then in the same way before it and behind it; where they have
/// no token in common they do not match at all.
pub proof fn lemma_longest_runs_match_first(a: Seq<u32>, b: Seq<u32>)
    requires
        a.len() <= usize::MAX,
        b.len() <= usize::MAX,
    ensures
        (exists|i: int, j: int|
            0 <= i < a.len() && 0 <= j < b.len() && #[trigger] a[i] == #[trigger] b[j])
            ==> exists|m: Match| #[trigger]
            is_first_of_the_longest(a, b, m) && ({
                let (before, after) = (
                    blocks_of(a.take(m.a as int), b.take(m.b as int)),
                    blocks_of(a.skip(m.a + m.size), b.skip(m.b + m.size)),
                );
                let all = blocks_of(a, b);
                let n = before.len() as int;
                &&& all.len() == n + 1 + after.len()
                &&& forall|k: int| 0 <= k < n ==> #[trigger] all[k] == before[k]
                &&& all[n] == m
                &&& forall|k: int|
                    0 <= k < after.len() ==> (#[trigger] all[n + 1 + k]).size == after[k].size
                        && all[n + 1 + k].a == after[k].a + m.a + m.size && all[n + 1 + k].b
                        == after[k].b + m.b + m.size
            }),
        (forall|i: int, j: int|
            0 <= i < a.len() && 0 <= j < b.len() ==> #[trigger] a[i] != #[trigger] b[j])
            ==> blocks_of(a, b).len() == 0,
{
    lemma_blocks_are_found_around_the_longest(a, b);
    if blocks_of(a, b).len() > 0 {
        let w = whole(a, b);
        let m = longest(a, b, w);
        assert forall|k: int| 0 <= k < m.size implies a[m.a + k] == #[trigger] b[m.b + k] by {
            assert(a[m.a + k] == b[(m.a + k) - m.a + m.b]);
        }
        assert forall|x: int, y: int, n: int| #[trigger] stands_in_both(a, b, x, y, n) implies n
            < m.size || (n == m.size && (m.a < x || (m.a == x && m.b <= y))) by {
            let r = Match { a: x as usize, b: y as usize, size: n as usize };
            assert forall|p: int| r.a <= p < r.a + r.size implies #[trigger] a[p] == b[p - r.a
                + r.b] by {
                assert(a[x + (p - x)] == b[y + (p - x)]);
            }
            assert(common_run(a, b, w, r));
        }
        assert(is_first_of_the_longest(a, b, m));
        let (ea, eb) = (m.a + m.size, m.b + m.size);
        let after = blocks_of(a.skip(ea), b.skip(eb));
        let before = blocks_of(a.take(m.a as int), b.take(m.b as int));
        let all = blocks_of(a, b);
        assert(whole(a.skip(ea), b.skip(eb)).fits(a.skip(ea), b.skip(eb)));
        lemma_blocks_never_abut(a.skip(ea), b.skip(eb), whole(a.skip(ea), b.skip(eb)));
        assert forall|k: int| 0 <= k < after.len() implies (#[trigger] all[before.len() + 1
            + k]).size == after[k].size && all[before.len() + 1 + k].a == after[k].a + m.a + m.size
            && all[before.len() + 1 + k].b == after[k].b + m.b + m.size by {
            assert(common_run(
                a.skip(ea),
                b.skip(eb),
                whole(a.skip(ea), b.skip(eb)),
                after[k],
            ));
            assert(all[before.len() + 1 + k] == moved(after[k], ea, eb));
        }
    }
}

proof fn lemma_covered_is_counted(blocks: Seq<Match>)
    requires
        forall|k: int, l: int|
            0 <= k && l == k + 1 && l < blocks.len() ==> apart(
                #[trigger] blocks[k],
                #[trigger] blocks[l],
            ),
    ensures
        covered(blocks).finite(),
        covered(blocks).len() == total_size(blocks),
        forall|p: int| #[trigger]
            covered(blocks).contains(p) ==> blocks.len() > 0 && p < blocks.last().a
                + blocks.last().size,
    decreases blocks.len(),
{
    let all = covered(blocks);
    if blocks.len() == 0 {
        assert(all =~= Set::empty());
    } else {
        let front = blocks.drop_last();
        let last = blocks.last();
        lemma_covered_is_counted(front);
        let (lo, hi) = (last.a as int, last.a + last.size);
        let here = vstd::set_lib::set_int_range(lo, hi);
        vstd::set_lib::lemma_int_range(lo, hi);
        assert forall|p: int| #[trigger] all.contains(p) <==> covered(front).contains(p)
            || here.contains(p) by {
            if all.contains(p) {
                let k = choose|k: int|
                    0 <= k < blocks.len() && (#[trigger] blocks[k]).a <= p < blocks[k].a
                        + blocks[k].size;
                if k < front.len() {
                    assert(front[k] == blocks[k]);
                }
            }
            if covered(front).contains(p) {
                let k = choose|k: int|
                    0 <= k < front.len() && (#[trigger] front[k]).a <= p < front[k].a
                        + front[k].size;
                assert(blocks[k] == front[k]);
            }
            if here.contains(p) {
                assert(blocks[blocks.len() - 1] == last);
            }
        }
        assert(all =~= covered(front).union(here));
        if front.len() > 0 {
            assert(apart(blocks[front.len() - 1], blocks[front.len() as int]));
            assert(front.last() == blocks[front.len() - 1]);
        }
        assert(covered(front).disjoint(here));
        vstd::set_lib::lemma_set_disjoint_lens(covered(front), here);
    }
}

/// A score is twice the tokens that match, out of all tokens on both sides: the number of
/// places of the first sequence that lie in a block, of the lengths of both together. Two
/// empty sequences are the same.
pub proof fn lemma_a_score_counts_what_matches(a: Seq<u32>, b: Seq<u32>)
    requires
        a.len() <= usize::MAX,
        b.len() <= usize::MAX,
        a.len() + b.len() <= u64::MAX,
    ensures
        a.len() + b.len() > 0 ==> ratio_of(a, b).den == a.len() + b.len() && ratio_of(a, b).num
            == 2 * covered(blocks_of(a, b)).len(),
        a.len() + b.len() == 0 ==> ratio_of(a, b).num == 1 && ratio_of(a, b).den == 1,
{
    lemma_blocks_never_abut(a, b, whole(a, b));
    lemma_covered_is_counted(blocks_of(a, b));
    lemma_total_bounded(a, b);
}

/// The bounds count what could match at best: as many tokens as both sides have in common,
/// whatever their order, and as many as the shorter side has.
pub proof fn lemma_bounds_count_what_could_match(a: Seq<u32>, b: Seq<u32>)
    requires
        a.len() <= usize::MAX,
        b.len() <= usize::MAX,
        0 < a.len() + b.len() <= u64::MAX,
    ensures
        quick_ratio_of(a, b).den == a.len() + b.len(),
        quick_ratio_of(a, b).num == 2 * a.to_multiset().intersection_with(b.to_multiset()).len(),
        real_quick_ratio_of(a.len(), b.len()).den == a.len() + b.len(),
        a.len() <= b.len() ==> real_quick_ratio_of(a.len(), b.len()).num == 2 * a.len(),
        b.len() <= a.len() ==> real_quick_ratio_of(a.len(), b.len()).num == 2 * b.len(),
{
    lemma_total_bounded(a, b);
}

} // verus!
