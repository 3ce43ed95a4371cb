//! Sub-function repeated-fragment detection.
//!
//! [`crate::similarity`] compares whole function bodies, so it structurally
//! cannot see a chunk of code copy-pasted *inside* two differently shaped
//! functions. This module finds that kind of duplication directly, by hashing
//! sliding windows of the normalized token stream instead of whole units.
//!
//! # Identity survives motion
//!
//! [`find_blocks`] hashes the *extended* run — not the seed window it was found
//! from — so the same fragment, wherever it is embedded, always carries the same
//! [`ContentHash`].
//!
//! # Why seed windows are anchored before they are extended
//!
//! A single 40-token repeat with `min_tokens = 10` seeds a match at *every*
//! interior offset of the run. So only a seed pair that is *left-maximal* is
//! extended: one where the token immediately before the window differs between
//! the two sides, or the window starts at the very beginning of a stream. One
//! maximal run in, one finding out.
//!
//! # Why one occurrence anchors the rest, not a complete graph
//!
//! A fragment occurring N times is one fact with N locations. Each window is
//! paired with its earliest occurrence, by file and then by place, for N - 1
//! findings; every occurrence still appears in the pair connecting it back to
//! the earliest one.
//!
//! # Why windows are hashed with a rolling integer hash
//!
//! Sliding a Rabin–Karp hash by one token is constant work. A 64-bit hash *can*
//! collide, so a candidate is only ever taken for a repeat after its ids have
//! been compared, and windows are told apart by their ids: a collision can cost a
//! wasted comparison; it can never produce or drop a finding.

use std::collections::HashMap;

use vstd::arithmetic::power::pow;
use vstd::prelude::*;
use vstd::string::*;

use crate::extract::{SourceFile, SourceView};
use crate::normalize;
use crate::normalize::{placed_at, token_names, PlacedToken, PlacedView};
use crate::report::{BlockPair, BlockRef, BlockRefView, BlockView, LongestBlock};
use crate::sort::{lemma_sorted, lemma_sorted_holds, sort, sorted, views, Order};
use crate::syntax::{parse, syntax_of};
use crate::text::{
    alphabetical, lemma_alphabetical_antisymmetric, lemma_alphabetical_total,
    lemma_alphabetical_transitive, replace_char, same_text, text_at_most, with_replaced,
};
use crate::token::{
    content_hash, id_of, ids_of, intern_all, lemma_ids_are_stable, lemma_ids_identify_names,
    lemma_interning_extends, ContentHash, Interner,
};

verus! {

broadcast use vstd::std_specs::hash::group_hash_axioms;

/// Tunables for [`find_blocks`].
#[derive(Debug, Clone, Copy)]
pub struct BlockOptions {
    /// Shortest repeated run worth reporting, in normalized tokens.
    pub min_tokens: usize,
}

// ------------------------------------------------------------------------ hashing

/// Odd 64-bit multiplier for [`rolling_hashes`]'s polynomial rolling hash.
///
/// This is `round(2^64 / phi)`: an odd multiplier is invertible mod 2^64, which
/// spreads nearby inputs across the whole 64-bit range.
pub const ROLLING_BASE: u64 = 0x9E37_79B9_7F4A_7C15;

/// A window read as the digits of a number.
pub open spec fn polynomial(w: Seq<u32>) -> int
    decreases w.len(),
{
    if w.len() == 0 {
        0
    } else {
        polynomial(w.drop_last()) * (ROLLING_BASE as int) + w.last() as int
    }
}

/// The rolling hash of a window: that number, as far as 64 bits hold it.
#[verifier::opaque]
pub open spec fn window_hash(w: Seq<u32>) -> u64 {
    (polynomial(w) % 0x1_0000_0000_0000_0000) as u64
}

proof fn lemma_window_hash(w: Seq<u32>)
    ensures
        window_hash(w) == polynomial(w) % modulus(),
{
    reveal(window_hash);
    vstd::arithmetic::div_mod::lemma_mod_bound(polynomial(w), modulus());
}

/// How many windows of `m` tokens a stream of `n` has.
pub open spec fn window_count(n: nat, m: nat) -> nat {
    if n >= m {
        (n - m + 1) as nat
    } else {
        0
    }
}

spec fn modulus() -> int {
    0x1_0000_0000_0000_0000
}

proof fn lemma_polynomial_first(w: Seq<u32>)
    requires
        w.len() > 0,
    ensures
        polynomial(w) == (w[0] as int) * pow(ROLLING_BASE as int, (w.len() - 1) as nat)
            + polynomial(w.drop_first()),
    decreases w.len(),
{
    let base = ROLLING_BASE as int;
    if w.len() == 1 {
        assert(w.drop_last() =~= Seq::empty());
        assert(w.drop_first() =~= Seq::empty());
        vstd::arithmetic::power::lemma_pow0(base);
        assert(0 * base == 0) by (nonlinear_arith);
    } else {
        let front = w.drop_last();
        lemma_polynomial_first(front);
        assert(front.drop_first() =~= w.drop_first().drop_last());
        let k = (w.len() - 2) as nat;
        let p = pow(base, k);
        vstd::arithmetic::power::lemma_pow_adds(base, k, 1);
        vstd::arithmetic::power::lemma_pow1(base);
        let f = w[0] as int;
        let inner = polynomial(front.drop_first());
        assert((f * p + inner) * base == f * (p * base) + inner * base) by (nonlinear_arith);
        assert(w.drop_first().last() == w.last());
    }
}

proof fn lemma_wrapping(x: u64, y: u64)
    ensures
        x.wrapping_add(y) == (x + y) % modulus(),
        x.wrapping_sub(y) == (x - y) % modulus(),
        x.wrapping_mul(y) == (x * y) % modulus(),
{
    let m = modulus();
    if x + y >= m {
        vstd::arithmetic::div_mod::lemma_fundamental_div_mod_converse(x + y, m, 1, x + y - m);
    } else {
        vstd::arithmetic::div_mod::lemma_small_mod((x + y) as nat, m as nat);
    }
    if x - y < 0 {
        vstd::arithmetic::div_mod::lemma_fundamental_div_mod_converse(x - y, m, -1, x - y + m);
    } else {
        vstd::arithmetic::div_mod::lemma_small_mod((x - y) as nat, m as nat);
    }
    vstd::arithmetic::div_mod::lemma_mod_bound(x * y, m);
}

/// Working modulo 2^64 throughout comes to the same as reducing at the end.
proof fn lemma_slide(p: int, l: int, q: int, e: int, base: int)
    ensures
        (((p % modulus() - (l * (q % modulus())) % modulus()) % modulus() * base) % modulus() + e)
            % modulus() == ((p - l * q) * base + e) % modulus(),
{
    let m = modulus();
    vstd::arithmetic::div_mod::lemma_mul_mod_noop_right(l, q, m);
    vstd::arithmetic::div_mod::lemma_sub_mod_noop(p, l * q, m);
    vstd::arithmetic::div_mod::lemma_mul_mod_noop_left(p - l * q, base, m);
    vstd::arithmetic::div_mod::lemma_add_mod_noop((p - l * q) * base, e, m);
    vstd::arithmetic::div_mod::lemma_mod_twice((p - l * q) * base, m);
    vstd::arithmetic::div_mod::lemma_add_mod_noop(((p - l * q) * base) % m, e, m);
}

/// Rolling 64-bit hash of every `min_tokens`-token window in `ids`, indexed
/// by window start.
///
/// The first window costs `min_tokens` steps, and each later one is derived from
/// the one before it by subtracting the token that just left and mixing in the one
/// that just entered.
pub fn rolling_hashes(ids: &[u32], min_tokens: usize) -> (hashes: Vec<u64>)
    requires
        min_tokens >= 1,
    ensures
        hashes@.len() == window_count(ids@.len(), min_tokens as nat),
        forall|s: int|
            0 <= s < hashes@.len() ==> #[trigger] hashes@[s] == window_hash(
                ids@.subrange(s, s + min_tokens),
            ),
{
    let mut hashes: Vec<u64> = Vec::new();
    if ids.len() < min_tokens {
        return hashes;
    }
    let ghost base = ROLLING_BASE as int;
    let mut leading_power: u64 = 1;
    let mut k: usize = 0;
    proof {
        vstd::arithmetic::power::lemma_pow0(base);
        vstd::arithmetic::div_mod::lemma_small_mod(1, modulus() as nat);
    }
    while k < min_tokens - 1
        invariant
            min_tokens >= 1,
            k <= min_tokens - 1,
            base == ROLLING_BASE as int,
            leading_power == pow(base, k as nat) % modulus(),
        decreases min_tokens - k,
    {
        proof {
            lemma_wrapping(leading_power, ROLLING_BASE);
            vstd::arithmetic::power::lemma_pow_adds(base, k as nat, 1);
            vstd::arithmetic::power::lemma_pow1(base);
            vstd::arithmetic::div_mod::lemma_mul_mod_noop_left(
                pow(base, k as nat),
                base,
                modulus(),
            );
        }
        leading_power = leading_power.wrapping_mul(ROLLING_BASE);
        k += 1;
    }
    let mut hash: u64 = 0;
    let mut i: usize = 0;
    assert(ids@.take(0) =~= Seq::empty());
    while i < min_tokens
        invariant
            i <= min_tokens <= ids@.len(),
            hash == polynomial(ids@.take(i as int)) % modulus(),
        decreases min_tokens - i,
    {
        let ghost before = polynomial(ids@.take(i as int));
        let id: u64 = ids[i] as u64;
        proof {
            lemma_wrapping(hash, ROLLING_BASE);
            lemma_wrapping(hash.wrapping_mul(ROLLING_BASE), id);
            let m = modulus();
            let b = ROLLING_BASE as int;
            vstd::arithmetic::div_mod::lemma_mul_mod_noop_left(before, b, m);
            vstd::arithmetic::div_mod::lemma_add_mod_noop(before * b, id as int, m);
            vstd::arithmetic::div_mod::lemma_mod_twice(before * b, m);
            vstd::arithmetic::div_mod::lemma_add_mod_noop((before * b) % m, id as int, m);
            assert(ids@.take(i + 1).drop_last() =~= ids@.take(i as int));
        }
        hash = hash.wrapping_mul(ROLLING_BASE).wrapping_add(id);
        i += 1;
    }
    assert(ids@.take(min_tokens as int) =~= ids@.subrange(0, min_tokens as int));
    proof {
        lemma_window_hash(ids@.subrange(0, min_tokens as int));
    }
    hashes.push(hash);
    let mut start: usize = 0;
    while start < ids.len() - min_tokens
        invariant
            1 <= min_tokens <= ids@.len(),
            start <= ids@.len() - min_tokens,
            base == ROLLING_BASE as int,
            leading_power == pow(base, (min_tokens - 1) as nat) % modulus(),
            hash == polynomial(ids@.subrange(start as int, start + min_tokens)) % modulus(),
            hashes@.len() == start + 1,
            forall|s: int|
                0 <= s < hashes@.len() ==> #[trigger] hashes@[s] == window_hash(
                    ids@.subrange(s, s + min_tokens),
                ),
        decreases ids.len() - min_tokens - start,
    {
        let leaving: u64 = ids[start] as u64;
        let entering: u64 = ids[start + min_tokens] as u64;
        let ghost w = ids@.subrange(start as int, start + min_tokens);
        let ghost next = ids@.subrange(start + 1, start + 1 + min_tokens);
        proof {
            let q = pow(base, (min_tokens - 1) as nat);
            lemma_polynomial_first(w);
            assert(next.drop_last() =~= w.drop_first());
            assert(polynomial(next) == (polynomial(w) - (leaving as int) * q) * base
                + entering as int);
            lemma_slide(polynomial(w), leaving as int, q, entering as int, base);
            lemma_wrapping(leaving, leading_power);
            let gone = leaving.wrapping_mul(leading_power);
            lemma_wrapping(hash, gone);
            let kept = hash.wrapping_sub(gone);
            lemma_wrapping(kept, ROLLING_BASE);
            lemma_wrapping(kept.wrapping_mul(ROLLING_BASE), entering);
            lemma_window_hash(next);
        }
        hash = hash.wrapping_sub(leaving.wrapping_mul(leading_power));
        hash = hash.wrapping_mul(ROLLING_BASE).wrapping_add(entering);
        hashes.push(hash);
        start += 1;
    }
    hashes
}

// ----------------------------------------------------------------------- repeats

/// The files under search, with their tokens and the ids of those.
#[verifier::ext_equal]
pub struct Corpus {
    /// The files.
    pub files: Seq<SourceView>,
    /// The tokens of each file.
    pub streams: Seq<Seq<PlacedView>>,
    /// The ids of the tokens of each file.
    pub ids: Seq<Seq<u32>>,
    /// Length of a window.
    pub window: nat,
}

/// A place in a corpus: a file, and a token in it.
pub type Place = (int, int);

impl Corpus {
    /// A window starts here.
    pub open spec fn has(self, o: Place) -> bool {
        0 <= o.0 < self.ids.len() && 0 <= o.1 && o.1 + self.window <= self.ids[o.0].len()
    }

    /// The ids of the window that starts here.
    pub open spec fn at(self, o: Place) -> Seq<u32> {
        self.ids[o.0].subrange(o.1, o.1 + self.window)
    }

    /// `a` is the earliest place whose window holds what that at `b` holds.
    pub open spec fn anchors(self, a: Place, b: Place) -> bool {
        &&& self.has(a)
        &&& self.at(a) == self.at(b)
        &&& self.first_at(a, self.at(b))
    }

    /// No window before `a` holds `w`.
    #[verifier::opaque]
    pub open spec fn first_at(self, a: Place, w: Seq<u32>) -> bool {
        forall|o: Place| self.has(o) && earlier(o, a) ==> #[trigger] self.at(o) != w
    }

    /// The earliest place whose window holds what that at `b` holds.
    pub open spec fn anchor(self, b: Place) -> Place {
        choose|a: Place| self.anchors(a, b)
    }

    /// The two windows are where their runs truly start: one begins its file, or
    /// different tokens stand in front of them.
    pub open spec fn left_maximal(self, a: Place, b: Place) -> bool {
        a.1 == 0 || b.1 == 0 || self.ids[a.0][a.1 - 1] != self.ids[b.0][b.1 - 1]
    }

    /// How far the runs from `a` and `b` agree, having agreed for `n` tokens.
    pub open spec fn run_from(self, a: Place, b: Place, n: nat) -> nat
        decreases self.ids[a.0].len() - a.1 - n,
    {
        if a.1 + n < self.ids[a.0].len() && b.1 + n < self.ids[b.0].len() && self.ids[a.0][a.1 + n]
            == self.ids[b.0][b.1 + n] {
            self.run_from(a, b, n + 1)
        } else {
            n
        }
    }

    /// Where a run of `n` tokens stands.
    pub open spec fn block_at(self, o: Place, n: nat) -> BlockRefView {
        BlockRefView {
            file: with_replaced(self.files[o.0].path, '\\', '/'),
            start_line: self.streams[o.0][o.1].line,
            end_line: self.streams[o.0][o.1 + n - 1].line,
        }
    }

    /// The finding of the runs from `a` and `b`.
    pub open spec fn finding(self, a: Place, b: Place) -> BlockView {
        let n = self.run_from(a, b, self.window);
        BlockView {
            a: self.block_at(a, n),
            b: self.block_at(b, n),
            tokens: n,
            hash: content_hash(token_names(self.streams[a.0].subrange(a.1, a.1 + n as int))),
        }
    }

    /// The finding at `b`, if a run that starts here repeats an earlier one.
    pub open spec fn finding_at(self, b: Place) -> Seq<BlockView> {
        let a = self.anchor(b);
        if a != b && self.left_maximal(a, b) {
            seq![self.finding(a, b)]
        } else {
            Seq::empty()
        }
    }

    /// The findings at the first `n` windows of a file.
    pub open spec fn findings_in(self, f: int, n: nat) -> Seq<BlockView>
        decreases n,
    {
        if n == 0 {
            Seq::empty()
        } else {
            self.findings_in(f, (n - 1) as nat) + self.finding_at((f, n - 1))
        }
    }

    /// The findings in the first `k` files.
    pub open spec fn findings(self, k: nat) -> Seq<BlockView>
        decreases k,
    {
        if k == 0 {
            Seq::empty()
        } else {
            self.findings((k - 1) as nat) + self.findings_in(
                k - 1,
                window_count(self.ids[k - 1].len(), self.window),
            )
        }
    }

    /// Every file has its tokens, and every token its id.
    pub open spec fn consistent(self) -> bool {
        &&& self.streams.len() == self.files.len()
        &&& self.ids.len() == self.files.len()
        &&& forall|f: int|
            0 <= f < self.ids.len() ==> #[trigger] self.ids[f].len() == self.streams[f].len()
    }
}

/// `a` comes before `b`: in an earlier file, or earlier in the same one.
pub open spec fn earlier(a: Place, b: Place) -> bool {
    a.0 < b.0 || (a.0 == b.0 && a.1 < b.1)
}

proof fn lemma_anchor_unique(c: Corpus, a: Place, b: Place)
    requires
        c.anchors(a, b),
    ensures
        c.anchor(b) == a,
{
    reveal(Corpus::first_at);
    let x = c.anchor(b);
    assert(c.anchors(x, b));
    if earlier(x, a) {
        assert(c.at(x) != c.at(b));
    }
    if earlier(a, x) {
        assert(c.at(a) != c.at(b));
    }
}

/// Confirm that two windows really are the same ids.
pub fn windows_match(a: &[u32], sa: usize, b: &[u32], sb: usize, min_tokens: usize) -> (r: bool)
    requires
        sa + min_tokens <= a@.len(),
        sb + min_tokens <= b@.len(),
    ensures
        r == (a@.subrange(sa as int, sa + min_tokens) == b@.subrange(sb as int, sb + min_tokens)),
{
    let ghost x = a@.subrange(sa as int, sa + min_tokens);
    let ghost y = b@.subrange(sb as int, sb + min_tokens);
    let (na, nb) = (a.len(), b.len());
    let mut k: usize = 0;
    while k < min_tokens
        invariant
            k <= min_tokens,
            sa + min_tokens <= na == a@.len(),
            sb + min_tokens <= nb == b@.len(),
            x == a@.subrange(sa as int, sa + min_tokens),
            y == b@.subrange(sb as int, sb + min_tokens),
            forall|j: int| 0 <= j < k ==> #[trigger] x[j] == y[j],
        decreases min_tokens - k,
    {
        if a[sa + k] != b[sb + k] {
            assert(x[k as int] != y[k as int]);
            return false;
        }
        k += 1;
    }
    assert(x =~= y);
    true
}

/// Whether a seed match is the true start of its run.
fn is_left_maximal(a: &[u32], sa: usize, b: &[u32], sb: usize) -> (r: bool)
    requires
        sa <= a@.len(),
        sb <= b@.len(),
    ensures
        r == (sa == 0 || sb == 0 || a@[sa - 1] != b@[sb - 1]),
{
    sa == 0 || sb == 0 || a[sa - 1] != b[sb - 1]
}

/// Extend a seed match as far as the ids keep agreeing.
fn extend_forward(
    a: &[u32],
    sa: usize,
    b: &[u32],
    sb: usize,
    min_tokens: usize,
    Ghost(c): Ghost<Corpus>,
    Ghost(at): Ghost<(int, int)>,
) -> (length: usize)
    requires
        sa + min_tokens <= a@.len(),
        sb + min_tokens <= b@.len(),
        c.ids[at.0] == a@,
        c.ids[at.1] == b@,
    ensures
        length == c.run_from((at.0, sa as int), (at.1, sb as int), min_tokens as nat),
        min_tokens <= length,
        sa + length <= a@.len(),
        sb + length <= b@.len(),
{
    let (na, nb) = (a.len(), b.len());
    let mut length: usize = min_tokens;
    while length < na - sa && length < nb - sb && a[sa + length] == b[sb + length]
        invariant
            min_tokens <= length,
            sa + length <= na == a@.len(),
            sb + length <= nb == b@.len(),
            c.ids[at.0] == a@,
            c.ids[at.1] == b@,
            c.run_from((at.0, sa as int), (at.1, sb as int), min_tokens as nat) == c.run_from(
                (at.0, sa as int),
                (at.1, sb as int),
                length as nat,
            ),
        decreases na - length,
    {
        length += 1;
    }
    length
}

/// Build a [`BlockRef`] spanning a run's first and last token.
///
/// `file` uses `/` separators regardless of platform, matching every other
/// path the report format carries.
fn block_ref(path: &str, tokens: &[PlacedToken], start: usize, length: usize) -> (r: BlockRef)
    requires
        length >= 1,
        start + length <= tokens@.len(),
    ensures
        r@ == (BlockRefView {
            file: with_replaced(path@, '\\', '/'),
            start_line: tokens@[start as int].line as nat,
            end_line: tokens@[start + length - 1].line as nat,
        }),
{
    BlockRef {
        file: replace_char(path, '\\', '/'),
        start_line: tokens[start].line,
        end_line: tokens[start + length - 1].line,
    }
}

/// What lists of tokens hold.
pub open spec fn stream_views(streams: Seq<Vec<PlacedToken>>) -> Seq<Seq<PlacedView>> {
    Seq::new(streams.len(), |i: int| views(streams[i]@))
}

/// What lists of ids hold.
pub open spec fn id_views(ids: Seq<Vec<u32>>) -> Seq<Seq<u32>> {
    Seq::new(ids.len(), |i: int| ids[i]@)
}

/// The corpus of some files, with their tokens and ids.
pub open spec fn corpus_of(
    files: Seq<SourceFile>,
    streams: Seq<Vec<PlacedToken>>,
    ids: Seq<Vec<u32>>,
    min_tokens: usize,
) -> Corpus {
    Corpus {
        files: views(files),
        streams: stream_views(streams),
        ids: id_views(ids),
        window: min_tokens as nat,
    }
}

/// A list of places, as they stand in a corpus.
spec fn place(o: (usize, usize)) -> Place {
    (o.0 as int, o.1 as int)
}

/// What is known of the places before `front`: `table` lists, under the hash of
/// its window, the earliest place of every window met so far.
spec fn tabled(c: Corpus, front: Place, table: Map<u64, Vec<(usize, usize)>>) -> bool {
    &&& forall|h: u64, k: int|
        table.contains_key(h) && 0 <= k < table[h]@.len() ==> first_met(
            c,
            front,
            #[trigger] table[h]@[k],
        )
    &&& forall|o: Place| c.has(o) && earlier(o, front) ==> #[trigger] met(c, table, o)
}

/// A place before `front`, the earliest one of its window.
spec fn first_met(c: Corpus, front: Place, o: (usize, usize)) -> bool {
    c.has(place(o)) && earlier(place(o), front) && c.anchors(place(o), place(o))
}

/// The window at `o` is in the table.
spec fn met(c: Corpus, table: Map<u64, Vec<(usize, usize)>>, o: Place) -> bool {
    let h = window_hash(c.at(o));
    table.contains_key(h) && exists|k: int|
        0 <= k < table[h]@.len() && c.at(place(#[trigger] table[h]@[k])) == c.at(o)
}

/// The token names of a run.
fn run_names<'a>(tokens: &'a [PlacedToken], start: usize, length: usize) -> (names: Vec<&'a str>)
    requires
        start + length <= tokens@.len(),
    ensures
        views(names@) == token_names(views(tokens@).subrange(start as int, start + length)),
{
    let ghost goal = token_names(views(tokens@).subrange(start as int, start + length));
    let n: usize = tokens.len();
    let mut names: Vec<&'a str> = Vec::new();
    let mut k: usize = 0;
    while k < length
        invariant
            k <= length,
            start + length <= n == tokens@.len(),
            goal == token_names(views(tokens@).subrange(start as int, start + length)),
            views(names@) == goal.take(k as int),
        decreases length - k,
    {
        let ghost before = views(names@);
        names.push(tokens[start + k].name.as_str());
        assert(views(names@) =~= before.push(goal[k as int]));
        k += 1;
        assert(views(names@) =~= goal.take(k as int));
    }
    assert(views(names@) =~= goal);
    names
}

/// Look a window up in the table, and enter it if it is new.
///
/// Gives the earliest place of the same window, if that is an earlier one.
fn look_up(
    ids: &[Vec<u32>],
    min_tokens: usize,
    table: &mut HashMap<u64, Vec<(usize, usize)>>,
    hash: u64,
    f: usize,
    s: usize,
    Ghost(c): Ghost<Corpus>,
) -> (a: Option<(usize, usize)>)
    requires
        c.ids == id_views(ids@),
        c.window == min_tokens,
        c.has((f as int, s as int)),
        hash == window_hash(c.at((f as int, s as int))),
        tabled(c, (f as int, s as int), old(table)@),
    ensures
        tabled(c, (f as int, s + 1), final(table)@),
        a is None ==> c.anchor((f as int, s as int)) == (f as int, s as int),
        a matches Some(o) ==> {
            &&& c.has(place(o))
            &&& place(o) != (f as int, s as int)
            &&& c.anchor((f as int, s as int)) == place(o)
        },
{
    let ghost here: Place = (f as int, s as int);
    let ghost before = table@;
    let mut firsts: Vec<(usize, usize)> = match table.remove(&hash) {
        Some(firsts) => firsts,
        None => Vec::new(),
    };
    let ghost listed = firsts@;
    assert(c.ids[f as int] == ids@[f as int]@);
    let mut found: Option<(usize, usize)> = None;
    let mut k: usize = 0;
    while k < firsts.len() && found.is_none()
        invariant
            k <= firsts@.len(),
            listed == firsts@,
            listed.len() > 0 ==> before.contains_key(hash) && before[hash]@ == listed,
            here == (f as int, s as int),
            c.ids == id_views(ids@),
            c.window == min_tokens,
            c.has(here),
            tabled(c, here, before),
            found is None ==> forall|j: int|
                0 <= j < k ==> c.at(place(#[trigger] listed[j])) != c.at(here),
            found matches Some(o) ==> exists|j: int|
                0 <= j < listed.len() && #[trigger] listed[j] == o && c.at(place(o)) == c.at(here),
        decreases firsts.len() - k,
    {
        let (fa, sa) = firsts[k];
        let ghost o = place(listed[k as int]);
        assert(first_met(c, here, before[hash]@[k as int]));
        assert(c.ids[fa as int] == ids@[fa as int]@);
        assert(c.ids[f as int] == ids@[f as int]@);
        if windows_match(ids[fa].as_slice(), sa, ids[f].as_slice(), s, min_tokens) {
            assert(listed[k as int] == (fa, sa));
            found = Some((fa, sa));
        }
        k += 1;
    }
    match found {
        Some(o) => {
            proof {
                let j = choose|j: int| 0 <= j < listed.len() && #[trigger] listed[j] == o && c.at(
                    place(o),
                ) == c.at(here);
                assert(before[hash]@[j] == o);
                let a = place(before[hash]@[j]);
                assert(first_met(c, here, before[hash]@[j]));
                assert(c.anchors(a, here));
                lemma_anchor_unique(c, a, here);
            }
        },
        None => {
            proof {
                lemma_new_window(c, here, before, hash, listed);
                lemma_anchor_unique(c, here, here);
            }
            firsts.push((f, s));
        },
    }
    table.insert(hash, firsts);
    proof {
        lemma_table_grows(c, here, before, table@, hash, listed, found is None);
    }
    found
}

/// A window not in the table was not met before.
proof fn lemma_new_window(
    c: Corpus,
    here: Place,
    table: Map<u64, Vec<(usize, usize)>>,
    hash: u64,
    listed: Seq<(usize, usize)>,
)
    requires
        tabled(c, here, table),
        c.has(here),
        hash == window_hash(c.at(here)),
        table.contains_key(hash) ==> listed == table[hash]@,
        forall|j: int| 0 <= j < listed.len() ==> c.at(place(#[trigger] listed[j])) != c.at(here),
    ensures
        c.anchors(here, here),
{
    reveal(Corpus::first_at);
    assert forall|o: Place| c.has(o) && earlier(o, here) implies #[trigger] c.at(o) != c.at(
        here,
    ) by {
        assert(met(c, table, o));
        if c.at(o) == c.at(here) {
            let k = choose|k: int|
                0 <= k < table[hash]@.len() && c.at(place(#[trigger] table[hash]@[k])) == c.at(o);
            assert(c.at(place(listed[k])) == c.at(here));
        }
    }
}

proof fn lemma_table_grows(
    c: Corpus,
    here: Place,
    before: Map<u64, Vec<(usize, usize)>>,
    after: Map<u64, Vec<(usize, usize)>>,
    hash: u64,
    listed: Seq<(usize, usize)>,
    fresh: bool,
)
    requires
        tabled(c, here, before),
        c.has(here),
        0 <= here.0 <= usize::MAX,
        0 <= here.1 <= usize::MAX,
        hash == window_hash(c.at(here)),
        before.contains_key(hash) ==> listed == before[hash]@,
        !before.contains_key(hash) ==> listed == Seq::<(usize, usize)>::empty(),
        after.contains_key(hash),
        forall|h: u64|
            h != hash ==> (#[trigger] after.contains_key(h) <==> before.contains_key(h)) && (
            before.contains_key(h) ==> after[h] == before[h]),
        fresh ==> after[hash]@ == listed.push((here.0 as usize, here.1 as usize)),
        fresh ==> c.anchors(here, here),
        !fresh ==> after[hash]@ == listed && exists|j: int|
            0 <= j < listed.len() && c.at(place(#[trigger] listed[j])) == c.at(here),
    ensures
        tabled(c, (here.0, here.1 + 1), after),
{
    let next: Place = (here.0, here.1 + 1);
    assert forall|h: u64, k: int|
        after.contains_key(h) && 0 <= k < after[h]@.len() implies first_met(
        c,
        next,
        #[trigger] after[h]@[k],
    ) by {
        if h != hash || k < listed.len() {
            assert(after[h]@[k] == before[h]@[k]);
            assert(first_met(c, here, before[h]@[k]));
        } else {
            assert(place(after[h]@[k]) == here);
        }
    }
    assert forall|o: Place| c.has(o) && earlier(o, next) implies #[trigger] met(c, after, o) by {
        let h = window_hash(c.at(o));
        if o == here {
            if fresh {
                assert(place(after[hash]@[listed.len() as int]) == here);
            } else {
                let j = choose|j: int|
                    0 <= j < listed.len() && c.at(place(#[trigger] listed[j])) == c.at(here);
                assert(c.at(place(after[hash]@[j])) == c.at(here));
            }
        } else {
            assert(earlier(o, here));
            assert(met(c, before, o));
            let k = choose|k: int|
                0 <= k < before[h]@.len() && c.at(place(#[trigger] before[h]@[k])) == c.at(o);
            assert(after.contains_key(h));
            if h == hash {
                assert(before[h]@ == listed);
            }
            assert(after[h]@[k] == before[h]@[k]);
            assert(c.at(place(after[h]@[k])) == c.at(o));
        }
    }
}

/// The candidate-matching core of [`find_blocks`], taking already-normalized
/// streams and already-interned ids rather than building them itself.
pub fn find_pairs(
    files: &[SourceFile],
    streams: &[Vec<PlacedToken>],
    ids: &[Vec<u32>],
    min_tokens: usize,
) -> (pairs: Vec<BlockPair>)
    requires
        min_tokens >= 1,
        corpus_of(files@, streams@, ids@, min_tokens).consistent(),
    ensures
        views(pairs@) == corpus_of(files@, streams@, ids@, min_tokens).findings(files@.len()),
        exists|at: Seq<(Place, Place)>|
            tells_every_repeat(
                views(pairs@),
                views(files@),
                stream_views(streams@),
                id_views(ids@),
                min_tokens as nat,
                at,
            ),
{
    let ghost c = corpus_of(files@, streams@, ids@, min_tokens);
    let mut table: HashMap<u64, Vec<(usize, usize)>> = HashMap::new();
    let mut pairs: Vec<BlockPair> = Vec::new();
    let mut f: usize = 0;
    assert(tabled(c, (0, 0), table@));
    while f < ids.len()
        invariant
            min_tokens >= 1,
            f <= ids@.len(),
            c == corpus_of(files@, streams@, ids@, min_tokens),
            c.consistent(),
            ids@.len() == files@.len(),
            tabled(c, (f as int, 0), table@),
            views(pairs@) == c.findings(f as nat),
        decreases ids.len() - f,
    {
        assert(c.ids[f as int] == ids@[f as int]@);
        let hashes = rolling_hashes(ids[f].as_slice(), min_tokens);
        let mut s: usize = 0;
        assert(c.findings_in(f as int, 0) =~= Seq::empty());
        assert(c.findings(f as nat) + c.findings_in(f as int, 0) =~= c.findings(f as nat));
        while s < hashes.len()
            invariant
                min_tokens >= 1,
                f < ids@.len(),
                c == corpus_of(files@, streams@, ids@, min_tokens),
                c.consistent(),
                ids@.len() == files@.len(),
                c.ids[f as int] == ids@[f as int]@,
                s <= hashes@.len(),
                hashes@.len() == window_count(c.ids[f as int].len(), c.window),
                forall|k: int|
                    0 <= k < hashes@.len() ==> #[trigger] hashes@[k] == window_hash(
                        c.ids[f as int].subrange(k, k + min_tokens),
                    ),
                tabled(c, (f as int, s as int), table@),
                views(pairs@) == c.findings(f as nat) + c.findings_in(f as int, s as nat),
            decreases hashes.len() - s,
        {
            let ghost here: Place = (f as int, s as int);
            let ghost before = views(pairs@);
            assert(hashes@[s as int] == window_hash(c.at(here)));
            let found = look_up(ids, min_tokens, &mut table, hashes[s], f, s, Ghost(c));
            if let Some((fa, sa)) = found {
                let ghost a: Place = (fa as int, sa as int);
                assert(c.ids[fa as int] == ids@[fa as int]@);
                assert(c.streams[fa as int] == views(streams@[fa as int]@));
                assert(c.streams[f as int] == views(streams@[f as int]@));
                if is_left_maximal(ids[fa].as_slice(), sa, ids[f].as_slice(), s) {
                    let pair = block_pair(files, streams, ids, min_tokens, (fa, sa), (f, s));
                    pairs.push(pair);
                    assert(views(pairs@) =~= before + c.finding_at(here));
                } else {
                    assert(views(pairs@) =~= before + c.finding_at(here));
                }
            } else {
                assert(views(pairs@) =~= before + c.finding_at(here));
            }
            assert(c.findings(f as nat) + (c.findings_in(f as int, s as nat) + c.finding_at(here))
                =~= before + c.finding_at(here));
            s += 1;
        }
        proof {
            lemma_next_file(c, f as int, s as int, table@);
        }
        f += 1;
    }
    proof {
        let at = lemma_findings_are_the_repeats(c);
        assert(tells_every_repeat(views(pairs@), c.files, c.streams, c.ids, c.window, at));
    }
    pairs
}

/// The finding of two runs that start at two places.
fn block_pair(
    files: &[SourceFile],
    streams: &[Vec<PlacedToken>],
    ids: &[Vec<u32>],
    min_tokens: usize,
    a: (usize, usize),
    b: (usize, usize),
) -> (pair: BlockPair)
    requires
        min_tokens >= 1,
        corpus_of(files@, streams@, ids@, min_tokens).consistent(),
        corpus_of(files@, streams@, ids@, min_tokens).has(place(a)),
        corpus_of(files@, streams@, ids@, min_tokens).has(place(b)),
    ensures
        pair@ == corpus_of(files@, streams@, ids@, min_tokens).finding(place(a), place(b)),
{
    let ghost c = corpus_of(files@, streams@, ids@, min_tokens);
    let (fa, sa) = a;
    let (fb, sb) = b;
    assert(c.ids[fa as int] == ids@[fa as int]@);
    assert(c.ids[fb as int] == ids@[fb as int]@);
    assert(c.streams[fa as int] == views(streams@[fa as int]@));
    assert(c.streams[fb as int] == views(streams@[fb as int]@));
    let length: usize = extend_forward(
        ids[fa].as_slice(),
        sa,
        ids[fb].as_slice(),
        sb,
        min_tokens,
        Ghost(c),
        Ghost((fa as int, fb as int)),
    );
    let names = run_names(streams[fa].as_slice(), sa, length);
    BlockPair {
        a: block_ref(files[fa].path.as_str(), streams[fa].as_slice(), sa, length),
        b: block_ref(files[fb].path.as_str(), streams[fb].as_slice(), sb, length),
        tokens: length,
        hash: ContentHash::of(names.as_slice()),
    }
}

/// Past the last window of a file comes the next file.
proof fn lemma_next_file(c: Corpus, f: int, s: int, table: Map<u64, Vec<(usize, usize)>>)
    requires
        tabled(c, (f, s), table),
        0 <= f < c.ids.len(),
        s == window_count(c.ids[f].len(), c.window),
    ensures
        tabled(c, (f + 1, 0), table),
{
    assert forall|h: u64, k: int|
        table.contains_key(h) && 0 <= k < table[h]@.len() implies first_met(
        c,
        (f + 1, 0),
        #[trigger] table[h]@[k],
    ) by {
        assert(first_met(c, (f, s), table[h]@[k]));
    }
    assert forall|o: Place| c.has(o) && earlier(o, (f + 1, 0)) implies #[trigger] met(
        c,
        table,
        o,
    ) by {
        assert(earlier(o, (f, s)));
    }
}

// ---------------------------------------------------------------------- whole files

/// The tokens of a file.
pub open spec fn file_tokens(file: SourceView) -> Seq<PlacedView> {
    let nodes = syntax_of(file.language.grammar, file.text);
    if nodes.len() == 0 {
        Seq::empty()
    } else {
        placed_at(nodes, file.language, 0)
    }
}

/// Normalize a file into tokens that remember where they came from.
///
/// Parses the file, then delegates the walk to [`crate::normalize`], so that a
/// block finding and a function-level clone finding describe the same notion of
/// "duplicate".
pub fn placed_tokens(file: &SourceFile) -> (tokens: Vec<PlacedToken>)
    ensures
        views(tokens@) == file_tokens(file@),
{
    let nodes = parse(&file.language, file.text.as_str());
    if nodes.len() == 0 {
        let none: Vec<PlacedToken> = Vec::new();
        assert(views(none@) =~= Seq::empty());
        return none;
    }
    normalize::placed_tokens(nodes.as_slice(), 0, &file.language)
}

/// The names known once the tokens of every stream have been looked up in turn.
pub open spec fn names_known(streams: Seq<Seq<PlacedView>>) -> Seq<Seq<char>>
    decreases streams.len(),
{
    if streams.len() == 0 {
        Seq::empty()
    } else {
        intern_all(names_known(streams.drop_last()), token_names(streams.last()))
    }
}

/// The ids of the tokens of every stream, looked up in turn.
pub open spec fn stream_ids(streams: Seq<Seq<PlacedView>>) -> Seq<Seq<u32>> {
    Seq::new(
        streams.len(),
        |i: int| ids_of(names_known(streams.take(i + 1)), token_names(streams[i])),
    )
}

/// The corpus of some streams.
pub open spec fn corpus_from(
    files: Seq<SourceView>,
    streams: Seq<Seq<PlacedView>>,
    min_tokens: nat,
) -> Corpus {
    Corpus { files, streams, ids: stream_ids(streams), window: min_tokens }
}

/// The tokens of every file.
pub open spec fn all_tokens(files: Seq<SourceView>) -> Seq<Seq<PlacedView>> {
    Seq::new(files.len(), |i: int| file_tokens(files[i]))
}

/// Where a fragment stands: by file, then by first line, then by last.
pub open spec fn ref_at_most(a: BlockRefView, b: BlockRefView) -> bool {
    alphabetical(a.file, b.file) && (a.file == b.file ==> (a.start_line < b.start_line || (
    a.start_line == b.start_line && a.end_line <= b.end_line)))
}

proof fn lemma_ref_order(a: BlockRefView, b: BlockRefView, c: BlockRefView)
    ensures
        ref_at_most(a, b) || ref_at_most(b, a),
        ref_at_most(a, b) && ref_at_most(b, c) ==> ref_at_most(a, c),
        ref_at_most(a, b) && ref_at_most(b, a) ==> a == b,
{
    lemma_alphabetical_total(a.file, b.file);
    if alphabetical(a.file, b.file) && alphabetical(b.file, a.file) {
        lemma_alphabetical_antisymmetric(a.file, b.file);
    }
    if alphabetical(a.file, b.file) && alphabetical(b.file, c.file) {
        lemma_alphabetical_transitive(a.file, b.file, c.file);
        if a.file == c.file {
            lemma_alphabetical_antisymmetric(a.file, b.file);
        }
    }
}

fn ref_may_precede(a: &BlockRef, b: &BlockRef) -> (r: bool)
    ensures
        r == ref_at_most(a@, b@),
{
    text_at_most(a.file.as_str(), b.file.as_str()) && (!same_text(
        a.file.as_str(),
        b.file.as_str(),
    ) || (a.start_line < b.start_line || (a.start_line == b.start_line && a.end_line
        <= b.end_line)))
}

fn same_ref(a: &BlockRef, b: &BlockRef) -> (r: bool)
    ensures
        r == (a@ == b@),
{
    same_text(a.file.as_str(), b.file.as_str()) && a.start_line == b.start_line && a.end_line
        == b.end_line
}

/// Blocks with the longest first, then by fragment, then by where they stand.
pub struct LongestThenPlace;

impl Order<BlockPair> for LongestThenPlace {
    open spec fn precedes(a: BlockView, b: BlockView) -> bool {
        a.tokens > b.tokens || (a.tokens == b.tokens && alphabetical(a.hash, b.hash) && (a.hash
            == b.hash ==> ref_at_most(a.a, b.a) && (a.a == b.a ==> ref_at_most(a.b, b.b))))
    }

    proof fn lemma_total(a: BlockView, b: BlockView) {
        lemma_alphabetical_total(a.hash, b.hash);
        if alphabetical(a.hash, b.hash) && alphabetical(b.hash, a.hash) {
            lemma_alphabetical_antisymmetric(a.hash, b.hash);
        }
        lemma_ref_order(a.a, b.a, a.a);
        lemma_ref_order(a.b, b.b, a.b);
    }

    proof fn lemma_transitive(a: BlockView, b: BlockView, c: BlockView) {
        if a.tokens == b.tokens && b.tokens == c.tokens {
            lemma_alphabetical_transitive(a.hash, b.hash, c.hash);
            if a.hash == c.hash {
                lemma_alphabetical_antisymmetric(a.hash, b.hash);
                lemma_ref_order(a.a, b.a, c.a);
                if a.a == c.a {
                    lemma_ref_order(a.a, b.a, a.a);
                    lemma_ref_order(a.b, b.b, c.b);
                }
            }
        }
    }

    fn may_precede(a: &BlockPair, b: &BlockPair) -> (r: bool) {
        if a.tokens != b.tokens {
            return a.tokens > b.tokens;
        }
        text_at_most(a.hash.as_str(), b.hash.as_str()) && (!same_text(
            a.hash.as_str(),
            b.hash.as_str(),
        ) || (ref_may_precede(&a.a, &b.a) && (!same_ref(&a.a, &b.a) || ref_may_precede(
            &a.b,
            &b.b,
        ))))
    }
}

/// Find maximal runs of normalized tokens repeated in two places.
///
/// 1. Normalize every file with [`placed_tokens`] and intern every token name.
/// 2. Hash every window of exactly `min_tokens` consecutive ids, and find for each
///    its earliest occurrence.
/// 3. Skip a pair unless it is left-maximal, then extend forward while the ids
///    keep agreeing.
/// 4. Emit one [`BlockPair`] per surviving pair, hashing the *extended* run's token
///    *names*, so the fragment's identity is independent of which offset it
///    happened to be first noticed at.
pub fn find_blocks(files: &[SourceFile], options: &BlockOptions) -> (pairs: Vec<BlockPair>)
    requires
        options.min_tokens >= 1,
    ensures
        views(pairs@) == sorted::<BlockPair, LongestThenPlace>(
            corpus_from(
                views(files@),
                all_tokens(views(files@)),
                options.min_tokens as nat,
            ).findings(files@.len()),
        ),
        reports_every_repeat(
            views(pairs@),
            views(files@),
            all_tokens(views(files@)),
            options.min_tokens as nat,
        ),
{
    let mut streams: Vec<Vec<PlacedToken>> = Vec::new();
    let ghost all = all_tokens(views(files@));
    let mut k: usize = 0;
    while k < files.len()
        invariant
            k <= files@.len(),
            all == all_tokens(views(files@)),
            stream_views(streams@) == all.take(k as int),
        decreases files.len() - k,
    {
        let ghost before = stream_views(streams@);
        streams.push(placed_tokens(&files[k]));
        assert(stream_views(streams@) =~= before.push(all[k as int]));
        k += 1;
        assert(stream_views(streams@) =~= all.take(k as int));
    }
    assert(stream_views(streams@) =~= all);
    blocks_of_streams(files, streams.as_slice(), options.min_tokens)
}

/// Find repeated runs in files whose tokens are known.
pub fn blocks_of_streams(
    files: &[SourceFile],
    streams: &[Vec<PlacedToken>],
    min_tokens: usize,
) -> (pairs: Vec<BlockPair>)
    requires
        min_tokens >= 1,
        streams@.len() == files@.len(),
    ensures
        views(pairs@) == sorted::<BlockPair, LongestThenPlace>(
            corpus_from(
                views(files@),
                stream_views(streams@),
                min_tokens as nat,
            ).findings(files@.len()),
        ),
        reports_every_repeat(
            views(pairs@),
            views(files@),
            stream_views(streams@),
            min_tokens as nat,
        ),
{
    let ghost all = stream_views(streams@);
    let mut interner = Interner::new();
    let mut ids: Vec<Vec<u32>> = Vec::new();
    let mut k: usize = 0;
    assert(all.take(0) =~= Seq::empty());
    while k < streams.len()
        invariant
            k <= streams@.len(),
            all == stream_views(streams@),
            interner.wf(),
            interner@ == names_known(all.take(k as int)),
            id_views(ids@) == stream_ids(all).take(k as int),
        decreases streams.len() - k,
    {
        let names = run_names(streams[k].as_slice(), 0, streams[k].len());
        let ghost before = id_views(ids@);
        proof {
            let next = all.take(k + 1);
            assert(next.drop_last() =~= all.take(k as int));
            assert(next.last() == all[k as int]);
            assert(views(streams@[k as int]@).subrange(0, streams@[k as int]@.len() as int)
                =~= all[k as int]);
        }
        let list = interner.intern_names(names.as_slice());
        ids.push(list);
        assert(id_views(ids@) =~= before.push(stream_ids(all)[k as int]));
        k += 1;
        assert(id_views(ids@) =~= stream_ids(all).take(k as int));
    }
    assert(id_views(ids@) =~= stream_ids(all));
    proof {
        assert(corpus_of(files@, streams@, ids@, min_tokens) == corpus_from(
            views(files@),
            all,
            min_tokens as nat,
        ));
    }
    let pairs = find_pairs(files, streams, ids.as_slice(), min_tokens);
    proof {
        lemma_every_repeat_is_reported(views(files@), all, min_tokens as nat);
    }
    sort::<BlockPair, LongestThenPlace>(pairs)
}

// ---------------------------------------------------------------------------- laws

/// A run goes as far as its two sides agree, and no further.
pub proof fn lemma_run_is_maximal(c: Corpus, a: Place, b: Place, n: nat)
    requires
        0 <= a.0 < c.ids.len(),
        0 <= b.0 < c.ids.len(),
        0 <= a.1,
        0 <= b.1,
        a.1 + n <= c.ids[a.0].len(),
        b.1 + n <= c.ids[b.0].len(),
        forall|k: int| 0 <= k < n ==> c.ids[a.0][a.1 + k] == #[trigger] c.ids[b.0][b.1 + k],
    ensures
        n <= c.run_from(a, b, n),
        a.1 + c.run_from(a, b, n) <= c.ids[a.0].len(),
        b.1 + c.run_from(a, b, n) <= c.ids[b.0].len(),
        forall|k: int|
            0 <= k < c.run_from(a, b, n) ==> c.ids[a.0][a.1 + k] == #[trigger] c.ids[b.0][b.1 + k],
        a.1 + c.run_from(a, b, n) < c.ids[a.0].len() && b.1 + c.run_from(a, b, n)
            < c.ids[b.0].len() ==> c.ids[a.0][a.1 + c.run_from(a, b, n)] != c.ids[b.0][b.1
            + c.run_from(a, b, n)],
    decreases c.ids[a.0].len() - a.1 - n,
{
    if a.1 + n < c.ids[a.0].len() && b.1 + n < c.ids[b.0].len() && c.ids[a.0][a.1 + n]
        == c.ids[b.0][b.1 + n] {
        lemma_run_is_maximal(c, a, b, n + 1);
    }
}

/// The windows of a place and of its anchor agree token by token.
proof fn lemma_windows_agree(c: Corpus, a: Place, b: Place)
    requires
        c.has(a),
        c.has(b),
        c.at(a) == c.at(b),
    ensures
        forall|k: int|
            0 <= k < c.window ==> c.ids[a.0][a.1 + k] == #[trigger] c.ids[b.0][b.1 + k],
{
    assert forall|k: int| 0 <= k < c.window implies c.ids[a.0][a.1 + k] == #[trigger] c.ids[b.0][b.1
        + k] by {
        assert(c.at(a)[k] == c.ids[a.0][a.1 + k]);
        assert(c.at(b)[k] == c.ids[b.0][b.1 + k]);
    }
}

/// One maximal run in, one finding out: no offset inside the run of a finding is
/// the start of a run between the same two places.
pub proof fn lemma_interior_offsets_are_not_starts(c: Corpus, a: Place, b: Place, k: int)
    requires
        c.has(a),
        c.has(b),
        c.at(a) == c.at(b),
        0 < k < c.run_from(a, b, c.window),
    ensures
        !c.left_maximal((a.0, a.1 + k), (b.0, b.1 + k)),
{
    lemma_windows_agree(c, a, b);
    lemma_run_is_maximal(c, a, b, c.window);
    assert(c.ids[a.0][a.1 + (k - 1)] == c.ids[b.0][b.1 + (k - 1)]);
}

proof fn lemma_names_keep_ids(streams: Seq<Seq<PlacedView>>, i: int, name: Seq<char>)
    requires
        0 <= i <= streams.len(),
        names_known(streams.take(i)).contains(name),
    ensures
        names_known(streams).no_duplicates(),
        names_known(streams).contains(name),
        id_of(names_known(streams), name) == id_of(names_known(streams.take(i)), name),
    decreases streams.len(),
{
    lemma_known_distinct(streams);
    if i == streams.len() {
        assert(streams.take(i) =~= streams);
    } else {
        let front = streams.drop_last();
        assert(front.take(i) =~= streams.take(i));
        lemma_names_keep_ids(front, i, name);
        lemma_ids_are_stable(names_known(front), token_names(streams.last()), name);
    }
}

proof fn lemma_known_distinct(streams: Seq<Seq<PlacedView>>)
    ensures
        names_known(streams).no_duplicates(),
    decreases streams.len(),
{
    if streams.len() > 0 {
        lemma_known_distinct(streams.drop_last());
        lemma_interning_extends(names_known(streams.drop_last()), token_names(streams.last()));
    }
}

/// The id of a token, whenever it was looked up, is that of its name in the end.
proof fn lemma_id_in_the_end(streams: Seq<Seq<PlacedView>>, f: int, s: int)
    requires
        0 <= f < streams.len(),
        0 <= s < streams[f].len(),
    ensures
        names_known(streams).no_duplicates(),
        names_known(streams).contains(streams[f][s].name),
        stream_ids(streams)[f][s] == id_of(names_known(streams), streams[f][s].name),
{
    let upto = streams.take(f + 1);
    assert(upto.drop_last() =~= streams.take(f));
    assert(upto.last() == streams[f]);
    lemma_known_distinct(streams.take(f));
    let names = token_names(streams[f]);
    lemma_interning_extends(names_known(streams.take(f)), names);
    assert(names[s] == streams[f][s].name);
    lemma_names_keep_ids(streams, f + 1, names[s]);
}

/// Both sides of a finding hold the same fragment: its identity is the content hash
/// of the one as much as of the other, as long as token ids are not reused.
pub proof fn lemma_finding_holds_on_both_sides(
    files: Seq<SourceView>,
    streams: Seq<Seq<PlacedView>>,
    m: nat,
    a: Place,
    b: Place,
)
    requires
        names_known(streams).len() <= 0x1_0000_0000,
        corpus_from(files, streams, m).has(a),
        corpus_from(files, streams, m).has(b),
        corpus_from(files, streams, m).at(a) == corpus_from(files, streams, m).at(b),
    ensures
        ({
            let c = corpus_from(files, streams, m);
            let n = c.finding(a, b).tokens as int;
            &&& token_names(streams[a.0].subrange(a.1, a.1 + n)) == token_names(
                streams[b.0].subrange(b.1, b.1 + n),
            )
            &&& c.finding(a, b).hash == content_hash(
                token_names(streams[b.0].subrange(b.1, b.1 + n)),
            )
        }),
{
    let c = corpus_from(files, streams, m);
    let n = c.run_from(a, b, m) as int;
    lemma_windows_agree(c, a, b);
    lemma_run_is_maximal(c, a, b, m);
    let x = token_names(streams[a.0].subrange(a.1, a.1 + n));
    let y = token_names(streams[b.0].subrange(b.1, b.1 + n));
    assert forall|k: int| 0 <= k < n implies x[k] == y[k] by {
        assert(c.ids[a.0][a.1 + k] == c.ids[b.0][b.1 + k]);
        lemma_id_in_the_end(streams, a.0, a.1 + k);
        lemma_id_in_the_end(streams, b.0, b.1 + k);
        lemma_ids_identify_names(
            names_known(streams),
            streams[a.0][a.1 + k].name,
            streams[b.0][b.1 + k].name,
        );
    }
    assert(x =~= y);
}

/// Each occurrence of a window gives at most one finding, connecting it back to the
/// earliest occurrence of its window.
pub proof fn lemma_at_most_one_finding_per_occurrence(c: Corpus, b: Place)
    ensures
        c.finding_at(b).len() <= 1,
        c.finding_at(b).len() == 1 ==> c.finding_at(b)[0].b == c.block_at(
            b,
            c.run_from(c.anchor(b), b, c.window),
        ),
{
}

// ------------------------------------------------------- what the findings amount to

/// From `a` and `b` on, the same `n` symbols stand.
pub open spec fn agree<T>(streams: Seq<Seq<T>>, a: Place, b: Place, n: nat) -> bool {
    &&& 0 <= a.0 < streams.len()
    &&& 0 <= b.0 < streams.len()
    &&& 0 <= a.1
    &&& 0 <= b.1
    &&& a.1 + n <= streams[a.0].len()
    &&& b.1 + n <= streams[b.0].len()
    &&& forall|k: int| 0 <= k < n ==> streams[a.0][a.1 + k] == #[trigger] streams[b.0][b.1 + k]
}

/// The `n` symbols from `b` on repeat those from `a` on, as far as they go in both
/// directions, and nothing before `a` holds the first `m` of them.
pub open spec fn is_repeat<T>(streams: Seq<Seq<T>>, m: nat, a: Place, b: Place, n: nat) -> bool {
    &&& a.0 < b.0 || (a.0 == b.0 && a.1 < b.1)
    &&& m <= n
    &&& agree(streams, a, b, n)
    &&& !agree(streams, a, b, n + 1)
    &&& !agree(streams, (a.0, a.1 - 1), (b.0, b.1 - 1), n + 1)
    &&& forall|o: Place|
        (o.0 < a.0 || (o.0 == a.0 && o.1 < a.1)) ==> !#[trigger] agree(streams, o, b, m)
}

/// `r` tells where the `n` tokens from `o` on stand: in which file, written with `/`,
/// and from which line to which.
pub open spec fn tells_where(
    r: BlockRefView,
    files: Seq<SourceView>,
    streams: Seq<Seq<PlacedView>>,
    o: Place,
    n: nat,
) -> bool {
    &&& r.file.len() == files[o.0].path.len()
    &&& forall|i: int|
        0 <= i < r.file.len() ==> #[trigger] r.file[i] == (if files[o.0].path[i] == '\\' {
            '/'
        } else {
            files[o.0].path[i]
        })
    &&& r.start_line == streams[o.0][o.1].line
    &&& r.end_line == streams[o.0][o.1 + n - 1].line
}

/// `f` tells of the run that stands at `a` and again at `b`: both places, how long it
/// is, and the hash of its token names.
pub open spec fn tells_of(
    f: BlockView,
    files: Seq<SourceView>,
    streams: Seq<Seq<PlacedView>>,
    a: Place,
    b: Place,
    n: nat,
) -> bool {
    &&& f.tokens == n
    &&& tells_where(f.a, files, streams, a, n)
    &&& tells_where(f.b, files, streams, b, n)
    &&& f.hash == content_hash(Seq::new(n, |k: int| streams[a.0][a.1 + k].name))
}

/// `found` tells of every repeat of at least `m` symbols, and of nothing else, in the
/// order of where each stands again. `at` says which two places each of them joins.
pub open spec fn tells_every_repeat<T>(
    found: Seq<BlockView>,
    files: Seq<SourceView>,
    streams: Seq<Seq<PlacedView>>,
    symbols: Seq<Seq<T>>,
    m: nat,
    at: Seq<(Place, Place)>,
) -> bool {
    &&& at.len() == found.len()
    &&& forall|i: int|
        0 <= i < at.len() ==> is_repeat(
            symbols,
            m,
            (#[trigger] at[i]).0,
            at[i].1,
            found[i].tokens,
        ) && tells_of(found[i], files, streams, at[i].0, at[i].1, found[i].tokens)
    &&& forall|i: int, j: int|
        0 <= i < j < at.len() ==> earlier((#[trigger] at[i]).1, (#[trigger] at[j]).1)
    &&& forall|a: Place, b: Place, n: nat| #[trigger]
        is_repeat(symbols, m, a, b, n) ==> exists|i: int|
            0 <= i < at.len() && #[trigger] at[i] == (a, b) && found[i].tokens == n
}

proof fn lemma_an_anchor_exists(c: Corpus, x: Place, b: Place) -> (a: Place)
    requires
        c.has(x),
        c.at(x) == c.at(b),
    ensures
        c.anchors(a, b),
        a == x || earlier(a, x),
    decreases x.0, x.1,
{
    reveal(Corpus::first_at);
    if c.first_at(x, c.at(b)) {
        x
    } else {
        let o = choose|o: Place| c.has(o) && earlier(o, x) && #[trigger] c.at(o) == c.at(b);
        lemma_an_anchor_exists(c, o, b)
    }
}

proof fn lemma_agreeing_windows(c: Corpus, a: Place, b: Place)
    requires
        c.has(b),
    ensures
        agree(c.ids, a, b, c.window) <==> c.has(a) && c.at(a) == c.at(b),
{
    if c.has(a) && c.at(a) == c.at(b) {
        lemma_windows_agree(c, a, b);
    }
    if agree(c.ids, a, b, c.window) {
        assert forall|k: int| 0 <= k < c.window implies c.at(a)[k] == c.at(b)[k] by {
            assert(c.ids[a.0][a.1 + k] == c.ids[b.0][b.1 + k]);
        }
        assert(c.at(a) =~= c.at(b));
    }
}

proof fn lemma_less_agrees<T>(streams: Seq<Seq<T>>, a: Place, b: Place, n: nat, m: nat)
    requires
        agree(streams, a, b, n),
        m <= n,
    ensures
        agree(streams, a, b, m),
{
}

/// A repeat ends where its two sides first differ, so its length is settled.
proof fn lemma_repeat_length(c: Corpus, a: Place, b: Place, n: nat)
    requires
        is_repeat(c.ids, c.window, a, b, n),
    ensures
        n == c.run_from(a, b, c.window),
{
    let ids = c.ids;
    lemma_less_agrees(ids, a, b, n, c.window);
    lemma_run_is_maximal(c, a, b, c.window);
    let r = c.run_from(a, b, c.window);
    if r > n {
        assert(agree(ids, a, b, n + 1));
    }
    if r < n {
        assert(ids[a.0][a.1 + r] == ids[b.0][b.1 + r]);
    }
}

proof fn lemma_found_here(c: Corpus, b: Place) -> (at: Seq<(Place, Place)>)
    requires
        c.consistent(),
        c.window >= 1,
        c.has(b),
    ensures
        at.len() == c.finding_at(b).len(),
        at.len() <= 1,
        at.len() == 1 ==> at[0].1 == b && is_repeat(
            c.ids,
            c.window,
            at[0].0,
            b,
            c.finding_at(b)[0].tokens,
        ) && tells_of(
            c.finding_at(b)[0],
            c.files,
            c.streams,
            at[0].0,
            b,
            c.finding_at(b)[0].tokens,
        ),
        forall|a: Place, n: nat| #[trigger]
            is_repeat(c.ids, c.window, a, b, n) ==> at.len() == 1 && at[0] == (a, b)
                && c.finding_at(b)[0].tokens == n,
{
    let ids = c.ids;
    let m = c.window;
    let a = lemma_an_anchor_exists(c, b, b);
    lemma_anchor_unique(c, a, b);
    reveal(Corpus::first_at);
    assert forall|x: Place, n: nat| #[trigger] is_repeat(c.ids, c.window, x, b, n) implies a == x
        && a != b && c.left_maximal(a, b) && c.finding(a, b).tokens == n by {
        lemma_less_agrees(ids, x, b, n, m);
        lemma_agreeing_windows(c, x, b);
        assert forall|o: Place| c.has(o) && earlier(o, x) implies #[trigger] c.at(o) != c.at(b) by {
            lemma_agreeing_windows(c, o, b);
            assert(!agree(ids, o, b, m));
        }
        assert(c.anchors(x, b));
        lemma_anchor_unique(c, x, b);
        if !c.left_maximal(a, b) {
            let (p, q) = ((a.0, a.1 - 1), (b.0, b.1 - 1));
            assert forall|k: int| 0 <= k < n + 1 implies ids[p.0][p.1 + k]
                == #[trigger] ids[q.0][q.1 + k] by {
                if k > 0 {
                    assert(ids[a.0][a.1 + (k - 1)] == ids[b.0][b.1 + (k - 1)]);
                    assert(p.1 + k == a.1 + (k - 1) && q.1 + k == b.1 + (k - 1));
                }
            }
            assert(agree(ids, p, q, n + 1));
        }
        lemma_repeat_length(c, x, b, n);
    }
    if a != b && c.left_maximal(a, b) {
        let f = c.finding(a, b);
        let n = f.tokens;
        lemma_windows_agree(c, a, b);
        lemma_run_is_maximal(c, a, b, c.window);
        assert(agree(ids, a, b, n));
        if agree(ids, a, b, n + 1) {
            assert(ids[a.0][a.1 + n] == ids[b.0][b.1 + n]);
        }
        let (p, q) = ((a.0, a.1 - 1), (b.0, b.1 - 1));
        if agree(ids, p, q, n + 1) {
            assert(ids[p.0][p.1 + 0] == ids[q.0][q.1 + 0]);
        }
        assert forall|o: Place| (o.0 < a.0 || (o.0 == a.0 && o.1 < a.1)) implies !#[trigger] agree(
            ids,
            o,
            b,
            m,
        ) by {
            lemma_agreeing_windows(c, o, b);
            if agree(ids, o, b, m) {
                assert(earlier(o, a));
                assert(c.at(o) != c.at(b));
            }
        }
        assert(is_repeat(ids, c.window, a, b, n));
        let run = c.streams[a.0].subrange(a.1, a.1 + n as int);
        assert(c.ids[a.0].len() == c.streams[a.0].len());
        assert(token_names(run) =~= Seq::new(n, |k: int| c.streams[a.0][a.1 + k].name));
        seq![(a, b)]
    } else {
        Seq::empty()
    }
}

proof fn lemma_found_in_file(c: Corpus, f: int, n: nat) -> (at: Seq<(Place, Place)>)
    requires
        c.consistent(),
        c.window >= 1,
        0 <= f < c.ids.len(),
        n <= window_count(c.ids[f].len(), c.window),
    ensures
        at.len() == c.findings_in(f, n).len(),
        forall|i: int|
            0 <= i < at.len() ==> (#[trigger] at[i]).1.0 == f && 0 <= at[i].1.1 < n && is_repeat(
                c.ids,
                c.window,
                at[i].0,
                at[i].1,
                c.findings_in(f, n)[i].tokens,
            ) && tells_of(
                c.findings_in(f, n)[i],
                c.files,
                c.streams,
                at[i].0,
                at[i].1,
                c.findings_in(f, n)[i].tokens,
            ),
        forall|i: int, j: int|
            0 <= i < j < at.len() ==> earlier((#[trigger] at[i]).1, (#[trigger] at[j]).1),
        forall|a: Place, b: Place, l: nat| #[trigger]
            is_repeat(c.ids, c.window, a, b, l) && b.0 == f && b.1 < n ==> exists|i: int|
                0 <= i < at.len() && #[trigger] at[i] == (a, b) && c.findings_in(f, n)[i].tokens
                    == l,
    decreases n,
{
    if n == 0 {
        Seq::empty()
    } else {
        let before = lemma_found_in_file(c, f, (n - 1) as nat);
        let here = lemma_found_here(c, (f, n - 1));
        let at = before + here;
        let all = c.findings_in(f, n);
        assert forall|a: Place, b: Place, l: nat| #[trigger]
            is_repeat(c.ids, c.window, a, b, l) && b.0 == f && b.1 < n implies exists|i: int|
            0 <= i < at.len() && #[trigger] at[i] == (a, b) && all[i].tokens == l by {
            if b.1 < n - 1 {
                let i = choose|i: int|
                    0 <= i < before.len() && #[trigger] before[i] == (a, b) && c.findings_in(
                        f,
                        (n - 1) as nat,
                    )[i].tokens == l;
                assert(at[i] == (a, b));
            } else {
                assert(b == (f, n - 1));
                assert(at[before.len() as int] == (a, b));
            }
        }
        at
    }
}

proof fn lemma_found_in_files(c: Corpus, k: nat) -> (at: Seq<(Place, Place)>)
    requires
        c.consistent(),
        c.window >= 1,
        k <= c.ids.len(),
    ensures
        at.len() == c.findings(k).len(),
        forall|i: int|
            0 <= i < at.len() ==> 0 <= (#[trigger] at[i]).1.0 < k && is_repeat(
                c.ids,
                c.window,
                at[i].0,
                at[i].1,
                c.findings(k)[i].tokens,
            ) && tells_of(
                c.findings(k)[i],
                c.files,
                c.streams,
                at[i].0,
                at[i].1,
                c.findings(k)[i].tokens,
            ),
        forall|i: int, j: int|
            0 <= i < j < at.len() ==> earlier((#[trigger] at[i]).1, (#[trigger] at[j]).1),
        forall|a: Place, b: Place, l: nat| #[trigger]
            is_repeat(c.ids, c.window, a, b, l) && b.0 < k ==> exists|i: int|
                0 <= i < at.len() && #[trigger] at[i] == (a, b) && c.findings(k)[i].tokens == l,
    decreases k,
{
    if k == 0 {
        Seq::empty()
    } else {
        let before = lemma_found_in_files(c, (k - 1) as nat);
        let n = window_count(c.ids[k - 1].len(), c.window);
        let here = lemma_found_in_file(c, k - 1, n);
        let at = before + here;
        let all = c.findings(k);
        let old_all = c.findings((k - 1) as nat);
        assert(all == old_all + c.findings_in(k - 1, n));
        assert forall|a: Place, b: Place, l: nat| #[trigger]
            is_repeat(c.ids, c.window, a, b, l) && b.0 < k implies exists|i: int|
            0 <= i < at.len() && #[trigger] at[i] == (a, b) && all[i].tokens == l by {
            if b.0 < k - 1 {
                let i = choose|i: int|
                    0 <= i < before.len() && #[trigger] before[i] == (a, b) && old_all[i].tokens
                        == l;
                assert(at[i] == (a, b));
            } else {
                assert(b.1 < n);
                let i = choose|i: int|
                    0 <= i < here.len() && #[trigger] here[i] == (a, b) && c.findings_in(
                        k - 1,
                        n,
                    )[i].tokens == l;
                assert(at[before.len() + i] == (a, b));
            }
        }
        at
    }
}

/// No repeat is missed, whatever its length, and nothing else is found: for any two
/// places that hold the same run of at least a window, which goes no further in either
/// direction and whose beginning stands nowhere earlier, there is exactly one finding.
/// It tells both places, the full length and the hash of the run.
pub proof fn lemma_findings_are_the_repeats(c: Corpus) -> (at: Seq<(Place, Place)>)
    requires
        c.consistent(),
        c.window >= 1,
    ensures
        tells_every_repeat(
            c.findings(c.files.len()),
            c.files,
            c.streams,
            c.ids,
            c.window,
            at,
        ),
{
    let at = lemma_found_in_files(c, c.files.len());
    assert forall|a: Place, b: Place, n: nat| #[trigger]
        is_repeat(c.ids, c.window, a, b, n) implies exists|i: int|
        0 <= i < at.len() && #[trigger] at[i] == (a, b) && c.findings(c.files.len())[i].tokens
            == n by {
        assert(b.0 < c.files.len());
    }
    at
}

/// The token names of every stream.
pub open spec fn stream_names(streams: Seq<Seq<PlacedView>>) -> Seq<Seq<Seq<char>>> {
    Seq::new(streams.len(), |f: int| Seq::new(streams[f].len(), |s: int| streams[f][s].name))
}

proof fn lemma_names_agree_as_ids_do(
    streams: Seq<Seq<PlacedView>>,
    a: Place,
    b: Place,
    n: nat,
)
    requires
        names_known(streams).len() <= 0x1_0000_0000,
    ensures
        agree(stream_ids(streams), a, b, n) <==> agree(stream_names(streams), a, b, n),
{
    let (ids, names) = (stream_ids(streams), stream_names(streams));
    if 0 <= a.0 < streams.len() && 0 <= b.0 < streams.len() && 0 <= a.1 && 0 <= b.1 && a.1 + n
        <= streams[a.0].len() && b.1 + n <= streams[b.0].len() {
        assert(ids[a.0].len() == streams[a.0].len() && ids[b.0].len() == streams[b.0].len());
        assert forall|k: int| 0 <= k < n implies (ids[a.0][a.1 + k] == #[trigger] ids[b.0][b.1 + k]
            <==> names[a.0][a.1 + k] == names[b.0][b.1 + k]) by {
            lemma_id_in_the_end(streams, a.0, a.1 + k);
            lemma_id_in_the_end(streams, b.0, b.1 + k);
            lemma_ids_identify_names(
                names_known(streams),
                streams[a.0][a.1 + k].name,
                streams[b.0][b.1 + k].name,
            );
        }
        if agree(ids, a, b, n) {
            assert forall|k: int| 0 <= k < n implies names[a.0][a.1 + k] == #[trigger] names[b.0][b.1
                + k] by {
                assert(ids[a.0][a.1 + k] == ids[b.0][b.1 + k]);
            }
        }
        if agree(names, a, b, n) {
            assert forall|k: int| 0 <= k < n implies ids[a.0][a.1 + k] == #[trigger] ids[b.0][b.1
                + k] by {
                assert(names[a.0][a.1 + k] == names[b.0][b.1 + k]);
            }
        }
    }
}

/// Repeats are told by the names of the tokens, whatever ids these were given: the
/// findings in some streams are the repeats of their token names, as long as token ids
/// are not reused.
pub proof fn lemma_findings_are_the_repeats_of_names(
    files: Seq<SourceView>,
    streams: Seq<Seq<PlacedView>>,
    m: nat,
) -> (at: Seq<(Place, Place)>)
    requires
        m >= 1,
        streams.len() == files.len(),
        names_known(streams).len() <= 0x1_0000_0000,
    ensures
        tells_every_repeat(
            corpus_from(files, streams, m).findings(files.len()),
            files,
            streams,
            stream_names(streams),
            m,
            at,
        ),
{
    let c = corpus_from(files, streams, m);
    let (ids, names) = (stream_ids(streams), stream_names(streams));
    let at = lemma_findings_are_the_repeats(c);
    let found = c.findings(files.len());
    assert forall|a: Place, b: Place, n: nat| #[trigger] is_repeat(names, m, a, b, n) <==> is_repeat(
        ids,
        m,
        a,
        b,
        n,
    ) by {
        lemma_same_repeats(streams, m, a, b, n);
    }
    assert forall|i: int| 0 <= i < at.len() implies is_repeat(
        names,
        m,
        (#[trigger] at[i]).0,
        at[i].1,
        found[i].tokens,
    ) by {
        assert(is_repeat(ids, m, at[i].0, at[i].1, found[i].tokens));
    }
    at
}

proof fn lemma_same_repeats(streams: Seq<Seq<PlacedView>>, m: nat, a: Place, b: Place, n: nat)
    requires
        names_known(streams).len() <= 0x1_0000_0000,
    ensures
        is_repeat(stream_names(streams), m, a, b, n) <==> is_repeat(stream_ids(streams), m, a, b, n),
{
    let (ids, names) = (stream_ids(streams), stream_names(streams));
    lemma_names_agree_as_ids_do(streams, a, b, n);
    lemma_names_agree_as_ids_do(streams, a, b, n + 1);
    lemma_names_agree_as_ids_do(streams, (a.0, a.1 - 1), (b.0, b.1 - 1), n + 1);
    assert forall|o: Place| #[trigger] agree(names, o, b, m) <==> agree(
        ids,
        o,
        b,
        m,
    ) by {
        lemma_names_agree_as_ids_do(streams, o, b, m);
    }
    if is_repeat(names, m, a, b, n) {
        assert forall|o: Place| (o.0 < a.0 || (o.0 == a.0 && o.1 < a.1)) implies !#[trigger] agree(
            ids,
            o,
            b,
            m,
        ) by {
            assert(!agree(names, o, b, m));
        }
    }
    if is_repeat(ids, m, a, b, n) {
        assert forall|o: Place| (o.0 < a.0 || (o.0 == a.0 && o.1 < a.1)) implies !#[trigger] agree(
            names,
            o,
            b,
            m,
        ) by {
            assert(!agree(ids, o, b, m));
        }
    }
}

/// `pairs` tell of every run of at least `m` token names that stands in two places, and
/// of nothing else, the longest first.
pub open spec fn reports_every_repeat(
    pairs: Seq<BlockView>,
    files: Seq<SourceView>,
    streams: Seq<Seq<PlacedView>>,
    m: nat,
) -> bool {
    &&& forall|i: int, j: int|
        0 <= i < j < pairs.len() ==> (#[trigger] pairs[i]).tokens >= (#[trigger] pairs[j]).tokens
    &&& names_known(streams).len() <= 0x1_0000_0000 ==> exists|
        found: Seq<BlockView>,
        at: Seq<(Place, Place)>,
    |
        {
            &&& #[trigger] tells_every_repeat(
                found,
                files,
                streams,
                stream_names(streams),
                m,
                at,
            )
            &&& pairs.len() == found.len()
            &&& forall|p: BlockView| #[trigger] pairs.contains(p) <==> found.contains(p)
        }
}

/// Every repeat is reported, the longest first: what is found in some streams, put in
/// order, tells of every run of at least `m` token names that stands in two places.
pub proof fn lemma_every_repeat_is_reported(
    files: Seq<SourceView>,
    streams: Seq<Seq<PlacedView>>,
    m: nat,
)
    requires
        m >= 1,
        streams.len() == files.len(),
    ensures
        reports_every_repeat(
            sorted::<BlockPair, LongestThenPlace>(
                corpus_from(files, streams, m).findings(files.len()),
            ),
            files,
            streams,
            m,
        ),
        reports_every_repeat(
            sorted::<BlockPair, LongestBlock>(
                sorted::<BlockPair, LongestThenPlace>(
                    corpus_from(files, streams, m).findings(files.len()),
                ),
            ),
            files,
            streams,
            m,
        ),
{
    let found = corpus_from(files, streams, m).findings(files.len());
    let once = sorted::<BlockPair, LongestThenPlace>(found);
    let twice = sorted::<BlockPair, LongestBlock>(once);
    lemma_sorted::<BlockPair, LongestThenPlace>(found);
    lemma_sorted::<BlockPair, LongestBlock>(once);
    assert forall|i: int, j: int| 0 <= i < j < once.len() implies (#[trigger] once[i]).tokens >= (
    #[trigger] once[j]).tokens by {
        assert(LongestThenPlace::precedes(once[i], once[j]));
    }
    assert forall|i: int, j: int| 0 <= i < j < twice.len() implies (#[trigger] twice[i]).tokens >= (
    #[trigger] twice[j]).tokens by {
        assert(LongestBlock::precedes(twice[i], twice[j]));
    }
    assert forall|p: BlockView|
        #![trigger once.contains(p)]
        #![trigger twice.contains(p)]
        (once.contains(p) <==> found.contains(p)) && (twice.contains(p) <==> found.contains(p)) by {
        lemma_sorted_holds::<BlockPair, LongestThenPlace>(found, p);
        lemma_sorted_holds::<BlockPair, LongestBlock>(once, p);
    }
    if names_known(streams).len() <= 0x1_0000_0000 {
        let at = lemma_findings_are_the_repeats_of_names(files, streams, m);
        assert(tells_every_repeat(found, files, streams, stream_names(streams), m, at));
    }
}

/// A window's hash is that of its tokens as the digits of a number, as far as 64 bits hold
/// it: what stands before counts for the base as often as there are tokens behind it.
pub proof fn lemma_hashes_count_tokens_as_digits(a: Seq<u32>, b: Seq<u32>, x: u32)
    ensures
        window_hash(a) == polynomial(a) % 0x1_0000_0000_0000_0000,
        polynomial(seq![x]) == x,
        polynomial(a + b) == polynomial(a) * pow(0x9E37_79B9_7F4A_7C15, b.len()) + polynomial(b),
    decreases b.len(),
{
    reveal(pow);
    lemma_window_hash(a);
    let one = seq![x];
    assert(one.drop_last() =~= Seq::empty());
    assert(polynomial(one.drop_last()) == 0);
    assert(one.last() == x);
    assert(0 * (ROLLING_BASE as int) == 0);
    if b.len() == 0 {
        assert(a + b =~= a);
        assert(polynomial(a) * 1 == polynomial(a)) by (nonlinear_arith);
    } else {
        let front = b.drop_last();
        lemma_hashes_count_tokens_as_digits(a, front, x);
        assert((a + b).drop_last() =~= a + front);
        assert((a + b).last() == b.last());
        let base = 0x9E37_79B9_7F4A_7C15int;
        let (p, q, f) = (polynomial(a), pow(base, front.len()), polynomial(front));
        assert((p * q + f) * base == p * (base * q) + f * base) by (nonlinear_arith);
        assert(pow(base, b.len()) == base * q);
    }
}

/// Every window of a stream is hashed: one for each place with enough tokens from there on.
pub proof fn lemma_every_window_is_counted(n: nat, m: nat, s: int)
    ensures
        0 <= s < window_count(n, m) <==> 0 <= s && s + m <= n,
{
}

} // verus!
