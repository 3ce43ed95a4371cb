//! Function-level near-duplicate detection: the quadratic core of a scan.
//!
//! [`find_clones`] compares every pair of extracted [`Unit`]s and reports the
//! ones similar enough to matter. Two things keep it tractable without changing
//! what it finds:
//!
//! - A [`Matcher`] is built once per right-hand unit and reused across every
//!   left-hand unit compared against it.
//! - The three-tier prune from [`crate::similarity`] rules a pair out as cheaply
//!   as possible. Each bound is at least the similarity, so pruning never drops a
//!   pair that would have passed.
//!
//! [`cluster`] groups the resulting pairs into connected components for a
//! human to read, via [`crate::unionfind::UnionFind`].

use rayon::iter::{IntoParallelIterator, ParallelIterator};

use vstd::prelude::*;
use vstd::string::*;

use crate::extract::{Unit, UnitView};
use crate::ratio::{lemma_le_transitive, Ratio};
use crate::report::{ClonePair, CloneView, StrongestClone, UnitRef, UnitRefView};
use crate::similarity::{
    alike, lemma_identical_ratio_is_one, lemma_quick_ratio_bounds_ratio,
    lemma_ratio_rests_on_agreement, lemma_real_quick_ratio_bounds_quick_ratio, quick_ratio_of,
    ratio_of, real_quick_ratio_of, Matcher,
};
use crate::sort::{
    lemma_sorted, lemma_sorted_holds, lemma_sorted_of_sorted, sort, sorted, views, Order,
};
use crate::text::{replace_char, same_text, with_replaced};
use crate::token::{ids_of, lemma_ids_identify_names};
use crate::unionfind::{
    ascending, has_group, is_grouping, joined, lemma_union_joins_exactly_two_sets, lists, UnionFind,
};

verus! {

// ------------------------------------------------------------------------- clones

/// The two units live in the same file, with one's line span containing the
/// other's.
pub open spec fn nested(a: UnitView, b: UnitView) -> bool {
    a.path == b.path && ((a.start_line <= b.start_line && b.end_line <= a.end_line) || (
    b.start_line <= a.start_line && a.end_line <= b.end_line))
}

/// A path with `/` separators.
pub open spec fn slashed(path: Seq<char>) -> Seq<char> {
    with_replaced(path, '\\', '/')
}

/// A unit as a report carries it.
pub open spec fn reference(u: UnitView) -> UnitRefView {
    UnitRefView {
        file: slashed(u.path),
        qualname: u.qualname,
        start_line: u.start_line,
        end_line: u.end_line,
        hash: u.stream.hash,
    }
}

/// The finding of two units, if they are similar enough and neither is nested in
/// the other.
pub open spec fn clone_between(a: UnitView, b: UnitView, min: Ratio) -> Seq<CloneView> {
    let similarity = ratio_of(a.stream.tokens, b.stream.tokens);
    if !nested(a, b) && min.le(similarity) {
        seq![CloneView { similarity, a: reference(a), b: reference(b) }]
    } else {
        Seq::empty()
    }
}

/// The findings of the first `n` units against the one at `j`.
pub open spec fn clones_with(units: Seq<UnitView>, j: int, n: nat, min: Ratio) -> Seq<CloneView>
    decreases n,
{
    if n == 0 {
        Seq::empty()
    } else {
        clones_with(units, j, (n - 1) as nat, min) + clone_between(units[n - 1], units[j], min)
    }
}

/// The findings of every two among the first `k` units.
pub open spec fn all_clones(units: Seq<UnitView>, k: nat, min: Ratio) -> Seq<CloneView>
    decreases k,
{
    if k == 0 {
        Seq::empty()
    } else {
        all_clones(units, (k - 1) as nat, min) + clones_with(units, k - 1, (k - 1) as nat, min)
    }
}

/// Whether two units live in the same file with one's line span containing the
/// other's.
///
/// The outer body's token stream always contains the inner one's, so without this
/// test every such pair would score as a near-perfect clone of itself.
pub fn nested_in_same_file(a: &Unit, b: &Unit) -> (r: bool)
    ensures
        r == nested(a@, b@),
        r == (lies_within(a@, b@) || lies_within(b@, a@)),
{
    same_text(a.path.as_str(), b.path.as_str()) && ((a.start_line <= b.start_line && b.end_line
        <= a.end_line) || (b.start_line <= a.start_line && a.end_line <= b.end_line))
}

/// Render a path with `/` separators, so a report scanned on Windows and one
/// scanned on Linux describe the same file the same way and compare equal.
fn normalize_path(path: &str) -> (s: String)
    ensures
        s@ == slashed(path@),
{
    replace_char(path, '\\', '/')
}

/// Render a [`Unit`] as the [`UnitRef`] a report carries.
pub fn unit_ref(unit: &Unit) -> (r: UnitRef)
    ensures
        r@ == reference(unit@),
{
    UnitRef {
        file: normalize_path(unit.path.as_str()),
        qualname: unit.qualname.clone(),
        start_line: unit.start_line,
        end_line: unit.end_line,
        hash: unit.stream.hash().clone(),
    }
}

/// The similarity of two units, if it reaches `min`, cheapest bound first.
fn similar_enough(matcher: &Matcher, left: &[u32], min: &Ratio) -> (s: Option<Ratio>)
    ensures
        s == (if min.le(ratio_of(left@, matcher@)) {
            Some(ratio_of(left@, matcher@))
        } else {
            None
        }),
{
    let (la, lb) = (left.len(), matcher.b().len());
    proof {
        lemma_quick_ratio_bounds_ratio(left@, matcher@);
        lemma_real_quick_ratio_bounds_quick_ratio(left@, matcher@);
        let (r, q) = (ratio_of(left@, matcher@), quick_ratio_of(left@, matcher@));
        let f = real_quick_ratio_of(left@.len(), matcher@.len());
        if min.le(r) {
            lemma_le_transitive(*min, r, q);
            lemma_le_transitive(*min, q, f);
        }
    }
    if !min.at_most(&matcher.real_quick_ratio(left)) {
        return None;
    }
    if !min.at_most(&matcher.quick_ratio(left)) {
        return None;
    }
    let similarity = matcher.ratio(left);
    if min.at_most(&similarity) {
        Some(similarity)
    } else {
        None
    }
}

/// Compare every unit ahead of the one at `j` with it.
fn clones_against(units: &[Unit], j: usize, min_similarity: &Ratio) -> (pairs: Vec<ClonePair>)
    requires
        j < units@.len(),
    ensures
        views(pairs@) == clones_with(views(units@), j as int, j as nat, *min_similarity),
{
    let ghost all = views(units@);
    let right = &units[j];
    let matcher = Matcher::new(right.stream.tokens());
    let mut pairs: Vec<ClonePair> = Vec::new();
    let mut i: usize = 0;
    assert(views(pairs@) =~= Seq::empty());
    while i < j
        invariant
            i <= j < units@.len(),
            all == views(units@),
            *right == units@[j as int],
            matcher@ == all[j as int].stream.tokens,
            views(pairs@) == clones_with(all, j as int, i as nat, *min_similarity),
        decreases j - i,
    {
        let left = &units[i];
        let ghost before = views(pairs@);
        let ghost here = clone_between(all[i as int], all[j as int], *min_similarity);
        if !nested_in_same_file(left, right) {
            if let Some(similarity) = similar_enough(
                &matcher,
                left.stream.tokens(),
                min_similarity,
            ) {
                pairs.push(ClonePair { similarity, a: unit_ref(left), b: unit_ref(right) });
            }
        }
        assert(views(pairs@) =~= before + here);
        i += 1;
    }
    pairs
}

/// `IntoParallelIterator::into_par_iter` on a range of indices, `ParallelIterator::map`
/// and `collect`: the function is applied to every index, on any thread, and the
/// results come in the order of the indices.
#[verifier::external_body]
fn compare_in_parallel(units: &[Unit], min_similarity: &Ratio) -> (found: Vec<Vec<ClonePair>>)
    ensures
        found@.len() == units@.len(),
        forall|j: int|
            0 <= j < found@.len() ==> views((#[trigger] found@[j])@) == clones_with(
                views(units@),
                j,
                j as nat,
                *min_similarity,
            ),
{
    (0..units.len()).into_par_iter().map(|j| clones_against(units, j, min_similarity)).collect()
}

/// Compare every pair of units and return those at or above `min_similarity`.
///
/// Each unordered pair is considered once (left index strictly less than right
/// index), so a unit is never compared with itself and no pair is reported
/// twice. A pair whose units share a file and whose line spans nest is skipped
/// even if it clears the threshold: the outer unit's token stream contains the
/// inner one's by construction, so reporting the pair is noise, not a finding.
///
/// The result is sorted (descending similarity, then [`ClonePair::key`]), so two
/// scans of the same units always produce the same output.
pub fn find_clones(units: &[Unit], min_similarity: Ratio) -> (pairs: Vec<ClonePair>)
    ensures
        views(pairs@) == sorted::<ClonePair, StrongestClone>(
            all_clones(views(units@), units@.len(), min_similarity),
        ),
        reports_every_clone(views(pairs@), views(units@), min_similarity),
{
    let ghost all = views(units@);
    let mut found = compare_in_parallel(units, &min_similarity);
    let ghost lists = found@;
    // Join the lists from the back, each in front of what was joined before.
    let mut pairs: Vec<ClonePair> = Vec::new();
    let ghost goal = all_clones(all, units@.len(), min_similarity);
    assert(views(pairs@) =~= Seq::empty());
    assert(goal + Seq::empty() =~= goal);
    while found.len() > 0
        invariant
            found@.len() <= lists.len(),
            lists.len() == all.len(),
            found@ == lists.take(found@.len() as int),
            forall|j: int|
                0 <= j < lists.len() ==> views((#[trigger] lists[j])@) == clones_with(
                    all,
                    j,
                    j as nat,
                    min_similarity,
                ),
            all_clones(all, found@.len(), min_similarity) + views(pairs@) == goal,
        decreases found.len(),
    {
        let ghost n = found@.len() as int;
        let ghost behind = views(pairs@);
        if let Some(mut list) = found.pop() {
            let ghost front = views(list@);
            proof {
                assert(list == lists[n - 1]);
                assert(found@ =~= lists.take(n - 1));
            }
            list.append(&mut pairs);
            pairs = list;
            proof {
                assert(views(pairs@) =~= front + behind);
                let before = all_clones(all, (n - 1) as nat, min_similarity);
                assert((before + front) + behind =~= before + (front + behind));
            }
        }
    }
    assert(Seq::empty() + views(pairs@) =~= views(pairs@));
    proof {
        lemma_every_clone_is_reported(all, min_similarity);
    }
    sort::<ClonePair, StrongestClone>(pairs)
}

// ------------------------------------------------------------------------ clusters

/// The last unit at a place, of the first `n`, or -1.
pub open spec fn unit_at(units: Seq<UnitView>, r: UnitRefView, n: nat) -> int
    decreases n,
{
    if n == 0 {
        -1
    } else if slashed(units[n - 1].path) == r.file && units[n - 1].start_line == r.start_line
        && units[n - 1].end_line == r.end_line {
        n - 1
    } else {
        unit_at(units, r, (n - 1) as nat)
    }
}

/// Both sides of a pair are among the units.
pub open spec fn endpoints_known(units: Seq<UnitView>, p: CloneView) -> bool {
    unit_at(units, p.a, units.len()) >= 0 && unit_at(units, p.b, units.len()) >= 0
}

/// The units two pairs' sides are, as indices.
pub open spec fn edge(units: Seq<UnitView>, p: CloneView) -> (int, int) {
    (unit_at(units, p.a, units.len()), unit_at(units, p.b, units.len()))
}

/// The representatives of `n` elements once the first `k` pairs have been joined.
pub open spec fn linked(units: Seq<UnitView>, pairs: Seq<CloneView>, k: nat) -> Seq<int>
    decreases k,
{
    if k == 0 {
        Seq::new(units.len(), |x: int| x)
    } else {
        let reps = linked(units, pairs, (k - 1) as nat);
        let (a, b) = edge(units, pairs[k - 1]);
        if reps[a] == reps[b] {
            reps
        } else {
            joined(reps, reps[a], reps[b])
        }
    }
}

/// A group of two or more.
pub open spec fn has_company() -> spec_fn(Seq<usize>) -> bool {
    |g: Seq<usize>| g.len() >= 2
}

proof fn lemma_unit_at(units: Seq<UnitView>, r: UnitRefView, n: nat)
    ensures
        -1 <= unit_at(units, r, n) < n as int,
    decreases n,
{
    if n > 0 {
        lemma_unit_at(units, r, (n - 1) as nat);
    }
}

/// Find the last unit at a place.
fn find_unit(units: &[Unit], paths: &Vec<String>, r: &UnitRef) -> (i: Option<usize>)
    requires
        paths@.len() == units@.len(),
        forall|k: int|
            0 <= k < paths@.len() ==> (#[trigger] paths@[k])@ == slashed(units@[k].path@),
    ensures
        i is None ==> unit_at(views(units@), r@, units@.len()) == -1,
        i matches Some(k) ==> k < units@.len() && unit_at(views(units@), r@, units@.len()) == k,
{
    let ghost all = views(units@);
    let mut n: usize = units.len();
    while n > 0
        invariant
            n <= units@.len(),
            all == views(units@),
            paths@.len() == units@.len(),
            forall|k: int|
                0 <= k < paths@.len() ==> (#[trigger] paths@[k])@ == slashed(units@[k].path@),
            unit_at(all, r@, units@.len()) == unit_at(all, r@, n as nat),
        decreases n,
    {
        let unit = &units[n - 1];
        assert(all[n - 1] == unit@);
        assert(paths@[n - 1]@ == slashed(all[n - 1].path));
        if same_text(paths[n - 1].as_str(), r.file.as_str()) && unit.start_line == r.start_line
            && unit.end_line == r.end_line {
            return Some(n - 1);
        }
        n -= 1;
    }
    None
}

/// Group units into clone classes via the pairs that link them, as indices
/// into `units`. Each returned class is an ascending list of two or more
/// member indices; classes are ordered by their lowest member.
///
/// # Clustering is transitive; similarity is not
///
/// If `A` resembles `B` and `B` resembles `C`, all three land in one class
/// even when `A` and `C` share nothing at all. The *pair*, with its own measured
/// similarity, is the finding; a class is only a reading aid for grouping related
/// pairs.
pub fn cluster(pairs: &[ClonePair], units: &[Unit]) -> (classes: Vec<Vec<usize>>)
    requires
        forall|k: int|
            0 <= k < pairs@.len() ==> endpoints_known(views(units@), (#[trigger] pairs@[k])@),
    ensures
        exists|groups: Seq<Seq<usize>>|
            {
                &&& #[trigger] is_grouping(
                    linked(views(units@), views(pairs@), pairs@.len()),
                    groups,
                )
                &&& lists(classes@) == groups.filter(has_company())
            },
        tells_every_class(lists(classes@), views(units@), views(pairs@)),
{
    let ghost all = views(units@);
    let ghost found = views(pairs@);
    let mut paths: Vec<String> = Vec::new();
    let mut k: usize = 0;
    while k < units.len()
        invariant
            k <= units@.len(),
            paths@.len() == k,
            forall|j: int|
                0 <= j < paths@.len() ==> (#[trigger] paths@[j])@ == slashed(units@[j].path@),
        decreases units.len() - k,
    {
        paths.push(normalize_path(units[k].path.as_str()));
        k += 1;
    }
    let mut forest = UnionFind::new(units.len());
    let mut i: usize = 0;
    assert(forest@ =~= linked(all, found, 0));
    while i < pairs.len()
        invariant
            i <= pairs@.len(),
            all == views(units@),
            found == views(pairs@),
            paths@.len() == units@.len(),
            forall|j: int|
                0 <= j < paths@.len() ==> (#[trigger] paths@[j])@ == slashed(units@[j].path@),
            forall|j: int|
                0 <= j < pairs@.len() ==> endpoints_known(all, (#[trigger] pairs@[j])@),
            forest.wf(),
            forest@ == linked(all, found, i as nat),
            forest@.len() == all.len(),
        decreases pairs.len() - i,
    {
        let pair = &pairs[i];
        assert(endpoints_known(all, pairs@[i as int]@));
        assert(found[i as int] == pair@);
        let a = find_unit(units, &paths, &pair.a);
        let b = find_unit(units, &paths, &pair.b);
        if let (Some(a), Some(b)) = (a, b) {
            let merged = forest.union(a, b);
        }
        i += 1;
    }
    let groups = forest.groups();
    let ghost reps = forest@;
    let ghost whole = lists(groups@);
    let ghost big = has_company();
    let mut classes: Vec<Vec<usize>> = Vec::new();
    let mut rest = groups;
    let mut kept: Vec<Vec<usize>> = Vec::new();
    // Taken from the back, so the classes are turned round at the end.
    let ghost n = whole.len() as int;
    proof {
        assert(whole.take(n) =~= whole);
        assert(lists(kept@).reverse() =~= Seq::empty());
        assert(whole.filter(big) + Seq::empty() =~= whole.filter(big));
    }
    while rest.len() > 0
        invariant
            lists(rest@) == whole.take(rest@.len() as int),
            rest@.len() <= whole.len(),
            lists(rest@).filter(big) + lists(kept@).reverse() == whole.filter(big),
            big == has_company(),
        decreases rest.len(),
    {
        let ghost before = lists(rest@);
        let ghost had = lists(kept@);
        proof {
            reveal(Seq::filter);
        }
        if let Some(group) = rest.pop() {
            assert(lists(rest@) =~= before.drop_last());
            assert(before.last() == group@);
            if group.len() >= 2 {
                kept.push(group);
                proof {
                    assert(lists(kept@) =~= had.push(before.last()));
                    assert(lists(kept@).reverse() =~= seq![before.last()] + had.reverse());
                    assert(before.drop_last().filter(big).push(before.last()) + had.reverse()
                        =~= before.drop_last().filter(big) + (seq![before.last()]
                        + had.reverse()));
                }
            }
        }
        assert(lists(rest@) =~= whole.take(rest@.len() as int));
    }
    proof {
        reveal(Seq::filter);
        assert(lists(rest@) =~= Seq::empty());
        assert(lists(rest@).filter(big) =~= Seq::empty());
        assert(Seq::empty() + lists(kept@).reverse() =~= lists(kept@).reverse());
        assert(lists(classes@) + lists(kept@).reverse() =~= whole.filter(big));
    }
    while kept.len() > 0
        invariant
            lists(classes@) + lists(kept@).reverse() == whole.filter(big),
        decreases kept.len(),
    {
        let ghost (had, left) = (lists(classes@), lists(kept@));
        if let Some(group) = kept.pop() {
            assert(left.last() == group@);
            classes.push(group);
        }
        proof {
            assert(lists(kept@) =~= left.drop_last());
            assert(lists(classes@) =~= had.push(left.last()));
            assert(had + left.reverse() =~= lists(classes@) + lists(kept@).reverse());
        }
    }
    proof {
        assert(lists(classes@) =~= whole.filter(big));
        assert(is_grouping(linked(all, found, pairs@.len()), whole));
        assert forall|j: int| 0 <= j < found.len() implies endpoints_known(
            all,
            #[trigger] found[j],
        ) by {
            assert(endpoints_known(all, pairs@[j]@));
        }
        lemma_classes_are_what_hangs_together(all, found, whole);
    }
    classes
}

// ---------------------------------------------------------------------------- laws

/// Every finding reaches the threshold, and neither unit is nested in the other.
pub proof fn lemma_findings_reach_threshold(units: Seq<UnitView>, k: nat, min: Ratio, c: CloneView)
    requires
        k <= units.len(),
        all_clones(units, k, min).contains(c),
    ensures
        min.le(c.similarity),
        exists|i: int, j: int|
            0 <= i < j < k && c == found_between(units, i, j) && !#[trigger] nested(
                units[i],
                units[j],
            ),
    decreases k,
{
    let before = all_clones(units, (k - 1) as nat, min);
    let here = clones_with(units, k - 1, (k - 1) as nat, min);
    let at = choose|p: int| 0 <= p < (before + here).len() && (before + here)[p] == c;
    if at < before.len() {
        assert(before[at] == c);
        lemma_findings_reach_threshold(units, (k - 1) as nat, min, c);
    } else {
        assert(here[at - before.len()] == c);
        lemma_finding_with(units, k - 1, (k - 1) as nat, min, c);
    }
}

/// The finding of the units at `i` and `j`.
pub open spec fn found_between(units: Seq<UnitView>, i: int, j: int) -> CloneView {
    CloneView {
        similarity: ratio_of(units[i].stream.tokens, units[j].stream.tokens),
        a: reference(units[i]),
        b: reference(units[j]),
    }
}

proof fn lemma_finding_with(units: Seq<UnitView>, j: int, n: nat, min: Ratio, c: CloneView)
    requires
        n <= j < units.len(),
        clones_with(units, j, n, min).contains(c),
    ensures
        min.le(c.similarity),
        exists|i: int|
            0 <= i < n && c == found_between(units, i, j) && !#[trigger] nested(
                units[i],
                units[j],
            ),
    decreases n,
{
    let before = clones_with(units, j, (n - 1) as nat, min);
    let here = clone_between(units[n - 1], units[j], min);
    let at = choose|p: int| 0 <= p < (before + here).len() && (before + here)[p] == c;
    if at < before.len() {
        assert(before[at] == c);
        lemma_finding_with(units, j, (n - 1) as nat, min, c);
    } else {
        assert(here[at - before.len()] == c);
        assert(c == found_between(units, n - 1, j) && !nested(units[n - 1], units[j]));
    }
}

/// No two units similar enough are passed over: pruning loses nothing.
pub proof fn lemma_no_clone_is_missed(units: Seq<UnitView>, k: nat, min: Ratio, i: int, j: int)
    requires
        0 <= i < j < k <= units.len(),
        !nested(units[i], units[j]),
        min.le(ratio_of(units[i].stream.tokens, units[j].stream.tokens)),
    ensures
        all_clones(units, k, min).contains(found_between(units, i, j)),
    decreases k,
{
    let c = found_between(units, i, j);
    let before = all_clones(units, (k - 1) as nat, min);
    let here = clones_with(units, k - 1, (k - 1) as nat, min);
    if j == k - 1 {
        lemma_found_with(units, j, (k - 1) as nat, min, i);
        let p = choose|p: int| 0 <= p < here.len() && here[p] == c;
        assert((before + here)[before.len() + p] == c);
    } else {
        lemma_no_clone_is_missed(units, (k - 1) as nat, min, i, j);
        let p = choose|p: int| 0 <= p < before.len() && before[p] == c;
        assert((before + here)[p] == c);
    }
}

proof fn lemma_found_with(units: Seq<UnitView>, j: int, n: nat, min: Ratio, i: int)
    requires
        0 <= i < n <= j < units.len(),
        !nested(units[i], units[j]),
        min.le(ratio_of(units[i].stream.tokens, units[j].stream.tokens)),
    ensures
        clones_with(units, j, n, min).contains(found_between(units, i, j)),
    decreases n,
{
    let c = found_between(units, i, j);
    let before = clones_with(units, j, (n - 1) as nat, min);
    let here = clone_between(units[n - 1], units[j], min);
    if i == n - 1 {
        assert(here[0] == c);
        assert((before + here)[before.len() as int] == c);
    } else {
        lemma_found_with(units, j, (n - 1) as nat, min, i);
        let p = choose|p: int| 0 <= p < before.len() && before[p] == c;
        assert((before + here)[p] == c);
    }
}

/// Copies are found whatever the threshold: two units with the same body, neither of
/// which contains the other, make a pair of similarity one.
pub proof fn lemma_copies_are_always_found(units: Seq<UnitView>, min: Ratio, i: int, j: int)
    requires
        0 <= i < j < units.len(),
        units[i].stream.tokens == units[j].stream.tokens,
        units[i].stream.tokens.len() <= usize::MAX,
        !nested(units[i], units[j]),
        min.le(Ratio { num: 1, den: 1 }),
    ensures
        all_clones(units, units.len(), min).contains(found_between(units, i, j)),
        found_between(units, i, j).similarity.same(Ratio { num: 1, den: 1 }),
{
    let score = ratio_of(units[i].stream.tokens, units[j].stream.tokens);
    let one = Ratio { num: 1, den: 1 };
    lemma_identical_ratio_is_one(units[i].stream.tokens);
    lemma_le_transitive(min, one, score);
    lemma_no_clone_is_missed(units, units.len(), min, i, j);
}

/// A relation under which every element is related to itself, both ways, and onward.
pub open spec fn is_equivalence(related: spec_fn(int, int) -> bool) -> bool {
    &&& forall|x: int| #[trigger] related(x, x)
    &&& forall|x: int, y: int| #[trigger] related(x, y) ==> related(y, x)
    &&& forall|x: int, y: int, z: int|
        #[trigger] related(x, y) && #[trigger] related(y, z) ==> related(x, z)
}

/// The two sides of every pair share a class.
pub proof fn lemma_pairs_share_a_class(units: Seq<UnitView>, pairs: Seq<CloneView>, k: nat, j: int)
    requires
        0 <= j < k <= pairs.len(),
        forall|p: int| 0 <= p < pairs.len() ==> endpoints_known(units, #[trigger] pairs[p]),
    ensures
        linked(units, pairs, k).len() == units.len(),
        linked(units, pairs, k)[edge(units, pairs[j]).0] == linked(units, pairs, k)[edge(
            units,
            pairs[j],
        ).1],
    decreases k,
{
    lemma_edge_in_range(units, pairs[j]);
    lemma_edge_in_range(units, pairs[k - 1]);
    assert(endpoints_known(units, pairs[j]) && endpoints_known(units, pairs[k - 1]));
    lemma_linked_len(units, pairs, (k - 1) as nat);
    if j < k - 1 {
        lemma_pairs_share_a_class(units, pairs, (k - 1) as nat, j);
    }
}

proof fn lemma_linked_len(units: Seq<UnitView>, pairs: Seq<CloneView>, k: nat)
    ensures
        linked(units, pairs, k).len() == units.len(),
    decreases k,
{
    if k > 0 {
        lemma_linked_len(units, pairs, (k - 1) as nat);
    }
}

proof fn lemma_edge_in_range(units: Seq<UnitView>, p: CloneView)
    ensures
        edge(units, p).0 < units.len(),
        edge(units, p).1 < units.len(),
{
    lemma_unit_at(units, p.a, units.len());
    lemma_unit_at(units, p.b, units.len());
}

/// Classes hold nothing but what chains of pairs link: any equivalence that relates
/// the two sides of every pair relates any two members of a class.
pub proof fn lemma_classes_are_no_larger_than_linked(
    units: Seq<UnitView>,
    pairs: Seq<CloneView>,
    k: nat,
    x: int,
    y: int,
    related: spec_fn(int, int) -> bool,
)
    requires
        k <= pairs.len(),
        forall|p: int| 0 <= p < pairs.len() ==> endpoints_known(units, #[trigger] pairs[p]),
        is_equivalence(related),
        forall|p: int|
            0 <= p < pairs.len() ==> related(
                edge(units, #[trigger] pairs[p]).0,
                edge(units, pairs[p]).1,
            ),
        0 <= x < units.len(),
        0 <= y < units.len(),
        linked(units, pairs, k)[x] == linked(units, pairs, k)[y],
    ensures
        related(x, y),
    decreases k,
{
    if k > 0 {
        let reps = linked(units, pairs, (k - 1) as nat);
        lemma_linked_len(units, pairs, (k - 1) as nat);
        lemma_edge_in_range(units, pairs[k - 1]);
        assert(endpoints_known(units, pairs[k - 1]));
        let (a, b) = edge(units, pairs[k - 1]);
        assert(related(a, b) && related(b, a));
        let prior = (k - 1) as nat;
        if reps[a] != reps[b] {
            lemma_union_joins_exactly_two_sets(reps, a, b, x, y);
        }
        if reps[x] == reps[y] {
            lemma_classes_are_no_larger_than_linked(units, pairs, prior, x, y, related);
        } else if reps[x] == reps[a] && reps[y] == reps[b] {
            lemma_classes_are_no_larger_than_linked(units, pairs, prior, x, a, related);
            lemma_classes_are_no_larger_than_linked(units, pairs, prior, b, y, related);
            assert(related(x, b));
        } else {
            lemma_classes_are_no_larger_than_linked(units, pairs, prior, x, b, related);
            lemma_classes_are_no_larger_than_linked(units, pairs, prior, a, y, related);
            assert(related(x, a));
        }
    }
}

/// Two bodies agree in the same places in every scan, whatever else was scanned
/// before them: token ids tell names apart, as long as they are not reused.
pub proof fn lemma_bodies_agree_alike_in_every_scan(
    known: Seq<Seq<char>>,
    other: Seq<Seq<char>>,
    a: Seq<Seq<char>>,
    b: Seq<Seq<char>>,
)
    requires
        known.no_duplicates(),
        other.no_duplicates(),
        known.len() <= 0x1_0000_0000,
        other.len() <= 0x1_0000_0000,
        forall|i: int|
            0 <= i < a.len() ==> known.contains(#[trigger] a[i]) && other.contains(a[i]),
        forall|i: int|
            0 <= i < b.len() ==> known.contains(#[trigger] b[i]) && other.contains(b[i]),
    ensures
        alike(ids_of(known, a), ids_of(known, b), ids_of(other, a), ids_of(other, b)),
{
    let (x, y) = (ids_of(known, a), ids_of(known, b));
    assert forall|i: int, j: int| 0 <= i < x.len() && 0 <= j < y.len() implies (#[trigger] x[i]
        == #[trigger] y[j] <==> ids_of(other, a)[i] == ids_of(other, b)[j]) by {
        lemma_ids_identify_names(known, a[i], b[j]);
        lemma_ids_identify_names(other, a[i], b[j]);
    }
}

/// A pair that the base tree held as well is found there too: where two units of one
/// tree are similar enough, and another tree lists two separate units with the same
/// bodies in the same order, the other tree's findings have a pair of the same
/// identity and the same similarity.
pub proof fn lemma_same_bodies_are_found_again(
    head: Seq<UnitView>,
    base: Seq<UnitView>,
    min: Ratio,
    i: int,
    j: int,
    k: int,
    l: int,
)
    requires
        0 <= i < head.len(),
        0 <= j < head.len(),
        0 <= k < l < base.len(),
        min.le(ratio_of(head[i].stream.tokens, head[j].stream.tokens)),
        !nested(base[k], base[l]),
        base[k].stream.hash == head[i].stream.hash,
        base[l].stream.hash == head[j].stream.hash,
        alike(
            head[i].stream.tokens,
            head[j].stream.tokens,
            base[k].stream.tokens,
            base[l].stream.tokens,
        ),
        head[i].stream.tokens.len() <= usize::MAX,
        head[j].stream.tokens.len() <= usize::MAX,
    ensures
        all_clones(base, base.len(), min).contains(found_between(base, k, l)),
        found_between(base, k, l).key() == found_between(head, i, j).key(),
        found_between(base, k, l).similarity == found_between(head, i, j).similarity,
{
    lemma_ratio_rests_on_agreement(
        head[i].stream.tokens,
        head[j].stream.tokens,
        base[k].stream.tokens,
        base[l].stream.tokens,
    );
    lemma_no_clone_is_missed(base, base.len(), min, k, l);
}

// ------------------------------------------------------- what the findings amount to

/// `r` tells which unit it is: its file, written with `/`, its name, its lines, and the
/// hash of its body.
pub open spec fn tells_unit(r: UnitRefView, u: UnitView) -> bool {
    &&& r.file.len() == u.path.len()
    &&& forall|i: int|
        0 <= i < r.file.len() ==> #[trigger] r.file[i] == (if u.path[i] == '\\' {
            '/'
        } else {
            u.path[i]
        })
    &&& r.qualname == u.qualname
    &&& r.start_line == u.start_line
    &&& r.end_line == u.end_line
    &&& r.hash == u.stream.hash
}

/// The lines of `a` are all lines of `b`, in the same file.
pub open spec fn lies_within(a: UnitView, b: UnitView) -> bool {
    a.path == b.path && b.start_line <= a.start_line && a.end_line <= b.end_line
}

/// Two units are a finding: neither lies within the other, whatever they are called,
/// and their bodies are similar enough.
pub open spec fn are_clones(a: UnitView, b: UnitView, min: Ratio) -> bool {
    &&& !lies_within(a, b)
    &&& !lies_within(b, a)
    &&& min.le(ratio_of(a.stream.tokens, b.stream.tokens))
}

/// `found` tells of every two units that are clones, and of nothing else, each two
/// once. `at` says which two each of them joins.
pub open spec fn tells_every_clone(
    found: Seq<CloneView>,
    units: Seq<UnitView>,
    min: Ratio,
    at: Seq<(int, int)>,
) -> bool {
    &&& at.len() == found.len()
    &&& forall|i: int|
        0 <= i < at.len() ==> 0 <= (#[trigger] at[i]).0 < at[i].1 < units.len() && are_clones(
            units[at[i].0],
            units[at[i].1],
            min,
        ) && tells_unit(found[i].a, units[at[i].0]) && tells_unit(found[i].b, units[at[i].1])
            && found[i].similarity == ratio_of(
            units[at[i].0].stream.tokens,
            units[at[i].1].stream.tokens,
        )
    &&& forall|i: int, j: int| 0 <= i < j < at.len() ==> #[trigger] at[i] != #[trigger] at[j]
    &&& forall|x: int, y: int|
        0 <= x < y < units.len() && #[trigger] are_clones(units[x], units[y], min)
            ==> at.contains((x, y))
}

/// `pairs` tell of every two units that are clones, and of nothing else, the most
/// similar first.
pub open spec fn reports_every_clone(
    pairs: Seq<CloneView>,
    units: Seq<UnitView>,
    min: Ratio,
) -> bool {
    &&& forall|i: int, j: int|
        0 <= i < j < pairs.len() ==> (#[trigger] pairs[j]).similarity.le(
            (#[trigger] pairs[i]).similarity,
        )
    &&& exists|found: Seq<CloneView>, at: Seq<(int, int)>|
        {
            &&& #[trigger] tells_every_clone(found, units, min, at)
            &&& pairs.len() == found.len()
            &&& forall|p: CloneView| #[trigger] pairs.contains(p) <==> found.contains(p)
        }
}

proof fn lemma_clones_of_one(units: Seq<UnitView>, j: int, n: nat, min: Ratio) -> (at: Seq<
    (int, int),
>)
    requires
        n <= j < units.len(),
    ensures
        at.len() == clones_with(units, j, n, min).len(),
        forall|i: int|
            0 <= i < at.len() ==> 0 <= (#[trigger] at[i]).0 < n && at[i].1 == j && are_clones(
                units[at[i].0],
                units[j],
                min,
            ) && tells_unit(clones_with(units, j, n, min)[i].a, units[at[i].0]) && tells_unit(
                clones_with(units, j, n, min)[i].b,
                units[j],
            ) && clones_with(units, j, n, min)[i].similarity == ratio_of(
                units[at[i].0].stream.tokens,
                units[j].stream.tokens,
            ),
        forall|i: int, k: int| 0 <= i < k < at.len() ==> #[trigger] at[i] != #[trigger] at[k],
        forall|x: int|
            0 <= x < n && #[trigger] are_clones(units[x], units[j], min) ==> at.contains((x, j)),
    decreases n,
{
    if n == 0 {
        Seq::empty()
    } else {
        let before = lemma_clones_of_one(units, j, (n - 1) as nat, min);
        let (a, b) = (units[n - 1], units[j]);
        let here: Seq<(int, int)> = if are_clones(a, b, min) {
            seq![(n - 1, j)]
        } else {
            Seq::empty()
        };
        assert(here.len() == clone_between(a, b, min).len());
        let at = before + here;
        assert forall|x: int|
            0 <= x < n && #[trigger] are_clones(units[x], units[j], min) implies at.contains(
            (x, j),
        ) by {
            if x < n - 1 {
                let i = choose|i: int| 0 <= i < before.len() && before[i] == (x, j);
                assert(at[i] == (x, j));
            } else {
                assert(at[before.len() as int] == (x, j));
            }
        }
        at
    }
}

proof fn lemma_clones_of_all(units: Seq<UnitView>, k: nat, min: Ratio) -> (at: Seq<(int, int)>)
    requires
        k <= units.len(),
    ensures
        at.len() == all_clones(units, k, min).len(),
        forall|i: int|
            0 <= i < at.len() ==> 0 <= (#[trigger] at[i]).0 < at[i].1 < k && are_clones(
                units[at[i].0],
                units[at[i].1],
                min,
            ) && tells_unit(all_clones(units, k, min)[i].a, units[at[i].0]) && tells_unit(
                all_clones(units, k, min)[i].b,
                units[at[i].1],
            ) && all_clones(units, k, min)[i].similarity == ratio_of(
                units[at[i].0].stream.tokens,
                units[at[i].1].stream.tokens,
            ),
        forall|i: int, j: int| 0 <= i < j < at.len() ==> #[trigger] at[i] != #[trigger] at[j],
        forall|x: int, y: int|
            0 <= x < y < k && #[trigger] are_clones(units[x], units[y], min) ==> at.contains(
                (x, y),
            ),
    decreases k,
{
    if k == 0 {
        Seq::empty()
    } else {
        let before = lemma_clones_of_all(units, (k - 1) as nat, min);
        let here = lemma_clones_of_one(units, k - 1, (k - 1) as nat, min);
        let at = before + here;
        assert forall|x: int, y: int|
            0 <= x < y < k && #[trigger] are_clones(units[x], units[y], min) implies at.contains(
            (x, y),
        ) by {
            if y < k - 1 {
                let i = choose|i: int| 0 <= i < before.len() && before[i] == (x, y);
                assert(at[i] == (x, y));
            } else {
                let i = choose|i: int| 0 <= i < here.len() && here[i] == (x, y);
                assert(at[before.len() + i] == (x, y));
            }
        }
        at
    }
}

/// Every two similar units are reported, whatever they are called and wherever they
/// stand, unless the lines of one lie within those of the other; nothing else is, and
/// nothing twice. The most similar come first, each with both places, names and hashes.
pub proof fn lemma_every_clone_is_reported(units: Seq<UnitView>, min: Ratio)
    ensures
        reports_every_clone(
            sorted::<ClonePair, StrongestClone>(all_clones(units, units.len(), min)),
            units,
            min,
        ),
        reports_every_clone(
            sorted::<ClonePair, StrongestClone>(
                sorted::<ClonePair, StrongestClone>(all_clones(units, units.len(), min)),
            ),
            units,
            min,
        ),
{
    let found = all_clones(units, units.len(), min);
    let once = sorted::<ClonePair, StrongestClone>(found);
    lemma_sorted::<ClonePair, StrongestClone>(found);
    lemma_sorted_of_sorted::<ClonePair, StrongestClone>(once);
    assert forall|i: int, j: int| 0 <= i < j < once.len() implies (
    #[trigger] once[j]).similarity.le((#[trigger] once[i]).similarity) by {
        assert(StrongestClone::precedes(once[i], once[j]));
    }
    assert forall|p: CloneView| #[trigger] once.contains(p) <==> found.contains(p) by {
        lemma_sorted_holds::<ClonePair, StrongestClone>(found, p);
    }
    let at = lemma_clones_of_all(units, units.len(), min);
    assert(tells_every_clone(found, units, min, at));
}

// -------------------------------------------------------------- what classes amount to

/// The unit at `i` is the last that stands at a place.
pub open spec fn is_last_at(units: Seq<UnitView>, r: UnitRefView, i: int) -> bool {
    &&& 0 <= i < units.len()
    &&& slashed(units[i].path) == r.file && units[i].start_line == r.start_line
        && units[i].end_line == r.end_line
    &&& forall|l: int|
        i < l < units.len() ==> slashed((#[trigger] units[l]).path) != r.file
            || units[l].start_line != r.start_line || units[l].end_line != r.end_line
}

/// A relation holds between the two sides of every pair.
pub open spec fn relates_all(
    related: spec_fn(int, int) -> bool,
    units: Seq<UnitView>,
    pairs: Seq<CloneView>,
) -> bool {
    forall|p: int, a: int, b: int|
        0 <= p < pairs.len() && #[trigger] is_last_at(units, (#[trigger] pairs[p]).a, a)
            && #[trigger] is_last_at(units, pairs[p].b, b) ==> related(a, b)
}

/// The classes tell which units hang together: each lists two or more, in order, no unit
/// is in two, the sides of every pair share one, and two units that share one are linked
/// by pairs.
pub open spec fn tells_every_class(
    classes: Seq<Seq<usize>>,
    units: Seq<UnitView>,
    pairs: Seq<CloneView>,
) -> bool {
    &&& forall|g: int| 0 <= g < classes.len() ==> (#[trigger] classes[g]).len() >= 2
    &&& forall|g: int, k: int|
        0 <= g < classes.len() && 0 <= k < classes[g].len() ==> #[trigger] classes[g][k]
            < units.len()
    &&& forall|g: int, k: int, l: int|
        0 <= g < classes.len() && 0 <= k < l < classes[g].len() ==> #[trigger] classes[g][k]
            < #[trigger] classes[g][l]
    &&& forall|g: int, h: int|
        0 <= g < h < classes.len() ==> (#[trigger] classes[g])[0] < (#[trigger] classes[h])[0]
    &&& forall|g: int, h: int, x: usize|
        0 <= g < h < classes.len() && #[trigger] classes[g].contains(x)
            ==> !#[trigger] classes[h].contains(x)
    &&& forall|p: int, a: int, b: int|
        0 <= p < pairs.len() && #[trigger] is_last_at(units, (#[trigger] pairs[p]).a, a)
            && #[trigger] is_last_at(units, pairs[p].b, b) && a != b ==> exists|g: int|
            0 <= g < classes.len() && (#[trigger] classes[g]).contains(a as usize)
                && classes[g].contains(b as usize)
    &&& forall|related: spec_fn(int, int) -> bool, g: int, k: int, l: int|
        #[trigger] is_equivalence(related) && relates_all(related, units, pairs) && 0 <= g
            < classes.len() && 0 <= k < classes[g].len() && 0 <= l < classes[g].len() ==> related(
            #[trigger] classes[g][k] as int,
            #[trigger] classes[g][l] as int,
        )
}

proof fn lemma_last_at(units: Seq<UnitView>, r: UnitRefView, n: nat, i: int)
    requires
        n <= units.len(),
        forall|l: int|
            n <= l < units.len() ==> slashed((#[trigger] units[l]).path) != r.file
                || units[l].start_line != r.start_line || units[l].end_line != r.end_line,
    ensures
        is_last_at(units, r, i) <==> unit_at(units, r, n) == i && i >= 0,
    decreases n,
{
    lemma_unit_at(units, r, n);
    if n > 0 {
        let last = n - 1;
        if slashed(units[last].path) == r.file && units[last].start_line == r.start_line
            && units[last].end_line == r.end_line {
            assert(is_last_at(units, r, last));
            if is_last_at(units, r, i) && i != last {
                assert(i < last);
                assert(slashed(units[last].path) != r.file || units[last].start_line
                    != r.start_line || units[last].end_line != r.end_line);
            }
        } else {
            lemma_last_at(units, r, last as nat, i);
        }
    }
}

proof fn lemma_kept(groups: Seq<Seq<usize>>) -> (at: Seq<int>)
    ensures
        at.len() == groups.filter(has_company()).len(),
        forall|k: int|
            0 <= k < at.len() ==> 0 <= (#[trigger] at[k]) < groups.len() && groups.filter(
                has_company(),
            )[k] == groups[at[k]] && groups[at[k]].len() >= 2,
        forall|k: int, l: int| 0 <= k < l < at.len() ==> #[trigger] at[k] < #[trigger] at[l],
        forall|g: int|
            0 <= g < groups.len() && (#[trigger] groups[g]).len() >= 2 ==> at.contains(g),
    decreases groups.len(),
{
    reveal(Seq::filter);
    if groups.len() == 0 {
        Seq::empty()
    } else {
        let front = groups.drop_last();
        let before = lemma_kept(front);
        let last = groups.len() - 1;
        let at = if groups[last].len() >= 2 {
            before.push(last)
        } else {
            before
        };
        assert(has_company()(groups.last()) <==> groups[last].len() >= 2);
        assert forall|g: int| 0 <= g < groups.len() && (
        #[trigger] groups[g]).len() >= 2 implies at.contains(g) by {
            if g < last {
                assert(front[g] == groups[g]);
                let k = choose|k: int| 0 <= k < before.len() && before[k] == g;
                assert(at[k] == g);
            } else {
                assert(at[at.len() - 1] == g);
            }
        }
        assert forall|k: int| 0 <= k < at.len() implies 0 <= (#[trigger] at[k]) < groups.len()
            && groups.filter(has_company())[k] == groups[at[k]] && groups[at[k]].len() >= 2 by {
            if k < before.len() {
                assert(at[k] == before[k]);
                assert(front[before[k]] == groups[before[k]]);
            }
        }
        at
    }
}

/// Clustering tells which units hang together: the sides of every pair share a class, and
/// a class holds nothing but what chains of pairs link.
pub proof fn lemma_classes_are_what_hangs_together(
    units: Seq<UnitView>,
    pairs: Seq<CloneView>,
    groups: Seq<Seq<usize>>,
)
    requires
        units.len() <= usize::MAX,
        forall|p: int| 0 <= p < pairs.len() ==> endpoints_known(units, #[trigger] pairs[p]),
        is_grouping(linked(units, pairs, pairs.len()), groups),
    ensures
        tells_every_class(groups.filter(has_company()), units, pairs),
{
    let reps = linked(units, pairs, pairs.len());
    let classes = groups.filter(has_company());
    let at = lemma_kept(groups);
    lemma_linked_len(units, pairs, pairs.len());
    assert forall|g: int, k: int| 0 <= g < classes.len() && 0 <= k
        < classes[g].len() implies #[trigger] classes[g][k] < units.len() by {
        assert(classes[g] == groups[at[g]]);
        assert(groups[at[g]][k] < reps.len());
    }
    assert forall|g: int, k: int, l: int| 0 <= g < classes.len() && 0 <= k < l
        < classes[g].len() implies #[trigger] classes[g][k] < #[trigger] classes[g][l] by {
        assert(classes[g] == groups[at[g]]);
        assert(ascending(groups[at[g]]));
    }
    assert forall|g: int, h: int| 0 <= g < h < classes.len() implies (#[trigger] classes[g])[0] < (
    #[trigger] classes[h])[0] by {
        assert(at[g] < at[h]);
        assert(groups[at[g]][0] < groups[at[h]][0]);
    }
    assert forall|g: int, h: int, x: usize|
        0 <= g < h < classes.len() && #[trigger] classes[g].contains(
            x,
        ) implies !#[trigger] classes[h].contains(x) by {
        let k = choose|k: int| 0 <= k < classes[g].len() && classes[g][k] == x;
        assert(classes[g][k] < units.len());
        assert(at[g] < at[h]);
        let (one, two) = (groups[at[g]], groups[at[h]]);
        assert(one[0] < two[0]);
        if classes[h].contains(x) {
            assert(one.contains(x as int as usize) && two.contains(x as int as usize));
            assert(reps[x as int] == reps[one[0] as int]);
            assert(reps[x as int] == reps[two[0] as int]);
            assert(one[0] < reps.len() && two[0] < reps.len());
            assert(two.contains(one[0] as int as usize));
            let m = choose|m: int| 0 <= m < two.len() && two[m] == one[0];
            assert(ascending(two));
            assert(m == 0 || two[0] < two[m]);
        }
    }
    assert forall|p: int, a: int, b: int|
        0 <= p < pairs.len() && #[trigger] is_last_at(units, (#[trigger] pairs[p]).a, a)
            && #[trigger] is_last_at(units, pairs[p].b, b) && a != b implies exists|g: int|
        0 <= g < classes.len() && (#[trigger] classes[g]).contains(a as usize)
            && classes[g].contains(b as usize) by {
        lemma_last_at(units, pairs[p].a, units.len(), a);
        lemma_last_at(units, pairs[p].b, units.len(), b);
        lemma_pairs_share_a_class(units, pairs, pairs.len(), p);
        assert(reps[a] == reps[b]);
        assert(has_group(reps, groups, a));
        let g = choose|g: int| 0 <= g < groups.len() && #[trigger] groups[g].contains(a as usize);
        assert(reps[a] == reps[groups[g][0] as int]);
        assert(groups[g].contains(b as usize));
        let k = choose|k: int| 0 <= k < groups[g].len() && groups[g][k] == a as usize;
        let l = choose|l: int| 0 <= l < groups[g].len() && groups[g][l] == b as usize;
        assert(k != l);
        assert(groups[g].len() >= 2);
        let c = choose|c: int| 0 <= c < at.len() && at[c] == g;
        assert(classes[c] == groups[g]);
    }
    assert forall|related: spec_fn(int, int) -> bool, g: int, k: int, l: int|
        #[trigger] is_equivalence(related) && relates_all(related, units, pairs) && 0 <= g
            < classes.len() && 0 <= k < classes[g].len() && 0 <= l
            < classes[g].len() implies related(
        #[trigger] classes[g][k] as int,
        #[trigger] classes[g][l] as int,
    ) by {
        let group = groups[at[g]];
        assert(classes[g] == group);
        let (x, y) = (group[k] as int, group[l] as int);
        assert(group[k] < reps.len() && group[l] < reps.len());
        assert(group.contains(x as usize) && group.contains(y as usize));
        assert(reps[x] == reps[y]);
        assert forall|p: int| 0 <= p < pairs.len() implies related(
            edge(units, #[trigger] pairs[p]).0,
            edge(units, pairs[p]).1,
        ) by {
            let (a, b) = edge(units, pairs[p]);
            assert(endpoints_known(units, pairs[p]));
            lemma_last_at(units, pairs[p].a, units.len(), a);
            lemma_last_at(units, pairs[p].b, units.len(), b);
            assert(is_last_at(units, pairs[p].a, a) && is_last_at(units, pairs[p].b, b));
        }
        lemma_classes_are_no_larger_than_linked(units, pairs, pairs.len(), x, y, related);
    }
}

} // verus!
