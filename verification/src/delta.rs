//! The delta engine: what a change introduced, relative to its merge-base.
//!
//! Every other layer in this crate answers "how much duplication is in this
//! tree?" — a large number, mostly pre-existing, and barely different between one
//! commit and the next. This module asks the question that is actually
//! actionable: **did this diff make it worse?** It never re-scans anything. It
//! takes a [`Report`] computed from the branch and one computed from the
//! merge-base, and reports only what the first has that the second did not.
//!
//! # Why a delta beats a committed baseline or an allowlist file
//!
//! - **Clone findings are combinatorial.** An unrelated edit to *either* side of
//!   a pair changes a pair's position without changing whether it is duplication.
//!   A baseline keyed on anything less stable than a content hash goes stale on
//!   nearly every change that touches either file.
//! - **The merge-base delta needs no human-maintained state at all.**
//!
//! # What makes a finding new
//!
//! A clone pair is new where the base has no pair of the same two bodies, and a
//! block where the base has no block of the same fragment. Neither depends on the
//! files or the lines that the code stands in.
//!
//! # Known limitation: vocabulary identity is file-based
//!
//! A module has no single body to hash the way a function or a code fragment does.
//! [`VocabPair::key`] is keyed on the two file paths, so **renaming a file makes
//! its vocabulary pairs look new.** A false "new" finding on a rename is a
//! nuisance a reader can dismiss in one glance, a far cheaper failure mode than
//! a fuzzy match that occasionally, silently, matches the wrong pair.

use vstd::prelude::*;
use vstd::string::*;

use crate::annotate::{
    cells, warning_at, Annotation, AnnotationView, PieceView, Summary,
};
use crate::keys::{last_key, lemma_last_key, Key, KeyIndex, KeyView};
use crate::ratio::{lemma_percent_is_nearest, Ratio};
use crate::report::{
    copy_blocks, copy_clones, copy_vocab, lemma_clone_key_ignores_sides,
    lemma_clone_key_is_the_two_bodies, lemma_vocab_key_is_the_two_files, sum_of_three, BlockPair,
    BlockRef, BlockRefView, BlockView, ClonePair, CloneView, LongestBlock, Report, ReportView,
    StrongestClone, StrongestVocab, UnitRef, UnitRefView, VocabPair, VocabView,
};
use crate::sort::{
    in_order, lemma_filter_in_order, lemma_filter_keeps, lemma_filter_member, lemma_sorted,
    lemma_sorted_holds, sort, sorted, views, Order,
};
use crate::text::{
    decimal, lacks, lemma_decimal_is_digits, lemma_decimal_tells_numbers_apart,
    lemma_split_at_last, push_decimal,
};

verus! {

/// Why a vocabulary pair is being reported.
#[derive(Debug, Clone, Copy, PartialEq)]
pub enum VocabChange {
    /// The pair did not exist in the base report at all.
    New,
    /// The pair existed, but neither side had lost its inbound imports before.
    BecameUnreferenced,
    /// The pair existed and its overlap grew materially.
    Worsened {
        /// Overlap in the base report.
        from: Ratio,
        /// Overlap in the head report.
        to: Ratio,
    },
}

/// What a [`VocabFinding`] holds.
#[verifier::ext_equal]
pub struct FindingView {
    /// Why this pair is being reported.
    pub change: VocabChange,
    /// The pair itself.
    pub pair: VocabView,
}

/// A vocabulary finding, with the reason it is being reported.
#[derive(Debug, PartialEq)]
pub struct VocabFinding {
    /// Why this pair is being reported.
    pub change: VocabChange,
    /// The pair itself, as it reads in the head report.
    pub pair: VocabPair,
}

impl View for VocabFinding {
    type V = FindingView;

    open spec fn view(&self) -> FindingView {
        FindingView { change: self.change, pair: self.pair@ }
    }
}

impl Clone for VocabFinding {
    fn clone(&self) -> (f: Self)
        ensures
            f@ == self@,
    {
        VocabFinding { change: self.change, pair: self.pair.clone() }
    }
}

/// What a delta holds.
#[verifier::ext_equal]
pub struct DeltaView {
    /// Clone pairs present in the head report but absent from the base.
    pub new_clones: Seq<CloneView>,
    /// Vocabulary pairs that are new, newly unreferenced, or worsened.
    pub vocab: Seq<FindingView>,
    /// Block pairs of the head report whose fragment the base report does not have.
    pub new_blocks: Seq<BlockView>,
}

/// What a change introduced, relative to its merge-base.
#[derive(Debug, PartialEq)]
pub struct Delta {
    /// Clone pairs present in the head report but absent from the base.
    pub new_clones: Vec<ClonePair>,
    /// Vocabulary pairs that are new, newly unreferenced, or worsened.
    pub vocab: Vec<VocabFinding>,
    /// Block pairs of the head report whose fragment the base report does not have.
    pub new_blocks: Vec<BlockPair>,
}

impl View for Delta {
    type V = DeltaView;

    open spec fn view(&self) -> DeltaView {
        DeltaView {
            new_clones: views(self.new_clones@),
            vocab: views(self.vocab@),
            new_blocks: views(self.new_blocks@),
        }
    }
}

/// A delta of nothing.
pub open spec fn empty_delta() -> DeltaView {
    DeltaView { new_clones: Seq::empty(), vocab: Seq::empty(), new_blocks: Seq::empty() }
}

impl Default for Delta {
    fn default() -> (d: Self)
        ensures
            d@ == empty_delta(),
    {
        let d = Delta { new_clones: Vec::new(), vocab: Vec::new(), new_blocks: Vec::new() };
        assert(d@ =~= empty_delta());
        d
    }
}

fn copy_findings(list: &Vec<VocabFinding>) -> (r: Vec<VocabFinding>)
    ensures
        views(r@) == views(list@),
{
    let mut r: Vec<VocabFinding> = Vec::new();
    let mut i: usize = 0;
    while i < list.len()
        invariant
            i <= list@.len(),
            views(r@) == views(list@).take(i as int),
        decreases list.len() - i,
    {
        let ghost before = views(r@);
        r.push(list[i].clone());
        assert(views(r@) =~= before.push(list@[i as int]@));
        i += 1;
        assert(views(r@) =~= views(list@).take(i as int));
    }
    assert(views(r@) =~= views(list@));
    r
}

impl Clone for Delta {
    fn clone(&self) -> (d: Self)
        ensures
            d@ == self@,
    {
        Delta {
            new_clones: copy_clones(&self.new_clones),
            vocab: copy_findings(&self.vocab),
            new_blocks: copy_blocks(&self.new_blocks),
        }
    }
}

/// Tuning for [`Delta::compute`].
#[derive(Debug, Clone, Copy)]
pub struct DeltaOptions {
    /// Only report clone pairs at or above this similarity.
    pub min_similarity: Ratio,
    /// How much an existing vocabulary pair's overlap must grow to count as
    /// worsened. A growth of exactly this amount is still noise; the excess
    /// must be strictly greater.
    pub worsened_delta: Ratio,
    /// Cap on findings reported per category. `None` means no cap. `Some(0)`
    /// means report nothing in that category — zero is a real value here,
    /// not a stand-in for "unlimited".
    pub max_findings: Option<usize>,
}

// ----------------------------------------------------------------------- computing

/// At most `max` of a list, from its front.
pub open spec fn at_most<A>(s: Seq<A>, max: Option<usize>) -> Seq<A> {
    match max {
        Some(n) => if n < s.len() {
            s.take(n as int)
        } else {
            s
        },
        None => s,
    }
}

/// A clone pair of this identity is in the list.
pub open spec fn has_clone(clones: Seq<CloneView>, key: (Seq<char>, Seq<char>)) -> bool {
    exists|i: int| 0 <= i < clones.len() && (#[trigger] clones[i]).key() == key
}

/// A block pair of this fragment is in the list, in whatever files.
pub open spec fn has_fragment(blocks: Seq<BlockView>, hash: Seq<char>) -> bool {
    exists|i: int| 0 <= i < blocks.len() && (#[trigger] blocks[i]).hash == hash
}

/// The clone pairs that are similar enough and were not there before.
pub open spec fn fresh_clones(
    head: Seq<CloneView>,
    base: Seq<CloneView>,
    min: Ratio,
) -> Seq<CloneView> {
    head.filter(|p: CloneView| min.le(p.similarity) && !has_clone(base, p.key()))
}

/// The block pairs whose fragment was not duplicated before.
pub open spec fn fresh_blocks(head: Seq<BlockView>, base: Seq<BlockView>) -> Seq<BlockView> {
    head.filter(|p: BlockView| !has_fragment(base, p.hash))
}

/// The last vocabulary pair of this identity among the first `n`, if there is one.
pub open spec fn vocab_before(
    base: Seq<VocabView>,
    key: (Seq<char>, Seq<char>),
    n: nat,
) -> Option<VocabView>
    decreases n,
{
    if n == 0 {
        None
    } else if base[n - 1].key() == key {
        Some(base[n - 1])
    } else {
        vocab_before(base, key, (n - 1) as nat)
    }
}

/// Why a pair that existed before is reported, if it is.
pub open spec fn change_since(
    pair: VocabView,
    base: VocabView,
    worsened_delta: Ratio,
) -> Option<VocabChange> {
    if pair.zero_inbound && !base.zero_inbound {
        Some(VocabChange::BecameUnreferenced)
    } else if pair.overlap.beyond(base.overlap, worsened_delta) {
        Some(VocabChange::Worsened { from: base.overlap, to: pair.overlap })
    } else {
        None
    }
}

/// Why a pair is reported, if it is.
pub open spec fn change_of(
    pair: VocabView,
    base: Seq<VocabView>,
    worsened_delta: Ratio,
) -> Option<VocabChange> {
    match vocab_before(base, pair.key(), base.len()) {
        None => Some(VocabChange::New),
        Some(before) => change_since(pair, before, worsened_delta),
    }
}

/// The pairs that are new, newly unreferenced, or worsened.
pub open spec fn vocab_changes(
    head: Seq<VocabView>,
    base: Seq<VocabView>,
    worsened_delta: Ratio,
) -> Seq<FindingView>
    decreases head.len(),
{
    if head.len() == 0 {
        Seq::empty()
    } else {
        let before = vocab_changes(head.drop_last(), base, worsened_delta);
        match change_of(head.last(), base, worsened_delta) {
            Some(change) => before.push(FindingView { change, pair: head.last() }),
            None => before,
        }
    }
}

/// What `head` has that `base` did not.
pub open spec fn delta_of(head: ReportView, base: ReportView, options: DeltaOptions) -> DeltaView {
    DeltaView {
        new_clones: at_most(
            fresh_clones(
                sorted::<ClonePair, StrongestClone>(head.clones),
                base.clones,
                options.min_similarity,
            ),
            options.max_findings,
        ),
        vocab: at_most(
            vocab_changes(
                sorted::<VocabPair, StrongestVocab>(head.vocab),
                base.vocab,
                options.worsened_delta,
            ),
            options.max_findings,
        ),
        new_blocks: at_most(
            fresh_blocks(sorted::<BlockPair, LongestBlock>(head.blocks), base.blocks),
            options.max_findings,
        ),
    }
}

/// Decide whether a vocabulary pair that exists in *both* reports should be
/// reported, and why. `None` means nothing material changed and the pair
/// stays silent.
///
/// "Became unreferenced" is checked ahead of "worsened": a pair that lost
/// its last importer *and* grew its overlap in the same diff is far more
/// actionable framed as "this is now dead code duplicating a live module's
/// vocabulary" than as a percentage change.
fn vocab_change_for_existing(pair: &VocabPair, base: &VocabPair, worsened_delta: &Ratio) -> (c:
    Option<VocabChange>)
    ensures
        c == change_since(pair@, base@, *worsened_delta),
{
    if pair.zero_inbound && !base.zero_inbound {
        return Some(VocabChange::BecameUnreferenced);
    }
    if pair.overlap.exceeds_by(&base.overlap, worsened_delta) {
        return Some(VocabChange::Worsened { from: base.overlap, to: pair.overlap });
    }
    None
}

spec fn clone_keys(clones: Seq<CloneView>) -> Seq<KeyView> {
    Seq::new(clones.len(), |i: int| clones[i].key())
}

spec fn vocab_keys(vocab: Seq<VocabView>) -> Seq<KeyView> {
    Seq::new(vocab.len(), |i: int| vocab[i].key())
}

spec fn block_keys(blocks: Seq<BlockView>) -> Seq<KeyView> {
    Seq::new(blocks.len(), |i: int| (blocks[i].hash, Seq::empty()))
}

fn index_clones(clones: &Vec<ClonePair>) -> (index: KeyIndex)
    ensures
        index.wf(),
        index@ == clone_keys(views(clones@)),
{
    let ghost goal = clone_keys(views(clones@));
    let mut index = KeyIndex::new();
    let mut i: usize = 0;
    while i < clones.len()
        invariant
            i <= clones@.len(),
            goal == clone_keys(views(clones@)),
            index.wf(),
            index@ == goal.take(i as int),
        decreases clones.len() - i,
    {
        let (a, b) = clones[i].key();
        index.add(Key { first: a.to_string(), second: b.to_string() });
        i += 1;
        assert(index@ =~= goal.take(i as int));
    }
    assert(goal.take(i as int) =~= goal);
    index
}

fn index_vocab(vocab: &Vec<VocabPair>) -> (index: KeyIndex)
    ensures
        index.wf(),
        index@ == vocab_keys(views(vocab@)),
{
    let ghost goal = vocab_keys(views(vocab@));
    let mut index = KeyIndex::new();
    let mut i: usize = 0;
    while i < vocab.len()
        invariant
            i <= vocab@.len(),
            goal == vocab_keys(views(vocab@)),
            index.wf(),
            index@ == goal.take(i as int),
        decreases vocab.len() - i,
    {
        let (a, b) = vocab[i].key();
        index.add(Key { first: a, second: b });
        i += 1;
        assert(index@ =~= goal.take(i as int));
    }
    assert(goal.take(i as int) =~= goal);
    index
}

fn index_blocks(blocks: &Vec<BlockPair>) -> (index: KeyIndex)
    ensures
        index.wf(),
        index@ == block_keys(views(blocks@)),
{
    let ghost goal = block_keys(views(blocks@));
    let mut index = KeyIndex::new();
    let mut i: usize = 0;
    while i < blocks.len()
        invariant
            i <= blocks@.len(),
            goal == block_keys(views(blocks@)),
            index.wf(),
            index@ == goal.take(i as int),
        decreases blocks.len() - i,
    {
        let none = String::new();
        assert(none@ =~= Seq::empty());
        index.add(Key { first: blocks[i].hash.to_string(), second: none });
        i += 1;
        assert(index@ =~= goal.take(i as int));
    }
    assert(goal.take(i as int) =~= goal);
    index
}

proof fn lemma_clone_lookup(clones: Seq<CloneView>, key: (Seq<char>, Seq<char>))
    ensures
        has_clone(clones, key) <==> last_key(clone_keys(clones), key, clones.len()) >= 0,
{
    let keys = clone_keys(clones);
    lemma_last_key(keys, key, clones.len());
    let at = last_key(keys, key, clones.len());
    if at >= 0 {
        assert(clones[at].key() == key);
    }
    if has_clone(clones, key) {
        let i = choose|i: int| 0 <= i < clones.len() && (#[trigger] clones[i]).key() == key;
        assert(keys[i] == key);
    }
}

proof fn lemma_block_lookup(blocks: Seq<BlockView>, hash: Seq<char>)
    ensures
        has_fragment(blocks, hash) <==> last_key(
            block_keys(blocks),
            (hash, Seq::empty()),
            blocks.len(),
        ) >= 0,
{
    let keys = block_keys(blocks);
    let wanted: KeyView = (hash, Seq::empty());
    lemma_last_key(keys, wanted, blocks.len());
    let at = last_key(keys, wanted, blocks.len());
    if at >= 0 {
        assert(blocks[at].hash == hash);
    }
    if has_fragment(blocks, hash) {
        let i = choose|i: int| 0 <= i < blocks.len() && (#[trigger] blocks[i]).hash == hash;
        assert(keys[i] == wanted);
    }
}

proof fn lemma_vocab_lookup(vocab: Seq<VocabView>, key: (Seq<char>, Seq<char>), n: nat)
    requires
        n <= vocab.len(),
    ensures
        ({
            let at = last_key(vocab_keys(vocab), key, n);
            vocab_before(vocab, key, n) == (if at >= 0 {
                Some(vocab[at])
            } else {
                None
            })
        }),
    decreases n,
{
    if n > 0 {
        lemma_vocab_lookup(vocab, key, (n - 1) as nat);
        assert(vocab_keys(vocab)[n - 1] == vocab[n - 1].key());
    }
}

fn take_fresh_clones(head: &Vec<ClonePair>, base: &Vec<ClonePair>, min: &Ratio) -> (out: Vec<
    ClonePair,
>)
    ensures
        views(out@) == fresh_clones(views(head@), views(base@), *min),
{
    let ghost (all, old_clones) = (views(head@), views(base@));
    let ghost fresh = |p: CloneView| min.le(p.similarity) && !has_clone(old_clones, p.key());
    let index = index_clones(base);
    let mut out: Vec<ClonePair> = Vec::new();
    let mut i: usize = 0;
    proof {
        reveal(Seq::filter);
        assert(all.take(0) =~= Seq::empty());
        assert(views(out@) =~= all.take(0).filter(fresh));
    }
    while i < head.len()
        invariant
            i <= head@.len(),
            all == views(head@),
            old_clones == views(base@),
            fresh == (|p: CloneView| min.le(p.similarity) && !has_clone(old_clones, p.key())),
            index.wf(),
            index@ == clone_keys(old_clones),
            views(out@) == all.take(i as int).filter(fresh),
        decreases head.len() - i,
    {
        let ghost before = views(out@);
        let pair = &head[i];
        let (a, b) = pair.key();
        proof {
            reveal(Seq::filter);
            assert(all.take(i + 1).drop_last() =~= all.take(i as int));
            lemma_clone_lookup(old_clones, all[i as int].key());
        }
        if min.at_most(&pair.similarity) && index.find(a.as_str(), b.as_str()).is_none() {
            out.push(pair.clone());
            assert(views(out@) =~= before.push(all[i as int]));
        }
        i += 1;
    }
    assert(all.take(i as int) =~= all);
    out
}

fn take_fresh_blocks(head: &Vec<BlockPair>, base: &Vec<BlockPair>) -> (out: Vec<BlockPair>)
    ensures
        views(out@) == fresh_blocks(views(head@), views(base@)),
{
    let ghost (all, old_blocks) = (views(head@), views(base@));
    let ghost fresh = |p: BlockView| !has_fragment(old_blocks, p.hash);
    let index = index_blocks(base);
    let mut out: Vec<BlockPair> = Vec::new();
    let mut i: usize = 0;
    proof {
        reveal(Seq::filter);
        assert(all.take(0) =~= Seq::empty());
        assert(views(out@) =~= all.take(0).filter(fresh));
    }
    while i < head.len()
        invariant
            i <= head@.len(),
            all == views(head@),
            old_blocks == views(base@),
            fresh == (|p: BlockView| !has_fragment(old_blocks, p.hash)),
            index.wf(),
            index@ == block_keys(old_blocks),
            views(out@) == all.take(i as int).filter(fresh),
        decreases head.len() - i,
    {
        let ghost before = views(out@);
        let pair = &head[i];
        proof {
            reveal(Seq::filter);
            assert(all.take(i + 1).drop_last() =~= all.take(i as int));
            lemma_block_lookup(old_blocks, all[i as int].hash);
            reveal_strlit("");
            assert(""@ =~= Seq::empty());
        }
        if index.find(pair.hash.as_str(), "").is_none() {
            out.push(pair.clone());
            assert(views(out@) =~= before.push(all[i as int]));
        }
        i += 1;
    }
    assert(all.take(i as int) =~= all);
    out
}

fn take_vocab_changes(
    head: &Vec<VocabPair>,
    base: &Vec<VocabPair>,
    worsened_delta: &Ratio,
) -> (out: Vec<VocabFinding>)
    ensures
        views(out@) == vocab_changes(views(head@), views(base@), *worsened_delta),
{
    let ghost (all, old_vocab) = (views(head@), views(base@));
    let index = index_vocab(base);
    let mut out: Vec<VocabFinding> = Vec::new();
    let mut i: usize = 0;
    assert(all.take(0) =~= Seq::empty());
    assert(views(out@) =~= Seq::empty());
    while i < head.len()
        invariant
            i <= head@.len(),
            all == views(head@),
            old_vocab == views(base@),
            index.wf(),
            index@ == vocab_keys(old_vocab),
            views(out@) == vocab_changes(all.take(i as int), old_vocab, *worsened_delta),
        decreases head.len() - i,
    {
        let ghost before = views(out@);
        let pair = &head[i];
        let (a, b) = pair.key();
        proof {
            assert(all.take(i + 1).drop_last() =~= all.take(i as int));
            lemma_vocab_lookup(old_vocab, all[i as int].key(), old_vocab.len());
        }
        let change = match index.find(a.as_str(), b.as_str()) {
            None => Some(VocabChange::New),
            Some(k) => {
                assert(old_vocab[k as int] == base@[k as int]@);
                vocab_change_for_existing(pair, &base[k], worsened_delta)
            },
        };
        assert(change == change_of(all[i as int], old_vocab, *worsened_delta));
        if let Some(change) = change {
            out.push(VocabFinding { change, pair: pair.clone() });
            assert(views(out@) =~= before.push(FindingView { change, pair: all[i as int] }));
        }
        i += 1;
    }
    assert(all.take(i as int) =~= all);
    out
}

/// Truncate `items` to `max`, in place. `None` leaves it untouched.
///
/// "`Some(0)` truncates to nothing, `None` does not truncate at all" is exactly
/// the kind of thing that is easy to get backwards once and never notice, so it
/// stands in one place.
fn truncate<T: View>(items: &mut Vec<T>, max: Option<usize>)
    ensures
        views(final(items)@) == at_most(views(old(items)@), max),
{
    if let Some(max) = max {
        if max < items.len() {
            items.truncate(max);
        }
    }
    assert(views(items@) =~= at_most(views(old(items)@), max));
}

impl Delta {
    /// Compute what `head` has that `base` did not.
    ///
    /// Findings are reported in strongest-first order: the findings of `head` are
    /// put in order here, rather than trusting that the caller already sorted
    /// them, so `max_findings` truncation is correct even when they weren't.
    pub fn compute(head: &Report, base: &Report, options: &DeltaOptions) -> (d: Delta)
        ensures
            d@ == delta_of(head@, base@, *options),
            tells_what_is_new(d@, head@, base@, *options),
    {
        let clones = sort::<ClonePair, StrongestClone>(copy_clones(&head.clones));
        let mut new_clones = take_fresh_clones(&clones, &base.clones, &options.min_similarity);
        truncate(&mut new_clones, options.max_findings);

        let pairs = sort::<VocabPair, StrongestVocab>(copy_vocab(&head.vocab));
        let mut vocab = take_vocab_changes(&pairs, &base.vocab, &options.worsened_delta);
        truncate(&mut vocab, options.max_findings);

        let blocks = sort::<BlockPair, LongestBlock>(copy_blocks(&head.blocks));
        let mut new_blocks = take_fresh_blocks(&blocks, &base.blocks);
        truncate(&mut new_blocks, options.max_findings);

        proof {
            lemma_the_delta_tells_what_is_new(head@, base@, *options);
        }
        Delta { new_clones, vocab, new_blocks }
    }

    /// Whether nothing new was found in any category.
    pub fn is_empty(&self) -> (r: bool)
        ensures
            r == (self@.new_clones.len() == 0 && self@.vocab.len() == 0 && self@.new_blocks.len()
                == 0),
    {
        self.new_clones.len() == 0 && self.vocab.len() == 0 && self.new_blocks.len() == 0
    }

    /// Total findings across all three categories.
    pub fn finding_count(&self) -> (n: usize)
        ensures
            n == self@.count(),
    {
        self.new_clones.len().saturating_add(self.vocab.len()).saturating_add(
            self.new_blocks.len(),
        )
    }
}

// ----------------------------------------------------------------------- messages

/// A score as a whole percentage.
pub open spec fn percent_text(score: Ratio) -> Seq<char> {
    decimal(score.spec_percent() as nat) + "%"@
}

/// A stretch of lines in a file: `file:start-end`.
pub open spec fn place_text(file: Seq<char>, start: nat, end: nat) -> Seq<char> {
    file + ":"@ + decimal(start) + "-"@ + decimal(end)
}

/// What one side of a clone pair is told of the other.
pub open spec fn clone_message(similarity: Ratio, other: UnitRefView) -> Seq<char> {
    percent_text(similarity) + " duplicate of `"@ + other.qualname + "` at "@ + place_text(
        other.file,
        other.start_line,
        other.end_line,
    )
}

/// What one side of a block pair is told of the other.
pub open spec fn block_message(tokens: nat, other: BlockRefView) -> Seq<char> {
    decimal(tokens) + " normalized tokens duplicated at "@ + place_text(
        other.file,
        other.start_line,
        other.end_line,
    )
}

/// What a vocabulary finding says.
pub open spec fn vocab_text(finding: FindingView) -> Seq<char> {
    let pair = finding.pair;
    match finding.change {
        VocabChange::New => "new vocabulary overlap with "@ + pair.b + ": "@ + percent_text(
            pair.overlap,
        ) + " ("@ + decimal(pair.shared) + " shared identifiers)"@,
        VocabChange::BecameUnreferenced => "vocabulary overlap with "@ + pair.b + " ("@
            + percent_text(pair.overlap)
            + ") and neither side has inbound imports anymore"@,
        VocabChange::Worsened { from, to } => "vocabulary overlap with "@ + pair.b
            + " grew from "@ + percent_text(from) + " to "@ + percent_text(to),
    }
}

/// One word or two for why a pair is reported.
pub open spec fn change_label(change: VocabChange) -> Seq<char> {
    match change {
        VocabChange::New => "new"@,
        VocabChange::BecameUnreferenced => "became unreferenced"@,
        VocabChange::Worsened { from, to } => "worsened"@,
    }
}

fn push_percent(out: &mut String, score: &Ratio)
    ensures
        final(out)@ == old(out)@ + percent_text(*score),
{
    push_decimal(out, score.percent());
    out.append("%");
    assert(out@ =~= old(out)@ + percent_text(*score));
}

fn push_place(out: &mut String, file: &str, start: usize, end: usize)
    ensures
        final(out)@ == old(out)@ + place_text(file@, start as nat, end as nat),
{
    out.append(file);
    out.append(":");
    push_decimal(out, start as u128);
    out.append("-");
    push_decimal(out, end as u128);
    assert(out@ =~= old(out)@ + place_text(file@, start as nat, end as nat));
}

fn clone_side_message(similarity: &Ratio, other: &UnitRef) -> (s: String)
    ensures
        s@ == clone_message(*similarity, other@),
{
    let mut s = String::new();
    push_percent(&mut s, similarity);
    s.append(" duplicate of `");
    s.append(other.qualname.as_str());
    s.append("` at ");
    push_place(&mut s, other.file.as_str(), other.start_line, other.end_line);
    assert(s@ =~= clone_message(*similarity, other@));
    s
}

fn block_side_message(tokens: usize, other: &BlockRef) -> (s: String)
    ensures
        s@ == block_message(tokens as nat, other@),
{
    let mut s = String::new();
    push_decimal(&mut s, tokens as u128);
    s.append(" normalized tokens duplicated at ");
    push_place(&mut s, other.file.as_str(), other.start_line, other.end_line);
    assert(s@ =~= block_message(tokens as nat, other@));
    s
}

fn vocab_message(finding: &VocabFinding) -> (s: String)
    ensures
        s@ == vocab_text(finding@),
{
    let pair = &finding.pair;
    let mut s = String::new();
    match finding.change {
        VocabChange::New => {
            s.append("new vocabulary overlap with ");
            s.append(pair.b.as_str());
            s.append(": ");
            push_percent(&mut s, &pair.overlap);
            s.append(" (");
            push_decimal(&mut s, pair.shared as u128);
            s.append(" shared identifiers)");
        },
        VocabChange::BecameUnreferenced => {
            s.append("vocabulary overlap with ");
            s.append(pair.b.as_str());
            s.append(" (");
            push_percent(&mut s, &pair.overlap);
            s.append(") and neither side has inbound imports anymore");
        },
        VocabChange::Worsened { from, to } => {
            s.append("vocabulary overlap with ");
            s.append(pair.b.as_str());
            s.append(" grew from ");
            push_percent(&mut s, &from);
            s.append(" to ");
            push_percent(&mut s, &to);
        },
    }
    assert(s@ =~= vocab_text(finding@));
    s
}

fn vocab_change_label(change: &VocabChange) -> (s: &'static str)
    ensures
        s@ == change_label(*change),
{
    match change {
        VocabChange::New => "new",
        VocabChange::BecameUnreferenced => "became unreferenced",
        VocabChange::Worsened { .. } => "worsened",
    }
}

// -------------------------------------------------------------------- annotations

/// The annotations of the clone pairs: for each, one on either side.
pub open spec fn clone_annotations(pairs: Seq<CloneView>) -> Seq<AnnotationView>
    decreases pairs.len(),
{
    if pairs.len() == 0 {
        Seq::empty()
    } else {
        let p = pairs.last();
        clone_annotations(pairs.drop_last()).push(
            warning_at(p.a.file, Some(p.a.start_line as usize), clone_message(p.similarity, p.b)),
        ).push(warning_at(p.b.file, Some(p.b.start_line as usize), clone_message(p.similarity, p.a)))
    }
}

/// The annotations of the vocabulary findings: one each, on the first file.
pub open spec fn vocab_annotations(findings: Seq<FindingView>) -> Seq<AnnotationView>
    decreases findings.len(),
{
    if findings.len() == 0 {
        Seq::empty()
    } else {
        vocab_annotations(findings.drop_last()).push(
            warning_at(findings.last().pair.a, None, vocab_text(findings.last())),
        )
    }
}

/// The annotations of the block pairs: for each, one on either side.
pub open spec fn block_annotations(pairs: Seq<BlockView>) -> Seq<AnnotationView>
    decreases pairs.len(),
{
    if pairs.len() == 0 {
        Seq::empty()
    } else {
        let p = pairs.last();
        block_annotations(pairs.drop_last()).push(
            warning_at(p.a.file, Some(p.a.start_line as usize), block_message(p.tokens, p.b)),
        ).push(warning_at(p.b.file, Some(p.b.start_line as usize), block_message(p.tokens, p.a)))
    }
}

// ------------------------------------------------------------------------ summary

/// One clone pair's cells.
pub open spec fn clone_row(p: CloneView) -> Seq<Seq<char>> {
    seq![percent_text(p.similarity), named_place(p.a), named_place(p.b)]
}

/// A unit's lines and its name.
pub open spec fn named_place(u: UnitRefView) -> Seq<char> {
    place_text(u.file, u.start_line, u.end_line) + " (`"@ + u.qualname + "`)"@
}

/// One vocabulary finding's cells.
pub open spec fn vocab_row(f: FindingView) -> Seq<Seq<char>> {
    seq![change_label(f.change), f.pair.a, f.pair.b, percent_text(f.pair.overlap)]
}

/// One block pair's cells.
pub open spec fn block_row(p: BlockView) -> Seq<Seq<char>> {
    seq![
        decimal(p.tokens) + " tokens"@,
        place_text(p.a.file, p.a.start_line, p.a.end_line),
        place_text(p.b.file, p.b.start_line, p.b.end_line),
    ]
}

/// The section of the summary on clone pairs: none where there are none.
pub open spec fn clone_section(pairs: Seq<CloneView>) -> Seq<PieceView> {
    if pairs.len() == 0 {
        Seq::empty()
    } else {
        seq![
            PieceView::Heading(3, "New clone pairs"@),
            PieceView::Table(
                seq!["Similarity"@, "A"@, "B"@],
                pairs.map_values(|p: CloneView| clone_row(p)),
            ),
        ]
    }
}

/// The section of the summary on vocabulary: none where there is nothing to say.
pub open spec fn vocab_section(findings: Seq<FindingView>) -> Seq<PieceView> {
    if findings.len() == 0 {
        Seq::empty()
    } else {
        seq![
            PieceView::Heading(3, "Vocabulary findings"@),
            PieceView::Table(
                seq!["Change"@, "A"@, "B"@, "Overlap"@],
                findings.map_values(|f: FindingView| vocab_row(f)),
            ),
        ]
    }
}

/// The section of the summary on blocks: none where there are none.
pub open spec fn block_section(pairs: Seq<BlockView>) -> Seq<PieceView> {
    if pairs.len() == 0 {
        Seq::empty()
    } else {
        seq![
            PieceView::Heading(3, "New duplicated blocks"@),
            PieceView::Table(
                seq!["Size"@, "A"@, "B"@],
                pairs.map_values(|p: BlockView| block_row(p)),
            ),
        ]
    }
}

fn push_clone_rows(pairs: &Vec<ClonePair>) -> (rows: Vec<Vec<String>>)
    ensures
        cells(rows@) == views(pairs@).map_values(|p: CloneView| clone_row(p)),
        forall|i: int| 0 <= i < rows@.len() ==> (#[trigger] rows@[i])@.len() == 3,
{
    let ghost goal = views(pairs@).map_values(|p: CloneView| clone_row(p));
    let mut rows: Vec<Vec<String>> = Vec::new();
    let mut i: usize = 0;
    while i < pairs.len()
        invariant
            i <= pairs@.len(),
            goal == views(pairs@).map_values(|p: CloneView| clone_row(p)),
            cells(rows@) == goal.take(i as int),
            forall|k: int| 0 <= k < rows@.len() ==> (#[trigger] rows@[k])@.len() == 3,
        decreases pairs.len() - i,
    {
        let ghost held = cells(rows@);
        let pair = &pairs[i];
        let mut score = String::new();
        push_percent(&mut score, &pair.similarity);
        let row = vec![score, describe_unit(&pair.a), describe_unit(&pair.b)];
        assert(views(row@) =~= clone_row(pair@));
        rows.push(row);
        i += 1;
        proof {
            assert(cells(rows@) =~= held.push(clone_row(pair@)));
            assert(cells(rows@) =~= goal.take(i as int));
        }
    }
    assert(goal.take(i as int) =~= goal);
    rows
}

fn describe_unit(unit: &UnitRef) -> (s: String)
    ensures
        s@ == named_place(unit@),
{
    let mut s = String::new();
    push_place(&mut s, unit.file.as_str(), unit.start_line, unit.end_line);
    s.append(" (`");
    s.append(unit.qualname.as_str());
    s.append("`)");
    assert(s@ =~= named_place(unit@));
    s
}

fn describe_block(block: &BlockRef) -> (s: String)
    ensures
        s@ == place_text(block@.file, block@.start_line, block@.end_line),
{
    let mut s = String::new();
    push_place(&mut s, block.file.as_str(), block.start_line, block.end_line);
    assert(s@ =~= place_text(block@.file, block@.start_line, block@.end_line));
    s
}

fn push_vocab_rows(findings: &Vec<VocabFinding>) -> (rows: Vec<Vec<String>>)
    ensures
        cells(rows@) == views(findings@).map_values(|f: FindingView| vocab_row(f)),
        forall|i: int| 0 <= i < rows@.len() ==> (#[trigger] rows@[i])@.len() == 4,
{
    let ghost goal = views(findings@).map_values(|f: FindingView| vocab_row(f));
    let mut rows: Vec<Vec<String>> = Vec::new();
    let mut i: usize = 0;
    while i < findings.len()
        invariant
            i <= findings@.len(),
            goal == views(findings@).map_values(|f: FindingView| vocab_row(f)),
            cells(rows@) == goal.take(i as int),
            forall|k: int| 0 <= k < rows@.len() ==> (#[trigger] rows@[k])@.len() == 4,
        decreases findings.len() - i,
    {
        let ghost held = cells(rows@);
        let finding = &findings[i];
        let mut overlap = String::new();
        push_percent(&mut overlap, &finding.pair.overlap);
        let row = vec![
            vocab_change_label(&finding.change).to_owned(),
            finding.pair.a.clone(),
            finding.pair.b.clone(),
            overlap,
        ];
        assert(views(row@) =~= vocab_row(finding@));
        rows.push(row);
        i += 1;
        proof {
            assert(cells(rows@) =~= held.push(vocab_row(finding@)));
            assert(cells(rows@) =~= goal.take(i as int));
        }
    }
    assert(goal.take(i as int) =~= goal);
    rows
}

fn push_block_rows(pairs: &Vec<BlockPair>) -> (rows: Vec<Vec<String>>)
    ensures
        cells(rows@) == views(pairs@).map_values(|p: BlockView| block_row(p)),
        forall|i: int| 0 <= i < rows@.len() ==> (#[trigger] rows@[i])@.len() == 3,
{
    let ghost goal = views(pairs@).map_values(|p: BlockView| block_row(p));
    let mut rows: Vec<Vec<String>> = Vec::new();
    let mut i: usize = 0;
    while i < pairs.len()
        invariant
            i <= pairs@.len(),
            goal == views(pairs@).map_values(|p: BlockView| block_row(p)),
            cells(rows@) == goal.take(i as int),
            forall|k: int| 0 <= k < rows@.len() ==> (#[trigger] rows@[k])@.len() == 3,
        decreases pairs.len() - i,
    {
        let ghost held = cells(rows@);
        let pair = &pairs[i];
        let mut size = String::new();
        push_decimal(&mut size, pair.tokens as u128);
        size.append(" tokens");
        let row = vec![size, describe_block(&pair.a), describe_block(&pair.b)];
        assert(views(row@) =~= block_row(pair@));
        rows.push(row);
        i += 1;
        proof {
            assert(cells(rows@) =~= held.push(block_row(pair@)));
            assert(cells(rows@) =~= goal.take(i as int));
        }
    }
    assert(goal.take(i as int) =~= goal);
    rows
}

impl DeltaView {
    /// How many findings there are.
    pub open spec fn count(self) -> nat {
        sum_of_three(self.new_clones.len(), self.vocab.len(), self.new_blocks.len())
    }

    /// Nothing is new.
    pub open spec fn is_empty(self) -> bool {
        self.new_clones.len() == 0 && self.vocab.len() == 0 && self.new_blocks.len() == 0
    }

    /// What is shown in the files.
    pub open spec fn annotations(self) -> Seq<AnnotationView> {
        clone_annotations(self.new_clones) + vocab_annotations(self.vocab) + block_annotations(
            self.new_blocks,
        )
    }

    /// What is shown as a digest.
    pub open spec fn summary(self) -> Seq<PieceView> {
        let title = PieceView::Heading(2, "Duplication delta"@);
        if self.is_empty() {
            seq![title, PieceView::Paragraph("No new duplication vs the merge-base."@)]
        } else {
            seq![
                title,
                PieceView::Paragraph(
                    "New duplication introduced by this change, relative to its merge-base. Nothing here blocks a merge: extract the shared logic where that makes sense, or leave it if the similarity is coincidental."@,
                ),
            ] + clone_section(self.new_clones) + vocab_section(self.vocab) + block_section(
                self.new_blocks,
            )
        }
    }
}

impl Delta {
    /// One annotation per vocabulary finding; clone and block pairs each
    /// produce two, one anchored on each side, because a reader standing
    /// on either file needs the other file's location to judge the finding,
    /// and GitHub only renders an annotation on the file it names.
    pub fn annotations(&self) -> (out: Vec<Annotation>)
        ensures
            views(out@) == self@.annotations(),
    {
        let mut out: Vec<Annotation> = Vec::new();
        let ghost clones = self@.new_clones;
        let ghost vocab = self@.vocab;
        let ghost blocks = self@.new_blocks;
        let mut i: usize = 0;
        assert(clones.take(0) =~= Seq::empty());
        assert(views(out@) =~= clone_annotations(clones.take(0)));
        while i < self.new_clones.len()
            invariant
                i <= self.new_clones@.len(),
                clones == views(self.new_clones@),
                views(out@) == clone_annotations(clones.take(i as int)),
            decreases self.new_clones.len() - i,
        {
            let ghost held = views(out@);
            let pair = &self.new_clones[i];
            let first = Annotation::warning(
                pair.a.file.clone(),
                Some(pair.a.start_line),
                clone_side_message(&pair.similarity, &pair.b),
            );
            let second = Annotation::warning(
                pair.b.file.clone(),
                Some(pair.b.start_line),
                clone_side_message(&pair.similarity, &pair.a),
            );
            out.push(first);
            out.push(second);
            proof {
                assert(clones.take(i + 1).drop_last() =~= clones.take(i as int));
                assert(clones.take(i + 1).last() == pair@);
                assert(views(out@) =~= held.push(first@).push(second@));
            }
            i += 1;
        }
        assert(clones.take(i as int) =~= clones);
        let ghost after_clones = views(out@);
        let mut j: usize = 0;
        assert(vocab.take(0) =~= Seq::empty());
        assert(views(out@) =~= after_clones + vocab_annotations(vocab.take(0)));
        while j < self.vocab.len()
            invariant
                j <= self.vocab@.len(),
                vocab == views(self.vocab@),
                views(out@) == after_clones + vocab_annotations(vocab.take(j as int)),
            decreases self.vocab.len() - j,
        {
            let ghost held = views(out@);
            let finding = &self.vocab[j];
            let only = Annotation::warning(finding.pair.a.clone(), None, vocab_message(finding));
            out.push(only);
            proof {
                assert(vocab.take(j + 1).drop_last() =~= vocab.take(j as int));
                assert(vocab.take(j + 1).last() == finding@);
                assert(views(out@) =~= held.push(only@));
                assert(views(out@) =~= after_clones + vocab_annotations(vocab.take(j + 1)));
            }
            j += 1;
        }
        assert(vocab.take(j as int) =~= vocab);
        let ghost after_vocab = views(out@);
        let mut k: usize = 0;
        assert(blocks.take(0) =~= Seq::empty());
        assert(views(out@) =~= after_vocab + block_annotations(blocks.take(0)));
        while k < self.new_blocks.len()
            invariant
                k <= self.new_blocks@.len(),
                blocks == views(self.new_blocks@),
                views(out@) == after_vocab + block_annotations(blocks.take(k as int)),
            decreases self.new_blocks.len() - k,
        {
            let ghost held = views(out@);
            let pair = &self.new_blocks[k];
            let first = Annotation::warning(
                pair.a.file.clone(),
                Some(pair.a.start_line),
                block_side_message(pair.tokens, &pair.b),
            );
            let second = Annotation::warning(
                pair.b.file.clone(),
                Some(pair.b.start_line),
                block_side_message(pair.tokens, &pair.a),
            );
            out.push(first);
            out.push(second);
            proof {
                assert(blocks.take(k + 1).drop_last() =~= blocks.take(k as int));
                assert(blocks.take(k + 1).last() == pair@);
                assert(views(out@) =~= held.push(first@).push(second@));
                assert(views(out@) =~= after_vocab + block_annotations(blocks.take(k + 1)));
            }
            k += 1;
        }
        assert(blocks.take(k as int) =~= blocks);
        out
    }

    /// A markdown digest of the whole delta, for the GitHub Actions job
    /// summary. One table per non-empty category; empty categories are
    /// omitted rather than rendered as an empty table nobody needs to see.
    pub fn summary(&self) -> (summary: Summary)
        ensures
            summary@ == self@.summary(),
    {
        let mut summary = Summary::new();
        summary.heading(2, "Duplication delta");
        if self.is_empty() {
            summary.paragraph("No new duplication vs the merge-base.");
            assert(summary@ =~= self@.summary());
            return summary;
        }
        summary.paragraph(
            "New duplication introduced by this change, relative to its merge-base. Nothing here blocks a merge: extract the shared logic where that makes sense, or leave it if the similarity is coincidental.",
        );
        let ghost opened = summary@;
        if self.new_clones.len() > 0 {
            let rows = push_clone_rows(&self.new_clones);
            let headers = vec!["Similarity", "A", "B"];
            assert(views(headers@) =~= seq!["Similarity"@, "A"@, "B"@]);
            summary.heading(3, "New clone pairs");
            summary.table(headers.as_slice(), rows.as_slice());
        }
        assert(summary@ =~= opened + clone_section(self@.new_clones));
        let ghost opened = summary@;
        if self.vocab.len() > 0 {
            let rows = push_vocab_rows(&self.vocab);
            let headers = vec!["Change", "A", "B", "Overlap"];
            assert(views(headers@) =~= seq!["Change"@, "A"@, "B"@, "Overlap"@]);
            summary.heading(3, "Vocabulary findings");
            summary.table(headers.as_slice(), rows.as_slice());
        }
        assert(summary@ =~= opened + vocab_section(self@.vocab));
        let ghost opened = summary@;
        if self.new_blocks.len() > 0 {
            let rows = push_block_rows(&self.new_blocks);
            let headers = vec!["Size", "A", "B"];
            assert(views(headers@) =~= seq!["Size"@, "A"@, "B"@]);
            summary.heading(3, "New duplicated blocks");
            summary.table(headers.as_slice(), rows.as_slice());
        }
        assert(summary@ =~= opened + block_section(self@.new_blocks));
        summary
    }
}

// --------------------------------------------------------------------------- laws

proof fn lemma_kept<A>(s: Seq<A>, max: Option<usize>)
    ensures
        at_most(s, max).len() <= s.len(),
        forall|k: int| 0 <= k < at_most(s, max).len() ==> #[trigger] at_most(s, max)[k] == s[k],
{
}

proof fn lemma_vocab_member(
    head: Seq<VocabView>,
    base: Seq<VocabView>,
    worsened_delta: Ratio,
    k: int,
) -> (i: int)
    requires
        0 <= k < vocab_changes(head, base, worsened_delta).len(),
    ensures
        0 <= i < head.len(),
        vocab_changes(head, base, worsened_delta)[k].pair == head[i],
        change_of(head[i], base, worsened_delta) == Some(
            vocab_changes(head, base, worsened_delta)[k].change,
        ),
    decreases head.len(),
{
    let before = vocab_changes(head.drop_last(), base, worsened_delta);
    if k < before.len() {
        lemma_vocab_member(head.drop_last(), base, worsened_delta, k)
    } else {
        head.len() - 1
    }
}

proof fn lemma_vocab_kept(
    head: Seq<VocabView>,
    base: Seq<VocabView>,
    worsened_delta: Ratio,
    i: int,
) -> (k: int)
    requires
        0 <= i < head.len(),
        change_of(head[i], base, worsened_delta) is Some,
    ensures
        0 <= k < vocab_changes(head, base, worsened_delta).len(),
        vocab_changes(head, base, worsened_delta)[k] == (FindingView {
            change: change_of(head[i], base, worsened_delta).unwrap(),
            pair: head[i],
        }),
    decreases head.len(),
{
    let before = vocab_changes(head.drop_last(), base, worsened_delta);
    if i < head.len() - 1 {
        lemma_vocab_kept(head.drop_last(), base, worsened_delta, i)
    } else {
        before.len() as int
    }
}

/// What the last pair of an identity among the first `n` is.
proof fn lemma_vocab_before(base: Seq<VocabView>, key: (Seq<char>, Seq<char>), n: nat)
    requires
        n <= base.len(),
    ensures
        vocab_before(base, key, n) is None ==> forall|i: int|
            0 <= i < n ==> (#[trigger] base[i]).key() != key,
        vocab_before(base, key, n) is Some ==> exists|i: int|
            0 <= i < n && base[i] == vocab_before(base, key, n).unwrap() && (
            #[trigger] base[i]).key() == key,
    decreases n,
{
    if n > 0 && base[n - 1].key() != key {
        lemma_vocab_before(base, key, (n - 1) as nat);
    }
}

/// A pair of this identity is in the list.
pub open spec fn has_vocab(vocab: Seq<VocabView>, key: (Seq<char>, Seq<char>)) -> bool {
    exists|i: int| 0 <= i < vocab.len() && (#[trigger] vocab[i]).key() == key
}

/// Only what the change introduced is reported: every clone pair and every block
/// pair of a delta stands in the head report, the base report has no clone pair of
/// the same two bodies and no block of the same fragment, and a reported clone pair
/// is as similar as was asked for.
pub proof fn lemma_only_new_findings(
    head: ReportView,
    base: ReportView,
    options: DeltaOptions,
)
    ensures
        ({
            let delta = delta_of(head, base, options);
            &&& forall|k: int|
                0 <= k < delta.new_clones.len() ==> {
                    &&& head.clones.contains(#[trigger] delta.new_clones[k])
                    &&& options.min_similarity.le(delta.new_clones[k].similarity)
                    &&& !has_clone(base.clones, delta.new_clones[k].key())
                }
            &&& forall|k: int|
                0 <= k < delta.new_blocks.len() ==> {
                    &&& head.blocks.contains(#[trigger] delta.new_blocks[k])
                    &&& !has_fragment(base.blocks, delta.new_blocks[k].hash)
                }
        }),
{
    let delta = delta_of(head, base, options);
    let clones = sorted::<ClonePair, StrongestClone>(head.clones);
    let fresh = |p: CloneView|
        options.min_similarity.le(p.similarity) && !has_clone(base.clones, p.key());
    lemma_kept(clones.filter(fresh), options.max_findings);
    assert forall|k: int| 0 <= k < delta.new_clones.len() implies {
        &&& head.clones.contains(#[trigger] delta.new_clones[k])
        &&& options.min_similarity.le(delta.new_clones[k].similarity)
        &&& !has_clone(base.clones, delta.new_clones[k].key())
    } by {
        assert(delta.new_clones[k] == clones.filter(fresh)[k]);
        let i = lemma_filter_member(clones, fresh, k);
        lemma_sorted_holds::<ClonePair, StrongestClone>(head.clones, clones[i]);
    }
    let blocks = sorted::<BlockPair, LongestBlock>(head.blocks);
    let unseen = |p: BlockView| !has_fragment(base.blocks, p.hash);
    lemma_kept(blocks.filter(unseen), options.max_findings);
    assert forall|k: int| 0 <= k < delta.new_blocks.len() implies {
        &&& head.blocks.contains(#[trigger] delta.new_blocks[k])
        &&& !has_fragment(base.blocks, delta.new_blocks[k].hash)
    } by {
        assert(delta.new_blocks[k] == blocks.filter(unseen)[k]);
        let i = lemma_filter_member(blocks, unseen, k);
        lemma_sorted_holds::<BlockPair, LongestBlock>(head.blocks, blocks[i]);
    }
}

/// Every vocabulary finding reads as it does in the head report. It is called new
/// exactly where the base report has no pair of the same two files; otherwise it
/// lost its last importer, or its overlap grew by more than the margin, since one of
/// those.
pub proof fn lemma_vocabulary_findings_have_a_reason(
    head: ReportView,
    base: ReportView,
    options: DeltaOptions,
)
    ensures
        ({
            let delta = delta_of(head, base, options);
            forall|k: int|
                0 <= k < delta.vocab.len() ==> {
                    let f = #[trigger] delta.vocab[k];
                    &&& head.vocab.contains(f.pair)
                    &&& (f.change is New <==> !has_vocab(base.vocab, f.pair.key()))
                    &&& !(f.change is New) ==> since_one_of(base.vocab, f, options.worsened_delta)
                }
        }),
{
    let delta = delta_of(head, base, options);
    let vocab = sorted::<VocabPair, StrongestVocab>(head.vocab);
    let all = vocab_changes(vocab, base.vocab, options.worsened_delta);
    lemma_kept(all, options.max_findings);
    assert forall|k: int| 0 <= k < delta.vocab.len() implies {
        let f = #[trigger] delta.vocab[k];
        &&& head.vocab.contains(f.pair)
        &&& (f.change is New <==> !has_vocab(base.vocab, f.pair.key()))
        &&& !(f.change is New) ==> since_one_of(base.vocab, f, options.worsened_delta)
    } by {
        let f = delta.vocab[k];
        assert(f == all[k]);
        let i = lemma_vocab_member(vocab, base.vocab, options.worsened_delta, k);
        lemma_sorted_holds::<VocabPair, StrongestVocab>(head.vocab, vocab[i]);
        lemma_vocab_before(base.vocab, f.pair.key(), base.vocab.len());
    }
}

/// A finding follows from what one of the pairs of the same two files was.
pub open spec fn since_one_of(
    base: Seq<VocabView>,
    finding: FindingView,
    worsened_delta: Ratio,
) -> bool {
    exists|i: int|
        0 <= i < base.len() && (#[trigger] base[i]).key() == finding.pair.key() && change_since(
            finding.pair,
            base[i],
            worsened_delta,
        ) == Some(finding.change)
}

/// Nothing new is passed over where there is no cap: a clone pair as similar as was
/// asked for or a vocabulary pair whose identity the base report does not have, and a
/// block pair whose fragment it does not have, are in the delta.
pub proof fn lemma_no_new_finding_is_missed(
    head: ReportView,
    base: ReportView,
    options: DeltaOptions,
)
    requires
        options.max_findings is None,
    ensures
        ({
            let delta = delta_of(head, base, options);
            &&& forall|p: CloneView| #[trigger]
                head.clones.contains(p) && options.min_similarity.le(p.similarity) && !has_clone(
                    base.clones,
                    p.key(),
                ) ==> delta.new_clones.contains(p)
            &&& forall|p: BlockView| #[trigger]
                head.blocks.contains(p) && !has_fragment(base.blocks, p.hash)
                    ==> delta.new_blocks.contains(p)
            &&& forall|p: VocabView| #[trigger]
                head.vocab.contains(p) && !has_vocab(base.vocab, p.key()) ==> delta.vocab.contains(
                    FindingView { change: VocabChange::New, pair: p },
                )
        }),
{
    let delta = delta_of(head, base, options);
    let clones = sorted::<ClonePair, StrongestClone>(head.clones);
    let fresh = |p: CloneView|
        options.min_similarity.le(p.similarity) && !has_clone(base.clones, p.key());
    assert forall|p: CloneView| #[trigger]
        head.clones.contains(p) && options.min_similarity.le(p.similarity) && !has_clone(
            base.clones,
            p.key(),
        ) implies delta.new_clones.contains(p) by {
        lemma_sorted_holds::<ClonePair, StrongestClone>(head.clones, p);
        lemma_filter_keeps(clones, fresh, p);
    }
    let blocks = sorted::<BlockPair, LongestBlock>(head.blocks);
    let unseen = |p: BlockView| !has_fragment(base.blocks, p.hash);
    assert forall|p: BlockView| #[trigger]
        head.blocks.contains(p) && !has_fragment(
            base.blocks,
            p.hash,
        ) implies delta.new_blocks.contains(p) by {
        lemma_sorted_holds::<BlockPair, LongestBlock>(head.blocks, p);
        lemma_filter_keeps(blocks, unseen, p);
    }
    let vocab = sorted::<VocabPair, StrongestVocab>(head.vocab);
    assert forall|p: VocabView| #[trigger]
        head.vocab.contains(p) && !has_vocab(base.vocab, p.key()) implies delta.vocab.contains(
        FindingView { change: VocabChange::New, pair: p },
    ) by {
        lemma_sorted_holds::<VocabPair, StrongestVocab>(head.vocab, p);
        let i = choose|i: int| 0 <= i < vocab.len() && vocab[i] == p;
        lemma_vocab_before(base.vocab, p.key(), base.vocab.len());
        let k = lemma_vocab_kept(vocab, base.vocab, options.worsened_delta, i);
        assert(delta.vocab[k] == (FindingView { change: VocabChange::New, pair: p }));
    }
}

/// A clone pair that was there before stays silent, whatever became of its place:
/// where the base report has a pair of the same two bodies, listed either way round,
/// no pair of these bodies is reported.
pub proof fn lemma_known_clones_stay_silent(
    head: ReportView,
    base: ReportView,
    options: DeltaOptions,
    known: CloneView,
    pair: CloneView,
)
    requires
        base.clones.contains(known),
        (pair.a.hash == known.a.hash && pair.b.hash == known.b.hash) || (pair.a.hash
            == known.b.hash && pair.b.hash == known.a.hash),
    ensures
        !has_clone(delta_of(head, base, options).new_clones, pair.key()),
{
    if pair.a.hash == known.b.hash && pair.b.hash == known.a.hash {
        lemma_clone_key_ignores_sides(pair, known);
    }
    let delta = delta_of(head, base, options);
    let at = choose|at: int| 0 <= at < base.clones.len() && base.clones[at] == known;
    assert(pair.key() == known.key());
    assert(base.clones[at].key() == pair.key());
    lemma_only_new_findings(head, base, options);
    if has_clone(delta.new_clones, pair.key()) {
        let k = choose|k: int|
            0 <= k < delta.new_clones.len() && (#[trigger] delta.new_clones[k]).key()
                == pair.key();
        assert(head.clones.contains(delta.new_clones[k]));
    }
}

/// A duplicated block that was there before stays silent, whatever became of its
/// place: where the base report has a block, no block of the same fragment is
/// reported, in whatever files and lines it now stands.
pub proof fn lemma_known_blocks_stay_silent(
    head: ReportView,
    base: ReportView,
    options: DeltaOptions,
    known: BlockView,
    pair: BlockView,
)
    requires
        base.blocks.contains(known),
        pair.hash == known.hash,
    ensures
        !has_fragment(delta_of(head, base, options).new_blocks, pair.hash),
{
    let delta = delta_of(head, base, options);
    let at = choose|at: int| 0 <= at < base.blocks.len() && base.blocks[at] == known;
    assert(base.blocks[at].hash == pair.hash);
    lemma_only_new_findings(head, base, options);
    if has_fragment(delta.new_blocks, pair.hash) {
        let k = choose|k: int|
            0 <= k < delta.new_blocks.len() && (#[trigger] delta.new_blocks[k]).hash == pair.hash;
        assert(head.blocks.contains(delta.new_blocks[k]));
    }
}

/// A report compared with itself has no delta, whatever the options: what has landed
/// is not mentioned again. Where a report lists the same two files more than once,
/// its entries have to agree on them.
pub proof fn lemma_identical_reports_have_an_empty_delta(report: ReportView, options: DeltaOptions)
    requires
        forall|i: int, j: int|
            0 <= i < report.vocab.len() && 0 <= j < report.vocab.len() && (
            #[trigger] report.vocab[i]).key() == (#[trigger] report.vocab[j]).key() ==> {
                &&& report.vocab[i].zero_inbound == report.vocab[j].zero_inbound
                &&& report.vocab[i].overlap.same(report.vocab[j].overlap)
            },
    ensures
        delta_of(report, report, options) == empty_delta(),
{
    let delta = delta_of(report, report, options);
    lemma_only_new_findings(report, report, options);
    lemma_vocabulary_findings_have_a_reason(report, report, options);
    if delta.new_clones.len() > 0 {
        let p = delta.new_clones[0];
        let at = choose|at: int| 0 <= at < report.clones.len() && report.clones[at] == p;
        assert(report.clones[at].key() == p.key());
    }
    if delta.new_blocks.len() > 0 {
        let p = delta.new_blocks[0];
        let at = choose|at: int| 0 <= at < report.blocks.len() && report.blocks[at] == p;
        assert(report.blocks[at].hash == p.hash);
    }
    if delta.vocab.len() > 0 {
        let f = delta.vocab[0];
        let at = choose|at: int| 0 <= at < report.vocab.len() && report.vocab[at] == f.pair;
        assert(report.vocab[at].key() == f.pair.key());
        assert(!(f.change is New));
        assert(since_one_of(report.vocab, f, options.worsened_delta));
        let i = choose|i: int|
            0 <= i < report.vocab.len() && (#[trigger] report.vocab[i]).key() == f.pair.key()
                && change_since(f.pair, report.vocab[i], options.worsened_delta) == Some(f.change);
        lemma_same_is_not_beyond(f.pair.overlap, report.vocab[i].overlap, options.worsened_delta);
    }
    assert(delta =~= empty_delta());
}

proof fn lemma_same_is_not_beyond(score: Ratio, base: Ratio, margin: Ratio)
    requires
        score.same(base),
    ensures
        !score.beyond(base, margin),
{
    let (a, b) = (score.top(), score.bottom());
    let (c, d) = (base.top(), base.bottom());
    let (e, f) = (margin.top(), margin.bottom());
    assert(a * d * f <= (c * f + e * d) * b) by (nonlinear_arith)
        requires
            a * d == c * b,
            e >= 0,
            d > 0,
            b > 0,
            f > 0,
    ;
    assert(a * (d * f) == a * d * f) by (nonlinear_arith);
}

/// The options with another cap.
pub open spec fn with_cap(options: DeltaOptions, max: Option<usize>) -> DeltaOptions {
    DeltaOptions { max_findings: max, ..options }
}

/// A cap keeps the strongest findings of each kind: what is reported under it is the
/// front of what is reported without, where no finding stands behind a weaker one. A
/// cap of zero keeps nothing.
pub proof fn lemma_a_cap_keeps_the_strongest(
    head: ReportView,
    base: ReportView,
    options: DeltaOptions,
    max: usize,
)
    ensures
        ({
            let all = delta_of(head, base, with_cap(options, None));
            let kept = delta_of(head, base, with_cap(options, Some(max)));
            &&& kept.new_clones == at_most(all.new_clones, Some(max))
            &&& kept.vocab == at_most(all.vocab, Some(max))
            &&& kept.new_blocks == at_most(all.new_blocks, Some(max))
            &&& in_order::<ClonePair, StrongestClone>(all.new_clones)
            &&& in_order::<VocabPair, StrongestVocab>(
                all.vocab.map_values(|f: FindingView| f.pair),
            )
            &&& in_order::<BlockPair, LongestBlock>(all.new_blocks)
            &&& max == 0 ==> kept == empty_delta()
        }),
{
    let all = delta_of(head, base, with_cap(options, None));
    let kept = delta_of(head, base, with_cap(options, Some(max)));
    lemma_sorted::<ClonePair, StrongestClone>(head.clones);
    lemma_filter_in_order::<ClonePair, StrongestClone>(
        sorted::<ClonePair, StrongestClone>(head.clones),
        |p: CloneView| options.min_similarity.le(p.similarity) && !has_clone(base.clones, p.key()),
    );
    lemma_sorted::<BlockPair, LongestBlock>(head.blocks);
    lemma_filter_in_order::<BlockPair, LongestBlock>(
        sorted::<BlockPair, LongestBlock>(head.blocks),
        |p: BlockView| !has_fragment(base.blocks, p.hash),
    );
    lemma_sorted::<VocabPair, StrongestVocab>(head.vocab);
    lemma_changes_in_order(
        sorted::<VocabPair, StrongestVocab>(head.vocab),
        base.vocab,
        options.worsened_delta,
    );
    if max == 0 {
        assert(kept =~= empty_delta());
    }
}

proof fn lemma_changes_in_order(head: Seq<VocabView>, base: Seq<VocabView>, worsened_delta: Ratio)
    requires
        in_order::<VocabPair, StrongestVocab>(head),
    ensures
        in_order::<VocabPair, StrongestVocab>(
            vocab_changes(head, base, worsened_delta).map_values(|f: FindingView| f.pair),
        ),
    decreases head.len(),
{
    let all = vocab_changes(head, base, worsened_delta).map_values(|f: FindingView| f.pair);
    if head.len() > 0 {
        let front = head.drop_last();
        let before = vocab_changes(front, base, worsened_delta);
        lemma_changes_in_order(front, base, worsened_delta);
        let earlier = before.map_values(|f: FindingView| f.pair);
        if change_of(head.last(), base, worsened_delta) is Some {
            assert forall|i: int, j: int| 0 <= i < j < all.len() implies StrongestVocab::precedes(
                #[trigger] all[i],
                #[trigger] all[j],
            ) by {
                assert(all[i] == earlier[i]);
                if j < before.len() {
                    assert(all[j] == earlier[j]);
                } else {
                    let k = lemma_vocab_member(front, base, worsened_delta, i);
                    assert(head[k] == all[i]);
                    assert(head[head.len() - 1] == all[j]);
                }
            }
        } else {
            assert(all =~= earlier);
        }
    }
}

/// Both sides of every clone and block pair are annotated, and the first file of
/// every vocabulary finding; nothing is annotated where nothing is new.
pub proof fn lemma_annotations_count(delta: DeltaView)
    ensures
        delta.annotations().len() == 2 * delta.new_clones.len() + delta.vocab.len() + 2
            * delta.new_blocks.len(),
        delta.is_empty() <==> delta.annotations().len() == 0,
{
    lemma_clone_annotations_len(delta.new_clones);
    lemma_vocab_annotations_len(delta.vocab);
    lemma_block_annotations_len(delta.new_blocks);
}

proof fn lemma_clone_annotations_len(pairs: Seq<CloneView>)
    ensures
        clone_annotations(pairs).len() == 2 * pairs.len(),
    decreases pairs.len(),
{
    if pairs.len() > 0 {
        lemma_clone_annotations_len(pairs.drop_last());
    }
}

proof fn lemma_vocab_annotations_len(findings: Seq<FindingView>)
    ensures
        vocab_annotations(findings).len() == findings.len(),
    decreases findings.len(),
{
    if findings.len() > 0 {
        lemma_vocab_annotations_len(findings.drop_last());
    }
}

proof fn lemma_block_annotations_len(pairs: Seq<BlockView>)
    ensures
        block_annotations(pairs).len() == 2 * pairs.len(),
    decreases pairs.len(),
{
    if pairs.len() > 0 {
        lemma_block_annotations_len(pairs.drop_last());
    }
}

// ------------------------------------------------------------- what a reader is shown

/// `s` is a score as a reader sees it: the nearest whole percentage, the even one of two
/// that are as near.
pub open spec fn shows_percent(s: Seq<char>, score: Ratio) -> bool {
    exists|p: nat| #[trigger]
        decimal(p) + seq!['%'] == s && score.bottom() >= 2 * (100 * score.top() - p
            * score.bottom()) && score.bottom() >= 2 * (p * score.bottom() - 100 * score.top()) && (
        score.bottom() == 2 * (100 * score.top() - p * score.bottom()) || score.bottom() == 2 * (p
            * score.bottom() - 100 * score.top()) ==> p % 2 == 0)
}

/// `s` says which lines of which file.
pub open spec fn shows_place(s: Seq<char>, file: Seq<char>, start: nat, end: nat) -> bool {
    s == file + seq![':'] + decimal(start) + seq!['-'] + decimal(end)
}

/// `s` says which lines of which file a unit is, and its name behind that.
pub open spec fn shows_unit(s: Seq<char>, u: UnitRefView) -> bool {
    exists|place: Seq<char>| #[trigger]
        shows_place(place, u.file, u.start_line, u.end_line) && s == place + seq![' ', '(', '`']
            + u.qualname + seq!['`', ')']
}

/// A row of the summary shows a clone pair: how similar it is, the first side under A,
/// and the second under B.
pub open spec fn shows_clone(row: Seq<Seq<char>>, p: CloneView) -> bool {
    &&& row.len() == 3
    &&& shows_percent(row[0], p.similarity)
    &&& shows_unit(row[1], p.a)
    &&& shows_unit(row[2], p.b)
}

/// A row of the summary shows a block pair: how long it is, the first place under A, and
/// the second under B.
pub open spec fn shows_block(row: Seq<Seq<char>>, p: BlockView) -> bool {
    &&& row.len() == 3
    &&& row[0] == decimal(p.tokens) + " tokens"@
    &&& shows_place(row[1], p.a.file, p.a.start_line, p.a.end_line)
    &&& shows_place(row[2], p.b.file, p.b.start_line, p.b.end_line)
}

/// A row of the summary shows a vocabulary finding: why it is reported, both files, and
/// their overlap.
pub open spec fn shows_finding(row: Seq<Seq<char>>, f: FindingView) -> bool {
    &&& row.len() == 4
    &&& f.change is New ==> row[0] == "new"@
    &&& f.change is BecameUnreferenced ==> row[0] == "became unreferenced"@
    &&& f.change is Worsened ==> row[0] == "worsened"@
    &&& row[1] == f.pair.a
    &&& row[2] == f.pair.b
    &&& shows_percent(row[3], f.pair.overlap)
}

proof fn lemma_place_is_shown(file: Seq<char>, start: nat, end: nat)
    ensures
        shows_place(place_text(file, start, end), file, start, end),
{
    reveal_strlit(":");
    reveal_strlit("-");
    assert(":"@ =~= seq![':']);
    assert("-"@ =~= seq!['-']);
}

proof fn lemma_percent_is_shown(score: Ratio)
    ensures
        shows_percent(percent_text(score), score),
{
    lemma_percent_is_nearest(score);
    reveal_strlit("%");
    assert("%"@ =~= seq!['%']);
    let p = score.spec_percent() as nat;
    assert(decimal(p) + seq!['%'] == percent_text(score));
}

proof fn lemma_unit_is_shown(u: UnitRefView)
    ensures
        shows_unit(named_place(u), u),
{
    lemma_place_is_shown(u.file, u.start_line, u.end_line);
    reveal_strlit(" (`");
    reveal_strlit("`)");
    assert(" (`"@ =~= seq![' ', '(', '`']);
    assert("`)"@ =~= seq!['`', ')']);
    assert(shows_place(
        place_text(u.file, u.start_line, u.end_line),
        u.file,
        u.start_line,
        u.end_line,
    ));
}

/// Places are told apart: what is shown of one is shown of no other.
pub proof fn lemma_places_are_told_apart(
    s: Seq<char>,
    file: Seq<char>,
    start: nat,
    end: nat,
    other: Seq<char>,
    first: nat,
    last: nat,
)
    requires
        shows_place(s, file, start, end),
        shows_place(s, other, first, last),
    ensures
        file == other,
        start == first,
        end == last,
{
    lemma_decimal_is_digits(start);
    lemma_decimal_is_digits(end);
    lemma_decimal_is_digits(first);
    lemma_decimal_is_digits(last);
    let (x, y) = (file + seq![':'] + decimal(start), other + seq![':'] + decimal(first));
    lemma_split_at_last(x, y, '-', decimal(end), decimal(last));
    lemma_split_at_last(file, other, ':', decimal(start), decimal(first));
    lemma_decimal_tells_numbers_apart(start, first);
    lemma_decimal_tells_numbers_apart(end, last);
}

/// Units are told apart: what is shown of one is shown of no other, as long as there is
/// no backtick in their names.
pub proof fn lemma_units_are_told_apart(s: Seq<char>, u: UnitRefView, v: UnitRefView)
    requires
        shows_unit(s, u),
        shows_unit(s, v),
        lacks(u.qualname, '`'),
        lacks(v.qualname, '`'),
    ensures
        u.file == v.file,
        u.start_line == v.start_line,
        u.end_line == v.end_line,
        u.qualname == v.qualname,
{
    let a = choose|place: Seq<char>| #[trigger]
        shows_place(place, u.file, u.start_line, u.end_line) && s == place + seq![' ', '(', '`']
            + u.qualname + seq!['`', ')'];
    let b = choose|place: Seq<char>| #[trigger]
        shows_place(place, v.file, v.start_line, v.end_line) && s == place + seq![' ', '(', '`']
            + v.qualname + seq!['`', ')'];
    let open = seq![' ', '('];
    let x = a + open + seq!['`'] + u.qualname;
    let y = b + open + seq!['`'] + v.qualname;
    assert(x =~= s.take(s.len() - 2));
    assert(y =~= s.take(s.len() - 2));
    lemma_split_at_last(a + open, b + open, '`', u.qualname, v.qualname);
    assert(a =~= (a + open).take((a + open).len() - 2));
    assert(b =~= (b + open).take((b + open).len() - 2));
    lemma_places_are_told_apart(
        a,
        u.file,
        u.start_line,
        u.end_line,
        v.file,
        v.start_line,
        v.end_line,
    );
}

/// The summary shows every finding, one row each in the order of the delta, and both
/// sides of it: clone pairs, vocabulary findings and blocks each under their own heading
/// in a table with as many columns as it has headers. A kind without findings has
/// neither.
pub proof fn lemma_the_summary_shows_every_finding(delta: DeltaView)
    ensures
        delta.new_clones.len() + delta.vocab.len() + delta.new_blocks.len() > 0 ==> exists|
            clones: Seq<Seq<Seq<char>>>,
            findings: Seq<Seq<Seq<char>>>,
            blocks: Seq<Seq<Seq<char>>>,
        | #[trigger]
            shows_rows(delta, clones, findings, blocks) && delta.summary().skip(2) == (
            if clones.len() == 0 {
                Seq::empty()
            } else {
                seq![
                    PieceView::Heading(3, "New clone pairs"@),
                    PieceView::Table(seq!["Similarity"@, "A"@, "B"@], clones),
                ]
            }) + (if findings.len() == 0 {
                Seq::empty()
            } else {
                seq![
                    PieceView::Heading(3, "Vocabulary findings"@),
                    PieceView::Table(seq!["Change"@, "A"@, "B"@, "Overlap"@], findings),
                ]
            }) + (if blocks.len() == 0 {
                Seq::empty()
            } else {
                seq![
                    PieceView::Heading(3, "New duplicated blocks"@),
                    PieceView::Table(seq!["Size"@, "A"@, "B"@], blocks),
                ]
            }),
        delta.new_clones.len() + delta.vocab.len() + delta.new_blocks.len() == 0
            ==> delta.summary().len() == 2 && delta.summary()[1] == PieceView::Paragraph(
            "No new duplication vs the merge-base."@,
        ),
        delta.summary().len() >= 2,
        delta.summary()[0] == PieceView::Heading(2, "Duplication delta"@),
{
    let clones = delta.new_clones.map_values(|p: CloneView| clone_row(p));
    let findings = delta.vocab.map_values(|f: FindingView| vocab_row(f));
    let blocks = delta.new_blocks.map_values(|p: BlockView| block_row(p));
    assert forall|k: int| 0 <= k < clones.len() implies shows_clone(
        #[trigger] clones[k],
        delta.new_clones[k],
    ) by {
        let p = delta.new_clones[k];
        lemma_percent_is_shown(p.similarity);
        lemma_unit_is_shown(p.a);
        lemma_unit_is_shown(p.b);
    }
    assert forall|k: int| 0 <= k < findings.len() implies shows_finding(
        #[trigger] findings[k],
        delta.vocab[k],
    ) by {
        lemma_percent_is_shown(delta.vocab[k].pair.overlap);
    }
    assert forall|k: int| 0 <= k < blocks.len() implies shows_block(
        #[trigger] blocks[k],
        delta.new_blocks[k],
    ) by {
        let p = delta.new_blocks[k];
        lemma_place_is_shown(p.a.file, p.a.start_line, p.a.end_line);
        lemma_place_is_shown(p.b.file, p.b.start_line, p.b.end_line);
    }
    assert(shows_rows(delta, clones, findings, blocks));
    let shown = clone_section(delta.new_clones) + vocab_section(delta.vocab) + block_section(
        delta.new_blocks,
    );
    if !delta.is_empty() {
        assert(delta.summary().skip(2) =~= shown);
    }
}

/// The rows of the three tables show the findings of a delta, one each.
pub open spec fn shows_rows(
    delta: DeltaView,
    clones: Seq<Seq<Seq<char>>>,
    findings: Seq<Seq<Seq<char>>>,
    blocks: Seq<Seq<Seq<char>>>,
) -> bool {
    &&& clones.len() == delta.new_clones.len()
    &&& findings.len() == delta.vocab.len()
    &&& blocks.len() == delta.new_blocks.len()
    &&& forall|k: int|
        0 <= k < clones.len() ==> shows_clone(#[trigger] clones[k], delta.new_clones[k])
    &&& forall|k: int|
        0 <= k < findings.len() ==> shows_finding(#[trigger] findings[k], delta.vocab[k])
    &&& forall|k: int|
        0 <= k < blocks.len() ==> shows_block(#[trigger] blocks[k], delta.new_blocks[k])
}

/// The rows of two clone pairs agree under A exactly where their first sides are the
/// same unit, under B exactly where their second sides are, and a pair listed the other
/// way round has its columns the other way round.
pub proof fn lemma_clone_rows_tell_both_sides(p: CloneView, q: CloneView)
    requires
        lacks(p.a.qualname, '`'),
        lacks(p.b.qualname, '`'),
        lacks(q.a.qualname, '`'),
        lacks(q.b.qualname, '`'),
    ensures
        clone_row(p).len() == 3,
        clone_row(p)[1] == clone_row(q)[1] <==> same_unit(p.a, q.a),
        clone_row(p)[2] == clone_row(q)[2] <==> same_unit(p.b, q.b),
        clone_row(p)[1] == clone_row(q)[2] <==> same_unit(p.a, q.b),
{
    lemma_unit_is_shown(p.a);
    lemma_unit_is_shown(p.b);
    lemma_unit_is_shown(q.a);
    lemma_unit_is_shown(q.b);
    if clone_row(p)[1] == clone_row(q)[1] {
        lemma_units_are_told_apart(clone_row(p)[1], p.a, q.a);
    }
    if clone_row(p)[2] == clone_row(q)[2] {
        lemma_units_are_told_apart(clone_row(p)[2], p.b, q.b);
    }
    if clone_row(p)[1] == clone_row(q)[2] {
        lemma_units_are_told_apart(clone_row(p)[1], p.a, q.b);
    }
}

/// Two references are to the same unit: its file, lines and name.
pub open spec fn same_unit(u: UnitRefView, v: UnitRefView) -> bool {
    u.file == v.file && u.start_line == v.start_line && u.end_line == v.end_line && u.qualname
        == v.qualname
}

/// The rows of two block pairs agree under A exactly where their first places are the
/// same, under B exactly where their second ones are, and in size exactly where they are
/// of the same length.
pub proof fn lemma_block_rows_tell_both_sides(p: BlockView, q: BlockView)
    ensures
        block_row(p).len() == 3,
        block_row(p)[0] == block_row(q)[0] <==> p.tokens == q.tokens,
        block_row(p)[1] == block_row(q)[1] <==> p.a == q.a,
        block_row(p)[2] == block_row(q)[2] <==> p.b == q.b,
        block_row(p)[1] == block_row(q)[2] <==> p.a == q.b,
{
    let (x, y) = (block_row(p), block_row(q));
    let (pa, pb, qa, qb) = (p.a, p.b, q.a, q.b);
    lemma_place_is_shown(pa.file, pa.start_line, pa.end_line);
    lemma_place_is_shown(pb.file, pb.start_line, pb.end_line);
    lemma_place_is_shown(qa.file, qa.start_line, qa.end_line);
    lemma_place_is_shown(qb.file, qb.start_line, qb.end_line);
    if x[0] == y[0] {
        let tail = " tokens"@;
        assert(decimal(p.tokens) =~= x[0].take(x[0].len() - tail.len()));
        assert(decimal(q.tokens) =~= y[0].take(y[0].len() - tail.len()));
        lemma_decimal_tells_numbers_apart(p.tokens, q.tokens);
    }
    if x[1] == y[1] {
        lemma_places_are_told_apart(
            x[1],
            pa.file,
            pa.start_line,
            pa.end_line,
            qa.file,
            qa.start_line,
            qa.end_line,
        );
    }
    if x[2] == y[2] {
        lemma_places_are_told_apart(
            x[2],
            pb.file,
            pb.start_line,
            pb.end_line,
            qb.file,
            qb.start_line,
            qb.end_line,
        );
    }
    if x[1] == y[2] {
        lemma_places_are_told_apart(
            x[1],
            pa.file,
            pa.start_line,
            pa.end_line,
            qb.file,
            qb.start_line,
            qb.end_line,
        );
    }
}

// --------------------------------------------------------- what a reader is told where

/// A message says of a unit that it is a duplicate, by how much, and where it stands.
pub open spec fn says_duplicate(message: Seq<char>, similarity: Ratio, other: UnitRefView) -> bool {
    exists|percent: Seq<char>, place: Seq<char>| #[trigger]
        shows_percent(percent, similarity) && #[trigger] shows_place(
            place,
            other.file,
            other.start_line,
            other.end_line,
        ) && message == percent + " duplicate of `"@ + other.qualname + "` at "@ + place
}

/// A message says of a block how long it is, and where it stands again.
pub open spec fn says_block(message: Seq<char>, tokens: nat, other: BlockRefView) -> bool {
    exists|place: Seq<char>| #[trigger]
        shows_place(place, other.file, other.start_line, other.end_line) && message == decimal(
            tokens,
        ) + " normalized tokens duplicated at "@ + place
}

/// A message says with which file a vocabulary overlaps, and why that is reported: by
/// how much and in how many names where it is new, by how much where nothing imports one
/// of the two any more, and from how much to how much where it grew.
pub open spec fn says_overlap(message: Seq<char>, f: FindingView) -> bool {
    match f.change {
        VocabChange::New => exists|percent: Seq<char>| #[trigger]
            shows_percent(percent, f.pair.overlap) && message == "new vocabulary overlap with "@
                + f.pair.b + ": "@ + percent + " ("@ + decimal(f.pair.shared)
                + " shared identifiers)"@,
        VocabChange::BecameUnreferenced => exists|percent: Seq<char>| #[trigger]
            shows_percent(percent, f.pair.overlap) && message == "vocabulary overlap with "@
                + f.pair.b + " ("@ + percent + ") and neither side has inbound imports anymore"@,
        VocabChange::Worsened { from, to } => exists|low: Seq<char>, high: Seq<char>| #[trigger]
            shows_percent(low, from) && #[trigger] shows_percent(high, to) && message
                == "vocabulary overlap with "@ + f.pair.b + " grew from "@ + low + " to "@ + high,
    }
}

/// A warning in a file, at a line where there is one, without a title.
pub open spec fn is_warning(a: AnnotationView, file: Seq<char>, line: Option<nat>) -> bool {
    &&& a.severity is Warning
    &&& a.file == file
    &&& match line {
        Some(n) => a.start_line == Some(n as usize),
        None => a.start_line is None,
    }
    &&& a.end_line is None
    &&& a.title is None
}

/// Whoever stands on either side of a finding is told of the other: the annotations of
/// the clone pairs come first, two each, then one for each vocabulary finding on its
/// first file, then two for each block pair.
pub proof fn lemma_each_side_is_told_of_the_other(delta: DeltaView)
    ensures
        ({
            let all = delta.annotations();
            let (c, v) = (2 * delta.new_clones.len() as int, delta.vocab.len() as int);
            &&& all.len() == c + v + 2 * delta.new_blocks.len()
            &&& forall|k: int|
                0 <= k < delta.new_clones.len() ==> {
                    let p = #[trigger] delta.new_clones[k];
                    &&& is_warning(all[2 * k], p.a.file, Some(p.a.start_line))
                    &&& says_duplicate(all[2 * k].message, p.similarity, p.b)
                    &&& is_warning(all[2 * k + 1], p.b.file, Some(p.b.start_line))
                    &&& says_duplicate(all[2 * k + 1].message, p.similarity, p.a)
                }
            &&& forall|k: int|
                0 <= k < delta.vocab.len() ==> {
                    let f = #[trigger] delta.vocab[k];
                    &&& is_warning(all[c + k], f.pair.a, None)
                    &&& says_overlap(all[c + k].message, f)
                }
            &&& forall|k: int|
                0 <= k < delta.new_blocks.len() ==> {
                    let p = #[trigger] delta.new_blocks[k];
                    &&& is_warning(all[c + v + 2 * k], p.a.file, Some(p.a.start_line))
                    &&& says_block(all[c + v + 2 * k].message, p.tokens, p.b)
                    &&& is_warning(all[c + v + 2 * k + 1], p.b.file, Some(p.b.start_line))
                    &&& says_block(all[c + v + 2 * k + 1].message, p.tokens, p.a)
                }
        }),
{
    lemma_annotations_count(delta);
    lemma_clone_annotations_len(delta.new_clones);
    lemma_vocab_annotations_len(delta.vocab);
    let all = delta.annotations();
    let (c, v) = (2 * delta.new_clones.len() as int, delta.vocab.len() as int);
    assert forall|k: int| 0 <= k < delta.new_clones.len() implies {
        let p = #[trigger] delta.new_clones[k];
        &&& is_warning(all[2 * k], p.a.file, Some(p.a.start_line))
        &&& says_duplicate(all[2 * k].message, p.similarity, p.b)
        &&& is_warning(all[2 * k + 1], p.b.file, Some(p.b.start_line))
        &&& says_duplicate(all[2 * k + 1].message, p.similarity, p.a)
    } by {
        let p = delta.new_clones[k];
        lemma_clone_annotations_at(delta.new_clones, k);
        lemma_duplicate_is_said(p.similarity, p.a);
        lemma_duplicate_is_said(p.similarity, p.b);
    }
    assert forall|k: int| 0 <= k < delta.vocab.len() implies {
        let f = #[trigger] delta.vocab[k];
        &&& is_warning(all[c + k], f.pair.a, None)
        &&& says_overlap(all[c + k].message, f)
    } by {
        lemma_vocab_annotations_at(delta.vocab, k);
        lemma_overlap_is_said(delta.vocab[k]);
    }
    assert forall|k: int| 0 <= k < delta.new_blocks.len() implies {
        let p = #[trigger] delta.new_blocks[k];
        &&& is_warning(all[c + v + 2 * k], p.a.file, Some(p.a.start_line))
        &&& says_block(all[c + v + 2 * k].message, p.tokens, p.b)
        &&& is_warning(all[c + v + 2 * k + 1], p.b.file, Some(p.b.start_line))
        &&& says_block(all[c + v + 2 * k + 1].message, p.tokens, p.a)
    } by {
        let p = delta.new_blocks[k];
        lemma_block_annotations_at(delta.new_blocks, k);
        lemma_place_is_shown(p.a.file, p.a.start_line, p.a.end_line);
        lemma_place_is_shown(p.b.file, p.b.start_line, p.b.end_line);
        assert(says_block(block_message(p.tokens, p.a), p.tokens, p.a));
        assert(says_block(block_message(p.tokens, p.b), p.tokens, p.b));
    }
}

proof fn lemma_duplicate_is_said(similarity: Ratio, other: UnitRefView)
    ensures
        says_duplicate(clone_message(similarity, other), similarity, other),
{
    lemma_percent_is_shown(similarity);
    lemma_place_is_shown(other.file, other.start_line, other.end_line);
}

proof fn lemma_overlap_is_said(f: FindingView)
    ensures
        says_overlap(vocab_text(f), f),
{
    lemma_percent_is_shown(f.pair.overlap);
    if let VocabChange::Worsened { from, to } = f.change {
        lemma_percent_is_shown(from);
        lemma_percent_is_shown(to);
    }
}

proof fn lemma_clone_annotations_at(pairs: Seq<CloneView>, k: int)
    requires
        0 <= k < pairs.len(),
    ensures
        clone_annotations(pairs).len() == 2 * pairs.len(),
        clone_annotations(pairs)[2 * k] == warning_at(
            pairs[k].a.file,
            Some(pairs[k].a.start_line as usize),
            clone_message(pairs[k].similarity, pairs[k].b),
        ),
        clone_annotations(pairs)[2 * k + 1] == warning_at(
            pairs[k].b.file,
            Some(pairs[k].b.start_line as usize),
            clone_message(pairs[k].similarity, pairs[k].a),
        ),
    decreases pairs.len(),
{
    lemma_clone_annotations_len(pairs);
    lemma_clone_annotations_len(pairs.drop_last());
    if k < pairs.len() - 1 {
        lemma_clone_annotations_at(pairs.drop_last(), k);
    }
}

proof fn lemma_vocab_annotations_at(findings: Seq<FindingView>, k: int)
    requires
        0 <= k < findings.len(),
    ensures
        vocab_annotations(findings).len() == findings.len(),
        vocab_annotations(findings)[k] == warning_at(
            findings[k].pair.a,
            None,
            vocab_text(findings[k]),
        ),
    decreases findings.len(),
{
    lemma_vocab_annotations_len(findings);
    lemma_vocab_annotations_len(findings.drop_last());
    if k < findings.len() - 1 {
        lemma_vocab_annotations_at(findings.drop_last(), k);
    }
}

proof fn lemma_block_annotations_at(pairs: Seq<BlockView>, k: int)
    requires
        0 <= k < pairs.len(),
    ensures
        block_annotations(pairs).len() == 2 * pairs.len(),
        block_annotations(pairs)[2 * k] == warning_at(
            pairs[k].a.file,
            Some(pairs[k].a.start_line as usize),
            block_message(pairs[k].tokens, pairs[k].b),
        ),
        block_annotations(pairs)[2 * k + 1] == warning_at(
            pairs[k].b.file,
            Some(pairs[k].b.start_line as usize),
            block_message(pairs[k].tokens, pairs[k].a),
        ),
    decreases pairs.len(),
{
    lemma_block_annotations_len(pairs);
    lemma_block_annotations_len(pairs.drop_last());
    if k < pairs.len() - 1 {
        lemma_block_annotations_at(pairs.drop_last(), k);
    }
}

// ------------------------------------------------------------ what a delta amounts to

/// Two clone pairs are of the same two bodies, listed either way round.
pub open spec fn same_bodies(p: CloneView, q: CloneView) -> bool {
    (p.a.hash == q.a.hash && p.b.hash == q.b.hash) || (p.a.hash == q.b.hash && p.b.hash
        == q.a.hash)
}

/// Two vocabulary pairs are of the same two files, listed either way round.
pub open spec fn same_files(p: VocabView, q: VocabView) -> bool {
    (p.a == q.a && p.b == q.b) || (p.a == q.b && p.b == q.a)
}

/// The clone pair is new: as similar as was asked for, and of bodies that no pair of the
/// base is of.
pub open spec fn is_new_clone(p: CloneView, base: ReportView, options: DeltaOptions) -> bool {
    options.min_similarity.le(p.similarity) && forall|i: int|
        0 <= i < base.clones.len() ==> !same_bodies(p, #[trigger] base.clones[i])
}

/// The block pair is new: no block of the base is of the same fragment.
pub open spec fn is_new_block(p: BlockView, base: ReportView) -> bool {
    forall|i: int| 0 <= i < base.blocks.len() ==> (#[trigger] base.blocks[i]).hash != p.hash
}

/// `q` is the pair of the base that is of the same two files as `p`, the last where there
/// are several.
pub open spec fn was(p: VocabView, base: ReportView, q: VocabView) -> bool {
    exists|k: int|
        0 <= k < base.vocab.len() && #[trigger] base.vocab[k] == q && same_files(p, q) && forall|
            l: int,
        |
            k < l < base.vocab.len() ==> !same_files(p, #[trigger] base.vocab[l])
}

/// There is this reason to report a vocabulary pair. It is new where the base has no pair
/// of the same two files. Otherwise it is reported where nothing imports one of the two
/// any more, and where that has not changed, if the overlap grew by more than the margin.
pub open spec fn is_reason(f: FindingView, base: ReportView, options: DeltaOptions) -> bool {
    match f.change {
        VocabChange::New => forall|i: int|
            0 <= i < base.vocab.len() ==> !same_files(f.pair, #[trigger] base.vocab[i]),
        VocabChange::BecameUnreferenced => exists|q: VocabView| #[trigger]
            was(f.pair, base, q) && f.pair.zero_inbound && !q.zero_inbound,
        VocabChange::Worsened { from, to } => exists|q: VocabView| #[trigger]
            was(f.pair, base, q) && !(f.pair.zero_inbound && !q.zero_inbound)
                && f.pair.overlap.beyond(q.overlap, options.worsened_delta) && from == q.overlap
                && to == f.pair.overlap,
    }
}

/// Without a cap, a delta tells of every finding of the head that is new and of nothing
/// else, the strongest of each kind first.
pub open spec fn tells_all_that_is_new(
    d: DeltaView,
    head: ReportView,
    base: ReportView,
    options: DeltaOptions,
) -> bool {
    &&& forall|p: CloneView| #[trigger]
        d.new_clones.contains(p) <==> head.clones.contains(p) && is_new_clone(p, base, options)
    &&& forall|f: FindingView| #[trigger]
        d.vocab.contains(f) <==> head.vocab.contains(f.pair) && is_reason(f, base, options)
    &&& forall|p: BlockView| #[trigger]
        d.new_blocks.contains(p) <==> head.blocks.contains(p) && is_new_block(p, base)
    &&& forall|i: int, j: int|
        0 <= i < j < d.new_clones.len() ==> (#[trigger] d.new_clones[j]).similarity.le(
            (#[trigger] d.new_clones[i]).similarity,
        )
    &&& forall|i: int, j: int|
        0 <= i < j < d.vocab.len() ==> (#[trigger] d.vocab[j]).pair.overlap.le(
            (#[trigger] d.vocab[i]).pair.overlap,
        )
    &&& forall|i: int, j: int|
        0 <= i < j < d.new_blocks.len() ==> (#[trigger] d.new_blocks[j]).tokens <= (
        #[trigger] d.new_blocks[i]).tokens
}

/// `few` is `all`, or as much of its front as a cap allows.
pub open spec fn is_front<A>(few: Seq<A>, all: Seq<A>, max: Option<usize>) -> bool {
    &&& few.len() <= all.len()
    &&& forall|i: int| 0 <= i < few.len() ==> #[trigger] few[i] == all[i]
    &&& match max {
        None => few.len() == all.len(),
        Some(n) => few.len() <= n && (few.len() == n || few.len() == all.len()),
    }
}

/// A delta tells of every finding of the head that is new and of nothing else, the
/// strongest first, and of each kind no more than the cap allows.
pub open spec fn tells_what_is_new(
    d: DeltaView,
    head: ReportView,
    base: ReportView,
    options: DeltaOptions,
) -> bool {
    exists|all: DeltaView| #[trigger]
        tells_all_that_is_new(all, head, base, options) && is_front(
            d.new_clones,
            all.new_clones,
            options.max_findings,
        ) && is_front(d.vocab, all.vocab, options.max_findings) && is_front(
            d.new_blocks,
            all.new_blocks,
            options.max_findings,
        )
}

proof fn lemma_last_before(base: Seq<VocabView>, key: (Seq<char>, Seq<char>), n: nat)
    requires
        n <= base.len(),
    ensures
        vocab_before(base, key, n) is None ==> forall|i: int|
            0 <= i < n ==> (#[trigger] base[i]).key() != key,
        vocab_before(base, key, n) matches Some(q) ==> exists|k: int|
            0 <= k < n && #[trigger] base[k] == q && q.key() == key && forall|l: int|
                k < l < n ==> (#[trigger] base[l]).key() != key,
    decreases n,
{
    if n > 0 {
        if base[n - 1].key() == key {
            assert(base[n - 1] == vocab_before(base, key, n).unwrap());
        } else {
            lemma_last_before(base, key, (n - 1) as nat);
            if let Some(q) = vocab_before(base, key, (n - 1) as nat) {
                let k = choose|k: int|
                    0 <= k < n - 1 && #[trigger] base[k] == q && q.key() == key && forall|l: int|
                        k < l < n - 1 ==> (#[trigger] base[l]).key() != key;
                assert(base[k] == q);
            }
        }
    }
}

proof fn lemma_reason(f: FindingView, base: ReportView, options: DeltaOptions)
    ensures
        is_reason(f, base, options) <==> change_of(f.pair, base.vocab, options.worsened_delta)
            == Some(f.change),
{
    let p = f.pair;
    let n = base.vocab.len();
    lemma_last_before(base.vocab, p.key(), n);
    assert forall|q: VocabView| same_files(p, q) <==> #[trigger] q.key() == p.key() by {
        lemma_vocab_key_is_the_two_files(p, q);
    }
    match vocab_before(base.vocab, p.key(), n) {
        None => {
            assert forall|i: int| 0 <= i < n implies !same_files(p, #[trigger] base.vocab[i]) by {
                assert(base.vocab[i].key() != p.key());
            }
            assert forall|q: VocabView| !#[trigger] was(p, base, q) by {}
        },
        Some(q) => {
            let k = choose|k: int|
                0 <= k < n && #[trigger] base.vocab[k] == q && q.key() == p.key() && forall|l: int|
                    k < l < n ==> (#[trigger] base.vocab[l]).key() != p.key();
            assert forall|l: int| k < l < n implies !same_files(p, #[trigger] base.vocab[l]) by {
                assert(base.vocab[l].key() != p.key());
            }
            assert(was(p, base, q));
            assert forall|r: VocabView| #[trigger] was(p, base, r) implies r == q by {
                let m = choose|m: int|
                    0 <= m < n && #[trigger] base.vocab[m] == r && same_files(p, r) && forall|
                        l: int,
                    |
                        m < l < n ==> !same_files(p, #[trigger] base.vocab[l]);
                assert(same_files(p, base.vocab[k]));
            }
        },
    }
}

/// Every finding of the head that the base does not have is reported, and nothing that it
/// has: a clone pair is known by its two bodies, a block by its fragment and a vocabulary
/// pair by its two files, whichever side is listed first. A vocabulary pair that was known
/// is reported where nothing imports one of its files any more, or its overlap grew by
/// more than the margin. The strongest come first, and a cap keeps the front of each kind.
pub proof fn lemma_the_delta_tells_what_is_new(
    head: ReportView,
    base: ReportView,
    options: DeltaOptions,
)
    ensures
        tells_what_is_new(delta_of(head, base, options), head, base, options),
{
    let free = with_cap(options, None);
    let all = delta_of(head, base, free);
    lemma_only_new_findings(head, base, free);
    lemma_no_new_finding_is_missed(head, base, free);
    lemma_a_cap_keeps_the_strongest(head, base, options, 0);
    assert forall|p: CloneView| has_clone(base.clones, #[trigger] p.key()) <==> exists|i: int|
        0 <= i < base.clones.len() && same_bodies(p, #[trigger] base.clones[i]) by {
        assert forall|i: int| 0 <= i < base.clones.len() implies (same_bodies(
            p,
            #[trigger] base.clones[i],
        ) <==> base.clones[i].key() == p.key()) by {
            lemma_clone_key_is_the_two_bodies(p, base.clones[i]);
        }
    }
    assert forall|p: CloneView| #[trigger] all.new_clones.contains(p) <==> head.clones.contains(p)
        && is_new_clone(p, base, options) by {
        assert(has_clone(base.clones, p.key()) <==> exists|i: int|
            0 <= i < base.clones.len() && same_bodies(p, #[trigger] base.clones[i]));
        if all.new_clones.contains(p) {
            let k = choose|k: int| 0 <= k < all.new_clones.len() && all.new_clones[k] == p;
            assert(head.clones.contains(all.new_clones[k]));
        }
    }
    assert forall|p: BlockView| #[trigger] all.new_blocks.contains(p) <==> head.blocks.contains(p)
        && is_new_block(p, base) by {
        if all.new_blocks.contains(p) {
            let k = choose|k: int| 0 <= k < all.new_blocks.len() && all.new_blocks[k] == p;
            assert(head.blocks.contains(all.new_blocks[k]));
        }
    }
    let vocab = sorted::<VocabPair, StrongestVocab>(head.vocab);
    assert forall|f: FindingView| #[trigger] all.vocab.contains(f) <==> head.vocab.contains(f.pair)
        && is_reason(f, base, options) by {
        lemma_reason(f, base, options);
        lemma_sorted_holds::<VocabPair, StrongestVocab>(head.vocab, f.pair);
        if all.vocab.contains(f) {
            let k = choose|k: int| 0 <= k < all.vocab.len() && all.vocab[k] == f;
            let i = lemma_vocab_member(vocab, base.vocab, options.worsened_delta, k);
            assert(vocab.contains(vocab[i]));
        }
        if head.vocab.contains(f.pair) && is_reason(f, base, options) {
            let i = choose|i: int| 0 <= i < vocab.len() && vocab[i] == f.pair;
            let k = lemma_vocab_kept(vocab, base.vocab, options.worsened_delta, i);
            assert(all.vocab[k] == f);
        }
    }
    let pairs = all.vocab.map_values(|f: FindingView| f.pair);
    assert forall|i: int, j: int| 0 <= i < j < all.vocab.len() implies (
    #[trigger] all.vocab[j]).pair.overlap.le((#[trigger] all.vocab[i]).pair.overlap) by {
        assert(StrongestVocab::precedes(pairs[i], pairs[j]));
    }
    assert forall|i: int, j: int| 0 <= i < j < all.new_clones.len() implies (
    #[trigger] all.new_clones[j]).similarity.le((#[trigger] all.new_clones[i]).similarity) by {
        assert(StrongestClone::precedes(all.new_clones[i], all.new_clones[j]));
    }
    assert forall|i: int, j: int| 0 <= i < j < all.new_blocks.len() implies (
    #[trigger] all.new_blocks[j]).tokens <= (#[trigger] all.new_blocks[i]).tokens by {
        assert(LongestBlock::precedes(all.new_blocks[i], all.new_blocks[j]));
    }
    assert(tells_all_that_is_new(all, head, base, options));
}

} // verus!
