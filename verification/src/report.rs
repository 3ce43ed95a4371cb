//! The scan report — the contract between detectors and the delta engine.
//!
//! A report is what one scan of one tree produced. The delta engine never
//! re-scans anything; it loads two reports, one from the branch and one from
//! the merge-base, and asks what is in the first that was not in the second.
//!
//! # Identity is a content hash, never a location
//!
//! Every finding carries a [`ContentHash`] of the normalized code it describes.
//! That is what makes "already existed, just moved" distinguishable from
//! "genuinely new". Matching on `(file, line)` instead would re-report an
//! untouched duplicate the moment anything above it shifted the line numbers,
//! and a report that cries wolf on every unrelated edit gets muted.

use vstd::prelude::*;
use vstd::string::*;

use crate::names::{is_set_of, lemma_set_list_unique, name_set, ordered};
use crate::ratio::{lemma_le_total, lemma_le_transitive, Ratio};
use crate::sort::{
    lemma_sorted, lemma_sorted_holds, lemma_sorted_of_sorted, sort, sorted, views, Order,
};
use crate::text::{
    alphabetical, decimal, ends_telling, in_pair_order, lemma_alphabetical_antisymmetric,
    lemma_alphabetical_total, lemma_alphabetical_transitive, lemma_pair_alphabetical,
    lemma_pair_order_symmetric, lemma_parts_are_told, pair_alphabetical, pair_at_most, push_decimal,
    same_text, tells_both, text_at_most,
};
use crate::token::ContentHash;

verus! {

/// Version of the report format.
///
/// Bumped on any incompatible change. A report of another version is refused
/// rather than read optimistically: a delta computed from a misread report would
/// be silently wrong, which is worse than an error.
pub const REPORT_VERSION: u32 = 1;

// ----------------------------------------------------------------------- findings

/// What a [`UnitRef`] holds.
#[verifier::ext_equal]
pub struct UnitRefView {
    /// Path relative to the scanned tree's root.
    pub file: Seq<char>,
    /// Dotted path to the unit inside the file.
    pub qualname: Seq<char>,
    /// First line.
    pub start_line: nat,
    /// Last line.
    pub end_line: nat,
    /// Identity of the unit's normalized body.
    pub hash: Seq<char>,
}

/// Where a unit lives, and what it is.
#[derive(Debug, PartialEq, Eq)]
pub struct UnitRef {
    /// Path relative to the scanned tree's root, using `/` separators.
    pub file: String,
    /// Dotted path to the unit inside the file.
    pub qualname: String,
    /// First line, 1-based.
    pub start_line: usize,
    /// Last line, 1-based, itself part of the unit.
    pub end_line: usize,
    /// Location-independent identity of the unit's normalized body.
    pub hash: ContentHash,
}

impl View for UnitRef {
    type V = UnitRefView;

    open spec fn view(&self) -> UnitRefView {
        UnitRefView {
            file: self.file@,
            qualname: self.qualname@,
            start_line: self.start_line as nat,
            end_line: self.end_line as nat,
            hash: self.hash@,
        }
    }
}

impl Clone for UnitRef {
    fn clone(&self) -> (u: Self)
        ensures
            u@ == self@,
    {
        UnitRef {
            file: self.file.clone(),
            qualname: self.qualname.clone(),
            start_line: self.start_line,
            end_line: self.end_line,
            hash: self.hash.clone(),
        }
    }
}

/// What a [`ClonePair`] holds.
#[verifier::ext_equal]
pub struct CloneView {
    /// The similarity of the two units.
    pub similarity: Ratio,
    /// One side.
    pub a: UnitRefView,
    /// The other side.
    pub b: UnitRefView,
}

impl CloneView {
    /// Order-independent identity of the pair.
    pub open spec fn key(self) -> (Seq<char>, Seq<char>) {
        in_pair_order(self.a.hash, self.b.hash)
    }
}

/// Two units similar enough to report.
#[derive(Debug, PartialEq)]
pub struct ClonePair {
    /// Ratcliff–Obershelp similarity, from zero to one.
    pub similarity: Ratio,
    /// One side.
    pub a: UnitRef,
    /// The other side.
    pub b: UnitRef,
}

impl View for ClonePair {
    type V = CloneView;

    open spec fn view(&self) -> CloneView {
        CloneView { similarity: self.similarity, a: self.a@, b: self.b@ }
    }
}

impl Clone for ClonePair {
    fn clone(&self) -> (p: Self)
        ensures
            p@ == self@,
    {
        ClonePair { similarity: self.similarity, a: self.a.clone(), b: self.b.clone() }
    }
}

impl ClonePair {
    /// Order-independent identity of the pair.
    ///
    /// A pair is the same pair whichever side got listed first, so the key
    /// sorts the two hashes. Without this, swapping the sides between two scans
    /// would make an unchanged pair look new.
    pub fn key(&self) -> (k: (ContentHash, ContentHash))
        ensures
            (k.0@, k.1@) == self@.key(),
    {
        if text_at_most(self.a.hash.as_str(), self.b.hash.as_str()) {
            (self.a.hash.clone(), self.b.hash.clone())
        } else {
            (self.b.hash.clone(), self.a.hash.clone())
        }
    }
}

/// What a [`VocabPair`] holds.
#[verifier::ext_equal]
pub struct VocabView {
    /// One file.
    pub a: Seq<char>,
    /// The other file.
    pub b: Seq<char>,
    /// Shared identifiers over the smaller vocabulary.
    pub overlap: Ratio,
    /// Number of identifiers common to both.
    pub shared: nat,
    /// Distinct identifiers in `a`.
    pub a_vocabulary: nat,
    /// Distinct identifiers in `b`.
    pub b_vocabulary: nat,
    /// How many other files import `a`.
    pub a_inbound_imports: nat,
    /// How many other files import `b`.
    pub b_inbound_imports: nat,
    /// Whether either side has no inbound imports at all.
    pub zero_inbound: bool,
    /// A sample of the shared identifiers.
    pub sample_shared: Seq<Seq<char>>,
}

impl VocabView {
    /// Order-independent identity of the pair.
    pub open spec fn key(self) -> (Seq<char>, Seq<char>) {
        in_pair_order(self.a, self.b)
    }
}

/// Two files sharing an unusual amount of identifier vocabulary.
///
/// This catches what function-level comparison structurally cannot: a module
/// that reimplements another's rules with a completely different set of
/// functions. It scores near zero on any clone metric while sharing the domain
/// nouns that gave the original module its meaning.
#[derive(Debug, PartialEq)]
pub struct VocabPair {
    /// One file.
    pub a: String,
    /// The other file.
    pub b: String,
    /// Shared identifiers over the smaller vocabulary, from zero to one.
    pub overlap: Ratio,
    /// Number of identifiers common to both.
    pub shared: usize,
    /// Distinct identifiers in `a`.
    pub a_vocabulary: usize,
    /// Distinct identifiers in `b`.
    pub b_vocabulary: usize,
    /// How many other files import `a`.
    pub a_inbound_imports: usize,
    /// How many other files import `b`.
    pub b_inbound_imports: usize,
    /// Whether either side has no inbound imports at all.
    ///
    /// Heavy vocabulary overlap *and* nothing importing it is the signature of
    /// a module that duplicates a live one's concepts while nothing reaches it.
    pub zero_inbound: bool,
    /// A sample of the shared identifiers, for the reader to judge by.
    pub sample_shared: Vec<String>,
}

impl View for VocabPair {
    type V = VocabView;

    open spec fn view(&self) -> VocabView {
        VocabView {
            a: self.a@,
            b: self.b@,
            overlap: self.overlap,
            shared: self.shared as nat,
            a_vocabulary: self.a_vocabulary as nat,
            b_vocabulary: self.b_vocabulary as nat,
            a_inbound_imports: self.a_inbound_imports as nat,
            b_inbound_imports: self.b_inbound_imports as nat,
            zero_inbound: self.zero_inbound,
            sample_shared: views(self.sample_shared@),
        }
    }
}

impl Clone for VocabPair {
    fn clone(&self) -> (p: Self)
        ensures
            p@ == self@,
    {
        VocabPair {
            a: self.a.clone(),
            b: self.b.clone(),
            overlap: self.overlap,
            shared: self.shared,
            a_vocabulary: self.a_vocabulary,
            b_vocabulary: self.b_vocabulary,
            a_inbound_imports: self.a_inbound_imports,
            b_inbound_imports: self.b_inbound_imports,
            zero_inbound: self.zero_inbound,
            sample_shared: cloned_all(&self.sample_shared),
        }
    }
}

impl VocabPair {
    /// Order-independent identity of the pair.
    ///
    /// Files, not hashes: a module has no single normalized body to hash. The
    /// consequence is that renaming a file makes its pairs look new — a known
    /// limitation, documented rather than papered over.
    pub fn key(&self) -> (k: (String, String))
        ensures
            (k.0@, k.1@) == self@.key(),
    {
        if text_at_most(self.a.as_str(), self.b.as_str()) {
            (self.a.clone(), self.b.clone())
        } else {
            (self.b.clone(), self.a.clone())
        }
    }
}

/// What a [`BlockRef`] holds.
#[verifier::ext_equal]
pub struct BlockRefView {
    /// Path relative to the scanned tree's root.
    pub file: Seq<char>,
    /// First line.
    pub start_line: nat,
    /// Last line.
    pub end_line: nat,
}

/// Where a duplicated fragment sits inside a file.
#[derive(Debug, PartialEq, Eq)]
pub struct BlockRef {
    /// Path relative to the scanned tree's root.
    pub file: String,
    /// First line, 1-based.
    pub start_line: usize,
    /// Last line, 1-based, itself part of the fragment.
    pub end_line: usize,
}

impl View for BlockRef {
    type V = BlockRefView;

    open spec fn view(&self) -> BlockRefView {
        BlockRefView {
            file: self.file@,
            start_line: self.start_line as nat,
            end_line: self.end_line as nat,
        }
    }
}

impl Clone for BlockRef {
    fn clone(&self) -> (r: Self)
        ensures
            r@ == self@,
    {
        BlockRef { file: self.file.clone(), start_line: self.start_line, end_line: self.end_line }
    }
}

/// What a [`BlockPair`] holds.
#[verifier::ext_equal]
pub struct BlockView {
    /// One occurrence.
    pub a: BlockRefView,
    /// The other occurrence.
    pub b: BlockRefView,
    /// Length of the repeated run.
    pub tokens: nat,
    /// Identity of the repeated fragment.
    pub hash: Seq<char>,
}

impl BlockView {
    /// Identity of the finding: the fragment, plus which two files hold it.
    pub open spec fn key(self) -> (Seq<char>, (Seq<char>, Seq<char>)) {
        (self.hash, in_pair_order(self.a.file, self.b.file))
    }
}

/// A run of code repeated in two places, possibly inside larger, differently
/// shaped functions.
#[derive(Debug, PartialEq, Eq)]
pub struct BlockPair {
    /// One occurrence.
    pub a: BlockRef,
    /// The other occurrence.
    pub b: BlockRef,
    /// Length of the repeated run, in normalized tokens.
    pub tokens: usize,
    /// Identity of the repeated fragment. Both sides share it, by definition.
    pub hash: ContentHash,
}

impl View for BlockPair {
    type V = BlockView;

    open spec fn view(&self) -> BlockView {
        BlockView { a: self.a@, b: self.b@, tokens: self.tokens as nat, hash: self.hash@ }
    }
}

impl Clone for BlockPair {
    fn clone(&self) -> (p: Self)
        ensures
            p@ == self@,
    {
        BlockPair {
            a: self.a.clone(),
            b: self.b.clone(),
            tokens: self.tokens,
            hash: self.hash.clone(),
        }
    }
}

impl BlockPair {
    /// Identity of the finding: the fragment, plus which two files hold it.
    ///
    /// The fragment hash alone would collapse every occurrence of a widely
    /// repeated idiom into one finding; adding the files keeps each pair
    /// distinct while staying independent of line numbers.
    pub fn key(&self) -> (k: (ContentHash, String, String))
        ensures
            (k.0@, (k.1@, k.2@)) == self@.key(),
    {
        if text_at_most(self.a.file.as_str(), self.b.file.as_str()) {
            (self.hash.clone(), self.a.file.clone(), self.b.file.clone())
        } else {
            (self.hash.clone(), self.b.file.clone(), self.a.file.clone())
        }
    }
}

/// A list of the same texts.
pub(crate) fn cloned_all(list: &Vec<String>) -> (r: Vec<String>)
    ensures
        views(r@) == views(list@),
{
    let mut r: Vec<String> = Vec::new();
    let mut i: usize = 0;
    while i < list.len()
        invariant
            i <= list@.len(),
            views(r@) == views(list@).take(i as int),
        decreases list.len() - i,
    {
        let ghost before = views(r@);
        r.push(list[i].clone());
        assert(views(r@) =~= before.push(list@[i as int]@));
        i += 1;
        assert(views(r@) =~= views(list@).take(i as int));
    }
    assert(views(r@) =~= views(list@));
    r
}

/// A list of the same clone pairs.
pub(crate) fn copy_clones(list: &Vec<ClonePair>) -> (r: Vec<ClonePair>)
    ensures
        views(r@) == views(list@),
{
    let mut r: Vec<ClonePair> = Vec::new();
    let mut i: usize = 0;
    while i < list.len()
        invariant
            i <= list@.len(),
            views(r@) == views(list@).take(i as int),
        decreases list.len() - i,
    {
        let ghost before = views(r@);
        r.push(list[i].clone());
        assert(views(r@) =~= before.push(list@[i as int]@));
        i += 1;
        assert(views(r@) =~= views(list@).take(i as int));
    }
    assert(views(r@) =~= views(list@));
    r
}

/// A list of the same vocabulary pairs.
pub(crate) fn copy_vocab(list: &Vec<VocabPair>) -> (r: Vec<VocabPair>)
    ensures
        views(r@) == views(list@),
{
    let mut r: Vec<VocabPair> = Vec::new();
    let mut i: usize = 0;
    while i < list.len()
        invariant
            i <= list@.len(),
            views(r@) == views(list@).take(i as int),
        decreases list.len() - i,
    {
        let ghost before = views(r@);
        r.push(list[i].clone());
        assert(views(r@) =~= before.push(list@[i as int]@));
        i += 1;
        assert(views(r@) =~= views(list@).take(i as int));
    }
    assert(views(r@) =~= views(list@));
    r
}

/// A list of the same block pairs.
pub(crate) fn copy_blocks(list: &Vec<BlockPair>) -> (r: Vec<BlockPair>)
    ensures
        views(r@) == views(list@),
{
    let mut r: Vec<BlockPair> = Vec::new();
    let mut i: usize = 0;
    while i < list.len()
        invariant
            i <= list@.len(),
            views(r@) == views(list@).take(i as int),
        decreases list.len() - i,
    {
        let ghost before = views(r@);
        r.push(list[i].clone());
        assert(views(r@) =~= before.push(list@[i as int]@));
        i += 1;
        assert(views(r@) =~= views(list@).take(i as int));
    }
    assert(views(r@) =~= views(list@));
    r
}

// ------------------------------------------------------------------------- orders

/// Clones with the strongest first, then by key.
pub struct StrongestClone;

impl Order<ClonePair> for StrongestClone {
    open spec fn precedes(a: CloneView, b: CloneView) -> bool {
        b.similarity.le(a.similarity) && (a.similarity.le(b.similarity) ==> pair_alphabetical(
            a.key(),
            b.key(),
        ))
    }

    proof fn lemma_total(a: CloneView, b: CloneView) {
        lemma_le_total(a.similarity, b.similarity);
        lemma_pair_alphabetical(a.key(), b.key(), a.key());
    }

    proof fn lemma_transitive(a: CloneView, b: CloneView, c: CloneView) {
        lemma_le_transitive(c.similarity, b.similarity, a.similarity);
        if a.similarity.le(c.similarity) {
            lemma_le_transitive(b.similarity, a.similarity, c.similarity);
            lemma_le_transitive(a.similarity, c.similarity, b.similarity);
            lemma_pair_alphabetical(a.key(), b.key(), c.key());
        }
    }

    fn may_precede(a: &ClonePair, b: &ClonePair) -> (r: bool) {
        if !b.similarity.at_most(&a.similarity) {
            return false;
        }
        if !a.similarity.at_most(&b.similarity) {
            return true;
        }
        let (ka, kb) = (a.key(), b.key());
        pair_at_most(ka.0.as_str(), ka.1.as_str(), kb.0.as_str(), kb.1.as_str())
    }
}

/// Vocabulary pairs with the greatest overlap first, then by key.
pub struct StrongestVocab;

impl Order<VocabPair> for StrongestVocab {
    open spec fn precedes(a: VocabView, b: VocabView) -> bool {
        b.overlap.le(a.overlap) && (a.overlap.le(b.overlap) ==> pair_alphabetical(
            a.key(),
            b.key(),
        ))
    }

    proof fn lemma_total(a: VocabView, b: VocabView) {
        lemma_le_total(a.overlap, b.overlap);
        lemma_pair_alphabetical(a.key(), b.key(), a.key());
    }

    proof fn lemma_transitive(a: VocabView, b: VocabView, c: VocabView) {
        lemma_le_transitive(c.overlap, b.overlap, a.overlap);
        if a.overlap.le(c.overlap) {
            lemma_le_transitive(b.overlap, a.overlap, c.overlap);
            lemma_le_transitive(a.overlap, c.overlap, b.overlap);
            lemma_pair_alphabetical(a.key(), b.key(), c.key());
        }
    }

    fn may_precede(a: &VocabPair, b: &VocabPair) -> (r: bool) {
        if !b.overlap.at_most(&a.overlap) {
            return false;
        }
        if !a.overlap.at_most(&b.overlap) {
            return true;
        }
        let (ka, kb) = (a.key(), b.key());
        pair_at_most(ka.0.as_str(), ka.1.as_str(), kb.0.as_str(), kb.1.as_str())
    }
}

/// `a` comes no later than `b`: by its text, then by its pair of texts.
pub open spec fn key_alphabetical(
    a: (Seq<char>, (Seq<char>, Seq<char>)),
    b: (Seq<char>, (Seq<char>, Seq<char>)),
) -> bool {
    alphabetical(a.0, b.0) && (a.0 == b.0 ==> pair_alphabetical(a.1, b.1))
}

proof fn lemma_key_alphabetical(
    a: (Seq<char>, (Seq<char>, Seq<char>)),
    b: (Seq<char>, (Seq<char>, Seq<char>)),
    c: (Seq<char>, (Seq<char>, Seq<char>)),
)
    ensures
        key_alphabetical(a, b) || key_alphabetical(b, a),
        key_alphabetical(a, b) && key_alphabetical(b, c) ==> key_alphabetical(a, c),
{
    lemma_alphabetical_total(a.0, b.0);
    lemma_pair_alphabetical(a.1, b.1, c.1);
    if key_alphabetical(a, b) && key_alphabetical(b, c) {
        lemma_alphabetical_transitive(a.0, b.0, c.0);
        if a.0 == c.0 {
            lemma_alphabetical_antisymmetric(a.0, b.0);
        }
    }
}

/// Blocks with the longest first, then by key.
pub struct LongestBlock;

impl Order<BlockPair> for LongestBlock {
    open spec fn precedes(a: BlockView, b: BlockView) -> bool {
        a.tokens > b.tokens || (a.tokens == b.tokens && key_alphabetical(a.key(), b.key()))
    }

    proof fn lemma_total(a: BlockView, b: BlockView) {
        lemma_key_alphabetical(a.key(), b.key(), a.key());
    }

    proof fn lemma_transitive(a: BlockView, b: BlockView, c: BlockView) {
        lemma_key_alphabetical(a.key(), b.key(), c.key());
    }

    fn may_precede(a: &BlockPair, b: &BlockPair) -> (r: bool) {
        if a.tokens != b.tokens {
            return a.tokens > b.tokens;
        }
        let (ka, kb) = (a.key(), b.key());
        text_at_most(ka.0.as_str(), kb.0.as_str()) && (!same_text(ka.0.as_str(), kb.0.as_str())
            || pair_at_most(ka.1.as_str(), ka.2.as_str(), kb.1.as_str(), kb.2.as_str()))
    }
}

// ------------------------------------------------------------------------- report

/// What a report holds.
#[verifier::ext_equal]
pub struct ReportView {
    /// Format version.
    pub version: u32,
    /// How many files were parsed.
    pub files_scanned: nat,
    /// How many units were compared.
    pub units_considered: nat,
    /// Files with syntax errors.
    pub files_with_syntax_errors: Seq<Seq<char>>,
    /// Function-level near-duplicate pairs.
    pub clones: Seq<CloneView>,
    /// Module-level vocabulary-overlap pairs.
    pub vocab: Seq<VocabView>,
    /// Sub-function repeated fragments.
    pub blocks: Seq<BlockView>,
}

/// Everything one scan of one tree found.
#[derive(Debug, PartialEq)]
pub struct Report {
    /// Format version; see [`REPORT_VERSION`].
    pub version: u32,
    /// How many files were parsed.
    pub files_scanned: usize,
    /// How many units cleared the size threshold and were compared.
    pub units_considered: usize,
    /// Files the grammar reported syntax errors in, sorted and deduplicated.
    ///
    /// Not fatal, but load-bearing: a scan of a tree it cannot parse finds no
    /// duplication and looks identical to a scan of a clean one.
    pub files_with_syntax_errors: Vec<String>,
    /// Function-level near-duplicate pairs.
    pub clones: Vec<ClonePair>,
    /// Module-level vocabulary-overlap pairs.
    pub vocab: Vec<VocabPair>,
    /// Sub-function repeated fragments.
    pub blocks: Vec<BlockPair>,
}

impl View for Report {
    type V = ReportView;

    open spec fn view(&self) -> ReportView {
        ReportView {
            version: self.version,
            files_scanned: self.files_scanned as nat,
            units_considered: self.units_considered as nat,
            files_with_syntax_errors: views(self.files_with_syntax_errors@),
            clones: views(self.clones@),
            vocab: views(self.vocab@),
            blocks: views(self.blocks@),
        }
    }
}

/// A report of nothing.
pub open spec fn empty_report() -> ReportView {
    ReportView {
        version: REPORT_VERSION,
        files_scanned: 0,
        units_considered: 0,
        files_with_syntax_errors: Seq::empty(),
        clones: Seq::empty(),
        vocab: Seq::empty(),
        blocks: Seq::empty(),
    }
}

impl Default for Report {
    fn default() -> (r: Self)
        ensures
            r@ == empty_report(),
    {
        let r = Report {
            version: REPORT_VERSION,
            files_scanned: 0,
            units_considered: 0,
            files_with_syntax_errors: Vec::new(),
            clones: Vec::new(),
            vocab: Vec::new(),
            blocks: Vec::new(),
        };
        assert(r@ =~= empty_report());
        r
    }
}

impl Clone for Report {
    fn clone(&self) -> (r: Self)
        ensures
            r@ == self@,
    {
        Report {
            version: self.version,
            files_scanned: self.files_scanned,
            units_considered: self.units_considered,
            files_with_syntax_errors: cloned_all(&self.files_with_syntax_errors),
            clones: copy_clones(&self.clones),
            vocab: copy_vocab(&self.vocab),
            blocks: copy_blocks(&self.blocks),
        }
    }
}

/// `after` is `before`, every finding in its place and the files with syntax
/// errors listed once each.
pub open spec fn is_sorted_report(after: ReportView, before: ReportView) -> bool {
    &&& after.version == before.version
    &&& after.files_scanned == before.files_scanned
    &&& after.units_considered == before.units_considered
    &&& after.clones == sorted::<ClonePair, StrongestClone>(before.clones)
    &&& after.vocab == sorted::<VocabPair, StrongestVocab>(before.vocab)
    &&& after.blocks == sorted::<BlockPair, LongestBlock>(before.blocks)
    &&& is_set_of(after.files_with_syntax_errors, before.files_with_syntax_errors.to_set())
}

/// Why a report could not be read or written.
#[derive(Debug)]
pub enum ReportError {
    /// The file could not be read or written.
    Io {
        /// Path involved.
        path: String,
        /// Underlying cause.
        source: String,
    },
    /// The JSON was malformed.
    Malformed {
        /// Path involved, if the report came from a file.
        path: Option<String>,
        /// Underlying cause.
        source: String,
    },
    /// The report announced a format version this build cannot read.
    UnsupportedVersion {
        /// Version the report claims.
        found: u32,
        /// Version this build understands.
        expected: u32,
    },
}

impl ReportError {
    /// The message for a reader.
    pub open spec fn message(self) -> Seq<char> {
        match self {
            ReportError::Io { path, source } => "could not access report "@ + path@ + ": "@
                + source@,
            ReportError::Malformed { path: Some(path), source } => "malformed report "@ + path@
                + ": "@ + source@,
            ReportError::Malformed { path: None, source } => "malformed report: "@ + source@,
            ReportError::UnsupportedVersion { found, expected } => "report format version "@
                + decimal(found as nat) + " is not readable by this build, which understands "@
                + decimal(expected as nat),
        }
    }

    /// The message for a reader.
    pub fn to_string(&self) -> (s: String)
        ensures
            s@ == self.message(),
    {
        let mut s = String::new();
        match self {
            ReportError::Io { path, source } => {
                s.append("could not access report ");
                s.append(path.as_str());
                s.append(": ");
                s.append(source.as_str());
            },
            ReportError::Malformed { path: Some(path), source } => {
                s.append("malformed report ");
                s.append(path.as_str());
                s.append(": ");
                s.append(source.as_str());
            },
            ReportError::Malformed { path: None, source } => {
                s.append("malformed report: ");
                s.append(source.as_str());
            },
            ReportError::UnsupportedVersion { found, expected } => {
                s.append("report format version ");
                push_decimal(&mut s, *found as u128);
                s.append(" is not readable by this build, which understands ");
                push_decimal(&mut s, *expected as u128);
            },
        }
        assert(s@ =~= self.message());
        s
    }
}

/// The smallest of a sum of three counts and the largest count there is.
pub open spec fn sum_of_three(a: nat, b: nat, c: nat) -> nat {
    if a + b + c <= usize::MAX {
        a + b + c
    } else {
        usize::MAX as nat
    }
}

impl Report {
    /// Sort every finding into a deterministic order.
    ///
    /// Two scans of identical trees must produce byte-identical reports, or a
    /// diff of the files shows churn that is not there. Clones sort by
    /// descending similarity so the strongest finding is read first.
    pub fn sort(&mut self)
        ensures
            is_sorted_report(final(self)@, old(self)@),
            reads_strongest_first(final(self)@, old(self)@),
    {
        let mut clones: Vec<ClonePair> = Vec::new();
        core::mem::swap(&mut clones, &mut self.clones);
        self.clones = sort::<ClonePair, StrongestClone>(clones);
        let mut vocab: Vec<VocabPair> = Vec::new();
        core::mem::swap(&mut vocab, &mut self.vocab);
        self.vocab = sort::<VocabPair, StrongestVocab>(vocab);
        let mut blocks: Vec<BlockPair> = Vec::new();
        core::mem::swap(&mut blocks, &mut self.blocks);
        self.blocks = sort::<BlockPair, LongestBlock>(blocks);
        let mut files: Vec<String> = Vec::new();
        core::mem::swap(&mut files, &mut self.files_with_syntax_errors);
        self.files_with_syntax_errors = name_set(files);
        proof {
            lemma_a_sorted_report_reads_strongest_first(self@, old(self)@);
        }
    }

    /// Total findings across all three detectors.
    pub fn finding_count(&self) -> (n: usize)
        ensures
            n == sum_of_three(self@.clones.len(), self@.vocab.len(), self@.blocks.len()),
    {
        self.clones.len().saturating_add(self.vocab.len()).saturating_add(self.blocks.len())
    }

    /// The report that parsing a text gave, if it gave one and it is of a version this
    /// build can read: a delta computed from a misread report would be silently
    /// wrong. `path` is where the text came from, if it came from a file.
    pub fn accept(parsed: Result<Report, String>, path: Option<String>) -> (r: Result<
        Report,
        ReportError,
    >)
        ensures
            match parsed {
                Err(source) => r == Err::<Report, ReportError>(
                    ReportError::Malformed { path, source },
                ),
                Ok(p) => if p.version == REPORT_VERSION {
                    r == Ok::<Report, ReportError>(p)
                } else {
                    r == Err::<Report, ReportError>(
                        ReportError::UnsupportedVersion {
                            found: p.version,
                            expected: REPORT_VERSION,
                        },
                    )
                },
            },
    {
        match parsed {
            Err(source) => Err(ReportError::Malformed { path, source }),
            Ok(report) => report.of_this_version(),
        }
    }

    /// A report just read, refused if it is of a version this build cannot read.
    pub fn of_this_version(self) -> (r: Result<Report, ReportError>)
        ensures
            self.version == REPORT_VERSION ==> r == Ok::<Report, ReportError>(self),
            self.version != REPORT_VERSION ==> r == Err::<Report, ReportError>(
                ReportError::UnsupportedVersion { found: self.version, expected: REPORT_VERSION },
            ),
    {
        if self.version != REPORT_VERSION {
            Err(ReportError::UnsupportedVersion { found: self.version, expected: REPORT_VERSION })
        } else {
            Ok(self)
        }
    }
}

// --------------------------------------------------------------------------- laws

/// A clone pair is the same pair whichever side is listed first.
pub proof fn lemma_clone_key_ignores_sides(p: CloneView, q: CloneView)
    requires
        p.a.hash == q.b.hash,
        p.b.hash == q.a.hash,
    ensures
        p.key() == q.key(),
{
    lemma_pair_order_symmetric(p.a.hash, p.b.hash);
}

/// A clone pair is known by its two bodies, whichever is listed first, and by nothing
/// else: two pairs have the same key exactly where their bodies are the same two.
pub proof fn lemma_clone_key_is_the_two_bodies(p: CloneView, q: CloneView)
    ensures
        p.key() == q.key() <==> (p.a.hash == q.a.hash && p.b.hash == q.b.hash) || (p.a.hash
            == q.b.hash && p.b.hash == q.a.hash),
{
    lemma_pair_order_symmetric(p.a.hash, p.b.hash);
    lemma_pair_order_symmetric(q.a.hash, q.b.hash);
}

/// A vocabulary pair is known by its two files, whichever is listed first, and by nothing
/// else.
pub proof fn lemma_vocab_key_is_the_two_files(p: VocabView, q: VocabView)
    ensures
        p.key() == q.key() <==> (p.a == q.a && p.b == q.b) || (p.a == q.b && p.b == q.a),
{
    lemma_pair_order_symmetric(p.a, p.b);
    lemma_pair_order_symmetric(q.a, q.b);
}

/// A block pair is known by its fragment and its two files, whichever is listed first, and
/// by nothing else.
pub proof fn lemma_block_key_is_the_fragment_and_the_files(p: BlockView, q: BlockView)
    ensures
        p.key() == q.key() <==> p.hash == q.hash && ((p.a.file == q.a.file && p.b.file
            == q.b.file) || (p.a.file == q.b.file && p.b.file == q.a.file)),
{
    lemma_pair_order_symmetric(p.a.file, p.b.file);
    lemma_pair_order_symmetric(q.a.file, q.b.file);
}

/// A vocabulary pair is the same pair whichever file is listed first.
pub proof fn lemma_vocab_key_ignores_sides(p: VocabView, q: VocabView)
    requires
        p.a == q.b,
        p.b == q.a,
    ensures
        p.key() == q.key(),
{
    lemma_pair_order_symmetric(p.a, p.b);
}

/// A block pair is the same pair whichever occurrence is listed first, and
/// wherever in their files the two stand.
pub proof fn lemma_block_key_ignores_sides(p: BlockView, q: BlockView)
    requires
        p.hash == q.hash,
        p.a.file == q.b.file,
        p.b.file == q.a.file,
    ensures
        p.key() == q.key(),
{
    lemma_pair_order_symmetric(p.a.file, p.b.file);
}

/// Moving, renaming or re-indenting either side of a clone pair keeps its identity:
/// the key rests on the two bodies alone.
pub proof fn lemma_clone_key_ignores_places(p: CloneView, q: CloneView)
    requires
        p.a.hash == q.a.hash,
        p.b.hash == q.b.hash,
    ensures
        p.key() == q.key(),
{
}

/// Sorting a sorted report changes nothing.
pub proof fn lemma_sorting_twice(once: ReportView, twice: ReportView, report: ReportView)
    requires
        is_sorted_report(once, report),
        is_sorted_report(twice, once),
    ensures
        twice == once,
{
    lemma_sorted::<ClonePair, StrongestClone>(report.clones);
    lemma_sorted_of_sorted::<ClonePair, StrongestClone>(once.clones);
    lemma_sorted::<VocabPair, StrongestVocab>(report.vocab);
    lemma_sorted_of_sorted::<VocabPair, StrongestVocab>(once.vocab);
    lemma_sorted::<BlockPair, LongestBlock>(report.blocks);
    lemma_sorted_of_sorted::<BlockPair, LongestBlock>(once.blocks);
    lemma_same_files(once, twice, once.files_with_syntax_errors);
}

/// Sorting a report has one outcome.
pub proof fn lemma_sorting_is_determined(one: ReportView, other: ReportView, report: ReportView)
    requires
        is_sorted_report(one, report),
        is_sorted_report(other, report),
    ensures
        one == other,
{
    lemma_same_files(one, other, report.files_with_syntax_errors);
}

proof fn lemma_same_files(one: ReportView, other: ReportView, files: Seq<Seq<char>>)
    requires
        ordered(one.files_with_syntax_errors),
        is_set_of(other.files_with_syntax_errors, files.to_set()),
        is_set_of(one.files_with_syntax_errors, files.to_set()) || files
            == one.files_with_syntax_errors,
    ensures
        one.files_with_syntax_errors == other.files_with_syntax_errors,
{
    let (a, b) = (one.files_with_syntax_errors, other.files_with_syntax_errors);
    assert forall|x: Seq<char>| #[trigger] a.contains(x) <==> b.contains(x) by {
        assert(b.contains(x) <==> files.to_set().contains(x));
        assert(files.to_set().contains(x) <==> files.contains(x));
    }
    lemma_set_list_unique(a, b);
}

/// One report holds what another does, the strongest findings first: the more similar
/// clone, the larger overlap, the longer block; and by key where they are as strong.
/// Every file with syntax errors is listed once, in alphabetical order.
pub open spec fn reads_strongest_first(after: ReportView, before: ReportView) -> bool {
    &&& after.version == before.version
    &&& after.files_scanned == before.files_scanned
    &&& after.units_considered == before.units_considered
    &&& after.clones.len() == before.clones.len()
    &&& after.vocab.len() == before.vocab.len()
    &&& after.blocks.len() == before.blocks.len()
    &&& forall|p: CloneView| #[trigger] after.clones.contains(p) <==> before.clones.contains(p)
    &&& forall|p: VocabView| #[trigger] after.vocab.contains(p) <==> before.vocab.contains(p)
    &&& forall|p: BlockView| #[trigger] after.blocks.contains(p) <==> before.blocks.contains(p)
    &&& forall|i: int, j: int|
        0 <= i < j < after.clones.len() ==> {
            let (p, q) = (#[trigger] after.clones[i], #[trigger] after.clones[j]);
            q.similarity.le(p.similarity) && (p.similarity.same(q.similarity) ==> alphabetical(
                p.key().0,
                q.key().0,
            ) && (p.key().0 == q.key().0 ==> alphabetical(p.key().1, q.key().1)))
        }
    &&& forall|i: int, j: int|
        0 <= i < j < after.vocab.len() ==> {
            let (p, q) = (#[trigger] after.vocab[i], #[trigger] after.vocab[j]);
            q.overlap.le(p.overlap) && (p.overlap.same(q.overlap) ==> alphabetical(
                p.key().0,
                q.key().0,
            ) && (p.key().0 == q.key().0 ==> alphabetical(p.key().1, q.key().1)))
        }
    &&& forall|i: int, j: int|
        0 <= i < j < after.blocks.len() ==> {
            let (p, q) = (#[trigger] after.blocks[i], #[trigger] after.blocks[j]);
            q.tokens <= p.tokens && (p.tokens == q.tokens ==> alphabetical(p.key().0, q.key().0)
                && (p.key().0 == q.key().0 ==> alphabetical(p.key().1.0, q.key().1.0) && (
            p.key().1.0 == q.key().1.0 ==> alphabetical(p.key().1.1, q.key().1.1))))
        }
    &&& forall|path: Seq<char>| #[trigger]
        after.files_with_syntax_errors.contains(path)
            <==> before.files_with_syntax_errors.contains(path)
    &&& forall|i: int, j: int|
        0 <= i < j < after.files_with_syntax_errors.len() ==> alphabetical(
            #[trigger] after.files_with_syntax_errors[i],
            #[trigger] after.files_with_syntax_errors[j],
        ) && after.files_with_syntax_errors[i] != after.files_with_syntax_errors[j]
}

/// A sorted report reads the strongest findings first, and neither gains nor loses any.
pub proof fn lemma_a_sorted_report_reads_strongest_first(after: ReportView, before: ReportView)
    requires
        is_sorted_report(after, before),
    ensures
        reads_strongest_first(after, before),
{
    lemma_sorted::<ClonePair, StrongestClone>(before.clones);
    lemma_sorted::<VocabPair, StrongestVocab>(before.vocab);
    lemma_sorted::<BlockPair, LongestBlock>(before.blocks);
    assert forall|p: CloneView| #[trigger]
        after.clones.contains(p) <==> before.clones.contains(p) by {
        lemma_sorted_holds::<ClonePair, StrongestClone>(before.clones, p);
    }
    assert forall|p: VocabView| #[trigger] after.vocab.contains(p) <==> before.vocab.contains(p) by {
        lemma_sorted_holds::<VocabPair, StrongestVocab>(before.vocab, p);
    }
    assert forall|p: BlockView| #[trigger]
        after.blocks.contains(p) <==> before.blocks.contains(p) by {
        lemma_sorted_holds::<BlockPair, LongestBlock>(before.blocks, p);
    }
    assert forall|i: int, j: int| 0 <= i < j < after.clones.len() implies {
        let (p, q) = (#[trigger] after.clones[i], #[trigger] after.clones[j]);
        q.similarity.le(p.similarity) && (p.similarity.same(q.similarity) ==> alphabetical(
            p.key().0,
            q.key().0,
        ) && (p.key().0 == q.key().0 ==> alphabetical(p.key().1, q.key().1)))
    } by {
        assert(StrongestClone::precedes(after.clones[i], after.clones[j]));
    }
    assert forall|i: int, j: int| 0 <= i < j < after.vocab.len() implies {
        let (p, q) = (#[trigger] after.vocab[i], #[trigger] after.vocab[j]);
        q.overlap.le(p.overlap) && (p.overlap.same(q.overlap) ==> alphabetical(
            p.key().0,
            q.key().0,
        ) && (p.key().0 == q.key().0 ==> alphabetical(p.key().1, q.key().1)))
    } by {
        assert(StrongestVocab::precedes(after.vocab[i], after.vocab[j]));
    }
    assert forall|i: int, j: int| 0 <= i < j < after.blocks.len() implies {
        let (p, q) = (#[trigger] after.blocks[i], #[trigger] after.blocks[j]);
        q.tokens <= p.tokens && (p.tokens == q.tokens ==> alphabetical(p.key().0, q.key().0) && (
        p.key().0 == q.key().0 ==> alphabetical(p.key().1.0, q.key().1.0) && (p.key().1.0
            == q.key().1.0 ==> alphabetical(p.key().1.1, q.key().1.1))))
    } by {
        assert(LongestBlock::precedes(after.blocks[i], after.blocks[j]));
    }
    let (had, listed) = (before.files_with_syntax_errors, after.files_with_syntax_errors);
    assert forall|path: Seq<char>| #[trigger] listed.contains(path) <==> had.contains(path) by {
        assert(had.to_set().contains(path) <==> had.contains(path));
    }
}

/// An error says which file is concerned and what went wrong there, or which version the
/// report is of and which one is understood.
pub proof fn lemma_errors_tell_what_went_wrong(e: ReportError)
    ensures
        match e {
            ReportError::Io { path, source } => tells_both(e.message(), path@, source@)
                && ends_telling(e.message(), source@),
            ReportError::Malformed { path: Some(path), source } => tells_both(
                e.message(),
                path@,
                source@,
            ) && ends_telling(e.message(), source@),
            ReportError::Malformed { path: None, source } => ends_telling(e.message(), source@),
            ReportError::UnsupportedVersion { found, expected } => tells_both(
                e.message(),
                decimal(found as nat),
                decimal(expected as nat),
            ) && ends_telling(e.message(), decimal(expected as nat)),
        },
{
    let none = Seq::<char>::empty();
    assert(e.message() + none =~= e.message());
    match e {
        ReportError::Io { path, source } => {
            lemma_parts_are_told("could not access report "@, path@, ": "@, source@, none);
        },
        ReportError::Malformed { path: Some(path), source } => {
            lemma_parts_are_told("malformed report "@, path@, ": "@, source@, none);
        },
        ReportError::Malformed { path: None, source } => {
            lemma_parts_are_told("malformed report: "@, source@, none, none, none);
        },
        ReportError::UnsupportedVersion { found, expected } => {
            lemma_parts_are_told(
                "report format version "@,
                decimal(found as nat),
                " is not readable by this build, which understands "@,
                decimal(expected as nat),
                none,
            );
        },
    }
}

} // verus!
