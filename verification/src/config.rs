//! `.dupdelta.toml` — every tuning knob, in one file.
//!
//! Thresholds that decide what a pull request is told belong in a file somebody
//! can read in a diff, not scattered across command-line flags where a change is
//! invisible unless someone happens to open the workflow. This module holds the
//! settings, and what makes them trustworthy:
//!
//! - **Absence and zero are different facts.** [`ReportConfig::max_findings`] is an
//!   `Option`, because "the key is missing" (no cap) and "the key is `0`" (report
//!   nothing) are both legitimate and must not collapse onto each other.
//! - [`Config::validate`] rejects values that can be written down but are
//!   meaningless as thresholds: a similarity outside `0.0..=1.0`, one that is no
//!   number, a minimum of `0` nodes. [`Config::accept`] always validates, so a
//!   readable but broken file never produces a `Config` for a caller to act on.

use vstd::prelude::*;
use vstd::string::*;

use crate::path::{join, joined, lemma_parent_shorter, parent, parent_of};
use crate::ratio::{decimal_ratio, lemma_against_one, Ratio};
use crate::sort::views;
use crate::text::{
    decimal, ends_telling, lemma_parts_are_told, may_say, push_decimal, tells_both,
};
use crate::vocab::{noise_view, Noise};

verus! {

/// Name of the config file that is looked for.
pub const CONFIG_FILE_NAME: &'static str = ".dupdelta.toml";

// --------------------------------------------------------------------- thresholds

/// What a threshold holds.
#[verifier::ext_equal]
pub struct ThresholdView {
    /// The number, if it is one of at least zero.
    pub value: Option<Ratio>,
    /// The number as it reads.
    pub written: Seq<char>,
}

/// A threshold as somebody wrote it, legal or not.
#[derive(Debug, Clone, PartialEq)]
pub struct Threshold {
    /// The number, if it is one of at least zero.
    pub value: Option<Ratio>,
    /// The number as it reads, for whoever has to be told that it will not do.
    pub written: String,
}

impl View for Threshold {
    type V = ThresholdView;

    open spec fn view(&self) -> ThresholdView {
        ThresholdView { value: self.value, written: self.written@ }
    }
}

/// The threshold that a text writes.
pub open spec fn threshold_of(text: Seq<char>) -> ThresholdView {
    ThresholdView { value: decimal_ratio(text), written: text }
}

impl ThresholdView {
    /// The threshold lies between zero and one.
    pub open spec fn in_unit_range(self) -> bool {
        match self.value {
            Some(r) => r.le(Ratio { num: 1, den: 1 }),
            None => false,
        }
    }
}

impl Threshold {
    /// The threshold that a decimal number writes.
    pub fn of(text: &str) -> (t: Threshold)
        ensures
            t@ == threshold_of(text@),
    {
        Threshold { value: Ratio::from_decimal(text), written: text.to_owned() }
    }

    /// A threshold known to be a number.
    fn known(num: u64, den: u64, text: &str) -> (t: Threshold)
        ensures
            t@ == (ThresholdView { value: Some(Ratio { num, den }), written: text@ }),
    {
        Threshold { value: Some(Ratio { num, den }), written: text.to_owned() }
    }

    /// The number.
    pub fn ratio(&self) -> (r: Ratio)
        requires
            self@.value is Some,
        ensures
            self@.value == Some(r),
    {
        match self.value {
            Some(r) => r,
            None => Ratio { num: 0, den: 1 },
        }
    }
}

// ----------------------------------------------------------------------- settings

/// What the settings of the function detector hold.
#[verifier::ext_equal]
pub struct FunctionView {
    /// Minimum similarity.
    pub min_similarity: ThresholdView,
    /// Minimum size.
    pub min_nodes: nat,
}

/// Thresholds for structural (token-similarity) function-pair detection.
#[derive(Debug, Clone, PartialEq)]
pub struct FunctionConfig {
    /// Minimum similarity for a function pair to be a finding. Default 0.85.
    pub min_similarity: Threshold,
    /// Ignore units smaller than this many syntax nodes. Default 30.
    pub min_nodes: usize,
}

impl View for FunctionConfig {
    type V = FunctionView;

    open spec fn view(&self) -> FunctionView {
        FunctionView { min_similarity: self.min_similarity@, min_nodes: self.min_nodes as nat }
    }
}

/// The settings of the function detector where none are given.
pub open spec fn default_function() -> FunctionView {
    FunctionView {
        min_similarity: ThresholdView {
            value: Some(Ratio { num: 85, den: 100 }),
            written: "0.85"@,
        },
        min_nodes: 30,
    }
}

impl Default for FunctionConfig {
    fn default() -> (c: Self)
        ensures
            c@ == default_function(),
    {
        FunctionConfig { min_similarity: Threshold::known(85, 100, "0.85"), min_nodes: 30 }
    }
}

/// What the settings of the vocabulary detector hold.
#[verifier::ext_equal]
pub struct VocabConfigView {
    /// Minimum overlap.
    pub min_overlap: ThresholdView,
    /// Minimum size.
    pub min_vocabulary: nat,
    /// Growth that counts.
    pub worsened_delta: ThresholdView,
    /// Noise, by language.
    pub noise: Seq<(Seq<char>, Seq<Seq<char>>)>,
}

/// Thresholds for identifier-vocabulary overlap detection between modules.
#[derive(Debug, Clone, PartialEq)]
pub struct VocabConfig {
    /// Minimum identifier-vocabulary overlap for a module pair. Default 0.30.
    pub min_overlap: Threshold,
    /// Ignore modules with fewer distinct identifiers than this. Default 15.
    pub min_vocabulary: usize,
    /// How much an existing pair's overlap must grow to count as worsened.
    /// Default 0.05.
    pub worsened_delta: Threshold,
    /// Identifiers too common to carry domain signal, by language.
    pub noise: Vec<Noise>,
}

impl View for VocabConfig {
    type V = VocabConfigView;

    open spec fn view(&self) -> VocabConfigView {
        VocabConfigView {
            min_overlap: self.min_overlap@,
            min_vocabulary: self.min_vocabulary as nat,
            worsened_delta: self.worsened_delta@,
            noise: noise_view(self.noise@),
        }
    }
}

/// The settings of the vocabulary detector where none are given.
pub open spec fn default_vocab() -> VocabConfigView {
    VocabConfigView {
        min_overlap: ThresholdView { value: Some(Ratio { num: 3, den: 10 }), written: "0.3"@ },
        min_vocabulary: 15,
        worsened_delta: ThresholdView {
            value: Some(Ratio { num: 5, den: 100 }),
            written: "0.05"@,
        },
        noise: Seq::empty(),
    }
}

impl Default for VocabConfig {
    fn default() -> (c: Self)
        ensures
            c@ == default_vocab(),
    {
        let c = VocabConfig {
            min_overlap: Threshold::known(3, 10, "0.3"),
            min_vocabulary: 15,
            worsened_delta: Threshold::known(5, 100, "0.05"),
            noise: Vec::new(),
        };
        assert(c@ =~= default_vocab());
        c
    }
}

/// Thresholds for repeated-block detection.
#[derive(Debug, Clone, PartialEq)]
pub struct BlocksConfig {
    /// Shortest repeated run worth reporting, in normalized tokens, which are
    /// denser than source lines. Default 100.
    pub min_tokens: usize,
}

impl Default for BlocksConfig {
    fn default() -> (c: Self)
        ensures
            c.min_tokens == 100,
    {
        BlocksConfig { min_tokens: 100 }
    }
}

/// Output shaping for the final report.
#[derive(Debug, Clone, PartialEq)]
pub struct ReportConfig {
    /// Cap on findings reported. `None` means no cap.
    ///
    /// Deliberately an `Option` rather than a number with `0` doubling as "no
    /// cap": that would make the key's *absence* and the user writing
    /// `max_findings = 0` indistinguishable, and `0` is a legitimate request
    /// ("report nothing, just tell me pass/fail").
    pub max_findings: Option<usize>,
}

impl Default for ReportConfig {
    fn default() -> (c: Self)
        ensures
            c.max_findings is None,
    {
        ReportConfig { max_findings: None }
    }
}

/// What a configuration holds.
#[verifier::ext_equal]
pub struct ConfigView {
    /// Patterns of paths to skip.
    pub excludes: Seq<Seq<char>>,
    /// Settings of the function detector.
    pub function: FunctionView,
    /// Settings of the vocabulary detector.
    pub vocab: VocabConfigView,
    /// Minimum length of a block.
    pub min_tokens: nat,
    /// Cap on findings.
    pub max_findings: Option<usize>,
}

/// Top-level configuration, as `.dupdelta.toml` gives it.
#[derive(Debug, Clone, PartialEq)]
pub struct Config {
    /// Substring patterns; a path containing any is not scanned.
    pub excludes: Vec<String>,
    /// Function-pair (structural clone) detection thresholds.
    pub function: FunctionConfig,
    /// Module-vocabulary (identifier overlap) detection thresholds.
    pub vocab: VocabConfig,
    /// Repeated-block detection thresholds.
    pub blocks: BlocksConfig,
    /// Output shaping.
    pub report: ReportConfig,
}

impl View for Config {
    type V = ConfigView;

    open spec fn view(&self) -> ConfigView {
        ConfigView {
            excludes: views(self.excludes@),
            function: self.function@,
            vocab: self.vocab@,
            min_tokens: self.blocks.min_tokens as nat,
            max_findings: self.report.max_findings,
        }
    }
}

/// The configuration where none is given.
pub open spec fn default_config() -> ConfigView {
    ConfigView {
        excludes: Seq::empty(),
        function: default_function(),
        vocab: default_vocab(),
        min_tokens: 100,
        max_findings: None,
    }
}

impl Default for Config {
    fn default() -> (c: Self)
        ensures
            c@ == default_config(),
            c@.valid(),
    {
        let c = Config {
            excludes: Vec::new(),
            function: FunctionConfig::default(),
            vocab: VocabConfig::default(),
            blocks: BlocksConfig::default(),
            report: ReportConfig::default(),
        };
        assert(c@ =~= default_config());
        c
    }
}

// ------------------------------------------------------------------------- errors

/// Everything that can go wrong loading or validating a config.
#[derive(Debug)]
pub enum ConfigError {
    /// The file could not be read.
    Io {
        /// The path that could not be read.
        path: String,
        /// What the system said.
        source: String,
    },
    /// The text was not valid config TOML (syntax error or unknown key).
    Parse {
        /// The file the text came from, if it came from a file.
        path: Option<String>,
        /// What the parser said.
        source: String,
    },
    /// The TOML parsed, but a value is out of its legal range.
    Invalid(String),
}

impl ConfigError {
    /// What the error says.
    pub open spec fn message(self) -> Seq<char> {
        match self {
            ConfigError::Io { path, source } => "reading "@ + path@ + ": "@ + source@,
            ConfigError::Parse { path: Some(path), source } => "parsing "@ + path@ + ": "@ + source@,
            ConfigError::Parse { path: None, source } => "parsing config: "@ + source@,
            ConfigError::Invalid(message) => message@,
        }
    }

    /// What the error says.
    pub fn to_string(&self) -> (s: String)
        ensures
            s@ == self.message(),
    {
        match self {
            ConfigError::Io { path, source } => {
                let mut s = "reading ".to_owned();
                s.append(path.as_str());
                s.append(": ");
                s.append(source.as_str());
                s
            },
            ConfigError::Parse { path: Some(path), source } => {
                let mut s = "parsing ".to_owned();
                s.append(path.as_str());
                s.append(": ");
                s.append(source.as_str());
                s
            },
            ConfigError::Parse { path: None, source } => {
                let mut s = "parsing config: ".to_owned();
                s.append(source.as_str());
                s
            },
            ConfigError::Invalid(message) => message.clone(),
        }
    }
}

// --------------------------------------------------------------------- validation

/// What is said of a threshold outside its range.
pub open spec fn out_of_range(key: Seq<char>, t: ThresholdView) -> Seq<char> {
    key + " must be between 0.0 and 1.0, got "@ + t.written
}

/// What is said of a count that has to be at least one.
pub open spec fn too_small(key: Seq<char>, value: nat) -> Seq<char> {
    key + " must be at least 1, got "@ + decimal(value)
}

impl ConfigView {
    /// What is wrong with the first setting that will not do, if there is one.
    pub open spec fn complaint(self) -> Option<Seq<char>> {
        if !self.function.min_similarity.in_unit_range() {
            Some(out_of_range("function.min_similarity"@, self.function.min_similarity))
        } else if !self.vocab.min_overlap.in_unit_range() {
            Some(out_of_range("vocab.min_overlap"@, self.vocab.min_overlap))
        } else if !self.vocab.worsened_delta.in_unit_range() {
            Some(out_of_range("vocab.worsened_delta"@, self.vocab.worsened_delta))
        } else if self.function.min_nodes < 1 {
            Some(too_small("function.min_nodes"@, self.function.min_nodes))
        } else if self.vocab.min_vocabulary < 1 {
            Some(too_small("vocab.min_vocabulary"@, self.vocab.min_vocabulary))
        } else if self.min_tokens < 1 {
            Some(too_small("blocks.min_tokens"@, self.min_tokens))
        } else {
            None
        }
    }

    /// Every setting will do.
    pub open spec fn valid(self) -> bool {
        self.complaint() is None
    }

    /// The detectors can work with these settings: their thresholds are numbers, and a
    /// block has at least one token.
    pub open spec fn scannable(self) -> bool {
        &&& self.function.min_similarity.value is Some
        &&& self.vocab.min_overlap.value is Some
        &&& self.min_tokens >= 1
    }
}

/// Checks that a threshold lies between zero and one, naming `key` and the value
/// when it does not.
///
/// Shared by every such threshold so the message wording cannot drift between them.
fn check_unit_range(key: &str, value: &Threshold) -> (r: Result<(), ConfigError>)
    ensures
        r is Ok <==> value@.in_unit_range(),
        r matches Err(e) ==> (e matches ConfigError::Invalid(m) && m@ == out_of_range(key@, value@)),
{
    let legal: bool = match value.value {
        Some(r) => r.at_most(&Ratio { num: 1, den: 1 }),
        None => false,
    };
    if legal {
        return Ok(());
    }
    let mut m = key.to_owned();
    m.append(" must be between 0.0 and 1.0, got ");
    m.append(value.written.as_str());
    Err(ConfigError::Invalid(m))
}

/// Checks that `value` is at least 1, naming `key` and the value when it is not.
fn check_at_least_one(key: &str, value: usize) -> (r: Result<(), ConfigError>)
    ensures
        r is Ok <==> value >= 1,
        r matches Err(e) ==> (e matches ConfigError::Invalid(m) && m@ == too_small(
            key@,
            value as nat,
        )),
{
    if value >= 1 {
        return Ok(());
    }
    let mut m = key.to_owned();
    m.append(" must be at least 1, got ");
    push_decimal(&mut m, value as u128);
    Err(ConfigError::Invalid(m))
}

/// The config files of a directory and of those above it, nearest first.
pub open spec fn candidates_from(dir: Seq<char>) -> Seq<Seq<char>>
    decreases dir.len(),
{
    proof {
        lemma_parent_shorter(dir);
    }
    match parent_of(dir) {
        Some(up) => seq![joined(dir, CONFIG_FILE_NAME@)] + candidates_from(up),
        None => seq![joined(dir, CONFIG_FILE_NAME@)],
    }
}

impl Config {
    /// Rejects values that are outside their legal range.
    pub fn validate(&self) -> (r: Result<(), ConfigError>)
        ensures
            r is Ok <==> self@.valid(),
            r matches Err(e) ==> (e matches ConfigError::Invalid(m) && self@.complaint() == Some(m@)),
    {
        check_unit_range("function.min_similarity", &self.function.min_similarity)?;
        check_unit_range("vocab.min_overlap", &self.vocab.min_overlap)?;
        check_unit_range("vocab.worsened_delta", &self.vocab.worsened_delta)?;
        check_at_least_one("function.min_nodes", self.function.min_nodes)?;
        check_at_least_one("vocab.min_vocabulary", self.vocab.min_vocabulary)?;
        check_at_least_one("blocks.min_tokens", self.blocks.min_tokens)?;
        Ok(())
    }

    /// The config that parsing a text gave, if it gave one and it is valid. Never
    /// returns an invalid `Config`. `path` is where the text came from, if it came
    /// from a file.
    pub fn accept(parsed: Result<Config, String>, path: Option<String>) -> (r: Result<
        Config,
        ConfigError,
    >)
        ensures
            r matches Ok(c) ==> (parsed matches Ok(p) && c == p && c@.valid()),
            r matches Err(ConfigError::Parse { path: p, source }) ==> p == path && parsed == Err::<
                Config,
                String,
            >(source),
            r matches Err(ConfigError::Invalid(m)) ==> (parsed matches Ok(p) && p@.complaint()
                == Some(m@)),
            !(r matches Err(ConfigError::Io { path: _, source: _ })),
    {
        match parsed {
            Err(source) => Err(ConfigError::Parse { path, source }),
            Ok(config) => match config.validate() {
                Ok(()) => Ok(config),
                Err(e) => Err(e),
            },
        }
    }

    /// The config files to look for from `start` on upwards, nearest first. The
    /// first of them that exists is the one that counts.
    pub fn candidates(start: &str) -> (files: Vec<String>)
        ensures
            views(files@) == candidates_from(start@),
    {
        let mut files: Vec<String> = Vec::new();
        let mut dir = start.to_owned();
        let mut more: bool = true;
        let ghost goal = candidates_from(start@);
        assert(views(files@) + candidates_from(dir@) =~= goal);
        while more
            invariant
                goal == candidates_from(start@),
                more ==> views(files@) + candidates_from(dir@) == goal,
                !more ==> views(files@) == goal,
            decreases dir@.len() + if more { 1int } else { 0int },
        {
            let ghost before = views(files@);
            let ghost here = joined(dir@, CONFIG_FILE_NAME@);
            files.push(join(dir.as_str(), CONFIG_FILE_NAME));
            assert(views(files@) =~= before.push(here));
            match parent(dir.as_str()) {
                Some(up) => {
                    proof {
                        lemma_parent_shorter(dir@);
                        assert(before + (seq![here] + candidates_from(up@)) =~= before.push(here)
                            + candidates_from(up@));
                    }
                    dir = up;
                },
                None => {
                    more = false;
                    assert(before + seq![here] =~= before.push(here));
                },
            }
        }
        files
    }

    /// The nearest config file from `start` on upwards, if there is one. `is_file`
    /// says whether there is a file at a path.
    ///
    /// Neither reads nor validates the file: a caller that only wants the path is not
    /// forced to also parse.
    pub fn discover<F: Fn(&str) -> bool>(start: &str, is_file: F) -> (found: Option<String>)
        requires
            forall|s: &str| #[trigger] call_requires(is_file, (s,)),
        ensures
            is_first_found(is_file, candidates_from(start@), found),
    {
        let files = Config::candidates(start);
        let ghost all = candidates_from(start@);
        let mut i: usize = 0;
        while i < files.len()
            invariant
                i <= files@.len(),
                all == views(files@),
                all == candidates_from(start@),
                forall|s: &str| #[trigger] call_requires(is_file, (s,)),
                forall|k: int| 0 <= k < i ==> may_say(is_file, #[trigger] all[k], false),
            decreases files.len() - i,
        {
            let s = files[i].as_str();
            let answer: bool = is_file(s);
            proof {
                assert(call_ensures(is_file, (s,), answer));
                assert(may_say(is_file, all[i as int], answer));
            }
            if answer {
                let found = files[i].clone();
                assert(found@ == all[i as int]);
                return Some(found);
            }
            i += 1;
        }
        None
    }

    /// The config file that counts, if there is one: the one that was asked for, or
    /// else the nearest from `start` on upwards.
    pub fn locate<F: Fn(&str) -> bool>(
        explicit: Option<String>,
        start: &str,
        is_file: F,
    ) -> (found: Option<String>)
        requires
            forall|s: &str| #[trigger] call_requires(is_file, (s,)),
        ensures
            match explicit {
                Some(path) => found == Some(path),
                None => is_first_found(is_file, candidates_from(start@), found),
            },
    {
        match explicit {
            Some(path) => Some(path),
            None => Config::discover(start, is_file),
        }
    }
}

/// `found` is the first of some paths of which `is_file` said yes, if it did of any.
pub open spec fn is_first_found<F: Fn(&str) -> bool>(
    is_file: F,
    paths: Seq<Seq<char>>,
    found: Option<String>,
) -> bool {
    match found {
        Some(f) => exists|k: int|
            0 <= k < paths.len() && f@ == #[trigger] paths[k] && may_say(is_file, paths[k], true)
                && forall|j: int| 0 <= j < k ==> may_say(is_file, #[trigger] paths[j], false),
        None => forall|j: int| 0 <= j < paths.len() ==> may_say(is_file, #[trigger] paths[j], false),
    }
}

// --------------------------------------------------------------------------- laws

/// A threshold is a number between zero and one.
pub open spec fn is_between_zero_and_one(t: ThresholdView) -> bool {
    t.value matches Some(r) && r.num <= (if r.den == 0 {
        1
    } else {
        r.den
    })
}

/// A configuration is valid where every threshold is a number between zero and one and
/// every least count is at least one. A complaint names the first setting of which that
/// does not hold, and gives its value.
pub proof fn lemma_a_valid_configuration_is_in_range(c: ConfigView)
    ensures
        c.valid() <==> is_between_zero_and_one(c.function.min_similarity)
            && is_between_zero_and_one(c.vocab.min_overlap) && is_between_zero_and_one(
            c.vocab.worsened_delta,
        ) && c.function.min_nodes > 0 && c.vocab.min_vocabulary > 0 && c.min_tokens > 0,
        c.complaint() matches Some(m) ==> {
            let range = " must be between 0.0 and 1.0, got "@;
            let least = " must be at least 1, got 0"@;
            if !is_between_zero_and_one(c.function.min_similarity) {
                m == "function.min_similarity"@ + range + c.function.min_similarity.written
            } else if !is_between_zero_and_one(c.vocab.min_overlap) {
                m == "vocab.min_overlap"@ + range + c.vocab.min_overlap.written
            } else if !is_between_zero_and_one(c.vocab.worsened_delta) {
                m == "vocab.worsened_delta"@ + range + c.vocab.worsened_delta.written
            } else if c.function.min_nodes == 0 {
                m == "function.min_nodes"@ + least
            } else if c.vocab.min_vocabulary == 0 {
                m == "vocab.min_vocabulary"@ + least
            } else {
                c.min_tokens == 0 && m == "blocks.min_tokens"@ + least
            }
        },
{
    reveal_strlit(" must be at least 1, got ");
    reveal_strlit(" must be at least 1, got 0");
    assert(decimal(0) =~= seq!['0']);
    assert forall|t: ThresholdView| #[trigger]
        t.in_unit_range() <==> is_between_zero_and_one(t) by {
        if let Some(r) = t.value {
            lemma_against_one(r);
        }
    }
    assert forall|key: Seq<char>| #[trigger]
        too_small(key, 0) == key + " must be at least 1, got 0"@ by {
        assert(too_small(key, 0) =~= key + " must be at least 1, got 0"@);
    }
}

/// A configuration file is looked for in a directory and in every one above it, the
/// nearest first, under the one name that it has.
pub proof fn lemma_every_directory_above_is_searched(dir: Seq<char>) -> (dirs: Seq<Seq<char>>)
    ensures
        dirs.len() == candidates_from(dir).len(),
        dirs.len() > 0,
        dirs[0] == dir,
        forall|k: int|
            0 <= k < dirs.len() ==> candidates_from(dir)[k] == joined(
                #[trigger] dirs[k],
                ".dupdelta.toml"@,
            ),
        forall|k: int, l: int|
            0 <= k && l == k + 1 && l < dirs.len() ==> parent_of(#[trigger] dirs[k]) == Some(
                #[trigger] dirs[l],
            ),
        parent_of(dirs.last()) is None,
    decreases dir.len(),
{
    lemma_parent_shorter(dir);
    match parent_of(dir) {
        Some(up) => {
            let rest = lemma_every_directory_above_is_searched(up);
            let dirs = seq![dir] + rest;
            assert forall|k: int| 0 <= k < dirs.len() implies candidates_from(dir)[k] == joined(
                #[trigger] dirs[k],
                ".dupdelta.toml"@,
            ) by {
                if k > 0 {
                    assert(dirs[k] == rest[k - 1]);
                }
            }
            assert forall|k: int, l: int| 0 <= k && l == k + 1 && l
                < dirs.len() implies parent_of(#[trigger] dirs[k]) == Some(#[trigger] dirs[l]) by {
                assert(dirs[l] == rest[l - 1]);
                if k > 0 {
                    assert(dirs[k] == rest[k - 1]);
                }
            }
            assert(dirs.last() == rest.last());
            dirs
        },
        None => seq![dir],
    }
}

/// An error says which file is concerned, and in the end what went wrong there.
pub proof fn lemma_errors_tell_what_went_wrong(e: ConfigError)
    ensures
        match e {
            ConfigError::Io { path, source } => tells_both(e.message(), path@, source@)
                && ends_telling(e.message(), source@),
            ConfigError::Parse { path: Some(path), source } => tells_both(
                e.message(),
                path@,
                source@,
            ) && ends_telling(e.message(), source@),
            ConfigError::Parse { path: None, source } => ends_telling(e.message(), source@),
            ConfigError::Invalid(message) => e.message() == message@,
        },
{
    let none = Seq::<char>::empty();
    assert(e.message() + none =~= e.message());
    match e {
        ConfigError::Io { path, source } => {
            lemma_parts_are_told("reading "@, path@, ": "@, source@, none);
        },
        ConfigError::Parse { path: Some(path), source } => {
            lemma_parts_are_told("parsing "@, path@, ": "@, source@, none);
        },
        ConfigError::Parse { path: None, source } => {
            lemma_parts_are_told("parsing config: "@, source@, none, none, none);
        },
        ConfigError::Invalid(_) => {},
    }
}

} // verus!
