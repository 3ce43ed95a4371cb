//! Cross-file vocabulary overlap: catching duplication that has no shared shape.
//!
//! Function-level clone detection cannot see a module that reimplements another
//! module's *rules* with a completely differently shaped set of functions. Such a
//! module scores near zero on any structural similarity metric, yet shares the
//! domain nouns that gave the original its meaning. This module works at file
//! granularity on **un-renamed identifier vocabulary**:
//!
//! ```text
//! overlap = |names(a) ∩ names(b)| / min(|names(a)|, |names(b)|)
//! ```
//!
//! # The inversion: identifier text is the signal, not noise
//!
//! Everywhere else in this crate, identifiers are blind-renamed to one
//! placeholder. Here it is the opposite: the identifier *text itself* is the
//! entire signal, because two files that talk about the same domain will use the
//! same nouns even when every function is shaped differently.

use vstd::prelude::*;
use vstd::string::*;

use crate::extract::{SourceFile, SourceView};
use crate::lang::{all, registry, Language, LanguageView};
use crate::names::{is_set_of, lemma_set_list_unique, ordered};
use crate::normalize::{identifiers, identifiers_at};
use crate::path::{
    file_stem, last_place, lemma_extension_follows_the_last_dot, lemma_last_place, stem_of,
    strip_extension, without_extension,
};
use crate::ratio::{lemma_against_one, lemma_le_total, lemma_le_transitive, Ratio};
use crate::report::{cloned_all, VocabPair, VocabView};
use crate::sort::{lemma_sorted, lemma_sorted_holds, sort, sorted, views, Order};
use crate::syntax::{parse, syntax_of, NodeView, SyntaxNode};
use crate::text::{
    alphabetical, chars_of, contains_text, first_word, first_word_bounds, is_alphanumeric, is_at,
    is_line, lacks, lemma_alphabetical_antisymmetric, lemma_alphabetical_total,
    lemma_alphabetical_transitive, lemma_every_line_is_read, lemma_pair_alphabetical,
    lemma_the_first_word_ends_at_white_space, lines, lines_of, occurs, pair_alphabetical,
    pair_at_most, replace_char, same_text, says_line, stands_at, text_at_most, text_between,
    unicode_alphanumeric, unicode_whitespace, with_replaced,
};

verus! {

// ----------------------------------------------------------------------- options

/// Identifiers of one language too common to carry signal.
#[derive(Debug, PartialEq, Eq)]
pub struct Noise {
    /// Registry name of the language.
    pub language: String,
    /// The identifiers.
    pub names: Vec<String>,
}

impl Clone for Noise {
    fn clone(&self) -> (n: Self)
        ensures
            n.language@ == self.language@,
            views(n.names@) == views(self.names@),
    {
        Noise { language: self.language.clone(), names: cloned_all(&self.names) }
    }
}

/// A list of the same noise.
pub(crate) fn copy_noise(list: &Vec<Noise>) -> (r: Vec<Noise>)
    ensures
        noise_view(r@) == noise_view(list@),
{
    let mut r: Vec<Noise> = Vec::new();
    let mut i: usize = 0;
    while i < list.len()
        invariant
            i <= list@.len(),
            noise_view(r@) == noise_view(list@).take(i as int),
        decreases list.len() - i,
    {
        let ghost before = noise_view(r@);
        r.push(list[i].clone());
        assert(noise_view(r@) =~= before.push(noise_view(list@)[i as int]));
        i += 1;
        assert(noise_view(r@) =~= noise_view(list@).take(i as int));
    }
    assert(noise_view(r@) =~= noise_view(list@));
    r
}

/// What a list of noise holds: a language's name, and identifiers of it.
pub open spec fn noise_view(noise: Seq<Noise>) -> Seq<(Seq<char>, Seq<Seq<char>>)> {
    Seq::new(noise.len(), |i: int| (noise[i].language@, views(noise[i].names@)))
}

/// The noise of a language: what the first entry for it lists.
pub open spec fn noise_for(
    noise: Seq<(Seq<char>, Seq<Seq<char>>)>,
    language: Seq<char>,
) -> Seq<Seq<char>>
    decreases noise.len(),
{
    if noise.len() == 0 {
        Seq::empty()
    } else if noise[0].0 == language {
        noise[0].1
    } else {
        noise_for(noise.drop_first(), language)
    }
}

/// Tuning for the vocabulary detector.
#[derive(Debug)]
pub struct VocabOptions {
    /// Minimum overlap to report, from zero to one.
    pub min_overlap: Ratio,
    /// Ignore files with fewer distinct identifiers than this.
    pub min_vocabulary: usize,
    /// Identifiers too common to carry signal, by language.
    pub noise: Vec<Noise>,
    /// How many shared names to show in each finding, for the reader.
    pub sample_size: usize,
}

impl Clone for VocabOptions {
    fn clone(&self) -> (o: Self)
        ensures
            o.min_overlap == self.min_overlap,
            o.min_vocabulary == self.min_vocabulary,
            noise_view(o.noise@) == noise_view(self.noise@),
            o.sample_size == self.sample_size,
    {
        VocabOptions {
            min_overlap: self.min_overlap,
            min_vocabulary: self.min_vocabulary,
            noise: copy_noise(&self.noise),
            sample_size: self.sample_size,
        }
    }
}

// -------------------------------------------------------------------- vocabulary

/// The identifiers of a tree.
pub open spec fn tree_identifiers(
    nodes: Seq<NodeView>,
    language: LanguageView,
) -> Seq<Seq<char>> {
    if nodes.len() == 0 {
        Seq::empty()
    } else {
        identifiers_at(nodes, language, 0)
    }
}

/// The vocabulary of a tree: its identifiers, without the noise.
pub open spec fn tree_vocabulary(
    nodes: Seq<NodeView>,
    language: LanguageView,
    noise: Seq<(Seq<char>, Seq<Seq<char>>)>,
) -> Set<Seq<char>> {
    Set::new(
        |x: Seq<char>|
            tree_identifiers(nodes, language).contains(x) && !noise_for(
                noise,
                language.name,
            ).contains(x),
    )
}

/// The vocabulary of a file.
pub open spec fn file_vocabulary(
    file: SourceView,
    noise: Seq<(Seq<char>, Seq<Seq<char>>)>,
) -> Set<Seq<char>> {
    tree_vocabulary(syntax_of(file.language.grammar, file.text), file.language, noise)
}

/// The alphabetical list of a set of names.
pub open spec fn listing(names: Set<Seq<char>>) -> Seq<Seq<char>> {
    choose|list: Seq<Seq<char>>| is_set_of(list, names)
}

proof fn lemma_listing(list: Seq<Seq<char>>, names: Set<Seq<char>>)
    requires
        is_set_of(list, names),
    ensures
        listing(names) == list,
{
    let other = listing(names);
    assert(is_set_of(other, names));
    assert forall|x: Seq<char>| #[trigger] other.contains(x) <==> list.contains(x) by {
        assert(list.contains(x) <==> names.contains(x));
    }
    lemma_set_list_unique(other, list);
}

/// Whether a name is in a list.
fn is_listed(list: &Vec<String>, name: &str) -> (r: bool)
    ensures
        r == views(list@).contains(name@),
{
    let mut i: usize = 0;
    while i < list.len()
        invariant
            i <= list@.len(),
            forall|j: int| 0 <= j < i ==> (#[trigger] list@[j])@ != name@,
        decreases list.len() - i,
    {
        if same_text(list[i].as_str(), name) {
            assert(views(list@)[i as int] == name@);
            return true;
        }
        i += 1;
    }
    assert forall|j: int| 0 <= j < views(list@).len() implies views(list@)[j] != name@ by {
        assert(list@[j]@ != name@);
    }
    false
}

/// Where the first entry for a language stands.
fn find_noise(noise: &Vec<Noise>, language: &str) -> (i: Option<usize>)
    ensures
        i is None ==> noise_for(noise_view(noise@), language@) == Seq::<Seq<char>>::empty(),
        i matches Some(k) ==> k < noise@.len() && noise_for(noise_view(noise@), language@) == views(
            noise@[k as int].names@,
        ),
{
    let ghost whole = noise_view(noise@);
    let mut i: usize = 0;
    assert(whole.skip(0) =~= whole);
    while i < noise.len()
        invariant
            i <= noise@.len(),
            whole == noise_view(noise@),
            noise_for(whole, language@) == noise_for(whole.skip(i as int), language@),
        decreases noise.len() - i,
    {
        proof {
            assert(whole.skip(i as int)[0] == whole[i as int]);
            assert(whole.skip(i as int).drop_first() =~= whole.skip(i + 1));
        }
        if same_text(noise[i].language.as_str(), language) {
            return Some(i);
        }
        i += 1;
    }
    None
}

/// A set of names without those in a list.
fn without(set: Vec<String>, excluded: &Vec<String>) -> (kept: Vec<String>)
    requires
        ordered(views(set@)),
    ensures
        ordered(views(kept@)),
        forall|x: Seq<char>|
            #[trigger] views(kept@).contains(x) <==> views(set@).contains(x) && !views(
                excluded@,
            ).contains(x),
{
    let ghost whole = views(set@);
    let ghost gone = views(excluded@);
    let mut kept: Vec<String> = Vec::new();
    let mut i: usize = 0;
    while i < set.len()
        invariant
            i <= set@.len(),
            whole == views(set@),
            gone == views(excluded@),
            ordered(whole),
            ordered(views(kept@)),
            forall|x: Seq<char>|
                #[trigger] views(kept@).contains(x) <==> whole.take(i as int).contains(x)
                    && !gone.contains(x),
        decreases set.len() - i,
    {
        let ghost before = views(kept@);
        let ghost next = whole[i as int];
        let keep: bool = !is_listed(excluded, set[i].as_str());
        if keep {
            kept.push(set[i].clone());
            assert(views(kept@) =~= before.push(next));
        }
        proof {
            lemma_kept_step(whole, gone, i as int, before, views(kept@), keep);
        }
        i += 1;
    }
    assert(whole.take(whole.len() as int) =~= whole);
    kept
}

proof fn lemma_kept_step(
    whole: Seq<Seq<char>>,
    gone: Seq<Seq<char>>,
    i: int,
    before: Seq<Seq<char>>,
    after: Seq<Seq<char>>,
    keep: bool,
)
    requires
        0 <= i < whole.len(),
        ordered(whole),
        ordered(before),
        keep == !gone.contains(whole[i]),
        keep ==> after == before.push(whole[i]),
        !keep ==> after == before,
        forall|x: Seq<char>|
            #[trigger] before.contains(x) <==> whole.take(i).contains(x) && !gone.contains(x),
    ensures
        ordered(after),
        forall|x: Seq<char>|
            #[trigger] after.contains(x) <==> whole.take(i + 1).contains(x) && !gone.contains(x),
{
    let (short, long) = (whole.take(i), whole.take(i + 1));
    let next = whole[i];
    assert forall|x: Seq<char>| #[trigger] long.contains(x) <==> short.contains(x) || x == next by {
        if long.contains(x) {
            let k = choose|k: int| 0 <= k < long.len() && long[k] == x;
            if k < i {
                assert(short[k] == x);
            }
        }
        if short.contains(x) {
            let k = choose|k: int| 0 <= k < short.len() && short[k] == x;
            assert(long[k] == x);
        }
        assert(long[i] == next);
    }
    assert forall|x: Seq<char>| #[trigger] after.contains(x) <==> long.contains(x)
        && !gone.contains(x) by {
        assert(before.contains(x) <==> short.contains(x) && !gone.contains(x));
        if after.contains(x) {
            let k = choose|k: int| 0 <= k < after.len() && after[k] == x;
            if k < before.len() {
                assert(before[k] == x);
            }
        }
        if before.contains(x) {
            let k = choose|k: int| 0 <= k < before.len() && before[k] == x;
            assert(after[k] == x);
        }
        if keep {
            assert(after[before.len() as int] == next);
        }
    }
    if keep {
        assert forall|a: int, b: int| 0 <= a < b < after.len() implies alphabetical(
            #[trigger] after[a],
            #[trigger] after[b],
        ) && after[a] != after[b] by {
            if b == before.len() {
                assert(before.contains(before[a]));
                let k = choose|k: int| 0 <= k < short.len() && short[k] == before[a];
                assert(whole[k] == before[a]);
                assert(alphabetical(whole[k], whole[i]) && whole[k] != whole[i]);
            } else {
                assert(alphabetical(before[a], before[b]));
            }
        }
    }
}

/// Every distinct identifier used anywhere in a file, minus configured noise, in
/// alphabetical order.
///
/// Walks the whole parsed tree using the same classification
/// [`crate::normalize`] uses, so the two modules agree on what counts as an
/// identifier. Two files that merely share control-flow keywords therefore
/// contribute nothing to overlap — only the names a human chose do.
pub fn vocabulary(file: &SourceFile, noise: &Vec<Noise>) -> (names: Vec<String>)
    ensures
        is_set_of(views(names@), file_vocabulary(file@, noise_view(noise@))),
        views(names@) == listing(file_vocabulary(file@, noise_view(noise@))),
{
    let nodes = parse(&file.language, file.text.as_str());
    let names = vocabulary_of(nodes.as_slice(), &file.language, noise);
    proof {
        lemma_listing(views(names@), file_vocabulary(file@, noise_view(noise@)));
    }
    names
}

/// Every distinct identifier of a tree already parsed, minus configured noise.
pub fn vocabulary_of(
    nodes: &[SyntaxNode],
    language: &Language,
    noise: &Vec<Noise>,
) -> (names: Vec<String>)
    ensures
        is_set_of(
            views(names@),
            tree_vocabulary(views(nodes@), language@, noise_view(noise@)),
        ),
{
    let ghost set = tree_vocabulary(views(nodes@), language@, noise_view(noise@));
    if nodes.len() == 0 {
        let none: Vec<String> = Vec::new();
        assert forall|x: Seq<char>| #[trigger] views(none@).contains(x) <==> set.contains(x) by {}
        return none;
    }
    let names = identifiers(nodes, 0, language);
    match find_noise(noise, language.name) {
        None => names,
        Some(i) => without(names, &noise[i].names),
    }
}

// ---------------------------------------------------------------- import heuristics

/// A character that can stand in a module reference.
pub open spec fn token_char(c: char) -> bool {
    unicode_alphanumeric(c) || c == '_' || c == '.' || c == '/' || c == '-'
}

fn is_token_char(c: char) -> (r: bool)
    ensures
        r == token_char(c),
{
    is_alphanumeric(c) || c == '_' || c == '.' || c == '/' || c == '-'
}

/// The first place from `from` on that holds no such character, or the end.
pub open spec fn token_end(s: Seq<char>, from: int) -> int
    decreases s.len() - from,
{
    if from < s.len() && token_char(s[from]) {
        token_end(s, from + 1)
    } else {
        from
    }
}

/// Such a place lies ahead, within the text.
pub proof fn lemma_token_end(s: Seq<char>, from: int)
    requires
        from <= s.len(),
    ensures
        from <= token_end(s, from) <= s.len(),
    decreases s.len() - from,
{
    if from < s.len() && token_char(s[from]) {
        lemma_token_end(s, from + 1);
    }
}

/// The module references of a line from `from` on.
pub open spec fn tokens_from(s: Seq<char>, from: int) -> Seq<Seq<char>>
    decreases s.len() - from,
{
    if from >= s.len() {
        Seq::empty()
    } else if !token_char(s[from]) {
        tokens_from(s, from + 1)
    } else {
        proof {
            lemma_token_end(s, from + 1);
        }
        seq![s.subrange(from, token_end(s, from))] + tokens_from(s, token_end(s, from))
    }
}

/// Split a line into candidate module-reference tokens: dots and slashes are kept
/// (they carry module-path meaning), everything else — the quotes, braces, parens,
/// commas, semicolons around them — is a separator.
pub fn tokenize_line(line: &str) -> (tokens: Vec<String>)
    ensures
        views(tokens@) == tokens_from(line@, 0),
{
    let chars = chars_of(line);
    let n: usize = chars.len();
    let mut tokens: Vec<String> = Vec::new();
    let mut from: usize = 0;
    assert(views(tokens@) + tokens_from(line@, 0) =~= tokens_from(line@, 0));
    while from < n
        invariant
            from <= n == chars@.len(),
            chars@ == line@,
            views(tokens@) + tokens_from(line@, from as int) == tokens_from(line@, 0),
        decreases n - from,
    {
        if !is_token_char(chars[from]) {
            from += 1;
        } else {
            let mut end: usize = from;
            while end < n && is_token_char(chars[end])
                invariant
                    from <= end <= n == chars@.len(),
                    chars@ == line@,
                    token_end(line@, from as int) == token_end(line@, end as int),
                decreases n - end,
            {
                end += 1;
            }
            let ghost before = views(tokens@);
            tokens.push(text_between(chars.as_slice(), from, end));
            proof {
                lemma_token_end(line@, from + 1);
                let word = line@.subrange(from as int, end as int);
                assert(views(tokens@) =~= before.push(word));
                assert(before + (seq![word] + tokens_from(line@, end as int)) =~= before.push(word)
                    + tokens_from(line@, end as int));
            }
            from = end;
        }
    }
    assert(views(tokens@) + Seq::empty() =~= views(tokens@));
    tokens
}

/// A word that opens an import statement.
pub open spec fn import_word(w: Seq<char>) -> bool {
    w == "import"@ || w == "from"@ || w == "require"@ || w == "use"@ || w == "include"@
}

/// A line that looks like it introduces a dependency on another module.
pub open spec fn import_line(line: Seq<char>) -> bool {
    import_word(first_word(line)) || occurs(line, "require("@) || occurs(line, "import("@)
}

/// Whether a line looks like it introduces a dependency on another module.
pub fn looks_like_import(line: &str) -> (r: bool)
    ensures
        r == import_line(line@),
{
    let chars = chars_of(line);
    let (lo, hi) = first_word_bounds(chars.as_slice());
    let word = text_between(chars.as_slice(), lo, hi);
    let w = word.as_str();
    if same_text(w, "import") || same_text(w, "from") || same_text(w, "require") || same_text(
        w,
        "use",
    ) || same_text(w, "include") {
        return true;
    }
    let require = chars_of("require(");
    let import = chars_of("import(");
    contains_text(chars.as_slice(), require.as_slice()) || contains_text(
        chars.as_slice(),
        import.as_slice(),
    )
}

/// A reference without the `./` and `../` in front of it.
pub open spec fn without_relative(s: Seq<char>) -> Seq<char>
    decreases s.len(),
{
    if stands_at(s, seq!['.', '/'], 0) {
        without_relative(s.skip(2))
    } else if stands_at(s, seq!['.', '.', '/'], 0) {
        without_relative(s.skip(3))
    } else {
        s
    }
}

/// A reference without the slashes in front of it.
pub open spec fn without_slashes(s: Seq<char>) -> Seq<char>
    decreases s.len(),
{
    if s.len() > 0 && s[0] == '/' {
        without_slashes(s.drop_first())
    } else {
        s
    }
}

/// Some registered language claims the extension.
pub open spec fn source_extension(ext: Seq<char>) -> bool {
    exists|i: int|
        0 <= i < registry().len() && (#[trigger] registry()[i]).extensions.contains(ext)
}

/// A reference without a source extension behind it.
pub open spec fn without_source_extension(s: Seq<char>) -> Seq<char> {
    let dot = last_place(s, '.');
    if dot >= 0 && source_extension(s.skip(dot + 1)) {
        s.take(dot)
    } else {
        s
    }
}

/// A reference with its separators turned into dots.
pub open spec fn dotted(s: Seq<char>) -> Seq<char> {
    with_replaced(with_replaced(s, '/', '.'), '\\', '.')
}

/// A reference as it is compared with module names.
pub open spec fn plain_reference(raw: Seq<char>) -> Seq<char> {
    without_source_extension(without_slashes(without_relative(raw)))
}

fn dot_text(s: &str) -> (r: String)
    ensures
        r@ == dotted(s@),
{
    replace_char(replace_char(s, '/', '.').as_str(), '\\', '.')
}

/// Whether some registered language claims an extension.
fn is_source_extension(ext: &str, languages: &Vec<Language>) -> (r: bool)
    requires
        views(languages@) == registry(),
    ensures
        r == source_extension(ext@),
{
    let mut i: usize = 0;
    while i < languages.len()
        invariant
            i <= languages@.len(),
            views(languages@) == registry(),
            forall|j: int|
                0 <= j < i ==> !(#[trigger] registry()[j]).extensions.contains(ext@),
        decreases languages.len() - i,
    {
        let extensions = &languages[i].extensions;
        assert(registry()[i as int] == languages@[i as int]@);
        let mut k: usize = 0;
        while k < extensions.len()
            invariant
                i < languages@.len(),
                k <= extensions@.len(),
                views(languages@) == registry(),
                registry()[i as int].extensions == views(extensions@),
                forall|j: int| 0 <= j < k ==> (#[trigger] extensions@[j])@ != ext@,
            decreases extensions.len() - k,
        {
            if same_text(extensions[k], ext) {
                assert(views(extensions@)[k as int] == ext@);
                return true;
            }
            k += 1;
        }
        assert forall|j: int| 0 <= j < views(extensions@).len() implies views(extensions@)[j]
            != ext@ by {
            assert(extensions@[j]@ != ext@);
        }
        i += 1;
    }
    false
}

/// Strip the relative-import noise (`./`, `../`, a leading `/`, a known
/// source extension) from a raw token, and also compute its dotted form so a
/// slash-separated reference can match a dotted plausible name and vice versa.
pub fn normalize_token(raw: &str, languages: &Vec<Language>) -> (t: (String, String))
    requires
        views(languages@) == registry(),
    ensures
        t.0@ == plain_reference(raw@),
        t.1@ == dotted(plain_reference(raw@)),
{
    let chars = chars_of(raw);
    let n: usize = chars.len();
    let here = vec!['.', '/'];
    let up = vec!['.', '.', '/'];
    assert(here@ =~= seq!['.', '/']);
    assert(up@ =~= seq!['.', '.', '/']);
    let mut lo: usize = 0;
    assert(raw@.skip(0) =~= raw@);
    let mut stripping = true;
    while stripping
        invariant
            lo <= n == chars@.len(),
            chars@ == raw@,
            here@ == seq!['.', '/'],
            up@ == seq!['.', '.', '/'],
            without_relative(raw@) == without_relative(raw@.skip(lo as int)),
            !stripping ==> without_relative(raw@) == raw@.skip(lo as int),
        decreases n - lo + if stripping {
            1int
        } else {
            0
        },
    {
        let ghost rest = raw@.skip(lo as int);
        proof {
            lemma_stands_ahead(raw@, here@, lo as int);
            lemma_stands_ahead(raw@, up@, lo as int);
        }
        if is_at(chars.as_slice(), here.as_slice(), lo) {
            assert(rest.skip(2) =~= raw@.skip(lo + 2));
            lo += 2;
        } else if is_at(chars.as_slice(), up.as_slice(), lo) {
            assert(rest.skip(3) =~= raw@.skip(lo + 3));
            lo += 3;
        } else {
            stripping = false;
        }
    }
    while lo < n && chars[lo] == '/'
        invariant
            lo <= n == chars@.len(),
            chars@ == raw@,
            without_slashes(without_relative(raw@)) == without_slashes(raw@.skip(lo as int)),
        decreases n - lo,
    {
        assert(raw@.skip(lo as int).drop_first() =~= raw@.skip(lo + 1));
        assert(raw@.skip(lo as int)[0] == chars@[lo as int]);
        lo += 1;
    }
    let ghost rest = without_slashes(without_relative(raw@));
    assert(rest == raw@.skip(lo as int)) by {
        if lo < n {
            assert(raw@.skip(lo as int)[0] == chars@[lo as int]);
        }
    }
    proof {
        lemma_last_place(rest, '.');
    }
    // Look for the last dot.
    let mut dot: usize = n;
    let mut found = false;
    while dot > lo && !found
        invariant
            lo <= dot <= n == chars@.len(),
            chars@ == raw@,
            rest == raw@.skip(lo as int),
            found ==> dot < n && chars@[dot as int] == '.',
            forall|j: int|
                (if found {
                    dot + 1
                } else {
                    dot as int
                }) <= j < n ==> #[trigger] chars@[j] != '.',
        decreases dot - lo + if found {
            0int
        } else {
            1
        },
    {
        if chars[dot - 1] == '.' {
            found = true;
        }
        dot -= 1;
    }
    proof {
        let place = last_place(rest, '.');
        if found {
            assert(rest[dot - lo] == '.');
            if place != dot - lo {
                if place < dot - lo {
                    assert(rest[dot - lo] != '.');
                } else {
                    assert(rest[place] == chars@[lo + place]);
                }
            }
        } else if place >= 0 {
            assert(rest[place] == chars@[lo + place]);
        }
    }
    let mut end: usize = n;
    if found {
        let ext = text_between(chars.as_slice(), dot + 1, n);
        assert(ext@ =~= rest.skip(last_place(rest, '.') + 1));
        if is_source_extension(ext.as_str(), languages) {
            end = dot;
        }
    }
    let owned = text_between(chars.as_slice(), lo, end);
    proof {
        if end == n {
            assert(owned@ =~= rest);
        } else {
            assert(owned@ =~= rest.take(last_place(rest, '.')));
        }
        assert(owned@ == plain_reference(raw@));
    }
    let dots = dot_text(owned.as_str());
    (owned, dots)
}

/// What stands in a text at a place begins the text from there on.
proof fn lemma_stands_ahead(s: Seq<char>, pat: Seq<char>, i: int)
    requires
        0 <= i <= s.len(),
    ensures
        stands_at(s, pat, i) == stands_at(s.skip(i), pat, 0),
{
    if i + pat.len() <= s.len() {
        assert(s.subrange(i, i + pat.len()) =~= s.skip(i).subrange(0, pat.len() as int));
    }
}

/// The names a file could be imported by.
pub open spec fn plausible(path: Seq<char>) -> (Seq<char>, Seq<char>) {
    (
        match stem_of(path) {
            Some(stem) => stem,
            None => Seq::empty(),
        },
        dotted(without_extension(path)),
    )
}

/// The plausible names a file could be imported by: its stem, and its path
/// with `/` and `\` turned into `.`, extension dropped.
pub fn plausible_names(path: &str) -> (n: (String, String))
    ensures
        (n.0@, n.1@) == plausible(path@),
{
    let stem = match file_stem(path) {
        Some(stem) => stem,
        None => {
            let none = String::new();
            assert(none@ =~= Seq::empty());
            none
        },
    };
    (stem, dot_text(strip_extension(path).as_str()))
}

/// A token of a line names a module.
pub open spec fn names_module(raw: Seq<char>, module: (Seq<char>, Seq<char>)) -> bool {
    let token = plain_reference(raw);
    token == module.0 || token == module.1 || dotted(token) == module.1
}

/// A line refers to a module.
pub open spec fn line_refers(line: Seq<char>, module: (Seq<char>, Seq<char>)) -> bool {
    import_line(line) && exists|t: int|
        0 <= t < tokens_from(line, 0).len() && names_module(
            #[trigger] tokens_from(line, 0)[t],
            module,
        )
}

/// A text refers to a module on one of its lines.
pub open spec fn text_refers(text: Seq<char>, module: (Seq<char>, Seq<char>)) -> bool {
    exists|l: int|
        0 <= l < lines_of(text).len() && line_refers(#[trigger] lines_of(text)[l], module)
}

/// The file at `i` appears to import the one at `j`.
pub open spec fn imports(files: Seq<SourceView>, i: int, j: int) -> bool {
    i != j && plausible(files[j].path).0.len() > 0 && text_refers(
        files[i].text,
        plausible(files[j].path),
    )
}

/// How many of the first `k` files appear to import the one at `j`.
pub open spec fn importers(files: Seq<SourceView>, j: int, k: nat) -> nat
    decreases k,
{
    if k == 0 {
        0
    } else {
        importers(files, j, (k - 1) as nat) + if imports(files, k - 1, j) {
            1nat
        } else {
            0
        }
    }
}

/// How often each file appears to be imported.
pub open spec fn inbound(files: Seq<SourceView>) -> Seq<nat> {
    Seq::new(files.len(), |j: int| importers(files, j, files.len()))
}

/// Whether a token names a module.
fn token_names_module(
    token: &str,
    dots: &str,
    module: &(String, String),
    Ghost(raw): Ghost<Seq<char>>,
) -> (r: bool)
    requires
        token@ == plain_reference(raw),
        dots@ == dotted(token@),
    ensures
        r == names_module(raw, (module.0@, module.1@)),
{
    same_text(token, module.0.as_str()) || same_text(token, module.1.as_str()) || same_text(
        dots,
        module.1.as_str(),
    )
}

/// What a list of module names holds.
spec fn modules(names: Seq<(String, String)>) -> Seq<(Seq<char>, Seq<char>)> {
    Seq::new(names.len(), |i: int| (names[i].0@, names[i].1@))
}

/// Mark every module a line refers to.
fn mark_line(
    line: &str,
    names: &Vec<(String, String)>,
    languages: &Vec<Language>,
    seen: &mut Vec<bool>,
)
    requires
        views(languages@) == registry(),
        old(seen)@.len() == names@.len(),
    ensures
        final(seen)@.len() == old(seen)@.len(),
        forall|j: int|
            0 <= j < names@.len() ==> #[trigger] final(seen)@[j] == (old(seen)@[j] || line_refers(
                line@,
                modules(names@)[j],
            )),
{
    if !looks_like_import(line) {
        return;
    }
    let ghost all_names = modules(names@);
    let tokens = tokenize_line(line);
    let ghost words = tokens_from(line@, 0);
    let ghost start = seen@;
    let mut t: usize = 0;
    while t < tokens.len()
        invariant
            t <= tokens@.len(),
            views(tokens@) == words,
            words == tokens_from(line@, 0),
            views(languages@) == registry(),
            all_names == modules(names@),
            seen@.len() == names@.len(),
            start.len() == names@.len(),
            forall|j: int|
                0 <= j < names@.len() ==> #[trigger] seen@[j] == (start[j] || named_by_some(
                    words,
                    t as int,
                    all_names[j],
                )),
        decreases tokens.len() - t,
    {
        let (token, dots) = normalize_token(tokens[t].as_str(), languages);
        let ghost raw = words[t as int];
        let ghost before = seen@;
        let mut j: usize = 0;
        while j < names.len()
            invariant
                j <= names@.len(),
                t < words.len(),
                raw == words[t as int],
                token@ == plain_reference(raw),
                dots@ == dotted(token@),
                all_names == modules(names@),
                seen@.len() == names@.len(),
                before.len() == names@.len(),
                forall|k: int|
                    0 <= k < names@.len() ==> #[trigger] seen@[k] == (if k < j {
                        before[k] || names_module(raw, all_names[k])
                    } else {
                        before[k]
                    }),
            decreases names.len() - j,
        {
            assert(all_names[j as int] == (names@[j as int].0@, names@[j as int].1@));
            if token_names_module(token.as_str(), dots.as_str(), &names[j], Ghost(raw)) {
                seen.set(j, true);
            }
            j += 1;
        }
        proof {
            assert forall|k: int| 0 <= k < names@.len() implies #[trigger] seen@[k] == (start[k]
                || named_by_some(words, t + 1, all_names[k])) by {
                assert(before[k] == (start[k] || named_by_some(words, t as int, all_names[k])));
                lemma_named_by_next(words, t as int, all_names[k]);
            }
        }
        t += 1;
    }
    proof {
        assert forall|j: int| 0 <= j < names@.len() implies #[trigger] seen@[j] == (start[j]
            || line_refers(line@, all_names[j])) by {
            assert(named_by_some(words, words.len() as int, all_names[j]) == line_refers(
                line@,
                all_names[j],
            ));
        }
    }
}

/// One of the first `n` words names a module.
spec fn named_by_some(words: Seq<Seq<char>>, n: int, module: (Seq<char>, Seq<char>)) -> bool {
    exists|t: int| 0 <= t < n && names_module(#[trigger] words[t], module)
}

proof fn lemma_named_by_next(words: Seq<Seq<char>>, n: int, module: (Seq<char>, Seq<char>))
    requires
        0 <= n < words.len(),
    ensures
        named_by_some(words, n + 1, module) == (named_by_some(words, n, module) || names_module(
            words[n],
            module,
        )),
{
    if named_by_some(words, n + 1, module) {
        let t = choose|t: int| 0 <= t < n + 1 && names_module(#[trigger] words[t], module);
        if t < n {
            assert(named_by_some(words, n, module));
        }
    }
}

/// Which modules a text refers to.
fn mark_text(text: &str, names: &Vec<(String, String)>, languages: &Vec<Language>) -> (seen: Vec<
    bool,
>)
    requires
        views(languages@) == registry(),
    ensures
        seen@.len() == names@.len(),
        forall|j: int|
            0 <= j < names@.len() ==> #[trigger] seen@[j] == text_refers(
                text@,
                modules(names@)[j],
            ),
{
    let ghost all_names = modules(names@);
    let mut seen: Vec<bool> = Vec::new();
    let mut k: usize = 0;
    while k < names.len()
        invariant
            k <= names@.len(),
            seen@.len() == k,
            forall|j: int| 0 <= j < k ==> !#[trigger] seen@[j],
        decreases names.len() - k,
    {
        seen.push(false);
        k += 1;
    }
    let rows = lines(text);
    let ghost list = lines_of(text@);
    let mut l: usize = 0;
    while l < rows.len()
        invariant
            l <= rows@.len(),
            views(rows@) == list,
            list == lines_of(text@),
            views(languages@) == registry(),
            all_names == modules(names@),
            seen@.len() == names@.len(),
            forall|j: int|
                0 <= j < names@.len() ==> #[trigger] seen@[j] == referred_by_some(
                    list,
                    l as int,
                    all_names[j],
                ),
        decreases rows.len() - l,
    {
        let ghost before = seen@;
        mark_line(rows[l].as_str(), names, languages, &mut seen);
        proof {
            assert(list[l as int] == rows@[l as int]@);
            assert forall|j: int| 0 <= j < names@.len() implies #[trigger] seen@[j]
                == referred_by_some(list, l + 1, all_names[j]) by {
                assert(before[j] == referred_by_some(list, l as int, all_names[j]));
                lemma_referred_by_next(list, l as int, all_names[j]);
            }
        }
        l += 1;
    }
    proof {
        assert forall|j: int| 0 <= j < names@.len() implies #[trigger] seen@[j] == text_refers(
            text@,
            all_names[j],
        ) by {
            assert(referred_by_some(list, list.len() as int, all_names[j]) == text_refers(
                text@,
                all_names[j],
            ));
        }
    }
    seen
}

/// One of the first `n` lines refers to a module.
spec fn referred_by_some(list: Seq<Seq<char>>, n: int, module: (Seq<char>, Seq<char>)) -> bool {
    exists|l: int| 0 <= l < n && line_refers(#[trigger] list[l], module)
}

proof fn lemma_referred_by_next(list: Seq<Seq<char>>, n: int, module: (Seq<char>, Seq<char>))
    requires
        0 <= n < list.len(),
    ensures
        referred_by_some(list, n + 1, module) == (referred_by_some(list, n, module) || line_refers(
            list[n],
            module,
        )),
{
    if referred_by_some(list, n + 1, module) {
        let l = choose|l: int| 0 <= l < n + 1 && line_refers(#[trigger] list[l], module);
        if l < n {
            assert(referred_by_some(list, n, module));
        }
    }
}

proof fn lemma_importers_bounded(files: Seq<SourceView>, j: int, k: nat)
    ensures
        importers(files, j, k) <= k,
    decreases k,
{
    if k > 0 {
        lemma_importers_bounded(files, j, (k - 1) as nat);
    }
}

/// For each file, how many *other* files appear to import it.
///
/// # This is an acknowledged heuristic, not a resolved import graph
///
/// It scans lines for import-like statements and matches the tokens on that line
/// against each other file's plausible module names (its file stem, and its path
/// with separators turned into dots and the extension dropped). There is no module
/// resolver, no path aliasing, and no distinction between a real import and a
/// string that happens to look like one.
///
/// **`zero_inbound` is a strong prior, never a verdict.** A CLI entry point or
/// a package root has no inbound imports and is not dead code.
pub fn inbound_imports(files: &[SourceFile]) -> (counts: Vec<usize>)
    ensures
        counts@.len() == files@.len(),
        forall|j: int|
            0 <= j < counts@.len() ==> #[trigger] counts@[j] == inbound(views(files@))[j],
{
    let ghost all_files = views(files@);
    let n: usize = files.len();
    let mut names: Vec<(String, String)> = Vec::new();
    let mut counts: Vec<usize> = Vec::new();
    let mut k: usize = 0;
    while k < n
        invariant
            k <= n == files@.len(),
            all_files == views(files@),
            names@.len() == k,
            counts@.len() == k,
            forall|j: int|
                0 <= j < k ==> (#[trigger] names@[j]).0@ == plausible(all_files[j].path).0
                    && names@[j].1@ == plausible(all_files[j].path).1,
            forall|j: int| 0 <= j < k ==> #[trigger] counts@[j] == 0,
        decreases n - k,
    {
        names.push(plausible_names(files[k].path.as_str()));
        counts.push(0);
        k += 1;
    }
    let languages = all();
    let mut i: usize = 0;
    while i < n
        invariant
            i <= n == files@.len(),
            all_files == views(files@),
            views(languages@) == registry(),
            names@.len() == n,
            counts@.len() == n,
            forall|j: int|
                0 <= j < n ==> (#[trigger] names@[j]).0@ == plausible(all_files[j].path).0
                    && names@[j].1@ == plausible(all_files[j].path).1,
            forall|j: int|
                0 <= j < n ==> #[trigger] counts@[j] == importers(all_files, j, i as nat),
        decreases n - i,
    {
        let seen = mark_text(files[i].text.as_str(), &names, &languages);
        let ghost before = counts@;
        let mut j: usize = 0;
        while j < n
            invariant
                i < n == files@.len(),
                j <= n,
                all_files == views(files@),
                names@.len() == n,
                seen@.len() == n,
                counts@.len() == n,
                before.len() == n,
                forall|k: int|
                    0 <= k < n ==> (#[trigger] names@[k]).0@ == plausible(all_files[k].path).0
                        && names@[k].1@ == plausible(all_files[k].path).1,
                forall|k: int|
                    0 <= k < n ==> #[trigger] seen@[k] == text_refers(
                        all_files[i as int].text,
                        modules(names@)[k],
                    ),
                forall|k: int|
                    0 <= k < n ==> #[trigger] before[k] == importers(all_files, k, i as nat),
                forall|k: int|
                    0 <= k < n ==> #[trigger] counts@[k] == (if k < j {
                        importers(all_files, k, (i + 1) as nat)
                    } else {
                        importers(all_files, k, i as nat)
                    }),
            decreases n - j,
        {
            proof {
                assert(names@[j as int].0@ == plausible(all_files[j as int].path).0);
                assert(modules(names@)[j as int] == plausible(all_files[j as int].path));
                assert(seen@[j as int] == text_refers(
                    all_files[i as int].text,
                    modules(names@)[j as int],
                ));
                lemma_importers_bounded(all_files, j as int, i as nat);
                assert(counts@[j as int] == importers(all_files, j as int, i as nat));
            }
            if i != j && !names[j].0.as_str().is_empty() && seen[j] {
                let more: usize = counts[j] + 1;
                counts.set(j, more);
            }
            j += 1;
        }
        i += 1;
    }
    counts
}

// ---------------------------------------------------------------------------- pairs

/// The names two vocabularies share, in alphabetical order.
pub open spec fn shared_names(a: Seq<Seq<char>>, b: Seq<Seq<char>>) -> Seq<Seq<char>> {
    a.filter(|x: Seq<char>| b.contains(x))
}

/// The first few of a list.
pub open spec fn first_few(s: Seq<Seq<char>>, n: nat) -> Seq<Seq<char>> {
    if n < s.len() {
        s.take(n as int)
    } else {
        s
    }
}

/// The smaller of two counts.
pub open spec fn fewer(a: nat, b: nat) -> nat {
    if a <= b {
        a
    } else {
        b
    }
}

/// Shared names over the smaller vocabulary.
pub open spec fn overlap_of(a: Seq<Seq<char>>, b: Seq<Seq<char>>) -> Ratio {
    Ratio {
        num: shared_names(a, b).len() as u64,
        den: fewer(a.len(), b.len()) as u64,
    }
}

/// What is known of every file: its path, its vocabulary, how often it is imported.
#[verifier::ext_equal]
pub struct FileFacts {
    /// Path as the walker reported it.
    pub path: Seq<char>,
    /// Its distinct identifiers, in alphabetical order.
    pub names: Seq<Seq<char>>,
    /// How many other files appear to import it.
    pub inbound: nat,
}

/// The finding of two files, if both vocabularies are large enough and overlap
/// enough.
pub open spec fn vocab_between(
    a: FileFacts,
    b: FileFacts,
    min_overlap: Ratio,
    min_vocabulary: nat,
    sample_size: nat,
) -> Seq<VocabView> {
    let overlap = overlap_of(a.names, b.names);
    if a.names.len() < min_vocabulary || b.names.len() < min_vocabulary || fewer(
        a.names.len(),
        b.names.len(),
    ) == 0 || !min_overlap.le(overlap) {
        Seq::empty()
    } else {
        seq![
            VocabView {
                a: a.path,
                b: b.path,
                overlap,
                shared: shared_names(a.names, b.names).len(),
                a_vocabulary: a.names.len(),
                b_vocabulary: b.names.len(),
                a_inbound_imports: a.inbound,
                b_inbound_imports: b.inbound,
                zero_inbound: a.inbound == 0 || b.inbound == 0,
                sample_shared: first_few(shared_names(a.names, b.names), sample_size),
            },
        ]
    }
}

/// The findings of the file at `i` with those behind it, before `n`.
pub open spec fn vocab_with(
    facts: Seq<FileFacts>,
    i: int,
    n: int,
    min_overlap: Ratio,
    min_vocabulary: nat,
    sample_size: nat,
) -> Seq<VocabView>
    decreases n - i,
{
    if n <= i + 1 {
        Seq::empty()
    } else {
        vocab_with(facts, i, n - 1, min_overlap, min_vocabulary, sample_size) + vocab_between(
            facts[i],
            facts[n - 1],
            min_overlap,
            min_vocabulary,
            sample_size,
        )
    }
}

/// The findings of the first `k` files with those behind them.
pub open spec fn all_vocab(
    facts: Seq<FileFacts>,
    k: nat,
    min_overlap: Ratio,
    min_vocabulary: nat,
    sample_size: nat,
) -> Seq<VocabView>
    decreases k,
{
    if k == 0 {
        Seq::empty()
    } else {
        all_vocab(facts, (k - 1) as nat, min_overlap, min_vocabulary, sample_size) + vocab_with(
            facts,
            k - 1,
            facts.len() as int,
            min_overlap,
            min_vocabulary,
            sample_size,
        )
    }
}

/// Files nothing imports first, then the greatest overlap, then by key.
pub struct UnreachedFirst;

impl Order<VocabPair> for UnreachedFirst {
    open spec fn precedes(a: VocabView, b: VocabView) -> bool {
        (a.zero_inbound && !b.zero_inbound) || (a.zero_inbound == b.zero_inbound && b.overlap.le(
            a.overlap,
        ) && (a.overlap.le(b.overlap) ==> pair_alphabetical(a.key(), b.key())))
    }

    proof fn lemma_total(a: VocabView, b: VocabView) {
        lemma_le_total(a.overlap, b.overlap);
        lemma_pair_alphabetical(a.key(), b.key(), a.key());
    }

    proof fn lemma_transitive(a: VocabView, b: VocabView, c: VocabView) {
        if a.zero_inbound == b.zero_inbound && b.zero_inbound == c.zero_inbound {
            lemma_le_transitive(c.overlap, b.overlap, a.overlap);
            if a.overlap.le(c.overlap) {
                lemma_le_transitive(b.overlap, a.overlap, c.overlap);
                lemma_le_transitive(a.overlap, c.overlap, b.overlap);
                lemma_pair_alphabetical(a.key(), b.key(), c.key());
            }
        }
    }

    fn may_precede(a: &VocabPair, b: &VocabPair) -> (r: bool) {
        if a.zero_inbound != b.zero_inbound {
            return a.zero_inbound;
        }
        if !b.overlap.at_most(&a.overlap) {
            return false;
        }
        if !a.overlap.at_most(&b.overlap) {
            return true;
        }
        let (ka, kb) = (a.key(), b.key());
        pair_at_most(ka.0.as_str(), ka.1.as_str(), kb.0.as_str(), kb.1.as_str())
    }
}

/// The names two alphabetical lists share.
fn shared_of(a: &Vec<String>, b: &Vec<String>) -> (out: Vec<String>)
    requires
        ordered(views(a@)),
        ordered(views(b@)),
    ensures
        views(out@) == shared_names(views(a@), views(b@)),
{
    let ghost (x, y) = (views(a@), views(b@));
    let ghost in_b = |s: Seq<char>| y.contains(s);
    let mut out: Vec<String> = Vec::new();
    let mut i: usize = 0;
    let mut j: usize = 0;
    proof {
        reveal(Seq::filter);
        assert(x.take(0) =~= Seq::empty());
        assert(views(out@) =~= x.take(0).filter(in_b));
    }
    while i < a.len()
        invariant
            x == views(a@),
            y == views(b@),
            ordered(x),
            ordered(y),
            in_b == (|s: Seq<char>| y.contains(s)),
            i <= a@.len(),
            j <= b@.len(),
            views(out@) == x.take(i as int).filter(in_b),
            i < a@.len() ==> forall|q: int|
                0 <= q < j ==> alphabetical(#[trigger] y[q], x[i as int]) && y[q] != x[i as int],
        decreases (a.len() - i) + (b.len() - j),
    {
        let ghost mark = views(out@);
        let ghost here = x[i as int];
        proof {
            reveal(Seq::filter);
            assert(x.take(i + 1).drop_last() =~= x.take(i as int));
        }
        if j >= b.len() {
            proof {
                lemma_not_beyond(y, here, j as int);
                lemma_behind(x, y, i as int, j as int);
            }
            i += 1;
        } else if same_text(a[i].as_str(), b[j].as_str()) {
            out.push(a[i].clone());
            proof {
                assert(y[j as int] == here);
                assert(views(out@) =~= mark.push(here));
                lemma_behind(x, y, i as int, j as int);
            }
            i += 1;
        } else if text_at_most(a[i].as_str(), b[j].as_str()) {
            proof {
                assert(alphabetical(here, y[j as int]));
                lemma_not_beyond(y, here, j as int);
                lemma_behind(x, y, i as int, j as int);
            }
            i += 1;
        } else {
            proof {
                lemma_alphabetical_total(here, y[j as int]);
            }
            j += 1;
        }
    }
    assert(x.take(i as int) =~= x);
    out
}

/// A name that stands between two neighbours of a list is not in it.
proof fn lemma_not_beyond(y: Seq<Seq<char>>, here: Seq<char>, j: int)
    requires
        ordered(y),
        0 <= j <= y.len(),
        forall|q: int| 0 <= q < j ==> #[trigger] y[q] != here,
        j < y.len() ==> alphabetical(here, y[j]) && here != y[j],
    ensures
        !y.contains(here),
{
    if y.contains(here) {
        let q = choose|q: int| 0 <= q < y.len() && y[q] == here;
        if q > j {
            assert(alphabetical(y[j], y[q]));
            lemma_alphabetical_antisymmetric(here, y[j]);
        }
    }
}

/// What stands before a name stands before the next one too.
proof fn lemma_behind(x: Seq<Seq<char>>, y: Seq<Seq<char>>, i: int, j: int)
    requires
        ordered(x),
        0 <= i < x.len(),
        0 <= j <= y.len(),
        forall|q: int| 0 <= q < j ==> alphabetical(#[trigger] y[q], x[i]) && y[q] != x[i],
    ensures
        i + 1 < x.len() ==> forall|q: int|
            0 <= q < j ==> alphabetical(#[trigger] y[q], x[i + 1]) && y[q] != x[i + 1],
{
    if i + 1 < x.len() {
        assert(alphabetical(x[i], x[i + 1]) && x[i] != x[i + 1]);
        assert forall|q: int| 0 <= q < j implies alphabetical(#[trigger] y[q], x[i + 1]) && y[q]
            != x[i + 1] by {
            lemma_alphabetical_transitive(y[q], x[i], x[i + 1]);
            if y[q] == x[i + 1] {
                lemma_alphabetical_antisymmetric(x[i], x[i + 1]);
            }
        }
    }
}

/// What is known of every file, put together.
pub open spec fn facts_of(
    files: Seq<SourceFile>,
    vocabularies: Seq<Vec<String>>,
    inbound: Seq<usize>,
) -> Seq<FileFacts> {
    Seq::new(
        files.len(),
        |i: int|
            FileFacts {
                path: files[i].path@,
                names: views(vocabularies[i]@),
                inbound: inbound[i] as nat,
            },
    )
}

/// The first few of a list of names.
fn take_few(list: &Vec<String>, n: usize) -> (few: Vec<String>)
    ensures
        views(few@) == first_few(views(list@), n as nat),
{
    let ghost goal = first_few(views(list@), n as nat);
    let mut few: Vec<String> = Vec::new();
    let mut i: usize = 0;
    while i < list.len() && i < n
        invariant
            i <= list@.len(),
            i <= n,
            views(few@) == views(list@).take(i as int),
        decreases list.len() - i,
    {
        let ghost before = views(few@);
        few.push(list[i].clone());
        assert(views(few@) =~= before.push(list@[i as int]@));
        i += 1;
        assert(views(few@) =~= views(list@).take(i as int));
    }
    assert(views(few@) =~= goal);
    few
}

/// The finding of two files.
fn vocab_pair(
    files: &[SourceFile],
    vocabularies: &[Vec<String>],
    inbound: &[usize],
    options: &VocabOptions,
    i: usize,
    j: usize,
) -> (pair: Option<VocabPair>)
    requires
        i < files@.len(),
        j < files@.len(),
        vocabularies@.len() == files@.len(),
        inbound@.len() == files@.len(),
        ordered(views(vocabularies@[i as int]@)),
        ordered(views(vocabularies@[j as int]@)),
    ensures
        ({
            let facts = facts_of(files@, vocabularies@, inbound@);
            let here = vocab_between(
                facts[i as int],
                facts[j as int],
                options.min_overlap,
                options.min_vocabulary as nat,
                options.sample_size as nat,
            );
            &&& pair is None ==> here == Seq::<VocabView>::empty()
            &&& pair matches Some(p) ==> here == seq![p@]
        }),
{
    let (a, b) = (&vocabularies[i], &vocabularies[j]);
    if a.len() < options.min_vocabulary || b.len() < options.min_vocabulary {
        return None;
    }
    let smaller: usize = if a.len() <= b.len() {
        a.len()
    } else {
        b.len()
    };
    // An empty vocabulary has nothing to overlap over: there is no finding, not a
    // made-up score.
    if smaller == 0 {
        return None;
    }
    let shared = shared_of(a, b);
    let overlap = Ratio { num: shared.len() as u64, den: smaller as u64 };
    assert(views(shared@).len() == shared@.len());
    assert(overlap == overlap_of(views(a@), views(b@)));
    if !options.min_overlap.at_most(&overlap) {
        return None;
    }
    let pair = VocabPair {
        a: files[i].path.clone(),
        b: files[j].path.clone(),
        overlap,
        shared: shared.len(),
        a_vocabulary: a.len(),
        b_vocabulary: b.len(),
        a_inbound_imports: inbound[i],
        b_inbound_imports: inbound[j],
        zero_inbound: inbound[i] == 0 || inbound[j] == 0,
        sample_shared: take_few(&shared, options.sample_size),
    };
    Some(pair)
}

/// Find overlapping file pairs among files whose vocabularies are known.
pub fn pairs_of_vocabularies(
    files: &[SourceFile],
    vocabularies: &[Vec<String>],
    inbound: &[usize],
    options: &VocabOptions,
) -> (pairs: Vec<VocabPair>)
    requires
        vocabularies@.len() == files@.len(),
        inbound@.len() == files@.len(),
        forall|k: int|
            0 <= k < vocabularies@.len() ==> ordered(views((#[trigger] vocabularies@[k])@)),
    ensures
        views(pairs@) == sorted::<VocabPair, UnreachedFirst>(
            all_vocab(
                facts_of(files@, vocabularies@, inbound@),
                files@.len(),
                options.min_overlap,
                options.min_vocabulary as nat,
                options.sample_size as nat,
            ),
        ),
        reports_every_overlap(
            views(pairs@),
            facts_of(files@, vocabularies@, inbound@),
            options.min_overlap,
            options.min_vocabulary as nat,
            options.sample_size as nat,
        ),
{
    let ghost facts = facts_of(files@, vocabularies@, inbound@);
    let ghost (low, few, sample) = (
        options.min_overlap,
        options.min_vocabulary as nat,
        options.sample_size as nat,
    );
    let n: usize = files.len();
    let mut pairs: Vec<VocabPair> = Vec::new();
    let mut i: usize = 0;
    assert(views(pairs@) =~= Seq::empty());
    while i < n
        invariant
            i <= n == files@.len(),
            facts == facts_of(files@, vocabularies@, inbound@),
            low == options.min_overlap,
            few == options.min_vocabulary,
            sample == options.sample_size,
            vocabularies@.len() == n,
            inbound@.len() == n,
            forall|k: int|
                0 <= k < vocabularies@.len() ==> ordered(views((#[trigger] vocabularies@[k])@)),
            views(pairs@) == all_vocab(facts, i as nat, low, few, sample),
        decreases n - i,
    {
        let ghost before = views(pairs@);
        let mut j: usize = i + 1;
        assert(vocab_with(facts, i as int, i + 1, low, few, sample) =~= Seq::empty());
        assert(before + Seq::empty() =~= before);
        while j < n
            invariant
                i < j <= n == files@.len(),
                facts == facts_of(files@, vocabularies@, inbound@),
                low == options.min_overlap,
                few == options.min_vocabulary,
                sample == options.sample_size,
                vocabularies@.len() == n,
                inbound@.len() == n,
                forall|k: int|
                    0 <= k < vocabularies@.len() ==> ordered(views((#[trigger] vocabularies@[k])@)),
                views(pairs@) == before + vocab_with(
                    facts,
                    i as int,
                    j as int,
                    low,
                    few,
                    sample,
                ),
            decreases n - j,
        {
            assert(ordered(views(vocabularies@[i as int]@)));
            assert(ordered(views(vocabularies@[j as int]@)));
            let ghost mark = views(pairs@);
            let ghost row = vocab_with(facts, i as int, j as int, low, few, sample);
            let ghost here = vocab_between(facts[i as int], facts[j as int], low, few, sample);
            match vocab_pair(files, vocabularies, inbound, options, i, j) {
                Some(pair) => {
                    pairs.push(pair);
                },
                None => {},
            }
            assert(views(pairs@) =~= mark + here);
            assert(before + (row + here) =~= (before + row) + here);
            j += 1;
        }
        i += 1;
    }
    proof {
        assert forall|k: int| 0 <= k < facts.len() implies ordered((#[trigger] facts[k]).names)
            && facts[k].names.len() <= u64::MAX by {
            assert(ordered(views(vocabularies@[k]@)));
            assert(views(vocabularies@[k]@).len() == vocabularies@[k].len());
        }
        lemma_every_overlap_is_reported(facts, low, few, sample);
    }
    sort::<VocabPair, UnreachedFirst>(pairs)
}

/// What is known of every file under search.
pub open spec fn file_facts(
    files: Seq<SourceView>,
    noise: Seq<(Seq<char>, Seq<Seq<char>>)>,
) -> Seq<FileFacts> {
    Seq::new(
        files.len(),
        |i: int|
            FileFacts {
                path: files[i].path,
                names: listing(file_vocabulary(files[i], noise)),
                inbound: inbound(files)[i],
            },
    )
}

/// Find file pairs whose vocabularies overlap more than `min_overlap`.
pub fn find_vocab_pairs(files: &[SourceFile], options: &VocabOptions) -> (pairs: Vec<VocabPair>)
    ensures
        views(pairs@) == sorted::<VocabPair, UnreachedFirst>(
            all_vocab(
                file_facts(views(files@), noise_view(options.noise@)),
                files@.len(),
                options.min_overlap,
                options.min_vocabulary as nat,
                options.sample_size as nat,
            ),
        ),
        reports_every_overlap(
            views(pairs@),
            file_facts(views(files@), noise_view(options.noise@)),
            options.min_overlap,
            options.min_vocabulary as nat,
            options.sample_size as nat,
        ),
        tells_every_file(
            file_facts(views(files@), noise_view(options.noise@)),
            views(files@),
            noise_view(options.noise@),
        ),
{
    let ghost noise = noise_view(options.noise@);
    let mut vocabularies: Vec<Vec<String>> = Vec::new();
    let mut k: usize = 0;
    while k < files.len()
        invariant
            k <= files@.len(),
            noise == noise_view(options.noise@),
            vocabularies@.len() == k,
            forall|j: int|
                0 <= j < k ==> is_set_of(
                    views((#[trigger] vocabularies@[j])@),
                    file_vocabulary(files@[j]@, noise),
                ) && views(vocabularies@[j]@) == listing(file_vocabulary(files@[j]@, noise)),
        decreases files.len() - k,
    {
        vocabularies.push(vocabulary(&files[k], &options.noise));
        k += 1;
    }
    let counts = inbound_imports(files);
    proof {
        let facts = facts_of(files@, vocabularies@, counts@);
        let goal = file_facts(views(files@), noise);
        assert forall|j: int| 0 <= j < facts.len() implies facts[j] == goal[j] by {
            assert(is_set_of(views(vocabularies@[j]@), file_vocabulary(files@[j]@, noise)));
            assert(counts@[j] == inbound(views(files@))[j]);
        }
        assert(facts =~= goal);
        assert forall|i: int| 0 <= i < files@.len() implies is_set_of(
            (#[trigger] facts[i]).names,
            file_vocabulary(views(files@)[i], noise),
        ) && facts[i].names.len() <= u64::MAX by {
            assert(is_set_of(views(vocabularies@[i]@), file_vocabulary(files@[i]@, noise)));
            assert(views(vocabularies@[i]@).len() == vocabularies@[i].len());
        }
        lemma_facts_are_those_of_the_files(facts, views(files@), noise);
    }
    pairs_of_vocabularies(files, vocabularies.as_slice(), counts.as_slice(), options)
}

// ---------------------------------------------------------------------------- laws

/// It does not matter which of two vocabularies is given first.
pub proof fn lemma_shared_names_symmetric(a: Seq<Seq<char>>, b: Seq<Seq<char>>)
    requires
        ordered(a),
        ordered(b),
    ensures
        shared_names(a, b) == shared_names(b, a),
{
    lemma_shared_names(a, b);
    lemma_shared_names(b, a);
    let (x, y) = (shared_names(a, b), shared_names(b, a));
    assert forall|n: Seq<char>| #[trigger] x.contains(n) <==> y.contains(n) by {
        assert(x.contains(n) <==> a.contains(n) && b.contains(n));
        assert(y.contains(n) <==> a.contains(n) && b.contains(n));
    }
    lemma_set_list_unique(x, y);
}

/// The shared names are in alphabetical order, and exactly those in both.
proof fn lemma_shared_names(a: Seq<Seq<char>>, b: Seq<Seq<char>>)
    requires
        ordered(a),
    ensures
        ordered(shared_names(a, b)),
        shared_names(a, b).len() <= a.len(),
        forall|n: Seq<char>|
            #[trigger] shared_names(a, b).contains(n) <==> a.contains(n) && b.contains(n),
    decreases a.len(),
{
    let p = |x: Seq<char>| b.contains(x);
    reveal(Seq::filter);
    if a.len() > 0 {
        let front = a.drop_last();
        assert(ordered(front)) by {
            assert forall|i: int, j: int| 0 <= i < j < front.len() implies alphabetical(
                #[trigger] front[i],
                #[trigger] front[j],
            ) && front[i] != front[j] by {
                assert(alphabetical(a[i], a[j]));
            }
        }
        lemma_shared_names(front, b);
        let (before, after) = (front.filter(p), a.filter(p));
        let last = a.last();
        assert forall|n: Seq<char>| #[trigger] a.contains(n) <==> front.contains(n) || n
            == last by {
            if a.contains(n) {
                let k = choose|k: int| 0 <= k < a.len() && a[k] == n;
                if k < front.len() {
                    assert(front[k] == n);
                }
            }
            if front.contains(n) {
                let k = choose|k: int| 0 <= k < front.len() && front[k] == n;
                assert(a[k] == n);
            }
            assert(a[a.len() - 1] == last);
        }
        assert forall|n: Seq<char>| #[trigger] after.contains(n) <==> a.contains(n) && b.contains(
            n,
        ) by {
            assert(before.contains(n) <==> front.contains(n) && b.contains(n));
            if p(last) {
                assert(after[before.len() as int] == last);
                if before.contains(n) {
                    let k = choose|k: int| 0 <= k < before.len() && before[k] == n;
                    assert(after[k] == n);
                }
                if after.contains(n) {
                    let k = choose|k: int| 0 <= k < after.len() && after[k] == n;
                    if k < before.len() {
                        assert(before[k] == n);
                    }
                }
            }
        }
        if p(last) {
            assert forall|i: int, j: int| 0 <= i < j < after.len() implies alphabetical(
                #[trigger] after[i],
                #[trigger] after[j],
            ) && after[i] != after[j] by {
                if j == before.len() {
                    assert(before.contains(before[i]));
                    let k = choose|k: int| 0 <= k < front.len() && front[k] == before[i];
                    assert(a[k] == before[i]);
                    assert(alphabetical(a[k], a[a.len() - 1]));
                } else {
                    assert(alphabetical(before[i], before[j]));
                }
            }
        }
    }
}

/// An overlap never exceeds one, and does not depend on which file comes first.
pub proof fn lemma_overlap_bounded_and_symmetric(a: Seq<Seq<char>>, b: Seq<Seq<char>>)
    requires
        ordered(a),
        ordered(b),
        0 < a.len() <= u64::MAX,
        0 < b.len() <= u64::MAX,
    ensures
        overlap_of(a, b).le(Ratio { num: 1, den: 1 }),
        overlap_of(a, b) == overlap_of(b, a),
{
    lemma_shared_names(a, b);
    lemma_shared_names(b, a);
    lemma_shared_names_symmetric(a, b);
    lemma_against_one(overlap_of(a, b));
}

/// A vocabulary wholly absorbed into another overlaps it entirely, however much
/// larger the other is.
pub proof fn lemma_absorbed_vocabulary_overlaps_entirely(a: Seq<Seq<char>>, b: Seq<Seq<char>>)
    requires
        ordered(a),
        ordered(b),
        0 < a.len() <= b.len() <= u64::MAX,
        forall|x: Seq<char>| #[trigger] a.contains(x) ==> b.contains(x),
    ensures
        overlap_of(a, b).same(Ratio { num: 1, den: 1 }),
{
    lemma_shared_names(a, b);
    let x = shared_names(a, b);
    assert forall|n: Seq<char>| #[trigger] x.contains(n) <==> a.contains(n) by {
        assert(x.contains(n) <==> a.contains(n) && b.contains(n));
    }
    lemma_set_list_unique(x, a);
    lemma_against_one(overlap_of(a, b));
}

/// A file is never counted as importing itself.
pub proof fn lemma_no_file_imports_itself(files: Seq<SourceView>, i: int)
    ensures
        !imports(files, i, i),
{
}

/// A finding is that of two files.
proof fn lemma_finding_of_two(
    facts: Seq<FileFacts>,
    k: nat,
    low: Ratio,
    few: nat,
    sample: nat,
    p: VocabView,
) -> (at: (int, int))
    requires
        k <= facts.len(),
        all_vocab(facts, k, low, few, sample).contains(p),
    ensures
        0 <= at.0 < at.1 < facts.len(),
        vocab_between(facts[at.0], facts[at.1], low, few, sample) == seq![p],
    decreases k,
{
    let before = all_vocab(facts, (k - 1) as nat, low, few, sample);
    let here = vocab_with(facts, k - 1, facts.len() as int, low, few, sample);
    let x = choose|x: int| 0 <= x < (before + here).len() && (before + here)[x] == p;
    if x < before.len() {
        assert(before[x] == p);
        lemma_finding_of_two(facts, (k - 1) as nat, low, few, sample, p)
    } else {
        assert(here[x - before.len()] == p);
        lemma_finding_with(facts, k - 1, facts.len() as int, low, few, sample, p)
    }
}

proof fn lemma_finding_with(
    facts: Seq<FileFacts>,
    i: int,
    n: int,
    low: Ratio,
    few: nat,
    sample: nat,
    p: VocabView,
) -> (at: (int, int))
    requires
        0 <= i,
        n <= facts.len(),
        vocab_with(facts, i, n, low, few, sample).contains(p),
    ensures
        i == at.0 < at.1 < n,
        vocab_between(facts[at.0], facts[at.1], low, few, sample) == seq![p],
    decreases n - i,
{
    let before = vocab_with(facts, i, n - 1, low, few, sample);
    let here = vocab_between(facts[i], facts[n - 1], low, few, sample);
    let x = choose|x: int| 0 <= x < (before + here).len() && (before + here)[x] == p;
    if x < before.len() {
        assert(before[x] == p);
        lemma_finding_with(facts, i, n - 1, low, few, sample, p)
    } else {
        assert(here[x - before.len()] == p);
        assert(here =~= seq![p]);
        (i, n - 1)
    }
}

/// Where no two files have the same path, two files give one finding at most: the
/// key of a finding tells it from every other.
pub proof fn lemma_keys_tell_findings_apart(
    facts: Seq<FileFacts>,
    min_overlap: Ratio,
    min_vocabulary: nat,
    sample_size: nat,
    p: VocabView,
    q: VocabView,
)
    requires
        forall|i: int, j: int|
            0 <= i < j < facts.len() ==> (#[trigger] facts[i]).path != (#[trigger] facts[j]).path,
        all_vocab(facts, facts.len(), min_overlap, min_vocabulary, sample_size).contains(p),
        all_vocab(facts, facts.len(), min_overlap, min_vocabulary, sample_size).contains(q),
        p.key() == q.key(),
    ensures
        p == q,
{
    let (low, few, sample) = (min_overlap, min_vocabulary, sample_size);
    let (i, j) = lemma_finding_of_two(facts, facts.len(), low, few, sample, p);
    let (k, l) = lemma_finding_of_two(facts, facts.len(), low, few, sample, q);
    assert(seq![p][0] == p && seq![q][0] == q);
    assert(p.a == facts[i].path && p.b == facts[j].path);
    assert(q.a == facts[k].path && q.b == facts[l].path);
    if i != k {
        assert(facts[i].path != facts[k].path);
    }
    if j != l {
        assert(facts[j].path != facts[l].path);
    }
    if i != l {
        assert(facts[i].path != facts[l].path);
    }
    if j != k {
        assert(facts[j].path != facts[k].path);
    }
    assert((i == k && j == l) || (i == l && j == k));
}

// ------------------------------------------------------- what the findings amount to

/// How many names two vocabularies have in common.
pub open spec fn common(a: FileFacts, b: FileFacts) -> nat {
    a.names.to_set().intersect(b.names.to_set()).len()
}

/// How many names the smaller of two vocabularies has.
pub open spec fn smaller_size(a: FileFacts, b: FileFacts) -> nat {
    if a.names.to_set().len() <= b.names.to_set().len() {
        a.names.to_set().len()
    } else {
        b.names.to_set().len()
    }
}

/// Two files are a finding: each has a name and as many as are asked for, and those in
/// common reach the threshold's share of the smaller vocabulary.
pub open spec fn are_kindred(a: FileFacts, b: FileFacts, low: Ratio, few: nat) -> bool {
    &&& few <= a.names.to_set().len()
    &&& few <= b.names.to_set().len()
    &&& 0 < smaller_size(a, b)
    &&& low.top() * smaller_size(a, b) <= common(a, b) * low.bottom()
}

/// `p` tells of two files: which they are, how many names each has and both have, what
/// share of the smaller vocabulary that is, by how many files each is imported, whether
/// one is by none, and the alphabetically first of the common names.
pub open spec fn tells_files(p: VocabView, a: FileFacts, b: FileFacts, sample: nat) -> bool {
    &&& p.a == a.path
    &&& p.b == b.path
    &&& p.a_vocabulary == a.names.to_set().len()
    &&& p.b_vocabulary == b.names.to_set().len()
    &&& p.shared == common(a, b)
    &&& p.overlap.den > 0
    &&& p.overlap.num * smaller_size(a, b) == common(a, b) * p.overlap.den
    &&& p.a_inbound_imports == a.inbound
    &&& p.b_inbound_imports == b.inbound
    &&& p.zero_inbound <==> a.inbound == 0 || b.inbound == 0
    &&& p.sample_shared.len() <= sample
    &&& p.sample_shared.len() <= p.shared
    &&& p.sample_shared.len() == sample || p.sample_shared.len() == p.shared
    &&& ordered(p.sample_shared)
    &&& forall|x: Seq<char>| #[trigger]
        p.sample_shared.contains(x) ==> a.names.contains(x) && b.names.contains(x)
    &&& forall|x: Seq<char>, y: Seq<char>| #[trigger]
        p.sample_shared.contains(x) && #[trigger] a.names.contains(y) && b.names.contains(y)
            && !p.sample_shared.contains(y) ==> alphabetical(x, y)
}

/// `found` tells of every two files that are kindred, and of nothing else, each two
/// once. `at` says which two each of them joins.
pub open spec fn tells_every_overlap(
    found: Seq<VocabView>,
    facts: Seq<FileFacts>,
    low: Ratio,
    few: nat,
    sample: nat,
    at: Seq<(int, int)>,
) -> bool {
    &&& at.len() == found.len()
    &&& forall|i: int|
        0 <= i < at.len() ==> 0 <= (#[trigger] at[i]).0 < at[i].1 < facts.len() && are_kindred(
            facts[at[i].0],
            facts[at[i].1],
            low,
            few,
        ) && tells_files(found[i], facts[at[i].0], facts[at[i].1], sample)
    &&& forall|i: int, j: int| 0 <= i < j < at.len() ==> #[trigger] at[i] != #[trigger] at[j]
    &&& forall|x: int, y: int|
        0 <= x < y < facts.len() && #[trigger] are_kindred(facts[x], facts[y], low, few)
            ==> at.contains((x, y))
}

/// `pairs` tell of every two files that are kindred, and of nothing else: those first
/// of which nothing imports a side, and among either kind the greatest overlap first.
pub open spec fn reports_every_overlap(
    pairs: Seq<VocabView>,
    facts: Seq<FileFacts>,
    low: Ratio,
    few: nat,
    sample: nat,
) -> bool {
    &&& forall|i: int, j: int|
        0 <= i < j < pairs.len() && (#[trigger] pairs[j]).zero_inbound ==> (
        #[trigger] pairs[i]).zero_inbound
    &&& forall|i: int, j: int|
        0 <= i < j < pairs.len() && (#[trigger] pairs[i]).zero_inbound == (
        #[trigger] pairs[j]).zero_inbound ==> pairs[j].overlap.le(pairs[i].overlap)
    &&& exists|found: Seq<VocabView>, at: Seq<(int, int)>|
        {
            &&& #[trigger] tells_every_overlap(found, facts, low, few, sample, at)
            &&& pairs.len() == found.len()
            &&& forall|p: VocabView| #[trigger] pairs.contains(p) <==> found.contains(p)
        }
}

/// `facts` say of every file what its vocabulary is, an identifier that is no noise of
/// its language, and how many other files appear to import it.
pub open spec fn tells_every_file(
    facts: Seq<FileFacts>,
    files: Seq<SourceView>,
    noise: Seq<(Seq<char>, Seq<Seq<char>>)>,
) -> bool {
    &&& facts.len() == files.len()
    &&& forall|i: int|
        0 <= i < facts.len() ==> (#[trigger] facts[i]).path == files[i].path && ordered(
            facts[i].names,
        ) && facts[i].names.len() <= u64::MAX
    &&& forall|i: int, x: Seq<char>|
        0 <= i < facts.len() ==> ((#[trigger] facts[i]).names.contains(x) <==> (
        #[trigger] tree_identifiers(
            syntax_of(files[i].language.grammar, files[i].text),
            files[i].language,
        ).contains(x) && !is_noise(noise, files[i].language.name, x)))
    &&& forall|j: int|
        0 <= j < facts.len() ==> (#[trigger] facts[j]).inbound == importing(files, j).len()
}

/// The first entry of the noise that is for a language lists the name.
pub open spec fn is_noise(
    noise: Seq<(Seq<char>, Seq<Seq<char>>)>,
    language: Seq<char>,
    x: Seq<char>,
) -> bool {
    exists|k: int|
        0 <= k < noise.len() && (#[trigger] noise[k]).0 == language && noise[k].1.contains(x)
            && forall|l: int| 0 <= l < k ==> (#[trigger] noise[l]).0 != language
}

/// The files that appear to import the one at `j`.
pub open spec fn importing(files: Seq<SourceView>, j: int) -> Set<int> {
    Set::new(|i: int| 0 <= i < files.len() && imports(files, i, j))
}

proof fn lemma_no_duplicates(list: Seq<Seq<char>>)
    requires
        ordered(list),
    ensures
        list.no_duplicates(),
        list.to_set().len() == list.len(),
{
    assert forall|i: int, j: int| 0 <= i < list.len() && 0 <= j < list.len() && i != j implies list[i]
        != list[j] by {
        if i < j {
            assert(alphabetical(list[i], list[j]));
        } else {
            assert(alphabetical(list[j], list[i]));
        }
    }
    list.unique_seq_to_set();
}

proof fn lemma_common(a: FileFacts, b: FileFacts)
    requires
        ordered(a.names),
        ordered(b.names),
    ensures
        common(a, b) == shared_names(a.names, b.names).len(),
        smaller_size(a, b) == fewer(a.names.len(), b.names.len()),
        a.names.to_set().len() == a.names.len(),
        b.names.to_set().len() == b.names.len(),
        shared_names(a.names, b.names).len() <= smaller_size(a, b),
{
    let shared = shared_names(a.names, b.names);
    lemma_shared_names(a.names, b.names);
    lemma_shared_names(b.names, a.names);
    lemma_shared_names_symmetric(a.names, b.names);
    lemma_no_duplicates(a.names);
    lemma_no_duplicates(b.names);
    lemma_no_duplicates(shared);
    let both = a.names.to_set().intersect(b.names.to_set());
    assert forall|x: Seq<char>| both.contains(x) <==> shared.to_set().contains(x) by {
        assert(shared.contains(x) <==> a.names.contains(x) && b.names.contains(x));
    }
    assert(both =~= shared.to_set());
}

proof fn lemma_sample(a: FileFacts, b: FileFacts, n: nat)
    requires
        ordered(a.names),
        ordered(b.names),
    ensures
        ({
            let shared = shared_names(a.names, b.names);
            let few = first_few(shared, n);
            &&& few.len() <= n
            &&& few.len() <= shared.len()
            &&& few.len() == n || few.len() == shared.len()
            &&& ordered(few)
            &&& forall|x: Seq<char>| #[trigger]
                few.contains(x) ==> a.names.contains(x) && b.names.contains(x)
            &&& forall|x: Seq<char>, y: Seq<char>| #[trigger]
                few.contains(x) && #[trigger] a.names.contains(y) && b.names.contains(y)
                    && !few.contains(y) ==> alphabetical(x, y)
        }),
{
    let shared = shared_names(a.names, b.names);
    let few = first_few(shared, n);
    lemma_shared_names(a.names, b.names);
    assert forall|i: int, j: int| 0 <= i < j < few.len() implies alphabetical(
        #[trigger] few[i],
        #[trigger] few[j],
    ) && few[i] != few[j] by {
        assert(alphabetical(shared[i], shared[j]));
    }
    assert forall|x: Seq<char>| #[trigger] few.contains(x) implies a.names.contains(x)
        && b.names.contains(x) by {
        let k = choose|k: int| 0 <= k < few.len() && few[k] == x;
        assert(shared[k] == x);
        assert(shared.contains(x));
    }
    assert forall|x: Seq<char>, y: Seq<char>| #[trigger]
        few.contains(x) && #[trigger] a.names.contains(y) && b.names.contains(y) && !few.contains(
            y,
        ) implies alphabetical(x, y) by {
        let k = choose|k: int| 0 <= k < few.len() && few[k] == x;
        assert(shared.contains(y));
        let l = choose|l: int| 0 <= l < shared.len() && shared[l] == y;
        if l < few.len() {
            assert(few[l] == y);
        }
        assert(alphabetical(shared[k], shared[l]));
    }
}

/// Two files give a finding exactly where they are kindred, and it tells of them.
proof fn lemma_two_files(a: FileFacts, b: FileFacts, low: Ratio, few: nat, sample: nat)
    requires
        ordered(a.names),
        ordered(b.names),
        a.names.len() <= u64::MAX,
        b.names.len() <= u64::MAX,
    ensures
        vocab_between(a, b, low, few, sample).len() == (if are_kindred(a, b, low, few) {
            1nat
        } else {
            0
        }),
        are_kindred(a, b, low, few) ==> tells_files(
            vocab_between(a, b, low, few, sample)[0],
            a,
            b,
            sample,
        ),
{
    lemma_common(a, b);
    lemma_sample(a, b, sample);
    let overlap = overlap_of(a.names, b.names);
    if smaller_size(a, b) > 0 {
        assert(overlap.top() == common(a, b) && overlap.bottom() == smaller_size(a, b));
    }
    assert(common(a, b) * smaller_size(a, b) == smaller_size(a, b) * common(a, b)) by (
        nonlinear_arith);
}

proof fn lemma_overlaps_of_one(
    facts: Seq<FileFacts>,
    i: int,
    n: int,
    low: Ratio,
    few: nat,
    sample: nat,
) -> (at: Seq<(int, int)>)
    requires
        0 <= i < n <= facts.len(),
        forall|k: int|
            0 <= k < facts.len() ==> ordered((#[trigger] facts[k]).names) && facts[k].names.len()
                <= u64::MAX,
    ensures
        at.len() == vocab_with(facts, i, n, low, few, sample).len(),
        forall|k: int|
            0 <= k < at.len() ==> (#[trigger] at[k]).0 == i && i < at[k].1 < n && are_kindred(
                facts[i],
                facts[at[k].1],
                low,
                few,
            ) && tells_files(
                vocab_with(facts, i, n, low, few, sample)[k],
                facts[i],
                facts[at[k].1],
                sample,
            ),
        forall|k: int, l: int| 0 <= k < l < at.len() ==> #[trigger] at[k] != #[trigger] at[l],
        forall|y: int|
            i < y < n && #[trigger] are_kindred(facts[i], facts[y], low, few) ==> at.contains(
                (i, y),
            ),
    decreases n - i,
{
    if n <= i + 1 {
        Seq::empty()
    } else {
        let before = lemma_overlaps_of_one(facts, i, n - 1, low, few, sample);
        assert(ordered(facts[i].names) && ordered(facts[n - 1].names));
        lemma_two_files(facts[i], facts[n - 1], low, few, sample);
        let here: Seq<(int, int)> = if are_kindred(facts[i], facts[n - 1], low, few) {
            seq![(i, n - 1)]
        } else {
            Seq::empty()
        };
        let at = before + here;
        assert forall|y: int|
            i < y < n && #[trigger] are_kindred(facts[i], facts[y], low, few) implies at.contains(
            (i, y),
        ) by {
            if y < n - 1 {
                let k = choose|k: int| 0 <= k < before.len() && before[k] == (i, y);
                assert(at[k] == (i, y));
            } else {
                assert(at[before.len() as int] == (i, y));
            }
        }
        at
    }
}

proof fn lemma_overlaps_of_all(
    facts: Seq<FileFacts>,
    k: nat,
    low: Ratio,
    few: nat,
    sample: nat,
) -> (at: Seq<(int, int)>)
    requires
        k <= facts.len(),
        forall|i: int|
            0 <= i < facts.len() ==> ordered((#[trigger] facts[i]).names) && facts[i].names.len()
                <= u64::MAX,
    ensures
        at.len() == all_vocab(facts, k, low, few, sample).len(),
        forall|i: int|
            0 <= i < at.len() ==> 0 <= (#[trigger] at[i]).0 < k && at[i].0 < at[i].1 < facts.len()
                && are_kindred(facts[at[i].0], facts[at[i].1], low, few) && tells_files(
                all_vocab(facts, k, low, few, sample)[i],
                facts[at[i].0],
                facts[at[i].1],
                sample,
            ),
        forall|i: int, j: int| 0 <= i < j < at.len() ==> #[trigger] at[i] != #[trigger] at[j],
        forall|x: int, y: int|
            0 <= x < k && x < y < facts.len() && #[trigger] are_kindred(
                facts[x],
                facts[y],
                low,
                few,
            ) ==> at.contains((x, y)),
    decreases k,
{
    if k == 0 {
        Seq::empty()
    } else {
        let before = lemma_overlaps_of_all(facts, (k - 1) as nat, low, few, sample);
        let here = lemma_overlaps_of_one(facts, k - 1, facts.len() as int, low, few, sample);
        let at = before + here;
        assert forall|x: int, y: int|
            0 <= x < k && x < y < facts.len() && #[trigger] are_kindred(
                facts[x],
                facts[y],
                low,
                few,
            ) implies at.contains((x, y)) by {
            if x < k - 1 {
                let i = choose|i: int| 0 <= i < before.len() && before[i] == (x, y);
                assert(at[i] == (x, y));
            } else {
                let i = choose|i: int| 0 <= i < here.len() && here[i] == (x, y);
                assert(at[before.len() + i] == (x, y));
            }
        }
        at
    }
}

/// Every two files whose common names reach the threshold's share of the smaller
/// vocabulary are reported, and nothing else is. The score times the size of the smaller
/// vocabulary is the number of names in both. Pairs of which nothing imports a side come
/// first, and among either kind those with the greatest overlap.
pub proof fn lemma_every_overlap_is_reported(
    facts: Seq<FileFacts>,
    low: Ratio,
    few: nat,
    sample: nat,
)
    requires
        forall|i: int|
            0 <= i < facts.len() ==> ordered((#[trigger] facts[i]).names) && facts[i].names.len()
                <= u64::MAX,
    ensures
        reports_every_overlap(
            sorted::<VocabPair, UnreachedFirst>(all_vocab(facts, facts.len(), low, few, sample)),
            facts,
            low,
            few,
            sample,
        ),
{
    let found = all_vocab(facts, facts.len(), low, few, sample);
    let pairs = sorted::<VocabPair, UnreachedFirst>(found);
    lemma_sorted::<VocabPair, UnreachedFirst>(found);
    assert forall|i: int, j: int| 0 <= i < j < pairs.len() implies ((
    #[trigger] pairs[j]).zero_inbound ==> (#[trigger] pairs[i]).zero_inbound) && (
    pairs[i].zero_inbound == pairs[j].zero_inbound ==> pairs[j].overlap.le(pairs[i].overlap)) by {
        assert(UnreachedFirst::precedes(pairs[i], pairs[j]));
    }
    assert forall|p: VocabView| #[trigger] pairs.contains(p) <==> found.contains(p) by {
        lemma_sorted_holds::<VocabPair, UnreachedFirst>(found, p);
    }
    let at = lemma_overlaps_of_all(facts, facts.len(), low, few, sample);
    assert(tells_every_overlap(found, facts, low, few, sample, at));
}

proof fn lemma_noise_for(
    noise: Seq<(Seq<char>, Seq<Seq<char>>)>,
    language: Seq<char>,
    x: Seq<char>,
)
    ensures
        noise_for(noise, language).contains(x) <==> is_noise(noise, language, x),
    decreases noise.len(),
{
    if noise.len() > 0 {
        let rest = noise.drop_first();
        lemma_noise_for(rest, language, x);
        if noise[0].0 == language {
            if is_noise(noise, language, x) {
                let k = choose|k: int|
                    0 <= k < noise.len() && (#[trigger] noise[k]).0 == language
                        && noise[k].1.contains(x) && forall|l: int|
                        0 <= l < k ==> (#[trigger] noise[l]).0 != language;
                if k > 0 {
                    assert(noise[0].0 != language);
                }
            } else {
                assert(noise[0].0 == language);
            }
        } else {
            if is_noise(noise, language, x) {
                let k = choose|k: int|
                    0 <= k < noise.len() && (#[trigger] noise[k]).0 == language
                        && noise[k].1.contains(x) && forall|l: int|
                        0 <= l < k ==> (#[trigger] noise[l]).0 != language;
                assert(rest[k - 1] == noise[k]);
                assert forall|l: int| 0 <= l < k - 1 implies (#[trigger] rest[l]).0 != language by {
                    assert(rest[l] == noise[l + 1]);
                }
            }
            if is_noise(rest, language, x) {
                let k = choose|k: int|
                    0 <= k < rest.len() && (#[trigger] rest[k]).0 == language
                        && rest[k].1.contains(x) && forall|l: int|
                        0 <= l < k ==> (#[trigger] rest[l]).0 != language;
                assert(noise[k + 1] == rest[k]);
                assert forall|l: int| 0 <= l < k + 1 implies (#[trigger] noise[l]).0 != language by {
                    if l > 0 {
                        assert(rest[l - 1] == noise[l]);
                    }
                }
            }
        }
    }
}

proof fn lemma_importers_are_counted(files: Seq<SourceView>, j: int, k: nat)
    requires
        k <= files.len(),
    ensures
        ({
            let seen = Set::new(|i: int| 0 <= i < k && imports(files, i, j));
            &&& seen.finite()
            &&& seen.len() == importers(files, j, k)
        }),
    decreases k,
{
    let seen = Set::new(|i: int| 0 <= i < k && imports(files, i, j));
    if k == 0 {
        assert(seen =~= Set::empty());
    } else {
        lemma_importers_are_counted(files, j, (k - 1) as nat);
        let before = Set::new(|i: int| 0 <= i < k - 1 && imports(files, i, j));
        if imports(files, k - 1, j) {
            assert(seen =~= before.insert(k - 1));
        } else {
            assert(seen =~= before);
        }
    }
}

/// What is known of every file under search is what its text says: the vocabulary is
/// every identifier that is no noise, and the count of importers is that of the other
/// files that appear to import it.
pub proof fn lemma_facts_are_those_of_the_files(
    facts: Seq<FileFacts>,
    files: Seq<SourceView>,
    noise: Seq<(Seq<char>, Seq<Seq<char>>)>,
)
    requires
        facts == file_facts(files, noise),
        forall|i: int|
            0 <= i < files.len() ==> is_set_of(
                (#[trigger] facts[i]).names,
                file_vocabulary(files[i], noise),
            ) && facts[i].names.len() <= u64::MAX,
    ensures
        tells_every_file(facts, files, noise),
{
    assert forall|i: int, x: Seq<char>| 0 <= i < facts.len() implies ((
    #[trigger] facts[i]).names.contains(x) <==> (#[trigger] tree_identifiers(
        syntax_of(files[i].language.grammar, files[i].text),
        files[i].language,
    ).contains(x) && !is_noise(noise, files[i].language.name, x))) by {
        assert(is_set_of(facts[i].names, file_vocabulary(files[i], noise)));
        lemma_noise_for(noise, files[i].language.name, x);
        assert(facts[i].names.contains(x) <==> file_vocabulary(files[i], noise).contains(x));
    }
    assert forall|j: int| 0 <= j < facts.len() implies (#[trigger] facts[j]).inbound == importing(
        files,
        j,
    ).len() by {
        lemma_importers_are_counted(files, j, files.len());
        assert(importing(files, j) =~= Set::new(
            |i: int| 0 <= i < files.len() && imports(files, i, j),
        ));
    }
    assert forall|i: int| 0 <= i < facts.len() implies (#[trigger] facts[i]).path == files[i].path
        && ordered(facts[i].names) && facts[i].names.len() <= u64::MAX by {
        assert(is_set_of(facts[i].names, file_vocabulary(files[i], noise)));
    }
}

/// A character that a reference to a module is made of.
pub open spec fn is_part(c: char) -> bool {
    unicode_alphanumeric(c) || seq!['_', '.', '/', '-'].contains(c)
}

/// A reference lies from `s` to `e` of a line: nothing else in it, and nothing of the
/// kind on either side.
pub open spec fn is_reference(line: Seq<char>, s: int, e: int) -> bool {
    &&& 0 <= s < e <= line.len()
    &&& forall|i: int| s <= i < e ==> is_part(#[trigger] line[i])
    &&& s == 0 || !is_part(line[s - 1])
    &&& e == line.len() || !is_part(line[e])
}

proof fn lemma_parts(c: char)
    ensures
        token_char(c) == is_part(c),
{
    let few = seq!['_', '.', '/', '-'];
    if token_char(c) && !unicode_alphanumeric(c) {
        assert(few[0] == '_' && few[1] == '.' && few[2] == '/' && few[3] == '-');
        assert(few.contains(c));
    }
}

proof fn lemma_token_end_is_first(s: Seq<char>, from: int)
    requires
        0 <= from <= s.len(),
    ensures
        from <= token_end(s, from) <= s.len(),
        forall|i: int| from <= i < token_end(s, from) ==> is_part(#[trigger] s[i]),
        token_end(s, from) < s.len() ==> !is_part(s[token_end(s, from)]),
    decreases s.len() - from,
{
    if from < s.len() {
        lemma_parts(s[from]);
        if token_char(s[from]) {
            lemma_token_end_is_first(s, from + 1);
        }
    }
}

proof fn lemma_references_from(line: Seq<char>, from: int) -> (at: Seq<(int, int)>)
    requires
        0 <= from,
        from == 0 || from >= line.len() || !is_part(line[from - 1]) || !is_part(line[from]),
    ensures
        at.len() == tokens_from(line, from).len(),
        forall|k: int|
            0 <= k < at.len() ==> from <= (#[trigger] at[k]).0 && is_reference(
                line,
                at[k].0,
                at[k].1,
            ) && tokens_from(line, from)[k] == line.subrange(at[k].0, at[k].1),
        forall|k: int, l: int|
            0 <= k < l < at.len() ==> (#[trigger] at[k]).1 < (#[trigger] at[l]).0,
        forall|s: int, e: int| #[trigger]
            is_reference(line, s, e) && from <= s ==> at.contains((s, e)),
    decreases line.len() - from,
{
    if from >= line.len() {
        Seq::empty()
    } else {
        lemma_parts(line[from]);
        if !token_char(line[from]) {
            let at = lemma_references_from(line, from + 1);
            assert forall|s: int, e: int| #[trigger] is_reference(line, s, e) && from
                <= s implies at.contains((s, e)) by {
                if s == from {
                    assert(is_part(line[s]));
                }
            }
            at
        } else {
            lemma_token_end_is_first(line, from);
            lemma_token_end(line, from + 1);
            let end = token_end(line, from);
            let rest = lemma_references_from(line, end);
            let at = seq![(from, end)] + rest;
            assert(is_reference(line, from, end));
            assert forall|k: int| 0 <= k < rest.len() implies end < (#[trigger] rest[k]).0 by {
                assert(is_reference(line, rest[k].0, rest[k].1));
                assert(is_part(line[rest[k].0]));
            }
            assert forall|k: int| 0 <= k < at.len() implies from <= (#[trigger] at[k]).0
                && is_reference(line, at[k].0, at[k].1) && tokens_from(line, from)[k]
                == line.subrange(at[k].0, at[k].1) by {
                if k > 0 {
                    assert(at[k] == rest[k - 1]);
                }
            }
            assert forall|k: int, l: int| 0 <= k < l < at.len() implies (#[trigger] at[k]).1 < (
            #[trigger] at[l]).0 by {
                assert(at[l] == rest[l - 1]);
                if k > 0 {
                    assert(at[k] == rest[k - 1]);
                }
            }
            assert forall|s: int, e: int| #[trigger] is_reference(line, s, e) && from
                <= s implies at.contains((s, e)) by {
                if s == from {
                    if e < end {
                        assert(is_part(line[e]));
                    }
                    if end < e {
                        assert(is_part(line[end]));
                    }
                    assert(at[0] == (s, e));
                } else if s < end {
                    assert(is_part(line[s - 1]));
                } else {
                    let k = choose|k: int| 0 <= k < rest.len() && rest[k] == (s, e);
                    assert(at[k + 1] == (s, e));
                }
            }
            at
        }
    }
}

/// Every reference of a line is read, in order, and nothing else.
pub proof fn lemma_every_reference_is_read(line: Seq<char>) -> (at: Seq<(int, int)>)
    ensures
        at.len() == tokens_from(line, 0).len(),
        forall|k: int|
            0 <= k < at.len() ==> is_reference(line, (#[trigger] at[k]).0, at[k].1) && tokens_from(
                line,
                0,
            )[k] == line.subrange(at[k].0, at[k].1),
        forall|k: int, l: int|
            0 <= k < l < at.len() ==> (#[trigger] at[k]).1 < (#[trigger] at[l]).0,
        forall|s: int, e: int| #[trigger] is_reference(line, s, e) ==> at.contains((s, e)),
{
    lemma_references_from(line, 0)
}

/// The first word of a line lies from `lo` to `hi`.
pub open spec fn opens_line(line: Seq<char>, lo: int, hi: int) -> bool {
    &&& 0 <= lo < hi <= line.len()
    &&& forall|i: int| 0 <= i < lo ==> unicode_whitespace(#[trigger] line[i])
    &&& forall|i: int| lo <= i < hi ==> !unicode_whitespace(#[trigger] line[i])
    &&& hi < line.len() ==> unicode_whitespace(line[hi])
}

/// A line introduces a dependency: its first word says so, or a call somewhere on it.
pub open spec fn introduces(line: Seq<char>) -> bool {
    ||| exists|lo: int, hi: int| #[trigger]
        opens_line(line, lo, hi) && seq![
            "import"@,
            "from"@,
            "require"@,
            "use"@,
            "include"@,
        ].contains(line.subrange(lo, hi))
    ||| exists|front: Seq<char>, back: Seq<char>| #[trigger]
        stands_between(line, front, "require("@, back)
    ||| exists|front: Seq<char>, back: Seq<char>| #[trigger]
        stands_between(line, front, "import("@, back)
}

/// A text is made of three parts.
pub open spec fn stands_between(
    s: Seq<char>,
    front: Seq<char>,
    middle: Seq<char>,
    back: Seq<char>,
) -> bool {
    s == front + middle + back
}

/// A line counts as an import exactly where it introduces a dependency.
pub proof fn lemma_imports_are_introduced(line: Seq<char>)
    ensures
        import_line(line) <==> introduces(line),
{
    reveal_strlit("import");
    reveal_strlit("from");
    reveal_strlit("require");
    reveal_strlit("use");
    reveal_strlit("include");
    let words = seq!["import"@, "from"@, "require"@, "use"@, "include"@];
    assert forall|w: Seq<char>| #[trigger] words.contains(w) <==> import_word(w) by {
        assert(words[0] == "import"@ && words[1] == "from"@ && words[2] == "require"@ && words[3]
            == "use"@ && words[4] == "include"@);
        if words.contains(w) {
            let k = choose|k: int| 0 <= k < words.len() && words[k] == w;
            assert(k == 0 || k == 1 || k == 2 || k == 3 || k == 4);
        }
    }
    let b = lemma_the_first_word_ends_at_white_space(line);
    if import_word(first_word(line)) {
        assert(first_word(line).len() > 0);
        assert(opens_line(line, b.0, b.1));
        assert(words.contains(line.subrange(b.0, b.1)));
    }
    if exists|lo: int, hi: int| #[trigger]
        opens_line(line, lo, hi) && words.contains(line.subrange(lo, hi)) {
        let (lo, hi) = choose|lo: int, hi: int| #[trigger]
            opens_line(line, lo, hi) && words.contains(line.subrange(lo, hi));
        assert(!unicode_whitespace(line[lo]));
        if b.0 < lo {
            assert(unicode_whitespace(line[b.0]));
        }
        if lo < b.0 {
            assert(unicode_whitespace(line[lo]));
        }
        if b.1 < hi {
            assert(!unicode_whitespace(line[b.1]));
        }
        if hi < b.1 {
            assert(!unicode_whitespace(line[hi]));
        }
        assert(import_word(first_word(line)));
    }
    lemma_occurs_between(line, "require("@);
    lemma_occurs_between(line, "import("@);
}

/// A text that occurs in another stands between what is before it and what is behind.
pub proof fn lemma_occurs_between(s: Seq<char>, pat: Seq<char>)
    ensures
        occurs(s, pat) <==> exists|front: Seq<char>, back: Seq<char>| #[trigger]
            stands_between(s, front, pat, back),
{
    if occurs(s, pat) {
        let i = choose|i: int| #[trigger] stands_at(s, pat, i);
        assert(s =~= s.take(i) + pat + s.skip(i + pat.len())) by {
            assert forall|k: int| i <= k < i + pat.len() implies s[k] == pat[k - i] by {
                assert(s.subrange(i, i + pat.len())[k - i] == s[k]);
            }
        }
        assert(stands_between(s, s.take(i), pat, s.skip(i + pat.len())));
    }
    if exists|front: Seq<char>, back: Seq<char>| #[trigger] stands_between(s, front, pat, back) {
        let (front, back) = choose|front: Seq<char>, back: Seq<char>| #[trigger]
            stands_between(s, front, pat, back);
        assert(s.subrange(front.len() as int, (front.len() + pat.len()) as int) =~= pat);
        assert(stands_at(s, pat, front.len() as int));
    }
}

/// A reference begins with `./` or `../`.
pub open spec fn is_relative(s: Seq<char>) -> bool {
    ||| s.len() >= 2 && s[0] == '.' && s[1] == '/'
    ||| s.len() >= 3 && s[0] == '.' && s[1] == '.' && s[2] == '/'
}

/// A reference says the same with any number of `./` and `../` in front of it, and with
/// slashes in front of a reference that is not relative.
pub proof fn lemma_references_are_read_from_anywhere(s: Seq<char>)
    ensures
        plain_reference(seq!['.', '/'] + s) == plain_reference(s),
        plain_reference(seq!['.', '.', '/'] + s) == plain_reference(s),
        !is_relative(s) ==> plain_reference(seq!['/'] + s) == plain_reference(s),
{
    let here = seq!['.', '/'] + s;
    let up = seq!['.', '.', '/'] + s;
    let root = seq!['/'] + s;
    assert(here.subrange(0, 2) =~= seq!['.', '/']);
    assert(here.skip(2) =~= s);
    assert(up.subrange(0, 2)[1] == '.');
    assert(seq!['.', '/'][1] == '/');
    assert(up.subrange(0, 3) =~= seq!['.', '.', '/']);
    assert(up.skip(3) =~= s);
    if !is_relative(s) {
        lemma_not_relative(s);
        assert(!is_relative(root));
        lemma_not_relative(root);
        assert(root.drop_first() =~= s);
    }
}

proof fn lemma_not_relative(s: Seq<char>)
    requires
        !is_relative(s),
    ensures
        without_relative(s) == s,
{
    if stands_at(s, seq!['.', '/'], 0) {
        let front = s.subrange(0, 2);
        assert(front == seq!['.', '/']);
        assert(front[0] == s[0] && front[1] == s[1]);
    }
    if stands_at(s, seq!['.', '.', '/'], 0) {
        let front = s.subrange(0, 3);
        assert(front == seq!['.', '.', '/']);
        assert(front[0] == s[0] && front[1] == s[1] && front[2] == s[2]);
    }
}

/// A reference is compared without the extension of a source file behind it, and as it
/// is where it has none.
pub proof fn lemma_only_source_extensions_are_dropped(stem: Seq<char>, ext: Seq<char>)
    requires
        stem.len() > 0,
        stem[0] != '/',
        !is_relative(stem + seq!['.'] + ext),
        lacks(ext, '.'),
    ensures
        source_extension(ext) ==> plain_reference(stem + seq!['.'] + ext) == stem,
        !source_extension(ext) ==> plain_reference(stem + seq!['.'] + ext) == stem + seq!['.']
            + ext,
        lacks(stem, '.') ==> plain_reference(stem) == stem,
{
    let s = stem + seq!['.'] + ext;
    lemma_not_relative(s);
    assert(s[0] == stem[0]);
    lemma_last_place(s, '.');
    let k = stem.len() as int;
    assert(s[k] == '.');
    assert forall|i: int| k < i < s.len() implies #[trigger] s[i] != '.' by {
        assert(s[i] == ext[i - k - 1]);
    }
    assert(last_place(s, '.') == k);
    assert(s.skip(k + 1) =~= ext);
    assert(s.take(k) =~= stem);
    if lacks(stem, '.') {
        assert(!is_relative(stem));
        lemma_not_relative(stem);
        lemma_last_place(stem, '.');
    }
}

/// `b` is `a` with a dot for every separator.
pub open spec fn has_dots_for_separators(b: Seq<char>, a: Seq<char>) -> bool {
    &&& b.len() == a.len()
    &&& forall|i: int|
        0 <= i < a.len() ==> #[trigger] b[i] == (if a[i] == '/' || a[i] == '\\' {
            '.'
        } else {
            a[i]
        })
}

/// A reference names a module by the stem of its file, or by the whole path without its
/// extension, whether that is written with separators or with dots.
pub open spec fn names_file(token: Seq<char>, dir: Seq<char>, stem: Seq<char>) -> bool {
    ||| plain_reference(token) == stem
    ||| has_dots_for_separators(plain_reference(token), dir + stem)
    ||| exists|d: Seq<char>| #[trigger]
        has_dots_for_separators(d, plain_reference(token)) && has_dots_for_separators(
            d,
            dir + stem,
        )
}

/// A file appears to import another exactly where a line of it introduces a dependency
/// and refers on that line to the other by its stem or its path.
pub proof fn lemma_imports_refer_to_the_file(
    files: Seq<SourceView>,
    i: int,
    j: int,
    dir: Seq<char>,
    stem: Seq<char>,
    ext: Seq<char>,
)
    requires
        dir.len() == 0 || dir.last() == '/',
        stem.len() > 0,
        lacks(stem, '/'),
        ext.len() > 0,
        lacks(ext, '/'),
        lacks(ext, '.'),
        files[j].path == dir + stem + seq!['.'] + ext,
    ensures
        imports(files, i, j) <==> i != j && exists|
            line: Seq<char>,
            from: int,
            end: int,
            s: int,
            e: int,
        |
            is_line(files[i].text, from, end) && #[trigger] says_line(
                line,
                files[i].text,
                from,
                end,
            ) && introduces(line) && #[trigger] is_reference(line, s, e) && names_file(
                line.subrange(s, e),
                dir,
                stem,
            ),
{
    let text = files[i].text;
    let module = plausible(files[j].path);
    lemma_extension_follows_the_last_dot(dir, stem, ext);
    assert(module == (stem, dotted(dir + stem)));
    let at = lemma_every_line_is_read(text);
    if imports(files, i, j) {
        let l = choose|l: int|
            0 <= l < lines_of(text).len() && line_refers(#[trigger] lines_of(text)[l], module);
        let line = lines_of(text)[l];
        let t = choose|t: int|
            0 <= t < tokens_from(line, 0).len() && names_module(
                #[trigger] tokens_from(line, 0)[t],
                module,
            );
        let places = lemma_every_reference_is_read(line);
        lemma_imports_are_introduced(line);
        assert(is_line(text, at[l].0, at[l].1));
        assert(says_line(line, text, at[l].0, at[l].1));
        assert(is_reference(line, places[t].0, places[t].1));
        lemma_naming_a_file(tokens_from(line, 0)[t], dir, stem);
    }
    if i != j && exists|line: Seq<char>, from: int, end: int, s: int, e: int|
        is_line(text, from, end) && #[trigger] says_line(line, text, from, end) && introduces(line)
            && #[trigger] is_reference(line, s, e) && names_file(
            line.subrange(s, e),
            dir,
            stem,
        ) {
        let (line, from, end, s, e) = choose|
            line: Seq<char>,
            from: int,
            end: int,
            s: int,
            e: int,
        |
            is_line(text, from, end) && #[trigger] says_line(line, text, from, end) && introduces(
                line,
            ) && #[trigger] is_reference(line, s, e) && names_file(
                line.subrange(s, e),
                dir,
                stem,
            );
        assert(at.contains((from, end)));
        let l = choose|l: int| 0 <= l < at.len() && at[l] == (from, end);
        assert(is_line(text, at[l].0, at[l].1));
        assert(lines_of(text)[l] == line);
        let places = lemma_every_reference_is_read(line);
        let t = choose|t: int| 0 <= t < places.len() && places[t] == (s, e);
        assert(is_reference(line, places[t].0, places[t].1));
        lemma_imports_are_introduced(line);
        lemma_naming_a_file(tokens_from(line, 0)[t], dir, stem);
        assert(names_module(tokens_from(line, 0)[t], module));
        assert(line_refers(lines_of(text)[l], module));
    }
}

proof fn lemma_naming_a_file(token: Seq<char>, dir: Seq<char>, stem: Seq<char>)
    ensures
        names_module(token, (stem, dotted(dir + stem))) <==> names_file(token, dir, stem),
{
    let plain = plain_reference(token);
    let path = dir + stem;
    assert(has_dots_for_separators(dotted(path), path));
    assert(has_dots_for_separators(dotted(plain), plain));
    if has_dots_for_separators(plain, path) {
        assert(plain =~= dotted(path));
    }
    if exists|d: Seq<char>| #[trigger]
        has_dots_for_separators(d, plain) && has_dots_for_separators(d, path) {
        let d = choose|d: Seq<char>| #[trigger]
            has_dots_for_separators(d, plain) && has_dots_for_separators(d, path);
        assert(d =~= dotted(plain));
        assert(d =~= dotted(path));
    }
}

} // verus!
