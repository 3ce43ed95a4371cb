//! Slash-separated paths, taken apart the way the file system reads them.
//!
//! A path is plain text here. Repeated and trailing slashes, and `.` components
//! after the first, do not change which file a path names.

use vstd::prelude::*;
use vstd::string::*;

use crate::sort::{views, Order};
use crate::text::{
    alphabetical, chars_of, find_next, lacks, lemma_alphabetical_antisymmetric,
    lemma_alphabetical_total, lemma_alphabetical_transitive, lemma_next_is_first, lemma_next_place,
    next_place, same_text, text_at_most, text_between,
};

verus! {

/// Where `c` last occurs in `s`, or -1.
pub open spec fn last_place(s: Seq<char>, c: char) -> int
    decreases s.len(),
{
    if s.len() == 0 {
        -1
    } else if s.last() == c {
        s.len() - 1
    } else {
        last_place(s.drop_last(), c)
    }
}

/// What `last_place` says.
pub proof fn lemma_last_place(s: Seq<char>, c: char)
    ensures
        -1 <= last_place(s, c) < s.len(),
        last_place(s, c) >= 0 ==> s[last_place(s, c)] == c,
        forall|i: int| last_place(s, c) < i < s.len() ==> #[trigger] s[i] != c,
    decreases s.len(),
{
    if s.len() > 0 && s.last() != c {
        lemma_last_place(s.drop_last(), c);
        let r = last_place(s, c);
        assert forall|i: int| r < i < s.len() implies #[trigger] s[i] != c by {
            if i < s.len() - 1 {
                assert(s.drop_last()[i] == s[i]);
            }
        }
    }
}

/// Find where `c` last occurs among the first `n` characters.
fn find_last(chars: &[char], n: usize, c: char) -> (r: Option<usize>)
    requires
        n <= chars@.len(),
    ensures
        r is None ==> last_place(chars@.take(n as int), c) == -1,
        r matches Some(i) ==> i < n && last_place(chars@.take(n as int), c) == i,
{
    let mut i: usize = n;
    while i > 0
        invariant
            i <= n <= chars@.len(),
            last_place(chars@.take(n as int), c) == last_place(chars@.take(i as int), c),
        decreases i,
    {
        assert(chars@.take(i as int).drop_last() =~= chars@.take(i - 1));
        if chars[i - 1] == c {
            return Some(i - 1);
        }
        i -= 1;
    }
    None
}

/// A path without what follows its last component.
pub open spec fn trimmed(p: Seq<char>) -> Seq<char>
    decreases p.len(),
{
    if p.len() > 0 && p.last() == '/' {
        trimmed(p.drop_last())
    } else if p.len() > 1 && p.last() == '.' && p[p.len() - 2] == '/' {
        trimmed(p.drop_last())
    } else {
        p
    }
}

/// The text behind the last slash.
pub open spec fn last_component(p: Seq<char>) -> Seq<char> {
    trimmed(p).skip(last_place(trimmed(p), '/') + 1)
}

/// The name of the file a path leads to, if it leads to a named one.
pub open spec fn file_name_of(p: Seq<char>) -> Option<Seq<char>> {
    let name = last_component(p);
    if name.len() == 0 || name == seq!['.'] || name == seq!['.', '.'] {
        None
    } else {
        Some(name)
    }
}

/// What follows the last dot of a file name, unless the name begins with that dot
/// or has none.
pub open spec fn extension_of(p: Seq<char>) -> Option<Seq<char>> {
    match file_name_of(p) {
        None => None,
        Some(name) => if last_place(name, '.') <= 0 {
            None
        } else {
            Some(name.skip(last_place(name, '.') + 1))
        },
    }
}

/// A file name up to its last dot, or all of it where that dot begins it or there
/// is none.
pub open spec fn stem_of(p: Seq<char>) -> Option<Seq<char>> {
    match file_name_of(p) {
        None => None,
        Some(name) => if last_place(name, '.') <= 0 {
            Some(name)
        } else {
            Some(name.take(last_place(name, '.')))
        },
    }
}

/// Length of a path without what follows its last component.
fn trimmed_len(chars: &[char]) -> (n: usize)
    ensures
        n <= chars@.len(),
        chars@.take(n as int) == trimmed(chars@),
{
    let mut n: usize = chars.len();
    assert(chars@.take(n as int) =~= chars@);
    while n > 0 && (chars[n - 1] == '/' || (n > 1 && chars[n - 1] == '.' && chars[n - 2] == '/'))
        invariant
            n <= chars@.len(),
            trimmed(chars@.take(n as int)) == trimmed(chars@),
        decreases n,
    {
        assert(chars@.take(n as int).drop_last() =~= chars@.take(n - 1));
        n -= 1;
    }
    n
}

/// The bounds of the last component.
fn component_bounds(chars: &[char]) -> (b: (usize, usize))
    ensures
        b.0 <= b.1 <= chars@.len(),
        chars@.take(b.1 as int) == trimmed(chars@),
        b.0 == last_place(trimmed(chars@), '/') + 1,
        chars@.subrange(b.0 as int, b.1 as int) == last_component(chars@),
{
    let n: usize = trimmed_len(chars);
    let lo: usize = match find_last(chars, n, '/') {
        Some(i) => i + 1,
        None => 0,
    };
    assert(chars@.subrange(lo as int, n as int) =~= last_component(chars@));
    (lo, n)
}

/// Whether a component names a file: it is not empty, `.` or `..`.
fn names_a_file(chars: &[char], lo: usize, hi: usize) -> (r: bool)
    requires
        lo <= hi <= chars@.len(),
    ensures
        r == ({
            let name = chars@.subrange(lo as int, hi as int);
            !(name.len() == 0 || name == seq!['.'] || name == seq!['.', '.'])
        }),
{
    let n: usize = hi - lo;
    let ghost name = chars@.subrange(lo as int, hi as int);
    proof {
        assert(n >= 1 ==> name[0] == chars@[lo as int]);
        assert(n >= 2 ==> name[1] == chars@[lo + 1]);
        if name == seq!['.'] {
            assert(seq!['.'][0] == '.' && name.len() == 1);
        }
        if name == seq!['.', '.'] {
            assert(seq!['.', '.'][0] == '.' && seq!['.', '.'][1] == '.' && name.len() == 2);
        }
        if n == 1 && chars@[lo as int] == '.' {
            assert(name =~= seq!['.']);
        }
        if n == 2 && chars@[lo as int] == '.' && chars@[lo + 1] == '.' {
            assert(name =~= seq!['.', '.']);
        }
    }
    !(n == 0 || (n == 1 && chars[lo] == '.') || (n == 2 && chars[lo] == '.' && chars[lo + 1]
        == '.'))
}

/// The name of the file a path leads to.
pub fn file_name(path: &str) -> (name: Option<String>)
    ensures
        name is None <==> file_name_of(path@) is None,
        name matches Some(n) ==> file_name_of(path@) == Some(n@),
{
    let chars = chars_of(path);
    let (lo, hi) = component_bounds(chars.as_slice());
    if names_a_file(chars.as_slice(), lo, hi) {
        Some(text_between(chars.as_slice(), lo, hi))
    } else {
        None
    }
}

/// The extension of the file a path leads to.
pub fn extension(path: &str) -> (ext: Option<String>)
    ensures
        ext is None <==> extension_of(path@) is None,
        ext matches Some(e) ==> extension_of(path@) == Some(e@),
{
    let name = file_name(path);
    match name {
        None => None,
        Some(name) => {
            let chars = chars_of(name.as_str());
            let n: usize = chars.len();
            assert(chars@.take(n as int) =~= name@);
            proof {
                lemma_last_place(name@, '.');
            }
            match find_last(chars.as_slice(), n, '.') {
                Some(i) if i > 0 => {
                    let e = text_between(chars.as_slice(), i + 1, n);
                    assert(e@ =~= name@.skip(i + 1));
                    Some(e)
                },
                _ => None,
            }
        },
    }
}

/// The name of the file a path leads to, without its extension.
pub fn file_stem(path: &str) -> (stem: Option<String>)
    ensures
        stem is None <==> stem_of(path@) is None,
        stem matches Some(s) ==> stem_of(path@) == Some(s@),
{
    let name = file_name(path);
    match name {
        None => None,
        Some(name) => {
            let chars = chars_of(name.as_str());
            let n: usize = chars.len();
            assert(chars@.take(n as int) =~= name@);
            match find_last(chars.as_slice(), n, '.') {
                Some(i) if i > 0 => {
                    let s = text_between(chars.as_slice(), 0, i);
                    assert(s@ =~= name@.take(i as int));
                    Some(s)
                },
                _ => Some(name),
            }
        },
    }
}

/// A path up to the end of its file's stem, where the file has an extension.
pub open spec fn without_extension(p: Seq<char>) -> Seq<char> {
    match (extension_of(p), stem_of(p)) {
        (Some(_), Some(stem)) => p.take(last_place(trimmed(p), '/') + 1 + stem.len()),
        _ => p,
    }
}

/// A path up to the end of its file's stem, where the file has an extension.
pub fn strip_extension(path: &str) -> (s: String)
    ensures
        s@ == without_extension(path@),
{
    if extension(path).is_none() {
        return path.to_owned();
    }
    match file_stem(path) {
        None => path.to_owned(),
        Some(stem) => {
            let chars = chars_of(path);
            let (lo, hi) = component_bounds(chars.as_slice());
            let n: usize = chars_of(stem.as_str()).len();
            proof {
                lemma_last_place(last_component(path@), '.');
                assert(n <= hi - lo);
            }
            let s = text_between(chars.as_slice(), 0, lo + n);
            assert(s@ =~= path@.take(lo + n));
            s
        },
    }
}

// --------------------------------------------------------------------- components

/// Where the components of a path lie, from `from` on. Empty segments are none, nor
/// is `.`, unless `dot` says that it may stand here.
pub open spec fn spans_from(p: Seq<char>, from: int, dot: bool) -> Seq<(int, int)>
    decreases p.len() + 1 - from,
{
    if from >= p.len() {
        Seq::empty()
    } else {
        proof {
            lemma_next_place(p, '/', from);
        }
        let end = next_place(p, '/', from);
        let rest = spans_from(p, end + 1, false);
        if end == from || (!dot && end == from + 1 && p[from] == '.') {
            rest
        } else {
            seq![(from, end)] + rest
        }
    }
}

/// Where the components of a path lie: a slash at the very front is one by itself,
/// and `.` is one at the very front only.
pub open spec fn spans(p: Seq<char>) -> Seq<(int, int)> {
    if p.len() > 0 && p[0] == '/' {
        seq![(0int, 1int)] + spans_from(p, 1, false)
    } else {
        spans_from(p, 0, true)
    }
}

/// What stands between the first and the last of some components.
pub open spec fn covered(p: Seq<char>, list: Seq<(int, int)>) -> Seq<char> {
    if list.len() == 0 {
        Seq::empty()
    } else {
        p.subrange(list[0].0, list.last().1)
    }
}

/// The components of a path.
pub open spec fn components(p: Seq<char>) -> Seq<Seq<char>> {
    spans(p).map_values(|s: (int, int)| p.subrange(s.0, s.1))
}

/// What remains of a path behind the components of `base`, if it begins with them.
pub open spec fn stripped(p: Seq<char>, base: Seq<char>) -> Option<Seq<char>> {
    let n = components(base).len() as int;
    if n <= components(p).len() && components(p).take(n) == components(base) {
        Some(covered(p, spans(p).skip(n)))
    } else {
        None
    }
}

/// A path without its last component, if it has one that is not the root.
pub open spec fn parent_of(p: Seq<char>) -> Option<Seq<char>> {
    if components(p).len() == 0 || components(p).last() == seq!['/'] {
        None
    } else {
        Some(covered(p, spans(p).drop_last()))
    }
}

/// The path that `rel` leads to from `base`.
pub open spec fn joined(base: Seq<char>, rel: Seq<char>) -> Seq<char> {
    if rel.len() > 0 && rel[0] == '/' {
        rel
    } else if base.len() == 0 || base.last() == '/' {
        base + rel
    } else {
        base + seq!['/'] + rel
    }
}

/// Components lie in the path, one behind the other.
proof fn lemma_spans_from(p: Seq<char>, from: int, dot: bool)
    requires
        0 <= from,
    ensures
        forall|i: int|
            0 <= i < spans_from(p, from, dot).len() ==> from <= (#[trigger] spans_from(
                p,
                from,
                dot,
            )[i]).0 < spans_from(p, from, dot)[i].1 <= p.len(),
        forall|i: int, j: int|
            0 <= i < j < spans_from(p, from, dot).len() ==> (#[trigger] spans_from(
                p,
                from,
                dot,
            )[i]).1 <= (#[trigger] spans_from(p, from, dot)[j]).0,
    decreases p.len() + 1 - from,
{
    if from < p.len() {
        lemma_next_place(p, '/', from);
        let end = next_place(p, '/', from);
        lemma_spans_from(p, end + 1, false);
        let rest = spans_from(p, end + 1, false);
        let all = spans_from(p, from, dot);
        if end == from || (!dot && end == from + 1 && p[from] == '.') {
            assert(all == rest);
        } else {
            assert(all[0] == (from, end));
            assert forall|i: int| 0 < i < all.len() implies #[trigger] all[i] == rest[i - 1] by {}
        }
    }
}

proof fn lemma_spans(p: Seq<char>)
    ensures
        forall|i: int|
            0 <= i < spans(p).len() ==> 0 <= (#[trigger] spans(p)[i]).0 < spans(p)[i].1 <= p.len(),
        forall|i: int, j: int|
            0 <= i < j < spans(p).len() ==> (#[trigger] spans(p)[i]).1 <= (#[trigger] spans(p)[j]).0,
{
    if p.len() > 0 && p[0] == '/' {
        lemma_spans_from(p, 1, false);
        let rest = spans_from(p, 1, false);
        assert(spans(p)[0] == (0int, 1int));
        assert forall|i: int| 0 < i < spans(p).len() implies #[trigger] spans(p)[i] == rest[i
            - 1] by {}
    } else {
        lemma_spans_from(p, 0, true);
    }
}

/// What lies above a path is shorter.
pub proof fn lemma_parent_shorter(p: Seq<char>)
    ensures
        parent_of(p) matches Some(up) ==> up.len() < p.len(),
{
    lemma_spans(p);
    let list = spans(p);
    if list.len() > 1 {
        assert(list[list.len() - 2].1 <= list[list.len() - 1].0);
        assert(list[0].0 < list[0].1);
        if list.len() > 2 {
            assert(list[0].1 <= list[list.len() - 2].0);
        }
    } else if list.len() == 1 {
        assert(list[0].0 < list[0].1);
    }
}

/// The places held by a list of bounds.
spec fn held(list: Seq<(usize, usize)>) -> Seq<(int, int)> {
    Seq::new(list.len(), |i: int| (list[i].0 as int, list[i].1 as int))
}

/// Find the components of a path.
fn find_spans(chars: &[char]) -> (list: Vec<(usize, usize)>)
    ensures
        held(list@) == spans(chars@),
        forall|i: int|
            0 <= i < list@.len() ==> (#[trigger] list@[i]).0 < list@[i].1 <= chars@.len(),
        forall|i: int, j: int|
            0 <= i < j < list@.len() ==> (#[trigger] list@[i]).1 <= (#[trigger] list@[j]).0,
{
    let n: usize = chars.len();
    let mut list: Vec<(usize, usize)> = Vec::new();
    let mut from: usize = 0;
    let mut dot: bool = true;
    let ghost p = chars@;
    assert(held(list@) =~= Seq::empty());
    if n > 0 && chars[0] == '/' {
        list.push((0, 1));
        from = 1;
        dot = false;
        assert(held(list@) =~= seq![(0int, 1int)]);
    }
    assert(held(list@) + spans_from(p, from as int, dot) =~= spans(p));
    while from < n
        invariant
            n == p.len(),
            p == chars@,
            from <= n,
            held(list@) + spans_from(p, from as int, dot) == spans(p),
        decreases n - from,
    {
        let end: usize = find_next(chars, '/', from);
        let ghost before = held(list@);
        let ghost rest = spans_from(p, end + 1, false);
        let none: bool = end == from || (!dot && end == from + 1 && chars[from] == '.');
        if !none {
            list.push((from, end));
            proof {
                assert(held(list@) =~= before.push((from as int, end as int)));
                assert(before + (seq![(from as int, end as int)] + rest) =~= held(list@) + rest);
            }
        }
        dot = false;
        if end >= n {
            assert(rest =~= Seq::empty());
            from = n;
        } else {
            from = end + 1;
        }
    }
    proof {
        assert(held(list@) + Seq::empty() =~= held(list@));
        lemma_spans(p);
        assert forall|i: int| 0 <= i < list@.len() implies (#[trigger] list@[i]).0 < list@[i].1
            <= chars@.len() by {
            assert(held(list@)[i] == spans(p)[i]);
        }
        assert forall|i: int, j: int| 0 <= i < j < list@.len() implies (#[trigger] list@[i]).1
            <= (#[trigger] list@[j]).0 by {
            assert(held(list@)[i] == spans(p)[i]);
            assert(held(list@)[j] == spans(p)[j]);
        }
    }
    list
}

/// The components of a path.
pub(crate) fn parts(path: &str) -> (list: Vec<String>)
    ensures
        views(list@) == components(path@),
{
    let chars = chars_of(path);
    let bounds = find_spans(chars.as_slice());
    let mut list: Vec<String> = Vec::new();
    let mut i: usize = 0;
    while i < bounds.len()
        invariant
            i <= bounds@.len(),
            chars@ == path@,
            held(bounds@) == spans(path@),
            forall|k: int|
                0 <= k < bounds@.len() ==> (#[trigger] bounds@[k]).0 < bounds@[k].1 <= chars@.len(),
            views(list@) == components(path@).take(i as int),
        decreases bounds.len() - i,
    {
        let ghost before = views(list@);
        let b = bounds[i];
        list.push(text_between(chars.as_slice(), b.0, b.1));
        proof {
            assert(held(bounds@)[i as int] == spans(path@)[i as int]);
            assert(views(list@) =~= before.push(path@.subrange(b.0 as int, b.1 as int)));
            assert(views(list@) =~= components(path@).take(i + 1));
        }
        i += 1;
    }
    assert(spans(path@).len() == held(bounds@).len());
    assert(views(list@) =~= components(path@));
    list
}

/// Whether the first texts of one list are those of another.
fn begins_with(list: &Vec<String>, front: &Vec<String>) -> (r: bool)
    ensures
        r == (front@.len() <= list@.len() && views(list@).take(front@.len() as int) == views(
            front@,
        )),
{
    if front.len() > list.len() {
        return false;
    }
    let mut i: usize = 0;
    while i < front.len()
        invariant
            i <= front@.len() <= list@.len(),
            forall|k: int| 0 <= k < i ==> (#[trigger] list@[k])@ == front@[k]@,
        decreases front.len() - i,
    {
        if !same_text(list[i].as_str(), front[i].as_str()) {
            assert(views(list@).take(front@.len() as int)[i as int] != views(front@)[i as int]);
            return false;
        }
        i += 1;
    }
    assert(views(list@).take(front@.len() as int) =~= views(front@));
    true
}

/// What remains of a path behind the components of `base`, if it begins with them.
pub fn strip_prefix(path: &str, base: &str) -> (rest: Option<String>)
    ensures
        rest is None <==> stripped(path@, base@) is None,
        rest matches Some(r) ==> stripped(path@, base@) == Some(r@),
{
    let all = parts(path);
    let front = parts(base);
    if !begins_with(&all, &front) {
        return None;
    }
    let chars = chars_of(path);
    let bounds = find_spans(chars.as_slice());
    let n: usize = front.len();
    assert(held(bounds@).len() == spans(path@).len());
    if n == bounds.len() {
        let r = String::new();
        assert(r@ =~= covered(path@, spans(path@).skip(n as int)));
        return Some(r);
    }
    let m: usize = bounds.len();
    let lo: usize = bounds[n].0;
    let hi: usize = bounds[m - 1].1;
    proof {
        assert(held(bounds@)[n as int] == spans(path@)[n as int]);
        assert(held(bounds@)[m - 1] == spans(path@)[m - 1]);
        assert(spans(path@).skip(n as int)[0] == spans(path@)[n as int]);
        assert(bounds@[n as int].1 <= bounds@[m - 1].1) by {
            if n < m - 1 {
                assert(bounds@[n as int].1 <= bounds@[m - 1].0);
            }
        }
    }
    Some(text_between(chars.as_slice(), lo, hi))
}

/// A path without its last component, if it has one that is not the root.
pub fn parent(path: &str) -> (up: Option<String>)
    ensures
        up is None <==> parent_of(path@) is None,
        up matches Some(u) ==> parent_of(path@) == Some(u@),
{
    let chars = chars_of(path);
    let bounds = find_spans(chars.as_slice());
    let m: usize = bounds.len();
    assert(held(bounds@).len() == spans(path@).len());
    if m == 0 {
        return None;
    }
    let last = bounds[m - 1];
    let ghost name = components(path@).last();
    proof {
        assert(held(bounds@)[m - 1] == spans(path@)[m - 1]);
        assert(name == path@.subrange(last.0 as int, last.1 as int));
        assert(name[0] == chars@[last.0 as int]);
    }
    if last.1 - last.0 == 1 && chars[last.0] == '/' {
        assert(name =~= seq!['/']);
        return None;
    }
    proof {
        if name == seq!['/'] {
            assert(seq!['/'].len() == 1 && seq!['/'][0] == '/');
        }
    }
    if m == 1 {
        let r = String::new();
        assert(r@ =~= covered(path@, spans(path@).drop_last()));
        return Some(r);
    }
    let lo: usize = bounds[0].0;
    let hi: usize = bounds[m - 2].1;
    proof {
        assert(held(bounds@)[0] == spans(path@)[0]);
        assert(held(bounds@)[m - 2] == spans(path@)[m - 2]);
        assert(spans(path@).drop_last().last() == spans(path@)[m - 2]);
        if m > 2 {
            assert(bounds@[0].1 <= bounds@[m - 2].0);
        }
    }
    Some(text_between(chars.as_slice(), lo, hi))
}

/// The path that `rel` leads to from `base`.
pub fn join(base: &str, rel: &str) -> (path: String)
    ensures
        path@ == joined(base@, rel@),
{
    if is_absolute(rel) {
        return rel.to_owned();
    }
    let chars = chars_of(base);
    let mut path = base.to_owned();
    if chars.len() > 0 && chars[chars.len() - 1] != '/' {
        path.push('/');
        assert(path@ =~= base@ + seq!['/']);
    }
    path.append(rel);
    path
}

/// Whether a path starts at the root.
pub fn is_absolute(path: &str) -> (r: bool)
    ensures
        r == (path@.len() > 0 && path@[0] == '/'),
{
    let chars = chars_of(path);
    chars.len() > 0 && chars[0] == '/'
}

// -------------------------------------------------------------------------- order

/// What a component is ordered by first: the root, then `.`, then `..`, then names.
pub open spec fn component_rank(c: Seq<char>) -> int {
    if c == seq!['/'] {
        0
    } else if c == seq!['.'] {
        1
    } else if c == seq!['.', '.'] {
        2
    } else {
        3
    }
}

/// A component stands before another, or is the same.
pub open spec fn component_le(a: Seq<char>, b: Seq<char>) -> bool {
    component_rank(a) < component_rank(b) || (component_rank(a) == component_rank(b)
        && alphabetical(a, b))
}

/// A path stands before another, component by component, or has the same ones.
pub open spec fn components_le(a: Seq<Seq<char>>, b: Seq<Seq<char>>) -> bool
    decreases a.len(),
{
    if a.len() == 0 {
        true
    } else if b.len() == 0 {
        false
    } else {
        component_le(a[0], b[0]) && (component_le(b[0], a[0]) ==> components_le(
            a.drop_first(),
            b.drop_first(),
        ))
    }
}

proof fn lemma_component_order(a: Seq<char>, b: Seq<char>, c: Seq<char>)
    ensures
        component_le(a, b) || component_le(b, a),
        component_le(a, b) && component_le(b, c) ==> component_le(a, c),
        component_le(a, b) && component_le(b, a) ==> a == b,
{
    lemma_alphabetical_total(a, b);
    if alphabetical(a, b) && alphabetical(b, c) {
        lemma_alphabetical_transitive(a, b, c);
    }
    if alphabetical(a, b) && alphabetical(b, a) {
        lemma_alphabetical_antisymmetric(a, b);
    }
}

proof fn lemma_components_total(a: Seq<Seq<char>>, b: Seq<Seq<char>>)
    ensures
        components_le(a, b) || components_le(b, a),
    decreases a.len(),
{
    if a.len() > 0 && b.len() > 0 {
        lemma_component_order(a[0], b[0], a[0]);
        lemma_components_total(a.drop_first(), b.drop_first());
    }
}

proof fn lemma_components_transitive(a: Seq<Seq<char>>, b: Seq<Seq<char>>, c: Seq<Seq<char>>)
    requires
        components_le(a, b),
        components_le(b, c),
    ensures
        components_le(a, c),
    decreases a.len(),
{
    if a.len() > 0 && b.len() > 0 && c.len() > 0 {
        lemma_component_order(a[0], b[0], c[0]);
        if component_le(c[0], a[0]) {
            lemma_component_order(c[0], a[0], b[0]);
            lemma_component_order(b[0], c[0], a[0]);
            lemma_components_transitive(a.drop_first(), b.drop_first(), c.drop_first());
        }
    }
}

/// Paths that stand before one another have the same components.
pub proof fn lemma_components_antisymmetric(a: Seq<Seq<char>>, b: Seq<Seq<char>>)
    requires
        components_le(a, b),
        components_le(b, a),
    ensures
        a == b,
    decreases a.len(),
{
    if a.len() > 0 {
        lemma_component_order(a[0], b[0], a[0]);
        lemma_components_antisymmetric(a.drop_first(), b.drop_first());
        assert(a =~= seq![a[0]] + a.drop_first());
        assert(b =~= seq![b[0]] + b.drop_first());
    } else {
        assert(a =~= b);
    }
}

fn rank_of(c: &str) -> (r: u8)
    ensures
        r == component_rank(c@),
{
    proof {
        reveal_strlit("/");
        reveal_strlit(".");
        reveal_strlit("..");
        assert("/"@ =~= seq!['/']);
        assert("."@ =~= seq!['.']);
        assert(".."@ =~= seq!['.', '.']);
    }
    if same_text(c, "/") {
        0
    } else if same_text(c, ".") {
        1
    } else if same_text(c, "..") {
        2
    } else {
        3
    }
}

fn component_at_most(a: &str, b: &str) -> (r: bool)
    ensures
        r == component_le(a@, b@),
{
    let ra: u8 = rank_of(a);
    let rb: u8 = rank_of(b);
    ra < rb || (ra == rb && text_at_most(a, b))
}

/// Paths in the order of their components.
pub struct ByComponents;

impl Order<String> for ByComponents {
    open spec fn precedes(a: Seq<char>, b: Seq<char>) -> bool {
        components_le(components(a), components(b))
    }

    proof fn lemma_total(a: Seq<char>, b: Seq<char>) {
        lemma_components_total(components(a), components(b));
    }

    proof fn lemma_transitive(a: Seq<char>, b: Seq<char>, c: Seq<char>) {
        lemma_components_transitive(components(a), components(b), components(c));
    }

    fn may_precede(a: &String, b: &String) -> (r: bool) {
        let x = parts(a.as_str());
        let y = parts(b.as_str());
        let ghost (p, q) = (components(a@), components(b@));
        let mut i: usize = 0;
        assert(p.skip(0) =~= p);
        assert(q.skip(0) =~= q);
        while i < x.len()
            invariant
                i <= x@.len(),
                i <= y@.len(),
                p == views(x@),
                q == views(y@),
                p == components(a@),
                q == components(b@),
                components_le(p, q) == components_le(p.skip(i as int), q.skip(i as int)),
            decreases x.len() - i,
        {
            if i >= y.len() {
                return false;
            }
            proof {
                assert(p.skip(i as int)[0] == x@[i as int]@);
                assert(q.skip(i as int)[0] == y@[i as int]@);
                assert(p.skip(i as int).drop_first() =~= p.skip(i + 1));
                assert(q.skip(i as int).drop_first() =~= q.skip(i + 1));
            }
            if !component_at_most(x[i].as_str(), y[i].as_str()) {
                return false;
            }
            if !component_at_most(y[i].as_str(), x[i].as_str()) {
                return true;
            }
            i += 1;
        }
        true
    }
}

// --------------------------------------------------------------------------- laws

/// Where the components of a text lie, each so much further on.
spec fn moved(list: Seq<(int, int)>, by: int) -> Seq<(int, int)> {
    list.map_values(|s: (int, int)| (s.0 + by, s.1 + by))
}

proof fn lemma_next_place_in_front(all: Seq<char>, front: Seq<char>, c: char, from: int)
    requires
        0 <= from <= front.len() <= all.len(),
        all.take(front.len() as int) == front,
    ensures
        next_place(front, c, from) < front.len() ==> next_place(all, c, from) == next_place(
            front,
            c,
            from,
        ),
        next_place(front, c, from) == front.len() ==> next_place(all, c, from) == next_place(
            all,
            c,
            front.len() as int,
        ),
        from <= next_place(front, c, from) <= front.len(),
    decreases front.len() - from,
{
    if from < front.len() {
        assert(all.take(front.len() as int)[from] == all[from]);
        if front[from] != c {
            lemma_next_place_in_front(all, front, c, from + 1);
        }
    }
}

/// The components of `root` come first in a path that leads on from it.
proof fn lemma_spans_in_front(all: Seq<char>, root: Seq<char>, k: int, from: int, dot: bool)
    requires
        root.len() > 0,
        0 <= from <= root.len() <= k <= all.len(),
        all.take(root.len() as int) == root,
        dot ==> from == 0,
        root.last() == '/' ==> k == root.len(),
        root.last() != '/' ==> k == root.len() + 1 && all[root.len() as int] == '/',
    ensures
        spans_from(all, from, dot) == spans_from(root, from, dot) + spans_from(all, k, false),
    decreases root.len() - from,
{
    let n = root.len() as int;
    let rest = spans_from(all, k, false);
    if from == n {
        assert(spans_from(root, from, dot) =~= Seq::empty());
        if root.last() != '/' {
            assert(next_place(all, '/', n) == n);
        }
        assert(Seq::empty() + rest =~= rest);
    } else {
        lemma_next_place_in_front(all, root, '/', from);
        let end = next_place(root, '/', from);
        assert(all[from] == all.take(n)[from]);
        if end < n {
            lemma_spans_in_front(all, root, k, end + 1, false);
            let tail = spans_from(root, end + 1, false);
            assert(seq![(from, end)] + (tail + rest) =~= (seq![(from, end)] + tail) + rest);
        } else {
            assert(root[n - 1] != '/') by {
                lemma_no_place_before(root, '/', from, n - 1);
            }
            assert(next_place(all, '/', n) == n);
            assert(spans_from(root, end + 1, false) =~= Seq::empty());
            assert(seq![(from, end)] + rest =~= (seq![(from, end)] + Seq::empty()) + rest);
            assert(Seq::<(int, int)>::empty() + rest =~= rest);
        }
    }
}

/// What is passed over on the way to a place found is something else.
proof fn lemma_no_place_before(s: Seq<char>, c: char, from: int, i: int)
    requires
        0 <= from <= i < next_place(s, c, from),
        i < s.len(),
    ensures
        s[i] != c,
    decreases s.len() - from,
{
    if from < i {
        lemma_no_place_before(s, c, from + 1, i);
    }
}

proof fn lemma_spans_behind(all: Seq<char>, rel: Seq<char>, k: int, from: int)
    requires
        0 <= k <= all.len(),
        all.skip(k) == rel,
        0 <= from,
    ensures
        spans_from(all, k + from, false) == moved(spans_from(rel, from, false), k),
    decreases rel.len() + 1 - from,
{
    if from < rel.len() {
        lemma_next_place(rel, '/', from);
        lemma_next_place_behind(all, rel, '/', k, from);
        let end = next_place(rel, '/', from);
        lemma_spans_behind(all, rel, k, end + 1);
        assert(all.skip(k)[from] == all[k + from]);
        assert(spans_from(all, k + from, false) =~= moved(spans_from(rel, from, false), k));
    } else {
        assert(spans_from(all, k + from, false) =~= moved(spans_from(rel, from, false), k));
    }
}

proof fn lemma_next_place_behind(all: Seq<char>, rel: Seq<char>, c: char, k: int, from: int)
    requires
        0 <= k <= all.len(),
        all.skip(k) == rel,
        0 <= from <= rel.len(),
    ensures
        next_place(all, c, k + from) == k + next_place(rel, c, from),
    decreases rel.len() - from,
{
    if from < rel.len() {
        assert(all.skip(k)[from] == all[k + from]);
        if rel[from] != c {
            lemma_next_place_behind(all, rel, c, k, from + 1);
        }
    }
}

/// A relative path without what leads nowhere at its ends.
pub open spec fn tidied(rel: Seq<char>) -> Seq<char> {
    covered(rel, spans_from(rel, 0, false))
}

/// The components that a relative path adds to those of a directory.
pub open spec fn components_below(rel: Seq<char>) -> Seq<Seq<char>> {
    spans_from(rel, 0, false).map_values(|s: (int, int)| rel.subrange(s.0, s.1))
}

/// Where the components lie of a path that leads on from a directory: first those of
/// the directory, then those of the relative path.
proof fn lemma_spans_of_joined(root: Seq<char>, rel: Seq<char>) -> (k: int)
    requires
        root.len() > 0,
        !(rel.len() > 0 && rel[0] == '/'),
    ensures
        root.len() <= k <= joined(root, rel).len(),
        joined(root, rel).take(root.len() as int) == root,
        joined(root, rel).skip(k) == rel,
        spans(joined(root, rel)) == spans(root) + moved(spans_from(rel, 0, false), k),
{
    let all = joined(root, rel);
    let n = root.len() as int;
    let k = if root.last() == '/' {
        n
    } else {
        n + 1
    };
    assert(all.take(n) =~= root);
    assert(all.skip(k) =~= rel);
    let rest = spans_from(all, k, false);
    assert(all[0] == all.take(n)[0]);
    if root[0] == '/' {
        lemma_spans_in_front(all, root, k, 1, false);
        assert(spans(all) =~= spans(root) + rest);
    } else {
        lemma_spans_in_front(all, root, k, 0, true);
    }
    lemma_spans_behind(all, rel, k, 0);
    k
}

/// The components of a path that leads on from a directory are those of the directory
/// and then those of the relative path.
pub proof fn lemma_components_of_joined(root: Seq<char>, rel: Seq<char>)
    requires
        root.len() > 0,
        !(rel.len() > 0 && rel[0] == '/'),
    ensures
        components(joined(root, rel)) == components(root) + components_below(rel),
{
    let all = joined(root, rel);
    let k = lemma_spans_of_joined(root, rel);
    lemma_spans(root);
    lemma_spans_from(rel, 0, false);
    let (base, below) = (components(root), components_below(rel));
    let list = spans_from(rel, 0, false);
    assert forall|i: int| 0 <= i < components(all).len() implies #[trigger] components(all)[i] == (
    base + below)[i] by {
        if i < base.len() {
            let s = spans(root)[i];
            assert(spans(all)[i] == s);
            assert(all.subrange(s.0, s.1) =~= root.subrange(s.0, s.1)) by {
                assert forall|q: int| s.0 <= q < s.1 implies #[trigger] all[q] == root[q] by {
                    assert(all.take(root.len() as int)[q] == all[q]);
                }
            }
        } else {
            let s = list[i - base.len()];
            assert(spans(all)[i] == moved(list, k)[i - base.len()]);
            assert(all.subrange(s.0 + k, s.1 + k) =~= rel.subrange(s.0, s.1)) by {
                assert forall|q: int| s.0 <= q < s.1 implies #[trigger] rel[q] == all[q + k] by {
                    assert(all.skip(k)[q] == all[q + k]);
                }
            }
        }
    }
    assert(components(all) =~= base + below);
}

proof fn lemma_order_behind_a_prefix(p: Seq<Seq<char>>, a: Seq<Seq<char>>, b: Seq<Seq<char>>)
    ensures
        components_le(p + a, p + b) == components_le(a, b),
    decreases p.len(),
{
    if p.len() == 0 {
        assert(p + a =~= a);
        assert(p + b =~= b);
    } else {
        lemma_component_order(p[0], p[0], p[0]);
        assert((p + a).drop_first() =~= p.drop_first() + a);
        assert((p + b).drop_first() =~= p.drop_first() + b);
        lemma_order_behind_a_prefix(p.drop_first(), a, b);
    }
}

/// Files are in the same order whatever directory they lie in, and tell apart as they
/// do elsewhere.
pub proof fn lemma_order_does_not_depend_on_the_root(
    one: Seq<char>,
    other: Seq<char>,
    a: Seq<char>,
    b: Seq<char>,
)
    requires
        one.len() > 0,
        other.len() > 0,
        !(a.len() > 0 && a[0] == '/'),
        !(b.len() > 0 && b[0] == '/'),
    ensures
        ByComponents::precedes(joined(one, a), joined(one, b)) == ByComponents::precedes(
            joined(other, a),
            joined(other, b),
        ),
        components(joined(one, a)) == components(joined(one, b)) <==> components_below(a)
            == components_below(b),
{
    let (x, y) = (components_below(a), components_below(b));
    lemma_components_of_joined(one, a);
    lemma_components_of_joined(one, b);
    lemma_components_of_joined(other, a);
    lemma_components_of_joined(other, b);
    lemma_order_behind_a_prefix(components(one), x, y);
    lemma_order_behind_a_prefix(components(other), x, y);
    let p = components(one);
    assert((p + x).skip(p.len() as int) =~= x);
    assert((p + y).skip(p.len() as int) =~= y);
}

proof fn lemma_last_place_behind(front: Seq<char>, s: Seq<char>, c: char)
    requires
        front.len() > 0 ==> front.last() == c,
    ensures
        last_place(front + s, c) == front.len() + last_place(s, c),
    decreases s.len(),
{
    if s.len() == 0 {
        assert(front + s =~= front);
    } else {
        assert((front + s).drop_last() =~= front + s.drop_last());
        lemma_last_place_behind(front, s.drop_last(), c);
    }
}

proof fn lemma_trimmed_behind(front: Seq<char>, rel: Seq<char>)
    requires
        front.len() > 0 ==> front.last() == '/',
        file_name_of(rel) is Some,
    ensures
        trimmed(front + rel) == front + trimmed(rel),
    decreases rel.len(),
{
    let all = front + rel;
    if rel.len() > 0 && (rel.last() == '/' || (rel.len() > 1 && rel.last() == '.' && rel[rel.len()
        - 2] == '/')) {
        assert(all.drop_last() =~= front + rel.drop_last());
        lemma_trimmed_behind(front, rel.drop_last());
        if rel.last() != '/' {
            assert(all[all.len() - 2] == rel[rel.len() - 2]);
        }
    } else {
        assert(trimmed(rel) == rel);
        lemma_last_place(rel, '/');
        assert(rel.len() > 0);
        assert(all.last() == rel.last());
        if rel.len() == 1 && rel[0] == '.' {
            assert(last_component(rel) =~= seq!['.']);
        }
        if rel.len() > 1 {
            assert(all[all.len() - 2] == rel[rel.len() - 2]);
        }
    }
}

/// A file has the same name whatever directory it lies in.
pub proof fn lemma_file_name_of_joined(root: Seq<char>, rel: Seq<char>)
    requires
        !(rel.len() > 0 && rel[0] == '/'),
        file_name_of(rel) is Some,
    ensures
        file_name_of(joined(root, rel)) == file_name_of(rel),
{
    let front = if root.len() == 0 || root.last() == '/' {
        root
    } else {
        root + seq!['/']
    };
    assert(joined(root, rel) =~= front + rel);
    lemma_trimmed_behind(front, rel);
    let t = trimmed(rel);
    lemma_last_place_behind(front, t, '/');
    lemma_last_place(t, '/');
    assert((front + t).skip(front.len() + last_place(t, '/') + 1) =~= t.skip(
        last_place(t, '/') + 1,
    ));
}

/// Stripping a directory off a path that leads on from it gives the relative path
/// back, whatever the directory.
pub proof fn lemma_strip_undoes_join(root: Seq<char>, rel: Seq<char>)
    requires
        root.len() > 0,
        !(rel.len() > 0 && rel[0] == '/'),
    ensures
        stripped(joined(root, rel), root) == Some(tidied(rel)),
{
    let all = joined(root, rel);
    let k = lemma_spans_of_joined(root, rel);
    let rest = moved(spans_from(rel, 0, false), k);
    lemma_spans(root);
    let (front, base) = (components(all).take(components(root).len() as int), components(root));
    assert forall|i: int| 0 <= i < base.len() implies #[trigger] front[i] == base[i] by {
        let s = spans(root)[i];
        assert(spans(all)[i] == s);
        assert(all.subrange(s.0, s.1) =~= root.subrange(s.0, s.1));
    }
    assert(front =~= base);
    assert(spans(all).skip(base.len() as int) =~= rest);
    let list = spans_from(rel, 0, false);
    lemma_spans_from(rel, 0, false);
    if list.len() > 0 {
        let (lo, hi) = (list[0].0, list.last().1);
        assert(rest[0].0 == lo + k);
        assert(rest.last().1 == hi + k);
        assert(list[list.len() - 1].1 == hi);
        if list.len() > 1 {
            assert(list[0].1 <= list[list.len() - 1].0);
        }
        assert(all.subrange(lo + k, hi + k) =~= rel.subrange(lo, hi));
    }
}

/// The extension of a file is what follows the last dot of its name, and its stem what
/// stands before that, as long as something does; whatever directories it lies in.
pub proof fn lemma_extension_follows_the_last_dot(dir: Seq<char>, stem: Seq<char>, ext: Seq<char>)
    requires
        dir.len() == 0 || dir.last() == '/',
        stem.len() > 0,
        lacks(stem, '/'),
        ext.len() > 0,
        lacks(ext, '/'),
        lacks(ext, '.'),
    ensures
        file_name_of(dir + stem + seq!['.'] + ext) == Some(stem + seq!['.'] + ext),
        extension_of(dir + stem + seq!['.'] + ext) == Some(ext),
        stem_of(dir + stem + seq!['.'] + ext) == Some(stem),
        without_extension(dir + stem + seq!['.'] + ext) == dir + stem,
{
    let p = dir + stem + seq!['.'] + ext;
    let name = stem + seq!['.'] + ext;
    assert(p.last() == ext.last());
    assert(ext.last() == ext[ext.len() - 1]);
    assert(trimmed(p) == p);
    lemma_last_place(p, '/');
    let q = last_place(p, '/');
    let d = dir.len() as int;
    assert forall|i: int| d <= i < p.len() implies #[trigger] p[i] != '/' by {
        if i < d + stem.len() {
            assert(p[i] == stem[i - d]);
        } else if i > d + stem.len() {
            assert(p[i] == ext[i - d - stem.len() - 1]);
        }
    }
    if dir.len() > 0 {
        assert(p[d - 1] == '/');
    }
    assert(q == d - 1);
    assert(last_component(p) =~= name);
    lemma_last_place(name, '.');
    let k = stem.len() as int;
    assert(name[k] == '.');
    assert forall|i: int| k < i < name.len() implies #[trigger] name[i] != '.' by {
        assert(name[i] == ext[i - k - 1]);
    }
    assert(last_place(name, '.') == k);
    if name == seq!['.', '.'] {
        assert(name[1] == '.');
    }
    assert(name.skip(k + 1) =~= ext);
    assert(name.take(k) =~= stem);
    assert(p.take(d + k) =~= dir + stem);
}

/// A component of a path lies from `s` to `e`: something without a slash in it, between
/// slashes or the ends of the path, that is not a lone dot but at the very front; or the
/// slash that the path begins with.
pub open spec fn is_component(p: Seq<char>, s: int, e: int) -> bool {
    ||| p.len() > 0 && p[0] == '/' && s == 0 && e == 1
    ||| {
        &&& 0 <= s < e <= p.len()
        &&& forall|i: int| s <= i < e ==> #[trigger] p[i] != '/'
        &&& s == 0 || p[s - 1] == '/'
        &&& e == p.len() || p[e] == '/'
        &&& !(s > 0 && e == s + 1 && p[s] == '.')
    }
}

/// A path is read component by component: every one of them in order, and nothing else.
pub proof fn lemma_every_component_is_read(p: Seq<char>)
    ensures
        forall|s: int, e: int| #[trigger]
            spans(p).contains((s, e)) <==> is_component(p, s, e),
        forall|i: int, j: int|
            0 <= i < j < spans(p).len() ==> (#[trigger] spans(p)[i]).1 <= (#[trigger] spans(p)[j]).0,
        components(p).len() == spans(p).len(),
        forall|i: int|
            0 <= i < components(p).len() ==> #[trigger] components(p)[i] == p.subrange(
                spans(p)[i].0,
                spans(p)[i].1,
            ),
{
    lemma_spans(p);
    let slash = p.len() > 0 && p[0] == '/';
    let rest = if slash {
        spans_from(p, 1, false)
    } else {
        spans_from(p, 0, true)
    };
    assert forall|s: int, e: int| #[trigger] spans(p).contains((s, e)) <==> is_component(
        p,
        s,
        e,
    ) by {
        lemma_spans_are_components(
            p,
            if slash {
                1
            } else {
                0
            },
            !slash,
            s,
            e,
        );
        if spans(p).contains((s, e)) {
            let k = choose|k: int| 0 <= k < spans(p).len() && spans(p)[k] == (s, e);
            if slash {
                if k > 0 {
                    assert(rest[k - 1] == (s, e));
                }
            } else {
                assert(rest[k] == (s, e));
            }
        }
        if rest.contains((s, e)) {
            let k = choose|k: int| 0 <= k < rest.len() && rest[k] == (s, e);
            if slash {
                assert(spans(p)[k + 1] == (s, e));
            } else {
                assert(spans(p)[k] == (s, e));
            }
        }
        if slash && s == 0 && e == 1 {
            assert(spans(p)[0] == (s, e));
        }
        if slash && s == 0 && is_component(p, s, e) && e != 1 {
            assert(p[0] != '/');
        }
    }
}

proof fn lemma_spans_are_components(p: Seq<char>, from: int, dot: bool, s: int, e: int)
    requires
        0 <= from,
        dot ==> from == 0,
        from == 0 || from > p.len() || p[from - 1] == '/',
        !dot ==> from > 0,
    ensures
        spans_from(p, from, dot).contains((s, e)) <==> from <= s < e <= p.len() && (forall|i: int|
            s <= i < e ==> #[trigger] p[i] != '/') && (s == 0 || p[s - 1] == '/') && (e == p.len()
            || p[e] == '/') && !(s > 0 && e == s + 1 && p[s] == '.'),
    decreases p.len() + 1 - from,
{
    let all = spans_from(p, from, dot);
    if from < p.len() {
        lemma_next_is_first(p, '/', from);
        let end = next_place(p, '/', from);
        lemma_spans_are_components(p, end + 1, false, s, e);
        let rest = spans_from(p, end + 1, false);
        let skip = end == from || (!dot && end == from + 1 && p[from] == '.');
        if !skip {
            assert(all[0] == (from, end));
            if rest.contains((s, e)) {
                let k = choose|k: int| 0 <= k < rest.len() && rest[k] == (s, e);
                assert(all[k + 1] == (s, e));
            }
            if all.contains((s, e)) {
                let k = choose|k: int| 0 <= k < all.len() && all[k] == (s, e);
                if k > 0 {
                    assert(rest[k - 1] == (s, e));
                }
            }
        }
        if from <= s < e <= p.len() && (forall|i: int| s <= i < e ==> #[trigger] p[i] != '/') && (s
            == 0 || p[s - 1] == '/') && (e == p.len() || p[e] == '/') {
            if s == from {
                if e < end {
                    assert(p[e] != '/');
                }
                if end < e {
                    assert(p[end] != '/');
                }
                assert(e == end);
            } else if s <= end {
                assert(p[s - 1] != '/');
            }
        }
    }
}

/// A name without a dot in it, but perhaps one at its front, has no extension, and is all
/// stem, whatever directories the file lies in.
pub proof fn lemma_names_without_a_dot_have_no_extension(dir: Seq<char>, name: Seq<char>)
    requires
        dir.len() == 0 || dir.last() == '/',
        name.len() > 0,
        lacks(name, '/'),
        name != seq!['.'],
        lacks(name.drop_first(), '.'),
    ensures
        file_name_of(dir + name) == Some(name),
        extension_of(dir + name) is None,
        stem_of(dir + name) == Some(name),
        without_extension(dir + name) == dir + name,
{
    let p = dir + name;
    let d = dir.len() as int;
    let n = name.len() as int;
    assert(p.last() == name.last());
    assert(name.last() == name[n - 1]);
    if p.len() >= 2 && p.last() == '.' {
        if n > 1 {
            assert(name.drop_first()[n - 2] == name[n - 1]);
        } else {
            assert(name =~= seq!['.']);
        }
    }
    assert(trimmed(p) == p);
    lemma_last_place(p, '/');
    assert forall|i: int| d <= i < p.len() implies #[trigger] p[i] != '/' by {
        assert(p[i] == name[i - d]);
    }
    if d > 0 {
        assert(p[d - 1] == '/');
    }
    assert(last_place(p, '/') == d - 1);
    assert(last_component(p) =~= name);
    lemma_last_place(name, '.');
    assert forall|i: int| 1 <= i < n implies #[trigger] name[i] != '.' by {
        assert(name.drop_first()[i - 1] == name[i]);
    }
    assert(last_place(name, '.') <= 0);
    if name == seq!['.', '.'] {
        assert(name[1] == '.');
    }
    assert(p.take(d + n) =~= p);
}

/// The parent of what lies in a directory is the directory.
pub proof fn lemma_the_parent_is_the_directory(dir: Seq<char>, name: Seq<char>)
    requires
        dir.len() > 0,
        dir.last() != '/',
        !(dir.len() > 1 && dir[dir.len() - 2] == '/' && dir.last() == '.'),
        name.len() > 0,
        lacks(name, '/'),
        name != seq!['.'],
    ensures
        parent_of(dir + seq!['/'] + name) == Some(dir),
        parent_of(seq!['/'] + name) == Some(seq!['/']),
        parent_of(name) == Some(Seq::<char>::empty()),
        parent_of(seq!['/']) is None,
        parent_of(Seq::empty()) is None,
{
    let all = dir + seq!['/'] + name;
    let n = name.len() as int;
    assert(joined(dir, name) == all);
    let k = lemma_spans_of_joined(dir, name);
    lemma_next_is_first(name, '/', 0);
    if next_place(name, '/', 0) < n {
        assert(name[next_place(name, '/', 0)] != '/');
    }
    if n == 1 && name[0] == '.' {
        assert(name =~= seq!['.']);
    }
    assert(spans_from(name, n + 1, false) =~= Seq::empty());
    assert(spans_from(name, 0, false) =~= seq![(0int, n)]);
    assert(spans(all).drop_last() =~= spans(dir));
    lemma_every_component_is_read(dir);
    lemma_every_component_is_read(all);
    lemma_last_place(dir, '/');
    let s = last_place(dir, '/') + 1;
    let d = dir.len() as int;
    assert(dir.last() == dir[d - 1]);
    assert(is_component(dir, s, d));
    assert(spans(dir).contains((s, d)));
    let at = choose|i: int| 0 <= i < spans(dir).len() && spans(dir)[i] == (s, d);
    lemma_spans(dir);
    if at < spans(dir).len() - 1 {
        assert(spans(dir)[at].1 <= spans(dir)[spans(dir).len() - 1].0);
    }
    assert(spans(dir).last().1 == d);
    lemma_next_is_first(dir, '/', 0);
    let e = if dir[0] == '/' {
        1
    } else {
        next_place(dir, '/', 0)
    };
    assert(is_component(dir, 0, e));
    assert(spans(dir).contains((0, e)));
    let first = choose|i: int| 0 <= i < spans(dir).len() && spans(dir)[i] == (0int, e);
    if first > 0 {
        assert(spans(dir)[0].1 <= spans(dir)[first].0);
    }
    assert(spans(dir)[0].0 == 0);
    assert(covered(all, spans(dir)) =~= dir);
    lemma_spans(all);
    let last = spans(all).last();
    assert(components(all).last() == all.subrange(last.0, last.1));
    assert(is_component(all, last.0, last.1)) by {
        assert(spans(all)[spans(all).len() - 1] == last);
        assert(spans(all).contains((last.0, last.1)));
    }
    if components(all).last() == seq!['/'] {
        assert(all.subrange(last.0, last.1)[0] == all[last.0]);
        assert(last.0 == 0);
        assert(spans(all)[0].1 <= spans(all)[spans(all).len() - 1].0);
    }
    let top = seq!['/'] + name;
    lemma_next_is_first(top, '/', 1);
    assert forall|i: int| 1 <= i < top.len() implies #[trigger] top[i] != '/' by {
        assert(top[i] == name[i - 1]);
    }
    assert(next_place(top, '/', 1) == top.len());
    if top.len() == 2 && top[1] == '.' {
        assert(name =~= seq!['.']);
    }
    assert(spans_from(top, top.len() as int + 1, false) =~= Seq::empty());
    assert(spans_from(top, 1, false) =~= seq![(1int, top.len() as int)]);
    assert(spans(top) =~= seq![(0int, 1int), (1int, top.len() as int)]);
    assert(components(top).last() =~= name);
    assert(name[0] != '/');
    assert(covered(top, spans(top).drop_last()) =~= seq!['/']);
    assert(spans_from(name, 0, true) =~= seq![(0int, n)]);
    assert(components(name).last() =~= name);
    assert(covered(name, spans(name).drop_last()) =~= Seq::empty());
    let root = seq!['/'];
    assert(spans(root) =~= seq![(0int, 1int)]);
    assert(components(root).last() =~= root);
    assert(components(Seq::<char>::empty()).len() == 0);
}

/// Two lists of components agree up to a place.
pub open spec fn agree_up_to(a: Seq<Seq<char>>, b: Seq<Seq<char>>, k: int) -> bool {
    0 <= k <= a.len() && k <= b.len() && forall|i: int| 0 <= i < k ==> #[trigger] a[i] == b[i]
}

/// A component comes before a different one: the root before all else, then `.`, then
/// `..`, then the names, in alphabetical order.
pub open spec fn comes_first(a: Seq<char>, b: Seq<char>) -> bool {
    let (root, here, up) = (seq!['/'], seq!['.'], seq!['.', '.']);
    &&& a != b
    &&& b != root
    &&& a != root ==> {
        &&& b != here
        &&& a != here ==> {
            &&& b != up
            &&& a != up ==> alphabetical(a, b)
        }
    }
}

/// Paths are ordered by the first component in which they differ; a path comes before
/// what lies below it.
pub proof fn lemma_paths_are_ordered_by_the_first_difference(a: Seq<Seq<char>>, b: Seq<Seq<char>>)
    ensures
        components_le(a, b) <==> exists|k: int| #[trigger]
            agree_up_to(a, b, k) && (k == a.len() || (k < b.len() && comes_first(a[k], b[k]))),
    decreases a.len(),
{
    if a.len() == 0 {
        assert(agree_up_to(a, b, 0));
    } else if b.len() > 0 {
        let (x, y) = (a.drop_first(), b.drop_first());
        lemma_paths_are_ordered_by_the_first_difference(x, y);
        lemma_alphabetical_total(a[0], b[0]);
        if alphabetical(a[0], b[0]) && alphabetical(b[0], a[0]) {
            lemma_alphabetical_antisymmetric(a[0], b[0]);
        }
        let (root, here, up) = (seq!['/'], seq!['.'], seq!['.', '.']);
        assert(root[0] == '/' && here[0] == '.' && up[0] == '.' && here.len() == 1 && up.len() == 2);
        assert(component_le(a[0], b[0]) && component_le(b[0], a[0]) <==> a[0] == b[0]);
        assert(component_le(a[0], b[0]) && a[0] != b[0] <==> comes_first(a[0], b[0]));
        if components_le(a, b) {
            if a[0] != b[0] {
                assert(agree_up_to(a, b, 0));
            } else {
                let k = choose|k: int| #[trigger]
                    agree_up_to(x, y, k) && (k == x.len() || (k < y.len() && comes_first(
                        x[k],
                        y[k],
                    )));
                assert forall|i: int| 0 <= i < k + 1 implies #[trigger] a[i] == b[i] by {
                    if i > 0 {
                        assert(a[i] == x[i - 1] && b[i] == y[i - 1]);
                    }
                }
                assert(agree_up_to(a, b, k + 1));
            }
        }
        if exists|k: int| #[trigger]
            agree_up_to(a, b, k) && (k == a.len() || (k < b.len() && comes_first(a[k], b[k]))) {
            let k = choose|k: int| #[trigger]
                agree_up_to(a, b, k) && (k == a.len() || (k < b.len() && comes_first(a[k], b[k])));
            if k > 0 {
                assert(a[0] == b[0]);
                assert forall|i: int| 0 <= i < k - 1 implies #[trigger] x[i] == y[i] by {
                    assert(a[i + 1] == b[i + 1]);
                }
                assert(agree_up_to(x, y, k - 1));
            }
        }
    }
}

} // verus!
