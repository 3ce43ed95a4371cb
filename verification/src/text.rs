//! Text, as the sequence of its characters.

use vstd::prelude::*;
use vstd::string::*;

use crate::sort::{views, Order};

verus! {

// -------------------------------------------------------------- what std provides

/// `String::push` appends one character.
pub assume_specification[ std::string::String::push ](out: &mut std::string::String, ch: char)
    ensures
        final(out)@ == old(out)@.push(ch),
;

/// `==` on `str`: whether two texts hold the same characters.
#[verifier::external_body]
pub(crate) fn same_text(a: &str, b: &str) -> (r: bool)
    ensures
        r == (a@ == b@),
{
    a == b
}

/// `<=` on `str`: texts are ordered by their characters' code points, position by
/// position, and a text comes before any longer one it begins.
#[verifier::external_body]
pub(crate) fn text_at_most(a: &str, b: &str) -> (r: bool)
    ensures
        r == alphabetical(a@, b@),
{
    a <= b
}

/// The characters with Unicode's `White_Space` property: the controls from tab to
/// carriage return, the space, the next line control, and the spaces and separators
/// beyond ASCII.
pub open spec fn unicode_whitespace(c: char) -> bool {
    ||| '\t' <= c <= '\r'
    ||| c == ' '
    ||| c == '\u{85}'
    ||| c == '\u{a0}'
    ||| c == '\u{1680}'
    ||| '\u{2000}' <= c <= '\u{200a}'
    ||| c == '\u{2028}'
    ||| c == '\u{2029}'
    ||| c == '\u{202f}'
    ||| c == '\u{205f}'
    ||| c == '\u{3000}'
}

/// `char::is_whitespace` holds of the characters with Unicode's `White_Space`
/// property, and of no others.
#[verifier::external_body]
pub(crate) fn is_whitespace(c: char) -> (r: bool)
    ensures
        r == unicode_whitespace(c),
{
    c.is_whitespace()
}

/// Whether `char::is_alphanumeric` holds of a character: whether it has one of
/// Unicode's alphabetic or numeric properties.
pub uninterp spec fn unicode_alphanumeric(c: char) -> bool;

/// `char::is_alphanumeric`. Its table is Unicode's; among the ASCII characters it
/// holds of the letters and the digits.
#[verifier::external_body]
pub(crate) fn is_alphanumeric(c: char) -> (r: bool)
    ensures
        r == unicode_alphanumeric(c),
        c <= '\x7f' ==> r == ('a' <= c <= 'z' || 'A' <= c <= 'Z' || '0' <= c <= '9'),
{
    c.is_alphanumeric()
}

// ----------------------------------------------------------------------- ordering

/// `a` stands before `b` in a dictionary, or is the same.
pub open spec fn alphabetical(a: Seq<char>, b: Seq<char>) -> bool
    decreases a.len(),
{
    a.len() == 0 || (b.len() > 0 && (a[0] < b[0] || (a[0] == b[0] && alphabetical(
        a.drop_first(),
        b.drop_first(),
    ))))
}

/// Any two texts can be put in order.
pub proof fn lemma_alphabetical_total(a: Seq<char>, b: Seq<char>)
    ensures
        alphabetical(a, b) || alphabetical(b, a),
    decreases a.len(),
{
    if a.len() > 0 && b.len() > 0 {
        lemma_alphabetical_total(a.drop_first(), b.drop_first());
    }
}

/// The order of texts carries over.
pub proof fn lemma_alphabetical_transitive(a: Seq<char>, b: Seq<char>, c: Seq<char>)
    requires
        alphabetical(a, b),
        alphabetical(b, c),
    ensures
        alphabetical(a, c),
    decreases a.len(),
{
    if a.len() > 0 {
        if a[0] == b[0] && b[0] == c[0] {
            lemma_alphabetical_transitive(a.drop_first(), b.drop_first(), c.drop_first());
        }
    }
}

/// Two texts level in the order are the same.
pub proof fn lemma_alphabetical_antisymmetric(a: Seq<char>, b: Seq<char>)
    requires
        alphabetical(a, b),
        alphabetical(b, a),
    ensures
        a == b,
    decreases a.len(),
{
    if a.len() > 0 {
        lemma_alphabetical_antisymmetric(a.drop_first(), b.drop_first());
        assert(a =~= seq![a[0]] + a.drop_first());
        assert(b =~= seq![b[0]] + b.drop_first());
    } else {
        assert(a =~= b);
    }
}

/// Two texts each, the first ones deciding before the second ones.
pub open spec fn pair_alphabetical(
    a: (Seq<char>, Seq<char>),
    b: (Seq<char>, Seq<char>),
) -> bool {
    alphabetical(a.0, b.0) && (a.0 == b.0 ==> alphabetical(a.1, b.1))
}

/// The order of pairs of texts is total and carries over; level pairs are the same.
pub proof fn lemma_pair_alphabetical(
    a: (Seq<char>, Seq<char>),
    b: (Seq<char>, Seq<char>),
    c: (Seq<char>, Seq<char>),
)
    ensures
        pair_alphabetical(a, b) || pair_alphabetical(b, a),
        pair_alphabetical(a, b) && pair_alphabetical(b, c) ==> pair_alphabetical(a, c),
        pair_alphabetical(a, b) && pair_alphabetical(b, a) ==> a == b,
{
    lemma_alphabetical_total(a.0, b.0);
    lemma_alphabetical_total(a.1, b.1);
    if alphabetical(a.0, b.0) && alphabetical(b.0, a.0) {
        lemma_alphabetical_antisymmetric(a.0, b.0);
    }
    if pair_alphabetical(a, b) && pair_alphabetical(b, c) {
        lemma_alphabetical_transitive(a.0, b.0, c.0);
        if a.0 == c.0 {
            lemma_alphabetical_antisymmetric(a.0, b.0);
            lemma_alphabetical_transitive(a.1, b.1, c.1);
        }
    }
    if pair_alphabetical(a, b) && pair_alphabetical(b, a) {
        lemma_alphabetical_antisymmetric(a.1, b.1);
    }
}

/// Whether one pair of texts comes no later than another.
pub fn pair_at_most(a0: &str, a1: &str, b0: &str, b1: &str) -> (r: bool)
    ensures
        r == pair_alphabetical((a0@, a1@), (b0@, b1@)),
{
    text_at_most(a0, b0) && (!same_text(a0, b0) || text_at_most(a1, b1))
}

/// Two texts, the one that comes first in front.
pub open spec fn in_pair_order(a: Seq<char>, b: Seq<char>) -> (Seq<char>, Seq<char>) {
    if alphabetical(a, b) {
        (a, b)
    } else {
        (b, a)
    }
}

/// It does not matter which of two texts is given first.
pub proof fn lemma_pair_order_symmetric(a: Seq<char>, b: Seq<char>)
    ensures
        in_pair_order(a, b) == in_pair_order(b, a),
{
    lemma_alphabetical_total(a, b);
    if alphabetical(a, b) && alphabetical(b, a) {
        lemma_alphabetical_antisymmetric(a, b);
    }
}

/// Texts in dictionary order.
pub struct Alphabetical;

impl Order<String> for Alphabetical {
    open spec fn precedes(a: Seq<char>, b: Seq<char>) -> bool {
        alphabetical(a, b)
    }

    proof fn lemma_total(a: Seq<char>, b: Seq<char>) {
        lemma_alphabetical_total(a, b);
    }

    proof fn lemma_transitive(a: Seq<char>, b: Seq<char>, c: Seq<char>) {
        lemma_alphabetical_transitive(a, b, c);
    }

    fn may_precede(a: &String, b: &String) -> (r: bool) {
        text_at_most(a.as_str(), b.as_str())
    }
}

// ----------------------------------------------------------------------- numbers

/// The character of a decimal digit.
pub open spec fn digit(d: nat) -> char {
    if d == 0 {
        '0'
    } else if d == 1 {
        '1'
    } else if d == 2 {
        '2'
    } else if d == 3 {
        '3'
    } else if d == 4 {
        '4'
    } else if d == 5 {
        '5'
    } else if d == 6 {
        '6'
    } else if d == 7 {
        '7'
    } else if d == 8 {
        '8'
    } else {
        '9'
    }
}

/// A number in decimal notation.
pub open spec fn decimal(n: nat) -> Seq<char>
    decreases n,
{
    if n < 10 {
        seq![digit(n)]
    } else {
        decimal(n / 10).push(digit(n % 10))
    }
}

fn digit_char(d: u8) -> (c: char)
    requires
        d < 10,
    ensures
        c == digit(d as nat),
{
    match d {
        0 => '0',
        1 => '1',
        2 => '2',
        3 => '3',
        4 => '4',
        5 => '5',
        6 => '6',
        7 => '7',
        8 => '8',
        _ => '9',
    }
}

/// Append a number in decimal notation.
pub fn push_decimal(out: &mut String, n: u128)
    ensures
        final(out)@ == old(out)@ + decimal(n as nat),
    decreases n,
{
    if n >= 10 {
        push_decimal(out, n / 10);
    }
    let ghost before = out@;
    out.push(digit_char((n % 10) as u8));
    assert(out@ =~= old(out)@ + decimal(n as nat));
}

/// An integer in decimal notation.
pub open spec fn signed_decimal(n: int) -> Seq<char> {
    if n < 0 {
        seq!['-'] + decimal((-n) as nat)
    } else {
        decimal(n as nat)
    }
}

/// Append an integer in decimal notation.
pub fn push_signed(out: &mut String, n: i32)
    ensures
        final(out)@ == old(out)@ + signed_decimal(n as int),
{
    if n < 0 {
        out.push('-');
        push_decimal(out, (-(n as i64)) as u128);
    } else {
        push_decimal(out, n as u128);
    }
    assert(out@ =~= old(out)@ + signed_decimal(n as int));
}

// ----------------------------------------------------------------------- pieces

/// The characters of a text.
pub fn chars_of(s: &str) -> (chars: Vec<char>)
    ensures
        chars@ == s@,
{
    let mut chars: Vec<char> = Vec::new();
    for c in it: s.chars()
        invariant
            it.seq() == s@,
            chars@ == s@.take(it.index() as int),
    {
        assert(s@.take(it.index() + 1) =~= s@.take(it.index() as int).push(c));
        chars.push(c);
    }
    assert(s@.take(s@.len() as int) =~= s@);
    chars
}

/// Append the characters from `lo` to `hi`.
pub fn push_chars(out: &mut String, chars: &[char], lo: usize, hi: usize)
    requires
        lo <= hi <= chars@.len(),
    ensures
        final(out)@ == old(out)@ + chars@.subrange(lo as int, hi as int),
{
    let mut i: usize = lo;
    assert(chars@.subrange(lo as int, lo as int) =~= Seq::empty());
    assert(out@ + Seq::empty() =~= out@);
    while i < hi
        invariant
            lo <= i <= hi <= chars@.len(),
            out@ == old(out)@ + chars@.subrange(lo as int, i as int),
        decreases hi - i,
    {
        out.push(chars[i]);
        i += 1;
        assert(out@ =~= old(out)@ + chars@.subrange(lo as int, i as int));
    }
}

/// The text made of the characters from `lo` to `hi`.
pub fn text_between(chars: &[char], lo: usize, hi: usize) -> (s: String)
    requires
        lo <= hi <= chars@.len(),
    ensures
        s@ == chars@.subrange(lo as int, hi as int),
{
    let mut out = String::new();
    push_chars(&mut out, chars, lo, hi);
    assert(out@ =~= chars@.subrange(lo as int, hi as int));
    out
}

// ------------------------------------------------------------------- lower case

/// The lower-case form of an ASCII letter; any other character as it is.
pub open spec fn ascii_lower(c: char) -> char {
    if 'A' <= c <= 'Z' {
        ((c as u32) + 32) as u8 as char
    } else {
        c
    }
}

/// A text with its ASCII letters in lower case.
pub open spec fn ascii_lowered(s: Seq<char>) -> Seq<char> {
    Seq::new(s.len(), |i: int| ascii_lower(s[i]))
}

/// A text with its ASCII letters in lower case.
pub fn ascii_lowercase(s: &str) -> (out: String)
    ensures
        out@ == ascii_lowered(s@),
{
    let chars = chars_of(s);
    let mut out = String::new();
    let mut i: usize = 0;
    while i < chars.len()
        invariant
            i <= chars@.len(),
            chars@ == s@,
            out@ == ascii_lowered(s@).take(i as int),
        decreases chars.len() - i,
    {
        let c: char = chars[i];
        let lower: char = if 'A' <= c && c <= 'Z' {
            ((c as u32) + 32) as u8 as char
        } else {
            c
        };
        out.push(lower);
        i += 1;
        assert(out@ =~= ascii_lowered(s@).take(i as int));
    }
    assert(out@ =~= ascii_lowered(s@));
    out
}

// ------------------------------------------------------------------ substitution

/// A text with one character in place of another.
pub open spec fn with_replaced(s: Seq<char>, from: char, to: char) -> Seq<char> {
    Seq::new(
        s.len(),
        |i: int|
            if s[i] == from {
                to
            } else {
                s[i]
            },
    )
}

/// A text with one character in place of another.
pub fn replace_char(s: &str, from: char, to: char) -> (out: String)
    ensures
        out@ == with_replaced(s@, from, to),
{
    let chars = chars_of(s);
    let mut out = String::new();
    let mut i: usize = 0;
    while i < chars.len()
        invariant
            i <= chars@.len(),
            chars@ == s@,
            out@ == with_replaced(s@, from, to).take(i as int),
        decreases chars.len() - i,
    {
        let c: char = chars[i];
        out.push(if c == from {
            to
        } else {
            c
        });
        i += 1;
        assert(out@ =~= with_replaced(s@, from, to).take(i as int));
    }
    assert(out@ =~= with_replaced(s@, from, to));
    out
}

// -------------------------------------------------------------------- searching

/// The first place from `from` on where `c` occurs, or the end.
pub open spec fn next_place(s: Seq<char>, c: char, from: int) -> int
    decreases s.len() - from,
{
    if from >= s.len() || s[from] == c {
        from
    } else {
        next_place(s, c, from + 1)
    }
}

/// Find the first place from `from` on where `c` occurs, or the end.
pub fn find_next(chars: &[char], c: char, from: usize) -> (e: usize)
    requires
        from <= chars@.len(),
    ensures
        e == next_place(chars@, c, from as int),
        from <= e <= chars@.len(),
{
    let mut e: usize = from;
    while e < chars.len() && chars[e] != c
        invariant
            from <= e <= chars@.len(),
            next_place(chars@, c, from as int) == next_place(chars@, c, e as int),
        decreases chars.len() - e,
    {
        e += 1;
    }
    e
}

/// `pat` stands in `s` from `i` on.
pub open spec fn stands_at(s: Seq<char>, pat: Seq<char>, i: int) -> bool {
    0 <= i && i + pat.len() <= s.len() && s.subrange(i, i + pat.len()) == pat
}

/// Whether `pat` stands in `s` from `i` on.
pub fn is_at(s: &[char], pat: &[char], i: usize) -> (r: bool)
    ensures
        r == stands_at(s@, pat@, i as int),
{
    let n: usize = s.len();
    let m: usize = pat.len();
    if i > n || m > n - i {
        return false;
    }
    let ghost here = s@.subrange(i as int, i + m);
    let mut k: usize = 0;
    while k < m
        invariant
            k <= m == pat@.len(),
            i + m <= n == s@.len(),
            here == s@.subrange(i as int, i + m),
            forall|j: int| 0 <= j < k ==> #[trigger] here[j] == pat@[j],
        decreases m - k,
    {
        if s[i + k] != pat[k] {
            assert(here[k as int] != pat@[k as int]);
            return false;
        }
        k += 1;
    }
    assert(here =~= pat@);
    true
}

/// `pat` occurs somewhere in `s`.
pub open spec fn occurs(s: Seq<char>, pat: Seq<char>) -> bool {
    exists|i: int| #[trigger] stands_at(s, pat, i)
}

/// Whether `pat` occurs somewhere in `s`.
pub fn contains_text(s: &[char], pat: &[char]) -> (r: bool)
    ensures
        r == occurs(s@, pat@),
{
    let n: usize = s.len();
    let mut i: usize = 0;
    while i < n
        invariant
            i <= n == s@.len(),
            forall|j: int| 0 <= j < i ==> !#[trigger] stands_at(s@, pat@, j),
        decreases n - i,
    {
        if is_at(s, pat, i) {
            return true;
        }
        i += 1;
    }
    if is_at(s, pat, n) {
        return true;
    }
    assert forall|j: int| !#[trigger] stands_at(s@, pat@, j) by {
        if 0 <= j < n {
        }
    }
    false
}

// ------------------------------------------------------------------------- lines

/// A line without the carriage return in front of its line feed.
pub open spec fn line_text(s: Seq<char>, from: int, end: int) -> Seq<char> {
    if end < s.len() && from < end && s[end - 1] == '\r' {
        s.subrange(from, end - 1)
    } else {
        s.subrange(from, end)
    }
}

/// The lines of a text from `from` on. A line feed at the very end starts no line.
pub open spec fn lines_from(s: Seq<char>, from: int) -> Seq<Seq<char>>
    decreases s.len() + 1 - from,
{
    if from >= s.len() {
        Seq::empty()
    } else {
        proof {
            lemma_next_place(s, '\n', from);
        }
        let end = next_place(s, '\n', from);
        seq![line_text(s, from, end)] + lines_from(s, end + 1)
    }
}

/// The lines of a text.
pub open spec fn lines_of(s: Seq<char>) -> Seq<Seq<char>> {
    lines_from(s, 0)
}

/// A place found lies ahead, within the text.
pub proof fn lemma_next_place(s: Seq<char>, c: char, from: int)
    requires
        from <= s.len(),
    ensures
        from <= next_place(s, c, from) <= s.len(),
    decreases s.len() - from,
{
    if from < s.len() && s[from] != c {
        lemma_next_place(s, c, from + 1);
    }
}

/// The lines of a text.
pub fn lines(s: &str) -> (list: Vec<String>)
    ensures
        views(list@) == lines_of(s@),
{
    let chars = chars_of(s);
    let n: usize = chars.len();
    let mut list: Vec<String> = Vec::new();
    let mut from: usize = 0;
    assert(views(list@) =~= Seq::empty());
    assert(Seq::empty() + lines_from(s@, 0) =~= lines_from(s@, 0));
    while from < n
        invariant
            n == chars@.len(),
            chars@ == s@,
            from <= n,
            views(list@) + lines_from(s@, from as int) == lines_of(s@),
        decreases n - from,
    {
        let end: usize = find_next(chars.as_slice(), '\n', from);
        let ghost before = views(list@);
        let ghost line = line_text(s@, from as int, end as int);
        let stop: usize = if end < n && from < end && chars[end - 1] == '\r' {
            end - 1
        } else {
            end
        };
        list.push(text_between(chars.as_slice(), from, stop));
        proof {
            assert(views(list@) =~= before.push(line));
            assert(before + (seq![line] + lines_from(s@, end + 1)) =~= before.push(line)
                + lines_from(s@, end + 1));
        }
        if end >= n {
            assert(lines_from(s@, end + 1) =~= Seq::empty());
            assert(views(list@) + Seq::empty() =~= views(list@));
            return list;
        }
        from = end + 1;
    }
    assert(views(list@) + Seq::empty() =~= views(list@));
    list
}

// ------------------------------------------------------------------------- words

/// The first place from `from` on that holds no white space.
pub open spec fn past_whitespace(s: Seq<char>, from: int) -> int
    decreases s.len() - from,
{
    if from < s.len() && unicode_whitespace(s[from]) {
        past_whitespace(s, from + 1)
    } else {
        from
    }
}

/// The first place from `from` on that holds white space, or the end.
pub open spec fn past_word(s: Seq<char>, from: int) -> int
    decreases s.len() - from,
{
    if from < s.len() && !unicode_whitespace(s[from]) {
        past_word(s, from + 1)
    } else {
        from
    }
}

/// The first word of a text.
pub open spec fn first_word(s: Seq<char>) -> Seq<char> {
    s.subrange(past_whitespace(s, 0), past_word(s, past_whitespace(s, 0)))
}

/// The bounds of the first word of a text.
pub fn first_word_bounds(chars: &[char]) -> (b: (usize, usize))
    ensures
        b.0 <= b.1 <= chars@.len(),
        b.0 == past_whitespace(chars@, 0),
        chars@.subrange(b.0 as int, b.1 as int) == first_word(chars@),
{
    let n: usize = chars.len();
    let mut lo: usize = 0;
    while lo < n && is_whitespace(chars[lo])
        invariant
            lo <= n == chars@.len(),
            past_whitespace(chars@, 0) == past_whitespace(chars@, lo as int),
        decreases n - lo,
    {
        lo += 1;
    }
    let mut hi: usize = lo;
    while hi < n && !is_whitespace(chars[hi])
        invariant
            lo <= hi <= n == chars@.len(),
            past_word(chars@, lo as int) == past_word(chars@, hi as int),
        decreases n - hi,
    {
        hi += 1;
    }
    (lo, hi)
}

/// Where a text ends, read from `from` to `to`, without the white space behind it.
pub open spec fn before_whitespace(s: Seq<char>, from: int, to: int) -> int
    decreases to - from,
{
    if to <= from {
        from
    } else if unicode_whitespace(s[to - 1]) {
        before_whitespace(s, from, to - 1)
    } else {
        to
    }
}

/// A text without the white space around it.
pub open spec fn without_space(s: Seq<char>) -> Seq<char> {
    let from = past_whitespace(s, 0);
    s.subrange(from, before_whitespace(s, from, s.len() as int))
}

/// A text without the white space around it.
pub fn trim(s: &str) -> (t: String)
    ensures
        t@ == without_space(s@),
{
    let chars = chars_of(s);
    let n: usize = chars.len();
    let mut from: usize = 0;
    while from < n && is_whitespace(chars[from])
        invariant
            from <= n == chars@.len(),
            past_whitespace(chars@, 0) == past_whitespace(chars@, from as int),
        decreases n - from,
    {
        from += 1;
    }
    let mut to: usize = n;
    while to > from && is_whitespace(chars[to - 1])
        invariant
            from <= to <= n == chars@.len(),
            before_whitespace(chars@, from as int, n as int) == before_whitespace(
                chars@,
                from as int,
                to as int,
            ),
        decreases to,
    {
        to -= 1;
    }
    text_between(chars.as_slice(), from, to)
}

// ------------------------------------------------------------------------ joining

/// Some texts, one behind the other, with `sep` between them.
pub open spec fn joined_by(list: Seq<Seq<char>>, sep: Seq<char>) -> Seq<char>
    decreases list.len(),
{
    if list.len() == 0 {
        Seq::empty()
    } else if list.len() == 1 {
        list[0]
    } else {
        joined_by(list.drop_last(), sep) + sep + list.last()
    }
}

/// Some texts, one behind the other, with `sep` between them.
pub fn join_texts(list: &[String], sep: &str) -> (s: String)
    ensures
        s@ == joined_by(views(list@), sep@),
{
    let mut s = String::new();
    let ghost all = views(list@);
    let mut i: usize = 0;
    assert(all.take(0) =~= Seq::empty());
    assert(s@ =~= Seq::empty());
    while i < list.len()
        invariant
            i <= list@.len(),
            all == views(list@),
            s@ == joined_by(all.take(i as int), sep@),
        decreases list.len() - i,
    {
        if i > 0 {
            s.append(sep);
        }
        s.append(list[i].as_str());
        proof {
            assert(all.take(i + 1).drop_last() =~= all.take(i as int));
            assert(all.take(i + 1).last() == list@[i as int]@);
            assert(s@ =~= joined_by(all.take(i + 1), sep@));
        }
        i += 1;
    }
    assert(all.take(i as int) =~= all);
    s
}

/// `f` may say this of a text.
pub open spec fn may_say<F: Fn(&str) -> bool>(f: F, text: Seq<char>, answer: bool) -> bool {
    exists|s: &str| s@ == text && #[trigger] call_ensures(f, (s,), answer)
}

// ---------------------------------------------------------------------------- laws

/// A text that a character does not stand in.
pub open spec fn lacks(s: Seq<char>, c: char) -> bool {
    forall|i: int| 0 <= i < s.len() ==> #[trigger] s[i] != c
}

/// What stands before the first of a character, and what stands behind it, can be read
/// off a text.
pub proof fn lemma_split_at_first(
    x: Seq<char>,
    y: Seq<char>,
    c: char,
    r: Seq<char>,
    s: Seq<char>,
)
    requires
        lacks(x, c),
        lacks(y, c),
        x + seq![c] + r == y + seq![c] + s,
    ensures
        x == y,
        r == s,
{
    let all = x + seq![c] + r;
    assert(all == y + seq![c] + s);
    assert(all[x.len() as int] == c);
    assert(all[y.len() as int] == c);
    if x.len() < y.len() {
        assert(all[x.len() as int] == y[x.len() as int]);
    }
    if y.len() < x.len() {
        assert(all[y.len() as int] == x[y.len() as int]);
    }
    assert(x =~= all.take(x.len() as int));
    assert(y =~= all.take(y.len() as int));
    assert(r =~= all.skip(x.len() as int + 1));
    assert(s =~= all.skip(y.len() as int + 1));
}

/// What stands behind the last of a character, and what stands before it, can be read
/// off a text.
pub proof fn lemma_split_at_last(
    r: Seq<char>,
    s: Seq<char>,
    c: char,
    x: Seq<char>,
    y: Seq<char>,
)
    requires
        lacks(x, c),
        lacks(y, c),
        r + seq![c] + x == s + seq![c] + y,
    ensures
        r == s,
        x == y,
{
    let all = r + seq![c] + x;
    assert(all == s + seq![c] + y);
    assert(all[r.len() as int] == c);
    assert(all[s.len() as int] == c);
    if r.len() < s.len() {
        assert(all[s.len() as int] == x[s.len() - r.len() - 1]);
    }
    if s.len() < r.len() {
        assert(all[r.len() as int] == y[r.len() - s.len() - 1]);
    }
    assert(r =~= all.take(r.len() as int));
    assert(s =~= all.take(s.len() as int));
    assert(x =~= all.skip(r.len() as int + 1));
    assert(y =~= all.skip(s.len() as int + 1));
}

/// A number is written in digits, at least one of them.
pub proof fn lemma_decimal_is_digits(n: nat)
    ensures
        decimal(n).len() > 0,
        forall|i: int| 0 <= i < decimal(n).len() ==> '0' <= #[trigger] decimal(n)[i] <= '9',
    decreases n,
{
    if n >= 10 {
        lemma_decimal_is_digits(n / 10);
    }
}

/// Each digit counts ten times what the next one does: a number is ten times what its
/// digits but the last write, and the last.
pub proof fn lemma_decimal_counts_in_tens(n: nat, d: nat)
    requires
        d < 10,
        n > 0,
    ensures
        decimal(10 * n + d) == decimal(n).push(('0' as nat + d) as char),
        decimal(d) == seq![('0' as nat + d) as char],
{
    assert((10 * n + d) / 10 == n && (10 * n + d) % 10 == d);
    assert(('0' as nat + d) as char == digit(d));
}

/// Different numbers are written differently.
pub proof fn lemma_decimal_tells_numbers_apart(a: nat, b: nat)
    requires
        decimal(a) == decimal(b),
    ensures
        a == b,
    decreases a,
{
    lemma_decimal_is_digits(a / 10);
    lemma_decimal_is_digits(b / 10);
    assert(decimal(a).last() == digit(a % 10));
    assert(decimal(b).last() == digit(b % 10));
    assert(a % 10 == b % 10);
    if a >= 10 && b >= 10 {
        assert(decimal(a).drop_last() =~= decimal(a / 10));
        assert(decimal(b).drop_last() =~= decimal(b / 10));
        lemma_decimal_tells_numbers_apart(a / 10, b / 10);
    }
}

/// Replacing a character changes that character wherever it stands, and nothing else.
pub proof fn lemma_replacing_changes_one_character(s: Seq<char>, from: char, to: char, i: int)
    requires
        0 <= i < s.len(),
    ensures
        with_replaced(s, from, to).len() == s.len(),
        s[i] == from ==> with_replaced(s, from, to)[i] == to,
        s[i] != from ==> with_replaced(s, from, to)[i] == s[i],
{
}

/// Texts are ordered by the first character in which they differ; a text comes before any
/// longer one that it begins.
pub proof fn lemma_order_is_by_the_first_difference(a: Seq<char>, b: Seq<char>)
    ensures
        alphabetical(a, b) <==> exists|k: int| #[trigger]
            agrees_up_to(a, b, k) && (k == a.len() || (k < b.len() && a[k] < b[k])),
    decreases a.len(),
{
    if a.len() == 0 {
        assert(agrees_up_to(a, b, 0));
    } else if b.len() > 0 {
        let (x, y) = (a.drop_first(), b.drop_first());
        lemma_order_is_by_the_first_difference(x, y);
        if alphabetical(a, b) {
            if a[0] < b[0] {
                assert(agrees_up_to(a, b, 0));
            } else {
                let k = choose|k: int| #[trigger]
                    agrees_up_to(x, y, k) && (k == x.len() || (k < y.len() && x[k] < y[k]));
                assert forall|i: int| 0 <= i < k + 1 implies #[trigger] a[i] == b[i] by {
                    if i > 0 {
                        assert(a[i] == x[i - 1] && b[i] == y[i - 1]);
                    }
                }
                assert(agrees_up_to(a, b, k + 1));
            }
        }
        if exists|k: int| #[trigger]
            agrees_up_to(a, b, k) && (k == a.len() || (k < b.len() && a[k] < b[k])) {
            let k = choose|k: int| #[trigger]
                agrees_up_to(a, b, k) && (k == a.len() || (k < b.len() && a[k] < b[k]));
            if k > 0 {
                assert(a[0] == b[0]);
                assert forall|i: int| 0 <= i < k - 1 implies #[trigger] x[i] == y[i] by {
                    assert(a[i + 1] == b[i + 1]);
                }
                assert(agrees_up_to(x, y, k - 1));
            }
        }
    }
}

/// Two texts have the same first `k` characters.
pub open spec fn agrees_up_to(a: Seq<char>, b: Seq<char>, k: int) -> bool {
    0 <= k <= a.len() && k <= b.len() && forall|i: int| 0 <= i < k ==> #[trigger] a[i] == b[i]
}

/// Trimming takes off all the white space at either end and nothing else: what remains
/// begins and ends with something else, or is empty.
pub proof fn lemma_trimming_takes_off_white_space(s: Seq<char>) -> (b: (int, int))
    ensures
        0 <= b.0 <= b.1 <= s.len(),
        without_space(s) == s.subrange(b.0, b.1),
        forall|i: int| 0 <= i < b.0 ==> unicode_whitespace(#[trigger] s[i]),
        forall|i: int| b.1 <= i < s.len() ==> unicode_whitespace(#[trigger] s[i]),
        b.0 < b.1 ==> !unicode_whitespace(s[b.0]) && !unicode_whitespace(s[b.1 - 1]),
{
    let from = past_whitespace(s, 0);
    lemma_past_whitespace(s, 0);
    lemma_before_whitespace(s, from, s.len() as int);
    (from, before_whitespace(s, from, s.len() as int))
}

proof fn lemma_past_whitespace(s: Seq<char>, from: int)
    requires
        0 <= from <= s.len(),
    ensures
        from <= past_whitespace(s, from) <= s.len(),
        forall|i: int| from <= i < past_whitespace(s, from) ==> unicode_whitespace(#[trigger] s[i]),
        past_whitespace(s, from) < s.len() ==> !unicode_whitespace(s[past_whitespace(s, from)]),
    decreases s.len() - from,
{
    if from < s.len() && unicode_whitespace(s[from]) {
        lemma_past_whitespace(s, from + 1);
    }
}

proof fn lemma_before_whitespace(s: Seq<char>, from: int, to: int)
    requires
        0 <= from <= to <= s.len(),
    ensures
        from <= before_whitespace(s, from, to) <= to,
        forall|i: int| before_whitespace(s, from, to) <= i < to ==> unicode_whitespace(
            #[trigger] s[i],
        ),
        before_whitespace(s, from, to) > from ==> !unicode_whitespace(
            s[before_whitespace(s, from, to) - 1],
        ),
    decreases to - from,
{
    if from < to && unicode_whitespace(s[to - 1]) {
        lemma_before_whitespace(s, from, to - 1);
    }
}

proof fn lemma_past_word(s: Seq<char>, from: int)
    requires
        0 <= from <= s.len(),
    ensures
        from <= past_word(s, from) <= s.len(),
        forall|i: int| from <= i < past_word(s, from) ==> !unicode_whitespace(#[trigger] s[i]),
        past_word(s, from) < s.len() ==> unicode_whitespace(s[past_word(s, from)]),
    decreases s.len() - from,
{
    if from < s.len() && !unicode_whitespace(s[from]) {
        lemma_past_word(s, from + 1);
    }
}

/// The first word of a text is what stands between the white space at its front and the
/// next white space.
pub proof fn lemma_the_first_word_ends_at_white_space(s: Seq<char>) -> (b: (int, int))
    ensures
        0 <= b.0 <= b.1 <= s.len(),
        first_word(s) == s.subrange(b.0, b.1),
        forall|i: int| 0 <= i < b.0 ==> unicode_whitespace(#[trigger] s[i]),
        forall|i: int| b.0 <= i < b.1 ==> !unicode_whitespace(#[trigger] s[i]),
        b.1 < s.len() ==> unicode_whitespace(s[b.1]),
        b.0 == b.1 ==> b.1 == s.len(),
{
    lemma_past_whitespace(s, 0);
    lemma_past_word(s, past_whitespace(s, 0));
    (past_whitespace(s, 0), past_word(s, past_whitespace(s, 0)))
}

/// A line of a text lies from `from` to `end`: nothing in it is a line feed, a line feed
/// or nothing stands before it, and a line feed or the end of the text behind it.
pub open spec fn is_line(s: Seq<char>, from: int, end: int) -> bool {
    &&& 0 <= from <= end <= s.len()
    &&& from < s.len()
    &&& forall|i: int| from <= i < end ==> #[trigger] s[i] != '\n'
    &&& from == 0 || s[from - 1] == '\n'
    &&& end == s.len() || s[end] == '\n'
}

/// What a line says, without the carriage return before its line feed.
pub open spec fn says_line(line: Seq<char>, s: Seq<char>, from: int, end: int) -> bool {
    if from < end && end < s.len() && s[end - 1] == '\r' {
        line == s.subrange(from, end - 1)
    } else {
        line == s.subrange(from, end)
    }
}

/// A text is read line by line: every line of it in order, and nothing else.
pub proof fn lemma_every_line_is_read(s: Seq<char>) -> (at: Seq<(int, int)>)
    ensures
        at.len() == lines_of(s).len(),
        forall|k: int|
            0 <= k < at.len() ==> is_line(s, (#[trigger] at[k]).0, at[k].1) && says_line(
                lines_of(s)[k],
                s,
                at[k].0,
                at[k].1,
            ),
        forall|k: int, l: int|
            0 <= k < l < at.len() ==> (#[trigger] at[k]).1 < (#[trigger] at[l]).0,
        forall|from: int, end: int| #[trigger]
            is_line(s, from, end) ==> at.contains((from, end)),
{
    let at = lemma_lines_from(s, 0);
    at
}

proof fn lemma_lines_from(s: Seq<char>, from: int) -> (at: Seq<(int, int)>)
    requires
        0 <= from,
        from == 0 || from > s.len() || s[from - 1] == '\n',
    ensures
        at.len() == lines_from(s, from).len(),
        forall|k: int|
            0 <= k < at.len() ==> from <= (#[trigger] at[k]).0 && is_line(s, at[k].0, at[k].1)
                && says_line(lines_from(s, from)[k], s, at[k].0, at[k].1),
        forall|k: int, l: int|
            0 <= k < l < at.len() ==> (#[trigger] at[k]).1 < (#[trigger] at[l]).0,
        forall|lo: int, hi: int| #[trigger]
            is_line(s, lo, hi) && from <= lo ==> at.contains((lo, hi)),
    decreases s.len() + 1 - from,
{
    if from >= s.len() {
        Seq::empty()
    } else {
        lemma_next_place(s, '\n', from);
        lemma_next_is_first(s, '\n', from);
        let end = next_place(s, '\n', from);
        let rest = lemma_lines_from(s, end + 1);
        let at = seq![(from, end)] + rest;
        assert(is_line(s, from, end));
        assert forall|k: int| 0 <= k < at.len() implies from <= (#[trigger] at[k]).0 && is_line(
            s,
            at[k].0,
            at[k].1,
        ) && says_line(lines_from(s, from)[k], s, at[k].0, at[k].1) by {
            if k > 0 {
                assert(at[k] == rest[k - 1]);
            }
        }
        assert forall|k: int, l: int| 0 <= k < l < at.len() implies (#[trigger] at[k]).1 < (
        #[trigger] at[l]).0 by {
            assert(at[l] == rest[l - 1]);
            if k > 0 {
                assert(at[k] == rest[k - 1]);
            }
        }
        assert forall|lo: int, hi: int| #[trigger] is_line(s, lo, hi) && from
            <= lo implies at.contains((lo, hi)) by {
            if lo == from {
                if hi < end {
                    assert(s[hi] != '\n');
                }
                if end < hi {
                    assert(s[end] != '\n');
                }
                assert(at[0] == (lo, hi));
            } else {
                if lo <= end {
                    assert(s[lo - 1] != '\n');
                }
                let k = choose|k: int| 0 <= k < rest.len() && rest[k] == (lo, hi);
                assert(at[k + 1] == (lo, hi));
            }
        }
        at
    }
}

/// The next place of a character is the first one.
pub proof fn lemma_next_is_first(s: Seq<char>, c: char, from: int)
    requires
        0 <= from <= s.len(),
    ensures
        from <= next_place(s, c, from) <= s.len(),
        forall|i: int| from <= i < next_place(s, c, from) ==> #[trigger] s[i] != c,
        next_place(s, c, from) < s.len() ==> s[next_place(s, c, from)] == c,
    decreases s.len() - from,
{
    if from < s.len() && s[from] != c {
        lemma_next_is_first(s, c, from + 1);
    }
}

/// Only the letters from `A` to `Z` change in lower case, each to the one that stands as
/// far behind `a` as it does behind `A`.
pub proof fn lemma_lower_case_changes_capital_letters(s: Seq<char>, i: int)
    requires
        0 <= i < s.len(),
    ensures
        ascii_lowered(s).len() == s.len(),
        'A' <= s[i] <= 'Z' ==> 'a' <= ascii_lowered(s)[i] <= 'z' && ascii_lowered(s)[i] as int
            - 'a' as int == s[i] as int - 'A' as int,
        !('A' <= s[i] <= 'Z') ==> ascii_lowered(s)[i] == s[i],
{
}

/// Texts are joined one by one, with what goes between them before every one but the
/// first.
pub proof fn lemma_texts_are_joined_one_by_one(
    list: Seq<Seq<char>>,
    text: Seq<char>,
    sep: Seq<char>,
)
    ensures
        joined_by(Seq::empty(), sep) == Seq::<char>::empty(),
        joined_by(seq![text], sep) == text,
        list.len() > 0 ==> joined_by(list.push(text), sep) == joined_by(list, sep) + sep + text,
        list.len() > 0 ==> joined_by(seq![text] + list, sep) == text + sep + joined_by(list, sep),
    decreases list.len(),
{
    assert(list.push(text).drop_last() =~= list);
    if list.len() > 0 {
        let all = seq![text] + list;
        let front = list.drop_last();
        assert(all.drop_last() =~= seq![text] + front);
        assert(all.last() == list.last());
        if list.len() == 1 {
            assert(all.drop_last() =~= seq![text]);
            assert(joined_by(seq![text], sep) == text);
            assert(list.last() == list[0]);
            assert(joined_by(all, sep) =~= text + sep + joined_by(list, sep));
        } else {
            lemma_texts_are_joined_one_by_one(front, text, sep);
            assert(joined_by(all, sep) =~= text + sep + joined_by(list, sep));
        }
    }
}

/// A text tells of two others, one after the other.
pub open spec fn tells_both(s: Seq<char>, a: Seq<char>, b: Seq<char>) -> bool {
    exists|front: Seq<char>, middle: Seq<char>, back: Seq<char>|
        s == #[trigger] (front + a + middle + b + back)
}

/// A text ends with another.
pub open spec fn ends_telling(s: Seq<char>, a: Seq<char>) -> bool {
    a.len() <= s.len() && s.skip(s.len() - a.len()) == a
}

/// A text tells of what it is made of.
pub proof fn lemma_parts_are_told(
    front: Seq<char>,
    a: Seq<char>,
    middle: Seq<char>,
    b: Seq<char>,
    back: Seq<char>,
)
    ensures
        tells_both(front + a + middle + b + back, a, b),
        ends_telling(front + a + middle + b, b),
        ends_telling(front + a, a),
{
    let s = front + a + middle + b;
    let whole = s + back;
    assert(s.skip(s.len() - b.len()) =~= b);
    assert((front + a).skip((front + a).len() - a.len()) =~= a);
    assert(whole == front + a + middle + b + back);
}

/// A negative number is written with a minus sign before what its opposite is written as,
/// and any other as it is.
pub proof fn lemma_a_sign_is_for_negative_numbers(n: nat)
    ensures
        signed_decimal(n as int) == decimal(n),
        n > 0 ==> signed_decimal(-(n as int)) == seq!['-'] + decimal(n),
{
}

} // verus!
