//! Exact scores.
//!
//! Every score this library reports is a quotient of two counts: tokens that
//! matched over tokens compared, names shared over names owned. Keeping the two
//! counts, rather than a rounded quotient, makes every comparison exact: a pair
//! sitting precisely on a threshold is on the right side of it on every machine.

use vstd::arithmetic::power::pow;
use vstd::prelude::*;

use crate::text::{
    chars_of, decimal, find_next, lemma_decimal_counts_in_tens, lemma_decimal_is_digits,
    lemma_next_is_first, next_place,
};

verus! {

/// A quotient of two counts. A denominator of zero counts as one.
#[derive(Clone, Copy, Debug)]
pub struct Ratio {
    /// The count on top.
    pub num: u64,
    /// The count it is out of.
    pub den: u64,
}

impl Ratio {
    /// The numerator, as an integer.
    pub open spec fn top(self) -> int {
        self.num as int
    }

    /// The denominator, as a positive integer.
    pub open spec fn bottom(self) -> int {
        if self.den == 0 {
            1
        } else {
            self.den as int
        }
    }

    /// `self <= other`, as quotients.
    pub open spec fn le(self, other: Ratio) -> bool {
        self.top() * other.bottom() <= other.top() * self.bottom()
    }

    /// The two quotients are the same number.
    pub open spec fn same(self, other: Ratio) -> bool {
        self.top() * other.bottom() == other.top() * self.bottom()
    }

    /// `self > base + margin`, as quotients.
    pub open spec fn beyond(self, base: Ratio, margin: Ratio) -> bool {
        self.top() * base.bottom() * margin.bottom() > (base.top() * margin.bottom() + margin.top()
            * base.bottom()) * self.bottom()
    }

    /// The nearest whole percentage; a tie goes to the even one.
    pub open spec fn spec_percent(self) -> int {
        let whole = 100 * self.top() / self.bottom();
        let rest = 100 * self.top() % self.bottom();
        if 2 * rest < self.bottom() || (2 * rest == self.bottom() && whole % 2 == 0) {
            whole
        } else {
            whole + 1
        }
    }

    /// The denominator actually divided by.
    fn divisor(&self) -> (d: u64)
        ensures
            d == self.bottom(),
            d > 0,
    {
        if self.den == 0 {
            1
        } else {
            self.den
        }
    }

    /// Whether this score is no larger than `other`.
    pub fn at_most(&self, other: &Ratio) -> (r: bool)
        ensures
            r == self.le(*other),
    {
        let (a, b, c, d) = (self.num, self.divisor(), other.num, other.divisor());
        proof {
            lemma_product_fits(a, d);
            lemma_product_fits(c, b);
        }
        a as u128 * d as u128 <= c as u128 * b as u128
    }

    /// Whether this score exceeds `base` by strictly more than `margin`.
    pub fn exceeds_by(&self, base: &Ratio, margin: &Ratio) -> (r: bool)
        ensures
            r == self.beyond(*base, *margin),
    {
        let (a, b) = (self.num, self.divisor());
        let (c, d) = (base.num, base.divisor());
        let (e, f) = (margin.num, margin.divisor());
        proof {
            lemma_product_fits(a, d);
            lemma_product_fits(c, b);
            lemma_product_fits(b, d);
        }
        let left: u128 = a as u128 * d as u128;
        let right: u128 = c as u128 * b as u128;
        let scale: u128 = b as u128 * d as u128;
        proof {
            lemma_excess(a as int, b as int, c as int, d as int, e as int, f as int);
            assert(b * d > 0) by (nonlinear_arith)
                requires
                    b > 0,
                    d > 0,
            ;
        }
        if left <= right {
            false
        } else {
            exceeds(left - right, scale, e as u128, f as u128)
        }
    }

    /// The score as a whole percentage.
    pub fn percent(&self) -> (p: u128)
        ensures
            p == self.spec_percent(),
    {
        let n: u128 = 100 * self.num as u128;
        let d: u128 = self.divisor() as u128;
        let whole: u128 = n / d;
        let rest: u128 = n % d;
        if 2 * rest < d || (2 * rest == d && whole % 2 == 0) {
            whole
        } else {
            proof {
                assert(n / d <= n) by (nonlinear_arith)
                    requires
                        d > 0,
                        n >= 0,
                ;
            }
            whole + 1
        }
    }
}

impl PartialEq for Ratio {
    fn eq(&self, other: &Ratio) -> (r: bool) {
        let (a, b, c, d) = (self.num, self.divisor(), other.num, other.divisor());
        proof {
            lemma_product_fits(a, d);
            lemma_product_fits(c, b);
        }
        a as u128 * d as u128 == c as u128 * b as u128
    }
}

impl vstd::std_specs::cmp::PartialEqSpecImpl for Ratio {
    open spec fn obeys_eq_spec() -> bool {
        true
    }

    open spec fn eq_spec(&self, other: &Ratio) -> bool {
        self.same(*other)
    }
}

/// A score compares with one as its numerator does with its denominator.
pub proof fn lemma_against_one(x: Ratio)
    ensures
        x.le(Ratio { num: 1, den: 1 }) <==> x.top() <= x.bottom(),
        x.same(Ratio { num: 1, den: 1 }) <==> x.top() == x.bottom(),
{
    let (a, b) = (x.top(), x.bottom());
    assert(a * 1 == a && 1 * b == b) by (nonlinear_arith);
}

/// Any two scores compare.
pub proof fn lemma_le_total(x: Ratio, y: Ratio)
    ensures
        x.le(y) || y.le(x),
        x.same(y) <==> x.le(y) && y.le(x),
{
}

/// The order of scores carries over.
pub proof fn lemma_le_transitive(x: Ratio, y: Ratio, z: Ratio)
    requires
        x.le(y),
        y.le(z),
    ensures
        x.le(z),
{
    let (a, b) = (x.top(), x.bottom());
    let (c, d) = (y.top(), y.bottom());
    let (e, f) = (z.top(), z.bottom());
    assert(a * f <= e * b) by (nonlinear_arith)
        requires
            a * d <= c * b,
            c * f <= e * d,
            b > 0,
            d > 0,
            f > 0,
    {
        assert((a * d) * f <= (c * b) * f);
        assert((c * f) * b <= (e * d) * b);
        assert((a * f) * d <= (e * b) * d);
    }
}

proof fn lemma_product_fits(x: u64, y: u64)
    ensures
        0 <= x as u128 * y as u128 <= u128::MAX,
        x as u128 * y as u128 == x * y,
{
    assert(0 <= x * y <= 0xffff_ffff_ffff_ffff * 0xffff_ffff_ffff_ffff) by (nonlinear_arith)
        requires
            0 <= x <= 0xffff_ffff_ffff_ffff,
            0 <= y <= 0xffff_ffff_ffff_ffff,
    ;
}

/// Moving `c / d` to the other side of `a / b > c / d + e / f`.
proof fn lemma_excess(a: int, b: int, c: int, d: int, e: int, f: int)
    requires
        b > 0,
        d > 0,
        f > 0,
        e >= 0,
    ensures
        (a * d * f > (c * f + e * d) * b) == ((a * d - c * b) * f > e * (b * d)),
        a * d <= c * b ==> !(a * d * f > (c * f + e * d) * b),
{
    assert(a * d * f - (c * f + e * d) * b == (a * d - c * b) * f - e * (b * d))
        by (nonlinear_arith);
    if a * d <= c * b {
        assert((a * d - c * b) * f <= 0) by (nonlinear_arith)
            requires
                a * d - c * b <= 0,
                f > 0,
        ;
        assert(e * (b * d) >= 0) by (nonlinear_arith)
            requires
                e >= 0,
                b > 0,
                d > 0,
        ;
    }
}

/// Whether `x / y > e / f`, without forming a product: compare the whole parts,
/// then the reciprocals of the remainders.
fn exceeds(x: u128, y: u128, e: u128, f: u128) -> (r: bool)
    requires
        y > 0,
        f > 0,
    ensures
        r == (x * f > e * y),
    decreases y + f,
{
    let q: u128 = x / y;
    let s: u128 = e / f;
    let u: u128 = x % y;
    let v: u128 = e % f;
    proof {
        lemma_split(x as int, y as int, e as int, f as int);
        assert(u * f >= 0) by (nonlinear_arith)
            requires
                u >= 0,
                f > 0,
        ;
    }
    if q != s {
        return q > s;
    }
    if u == 0 {
        assert(v * y >= 0 && u * f == 0) by (nonlinear_arith)
            requires
                u == 0,
                v >= 0,
                y > 0,
        ;
        return false;
    }
    if v == 0 {
        assert(u * f > 0 && v * y == 0) by (nonlinear_arith)
            requires
                u > 0,
                v == 0,
                f > 0,
        ;
        return true;
    }
    proof {
        vstd::arithmetic::mul::lemma_mul_is_commutative(u as int, f as int);
        vstd::arithmetic::mul::lemma_mul_is_commutative(v as int, y as int);
    }
    exceeds(f, v, y, u)
}

/// Splitting off the whole parts of `x / y` and `e / f`.
proof fn lemma_split(x: int, y: int, e: int, f: int)
    requires
        x >= 0,
        y > 0,
        e >= 0,
        f > 0,
    ensures
        x / y > e / f ==> x * f > e * y,
        x / y < e / f ==> x * f < e * y,
        x / y == e / f ==> (x * f > e * y) == ((x % y) * f > (e % f) * y),
        0 <= x % y < y,
        0 <= e % f < f,
{
    let q = x / y;
    let s = e / f;
    let u = x % y;
    let v = e % f;
    vstd::arithmetic::div_mod::lemma_fundamental_div_mod(x, y);
    vstd::arithmetic::div_mod::lemma_fundamental_div_mod(e, f);
    assert(0 <= u < y && 0 <= v < f);
    assert(x * f - e * y == (q - s) * (y * f) + (u * f - v * y)) by (nonlinear_arith)
        requires
            x == y * q + u,
            e == f * s + v,
    ;
    assert(-(y * f) < u * f - v * y < y * f) by (nonlinear_arith)
        requires
            0 <= u < y,
            0 <= v < f,
    ;
    if q == s {
        assert((q - s) * (y * f) == 0) by (nonlinear_arith)
            requires
                q == s,
        ;
    }
    if q > s {
        assert((q - s) * (y * f) >= y * f) by (nonlinear_arith)
            requires
                q - s >= 1,
                y > 0,
                f > 0,
        ;
    }
    if q < s {
        assert((q - s) * (y * f) <= -(y * f)) by (nonlinear_arith)
            requires
                q - s <= -1,
                y > 0,
                f > 0,
        ;
    }
}

/// A percentage is the whole number nearest to a hundred times the score, the even one
/// where two are as near.
pub proof fn lemma_percent_is_nearest(score: Ratio)
    ensures
        score.spec_percent() >= 0,
        ({
            let (p, t, b) = (score.spec_percent(), score.top(), score.bottom());
            &&& 2 * (100 * t - p * b) <= b
            &&& 2 * (p * b - 100 * t) <= b
            &&& 2 * (100 * t - p * b) == b || 2 * (p * b - 100 * t) == b ==> p % 2 == 0
        }),
{
    let (t, b) = (score.top(), score.bottom());
    let (whole, rest) = (100 * t / b, 100 * t % b);
    assert(100 * t == whole * b + rest && 0 <= rest < b && whole >= 0) by (nonlinear_arith)
        requires
            whole == 100 * t / b,
            rest == 100 * t % b,
            t >= 0,
            b > 0,
    ;
    assert((whole + 1) * b == whole * b + b) by (nonlinear_arith);
}

/// Scores are compared as the quotients that they are: crosswise, whatever they are out
/// of. Nothing out of nothing counts as out of one.
pub proof fn lemma_scores_compare_crosswise(a: Ratio, b: Ratio)
    requires
        a.den > 0,
        b.den > 0,
    ensures
        a.le(b) <==> a.num * b.den <= b.num * a.den,
        a.same(b) <==> a.num * b.den == b.num * a.den,
        a.le(b) && b.le(a) <==> a.same(b),
{
}

/// A score exceeds another by more than a margin exactly where it does as a number, over
/// the product of the three denominators.
pub proof fn lemma_excess_is_over_the_margin(score: Ratio, base: Ratio, margin: Ratio)
    requires
        score.den > 0,
        base.den > 0,
        margin.den > 0,
    ensures
        score.beyond(base, margin) <==> score.num * base.den * margin.den > (base.num * margin.den
            + margin.num * base.den) * score.den,
        score.den == base.den && base.den == margin.den ==> (score.beyond(base, margin)
            <==> score.num > base.num + margin.num),
{
    let (x, y, z) = (score.num as int, base.num as int, margin.num as int);
    let d = score.den as int;
    if score.den == base.den && base.den == margin.den {
        assert(x * d * d > (y * d + z * d) * d <==> x > y + z) by (nonlinear_arith)
            requires
                d > 0,
        ;
    }
}

// ------------------------------------------------------------------ written numbers

/// How many digits behind the point are read.
pub const FRACTION_DIGITS: usize = 18;

/// All characters are digits.
pub open spec fn all_digits(s: Seq<char>) -> bool {
    forall|i: int| 0 <= i < s.len() ==> '0' <= #[trigger] s[i] <= '9'
}

/// The number that digits write.
pub open spec fn digits_value(s: Seq<char>) -> nat
    decreases s.len(),
{
    if s.len() == 0 {
        0
    } else {
        10 * digits_value(s.drop_last()) + (s.last() as nat - '0' as nat) as nat
    }
}

/// A power of ten.
pub open spec fn ten_to(n: nat) -> nat
    decreases n,
{
    if n == 0 {
        1
    } else {
        10 * ten_to((n - 1) as nat)
    }
}

/// A number, or the greatest that a count can hold.
pub open spec fn held_in_count(n: nat) -> nat {
    if n <= u64::MAX {
        n
    } else {
        u64::MAX as nat
    }
}

/// Digits, and optionally a point and more digits.
pub open spec fn is_plain_decimal(s: Seq<char>) -> bool {
    let point = next_place(s, '.', 0);
    &&& point > 0
    &&& all_digits(s.take(point))
    &&& point < s.len() ==> point + 1 < s.len() && all_digits(s.skip(point + 1))
}

/// The digits of a plain decimal number, up to the last that is read.
pub open spec fn read_digits(s: Seq<char>) -> Seq<char> {
    let point = next_place(s, '.', 0);
    s.take(point) + read_fraction(s)
}

/// The digits behind the point, up to the last that is read.
pub open spec fn read_fraction(s: Seq<char>) -> Seq<char> {
    let point = next_place(s, '.', 0);
    if point >= s.len() {
        Seq::empty()
    } else if s.len() - point - 1 <= FRACTION_DIGITS {
        s.skip(point + 1)
    } else {
        s.subrange(point + 1, point + 1 + FRACTION_DIGITS)
    }
}

/// All digits of a plain decimal number are zero.
pub open spec fn is_zero(s: Seq<char>) -> bool {
    forall|i: int| 0 <= i < s.len() ==> #[trigger] s[i] == '0' || s[i] == '.'
}

/// The score that a decimal number writes, if it writes one: a number of at least
/// zero, so that a minus sign stands before a zero only. A number above zero whose
/// digits all stand too far behind the point to be read is the least score above zero.
pub open spec fn decimal_ratio(s: Seq<char>) -> Option<Ratio> {
    let minus = s.len() > 0 && s[0] == '-';
    let plain = if minus {
        s.skip(1)
    } else {
        s
    };
    if !is_plain_decimal(plain) || (minus && !is_zero(plain)) {
        None
    } else if digits_value(read_digits(plain)) == 0 && !is_zero(plain) {
        Some(Ratio { num: 1, den: u64::MAX })
    } else {
        Some(
            Ratio {
                num: held_in_count(digits_value(read_digits(plain))) as u64,
                den: ten_to(read_fraction(plain).len()) as u64,
            },
        )
    }
}

/// Only zeros write zero.
proof fn lemma_digits_of_zero(s: Seq<char>)
    requires
        all_digits(s),
        digits_value(s) == 0,
    ensures
        forall|i: int| 0 <= i < s.len() ==> #[trigger] s[i] == '0',
    decreases s.len(),
{
    if s.len() > 0 {
        let front = s.drop_last();
        assert(all_digits(front));
        lemma_digits_of_zero(front);
        assert(s.last() == s[s.len() - 1]);
        assert forall|i: int| 0 <= i < s.len() implies #[trigger] s[i] == '0' by {
            if i < s.len() - 1 {
                assert(front[i] == s[i]);
            }
        }
    }
}

proof fn lemma_ten_to(n: nat)
    requires
        n <= FRACTION_DIGITS,
    ensures
        1 <= ten_to(n) <= 1_000_000_000_000_000_000,
{
    assert(ten_to(18) == 1_000_000_000_000_000_000) by {
        reveal_with_fuel(ten_to, 19);
    }
    lemma_ten_to_grows(n, 18);
}

proof fn lemma_ten_to_grows(n: nat, m: nat)
    requires
        n <= m,
    ensures
        1 <= ten_to(n) <= ten_to(m),
    decreases m,
{
    if n < m {
        lemma_ten_to_grows(n, (m - 1) as nat);
    } else if n > 0 {
        lemma_ten_to_grows((n - 1) as nat, (m - 1) as nat);
    }
}

/// Read digits into a count, as far as it holds them.
fn read_number(start: u64, chars: &[char], lo: usize, hi: usize, Ghost(front): Ghost<Seq<char>>) -> (n: u64)
    requires
        lo <= hi <= chars@.len(),
        all_digits(chars@.subrange(lo as int, hi as int)),
        start == held_in_count(digits_value(front)),
    ensures
        n == held_in_count(digits_value(front + chars@.subrange(lo as int, hi as int))),
{
    let mut n: u64 = start;
    let mut i: usize = lo;
    assert(front + chars@.subrange(lo as int, lo as int) =~= front);
    while i < hi
        invariant
            lo <= i <= hi <= chars@.len(),
            all_digits(chars@.subrange(lo as int, hi as int)),
            n == held_in_count(digits_value(front + chars@.subrange(lo as int, i as int))),
        decreases hi - i,
    {
        let c: char = chars[i];
        let ghost here = front + chars@.subrange(lo as int, i + 1);
        proof {
            assert(chars@.subrange(lo as int, hi as int)[i - lo] == c);
            assert(here.drop_last() =~= front + chars@.subrange(lo as int, i as int));
            assert(here.last() == c);
        }
        let d: u64 = (c as u32 - '0' as u32) as u64;
        let next: u128 = n as u128 * 10 + d as u128;
        n = if next <= u64::MAX as u128 {
            next as u64
        } else {
            u64::MAX
        };
        i += 1;
    }
    n
}

/// Whether all characters between two places are digits.
fn only_digits(chars: &[char], lo: usize, hi: usize) -> (r: bool)
    requires
        lo <= hi <= chars@.len(),
    ensures
        r == all_digits(chars@.subrange(lo as int, hi as int)),
{
    let ghost s = chars@.subrange(lo as int, hi as int);
    let mut i: usize = lo;
    while i < hi
        invariant
            lo <= i <= hi <= chars@.len(),
            s == chars@.subrange(lo as int, hi as int),
            forall|k: int| 0 <= k < i - lo ==> '0' <= #[trigger] s[k] <= '9',
        decreases hi - i,
    {
        if chars[i] < '0' || chars[i] > '9' {
            assert(s[i - lo] == chars@[i as int]);
            return false;
        }
        i += 1;
    }
    true
}

/// Whether all characters from a place on are zeros, or points.
fn only_zeros(chars: &[char], lo: usize) -> (r: bool)
    requires
        lo <= chars@.len(),
    ensures
        r == is_zero(chars@.skip(lo as int)),
{
    let ghost s = chars@.skip(lo as int);
    let mut i: usize = lo;
    while i < chars.len()
        invariant
            lo <= i <= chars@.len(),
            s == chars@.skip(lo as int),
            forall|k: int| 0 <= k < i - lo ==> #[trigger] s[k] == '0' || s[k] == '.',
        decreases chars.len() - i,
    {
        if chars[i] != '0' && chars[i] != '.' {
            assert(s[i - lo] == chars@[i as int]);
            return false;
        }
        i += 1;
    }
    true
}

/// A place found from a later start on is found in the rest as well.
proof fn lemma_next_place_skip(s: Seq<char>, c: char, lo: int, from: int)
    requires
        0 <= lo <= from <= s.len(),
    ensures
        next_place(s.skip(lo), c, from - lo) == next_place(s, c, from) - lo,
    decreases s.len() - from,
{
    if from < s.len() {
        assert(s.skip(lo)[from - lo] == s[from]);
        if s[from] != c {
            lemma_next_place_skip(s, c, lo, from + 1);
        }
    }
}

fn power_of_ten(n: usize) -> (t: u64)
    requires
        n <= FRACTION_DIGITS,
    ensures
        t == ten_to(n as nat),
{
    let mut t: u64 = 1;
    let mut i: usize = 0;
    while i < n
        invariant
            i <= n <= FRACTION_DIGITS,
            t == ten_to(i as nat),
        decreases n - i,
    {
        proof {
            lemma_ten_to((i + 1) as nat);
        }
        t = t * 10;
        i += 1;
    }
    t
}

impl Ratio {
    /// The score that a decimal number writes, if it writes one. Digits past the
    /// eighteenth behind the point are dropped; where that leaves nothing of a number
    /// above zero, it is the least score above zero.
    pub fn from_decimal(text: &str) -> (r: Option<Ratio>)
        ensures
            r == decimal_ratio(text@),
    {
        let chars = chars_of(text);
        let n: usize = chars.len();
        let minus: bool = n > 0 && chars[0] == '-';
        let lo: usize = if minus {
            1
        } else {
            0
        };
        let ghost plain = text@.skip(lo as int);
        assert(text@.skip(0) =~= text@);
        let point: usize = find_next(chars.as_slice(), '.', lo);
        proof {
            lemma_next_place_skip(text@, '.', lo as int, lo as int);
            assert(plain.take(point - lo) =~= text@.subrange(lo as int, point as int));
        }
        if point == lo || !only_digits(chars.as_slice(), lo, point) {
            return None;
        }
        let whole: u64 = read_number(0, chars.as_slice(), lo, point, Ghost(Seq::empty()));
        proof {
            assert(Seq::empty() + text@.subrange(lo as int, point as int) =~= plain.take(point - lo));
        }
        if point == n {
            if minus && !only_zeros(chars.as_slice(), lo) {
                return None;
            }
            assert(read_digits(plain) =~= plain);
            assert(plain.take(point - lo) =~= plain);
            proof {
                if digits_value(plain) == 0 {
                    lemma_digits_of_zero(plain);
                }
            }
            return Some(Ratio { num: whole, den: 1 });
        }
        let behind: usize = point + 1;
        assert(plain.skip(behind - lo) =~= text@.subrange(behind as int, n as int));
        if behind == n || !only_digits(chars.as_slice(), behind, n) {
            return None;
        }
        if minus && !only_zeros(chars.as_slice(), lo) {
            return None;
        }
        let k: usize = if n - behind <= FRACTION_DIGITS {
            n - behind
        } else {
            FRACTION_DIGITS
        };
        proof {
            assert(read_fraction(plain) =~= text@.subrange(behind as int, behind + k));
            let all = text@.subrange(behind as int, n as int);
            assert forall|i: int| 0 <= i < k implies '0' <= #[trigger] text@.subrange(
                behind as int,
                behind + k,
            )[i] <= '9' by {
                assert(all[i] == text@.subrange(behind as int, behind + k)[i]);
            }
        }
        let num: u64 = read_number(
            whole,
            chars.as_slice(),
            behind,
            behind + k,
            Ghost(plain.take(point - lo)),
        );
        if num == 0 && !only_zeros(chars.as_slice(), lo) {
            return Some(Ratio { num: 1, den: u64::MAX });
        }
        Some(Ratio { num, den: power_of_ten(k) })
    }
}

/// What a number is written as reads as that number.
pub proof fn lemma_digits_read_as_written(n: nat)
    ensures
        digits_value(decimal(n)) == n,
    decreases n,
{
    lemma_decimal_is_digits(n);
    if n >= 10 {
        lemma_digits_read_as_written(n / 10);
        lemma_decimal_counts_in_tens(n / 10, n % 10);
        let d = ('0' as nat + n % 10) as char;
        assert(decimal(n) == decimal(n / 10).push(d));
        assert(decimal(n).drop_last() =~= decimal(n / 10));
        assert(decimal(n).last() == d);
    } else {
        lemma_decimal_counts_in_tens(1, n);
        let d = ('0' as nat + n) as char;
        assert(decimal(n).last() == d);
        assert(decimal(n).drop_last() =~= Seq::empty());
        assert(digits_value(decimal(n).drop_last()) == 0);
    }
}

/// Some zeros.
pub open spec fn zeros(n: nat) -> Seq<char> {
    Seq::new(n, |i: int| '0')
}

proof fn lemma_value_of_two_parts(a: Seq<char>, b: Seq<char>)
    ensures
        digits_value(a + b) == digits_value(a) * pow(10, b.len()) + digits_value(b),
    decreases b.len(),
{
    reveal(pow);
    if b.len() == 0 {
        assert(a + b =~= a);
        assert(digits_value(a) * 1 == digits_value(a)) by (nonlinear_arith);
    } else {
        let front = b.drop_last();
        lemma_value_of_two_parts(a, front);
        assert((a + b).drop_last() =~= a + front);
        assert((a + b).last() == b.last());
        let (x, p, y) = (digits_value(a) as int, pow(10, front.len()), digits_value(front) as int);
        assert(10 * (x * p + y) == x * (10 * p) + 10 * y) by (nonlinear_arith);
        assert(pow(10, b.len()) == 10 * p);
    }
}

proof fn lemma_ten_to_is_a_power(n: nat)
    ensures
        ten_to(n) == pow(10, n),
    decreases n,
{
    reveal(pow);
    if n > 0 {
        lemma_ten_to_is_a_power((n - 1) as nat);
    }
}

proof fn lemma_zeros_count_for_nothing(n: nat)
    ensures
        digits_value(zeros(n)) == 0,
    decreases n,
{
    if n > 0 {
        assert(zeros(n).drop_last() =~= zeros((n - 1) as nat));
        lemma_zeros_count_for_nothing((n - 1) as nat);
    }
}

/// A decimal number reads as the number it writes: what stands before the point counts
/// ones, and what stands behind it as many tenths of tenths as there are digits. So far as
/// a count holds that, and with no more digits behind the point than are read.
pub proof fn lemma_decimals_read_as_written(whole: nat, lead: nat, fraction: nat)
    requires
        lead + decimal(fraction).len() <= 18,
        whole * pow(10, lead + decimal(fraction).len()) + fraction <= u64::MAX,
    ensures
        whole <= u64::MAX ==> decimal_ratio(decimal(whole)) == Some(
            Ratio { num: whole as u64, den: 1 },
        ),
        decimal_ratio(decimal(whole) + seq!['.'] + zeros(lead) + decimal(fraction)) matches Some(r)
            && r.num == whole * pow(10, lead + decimal(fraction).len()) + fraction && r.den == pow(
            10,
            lead + decimal(fraction).len(),
        ),
        whole > 0 ==> decimal_ratio(seq!['-'] + decimal(whole)) is None,
{
    let front = decimal(whole);
    let back = zeros(lead) + decimal(fraction);
    let s = decimal(whole) + seq!['.'] + zeros(lead) + decimal(fraction);
    assert(s =~= front + seq!['.'] + back);
    let w = front.len() as int;
    lemma_decimal_is_digits(whole);
    lemma_decimal_is_digits(fraction);
    lemma_digits_read_as_written(whole);
    lemma_digits_read_as_written(fraction);
    lemma_zeros_count_for_nothing(lead);
    lemma_value_of_two_parts(zeros(lead), decimal(fraction));
    lemma_value_of_two_parts(front, back);
    lemma_ten_to_is_a_power(back.len());
    lemma_ten_to(back.len());
    assert(0 * pow(10, decimal(fraction).len()) == 0) by (nonlinear_arith);
    assert(digits_value(back) == fraction);
    assert forall|i: int| 0 <= i < w implies '0' <= #[trigger] s[i] <= '9' by {
        assert(s[i] == front[i]);
    }
    assert forall|i: int| w < i < s.len() implies '0' <= #[trigger] s[i] <= '9' by {
        assert(s[i] == back[i - w - 1]);
        if i - w - 1 >= lead {
            assert(back[i - w - 1] == decimal(fraction)[i - w - 1 - lead]);
        }
    }
    assert(s[w] == '.');
    lemma_next_is_first(s, '.', 0);
    let point = next_place(s, '.', 0);
    assert(point == w) by {
        if point < w {
            assert('0' <= s[point] <= '9');
        }
    }
    assert(s.take(w) =~= front);
    assert(s.skip(w + 1) =~= back);
    assert(s[0] == front[0]);
    assert(all_digits(front) && all_digits(back));
    assert(is_plain_decimal(s));
    assert(read_fraction(s) == back);
    assert(read_digits(s) =~= front + back);
    let v = digits_value(front + back);
    assert(v == whole * pow(10, back.len()) + fraction);
    if v == 0 {
        assert(all_digits(front + back));
        lemma_digits_of_zero(front + back);
        assert forall|i: int| 0 <= i < s.len() implies #[trigger] s[i] == '0' || s[i] == '.' by {
            if i < w {
                assert((front + back)[i] == s[i]);
            } else if i > w {
                assert((front + back)[i - 1] == s[i]);
            }
        }
        assert(is_zero(s));
    }
    lemma_next_is_first(front, '.', 0);
    assert(next_place(front, '.', 0) == w) by {
        if next_place(front, '.', 0) < w {
            assert('0' <= front[next_place(front, '.', 0)] <= '9');
        }
    }
    assert(front.take(w) =~= front);
    assert(read_fraction(front) =~= Seq::empty());
    assert(read_digits(front) =~= front);
    assert(ten_to(0) == 1);
    if whole == 0 {
        lemma_digits_of_zero(front);
        assert(is_zero(front));
    }
    let minus = seq!['-'] + front;
    assert(minus.skip(1) =~= front);
    if whole > 0 && is_zero(front) {
        assert forall|i: int| 0 <= i < front.len() implies #[trigger] front[i] == '0' by {
            assert('0' <= front[i] <= '9');
        }
        assert(front =~= zeros(front.len()));
        lemma_zeros_count_for_nothing(front.len());
    }
}

/// Nothing reads as a score but digits with at most one point among them, not at either
/// end, and a minus sign before a zero.
pub proof fn lemma_only_decimals_are_read(s: Seq<char>)
    requires
        decimal_ratio(s) is Some,
    ensures
        s.len() > 0,
        '0' <= s.last() <= '9',
        '0' <= s[0] <= '9' || (s[0] == '-' && forall|i: int|
            0 < i < s.len() ==> #[trigger] s[i] == '0' || s[i] == '.'),
        forall|i: int| 0 < i < s.len() ==> '0' <= #[trigger] s[i] <= '9' || s[i] == '.',
        forall|i: int, j: int|
            0 <= i < j < s.len() && #[trigger] s[i] == '.' ==> #[trigger] s[j] != '.',
{
    let minus = s.len() > 0 && s[0] == '-';
    let lo: int = if minus {
        1
    } else {
        0
    };
    let plain = if minus {
        s.skip(1)
    } else {
        s
    };
    lemma_next_is_first(plain, '.', 0);
    let point = next_place(plain, '.', 0);
    let (front, back) = (plain.take(point), plain.skip(point + 1));
    assert forall|i: int| 0 <= i < plain.len() && i != point implies '0' <= #[trigger] plain[i]
        <= '9' by {
        if i < point {
            assert(front[i] == plain[i]);
        } else {
            assert(back[i - point - 1] == plain[i]);
        }
    }
    assert forall|i: int| lo <= i < s.len() implies #[trigger] s[i] == plain[i - lo] by {}
    assert(s.last() == s[s.len() - 1]);
    assert('0' <= plain[plain.len() - 1] <= '9');
    assert('0' <= plain[0] <= '9');
}

} // verus!
