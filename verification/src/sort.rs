//! Stable sorting.
//!
//! An [`Order`] says how values rank, over their views; [`sort`] puts a list in
//! that order and leaves level elements in the order they came.

use vstd::prelude::*;

verus! {

/// A way to put values in order, by what they hold.
pub trait Order<T: View>: Sized {
    /// `a` may stand before `b`.
    spec fn precedes(a: T::V, b: T::V) -> bool;

    /// Any two values can be put in order.
    proof fn lemma_total(a: T::V, b: T::V)
        ensures
            Self::precedes(a, b) || Self::precedes(b, a),
    ;

    /// The order carries over.
    proof fn lemma_transitive(a: T::V, b: T::V, c: T::V)
        requires
            Self::precedes(a, b),
            Self::precedes(b, c),
        ensures
            Self::precedes(a, c),
    ;

    /// Whether `a` may stand before `b`.
    fn may_precede(a: &T, b: &T) -> (r: bool)
        ensures
            r == Self::precedes(a@, b@),
    ;
}

/// What the elements of a list hold.
pub open spec fn views<T: View>(s: Seq<T>) -> Seq<T::V> {
    Seq::new(s.len(), |i: int| s[i]@)
}

/// The values level with `y`.
pub open spec fn level<T: View, O: Order<T>>(y: T::V) -> spec_fn(T::V) -> bool {
    |x: T::V| O::precedes(x, y) && O::precedes(y, x)
}

/// No element stands after one it should follow.
pub open spec fn in_order<T: View, O: Order<T>>(s: Seq<T::V>) -> bool {
    forall|i: int, j: int| 0 <= i < j < s.len() ==> O::precedes(#[trigger] s[i], #[trigger] s[j])
}

/// `out` is in order and holds what `input` holds, level elements in the order
/// they had there.
pub open spec fn is_sorting<T: View, O: Order<T>>(out: Seq<T::V>, input: Seq<T::V>) -> bool {
    &&& in_order::<T, O>(out)
    &&& forall|y: T::V| #[trigger] out.filter(level::<T, O>(y)) == input.filter(level::<T, O>(y))
}

/// `input`, sorted stably.
pub open spec fn sorted<T: View, O: Order<T>>(input: Seq<T::V>) -> Seq<T::V> {
    choose|out: Seq<T::V>| is_sorting::<T, O>(out, input)
}

// -------------------------------------------------------------------- filtering

proof fn lemma_filter_one<A>(x: A, p: spec_fn(A) -> bool)
    ensures
        seq![x].filter(p) == (if p(x) {
            seq![x]
        } else {
            Seq::empty()
        }),
{
    reveal(Seq::filter);
    assert(seq![x].drop_last() =~= Seq::empty());
    assert(Seq::<A>::empty().filter(p) =~= Seq::empty());
    assert(Seq::<A>::empty().push(x) =~= seq![x]);
}

proof fn lemma_filter_none<A>(s: Seq<A>, p: spec_fn(A) -> bool)
    requires
        forall|i: int| 0 <= i < s.len() ==> !p(#[trigger] s[i]),
    ensures
        s.filter(p) == Seq::<A>::empty(),
    decreases s.len(),
{
    reveal(Seq::filter);
    if s.len() > 0 {
        lemma_filter_none(s.drop_last(), p);
    }
}

/// A filtered list keeps the first element that passes in front.
proof fn lemma_filter_first<A>(s: Seq<A>, p: spec_fn(A) -> bool)
    requires
        s.len() > 0,
    ensures
        s.filter(p) == (if p(s[0]) {
            seq![s[0]]
        } else {
            Seq::empty()
        }) + s.drop_first().filter(p),
{
    assert(s =~= seq![s[0]] + s.drop_first());
    Seq::filter_distributes_over_add(seq![s[0]], s.drop_first(), p);
    lemma_filter_one(s[0], p);
}

proof fn lemma_filter_last<A>(s: Seq<A>, p: spec_fn(A) -> bool)
    requires
        s.len() > 0,
    ensures
        s.filter(p) == s.drop_last().filter(p) + (if p(s.last()) {
            seq![s.last()]
        } else {
            Seq::empty()
        }),
{
    assert(s =~= s.drop_last() + seq![s.last()]);
    Seq::filter_distributes_over_add(s.drop_last(), seq![s.last()], p);
    lemma_filter_one(s.last(), p);
}

/// What is filtered out of a list was in it and passed.
pub proof fn lemma_filter_member<A>(s: Seq<A>, p: spec_fn(A) -> bool, k: int) -> (i: int)
    requires
        0 <= k < s.filter(p).len(),
    ensures
        0 <= i < s.len(),
        s[i] == s.filter(p)[k],
        p(s[i]),
    decreases s.len(),
{
    reveal(Seq::filter);
    let rest = s.drop_last();
    if k < rest.filter(p).len() {
        lemma_filter_member(rest, p, k)
    } else {
        s.len() - 1
    }
}

/// What passes is kept.
pub proof fn lemma_filter_keeps<A>(s: Seq<A>, p: spec_fn(A) -> bool, x: A)
    requires
        s.contains(x),
        p(x),
    ensures
        s.filter(p).contains(x),
    decreases s.len(),
{
    reveal(Seq::filter);
    let front = s.drop_last();
    let kept = front.filter(p);
    if s.last() == x {
        assert(s.filter(p)[kept.len() as int] == x);
    } else {
        let i = choose|i: int| 0 <= i < s.len() && s[i] == x;
        assert(front[i] == x);
        lemma_filter_keeps(front, p, x);
        let k = choose|k: int| 0 <= k < kept.len() && kept[k] == x;
        assert(s.filter(p)[k] == x);
    }
}

/// Leaving elements out keeps a list in order.
pub proof fn lemma_filter_in_order<T: View, O: Order<T>>(s: Seq<T::V>, p: spec_fn(T::V) -> bool)
    requires
        in_order::<T, O>(s),
    ensures
        in_order::<T, O>(s.filter(p)),
    decreases s.len(),
{
    reveal(Seq::filter);
    if s.len() > 0 {
        let front = s.drop_last();
        lemma_filter_in_order::<T, O>(front, p);
        let kept = front.filter(p);
        let all = s.filter(p);
        assert forall|i: int, j: int| 0 <= i < j < all.len() implies O::precedes(
            #[trigger] all[i],
            #[trigger] all[j],
        ) by {
            assert(all[i] == kept[i]);
            if j < kept.len() {
                assert(all[j] == kept[j]);
            } else {
                let k = lemma_filter_member(front, p, i);
                assert(s[k] == all[i]);
                assert(s[s.len() - 1] == all[j]);
            }
        }
    }
}

proof fn lemma_reflexive<T: View, O: Order<T>>(x: T::V)
    ensures
        O::precedes(x, x),
        level::<T, O>(x)(x),
{
    O::lemma_total(x, x);
}

// ------------------------------------------------------------------- uniqueness

/// There is only one way to sort a list stably.
pub proof fn lemma_sorting_unique<T: View, O: Order<T>>(one: Seq<T::V>, other: Seq<T::V>, input: Seq<T::V>)
    requires
        is_sorting::<T, O>(one, input),
        is_sorting::<T, O>(other, input),
    ensures
        one == other,
{
    assert forall|y: T::V| #[trigger] one.filter(level::<T, O>(y)) == other.filter(level::<T, O>(y)) by {
        assert(other.filter(level::<T, O>(y)) == input.filter(level::<T, O>(y)));
    }
    lemma_same_classes::<T, O>(one, other);
}

proof fn lemma_same_classes<T: View, O: Order<T>>(one: Seq<T::V>, other: Seq<T::V>)
    requires
        in_order::<T, O>(one),
        in_order::<T, O>(other),
        forall|y: T::V| #[trigger] one.filter(level::<T, O>(y)) == other.filter(level::<T, O>(y)),
    ensures
        one == other,
    decreases one.len(),
{
    if one.len() == 0 {
        if other.len() > 0 {
            let y = other[0];
            lemma_reflexive::<T, O>(y);
            lemma_filter_first(other, level::<T, O>(y));
            lemma_filter_none(one, level::<T, O>(y));
            assert(one.filter(level::<T, O>(y)) == other.filter(level::<T, O>(y)));
        }
        assert(one =~= other);
    } else {
        let x = one[0];
        lemma_reflexive::<T, O>(x);
        lemma_filter_first(one, level::<T, O>(x));
        assert(one.filter(level::<T, O>(x)) == other.filter(level::<T, O>(x)));
        let i = lemma_filter_member(other, level::<T, O>(x), 0);
        let y = other[0];
        lemma_reflexive::<T, O>(y);
        lemma_filter_first(other, level::<T, O>(y));
        assert(one.filter(level::<T, O>(y)) == other.filter(level::<T, O>(y)));
        let j = lemma_filter_member(one, level::<T, O>(y), 0);
        // `y` stands before an element level with `x`, and `x` before one level with `y`.
        assert(O::precedes(y, other[i]));
        O::lemma_transitive(y, other[i], x);
        assert(O::precedes(x, one[j]));
        O::lemma_transitive(x, one[j], y);
        lemma_filter_first(other, level::<T, O>(x));
        assert(one.filter(level::<T, O>(x))[0] == x);
        assert(other.filter(level::<T, O>(x))[0] == y);
        let (rest, others) = (one.drop_first(), other.drop_first());
        assert forall|z: T::V| #[trigger] rest.filter(level::<T, O>(z)) == others.filter(
            level::<T, O>(z),
        ) by {
            lemma_filter_first(one, level::<T, O>(z));
            lemma_filter_first(other, level::<T, O>(z));
            assert(one.filter(level::<T, O>(z)) == other.filter(level::<T, O>(z)));
            let head = if level::<T, O>(z)(x) {
                seq![x]
            } else {
                Seq::empty()
            };
            assert((head + rest.filter(level::<T, O>(z))).skip(head.len() as int) =~= rest.filter(
                level::<T, O>(z),
            ));
            assert((head + others.filter(level::<T, O>(z))).skip(head.len() as int)
                =~= others.filter(level::<T, O>(z)));
        }
        lemma_same_classes::<T, O>(rest, others);
        assert(one =~= seq![x] + rest);
        assert(other =~= seq![y] + others);
    }
}

/// What was sorted is the sorting.
pub proof fn lemma_sorted_is<T: View, O: Order<T>>(out: Seq<T::V>, input: Seq<T::V>)
    requires
        is_sorting::<T, O>(out, input),
    ensures
        sorted::<T, O>(input) == out,
{
    lemma_sorting_unique::<T, O>(sorted::<T, O>(input), out, input);
}

/// Every element of `s` may stand before `z`.
spec fn all_precede<T: View, O: Order<T>>(s: Seq<T::V>, z: T::V) -> bool {
    forall|i: int| 0 <= i < s.len() ==> O::precedes(#[trigger] s[i], z)
}

/// Putting `x` into a sorted list, behind everything level with it.
proof fn lemma_insert<T: View, O: Order<T>>(s: Seq<T::V>, x: T::V) -> (r: Seq<T::V>)
    requires
        in_order::<T, O>(s),
    ensures
        is_sorting::<T, O>(r, s.push(x)),
        r.len() == s.len() + 1,
        forall|z: T::V|
            #[trigger] all_precede::<T, O>(s, z) && O::precedes(x, z) ==> all_precede::<T, O>(r, z),
    decreases s.len(),
{
    if s.len() == 0 || O::precedes(s.last(), x) {
        let r = s.push(x);
        assert forall|i: int, j: int| 0 <= i < j < r.len() implies O::precedes(
            #[trigger] r[i],
            #[trigger] r[j],
        ) by {
            if j == s.len() && i < s.len() - 1 {
                O::lemma_transitive(s[i], s.last(), x);
            }
        }
        r
    } else {
        let (front, y) = (s.drop_last(), s.last());
        assert(in_order::<T, O>(front)) by {
            assert forall|i: int, j: int| 0 <= i < j < front.len() implies O::precedes(
                #[trigger] front[i],
                #[trigger] front[j],
            ) by {
                assert(O::precedes(s[i], s[j]));
            }
        }
        O::lemma_total(x, y);
        let inner = lemma_insert::<T, O>(front, x);
        let r = inner.push(y);
        assert(all_precede::<T, O>(front, y)) by {
            assert forall|i: int| 0 <= i < front.len() implies O::precedes(
                #[trigger] front[i],
                y,
            ) by {
                assert(O::precedes(s[i], s[s.len() - 1]));
            }
        }
        assert(all_precede::<T, O>(inner, y));
        assert(in_order::<T, O>(r));
        assert forall|z: T::V| #[trigger] r.filter(level::<T, O>(z)) == s.push(x).filter(
            level::<T, O>(z),
        ) by {
            let p = level::<T, O>(z);
            lemma_filter_last(r, p);
            assert(r.drop_last() =~= inner);
            assert(inner.filter(p) == front.push(x).filter(p));
            lemma_filter_last(front.push(x), p);
            assert(front.push(x).drop_last() =~= front);
            lemma_filter_last(s.push(x), p);
            assert(s.push(x).drop_last() =~= s);
            lemma_filter_last(s, p);
            if p(x) && p(y) {
                O::lemma_transitive(y, z, x);
            }
            assert(r.filter(p) =~= s.push(x).filter(p));
        }
        assert forall|z: T::V| #[trigger] all_precede::<T, O>(s, z) && O::precedes(
            x,
            z,
        ) implies all_precede::<T, O>(r, z) by {
            assert(all_precede::<T, O>(front, z)) by {
                assert forall|i: int| 0 <= i < front.len() implies O::precedes(
                    #[trigger] front[i],
                    z,
                ) by {
                    assert(O::precedes(s[i], z));
                }
            }
            assert(O::precedes(s[s.len() - 1], z));
        }
        r
    }
}

/// Every list can be sorted stably.
pub proof fn lemma_sorted<T: View, O: Order<T>>(input: Seq<T::V>)
    ensures
        is_sorting::<T, O>(sorted::<T, O>(input), input),
        sorted::<T, O>(input).len() == input.len(),
    decreases input.len(),
{
    if input.len() == 0 {
        assert(is_sorting::<T, O>(input, input));
        lemma_sorted_is::<T, O>(input, input);
    } else {
        let (front, x) = (input.drop_last(), input.last());
        lemma_sorted::<T, O>(front);
        let s = sorted::<T, O>(front);
        let r = lemma_insert::<T, O>(s, x);
        assert forall|y: T::V| #[trigger] r.filter(level::<T, O>(y)) == input.filter(
            level::<T, O>(y),
        ) by {
            let p = level::<T, O>(y);
            assert(r.filter(p) == s.push(x).filter(p));
            lemma_filter_last(s.push(x), p);
            assert(s.push(x).drop_last() =~= s);
            lemma_filter_last(input, p);
            assert(s.filter(p) == front.filter(p));
        }
        lemma_sorted_is::<T, O>(r, input);
    }
}

/// A list in order stays as it is.
pub proof fn lemma_sorted_of_sorted<T: View, O: Order<T>>(s: Seq<T::V>)
    requires
        in_order::<T, O>(s),
    ensures
        sorted::<T, O>(s) == s,
{
    lemma_sorted_is::<T, O>(s, s);
}

/// Sorting neither adds nor drops anything.
pub proof fn lemma_sorted_holds<T: View, O: Order<T>>(s: Seq<T::V>, x: T::V)
    ensures
        sorted::<T, O>(s).contains(x) <==> s.contains(x),
{
    lemma_sorted::<T, O>(s);
    let t = sorted::<T, O>(s);
    let same = level::<T, O>(x);
    lemma_reflexive::<T, O>(x);
    assert(t.filter(same) == s.filter(same));
    if t.contains(x) {
        lemma_filter_keeps(t, same, x);
        let k = choose|k: int| 0 <= k < t.filter(same).len() && t.filter(same)[k] == x;
        let i = lemma_filter_member(s, same, k);
        assert(s[i] == x);
    }
    if s.contains(x) {
        lemma_filter_keeps(s, same, x);
        let k = choose|k: int| 0 <= k < s.filter(same).len() && s.filter(same)[k] == x;
        let i = lemma_filter_member(t, same, k);
        assert(t[i] == x);
    }
}

proof fn lemma_filters_commute<A>(s: Seq<A>, p: spec_fn(A) -> bool, q: spec_fn(A) -> bool)
    ensures
        s.filter(p).filter(q) == s.filter(q).filter(p),
    decreases s.len(),
{
    if s.len() > 0 {
        let (front, x) = (s.drop_last(), s.last());
        lemma_filters_commute(front, p, q);
        lemma_filter_last(s, p);
        lemma_filter_last(s, q);
        let (a, b) = (front.filter(p), front.filter(q));
        if p(x) {
            lemma_filter_last(a + seq![x], q);
            assert((a + seq![x]).drop_last() =~= a);
        } else {
            assert(a + Seq::empty() =~= a);
        }
        if q(x) {
            lemma_filter_last(b + seq![x], p);
            assert((b + seq![x]).drop_last() =~= b);
        } else {
            assert(b + Seq::empty() =~= b);
        }
        assert(s.filter(p).filter(q) =~= s.filter(q).filter(p));
    } else {
        lemma_filter_none(s, p);
        lemma_filter_none(s, q);
        assert(s.filter(p) =~= s.filter(q));
        lemma_filter_none(s.filter(p), q);
        lemma_filter_none(s.filter(q), p);
    }
}

/// It does not matter whether elements are left out before sorting or after it.
pub proof fn lemma_filter_of_sorted<T: View, O: Order<T>>(s: Seq<T::V>, p: spec_fn(T::V) -> bool)
    ensures
        sorted::<T, O>(s).filter(p) == sorted::<T, O>(s.filter(p)),
{
    lemma_sorted::<T, O>(s);
    let t = sorted::<T, O>(s);
    lemma_filter_in_order::<T, O>(t, p);
    assert forall|y: T::V| #[trigger] t.filter(p).filter(level::<T, O>(y)) == s.filter(p).filter(
        level::<T, O>(y),
    ) by {
        let q = level::<T, O>(y);
        lemma_filters_commute(t, p, q);
        lemma_filters_commute(s, p, q);
        assert(t.filter(q) == s.filter(q));
    }
    lemma_sorted_is::<T, O>(t.filter(p), s.filter(p));
}

/// Filtering what a list is mapped to is mapping what passes once mapped.
pub proof fn lemma_filter_of_map<A, B>(s: Seq<A>, f: spec_fn(A) -> B, p: spec_fn(B) -> bool)
    ensures
        s.map_values(f).filter(p) == s.filter(|x: A| p(f(x))).map_values(f),
    decreases s.len(),
{
    let through = |x: A| p(f(x));
    if s.len() > 0 {
        let (front, x) = (s.drop_last(), s.last());
        lemma_filter_of_map(front, f, p);
        lemma_filter_last(s, through);
        lemma_filter_last(s.map_values(f), p);
        assert(s.map_values(f).drop_last() =~= front.map_values(f));
        assert(s.map_values(f).filter(p) =~= s.filter(through).map_values(f));
    } else {
        lemma_filter_none(s, through);
        lemma_filter_none(s.map_values(f), p);
        assert(s.map_values(f).filter(p) =~= s.filter(through).map_values(f));
    }
}

/// What the order does not look at can be changed before sorting or after it.
pub proof fn lemma_map_of_sorted<T: View, O: Order<T>>(s: Seq<T::V>, f: spec_fn(T::V) -> T::V)
    requires
        forall|a: T::V, b: T::V| #[trigger] O::precedes(f(a), f(b)) == O::precedes(a, b),
    ensures
        sorted::<T, O>(s).map_values(f) == sorted::<T, O>(s.map_values(f)),
{
    lemma_sorted::<T, O>(s);
    let t = sorted::<T, O>(s);
    let (u, v) = (t.map_values(f), s.map_values(f));
    assert(in_order::<T, O>(u)) by {
        assert forall|i: int, j: int| 0 <= i < j < u.len() implies O::precedes(
            #[trigger] u[i],
            #[trigger] u[j],
        ) by {
            assert(O::precedes(t[i], t[j]));
            assert(O::precedes(f(t[i]), f(t[j])));
        }
    }
    assert forall|y: T::V| #[trigger] u.filter(level::<T, O>(y)) == v.filter(level::<T, O>(y)) by {
        let q = level::<T, O>(y);
        let through = |x: T::V| q(f(x));
        lemma_filter_of_map(t, f, q);
        lemma_filter_of_map(s, f, q);
        if exists|z: T::V| #[trigger] through(z) {
            let z = choose|z: T::V| #[trigger] through(z);
            assert forall|x: T::V| through(x) == #[trigger] level::<T, O>(z)(x) by {
                assert(O::precedes(f(x), f(z)) == O::precedes(x, z));
                assert(O::precedes(f(z), f(x)) == O::precedes(z, x));
                if through(x) {
                    O::lemma_transitive(f(x), y, f(z));
                    O::lemma_transitive(f(z), y, f(x));
                }
                if level::<T, O>(z)(x) {
                    O::lemma_transitive(f(x), f(z), y);
                    O::lemma_transitive(y, f(z), f(x));
                }
            }
            assert(through =~= level::<T, O>(z));
            assert(t.filter(level::<T, O>(z)) == s.filter(level::<T, O>(z)));
        } else {
            assert forall|i: int| 0 <= i < t.len() implies !through(#[trigger] t[i]) by {}
            assert forall|i: int| 0 <= i < s.len() implies !through(#[trigger] s[i]) by {}
            lemma_filter_none(t, through);
            lemma_filter_none(s, through);
        }
    }
    lemma_sorted_is::<T, O>(u, v);
}

// ---------------------------------------------------------------------- merging

/// `left` and `right` are still to be merged in front of `tail`.
spec fn merging<T: View, O: Order<T>>(left: Seq<T::V>, right: Seq<T::V>, tail: Seq<T::V>) -> bool {
    &&& in_order::<T, O>(left)
    &&& in_order::<T, O>(right)
    &&& in_order::<T, O>(tail)
    &&& forall|i: int, j: int|
        0 <= i < left.len() && 0 <= j < tail.len() ==> O::precedes(
            #[trigger] left[i],
            #[trigger] tail[j],
        )
    &&& forall|i: int, j: int|
        0 <= i < right.len() && 0 <= j < tail.len() ==> O::precedes(
            #[trigger] right[i],
            #[trigger] tail[j],
        )
}

/// All three parts, filtered, in the order they end up in.
spec fn parts<T: View, O: Order<T>>(
    left: Seq<T::V>,
    right: Seq<T::V>,
    tail: Seq<T::V>,
    y: T::V,
) -> Seq<T::V> {
    left.filter(level::<T, O>(y)) + right.filter(level::<T, O>(y)) + tail.filter(level::<T, O>(y))
}

proof fn lemma_take_right<T: View, O: Order<T>>(left: Seq<T::V>, right: Seq<T::V>, tail: Seq<T::V>)
    requires
        merging::<T, O>(left, right, tail),
        right.len() > 0,
        left.len() > 0 ==> O::precedes(left.last(), right.last()),
    ensures
        merging::<T, O>(left, right.drop_last(), seq![right.last()] + tail),
        forall|y: T::V|
            #[trigger] parts::<T, O>(left, right.drop_last(), seq![right.last()] + tail, y)
                == parts::<T, O>(left, right, tail, y),
{
    let x = right.last();
    let more = seq![x] + tail;
    assert forall|i: int, j: int| 0 <= i < left.len() && 0 <= j < more.len() implies O::precedes(
        #[trigger] left[i],
        #[trigger] more[j],
    ) by {
        if j == 0 {
            if i < left.len() - 1 {
                O::lemma_transitive(left[i], left.last(), x);
            }
        } else {
            assert(more[j] == tail[j - 1]);
        }
    }
    assert forall|i: int, j: int| 0 <= i < right.drop_last().len() && 0 <= j
        < more.len() implies O::precedes(#[trigger] right.drop_last()[i], #[trigger] more[j]) by {
        assert(right.drop_last()[i] == right[i]);
        if j > 0 {
            assert(more[j] == tail[j - 1]);
        }
    }
    assert forall|i: int, j: int| 0 <= i < j < more.len() implies O::precedes(
        #[trigger] more[i],
        #[trigger] more[j],
    ) by {
        if i == 0 {
            assert(right[right.len() - 1] == x);
            assert(more[j] == tail[j - 1]);
        } else {
            assert(more[i] == tail[i - 1] && more[j] == tail[j - 1]);
        }
    }
    assert(in_order::<T, O>(right.drop_last())) by {
        assert forall|i: int, j: int| 0 <= i < j < right.len() - 1 implies O::precedes(
            #[trigger] right.drop_last()[i],
            #[trigger] right.drop_last()[j],
        ) by {
            assert(O::precedes(right[i], right[j]));
        }
    }
    assert forall|y: T::V| #[trigger]
        parts::<T, O>(left, right.drop_last(), more, y) == parts::<T, O>(left, right, tail, y) by {
        let p = level::<T, O>(y);
        lemma_filter_last(right, p);
        lemma_filter_first(more, p);
        assert(more.drop_first() =~= tail);
        let one = if p(x) {
            seq![x]
        } else {
            Seq::empty()
        };
        assert(left.filter(p) + right.drop_last().filter(p) + (one + tail.filter(p))
            =~= left.filter(p) + (right.drop_last().filter(p) + one) + tail.filter(p));
    }
}

proof fn lemma_take_left<T: View, O: Order<T>>(left: Seq<T::V>, right: Seq<T::V>, tail: Seq<T::V>)
    requires
        merging::<T, O>(left, right, tail),
        left.len() > 0,
        right.len() > 0 ==> !O::precedes(left.last(), right.last()),
    ensures
        merging::<T, O>(left.drop_last(), right, seq![left.last()] + tail),
        forall|y: T::V|
            #[trigger] parts::<T, O>(left.drop_last(), right, seq![left.last()] + tail, y)
                == parts::<T, O>(left, right, tail, y),
{
    let x = left.last();
    let more = seq![x] + tail;
    if right.len() > 0 {
        O::lemma_total(x, right.last());
    }
    assert forall|i: int| 0 <= i < right.len() implies O::precedes(#[trigger] right[i], x)
        && !O::precedes(x, right[i]) by {
        if i < right.len() - 1 {
            O::lemma_transitive(right[i], right.last(), x);
            if O::precedes(x, right[i]) {
                O::lemma_transitive(x, right[i], right.last());
            }
        }
    }
    assert forall|i: int, j: int| 0 <= i < right.len() && 0 <= j < more.len() implies O::precedes(
        #[trigger] right[i],
        #[trigger] more[j],
    ) by {
        if j > 0 {
            assert(more[j] == tail[j - 1]);
        }
    }
    assert forall|i: int, j: int| 0 <= i < left.drop_last().len() && 0 <= j
        < more.len() implies O::precedes(#[trigger] left.drop_last()[i], #[trigger] more[j]) by {
        assert(left.drop_last()[i] == left[i]);
        if j > 0 {
            assert(more[j] == tail[j - 1]);
        }
    }
    assert forall|i: int, j: int| 0 <= i < j < more.len() implies O::precedes(
        #[trigger] more[i],
        #[trigger] more[j],
    ) by {
        if i == 0 {
            assert(left[left.len() - 1] == x);
            assert(more[j] == tail[j - 1]);
        } else {
            assert(more[i] == tail[i - 1] && more[j] == tail[j - 1]);
        }
    }
    assert(in_order::<T, O>(left.drop_last())) by {
        assert forall|i: int, j: int| 0 <= i < j < left.len() - 1 implies O::precedes(
            #[trigger] left.drop_last()[i],
            #[trigger] left.drop_last()[j],
        ) by {
            assert(O::precedes(left[i], left[j]));
        }
    }
    assert forall|y: T::V| #[trigger]
        parts::<T, O>(left.drop_last(), right, more, y) == parts::<T, O>(left, right, tail, y) by {
        let p = level::<T, O>(y);
        lemma_filter_last(left, p);
        lemma_filter_first(more, p);
        assert(more.drop_first() =~= tail);
        if p(x) {
            assert forall|i: int| 0 <= i < right.len() implies !p(#[trigger] right[i]) by {
                if p(right[i]) {
                    O::lemma_transitive(x, y, right[i]);
                }
            }
            lemma_filter_none(right, p);
            assert(left.drop_last().filter(p) + right.filter(p) + (seq![x] + tail.filter(p))
                =~= (left.drop_last().filter(p) + seq![x]) + right.filter(p) + tail.filter(p));
        } else {
            assert(left.drop_last().filter(p) + right.filter(p) + (Seq::empty() + tail.filter(p))
                =~= (left.drop_last().filter(p) + Seq::empty()) + right.filter(p) + tail.filter(p));
        }
    }
}

/// Merge two sorted lists, the first one's elements ahead among level ones.
fn merge<T: View, O: Order<T>>(left: Vec<T>, right: Vec<T>) -> (out: Vec<T>)
    requires
        in_order::<T, O>(views(left@)),
        in_order::<T, O>(views(right@)),
    ensures
        is_sorting::<T, O>(views(out@), views(left@) + views(right@)),
{
    let mut left = left;
    let mut right = right;
    let ghost (first, second) = (views(left@), views(right@));
    let mut backwards: Vec<T> = Vec::new();
    let ghost mut tail: Seq<T::V> = Seq::empty();
    proof {
        assert forall|y: T::V| #[trigger] parts::<T, O>(first, second, tail, y) == (first
            + second).filter(level::<T, O>(y)) by {
            Seq::filter_distributes_over_add(first, second, level::<T, O>(y));
            lemma_filter_none(tail, level::<T, O>(y));
        }
    }
    while left.len() > 0 || right.len() > 0
        invariant
            merging::<T, O>(views(left@), views(right@), tail),
            tail == views(backwards@).reverse(),
            forall|y: T::V|
                #[trigger] parts::<T, O>(views(left@), views(right@), tail, y) == (first
                    + second).filter(level::<T, O>(y)),
        decreases left.len() + right.len(),
    {
        let ghost (l, r) = (views(left@), views(right@));
        let from_right: bool = if left.len() == 0 {
            true
        } else if right.len() == 0 {
            false
        } else {
            O::may_precede(&left[left.len() - 1], &right[right.len() - 1])
        };
        let ghost pushed = views(backwards@);
        if from_right {
            proof {
                lemma_take_right::<T, O>(l, r, tail);
            }
            if let Some(x) = right.pop() {
                backwards.push(x);
            }
            proof {
                tail = seq![r.last()] + tail;
                assert(views(right@) =~= r.drop_last());
                assert(views(backwards@) =~= pushed.push(r.last()));
                assert(tail =~= views(backwards@).reverse());
                assert forall|y: T::V| #[trigger]
                    parts::<T, O>(views(left@), views(right@), tail, y) == (first + second).filter(
                    level::<T, O>(y),
                ) by {
                    assert(parts::<T, O>(l, r, pushed.reverse(), y) == (first + second).filter(
                        level::<T, O>(y),
                    ));
                }
            }
        } else {
            proof {
                lemma_take_left::<T, O>(l, r, tail);
            }
            if let Some(x) = left.pop() {
                backwards.push(x);
            }
            proof {
                tail = seq![l.last()] + tail;
                assert(views(left@) =~= l.drop_last());
                assert(views(backwards@) =~= pushed.push(l.last()));
                assert(tail =~= views(backwards@).reverse());
                assert forall|y: T::V| #[trigger]
                    parts::<T, O>(views(left@), views(right@), tail, y) == (first + second).filter(
                    level::<T, O>(y),
                ) by {
                    assert(parts::<T, O>(l, r, pushed.reverse(), y) == (first + second).filter(
                        level::<T, O>(y),
                    ));
                }
            }
        }
    }
    proof {
        assert forall|y: T::V| #[trigger] tail.filter(level::<T, O>(y)) == (first + second).filter(
            level::<T, O>(y),
        ) by {
            assert(parts::<T, O>(views(left@), views(right@), tail, y) == (first + second).filter(
                level::<T, O>(y),
            ));
            lemma_filter_none(views(left@), level::<T, O>(y));
            lemma_filter_none(views(right@), level::<T, O>(y));
            assert(Seq::empty() + Seq::empty() + tail.filter(level::<T, O>(y)) =~= tail.filter(
                level::<T, O>(y),
            ));
        }
    }
    let mut out: Vec<T> = Vec::new();
    while backwards.len() > 0
        invariant
            tail == views(out@) + views(backwards@).reverse(),
        decreases backwards.len(),
    {
        let ghost (kept, rest) = (views(out@), views(backwards@));
        if let Some(x) = backwards.pop() {
            out.push(x);
        }
        proof {
            assert(views(backwards@) =~= rest.drop_last());
            assert(views(out@) =~= kept.push(rest.last()));
            assert(kept + rest.reverse() =~= views(out@) + views(backwards@).reverse());
        }
    }
    assert(tail =~= views(out@));
    out
}

/// Sort a list, level elements staying in the order they came.
pub fn sort<T: View, O: Order<T>>(input: Vec<T>) -> (out: Vec<T>)
    ensures
        is_sorting::<T, O>(views(out@), views(input@)),
        views(out@) == sorted::<T, O>(views(input@)),
    decreases input.len(),
{
    let n: usize = input.len();
    if n <= 1 {
        proof {
            lemma_sorted_is::<T, O>(views(input@), views(input@));
        }
        return input;
    }
    let mut left = input;
    let ghost whole = views(left@);
    let right = left.split_off(n / 2);
    assert(views(left@) + views(right@) =~= whole);
    let ghost (l, r) = (views(left@), views(right@));
    let left = sort::<T, O>(left);
    let right = sort::<T, O>(right);
    let ghost (sl, sr) = (views(left@), views(right@));
    let out = merge::<T, O>(left, right);
    proof {
        assert forall|y: T::V| #[trigger] views(out@).filter(level::<T, O>(y)) == whole.filter(
            level::<T, O>(y),
        ) by {
            let p = level::<T, O>(y);
            assert(views(out@).filter(p) == (sl + sr).filter(p));
            Seq::filter_distributes_over_add(sl, sr, p);
            Seq::filter_distributes_over_add(l, r, p);
            assert(sl.filter(p) == l.filter(p));
            assert(sr.filter(p) == r.filter(p));
        }
        lemma_sorted_is::<T, O>(views(out@), whole);
    }
    out
}

} // verus!
