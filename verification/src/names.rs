//! Sets of names, kept as alphabetical lists without repetition.

use vstd::prelude::*;
use vstd::string::*;

use crate::sort::{in_order, is_sorting, lemma_filter_member, level, sort, views, Order};
use crate::text::{
    alphabetical, lemma_alphabetical_antisymmetric, lemma_alphabetical_transitive, same_text,
    Alphabetical,
};

verus! {

/// Alphabetical, with nothing in it twice.
pub open spec fn ordered(list: Seq<Seq<char>>) -> bool {
    forall|i: int, j: int|
        0 <= i < j < list.len() ==> alphabetical(#[trigger] list[i], #[trigger] list[j]) && list[i]
            != list[j]
}

/// An alphabetical list of exactly the names in `names`.
pub open spec fn is_set_of(list: Seq<Seq<char>>, names: Set<Seq<char>>) -> bool {
    &&& ordered(list)
    &&& forall|x: Seq<char>| #[trigger] list.contains(x) <==> names.contains(x)
}

/// A set has one such list only.
pub proof fn lemma_set_list_unique(a: Seq<Seq<char>>, b: Seq<Seq<char>>)
    requires
        ordered(a),
        ordered(b),
        forall|x: Seq<char>| #[trigger] a.contains(x) <==> b.contains(x),
    ensures
        a == b,
    decreases a.len(),
{
    if a.len() == 0 {
        if b.len() > 0 {
            assert(b.contains(b[0]));
            assert(a.contains(b[0]));
        }
        assert(a =~= b);
    } else {
        let (x, rest) = (a[0], a.drop_first());
        assert(a.contains(x));
        let k = choose|k: int| 0 <= k < b.len() && b[k] == x;
        assert(b.contains(b[0]));
        assert(a.contains(b[0]));
        let l = choose|l: int| 0 <= l < a.len() && a[l] == b[0];
        if k > 0 {
            assert(alphabetical(b[0], b[k]));
            if l > 0 {
                assert(alphabetical(a[0], a[l]));
                lemma_alphabetical_antisymmetric(a[0], b[0]);
            }
        }
        assert(b[0] == x);
        let others = b.drop_first();
        assert(ordered(rest)) by {
            assert forall|i: int, j: int| 0 <= i < j < rest.len() implies alphabetical(
                #[trigger] rest[i],
                #[trigger] rest[j],
            ) && rest[i] != rest[j] by {
                assert(alphabetical(a[i + 1], a[j + 1]));
            }
        }
        assert(ordered(others)) by {
            assert forall|i: int, j: int| 0 <= i < j < others.len() implies alphabetical(
                #[trigger] others[i],
                #[trigger] others[j],
            ) && others[i] != others[j] by {
                assert(alphabetical(b[i + 1], b[j + 1]));
            }
        }
        assert forall|y: Seq<char>| #[trigger] rest.contains(y) <==> others.contains(y) by {
            lemma_tail_contains(a, y);
            lemma_tail_contains(b, y);
        }
        lemma_set_list_unique(rest, others);
        assert(a =~= seq![x] + rest);
        assert(b =~= seq![x] + others);
    }
}

proof fn lemma_tail_contains(a: Seq<Seq<char>>, y: Seq<char>)
    requires
        ordered(a),
        a.len() > 0,
    ensures
        a.drop_first().contains(y) <==> a.contains(y) && y != a[0],
{
    let rest = a.drop_first();
    if rest.contains(y) {
        let i = choose|i: int| 0 <= i < rest.len() && rest[i] == y;
        assert(a[i + 1] == y);
        assert(a[0] != a[i + 1]);
    }
    if a.contains(y) && y != a[0] {
        let i = choose|i: int| 0 <= i < a.len() && a[i] == y;
        assert(rest[i - 1] == y);
    }
}

/// Sorting keeps what is in a list.
pub proof fn lemma_sorting_contains<T: View, O: Order<T>>(out: Seq<T::V>, input: Seq<T::V>, x: T::V)
    requires
        is_sorting::<T, O>(out, input),
    ensures
        out.contains(x) <==> input.contains(x),
{
    O::lemma_total(x, x);
    let p = level::<T, O>(x);
    assert(out.filter(p) == input.filter(p));
    if out.contains(x) {
        let i = choose|i: int| 0 <= i < out.len() && out[i] == x;
        out.lemma_filter_contains(p, i);
        let k = choose|k: int| 0 <= k < out.filter(p).len() && out.filter(p)[k] == x;
        let j = lemma_filter_member(input, p, k);
        assert(input[j] == x);
    }
    if input.contains(x) {
        let i = choose|i: int| 0 <= i < input.len() && input[i] == x;
        input.lemma_filter_contains(p, i);
        let k = choose|k: int| 0 <= k < input.filter(p).len() && input.filter(p)[k] == x;
        let j = lemma_filter_member(out, p, k);
        assert(out[j] == x);
    }
}

/// The set of the names in a list.
pub fn name_set(names: Vec<String>) -> (set: Vec<String>)
    ensures
        ordered(views(set@)),
        forall|x: Seq<char>| #[trigger] views(set@).contains(x) <==> views(names@).contains(x),
{
    let ghost input = views(names@);
    let rest = sort::<String, Alphabetical>(names);
    let ghost all = views(rest@);
    let mut set: Vec<String> = Vec::new();
    let mut i: usize = 0;
    while i < rest.len()
        invariant
            i <= rest@.len(),
            all == views(rest@),
            in_order::<String, Alphabetical>(all),
            ordered(views(set@)),
            forall|x: Seq<char>|
                #[trigger] views(set@).contains(x) <==> all.take(i as int).contains(x),
            set@.len() > 0 ==> i > 0 && set@.last()@ == all[i - 1],
            set@.len() == 0 ==> i == 0,
        decreases rest.len() - i,
    {
        let ghost before = views(set@);
        let fresh: bool = set.len() == 0 || !same_text(
            set[set.len() - 1].as_str(),
            rest[i].as_str(),
        );
        let ghost next = all[i as int];
        if fresh {
            set.push(rest[i].clone());
            proof {
                assert(views(set@) =~= before.push(next));
                assert forall|a: int, b: int| 0 <= a < b < views(set@).len() implies alphabetical(
                    #[trigger] views(set@)[a],
                    #[trigger] views(set@)[b],
                ) && views(set@)[a] != views(set@)[b] by {
                    if b == before.len() {
                        assert(before.contains(before[a]));
                        assert(before.last() == all[i - 1]);
                        assert(alphabetical(all[i - 1], all[i as int]));
                        if a < before.len() - 1 {
                            assert(alphabetical(before[a], before[before.len() - 1]));
                            lemma_alphabetical_transitive(before[a], before.last(), next);
                            if before[a] == next {
                                lemma_alphabetical_antisymmetric(before[a], before.last());
                            }
                        }
                    } else {
                        assert(alphabetical(before[a], before[b]));
                    }
                }
            }
        }
        proof {
            if !fresh {
                assert(before[before.len() - 1] == next);
            }
            lemma_grown_prefix(all, i as int, before, views(set@), fresh);
        }
        i += 1;
    }
    proof {
        assert(all.take(all.len() as int) =~= all);
        assert forall|x: Seq<char>| #[trigger] views(set@).contains(x) <==> input.contains(x) by {
            lemma_sorting_contains::<String, Alphabetical>(all, input, x);
        }
    }
    set
}

proof fn lemma_grown_prefix(
    all: Seq<Seq<char>>,
    i: int,
    before: Seq<Seq<char>>,
    after: Seq<Seq<char>>,
    fresh: bool,
)
    requires
        0 <= i < all.len(),
        forall|x: Seq<char>| #[trigger] before.contains(x) <==> all.take(i).contains(x),
        fresh ==> after == before.push(all[i]),
        !fresh ==> after == before && before.contains(all[i]),
    ensures
        forall|x: Seq<char>| #[trigger] after.contains(x) <==> all.take(i + 1).contains(x),
{
    let (shorter, longer) = (all.take(i), all.take(i + 1));
    assert forall|x: Seq<char>| #[trigger] after.contains(x) <==> longer.contains(x) by {
        if after.contains(x) {
            let k = choose|k: int| 0 <= k < after.len() && after[k] == x;
            if k < before.len() {
                assert(before[k] == x);
                assert(before.contains(x));
                let j = choose|j: int| 0 <= j < shorter.len() && shorter[j] == x;
                assert(longer[j] == x);
            } else {
                assert(longer[i] == x);
            }
        }
        if longer.contains(x) {
            let j = choose|j: int| 0 <= j < longer.len() && longer[j] == x;
            if j < i {
                assert(shorter[j] == x);
                assert(before.contains(x));
                let k = choose|k: int| 0 <= k < before.len() && before[k] == x;
                assert(after[k] == x);
            } else if fresh {
                assert(after[before.len() as int] == x);
            }
        }
    }
}

} // verus!
