//! Disjoint-set union, for grouping duplicate pairs into classes.
//!
//! # A caveat worth reading before you trust a class
//!
//! Grouping is transitive but similarity is not. If `A` resembles `B`, `B`
//! resembles `C`, and `C` resembles `D`, all four land in one class even when
//! `A` and `D` share nothing at all. On a large tree this can chain hundreds of
//! unrelated units into a single useless "class".
//!
//! Classes are therefore a *navigation aid*, never the finding. The pair — with
//! its measured similarity — is the finding. Report pairs; use classes to group
//! them for reading.

use vstd::prelude::*;

verus! {

/// The elements whose representative is `r`.
pub open spec fn members(reps: Seq<int>, r: int) -> Set<int> {
    Set::new(|x: int| 0 <= x < reps.len() && reps[x] == r)
}

/// How many elements have the representative `r`.
pub open spec fn class_size(reps: Seq<int>, r: int) -> nat {
    members(reps, r).len()
}

/// Joining the sets represented by `ra` and `rb`: the larger one keeps its
/// representative, the first one where they are level.
pub open spec fn joined(reps: Seq<int>, ra: int, rb: int) -> Seq<int> {
    let (kept, lost) = if class_size(reps, ra) < class_size(reps, rb) {
        (rb, ra)
    } else {
        (ra, rb)
    };
    Seq::new(
        reps.len(),
        |x: int|
            if reps[x] == lost {
                kept
            } else {
                reps[x]
            },
    )
}

/// The sets of a forest, each as an ascending list of members, ordered by their
/// lowest member.
pub open spec fn is_grouping(reps: Seq<int>, groups: Seq<Seq<usize>>) -> bool {
    &&& forall|g: int|
        0 <= g < groups.len() ==> #[trigger] groups[g].len() > 0 && ascending(groups[g])
    &&& forall|g: int, h: int|
        0 <= g < h < groups.len() ==> #[trigger] groups[g][0] < #[trigger] groups[h][0]
    &&& forall|g: int, x: int|
        0 <= g < groups.len() && 0 <= x < reps.len() ==> (#[trigger] groups[g].contains(x as usize)
            <==> #[trigger] reps[x] == reps[groups[g][0] as int])
    &&& forall|g: int, k: int|
        0 <= g < groups.len() && 0 <= k < groups[g].len() ==> #[trigger] groups[g][k] < reps.len()
    &&& forall|x: int|
        0 <= x < reps.len() ==> #[trigger] has_group(reps, groups, x)
}

/// Some group is that of `x`.
pub open spec fn has_group(reps: Seq<int>, groups: Seq<Seq<usize>>, x: int) -> bool {
    exists|g: int| 0 <= g < groups.len() && #[trigger] groups[g].contains(x as usize)
}

/// The contents of a list of lists.
pub open spec fn lists(groups: Seq<Vec<usize>>) -> Seq<Seq<usize>> {
    Seq::new(groups.len(), |g: int| groups[g]@)
}

/// Strictly increasing.
pub open spec fn ascending(s: Seq<usize>) -> bool {
    forall|k: int, l: int| 0 <= k < l < s.len() ==> #[trigger] s[k] < #[trigger] s[l]
}

// ---------------------------------------------------------------- the structure

/// `x` has a parent of its own, above it in size.
spec fn climbs(p: Seq<usize>, s: Seq<usize>, x: int) -> bool {
    &&& 0 <= x < p.len()
    &&& p.len() == s.len()
    &&& p[x] != x
    &&& p[x] < p.len()
    &&& s[x] < s[p[x] as int] <= p.len()
}

/// The root above `x`.
spec fn root(p: Seq<usize>, s: Seq<usize>, x: int) -> int
    decreases p.len() - s[x],
{
    if climbs(p, s, x) {
        root(p, s, p[x] as int)
    } else {
        x
    }
}

/// The root above every element.
spec fn roots(p: Seq<usize>, s: Seq<usize>) -> Seq<int> {
    Seq::new(p.len(), |x: int| root(p, s, x))
}

/// Sizes grow towards the roots, and a root's size is that of its set.
spec fn forest(p: Seq<usize>, s: Seq<usize>) -> bool {
    &&& p.len() == s.len()
    &&& forall|x: int| 0 <= x < p.len() ==> #[trigger] p[x] < p.len()
    &&& forall|x: int| 0 <= x < p.len() ==> 1 <= #[trigger] s[x] <= p.len()
    &&& forall|x: int| 0 <= x < p.len() && #[trigger] p[x] != x ==> s[x] < s[p[x] as int]
    &&& forall|x: int|
        0 <= x < p.len() && #[trigger] p[x] == x ==> s[x] == class_size(roots(p, s), x)
}

proof fn lemma_root(p: Seq<usize>, s: Seq<usize>, x: int)
    requires
        forest(p, s),
        0 <= x < p.len(),
    ensures
        0 <= root(p, s, x) < p.len(),
        p[root(p, s, x)] == root(p, s, x),
        root(p, s, root(p, s, x)) == root(p, s, x),
    decreases p.len() - s[x],
{
    if p[x] != x {
        lemma_root(p, s, p[x] as int);
    }
}

/// Pointing an element at its grandparent changes no root.
proof fn lemma_halve(p: Seq<usize>, s: Seq<usize>, x: int, y: int)
    requires
        forest(p, s),
        0 <= x < p.len(),
        0 <= y < p.len(),
    ensures
        root(p.update(x, p[p[x] as int]), s, y) == root(p, s, y),
    decreases p.len() - s[y],
{
    let q = p.update(x, p[p[x] as int]);
    if p[y] != y {
        let g = q[y] as int;
        if y == x {
            lemma_halve(p, s, x, p[x] as int);
            if g != p[x] {
                lemma_halve(p, s, x, g);
            }
            assert(root(p, s, x) == root(p, s, p[x] as int));
            assert(root(p, s, p[x] as int) == root(p, s, g));
        } else {
            lemma_halve(p, s, x, g);
        }
    }
}

proof fn lemma_halve_forest(p: Seq<usize>, s: Seq<usize>, x: int)
    requires
        forest(p, s),
        0 <= x < p.len(),
    ensures
        forest(p.update(x, p[p[x] as int]), s),
        roots(p.update(x, p[p[x] as int]), s) == roots(p, s),
{
    let q = p.update(x, p[p[x] as int]);
    assert forall|y: int| 0 <= y < p.len() implies root(q, s, y) == root(p, s, y) by {
        lemma_halve(p, s, x, y);
    }
    assert(roots(q, s) =~= roots(p, s));
}

proof fn lemma_members_finite(reps: Seq<int>, r: int)
    ensures
        members(reps, r).finite(),
        class_size(reps, r) <= reps.len(),
{
    let all = vstd::set_lib::set_int_range(0, reps.len() as int);
    vstd::set_lib::lemma_int_range(0, reps.len() as int);
    assert(members(reps, r).subset_of(all));
    vstd::set_lib::lemma_len_subset(members(reps, r), all);
}

/// Hanging the root `rb` under the root `ra`.
proof fn lemma_attach(p: Seq<usize>, s: Seq<usize>, ra: int, rb: int)
    requires
        forest(p, s),
        0 <= ra < p.len(),
        0 <= rb < p.len(),
        p[ra] == ra,
        p[rb] == rb,
        ra != rb,
        s[ra] >= s[rb],
        p.len() <= usize::MAX,
    ensures
        s[ra] + s[rb] <= p.len(),
        forest(p.update(rb, ra as usize), s.update(ra, (s[ra] + s[rb]) as usize)),
        forall|y: int|
            0 <= y < p.len() ==> #[trigger] roots(
                p.update(rb, ra as usize),
                s.update(ra, (s[ra] + s[rb]) as usize),
            )[y] == (if roots(p, s)[y] == rb {
                ra
            } else {
                roots(p, s)[y]
            }),
{
    let reps = roots(p, s);
    let q = p.update(rb, ra as usize);
    let both = members(reps, ra).union(members(reps, rb));
    lemma_members_finite(reps, ra);
    lemma_members_finite(reps, rb);
    vstd::set_lib::lemma_set_disjoint_lens(members(reps, ra), members(reps, rb));
    let all = vstd::set_lib::set_int_range(0, reps.len() as int);
    vstd::set_lib::lemma_int_range(0, reps.len() as int);
    assert(both.subset_of(all));
    vstd::set_lib::lemma_len_subset(both, all);
    let t = s.update(ra, (s[ra] + s[rb]) as usize);
    assert forall|y: int| 0 <= y < p.len() implies root(q, t, y) == (if root(p, s, y) == rb {
        ra
    } else {
        root(p, s, y)
    }) by {
        lemma_attach_root(p, s, q, t, ra, rb, y);
    }
    let after = roots(q, t);
    assert forall|x: int| 0 <= x < q.len() && #[trigger] q[x] == x implies t[x] == class_size(
        after,
        x,
    ) by {
        lemma_root(p, s, x);
        if x == ra {
            assert(members(after, x) =~= both);
        } else {
            assert(members(after, x) =~= members(reps, x));
        }
    }
}

proof fn lemma_attach_root(
    p: Seq<usize>,
    s: Seq<usize>,
    q: Seq<usize>,
    t: Seq<usize>,
    ra: int,
    rb: int,
    y: int,
)
    requires
        forest(p, s),
        0 <= ra < p.len(),
        0 <= rb < p.len(),
        p[ra] == ra,
        p[rb] == rb,
        ra != rb,
        s[ra] + s[rb] <= p.len() <= usize::MAX,
        q == p.update(rb, ra as usize),
        t == s.update(ra, (s[ra] + s[rb]) as usize),
        0 <= y < p.len(),
    ensures
        root(q, t, y) == (if root(p, s, y) == rb {
            ra
        } else {
            root(p, s, y)
        }),
    decreases p.len() - s[y],
{
    if y == rb {
        assert(climbs(q, t, y));
        assert(!climbs(q, t, ra));
        assert(root(q, t, y) == root(q, t, ra));
    } else if p[y] != y {
        lemma_attach_root(p, s, q, t, ra, rb, p[y] as int);
        assert(climbs(q, t, y));
        assert(climbs(p, s, y));
    } else {
        assert(!climbs(q, t, y));
    }
}

/// Disjoint-set forest with path halving and union by size.
///
/// The view gives each element the representative of its set.
#[derive(Clone, Debug)]
pub struct UnionFind {
    parent: Vec<usize>,
    size: Vec<usize>,
}

impl View for UnionFind {
    type V = Seq<int>;

    closed spec fn view(&self) -> Seq<int> {
        roots(self.parent@, self.size@)
    }
}

impl UnionFind {
    /// The forest is sound: parents lead to roots, and sizes are right.
    pub closed spec fn wf(self) -> bool {
        forest(self.parent@, self.size@)
    }

    /// Create `n` singleton sets, numbered `0..n`.
    pub fn new(n: usize) -> (forest: Self)
        ensures
            forest.wf(),
            forest@ == Seq::new(n as nat, |x: int| x),
    {
        let mut parent: Vec<usize> = Vec::new();
        let mut size: Vec<usize> = Vec::new();
        let mut x: usize = 0;
        while x < n
            invariant
                x <= n,
                parent.len() == x,
                size.len() == x,
                forall|y: int| 0 <= y < x ==> #[trigger] parent[y] == y,
                forall|y: int| 0 <= y < x ==> #[trigger] size[y] == 1,
            decreases n - x,
        {
            parent.push(x);
            size.push(1);
            x += 1;
        }
        proof {
            let reps = roots(parent@, size@);
            assert(reps =~= Seq::new(n as nat, |x: int| x));
            assert forall|y: int| 0 <= y < n implies class_size(reps, y) == 1 by {
                assert(members(reps, y) =~= Set::empty().insert(y));
            }
        }
        UnionFind { parent, size }
    }

    /// Number of elements.
    pub fn len(&self) -> (n: usize)
        ensures
            n == self@.len(),
    {
        self.parent.len()
    }

    /// Whether there are no elements.
    pub fn is_empty(&self) -> (r: bool)
        ensures
            r == (self@.len() == 0),
    {
        self.parent.len() == 0
    }

    /// Representative of `x`'s set.
    pub fn find(&mut self, x: usize) -> (r: usize)
        requires
            old(self).wf(),
            x < old(self)@.len(),
        ensures
            final(self).wf(),
            final(self)@ == old(self)@,
            r == old(self)@[x as int],
            r < old(self)@.len(),
            old(self)@[r as int] == r,
    {
        let mut x: usize = x;
        let ghost first = x as int;
        while self.parent[x] != x
            invariant
                self.wf(),
                x < self.parent.len(),
                0 <= first < self@.len(),
                self@ == old(self)@,
                self@[x as int] == self@[first],
            decreases self.parent.len() - self.size[x as int],
        {
            let ghost p = self.parent@;
            let ghost s = self.size@;
            proof {
                lemma_halve_forest(p, s, x as int);
                lemma_root(p, s, x as int);
            }
            let up: usize = self.parent[x];
            let over: usize = self.parent[up];
            // Path halving: point at the grandparent on the way up.
            self.parent.set(x, over);
            proof {
                assert(root(p, s, x as int) == root(p, s, up as int));
                assert(root(p, s, up as int) == root(p, s, over as int));
                assert(roots(self.parent@, s)[over as int] == roots(p, s)[over as int]);
            }
            x = over;
        }
        proof {
            lemma_root(self.parent@, self.size@, x as int);
        }
        x
    }

    /// Merge the sets containing `a` and `b`.
    ///
    /// Returns `true` if they were distinct sets and are now joined, `false` if
    /// they were already together.
    pub fn union(&mut self, a: usize, b: usize) -> (merged: bool)
        requires
            old(self).wf(),
            a < old(self)@.len(),
            b < old(self)@.len(),
        ensures
            final(self).wf(),
            merged == (old(self)@[a as int] != old(self)@[b as int]),
            !merged ==> final(self)@ == old(self)@,
            merged ==> final(self)@ == joined(
                old(self)@,
                old(self)@[a as int],
                old(self)@[b as int],
            ),
    {
        let mut ra: usize = self.find(a);
        let mut rb: usize = self.find(b);
        if ra == rb {
            return false;
        }
        let n: usize = self.parent.len();
        let ghost reps = self@;
        let ghost (fa, fb) = (ra as int, rb as int);
        proof {
            lemma_root(self.parent@, self.size@, a as int);
            lemma_root(self.parent@, self.size@, b as int);
        }
        // Attach the smaller tree under the larger, keeping depth logarithmic.
        if self.size[ra] < self.size[rb] {
            core::mem::swap(&mut ra, &mut rb);
        }
        proof {
            assert(self.parent@.len() == n);
            lemma_attach(self.parent@, self.size@, ra as int, rb as int);
        }
        self.parent.set(rb, ra);
        let grown: usize = self.size[ra] + self.size[rb];
        self.size.set(ra, grown);
        proof {
            assert(self@ =~= joined(reps, fa, fb));
        }
        true
    }

    /// Size of the set containing `x`.
    pub fn set_size(&mut self, x: usize) -> (n: usize)
        requires
            old(self).wf(),
            x < old(self)@.len(),
        ensures
            final(self).wf(),
            final(self)@ == old(self)@,
            n == class_size(old(self)@, old(self)@[x as int]),
    {
        let root: usize = self.find(x);
        proof {
            lemma_root(self.parent@, self.size@, x as int);
        }
        self.size[root]
    }

    /// Every set, each as an ascending list of members.
    ///
    /// Sets are ordered by their lowest member, so the output is deterministic.
    pub fn groups(&mut self) -> (groups: Vec<Vec<usize>>)
        requires
            old(self).wf(),
        ensures
            final(self).wf(),
            final(self)@ == old(self)@,
            is_grouping(old(self)@, lists(groups@)),
    {
        let n: usize = self.parent.len();
        let ghost reps = self@;
        proof {
            assert forall|y: int| 0 <= y < n implies 0 <= #[trigger] reps[y] < n by {
                lemma_root(self.parent@, self.size@, y);
            }
        }
        let mut slots: Vec<usize> = vec![n; n];
        let mut groups: Vec<Vec<usize>> = Vec::new();
        let mut x: usize = 0;
        while x < n
            invariant
                x <= n,
                n == reps.len(),
                slots.len() == n,
                forall|y: int| 0 <= y < n ==> 0 <= #[trigger] reps[y] < n,
                self.wf(),
                self@ == reps,
                grouped(reps, x as int, slots@, groups@),
            decreases n - x,
        {
            let r: usize = self.find(x);
            let slot: usize = slots[r];
            let ghost before = groups@;
            let ghost placed = slots@;
            if slot == n {
                slots.set(r, groups.len());
                let mut group: Vec<usize> = Vec::new();
                group.push(x);
                assert(group@ =~= seq![x]);
                groups.push(group);
                proof {
                    lemma_open_group(reps, x, placed, before, slots@, groups@);
                }
            } else {
                groups[slot].push(x);
                proof {
                    lemma_extend_group(reps, x, slots@, before, groups@);
                }
            }
            x += 1;
        }
        proof {
            lemma_all_grouped(reps, slots@, groups@);
        }
        groups
    }
}

/// The elements below `x` have been sorted into groups; `slots` says where the
/// group of each representative is.
spec fn grouped(reps: Seq<int>, x: int, slots: Seq<usize>, groups: Seq<Vec<usize>>) -> bool {
    &&& groups.len() <= x
    &&& forall|g: int|
        0 <= g < groups.len() ==> #[trigger] groups[g]@.len() > 0 && ascending(groups[g]@)
            && slots[reps[groups[g]@[0] as int]] == g
    &&& forall|g: int, k: int|
        0 <= g < groups.len() && 0 <= k < groups[g]@.len() ==> #[trigger] groups[g]@[k] < x
            && reps[groups[g]@[k] as int] == reps[groups[g]@[0] as int]
    &&& forall|g: int, h: int|
        0 <= g < h < groups.len() ==> #[trigger] groups[g]@[0] < #[trigger] groups[h]@[0]
    &&& forall|y: int|
        0 <= y < x ==> slots[#[trigger] reps[y]] < groups.len() && groups[slots[reps[y]] as int]@.contains(
            y as usize,
        )
    &&& forall|r: int|
        0 <= r < reps.len() ==> #[trigger] slots[r] == reps.len() || (slots[r] < groups.len()
            && reps[groups[slots[r] as int]@[0] as int] == r)
}

/// When every element has been sorted in, the groups are those of the forest.
proof fn lemma_all_grouped(reps: Seq<int>, slots: Seq<usize>, groups: Seq<Vec<usize>>)
    requires
        grouped(reps, reps.len() as int, slots, groups),
        reps.len() <= usize::MAX,
        slots.len() == reps.len(),
        forall|y: int| 0 <= y < reps.len() ==> 0 <= #[trigger] reps[y] < reps.len(),
    ensures
        is_grouping(reps, lists(groups)),
{
    let out = lists(groups);
    assert forall|g: int| 0 <= g < out.len() implies #[trigger] out[g].len() > 0
        && ascending(out[g]) by {
        assert(groups[g]@.len() > 0);
    }
    assert forall|g: int, h: int| 0 <= g < h < out.len() implies #[trigger] out[g][0]
        < #[trigger] out[h][0] by {
        assert(groups[g]@[0] < groups[h]@[0]);
    }
    assert forall|g: int, k: int| 0 <= g < out.len() && 0 <= k < out[g].len() implies
        #[trigger] out[g][k] < reps.len() by {
        assert(groups[g]@[k] < reps.len());
    }
    assert forall|g: int, y: int| 0 <= g < out.len() && 0 <= y < reps.len() implies (
    #[trigger] out[g].contains(y as usize) <==> #[trigger] reps[y]
        == reps[out[g][0] as int]) by {
        if out[g].contains(y as usize) {
            let k = choose|k: int| 0 <= k < out[g].len() && out[g][k] == y;
            assert(reps[groups[g]@[k] as int] == reps[groups[g]@[0] as int]);
        }
    }
    assert forall|y: int| 0 <= y < reps.len() implies #[trigger] has_group(reps, out, y) by {
        let g = slots[reps[y]] as int;
        assert(groups[g]@.contains(y as usize));
        assert(out[g].contains(y as usize));
    }
}

/// `x` is the first of its set.
proof fn lemma_open_group(
    reps: Seq<int>,
    x: usize,
    slots: Seq<usize>,
    groups: Seq<Vec<usize>>,
    slots2: Seq<usize>,
    groups2: Seq<Vec<usize>>,
)
    requires
        grouped(reps, x as int, slots, groups),
        x < reps.len() <= usize::MAX,
        slots.len() == reps.len(),
        forall|y: int| 0 <= y < reps.len() ==> 0 <= #[trigger] reps[y] < reps.len(),
        slots[reps[x as int]] == reps.len(),
        slots2 == slots.update(reps[x as int], groups.len() as usize),
        groups2.len() == groups.len() + 1,
        forall|g: int| 0 <= g < groups.len() ==> #[trigger] groups2[g] == groups[g],
        groups2[groups.len() as int]@ == seq![x],
    ensures
        grouped(reps, x + 1, slots2, groups2),
{
    let top = groups.len() as int;
    assert forall|g: int| 0 <= g < groups2.len() implies #[trigger] groups2[g]@.len() > 0
        && ascending(groups2[g]@) && slots2[reps[groups2[g]@[0] as int]] == g by {
        if g < top {
            assert(groups[g]@.len() > 0);
            assert(groups[g]@[0] < x);
        }
    }
    assert forall|g: int, k: int| 0 <= g < groups2.len() && 0 <= k < groups2[g]@.len() implies
        #[trigger] groups2[g]@[k] < x + 1 && reps[groups2[g]@[k] as int]
        == reps[groups2[g]@[0] as int] by {
        if g < top {
            assert(groups[g]@[k] < x);
        }
    }
    assert forall|g: int, h: int| 0 <= g < h < groups2.len() implies #[trigger] groups2[g]@[0]
        < #[trigger] groups2[h]@[0] by {
        assert(groups[g]@.len() > 0);
        assert(groups[g]@[0] < x);
        if h < top {
            assert(groups[g]@[0] < groups[h]@[0]);
        }
    }
    assert forall|y: int| 0 <= y < x + 1 implies slots2[#[trigger] reps[y]] < groups2.len()
        && groups2[slots2[reps[y]] as int]@.contains(y as usize) by {
        if y < x {
            assert(slots[reps[y]] < groups.len());
            assert(reps[y] != reps[x as int]);
        } else {
            assert(groups2[top]@[0] == x);
        }
    }
    assert forall|r: int| 0 <= r < reps.len() implies #[trigger] slots2[r] == reps.len() || (
    slots2[r] < groups2.len() && reps[groups2[slots2[r] as int]@[0] as int] == r) by {
        assert(slots[r] == slots[r]);
    }
}

/// `x` joins the set it belongs to.
proof fn lemma_extend_group(
    reps: Seq<int>,
    x: usize,
    slots: Seq<usize>,
    groups: Seq<Vec<usize>>,
    groups2: Seq<Vec<usize>>,
)
    requires
        grouped(reps, x as int, slots, groups),
        x < reps.len() <= usize::MAX,
        slots.len() == reps.len(),
        forall|y: int| 0 <= y < reps.len() ==> 0 <= #[trigger] reps[y] < reps.len(),
        slots[reps[x as int]] < groups.len(),
        groups2.len() == groups.len(),
        forall|g: int|
            0 <= g < groups.len() && g != slots[reps[x as int]] ==> #[trigger] groups2[g]
                == groups[g],
        groups2[slots[reps[x as int]] as int]@ == groups[slots[reps[x as int]] as int]@.push(x),
    ensures
        grouped(reps, x + 1, slots, groups2),
{
    let s = slots[reps[x as int]] as int;
    let old_group = groups[s]@;
    let new_group = groups2[s]@;
    assert(old_group.len() > 0 && ascending(old_group));
    assert(new_group[old_group.len() as int] == x);
    assert forall|g: int| 0 <= g < groups2.len() implies #[trigger] groups2[g]@.len() > 0
        && ascending(groups2[g]@) && slots[reps[groups2[g]@[0] as int]] == g by {
        assert(groups[g]@.len() > 0);
        if g == s {
            assert forall|k: int, l: int| 0 <= k < l < new_group.len() implies #[trigger] new_group[k]
                < #[trigger] new_group[l] by {
                assert(old_group[k] < x);
            }
        }
    }
    assert forall|g: int, k: int| 0 <= g < groups2.len() && 0 <= k < groups2[g]@.len() implies
        #[trigger] groups2[g]@[k] < x + 1 && reps[groups2[g]@[k] as int]
        == reps[groups2[g]@[0] as int] by {
        if g != s || k < old_group.len() {
            assert(groups[g]@[k] < x);
        }
    }
    assert forall|g: int, h: int| 0 <= g < h < groups2.len() implies #[trigger] groups2[g]@[0]
        < #[trigger] groups2[h]@[0] by {
        assert(groups[g]@.len() > 0 && groups[h]@.len() > 0);
        assert(groups[g]@[0] < groups[h]@[0]);
    }
    assert forall|y: int| 0 <= y < x + 1 implies slots[#[trigger] reps[y]] < groups2.len()
        && groups2[slots[reps[y]] as int]@.contains(y as usize) by {
        if y < x {
            let g = slots[reps[y]] as int;
            let group = groups[g]@;
            assert(group.contains(y as usize));
            let k = choose|k: int| 0 <= k < group.len() && group[k] == y as usize;
            assert(groups2[g]@[k] == y as usize);
        }
    }
    assert forall|r: int| 0 <= r < reps.len() implies #[trigger] slots[r] == reps.len() || (slots[r]
        < groups2.len() && reps[groups2[slots[r] as int]@[0] as int] == r) by {
        if slots[r] < groups.len() {
            assert(groups[slots[r] as int]@.len() > 0);
        }
    }
}

/// Joining two sets: afterwards two elements are together exactly when they were
/// before, or when they came from the two sets joined.
pub proof fn lemma_union_joins_exactly_two_sets(reps: Seq<int>, a: int, b: int, x: int, y: int)
    requires
        0 <= a < reps.len(),
        0 <= b < reps.len(),
        0 <= x < reps.len(),
        0 <= y < reps.len(),
        reps[a] != reps[b],
    ensures
        joined(reps, reps[a], reps[b])[x] == joined(reps, reps[a], reps[b])[y] <==> (reps[x]
            == reps[y] || (reps[x] == reps[a] && reps[y] == reps[b]) || (reps[x] == reps[b]
            && reps[y] == reps[a])),
{
}

} // verus!
