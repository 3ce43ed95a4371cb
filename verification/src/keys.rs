//! Looking findings up by their keys.
//!
//! A key is made of two texts. The index finds the last key of a list that
//! equals a given one, following, from the last key with the same first text, a
//! chain of those before it.

use vstd::hash_map::StringHashMap;
use vstd::prelude::*;
use vstd::string::*;

use crate::text::same_text;

verus! {

/// What a key holds.
pub type KeyView = (Seq<char>, Seq<char>);

/// A key of two texts.
pub struct Key {
    /// The text that keys are first told apart by.
    pub first: String,
    /// The second text.
    pub second: String,
}

impl View for Key {
    type V = KeyView;

    open spec fn view(&self) -> KeyView {
        (self.first@, self.second@)
    }
}

/// Where the last of the first `n` keys that equals `key` stands, or -1.
pub open spec fn last_key(keys: Seq<KeyView>, key: KeyView, n: nat) -> int
    decreases n,
{
    if n == 0 {
        -1
    } else if keys[n - 1] == key {
        n - 1
    } else {
        last_key(keys, key, (n - 1) as nat)
    }
}

/// What `last_key` says.
pub proof fn lemma_last_key(keys: Seq<KeyView>, key: KeyView, n: nat)
    requires
        n <= keys.len(),
    ensures
        -1 <= last_key(keys, key, n) < n as int,
        last_key(keys, key, n) >= 0 ==> keys[last_key(keys, key, n)] == key,
        forall|i: int| last_key(keys, key, n) < i < n ==> #[trigger] keys[i] != key,
    decreases n,
{
    if n > 0 && keys[n - 1] != key {
        lemma_last_key(keys, key, (n - 1) as nat);
    }
}

/// Where the last of the first `n` keys with this first text stands, or -1.
spec fn last_with(keys: Seq<KeyView>, first: Seq<char>, n: nat) -> int
    decreases n,
{
    if n == 0 {
        -1
    } else if keys[n - 1].0 == first {
        n - 1
    } else {
        last_with(keys, first, (n - 1) as nat)
    }
}

/// Keys with another first text can be passed over.
proof fn lemma_pass_over(keys: Seq<KeyView>, key: KeyView, n: nat)
    ensures
        -1 <= last_with(keys, key.0, n) < n as int,
        last_with(keys, key.0, n) < 0 ==> last_key(keys, key, n) == -1,
        last_with(keys, key.0, n) >= 0 ==> last_key(keys, key, n) == last_key(
            keys,
            key,
            (last_with(keys, key.0, n) + 1) as nat,
        ),
    decreases n,
{
    if n > 0 && keys[n - 1].0 != key.0 {
        lemma_pass_over(keys, key, (n - 1) as nat);
    }
}

spec fn key_views(keys: Seq<Key>) -> Seq<KeyView> {
    Seq::new(keys.len(), |i: int| keys[i]@)
}

spec fn place_of(p: Option<usize>) -> int {
    match p {
        Some(i) => i as int,
        None => -1,
    }
}

/// `prev` and `heads` lead from key to key with the same first text.
spec fn chained(keys: Seq<KeyView>, prev: Seq<Option<usize>>, heads: Map<Seq<char>, usize>) -> bool {
    &&& prev.len() == keys.len()
    &&& forall|i: int|
        0 <= i < prev.len() ==> place_of(#[trigger] prev[i]) == last_with(
            keys,
            keys[i].0,
            i as nat,
        )
    &&& forall|first: Seq<char>|
        (if #[trigger] heads.contains_key(first) {
            heads[first] as int
        } else {
            -1
        }) == last_with(keys, first, keys.len())
}

/// An index over a list of keys.
pub struct KeyIndex {
    keys: Vec<Key>,
    prev: Vec<Option<usize>>,
    heads: StringHashMap<usize>,
}

impl View for KeyIndex {
    type V = Seq<KeyView>;

    closed spec fn view(&self) -> Seq<KeyView> {
        key_views(self.keys@)
    }
}

impl KeyIndex {
    /// The chains agree with the keys.
    pub closed spec fn wf(self) -> bool {
        chained(key_views(self.keys@), self.prev@, self.heads@)
    }

    /// An index over nothing.
    pub fn new() -> (x: Self)
        ensures
            x.wf(),
            x@ == Seq::<KeyView>::empty(),
    {
        let x = KeyIndex { keys: Vec::new(), prev: Vec::new(), heads: StringHashMap::new() };
        assert(x@ =~= Seq::<KeyView>::empty());
        x
    }

    /// Add a key behind the others.
    pub fn add(&mut self, key: Key)
        requires
            old(self).wf(),
        ensures
            final(self).wf(),
            final(self)@ == old(self)@.push(key@),
    {
        let ghost before = self@;
        let ghost chain = self.prev@;
        let i: usize = self.keys.len();
        let last: Option<usize> = match self.heads.get(key.first.as_str()) {
            Some(k) => Some(*k),
            None => None,
        };
        let ghost heads = self.heads@;
        proof {
            assert(heads.contains_key(key.first@) || !heads.contains_key(key.first@));
        }
        self.prev.push(last);
        self.heads.insert(key.first.clone(), i);
        let ghost added = key@;
        self.keys.push(key);
        proof {
            assert(self@ =~= before.push(added));
            lemma_chain_grows(before, chain, heads, added, self.prev@, self.heads@, i);
        }
    }

    /// Find the last key that equals the given one.
    pub fn find(&self, first: &str, second: &str) -> (i: Option<usize>)
        requires
            self.wf(),
        ensures
            i is None ==> last_key(self@, (first@, second@), self@.len()) == -1,
            i matches Some(k) ==> k < self@.len() && last_key(
                self@,
                (first@, second@),
                self@.len(),
            ) == k,
    {
        let ghost key: KeyView = (first@, second@);
        let ghost all = self@;
        let mut at: Option<usize> = match self.heads.get(first) {
            Some(k) => Some(*k),
            None => None,
        };
        proof {
            assert(self.heads@.contains_key(first@) || !self.heads@.contains_key(first@));
            lemma_pass_over(all, key, all.len());
            lemma_head_matches(all, first@, all.len());
        }
        while at.is_some()
            invariant
                self.wf(),
                all == self@,
                key == (first@, second@),
                -1 <= place_of(at) < all.len() as int,
                at is Some ==> all[place_of(at)].0 == first@,
                last_key(all, key, all.len()) == last_key(all, key, (place_of(at) + 1) as nat),
            decreases place_of(at) + 1,
        {
            let k: usize = match at {
                Some(k) => k,
                None => 0,
            };
            let here = &self.keys[k];
            assert(all[k as int] == here@);
            if same_text(here.first.as_str(), first) && same_text(here.second.as_str(), second) {
                return Some(k);
            }
            proof {
                lemma_pass_over(all, key, k as nat);
                assert(place_of(self.prev@[k as int]) == last_with(all, all[k as int].0, k as nat));
                lemma_head_matches(all, first@, k as nat);
            }
            at = self.prev[k];
        }
        None
    }
}

proof fn lemma_head_matches(keys: Seq<KeyView>, first: Seq<char>, n: nat)
    ensures
        last_with(keys, first, n) >= 0 ==> keys[last_with(keys, first, n)].0 == first,
    decreases n,
{
    if n > 0 && keys[n - 1].0 != first {
        lemma_head_matches(keys, first, (n - 1) as nat);
    }
}

proof fn lemma_last_with_prefix(a: Seq<KeyView>, b: Seq<KeyView>, first: Seq<char>, n: nat)
    requires
        n <= a.len(),
        n <= b.len(),
        forall|i: int| 0 <= i < n ==> #[trigger] a[i] == b[i],
    ensures
        last_with(a, first, n) == last_with(b, first, n),
    decreases n,
{
    if n > 0 {
        assert(a[n - 1] == b[n - 1]);
        lemma_last_with_prefix(a, b, first, (n - 1) as nat);
    }
}

proof fn lemma_chain_grows(
    keys: Seq<KeyView>,
    prev: Seq<Option<usize>>,
    heads: Map<Seq<char>, usize>,
    key: KeyView,
    prev2: Seq<Option<usize>>,
    heads2: Map<Seq<char>, usize>,
    i: usize,
)
    requires
        chained(keys, prev, heads),
        i == keys.len(),
        prev2.len() == prev.len() + 1,
        forall|k: int| 0 <= k < prev.len() ==> #[trigger] prev2[k] == prev[k],
        place_of(prev2[prev.len() as int]) == last_with(keys, key.0, keys.len()),
        heads2 == heads.insert(key.0, i),
    ensures
        chained(keys.push(key), prev2, heads2),
{
    let keys2 = keys.push(key);
    assert forall|k: int| 0 <= k < prev2.len() implies place_of(#[trigger] prev2[k]) == last_with(
        keys2,
        keys2[k].0,
        k as nat,
    ) by {
        lemma_last_with_prefix(keys, keys2, keys2[k].0, k as nat);
        if k < prev.len() {
            assert(place_of(prev[k]) == last_with(keys, keys[k].0, k as nat));
        }
    }
    assert forall|first: Seq<char>|
        (if #[trigger] heads2.contains_key(first) {
            heads2[first] as int
        } else {
            -1
        }) == last_with(keys2, first, keys2.len()) by {
        lemma_last_with_prefix(keys, keys2, first, keys.len());
        if first != key.0 {
            assert(heads.contains_key(first) <==> heads2.contains_key(first));
        }
    }
}

} // verus!
