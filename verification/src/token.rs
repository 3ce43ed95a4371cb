//! Normalized token streams and their content identity.
//!
//! A [`TokenStream`] is what every detector reduces a piece of code to: a flat
//! sequence of *structural* tokens with identifiers blind-renamed and literals
//! abstracted to type tags. Two streams that compare equal describe two pieces
//! of code with the same shape, whatever they called their variables.
//!
//! # Why tokens are interned
//!
//! Similarity is a quadratic comparison over every pair of units in a tree.
//! Interning maps each distinct token name to a `u32` once, so the hot loop
//! compares integers.
//!
//! # Why the content hash is NOT computed from interned ids
//!
//! Interned ids are assignment-order dependent: the same function scanned in a
//! different file order gets different ids. A content hash has to be *stable
//! across processes*, because the delta engine compares a hash produced by a
//! scan of one tree against one produced by a separate scan of another. So the
//! hash is always computed over the token **names**, never over their ids.

use vstd::prelude::*;
use vstd::string::*;
use vstd::utf8::{encode_scalar, encode_utf8};

use crate::sort::views;
use crate::text::{
    alphabetical, chars_of, lemma_alphabetical_antisymmetric, lemma_alphabetical_total,
    lemma_alphabetical_transitive, same_text, text_at_most, text_between,
};

verus! {

/// Separator used when hashing a token stream.
///
/// A byte no token name holds, so that `["ab", "c"]` and `["a", "bc"]` cannot
/// collide by concatenation.
pub const HASH_SEPARATOR: u8 = 0x1f;

/// Number of hex characters kept from the underlying digest.
///
/// 32 hex chars = 128 bits. Collisions are the only way the delta engine can
/// mistake genuinely-new duplication for pre-existing duplication and stay
/// silent about it, so this is deliberately far above birthday-bound risk.
pub const HASH_HEX_LEN: usize = 32;

// ---------------------------------------------------------------------- hashing

/// The BLAKE3 digest of some bytes, in hexadecimal.
pub uninterp spec fn blake3_hex(bytes: Seq<u8>) -> Seq<char>;

/// A lowercase hexadecimal digit.
pub open spec fn hex_digit(c: char) -> bool {
    '0' <= c <= '9' || 'a' <= c <= 'f'
}

/// `blake3::hash` and `Hash::to_hex`: the digest of the bytes, as 64 lowercase
/// hexadecimal characters.
#[verifier::external_body]
fn digest(bytes: &[u8]) -> (hex: String)
    ensures
        hex@ == blake3_hex(bytes@),
        hex@.len() == 64,
        forall|i: int| 0 <= i < hex@.len() ==> hex_digit(#[trigger] hex@[i]),
{
    blake3::hash(bytes).to_hex().to_string()
}

/// The bytes a list of token names is hashed over: each name followed by the
/// separator.
pub open spec fn hash_input(names: Seq<Seq<char>>) -> Seq<u8>
    decreases names.len(),
{
    if names.len() == 0 {
        Seq::empty()
    } else {
        hash_input(names.drop_last()) + encode_utf8(names.last()).push(HASH_SEPARATOR)
    }
}

/// The content hash of a list of token names.
pub open spec fn content_hash(names: Seq<Seq<char>>) -> Seq<char> {
    blake3_hex(hash_input(names)).take(HASH_HEX_LEN as int)
}

/// Stable identity of a normalized token stream.
///
/// Independent of file path, symbol name, and line numbers: a unit that moved
/// or was renamed between two scans keeps the same [`ContentHash`]. That is
/// what lets the delta engine say "this duplicate already existed, it just
/// moved" instead of re-reporting it on every pull request.
#[derive(Debug, PartialEq, Eq, Hash, PartialOrd, Ord)]
pub struct ContentHash(String);

impl View for ContentHash {
    type V = Seq<char>;

    closed spec fn view(&self) -> Seq<char> {
        self.0@
    }
}

impl Clone for ContentHash {
    fn clone(&self) -> (c: Self)
        ensures
            c@ == self@,
    {
        ContentHash(self.0.clone())
    }
}

impl ContentHash {
    /// Hash a sequence of token names.
    ///
    /// Identical `names` always produce an identical hash, in any process, on
    /// any machine.
    pub fn of(names: &[&str]) -> (h: Self)
        ensures
            h@ == content_hash(views(names@)),
            h@.len() == HASH_HEX_LEN,
            forall|i: int| 0 <= i < h@.len() ==> hex_digit(#[trigger] h@[i]),
    {
        let mut bytes: Vec<u8> = Vec::new();
        let ghost all = views(names@);
        let mut k: usize = 0;
        assert(all.take(0) =~= Seq::empty());
        while k < names.len()
            invariant
                k <= names@.len(),
                all == views(names@),
                bytes@ == hash_input(all.take(k as int)),
            decreases names.len() - k,
        {
            let ghost before = bytes@;
            let name: &[u8] = names[k].as_bytes();
            bytes.extend_from_slice(name);
            bytes.push(HASH_SEPARATOR);
            proof {
                let next = all.take(k + 1);
                assert(next.drop_last() =~= all.take(k as int));
                assert(next.last() == names@[k as int]@);
                assert(bytes@ =~= before + encode_utf8(names@[k as int]@).push(HASH_SEPARATOR));
            }
            k += 1;
        }
        assert(all.take(k as int) =~= all);
        let hex = digest(bytes.as_slice());
        let chars = chars_of(hex.as_str());
        let kept = text_between(chars.as_slice(), 0, HASH_HEX_LEN);
        assert(kept@ =~= content_hash(all));
        ContentHash(kept)
    }

    /// The hash as a lowercase hex string.
    pub fn as_str(&self) -> (s: &str)
        ensures
            s@ == self@,
    {
        self.0.as_str()
    }

    /// The hash as an owned lowercase hex string.
    pub fn to_string(&self) -> (s: String)
        ensures
            s@ == self@,
    {
        self.0.clone()
    }

    /// A hash read back from its text.
    pub fn from_text(text: String) -> (h: Self)
        ensures
            h@ == text@,
    {
        ContentHash(text)
    }
}

// --------------------------------------------------------------------- interning

/// The names known after looking up `names` in turn.
pub open spec fn intern_all(known: Seq<Seq<char>>, names: Seq<Seq<char>>) -> Seq<Seq<char>>
    decreases names.len(),
{
    if names.len() == 0 {
        known
    } else {
        let before = intern_all(known, names.drop_last());
        if before.contains(names.last()) {
            before
        } else {
            before.push(names.last())
        }
    }
}

/// The id of a known name: its place among the known names.
pub open spec fn id_of(known: Seq<Seq<char>>, name: Seq<char>) -> u32 {
    known.index_of(name) as u32
}

/// The ids of a list of names.
pub open spec fn ids_of(known: Seq<Seq<char>>, names: Seq<Seq<char>>) -> Seq<u32> {
    Seq::new(names.len(), |i: int| id_of(known, names[i]))
}

/// `order` lists the names alphabetically.
spec fn sorted_index(names: Seq<String>, order: Seq<usize>) -> bool {
    &&& order.len() == names.len()
    &&& forall|i: int| 0 <= i < order.len() ==> #[trigger] order[i] < names.len()
    &&& forall|i: int, j: int|
        0 <= i < j < order.len() ==> strictly_before(
            names[#[trigger] order[i] as int]@,
            names[#[trigger] order[j] as int]@,
        )
    &&& forall|k: int|
        0 <= k < names.len() ==> #[trigger] listed(order, k)
}

spec fn listed(order: Seq<usize>, k: int) -> bool {
    exists|i: int| 0 <= i < order.len() && #[trigger] order[i] == k
}

spec fn strictly_before(a: Seq<char>, b: Seq<char>) -> bool {
    alphabetical(a, b) && a != b
}

proof fn lemma_strictly_before(a: Seq<char>, b: Seq<char>, c: Seq<char>)
    ensures
        strictly_before(a, b) && alphabetical(b, c) ==> strictly_before(a, c),
        alphabetical(a, b) && strictly_before(b, c) ==> strictly_before(a, c),
        !alphabetical(a, b) ==> strictly_before(b, a),
{
    lemma_alphabetical_total(a, b);
    if alphabetical(a, b) && alphabetical(b, c) {
        lemma_alphabetical_transitive(a, b, c);
        if a == c {
            lemma_alphabetical_antisymmetric(a, b);
        }
    }
}

/// Maps token names to dense `u32` ids for cheap comparison.
///
/// One interner is shared by every unit in a single scan, so that two units
/// from different files that use the same token get the same id.
#[derive(Debug)]
pub struct Interner {
    names: Vec<String>,
    /// Places of the names, in alphabetical order of the names.
    order: Vec<usize>,
}

impl View for Interner {
    type V = Seq<Seq<char>>;

    closed spec fn view(&self) -> Seq<Seq<char>> {
        views(self.names@)
    }
}

impl Default for Interner {
    fn default() -> (i: Self)
        ensures
            i.wf(),
            i@ == Seq::<Seq<char>>::empty(),
    {
        Interner::new()
    }
}

impl Interner {
    /// The index agrees with the names.
    pub closed spec fn wf(self) -> bool {
        sorted_index(self.names@, self.order@)
    }

    /// Create an empty interner.
    pub fn new() -> (i: Self)
        ensures
            i.wf(),
            i@ == Seq::<Seq<char>>::empty(),
    {
        let i = Interner { names: Vec::new(), order: Vec::new() };
        assert(i@ =~= Seq::<Seq<char>>::empty());
        i
    }

    /// The known names are distinct.
    pub proof fn lemma_distinct(self)
        requires
            self.wf(),
        ensures
            self@.no_duplicates(),
    {
        assert forall|i: int, j: int| 0 <= i < self@.len() && 0 <= j < self@.len() && i
            != j implies self@[i] != self@[j] by {
            assert(listed(self.order@, i) && listed(self.order@, j));
            let x = choose|x: int| 0 <= x < self.order@.len() && #[trigger] self.order@[x] == i;
            let y = choose|y: int| 0 <= y < self.order@.len() && #[trigger] self.order@[y] == j;
            assert(self.order@[x] == i && self.order@[y] == j);
            if x < y {
                assert(strictly_before(self@[i], self@[j]));
            } else {
                assert(strictly_before(self@[j], self@[i]));
            }
        }
    }

    /// How many known names stand strictly before `name`.
    fn rank(&self, name: &str) -> (lo: usize)
        requires
            self.wf(),
        ensures
            lo <= self.order.len(),
            forall|i: int|
                0 <= i < lo ==> strictly_before(
                    self.names[#[trigger] self.order[i] as int]@,
                    name@,
                ),
            forall|i: int|
                lo <= i < self.order.len() ==> alphabetical(
                    name@,
                    self.names[#[trigger] self.order[i] as int]@,
                ),
    {
        let mut lo: usize = 0;
        let mut hi: usize = self.order.len();
        while lo < hi
            invariant
                self.wf(),
                lo <= hi <= self.order.len(),
                forall|i: int|
                    0 <= i < lo ==> strictly_before(
                        self.names[#[trigger] self.order[i] as int]@,
                        name@,
                    ),
                forall|i: int|
                    hi <= i < self.order.len() ==> alphabetical(
                        name@,
                        self.names[#[trigger] self.order[i] as int]@,
                    ),
            decreases hi - lo,
        {
            let mid: usize = lo + (hi - lo) / 2;
            let ghost here = self.names[self.order[mid as int] as int]@;
            if text_at_most(name, self.names[self.order[mid]].as_str()) {
                proof {
                    assert forall|i: int| mid <= i < self.order.len() implies alphabetical(
                        name@,
                        self.names[#[trigger] self.order[i] as int]@,
                    ) by {
                        if i > mid {
                            assert(strictly_before(
                                self.names[self.order[mid as int] as int]@,
                                self.names[self.order[i] as int]@,
                            ));
                            lemma_alphabetical_transitive(
                                name@,
                                here,
                                self.names[self.order[i] as int]@,
                            );
                        }
                    }
                }
                hi = mid;
            } else {
                proof {
                    lemma_strictly_before(name@, here, name@);
                    assert forall|i: int| 0 <= i < mid + 1 implies strictly_before(
                        self.names[#[trigger] self.order[i] as int]@,
                        name@,
                    ) by {
                        if i < mid {
                            assert(strictly_before(
                                self.names[self.order[i] as int]@,
                                self.names[self.order[mid as int] as int]@,
                            ));
                            lemma_strictly_before(self.names[self.order[i] as int]@, here, name@);
                        }
                    }
                }
                lo = mid + 1;
            }
        }
        lo
    }

    /// Return the id for `name`, assigning a fresh one if unseen.
    ///
    /// Ids are 32 bits wide; a list of more names than that would reuse them.
    pub fn intern(&mut self, name: &str) -> (id: u32)
        requires
            old(self).wf(),
        ensures
            final(self).wf(),
            final(self)@ == intern_all(old(self)@, seq![name@]),
            id == id_of(final(self)@, name@),
    {
        let ghost known = self@;
        let place: usize = self.rank(name);
        let ghost (names, order) = (self.names@, self.order@);
        proof {
            assert(seq![name@].drop_last() =~= Seq::empty());
            reveal_with_fuel(intern_all, 2);
            self.lemma_distinct();
        }
        if place < self.order.len() && same_text(
            self.names[self.order[place]].as_str(),
            name,
        ) {
            let found: usize = self.order[place];
            proof {
                assert(known[found as int] == name@);
                lemma_index_of(known, found as int);
            }
            return #[verifier::truncate] (found as u32);
        }
        proof {
            assert(!known.contains(name@)) by {
                if known.contains(name@) {
                    let k = choose|k: int| 0 <= k < known.len() && known[k] == name@;
                    assert(listed(order, k));
                    let i = choose|i: int| 0 <= i < order.len() && #[trigger] order[i] == k;
                    assert(names[order[i] as int]@ == name@);
                    if i > place {
                        assert(alphabetical(name@, names[order[place as int] as int]@));
                        assert(strictly_before(
                            names[order[place as int] as int]@,
                            names[order[i] as int]@,
                        ));
                        lemma_alphabetical_antisymmetric(
                            name@,
                            names[order[place as int] as int]@,
                        );
                    }
                }
            }
        }
        proof {
            assert forall|i: int| 0 <= i < names.len() implies #[trigger] names[i]@ != name@ by {
                assert(known[i] == names[i]@);
            }
        }
        let fresh: usize = self.names.len();
        self.names.push(name.to_owned());
        self.order.insert(place, fresh);
        proof {
            lemma_index_grows(names, order, self.names@, self.order@, place as int, name@);
            assert(self@ =~= known.push(name@));
            self.lemma_distinct();
            lemma_index_of(self@, fresh as int);
        }
        #[verifier::truncate] (fresh as u32)
    }

    /// Return the ids for a list of names, in turn.
    pub fn intern_names(&mut self, names: &[&str]) -> (tokens: Vec<u32>)
        requires
            old(self).wf(),
        ensures
            final(self).wf(),
            final(self)@ == intern_all(old(self)@, views(names@)),
            tokens@ == ids_of(final(self)@, views(names@)),
    {
        let mut tokens: Vec<u32> = Vec::new();
        let ghost all = views(names@);
        let ghost known = self@;
        let mut k: usize = 0;
        assert(all.take(0) =~= Seq::empty());
        while k < names.len()
            invariant
                k <= names@.len(),
                all == views(names@),
                self.wf(),
                self@ == intern_all(known, all.take(k as int)),
                tokens@ == ids_of(self@, all.take(k as int)),
                forall|i: int| 0 <= i < k ==> self@.contains(#[trigger] all[i]),
            decreases names.len() - k,
        {
            let ghost before = self@;
            let id: u32 = self.intern(names[k]);
            proof {
                let next = all.take(k + 1);
                let name = all[k as int];
                assert(next.drop_last() =~= all.take(k as int));
                assert(seq![name].drop_last() =~= Seq::empty());
                reveal_with_fuel(intern_all, 2);
                assert(self@ == intern_all(known, next));
                self.lemma_distinct();
                assert forall|i: int| 0 <= i < k + 1 implies self@.contains(
                    #[trigger] all[i],
                ) && (i < k ==> id_of(self@, all[i]) == id_of(before, all[i])) by {
                    if i < k {
                        assert(before.contains(all[i]));
                        let j = before.index_of(all[i]);
                        assert(self@[j] == all[i]);
                        lemma_index_of(self@, j);
                    } else if !before.contains(name) {
                        assert(self@[before.len() as int] == name);
                    }
                }
                assert(ids_of(self@, next) =~= ids_of(before, all.take(k as int)).push(
                    id_of(self@, name),
                ));
            }
            tokens.push(id);
            k += 1;
        }
        assert(all.take(k as int) =~= all);
        tokens
    }

    /// Recover the name behind an id, or `None` if the id was never issued.
    pub fn name(&self, id: u32) -> (name: Option<&str>)
        ensures
            id < self@.len() ==> (name matches Some(n) && n@ == self@[id as int]),
            id >= self@.len() ==> name is None,
    {
        if (id as usize) < self.names.len() {
            Some(self.names[id as usize].as_str())
        } else {
            None
        }
    }

    /// Number of distinct tokens interned so far.
    pub fn len(&self) -> (n: usize)
        ensures
            n == self@.len(),
    {
        self.names.len()
    }

    /// Whether nothing has been interned yet.
    pub fn is_empty(&self) -> (r: bool)
        ensures
            r == (self@.len() == 0),
    {
        self.names.len() == 0
    }
}

proof fn lemma_index_of(names: Seq<Seq<char>>, i: int)
    requires
        names.no_duplicates(),
        0 <= i < names.len(),
    ensures
        names.index_of(names[i]) == i,
{
    assert(names.contains(names[i]));
    let j = names.index_of(names[i]);
    assert(0 <= j < names.len() && names[j] == names[i]);
}

/// Adding a name unseen so far, in its place.
proof fn lemma_index_grows(
    names: Seq<String>,
    order: Seq<usize>,
    names2: Seq<String>,
    order2: Seq<usize>,
    place: int,
    name: Seq<char>,
)
    requires
        sorted_index(names, order),
        names.len() <= usize::MAX,
        0 <= place <= order.len(),
        names2.len() == names.len() + 1,
        forall|i: int| 0 <= i < names.len() ==> #[trigger] names2[i] == names[i],
        names2[names.len() as int]@ == name,
        order2 == order.insert(place, names.len() as usize),
        forall|i: int| 0 <= i < names.len() ==> #[trigger] names[i]@ != name,
        forall|i: int|
            0 <= i < place ==> strictly_before(names[#[trigger] order[i] as int]@, name),
        forall|i: int|
            place <= i < order.len() ==> alphabetical(name, names[#[trigger] order[i] as int]@),
    ensures
        sorted_index(names2, order2),
{
    let fresh = names.len() as usize;
    assert(order2[place] == fresh);
    assert forall|i: int| 0 <= i < order2.len() implies #[trigger] order2[i] < names2.len() by {
        if i < place {
            assert(order2[i] == order[i]);
        } else if i > place {
            assert(order2[i] == order[i - 1]);
        }
    }
    assert forall|i: int, j: int| 0 <= i < j < order2.len() implies strictly_before(
        names2[#[trigger] order2[i] as int]@,
        names2[#[trigger] order2[j] as int]@,
    ) by {
        let oi = if i < place {
            order[i]
        } else if i > place {
            order[i - 1]
        } else {
            fresh
        };
        let oj = if j < place {
            order[j]
        } else if j > place {
            order[j - 1]
        } else {
            fresh
        };
        assert(order2[i] == oi && order2[j] == oj);
        if i != place && j != place {
            let (a, b) = (if i < place { i } else { i - 1 }, if j < place { j } else { j - 1 });
            assert(strictly_before(names[order[a] as int]@, names[order[b] as int]@));
        } else if j == place {
            assert(names[order[i] as int]@ != name);
        } else {
            assert(names[order[j - 1] as int]@ != name);
        }
    }
    assert forall|k: int| 0 <= k < names2.len() implies #[trigger] listed(order2, k) by {
        if k < names.len() {
            assert(listed(order, k));
            let i = choose|i: int| 0 <= i < order.len() && #[trigger] order[i] == k;
            if i < place {
                assert(order2[i] == k);
            } else {
                assert(order2[i + 1] == k);
            }
        }
    }
}

// ----------------------------------------------------------------------- streams

/// What a token stream holds.
#[verifier::ext_equal]
pub struct StreamView {
    /// The interned token ids.
    pub tokens: Seq<u32>,
    /// The content hash.
    pub hash: Seq<char>,
}

/// A normalized, interned token sequence plus its stable content hash.
#[derive(Debug, PartialEq, Eq)]
pub struct TokenStream {
    tokens: Vec<u32>,
    hash: ContentHash,
}

impl View for TokenStream {
    type V = StreamView;

    closed spec fn view(&self) -> StreamView {
        StreamView { tokens: self.tokens@, hash: self.hash@ }
    }
}

impl Clone for TokenStream {
    fn clone(&self) -> (c: Self)
        ensures
            c@ == self@,
    {
        let c = TokenStream { tokens: self.tokens.clone(), hash: self.hash.clone() };
        assert(c.tokens@ =~= self.tokens@);
        c
    }
}

impl TokenStream {
    /// Intern `names` into `interner` and capture the stream's content hash.
    ///
    /// The hash is taken over `names`, so it does not depend on what the
    /// interner had already seen.
    pub fn intern(names: &[&str], interner: &mut Interner) -> (s: Self)
        requires
            old(interner).wf(),
        ensures
            final(interner).wf(),
            final(interner)@ == intern_all(old(interner)@, views(names@)),
            s@.tokens == ids_of(final(interner)@, views(names@)),
            s@.hash == content_hash(views(names@)),
    {
        let hash = ContentHash::of(names);
        let tokens = interner.intern_names(names);
        TokenStream { tokens, hash }
    }

    /// The interned token ids, for similarity comparison.
    pub fn tokens(&self) -> (t: &[u32])
        ensures
            t@ == self@.tokens,
    {
        self.tokens.as_slice()
    }

    /// The stream's stable content hash.
    pub fn hash(&self) -> (h: &ContentHash)
        ensures
            h@ == self@.hash,
    {
        &self.hash
    }

    /// Number of tokens in the stream.
    pub fn len(&self) -> (n: usize)
        ensures
            n == self@.tokens.len(),
    {
        self.tokens.len()
    }

    /// Whether the stream carries no tokens.
    pub fn is_empty(&self) -> (r: bool)
        ensures
            r == (self@.tokens.len() == 0),
    {
        self.tokens.len() == 0
    }
}

// -------------------------------------------------------------------------- laws

/// Distinct names have distinct ids, as long as ids are not reused; and an id
/// leads back to its name.
pub proof fn lemma_ids_identify_names(known: Seq<Seq<char>>, a: Seq<char>, b: Seq<char>)
    requires
        known.no_duplicates(),
        known.len() <= 0x1_0000_0000,
        known.contains(a),
        known.contains(b),
    ensures
        id_of(known, a) == id_of(known, b) <==> a == b,
        known[id_of(known, a) as int] == a,
{
    let i = known.index_of(a);
    let j = known.index_of(b);
    assert(0 <= i < known.len() && known[i] == a);
    assert(0 <= j < known.len() && known[j] == b);
}

/// A name keeps its id whatever is looked up later.
pub proof fn lemma_ids_are_stable(
    known: Seq<Seq<char>>,
    names: Seq<Seq<char>>,
    name: Seq<char>,
)
    requires
        known.no_duplicates(),
        known.contains(name),
    ensures
        intern_all(known, names).no_duplicates(),
        intern_all(known, names).contains(name),
        id_of(intern_all(known, names), name) == id_of(known, name),
    decreases names.len(),
{
    if names.len() > 0 {
        let before = intern_all(known, names.drop_last());
        lemma_ids_are_stable(known, names.drop_last(), name);
        let after = intern_all(known, names);
        let i = before.index_of(name);
        assert(0 <= i < before.len() && before[i] == name);
        assert(after[i] == name);
        assert(after.no_duplicates());
        lemma_index_of(after, i);
    }
}

/// Interning never disturbs what was known: the names already there stay, in
/// their places, and nothing is listed twice.
pub proof fn lemma_interning_extends(known: Seq<Seq<char>>, names: Seq<Seq<char>>)
    requires
        known.no_duplicates(),
    ensures
        intern_all(known, names).no_duplicates(),
        known.len() <= intern_all(known, names).len(),
        intern_all(known, names).take(known.len() as int) == known,
        forall|i: int| 0 <= i < names.len() ==> intern_all(known, names).contains(#[trigger] names[i]),
    decreases names.len(),
{
    if names.len() > 0 {
        let before = intern_all(known, names.drop_last());
        lemma_interning_extends(known, names.drop_last());
        let after = intern_all(known, names);
        assert(after.take(known.len() as int) =~= before.take(known.len() as int));
        assert forall|i: int| 0 <= i < names.len() implies after.contains(#[trigger] names[i]) by {
            if i < names.len() - 1 {
                assert(names.drop_last()[i] == names[i]);
                let j = before.index_of(names[i]);
                assert(after[j] == names[i]);
            } else if !before.contains(names.last()) {
                assert(after[before.len() as int] == names.last());
            }
        }
    } else {
        assert(known.take(known.len() as int) =~= known);
    }
}

/// A token name without the separator in it.
pub open spec fn separable(name: Seq<char>) -> bool {
    forall|i: int| 0 <= i < name.len() ==> #[trigger] name[i] != '\x1f'
}

proof fn lemma_scalar_bytes(c: u32)
    by (bit_vector)
    requires
        c != 0x1f,
    ensures
        vstd::utf8::has_width_1_encoding(c) ==> vstd::utf8::leading_byte_width_1(c) != 0x1f,
        vstd::utf8::leading_byte_width_2(c) != 0x1f,
        vstd::utf8::leading_byte_width_3(c) != 0x1f,
        vstd::utf8::leading_byte_width_4(c) != 0x1f,
        vstd::utf8::last_continuation_byte(c) != 0x1f,
        vstd::utf8::second_last_continuation_byte(c) != 0x1f,
        vstd::utf8::third_last_continuation_byte(c) != 0x1f,
{
}

proof fn lemma_no_separator(name: Seq<char>)
    requires
        separable(name),
    ensures
        forall|i: int|
            0 <= i < encode_utf8(name).len() ==> #[trigger] encode_utf8(name)[i] != HASH_SEPARATOR,
    decreases name.len(),
{
    if name.len() > 0 {
        assert(separable(name.drop_first()));
        lemma_no_separator(name.drop_first());
        let c: char = name[0];
        vstd::utf8::char_is_scalar(c);
        vstd::utf8::char_u32_cast(c, c as u32);
        assert(0x1f_u32 as char == '\x1f');
        lemma_scalar_bytes(c as u32);
        let first = encode_scalar(name[0] as u32);
        assert forall|i: int| 0 <= i < first.len() implies #[trigger] first[i]
            != HASH_SEPARATOR by {}
        let all = encode_utf8(name);
        assert forall|i: int| 0 <= i < all.len() implies #[trigger] all[i] != HASH_SEPARATOR by {
            if i < first.len() {
                assert(all[i] == first[i]);
            } else {
                assert(all[i] == encode_utf8(name.drop_first())[i - first.len()]);
            }
        }
    }
}

/// Different lists of token names are hashed over different bytes: the separator
/// rules out a collision by concatenation.
pub proof fn lemma_hash_input_injective(a: Seq<Seq<char>>, b: Seq<Seq<char>>)
    requires
        forall|i: int| 0 <= i < a.len() ==> separable(#[trigger] a[i]),
        forall|i: int| 0 <= i < b.len() ==> separable(#[trigger] b[i]),
        hash_input(a) == hash_input(b),
    ensures
        a == b,
    decreases a.len() + b.len(),
{
    if a.len() == 0 || b.len() == 0 {
        if a.len() > 0 {
            assert(hash_input(a).last() == HASH_SEPARATOR);
        }
        if b.len() > 0 {
            assert(hash_input(b).last() == HASH_SEPARATOR);
        }
        assert(a =~= b);
    } else {
        lemma_name_at_end(a, b);
        lemma_name_at_end(b, a);
        let (x, y) = (encode_utf8(a.last()), encode_utf8(b.last()));
        let (fa, fb) = (hash_input(a.drop_last()), hash_input(b.drop_last()));
        let all = hash_input(a);
        assert(all == fa + x.push(HASH_SEPARATOR) && all == fb + y.push(HASH_SEPARATOR));
        assert(all.len() == fa.len() + x.len() + 1 && all.len() == fb.len() + y.len() + 1);
        assert(x.len() == y.len() && fa.len() == fb.len());
        assert(x =~= y) by {
            assert forall|i: int| 0 <= i < x.len() implies x[i] == y[i] by {
                assert(all[fa.len() + i] == x.push(HASH_SEPARATOR)[i]);
                assert(all[fb.len() + i] == y.push(HASH_SEPARATOR)[i]);
            }
        }
        assert(fa =~= fb) by {
            assert(fa =~= all.take(fa.len() as int));
            assert(fb =~= all.take(fb.len() as int));
        }
        vstd::utf8::encode_utf8_decode_utf8(a.last());
        vstd::utf8::encode_utf8_decode_utf8(b.last());
        lemma_hash_input_injective(a.drop_last(), b.drop_last());
        assert(a =~= a.drop_last().push(a.last()));
        assert(b =~= b.drop_last().push(b.last()));
    }
}

/// The last name of `a` is no shorter, in bytes, than that of `b`.
proof fn lemma_name_at_end(a: Seq<Seq<char>>, b: Seq<Seq<char>>)
    requires
        a.len() > 0,
        b.len() > 0,
        separable(b.last()),
        hash_input(a) == hash_input(b),
    ensures
        encode_utf8(a.last()).len() >= encode_utf8(b.last()).len(),
{
    let (x, y) = (encode_utf8(a.last()), encode_utf8(b.last()));
    let (fa, fb) = (hash_input(a.drop_last()), hash_input(b.drop_last()));
    let all = hash_input(a);
    assert(all == fa + x.push(HASH_SEPARATOR) && all == fb + y.push(HASH_SEPARATOR));
    if x.len() < y.len() {
        lemma_no_separator(b.last());
        assert(a.drop_last().len() > 0);
        assert(fa.last() == HASH_SEPARATOR);
        assert(all.len() == fa.len() + x.len() + 1);
        assert(all.len() == fb.len() + y.len() + 1);
        let k = fa.len() - 1;
        assert(all[k] == fa[k]);
        assert(all[k] == y.push(HASH_SEPARATOR)[k - fb.len()]);
        assert(all[k] == HASH_SEPARATOR);
        assert(all[k] == y[k - fb.len()]);
    }
}

/// A hash covers every token name of a list, in order: it is the front of the digest of
/// all the names' bytes, each name followed by the separator.
pub proof fn lemma_a_hash_covers_every_name(a: Seq<Seq<char>>, b: Seq<Seq<char>>, name: Seq<char>)
    ensures
        hash_input(Seq::empty()) == Seq::<u8>::empty(),
        hash_input(seq![name]) == encode_utf8(name) + seq![0x1fu8],
        hash_input(a + b) == hash_input(a) + hash_input(b),
        content_hash(a + b) == blake3_hex(hash_input(a) + hash_input(b)).take(32),
    decreases b.len(),
{
    let one = seq![name];
    assert(one.drop_last() =~= Seq::empty());
    assert(hash_input(one.drop_last()) == Seq::<u8>::empty());
    assert(hash_input(one) =~= encode_utf8(name) + seq![0x1fu8]);
    if b.len() == 0 {
        assert(a + b =~= a);
        assert(hash_input(a + b) =~= hash_input(a) + hash_input(b));
    } else {
        lemma_a_hash_covers_every_name(a, b.drop_last(), name);
        assert((a + b).drop_last() =~= a + b.drop_last());
        assert(hash_input(a + b) =~= hash_input(a) + hash_input(b));
    }
}

} // verus!
