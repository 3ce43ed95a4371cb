//! Token streams and their content identity.

use dupdelta::token::{ContentHash, Interner, TokenStream, HASH_HEX_LEN};

// ------------------------------------------------------------ ContentHash

#[test]
fn content_hash_is_stable_for_identical_names() {
    assert_eq!(ContentHash::of(&["a", "b"]), ContentHash::of(&["a", "b"]));
}

#[test]
fn content_hash_differs_when_token_order_differs() {
    assert_ne!(ContentHash::of(&["a", "b"]), ContentHash::of(&["b", "a"]));
}

#[test]
fn content_hash_separator_prevents_concatenation_collisions() {
    // Without a separator, ["ab","c"] and ["a","bc"] both hash "abc".
    assert_ne!(ContentHash::of(&["ab", "c"]), ContentHash::of(&["a", "bc"]));
}

#[test]
fn content_hash_of_empty_stream_is_defined_and_distinct_from_one_empty_token() {
    let empty: [&str; 0] = [];
    assert_ne!(ContentHash::of(&empty), ContentHash::of(&[""]));
}

#[test]
fn content_hash_is_fixed_width_lowercase_hex() {
    let h = ContentHash::of(&["x"]);
    assert_eq!(h.as_str().len(), HASH_HEX_LEN);
    assert!(h.as_str().chars().all(|c| c.is_ascii_hexdigit() && !c.is_uppercase()));
}

#[test]
fn content_hash_displays_and_debugs_as_its_hex() {
    let h = ContentHash::of(&["x"]);
    assert_eq!(h.to_string(), h.as_str());
    assert!(format!("{h:?}").contains(h.as_str()));
}

#[test]
fn content_hash_orders_and_clones_for_use_as_a_map_key() {
    let mut hashes = [ContentHash::of(&["b"]), ContentHash::of(&["a"])];
    hashes.sort();
    let cloned = hashes[0].clone();
    assert!(hashes[0] <= hashes[1]);
    assert_eq!(cloned, hashes[0]);
}

// --------------------------------------------------------------- Interner

#[test]
fn interner_returns_the_same_id_for_a_repeated_name() {
    let mut i = Interner::new();
    assert_eq!(i.intern("f"), i.intern("f"));
}

#[test]
fn interner_returns_distinct_dense_ids_for_distinct_names() {
    let mut i = Interner::new();
    assert_eq!(i.intern("a"), 0);
    assert_eq!(i.intern("b"), 1);
    assert_eq!(i.len(), 2);
}

#[test]
fn interner_round_trips_an_id_back_to_its_name() {
    let mut i = Interner::new();
    let id = i.intern("call");
    assert_eq!(i.name(id), Some("call"));
}

#[test]
fn interner_reports_none_for_an_id_it_never_issued() {
    let i = Interner::new();
    assert_eq!(i.name(7), None);
}

#[test]
fn interner_starts_empty_and_reports_it() {
    let mut i = Interner::default();
    assert!(i.is_empty());
    i.intern("x");
    assert!(!i.is_empty());
    assert!(format!("{i:?}").contains("Interner"));
}

// ------------------------------------------------------------ TokenStream

#[test]
fn token_stream_interns_names_into_ids() {
    let mut i = Interner::new();
    let s = TokenStream::intern(&["a", "b", "a"], &mut i);
    assert_eq!(s.tokens(), &[0, 1, 0]);
    assert_eq!(s.len(), 3);
    assert!(!s.is_empty());
}

#[test]
fn token_stream_hash_ignores_interner_state() {
    // The same names interned into two interners primed differently must
    // still hash identically -- this is the cross-process stability that
    // the whole delta engine rests on.
    let mut fresh = Interner::new();
    let mut primed = Interner::new();
    primed.intern("unrelated");

    let a = TokenStream::intern(&["x", "y"], &mut fresh);
    let b = TokenStream::intern(&["x", "y"], &mut primed);

    assert_ne!(a.tokens(), b.tokens(), "ids must differ, proving the point");
    assert_eq!(a.hash(), b.hash());
}

#[test]
fn token_stream_of_no_tokens_is_empty() {
    let mut i = Interner::new();
    let empty: [&str; 0] = [];
    let s = TokenStream::intern(&empty, &mut i);
    assert!(s.is_empty());
    assert_eq!(s.len(), 0);
}

#[test]
fn token_stream_clones_and_compares_and_debugs() {
    let mut i = Interner::new();
    let s = TokenStream::intern(&["a"], &mut i);
    let c = s.clone();
    assert_eq!(s, c);
    assert!(format!("{s:?}").contains("TokenStream"));
}
