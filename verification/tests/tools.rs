//! The tools: scores, texts, paths, sorting and lookup, next to what the standard
//! library makes of the same values.

use std::path::Path;

use dupdelta::keys::{Key, KeyIndex};
use dupdelta::lang::by_name;
use dupdelta::names::name_set;
use dupdelta::path::{
    extension, file_name, file_stem, is_absolute, join, parent, strip_extension, strip_prefix, ByComponents,
};
use dupdelta::ratio::{Ratio, FRACTION_DIGITS};
use dupdelta::sort::sort;
use dupdelta::syntax::{end_of_subtree, parse, text_under};
use dupdelta::text::{
    ascii_lowercase, chars_of, contains_text, find_next, first_word_bounds, is_at, join_texts, lines, pair_at_most,
    push_decimal, push_signed, replace_char, text_between, trim,
};

fn ratio(num: u64, den: u64) -> Ratio {
    Ratio { num, den }
}

// --------------------------------------------------------------------- scores

#[test]
fn scores_compare_as_the_fractions_they_are() {
    let scores = [ratio(0, 1), ratio(1, 3), ratio(2, 6), ratio(17, 20), ratio(1, 1), ratio(3, 2)];
    for a in &scores {
        for b in &scores {
            let value = |r: &Ratio| r.num as f64 / r.den as f64;
            assert_eq!(a.at_most(b), value(a) <= value(b));
            assert_eq!(a == b, value(a) == value(b));
        }
    }
}

#[test]
fn growing_by_exactly_the_margin_does_not_exceed_it() {
    assert!(!ratio(40, 100).exceeds_by(&ratio(35, 100), &ratio(5, 100)));
    assert!(ratio(41, 100).exceeds_by(&ratio(35, 100), &ratio(5, 100)));
    assert!(!ratio(2, 5).exceeds_by(&ratio(7, 20), &ratio(1, 20)));
}

#[test]
fn a_percentage_is_rounded_to_the_nearest_and_ties_go_to_the_even() {
    for (score, percent) in
        [((1, 3), 33), ((2, 3), 67), ((1, 8), 12), ((3, 8), 38), ((0, 7), 0), ((7, 7), 100), ((995, 1000), 100)]
    {
        assert_eq!(ratio(score.0, score.1).percent(), percent);
    }
}

#[test]
fn a_percentage_reads_as_the_standard_formatting_does() {
    for den in 1..60u64 {
        for num in 0..=den {
            let shown = format!("{:.0}", num as f64 / den as f64 * 100.0);
            // A quotient that is a tie only before it was rounded to a double may go
            // either way there.
            if 200 * num % (2 * den) != den {
                assert_eq!(ratio(num, den).percent().to_string(), shown);
            }
        }
    }
}

#[test]
fn a_decimal_number_is_read_exactly() {
    for text in ["0.85", "0", "1", "1.0", "0.05", "0.30", "12.5", "00.1", "0.3333333333333333"] {
        let read = Ratio::from_decimal(text).expect("a number");
        assert_eq!(read.num as f64 / read.den as f64, text.parse::<f64>().unwrap());
    }
    assert_eq!(Ratio::from_decimal("-0.0"), Some(ratio(0, 10)));
    for text in ["", ".", "1.", ".5", "-1", "-0.1", "NaN", "inf", "1e3", "0.1.2", "+1"] {
        assert_eq!(Ratio::from_decimal(text), None);
    }
}

#[test]
fn digits_behind_the_last_one_kept_are_dropped() {
    let long = format!("0.{}", "7".repeat(FRACTION_DIGITS + 5));
    let kept = format!("0.{}", "7".repeat(FRACTION_DIGITS));
    assert_eq!(Ratio::from_decimal(&long), Ratio::from_decimal(&kept));
}

#[test]
fn a_number_above_zero_is_never_read_as_zero() {
    for tiny in [1e-19, 2.5e-30, f64::MIN_POSITIVE] {
        let read = Ratio::from_decimal(&format!("{tiny}")).expect("a number");
        assert_eq!(read, ratio(1, u64::MAX));
        assert!(!read.at_most(&ratio(0, 1)));
        assert!(read.at_most(&ratio(1, 1_000_000_000_000_000_000)));
    }
    let zeros = format!("0.{}", "0".repeat(FRACTION_DIGITS + 5));
    assert_eq!(Ratio::from_decimal(&zeros), Some(ratio(0, 1_000_000_000_000_000_000)));
}

// ---------------------------------------------------------------------- paths

const PATHS: [&str; 33] = [
    "", "/", ".", "..", "a", "a/", "/a", "/a/", "a/b", "a//b", "a/./b", "./a", "/./a", "a/..", "../a", "a/b/c.py",
    "/a/b/c.tar.gz", ".hidden", "a/.hidden", "a.", "a..b", "...", "a/b/", "a/b/.", "//a", "/a/b/../c", "x y/z", "é/ü.rs",
    "/..", "a/...py", "a.b/", "x/a.b/.", "/x.y//",
];

fn text(path: Option<&Path>) -> Option<String> {
    path.map(|p| p.to_str().unwrap().to_string())
}

#[test]
fn paths_are_taken_apart_as_the_standard_library_takes_them() {
    for path in PATHS {
        let known = Path::new(path);
        assert_eq!(file_name(path), text(known.file_name().map(Path::new)), "{path}");
        assert_eq!(file_stem(path), text(known.file_stem().map(Path::new)), "{path}");
        assert_eq!(extension(path), text(known.extension().map(Path::new)), "{path}");
        assert_eq!(parent(path), text(known.parent()), "{path}");
        assert_eq!(is_absolute(path), known.is_absolute(), "{path}");
        let bare = if known.extension().is_some() { known.with_extension("") } else { known.to_path_buf() };
        assert_eq!(strip_extension(path), bare.to_str().unwrap(), "{path}");
    }
}

#[test]
fn paths_are_put_together_as_the_standard_library_puts_them() {
    for base in PATHS {
        for rest in PATHS {
            assert_eq!(join(base, rest), Path::new(base).join(rest).to_str().unwrap(), "{base} {rest}");
            assert_eq!(
                strip_prefix(base, rest),
                text(Path::new(base).strip_prefix(rest).ok()),
                "{base} {rest}"
            );
        }
    }
}

#[test]
fn stripping_undoes_joining() {
    for root in ["/tree", "/tree/", ".", "a//b", "/"] {
        for rel in ["x", "x/y.py", "./x", "x/../y"] {
            let there = join(root, rel);
            let back = strip_prefix(&there, root).expect("lies below");
            assert_eq!(Path::new(&back), Path::new(rel.trim_start_matches("./")));
        }
    }
}

#[test]
fn paths_sort_as_the_standard_library_sorts_them() {
    let mut known: Vec<&Path> = PATHS.iter().map(Path::new).collect();
    known.sort();
    let sorted = sort::<String, ByComponents>(PATHS.iter().map(|p| p.to_string()).collect());
    let sorted: Vec<&Path> = sorted.iter().map(Path::new).collect();
    assert_eq!(sorted, known);
}

// ---------------------------------------------------------------------- texts

const TEXTS: [&str; 16] = [
    "", " ", "a", " a b ", "\t\na\r\n", "\u{a0}x\u{3000}", "a\nb", "a\r\nb\r\n", "\n", "\n\n", "a\rb", "ABC é", "İ", "x|y|z",
    "no end\nhere", "\u{200b}z",
];

#[test]
fn whitespace_is_what_the_standard_library_says_of_every_character() {
    for c in '\0'..=char::MAX {
        let text = c.to_string();
        assert_eq!(trim(&text).is_empty(), c.is_whitespace(), "{c:?}");
    }
    let spaces = "\t\n\u{b}\u{c}\r \u{85}\u{a0}\u{1680}\u{2000}\u{200a}\u{2028}\u{2029}\u{202f}\u{205f}\u{3000}";
    assert_eq!(trim(&format!("{spaces}a\u{200b}{spaces}")), "a\u{200b}");
}

#[test]
fn texts_are_read_as_the_standard_library_reads_them() {
    for s in TEXTS {
        assert_eq!(trim(s), s.trim(), "{s:?}");
        assert_eq!(lines(s), s.lines().collect::<Vec<_>>(), "{s:?}");
        assert_eq!(ascii_lowercase(s), s.to_ascii_lowercase(), "{s:?}");
        assert_eq!(replace_char(s, '|', '/'), s.replace('|', "/"), "{s:?}");
        assert_eq!(chars_of(s), s.chars().collect::<Vec<_>>(), "{s:?}");
        let chars = chars_of(s);
        assert_eq!(text_between(&chars, 0, chars.len()), s);
        let (lo, hi) = first_word_bounds(&chars);
        assert_eq!(text_between(&chars, lo, hi), s.split_whitespace().next().unwrap_or(""), "{s:?}");
        for t in TEXTS {
            assert_eq!(contains_text(&chars, &chars_of(t)), s.contains(t), "{s:?} {t:?}");
            assert_eq!(is_at(&chars, &chars_of(t), 0), s.starts_with(t), "{s:?} {t:?}");
        }
    }
}

#[test]
fn a_character_is_looked_for_from_a_place_on() {
    let chars = chars_of("a.b.c");
    assert_eq!([find_next(&chars, '.', 0), find_next(&chars, '.', 2), find_next(&chars, '.', 4)], [1, 3, 5]);
}

#[test]
fn numbers_are_written_as_the_standard_library_writes_them() {
    for n in [0u128, 7, 10, 99, 100, 65_535, u128::MAX] {
        let mut s = "n = ".to_string();
        push_decimal(&mut s, n);
        assert_eq!(s, format!("n = {n}"));
    }
    for n in [0i32, 128, -1, i32::MIN, i32::MAX] {
        let mut s = String::new();
        push_signed(&mut s, n);
        assert_eq!(s, n.to_string());
    }
}

#[test]
fn texts_are_joined_by_a_separator() {
    let list: Vec<String> = ["a", "", "b"].iter().map(|s| s.to_string()).collect();
    assert_eq!(join_texts(&list, ", "), list.join(", "));
    assert_eq!(join_texts(&[], ", "), "");
}

#[test]
fn pairs_of_texts_are_ordered_as_tuples_are() {
    for a in TEXTS {
        for b in TEXTS {
            assert_eq!(pair_at_most(a, b, b, a), (a, b) <= (b, a));
            assert_eq!(pair_at_most(a, a, a, b), (a, a) <= (a, b));
        }
    }
}

#[test]
fn a_set_of_names_is_sorted_and_without_repetition() {
    let names = ["b", "a", "é", "B", "a"].iter().map(|s| s.to_string()).collect();
    assert_eq!(name_set(names), vec!["B", "a", "b", "é"]);
}

// --------------------------------------------------------------------- lookup

fn key(first: &str, second: &str) -> Key {
    Key { first: first.to_string(), second: second.to_string() }
}

#[test]
fn a_key_is_found_where_it_was_last_added() {
    let mut index = KeyIndex::new();
    index.add(key("a", "b"));
    index.add(key("a", "c"));
    index.add(key("a", "b"));
    index.add(key("a", ""));
    assert_eq!(index.find("a", "b"), Some(2));
    assert_eq!(index.find("a", "c"), Some(1));
    assert_eq!(index.find("a", ""), Some(3));
    assert_eq!(index.find("ab", ""), None);
    assert_eq!(KeyIndex::new().find("", ""), None);
}

// --------------------------------------------------------------------- syntax

#[test]
fn a_tree_is_listed_in_preorder_with_the_names_of_its_nodes() {
    let python = by_name("python").expect("python is registered");
    let nodes = parse(&python, "def f(x):\n    return x\n");
    assert_eq!((nodes[0].kind.as_str(), nodes[0].depth, nodes[0].has_error), ("module", 0, false));
    assert_eq!(end_of_subtree(&nodes, 0, nodes.len()), nodes.len());
    let at = nodes.iter().position(|n| n.kind == "function_definition").expect("a function");
    assert_eq!(text_under(&nodes[at], "name").map(String::as_str), Some("f"));
    assert_eq!(text_under(&nodes[at], "nothing"), None);
    assert_eq!((dupdelta::syntax::line(nodes[at].start_row), dupdelta::syntax::line(nodes[at].end_row)), (1, 2));
    assert!(nodes[at + 1..end_of_subtree(&nodes, at, nodes.len())].iter().all(|n| n.depth > nodes[at].depth));
    assert!(nodes[at].text.starts_with("def f"));
}

#[test]
fn the_last_row_stays_the_last_line() {
    let shown: Vec<usize> = [0, 41, usize::MAX].iter().map(|row| dupdelta::syntax::line(*row)).collect();
    assert_eq!(shown, vec![1, 42, usize::MAX]);
}
