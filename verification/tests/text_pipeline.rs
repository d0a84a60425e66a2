//! Text-pipeline behavior: segmentation into user-perceived characters,
//! the unit-keyed histogram, and agreement with the byte pipeline on plain
//! ASCII input.

use shannon::byte_hist::ByteHistogram;
use shannon::text_hist::{bins_of_string, bins_of_units, SymbolHistogram};

/// The entropy reduction applied to a unit-keyed histogram's counts; the
/// same fold as on the byte path, since the reducer is pipeline-agnostic.
fn entropy_bits(counts: &[u64], total: u64) -> f64 {
    let t = total as f64;
    let mut acc = 0.0f64;
    for &c in counts {
        if c != 0 {
            let p = c as f64 / t;
            acc += p * p.log2();
        }
    }
    let e = -1.0f64 * acc;
    if e == 0.0 {
        0.0
    } else {
        e
    }
}

#[test]
fn empty_string_has_no_units() {
    let h = bins_of_string(String::new());
    assert_eq!(h.total(), 0);
    assert!(h.counts().is_empty());
    // degenerate input: entropy 0.0 by convention, no division happens
    assert_eq!(entropy_bits(h.counts(), 1), 0.0);
}

#[test]
fn repeated_char_gives_zero_entropy() {
    let h = bins_of_string("aaaa".to_string());
    assert_eq!(h.total(), 4);
    assert_eq!(h.counts(), &vec![4]);
    assert_eq!(entropy_bits(h.counts(), h.total()), 0.0);
}

#[test]
fn two_symbols_evenly_give_one_bit() {
    let h = bins_of_string("abab".to_string());
    assert_eq!(h.total(), 4);
    let mut counts = h.counts().clone();
    counts.sort();
    assert_eq!(counts, vec![2, 2]);
    assert!((entropy_bits(h.counts(), h.total()) - 1.0).abs() < 1e-12);
}

#[test]
fn units_are_graphemes_not_bytes() {
    // an 'e' followed by a combining acute accent is one perceived character
    let h = bins_of_string("e\u{301}".to_string());
    assert_eq!(h.total(), 1);
    assert_eq!(h.counts(), &vec![1]);
}

#[test]
fn mixed_graphemes_count_separately() {
    // "ae\u{301}ae\u{301}" is a, e-acute, a, e-acute: two units, twice each
    let h = bins_of_string("ae\u{301}ae\u{301}".to_string());
    assert_eq!(h.total(), 4);
    let mut counts = h.counts().clone();
    counts.sort();
    assert_eq!(counts, vec![2, 2]);
}

#[test]
fn newlines_and_spaces_are_units() {
    let h = bins_of_string("a b\na".to_string());
    assert_eq!(h.total(), 5);
    let mut counts = h.counts().clone();
    counts.sort();
    assert_eq!(counts, vec![1, 1, 1, 2]);
}

#[test]
fn ascii_text_agrees_with_byte_path() {
    let s = "hello world";
    let th = bins_of_string(s.to_string());
    let mut bh = ByteHistogram::new();
    bh.accumulate(s.as_bytes());
    assert_eq!(th.total(), bh.total());
    let mut tcounts = th.counts().clone();
    tcounts.sort();
    let mut bcounts: Vec<u64> = bh.counts().iter().copied().filter(|&c| c != 0).collect();
    bcounts.sort();
    assert_eq!(tcounts, bcounts);
    let te = entropy_bits(th.counts(), th.total());
    let be = entropy_bits(bh.counts(), bh.total());
    assert!((te - be).abs() < 1e-12);
}

#[test]
fn observe_inserts_then_increments() {
    let mut h = SymbolHistogram::new();
    h.observe(&"x".to_string());
    h.observe(&"y".to_string());
    h.observe(&"x".to_string());
    assert_eq!(h.total(), 3);
    assert_eq!(h.counts(), &vec![2, 1]);
}

#[test]
fn bins_of_units_counts_each_unit() {
    let units: Vec<String> = vec!["ab".to_string(), "c".to_string(), "ab".to_string()];
    let h = bins_of_units(&units);
    assert_eq!(h.total(), 3);
    assert_eq!(h.counts(), &vec![2, 1]);
}
