//! Tests for the shared helpers: statistics, the tie-break, the merge
//! rewrite, and token rendering.

use minbpe::base::encode_ids;
use minbpe::get_max_entry;
use minbpe::get_stats;
use minbpe::merge;
use minbpe::update_stats;
use minbpe::Count;
use minbpe::Pair;
use minbpe::Token;

#[test]
fn test_replace_control_characters() {
    let s = "Hello\nWorld\u{7}!";
    let result = minbpe::fmt::replace_control_characters(s);
    assert_eq!(result, "Hello\\u000aWorld\\u0007!");
}

#[test]
fn test_render_token() {
    let token = b"Hello\nWorld\x07!".to_vec();
    let result = minbpe::fmt::render_token(&token);
    assert_eq!(result, "Hello\\u000aWorld\\u0007!");
}

#[test]
fn test_indexmap_order() {
    let input_data: Vec<(Pair, Count)> = vec![
        ((0, 0), 2),
        ((1, 1), 12),
        ((2, 2), 18),
        ((3, 3), 11),
        ((4, 4), 1),
        ((5, 5), 9),
        ((6, 6), 99),
        ((7, 7), 7),
        ((8, 8), 20),
        ((9, 9), 99),
        ((10, 10), 99),
        ((11, 11), 99),
        ((12, 12), 4),
        ((13, 13), 99),
        ((14, 14), 19),
        ((15, 15), 99),
        ((16, 16), 5),
        ((17, 17), 99),
        ((18, 18), 99),
        ((19, 19), 7),
    ];

    let expected_max_key: Pair = (6, 6);

    let stats: Vec<(Pair, Count)> = input_data.clone();

    let keys: Vec<Pair> = stats.iter().map(|(k, _)| *k).collect();
    let input_keys: Vec<Pair> = input_data.iter().map(|(k, _)| *k).collect();

    assert_eq!(keys, input_keys, "Keys are not in insertion order");

    let entries: Vec<(Pair, Count)> = stats.clone();
    assert_eq!(
        entries, input_data,
        "Entries are not in insertion order"
    );

    let max_entry = get_max_entry(&stats);

    let pair = max_entry.expect("Stats is empty");

    assert_eq!(pair.0, expected_max_key);
}

#[test]
fn test_get_stats_counts_pairs() {
    let ids: Vec<Token> = vec![1, 2, 3, 1, 2];
    let counts = get_stats(&ids);
    assert_eq!(counts, vec![((1, 2), 2), ((2, 3), 1), ((3, 1), 1)]);
}

#[test]
fn test_update_stats_folds_into_existing() {
    let ids: Vec<Token> = vec![1, 2, 3, 1, 2];
    let mut existing: Vec<(Pair, Count)> = vec![((1, 2), 1), ((2, 3), 1)];
    update_stats(&ids, &mut existing);
    assert_eq!(existing, vec![((1, 2), 3), ((2, 3), 2), ((3, 1), 1)]);
}

#[test]
fn test_merge_replaces_non_overlapping() {
    let ids: Vec<Token> = vec![1, 2, 3, 1, 2];
    let merged = merge(&ids, (1, 2), 4);
    assert_eq!(merged, vec![4, 3, 4]);
}

#[test]
fn test_merge_does_not_rematch_within_pass() {
    // In "aaa" the first two tokens merge and scanning resumes after them.
    let ids: Vec<Token> = vec![97, 97, 97];
    let merged = merge(&ids, (97, 97), 256);
    assert_eq!(merged, vec![256, 97]);
}

#[test]
fn test_tie_break_prefers_first_inserted() {
    // Two pairs tie at the maximum; the first-inserted one wins.
    let stats: Vec<(Pair, Count)> = vec![((5, 6), 3), ((1, 2), 7), ((3, 4), 7)];
    let max_entry = get_max_entry(&stats).unwrap();
    assert_eq!(max_entry.0, (1, 2));
    assert_eq!(max_entry.1, 7);
}

#[test]
fn test_get_max_entry_empty() {
    let stats: Vec<(Pair, Count)> = Vec::new();
    assert!(get_max_entry(&stats).is_none());
}

#[test]
fn test_encode_ids_applies_lowest_merge_first() {
    // Encoding applies the merge with the smallest token id first, even
    // though a higher-id merge is also applicable.
    let merges: Vec<(Pair, Token)> = vec![((97, 98), 256), ((98, 99), 257)];
    // "abc": (97,98) has the lower id, so it is applied, leaving [256, 99].
    let r = encode_ids(&merges, vec![97, 98, 99]);
    assert_eq!(r, vec![256, 99]);
}
