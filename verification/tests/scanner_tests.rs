use patternsleuth::pattern::Pattern;
use patternsleuth::scanner::scan_pattern;

fn scan_one(pattern: &str, base: usize, data: &[u8]) -> Vec<usize> {
    let p = Pattern::new(pattern).unwrap();
    let patterns = vec![&p];
    let mut results = scan_pattern(&patterns, base, data);
    results.remove(0)
}

#[test]
fn exact_pattern_matches_at_section_base() {
    let data = [0x48u8, 0x89, 0x5C, 0x24, 0x08];
    assert_eq!(scan_one("48 89 5C 24 08", 0x1000, &data), vec![0x1000]);
}

#[test]
fn half_wildcard_pattern_matches() {
    let data = [0x48u8, 0x89, 0x5C, 0x24, 0x08];
    assert_eq!(scan_one("48 ?? 5C ?? 08", 0x1000, &data), vec![0x1000]);
}

#[test]
fn nibble_wildcards_match() {
    let data = [0x48u8, 0x89, 0x5C];
    assert_eq!(scan_one("4? ?9 5C", 0x40, &data), vec![0x40]);
    assert_eq!(scan_one("5? 89 5C", 0x40, &data), Vec::<usize>::new());
}

#[test]
fn overlapping_matches_are_all_reported() {
    let data = [0xAAu8, 0xAA, 0xAA];
    assert_eq!(scan_one("AA AA", 0x0, &data), vec![0x0, 0x1]);
}

#[test]
fn base_address_is_added() {
    let data = [0xAAu8, 0xAA, 0xAA];
    assert_eq!(scan_one("AA AA", 0x500, &data), vec![0x500, 0x501]);
}

#[test]
fn pattern_longer_than_section_matches_nowhere() {
    let data = [0x48u8, 0x89];
    assert_eq!(scan_one("48 89 5C 24 08", 0x1000, &data), Vec::<usize>::new());
}

#[test]
fn empty_section_has_no_matches() {
    let data: [u8; 0] = [];
    assert_eq!(scan_one("48", 0x1000, &data), Vec::<usize>::new());
}

#[test]
fn anchor_is_subtracted_from_hit_position() {
    // the anchor mark stands before the third byte token, so a hit is
    // reported two bytes below the window
    let data = [0x11u8, 0x22, 0x33];
    assert_eq!(scan_one("11 22 | 33", 0x1000, &data), vec![0xFFE]);
}

#[test]
fn anchor_below_zero_discards_the_match() {
    let data = [0x11u8, 0x22];
    assert_eq!(scan_one("11 | 22", 0x0, &data), Vec::<usize>::new());
}

#[test]
fn identical_patterns_each_receive_the_full_match_list() {
    let p1 = Pattern::new("AA AA").unwrap();
    let p2 = Pattern::new("AA AA").unwrap();
    let patterns = vec![&p1, &p2];
    let data = [0xAAu8, 0xAA, 0xAA];
    let results = scan_pattern(&patterns, 0, &data);
    assert_eq!(results[0], vec![0, 1]);
    assert_eq!(results[1], vec![0, 1]);
}

#[test]
fn multi_pattern_scan_keeps_pattern_order() {
    let p1 = Pattern::new("48 89").unwrap();
    let p2 = Pattern::new("89 5C").unwrap();
    let p3 = Pattern::new("FF").unwrap();
    let patterns = vec![&p1, &p2, &p3];
    let data = [0x48u8, 0x89, 0x5C];
    let results = scan_pattern(&patterns, 0x10, &data);
    assert_eq!(results, vec![vec![0x10], vec![0x11], vec![]]);
}

#[test]
fn pattern_text_grammar_rejects_malformed_input() {
    assert!(Pattern::new("").is_err());
    assert!(Pattern::new("4").is_err());
    assert!(Pattern::new("48 8").is_err());
    assert!(Pattern::new("GG").is_err());
    assert!(Pattern::new("48 89 ???").is_err());
    assert!(Pattern::new("|").is_err());
    assert!(Pattern::new("48 | 89 | 5C").is_err());
    assert!(Pattern::new("|48").is_err());
    assert!(Pattern::new("48 |").is_err());
}

#[test]
fn pattern_accessors_report_length_and_anchor() {
    let p = Pattern::new("48 89 | 5C 24").unwrap();
    assert_eq!(p.len(), 4);
    assert_eq!(p.anchor(), 2);
    let q = Pattern::new("48 89").unwrap();
    assert_eq!(q.anchor(), 0);
    assert_eq!(q.pair_at(0), (0xFF, 0x48));
}

#[test]
fn whitespace_between_tokens_is_flexible() {
    let data = [0x48u8, 0x89];
    assert_eq!(scan_one("  48\t89 ", 0, &data), vec![0]);
}
