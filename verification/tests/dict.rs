use boggle::{build_dict, holds_any_word, is_word, is_word_prefix};

fn lines(words: &[&str]) -> Vec<String> {
    words.iter().map(|w| w.to_string()).collect()
}

#[test]
fn is_word_wants_four_characters_and_an_exact_match() {
    let dict = build_dict(&lines(&["CAT", "CATS", "HOUSE"]));
    assert!(is_word(&dict, &"CATS".to_string()));
    assert!(is_word(&dict, &"HOUSE".to_string()));
    assert!(!is_word(&dict, &"CAT".to_string()));
    assert!(!is_word(&dict, &"HOUS".to_string()));
    assert!(!is_word(&dict, &"HOUSES".to_string()));
    assert!(!is_word(&dict, &"cats".to_string()));
    assert!(!is_word(&dict, &"".to_string()));
}

#[test]
fn is_word_counts_characters_not_bytes() {
    let dict = build_dict(&lines(&["ÉÉ", "ÉÈÀ", "ÉÈÀÙ", "😀"]));
    assert!(!is_word(&dict, &"ÉÉ".to_string()));
    assert!(!is_word(&dict, &"ÉÈÀ".to_string()));
    assert!(!is_word(&dict, &"😀".to_string()));
    assert!(is_word(&dict, &"ÉÈÀÙ".to_string()));
}

#[test]
fn every_word_starts_with_the_empty_word() {
    let dict = build_dict(&lines(&["CAT"]));
    assert!(is_word_prefix(&dict, &"".to_string()));
    let dict = build_dict(&lines(&["\u{ff}", "ÿÿ"]));
    assert!(is_word_prefix(&dict, &"".to_string()));
    let dict = build_dict(&lines(&["\u{0}"]));
    assert!(is_word_prefix(&dict, &"".to_string()));
    let dict = build_dict(&lines(&["", ""]));
    assert!(!is_word_prefix(&dict, &"".to_string()));
    let dict = build_dict(&Vec::new());
    assert!(!is_word_prefix(&dict, &"".to_string()));
}

#[test]
fn holds_any_word_tells_an_empty_index() {
    assert!(!holds_any_word(&build_dict(&Vec::new())));
    assert!(!holds_any_word(&build_dict(&lines(&[""]))));
    assert!(holds_any_word(&build_dict(&lines(&["A"]))));
    assert!(holds_any_word(&build_dict(&lines(&["", "😀"]))));
    assert!(holds_any_word(&build_dict(&lines(&["ZEBRA", "APPLE"]))));
}

#[test]
fn is_word_prefix_looks_for_a_word_that_starts_so() {
    let dict = build_dict(&lines(&["CAT", "CATS", "HOUSE"]));
    assert!(is_word_prefix(&dict, &"C".to_string()));
    assert!(is_word_prefix(&dict, &"CAT".to_string()));
    assert!(is_word_prefix(&dict, &"CATS".to_string()));
    assert!(is_word_prefix(&dict, &"HOUS".to_string()));
    assert!(!is_word_prefix(&dict, &"CATSX".to_string()));
    assert!(!is_word_prefix(&dict, &"D".to_string()));
    assert!(!is_word_prefix(&dict, &"OUSE".to_string()));
}

#[test]
fn empty_list_gives_an_empty_index() {
    let dict = build_dict(&Vec::new());
    assert!(!is_word(&dict, &"CASE".to_string()));
    assert!(!is_word_prefix(&dict, &"C".to_string()));
}

#[test]
fn empty_lines_and_repeated_lines_change_nothing() {
    let dict = build_dict(&lines(&["", "CASE", "", "CASE", "SEAT"]));
    assert!(is_word(&dict, &"CASE".to_string()));
    assert!(is_word(&dict, &"SEAT".to_string()));
    assert!(!is_word(&dict, &"".to_string()));
    assert!(is_word_prefix(&dict, &"SEA".to_string()));
}

#[test]
fn a_sorted_list_is_indexed_whole() {
    let dict = build_dict(&lines(&["CASE", "CASES", "CASEWORK", "CAST", "CASTLE"]));
    for word in ["CASE", "CASES", "CASEWORK", "CAST", "CASTLE"] {
        assert!(is_word(&dict, &word.to_string()));
    }
    assert!(!is_word(&dict, &"CASEW".to_string()));
    assert!(is_word_prefix(&dict, &"CASEW".to_string()));
}

#[test]
fn a_line_after_a_longer_line_that_starts_with_it_is_indexed() {
    let dict = build_dict(&lines(&["CASES", "CASE", "SEAT"]));
    assert!(is_word(&dict, &"CASES".to_string()));
    assert!(is_word(&dict, &"CASE".to_string()));
    assert!(is_word(&dict, &"SEAT".to_string()));
    assert!(is_word_prefix(&dict, &"CASE".to_string()));
    let dict = build_dict(&lines(&["APPLE", "APP", "APPLES", "APPL"]));
    assert!(is_word(&dict, &"APPLE".to_string()));
    assert!(is_word(&dict, &"APPL".to_string()));
    assert!(is_word(&dict, &"APPLES".to_string()));
    assert!(!is_word(&dict, &"APP".to_string()));
    assert!(!is_word(&dict, &"APPLESS".to_string()));
}

#[test]
fn lines_are_indexed_as_they_stand() {
    let dict = build_dict(&lines(&["word", " CASE", "CASE ", "Seat"]));
    assert!(is_word(&dict, &"word".to_string()));
    assert!(is_word(&dict, &" CASE".to_string()));
    assert!(is_word(&dict, &"CASE ".to_string()));
    assert!(is_word(&dict, &"Seat".to_string()));
    assert!(!is_word(&dict, &"CASE".to_string()));
    assert!(!is_word(&dict, &"WORD".to_string()));
    assert!(!is_word(&dict, &"SEAT".to_string()));
}
