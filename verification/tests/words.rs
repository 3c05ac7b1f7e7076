use boggle::{bytes_less, insert_sorted, sort_dedup, word_less};

fn strings(words: &[&str]) -> Vec<String> {
    words.iter().map(|w| w.to_string()).collect()
}

#[test]
fn byte_strings_are_ordered_lexicographically() {
    assert!(bytes_less(b"", b"A"));
    assert!(!bytes_less(b"A", b""));
    assert!(!bytes_less(b"", b""));
    assert!(bytes_less(b"AB", b"ABC"));
    assert!(!bytes_less(b"ABC", b"AB"));
    assert!(!bytes_less(b"ABC", b"ABC"));
    assert!(bytes_less(b"ABC", b"ABD"));
    assert!(!bytes_less(b"ABD", b"ABC"));
    assert!(bytes_less(b"AAA", b"B"));
    assert!(!bytes_less(b"B", b"AAA"));
    assert!(bytes_less(&[0x7f], &[0x80]));
}

#[test]
fn strings_are_ordered_by_their_bytes() {
    assert!(word_less(&"CASE".to_string(), &"SEAT".to_string()));
    assert!(!word_less(&"SEAT".to_string(), &"CASE".to_string()));
    assert!(!word_less(&"CASE".to_string(), &"CASE".to_string()));
    assert!(word_less(&"CASE".to_string(), &"CASES".to_string()));
    assert!(word_less(&"Z".to_string(), &"É".to_string()));
    assert!(word_less(&"É".to_string(), &"😀".to_string()));
    for (a, b) in [("APPLE", "APPLY"), ("B", "AB"), ("", "A"), ("É", "Z")] {
        assert_eq!(word_less(&a.to_string(), &b.to_string()), a < b);
    }
}

#[test]
fn insert_sorted_keeps_order_and_drops_repeats() {
    let mut list = strings(&["APPLE", "CHERRY"]);
    insert_sorted(&mut list, "BANANA".to_string());
    assert_eq!(list, strings(&["APPLE", "BANANA", "CHERRY"]));
    insert_sorted(&mut list, "APPLE".to_string());
    assert_eq!(list, strings(&["APPLE", "BANANA", "CHERRY"]));
    insert_sorted(&mut list, "DATE".to_string());
    assert_eq!(list, strings(&["APPLE", "BANANA", "CHERRY", "DATE"]));
    insert_sorted(&mut list, "AARDVARK".to_string());
    assert_eq!(list, strings(&["AARDVARK", "APPLE", "BANANA", "CHERRY", "DATE"]));
    let mut empty: Vec<String> = Vec::new();
    insert_sorted(&mut empty, "FIG".to_string());
    assert_eq!(empty, strings(&["FIG"]));
}

#[test]
fn sort_dedup_sorts_and_drops_repeats() {
    let list = strings(&["PEAR", "APPLE", "PEAR", "FIG", "APPLE", "PEARS"]);
    assert_eq!(sort_dedup(&list), strings(&["APPLE", "FIG", "PEAR", "PEARS"]));
    assert_eq!(sort_dedup(&Vec::new()), Vec::<String>::new());
    let mut by_std = list.clone();
    by_std.sort();
    by_std.dedup();
    assert_eq!(sort_dedup(&list), by_std);
}
