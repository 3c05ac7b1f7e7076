use boggle::{build_dict, find_words, solve, Letter, EMPTY, VISITED};

fn board(rows: [&str; 4]) -> Vec<Vec<char>> {
    rows.iter().map(|r| r.chars().collect()).collect()
}

fn lines(words: &[&str]) -> Vec<String> {
    words.iter().map(|w| w.to_string()).collect()
}

fn strings(words: &[&str]) -> Vec<String> {
    lines(words)
}

fn mask_with(cells: &[(usize, usize)]) -> Vec<Vec<u8>> {
    let mut mask = vec![vec![EMPTY; 4]; 4];
    for &(r, c) in cells {
        mask[r][c] = VISITED;
    }
    mask
}

#[test]
fn finds_every_dictionary_word_with_a_trail() {
    let b = board(["CASE", "XXAT", "XXXX", "XXXX"]);
    let dict = build_dict(&lines(&["CASE", "SEAT"]));
    assert_eq!(solve(&b, &dict), strings(&["CASE", "SEAT"]));
}

#[test]
fn leaves_out_a_word_without_a_trail() {
    let b = board(["CASE", "XXXT", "XXXX", "XXXX"]);
    let dict = build_dict(&lines(&["CASE", "SEAT"]));
    assert_eq!(solve(&b, &dict), strings(&["CASE"]));
}

#[test]
fn empty_dictionary_gives_no_words() {
    let b = board(["CASE", "XXAT", "XXXX", "XXXX"]);
    let dict = build_dict(&Vec::new());
    assert_eq!(solve(&b, &dict), Vec::<String>::new());
}

#[test]
fn board_without_any_trail_gives_no_words() {
    let b = board(["XXXX", "XXXX", "XXXX", "XXXX"]);
    let dict = build_dict(&lines(&["CASE", "SEAT"]));
    assert_eq!(solve(&b, &dict), Vec::<String>::new());
}

#[test]
fn output_is_sorted() {
    let b = board(["CASE", "XXAT", "STOP", "XXXX"]);
    let dict = build_dict(&lines(&["STOP", "POTS", "CASE", "SEAT", "TOPS", "EATS"]));
    assert_eq!(solve(&b, &dict), strings(&["CASE", "EATS", "POTS", "SEAT", "STOP"]));
}

#[test]
fn a_word_with_two_trails_comes_once() {
    let b = board(["SEXX", "EDXX", "XXXX", "XXXX"]);
    let dict = build_dict(&lines(&["SEED"]));
    assert_eq!(solve(&b, &dict), strings(&["SEED"]));
}

#[test]
fn a_word_read_both_ways_comes_once() {
    let b = board(["DEED", "XXXX", "XXXX", "XXXX"]);
    let dict = build_dict(&lines(&["DEED"]));
    assert_eq!(solve(&b, &dict), strings(&["DEED"]));
}

#[test]
fn words_under_four_letters_are_left_out() {
    let b = board(["CASE", "XXAT", "XXXX", "XXXX"]);
    let dict = build_dict(&lines(&["CAS", "CASE", "EAT", "SEA"]));
    assert_eq!(solve(&b, &dict), strings(&["CASE"]));
}

#[test]
fn a_cell_is_used_once_in_a_word() {
    let b = board(["NOXX", "XXXX", "XXXX", "XXXX"]);
    let dict = build_dict(&lines(&["NOON"]));
    assert_eq!(solve(&b, &dict), Vec::<String>::new());
}

#[test]
fn letters_must_be_adjacent() {
    let b = board(["CXAX", "XXXX", "SXEX", "XXXX"]);
    let dict = build_dict(&lines(&["CASE"]));
    assert_eq!(solve(&b, &dict), Vec::<String>::new());
}

#[test]
fn diagonal_steps_count() {
    let b = board(["CXXX", "XAXX", "XXSX", "XXXE"]);
    let dict = build_dict(&lines(&["CASE"]));
    assert_eq!(solve(&b, &dict), strings(&["CASE"]));
}

#[test]
fn a_long_trail_is_followed() {
    let b = board(["ABCD", "HGFE", "IJKL", "PONM"]);
    let dict = build_dict(&lines(&["ABCDEFGHIJKLMNOP"]));
    assert_eq!(solve(&b, &dict), strings(&["ABCDEFGHIJKLMNOP"]));
}

#[test]
fn solving_twice_gives_the_same_list() {
    let b = board(["CASE", "XXAT", "STOP", "XXXX"]);
    let dict = build_dict(&lines(&["CASE", "EATS", "POTS", "SEAT", "STOP"]));
    let first = solve(&b, &dict);
    let second = solve(&b, &dict);
    assert_eq!(first, second);
    assert_eq!(first.len(), 5);
}

#[test]
fn output_is_strictly_ascending_and_each_word_is_in_the_dictionary() {
    let b = board(["STOP", "AERS", "TLIN", "ESDG"]);
    let list = lines(&[
        "EARS", "LIER", "LIES", "LINE", "POSE", "REST", "RISE", "ROPE", "ROSE", "SEAL", "SEAT",
        "SIDE", "SING", "SLID", "SORE", "STAR", "STOP", "TEAL", "TEAR", "TOES", "TORE",
    ]);
    let dict = build_dict(&list);
    let found = solve(&b, &dict);
    assert!(!found.is_empty());
    for pair in found.windows(2) {
        assert!(pair[0] < pair[1]);
    }
    for word in &found {
        assert!(word.len() >= 4);
        assert!(list.contains(word));
    }
}

#[test]
fn q_stands_for_itself() {
    let dict = build_dict(&lines(&["QUIT"]));
    let with_u = board(["QUIT", "XXXX", "XXXX", "XXXX"]);
    assert_eq!(solve(&with_u, &dict), strings(&["QUIT"]));
    let without_u = board(["QITX", "XXXX", "XXXX", "XXXX"]);
    assert_eq!(solve(&without_u, &dict), Vec::<String>::new());
}

#[test]
fn length_is_counted_in_characters() {
    let b = board(["ÉÈXX", "XXXX", "XXXX", "XXXX"]);
    let dict = build_dict(&lines(&["ÉÈ", "ÈÉ", "ÉX", "ÉÈX"]));
    assert_eq!(solve(&b, &dict), Vec::<String>::new());
    let b = board(["ÉÈÀÙ", "XXXX", "XXXX", "XXXX"]);
    let dict = build_dict(&lines(&["ÉÈÀÙ", "ÙÀÈÉ", "ÉÈÀ", "ÈÀ"]));
    assert_eq!(solve(&b, &dict), strings(&["ÉÈÀÙ", "ÙÀÈÉ"]));
}

#[test]
fn a_word_listed_after_a_longer_one_is_found() {
    let b = board(["CASE", "XXXS", "XXXX", "XXXX"]);
    let dict = build_dict(&lines(&["CASES", "CASE"]));
    assert_eq!(solve(&b, &dict), strings(&["CASE", "CASES"]));
}

#[test]
fn a_single_cell_is_no_word() {
    let b = board(["😀XXX", "XXXX", "XXXX", "XXXX"]);
    let dict = build_dict(&lines(&["😀"]));
    assert_eq!(solve(&b, &dict), Vec::<String>::new());
}

#[test]
fn find_words_goes_on_from_the_given_word() {
    let b = board(["DEED", "XXXX", "XXXX", "XXXX"]);
    let dict = build_dict(&lines(&["DEED", "REED"]));
    let mut mask = mask_with(&[(0, 0)]);
    let found = find_words(&"D".to_string(), &Letter { row: 0, col: 0 }, &mut mask, &b, &dict);
    assert_eq!(found, strings(&["DEED"]));
    assert_eq!(mask, mask_with(&[(0, 0)]));

    let mut mask = mask_with(&[(0, 0), (0, 1)]);
    let found = find_words(&"RE".to_string(), &Letter { row: 0, col: 1 }, &mut mask, &b, &dict);
    assert_eq!(found, strings(&["REED"]));
    assert_eq!(mask, mask_with(&[(0, 0), (0, 1)]));
}

#[test]
fn find_words_gives_a_word_once_for_each_trail() {
    let b = board(["SEXX", "EDXX", "XXXX", "XXXX"]);
    let dict = build_dict(&lines(&["SEED"]));
    let mut mask = mask_with(&[(0, 0)]);
    let found = find_words(&"S".to_string(), &Letter { row: 0, col: 0 }, &mut mask, &b, &dict);
    assert_eq!(found, strings(&["SEED", "SEED"]));
    assert_eq!(mask, mask_with(&[(0, 0)]));
}

#[test]
fn find_words_goes_on_past_a_word_that_is_a_prefix() {
    let b = board(["SEXX", "TAXX", "SXXX", "XXXX"]);
    let dict = build_dict(&lines(&["SEAT", "SEATS"]));
    let mut mask = mask_with(&[(0, 0)]);
    let found = find_words(&"S".to_string(), &Letter { row: 0, col: 0 }, &mut mask, &b, &dict);
    assert_eq!(found.len(), 2);
    assert_eq!(found, strings(&["SEAT", "SEATS"]));
    assert_eq!(mask, mask_with(&[(0, 0)]));
}

#[test]
fn find_words_frees_the_cells_of_dead_ends() {
    let b = board(["SEXX", "TAXX", "SXXX", "XXXX"]);
    let dict = build_dict(&lines(&["SATE"]));
    let mut mask = mask_with(&[(0, 0)]);
    let found = find_words(&"S".to_string(), &Letter { row: 0, col: 0 }, &mut mask, &b, &dict);
    assert_eq!(found, strings(&["SATE"]));
    assert_eq!(mask, mask_with(&[(0, 0)]));
}

#[test]
fn find_words_keeps_off_marked_cells() {
    let b = board(["CASE", "XXAT", "XXXX", "XXXX"]);
    let dict = build_dict(&lines(&["CASE", "SEAT"]));
    let mut mask = mask_with(&[(0, 2), (1, 3)]);
    let found = find_words(&"S".to_string(), &Letter { row: 0, col: 2 }, &mut mask, &b, &dict);
    assert_eq!(found, Vec::<String>::new());
    let mut mask = mask_with(&[(0, 2)]);
    let found = find_words(&"S".to_string(), &Letter { row: 0, col: 2 }, &mut mask, &b, &dict);
    assert_eq!(found, strings(&["SEAT"]));
}
