use boggle::{build_dict, is_word, is_word_prefix, solve};
use std::collections::BTreeSet;

/// A small linear congruential generator, so that the runs repeat.
struct Lcg(u64);

impl Lcg {
    fn next(&mut self, bound: usize) -> usize {
        self.0 = self.0.wrapping_mul(6364136223846793005).wrapping_add(1442695040888963407);
        ((self.0 >> 33) as usize) % bound
    }
}

fn random_word(rng: &mut Lcg, letters: &[char], max_len: usize) -> String {
    let len = 1 + rng.next(max_len);
    (0..len).map(|_| letters[rng.next(letters.len())]).collect()
}

/// The words that the index holds: the lines that are not empty.
fn expected_index(lines: &[String]) -> BTreeSet<String> {
    lines.iter().filter(|line| !line.is_empty()).cloned().collect()
}

fn all_paths_words(board: &Vec<Vec<char>>, max_cells: usize) -> BTreeSet<String> {
    fn walk(
        board: &Vec<Vec<char>>,
        row: i32,
        col: i32,
        used: &mut Vec<(i32, i32)>,
        word: &mut String,
        max_cells: usize,
        out: &mut BTreeSet<String>,
    ) {
        used.push((row, col));
        word.push(board[row as usize][col as usize]);
        if used.len() >= 2 {
            out.insert(word.clone());
        }
        if used.len() < max_cells {
            for dr in -1..=1 {
                for dc in -1..=1 {
                    let (r, c) = (row + dr, col + dc);
                    if (dr, dc) != (0, 0)
                        && (0..4).contains(&r)
                        && (0..4).contains(&c)
                        && !used.contains(&(r, c))
                    {
                        walk(board, r, c, used, word, max_cells, out);
                    }
                }
            }
        }
        used.pop();
        word.pop();
    }
    let mut out = BTreeSet::new();
    for row in 0..4 {
        for col in 0..4 {
            walk(board, row, col, &mut Vec::new(), &mut String::new(), max_cells, &mut out);
        }
    }
    out
}

#[test]
fn index_agrees_with_its_model_on_random_lists() {
    let mut rng = Lcg(7);
    let letters = ['A', 'B', 'É'];
    for round in 0..40 {
        let count = 1 + rng.next(60);
        let mut lines: Vec<String> =
            (0..count).map(|_| random_word(&mut rng, &letters, 7)).collect();
        if round % 4 == 0 {
            lines.push(String::new());
        }
        if round % 2 == 0 {
            lines.sort();
        }
        let dict = build_dict(&lines);
        let words = expected_index(&lines);
        let mut queries: Vec<String> = lines.clone();
        queries.push(String::new());
        for line in &lines {
            for end in 1..line.chars().count() {
                queries.push(line.chars().take(end).collect());
            }
        }
        for _ in 0..100 {
            queries.push(random_word(&mut rng, &letters, 8));
        }
        for query in &queries {
            let held = words.contains(query);
            assert_eq!(is_word(&dict, query), held && query.chars().count() >= 4, "{:?}", query);
            let starts = words.iter().any(|w| w.starts_with(query.as_str()));
            assert_eq!(is_word_prefix(&dict, query), starts, "{:?}", query);
        }
    }
}

#[test]
fn solve_agrees_with_a_walk_over_all_paths() {
    let mut rng = Lcg(11);
    let letters = ['A', 'E', 'R', 'S', 'T'];
    for round in 0..6 {
        let board: Vec<Vec<char>> = (0..4)
            .map(|_| (0..4).map(|_| letters[rng.next(letters.len())]).collect())
            .collect();
        let mut lines: Vec<String> =
            (0..300).map(|_| random_word(&mut rng, &letters, 6)).collect();
        if round % 2 == 0 {
            lines.sort();
        }
        let dict = build_dict(&lines);
        let index = expected_index(&lines);
        let expected: Vec<String> = all_paths_words(&board, 6)
            .into_iter()
            .filter(|w| w.chars().count() >= 4 && index.contains(w))
            .collect();
        assert_eq!(solve(&board, &dict), expected);
    }
}
