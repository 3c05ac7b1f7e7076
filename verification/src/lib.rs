//! Boggle on a four-by-four grid: verified search for every dictionary word
//! that can be spelled along a trail of adjacent cells, and dice-based board
//! generation.

pub mod dice;
pub mod dict;
pub mod grid;
pub mod search;
pub mod seqs;
pub mod words;

pub use dice::{board_of, get_dice, initialize_board};
pub use dict::{build_dict, holds_any_word, is_word, is_word_prefix};
pub use grid::{set_cell, unvisited_neighbours, Letter, EMPTY, VISITED};
pub use search::{find_words, solve};
pub use words::{bytes_less, insert_sorted, sort_dedup, word_less};
