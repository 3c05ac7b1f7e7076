//! The sixteen letter dice and the boards that they roll.

use crate::grid::{is_capital, is_letter_board, rows};
use rand::rngs::ThreadRng;
use rand::seq::SliceRandom;
use vstd::prelude::*;

verus! {

/// The thread-local random number generator of `rand`.
#[verifier::external_type_specification]
#[verifier::external_body]
pub struct ExThreadRng(ThreadRng);

/// `rand::thread_rng` hands out the generator of the current thread. Nothing
/// is known of the numbers that it will give. It fails only where the
/// operating system has no randomness to seed it with.
pub assume_specification[ rand::thread_rng ]() -> (rng: ThreadRng)
;

/// `SliceRandom::choose` on the faces of a die: one of the faces, picked by
/// the generator, or nothing where there is no face.
#[verifier::external_body]
fn choose_face(die: &Vec<char>, rng: &mut ThreadRng) -> (face: Option<char>)
    ensures
        die@.len() == 0 ==> face is None,
        die@.len() > 0 ==> face is Some && die@.contains(face->0),
{
    die.choose(rng).copied()
}

/// The faces of the sixteen dice.
pub open spec fn dice_table() -> Seq<Seq<char>> {
    seq![
        seq!['R', 'I', 'F', 'O', 'B', 'X'],
        seq!['I', 'F', 'E', 'H', 'E', 'Y'],
        seq!['D', 'E', 'N', 'O', 'W', 'S'],
        seq!['U', 'T', 'O', 'K', 'N', 'D'],
        seq!['H', 'M', 'S', 'R', 'A', 'O'],
        seq!['L', 'U', 'P', 'E', 'T', 'S'],
        seq!['A', 'C', 'I', 'T', 'O', 'A'],
        seq!['Y', 'L', 'G', 'K', 'U', 'E'],
        seq!['S', 'B', 'M', 'J', 'O', 'A'],
        seq!['E', 'H', 'I', 'S', 'P', 'N'],
        seq!['V', 'E', 'T', 'I', 'G', 'N'],
        seq!['B', 'A', 'L', 'I', 'Y', 'T'],
        seq!['E', 'Z', 'A', 'V', 'N', 'D'],
        seq!['R', 'A', 'L', 'E', 'S', 'C'],
        seq!['U', 'W', 'I', 'L', 'R', 'G'],
        seq!['P', 'A', 'C', 'E', 'M', 'D'],
    ]
}

/// The die that is rolled for a cell: the dice are taken from the end of the
/// table while the cells are filled row by row.
pub open spec fn die_of(row: int, col: int) -> int {
    15 - (4 * row + col)
}

/// Every cell has a die of the table, and no two cells have the same one.
pub proof fn lemma_each_die_once(row: int, col: int, other_row: int, other_col: int)
    requires
        0 <= row < 4 && 0 <= col < 4,
        0 <= other_row < 4 && 0 <= other_col < 4,
    ensures
        0 <= die_of(row, col) < 16,
        die_of(row, col) == die_of(other_row, other_col) ==> row == other_row && col == other_col,
{
}

/// The letters laid out on the grid row by row.
pub open spec fn laid_out(letters: Seq<char>) -> Seq<Seq<char>> {
    Seq::new(4, |r: int| Seq::new(4, |c: int| letters[4 * r + c]))
}

/// The sixteen dice, six faces each.
pub fn get_dice() -> (dice: Vec<Vec<char>>)
    ensures
        rows(&dice) == dice_table(),
        dice@.len() == 16,
        forall|d: int| 0 <= d < 16 ==> (#[trigger] dice@[d])@.len() == 6,
{
    let die0 = vec!['R', 'I', 'F', 'O', 'B', 'X'];
    let die1 = vec!['I', 'F', 'E', 'H', 'E', 'Y'];
    let die2 = vec!['D', 'E', 'N', 'O', 'W', 'S'];
    let die3 = vec!['U', 'T', 'O', 'K', 'N', 'D'];
    let die4 = vec!['H', 'M', 'S', 'R', 'A', 'O'];
    let die5 = vec!['L', 'U', 'P', 'E', 'T', 'S'];
    let die6 = vec!['A', 'C', 'I', 'T', 'O', 'A'];
    let die7 = vec!['Y', 'L', 'G', 'K', 'U', 'E'];
    let die8 = vec!['S', 'B', 'M', 'J', 'O', 'A'];
    let die9 = vec!['E', 'H', 'I', 'S', 'P', 'N'];
    let die10 = vec!['V', 'E', 'T', 'I', 'G', 'N'];
    let die11 = vec!['B', 'A', 'L', 'I', 'Y', 'T'];
    let die12 = vec!['E', 'Z', 'A', 'V', 'N', 'D'];
    let die13 = vec!['R', 'A', 'L', 'E', 'S', 'C'];
    let die14 = vec!['U', 'W', 'I', 'L', 'R', 'G'];
    let die15 = vec!['P', 'A', 'C', 'E', 'M', 'D'];
    let dice = vec![
        die0,
        die1,
        die2,
        die3,
        die4,
        die5,
        die6,
        die7,
        die8,
        die9,
        die10,
        die11,
        die12,
        die13,
        die14,
        die15,
    ];
    assert(rows(&dice) =~~= dice_table());
    assert forall|d: int| 0 <= d < 16 implies (#[trigger] dice@[d])@.len() == 6 by {
        assert(dice@[d]@ == rows(&dice)[d]);
    }
    dice
}

/// Every face of every die is an upper-case letter.
pub proof fn lemma_faces_are_capitals()
    ensures
        forall|d: int, f: int|
            0 <= d < 16 && 0 <= f < 6 ==> is_capital(#[trigger] dice_table()[d][f]),
{
    let t = dice_table();
    assert forall|d: int, f: int| 0 <= d < 16 && 0 <= f < 6 implies is_capital(
        #[trigger] t[d][f],
    ) by {
        let die = t[d];
        assert(die.len() == 6);
        assert(is_capital(die[0]) && is_capital(die[1]) && is_capital(die[2]) && is_capital(
            die[3],
        ) && is_capital(die[4]) && is_capital(die[5]));
    }
}

/// The board that shows sixteen letters row by row.
pub fn board_of(letters: &Vec<char>) -> (board: Vec<Vec<char>>)
    requires
        letters@.len() == 16,
    ensures
        rows(&board) == laid_out(letters@),
{
    let mut board: Vec<Vec<char>> = Vec::new();
    let mut row: usize = 0;
    while row < 4
        invariant
            row <= 4,
            letters@.len() == 16,
            board@.len() == row,
            forall|r: int|
                0 <= r < row ==> (#[trigger] board@[r])@ == Seq::new(
                    4,
                    |c: int| letters@[4 * r + c],
                ),
        decreases 4 - row,
    {
        let mut line: Vec<char> = Vec::new();
        let mut col: usize = 0;
        while col < 4
            invariant
                row < 4,
                col <= 4,
                letters@.len() == 16,
                line@.len() == col,
                forall|c: int| 0 <= c < col ==> #[trigger] line@[c] == letters@[4 * row + c],
            decreases 4 - col,
        {
            line.push(letters[4 * row + col]);
            col += 1;
        }
        assert(line@ =~= Seq::new(4, |c: int| letters@[4 * row + c]));
        board.push(line);
        row += 1;
    }
    assert(rows(&board) =~~= laid_out(letters@));
    board
}

/// A fresh board: each die is rolled once, the dice taken from the end of
/// the table while the cells are filled row by row. Whatever the rolls, the
/// board has four rows of four upper-case letters, and each cell shows a face
/// of its own die.
pub fn initialize_board() -> (board: Vec<Vec<char>>)
    ensures
        is_letter_board(rows(&board)),
        forall|r: int, c: int|
            0 <= r < 4 && 0 <= c < 4 ==> dice_table()[die_of(r, c)].contains(
                #[trigger] rows(&board)[r][c],
            ),
{
    let mut dice = get_dice();
    let mut letters: Vec<char> = Vec::new();
    proof {
        assert forall|d: int| 0 <= d < dice@.len() implies (#[trigger] dice@[d])@
            == dice_table()[d] by {
            assert(rows(&dice)[d] == dice@[d]@);
        }
    }
    while letters.len() < 16
        invariant
            letters@.len() <= 16,
            dice@.len() == 16 - letters@.len(),
            forall|d: int| 0 <= d < dice@.len() ==> (#[trigger] dice@[d])@ == dice_table()[d],
            forall|k: int|
                0 <= k < letters@.len() ==> dice_table()[15 - k].contains(#[trigger] letters@[k]),
        decreases 16 - letters@.len(),
    {
        let mut rng = rand::thread_rng();
        let die = dice.pop().unwrap();
        let letter = choose_face(&die, &mut rng).unwrap();
        letters.push(letter);
    }
    let board = board_of(&letters);
    proof {
        lemma_faces_are_capitals();
        assert forall|r: int, c: int| 0 <= r < 4 && 0 <= c < 4 implies dice_table()[die_of(
            r,
            c,
        )].contains(#[trigger] rows(&board)[r][c]) && is_capital(rows(&board)[r][c]) by {
            let k = 4 * r + c;
            assert(rows(&board)[r][c] == letters@[k]);
            let die = dice_table()[15 - k];
            let f = choose|f: int| 0 <= f < die.len() && die[f] == letters@[k];
            assert(is_capital(dice_table()[15 - k][f]));
        }
    }
    board
}

} // verus!
