//! Grid geometry: cells, adjacency, the mask of used cells and paths of cells.

use crate::seqs::lemma_push_contains;
use vstd::prelude::*;

verus! {

/// Mask value of a cell that the current trail has not used.
pub const EMPTY: u8 = 0;

/// Mask value of a cell that the current trail has used.
pub const VISITED: u8 = 1;

/// A cell position on the grid.
#[derive(Debug, Clone, Copy, PartialEq, Eq, Structural)]
pub struct Letter {
    pub row: i8,
    pub col: i8,
}

/// The rows of a nested vector as sequences.
pub open spec fn rows<T>(g: &Vec<Vec<T>>) -> Seq<Seq<T>> {
    Seq::new(g@.len(), |r: int| g@[r]@)
}

/// Four rows of four cells.
pub open spec fn is_grid<T>(g: Seq<Seq<T>>) -> bool {
    &&& g.len() == 4
    &&& forall|r: int| 0 <= r < 4 ==> (#[trigger] g[r]).len() == 4
}

/// An upper-case letter of the Latin alphabet.
pub open spec fn is_capital(c: char) -> bool {
    'A' <= c <= 'Z'
}

/// Four rows of four upper-case letters.
pub open spec fn is_letter_board(board: Seq<Seq<char>>) -> bool {
    &&& is_grid(board)
    &&& forall|r: int, c: int| 0 <= r < 4 && 0 <= c < 4 ==> is_capital(#[trigger] board[r][c])
}

/// The position lies on the grid.
pub open spec fn in_grid(l: Letter) -> bool {
    0 <= l.row < 4 && 0 <= l.col < 4
}

/// Two different cells whose rows and whose columns differ by at most one.
pub open spec fn adjacent(a: Letter, b: Letter) -> bool {
    &&& a != b
    &&& -1 <= a.row - b.row <= 1
    &&& -1 <= a.col - b.col <= 1
}

/// What the grid holds at a position.
pub open spec fn at<T>(g: Seq<Seq<T>>, l: Letter) -> T {
    g[l.row as int][l.col as int]
}

/// The cell is not marked as used.
pub open spec fn is_free(mask: Seq<Seq<u8>>, l: Letter) -> bool {
    at(mask, l) != VISITED
}

/// A cell that a trail standing on `from` may step to next.
pub open spec fn open_neighbour(mask: Seq<Seq<u8>>, from: Letter, n: Letter) -> bool {
    in_grid(n) && adjacent(from, n) && is_free(mask, n)
}

/// Rank of a cell in row-major order.
pub open spec fn cell_index(l: Letter) -> int {
    l.row * 4 + l.col
}

/// A path: cells on the grid, each next to the one before it, none twice.
pub open spec fn is_path(p: Seq<Letter>) -> bool {
    &&& forall|i: int| 0 <= i < p.len() ==> in_grid(#[trigger] p[i])
    &&& forall|i: int| 0 <= i < p.len() - 1 ==> adjacent(#[trigger] p[i], p[i + 1])
    &&& forall|i: int, j: int| 0 <= i < j < p.len() ==> p[i] != p[j]
}

/// A trail from `from`: a path of one or more cells that starts next to
/// `from` and keeps to the cells that the mask leaves free.
pub open spec fn is_trail(mask: Seq<Seq<u8>>, from: Letter, q: Seq<Letter>) -> bool {
    &&& q.len() >= 1
    &&& adjacent(from, q[0])
    &&& is_path(q)
    &&& forall|i: int| 0 <= i < q.len() ==> is_free(mask, #[trigger] q[i])
}

/// The letters that the board holds along a sequence of cells.
pub open spec fn spell(board: Seq<Seq<char>>, p: Seq<Letter>) -> Seq<char> {
    Seq::new(p.len(), |i: int| at(board, p[i]))
}

/// A grid of marks: every cell holds `EMPTY` or `VISITED`.
pub open spec fn is_mask(mask: Seq<Seq<u8>>) -> bool {
    &&& is_grid(mask)
    &&& forall|r: int, c: int|
        0 <= r < 4 && 0 <= c < 4 ==> #[trigger] mask[r][c] == EMPTY || mask[r][c] == VISITED
}

/// The grid with one cell replaced.
pub open spec fn with_cell<T>(g: Seq<Seq<T>>, l: Letter, value: T) -> Seq<Seq<T>> {
    g.update(l.row as int, g[l.row as int].update(l.col as int, value))
}

/// The number of cells among the first `n` in row-major order that are not
/// marked as used.
pub open spec fn free_before(mask: Seq<Seq<u8>>, n: nat) -> nat
    decreases n,
{
    if n == 0 {
        0
    } else {
        let k = (n - 1) as nat;
        free_before(mask, k) + if mask[k as int / 4][k as int % 4] != VISITED {
            1nat
        } else {
            0nat
        }
    }
}

/// The number of cells of the grid that are not marked as used.
pub open spec fn free_cells(mask: Seq<Seq<u8>>) -> nat {
    free_before(mask, 16)
}

/// Marking a cell changes the count of free cells before `n` only when the
/// cell was free and lies before `n`.
proof fn lemma_free_before_marked(mask: Seq<Seq<u8>>, l: Letter, n: nat)
    requires
        is_grid(mask),
        in_grid(l),
        n <= 16,
    ensures
        free_before(with_cell(mask, l, VISITED), n) + (if is_free(mask, l) && cell_index(l) < n {
            1nat
        } else {
            0nat
        }) == free_before(mask, n),
    decreases n,
{
    if n > 0 {
        let k = (n - 1) as nat;
        lemma_free_before_marked(mask, l, k);
        let r = k as int / 4;
        let c = k as int % 4;
        assert(0 <= r < 4 && 0 <= c < 4);
        if cell_index(l) == k {
            assert(l.row == r && l.col == c);
        } else {
            assert(l.row != r || l.col != c);
        }
    }
}

/// Marking a free cell leaves one free cell less.
pub proof fn lemma_mark_uses_a_cell(mask: Seq<Seq<u8>>, l: Letter)
    requires
        is_grid(mask),
        in_grid(l),
        is_free(mask, l),
    ensures
        free_cells(with_cell(mask, l, VISITED)) + 1 == free_cells(mask),
{
    lemma_free_before_marked(mask, l, 16);
}

/// Writes one cell of a grid.
pub fn set_cell<T>(grid: &mut Vec<Vec<T>>, l: &Letter, value: T)
    requires
        is_grid(rows(old(grid))),
        in_grid(*l),
    ensures
        rows(final(grid)) == with_cell(rows(old(grid)), *l, value),
{
    assert(rows(grid)[l.row as int] == grid@[l.row as int]@);
    grid[l.row as usize][l.col as usize] = value;
    assert(rows(grid) =~~= with_cell(rows(old(grid)), *l, value));
}

/// The cells next to `letter`, on the grid and not marked in `visited`, each
/// once and in row-major order.
pub fn unvisited_neighbours(letter: &Letter, visited: &Vec<Vec<u8>>) -> (neighbours: Vec<Letter>)
    requires
        in_grid(*letter),
        is_grid(rows(visited)),
    ensures
        forall|n: Letter| neighbours@.contains(n) <==> open_neighbour(rows(visited), *letter, n),
        forall|i: int, j: int|
            0 <= i < j < neighbours@.len() ==> cell_index(neighbours@[i]) < cell_index(
                neighbours@[j],
            ),
{
    let mut neighbours: Vec<Letter> = Vec::new();
    let lower_bound: i8 = -1;
    let upper_bound: i8 = 4;
    let mut row: i8 = letter.row - 1;
    while row <= letter.row + 1
        invariant
            in_grid(*letter),
            is_grid(rows(visited)),
            lower_bound == -1,
            upper_bound == 4,
            letter.row - 1 <= row <= letter.row + 2,
            forall|n: Letter|
                #![trigger neighbours@.contains(n)]
                neighbours@.contains(n) <==> open_neighbour(rows(visited), *letter, n) && n.row
                    < row,
            forall|i: int, j: int|
                0 <= i < j < neighbours@.len() ==> cell_index(neighbours@[i]) < cell_index(
                    neighbours@[j],
                ),
        decreases letter.row + 2 - row,
    {
        let mut col: i8 = letter.col - 1;
        while col <= letter.col + 1
            invariant
                in_grid(*letter),
                is_grid(rows(visited)),
                lower_bound == -1,
                upper_bound == 4,
                letter.row - 1 <= row <= letter.row + 1,
                letter.col - 1 <= col <= letter.col + 2,
                forall|n: Letter|
                    #![trigger neighbours@.contains(n)]
                    neighbours@.contains(n) <==> open_neighbour(rows(visited), *letter, n) && (
                    n.row < row || (n.row == row && n.col < col)),
                forall|i: int, j: int|
                    0 <= i < j < neighbours@.len() ==> cell_index(neighbours@[i]) < cell_index(
                        neighbours@[j],
                    ),
            decreases letter.col + 2 - col,
        {
            let next = Letter { row, col };
            let ghost before = neighbours@;
            if (row < upper_bound && row > lower_bound) && (col < upper_bound && col > lower_bound)
                && !(row == letter.row && col == letter.col) {
                assert(rows(visited)[row as int] == visited@[row as int]@);
                if visited[row as usize][col as usize] != VISITED {
                    neighbours.push(next);
                    proof {
                        lemma_push_contains(before, next);
                        assert forall|i: int| 0 <= i < before.len() implies cell_index(before[i])
                            < cell_index(next) by {
                            assert(before.contains(before[i]));
                        }
                    }
                }
            }
            proof {
                assert forall|n: Letter|
                    neighbours@.contains(n) <==> open_neighbour(rows(visited), *letter, n) && (
                    n.row < row || (n.row == row && n.col < col + 1)) by {
                    if n.row == row && n.col == col {
                        assert(n == next);
                    }
                    assert(before.contains(n) <==> open_neighbour(rows(visited), *letter, n) && (
                    n.row < row || (n.row == row && n.col < col)));
                }
            }
            col += 1;
        }
        row += 1;
    }
    neighbours
}

} // verus!
