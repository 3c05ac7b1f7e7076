use boggle::{set_cell, unvisited_neighbours, Letter, EMPTY, VISITED};

fn cells(list: &[(i8, i8)]) -> Vec<Letter> {
    list.iter().map(|&(row, col)| Letter { row, col }).collect()
}

fn empty_mask() -> Vec<Vec<u8>> {
    vec![vec![EMPTY; 4]; 4]
}

#[test]
fn a_corner_has_three_neighbours() {
    let mut mask = empty_mask();
    mask[0][0] = VISITED;
    let found = unvisited_neighbours(&Letter { row: 0, col: 0 }, &mask);
    assert_eq!(found, cells(&[(0, 1), (1, 0), (1, 1)]));
    mask[0][0] = EMPTY;
    mask[3][3] = VISITED;
    let found = unvisited_neighbours(&Letter { row: 3, col: 3 }, &mask);
    assert_eq!(found, cells(&[(2, 2), (2, 3), (3, 2)]));
}

#[test]
fn an_edge_cell_has_five_neighbours() {
    let mut mask = empty_mask();
    mask[0][2] = VISITED;
    let found = unvisited_neighbours(&Letter { row: 0, col: 2 }, &mask);
    assert_eq!(found, cells(&[(0, 1), (0, 3), (1, 1), (1, 2), (1, 3)]));
}

#[test]
fn an_inner_cell_has_eight_neighbours_in_row_major_order() {
    let mut mask = empty_mask();
    mask[1][1] = VISITED;
    let found = unvisited_neighbours(&Letter { row: 1, col: 1 }, &mask);
    assert_eq!(
        found,
        cells(&[(0, 0), (0, 1), (0, 2), (1, 0), (1, 2), (2, 0), (2, 1), (2, 2)])
    );
}

#[test]
fn marked_cells_are_left_out() {
    let mut mask = empty_mask();
    mask[1][1] = VISITED;
    mask[0][1] = VISITED;
    mask[2][2] = VISITED;
    mask[3][3] = VISITED;
    let found = unvisited_neighbours(&Letter { row: 1, col: 1 }, &mask);
    assert_eq!(found, cells(&[(0, 0), (0, 2), (1, 0), (1, 2), (2, 0), (2, 1)]));
}

#[test]
fn the_cell_itself_is_no_neighbour() {
    let mask = empty_mask();
    let found = unvisited_neighbours(&Letter { row: 2, col: 2 }, &mask);
    assert_eq!(
        found,
        cells(&[(1, 1), (1, 2), (1, 3), (2, 1), (2, 3), (3, 1), (3, 2), (3, 3)])
    );
}

#[test]
fn all_neighbours_marked_gives_none() {
    let mut mask = vec![vec![VISITED; 4]; 4];
    mask[0][0] = EMPTY;
    let found = unvisited_neighbours(&Letter { row: 0, col: 0 }, &mask);
    assert_eq!(found, Vec::<Letter>::new());
}

#[test]
fn only_the_mark_counts_as_used() {
    let mut mask = empty_mask();
    mask[0][1] = 2;
    mask[1][0] = VISITED;
    let found = unvisited_neighbours(&Letter { row: 0, col: 0 }, &mask);
    assert_eq!(found, cells(&[(0, 1), (1, 1)]));
}

#[test]
fn set_cell_writes_one_cell() {
    let mut mask = empty_mask();
    set_cell(&mut mask, &Letter { row: 2, col: 1 }, VISITED);
    let mut expected = empty_mask();
    expected[2][1] = VISITED;
    assert_eq!(mask, expected);
    set_cell(&mut mask, &Letter { row: 2, col: 1 }, EMPTY);
    assert_eq!(mask, empty_mask());
}

#[test]
fn mask_values() {
    assert_eq!(EMPTY, 0);
    assert_eq!(VISITED, 1);
}
