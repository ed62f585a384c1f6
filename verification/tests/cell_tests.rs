use tromino_puzzle::cell::{Cell, PuzzleError};

#[test]
fn encode_is_row_major() {
    assert_eq!(Cell(2, 3).encode(Cell(4, 5)), Ok(13));
    assert_eq!(Cell(0, 0).encode(Cell(1, 1)), Ok(0));
}

#[test]
fn encode_rejects_cells_outside() {
    assert_eq!(Cell(4, 0).encode(Cell(4, 5)), Err(PuzzleError::OutOfRange));
    assert_eq!(Cell(0, 5).encode(Cell(4, 5)), Err(PuzzleError::OutOfRange));
}

#[test]
fn neighbor_order_and_clipping() {
    assert_eq!(
        Cell(1, 1).neighbor(Cell(3, 3)),
        vec![Cell(0, 1), Cell(2, 1), Cell(1, 0), Cell(1, 2)]
    );
    assert_eq!(Cell(0, 0).neighbor(Cell(2, 2)), vec![Cell(1, 0), Cell(0, 1)]);
    assert_eq!(Cell(1, 1).neighbor(Cell(2, 2)), vec![Cell(0, 1), Cell(1, 0)]);
    assert_eq!(Cell(0, 0).neighbor(Cell(1, 1)), vec![]);
}

#[test]
fn arithmetic_on_cells() {
    assert_eq!(Cell(1, 2) + Cell(3, 4), Cell(4, 6));
    assert_eq!(Cell(3, 4) - Cell(1, 2), Cell(2, 2));
    assert_eq!(Cell(1, 2).mul(3), Cell(3, 6));
    assert_eq!(Cell(3, 4).dim(), 12);
    assert_eq!(Cell(1, 5).mahattan_dist(Cell(4, 2)), 6);
    assert!(Cell(1, 1).inside(Cell(0, 0), Cell(1, 1)));
    assert!(!Cell(2, 1).inside(Cell(0, 0), Cell(1, 1)));
}

#[test]
fn encode_rejects_an_index_too_large() {
    let limit = Cell(usize::MAX, usize::MAX);
    assert_eq!(Cell(2, 0).encode(limit), Err(PuzzleError::OrderTooLarge));
    assert_eq!(Cell(1, 1).encode(limit), Err(PuzzleError::OrderTooLarge));
    assert_eq!(Cell(1, 0).encode(limit), Ok(usize::MAX));
    assert_eq!(Cell(0, 5).encode(limit), Ok(5));
}
