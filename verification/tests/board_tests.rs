use tromino_puzzle::board::Board;
use tromino_puzzle::cell::{Cell, PuzzleError};

fn count_cells(board: &Board, id: usize) -> Vec<Cell> {
    let mut cells = Vec::new();
    for (r, row) in board.0.iter().enumerate() {
        for (c, &value) in row.iter().enumerate() {
            if value == id {
                cells.push(Cell(r, c));
            }
        }
    }
    cells
}

fn is_l_tromino(cells: &[Cell]) -> bool {
    if cells.len() != 3 {
        return false;
    }
    let min_r = cells.iter().map(|c| c.0).min().unwrap();
    let min_c = cells.iter().map(|c| c.1).min().unwrap();
    let in_block = cells
        .iter()
        .all(|c| c.0 - min_r <= 1 && c.1 - min_c <= 1);
    let touching = (0..3)
        .filter(|&i| {
            (0..3)
                .filter(|&j| j != i && cells[i].mahattan_dist(cells[j]) == 1)
                .count()
                == 2
        })
        .count();
    in_block && touching == 1
}

#[test]
fn order_zero_board_is_one_hole() {
    let board = Board::new(0, Cell(0, 0)).unwrap();
    assert_eq!(board.0, vec![vec![0]]);
    assert_eq!(board.limit(), Cell(1, 1));
    assert_eq!(board.k(), 0);
}

#[test]
fn order_one_board() {
    assert_eq!(Board::new(1, Cell(0, 0)).unwrap().0, vec![vec![0, 1], vec![1, 1]]);
    assert_eq!(Board::new(1, Cell(1, 0)).unwrap().0, vec![vec![1, 1], vec![0, 1]]);
}

#[test]
fn order_two_board_with_hole_at_origin() {
    let board = Board::new(2, Cell(0, 0)).unwrap();
    assert_eq!(
        board.0,
        vec![
            vec![0, 2, 3, 3],
            vec![2, 2, 1, 3],
            vec![4, 1, 1, 5],
            vec![4, 4, 5, 5],
        ]
    );
    assert_eq!(board.limit(), Cell(4, 4));
    assert_eq!(board.k(), 2);
}

#[test]
fn order_two_board_with_hole_inside() {
    let board = Board::new(2, Cell(2, 1)).unwrap();
    assert_eq!(
        board.0,
        vec![
            vec![2, 2, 3, 3],
            vec![2, 1, 1, 3],
            vec![4, 0, 1, 5],
            vec![4, 4, 5, 5],
        ]
    );
}

#[test]
fn every_piece_is_an_l_tromino() {
    for k in 0..5usize {
        let n = 1usize << k;
        for hr in 0..n {
            for hc in 0..n {
                let hole = Cell(hr, hc);
                let board = Board::new(k, hole).unwrap();
                assert_eq!(count_cells(&board, 0), vec![hole]);
                let pieces = (n * n - 1) / 3;
                for id in 1..=pieces {
                    assert!(is_l_tromino(&count_cells(&board, id)), "k={k} id={id}");
                }
                let largest = board.0.iter().flatten().copied().max().unwrap();
                assert_eq!(largest, pieces);
            }
        }
    }
}

#[test]
fn new_rejects_hole_outside() {
    assert_eq!(Board::new(2, Cell(4, 0)).unwrap_err(), PuzzleError::OutOfRange);
    assert_eq!(Board::new(2, Cell(0, 4)).unwrap_err(), PuzzleError::OutOfRange);
    assert_eq!(Board::new(0, Cell(0, 1)).unwrap_err(), PuzzleError::OutOfRange);
}

#[test]
fn new_rejects_order_too_large() {
    let half = (usize::BITS / 2) as usize;
    assert_eq!(Board::new(half, Cell(0, 0)).unwrap_err(), PuzzleError::OrderTooLarge);
    assert_eq!(Board::new(usize::MAX, Cell(0, 0)).unwrap_err(), PuzzleError::OrderTooLarge);
}

#[test]
fn get_set_and_index() {
    let mut board = Board::new(1, Cell(0, 0)).unwrap();
    assert_eq!(board.get(Cell(1, 1)), 1);
    assert_eq!(board[Cell(0, 0)], 0);
    board.set(Cell(0, 1), 7);
    assert_eq!(board[Cell(0, 1)], 7);
    assert_eq!(board.0, vec![vec![0, 7], vec![1, 1]]);
}

#[test]
fn legal_move_swaps_and_reports_piece() {
    let mut board = Board::new(2, Cell(0, 0)).unwrap();
    assert_eq!(board.make_move(Cell(0, 0), Cell(0, 1)), Some(2));
    assert_eq!(board.0[0], vec![2, 0, 3, 3]);
    assert_eq!(board.0[1], vec![2, 2, 1, 3]);
    // the hole is named second, the move is the same
    assert_eq!(board.make_move(Cell(0, 0), Cell(0, 1)), Some(2));
    assert_eq!(board, Board::new(2, Cell(0, 0)).unwrap());
}

#[test]
fn illegal_move_leaves_board_unchanged() {
    let mut board = Board::new(2, Cell(0, 0)).unwrap();
    assert_eq!(board.make_move(Cell(0, 0), Cell(0, 1)), Some(2));
    let before = board.clone();
    // hole at (0, 1); the piece on (0, 2) would be torn apart
    assert_eq!(board.make_move(Cell(0, 1), Cell(0, 2)), None);
    assert_eq!(board, before);
    // a piece from far away finds none of its own next to the hole
    assert_eq!(board.make_move(Cell(0, 1), Cell(3, 3)), None);
    assert_eq!(board, before);
    // the other arm of the piece that just moved can follow it
    assert_eq!(board.make_move(Cell(0, 1), Cell(1, 1)), Some(2));
}

#[test]
fn move_of_hole_onto_itself_stands() {
    let mut board = Board::new(1, Cell(0, 0)).unwrap();
    assert_eq!(board.make_move(Cell(0, 0), Cell(0, 0)), Some(0));
    assert_eq!(board.0, vec![vec![0, 1], vec![1, 1]]);
}

#[test]
fn hole_walks_round_a_block() {
    let mut board = Board::new(1, Cell(0, 0)).unwrap();
    let start = board.clone();
    assert_eq!(board.make_move(Cell(0, 0), Cell(0, 1)), Some(1));
    assert_eq!(board.make_move(Cell(0, 1), Cell(1, 1)), Some(1));
    assert_eq!(board.make_move(Cell(1, 1), Cell(1, 0)), Some(1));
    assert_eq!(board.make_move(Cell(1, 0), Cell(0, 0)), Some(1));
    assert_eq!(board, start);
}

#[test]
fn order_counts_the_factors_of_two_in_the_rows() {
    assert_eq!(Board(vec![vec![0; 3]; 6]).k(), 1);
    assert_eq!(Board(vec![vec![0; 2]; 5]).k(), 0);
    assert_eq!(Board(vec![vec![0; 1]; 8]).k(), 3);
    assert_eq!(Board(vec![vec![0; 3]; 6]).limit(), Cell(6, 3));
    for k in 0..8usize {
        assert_eq!(Board::new(k, Cell(0, 0)).unwrap().k(), k);
    }
}

#[test]
fn move_on_a_board_that_is_no_tiling() {
    // two cells of piece 1 in a row, the hole next to them
    let mut board = Board(vec![vec![1, 1, 0]]);
    assert_eq!(board.make_move(Cell(0, 1), Cell(0, 2)), None);
    assert_eq!(board.0, vec![vec![1, 1, 0]]);
    // a piece of one cell has no neighbour of its own wherever it goes
    let mut single = Board(vec![vec![0, 7]]);
    assert_eq!(single.make_move(Cell(0, 0), Cell(0, 1)), None);
    assert_eq!(single.0, vec![vec![0, 7]]);
}
