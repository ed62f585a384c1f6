use tromino_puzzle::cell::{Cell, PuzzleError};
use tromino_puzzle::solver::{dist, side_of, PartBoard};

#[test]
fn distance_on_order_zero_is_zero() {
    assert_eq!(dist(0, Cell(0, 0), Cell(0, 0)), Ok(0));
}

#[test]
fn distance_on_order_one() {
    assert_eq!(dist(1, Cell(0, 0), Cell(0, 1)), Ok(1));
    assert_eq!(dist(1, Cell(0, 0), Cell(1, 0)), Ok(1));
    assert_eq!(dist(1, Cell(0, 0), Cell(1, 1)), Ok(2));
    assert_eq!(dist(1, Cell(0, 1), Cell(1, 0)), Ok(2));
}

#[test]
fn distance_on_order_two() {
    assert_eq!(dist(2, Cell(0, 0), Cell(3, 3)), Ok(6));
    assert_eq!(dist(2, Cell(0, 0), Cell(1, 1)), Ok(2));
    assert_eq!(dist(2, Cell(0, 0), Cell(0, 3)), Ok(5));
    assert_eq!(dist(2, Cell(1, 1), Cell(1, 2)), Ok(1));
    assert_eq!(dist(2, Cell(1, 1), Cell(2, 2)), Ok(2));
    assert_eq!(dist(2, Cell(0, 1), Cell(0, 2)), Ok(3));
}

#[test]
fn distance_is_symmetric() {
    for k in 0..4usize {
        let n = 1usize << k;
        for a in 0..n * n {
            for b in 0..n * n {
                let u = Cell(a / n, a % n);
                let v = Cell(b / n, b % n);
                assert_eq!(dist(k, u, v), dist(k, v, u));
            }
        }
    }
}

#[test]
fn distance_to_self_is_zero() {
    for k in 0..5usize {
        let n = 1usize << k;
        for a in 0..n * n {
            let u = Cell(a / n, a % n);
            assert_eq!(dist(k, u, u), Ok(0));
        }
    }
}

#[test]
fn far_corners_are_diag_apart() {
    for k in 0..10usize {
        let n = 1usize << k;
        let diag = (n - 1) * 2;
        assert_eq!(dist(k, Cell(0, 0), Cell(n - 1, n - 1)), Ok(diag));
        assert_eq!(dist(k, Cell(n - 1, n - 1), Cell(0, 0)), Ok(diag));
        assert_eq!(dist(k, Cell(0, n - 1), Cell(n - 1, 0)), Ok(diag));
        assert_eq!(dist(k, Cell(n - 1, 0), Cell(0, n - 1)), Ok(diag));
    }
}

#[test]
fn distance_on_the_largest_order() {
    let k = (usize::BITS - 1) as usize;
    let n = 1usize << k;
    assert_eq!(dist(k, Cell(0, 0), Cell(n - 1, n - 1)), Ok((n - 1) * 2));
    assert_eq!(dist(k, Cell(0, 0), Cell(0, 1)), Ok(1));
}

#[test]
fn distance_rejects_cells_outside() {
    assert_eq!(dist(2, Cell(4, 0), Cell(0, 0)), Err(PuzzleError::OutOfRange));
    assert_eq!(dist(2, Cell(0, 0), Cell(0, 4)), Err(PuzzleError::OutOfRange));
    assert_eq!(dist(0, Cell(0, 0), Cell(1, 0)), Err(PuzzleError::OutOfRange));
}

#[test]
fn distance_rejects_order_too_large() {
    let k = usize::BITS as usize;
    assert_eq!(dist(k, Cell(0, 0), Cell(0, 0)), Err(PuzzleError::OrderTooLarge));
    assert_eq!(dist(usize::MAX, Cell(0, 0), Cell(0, 0)), Err(PuzzleError::OrderTooLarge));
}

#[test]
fn side_is_a_power_of_two() {
    assert_eq!(side_of(0), 1);
    assert_eq!(side_of(5), 32);
}

#[test]
fn quadrant_descriptor_values() {
    let pb = PartBoard { k: 3, top_left: Cell(8, 16) };
    assert_eq!(pb.size(), 8);
    assert_eq!(pb.half(), 4);
    assert_eq!(pb.bottom_right(), Cell(15, 23));
    assert_eq!(pb.get_quad(Cell(8, 16)), Cell(0, 0));
    assert_eq!(pb.get_quad(Cell(11, 20)), Cell(0, 1));
    assert_eq!(pb.get_quad(Cell(12, 19)), Cell(1, 0));
    assert_eq!(pb.get_quad(Cell(15, 23)), Cell(1, 1));
    assert_eq!(pb.top_left_of(Cell(1, 0)), Cell(12, 16));
    assert_eq!(pb.joint_of(Cell(0, 0)), Cell(11, 19));
    assert_eq!(pb.joint_of(Cell(0, 1)), Cell(11, 20));
    assert_eq!(pb.joint_of(Cell(1, 0)), Cell(12, 19));
    assert_eq!(pb.joint_of(Cell(1, 1)), Cell(12, 20));
    assert_eq!(pb.part_of(Cell(1, 1)), PartBoard { k: 2, top_left: Cell(12, 20) });
}
