use rand_chacha::rand_core::{RngCore, SeedableRng};
use rand_chacha::ChaCha8Rng;
use tromino_puzzle::board::Board;
use tromino_puzzle::cell::{Cell, PuzzleError};
use tromino_puzzle::solver::dist;
use tromino_puzzle::state::{BoardState, Hop};

fn nearest(state: &BoardState, k: usize, target: Cell) -> Vec<Cell> {
    let hole = state.piece_coords[0];
    let n = 1usize << k;
    let list = &state.move_graph[hole.0 * n + hole.1];
    let least = list.iter().map(|&x| dist(k, target, x).unwrap()).min().unwrap();
    list.iter()
        .copied()
        .filter(|&x| dist(k, target, x).unwrap() == least)
        .collect()
}

#[test]
fn new_state_of_order_two() {
    let state = BoardState::new(2).unwrap();
    assert_eq!(state.board, Board::new(2, Cell(0, 0)).unwrap());
    assert_eq!(
        state.piece_coords,
        vec![Cell(0, 0), Cell(1, 1), Cell(0, 0), Cell(0, 2), Cell(2, 0), Cell(2, 2)]
    );
    assert_eq!(state.move_graph.len(), 16);
}

#[test]
fn new_state_of_order_zero() {
    let state = BoardState::new(0).unwrap();
    assert_eq!(state.piece_coords, vec![Cell(0, 0)]);
    assert_eq!(state.move_graph, vec![Vec::<Cell>::new()]);
}

#[test]
fn new_state_rejects_order_too_large() {
    let half = (usize::BITS / 2) as usize;
    assert_eq!(BoardState::new(half).unwrap_err(), PuzzleError::OrderTooLarge);
}

#[test]
fn missing_corners_of_a_new_board() {
    let state = BoardState::new(2).unwrap();
    assert_eq!(state.missing_corner_of(1), Cell(0, 0));
    assert_eq!(state.missing_corner_of(2), Cell(0, 0));
    assert_eq!(state.missing_corner_of(3), Cell(1, 0));
    assert_eq!(state.missing_corner_of(4), Cell(0, 1));
    assert_eq!(state.missing_corner_of(5), Cell(0, 0));
}

#[test]
fn step_on_the_target_makes_no_move() {
    let mut state = BoardState::new(2).unwrap();
    let before = state.clone();
    assert_eq!(state.step_toward(Cell(0, 0), 5), Ok(None));
    assert_eq!(state, before);
}

#[test]
fn step_rejects_target_outside() {
    let mut state = BoardState::new(2).unwrap();
    let before = state.clone();
    assert_eq!(state.step_toward(Cell(4, 4), 0), Err(PuzzleError::OutOfRange));
    assert_eq!(state.step_toward(Cell(0, 4), 0), Err(PuzzleError::OutOfRange));
    assert_eq!(state, before);
}

#[test]
fn step_moves_the_piece_that_pick_names() {
    for pick in 0..6usize {
        let mut state = BoardState::new(2).unwrap();
        let target = Cell(3, 3);
        let cands = nearest(&state, 2, target);
        assert!(!cands.is_empty());
        let chosen = cands[pick % cands.len()];
        let hop = state.step_toward(target, pick).unwrap().unwrap();
        assert_eq!(state.piece_coords[0], chosen);
        // both cells next to the corner belong to piece 2, which lies in the block
        // at the corner and left the corner free
        assert_eq!(hop.tromino_id, 2);
        assert_eq!(hop.org_quad, Cell(0, 0));
        assert_eq!(hop.target_quad, chosen);
        assert_eq!(state.board[chosen], 0);
        assert_eq!(state.board[Cell(0, 0)], 2);
        assert_eq!(dist(2, target, chosen), Ok(5));
    }
}

#[test]
fn one_hop_in_full() {
    let mut state = BoardState::new(1).unwrap();
    // the hole is in the corner, the target across: both neighbours are nearest
    let cands = nearest(&state, 1, Cell(1, 1));
    assert_eq!(cands.len() % 2, 0);
    let chosen = cands[1 % cands.len()];
    let hop = state.step_toward(Cell(1, 1), 1).unwrap();
    assert_eq!(
        hop,
        Some(Hop { tromino_id: 1, org_quad: Cell(0, 0), target_quad: chosen })
    );
    let mut expected = Board::new(1, Cell(0, 0)).unwrap();
    expected.make_move(Cell(0, 0), chosen).unwrap();
    assert_eq!(state.board, expected);
}

#[test]
fn steps_reach_the_target_in_distance_many_moves() {
    for k in 1..5usize {
        let n = 1usize << k;
        let mut state = BoardState::new(k).unwrap();
        let graph = state.move_graph.clone();
        let anchors = state.piece_coords[1..].to_vec();
        let mut pick = 7usize;
        for target in [Cell(n - 1, n - 1), Cell(0, n - 1), Cell(n / 2, 0), Cell(0, 0)] {
            let hole = state.piece_coords[0];
            let far = dist(k, hole, target).unwrap();
            for left in (0..far).rev() {
                pick = pick.wrapping_mul(31).wrapping_add(11);
                let hop = state.step_toward(target, pick).unwrap().unwrap();
                assert_eq!(dist(k, state.piece_coords[0], target), Ok(left));
                assert_eq!(state.board[state.piece_coords[0]], 0);
                assert_eq!(state.missing_corner_of(hop.tromino_id), hop.target_quad);
                assert_ne!(hop.org_quad, hop.target_quad);
            }
            assert_eq!(state.piece_coords[0], target);
            assert_eq!(state.step_toward(target, pick), Ok(None));
            assert_eq!(state.move_graph, graph);
            assert_eq!(state.piece_coords[1..].to_vec(), anchors);
        }
        assert_eq!(state.board, Board::new(k, Cell(0, 0)).unwrap());
    }
}

#[test]
fn random_steps_draw_one_number_for_each_move() {
    let mut state = BoardState::new(3).unwrap();
    let mut used = ChaCha8Rng::seed_from_u64(177013);
    let mut fresh = ChaCha8Rng::seed_from_u64(177013);
    // no move, no number
    assert_eq!(state.step_random(Cell(0, 0), &mut used), Ok(None));
    assert_eq!(state.step_random(Cell(8, 0), &mut used), Err(PuzzleError::OutOfRange));
    let target = Cell(5, 6);
    let far = dist(3, Cell(0, 0), target).unwrap();
    let mut twin = state.clone();
    for _ in 0..far {
        let hop = state.step_random(target, &mut used).unwrap();
        let pick = fresh.next_u64() as usize;
        assert_eq!(twin.step_toward(target, pick).unwrap(), hop);
        assert!(hop.is_some());
        assert_eq!(state, twin);
    }
    assert_eq!(state.piece_coords[0], target);
    assert_eq!(state.step_random(target, &mut used), Ok(None));
    assert_eq!(used.next_u64(), fresh.next_u64());
}
