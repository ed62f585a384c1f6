use std::collections::VecDeque;
use tromino_puzzle::board::Board;
use tromino_puzzle::cell::{Cell, PuzzleError};
use tromino_puzzle::graph::build_move_graph;
use tromino_puzzle::queries::{answer_brute, answer_fast};
use tromino_puzzle::search::bfs_distance;
use tromino_puzzle::solver::dist;

fn plain_bfs(graph: &[Vec<Cell>], n: usize, from: Cell, to: Cell) -> Option<usize> {
    let mut seen = vec![None; n * n];
    let mut queue = VecDeque::new();
    seen[from.0 * n + from.1] = Some(0usize);
    queue.push_back(from);
    while let Some(cur) = queue.pop_front() {
        let d = seen[cur.0 * n + cur.1].unwrap();
        for &next in &graph[cur.0 * n + cur.1] {
            if seen[next.0 * n + next.1].is_none() {
                seen[next.0 * n + next.1] = Some(d + 1);
                queue.push_back(next);
            }
        }
    }
    seen[to.0 * n + to.1]
}

fn sorted_set(list: &[Cell]) -> Vec<Cell> {
    let mut cells: Vec<(usize, usize)> = list.iter().map(|c| (c.0, c.1)).collect();
    cells.sort();
    cells.dedup();
    cells.into_iter().map(|(r, c)| Cell(r, c)).collect()
}

#[test]
fn graph_of_order_one_is_a_cycle() {
    let mut board = Board::new(1, Cell(0, 0)).unwrap();
    let graph = build_move_graph(&mut board, Cell(0, 0));
    assert_eq!(graph.len(), 4);
    assert_eq!(sorted_set(&graph[0]), vec![Cell(0, 1), Cell(1, 0)]);
    assert_eq!(sorted_set(&graph[1]), vec![Cell(0, 0), Cell(1, 1)]);
    assert_eq!(sorted_set(&graph[2]), vec![Cell(0, 0), Cell(1, 1)]);
    assert_eq!(sorted_set(&graph[3]), vec![Cell(0, 1), Cell(1, 0)]);
}

#[test]
fn graph_of_order_two() {
    let mut board = Board::new(2, Cell(0, 0)).unwrap();
    let graph = build_move_graph(&mut board, Cell(0, 0));
    assert_eq!(graph.len(), 16);
    // a corner of the board: its quadrant's block only
    assert_eq!(sorted_set(&graph[0]), vec![Cell(0, 1), Cell(1, 0)]);
    // a joint: its quadrant's block and the central block
    assert_eq!(
        sorted_set(&graph[5]),
        vec![Cell(0, 1), Cell(1, 0), Cell(1, 2), Cell(2, 1)]
    );
    // no move across the border of two quadrants away from the centre
    assert_eq!(sorted_set(&graph[1]), vec![Cell(0, 0), Cell(1, 1)]);
    assert_eq!(sorted_set(&graph[2]), vec![Cell(0, 3), Cell(1, 2)]);
}

#[test]
fn graph_of_order_zero_is_one_cell() {
    let mut board = Board::new(0, Cell(0, 0)).unwrap();
    let graph = build_move_graph(&mut board, Cell(0, 0));
    assert_eq!(graph, vec![Vec::<Cell>::new()]);
}

#[test]
fn building_the_graph_restores_the_board() {
    for k in 0..5usize {
        let n = 1usize << k;
        for hole in [Cell(0, 0), Cell(n - 1, 0), Cell(n / 2, n / 3)] {
            let mut board = Board::new(k, hole).unwrap();
            let before = board.clone();
            build_move_graph(&mut board, hole);
            assert_eq!(board, before);
        }
    }
}

#[test]
fn graph_does_not_depend_on_the_hole() {
    let mut first = Board::new(3, Cell(0, 0)).unwrap();
    let reference: Vec<Vec<Cell>> = build_move_graph(&mut first, Cell(0, 0))
        .iter()
        .map(|list| sorted_set(list))
        .collect();
    for hole in [Cell(7, 7), Cell(3, 4), Cell(0, 5)] {
        let mut board = Board::new(3, hole).unwrap();
        let graph: Vec<Vec<Cell>> = build_move_graph(&mut board, hole)
            .iter()
            .map(|list| sorted_set(list))
            .collect();
        assert_eq!(graph, reference);
    }
}

#[test]
fn graph_is_connected_and_undirected() {
    for k in 0..5usize {
        let n = 1usize << k;
        let mut board = Board::new(k, Cell(0, 0)).unwrap();
        let graph = build_move_graph(&mut board, Cell(0, 0));
        for a in 0..n * n {
            let u = Cell(a / n, a % n);
            assert!(plain_bfs(&graph, n, Cell(0, 0), u).is_some());
            for &v in &graph[a] {
                assert!(graph[v.0 * n + v.1].contains(&u));
                assert_eq!(u.mahattan_dist(v), 1);
            }
        }
    }
}

#[test]
fn regression_corner_to_corner_on_order_two() {
    let mut board = Board::new(2, Cell(0, 0)).unwrap();
    let graph = build_move_graph(&mut board, Cell(0, 0));
    let by_search = plain_bfs(&graph, 4, Cell(0, 0), Cell(3, 3));
    assert_eq!(by_search, Some(6));
    assert_eq!(dist(2, Cell(0, 0), Cell(3, 3)), Ok(6));
    assert_eq!(bfs_distance(&graph, Cell(4, 4), Cell(0, 0), Cell(3, 3)), Ok(Some(6)));
}

#[test]
fn distance_equals_search_on_small_boards() {
    for k in 0..5usize {
        let n = 1usize << k;
        let mut board = Board::new(k, Cell(0, 0)).unwrap();
        let graph = build_move_graph(&mut board, Cell(0, 0));
        for a in 0..n * n {
            for b in 0..n * n {
                let u = Cell(a / n, a % n);
                let v = Cell(b / n, b % n);
                let expected = plain_bfs(&graph, n, u, v);
                assert_eq!(dist(k, u, v).ok(), expected);
                if k <= 3 {
                    assert_eq!(bfs_distance(&graph, Cell(n, n), u, v), Ok(expected));
                }
            }
        }
    }
}

#[test]
fn distance_equals_search_on_sampled_pairs() {
    let k = 6usize;
    let n = 1usize << k;
    let mut board = Board::new(k, Cell(0, 0)).unwrap();
    let graph = build_move_graph(&mut board, Cell(0, 0));
    let mut state: usize = 12345;
    for _ in 0..200 {
        let mut next = || {
            state = state.wrapping_mul(6364136223846793005).wrapping_add(1442695040888963407);
            (state >> 33) % n
        };
        let u = Cell(next(), next());
        let v = Cell(next(), next());
        assert_eq!(bfs_distance(&graph, Cell(n, n), u, v), Ok(dist(k, u, v).ok()));
    }
}

#[test]
fn search_on_a_table_with_unreachable_cells() {
    // 1 x 3 grid: 0 - 1, and 2 on its own
    let table = vec![vec![Cell(0, 1)], vec![Cell(0, 0)], vec![]];
    let lim = Cell(1, 3);
    assert_eq!(bfs_distance(&table, lim, Cell(0, 0), Cell(0, 1)), Ok(Some(1)));
    assert_eq!(bfs_distance(&table, lim, Cell(0, 0), Cell(0, 0)), Ok(Some(0)));
    assert_eq!(bfs_distance(&table, lim, Cell(0, 0), Cell(0, 2)), Ok(None));
    assert_eq!(bfs_distance(&table, lim, Cell(0, 2), Cell(0, 0)), Ok(None));
}

#[test]
fn search_follows_directed_entries_and_skips_cells_off_the_grid() {
    // 2 x 2 grid; (0,0) -> (0,1) -> (1,1) -> (1,0), one entry off the grid
    let table = vec![
        vec![Cell(5, 5), Cell(0, 1)],
        vec![Cell(1, 1)],
        vec![],
        vec![Cell(1, 0)],
    ];
    let lim = Cell(2, 2);
    assert_eq!(bfs_distance(&table, lim, Cell(0, 0), Cell(1, 0)), Ok(Some(3)));
    assert_eq!(bfs_distance(&table, lim, Cell(1, 0), Cell(0, 0)), Ok(None));
}

#[test]
fn search_rejects_cells_outside() {
    let table = vec![vec![], vec![], vec![], vec![]];
    let lim = Cell(2, 2);
    assert_eq!(
        bfs_distance(&table, lim, Cell(2, 0), Cell(0, 0)),
        Err(PuzzleError::OutOfRange)
    );
    assert_eq!(
        bfs_distance(&table, lim, Cell(0, 0), Cell(0, 2)),
        Err(PuzzleError::OutOfRange)
    );
}

#[test]
fn queries_are_chained() {
    let targets = vec![Cell(3, 3), Cell(0, 0), Cell(0, 3), Cell(0, 3), Cell(1, 1)];
    let expected = vec![
        dist(2, Cell(0, 0), Cell(3, 3)).unwrap(),
        dist(2, Cell(3, 3), Cell(0, 0)).unwrap(),
        dist(2, Cell(0, 0), Cell(0, 3)).unwrap(),
        0,
        dist(2, Cell(0, 3), Cell(1, 1)).unwrap(),
    ];
    assert_eq!(expected, vec![6, 6, 5, 0, 3]);
    assert_eq!(answer_fast(2, &targets), Ok(expected.clone()));
    assert_eq!(answer_brute(2, &targets), Ok(expected));
}

#[test]
fn both_ways_of_answering_agree() {
    for k in 0..4usize {
        let n = 1usize << k;
        let targets: Vec<Cell> = (0..n * n)
            .map(|i| Cell((i * 7 + 3) % n, (i * 5 + i / n) % n))
            .collect();
        let fast = answer_fast(k, &targets).unwrap();
        assert_eq!(fast.len(), targets.len());
        assert_eq!(answer_brute(k, &targets), Ok(fast));
    }
}

#[test]
fn no_queries_no_answers() {
    assert_eq!(answer_fast(3, &vec![]), Ok(vec![]));
    assert_eq!(answer_brute(3, &vec![]), Ok(vec![]));
    assert_eq!(answer_fast(usize::MAX, &vec![]), Ok(vec![]));
}

#[test]
fn queries_reject_targets_outside() {
    let targets = vec![Cell(1, 1), Cell(4, 0), Cell(0, 0)];
    assert_eq!(answer_fast(2, &targets), Err(PuzzleError::OutOfRange));
    assert_eq!(answer_brute(2, &targets), Err(PuzzleError::OutOfRange));
}

#[test]
fn queries_reject_order_too_large() {
    let targets = vec![Cell(0, 0)];
    assert_eq!(
        answer_fast(usize::BITS as usize, &targets),
        Err(PuzzleError::OrderTooLarge)
    );
    assert_eq!(
        answer_brute((usize::BITS / 2) as usize, &targets),
        Err(PuzzleError::OrderTooLarge)
    );
    assert_eq!(
        answer_brute((usize::BITS / 2) as usize, &vec![]),
        Err(PuzzleError::OrderTooLarge)
    );
}
