//! Chains of queries: the hole starts in the top-left corner, each query names
//! the cell to move it to, and the answer is the number of moves from where the
//! query before left it.

use vstd::prelude::*;
use vstd::arithmetic::power2::{pow2, lemma_pow2_pos};
use crate::board::{Board, Grid, bound};
use crate::cell::{Cell, Pos, PuzzleError, within};
use crate::frames::lemma_built_links;
use crate::graph::{
    build_move_graph, is_distance, links, listed, reachable, walks,
};
use crate::metric::{lemma_dist_is_shortest, lemma_slide_within, lemma_walk_exists, slide, slides};
use crate::moves::{is_built, joined, lemma_built_is_tiling};
use crate::search::{bfs_distance, cell_at, table_edges};
use crate::solver::{dist, hole_dist, lemma_diag_fits, square};
use crate::board::lemma_cells_fit;

verus! {

/// Where the hole is when query `i` is asked: in the top-left corner at first,
/// and then on the target of the query before.
pub open spec fn hole_before(targets: Seq<Cell>, i: int) -> Pos {
    if i == 0 {
        (0, 0)
    } else {
        targets[i - 1]@
    }
}

/// `answers` holds, for each of the first `n` queries, the number of hole moves
/// on the board of order `k` from where the hole is to the query's target.
pub open spec fn answered(k: nat, targets: Seq<Cell>, answers: Seq<usize>, n: int) -> bool {
    &&& answers.len() == n
    &&& forall|i: int|
        0 <= i < n ==> (#[trigger] answers[i]) as int == hole_dist(
            k,
            hole_before(targets, i),
            targets[i]@,
        )
}

/// All targets lie on the board of order `k`.
pub open spec fn all_within(k: nat, targets: Seq<Cell>) -> bool {
    forall|i: int| 0 <= i < targets.len() ==> within(#[trigger] targets[i]@, square(k))
}

/// The table of lists holds the graph of hole moves of its grid, as it is built
/// from a tiled board with the hole at `hole`.
pub open spec fn is_move_graph(lists: Seq<Vec<Cell>>, g: Grid, hole: Pos) -> bool {
    &&& lists.len() == bound(g).0 * bound(g).1
    &&& forall|x: Pos, y: Cell|
        within(x, bound(g)) ==> (#[trigger] listed(lists, bound(g), x, y) <==> within(
            y@,
            bound(g),
        ) && reachable(links(g), hole, x) && joined(g, x, y@))
}

/// A number of moves is the distance of two cells in at most one way.
pub proof fn lemma_distance_unique(edges: crate::graph::Edges, u: Pos, v: Pos, d1: int, d2: int)
    requires
        is_distance(edges, u, v, d1),
        is_distance(edges, u, v, d2),
    ensures
        d1 == d2,
{
    let w1 = choose|w: Seq<Pos>| walks(edges, w, u, v) && w.len() == d1 + 1;
    let w2 = choose|w: Seq<Pos>| walks(edges, w, u, v) && w.len() == d2 + 1;
    assert(w1.len() >= d2 + 1);
    assert(w2.len() >= d1 + 1);
}

/// The graph that is built from a board of order `k` as it is constructed is the
/// graph of hole moves of that order, wherever the hole was put: every cell can
/// be reached, and the lists hold the moves of the hole. So the distance that a
/// search of the lists finds between two cells is the distance computed in
/// closed form.
pub proof fn lemma_search_agrees(
    g: Grid,
    k: nat,
    hole: Pos,
    lists: Seq<Vec<Cell>>,
    u: Pos,
    v: Pos,
)
    requires
        is_built(g, k, hole),
        pow2(k) <= usize::MAX,
        is_move_graph(lists, g, hole),
        within(u, square(k)),
        within(v, square(k)),
    ensures
        table_edges(lists, square(k)) == slides(k),
        reachable(table_edges(lists, square(k)), u, v),
        is_distance(table_edges(lists, square(k)), u, v, hole_dist(k, u, v)),
        forall|d: int|
            is_distance(table_edges(lists, square(k)), u, v, d) ==> d == hole_dist(k, u, v),
{
    let l = square(k);
    let e = table_edges(lists, l);
    lemma_built_links(g, k, hole);
    assert forall|x: Pos, y: Pos| #[trigger] e(x, y) == slides(k)(x, y) by {
        if slide(k, x, y) {
            lemma_slide_within(k, x, y);
        }
        if within(x, l) && within(y, l) {
            assert(cell_at(y)@ == y);
            let w = lemma_walk_exists(k, hole, x);
            assert(walks(links(g), w, hole, x));
            assert(joined(g, x, y) == slide(k, x, y));
        }
    }
    assert(e =~= slides(k));
    lemma_dist_is_shortest(k, u, v);
    let w = lemma_walk_exists(k, u, v);
    assert(walks(e, w, u, v));
    assert forall|d: int| is_distance(e, u, v, d) implies d == hole_dist(k, u, v) by {
        lemma_distance_unique(e, u, v, d, hole_dist(k, u, v));
    }
}

/// The answers to a chain of queries on the board of order `k`, each computed in
/// closed form.
///
/// With no query there is nothing to answer. Otherwise an order whose side does
/// not fit the machine word is turned down, and so is a chain with a target
/// outside the board.
pub fn answer_fast(k: usize, targets: &Vec<Cell>) -> (r: Result<Vec<usize>, PuzzleError>)
    ensures
        match r {
            Ok(answers) => {
                &&& targets.len() > 0 ==> k < usize::BITS
                &&& all_within(k as nat, targets@)
                &&& answered(k as nat, targets@, answers@, targets.len() as int)
            },
            Err(e) => {
                &&& targets.len() > 0
                &&& if k >= usize::BITS {
                    e == PuzzleError::OrderTooLarge
                } else {
                    e == PuzzleError::OutOfRange && !all_within(k as nat, targets@)
                }
            },
        },
{
    let mut answers: Vec<usize> = Vec::new();
    let mut cur_empty: Cell = Cell(0, 0);
    let mut i: usize = 0;
    proof {
        lemma_pow2_pos(k as nat);
    }
    while i < targets.len()
        invariant
            i <= targets.len(),
            cur_empty@ == hole_before(targets@, i as int),
            i > 0 ==> k < usize::BITS,
            within(cur_empty@, square(k as nat)),
            forall|j: int| 0 <= j < i ==> within(#[trigger] targets[j]@, square(k as nat)),
            answered(k as nat, targets@, answers@, i as int),
        decreases targets.len() - i,
    {
        let target: Cell = targets[i];
        match dist(k, cur_empty, target) {
            Ok(d) => {
                answers.push(d);
            },
            Err(e) => {
                return Err(e);
            },
        }
        cur_empty = target;
        i = i + 1;
    }
    Ok(answers)
}

/// The answers to a chain of queries on the board of order `k`, each found by a
/// search of the graph of hole moves, which is built once from the board with
/// its hole in the top-left corner. They are the answers computed in closed
/// form.
///
/// An order whose number of cells does not fit the machine word is turned down,
/// and so is a chain with a target outside the board.
pub fn answer_brute(k: usize, targets: &Vec<Cell>) -> (r: Result<Vec<usize>, PuzzleError>)
    ensures
        match r {
            Ok(answers) => {
                &&& 2 * k < usize::BITS
                &&& all_within(k as nat, targets@)
                &&& answered(k as nat, targets@, answers@, targets.len() as int)
            },
            Err(e) => if 2 * k >= usize::BITS {
                e == PuzzleError::OrderTooLarge
            } else {
                e == PuzzleError::OutOfRange && !all_within(k as nat, targets@)
            },
        },
{
    let mut cur_empty: Cell = Cell(0, 0);
    let mut board: Board = match Board::new(k, cur_empty) {
        Ok(b) => b,
        Err(e) => {
            proof {
                lemma_pow2_pos(k as nat);
            }
            return Err(e);
        },
    };
    let ghost g = board@;
    proof {
        lemma_built_is_tiling(g, k as nat, (0, 0));
        lemma_cells_fit(k as nat);
        lemma_diag_fits(k as nat);
    }
    let graph: Vec<Vec<Cell>> = build_move_graph(&mut board, cur_empty);
    let lim: Cell = board.limit();
    let mut answers: Vec<usize> = Vec::new();
    let mut i: usize = 0;
    while i < targets.len()
        invariant
            i <= targets.len(),
            2 * k < usize::BITS,
            pow2(k as nat) <= usize::MAX,
            cur_empty@ == hole_before(targets@, i as int),
            within(cur_empty@, square(k as nat)),
            lim@ == square(k as nat),
            is_built(g, k as nat, (0, 0)),
            is_move_graph(graph@, g, (0, 0)),
            graph.len() == lim.0 * lim.1,
            forall|j: int| 0 <= j < i ==> within(#[trigger] targets[j]@, square(k as nat)),
            answered(k as nat, targets@, answers@, i as int),
        decreases targets.len() - i,
    {
        let target: Cell = targets[i];
        match bfs_distance(&graph, lim, cur_empty, target) {
            Ok(Some(d)) => {
                proof {
                    lemma_search_agrees(g, k as nat, (0, 0), graph@, cur_empty@, target@);
                }
                answers.push(d);
            },
            Ok(None) => {
                // Every cell of the board can be reached, so the search finds the
                // target: this arm is never taken.
                proof {
                    lemma_search_agrees(g, k as nat, (0, 0), graph@, cur_empty@, target@);
                    assert(false);
                }
                return Err(PuzzleError::OutOfRange);
            },
            Err(e) => {
                return Err(e);
            },
        }
        cur_empty = target;
        i = i + 1;
    }
    Ok(answers)
}

} // verus!
