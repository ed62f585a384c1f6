//! The state of a game in play: the board, the graph of hole moves, and where
//! each piece lies; and the step that brings the hole one move nearer to a
//! target.

use vstd::prelude::*;
use vstd::arithmetic::power2::{pow2, lemma_pow2_pos};
use rand_chacha::rand_core::RngCore;
use rand_chacha::ChaCha8Rng;
use crate::board::{
    Board, Grid, at, bound, grid_wf, lemma_cells_fit, lemma_two_adic_pow2, swapped, two_adic,
};
use crate::cell::{Cell, Pos, PuzzleError, lemma_index_in_grid, within};
use crate::frames::lemma_built_links;
use crate::graph::{build_move_graph, index_of, lemma_walk_drop_last, links, listed, walks};
use crate::metric::{
    lemma_dist_step, lemma_slide_within, lemma_walk_bound, lemma_walk_exists, slide, slides,
};
use crate::moves::{
    framed_at, is_built, is_tiling, joined, lemma_built_is_tiling, lemma_gap_unique,
    lemma_move_frames, lemma_move_keeps, lemma_move_stands, lemma_swapped_at, lies, place_in,
};
use crate::search::cell_at;
use crate::solver::{dist, hole_dist, lemma_dist_bound, lemma_diag_fits, square};
use crate::tiling::{
    anchor_of, corner, gap_of, in_tromino, lemma_pieces_count,
    lemma_tiling_by_trominoes, lemma_tiling_hole, pieces, tile,
};

verus! {

/// A board in play with what is derived from it.
#[derive(Debug, Clone, PartialEq, Eq, Hash)]
pub struct BoardState {
    /// The board as it stands.
    pub board: Board,
    /// For each cell, by its row-major index, the cells that the hole can slide to
    /// from there.
    pub move_graph: Vec<Vec<Cell>>,
    /// For each piece, by its identifier, the top-left cell of the block that it
    /// lies in; at index 0, the cell of the hole.
    pub piece_coords: Vec<Cell>,
}

/// `x` comes before row `r`, column `c` in row-major order.
pub open spec fn scanned(x: Pos, r: int, c: int) -> bool {
    x.0 < r || (x.0 == r && x.1 < c)
}

/// `lows` holds, for each identifier, the least row and the least column of the
/// cells before row `r`, column `c` that carry it, and the largest number of the
/// machine where there is none.
pub open spec fn lows_upto(g: Grid, lows: Seq<Cell>, r: int, c: int) -> bool {
    forall|id: int|
        #![trigger lows[id]]
        0 <= id < lows.len() ==> {
            &&& forall|x: Pos|
                #![trigger at(g, x)]
                within(x, bound(g)) && scanned(x, r, c) && at(g, x) == id ==> lows[id].0 <= x.0
                    && lows[id].1 <= x.1
            &&& lows[id].0 == usize::MAX || exists|x: Pos|
                #![trigger at(g, x)]
                within(x, bound(g)) && scanned(x, r, c) && at(g, x) == id && x.0 == lows[id].0
            &&& lows[id].1 == usize::MAX || exists|x: Pos|
                #![trigger at(g, x)]
                within(x, bound(g)) && scanned(x, r, c) && at(g, x) == id && x.1 == lows[id].1
        }
}

/// The lesser of two numbers.
pub open spec fn lesser(a: usize, b: usize) -> usize {
    if a <= b {
        a
    } else {
        b
    }
}

/// Taking the cell at row `r`, column `c` into the least rows and columns.
pub proof fn lemma_lows_step(g: Grid, lows: Seq<Cell>, r: usize, c: usize)
    requires
        grid_wf(g),
        within((r as int, c as int), bound(g)),
        at(g, (r as int, c as int)) < lows.len(),
        lows_upto(g, lows, r as int, c as int),
    ensures
        lows_upto(
            g,
            lows.update(
                at(g, (r as int, c as int)) as int,
                Cell(
                    lesser(lows[at(g, (r as int, c as int)) as int].0, r),
                    lesser(lows[at(g, (r as int, c as int)) as int].1, c),
                ),
            ),
            r as int,
            c + 1,
        ),
{
    let here = (r as int, c as int);
    let v = at(g, here) as int;
    let old = lows[v];
    let lows2 = lows.update(v, Cell(lesser(old.0, r), lesser(old.1, c)));
    assert forall|id: int|
        #![trigger lows2[id]]
        0 <= id < lows2.len() implies {
        &&& forall|x: Pos|
            #![trigger at(g, x)]
            within(x, bound(g)) && scanned(x, r as int, c + 1) && at(g, x) == id ==> lows2[id].0
                <= x.0 && lows2[id].1 <= x.1
        &&& lows2[id].0 == usize::MAX || exists|x: Pos|
            #![trigger at(g, x)]
            within(x, bound(g)) && scanned(x, r as int, c + 1) && at(g, x) == id && x.0
                == lows2[id].0
        &&& lows2[id].1 == usize::MAX || exists|x: Pos|
            #![trigger at(g, x)]
            within(x, bound(g)) && scanned(x, r as int, c + 1) && at(g, x) == id && x.1
                == lows2[id].1
    } by {
        let _ = lows[id];
        assert forall|x: Pos|
            #![trigger at(g, x)]
            within(x, bound(g)) && scanned(x, r as int, c + 1) && at(g, x) == id implies lows2[id].0
            <= x.0 && lows2[id].1 <= x.1 by {
            if x != here {
                assert(scanned(x, r as int, c as int));
            }
        }
        if lows2[id].0 != usize::MAX {
            if id == v && lows2[id].0 == r {
                assert(at(g, here) == id && scanned(here, r as int, c + 1));
            } else {
                let x = choose|x: Pos|
                    #![trigger at(g, x)]
                    within(x, bound(g)) && scanned(x, r as int, c as int) && at(g, x) == id && x.0
                        == lows[id].0;
                assert(at(g, x) == id && scanned(x, r as int, c + 1) && x.0 == lows2[id].0);
            }
        }
        if lows2[id].1 != usize::MAX {
            if id == v && lows2[id].1 == c {
                assert(at(g, here) == id && scanned(here, r as int, c + 1));
            } else {
                let x = choose|x: Pos|
                    #![trigger at(g, x)]
                    within(x, bound(g)) && scanned(x, r as int, c as int) && at(g, x) == id && x.1
                        == lows[id].1;
                assert(at(g, x) == id && scanned(x, r as int, c + 1) && x.1 == lows2[id].1);
            }
        }
    }
}

/// The end of a row is the beginning of the next.
pub proof fn lemma_lows_row(g: Grid, lows: Seq<Cell>, r: int)
    requires
        grid_wf(g),
        lows_upto(g, lows, r, bound(g).1),
    ensures
        lows_upto(g, lows, r + 1, 0),
{
    assert forall|x: Pos| within(x, bound(g)) implies scanned(x, r, bound(g).1) == scanned(
        x,
        r + 1,
        0,
    ) by {}
    assert forall|id: int|
        #![trigger lows[id]]
        0 <= id < lows.len() implies {
        &&& forall|x: Pos|
            #![trigger at(g, x)]
            within(x, bound(g)) && scanned(x, r + 1, 0) && at(g, x) == id ==> lows[id].0 <= x.0
                && lows[id].1 <= x.1
        &&& lows[id].0 == usize::MAX || exists|x: Pos|
            #![trigger at(g, x)]
            within(x, bound(g)) && scanned(x, r + 1, 0) && at(g, x) == id && x.0 == lows[id].0
        &&& lows[id].1 == usize::MAX || exists|x: Pos|
            #![trigger at(g, x)]
            within(x, bound(g)) && scanned(x, r + 1, 0) && at(g, x) == id && x.1 == lows[id].1
    } by {
        if lows[id].0 != usize::MAX {
            let x = choose|x: Pos|
                #![trigger at(g, x)]
                within(x, bound(g)) && scanned(x, r, bound(g).1) && at(g, x) == id && x.0
                    == lows[id].0;
            assert(at(g, x) == id && scanned(x, r + 1, 0));
        }
        if lows[id].1 != usize::MAX {
            let x = choose|x: Pos|
                #![trigger at(g, x)]
                within(x, bound(g)) && scanned(x, r, bound(g).1) && at(g, x) == id && x.1
                    == lows[id].1;
            assert(at(g, x) == id && scanned(x, r + 1, 0));
        }
    }
}

/// On a board as it is built, the least row and the least column of a piece are
/// those of the block that the piece lies in, and those of the value 0 are the
/// hole's.
pub proof fn lemma_lows_are_anchors(g: Grid, k: nat, hole: Pos, lows: Seq<Cell>, id: int)
    requires
        is_built(g, k, hole),
        pow2(k) <= usize::MAX,
        lows.len() == pieces(k) + 1,
        lows_upto(g, lows, bound(g).0, 0),
        0 <= id <= pieces(k),
    ensures
        id == 0 ==> lows[id]@ == hole,
        id >= 1 ==> lows[id]@ == anchor_of(k, 1, id),
        id >= 1 ==> lies(g, id as usize, lows[id]@, gap_of(k, hole, 1, id)),
{
    let l = bound(g);
    let low = lows[id];
    assert forall|x: Pos| within(x, l) implies scanned(x, l.0, 0) by {}
    if id == 0 {
        assert(at(g, hole) == tile(k, hole, hole));
        assert(low.0 <= hole.0 && low.1 <= hole.1);
        let x = choose|x: Pos|
            #![trigger at(g, x)]
            within(x, l) && scanned(x, l.0, 0) && at(g, x) == id && x.0 == low.0;
        assert(at(g, x) == tile(k, hole, x));
        lemma_tiling_hole(k, hole, x);
        let y = choose|y: Pos|
            #![trigger at(g, y)]
            within(y, l) && scanned(y, l.0, 0) && at(g, y) == id && y.1 == low.1;
        assert(at(g, y) == tile(k, hole, y));
        lemma_tiling_hole(k, hole, y);
    } else {
        lemma_tiling_by_trominoes(k, hole, id);
        let a = anchor_of(k, 1, id);
        let gap = gap_of(k, hole, 1, id);
        let w = a;
        let x = (a.0, a.1 + 1);
        let y = (a.0 + 1, a.1);
        let z = (a.0 + 1, a.1 + 1);
        assert(at(g, w) == tile(k, hole, w));
        assert(at(g, x) == tile(k, hole, x));
        assert(at(g, y) == tile(k, hole, y));
        assert(at(g, z) == tile(k, hole, z));
        assert(tile(k, hole, w) == id <==> in_tromino(a, gap, w));
        assert(tile(k, hole, x) == id <==> in_tromino(a, gap, x));
        assert(tile(k, hole, y) == id <==> in_tromino(a, gap, y));
        assert(tile(k, hole, z) == id <==> in_tromino(a, gap, z));
        assert(low.0 <= a.0 && low.1 <= a.1);
        let p = choose|p: Pos|
            #![trigger at(g, p)]
            within(p, l) && scanned(p, l.0, 0) && at(g, p) == id && p.0 == low.0;
        assert(at(g, p) == tile(k, hole, p));
        assert(tile(k, hole, p) == id <==> in_tromino(a, gap, p));
        let q = choose|q: Pos|
            #![trigger at(g, q)]
            within(q, l) && scanned(q, l.0, 0) && at(g, q) == id && q.1 == low.1;
        assert(at(g, q) == tile(k, hole, q));
        assert(tile(k, hole, q) == id <==> in_tromino(a, gap, q));
        assert forall|c: Pos|
            #![trigger at(g, c)]
            within(c, bound(g)) implies (at(g, c) == id as usize <==> in_tromino(a, gap, c)) by {
            assert(at(g, c) == tile(k, hole, c));
            assert(tile(k, hole, c) == id <==> in_tromino(a, gap, c));
        }
    }
}

impl BoardState {
    /// The cell of the hole.
    pub open spec fn hole(&self) -> Pos {
        self.piece_coords[0]@
    }

    /// The state is that of a board of order `k` in play: the board is tiled
    /// around the hole, each piece lies in the block that is entered for it, and
    /// the graph holds the moves of the hole on a board of that order.
    pub open spec fn wf(&self, k: nat) -> bool {
        &&& 2 * k < usize::BITS
        &&& bound(self.board@) == square(k)
        &&& is_tiling(self.board@, self.hole())
        &&& links(self.board@) == slides(k)
        &&& self.piece_coords.len() == pieces(k) + 1
        &&& forall|id: int|
            1 <= id <= pieces(k) ==> framed_at(
                self.board@,
                id as usize,
                (#[trigger] self.piece_coords[id])@,
            )
        &&& forall|c: Pos| within(c, square(k)) ==> #[trigger] at(self.board@, c) <= pieces(k)
        &&& self.move_graph.len() == pow2(k) * pow2(k)
        &&& forall|x: Pos, y: Cell|
            within(x, square(k)) ==> (#[trigger] listed(self.move_graph@, square(k), x, y)
                <==> within(y@, square(k)) && slide(k, x, y@))
    }

    /// The order of the board, by the number of its rows.
    pub open spec fn order(&self) -> nat {
        two_adic(self.board@.len())
    }

    /// The state is that of a board in play.
    pub open spec fn valid(&self) -> bool {
        self.wf(self.order())
    }

    /// The state of a new game on the board of order `k`, with the hole in the
    /// top-left corner. An order whose number of cells does not fit the machine
    /// word is turned down.
    pub fn new(k: usize) -> (r: Result<BoardState, PuzzleError>)
        ensures
            match r {
                Ok(s) => {
                    &&& s.wf(k as nat)
                    &&& s.valid()
                    &&& s.order() == k
                    &&& is_built(s.board@, k as nat, (0, 0))
                    &&& s.hole() == (0int, 0int)
                    &&& forall|id: int|
                        1 <= id <= pieces(k as nat) ==> (#[trigger] s.piece_coords[id])@
                            == anchor_of(k as nat, 1, id)
                },
                Err(e) => e == PuzzleError::OrderTooLarge && 2 * k >= usize::BITS,
            },
    {
        let cur_missing: Cell = Cell(0, 0);
        let mut board: Board = match Board::new(k, cur_missing) {
            Ok(b) => b,
            Err(e) => {
                proof {
                    lemma_pow2_pos(k as nat);
                }
                return Err(e);
            },
        };
        let ghost g = board@;
        let ghost kk = k as nat;
        proof {
            lemma_cells_fit(kk);
            lemma_diag_fits(kk);
            lemma_pieces_count(kk);
            lemma_pow2_pos(kk);
            lemma_built_is_tiling(g, kk, (0, 0));
        }
        let lim: Cell = board.limit();
        let dim: usize = lim.dim();
        let num_pieces: usize = (dim - 1) / 3 + 1;
        let mut piece_coords: Vec<Cell> = Vec::new();
        let mut i: usize = 0;
        while i < num_pieces
            invariant
                i <= num_pieces,
                piece_coords.len() == i,
                forall|j: int|
                    0 <= j < i ==> (#[trigger] piece_coords[j]).0 == usize::MAX && piece_coords[j].1
                        == usize::MAX,
            decreases num_pieces - i,
        {
            piece_coords.push(Cell(usize::MAX, usize::MAX));
            i = i + 1;
        }
        let mut r: usize = 0;
        while r < lim.0
            invariant
                r <= lim.0,
                board@ == g,
                board.wf(),
                lim@ == bound(g),
                is_built(g, kk, (0, 0)),
                piece_coords.len() == pieces(kk) + 1,
                lows_upto(g, piece_coords@, r as int, 0),
            decreases lim.0 - r,
        {
            let mut c: usize = 0;
            while c < lim.1
                invariant
                    r < lim.0,
                    c <= lim.1,
                    board@ == g,
                    board.wf(),
                    lim@ == bound(g),
                    is_built(g, kk, (0, 0)),
                    piece_coords.len() == pieces(kk) + 1,
                    lows_upto(g, piece_coords@, r as int, c as int),
                decreases lim.1 - c,
            {
                let val: usize = board.get(Cell(r, c));
                proof {
                    assert(at(g, (r as int, c as int)) == tile(kk, (0, 0), (r as int, c as int)));
                    lemma_tiling_hole(kk, (0, 0), (r as int, c as int));
                    lemma_lows_step(g, piece_coords@, r, c);
                }
                let low: Cell = piece_coords[val];
                let low_r: usize = if low.0 <= r {
                    low.0
                } else {
                    r
                };
                let low_c: usize = if low.1 <= c {
                    low.1
                } else {
                    c
                };
                piece_coords[val] = Cell(low_r, low_c);
                c = c + 1;
            }
            proof {
                lemma_lows_row(g, piece_coords@, r as int);
            }
            r = r + 1;
        }
        let move_graph: Vec<Vec<Cell>> = build_move_graph(&mut board, cur_missing);
        proof {
            let s = BoardState { board, move_graph, piece_coords };
            lemma_built_links(g, kk, (0, 0));
            lemma_two_adic_pow2(kk);
            assert forall|c: Pos| within(c, square(kk)) implies #[trigger] at(g, c) <= pieces(
                kk,
            ) by {
                assert(at(g, c) == tile(kk, (0, 0), c));
                lemma_tiling_hole(kk, (0, 0), c);
            }
            assert forall|id: int| 0 <= id <= pieces(kk) implies (id == 0 ==> (
            #[trigger] piece_coords[id])@ == (0int, 0int)) && (id >= 1 ==> piece_coords[id]@
                == anchor_of(kk, 1, id) && framed_at(g, id as usize, piece_coords[id]@)) by {
                lemma_lows_are_anchors(g, kk, (0, 0), piece_coords@, id);
            }
            assert(piece_coords[0]@ == (0int, 0int));
            assert forall|x: Pos, y: Cell| within(x, square(kk)) implies (#[trigger] listed(
                move_graph@,
                square(kk),
                x,
                y,
            ) <==> within(y@, square(kk)) && slide(kk, x, y@)) by {
                let w = lemma_walk_exists(kk, (0, 0), x);
                assert(walks(links(g), w, (0, 0), x));
                assert(joined(g, x, y@) == slide(kk, x, y@));
            }
        }
        Ok(BoardState { board, move_graph, piece_coords })
    }

    /// The corner of its block that piece `piece_id` leaves free.
    pub fn missing_corner_of(&self, piece_id: usize) -> (r: Cell)
        requires
            self.board.wf(),
            piece_id < self.piece_coords.len(),
            framed_at(self.board@, piece_id, self.piece_coords[piece_id as int]@),
        ensures
            lies(self.board@, piece_id, self.piece_coords[piece_id as int]@, r@),
    {
        let coor: Cell = self.piece_coords[piece_id];
        let ghost a = coor@;
        let ghost g = self.board@;
        proof {
            let gap = choose|gap: Pos| lies(g, piece_id, a, gap);
            assert(at(g, a) == piece_id <==> in_tromino(a, gap, a));
            assert(at(g, (a.0, a.1 + 1)) == piece_id <==> in_tromino(a, gap, (a.0, a.1 + 1)));
            assert(at(g, (a.0 + 1, a.1)) == piece_id <==> in_tromino(a, gap, (a.0 + 1, a.1)));
            assert(at(g, (a.0 + 1, a.1 + 1)) == piece_id <==> in_tromino(
                a,
                gap,
                (a.0 + 1, a.1 + 1),
            ));
            assert(bound(g).0 == self.board.0.len());
            assert(bound(g).1 == self.board.0[0].len());
        }
        if self.board.get(coor + Cell(0, 0)) != piece_id {
            Cell(0, 0)
        } else if self.board.get(coor + Cell(0, 1)) != piece_id {
            Cell(0, 1)
        } else if self.board.get(coor + Cell(1, 0)) != piece_id {
            Cell(1, 0)
        } else {
            Cell(1, 1)
        }
    }
}

/// One move of the hole as the game shows it: the piece that moves, and the
/// corner of its block that it leaves free before and after.
#[derive(Debug, Clone, Copy, PartialEq, Eq, Structural)]
pub struct Hop {
    pub tromino_id: usize,
    pub org_quad: Cell,
    pub target_quad: Cell,
}

/// The least distance from `target` to a cell of `list`; 0 for an empty list.
pub open spec fn least_dist(k: nat, target: Pos, list: Seq<Cell>) -> int
    decreases list.len(),
{
    if list.len() == 0 {
        0
    } else if list.len() == 1 {
        hole_dist(k, target, list[0]@)
    } else {
        let rest = least_dist(k, target, list.drop_last());
        let d = hole_dist(k, target, list.last()@);
        if d < rest {
            d
        } else {
            rest
        }
    }
}

/// The cells of `list` at distance `m` from `target`, in the order of the list.
pub open spec fn at_dist(k: nat, target: Pos, list: Seq<Cell>, m: int) -> Seq<Cell>
    decreases list.len(),
{
    if list.len() == 0 {
        Seq::empty()
    } else {
        let rest = at_dist(k, target, list.drop_last(), m);
        if hole_dist(k, target, list.last()@) == m {
            rest.push(list.last())
        } else {
            rest
        }
    }
}

/// The cells of `list` that are nearest to `target`, in the order of the list.
pub open spec fn candidates(k: nat, target: Pos, list: Seq<Cell>) -> Seq<Cell> {
    at_dist(k, target, list, least_dist(k, target, list))
}

/// The least distance is that of a cell of the list, and no cell of the list is
/// nearer.
pub proof fn lemma_least_dist(k: nat, target: Pos, list: Seq<Cell>)
    requires
        list.len() > 0,
    ensures
        forall|i: int|
            0 <= i < list.len() ==> least_dist(k, target, list) <= hole_dist(
                k,
                target,
                (#[trigger] list[i])@,
            ),
        exists|i: int|
            0 <= i < list.len() && hole_dist(k, target, (#[trigger] list[i])@) == least_dist(
                k,
                target,
                list,
            ),
    decreases list.len(),
{
    if list.len() > 1 {
        let rest = list.drop_last();
        lemma_least_dist(k, target, rest);
        let i0 = choose|i: int|
            0 <= i < rest.len() && hole_dist(k, target, (#[trigger] rest[i])@) == least_dist(
                k,
                target,
                rest,
            );
        assert(rest[i0] == list[i0]);
        let last = list.len() - 1;
        assert forall|i: int| 0 <= i < list.len() implies least_dist(k, target, list) <= hole_dist(
            k,
            target,
            (#[trigger] list[i])@,
        ) by {
            if i < last {
                assert(rest[i] == list[i]);
            }
        }
        if hole_dist(k, target, list.last()@) < least_dist(k, target, rest) {
            assert(hole_dist(k, target, list[last]@) == least_dist(k, target, list));
        } else {
            assert(hole_dist(k, target, list[i0]@) == least_dist(k, target, list));
        }
    } else {
        assert(hole_dist(k, target, list[0]@) == least_dist(k, target, list));
    }
}

/// The cells at distance `m` are cells of the list at that distance, and there is
/// one if the list holds one.
pub proof fn lemma_at_dist(k: nat, target: Pos, list: Seq<Cell>, m: int)
    ensures
        forall|j: int|
            0 <= j < at_dist(k, target, list, m).len() ==> list.contains(
                #[trigger] at_dist(k, target, list, m)[j],
            ) && hole_dist(k, target, at_dist(k, target, list, m)[j]@) == m,
        (exists|i: int| 0 <= i < list.len() && hole_dist(k, target, (#[trigger] list[i])@) == m)
            ==> at_dist(k, target, list, m).len() > 0,
    decreases list.len(),
{
    if list.len() > 0 {
        let rest = list.drop_last();
        lemma_at_dist(k, target, rest, m);
        let out = at_dist(k, target, list, m);
        let out0 = at_dist(k, target, rest, m);
        assert forall|j: int| 0 <= j < out.len() implies list.contains(#[trigger] out[j])
            && hole_dist(k, target, out[j]@) == m by {
            if j < out0.len() {
                assert(out[j] == out0[j]);
                assert(rest.contains(out0[j]));
                let i = choose|i: int| 0 <= i < rest.len() && rest[i] == out0[j];
                assert(list[i] == out[j]);
            } else {
                assert(out[j] == list[list.len() - 1]);
            }
        }
        if exists|i: int| 0 <= i < list.len() && hole_dist(k, target, (#[trigger] list[i])@) == m {
            let i = choose|i: int|
                0 <= i < list.len() && hole_dist(k, target, (#[trigger] list[i])@) == m;
            if i < list.len() - 1 {
                assert(rest[i] == list[i]);
            }
        }
    }
}

/// From any cell other than the target, the hole can slide to a cell that is one
/// move nearer to the target, and to none that is nearer still.
pub proof fn lemma_nearer(k: nat, hole: Pos, target: Pos, lists: Seq<Vec<Cell>>)
    requires
        pow2(k) <= usize::MAX,
        within(hole, square(k)),
        within(target, square(k)),
        hole != target,
        lists.len() == pow2(k) * pow2(k),
        forall|x: Pos, y: Cell|
            within(x, square(k)) ==> (#[trigger] listed(lists, square(k), x, y) <==> within(
                y@,
                square(k),
            ) && slide(k, x, y@)),
    ensures
        0 <= index_of(square(k), hole) < lists.len(),
        lists[index_of(square(k), hole)]@.len() > 0,
        forall|i: int|
            0 <= i < lists[index_of(square(k), hole)]@.len() ==> within(
                (#[trigger] lists[index_of(square(k), hole)]@[i])@,
                square(k),
            ) && slide(k, hole, lists[index_of(square(k), hole)]@[i]@),
        least_dist(k, target, lists[index_of(square(k), hole)]@) + 1 == hole_dist(k, target, hole),
{
    let l = square(k);
    lemma_index_in_grid(hole, l);
    let list = lists[index_of(l, hole)]@;
    let d = hole_dist(k, target, hole);
    assert forall|i: int| 0 <= i < list.len() implies within((#[trigger] list[i])@, l) && slide(
        k,
        hole,
        list[i]@,
    ) && d <= hole_dist(k, target, list[i]@) + 1 by {
        assert(list.contains(list[i]));
        assert(listed(lists, l, hole, list[i]));
        lemma_slide_within(k, hole, list[i]@);
        lemma_dist_step(k, target, list[i]@, hole);
    }
    let w = lemma_walk_exists(k, target, hole);
    if w.len() == 1 {
        assert(w[0] == target && w.last() == hole);
    }
    lemma_walk_drop_last(slides(k), w, target, hole);
    let mid = w[w.len() - 2];
    lemma_walk_bound(k, w.drop_last(), target, mid);
    assert(slide(k, mid, hole));
    lemma_slide_within(k, mid, hole);
    assert(cell_at(mid)@ == mid);
    assert(listed(lists, l, hole, cell_at(mid)));
    let i0 = choose|i: int| 0 <= i < list.len() && list[i] == cell_at(mid);
    assert(list[i0]@ == mid);
    lemma_least_dist(k, target, list);
    assert(least_dist(k, target, list) <= hole_dist(k, target, list[i0]@));
}

/// What a step of the hole towards `target` makes of the state `before`, with
/// `pick` to choose among the nearest cells: no move if the hole is on the target,
/// and else the move to the nearest cell that `pick` names, counted round the
/// list of the nearest cells.
pub open spec fn steps_to(
    before: BoardState,
    target: Cell,
    pick: usize,
    after: BoardState,
    r: Result<Option<Hop>, PuzzleError>,
) -> bool {
    let k = before.order();
    let hole = before.hole();
    if !within(target@, square(k)) {
        r == Err::<Option<Hop>, PuzzleError>(PuzzleError::OutOfRange) && after == before
    } else if target@ == hole {
        r == Ok::<Option<Hop>, PuzzleError>(None) && after == before
    } else {
        let cands = candidates(k, target@, before.move_graph@[index_of(square(k), hole)]@);
        let c = cands[pick as int % cands.len() as int];
        let id = at(before.board@, c@);
        let a = before.piece_coords[id as int]@;
        &&& cands.len() > 0
        &&& r matches Ok(Some(hop))
        &&& hop.tromino_id == id
        &&& hop.org_quad@ == place_in(a, hole)
        &&& hop.target_quad@ == place_in(a, c@)
        &&& after.board@ == swapped(before.board@, hole, c@)
        &&& after.piece_coords@ == before.piece_coords@.update(0, c)
        &&& after.move_graph == before.move_graph
    }
}

/// `ChaCha8Rng` of the crate `rand_chacha`: a generator of pseudorandom numbers.
#[verifier::external_type_specification]
#[verifier::external_body]
pub struct ExChaCha8Rng(rand_chacha::ChaCha8Rng);

/// `RngCore::next_u64` of `ChaCha8Rng`: the next 64 bits of the generator's
/// stream. Nothing is claimed of the number that comes back.
#[verifier::external_body]
fn next_u64(rng: &mut ChaCha8Rng) -> (r: u64) {
    rng.next_u64()
}

impl BoardState {
    /// Moves the hole one step towards `target`, to the cell nearest to the target
    /// among those that it can slide to; among several, to the one that `pick`
    /// names. The step brings the hole one move nearer to the target.
    ///
    /// No move is made if the hole is on the target. A target outside the board is
    /// turned down.
    pub fn step_toward(&mut self, target: Cell, pick: usize) -> (r: Result<
        Option<Hop>,
        PuzzleError,
    >)
        requires
            old(self).valid(),
        ensures
            steps_to(*old(self), target, pick, *final(self), r),
            final(self).valid(),
            final(self).order() == old(self).order(),
            r matches Ok(Some(_)) ==> hole_dist(old(self).order(), target@, final(self).hole()) + 1
                == hole_dist(old(self).order(), target@, old(self).hole()),
    {
        let ghost kk = self.order();
        let ghost g = self.board@;
        let ghost l = square(kk);
        proof {
            lemma_cells_fit(kk);
            lemma_diag_fits(kk);
            lemma_pow2_pos(kk);
        }
        let lim: Cell = self.board.limit();
        if !(target.0 < lim.0 && target.1 < lim.1) {
            return Err(PuzzleError::OutOfRange);
        }
        let missing_cell: Cell = self.piece_coords[0];
        if target == missing_cell {
            return Ok(None);
        }
        let k: usize = self.board.k();
        let ghost hole = missing_cell@;
        proof {
            lemma_nearer(kk, hole, target@, self.move_graph@);
        }
        let at_hole: usize = missing_cell.encode(lim).unwrap();
        let ghost list = self.move_graph@[at_hole as int]@;
        let mut dists: Vec<usize> = Vec::new();
        let mut i: usize = 0;
        while i < self.move_graph[at_hole].len()
            invariant
                at_hole < self.move_graph.len(),
                list == self.move_graph@[at_hole as int]@,
                i <= list.len(),
                k == kk,
                k < usize::BITS,
                within(target@, square(kk)),
                forall|m: int|
                    0 <= m < list.len() ==> within((#[trigger] list[m])@, square(kk)),
                dists.len() == i,
                forall|m: int|
                    0 <= m < i ==> (#[trigger] dists[m]) as int == hole_dist(kk, target@, list[m]@),
            decreases list.len() - i,
        {
            let x: Cell = self.move_graph[at_hole][i];
            proof {
                lemma_dist_bound(kk, target@, x@);
            }
            let d: usize = dist(k, target, x).unwrap();
            dists.push(d);
            i = i + 1;
        }
        let mut min_dist: usize = dists[0];
        let mut i: usize = 1;
        proof {
            assert(list.subrange(0, 1).len() == 1);
            assert(list.subrange(0, 1)[0] == list[0]);
        }
        while i < dists.len()
            invariant
                1 <= i <= dists.len(),
                dists.len() == list.len(),
                forall|m: int|
                    0 <= m < list.len() ==> (#[trigger] dists[m]) as int == hole_dist(
                        kk,
                        target@,
                        list[m]@,
                    ),
                min_dist as int == least_dist(kk, target@, list.subrange(0, i as int)),
            decreases dists.len() - i,
        {
            proof {
                let next = list.subrange(0, i + 1);
                assert(next.drop_last() =~= list.subrange(0, i as int));
                assert(next.last() == list[i as int]);
            }
            if dists[i] < min_dist {
                min_dist = dists[i];
            }
            i = i + 1;
        }
        proof {
            assert(list.subrange(0, list.len() as int) =~= list);
        }
        let mut cands: Vec<Cell> = Vec::new();
        let mut i: usize = 0;
        proof {
            assert(list.subrange(0, 0) =~= Seq::<Cell>::empty());
        }
        while i < dists.len()
            invariant
                i <= dists.len(),
                at_hole < self.move_graph.len(),
                list == self.move_graph@[at_hole as int]@,
                dists.len() == list.len(),
                forall|m: int|
                    0 <= m < list.len() ==> (#[trigger] dists[m]) as int == hole_dist(
                        kk,
                        target@,
                        list[m]@,
                    ),
                cands@ == at_dist(kk, target@, list.subrange(0, i as int), min_dist as int),
            decreases dists.len() - i,
        {
            proof {
                let next = list.subrange(0, i + 1);
                assert(next.drop_last() =~= list.subrange(0, i as int));
                assert(next.last() == list[i as int]);
            }
            if dists[i] == min_dist {
                cands.push(self.move_graph[at_hole][i]);
            }
            i = i + 1;
        }
        proof {
            assert(list.subrange(0, list.len() as int) =~= list);
            assert(cands@ == candidates(kk, target@, list));
            lemma_least_dist(kk, target@, list);
            lemma_at_dist(kk, target@, list, min_dist as int);
        }
        let candidate: Cell = cands[pick % cands.len()];
        let ghost c = candidate@;
        proof {
            assert(list.contains(candidate));
            let m = choose|m: int| 0 <= m < list.len() && list[m] == candidate;
            assert(within(list[m]@, l) && slide(kk, hole, list[m]@));
            assert(links(g)(hole, c) == slides(kk)(hole, c));
            assert(joined(g, hole, c));
            lemma_move_stands(g, hole, c);
            lemma_move_keeps(g, hole, c);
            lemma_swapped_at(g, hole, c);
            assert(at(g, c) != 0);
            assert(at(g, c) <= pieces(kk));
        }
        let tromino_id: usize = self.board.get(candidate);
        let ghost a = self.piece_coords[tromino_id as int]@;
        proof {
            assert(framed_at(g, tromino_id, self.piece_coords[tromino_id as int]@));
            lemma_move_frames(g, hole, c, tromino_id, a);
        }
        let org_quad: Cell = self.missing_corner_of(tromino_id);
        proof {
            lemma_gap_unique(g, tromino_id, a, org_quad@, place_in(a, hole));
        }
        self.board.make_move(missing_cell, candidate).unwrap();
        let ghost s = self.board@;
        let target_quad: Cell = self.missing_corner_of(tromino_id);
        proof {
            lemma_gap_unique(s, tromino_id, a, target_quad@, place_in(a, c));
        }
        self.piece_coords[0] = candidate;
        proof {
            assert(links(s) =~= links(g));
            assert forall|id: int| 1 <= id <= pieces(kk) implies framed_at(
                s,
                id as usize,
                (#[trigger] self.piece_coords[id])@,
            ) by {
                assert(self.piece_coords[id] == old(self).piece_coords[id]);
                lemma_move_frames(g, hole, c, id as usize, old(self).piece_coords[id]@);
            }
            assert forall|x: Pos| within(x, square(kk)) implies #[trigger] at(s, x) <= pieces(
                kk,
            ) by {
                assert(at(g, x) <= pieces(kk));
            }
            assert(self.piece_coords@ =~= old(self).piece_coords@.update(0, candidate));
        }
        Ok(Some(Hop { tromino_id, org_quad, target_quad }))
    }

    /// Moves the hole one step towards `target`, to the cell nearest to the target
    /// among those that it can slide to; among several, to one that the next
    /// number of `rng` names. No number is drawn where no move is made.
    pub fn step_random(&mut self, target: Cell, rng: &mut ChaCha8Rng) -> (r: Result<
        Option<Hop>,
        PuzzleError,
    >)
        requires
            old(self).valid(),
        ensures
            exists|pick: usize| steps_to(*old(self), target, pick, *final(self), r),
            final(self).valid(),
            final(self).order() == old(self).order(),
            r matches Ok(Some(_)) ==> hole_dist(old(self).order(), target@, final(self).hole()) + 1
                == hole_dist(old(self).order(), target@, old(self).hole()),
    {
        let lim: Cell = self.board.limit();
        let moves: bool = target.0 < lim.0 && target.1 < lim.1 && target != self.piece_coords[0];
        let pick: usize = if moves {
            #[verifier::truncate]
            (next_u64(rng) as usize)
        } else {
            0
        };
        let r = self.step_toward(target, pick);
        assert(steps_to(*old(self), target, pick, *self, r));
        r
    }
}

} // verus!
