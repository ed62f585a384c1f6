//! The blocks that the pieces of a board lie in, as it is built: the central
//! blocks of the board, of its quadrants, of their quadrants, and so on. They
//! tie the moves that stand on the board to the graph of hole moves.

use vstd::prelude::*;
use vstd::arithmetic::power2::{pow2, lemma_pow2_pos, lemma_pow2_unfold, lemma2_to64};
use crate::board::{Grid, at};
use crate::cell::{Pos, adjacent, within};
use crate::graph::links;
use crate::metric::{slide, slides, lemma_slide_within};
use crate::moves::{holds_piece, is_built, joined};
use crate::solver::{local, quadrant, square};
use crate::tiling::{
    anchor_of, corner, gap_of, in_block, in_tromino, lemma_quadrant_products,
    lemma_tiling_by_trominoes, lemma_tiling_hole, piece_quadrant, pieces, sub_first, tile,
};

verus! {

/// `a` is the top-left cell of the central block of the board of order `k`, or
/// of one of the squares that the board divides into.
pub open spec fn is_frame(k: nat, a: Pos) -> bool
    decreases k,
{
    if k == 0 {
        false
    } else {
        let h = pow2((k - 1) as nat) as int;
        a == (h - 1, h - 1) || (within(a, square(k)) && is_frame((k - 1) as nat, local(h, a)))
    }
}

/// The identifier of the piece that lies in the block at `a`.
pub open spec fn frame_id(k: nat, first: int, a: Pos) -> int
    decreases k,
{
    if k == 0 {
        first
    } else {
        let h = pow2((k - 1) as nat) as int;
        if a == (h - 1, h - 1) {
            first
        } else {
            frame_id((k - 1) as nat, sub_first(k, first, quadrant(h, a)), local(h, a))
        }
    }
}

/// One of the two blocks that hold both of the adjacent cells `x` and `y` is a
/// frame.
pub open spec fn framed_pair(k: nat, x: Pos, y: Pos) -> bool {
    let r = if x.0 <= y.0 {
        x.0
    } else {
        y.0
    };
    let c = if x.1 <= y.1 {
        x.1
    } else {
        y.1
    };
    &&& adjacent(x, y)
    &&& if x.0 == y.0 {
        is_frame(k, (r - 1, c)) || is_frame(k, (r, c))
    } else {
        is_frame(k, (r, c - 1)) || is_frame(k, (r, c))
    }
}

/// A frame lies on the board with its whole block.
pub proof fn lemma_frame_within(k: nat, a: Pos)
    requires
        is_frame(k, a),
    ensures
        within(a, square(k)),
        within(corner(a, (1, 1)), square(k)),
    decreases k,
{
    if k > 0 {
        let j = (k - 1) as nat;
        let h = pow2(j) as int;
        lemma_pow2_unfold(k);
        lemma_pow2_pos(j);
        if a == (h - 1, h - 1) {
            if j == 0 {
                lemma2_to64();
            }
        } else {
            lemma_frame_within(j, local(h, a));
        }
    }
}

/// The block that a piece lies in is a frame.
pub proof fn lemma_anchor_is_frame(k: nat, first: int, id: int)
    requires
        first <= id < first + pieces(k),
    ensures
        is_frame(k, anchor_of(k, first, id)),
    decreases k,
{
    if k > 0 {
        let j = (k - 1) as nat;
        let h = pow2(j) as int;
        let p = pieces(j) as int;
        lemma_pow2_unfold(k);
        lemma_pow2_pos(j);
        if id != first {
            let q = piece_quadrant(k, first, id);
            lemma_quadrant_products(q, h, p);
            lemma_anchor_is_frame(j, sub_first(k, first, q), id);
            let a1 = anchor_of(j, sub_first(k, first, q), id);
            lemma_frame_within(j, a1);
            let a = anchor_of(k, first, id);
            assert(a == (a1.0 + q.0 * h, a1.1 + q.1 * h));
            assert(local(h, a) == a1);
        }
    }
}

/// In every frame lies a piece: the piece `frame_id` of the board's range.
pub proof fn lemma_frame_has_piece(k: nat, first: int, a: Pos)
    requires
        is_frame(k, a),
    ensures
        first <= frame_id(k, first, a) < first + pieces(k),
        anchor_of(k, first, frame_id(k, first, a)) == a,
    decreases k,
{
    if k > 0 {
        let j = (k - 1) as nat;
        let h = pow2(j) as int;
        let p = pieces(j) as int;
        lemma_pow2_unfold(k);
        lemma_pow2_pos(j);
        if a != (h - 1, h - 1) {
            let q = quadrant(h, a);
            lemma_quadrant_products(q, h, p);
            let sf = sub_first(k, first, q);
            lemma_frame_has_piece(j, sf, local(h, a));
            lemma_frame_within(j, local(h, a));
            let id = frame_id(k, first, a);
            assert(id == frame_id(j, sf, local(h, a)));
            assert(sf <= id < sf + p);
            assert(piece_quadrant(k, first, id) == q);
        }
    }
}

/// On a board as it is built, the blocks that hold a piece are the frames.
pub proof fn lemma_built_blocks(g: Grid, k: nat, hole: Pos, a: Pos)
    requires
        is_built(g, k, hole),
    ensures
        holds_piece(g, a) <==> is_frame(k, a),
{
    let w = a;
    let x = (a.0, a.1 + 1);
    let y = (a.0 + 1, a.1);
    let z = (a.0 + 1, a.1 + 1);
    if is_frame(k, a) {
        lemma_frame_within(k, a);
        lemma_frame_has_piece(k, 1, a);
        let id = frame_id(k, 1, a);
        lemma_tiling_by_trominoes(k, hole, id);
        let gap = gap_of(k, hole, 1, id);
        assert(at(g, w) == tile(k, hole, w));
        assert(at(g, x) == tile(k, hole, x));
        assert(at(g, y) == tile(k, hole, y));
        assert(at(g, z) == tile(k, hole, z));
        assert(tile(k, hole, w) == id <==> in_tromino(a, gap, w));
        assert(tile(k, hole, x) == id <==> in_tromino(a, gap, x));
        assert(tile(k, hole, y) == id <==> in_tromino(a, gap, y));
        assert(tile(k, hole, z) == id <==> in_tromino(a, gap, z));
        assert(holds_piece(g, a));
    }
    if holds_piece(g, a) {
        assert(within(w, square(k)) && within(x, square(k)) && within(y, square(k)) && within(
            z,
            square(k),
        ));
        let c: Pos = if at(g, w) != 0 && (at(g, w) == at(g, x) || at(g, w) == at(g, y)) {
            w
        } else {
            x
        };
        let id = at(g, c) as int;
        assert(at(g, w) == tile(k, hole, w));
        assert(at(g, x) == tile(k, hole, x));
        assert(at(g, y) == tile(k, hole, y));
        assert(at(g, z) == tile(k, hole, z));
        lemma_tiling_hole(k, hole, c);
        lemma_tiling_by_trominoes(k, hole, id);
        let a0 = anchor_of(k, 1, id);
        let gap = gap_of(k, hole, 1, id);
        assert(tile(k, hole, w) == id <==> in_tromino(a0, gap, w));
        assert(tile(k, hole, x) == id <==> in_tromino(a0, gap, x));
        assert(tile(k, hole, y) == id <==> in_tromino(a0, gap, y));
        assert(tile(k, hole, z) == id <==> in_tromino(a0, gap, z));
        assert(a0 == a);
        lemma_anchor_is_frame(k, 1, id);
    }
}

/// The hole slides between two cells exactly if they are adjacent and lie in the
/// block of a frame.
pub proof fn lemma_slide_by_frames(k: nat, x: Pos, y: Pos)
    ensures
        slide(k, x, y) <==> framed_pair(k, x, y),
    decreases k,
{
    if k > 0 {
        let j = (k - 1) as nat;
        let h = pow2(j) as int;
        lemma_pow2_unfold(k);
        lemma_pow2_pos(j);
        let c0 = (h - 1, h - 1);
        let lx = local(h, x);
        let ly = local(h, y);
        lemma_slide_by_frames(j, lx, ly);
        let r = if x.0 <= y.0 {
            x.0
        } else {
            y.0
        };
        let c = if x.1 <= y.1 {
            x.1
        } else {
            y.1
        };
        let b1: Pos = if x.0 == y.0 {
            (r - 1, c)
        } else {
            (r, c - 1)
        };
        let b2: Pos = (r, c);
        if slide(k, x, y) {
            lemma_slide_within(k, x, y);
            if adjacent(x, y) && in_block(c0, x) && in_block(c0, y) {
                assert(c0 == b1 || c0 == b2);
                assert(is_frame(k, c0));
            } else {
                lemma_slide_within(j, lx, ly);
                assert(framed_pair(j, lx, ly));
                let q = quadrant(h, x);
                let lb1 = local(h, b1);
                let lb2 = local(h, b2);
                let lr = if lx.0 <= ly.0 {
                    lx.0
                } else {
                    ly.0
                };
                let lc = if lx.1 <= ly.1 {
                    lx.1
                } else {
                    ly.1
                };
                let m1: Pos = if lx.0 == ly.0 {
                    (lr - 1, lc)
                } else {
                    (lr, lc - 1)
                };
                let m2: Pos = (lr, lc);
                if is_frame(j, m1) {
                    lemma_frame_within(j, m1);
                    assert(local(h, b1) == m1);
                    assert(within(b1, square(k)));
                    assert(is_frame(k, b1));
                } else {
                    assert(is_frame(j, m2));
                    lemma_frame_within(j, m2);
                    assert(local(h, b2) == m2);
                    assert(within(b2, square(k)));
                    assert(is_frame(k, b2));
                }
            }
        }
        if framed_pair(k, x, y) {
            let b: Pos = if is_frame(k, b1) {
                b1
            } else {
                b2
            };
            assert(is_frame(k, b));
            assert(in_block(b, x) && in_block(b, y));
            if b != c0 {
                let lb = local(h, b);
                lemma_frame_within(j, lb);
                assert(quadrant(h, x) == quadrant(h, b));
                assert(quadrant(h, y) == quadrant(h, b));
                assert(in_block(lb, lx) && in_block(lb, ly));
                assert(adjacent(lx, ly));
                assert(framed_pair(j, lx, ly));
                assert(slide(j, lx, ly));
                assert(within(x, square(k)) && within(y, square(k)));
            }
        }
    }
}

/// On a board as it is built, the moves that stand are the edges of the graph of
/// hole moves of its order, wherever the hole was put.
pub proof fn lemma_built_links(g: Grid, k: nat, hole: Pos)
    requires
        is_built(g, k, hole),
    ensures
        links(g) == slides(k),
        forall|x: Pos, y: Pos| #[trigger] joined(g, x, y) == slide(k, x, y),
{
    assert forall|x: Pos, y: Pos| #[trigger] joined(g, x, y) == slide(k, x, y) by {
        lemma_slide_by_frames(k, x, y);
        let r = if x.0 <= y.0 {
            x.0
        } else {
            y.0
        };
        let c = if x.1 <= y.1 {
            x.1
        } else {
            y.1
        };
        lemma_built_blocks(g, k, hole, (r - 1, c));
        lemma_built_blocks(g, k, hole, (r, c - 1));
        lemma_built_blocks(g, k, hole, (r, c));
    }
    assert(links(g) =~= slides(k));
}

} // verus!
