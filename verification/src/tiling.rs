//! The tiling that a board is built with, as a function from cells to piece
//! identifiers, and what holds of it: every piece is an L-shaped tromino.

use vstd::prelude::*;
use vstd::arithmetic::power2::{pow2, lemma_pow2_pos, lemma_pow2_unfold, lemma2_to64};
use crate::cell::{Pos, adjacent, within};
use crate::solver::{joint, local, quadrant, square};

verus! {

/// The number of trominoes that tile a square of order `k` less one cell:
/// `(4^k - 1) / 3`.
pub open spec fn pieces(k: nat) -> nat
    decreases k,
{
    if k == 0 {
        0
    } else {
        4 * pieces((k - 1) as nat) + 1
    }
}

/// The place of quadrant `q` in the order in which the quadrants are filled:
/// top-left, top-right, bottom-left, bottom-right.
pub open spec fn quad_index(q: Pos) -> int {
    2 * q.0 + q.1
}

/// The cell that quadrant `q` of a square of side `2 * h` is tiled around, relative
/// to the quadrant: the hole itself where the quadrant holds it, else the
/// quadrant's joint.
pub open spec fn sub_hole(h: int, hole: Pos, q: Pos) -> Pos {
    if q == quadrant(h, hole) {
        local(h, hole)
    } else {
        local(h, joint(h, q))
    }
}

/// The first identifier that is used inside quadrant `q` of a square of order `k`
/// whose own piece is `first`.
pub open spec fn sub_first(k: nat, first: int, q: Pos) -> int {
    first + 1 + quad_index(q) * pieces((k - 1) as nat)
}

/// The identifier on cell `c` of a square of order `k` that is tiled around
/// `hole`, with identifiers from `first` on. Both cells are relative to the
/// square's top-left corner, and `c` is not the hole.
///
/// The piece `first` lies on the joints of the three quadrants without the hole.
/// Each quadrant is then tiled in the same way around its joint, or around the
/// hole, with a range of identifiers of its own.
pub open spec fn piece_at(k: nat, hole: Pos, first: int, c: Pos) -> int
    decreases k,
{
    if k == 0 {
        0
    } else {
        let h = pow2((k - 1) as nat) as int;
        let q = quadrant(h, c);
        if q != quadrant(h, hole) && c == joint(h, q) {
            first
        } else {
            piece_at((k - 1) as nat, sub_hole(h, hole, q), sub_first(k, first, q), local(h, c))
        }
    }
}

/// The value on cell `c` of the board of order `k` with its hole at `hole`: 0 on
/// the hole, and the piece's identifier, counted from 1, elsewhere.
pub open spec fn tile(k: nat, hole: Pos, c: Pos) -> int {
    if c == hole {
        0
    } else {
        piece_at(k, hole, 1, c)
    }
}

/// `c` is one of the four cells of the block of two rows and two columns whose
/// top-left cell is `a`.
pub open spec fn in_block(a: Pos, c: Pos) -> bool {
    a.0 <= c.0 <= a.0 + 1 && a.1 <= c.1 <= a.1 + 1
}

/// `g` names a corner of a block: a row bit and a column bit.
pub open spec fn is_corner(g: Pos) -> bool {
    0 <= g.0 <= 1 && 0 <= g.1 <= 1
}

/// The cell at corner `g` of the block at `a`.
pub open spec fn corner(a: Pos, g: Pos) -> Pos {
    (a.0 + g.0, a.1 + g.1)
}

/// `c` is one of the three cells of the tromino that fills the block at `a` but
/// for its corner `g`.
pub open spec fn in_tromino(a: Pos, g: Pos, c: Pos) -> bool {
    in_block(a, c) && c != corner(a, g)
}

/// The quadrant that holds piece `id` of a square of order `k` whose own piece is
/// `first`, for an `id` other than `first`.
pub open spec fn piece_quadrant(k: nat, first: int, id: int) -> Pos {
    let p = pieces((k - 1) as nat) as int;
    if id < first + 1 + p {
        (0, 0)
    } else if id < first + 1 + 2 * p {
        (0, 1)
    } else if id < first + 1 + 3 * p {
        (1, 0)
    } else {
        (1, 1)
    }
}

/// The top-left cell of the block that piece `id` lies in, in a square of order `k`
/// with identifiers from `first` on.
pub open spec fn anchor_of(k: nat, first: int, id: int) -> Pos
    decreases k,
{
    if k == 0 {
        (0, 0)
    } else {
        let h = pow2((k - 1) as nat) as int;
        if id == first {
            (h - 1, h - 1)
        } else {
            let q = piece_quadrant(k, first, id);
            let a = anchor_of((k - 1) as nat, sub_first(k, first, q), id);
            (a.0 + q.0 * h, a.1 + q.1 * h)
        }
    }
}

/// The corner of its block that piece `id` leaves free, in a square of order `k`
/// tiled around `hole` with identifiers from `first` on.
pub open spec fn gap_of(k: nat, hole: Pos, first: int, id: int) -> Pos
    decreases k,
{
    if k == 0 {
        (0, 0)
    } else {
        let h = pow2((k - 1) as nat) as int;
        if id == first {
            quadrant(h, hole)
        } else {
            let q = piece_quadrant(k, first, id);
            gap_of((k - 1) as nat, sub_hole(h, hole, q), sub_first(k, first, q), id)
        }
    }
}

/// A square of order `k` has three cells for each of its pieces, and one more.
pub proof fn lemma_pieces_count(k: nat)
    ensures
        3 * pieces(k) + 1 == pow2(k) * pow2(k),
    decreases k,
{
    if k == 0 {
        lemma2_to64();
    } else {
        lemma_pieces_count((k - 1) as nat);
        lemma_pow2_unfold(k);
        let h = pow2((k - 1) as nat) as int;
        assert((2 * h) * (2 * h) == 4 * (h * h)) by (nonlinear_arith);
    }
}

/// Every cell but the hole carries an identifier of the square's own range.
pub proof fn lemma_piece_range(k: nat, hole: Pos, first: int, c: Pos)
    requires
        within(hole, square(k)),
        within(c, square(k)),
        c != hole,
    ensures
        first <= piece_at(k, hole, first, c) < first + pieces(k),
    decreases k,
{
    if k == 0 {
        lemma2_to64();
    } else {
        let j = (k - 1) as nat;
        let h = pow2(j) as int;
        lemma_pow2_unfold(k);
        lemma_pow2_pos(j);
        let q = quadrant(h, c);
        let p = pieces(j) as int;
        assert(quad_index(q) * p == if q == (0int, 0int) {
            0
        } else if q == (0int, 1int) {
            p
        } else if q == (1int, 0int) {
            2 * p
        } else {
            3 * p
        }) by (nonlinear_arith)
            requires
                0 <= q.0 <= 1,
                0 <= q.1 <= 1,
        ;
        if !(q != quadrant(h, hole) && c == joint(h, q)) {
            lemma_piece_range(j, sub_hole(h, hole, q), sub_first(k, first, q), local(h, c));
        }
    }
}

/// The multiples of the quadrant size that the identifier ranges and the quadrant
/// corners are made of, written out for each of the four quadrants.
pub proof fn lemma_quadrant_products(q: Pos, h: int, p: int)
    requires
        is_corner(q),
    ensures
        q.0 * h == (if q.0 == 0 {
            0
        } else {
            h
        }),
        q.1 * h == (if q.1 == 0 {
            0
        } else {
            h
        }),
        quad_index(q) * p == (if q == (0int, 0int) {
            0
        } else if q == (0int, 1int) {
            p
        } else if q == (1int, 0int) {
            2 * p
        } else {
            3 * p
        }),
{
    assert(q.0 == 0 || q.0 == 1);
    assert(q.1 == 0 || q.1 == 1);
    assert(0 * h == 0 && 1 * h == h && 0 * p == 0 && 1 * p == p && 2 * p == p + p && 3 * p == p
        + p + p) by (nonlinear_arith);
}

/// Every piece of the tiling is a tromino: piece `id` fills the block at
/// `anchor_of(k, first, id)` but for the corner `gap_of(k, hole, first, id)`, and
/// lies nowhere else. Where the hole is in that block, it is the free corner.
pub proof fn lemma_piece_shape(k: nat, hole: Pos, first: int, id: int)
    requires
        within(hole, square(k)),
        first <= id < first + pieces(k),
    ensures
        within(anchor_of(k, first, id), square(k)),
        within(corner(anchor_of(k, first, id), (1, 1)), square(k)),
        is_corner(gap_of(k, hole, first, id)),
        in_block(anchor_of(k, first, id), hole) ==> hole == corner(
            anchor_of(k, first, id),
            gap_of(k, hole, first, id),
        ),
        forall|c: Pos|
            within(c, square(k)) && c != hole ==> (#[trigger] piece_at(k, hole, first, c) == id
                <==> in_tromino(anchor_of(k, first, id), gap_of(k, hole, first, id), c)),
    decreases k,
{
    if k > 0 {
        let j = (k - 1) as nat;
        let h = pow2(j) as int;
        let p = pieces(j) as int;
        lemma_pow2_unfold(k);
        lemma_pow2_pos(j);
        let qh = quadrant(h, hole);
        let a = anchor_of(k, first, id);
        let g = gap_of(k, hole, first, id);
        if id == first {
            if j == 0 {
                lemma2_to64();
            }
            assert forall|c: Pos| within(c, square(k)) && c != hole implies (#[trigger] piece_at(
                k,
                hole,
                first,
                c,
            ) == id <==> in_tromino(a, g, c)) by {
                let q = quadrant(h, c);
                lemma_quadrant_products(q, h, p);
                if !(q != qh && c == joint(h, q)) {
                    lemma_piece_range(j, sub_hole(h, hole, q), sub_first(k, first, q), local(h, c));
                }
            }
        } else {
            let q = piece_quadrant(k, first, id);
            lemma_quadrant_products(q, h, p);
            let sh = sub_hole(h, hole, q);
            let sf = sub_first(k, first, q);
            lemma_piece_shape(j, sh, sf, id);
            let a1 = anchor_of(j, sf, id);
            let g1 = gap_of(j, sh, sf, id);
            assert(a == (a1.0 + q.0 * h, a1.1 + q.1 * h));
            assert(g == g1);
            assert forall|c: Pos| within(c, square(k)) && c != hole implies (#[trigger] piece_at(
                k,
                hole,
                first,
                c,
            ) == id <==> in_tromino(a, g, c)) by {
                let qc = quadrant(h, c);
                lemma_quadrant_products(qc, h, p);
                if qc != qh && c == joint(h, qc) {
                    if in_block(a, c) {
                        assert(qc == q);
                        assert(local(h, c) == sh);
                        assert(in_block(a1, sh));
                    }
                } else {
                    lemma_piece_range(
                        j,
                        sub_hole(h, hole, qc),
                        sub_first(k, first, qc),
                        local(h, c),
                    );
                    if qc == q {
                        assert(piece_at(k, hole, first, c) == piece_at(j, sh, sf, local(h, c)));
                        assert(in_block(a, c) <==> in_block(a1, local(h, c)));
                        assert(c == corner(a, g) <==> local(h, c) == corner(a1, g1));
                    } else {
                        assert(!in_block(a, c));
                    }
                }
            }
        }
    }
}

/// The cells of the board of order `k` with its hole at `hole` that carry `id`.
pub open spec fn cells_of(k: nat, hole: Pos, id: int) -> Set<Pos> {
    Set::new(|c: Pos| within(c, square(k)) && tile(k, hole, c) == id)
}

/// The cell of the tromino at block `a` with free corner `g` that touches the
/// other two: the corner across from the free one.
pub open spec fn elbow(a: Pos, g: Pos) -> Pos {
    corner(a, (1 - g.0, 1 - g.1))
}

/// The cell of the tromino at block `a` with free corner `g` in the row of the
/// free corner.
pub open spec fn row_arm(a: Pos, g: Pos) -> Pos {
    corner(a, (g.0, 1 - g.1))
}

/// The cell of the tromino at block `a` with free corner `g` in the column of the
/// free corner.
pub open spec fn col_arm(a: Pos, g: Pos) -> Pos {
    corner(a, (1 - g.0, g.1))
}

/// On the board of order `k` with its hole at `hole`, the hole is the one cell
/// with value 0, and every other cell carries an identifier from 1 to
/// `pieces(k)`.
pub proof fn lemma_tiling_hole(k: nat, hole: Pos, c: Pos)
    requires
        within(hole, square(k)),
        within(c, square(k)),
    ensures
        tile(k, hole, c) == 0 <==> c == hole,
        0 <= tile(k, hole, c) <= pieces(k),
{
    if c != hole {
        lemma_piece_range(k, hole, 1, c);
    }
}

/// On the board of order `k` with its hole at `hole`, every identifier from 1 to
/// `pieces(k)` lies on exactly three cells, which form an L: an elbow with an arm
/// in its row and an arm in its column, all within one block of the board.
pub proof fn lemma_tiling_by_trominoes(k: nat, hole: Pos, id: int)
    requires
        within(hole, square(k)),
        1 <= id <= pieces(k),
    ensures
        ({
            let a = anchor_of(k, 1, id);
            let g = gap_of(k, hole, 1, id);
            &&& is_corner(g)
            &&& within(a, square(k))
            &&& within(corner(a, (1, 1)), square(k))
            &&& cells_of(k, hole, id) == set![row_arm(a, g), elbow(a, g), col_arm(a, g)]
            &&& cells_of(k, hole, id).finite()
            &&& cells_of(k, hole, id).len() == 3
            &&& adjacent(col_arm(a, g), elbow(a, g))
            &&& adjacent(elbow(a, g), row_arm(a, g))
            &&& forall|c: Pos|
                within(c, square(k)) ==> (#[trigger] tile(k, hole, c) == id <==> in_tromino(a, g, c))
        }),
{
    let a = anchor_of(k, 1, id);
    let g = gap_of(k, hole, 1, id);
    lemma_piece_shape(k, hole, 1, id);
    assert forall|c: Pos| within(c, square(k)) implies (#[trigger] tile(k, hole, c) == id
        <==> in_tromino(a, g, c)) by {
        if c != hole {
            assert(piece_at(k, hole, 1, c) == id <==> in_tromino(a, g, c));
        }
    }
    let three = set![row_arm(a, g), elbow(a, g), col_arm(a, g)];
    assert forall|c: Pos| cells_of(k, hole, id).contains(c) <==> three.contains(c) by {
        if three.contains(c) {
            assert(in_tromino(a, g, c));
            assert(within(c, square(k)));
            assert(tile(k, hole, c) == id <==> in_tromino(a, g, c));
        }
        if cells_of(k, hole, id).contains(c) {
            assert(tile(k, hole, c) == id <==> in_tromino(a, g, c));
        }
    }
    assert(cells_of(k, hole, id) =~= three);
}

} // verus!
