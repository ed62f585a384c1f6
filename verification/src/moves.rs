//! The moves of the hole on a board that is tiled by trominoes: which moves
//! stand, and what they leave unchanged.

use vstd::prelude::*;
use crate::board::{Grid, alike, at, bound, grid_wf, settled, swapped};
use crate::cell::{Pos, adjacent, within};
use crate::solver::square;
use crate::tiling::{
    anchor_of, corner, gap_of, in_block, in_tromino, is_corner, lemma_tiling_by_trominoes,
    lemma_tiling_hole, tile,
};

verus! {

/// Piece `id` is the tromino that fills the block at `a` but for its corner `gap`:
/// the block lies on the grid, and `id` is on those three cells and on no other.
pub open spec fn lies(g: Grid, id: usize, a: Pos, gap: Pos) -> bool {
    &&& is_corner(gap)
    &&& within(a, bound(g))
    &&& within(corner(a, (1, 1)), bound(g))
    &&& forall|x: Pos|
        #![trigger at(g, x)]
        within(x, bound(g)) ==> (at(g, x) == id <==> in_tromino(a, gap, x))
}

/// Piece `id` is a tromino.
pub open spec fn framed(g: Grid, id: usize) -> bool {
    exists|a: Pos, gap: Pos| lies(g, id, a, gap)
}

/// The grid is tiled by trominoes around `hole`: the hole is the one cell with
/// value 0, and the identifier on any other cell marks a tromino.
pub open spec fn is_tiling(g: Grid, hole: Pos) -> bool {
    &&& grid_wf(g)
    &&& within(hole, bound(g))
    &&& at(g, hole) == 0
    &&& forall|c: Pos|
        #![trigger at(g, c)]
        within(c, bound(g)) && c != hole ==> at(g, c) != 0 && framed(g, at(g, c))
}

/// Three of the four cells of the block at `a` carry one piece.
pub open spec fn holds_piece(g: Grid, a: Pos) -> bool {
    let w = at(g, a);
    let x = at(g, (a.0, a.1 + 1));
    let y = at(g, (a.0 + 1, a.1));
    let z = at(g, (a.0 + 1, a.1 + 1));
    &&& within(a, bound(g))
    &&& within(corner(a, (1, 1)), bound(g))
    &&& {
        ||| w != 0 && w == x && x == y
        ||| w != 0 && w == x && x == z
        ||| w != 0 && w == y && y == z
        ||| x != 0 && x == y && y == z
    }
}

/// The hole can slide between `x` and `y`: they are adjacent, and one of the two
/// blocks that hold both of them holds a piece. This does not depend on where the
/// hole is.
pub open spec fn joined(g: Grid, x: Pos, y: Pos) -> bool {
    let r = if x.0 <= y.0 {
        x.0
    } else {
        y.0
    };
    let c = if x.1 <= y.1 {
        x.1
    } else {
        y.1
    };
    &&& adjacent(x, y)
    &&& if x.0 == y.0 {
        holds_piece(g, (r - 1, c)) || holds_piece(g, (r, c))
    } else {
        holds_piece(g, (r, c - 1)) || holds_piece(g, (r, c))
    }
}

/// What an exchange of two cells leaves on each cell.
pub proof fn lemma_swapped_at(g: Grid, a: Pos, b: Pos)
    requires
        grid_wf(g),
        within(a, bound(g)),
        within(b, bound(g)),
    ensures
        grid_wf(swapped(g, a, b)),
        bound(swapped(g, a, b)) == bound(g),
        forall|x: Pos|
            #![trigger at(swapped(g, a, b), x)]
            within(x, bound(g)) ==> at(swapped(g, a, b), x) == (if x == b {
                at(g, a)
            } else if x == a {
                at(g, b)
            } else {
                at(g, x)
            }),
{
    let s = swapped(g, a, b);
    assert(g[a.0].len() == g[0].len());
    assert(g[b.0].len() == g[0].len());
    assert forall|i: int| 0 <= i < s.len() implies (#[trigger] s[i]).len() == s[0].len() by {
        assert(g[i].len() == g[0].len());
    }
    assert forall|x: Pos| within(x, bound(g)) implies #[trigger] at(s, x) == (if x == b {
        at(g, a)
    } else if x == a {
        at(g, b)
    } else {
        at(g, x)
    }) by {
        assert(g[x.0].len() == g[0].len());
    }
}

/// Exchanging two cells and then the same two in the other order gives the grid
/// back.
pub proof fn lemma_swap_back(g: Grid, a: Pos, b: Pos)
    requires
        grid_wf(g),
        within(a, bound(g)),
        within(b, bound(g)),
    ensures
        swapped(swapped(g, a, b), b, a) =~= g,
{
    let s = swapped(g, a, b);
    let t = swapped(s, b, a);
    assert(t.len() == g.len());
    assert forall|i: int| 0 <= i < g.len() implies t[i] =~= g[i] by {}
}

/// On a tiled board, a block that holds a piece and the hole holds the piece on
/// its other three cells, and is the block that the piece lies in.
pub proof fn lemma_block_with_hole(g: Grid, hole: Pos, b: Pos, id: usize, a: Pos, gap: Pos)
    requires
        is_tiling(g, hole),
        holds_piece(g, b),
        in_block(b, hole),
        lies(g, id, a, gap),
        id != 0,
        at(g, b) == id || at(g, (b.0, b.1 + 1)) == id || at(g, (b.0 + 1, b.1)) == id || at(
            g,
            (b.0 + 1, b.1 + 1),
        ) == id,
    ensures
        a == b,
        corner(a, gap) == hole,
{
    let w = b;
    let x = (b.0, b.1 + 1);
    let y = (b.0 + 1, b.1);
    let z = (b.0 + 1, b.1 + 1);
    assert(w == hole || at(g, w) == id);
    assert(x == hole || at(g, x) == id);
    assert(y == hole || at(g, y) == id);
    assert(z == hole || at(g, z) == id);
    assert(w == hole || in_tromino(a, gap, w));
    assert(x == hole || in_tromino(a, gap, x));
    assert(y == hole || in_tromino(a, gap, y));
    assert(z == hole || in_tromino(a, gap, z));
    assert(!in_tromino(a, gap, hole));
}

/// On a tiled board, the move of the hole from `u` to an adjacent cell `v` stands
/// exactly if the two cells are joined.
pub proof fn lemma_move_stands(g: Grid, u: Pos, v: Pos)
    requires
        is_tiling(g, u),
        within(v, bound(g)),
        adjacent(u, v),
    ensures
        settled(swapped(g, u, v), v),
        settled(swapped(g, u, v), u) <==> joined(g, u, v),
{
    let p = at(g, v);
    assert(p != 0 && framed(g, p));
    let (a, gap) = choose|a: Pos, gap: Pos| lies(g, p, a, gap);
    lemma_swapped_at(g, u, v);
    let s = swapped(g, u, v);
    assert(at(s, u) == p);
    assert(at(s, v) == 0);
    assert(in_tromino(a, gap, v));
    assert(!in_tromino(a, gap, u));
    if settled(s, u) {
        let n: Pos = if alike(s, u, (u.0 - 1, u.1)) {
            (u.0 - 1, u.1)
        } else if alike(s, u, (u.0 + 1, u.1)) {
            (u.0 + 1, u.1)
        } else if alike(s, u, (u.0, u.1 - 1)) {
            (u.0, u.1 - 1)
        } else {
            (u.0, u.1 + 1)
        };
        assert(alike(s, u, n));
        assert(n != v && n != u);
        assert(at(g, n) == p);
        assert(in_tromino(a, gap, n));
        assert(in_block(a, u));
        assert(u == corner(a, gap));
        assert(at(g, a) == p || a == u);
        assert(at(g, (a.0, a.1 + 1)) == p || (a.0, a.1 + 1) == u);
        assert(at(g, (a.0 + 1, a.1)) == p || (a.0 + 1, a.1) == u);
        assert(at(g, (a.0 + 1, a.1 + 1)) == p || (a.0 + 1, a.1 + 1) == u);
        assert(holds_piece(g, a));
        assert(joined(g, u, v));
    }
    if joined(g, u, v) {
        let b = joining_block(g, u, v);
        lemma_block_with_hole(g, u, b, p, a, gap);
        assert(settled(s, u));
    }
}

/// A block that holds a piece and both of two joined cells.
pub open spec fn joining_block(g: Grid, x: Pos, y: Pos) -> Pos {
    let r = if x.0 <= y.0 {
        x.0
    } else {
        y.0
    };
    let c = if x.1 <= y.1 {
        x.1
    } else {
        y.1
    };
    if x.0 == y.0 {
        if holds_piece(g, (r - 1, c)) {
            (r - 1, c)
        } else {
            (r, c)
        }
    } else {
        if holds_piece(g, (r, c - 1)) {
            (r, c - 1)
        } else {
            (r, c)
        }
    }
}

/// On a tiled board, a move of the hole that stands leaves the board tiled, with
/// the hole at its new place, and leaves every block that held a piece holding
/// one: the same cells are joined after the move as before it.
pub proof fn lemma_move_keeps(g: Grid, u: Pos, v: Pos)
    requires
        is_tiling(g, u),
        within(v, bound(g)),
        joined(g, u, v),
    ensures
        is_tiling(swapped(g, u, v), v),
        forall|b: Pos| #[trigger] holds_piece(swapped(g, u, v), b) == holds_piece(g, b),
        forall|x: Pos, y: Pos| #[trigger] joined(swapped(g, u, v), x, y) == joined(g, x, y),
{
    let p = at(g, v);
    assert(p != 0 && framed(g, p));
    let (a, gap) = choose|a: Pos, gap: Pos| lies(g, p, a, gap);
    lemma_swapped_at(g, u, v);
    let s = swapped(g, u, v);
    lemma_block_with_hole(g, u, joining_block(g, u, v), p, a, gap);
    let gap2 = (v.0 - a.0, v.1 - a.1);
    assert(lies(s, p, a, gap2));
    assert forall|c: Pos| within(c, bound(s)) && c != v implies #[trigger] at(s, c) != 0 && framed(
        s,
        at(s, c),
    ) by {
        let id = at(s, c);
        if id != p {
            assert(at(g, c) == id && c != u);
            assert(framed(g, id));
            let (a3, gap3) = choose|a3: Pos, gap3: Pos| lies(g, id, a3, gap3);
            assert(lies(s, id, a3, gap3));
        }
    }
    assert forall|b: Pos| #[trigger] holds_piece(s, b) == holds_piece(g, b) by {
        let w = b;
        let x = (b.0, b.1 + 1);
        let y = (b.0 + 1, b.1);
        let z = (b.0 + 1, b.1 + 1);
        if within(b, bound(g)) && within(corner(b, (1, 1)), bound(g)) {
            assert(within(w, bound(g)) && within(x, bound(g)) && within(y, bound(g)) && within(
                z,
                bound(g),
            ));
            if b == a {
                assert(holds_piece(s, b));
                assert(holds_piece(g, b));
            } else {
                // Not all three cells of the piece that moved are in this block,
                // before or after, so a piece that the block holds is another one,
                // and stays.
                assert(at(g, w) == p ==> in_tromino(a, gap, w));
                assert(at(g, x) == p ==> in_tromino(a, gap, x));
                assert(at(g, y) == p ==> in_tromino(a, gap, y));
                assert(at(g, z) == p ==> in_tromino(a, gap, z));
                assert(at(s, w) == p ==> in_tromino(a, gap2, w));
                assert(at(s, x) == p ==> in_tromino(a, gap2, x));
                assert(at(s, y) == p ==> in_tromino(a, gap2, y));
                assert(at(s, z) == p ==> in_tromino(a, gap2, z));
            }
        }
    }
}

/// Piece `id` is a tromino in the block at `a`.
pub open spec fn framed_at(g: Grid, id: usize, a: Pos) -> bool {
    exists|gap: Pos| lies(g, id, a, gap)
}

/// The place of cell `c` in the block at `a`: a row bit and a column bit.
pub open spec fn place_in(a: Pos, c: Pos) -> Pos {
    (c.0 - a.0, c.1 - a.1)
}

/// On a tiled board, a move of the hole from `u` to `v` that stands leaves every
/// piece in its block. The piece that moves had `u` for its free corner and has
/// `v` afterwards.
pub proof fn lemma_move_frames(g: Grid, u: Pos, v: Pos, id: usize, a: Pos)
    requires
        is_tiling(g, u),
        within(v, bound(g)),
        joined(g, u, v),
        id != 0,
        framed_at(g, id, a),
    ensures
        framed_at(swapped(g, u, v), id, a),
        id == at(g, v) ==> lies(g, id, a, place_in(a, u)) && lies(
            swapped(g, u, v),
            id,
            a,
            place_in(a, v),
        ),
{
    let gap = choose|gap: Pos| lies(g, id, a, gap);
    lemma_swapped_at(g, u, v);
    let s = swapped(g, u, v);
    if id == at(g, v) {
        lemma_block_with_hole(g, u, joining_block(g, u, v), id, a, gap);
        assert(gap == place_in(a, u));
        assert(lies(s, id, a, place_in(a, v)));
    } else {
        assert(lies(s, id, a, gap));
    }
}

/// A piece lies in its block with one free corner only.
pub proof fn lemma_gap_unique(g: Grid, id: usize, a: Pos, gap1: Pos, gap2: Pos)
    requires
        grid_wf(g),
        lies(g, id, a, gap1),
        lies(g, id, a, gap2),
    ensures
        gap1 == gap2,
{
    let c1 = corner(a, gap1);
    let c2 = corner(a, gap2);
    assert(within(c1, bound(g)) && within(c2, bound(g)));
    assert(at(g, c1) == id <==> in_tromino(a, gap1, c1));
    assert(at(g, c1) == id <==> in_tromino(a, gap2, c1));
}

/// The grid carries the tiling of the board of order `k` with its hole at `hole`.
pub open spec fn is_built(g: Grid, k: nat, hole: Pos) -> bool {
    &&& grid_wf(g)
    &&& bound(g) == square(k)
    &&& within(hole, square(k))
    &&& forall|c: Pos| within(c, square(k)) ==> #[trigger] at(g, c) == tile(k, hole, c)
}

/// A board as it is built is tiled by trominoes around its hole.
pub proof fn lemma_built_is_tiling(g: Grid, k: nat, hole: Pos)
    requires
        is_built(g, k, hole),
    ensures
        is_tiling(g, hole),
{
    lemma_tiling_hole(k, hole, hole);
    assert(at(g, hole) == tile(k, hole, hole));
    assert forall|c: Pos|
        #![trigger at(g, c)]
        within(c, bound(g)) && c != hole implies at(g, c) != 0 && framed(g, at(g, c)) by {
        let id = at(g, c);
        assert(id == tile(k, hole, c));
        lemma_tiling_hole(k, hole, c);
        lemma_tiling_by_trominoes(k, hole, id as int);
        let a = anchor_of(k, 1, id as int);
        let gap = gap_of(k, hole, 1, id as int);
        assert forall|x: Pos|
            #![trigger at(g, x)]
            within(x, bound(g)) implies (at(g, x) == id <==> in_tromino(a, gap, x)) by {
            assert(at(g, x) == tile(k, hole, x));
            assert(tile(k, hole, x) == id as int <==> in_tromino(a, gap, x));
        }
        assert(lies(g, id, a, gap));
    }
}

} // verus!
