//! The graph of hole moves of a board as it is built, and the proof that the
//! distance computed in closed form is the distance in that graph.

use vstd::prelude::*;
use vstd::arithmetic::power2::{pow2, lemma_pow2_pos, lemma_pow2_unfold, lemma2_to64};
use crate::cell::{Pos, adjacent, manhattan, within};
use crate::graph::{Edges, is_distance, lemma_walk_concat, lemma_walk_drop_last, walks};
use crate::solver::{
    hole_dist, joint, lemma_dist_identity, lemma_dist_symmetric, local, quadrant, square,
};
use crate::tiling::{in_block, is_corner};

verus! {

/// The hole can slide between `x` and `y` on a board of order `k`: the two cells
/// are adjacent and lie in the central block of the board, or they lie in one
/// quadrant and the hole can slide between them there.
pub open spec fn slide(k: nat, x: Pos, y: Pos) -> bool
    decreases k,
{
    if k == 0 {
        false
    } else {
        let h = pow2((k - 1) as nat) as int;
        ||| adjacent(x, y) && in_block((h - 1, h - 1), x) && in_block((h - 1, h - 1), y)
        ||| within(x, square(k)) && within(y, square(k)) && quadrant(h, x) == quadrant(h, y)
            && slide((k - 1) as nat, local(h, x), local(h, y))
    }
}

/// The edges of the graph of hole moves of a board of order `k`.
pub open spec fn slides(k: nat) -> Edges {
    |x: Pos, y: Pos| slide(k, x, y)
}

/// The hole slides between adjacent cells of the board only, and in both
/// directions.
pub proof fn lemma_slide_within(k: nat, x: Pos, y: Pos)
    requires
        slide(k, x, y),
    ensures
        within(x, square(k)),
        within(y, square(k)),
        adjacent(x, y),
        slide(k, y, x),
    decreases k,
{
    if k > 0 {
        let j = (k - 1) as nat;
        let h = pow2(j) as int;
        lemma_pow2_unfold(k);
        lemma_pow2_pos(j);
        if !(adjacent(x, y) && in_block((h - 1, h - 1), x) && in_block((h - 1, h - 1), y)) {
            lemma_slide_within(j, local(h, x), local(h, y));
        }
    }
}

/// One move of the hole changes the distance from `u` by one at most.
pub proof fn lemma_dist_step(k: nat, u: Pos, x: Pos, y: Pos)
    requires
        within(u, square(k)),
        slide(k, x, y),
    ensures
        hole_dist(k, u, y) <= hole_dist(k, u, x) + 1,
    decreases k,
{
    if k > 0 {
        let j = (k - 1) as nat;
        let h = pow2(j) as int;
        lemma_pow2_unfold(k);
        lemma_pow2_pos(j);
        lemma_slide_within(k, x, y);
        let qu = quadrant(h, u);
        let qx = quadrant(h, x);
        let qy = quadrant(h, y);
        let lu = local(h, u);
        if adjacent(x, y) && in_block((h - 1, h - 1), x) && in_block((h - 1, h - 1), y) {
            assert(x == joint(h, qx));
            assert(y == joint(h, qy));
            lemma_dist_identity(j, local(h, x));
            lemma_dist_identity(j, local(h, y));
            assert(hole_dist(k, u, x) == hole_dist(j, lu, local(h, joint(h, qu))) + manhattan(
                joint(h, qu),
                x,
            ));
            assert(hole_dist(k, u, y) == hole_dist(j, lu, local(h, joint(h, qu))) + manhattan(
                joint(h, qu),
                y,
            ));
        } else {
            assert(qx == qy);
            let lx = local(h, x);
            let ly = local(h, y);
            if qu == qx {
                lemma_dist_step(j, lu, lx, ly);
            } else {
                let lj = local(h, joint(h, qx));
                lemma_dist_step(j, lj, lx, ly);
                lemma_dist_symmetric(j, lx, lj);
                lemma_dist_symmetric(j, ly, lj);
            }
        }
    }
}

/// No walk of the hole from `u` to `v` is shorter than their distance.
pub proof fn lemma_walk_bound(k: nat, w: Seq<Pos>, u: Pos, v: Pos)
    requires
        within(u, square(k)),
        walks(slides(k), w, u, v),
    ensures
        hole_dist(k, u, v) <= w.len() - 1,
    decreases w.len(),
{
    if w.len() == 1 {
        lemma_dist_identity(k, u);
    } else {
        lemma_walk_drop_last(slides(k), w, u, v);
        let mid = w[w.len() - 2];
        lemma_walk_bound(k, w.drop_last(), u, mid);
        assert(slide(k, mid, v));
        lemma_dist_step(k, u, mid, v);
    }
}

/// The cells of a walk, each moved by `d`.
pub open spec fn shifted(w: Seq<Pos>, d: Pos) -> Seq<Pos> {
    Seq::new(w.len(), |i: int| (w[i].0 + d.0, w[i].1 + d.1))
}

/// A walk of the hole in a quadrant is a walk on the board.
pub proof fn lemma_walk_in_quadrant(k: nat, q: Pos, w: Seq<Pos>, a: Pos, b: Pos)
    requires
        k >= 1,
        is_corner(q),
        within(a, square((k - 1) as nat)),
        walks(slides((k - 1) as nat), w, a, b),
    ensures
        walks(
            slides(k),
            shifted(w, (q.0 * pow2((k - 1) as nat), q.1 * pow2((k - 1) as nat))),
            (a.0 + q.0 * pow2((k - 1) as nat), a.1 + q.1 * pow2((k - 1) as nat)),
            (b.0 + q.0 * pow2((k - 1) as nat), b.1 + q.1 * pow2((k - 1) as nat)),
        ),
        within(b, square((k - 1) as nat)),
{
    let j = (k - 1) as nat;
    let h = pow2(j) as int;
    lemma_pow2_unfold(k);
    lemma_pow2_pos(j);
    let d = (q.0 * h, q.1 * h);
    assert(d.0 == (if q.0 == 0 { 0 } else { h }) && d.1 == (if q.1 == 0 { 0 } else { h }))
        by (nonlinear_arith)
        requires
            is_corner(q),
            d == (q.0 * h, q.1 * h),
    ;
    let s = shifted(w, d);
    assert forall|i: int| 0 <= i < w.len() implies within(#[trigger] w[i], square(j)) by {
        if i < w.len() - 1 {
            assert(slides(j)(w[i], w[i + 1]));
            lemma_slide_within(j, w[i], w[i + 1]);
        } else if i > 0 {
            assert(slides(j)(w[i - 1], w[i - 1 + 1]));
            lemma_slide_within(j, w[i - 1], w[i]);
        }
    }
    assert forall|i: int| 0 <= i < s.len() - 1 implies slides(k)(#[trigger] s[i], s[i + 1]) by {
        assert(slides(j)(w[i], w[i + 1]));
        assert(within(w[i], square(j)));
        assert(within(w[i + 1], square(j)));
        assert(quadrant(h, s[i]) == q && quadrant(h, s[i + 1]) == q);
        assert(local(h, s[i]) == w[i] && local(h, s[i + 1]) == w[i + 1]);
        assert(slide(k, s[i], s[i + 1]));
    }
    assert(within(w[w.len() - 1], square(j)));
}

/// A cell is where its quadrant puts the cell's place in the quadrant.
pub proof fn lemma_quadrant_shift(h: int, p: Pos)
    ensures
        local(h, p).0 + quadrant(h, p).0 * h == p.0,
        local(h, p).1 + quadrant(h, p).1 * h == p.1,
{
    assert(0 * h == 0 && 1 * h == h) by (nonlinear_arith);
}

/// The walk of the hole over the central block from the joint of quadrant `qu`
/// to that of another quadrant `qv`.
pub proof fn lemma_walk_over_centre(k: nat, qu: Pos, qv: Pos) -> (w: Seq<Pos>)
    requires
        k >= 1,
        is_corner(qu),
        is_corner(qv),
        qu != qv,
    ensures
        walks(
            slides(k),
            w,
            joint(pow2((k - 1) as nat) as int, qu),
            joint(pow2((k - 1) as nat) as int, qv),
        ),
        w.len() == manhattan(
            joint(pow2((k - 1) as nat) as int, qu),
            joint(pow2((k - 1) as nat) as int, qv),
        ) + 1,
{
    let h = pow2((k - 1) as nat) as int;
    let c = (h - 1, h - 1);
    let ju = joint(h, qu);
    let jv = joint(h, qv);
    let jm = joint(h, (qu.0, qv.1));
    let w: Seq<Pos> = if manhattan(ju, jv) == 1 {
        seq![ju, jv]
    } else {
        seq![ju, jm, jv]
    };
    assert forall|i: int| 0 <= i < w.len() - 1 implies slides(k)(#[trigger] w[i], w[i + 1]) by {
        assert(in_block(c, w[i]) && in_block(c, w[i + 1]));
        assert(adjacent(w[i], w[i + 1]));
        assert(slide(k, w[i], w[i + 1]));
    }
    w
}

/// A walk of the hole from `u` to `v` with as many moves as their distance.
pub proof fn lemma_walk_exists(k: nat, u: Pos, v: Pos) -> (w: Seq<Pos>)
    requires
        within(u, square(k)),
        within(v, square(k)),
    ensures
        walks(slides(k), w, u, v),
        w.len() == hole_dist(k, u, v) + 1,
    decreases k,
{
    if k == 0 {
        lemma2_to64();
        seq![u]
    } else {
        let j = (k - 1) as nat;
        let h = pow2(j) as int;
        lemma_pow2_unfold(k);
        lemma_pow2_pos(j);
        let qu = quadrant(h, u);
        let qv = quadrant(h, v);
        let lu = local(h, u);
        let lv = local(h, v);
        lemma_quadrant_shift(h, u);
        lemma_quadrant_shift(h, v);
        if qu == qv {
            let w0 = lemma_walk_exists(j, lu, lv);
            lemma_walk_in_quadrant(k, qu, w0, lu, lv);
            shifted(w0, (qu.0 * h, qu.1 * h))
        } else {
            let ju = joint(h, qu);
            let jv = joint(h, qv);
            lemma_quadrant_shift(h, ju);
            lemma_quadrant_shift(h, jv);
            assert(quadrant(h, ju) == qu && quadrant(h, jv) == qv);
            let w1 = lemma_walk_exists(j, lu, local(h, ju));
            lemma_walk_in_quadrant(k, qu, w1, lu, local(h, ju));
            let s1 = shifted(w1, (qu.0 * h, qu.1 * h));
            assert(walks(slides(k), s1, u, ju));
            let w3 = lemma_walk_exists(j, local(h, jv), lv);
            lemma_walk_in_quadrant(k, qv, w3, local(h, jv), lv);
            let s3 = shifted(w3, (qv.0 * h, qv.1 * h));
            assert(walks(slides(k), s3, jv, v));
            lemma_dist_symmetric(j, lv, local(h, jv));
            let s2 = lemma_walk_over_centre(k, qu, qv);
            lemma_walk_concat(slides(k), s1, s2, u, ju, jv);
            let s12 = s1 + s2.drop_first();
            lemma_walk_concat(slides(k), s12, s3, u, jv, v);
            s12 + s3.drop_first()
        }
    }
}

/// The distance computed in closed form is the distance in the graph of hole
/// moves: some walk of the hole from `u` to `v` has that many moves, and none has
/// fewer.
pub proof fn lemma_dist_is_shortest(k: nat, u: Pos, v: Pos)
    requires
        within(u, square(k)),
        within(v, square(k)),
    ensures
        is_distance(slides(k), u, v, hole_dist(k, u, v)),
{
    let w = lemma_walk_exists(k, u, v);
    assert forall|w2: Seq<Pos>| walks(slides(k), w2, u, v) implies w2.len() >= hole_dist(k, u, v)
        + 1 by {
        lemma_walk_bound(k, w2, u, v);
    }
}

} // verus!
