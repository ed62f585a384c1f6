//! The distance between two hole positions, computed from the self-similar
//! structure of the tiling in a number of steps proportional to the board order.

use vstd::prelude::*;
use vstd::arithmetic::power2::{pow2, lemma_pow2_pos, lemma_pow2_unfold, lemma_pow2_strictly_increases};
use vstd::bits::lemma_usize_shl_is_mul;
use vstd::layout::unsigned_int_max_values;
use vstd::arithmetic::power2::lemma2_to64;
use crate::cell::{Cell, Pos, PuzzleError, abs, manhattan, within};
use crate::graph::is_distance;
use crate::metric::{lemma_dist_is_shortest, slides};

verus! {

/// The quadrant of a square of side `2 * h` that holds `p`: a row bit and a column
/// bit, each 0 for the near half and 1 for the far half.
pub open spec fn quadrant(h: int, p: Pos) -> Pos {
    (
        if p.0 >= h {
            1
        } else {
            0
        },
        if p.1 >= h {
            1
        } else {
            0
        },
    )
}

/// The position of `p` relative to the top-left corner of its quadrant, in a square
/// of side `2 * h`.
pub open spec fn local(h: int, p: Pos) -> Pos {
    (
        if p.0 >= h {
            p.0 - h
        } else {
            p.0
        },
        if p.1 >= h {
            p.1 - h
        } else {
            p.1
        },
    )
}

/// The joint of quadrant `q` in a square of side `2 * h`: the cell of that quadrant
/// that touches the centre of the square.
pub open spec fn joint(h: int, q: Pos) -> Pos {
    (h - 1 + q.0, h - 1 + q.1)
}

/// The number of hole moves between `u` and `v` in a square of order `k`, both
/// given relative to the square's top-left corner. Within one quadrant it is the
/// distance in that quadrant; across quadrants the way leads over the two joints.
pub open spec fn hole_dist(k: nat, u: Pos, v: Pos) -> int
    decreases k,
{
    if k == 0 {
        0
    } else {
        let h = pow2((k - 1) as nat) as int;
        let qu = quadrant(h, u);
        let qv = quadrant(h, v);
        if qu == qv {
            hole_dist((k - 1) as nat, local(h, u), local(h, v))
        } else {
            manhattan(joint(h, qu), joint(h, qv)) + hole_dist(
                (k - 1) as nat,
                local(h, u),
                local(h, joint(h, qu)),
            ) + hole_dist((k - 1) as nat, local(h, v), local(h, joint(h, qv)))
        }
    }
}

/// The square of side `2^k` at the origin.
pub open spec fn square(k: nat) -> Pos {
    (pow2(k) as int, pow2(k) as int)
}

/// The distance does not depend on the order of its two cells.
pub proof fn lemma_dist_symmetric(k: nat, u: Pos, v: Pos)
    ensures
        hole_dist(k, u, v) == hole_dist(k, v, u),
    decreases k,
{
    if k > 0 {
        let h = pow2((k - 1) as nat) as int;
        lemma_dist_symmetric((k - 1) as nat, local(h, u), local(h, v));
    }
}

/// A cell is at distance 0 from itself.
pub proof fn lemma_dist_identity(k: nat, u: Pos)
    ensures
        hole_dist(k, u, u) == 0,
    decreases k,
{
    if k > 0 {
        let h = pow2((k - 1) as nat) as int;
        lemma_dist_identity((k - 1) as nat, local(h, u));
    }
}

/// Two cells of a square of order `k` whose Manhattan distance is the largest that
/// the square allows, `2 * (2^k - 1)`, are exactly that many moves apart.
pub proof fn lemma_dist_far_corners(k: nat, u: Pos, v: Pos)
    requires
        within(u, square(k)),
        within(v, square(k)),
        manhattan(u, v) == 2 * (pow2(k) - 1),
    ensures
        hole_dist(k, u, v) == 2 * (pow2(k) - 1),
    decreases k,
{
    if k == 0 {
        lemma2_to64();
    } else {
        let j = (k - 1) as nat;
        let h = pow2(j) as int;
        lemma_pow2_unfold(k);
        lemma_pow2_pos(j);
        let qu = quadrant(h, u);
        let qv = quadrant(h, v);
        assert(abs(u.0 - v.0) == 2 * h - 1 && abs(u.1 - v.1) == 2 * h - 1);
        assert(qu.0 != qv.0 && qu.1 != qv.1);
        lemma_dist_far_corners(j, local(h, u), local(h, joint(h, qu)));
        lemma_dist_far_corners(j, local(h, v), local(h, joint(h, qv)));
    }
}

/// Two cells of a square of order `k` are at most `2 * (2^k - 1)` moves apart.
pub proof fn lemma_dist_bound(k: nat, u: Pos, v: Pos)
    requires
        within(u, square(k)),
        within(v, square(k)),
    ensures
        0 <= hole_dist(k, u, v) <= 2 * (pow2(k) - 1),
    decreases k,
{
    lemma_pow2_pos(k);
    if k > 0 {
        let j = (k - 1) as nat;
        let h = pow2(j) as int;
        lemma_pow2_unfold(k);
        lemma_pow2_pos(j);
        let qu = quadrant(h, u);
        let qv = quadrant(h, v);
        lemma_dist_bound(j, local(h, u), local(h, v));
        lemma_dist_bound(j, local(h, u), local(h, joint(h, qu)));
        lemma_dist_bound(j, local(h, v), local(h, joint(h, qv)));
    }
}

/// A power of two that fits the machine word, doubled and less two, fits it too.
pub proof fn lemma_diag_fits(k: nat)
    requires
        k < usize::BITS,
    ensures
        0 < pow2(k) <= usize::MAX,
        2 * (pow2(k) - 1) <= usize::MAX,
{
    unsigned_int_max_values();
    lemma_pow2_pos(k);
    lemma_pow2_unfold(k + 1);
    if k + 1 < usize::BITS {
        lemma_pow2_strictly_increases(k + 1, usize::BITS as nat);
    }
}

/// The side `2^k` of a square of order `k`.
pub fn side_of(k: usize) -> (r: usize)
    requires
        k < usize::BITS,
    ensures
        r == pow2(k as nat),
{
    proof {
        lemma_diag_fits(k as nat);
        lemma_usize_shl_is_mul(1usize, k);
    }
    1usize << k
}

/// A quadrant descriptor: the square of side `2^k` whose top-left cell is `top_left`.
#[derive(Debug, Clone, Copy, PartialEq, Eq, Structural)]
pub struct PartBoard {
    pub k: usize,
    pub top_left: Cell,
}

impl PartBoard {
    /// The order fits the machine word, and so does the far edge of the square.
    pub open spec fn wf(self) -> bool {
        &&& self.k < usize::BITS
        &&& self.top_left.0 + pow2(self.k as nat) <= usize::MAX
        &&& self.top_left.1 + pow2(self.k as nat) <= usize::MAX
    }

    /// `cell` lies in this square.
    pub open spec fn holds(self, cell: Cell) -> bool {
        within(self.rel(cell), square(self.k as nat))
    }

    /// The position of `cell` relative to the top-left cell of this square.
    pub open spec fn rel(self, cell: Cell) -> Pos {
        (cell.0 - self.top_left.0, cell.1 - self.top_left.1)
    }

    /// The side of the square.
    pub fn size(&self) -> (r: usize)
        requires
            self.k < usize::BITS,
        ensures
            r == pow2(self.k as nat),
    {
        side_of(self.k)
    }

    /// Half the side of the square.
    pub fn half(&self) -> (r: usize)
        requires
            1 <= self.k < usize::BITS,
        ensures
            r == pow2((self.k - 1) as nat),
            2 * r == pow2(self.k as nat),
    {
        proof {
            lemma_pow2_unfold(self.k as nat);
        }
        side_of(self.k - 1)
    }

    /// The bottom-right cell of the square.
    pub fn bottom_right(&self) -> (r: Cell)
        requires
            self.wf(),
        ensures
            r@ == (
                self.top_left.0 + pow2(self.k as nat) - 1,
                self.top_left.1 + pow2(self.k as nat) - 1,
            ),
    {
        let s: usize = self.size();
        proof {
            lemma_pow2_pos(self.k as nat);
        }
        self.top_left + Cell(s, s) - Cell(1, 1)
    }

    /// The quadrant of this square that holds `cell`.
    pub fn get_quad(&self, cell: Cell) -> (r: Cell)
        requires
            self.wf(),
            self.k >= 1,
            self.holds(cell),
        ensures
            r@ == quadrant(pow2((self.k - 1) as nat) as int, self.rel(cell)),
    {
        let half: usize = self.half();
        let is_bottom: bool = cell.0 - self.top_left.0 >= half;
        let is_right: bool = cell.1 - self.top_left.1 >= half;
        Cell(
            if is_bottom {
                1
            } else {
                0
            },
            if is_right {
                1
            } else {
                0
            },
        )
    }

    /// Quadrant `quad` of this square, as a square of its own.
    pub fn part_of(&self, quad: Cell) -> (r: PartBoard)
        requires
            self.wf(),
            self.k >= 1,
            quad.0 <= 1,
            quad.1 <= 1,
        ensures
            r.wf(),
            r.k == self.k - 1,
            r.top_left@ == (
                self.top_left.0 + quad.0 * pow2((self.k - 1) as nat),
                self.top_left.1 + quad.1 * pow2((self.k - 1) as nat),
            ),
    {
        let ghost h = pow2((self.k - 1) as nat) as int;
        proof {
            lemma_pow2_unfold(self.k as nat);
            assert(quad.0 * h <= h && quad.1 * h <= h) by (nonlinear_arith)
                requires
                    quad.0 <= 1,
                    quad.1 <= 1,
                    h >= 0,
            ;
        }
        PartBoard { k: self.k - 1, top_left: self.top_left_of(quad) }
    }

    /// The joint of quadrant `quad`: its cell that touches the centre of this square.
    pub fn joint_of(&self, quad: Cell) -> (r: Cell)
        requires
            self.wf(),
            self.k >= 1,
            quad.0 <= 1,
            quad.1 <= 1,
        ensures
            self.rel(r) == joint(pow2((self.k - 1) as nat) as int, quad@),
    {
        let half: usize = self.half();
        proof {
            lemma_pow2_pos((self.k - 1) as nat);
        }
        self.top_left + Cell(half - 1, half - 1) + quad
    }

    /// The top-left cell of quadrant `quad`.
    pub fn top_left_of(&self, quad: Cell) -> (r: Cell)
        requires
            self.wf(),
            self.k >= 1,
            quad.0 <= 1,
            quad.1 <= 1,
        ensures
            r@ == (
                self.top_left.0 + quad.0 * pow2((self.k - 1) as nat),
                self.top_left.1 + quad.1 * pow2((self.k - 1) as nat),
            ),
    {
        let half: usize = self.half();
        assert(quad.0 * half <= half && quad.1 * half <= half) by (nonlinear_arith)
            requires
                quad.0 <= 1,
                quad.1 <= 1,
        ;
        self.top_left + quad.mul(half)
    }
}

/// The distance between `u` and `v` within the square `pb`.
fn dist_in(pb: PartBoard, u: Cell, v: Cell) -> (r: usize)
    requires
        pb.wf(),
        pb.holds(u),
        pb.holds(v),
    ensures
        r == hole_dist(pb.k as nat, pb.rel(u), pb.rel(v)),
    decreases pb.k,
{
    if pb.k == 0 {
        return 0;
    }
    proof {
        lemma_diag_fits(pb.k as nat);
        lemma_dist_bound(pb.k as nat, pb.rel(u), pb.rel(v));
    }
    let diag_dist: usize = (pb.size() - 1) * 2;
    if u.mahattan_dist(v) == diag_dist {
        proof {
            lemma_dist_far_corners(pb.k as nat, pb.rel(u), pb.rel(v));
        }
        return diag_dist;
    }
    let quad_u: Cell = pb.get_quad(u);
    let quad_v: Cell = pb.get_quad(v);
    let ghost j = (pb.k - 1) as nat;
    let ghost h = pow2(j) as int;
    proof {
        lemma_pow2_unfold(pb.k as nat);
        lemma_pow2_pos(j);
    }
    if quad_u == quad_v {
        let sub: PartBoard = pb.part_of(quad_u);
        assert(sub.rel(u) == local(h, pb.rel(u))) by (nonlinear_arith)
            requires
                sub.top_left.0 == pb.top_left.0 + quad_u.0 * h,
                sub.top_left.1 == pb.top_left.1 + quad_u.1 * h,
                quad_u@ == quadrant(h, pb.rel(u)),
        ;
        assert(sub.rel(v) == local(h, pb.rel(v))) by (nonlinear_arith)
            requires
                sub.top_left.0 == pb.top_left.0 + quad_v.0 * h,
                sub.top_left.1 == pb.top_left.1 + quad_v.1 * h,
                quad_v@ == quadrant(h, pb.rel(v)),
        ;
        dist_in(sub, u, v)
    } else {
        let u_joint: Cell = pb.joint_of(quad_u);
        let v_joint: Cell = pb.joint_of(quad_v);
        let sub_u: PartBoard = pb.part_of(quad_u);
        let sub_v: PartBoard = pb.part_of(quad_v);
        proof {
            assert(quad_u.0 * h == if quad_u.0 == 0 { 0 } else { h }) by (nonlinear_arith)
                requires quad_u.0 <= 1;
            assert(quad_u.1 * h == if quad_u.1 == 0 { 0 } else { h }) by (nonlinear_arith)
                requires quad_u.1 <= 1;
            assert(quad_v.0 * h == if quad_v.0 == 0 { 0 } else { h }) by (nonlinear_arith)
                requires quad_v.0 <= 1;
            assert(quad_v.1 * h == if quad_v.1 == 0 { 0 } else { h }) by (nonlinear_arith)
                requires quad_v.1 <= 1;
            assert(sub_u.rel(u) == local(h, pb.rel(u)));
            assert(sub_v.rel(v) == local(h, pb.rel(v)));
            assert(sub_u.rel(u_joint) == local(h, joint(h, quad_u@)));
            assert(sub_v.rel(v_joint) == local(h, joint(h, quad_v@)));
            assert(manhattan(u_joint@, v_joint@) == manhattan(joint(h, quad_u@), joint(h, quad_v@)));
            lemma_dist_bound(j, sub_u.rel(u), sub_u.rel(u_joint));
            lemma_dist_bound(j, sub_v.rel(v), sub_v.rel(v_joint));
        }
        u_joint.mahattan_dist(v_joint) + dist_in(sub_u, u, u_joint) + dist_in(sub_v, v, v_joint)
    }
}

/// The number of hole moves between `u` and `v` on the board of order `k`: the
/// length of a shortest walk of the hole from one to the other.
///
/// An order whose side does not fit the machine word is turned down, and so is a
/// cell outside the board.
pub fn dist(k: usize, u: Cell, v: Cell) -> (r: Result<usize, PuzzleError>)
    ensures
        k >= usize::BITS ==> r == Err::<usize, PuzzleError>(PuzzleError::OrderTooLarge),
        k < usize::BITS && !(within(u@, square(k as nat)) && within(v@, square(k as nat))) ==> r
            == Err::<usize, PuzzleError>(PuzzleError::OutOfRange),
        k < usize::BITS && within(u@, square(k as nat)) && within(v@, square(k as nat)) ==> r
            == Ok::<usize, PuzzleError>(hole_dist(k as nat, u@, v@) as usize) && 0 <= hole_dist(
            k as nat,
            u@,
            v@,
        ) <= usize::MAX && is_distance(slides(k as nat), u@, v@, hole_dist(k as nat, u@, v@)),
{
    if k >= usize::BITS as usize {
        return Err(PuzzleError::OrderTooLarge);
    }
    let pb = PartBoard { k, top_left: Cell(0, 0) };
    proof {
        lemma_diag_fits(k as nat);
    }
    let size: usize = pb.size();
    if u.0 >= size || u.1 >= size || v.0 >= size || v.1 >= size {
        return Err(PuzzleError::OutOfRange);
    }
    proof {
        lemma_dist_bound(k as nat, u@, v@);
        lemma_dist_is_shortest(k as nat, u@, v@);
    }
    Ok(dist_in(pb, u, v))
}

} // verus!
