//! The board: a grid of piece identifiers with one empty cell, its construction
//! as a tiling by trominoes, and the moves of the hole.

use vstd::prelude::*;
use vstd::arithmetic::power2::{pow2, lemma_pow2_pos, lemma_pow2_unfold, lemma_pow2_adds, lemma_pow2_strictly_increases};
use vstd::layout::unsigned_int_max_values;
use crate::cell::{Cell, Pos, PuzzleError, adjacent, lemma_neighbors_within, neighbors_within, positions, within};
use crate::moves::{is_built, is_tiling, lemma_built_is_tiling};
use crate::solver::{joint, local, quadrant, side_of, square};
use crate::tiling::{lemma_pieces_count, piece_at, pieces, quad_index, sub_first, tile};

verus! {

/// A grid of piece identifiers: a sequence of rows.
pub type Grid = Seq<Seq<usize>>;

/// The grid has at least one row, and all its rows have the same length.
pub open spec fn grid_wf(g: Grid) -> bool {
    &&& g.len() >= 1
    &&& forall|i: int| 0 <= i < g.len() ==> (#[trigger] g[i]).len() == g[0].len()
}

/// The number of rows and of columns of a grid.
pub open spec fn bound(g: Grid) -> Pos {
    (g.len() as int, g[0].len() as int)
}

/// The value on cell `p`.
pub open spec fn at(g: Grid, p: Pos) -> usize {
    g[p.0][p.1]
}

/// The grid with `v` on cell `p`.
pub open spec fn put(g: Grid, p: Pos, v: usize) -> Grid {
    g.update(p.0, g[p.0].update(p.1, v))
}

/// The grid with the values on `a` and `b` exchanged.
pub open spec fn swapped(g: Grid, a: Pos, b: Pos) -> Grid {
    put(put(g, a, at(g, b)), b, at(g, a))
}

/// `n` is a cell of the grid that carries the same value as `c`.
pub open spec fn alike(g: Grid, c: Pos, n: Pos) -> bool {
    within(n, bound(g)) && at(g, n) == at(g, c)
}

/// One of the up to four neighbours of `c` carries the same value as `c`.
pub open spec fn has_like_neighbor(g: Grid, c: Pos) -> bool {
    ||| alike(g, c, (c.0 - 1, c.1))
    ||| alike(g, c, (c.0 + 1, c.1))
    ||| alike(g, c, (c.0, c.1 - 1))
    ||| alike(g, c, (c.0, c.1 + 1))
}

/// Cell `c` is in order: it is empty, or it touches a cell of its own piece.
pub open spec fn settled(g: Grid, c: Pos) -> bool {
    at(g, c) == 0 || has_like_neighbor(g, c)
}

/// The position of `c` relative to `origin`.
pub open spec fn rel(origin: Pos, c: Pos) -> Pos {
    (c.0 - origin.0, c.1 - origin.1)
}

/// The number of times that 2 divides `n`; 0 for `n == 0`.
pub open spec fn two_adic(n: nat) -> nat
    decreases n,
{
    if n == 0 || n % 2 == 1 {
        0
    } else {
        1 + two_adic(n / 2)
    }
}

/// 2 divides `2^k` exactly `k` times.
pub proof fn lemma_two_adic_pow2(k: nat)
    ensures
        two_adic(pow2(k)) == k,
    decreases k,
{
    lemma_pow2_pos(k);
    if k == 0 {
        vstd::arithmetic::power2::lemma2_to64();
    } else {
        lemma_pow2_unfold(k);
        lemma_two_adic_pow2((k - 1) as nat);
    }
}

/// A board: rows of piece identifiers, 0 for the hole.
#[derive(Debug, Clone, PartialEq, Eq, Hash)]
pub struct Board(pub Vec<Vec<usize>>);

impl View for Board {
    type V = Grid;

    open spec fn view(&self) -> Grid {
        Seq::new(self.0.len() as nat, |i: int| self.0[i]@)
    }
}

impl Board {
    /// The board has at least one row, and all its rows have the same length.
    pub open spec fn wf(&self) -> bool {
        grid_wf(self@)
    }

    /// The board of order `k` with its hole at `missing`, tiled by trominoes: the
    /// hole is the one cell with value 0, and every other value marks three cells
    /// that form an L.
    ///
    /// An order whose number of cells does not fit the machine word is turned
    /// down, and so is a hole outside the board.
    pub fn new(k: usize, missing: Cell) -> (r: Result<Board, PuzzleError>)
        ensures
            match r {
                Ok(b) => {
                    &&& 2 * k < usize::BITS
                    &&& within(missing@, square(k as nat))
                    &&& b.wf()
                    &&& bound(b@) == square(k as nat)
                    &&& forall|c: Pos|
                        within(c, square(k as nat)) ==> #[trigger] at(b@, c) == tile(
                            k as nat,
                            missing@,
                            c,
                        )
                    &&& bound(b@).0 * bound(b@).1 <= usize::MAX
                    &&& is_tiling(b@, missing@)
                },
                Err(e) => if 2 * k >= usize::BITS {
                    e == PuzzleError::OrderTooLarge
                } else {
                    e == PuzzleError::OutOfRange && !within(missing@, square(k as nat))
                },
            },
    {
        if k >= (usize::BITS / 2) as usize {
            return Err(PuzzleError::OrderTooLarge);
        }
        let n: usize = side_of(k);
        if missing.0 >= n || missing.1 >= n {
            return Err(PuzzleError::OutOfRange);
        }
        let board: Vec<Vec<usize>> = vec![vec![0usize; n]; n];
        let mut res = Board(board);
        let mut pc: usize = 1;
        proof {
            lemma_pow2_pos(k as nat);
            lemma_cells_fit(k as nat);
            lemma_pieces_count(k as nat);
        }
        res._tile_fill(k, Cell(0, 0), missing, &mut pc);
        proof {
            assert(is_built(res@, k as nat, missing@));
            lemma_built_is_tiling(res@, k as nat, missing@);
        }
        Ok(res)
    }

    /// The number of rows and of columns.
    pub fn limit(&self) -> (r: Cell)
        requires
            self.wf(),
        ensures
            r@ == bound(self@),
    {
        Cell(self.0.len(), self.0[0].len())
    }

    /// The number of times that 2 divides the number of rows: the order of a board
    /// of side `2^k`.
    pub fn k(&self) -> (r: usize)
        requires
            self.wf(),
        ensures
            r == two_adic(self@.len()),
    {
        let mut n: usize = self.limit().0;
        let mut r: usize = 0;
        while n % 2 == 0
            invariant
                n >= 1,
                r + two_adic(n as nat) == two_adic(self@.len()),
                r + n <= self@.len(),
            decreases n,
        {
            n = n / 2;
            r = r + 1;
        }
        r
    }

    /// The value on `cell`.
    pub fn get(&self, cell: Cell) -> (r: usize)
        requires
            self.wf(),
            within(cell@, bound(self@)),
        ensures
            r == at(self@, cell@),
    {
        assert(self@[cell.0 as int].len() == self@[0].len());
        self.0[cell.0][cell.1]
    }

    /// Puts `value` on `cell`.
    pub fn set(&mut self, cell: Cell, value: usize)
        requires
            old(self).wf(),
            within(cell@, bound(old(self)@)),
        ensures
            final(self)@ == put(old(self)@, cell@, value),
            final(self).wf(),
            bound(final(self)@) == bound(old(self)@),
    {
        assert(self@[cell.0 as int].len() == self@[0].len());
        self.0[cell.0][cell.1] = value;
        assert(self@ =~= put(old(self)@, cell@, value));
    }

    /// Tiles the square of order `k` at `top_left` around `missing`, which is left
    /// as it is, with identifiers from `*pc` on.
    fn _tile_fill(&mut self, k: usize, top_left: Cell, missing: Cell, pc: &mut usize)
        requires
            old(self).wf(),
            k < usize::BITS,
            top_left.0 + pow2(k as nat) <= bound(old(self)@).0,
            top_left.1 + pow2(k as nat) <= bound(old(self)@).1,
            within(rel(top_left@, missing@), square(k as nat)),
            *old(pc) + pieces(k as nat) <= usize::MAX,
        ensures
            final(self).wf(),
            bound(final(self)@) == bound(old(self)@),
            *final(pc) == *old(pc) + pieces(k as nat),
            forall|c: Pos|
                within(c, bound(old(self)@)) ==> (#[trigger] at(final(self)@, c)) as int == (if within(
                    rel(top_left@, c),
                    square(k as nat),
                ) && c != missing@ {
                    piece_at(k as nat, rel(top_left@, missing@), *old(pc) as int, rel(top_left@, c))
                } else {
                    at(old(self)@, c) as int
                }),
        decreases k,
    {
        if k == 0 {
            proof {
                vstd::arithmetic::power2::lemma2_to64();
            }
            return ;
        }
        let ghost g0 = self@;
        let ghost pc0 = *pc as int;
        let ghost j = (k - 1) as nat;
        let ghost h = pow2(j) as int;
        let ghost p = pieces(j) as int;
        let ghost relm = rel(top_left@, missing@);
        proof {
            lemma_pow2_unfold(k as nat);
            lemma_pow2_pos(j);
        }
        let half: usize = side_of(k - 1);
        let mb: usize = if missing.0 - top_left.0 >= half {
            1
        } else {
            0
        };
        let mr: usize = if missing.1 - top_left.1 >= half {
            1
        } else {
            0
        };
        let cur_piece: usize = *pc;
        *pc = *pc + 1;
        let mut q: usize = 0;
        while q < 4
            invariant
                1 <= k < usize::BITS,
                j == k - 1,
                h == pow2(j),
                p == pieces(j),
                half == h,
                h >= 1,
                pow2(k as nat) == 2 * h,
                relm == rel(top_left@, missing@),
                within(relm, square(k as nat)),
                (mb as int, mr as int) == quadrant(h, relm),
                cur_piece == pc0,
                pc0 + 1 + 4 * p <= usize::MAX,
                q <= 4,
                *pc == pc0 + 1 + q * p,
                self.wf(),
                grid_wf(g0),
                bound(self@) == bound(g0),
                top_left.0 + 2 * h <= bound(g0).0,
                top_left.1 + 2 * h <= bound(g0).1,
                forall|c: Pos|
                    within(c, bound(g0)) ==> (#[trigger] at(self@, c)) as int == (if within(
                        rel(top_left@, c),
                        square(k as nat),
                    ) && c != missing@ && quad_index(quadrant(h, rel(top_left@, c))) < q {
                        piece_at(k as nat, relm, pc0, rel(top_left@, c))
                    } else {
                        at(g0, c) as int
                    }),
            decreases 4 - q,
        {
            let cen_r: usize = q / 2;
            let cen_c: usize = q % 2;
            let ghost qq = (cen_r as int, cen_c as int);
            let ghost before = self@;
            let ghost pcb = *pc as int;
            proof {
                assert(quad_index(qq) == q);
                assert(cen_r * half == if cen_r == 0 { 0 } else { h }) by (nonlinear_arith)
                    requires cen_r <= 1, half == h;
                assert(cen_c * half == if cen_c == 0 { 0 } else { h }) by (nonlinear_arith)
                    requires cen_c <= 1, half == h;
                assert(half * cen_r == cen_r * half && half * cen_c == cen_c * half)
                    by (nonlinear_arith);
                assert(bound(self@).1 == self.0[0].len());
                assert((q + 1) * p == q * p + p) by (nonlinear_arith);
                assert(q * p + p <= 4 * p) by (nonlinear_arith)
                    requires q < 4, p >= 0;
            }
            let new_top_left = Cell(top_left.0 + half * cen_r, top_left.1 + half * cen_c);
            let center = Cell(top_left.0 + half - 1 + cen_r, top_left.1 + half - 1 + cen_c);
            assert(rel(top_left@, center@) == joint(h, qq));
            if cen_r == mb && cen_c == mr {
                assert(rel(new_top_left@, missing@) == local(h, relm));
                self._tile_fill(k - 1, new_top_left, missing, pc);
            } else {
                self.set(center, cur_piece);
                assert(rel(new_top_left@, center@) == local(h, joint(h, qq)));
                self._tile_fill(k - 1, new_top_left, center, pc);
            }
            proof {
                assert forall|c: Pos| within(c, bound(g0)) implies (#[trigger] at(self@, c)) as int
                    == (if within(rel(top_left@, c), square(k as nat)) && c != missing@
                    && quad_index(quadrant(h, rel(top_left@, c))) < q + 1 {
                    piece_at(k as nat, relm, pc0, rel(top_left@, c))
                } else {
                    at(g0, c) as int
                }) by {
                    let rc = rel(top_left@, c);
                    let qc = quadrant(h, rc);
                    assert(at(before, c) as int == (if within(rc, square(k as nat)) && c
                        != missing@ && quad_index(qc) < q {
                        piece_at(k as nat, relm, pc0, rc)
                    } else {
                        at(g0, c) as int
                    }));
                    if within(rc, square(k as nat)) && qc == qq {
                        assert(rel(new_top_left@, c) == local(h, rc));
                        assert(within(rel(new_top_left@, c), square(j)));
                        assert(sub_first(k as nat, pc0, qc) == pcb);
                    } else {
                        assert(!within(rel(new_top_left@, c), square(j)));
                        assert(quad_index(qc) != q || !within(rc, square(k as nat)));
                    }
                }
            }
            q = q + 1;
        }
    }

    /// Moves the hole between `from` and `to`, one of which holds it, by exchanging
    /// their values. The move stands if both cells are in order afterwards, and the
    /// identifier of the piece that moved is returned; else the board is left as it
    /// was.
    pub fn make_move(&mut self, from: Cell, to: Cell) -> (r: Option<usize>)
        requires
            old(self).wf(),
            within(from@, bound(old(self)@)),
            within(to@, bound(old(self)@)),
            at(old(self)@, from@) == 0 || at(old(self)@, to@) == 0,
        ensures
            final(self).wf(),
            bound(final(self)@) == bound(old(self)@),
            match r {
                Some(piece) => {
                    &&& final(self)@ == swapped(old(self)@, from@, to@)
                    &&& piece == at(old(self)@, from@) + at(old(self)@, to@)
                    &&& settled(final(self)@, from@)
                    &&& settled(final(self)@, to@)
                },
                None => {
                    &&& final(self)@ == old(self)@
                    &&& !(settled(swapped(old(self)@, from@, to@), from@) && settled(
                        swapped(old(self)@, from@, to@),
                        to@,
                    ))
                },
            },
    {
        let moved_piece: usize = self.get(from) + self.get(to);
        self._swap(from, to);
        if self._check_valid_move(from) && self._check_valid_move(to) {
            Some(moved_piece)
        } else {
            let ghost mid = self@;
            self._swap(from, to);
            assert(self@ =~= old(self)@) by {
                lemma_swap_twice(old(self)@, from@, to@);
            }
            None
        }
    }

    /// Exchanges the values on `from` and `to`.
    fn _swap(&mut self, from: Cell, to: Cell)
        requires
            old(self).wf(),
            within(from@, bound(old(self)@)),
            within(to@, bound(old(self)@)),
        ensures
            final(self)@ == swapped(old(self)@, from@, to@),
            final(self).wf(),
            bound(final(self)@) == bound(old(self)@),
    {
        let piece: usize = self.get(from);
        let other: usize = self.get(to);
        self.set(from, other);
        self.set(to, piece);
    }

    /// Whether `cell` is in order: empty, or next to a cell of its own piece.
    fn _check_valid_move(&self, cell: Cell) -> (r: bool)
        requires
            self.wf(),
            within(cell@, bound(self@)),
        ensures
            r == settled(self@, cell@),
    {
        let value: usize = self.get(cell);
        if value == 0 {
            return true;
        }
        let ns: Vec<Cell> = cell.neighbor(self.limit());
        proof {
            lemma_neighbors_within(cell@, bound(self@));
        }
        let mut found: bool = false;
        let mut i: usize = 0;
        while i < ns.len()
            invariant
                self.wf(),
                i <= ns.len(),
                value == at(self@, cell@),
                positions(ns@) == neighbors_within(cell@, bound(self@)),
                forall|m: int|
                    0 <= m < neighbors_within(cell@, bound(self@)).len() ==> within(
                        #[trigger] neighbors_within(cell@, bound(self@))[m],
                        bound(self@),
                    ) && adjacent(cell@, neighbors_within(cell@, bound(self@))[m]),
                found == (exists|m: int| 0 <= m < i && at(self@, #[trigger] ns@[m]@) == value),
            decreases ns.len() - i,
        {
            assert(positions(ns@)[i as int] == ns@[i as int]@);
            if self.get(ns[i]) == value {
                found = true;
            }
            i = i + 1;
        }
        proof {
            let g = self@;
            let c = cell@;
            let s = neighbors_within(c, bound(g));
            if found {
                let m = choose|m: int| 0 <= m < ns.len() && at(g, #[trigger] ns@[m]@) == value;
                assert(s[m] == ns@[m]@);
                assert(within(s[m], bound(g)) && adjacent(c, s[m]));
                assert(has_like_neighbor(g, c));
            }
            if has_like_neighbor(g, c) {
                let n: Pos = if alike(g, c, (c.0 - 1, c.1)) {
                    (c.0 - 1, c.1)
                } else if alike(g, c, (c.0 + 1, c.1)) {
                    (c.0 + 1, c.1)
                } else if alike(g, c, (c.0, c.1 - 1)) {
                    (c.0, c.1 - 1)
                } else {
                    (c.0, c.1 + 1)
                };
                assert(s.contains(n));
                let m = choose|m: int| 0 <= m < s.len() && s[m] == n;
                assert(s[m] == ns@[m]@);
                assert(found);
            }
        }
        found
    }
}

impl core::ops::Index<Cell> for Board {
    type Output = usize;

    fn index(&self, index: Cell) -> (r: &usize)
        ensures
            *r == at(self@, index@),
    {
        assert(self@[index.0 as int].len() == self@[0].len());
        &self.0[index.0][index.1]
    }
}

impl vstd::std_specs::core::IndexSpecImpl<Cell> for Board {
    open spec fn index_req(&self, index: &Cell) -> bool {
        self.wf() && within(index@, bound(self@))
    }
}

/// Exchanging the values on two cells twice gives the grid back.
pub proof fn lemma_swap_twice(g: Grid, a: Pos, b: Pos)
    requires
        grid_wf(g),
        within(a, bound(g)),
        within(b, bound(g)),
    ensures
        swapped(swapped(g, a, b), a, b) =~= g,
{
    let s = swapped(g, a, b);
    let t = swapped(s, a, b);
    assert(t.len() == g.len());
    assert forall|i: int| 0 <= i < g.len() implies t[i] =~= g[i] by {}
}

/// The number of cells of a board whose order is less than half the width of the
/// machine word fits the machine word.
pub proof fn lemma_cells_fit(k: nat)
    requires
        2 * k < usize::BITS,
    ensures
        pow2(k) * pow2(k) <= usize::MAX,
        k < usize::BITS,
{
    unsigned_int_max_values();
    lemma_pow2_adds(k, k);
    lemma_pow2_strictly_increases(2 * k, usize::BITS as nat);
}

} // verus!
