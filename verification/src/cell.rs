//! Board coordinates and the arithmetic on them.

use vstd::prelude::*;

verus! {

/// A position in the plane as a pair of mathematical integers: row, then column.
pub type Pos = (int, int);

/// The absolute value of an integer.
pub open spec fn abs(x: int) -> int {
    if x < 0 {
        -x
    } else {
        x
    }
}

/// The Manhattan distance between two positions.
pub open spec fn manhattan(a: Pos, b: Pos) -> int {
    abs(a.0 - b.0) + abs(a.1 - b.1)
}

/// Two positions are adjacent when they differ by one step along one axis.
pub open spec fn adjacent(a: Pos, b: Pos) -> bool {
    manhattan(a, b) == 1
}

/// `p` lies in the rectangle of `lim.0` rows and `lim.1` columns whose top-left
/// corner is the origin.
pub open spec fn within(p: Pos, lim: Pos) -> bool {
    0 <= p.0 < lim.0 && 0 <= p.1 < lim.1
}

/// The one-element sequence holding `p` if `p` is within `lim`, else the empty one.
pub open spec fn kept(p: Pos, lim: Pos) -> Seq<Pos> {
    if within(p, lim) {
        seq![p]
    } else {
        Seq::empty()
    }
}

/// The neighbours of `c` that lie within `lim`, in the order up, down, left, right.
pub open spec fn neighbors_within(c: Pos, lim: Pos) -> Seq<Pos> {
    kept((c.0 - 1, c.1), lim) + kept((c.0 + 1, c.1), lim) + kept((c.0, c.1 - 1), lim) + kept(
        (c.0, c.1 + 1),
        lim,
    )
}

/// The positions of a sequence of cells.
pub open spec fn positions(cells: Seq<Cell>) -> Seq<Pos> {
    cells.map_values(|c: Cell| c@)
}

/// Why a request was turned down.
#[derive(Debug, Clone, Copy, PartialEq, Eq, Structural)]
pub enum PuzzleError {
    /// A cell lies outside the bound it was meant for.
    OutOfRange,
    /// The board order is too large for the machine's integers.
    OrderTooLarge,
}

/// A board cell: row, then column.
#[derive(Debug, Clone, Copy, PartialEq, Eq, Hash, Structural)]
pub struct Cell(pub usize, pub usize);

impl View for Cell {
    type V = Pos;

    open spec fn view(&self) -> Pos {
        (self.0 as int, self.1 as int)
    }
}

impl Cell {
    /// The row-major index of this cell in a grid of `limit.0` rows and `limit.1`
    /// columns. A cell outside the grid is turned down, and so is an index that
    /// does not fit the machine word.
    pub fn encode(self, limit: Cell) -> (r: Result<usize, PuzzleError>)
        ensures
            within(self@, limit@) && self.0 * limit.1 + self.1 <= usize::MAX ==> r == Ok::<
                usize,
                PuzzleError,
            >((self.0 * limit.1 + self.1) as usize),
            within(self@, limit@) && self.0 * limit.1 + self.1 > usize::MAX ==> r == Err::<
                usize,
                PuzzleError,
            >(PuzzleError::OrderTooLarge),
            !within(self@, limit@) ==> r == Err::<usize, PuzzleError>(PuzzleError::OutOfRange),
    {
        if self.0 < limit.0 && self.1 < limit.1 {
            match self.0.checked_mul(limit.1) {
                Some(rows) => match rows.checked_add(self.1) {
                    Some(index) => Ok(index),
                    None => Err(PuzzleError::OrderTooLarge),
                },
                None => Err(PuzzleError::OrderTooLarge),
            }
        } else {
            Err(PuzzleError::OutOfRange)
        }
    }

    /// The neighbours of this cell along the two axes that lie within `lim`, in the
    /// order up, down, left, right.
    pub fn neighbor(self, lim: Cell) -> (r: Vec<Cell>)
        ensures
            positions(r@) == neighbors_within(self@, lim@),
    {
        let mut out: Vec<Cell> = Vec::new();
        assert(positions(out@) =~= Seq::<Pos>::empty());
        if self.0 >= 1 && self.0 - 1 < lim.0 && self.1 < lim.1 {
            let ghost before = out@;
            out.push(Cell(self.0 - 1, self.1));
            assert(positions(out@) =~= positions(before) + seq![(self.0 - 1, self.1 as int)]);
        }
        assert(positions(out@) =~= kept((self.0 - 1, self.1 as int), lim@));
        if self.0 < usize::MAX && self.0 + 1 < lim.0 && self.1 < lim.1 {
            let ghost before = out@;
            out.push(Cell(self.0 + 1, self.1));
            assert(positions(out@) =~= positions(before) + seq![(self.0 + 1, self.1 as int)]);
        }
        assert(positions(out@) =~= kept((self.0 - 1, self.1 as int), lim@) + kept(
            (self.0 + 1, self.1 as int),
            lim@,
        ));
        if self.1 >= 1 && self.0 < lim.0 && self.1 - 1 < lim.1 {
            let ghost before = out@;
            out.push(Cell(self.0, self.1 - 1));
            assert(positions(out@) =~= positions(before) + seq![(self.0 as int, self.1 - 1)]);
        }
        assert(positions(out@) =~= kept((self.0 - 1, self.1 as int), lim@) + kept(
            (self.0 + 1, self.1 as int),
            lim@,
        ) + kept((self.0 as int, self.1 - 1), lim@));
        if self.1 < usize::MAX && self.0 < lim.0 && self.1 + 1 < lim.1 {
            let ghost before = out@;
            out.push(Cell(self.0, self.1 + 1));
            assert(positions(out@) =~= positions(before) + seq![(self.0 as int, self.1 + 1)]);
        }
        assert(positions(out@) =~= neighbors_within(self@, lim@));
        out
    }

    /// The number of cells in a grid of `self.0` rows and `self.1` columns.
    pub fn dim(&self) -> (r: usize)
        requires
            self.0 * self.1 <= usize::MAX,
        ensures
            r == self.0 * self.1,
    {
        self.0 * self.1
    }

    /// Whether this cell lies in the box spanned by `top_left` and `bottom_right`,
    /// both corners included.
    pub fn inside(&self, top_left: Cell, bottom_right: Cell) -> (r: bool)
        ensures
            r == (top_left.0 <= self.0 <= bottom_right.0 && top_left.1 <= self.1
                <= bottom_right.1),
    {
        self.0 >= top_left.0 && self.0 <= bottom_right.0 && self.1 >= top_left.1 && self.1
            <= bottom_right.1
    }

    /// Both coordinates multiplied by `scalar`.
    pub fn mul(self, scalar: usize) -> (r: Cell)
        requires
            self.0 * scalar <= usize::MAX,
            self.1 * scalar <= usize::MAX,
        ensures
            r@ == (self.0 * scalar, self.1 * scalar),
    {
        Cell(self.0 * scalar, self.1 * scalar)
    }

    /// The Manhattan distance to `other`.
    pub fn mahattan_dist(self, other: Cell) -> (r: usize)
        requires
            manhattan(self@, other@) <= usize::MAX,
        ensures
            r == manhattan(self@, other@),
    {
        let dr: usize = if self.0 >= other.0 {
            self.0 - other.0
        } else {
            other.0 - self.0
        };
        let dc: usize = if self.1 >= other.1 {
            self.1 - other.1
        } else {
            other.1 - self.1
        };
        dr + dc
    }
}

/// The neighbours of `c` within `lim` are the cells within `lim` that are adjacent
/// to `c`.
pub proof fn lemma_neighbors_within(c: Pos, lim: Pos)
    ensures
        forall|i: int|
            0 <= i < neighbors_within(c, lim).len() ==> within(
                #[trigger] neighbors_within(c, lim)[i],
                lim,
            ) && adjacent(c, neighbors_within(c, lim)[i]),
        forall|n: Pos| within(n, lim) && adjacent(c, n) ==> neighbors_within(c, lim).contains(n),
{
    let s = neighbors_within(c, lim);
    let up = kept((c.0 - 1, c.1), lim);
    let down = kept((c.0 + 1, c.1), lim);
    let left = kept((c.0, c.1 - 1), lim);
    let right = kept((c.0, c.1 + 1), lim);
    assert forall|n: Pos| within(n, lim) && adjacent(c, n) implies s.contains(n) by {
        if n == (c.0 - 1, c.1) {
            assert(s[0] == n);
        } else if n == (c.0 + 1, c.1) {
            assert(s[up.len() as int] == n);
        } else if n == (c.0, c.1 - 1) {
            assert(s[(up.len() + down.len()) as int] == n);
        } else {
            assert(n == (c.0, c.1 + 1));
            assert(s[(up.len() + down.len() + left.len()) as int] == n);
        }
    }
}

impl core::ops::Add<Cell> for Cell {
    type Output = Cell;

    fn add(self, other: Cell) -> (r: Cell) {
        Cell(self.0 + other.0, self.1 + other.1)
    }
}

impl vstd::std_specs::ops::AddSpecImpl<Cell> for Cell {
    open spec fn obeys_add_spec() -> bool {
        true
    }

    open spec fn add_req(self, other: Cell) -> bool {
        self.0 + other.0 <= usize::MAX && self.1 + other.1 <= usize::MAX
    }

    open spec fn add_spec(self, other: Cell) -> Cell {
        Cell((self.0 + other.0) as usize, (self.1 + other.1) as usize)
    }
}

impl core::ops::Sub<Cell> for Cell {
    type Output = Cell;

    fn sub(self, other: Cell) -> (r: Cell) {
        Cell(self.0 - other.0, self.1 - other.1)
    }
}

impl vstd::std_specs::ops::SubSpecImpl<Cell> for Cell {
    open spec fn obeys_sub_spec() -> bool {
        true
    }

    open spec fn sub_req(self, other: Cell) -> bool {
        self.0 >= other.0 && self.1 >= other.1
    }

    open spec fn sub_spec(self, other: Cell) -> Cell {
        Cell((self.0 - other.0) as usize, (self.1 - other.1) as usize)
    }
}

/// In a grid of `lim.0` rows and `lim.1` columns, the row-major index of a cell of
/// the grid is below the number of cells.
pub proof fn lemma_index_in_grid(p: Pos, lim: Pos)
    requires
        within(p, lim),
    ensures
        0 <= p.0 * lim.1 + p.1 < lim.0 * lim.1,
{
    assert(p.0 * lim.1 + p.1 < lim.0 * lim.1) by (nonlinear_arith)
        requires
            0 <= p.0 < lim.0,
            0 <= p.1 < lim.1,
    {
        assert((p.0 + 1) * lim.1 <= lim.0 * lim.1);
        assert((p.0 + 1) * lim.1 == p.0 * lim.1 + lim.1);
    }
    assert(0 <= p.0 * lim.1) by (nonlinear_arith)
        requires
            0 <= p.0,
            0 <= lim.1,
    ;
}

} // verus!
