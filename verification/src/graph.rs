//! The graph of hole moves: which cells the hole can reach from where it starts,
//! and between which of them it can slide.

use vstd::prelude::*;
use crate::board::{Board, Grid, bound};
use crate::cell::{Cell, Pos, adjacent, lemma_index_in_grid, lemma_neighbors_within, neighbors_within, positions, within};
use crate::moves::{is_tiling, joined, lemma_move_keeps, lemma_move_stands, lemma_swap_back, lemma_swapped_at};

verus! {

/// A relation between cells: the edges of a graph on the plane.
pub type Edges = spec_fn(Pos, Pos) -> bool;

/// The edges between the cells of a tiled board that the hole can slide between.
pub open spec fn links(g: Grid) -> Edges {
    |x: Pos, y: Pos| joined(g, x, y)
}

/// A walk: one cell or more, each joined to the next by an edge.
pub open spec fn is_walk(edges: Edges, w: Seq<Pos>) -> bool {
    &&& w.len() >= 1
    &&& forall|i: int| 0 <= i < w.len() - 1 ==> edges(#[trigger] w[i], w[i + 1])
}

/// `w` is a walk from `from` to `to`.
pub open spec fn walks(edges: Edges, w: Seq<Pos>, from: Pos, to: Pos) -> bool {
    is_walk(edges, w) && w[0] == from && w.last() == to
}

/// There is a walk from `from` to `to`.
pub open spec fn reachable(edges: Edges, from: Pos, to: Pos) -> bool {
    exists|w: Seq<Pos>| walks(edges, w, from, to)
}

/// `d` is the distance from `from` to `to`: the number of edges of a shortest walk
/// between them.
pub open spec fn is_distance(edges: Edges, from: Pos, to: Pos, d: int) -> bool {
    &&& exists|w: Seq<Pos>| walks(edges, w, from, to) && w.len() == d + 1
    &&& forall|w: Seq<Pos>| walks(edges, w, from, to) ==> w.len() >= d + 1
}

/// The row-major index of cell `x` in a grid of `lim.1` columns.
pub open spec fn index_of(lim: Pos, x: Pos) -> int {
    x.0 * lim.1 + x.1
}

/// Whether cell `x` is marked in a row-major table of marks.
pub open spec fn seen(marks: Seq<bool>, lim: Pos, x: Pos) -> bool {
    marks[index_of(lim, x)]
}

/// Whether cell `y` is on the list of cell `x` in a row-major table of lists.
pub open spec fn listed(lists: Seq<Vec<Cell>>, lim: Pos, x: Pos, y: Cell) -> bool {
    lists[index_of(lim, x)]@.contains(y)
}

/// The number of entries of `marks` that are not set.
pub open spec fn unmarked(marks: Seq<bool>) -> nat
    decreases marks.len(),
{
    if marks.len() == 0 {
        0
    } else {
        unmarked(marks.drop_last()) + if marks.last() {
            0nat
        } else {
            1nat
        }
    }
}

/// Setting a mark that was not set leaves one unmarked entry less.
pub proof fn lemma_unmarked_set(marks: Seq<bool>, i: int)
    requires
        0 <= i < marks.len(),
        !marks[i],
    ensures
        unmarked(marks.update(i, true)) + 1 == unmarked(marks),
    decreases marks.len(),
{
    let t = marks.update(i, true);
    if i == marks.len() - 1 {
        assert(t.drop_last() =~= marks.drop_last());
    } else {
        lemma_unmarked_set(marks.drop_last(), i);
        assert(t.drop_last() =~= marks.drop_last().update(i, true));
    }
}

/// Where marks are only added, the number of unmarked entries does not grow.
pub proof fn lemma_unmarked_mono(s: Seq<bool>, t: Seq<bool>)
    requires
        s.len() == t.len(),
        forall|i: int| 0 <= i < s.len() && s[i] ==> t[i],
    ensures
        unmarked(t) <= unmarked(s),
    decreases s.len(),
{
    if s.len() > 0 {
        lemma_unmarked_mono(s.drop_last(), t.drop_last());
    }
}

/// Two cells of a grid with the same row-major index are the same cell.
pub proof fn lemma_index_injective(lim: Pos, x: Pos, y: Pos)
    requires
        within(x, lim),
        within(y, lim),
        index_of(lim, x) == index_of(lim, y),
    ensures
        x == y,
{
    if x.0 < y.0 {
        assert((y.0 - x.0) * lim.1 >= lim.1) by (nonlinear_arith)
            requires
                y.0 - x.0 >= 1,
                lim.1 >= 0,
        ;
        assert((y.0 - x.0) * lim.1 == y.0 * lim.1 - x.0 * lim.1) by (nonlinear_arith);
    } else if y.0 < x.0 {
        assert((x.0 - y.0) * lim.1 >= lim.1) by (nonlinear_arith)
            requires
                x.0 - y.0 >= 1,
                lim.1 >= 0,
        ;
        assert((x.0 - y.0) * lim.1 == x.0 * lim.1 - y.0 * lim.1) by (nonlinear_arith);
    }
}

/// A walk that is continued by an edge from its last cell is a walk.
pub proof fn lemma_walk_push(edges: Edges, w: Seq<Pos>, from: Pos, to: Pos, next: Pos)
    requires
        walks(edges, w, from, to),
        edges(to, next),
    ensures
        walks(edges, w.push(next), from, next),
{
    let w2 = w.push(next);
    assert forall|i: int| 0 <= i < w2.len() - 1 implies edges(#[trigger] w2[i], w2[i + 1]) by {
        if i < w.len() - 1 {
            assert(edges(w[i], w[i + 1]));
        }
    }
}

/// A walk that is entered by an edge to its first cell is a walk.
pub proof fn lemma_walk_prepend(edges: Edges, w: Seq<Pos>, from: Pos, to: Pos, first: Pos)
    requires
        walks(edges, w, from, to),
        edges(first, from),
    ensures
        walks(edges, seq![first] + w, first, to),
{
    let w2 = seq![first] + w;
    assert forall|i: int| 0 <= i < w2.len() - 1 implies edges(#[trigger] w2[i], w2[i + 1]) by {
        if i >= 1 {
            assert(edges(w[i - 1], w[i - 1 + 1]));
        }
    }
}

/// A walk followed by a walk from where it ends is a walk.
pub proof fn lemma_walk_concat(edges: Edges, w1: Seq<Pos>, w2: Seq<Pos>, a: Pos, b: Pos, c: Pos)
    requires
        walks(edges, w1, a, b),
        walks(edges, w2, b, c),
    ensures
        walks(edges, w1 + w2.drop_first(), a, c),
        (w1 + w2.drop_first()).len() == w1.len() + w2.len() - 1,
{
    let t = w2.drop_first();
    let w = w1 + t;
    assert forall|i: int| 0 <= i < w.len() - 1 implies edges(#[trigger] w[i], w[i + 1]) by {
        if i < w1.len() - 1 {
            assert(edges(w1[i], w1[i + 1]));
        } else {
            let m = i - (w1.len() - 1);
            assert(edges(w2[m], w2[m + 1]));
            assert(w[i + 1] == w2[m + 1]);
            if m == 0 {
                assert(w[i] == w1.last());
            } else {
                assert(w[i] == t[m - 1]);
            }
        }
    }
    if w2.len() == 1 {
        assert(w =~= w1);
    } else {
        assert(w.last() == w2.last());
    }
}

/// A walk without its last cell is a walk to the cell before it.
pub proof fn lemma_walk_drop_last(edges: Edges, w: Seq<Pos>, from: Pos, to: Pos)
    requires
        walks(edges, w, from, to),
        w.len() >= 2,
    ensures
        walks(edges, w.drop_last(), from, w[w.len() - 2]),
        edges(w[w.len() - 2], to),
{
    let w1 = w.drop_last();
    assert forall|i: int| 0 <= i < w1.len() - 1 implies edges(#[trigger] w1[i], w1[i + 1]) by {
        assert(edges(w[i], w[i + 1]));
    }
    assert(edges(w[w.len() - 2], w[w.len() - 2 + 1]));
}

/// A set of marked cells that holds `from`, and with each of its cells the cells
/// joined to it, holds every cell that can be reached from `from`.
pub proof fn lemma_closed_holds_reachable(g: Grid, marks: Seq<bool>, w: Seq<Pos>, from: Pos, to: Pos)
    requires
        walks(links(g), w, from, to),
        within(from, bound(g)),
        seen(marks, bound(g), from),
        forall|x: Pos, y: Pos|
            within(x, bound(g)) && within(y, bound(g)) && seen(marks, bound(g), x) && #[trigger] joined(
                g,
                x,
                y,
            ) ==> seen(marks, bound(g), y),
    ensures
        within(to, bound(g)),
        seen(marks, bound(g), to),
    decreases w.len(),
{
    if w.len() > 1 {
        let w1 = w.drop_last();
        let mid = w1.last();
        assert forall|i: int| 0 <= i < w1.len() - 1 implies links(g)(#[trigger] w1[i], w1[i + 1]) by {
            assert(links(g)(w[i], w[i + 1]));
        }
        lemma_closed_holds_reachable(g, marks, w1, from, mid);
        assert(links(g)(w[w.len() - 2], w[w.len() - 2 + 1]));
        assert(joined(g, mid, to));
    }
}

/// Cell `x` was marked between `before` and `after`.
pub open spec fn fresh(before: Seq<bool>, after: Seq<bool>, l: Pos, x: Pos) -> bool {
    seen(after, l, x) && !seen(before, l, x)
}

/// The edges join adjacent cells only, and in both directions.
pub open spec fn is_grid_graph(edges: Edges) -> bool {
    forall|x: Pos, y: Pos| #[trigger] edges(x, y) ==> adjacent(x, y) && edges(y, x)
}

/// Marks were only added between `before` and `after`.
#[verifier::opaque]
pub open spec fn grown(before: Seq<bool>, after: Seq<bool>) -> bool {
    before.len() == after.len() && forall|j: int| 0 <= j < before.len() && before[j] ==> after[j]
}

/// Every cell that was marked between `before` and `after` can be reached from
/// `u`.
#[verifier::opaque]
pub open spec fn reached(edges: Edges, l: Pos, u: Pos, before: Seq<bool>, after: Seq<bool>) -> bool {
    forall|x: Pos|
        within(x, l) && #[trigger] fresh(before, after, l, x) ==> reachable(edges, u, x)
}

/// With every cell other than `but` that was marked between `before` and `after`,
/// the cells joined to it are marked.
#[verifier::opaque]
pub open spec fn closed_but(
    edges: Edges,
    l: Pos,
    but: Pos,
    before: Seq<bool>,
    after: Seq<bool>,
) -> bool {
    forall|x: Pos, y: Pos|
        within(x, l) && within(y, l) && fresh(before, after, l, x) && x != but && #[trigger] edges(
            x,
            y,
        ) ==> seen(after, l, y)
}

/// With every cell that was marked between `before` and `after`, the cells joined
/// to it are marked.
#[verifier::opaque]
pub open spec fn closed(edges: Edges, l: Pos, before: Seq<bool>, after: Seq<bool>) -> bool {
    forall|x: Pos, y: Pos|
        within(x, l) && within(y, l) && fresh(before, after, l, x) && #[trigger] edges(x, y)
            ==> seen(after, l, y)
}

/// `y` is among the first `i` neighbours of `u`.
pub open spec fn among(l: Pos, u: Pos, i: int, y: Pos) -> bool {
    exists|m: int|
        0 <= m < i && m < neighbors_within(u, l).len() && #[trigger] neighbors_within(u, l)[m] == y
}

/// Of the first `i` neighbours of `u`, those joined to `u` are marked.
#[verifier::opaque]
pub open spec fn tried(edges: Edges, l: Pos, u: Pos, after: Seq<bool>, i: int) -> bool {
    forall|m: int|
        0 <= m < i && m < neighbors_within(u, l).len() && edges(
            u,
            #[trigger] neighbors_within(u, l)[m],
        ) ==> seen(after, l, neighbors_within(u, l)[m])
}

/// The lists hold what they held, and each edge of which an end was marked between
/// `before` and `after`, on the lists of both its ends.
#[verifier::opaque]
pub open spec fn entered(
    edges: Edges,
    l: Pos,
    before: Seq<bool>,
    after: Seq<bool>,
    lists0: Seq<Vec<Cell>>,
    lists: Seq<Vec<Cell>>,
) -> bool {
    forall|x: Pos, y: Cell|
        within(x, l) ==> (#[trigger] listed(lists, l, x, y) <==> listed(lists0, l, x, y) || (within(
            y@,
            l,
        ) && edges(x, y@) && (fresh(before, after, l, x) || fresh(before, after, l, y@))))
}

/// As `entered`, but of the edges at `u` only those to its first `i` neighbours.
#[verifier::opaque]
pub open spec fn entered_upto(
    edges: Edges,
    l: Pos,
    u: Pos,
    i: int,
    before: Seq<bool>,
    after: Seq<bool>,
    lists0: Seq<Vec<Cell>>,
    lists: Seq<Vec<Cell>>,
) -> bool {
    forall|x: Pos, y: Cell|
        within(x, l) ==> (#[trigger] listed(lists, l, x, y) <==> listed(lists0, l, x, y) || (within(
            y@,
            l,
        ) && edges(x, y@) && ((x != u && fresh(before, after, l, x)) || (y@ != u && fresh(
            before,
            after,
            l,
            y@,
        )) || (x == u && among(l, u, i, y@)) || (y@ == u && among(l, u, i, x)))))
}

/// What holds once `u` is marked and none of its neighbours is tried yet.
pub proof fn lemma_visit_start(edges: Edges, l: Pos, u: Pos, vis0: Seq<bool>, lists0: Seq<Vec<Cell>>)
    requires
        within(u, l),
        vis0.len() == l.0 * l.1,
        !seen(vis0, l, u),
    ensures
        0 <= index_of(l, u) < vis0.len(),
        grown(vis0, vis0.update(index_of(l, u), true)),
        seen(vis0.update(index_of(l, u), true), l, u),
        unmarked(vis0.update(index_of(l, u), true)) < unmarked(vis0),
        reached(edges, l, u, vis0, vis0.update(index_of(l, u), true)),
        closed_but(edges, l, u, vis0, vis0.update(index_of(l, u), true)),
        tried(edges, l, u, vis0.update(index_of(l, u), true), 0),
        entered_upto(edges, l, u, 0, vis0, vis0.update(index_of(l, u), true), lists0, lists0),
{
    reveal(grown);
    reveal(reached);
    reveal(closed_but);
    reveal(tried);
    reveal(entered_upto);
    let vis1 = vis0.update(index_of(l, u), true);
    lemma_index_in_grid(u, l);
    lemma_unmarked_set(vis0, index_of(l, u));
    assert forall|x: Pos| within(x, l) implies #[trigger] fresh(vis0, vis1, l, x) == (x == u) by {
        lemma_index_in_grid(x, l);
        if index_of(l, x) == index_of(l, u) {
            lemma_index_injective(l, x, u);
        }
    }
    assert(walks(edges, seq![u], u, u));
    assert forall|x: Pos, y: Cell| within(x, l) implies (#[trigger] listed(lists0, l, x, y)
        <==> listed(lists0, l, x, y) || (within(y@, l) && edges(x, y@) && ((x != u && fresh(
        vis0,
        vis1,
        l,
        x,
    )) || (y@ != u && fresh(vis0, vis1, l, y@)) || (x == u && among(l, u, 0, y@)) || (y@ == u
        && among(l, u, 0, x))))) by {
        if within(y@, l) {
            assert(fresh(vis0, vis1, l, y@) == (y@ == u));
        }
        assert(fresh(vis0, vis1, l, x) == (x == u));
    }
}

/// What holds after the neighbour `i` of `u` was tried and found not joined to
/// `u`.
pub proof fn lemma_visit_skip(
    edges: Edges,
    l: Pos,
    u: Pos,
    i: int,
    vis0: Seq<bool>,
    vis: Seq<bool>,
    lists0: Seq<Vec<Cell>>,
    lists: Seq<Vec<Cell>>,
)
    requires
        0 <= i < neighbors_within(u, l).len(),
        !edges(u, neighbors_within(u, l)[i]),
        is_grid_graph(edges),
        tried(edges, l, u, vis, i),
        entered_upto(edges, l, u, i, vis0, vis, lists0, lists),
    ensures
        tried(edges, l, u, vis, i + 1),
        entered_upto(edges, l, u, i + 1, vis0, vis, lists0, lists),
{
    reveal(tried);
    reveal(entered_upto);
    let nb = neighbors_within(u, l);
    assert forall|y: Pos| edges(u, y) || edges(y, u) implies among(l, u, i + 1, y) == among(
        l,
        u,
        i,
        y,
    ) by {
        if among(l, u, i + 1, y) {
            let m = choose|m: int| 0 <= m < i + 1 && m < nb.len() && #[trigger] nb[m] == y;
            assert(m != i);
            assert(nb[m] == y);
        }
        if among(l, u, i, y) {
            let m = choose|m: int| 0 <= m < i && m < nb.len() && #[trigger] nb[m] == y;
            assert(nb[m] == y);
        }
    }
}

/// What holds after the neighbour `v`, the `i`th of `u`, was found joined to `u`,
/// entered in the lists and visited.
pub proof fn lemma_visit_take(
    edges: Edges,
    l: Pos,
    u: Pos,
    v: Cell,
    uc: Cell,
    i: int,
    vis0: Seq<bool>,
    vis1: Seq<bool>,
    vis3: Seq<bool>,
    lists0: Seq<Vec<Cell>>,
    lists1: Seq<Vec<Cell>>,
    lists2: Seq<Vec<Cell>>,
    lists3: Seq<Vec<Cell>>,
)
    requires
        within(u, l),
        uc@ == u,
        0 <= i < neighbors_within(u, l).len(),
        neighbors_within(u, l)[i] == v@,
        within(v@, l),
        edges(u, v@),
        is_grid_graph(edges),
        vis0.len() == l.0 * l.1,
        lists1.len() == l.0 * l.1,
        lists2.len() == l.0 * l.1,
        !seen(vis0, l, u),
        seen(vis1, l, u),
        grown(vis0, vis1),
        reached(edges, l, u, vis0, vis1),
        closed_but(edges, l, u, vis0, vis1),
        tried(edges, l, u, vis1, i),
        entered_upto(edges, l, u, i, vis0, vis1, lists0, lists1),
        forall|x: Pos, y: Cell|
            within(x, l) ==> (#[trigger] listed(lists2, l, x, y) <==> listed(lists1, l, x, y) || (x
                == u && y == v) || (x == v@ && y == uc)),
        grown(vis1, vis3),
        seen(vis3, l, v@),
        reached(edges, l, v@, vis1, vis3),
        closed(edges, l, vis1, vis3),
        entered(edges, l, vis1, vis3, lists2, lists3),
    ensures
        grown(vis0, vis3),
        seen(vis3, l, u),
        unmarked(vis3) <= unmarked(vis1),
        reached(edges, l, u, vis0, vis3),
        closed_but(edges, l, u, vis0, vis3),
        tried(edges, l, u, vis3, i + 1),
        entered_upto(edges, l, u, i + 1, vis0, vis3, lists0, lists3),
{
    reveal(grown);
    lemma_unmarked_mono(vis1, vis3);
    lemma_index_in_grid(u, l);
    assert forall|x: Pos| within(x, l) && seen(vis1, l, x) implies seen(vis3, l, x) by {
        lemma_index_in_grid(x, l);
    }
    assert forall|x: Pos| within(x, l) && seen(vis0, l, x) implies seen(vis1, l, x) by {
        lemma_index_in_grid(x, l);
    }
    assert(reached(edges, l, u, vis0, vis3)) by {
        reveal(reached);
        assert forall|x: Pos| within(x, l) && #[trigger] fresh(vis0, vis3, l, x) implies reachable(
            edges,
            u,
            x,
        ) by {
            if fresh(vis1, vis3, l, x) {
                let w = choose|w: Seq<Pos>| walks(edges, w, v@, x);
                lemma_walk_prepend(edges, w, v@, x, u);
            } else {
                assert(fresh(vis0, vis1, l, x));
            }
        }
    }
    assert(closed_but(edges, l, u, vis0, vis3)) by {
        reveal(closed_but);
        reveal(closed);
        assert forall|x: Pos, y: Pos|
            within(x, l) && within(y, l) && fresh(vis0, vis3, l, x) && x != u && #[trigger] edges(
                x,
                y,
            ) implies seen(vis3, l, y) by {
            if fresh(vis1, vis3, l, x) {
            } else {
                assert(fresh(vis0, vis1, l, x));
                assert(seen(vis1, l, y));
            }
        }
    }
    let nb = neighbors_within(u, l);
    assert(tried(edges, l, u, vis3, i + 1)) by {
        reveal(tried);
        assert forall|m: int| 0 <= m < i + 1 && m < nb.len() && edges(u, #[trigger] nb[m]) implies seen(
            vis3,
            l,
            nb[m],
        ) by {
            if m < i {
                assert(seen(vis1, l, nb[m]));
                lemma_neighbors_within(u, l);
            }
        }
    }
    assert(entered_upto(edges, l, u, i + 1, vis0, vis3, lists0, lists3)) by {
        reveal(entered_upto);
        reveal(entered);
        assert forall|y: Pos| among(l, u, i + 1, y) == (among(l, u, i, y) || y == v@) by {
            if among(l, u, i + 1, y) {
                let m = choose|m: int| 0 <= m < i + 1 && m < nb.len() && #[trigger] nb[m] == y;
                if m < i {
                    assert(nb[m] == y);
                }
            }
            if among(l, u, i, y) {
                let m = choose|m: int| 0 <= m < i && m < nb.len() && #[trigger] nb[m] == y;
                assert(nb[m] == y);
            }
            if y == v@ {
                assert(nb[i] == y);
            }
        }
        assert forall|x: Pos, y: Cell| within(x, l) implies (#[trigger] listed(lists3, l, x, y)
            <==> listed(lists0, l, x, y) || (within(y@, l) && edges(x, y@) && ((x != u && fresh(
            vis0,
            vis3,
            l,
            x,
        )) || (y@ != u && fresh(vis0, vis3, l, y@)) || (x == u && among(l, u, i + 1, y@)) || (y@
            == u && among(l, u, i + 1, x))))) by {
            assert(among(l, u, i + 1, y@) == (among(l, u, i, y@) || y@ == v@));
            assert(among(l, u, i + 1, x) == (among(l, u, i, x) || x == v@));
            assert(listed(lists3, l, x, y) <==> listed(lists2, l, x, y) || (within(y@, l) && edges(
                x,
                y@,
            ) && (fresh(vis1, vis3, l, x) || fresh(vis1, vis3, l, y@))));
            assert(listed(lists2, l, x, y) <==> listed(lists1, l, x, y) || (x == u && y == v) || (x
                == v@ && y == uc));
            assert(listed(lists1, l, x, y) <==> listed(lists0, l, x, y) || (within(y@, l) && edges(
                x,
                y@,
            ) && ((x != u && fresh(vis0, vis1, l, x)) || (y@ != u && fresh(vis0, vis1, l, y@)) || (x
                == u && among(l, u, i, y@)) || (y@ == u && among(l, u, i, x)))));
            if within(y@, l) {
                lemma_index_in_grid(y@, l);
            }
            lemma_index_in_grid(x, l);
            if y@ == v@ {
                assert(y == v);
            }
            if y@ == u {
                assert(y == uc);
            }
        }
    }
}

/// What holds once all neighbours of `u` are tried.
pub proof fn lemma_visit_end(
    edges: Edges,
    l: Pos,
    u: Pos,
    vis0: Seq<bool>,
    vis: Seq<bool>,
    lists0: Seq<Vec<Cell>>,
    lists: Seq<Vec<Cell>>,
)
    requires
        within(u, l),
        is_grid_graph(edges),
        closed_but(edges, l, u, vis0, vis),
        tried(edges, l, u, vis, neighbors_within(u, l).len() as int),
        entered_upto(edges, l, u, neighbors_within(u, l).len() as int, vis0, vis, lists0, lists),
        fresh(vis0, vis, l, u),
    ensures
        closed(edges, l, vis0, vis),
        entered(edges, l, vis0, vis, lists0, lists),
{
    reveal(closed_but);
    reveal(closed);
    reveal(tried);
    reveal(entered_upto);
    reveal(entered);
    let nb = neighbors_within(u, l);
    let n = nb.len() as int;
    lemma_neighbors_within(u, l);
    assert forall|y: Pos| within(y, l) && (edges(u, y) || edges(y, u)) implies among(l, u, n, y) by {
        assert(adjacent(u, y));
        assert(nb.contains(y));
        let m = choose|m: int| 0 <= m < nb.len() && nb[m] == y;
        assert(nb[m] == y);
    }
    assert forall|x: Pos, y: Pos|
        within(x, l) && within(y, l) && fresh(vis0, vis, l, x) && #[trigger] edges(
            x,
            y,
        ) implies seen(vis, l, y) by {
        if x == u {
            let m = choose|m: int| 0 <= m < n && m < nb.len() && #[trigger] nb[m] == y;
            assert(edges(u, nb[m]));
        }
    }
    assert forall|x: Pos, y: Cell| within(x, l) implies (#[trigger] listed(lists, l, x, y)
        <==> listed(lists0, l, x, y) || (within(y@, l) && edges(x, y@) && (fresh(vis0, vis, l, x)
        || fresh(vis0, vis, l, y@)))) by {
        if within(y@, l) && edges(x, y@) {
            if x == u {
                assert(among(l, u, n, y@));
            }
            if y@ == u {
                assert(among(l, u, n, x));
            }
        }
    }
}

/// The links of a tiled board join adjacent cells, in both directions.
pub proof fn lemma_links_grid_graph(g: Grid)
    ensures
        is_grid_graph(links(g)),
{
    assert forall|x: Pos, y: Pos| #[trigger] links(g)(x, y) implies adjacent(x, y) && links(g)(
        y,
        x,
    ) by {
        assert(joined(g, x, y));
        assert(joined(g, y, x));
    }
}

/// Visits `u` and what the hole can reach from it over cells not yet visited,
/// and enters every move from a cell that it visits in the lists of both ends.
fn build_graph(board: &mut Board, graph: &mut Vec<Vec<Cell>>, visited: &mut Vec<bool>, u: Cell)
    requires
        is_tiling(old(board)@, u@),
        bound(old(board)@).0 * bound(old(board)@).1 <= usize::MAX,
        old(graph).len() == bound(old(board)@).0 * bound(old(board)@).1,
        old(visited).len() == bound(old(board)@).0 * bound(old(board)@).1,
    ensures
        final(board)@ == old(board)@,
        final(graph).len() == old(graph).len(),
        final(visited).len() == old(visited).len(),
        grown(old(visited)@, final(visited)@),
        seen(final(visited)@, bound(old(board)@), u@),
        reached(links(old(board)@), bound(old(board)@), u@, old(visited)@, final(visited)@),
        closed(links(old(board)@), bound(old(board)@), old(visited)@, final(visited)@),
        entered(
            links(old(board)@),
            bound(old(board)@),
            old(visited)@,
            final(visited)@,
            old(graph)@,
            final(graph)@,
        ),
    decreases unmarked(old(visited)@),
{
    let lim: Cell = board.limit();
    let ghost g = board@;
    let ghost l = bound(g);
    let ghost e = links(g);
    let ghost vis0 = visited@;
    let ghost gr0 = graph@;
    proof {
        lemma_index_in_grid(u@, l);
        lemma_links_grid_graph(g);
    }
    let iu: usize = u.encode(lim).unwrap();
    if visited[iu] {
        proof {
            lemma_visit_again(e, l, vis0, gr0);
        }
        return ;
    }
    visited[iu] = true;
    proof {
        lemma_visit_start(e, l, u@, vis0, gr0);
        assert(visited@ =~= vis0.update(index_of(l, u@), true));
    }
    let ns: Vec<Cell> = u.neighbor(lim);
    proof {
        lemma_neighbors_within(u@, l);
    }
    let mut i: usize = 0;
    while i < ns.len()
        invariant
            i <= ns.len(),
            is_tiling(g, u@),
            board@ == g,
            l == bound(g),
            e == links(g),
            is_grid_graph(e),
            lim@ == l,
            l.0 * l.1 <= usize::MAX,
            iu == index_of(l, u@),
            iu < l.0 * l.1,
            graph.len() == l.0 * l.1,
            visited.len() == l.0 * l.1,
            vis0.len() == l.0 * l.1,
            vis0 == old(visited)@,
            positions(ns@) == neighbors_within(u@, l),
            ns.len() == neighbors_within(u@, l).len(),
            !seen(vis0, l, u@),
            seen(visited@, l, u@),
            unmarked(visited@) < unmarked(vis0),
            grown(vis0, visited@),
            reached(e, l, u@, vis0, visited@),
            closed_but(e, l, u@, vis0, visited@),
            tried(e, l, u@, visited@, i as int),
            entered_upto(e, l, u@, i as int, vis0, visited@, gr0, graph@),
        decreases ns.len() - i,
    {
        let v: Cell = ns[i];
        let ghost vis1 = visited@;
        let ghost gr1 = graph@;
        proof {
            assert(positions(ns@)[i as int] == v@);
            lemma_neighbors_within(u@, l);
            assert(within(v@, l) && adjacent(u@, v@));
            lemma_move_stands(g, u@, v@);
            lemma_index_in_grid(v@, l);
        }
        if board.make_move(u, v).is_some() {
            let ghost s = board@;
            proof {
                lemma_move_keeps(g, u@, v@);
                lemma_swapped_at(g, u@, v@);
                assert(links(s) =~= e);
                if index_of(l, u@) == index_of(l, v@) {
                    lemma_index_injective(l, u@, v@);
                }
            }
            let iv: usize = v.encode(lim).unwrap();
            graph[iu].push(v);
            graph[iv].push(u);
            let ghost gr2 = graph@;
            proof {
                assert forall|x: Pos, y: Cell| within(x, l) implies (#[trigger] listed(gr2, l, x, y)
                    <==> listed(gr1, l, x, y) || (x == u@ && y == v) || (x == v@ && y == u)) by {
                    lemma_listed_push(gr1, gr2, l, u, v, x, y);
                }
            }
            build_graph(board, graph, visited, v);
            proof {
                lemma_move_stands(s, v@, u@);
                lemma_swap_back(g, u@, v@);
            }
            board.make_move(v, u).unwrap();
            proof {
                assert(board@ =~= g);
                lemma_visit_take(e, l, u@, v, u, i as int, vis0, vis1, visited@, gr0, gr1, gr2, graph@);
            }
        } else {
            proof {
                lemma_visit_skip(e, l, u@, i as int, vis0, visited@, gr0, graph@);
            }
        }
        i = i + 1;
    }
    proof {
        lemma_visit_end(e, l, u@, vis0, visited@, gr0, graph@);
    }
}

/// A visit of a cell that is marked already changes nothing.
pub proof fn lemma_visit_again(edges: Edges, l: Pos, vis: Seq<bool>, lists: Seq<Vec<Cell>>)
    ensures
        grown(vis, vis),
        forall|u: Pos| reached(edges, l, u, vis, vis),
        closed(edges, l, vis, vis),
        entered(edges, l, vis, vis, lists, lists),
{
    reveal(grown);
    reveal(reached);
    reveal(closed);
    reveal(entered);
}

/// What two pushes, of `v` on the list of `u` and of `u` on the list of `v`, leave
/// on the list of `x`.
proof fn lemma_listed_push(
    before: Seq<Vec<Cell>>,
    after: Seq<Vec<Cell>>,
    l: Pos,
    u: Cell,
    v: Cell,
    x: Pos,
    y: Cell,
)
    requires
        within(x, l),
        within(u@, l),
        within(v@, l),
        u@ != v@,
        before.len() == l.0 * l.1,
        after.len() == before.len(),
        after[index_of(l, u@)]@ == before[index_of(l, u@)]@.push(v),
        after[index_of(l, v@)]@ == before[index_of(l, v@)]@.push(u),
        forall|j: int|
            0 <= j < before.len() && j != index_of(l, u@) && j != index_of(l, v@) ==> after[j]
                == before[j],
    ensures
        listed(after, l, x, y) <==> listed(before, l, x, y) || (x == u@ && y == v) || (x == v@ && y
            == u),
{
    lemma_index_in_grid(x, l);
    lemma_index_in_grid(u@, l);
    lemma_index_in_grid(v@, l);
    let j = index_of(l, x);
    if j == index_of(l, u@) {
        lemma_index_injective(l, x, u@);
        lemma_push_contains(before[j]@, v, y);
    } else if j == index_of(l, v@) {
        lemma_index_injective(l, x, v@);
        lemma_push_contains(before[j]@, u, y);
    }
}

/// A sequence with one more element at its end holds what it held, and that
/// element.
proof fn lemma_push_contains(s: Seq<Cell>, v: Cell, y: Cell)
    ensures
        s.push(v).contains(y) <==> s.contains(y) || y == v,
{
    let t = s.push(v);
    if s.contains(y) {
        let i = choose|i: int| 0 <= i < s.len() && s[i] == y;
        assert(t[i] == y);
    }
    if y == v {
        assert(t[s.len() as int] == y);
    }
    if t.contains(y) {
        let i = choose|i: int| 0 <= i < t.len() && t[i] == y;
        if i < s.len() {
            assert(s[i] == y);
        }
    }
}

/// After a visit that began with no mark and empty lists, a cell's list holds
/// exactly the cells joined to it, if the cell can be reached from `hole`, and
/// nothing otherwise.
pub proof fn lemma_graph_complete(
    g: Grid,
    hole: Pos,
    vis0: Seq<bool>,
    vis: Seq<bool>,
    lists0: Seq<Vec<Cell>>,
    lists: Seq<Vec<Cell>>,
)
    requires
        within(hole, bound(g)),
        vis0.len() == bound(g).0 * bound(g).1,
        lists0.len() == bound(g).0 * bound(g).1,
        forall|j: int| 0 <= j < vis0.len() ==> !vis0[j],
        forall|j: int| 0 <= j < lists0.len() ==> (#[trigger] lists0[j])@.len() == 0,
        seen(vis, bound(g), hole),
        reached(links(g), bound(g), hole, vis0, vis),
        closed(links(g), bound(g), vis0, vis),
        entered(links(g), bound(g), vis0, vis, lists0, lists),
    ensures
        forall|x: Pos|
            within(x, bound(g)) ==> (seen(vis, bound(g), x) <==> #[trigger] reachable(
                links(g),
                hole,
                x,
            )),
        forall|x: Pos, y: Cell|
            within(x, bound(g)) ==> (#[trigger] listed(lists, bound(g), x, y) <==> within(
                y@,
                bound(g),
            ) && reachable(links(g), hole, x) && joined(g, x, y@)),
{
    let l = bound(g);
    let e = links(g);
    reveal(reached);
    reveal(closed);
    reveal(entered);
    assert forall|x: Pos| within(x, l) implies fresh(vis0, vis, l, x) == seen(vis, l, x) by {
        lemma_index_in_grid(x, l);
    }
    assert forall|x: Pos, y: Pos|
        within(x, l) && within(y, l) && seen(vis, l, x) && #[trigger] joined(g, x, y) implies seen(
        vis,
        l,
        y,
    ) by {
        assert(fresh(vis0, vis, l, x));
        assert(e(x, y));
    }
    assert forall|x: Pos| within(x, l) implies (seen(vis, l, x) <==> #[trigger] reachable(
        e,
        hole,
        x,
    )) by {
        if seen(vis, l, x) {
            assert(fresh(vis0, vis, l, x));
        }
        if reachable(e, hole, x) {
            let w = choose|w: Seq<Pos>| walks(e, w, hole, x);
            lemma_closed_holds_reachable(g, vis, w, hole, x);
        }
    }
    assert forall|x: Pos, y: Cell| within(x, l) implies (#[trigger] listed(lists, l, x, y)
        <==> within(y@, l) && reachable(e, hole, x) && joined(g, x, y@)) by {
        lemma_index_in_grid(x, l);
        assert(!listed(lists0, l, x, y));
        assert(fresh(vis0, vis, l, x) == seen(vis, l, x));
        if within(y@, l) && joined(g, x, y@) {
            assert(fresh(vis0, vis, l, y@) == seen(vis, l, y@));
            assert(joined(g, y@, x));
            assert(e(x, y@));
        }
    }
}

/// The graph of hole moves of a board that is tiled by trominoes around
/// `empty_cell`: for each cell, by its row-major index, the cells that the hole
/// can slide to from there. The list of a cell that the hole cannot reach from
/// `empty_cell` is empty. The board is tried on and left as it was.
pub fn build_move_graph(board: &mut Board, empty_cell: Cell) -> (graph: Vec<Vec<Cell>>)
    requires
        is_tiling(old(board)@, empty_cell@),
        bound(old(board)@).0 * bound(old(board)@).1 <= usize::MAX,
    ensures
        final(board)@ == old(board)@,
        graph.len() == bound(old(board)@).0 * bound(old(board)@).1,
        forall|x: Pos, y: Cell|
            within(x, bound(old(board)@)) ==> (#[trigger] listed(graph@, bound(old(board)@), x, y)
                <==> within(y@, bound(old(board)@)) && reachable(
                links(old(board)@),
                empty_cell@,
                x,
            ) && joined(old(board)@, x, y@)),
{
    let lim: Cell = board.limit();
    let n: usize = lim.dim();
    let mut graph: Vec<Vec<Cell>> = Vec::new();
    let mut visited: Vec<bool> = Vec::new();
    let mut i: usize = 0;
    while i < n
        invariant
            i <= n,
            graph.len() == i,
            visited.len() == i,
            forall|j: int| 0 <= j < i ==> !visited[j],
            forall|j: int| 0 <= j < i ==> (#[trigger] graph[j])@.len() == 0,
        decreases n - i,
    {
        graph.push(Vec::new());
        visited.push(false);
        i = i + 1;
    }
    let ghost vis0 = visited@;
    let ghost gr0 = graph@;
    build_graph(board, &mut graph, &mut visited, empty_cell);
    proof {
        lemma_graph_complete(board@, empty_cell@, vis0, visited@, gr0, graph@);
    }
    graph
}

} // verus!
