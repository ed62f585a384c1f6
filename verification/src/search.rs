//! Breadth-first search over a graph of hole moves that is given as a table of
//! lists: the distance between two cells by the shortest walk.

use std::collections::VecDeque;
use vstd::prelude::*;
use crate::cell::{Cell, Pos, PuzzleError, lemma_index_in_grid, within};
use crate::graph::{
    Edges, index_of, is_distance, lemma_index_injective, lemma_walk_drop_last, lemma_walk_push,
    listed, reachable, walks,
};

verus! {

/// The cell at position `p`.
pub open spec fn cell_at(p: Pos) -> Cell {
    Cell(p.0 as usize, p.1 as usize)
}

/// The edges that a table of lists holds: from a cell of the grid to each cell of
/// the grid on its list.
pub open spec fn table_edges(lists: Seq<Vec<Cell>>, l: Pos) -> Edges {
    |x: Pos, y: Pos| within(x, l) && within(y, l) && listed(lists, l, x, cell_at(y))
}

/// A table of distances, one entry for each cell in row-major order; `None` for a
/// cell that was not found yet.
pub type Dists = Seq<Option<usize>>;

/// Cell `x` was found.
pub open spec fn found(dist: Dists, l: Pos, x: Pos) -> bool {
    dist[index_of(l, x)] is Some
}

/// The distance entered for cell `x`.
pub open spec fn dof(dist: Dists, l: Pos, x: Pos) -> int {
    dist[index_of(l, x)]->0 as int
}

/// The number of cells that were not found yet.
pub open spec fn unfound(dist: Dists) -> nat
    decreases dist.len(),
{
    if dist.len() == 0 {
        0
    } else {
        unfound(dist.drop_last()) + if dist.last() is Some {
            0nat
        } else {
            1nat
        }
    }
}

/// No more cells are unfound than the table has entries.
pub proof fn lemma_unfound_bound(dist: Dists)
    ensures
        unfound(dist) <= dist.len(),
    decreases dist.len(),
{
    if dist.len() > 0 {
        lemma_unfound_bound(dist.drop_last());
    }
}

/// Entering a distance for a cell that was not found leaves one unfound cell
/// less.
pub proof fn lemma_unfound_set(dist: Dists, i: int, d: usize)
    requires
        0 <= i < dist.len(),
        dist[i] is None,
    ensures
        unfound(dist.update(i, Some(d))) + 1 == unfound(dist),
    decreases dist.len(),
{
    let t = dist.update(i, Some(d));
    if i == dist.len() - 1 {
        assert(t.drop_last() =~= dist.drop_last());
    } else {
        lemma_unfound_set(dist.drop_last(), i, d);
        assert(t.drop_last() =~= dist.drop_last().update(i, Some(d)));
    }
}

/// The edges lead from cells of the grid to cells of the grid.
pub open spec fn stays_on(edges: Edges, l: Pos) -> bool {
    forall|x: Pos, y: Pos| #[trigger] edges(x, y) ==> within(x, l) && within(y, l)
}

/// What holds of the table of distances throughout the search: the start is at
/// distance 0, a walk of the entered length leads to each cell that was found,
/// and no entered distance is as large as the number of cells that were found.
#[verifier::opaque]
pub open spec fn search_base(edges: Edges, l: Pos, from: Pos, dist: Dists) -> bool {
    &&& dist.len() == l.0 * l.1
    &&& stays_on(edges, l)
    &&& within(from, l)
    &&& found(dist, l, from)
    &&& dof(dist, l, from) == 0
    &&& forall|x: Pos|
        #![trigger found(dist, l, x)]
        within(x, l) && found(dist, l, x) ==> (exists|w: Seq<Pos>|
            walks(edges, w, from, x) && w.len() == dof(dist, l, x) + 1) && dof(dist, l, x) + 1
            + unfound(dist) <= dist.len()
}

/// What holds of the cells that were taken from the queue and dealt with: they
/// were found, and so was every cell that an edge leads to from one of them, at
/// most one step further away.
#[verifier::opaque]
pub open spec fn search_done(edges: Edges, l: Pos, dist: Dists, done: Set<Pos>) -> bool {
    &&& forall|x: Pos| #[trigger] done.contains(x) ==> within(x, l) && found(dist, l, x)
    &&& forall|x: Pos, y: Pos|
        done.contains(x) && #[trigger] edges(x, y) ==> found(dist, l, y) && dof(dist, l, y) <= dof(
            dist,
            l,
            x,
        ) + 1
}

/// What holds of the queue: its cells were found, and their distances do not
/// fall along the queue.
#[verifier::opaque]
pub open spec fn search_queue(l: Pos, dist: Dists, queue: Seq<Cell>) -> bool {
    &&& forall|i: int|
        0 <= i < queue.len() ==> within(#[trigger] queue[i]@, l) && found(dist, l, queue[i]@)
    &&& forall|i: int, j: int|
        0 <= i <= j < queue.len() ==> dof(dist, l, #[trigger] queue[i]@) <= dof(
            dist,
            l,
            #[trigger] queue[j]@,
        )
}

/// `x` is in the queue.
pub open spec fn queued(queue: Seq<Cell>, x: Pos) -> bool {
    exists|i: int| 0 <= i < queue.len() && #[trigger] queue[i]@ == x
}

/// What holds between two cells being taken from the queue.
#[verifier::opaque]
pub open spec fn search_inv(
    edges: Edges,
    l: Pos,
    from: Pos,
    to: Pos,
    dist: Dists,
    queue: Seq<Cell>,
    done: Set<Pos>,
) -> bool {
    &&& search_base(edges, l, from, dist)
    &&& search_done(edges, l, dist, done)
    &&& search_queue(l, dist, queue)
    &&& !done.contains(to)
    &&& forall|x: Pos|
        #![trigger found(dist, l, x)]
        within(x, l) && found(dist, l, x) ==> done.contains(x) || queued(queue, x)
    &&& queue.len() > 0 ==> dof(dist, l, queue.last()@) <= dof(dist, l, queue[0]@) + 1
    &&& queue.len() > 0 ==> forall|x: Pos| #[trigger]
        done.contains(x) ==> dof(dist, l, x) <= dof(dist, l, queue[0]@)
}

/// What holds while the list of `cur`, which was taken from the queue, is gone
/// through, when its first `i` entries are dealt with.
#[verifier::opaque]
pub open spec fn search_mid(
    edges: Edges,
    l: Pos,
    from: Pos,
    to: Pos,
    dist: Dists,
    queue: Seq<Cell>,
    done: Set<Pos>,
    cur: Pos,
    list: Seq<Cell>,
    i: int,
) -> bool {
    &&& search_base(edges, l, from, dist)
    &&& search_done(edges, l, dist, done)
    &&& search_queue(l, dist, queue)
    &&& !done.contains(to)
    &&& cur != to
    &&& within(cur, l)
    &&& found(dist, l, cur)
    &&& forall|x: Pos|
        #![trigger found(dist, l, x)]
        within(x, l) && found(dist, l, x) ==> done.contains(x) || x == cur || queued(queue, x)
    &&& forall|m: int|
        0 <= m < i && m < list.len() && within(#[trigger] list[m]@, l) ==> found(dist, l, list[m]@)
            && dof(dist, l, list[m]@) <= dof(dist, l, cur) + 1
    &&& forall|m: int|
        0 <= m < queue.len() ==> dof(dist, l, cur) <= dof(dist, l, #[trigger] queue[m]@) <= dof(
            dist,
            l,
            cur,
        ) + 1
    &&& forall|x: Pos| #[trigger] done.contains(x) ==> dof(dist, l, x) <= dof(dist, l, cur)
}

/// The search begins with the start in the queue, at distance 0.
pub proof fn lemma_search_start(edges: Edges, l: Pos, from: Cell, to: Pos, dist0: Dists)
    requires
        within(from@, l),
        stays_on(edges, l),
        dist0.len() == l.0 * l.1,
        forall|j: int| 0 <= j < dist0.len() ==> dist0[j] is None,
    ensures
        0 <= index_of(l, from@) < dist0.len(),
        search_inv(
            edges,
            l,
            from@,
            to,
            dist0.update(index_of(l, from@), Some(0usize)),
            seq![from],
            Set::<Pos>::empty(),
        ),
{
    reveal(search_inv);
    reveal(search_base);
    reveal(search_done);
    reveal(search_queue);
    lemma_index_in_grid(from@, l);
    let i0 = index_of(l, from@);
    let dist = dist0.update(i0, Some(0usize));
    let queue = seq![from];
    lemma_unfound_set(dist0, i0, 0usize);
    lemma_unfound_bound(dist0);
    assert forall|x: Pos| within(x, l) implies #[trigger] found(dist, l, x) == (x == from@) by {
        lemma_index_in_grid(x, l);
        if index_of(l, x) == i0 {
            lemma_index_injective(l, x, from@);
        }
    }
    assert(walks(edges, seq![from@], from@, from@));
    assert(queue[0]@ == from@);
    assert(queued(queue, from@));
}

/// When the target is taken from the queue, the distance entered for it is its
/// distance from the start.
pub proof fn lemma_search_hit(
    edges: Edges,
    l: Pos,
    from: Pos,
    to: Pos,
    dist: Dists,
    queue: Seq<Cell>,
    done: Set<Pos>,
)
    requires
        search_inv(edges, l, from, to, dist, queue, done),
        queue.len() > 0,
        queue[0]@ == to,
    ensures
        within(to, l),
        found(dist, l, to),
        is_distance(edges, from, to, dof(dist, l, to)),
{
    reveal(search_inv);
    reveal(search_base);
    reveal(search_queue);
    assert(within(queue[0]@, l) && found(dist, l, queue[0]@));
    let d = dof(dist, l, to);
    assert forall|w: Seq<Pos>| walks(edges, w, from, to) implies w.len() >= d + 1 by {
        lemma_search_potential(edges, l, from, to, dist, queue, done, w, to);
    }
}

/// The least number of moves that the search can still find for `x`, when the
/// target was just taken from the queue: the distance entered for `x` if `x` is
/// dealt with, and the distance of the target if not.
pub open spec fn potential(l: Pos, to: Pos, dist: Dists, done: Set<Pos>, x: Pos) -> int {
    if done.contains(x) {
        dof(dist, l, x)
    } else {
        dof(dist, l, to)
    }
}

/// The potential of the last cell of a walk from the start is at most the number
/// of its moves.
pub proof fn lemma_search_potential(
    edges: Edges,
    l: Pos,
    from: Pos,
    to: Pos,
    dist: Dists,
    queue: Seq<Cell>,
    done: Set<Pos>,
    w: Seq<Pos>,
    x: Pos,
)
    requires
        search_inv(edges, l, from, to, dist, queue, done),
        queue.len() > 0,
        queue[0]@ == to,
        walks(edges, w, from, x),
    ensures
        potential(l, to, dist, done, x) <= w.len() - 1,
    decreases w.len(),
{
    reveal(search_inv);
    reveal(search_base);
    reveal(search_queue);
    reveal(search_done);
    assert(within(queue[0]@, l) && found(dist, l, queue[0]@));
    if w.len() == 1 {
        if !done.contains(from) {
            assert(queued(queue, from));
            let i = choose|i: int| 0 <= i < queue.len() && #[trigger] queue[i]@ == from;
            assert(dof(dist, l, queue[0]@) <= dof(dist, l, queue[i]@));
        }
    } else {
        lemma_walk_drop_last(edges, w, from, x);
        let mid = w[w.len() - 2];
        lemma_search_potential(edges, l, from, to, dist, queue, done, w.drop_last(), mid);
        assert(edges(mid, x));
        if done.contains(mid) {
            assert(found(dist, l, x));
            if !done.contains(x) {
                assert(queued(queue, x));
                let i = choose|i: int| 0 <= i < queue.len() && #[trigger] queue[i]@ == x;
                assert(dof(dist, l, queue[0]@) <= dof(dist, l, queue[i]@));
            }
        }
    }
}

/// When the queue is empty and the target was not taken from it, no walk leads
/// from the start to the target.
pub proof fn lemma_search_miss(
    edges: Edges,
    l: Pos,
    from: Pos,
    to: Pos,
    dist: Dists,
    done: Set<Pos>,
)
    requires
        search_inv(edges, l, from, to, dist, Seq::<Cell>::empty(), done),
    ensures
        !reachable(edges, from, to),
{
    if reachable(edges, from, to) {
        let w = choose|w: Seq<Pos>| walks(edges, w, from, to);
        lemma_search_closed(edges, l, from, to, dist, done, w, to);
        reveal(search_inv);
    }
}

/// When the queue is empty, every cell that a walk from the start leads to is
/// dealt with.
pub proof fn lemma_search_closed(
    edges: Edges,
    l: Pos,
    from: Pos,
    to: Pos,
    dist: Dists,
    done: Set<Pos>,
    w: Seq<Pos>,
    x: Pos,
)
    requires
        search_inv(edges, l, from, to, dist, Seq::<Cell>::empty(), done),
        walks(edges, w, from, x),
    ensures
        done.contains(x),
    decreases w.len(),
{
    reveal(search_inv);
    reveal(search_base);
    reveal(search_done);
    let queue = Seq::<Cell>::empty();
    if w.len() == 1 {
        assert(found(dist, l, from));
        assert(!queued(queue, from));
    } else {
        lemma_walk_drop_last(edges, w, from, x);
        let mid = w[w.len() - 2];
        lemma_search_closed(edges, l, from, to, dist, done, w.drop_last(), mid);
        assert(edges(mid, x));
        assert(within(mid, l) && found(dist, l, mid));
        assert(found(dist, l, x));
        assert(within(x, l));
        assert(!queued(queue, x));
    }
}

/// Taking a cell other than the target from the queue.
pub proof fn lemma_search_pop(
    edges: Edges,
    l: Pos,
    from: Pos,
    to: Pos,
    dist: Dists,
    queue: Seq<Cell>,
    done: Set<Pos>,
    list: Seq<Cell>,
)
    requires
        search_inv(edges, l, from, to, dist, queue, done),
        queue.len() > 0,
        queue[0]@ != to,
    ensures
        within(queue[0]@, l),
        found(dist, l, queue[0]@),
        search_mid(edges, l, from, to, dist, queue.drop_first(), done, queue[0]@, list, 0),
{
    reveal(search_inv);
    reveal(search_mid);
    reveal(search_queue);
    let rest = queue.drop_first();
    let cur = queue[0]@;
    assert(within(queue[0]@, l) && found(dist, l, queue[0]@));
    assert forall|m: int| 0 <= m < rest.len() implies within(#[trigger] rest[m]@, l) && found(
        dist,
        l,
        rest[m]@,
    ) && dof(dist, l, cur) <= dof(dist, l, rest[m]@) <= dof(dist, l, cur) + 1 by {
        assert(rest[m] == queue[m + 1]);
        assert(within(queue[m + 1]@, l));
        assert(dof(dist, l, queue[0]@) <= dof(dist, l, queue[m + 1]@));
        assert(dof(dist, l, queue[m + 1]@) <= dof(dist, l, queue[queue.len() - 1]@));
    }
    assert forall|i: int, j: int| 0 <= i <= j < rest.len() implies dof(
        dist,
        l,
        #[trigger] rest[i]@,
    ) <= dof(dist, l, #[trigger] rest[j]@) by {
        assert(rest[i] == queue[i + 1] && rest[j] == queue[j + 1]);
        assert(dof(dist, l, queue[i + 1]@) <= dof(dist, l, queue[j + 1]@));
    }
    assert forall|x: Pos|
        #![trigger found(dist, l, x)]
        within(x, l) && found(dist, l, x) implies done.contains(x) || x == cur || queued(
        rest,
        x,
    ) by {
        if !done.contains(x) && x != cur {
            assert(queued(queue, x));
            let i = choose|i: int| 0 <= i < queue.len() && #[trigger] queue[i]@ == x;
            assert(rest[i - 1]@ == x);
        }
    }
}

/// Going past an entry of the list that is off the grid, or that was found
/// before.
pub proof fn lemma_search_pass(
    edges: Edges,
    l: Pos,
    from: Pos,
    to: Pos,
    dist: Dists,
    queue: Seq<Cell>,
    done: Set<Pos>,
    cur: Pos,
    list: Seq<Cell>,
    i: int,
)
    requires
        search_mid(edges, l, from, to, dist, queue, done, cur, list, i),
        0 <= i < list.len(),
        !within(list[i]@, l) || found(dist, l, list[i]@),
    ensures
        search_mid(edges, l, from, to, dist, queue, done, cur, list, i + 1),
{
    reveal(search_mid);
    let y = list[i]@;
    if within(y, l) {
        assert(found(dist, l, y));
        if !done.contains(y) && y != cur {
            assert(queued(queue, y));
            let m = choose|m: int| 0 <= m < queue.len() && #[trigger] queue[m]@ == y;
            assert(dof(dist, l, queue[m]@) <= dof(dist, l, cur) + 1);
        }
    }
}

/// While the list of a cell is gone through and one of its entries was not found
/// yet, the distance of the cell plus one is less than the number of cells.
pub proof fn lemma_search_room(
    edges: Edges,
    l: Pos,
    from: Pos,
    to: Pos,
    dist: Dists,
    queue: Seq<Cell>,
    done: Set<Pos>,
    cur: Pos,
    list: Seq<Cell>,
    i: int,
    y: Pos,
)
    requires
        search_mid(edges, l, from, to, dist, queue, done, cur, list, i),
        within(y, l),
        !found(dist, l, y),
    ensures
        0 <= index_of(l, y) < dist.len(),
        index_of(l, y) != index_of(l, cur),
        found(dist, l, cur),
        0 <= dof(dist, l, cur) + 1 < dist.len(),
        dist.len() == l.0 * l.1,
{
    reveal(search_mid);
    reveal(search_base);
    lemma_index_in_grid(y, l);
    lemma_index_in_grid(cur, l);
    lemma_unfound_set(dist, index_of(l, y), 0usize);
    assert(found(dist, l, cur));
}

/// Entering the distance of an entry of the list that was not found before, and
/// putting it in the queue.
pub proof fn lemma_search_push(
    edges: Edges,
    l: Pos,
    from: Pos,
    to: Pos,
    dist: Dists,
    queue: Seq<Cell>,
    done: Set<Pos>,
    cur: Pos,
    list: Seq<Cell>,
    i: int,
    d: usize,
)
    requires
        search_mid(edges, l, from, to, dist, queue, done, cur, list, i),
        0 <= i < list.len(),
        within(list[i]@, l),
        !found(dist, l, list[i]@),
        edges(cur, list[i]@),
        d == dof(dist, l, cur) + 1,
    ensures
        search_mid(
            edges,
            l,
            from,
            to,
            dist.update(index_of(l, list[i]@), Some(d)),
            queue.push(list[i]),
            done,
            cur,
            list,
            i + 1,
        ),
        unfound(dist.update(index_of(l, list[i]@), Some(d))) + 1 == unfound(dist),
        dof(dist.update(index_of(l, list[i]@), Some(d)), l, cur) == dof(dist, l, cur),
{
    reveal(search_mid);
    reveal(search_base);
    reveal(search_done);
    reveal(search_queue);
    let y = list[i]@;
    let iy = index_of(l, y);
    lemma_index_in_grid(y, l);
    lemma_index_in_grid(cur, l);
    lemma_index_in_grid(from, l);
    let dist2 = dist.update(iy, Some(d));
    let queue2 = queue.push(list[i]);
    lemma_unfound_set(dist, iy, d);
    assert(found(dist, l, cur));
    assert forall|x: Pos|
        #![trigger found(dist2, l, x)]
        #![trigger dof(dist2, l, x)]
        within(x, l) implies (found(dist2, l, x) == (x == y || found(dist, l, x))) && (x != y
        ==> dof(dist2, l, x) == dof(dist, l, x)) by {
        lemma_index_in_grid(x, l);
        if index_of(l, x) == iy {
            lemma_index_injective(l, x, y);
        }
    }
    assert(dof(dist2, l, y) == d);
    assert(dof(dist2, l, cur) == dof(dist, l, cur));
    assert(dof(dist2, l, from) == 0 && found(dist2, l, from));
    assert forall|x: Pos|
        #![trigger found(dist2, l, x)]
        within(x, l) && found(dist2, l, x) implies (exists|w: Seq<Pos>|
        walks(edges, w, from, x) && w.len() == dof(dist2, l, x) + 1) && dof(dist2, l, x) + 1
        + unfound(dist2) <= dist2.len() by {
        if x == y {
            assert(found(dist, l, cur));
            let w = choose|w: Seq<Pos>|
                walks(edges, w, from, cur) && w.len() == dof(dist, l, cur) + 1;
            lemma_walk_push(edges, w, from, cur, y);
            assert(walks(edges, w.push(y), from, y) && w.push(y).len() == d + 1);
        } else {
            assert(found(dist, l, x));
            let w = choose|w: Seq<Pos>| walks(edges, w, from, x) && w.len() == dof(dist, l, x) + 1;
            assert(walks(edges, w, from, x) && w.len() == dof(dist2, l, x) + 1);
        }
    }
    assert(search_base(edges, l, from, dist2));
    assert forall|x: Pos| #[trigger] done.contains(x) implies within(x, l) && found(dist2, l, x)
        && dof(dist2, l, x) == dof(dist, l, x) by {
        assert(found(dist, l, x));
    }
    assert forall|x: Pos, z: Pos| done.contains(x) && #[trigger] edges(x, z) implies found(
        dist2,
        l,
        z,
    ) && dof(dist2, l, z) <= dof(dist2, l, x) + 1 by {
        assert(within(z, l));
        assert(found(dist, l, z));
        assert(dof(dist2, l, z) == dof(dist, l, z));
        assert(dof(dist2, l, x) == dof(dist, l, x));
    }
    assert(search_done(edges, l, dist2, done));
    assert forall|m: int| 0 <= m < queue2.len() implies within(#[trigger] queue2[m]@, l) && found(
        dist2,
        l,
        queue2[m]@,
    ) && dof(dist2, l, cur) <= dof(dist2, l, queue2[m]@) <= dof(dist2, l, cur) + 1 by {
        if m < queue.len() {
            assert(queue2[m] == queue[m]);
            assert(within(queue[m]@, l) && found(dist, l, queue[m]@));
            assert(dof(dist, l, cur) <= dof(dist, l, queue[m]@) <= dof(dist, l, cur) + 1);
            assert(dof(dist2, l, queue[m]@) == dof(dist, l, queue[m]@));
        } else {
            assert(queue2[m]@ == y);
        }
    }
    assert forall|a: int, b: int| 0 <= a <= b < queue2.len() implies dof(
        dist2,
        l,
        #[trigger] queue2[a]@,
    ) <= dof(dist2, l, #[trigger] queue2[b]@) by {
        assert(within(queue2[a]@, l) && within(queue2[b]@, l));
        assert(dof(dist2, l, cur) <= dof(dist2, l, queue2[a]@) <= dof(dist2, l, cur) + 1);
        if b < queue.len() {
            assert(queue2[a] == queue[a] && queue2[b] == queue[b]);
            assert(found(dist, l, queue[a]@) && found(dist, l, queue[b]@));
            assert(dof(dist, l, queue[a]@) <= dof(dist, l, queue[b]@));
            assert(dof(dist2, l, queue[a]@) == dof(dist, l, queue[a]@));
            assert(dof(dist2, l, queue[b]@) == dof(dist, l, queue[b]@));
        } else {
            assert(queue2[b]@ == y);
        }
    }
    assert(search_queue(l, dist2, queue2));
    assert forall|x: Pos|
        #![trigger found(dist2, l, x)]
        within(x, l) && found(dist2, l, x) implies done.contains(x) || x == cur || queued(
        queue2,
        x,
    ) by {
        if x == y {
            assert(queue2[queue.len() as int]@ == y);
        } else if !done.contains(x) && x != cur {
            assert(found(dist, l, x));
            assert(queued(queue, x));
            let m = choose|m: int| 0 <= m < queue.len() && #[trigger] queue[m]@ == x;
            assert(queue2[m]@ == x);
        }
    }
    assert forall|m: int|
        0 <= m < i + 1 && m < list.len() && within(#[trigger] list[m]@, l) implies found(
        dist2,
        l,
        list[m]@,
    ) && dof(dist2, l, list[m]@) <= dof(dist2, l, cur) + 1 by {
        if m < i {
            assert(found(dist, l, list[m]@));
            assert(list[m]@ != y);
            assert(dof(dist2, l, list[m]@) == dof(dist, l, list[m]@));
        } else {
            assert(list[m]@ == y);
        }
    }
    assert forall|x: Pos| #[trigger] done.contains(x) implies dof(dist2, l, x) <= dof(
        dist2,
        l,
        cur,
    ) by {}
}

/// When the list of `cur` is gone through, `cur` is dealt with.
pub proof fn lemma_search_next(
    edges: Edges,
    l: Pos,
    from: Pos,
    to: Pos,
    dist: Dists,
    queue: Seq<Cell>,
    done: Set<Pos>,
    cur: Pos,
    lists: Seq<Vec<Cell>>,
)
    requires
        edges == table_edges(lists, l),
        lists.len() == l.0 * l.1,
        l.0 <= usize::MAX,
        l.1 <= usize::MAX,
        within(cur, l),
        search_mid(
            edges,
            l,
            from,
            to,
            dist,
            queue,
            done,
            cur,
            lists[index_of(l, cur)]@,
            lists[index_of(l, cur)]@.len() as int,
        ),
    ensures
        search_inv(edges, l, from, to, dist, queue, done.insert(cur)),
{
    reveal(search_mid);
    reveal(search_inv);
    reveal(search_done);
    reveal(search_queue);
    lemma_index_in_grid(cur, l);
    let list = lists[index_of(l, cur)]@;
    let done2 = done.insert(cur);
    assert forall|x: Pos, y: Pos| done2.contains(x) && #[trigger] edges(x, y) implies found(
        dist,
        l,
        y,
    ) && dof(dist, l, y) <= dof(dist, l, x) + 1 by {
        if x == cur {
            assert(listed(lists, l, cur, cell_at(y)));
            assert(within(y, l));
            let m = choose|m: int| 0 <= m < list.len() && list[m] == cell_at(y);
            assert(cell_at(y)@ == y);
            assert(list[m]@ == y);
        }
    }
    if queue.len() > 0 {
        assert(dof(dist, l, cur) <= dof(dist, l, queue[0]@));
        assert(dof(dist, l, queue[queue.len() - 1]@) <= dof(dist, l, cur) + 1);
        assert forall|x: Pos| #[trigger] done2.contains(x) implies dof(dist, l, x) <= dof(
            dist,
            l,
            queue[0]@,
        ) by {}
    }
}

/// The edges of a table stay on the grid, and each entry of a list that is on the
/// grid is an edge.
pub proof fn lemma_table_edges(lists: Seq<Vec<Cell>>, l: Pos, x: Pos, m: int)
    requires
        within(x, l),
        0 <= m < lists[index_of(l, x)]@.len(),
        within(lists[index_of(l, x)]@[m]@, l),
    ensures
        table_edges(lists, l)(x, lists[index_of(l, x)]@[m]@),
{
    let c = lists[index_of(l, x)]@[m];
    assert(cell_at(c@) == c);
    assert(lists[index_of(l, x)]@.contains(c));
}

/// The number of moves of a shortest walk from `from` to `to` over the edges of
/// the table `graph`, which holds for each cell of a grid of `lim.0` rows and
/// `lim.1` columns, by its row-major index, the cells that an edge leads to;
/// `None` if no walk leads there. A cell outside the grid is turned down.
pub fn bfs_distance(graph: &Vec<Vec<Cell>>, lim: Cell, from: Cell, to: Cell) -> (r: Result<
    Option<usize>,
    PuzzleError,
>)
    requires
        graph.len() == lim.0 * lim.1,
    ensures
        match r {
            Ok(Some(d)) => within(from@, lim@) && within(to@, lim@) && is_distance(
                table_edges(graph@, lim@),
                from@,
                to@,
                d as int,
            ),
            Ok(None) => within(from@, lim@) && within(to@, lim@) && !reachable(
                table_edges(graph@, lim@),
                from@,
                to@,
            ),
            Err(e) => e == PuzzleError::OutOfRange && !(within(from@, lim@) && within(to@, lim@)),
        },
{
    if !(from.0 < lim.0 && from.1 < lim.1 && to.0 < lim.0 && to.1 < lim.1) {
        return Err(PuzzleError::OutOfRange);
    }
    let ghost l = lim@;
    let ghost e = table_edges(graph@, l);
    let n: usize = graph.len();
    let mut dist: Vec<Option<usize>> = Vec::new();
    let mut i: usize = 0;
    while i < n
        invariant
            i <= n,
            dist.len() == i,
            forall|j: int| 0 <= j < i ==> dist[j] is None,
        decreases n - i,
    {
        dist.push(None);
        i = i + 1;
    }
    let mut qu: VecDeque<Cell> = VecDeque::new();
    qu.push_back(from);
    proof {
        assert(stays_on(e, l));
        lemma_search_start(e, l, from, to@, dist@);
        assert(qu@ =~= seq![from]);
    }
    let ifrom: usize = from.encode(lim).unwrap();
    dist[ifrom] = Some(0);
    let ghost mut done: Set<Pos> = Set::empty();
    loop
        invariant
            l == lim@,
            e == table_edges(graph@, l),
            graph.len() == l.0 * l.1,
            l.0 * l.1 <= usize::MAX,
            dist.len() == l.0 * l.1,
            within(from@, l),
            within(to@, l),
            search_inv(e, l, from@, to@, dist@, qu@, done),
        decreases 2 * unfound(dist@) + qu.len(),
    {
        let ghost queue0 = qu@;
        let ghost dist0 = dist@;
        let cur: Cell = match qu.pop_front() {
            Some(c) => c,
            None => {
                proof {
                    assert(qu@ =~= Seq::<Cell>::empty());
                    lemma_search_miss(e, l, from@, to@, dist@, done);
                }
                return Ok(None);
            },
        };
        proof {
            assert(queue0.drop_first() =~= qu@);
            assert(queue0[0] == cur);
        }
        if cur == to {
            proof {
                lemma_search_hit(e, l, from@, to@, dist@, queue0, done);
                lemma_index_in_grid(to@, l);
            }
            let ito: usize = to.encode(lim).unwrap();
            return Ok(dist[ito]);
        }
        proof {
            lemma_search_pop(e, l, from@, to@, dist@, queue0, done, graph@[index_of(l, cur@)]@);
            lemma_index_in_grid(cur@, l);
        }
        let icur: usize = cur.encode(lim).unwrap();
        let cur_dist: usize = dist[icur].unwrap();
        let mut m: usize = 0;
        while m < graph[icur].len()
            invariant
                l == lim@,
                e == table_edges(graph@, l),
                graph.len() == l.0 * l.1,
                l.0 * l.1 <= usize::MAX,
                dist.len() == l.0 * l.1,
                icur == index_of(l, cur@),
                icur < graph.len(),
                within(cur@, l),
                m <= graph[icur as int].len(),
                found(dist@, l, cur@),
                cur_dist == dof(dist@, l, cur@),
                2 * unfound(dist@) + qu.len() < 2 * unfound(dist0) + queue0.len(),
                search_mid(
                    e,
                    l,
                    from@,
                    to@,
                    dist@,
                    qu@,
                    done,
                    cur@,
                    graph@[icur as int]@,
                    m as int,
                ),
            decreases graph[icur as int].len() - m,
        {
            let nei: Cell = graph[icur][m];
            proof {
                if within(nei@, l) {
                    lemma_index_in_grid(nei@, l);
                }
            }
            match nei.encode(lim) {
                Ok(inei) => {
                    if dist[inei].is_none() {
                        proof {
                            lemma_table_edges(graph@, l, cur@, m as int);
                            lemma_search_room(
                                e,
                                l,
                                from@,
                                to@,
                                dist@,
                                qu@,
                                done,
                                cur@,
                                graph@[icur as int]@,
                                m as int,
                                nei@,
                            );
                            lemma_search_push(
                                e,
                                l,
                                from@,
                                to@,
                                dist@,
                                qu@,
                                done,
                                cur@,
                                graph@[icur as int]@,
                                m as int,
                                (cur_dist + 1) as usize,
                            );
                        }
                        dist[inei] = Some(cur_dist + 1);
                        qu.push_back(nei);
                    } else {
                        proof {
                            lemma_search_pass(
                                e,
                                l,
                                from@,
                                to@,
                                dist@,
                                qu@,
                                done,
                                cur@,
                                graph@[icur as int]@,
                                m as int,
                            );
                        }
                    }
                },
                Err(_) => {
                    proof {
                        lemma_search_pass(
                            e,
                            l,
                            from@,
                            to@,
                            dist@,
                            qu@,
                            done,
                            cur@,
                            graph@[icur as int]@,
                            m as int,
                        );
                    }
                },
            }
            m = m + 1;
        }
        proof {
            lemma_search_next(e, l, from@, to@, dist@, qu@, done, cur@, graph@);
            done = done.insert(cur@);
        }
    }
}

} // verus!
