//! Passages that grow as one tree from a starting cell.
//!
//! Several strategies carve by attaching, again and again, a cell that has
//! no passage yet to a cell that was reached before. `grown` is what holds
//! of the plan all along; once the reached cells are all cells, the plan is
//! a spanning tree.

use crate::grid::Grid;
use crate::plan::{adjacent, edge_between, lemma_rect_len, lemma_spread, rect, Edge, Plan};
use vstd::prelude::*;
use vstd::set_lib::*;

verus! {

/// The passages of `p` form a tree on the cells of `reached`, which holds
/// `start`, and touch no other cell.
pub open spec fn grown(p: Plan, start: (int, int), reached: Set<(int, int)>) -> bool {
    &&& p.wf()
    &&& reached.contains(start)
    &&& reached.subset_of(rect(p.width, p.height))
    &&& forall|c: (int, int)| reached.contains(c) ==> #[trigger] p.joined(start, c)
    &&& forall|e: Edge| #[trigger] p.open.contains(e) ==> reached.contains(e.from()) && reached.contains(e.to())
    &&& p.open.finite()
    &&& p.open.len() + 1 == reached.len()
}

/// A plan without passages is a tree on its starting cell alone.
pub proof fn lemma_grown_start(p: Plan, start: (int, int))
    requires
        p.wf(),
        p.has_cell(start),
        p.open == Set::<Edge>::empty(),
    ensures
        grown(p, start, set![start]),
{
    p.lemma_joined_refl(start);
}

/// The cells reached are finite in number, at most as many as the grid has.
pub proof fn lemma_grown_bound(p: Plan, start: (int, int), reached: Set<(int, int)>)
    requires
        grown(p, start, reached),
    ensures
        reached.finite(),
        reached.len() <= p.size(),
{
    lemma_rect_len(p.width, p.height);
    lemma_len_subset(reached, rect(p.width, p.height));
}

/// Carving from a reached cell `u` to a neighbour `v` not reached before
/// extends the tree by `v`.
pub proof fn lemma_grow(p: Plan, start: (int, int), reached: Set<(int, int)>, u: (int, int), v: (int, int))
    requires
        grown(p, start, reached),
        reached.contains(u),
        p.has_cell(v),
        adjacent(u, v),
        !reached.contains(v),
    ensures
        grown(p.with_edge(edge_between(u, v)), start, reached.insert(v)),
        !p.open.contains(edge_between(u, v)),
{
    let e = edge_between(u, v);
    let q = p.with_edge(e);
    let more = reached.insert(v);
    lemma_grown_bound(p, start, reached);
    assert((e.from() == u && e.to() == v) || (e.from() == v && e.to() == u));
    if p.open.contains(e) {
        assert(reached.contains(e.from()) && reached.contains(e.to()));
    }
    assert(q.linked(u, v));
    assert forall|c: (int, int)| more.contains(c) implies #[trigger] q.joined(start, c) by {
        if c == v {
            assert(p.joined(start, u));
            p.lemma_joined_mono(q, start, u);
            q.lemma_joined_snoc(start, u, v);
        } else {
            assert(p.joined(start, c));
            p.lemma_joined_mono(q, start, c);
        }
    }
    assert forall|f: Edge| #[trigger] q.open.contains(f) implies more.contains(f.from()) && more.contains(f.to()) by {
        if f != e {
            assert(p.open.contains(f));
        }
    }
}

/// When every neighbour of a reached cell is reached too, the tree spans
/// the grid.
pub proof fn lemma_grown_perfect(p: Plan, start: (int, int), reached: Set<(int, int)>)
    requires
        grown(p, start, reached),
        forall|c: (int, int), d: (int, int)|
            reached.contains(c) && rect(p.width, p.height).contains(d) && #[trigger] adjacent(c, d)
                ==> reached.contains(d),
    ensures
        p.is_perfect(),
{
    let all = rect(p.width, p.height);
    assert forall|b: (int, int)| all.contains(b) implies reached.contains(b) by {
        lemma_spread(p.width, p.height, reached, start, b);
    }
    assert(reached =~= all);
    lemma_rect_len(p.width, p.height);
    assert forall|c: (int, int)| p.has_cell(c) implies #[trigger] p.joined(start, c) by {
        assert(all.contains(c));
    }
    p.lemma_connected_via(start);
}

/// A closed cell that has been reached is the starting cell, and then no
/// other cell has been reached.
pub proof fn lemma_reached_closed(grid: Grid, start: (int, int), reached: Set<(int, int)>, c: (int, int))
    requires
        grid.wf(),
        grown(grid.plan(), start, reached),
        reached.contains(c),
        grid.closed_at(c.0, c.1),
    ensures
        c == start,
        forall|u: (int, int)| reached.contains(u) ==> u == start,
{
    let p = grid.plan();
    if c != start {
        assert(p.joined(start, c));
        let b = p.lemma_joined_arrives(start, c);
        grid.lemma_linked_not_closed(b, c);
    }
    assert forall|u: (int, int)| reached.contains(u) implies u == start by {
        if u != start {
            assert(p.joined(start, u));
            p.lemma_joined_sym(start, u);
            let b = p.lemma_joined_arrives(u, start);
            grid.lemma_linked_not_closed(b, start);
        }
    }
}

/// A closed cell next to a reached cell has not been reached.
pub proof fn lemma_closed_unreached(
    grid: Grid,
    start: (int, int),
    reached: Set<(int, int)>,
    u: (int, int),
    v: (int, int),
)
    requires
        grid.wf(),
        grown(grid.plan(), start, reached),
        reached.contains(u),
        adjacent(u, v),
        grid.closed_at(v.0, v.1),
    ensures
        !reached.contains(v),
{
    if reached.contains(v) {
        lemma_reached_closed(grid, start, reached, v);
    }
}

/// In a sealed grid every cell that is not closed has been reached.
pub proof fn lemma_open_reached(grid: Grid, start: (int, int), reached: Set<(int, int)>, c: (int, int))
    requires
        grid.wf(),
        grid.sealed(),
        grown(grid.plan(), start, reached),
        grid.in_bounds(c.0, c.1),
        !grid.closed_at(c.0, c.1),
    ensures
        reached.contains(c),
{
    let n = grid.lemma_not_closed_linked(c.0, c.1);
    let e = edge_between(c, n);
    assert(grid.plan().open.contains(e));
    assert(e.from() == c || e.to() == c);
}

} // verus!
