//! A maze whose passages form a spanning tree has no cycle.
//!
//! The argument: a connected plan has at least one passage fewer than it
//! has cells, since every cell but one can be given a passage of its own,
//! the last one on a shortest walk to it. A passage on a cycle could be
//! walled up without parting anything, which would leave too few.

use crate::plan::{adjacent, edge_between, lemma_rect_len, rect, Edge, Plan};
use vstd::prelude::*;
use vstd::relations::injective_on;
use vstd::set_lib::{lemma_len_subset, lemma_map_size};

verus! {

/// The cell that follows position `i` on a round trip through `c`.
pub open spec fn after(c: Seq<(int, int)>, i: int) -> (int, int) {
    if i + 1 == c.len() {
        c[0]
    } else {
        c[i + 1]
    }
}

impl Plan {
    pub open spec fn turn_ok(self, c: Seq<(int, int)>, i: int) -> bool {
        self.linked(c[i], after(c, i))
    }

    /// `c` lists the cells of a cycle: at least three different cells, each
    /// with a passage to the next and the last with one to the first.
    pub open spec fn is_cycle(self, c: Seq<(int, int)>) -> bool {
        &&& c.len() >= 3
        &&& c.no_duplicates()
        &&& forall|i: int| 0 <= i < c.len() ==> #[trigger] self.turn_ok(c, i)
    }

    /// No passages form a cycle.
    pub open spec fn acyclic(self) -> bool {
        forall|c: Seq<(int, int)>| !#[trigger] self.is_cycle(c)
    }

    /// A walk of `n` passages leads from the first cell of the grid to `v`.
    pub open spec fn reach_in(self, v: (int, int), n: nat) -> bool {
        exists|w: Seq<(int, int)>| #[trigger] self.is_walk(w) && w[0] == (0int, 0int) && w.last() == v && w.len() == n + 1
    }

    /// `n` is the least number of passages on a walk from the first cell
    /// to `v`.
    pub open spec fn least(self, v: (int, int), n: nat) -> bool {
        self.reach_in(v, n) && forall|m: nat| m < n ==> !self.reach_in(v, m)
    }

    /// The length of a shortest walk from the first cell to `v`.
    pub open spec fn dist(self, v: (int, int)) -> nat {
        choose|n: nat| self.least(v, n)
    }

    /// A shortest walk from the first cell to `v`.
    pub open spec fn shortest(self, v: (int, int)) -> Seq<(int, int)> {
        choose|w: Seq<(int, int)>| #[trigger]
            self.is_walk(w) && w[0] == (0int, 0int) && w.last() == v && w.len() == self.dist(v) + 1
    }

    /// The cell before `v` on a shortest walk from the first cell to `v`.
    pub open spec fn parent(self, v: (int, int)) -> (int, int) {
        self.shortest(v)[self.shortest(v).len() - 2]
    }

    proof fn lemma_least_exists(self, v: (int, int), n: nat)
        requires
            self.reach_in(v, n),
        ensures
            exists|k: nat| self.least(v, k),
        decreases n,
    {
        if forall|m: nat| m < n ==> !self.reach_in(v, m) {
            assert(self.least(v, n));
        } else {
            let m = choose|m: nat| m < n && self.reach_in(v, m);
            self.lemma_least_exists(v, m);
        }
    }

    /// A cell joined to the first cell has a distance from it.
    pub proof fn lemma_dist(self, v: (int, int))
        requires
            self.joined((0, 0), v),
        ensures
            self.least(v, self.dist(v)),
    {
        let w = choose|w: Seq<(int, int)>| #[trigger] self.is_walk(w) && w[0] == (0int, 0int) && w.last() == v;
        assert(self.reach_in(v, (w.len() - 1) as nat));
        self.lemma_least_exists(v, (w.len() - 1) as nat);
    }

    /// A cell other than the first has a passage to its parent, which is
    /// nearer to the first cell.
    pub proof fn lemma_parent(self, v: (int, int))
        requires
            self.joined((0, 0), v),
            v != (0int, 0int),
        ensures
            self.linked(self.parent(v), v),
            self.joined((0, 0), self.parent(v)),
            self.dist(self.parent(v)) < self.dist(v),
    {
        self.lemma_dist(v);
        let d = self.dist(v);
        assert(self.reach_in(v, d));
        let w = self.shortest(v);
        let u = self.parent(v);
        assert(self.step_ok(w, w.len() - 2));
        let short = w.drop_last();
        assert forall|i: int| 0 <= i < short.len() - 1 implies #[trigger] self.step_ok(short, i) by {
            assert(self.step_ok(w, i));
        }
        assert(self.is_walk(short));
        assert(short[0] == (0int, 0int) && short.last() == u && short.len() == (d - 1) as nat + 1);
        assert(self.reach_in(u, (d - 1) as nat));
        assert(self.joined((0, 0), u));
        self.lemma_dist(u);
        if self.dist(u) >= d {
            assert(!self.reach_in(u, (d - 1) as nat));
        }
    }

    /// A connected plan has at least one passage fewer than cells.
    pub proof fn lemma_connected_needs(self)
        requires
            self.wf(),
            self.connected(),
        ensures
            self.open.finite(),
            self.open.len() + 1 >= self.size(),
    {
        let origin = (0int, 0int);
        let others = rect(self.width, self.height).remove(origin);
        let own = |v: (int, int)| edge_between(self.parent(v), v);
        self.lemma_open_finite();
        lemma_rect_len(self.width, self.height);
        assert forall|a: (int, int), b: (int, int)|
            others.contains(a) && others.contains(b) && #[trigger] own(a) == #[trigger] own(b) implies a == b by {
            assert(self.joined(origin, a));
            assert(self.joined(origin, b));
            self.lemma_parent(a);
            self.lemma_parent(b);
            if a != b {
                lemma_edge_ends(self.parent(a), a, self.parent(b), b);
            }
        }
        assert(injective_on(own, others));
        lemma_map_size(others, others.map(own), own);
        assert forall|e: Edge| others.map(own).contains(e) implies self.open.contains(e) by {
            let v = choose|v: (int, int)| others.contains(v) && e == own(v);
            assert(self.joined(origin, v));
            self.lemma_parent(v);
        }
        lemma_len_subset(others.map(own), self.open);
    }

    /// The passages of a perfect maze form no cycle.
    pub proof fn lemma_perfect_acyclic(self)
        requires
            self.is_perfect(),
        ensures
            self.acyclic(),
    {
        assert forall|c: Seq<(int, int)>| !#[trigger] self.is_cycle(c) by {
            if self.is_cycle(c) {
                self.lemma_cycle_spare(c);
            }
        }
    }

    /// A connected plan with a cycle has at least as many passages as
    /// cells.
    pub proof fn lemma_cycle_spare(self, c: Seq<(int, int)>)
        requires
            self.wf(),
            self.connected(),
            self.is_cycle(c),
        ensures
            self.open.len() >= self.size(),
    {
        let k = c.len() as int;
        let a = c[0];
        let b = c[1];
        let e = edge_between(a, b);
        let q = self.without_edge(e);
        self.lemma_open_finite();
        assert(self.turn_ok(c, 0));
        assert(self.open.contains(e));
        // The rest of the cycle leads from `b` back to `a`.
        let detour = c.subrange(1, k).push(a);
        assert forall|i: int| 0 <= i < detour.len() - 1 implies #[trigger] q.step_ok(detour, i) by {
            assert(self.turn_ok(c, i + 1));
            let s = c[i + 1];
            let t = after(c, i + 1);
            assert(detour[i] == s);
            assert(detour[i + 1] == t);
            if edge_between(s, t) == e {
                lemma_edge_ends(s, t, a, b);
            }
        }
        assert(self.turn_ok(c, 1));
        assert(q.is_walk(detour));
        assert(detour[0] == b && detour.last() == a);
        assert(q.joined(b, a));
        q.lemma_joined_sym(b, a);
        assert forall|s: (int, int), t: (int, int)| #[trigger] self.linked(s, t) implies q.joined(s, t) by {
            if edge_between(s, t) == e {
                lemma_edge_ends(s, t, a, b);
            } else {
                assert(q.linked(s, t));
                q.lemma_joined_link(s, t);
            }
        }
        self.lemma_reroute(q);
        q.lemma_connected_needs();
    }
}

/// An edge has only one pair of ends.
pub proof fn lemma_edge_ends(a: (int, int), b: (int, int), c: (int, int), d: (int, int))
    requires
        adjacent(a, b),
        adjacent(c, d),
        edge_between(a, b) == edge_between(c, d),
    ensures
        (a == c && b == d) || (a == d && b == c),
{
}

} // verus!
