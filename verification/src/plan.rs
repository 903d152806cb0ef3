//! The passages of a maze seen as a graph: the cells of the grid are the
//! vertices and every open wall between two neighbouring cells is an edge.
//!
//! Everything here is ghost code; the executable grid maps to a [`Plan`]
//! through `Grid::plan`.

use vstd::prelude::*;
use vstd::relations::injective_on;
use vstd::set_lib::*;

verus! {

/// The place between two neighbouring cells, named by its western or
/// northern cell: the edge leads east from `(x, y)`, or else south.
pub struct Edge {
    pub x: int,
    pub y: int,
    pub east: bool,
}

impl Edge {
    pub open spec fn from(self) -> (int, int) {
        (self.x, self.y)
    }

    pub open spec fn to(self) -> (int, int) {
        if self.east {
            (self.x + 1, self.y)
        } else {
            (self.x, self.y + 1)
        }
    }
}

/// Two cells that differ by one step in exactly one coordinate.
pub open spec fn adjacent(a: (int, int), b: (int, int)) -> bool {
    ||| (a.1 == b.1 && (a.0 + 1 == b.0 || b.0 + 1 == a.0))
    ||| (a.0 == b.0 && (a.1 + 1 == b.1 || b.1 + 1 == a.1))
}

/// The edge that joins two adjacent cells, whichever is given first.
pub open spec fn edge_between(a: (int, int), b: (int, int)) -> Edge {
    if a.1 == b.1 {
        Edge { x: if a.0 <= b.0 { a.0 } else { b.0 }, y: a.1, east: true }
    } else {
        Edge { x: a.0, y: if a.1 <= b.1 { a.1 } else { b.1 }, east: false }
    }
}

/// All cells of a `width` x `height` grid.
pub open spec fn rect(width: int, height: int) -> Set<(int, int)> {
    Set::new(|c: (int, int)| 0 <= c.0 < width && 0 <= c.1 < height)
}

/// A grid's dimensions together with the set of its open passages.
pub struct Plan {
    pub width: int,
    pub height: int,
    pub open: Set<Edge>,
}

impl Plan {
    pub open spec fn has_cell(self, c: (int, int)) -> bool {
        0 <= c.0 < self.width && 0 <= c.1 < self.height
    }

    /// Both ends of `e` are cells of the grid.
    pub open spec fn has_edge(self, e: Edge) -> bool {
        self.has_cell(e.from()) && self.has_cell(e.to())
    }

    pub open spec fn wf(self) -> bool {
        &&& self.width >= 1
        &&& self.height >= 1
        &&& forall|e: Edge| #[trigger] self.open.contains(e) ==> self.has_edge(e)
    }

    /// The number of cells.
    pub open spec fn size(self) -> int {
        self.width * self.height
    }

    /// There is an open passage directly from `a` to `b`.
    pub open spec fn linked(self, a: (int, int), b: (int, int)) -> bool {
        &&& self.has_cell(a)
        &&& self.has_cell(b)
        &&& adjacent(a, b)
        &&& self.open.contains(edge_between(a, b))
    }

    pub open spec fn step_ok(self, w: Seq<(int, int)>, i: int) -> bool {
        self.linked(w[i], w[i + 1])
    }

    /// `w` lists the cells of a walk through open passages.
    pub open spec fn is_walk(self, w: Seq<(int, int)>) -> bool {
        &&& w.len() >= 1
        &&& self.has_cell(w[0])
        &&& forall|i: int| 0 <= i < w.len() - 1 ==> #[trigger] self.step_ok(w, i)
    }

    /// Some walk through open passages leads from `a` to `b`.
    pub open spec fn joined(self, a: (int, int), b: (int, int)) -> bool {
        exists|w: Seq<(int, int)>| #[trigger] self.is_walk(w) && w[0] == a && w.last() == b
    }

    /// Every cell can be reached from every other.
    pub open spec fn connected(self) -> bool {
        forall|a: (int, int), b: (int, int)|
            self.has_cell(a) && self.has_cell(b) ==> #[trigger] self.joined(a, b)
    }

    /// The passages form a spanning tree of the grid: all cells are
    /// connected, through one passage fewer than there are cells.
    pub open spec fn is_perfect(self) -> bool {
        &&& self.wf()
        &&& self.connected()
        &&& self.open.len() + 1 == self.size()
    }

    /// The plan with one more open passage.
    pub open spec fn with_edge(self, e: Edge) -> Plan {
        Plan { open: self.open.insert(e), ..self }
    }

    /// The plan with one passage walled up.
    pub open spec fn without_edge(self, e: Edge) -> Plan {
        Plan { open: self.open.remove(e), ..self }
    }

    pub proof fn lemma_linked_sym(self, a: (int, int), b: (int, int))
        requires
            self.linked(a, b),
        ensures
            self.linked(b, a),
    {
        assert(edge_between(a, b) == edge_between(b, a));
    }

    pub proof fn lemma_joined_refl(self, a: (int, int))
        requires
            self.has_cell(a),
        ensures
            self.joined(a, a),
    {
        let w = seq![a];
        assert(self.is_walk(w));
        assert(w[0] == a && w.last() == a);
    }

    /// A walk can be prolonged by one passage at its end.
    pub proof fn lemma_joined_snoc(self, a: (int, int), b: (int, int), c: (int, int))
        requires
            self.joined(a, b),
            self.linked(b, c),
        ensures
            self.joined(a, c),
    {
        let w = choose|w: Seq<(int, int)>| #[trigger] self.is_walk(w) && w[0] == a && w.last() == b;
        let v = w.push(c);
        assert forall|i: int| 0 <= i < v.len() - 1 implies #[trigger] self.step_ok(v, i) by {
            if i < w.len() - 1 {
                assert(self.step_ok(w, i));
            }
        }
        assert(self.is_walk(v));
        assert(v[0] == a && v.last() == c);
    }

    /// A walk can be prolonged by one passage at its start.
    pub proof fn lemma_joined_cons(self, a: (int, int), b: (int, int), c: (int, int))
        requires
            self.linked(a, b),
            self.joined(b, c),
        ensures
            self.joined(a, c),
    {
        let w = choose|w: Seq<(int, int)>| #[trigger] self.is_walk(w) && w[0] == b && w.last() == c;
        let v = seq![a] + w;
        assert forall|i: int| 0 <= i < v.len() - 1 implies #[trigger] self.step_ok(v, i) by {
            if i >= 1 {
                assert(self.step_ok(w, i - 1));
            }
        }
        assert(self.is_walk(v));
        assert(v[0] == a && v.last() == c);
    }

    /// A property that holds at the start of a walk and is carried across
    /// every open passage holds at each cell of the walk.
    pub proof fn lemma_along(self, w: Seq<(int, int)>, inv: spec_fn((int, int)) -> bool, k: int)
        requires
            self.is_walk(w),
            inv(w[0]),
            forall|a: (int, int), b: (int, int)| inv(a) && #[trigger] self.linked(a, b) ==> inv(b),
            0 <= k < w.len(),
        ensures
            inv(w[k]),
        decreases k,
    {
        if k > 0 {
            self.lemma_along(w, inv, k - 1);
            assert(self.step_ok(w, k - 1));
        }
    }

    /// A property carried across every open passage spreads from a cell to
    /// all cells joined to it.
    pub proof fn lemma_carried(self, inv: spec_fn((int, int)) -> bool, a: (int, int), b: (int, int))
        requires
            self.joined(a, b),
            inv(a),
            forall|c: (int, int), d: (int, int)| inv(c) && #[trigger] self.linked(c, d) ==> inv(d),
        ensures
            inv(b),
    {
        let w = choose|w: Seq<(int, int)>| #[trigger] self.is_walk(w) && w[0] == a && w.last() == b;
        self.lemma_along(w, inv, w.len() - 1);
    }

    pub proof fn lemma_joined_cells(self, a: (int, int), b: (int, int))
        requires
            self.joined(a, b),
        ensures
            self.has_cell(a),
            self.has_cell(b),
    {
        let inv = |c: (int, int)| self.has_cell(c);
        self.lemma_carried(inv, a, b);
    }

    pub proof fn lemma_joined_trans(self, a: (int, int), b: (int, int), c: (int, int))
        requires
            self.joined(a, b),
            self.joined(b, c),
        ensures
            self.joined(a, c),
    {
        let inv = |d: (int, int)| self.joined(a, d);
        assert forall|d: (int, int), e: (int, int)| inv(d) && #[trigger] self.linked(d, e) implies inv(e) by {
            self.lemma_joined_snoc(a, d, e);
        }
        self.lemma_carried(inv, b, c);
    }

    pub proof fn lemma_joined_sym(self, a: (int, int), b: (int, int))
        requires
            self.joined(a, b),
        ensures
            self.joined(b, a),
    {
        let inv = |d: (int, int)| self.joined(d, a);
        assert forall|d: (int, int), e: (int, int)| inv(d) && #[trigger] self.linked(d, e) implies inv(e) by {
            self.lemma_linked_sym(d, e);
            self.lemma_joined_cons(e, d, a);
        }
        self.lemma_joined_cells(a, b);
        self.lemma_joined_refl(a);
        self.lemma_carried(inv, a, b);
    }

    /// Two cells with a passage between them are joined.
    pub proof fn lemma_joined_link(self, a: (int, int), b: (int, int))
        requires
            self.linked(a, b),
        ensures
            self.joined(a, b),
    {
        self.lemma_joined_refl(a);
        self.lemma_joined_snoc(a, a, b);
    }

    /// Opening more passages keeps joined cells joined.
    pub proof fn lemma_joined_mono(self, more: Plan, a: (int, int), b: (int, int))
        requires
            self.joined(a, b),
            more.width == self.width,
            more.height == self.height,
            self.open.subset_of(more.open),
        ensures
            more.joined(a, b),
    {
        let inv = |d: (int, int)| more.joined(a, d);
        assert forall|d: (int, int), e: (int, int)| inv(d) && #[trigger] self.linked(d, e) implies inv(e) by {
            assert(more.linked(d, e));
            more.lemma_joined_snoc(a, d, e);
        }
        self.lemma_joined_cells(a, b);
        more.lemma_joined_refl(a);
        self.lemma_carried(inv, a, b);
    }

    /// A walk between two different cells ends with a passage into its last
    /// cell.
    pub proof fn lemma_joined_arrives(self, a: (int, int), c: (int, int)) -> (b: (int, int))
        requires
            self.joined(a, c),
            a != c,
        ensures
            self.linked(b, c),
    {
        let w = choose|w: Seq<(int, int)>| #[trigger] self.is_walk(w) && w[0] == a && w.last() == c;
        assert(self.step_ok(w, w.len() - 2));
        w[w.len() - 2]
    }

    /// Where every two adjacent cells of a box have a passage between
    /// them, any two cells of the box are joined.
    pub proof fn lemma_box_joined(self, x0: int, x1: int, y0: int, y1: int, a: (int, int), b: (int, int))
        requires
            in_box(x0, x1, y0, y1, a),
            in_box(x0, x1, y0, y1, b),
            self.has_cell(a),
            forall|c: (int, int), d: (int, int)|
                in_box(x0, x1, y0, y1, c) && in_box(x0, x1, y0, y1, d) && #[trigger] adjacent(c, d) ==> self.linked(
                    c,
                    d,
                ),
        ensures
            self.joined(a, b),
    {
        let s = Set::new(|c: (int, int)| self.joined(a, c));
        self.lemma_joined_refl(a);
        assert forall|c: (int, int), d: (int, int)|
            s.contains(c) && in_box(x0, x1, y0, y1, c) && in_box(x0, x1, y0, y1, d) && #[trigger] adjacent(
                c,
                d,
            ) implies s.contains(d) by {
            self.lemma_joined_snoc(a, c, d);
        }
        lemma_spread_box(x0, x1, y0, y1, s, a, b);
    }

    /// A connected plan stays connected when passages are walled up whose
    /// two ends remain joined some other way.
    pub proof fn lemma_reroute(self, fewer: Plan)
        requires
            self.connected(),
            fewer.width == self.width,
            fewer.height == self.height,
            forall|c: (int, int), d: (int, int)| #[trigger] self.linked(c, d) ==> fewer.joined(c, d),
        ensures
            fewer.connected(),
    {
        assert forall|a: (int, int), b: (int, int)| fewer.has_cell(a) && fewer.has_cell(b) implies #[trigger] fewer.joined(
            a,
            b,
        ) by {
            let inv = |c: (int, int)| fewer.joined(a, c);
            assert forall|c: (int, int), d: (int, int)| inv(c) && #[trigger] self.linked(c, d) implies inv(d) by {
                fewer.lemma_joined_trans(a, c, d);
            }
            fewer.lemma_joined_refl(a);
            assert(self.joined(a, b));
            self.lemma_carried(inv, a, b);
        }
    }

    /// All edges between cells of the grid, open or not.
    pub open spec fn all_edges(self) -> Set<Edge> {
        Set::new(|e: Edge| self.has_edge(e))
    }

    /// A grid of `width * height` cells has `(width - 1) * height` edges
    /// that lead east and `width * (height - 1)` that lead south.
    pub proof fn lemma_all_edges_len(self)
        requires
            self.width >= 1,
            self.height >= 1,
        ensures
            self.all_edges().finite(),
            self.all_edges().len() == (self.width - 1) * self.height + self.width * (self.height - 1),
    {
        broadcast use group_set_properties;

        let to_east = |c: (int, int)| Edge { x: c.0, y: c.1, east: true };
        let to_south = |c: (int, int)| Edge { x: c.0, y: c.1, east: false };
        let from_east = rect(self.width - 1, self.height);
        let from_south = rect(self.width, self.height - 1);
        let east = from_east.map(to_east);
        let south = from_south.map(to_south);
        lemma_rect_len(self.width - 1, self.height);
        lemma_rect_len(self.width, self.height - 1);
        assert(injective_on(to_east, from_east));
        assert(injective_on(to_south, from_south));
        lemma_map_size(from_east, east, to_east);
        lemma_map_size(from_south, south, to_south);
        assert forall|e: Edge| self.all_edges().contains(e) <==> (east + south).contains(e) by {
            if self.has_edge(e) {
                if e.east {
                    assert(from_east.contains((e.x, e.y)));
                    assert(to_east((e.x, e.y)) == e);
                } else {
                    assert(from_south.contains((e.x, e.y)));
                    assert(to_south((e.x, e.y)) == e);
                }
            }
        }
        assert(self.all_edges() =~= east + south);
        assert(east.disjoint(south));
        lemma_set_disjoint_lens(east, south);
    }

    /// The open passages are finite in number.
    pub proof fn lemma_open_finite(self)
        requires
            self.wf(),
        ensures
            self.open.finite(),
            self.open.len() <= self.all_edges().len(),
    {
        self.lemma_all_edges_len();
        assert(self.open.subset_of(self.all_edges()));
        lemma_len_subset(self.open, self.all_edges());
    }

    /// If everything is joined to one cell, the plan is connected.
    pub proof fn lemma_connected_via(self, root: (int, int))
        requires
            forall|c: (int, int)| self.has_cell(c) ==> #[trigger] self.joined(root, c),
        ensures
            self.connected(),
    {
        assert forall|a: (int, int), b: (int, int)| self.has_cell(a) && self.has_cell(b) implies #[trigger] self.joined(
            a,
            b,
        ) by {
            assert(self.joined(root, a));
            assert(self.joined(root, b));
            self.lemma_joined_sym(root, a);
            self.lemma_joined_trans(a, root, b);
        }
    }
}

/// A set of cells that holds one cell of the grid, and with each of its
/// cells all the neighbours of that cell, holds every cell of the grid.
pub proof fn lemma_spread(width: int, height: int, s: Set<(int, int)>, a: (int, int), b: (int, int))
    requires
        rect(width, height).contains(a),
        rect(width, height).contains(b),
        s.contains(a),
        forall|c: (int, int), d: (int, int)|
            s.contains(c) && rect(width, height).contains(c) && rect(width, height).contains(d) && #[trigger] adjacent(
                c,
                d,
            ) ==> s.contains(d),
    ensures
        s.contains(b),
    decreases (if b.0 >= a.0 { b.0 - a.0 } else { a.0 - b.0 }) + (if b.1 >= a.1 { b.1 - a.1 } else { a.1 - b.1 }),
{
    if b != a {
        let c: (int, int) = if b.0 > a.0 {
            (b.0 - 1, b.1)
        } else if b.0 < a.0 {
            (b.0 + 1, b.1)
        } else if b.1 > a.1 {
            (b.0, b.1 - 1)
        } else {
            (b.0, b.1 + 1)
        };
        lemma_spread(width, height, s, a, c);
        assert(adjacent(c, b));
    }
}

/// The cell lies in the box of the columns `x0..=x1` and rows `y0..=y1`.
pub open spec fn in_box(x0: int, x1: int, y0: int, y1: int, c: (int, int)) -> bool {
    x0 <= c.0 <= x1 && y0 <= c.1 <= y1
}

/// A set of cells that holds one cell of a box, and with each of its cells
/// all the neighbours of that cell in the box, holds every cell of the box.
pub proof fn lemma_spread_box(x0: int, x1: int, y0: int, y1: int, s: Set<(int, int)>, a: (int, int), b: (int, int))
    requires
        in_box(x0, x1, y0, y1, a),
        in_box(x0, x1, y0, y1, b),
        s.contains(a),
        forall|c: (int, int), d: (int, int)|
            s.contains(c) && in_box(x0, x1, y0, y1, c) && in_box(x0, x1, y0, y1, d) && #[trigger] adjacent(c, d)
                ==> s.contains(d),
    ensures
        s.contains(b),
    decreases (if b.0 >= a.0 { b.0 - a.0 } else { a.0 - b.0 }) + (if b.1 >= a.1 { b.1 - a.1 } else { a.1 - b.1 }),
{
    if b != a {
        let c: (int, int) = if b.0 > a.0 {
            (b.0 - 1, b.1)
        } else if b.0 < a.0 {
            (b.0 + 1, b.1)
        } else if b.1 > a.1 {
            (b.0, b.1 - 1)
        } else {
            (b.0, b.1 + 1)
        };
        lemma_spread_box(x0, x1, y0, y1, s, a, c);
        assert(adjacent(c, b));
    }
}

/// A `width` x `height` grid has `width * height` cells.
pub proof fn lemma_rect_len(width: int, height: int)
    requires
        0 <= width,
        0 <= height,
    ensures
        rect(width, height).finite(),
        rect(width, height).len() == width * height,
    decreases width,
{
    broadcast use group_set_properties;

    if width == 0 {
        assert(rect(width, height) =~= Set::empty());
    } else {
        lemma_rect_len(width - 1, height);
        let column = Set::new(|c: (int, int)| c.0 == width - 1 && 0 <= c.1 < height);
        lemma_column_len(width - 1, height);
        assert(rect(width, height) =~= rect(width - 1, height) + column);
        assert(rect(width - 1, height).disjoint(column));
        lemma_set_disjoint_lens(rect(width - 1, height), column);
        assert(width * height == (width - 1) * height + height) by (nonlinear_arith);
    }
}

proof fn lemma_column_len(x: int, height: int)
    requires
        0 <= height,
    ensures
        Set::new(|c: (int, int)| c.0 == x && 0 <= c.1 < height).finite(),
        Set::new(|c: (int, int)| c.0 == x && 0 <= c.1 < height).len() == height,
    decreases height,
{
    broadcast use group_set_properties;

    let column = Set::new(|c: (int, int)| c.0 == x && 0 <= c.1 < height);
    if height == 0 {
        assert(column =~= Set::empty());
    } else {
        lemma_column_len(x, height - 1);
        let shorter = Set::new(|c: (int, int)| c.0 == x && 0 <= c.1 < height - 1);
        assert(column =~= shorter.insert((x, height - 1)));
    }
}

} // verus!
