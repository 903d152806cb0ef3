//! Kruskal's algorithm: all walls between cells are visited in random
//! order, and a wall is opened where it separates two cells that no
//! passage joins yet. A union-find structure tells which cells are joined.

use crate::grid::{Direction, Grid};
use crate::plan::{adjacent, edge_between, lemma_spread, rect, Edge, Plan};
use crate::random::shuffle;
use rand::StdRng;
use vstd::arithmetic::div_mod::{lemma_fundamental_div_mod, lemma_mod_bound, lemma_multiply_divide_lt};
use vstd::prelude::*;
use vstd::set_lib::lemma_int_range;

verus! {

/// Disjoint sets of cells as a forest in an array: the entry of a cell is
/// the index of its parent, or its own index where the cell leads its set.
/// The cell `(x, y)` has the index `y * width + x`.
///
/// `roots` records the leader of every cell, and `ranks` a number that
/// grows along every parent link, so that the walk to the leader is finite.
pub struct Sets {
    pub width: usize,
    pub cells: Vec<usize>,
    pub roots: Ghost<Seq<int>>,
    pub ranks: Ghost<Seq<nat>>,
    pub limit: Ghost<nat>,
}

impl Sets {
    /// The number of cells.
    pub open spec fn size(&self) -> int {
        self.cells@.len() as int
    }

    /// The index of the cell `(x, y)`.
    pub open spec fn index(&self, x: int, y: int) -> int {
        y * self.width + x
    }

    /// The leader of the set that holds the cell with index `i`.
    pub open spec fn find(&self, i: int) -> int {
        self.roots@[i]
    }

    /// The indices of the cells that lead a set: one for each set.
    pub open spec fn leaders(&self) -> Set<int> {
        Set::new(|i: int| 0 <= i < self.size() && self.find(i) == i)
    }

    /// What holds of the entry of the cell with index `i`: its parent and
    /// its leader are cells, the leader leads itself and the parent too,
    /// and the rank grows towards the parent.
    pub open spec fn entry_ok(&self, i: int) -> bool {
        &&& 0 <= self.cells@[i] < self.size()
        &&& 0 <= self.roots@[i] < self.size()
        &&& self.cells@[self.roots@[i]] == self.roots@[i]
        &&& self.roots@[self.roots@[i]] == self.roots@[i]
        &&& self.roots@[self.cells@[i] as int] == self.roots@[i]
        &&& (self.cells@[i] == i ==> self.roots@[i] == i)
        &&& (self.cells@[i] != i ==> self.ranks@[self.cells@[i] as int] > self.ranks@[i])
        &&& self.ranks@[i] <= self.limit@
    }

    pub open spec fn wf(&self) -> bool {
        &&& self.width >= 1
        &&& self.roots@.len() == self.size()
        &&& self.ranks@.len() == self.size()
        &&& forall|i: int| 0 <= i < self.size() ==> #[trigger] self.entry_ok(i)
    }

    /// Every cell in a set of its own: the entry of each cell is its own
    /// index.
    pub fn new(width: usize, height: usize) -> (sets: Sets)
        requires
            width >= 1,
        ensures
            sets.wf(),
            sets.width == width,
            sets.size() == width * height,
            forall|i: int| 0 <= i < sets.size() ==> sets.find(i) == i,
    {
        let mut cells: Vec<usize> = Vec::new();
        let mut y: usize = 0;
        proof {
            assert(0 * width == 0) by (nonlinear_arith);
        }
        while y < height
            invariant
                y <= height,
                cells@.len() == y * width,
                forall|k: int| 0 <= k < cells@.len() ==> cells@[k] == k,
            decreases height - y,
        {
            let mut x: usize = 0;
            while x < width
                invariant
                    x <= width,
                    cells@.len() == y * width + x,
                    forall|k: int| 0 <= k < cells@.len() ==> cells@[k] == k,
                decreases width - x,
            {
                let index = cells.len();
                cells.push(index);
                x += 1;
            }
            proof {
                assert(y * width + width == (y + 1) * width) by (nonlinear_arith);
            }
            y += 1;
        }
        proof {
            assert(height * width == width * height) by (nonlinear_arith);
        }
        let ghost size = cells@.len();
        let sets = Sets {
            width,
            cells,
            roots: Ghost(Seq::new(size, |k: int| k)),
            ranks: Ghost(Seq::new(size, |k: int| 0nat)),
            limit: Ghost(0nat),
        };
        proof {
            assert forall|i: int| 0 <= i < sets.size() implies #[trigger] sets.entry_ok(i) by {}
        }
        sets
    }

    /// The leader of the set of `(x, y)`. On the way up every cell passed
    /// is hung under its grandparent; the sets stay what they were.
    pub fn root(&mut self, x: usize, y: usize) -> (l: usize)
        requires
            old(self).wf(),
            0 <= old(self).index(x as int, y as int) < old(self).size(),
        ensures
            final(self).wf(),
            final(self).width == old(self).width,
            final(self).size() == old(self).size(),
            final(self).roots == old(self).roots,
            l == old(self).find(old(self).index(x as int, y as int)),
            l < final(self).size(),
            final(self).cells@[l as int] == l,
    {
        proof {
            assert(0 <= y * self.width <= y * self.width + x) by (nonlinear_arith)
                requires
                    y >= 0,
                    x >= 0,
                    self.width >= 0,
            ;
            assert(y * self.width + x == self.index(x as int, y as int));
        }
        proof {
            assert(self.cells@.len() == self.cells.len());
        }
        let mut l = y * self.width + x;
        let ghost first = l as int;
        while self.cells[l] != l
            invariant
                self.wf(),
                self.width == old(self).width,
                self.size() == old(self).size(),
                self.roots == old(self).roots,
                0 <= l < self.size(),
                self.find(l as int) == self.find(first),
            decreases self.limit@ - self.ranks@[l as int],
        {
            let ghost before = *self;
            proof {
                assert(before.entry_ok(l as int));
            }
            let parent = self.cells[l];
            proof {
                assert(before.entry_ok(parent as int));
            }
            let grandparent = self.cells[parent];
            self.cells[l] = grandparent;
            proof {
                assert(before.entry_ok(grandparent as int));
                assert(self.ranks == before.ranks);
                assert(self.limit == before.limit);
                assert(self.cells@ == before.cells@.update(l as int, grandparent));
                assert forall|i: int| 0 <= i < self.size() implies #[trigger] self.entry_ok(i) by {
                    assert(before.entry_ok(i));
                    assert(before.entry_ok(before.roots@[i]));
                }
            }
            l = self.cells[l];
        }
        proof {
            assert(self.entry_ok(l as int));
            assert(self.entry_ok(first));
        }
        l
    }

    /// Unites the set of `(sx, sy)` with the set of `(fx, fy)`, whose
    /// leader then leads both, unless the two cells are in one set
    /// already. Says whether the sets were united.
    pub fn reparent(&mut self, fx: usize, fy: usize, sx: usize, sy: usize) -> (result: bool)
        requires
            old(self).wf(),
            0 <= old(self).index(fx as int, fy as int) < old(self).size(),
            0 <= old(self).index(sx as int, sy as int) < old(self).size(),
        ensures
            final(self).wf(),
            final(self).width == old(self).width,
            final(self).size() == old(self).size(),
            result == (old(self).find(old(self).index(fx as int, fy as int)) != old(self).find(
                old(self).index(sx as int, sy as int),
            )),
            forall|i: int|
                0 <= i < old(self).size() ==> #[trigger] final(self).find(i) == if old(self).find(i) == old(self).find(
                    old(self).index(sx as int, sy as int),
                ) {
                    old(self).find(old(self).index(fx as int, fy as int))
                } else {
                    old(self).find(i)
                },
    {
        let mut result = false;
        let parent = self.root(fx, fy);
        let child = self.root(sx, sy);
        if parent != child {
            let ghost before = *self;
            self.cells[child] = parent;
            proof {
                self.roots = Ghost(
                    Seq::new(
                        before.roots@.len(),
                        |i: int|
                            if before.roots@[i] == child {
                                parent as int
                            } else {
                                before.roots@[i]
                            },
                    ),
                );
                self.limit = Ghost(before.limit@ + 1);
                self.ranks = Ghost(before.ranks@.update(parent as int, before.limit@ + 1));
                assert(before.entry_ok(before.index(fx as int, fy as int)));
                assert(before.entry_ok(parent as int));
                assert(before.entry_ok(child as int));
                assert(before.cells@[parent as int] == parent);
                assert(before.cells@[child as int] == child);
                assert(self.cells@ == before.cells@.update(child as int, parent));
                assert forall|i: int| 0 <= i < self.size() implies #[trigger] self.entry_ok(i) by {
                    assert(before.entry_ok(i));
                    assert(before.entry_ok(before.roots@[i]));
                    assert(before.entry_ok(before.cells@[i] as int));
                }
            }
            result = true;
        }
        result
    }
}

/// The index `y * width + x` of a cell of the grid is below the number of
/// cells.
pub proof fn lemma_index_bound(width: int, height: int, x: int, y: int)
    requires
        0 <= x < width,
        0 <= y < height,
    ensures
        0 <= y * width + x < width * height,
{
    assert(0 <= y * width && y * width + width <= width * height) by (nonlinear_arith)
        requires
            0 <= y < height,
            0 < width,
    ;
}

/// Every index below the number of cells is the index of a cell.
pub proof fn lemma_index_onto(width: int, height: int, i: int) -> (c: (int, int))
    requires
        0 < width,
        0 <= i < width * height,
    ensures
        rect(width, height).contains(c),
        c.1 * width + c.0 == i,
{
    lemma_fundamental_div_mod(i, width);
    lemma_mod_bound(i, width);
    lemma_multiply_divide_lt(i, width, height);
    assert(0 <= i / width) by (nonlinear_arith)
        requires
            0 <= i,
            0 < width,
    ;
    assert(width * (i / width) == (i / width) * width) by (nonlinear_arith);
    (i % width, i / width)
}

/// The two cells are in one set.
pub open spec fn same_set(sets: Sets, a: (int, int), b: (int, int)) -> bool {
    sets.find(sets.index(a.0, a.1)) == sets.find(sets.index(b.0, b.1))
}

/// The sets are the groups of cells that the passages of the plan join,
/// and there is one passage for every set that was united with another.
pub open spec fn tracks(sets: Sets, p: Plan) -> bool {
    &&& sets.wf()
    &&& sets.width == p.width
    &&& sets.size() == p.width * p.height
    &&& p.wf()
    &&& p.open.finite()
    &&& sets.leaders().finite()
    &&& p.open.len() + sets.leaders().len() == p.size()
    &&& forall|a: (int, int), b: (int, int)|
        p.has_cell(a) && p.has_cell(b) ==> (#[trigger] p.joined(a, b) <==> same_set(sets, a, b))
}

/// Single cells and no passages.
pub proof fn lemma_tracks_start(sets: Sets, p: Plan)
    requires
        sets.wf(),
        p.wf(),
        sets.width == p.width,
        sets.size() == p.width * p.height,
        forall|i: int| 0 <= i < sets.size() ==> sets.find(i) == i,
        p.open == Set::<Edge>::empty(),
    ensures
        tracks(sets, p),
{
    lemma_int_range(0, sets.size());
    assert(sets.leaders() =~= vstd::set_lib::set_int_range(0, sets.size()));
    assert forall|a: (int, int), b: (int, int)| p.has_cell(a) && p.has_cell(b) implies (#[trigger] p.joined(a, b)
        <==> same_set(sets, a, b)) by {
        lemma_index_bound(p.width, p.height, a.0, a.1);
        lemma_index_bound(p.width, p.height, b.0, b.1);
        if p.joined(a, b) && a != b {
            let c = p.lemma_joined_arrives(a, b);
        }
        if same_set(sets, a, b) {
            assert(a.1 * p.width + a.0 == b.1 * p.width + b.0);
            assert(a.1 == b.1) by (nonlinear_arith)
                requires
                    a.1 * p.width + a.0 == b.1 * p.width + b.0,
                    0 <= a.0 < p.width,
                    0 <= b.0 < p.width,
            ;
            p.lemma_joined_refl(a);
        }
    }
}

/// Sets that were rearranged without uniting any keep in step.
pub proof fn lemma_tracks_same(before: Sets, after: Sets, p: Plan)
    requires
        tracks(before, p),
        after.wf(),
        after.width == before.width,
        after.size() == before.size(),
        forall|i: int| 0 <= i < before.size() ==> #[trigger] after.find(i) == before.find(i),
    ensures
        tracks(after, p),
{
    assert(after.leaders() =~= before.leaders());
    assert forall|a: (int, int), b: (int, int)| p.has_cell(a) && p.has_cell(b) implies (#[trigger] p.joined(a, b)
        <==> same_set(after, a, b)) by {
        lemma_index_bound(p.width, p.height, a.0, a.1);
        lemma_index_bound(p.width, p.height, b.0, b.1);
        assert(after.find(before.index(a.0, a.1)) == before.find(before.index(a.0, a.1)));
        assert(after.find(before.index(b.0, b.1)) == before.find(before.index(b.0, b.1)));
        assert(same_set(after, a, b) == same_set(before, a, b));
    }
}

/// Uniting the sets of two adjacent cells that were in different sets, and
/// opening the wall between them, keeps sets and passages in step.
pub proof fn lemma_tracks_union(before: Sets, after: Sets, p: Plan, u: (int, int), v: (int, int))
    requires
        tracks(before, p),
        p.has_cell(u),
        p.has_cell(v),
        adjacent(u, v),
        !same_set(before, u, v),
        after.wf(),
        after.width == before.width,
        after.size() == before.size(),
        forall|i: int|
            0 <= i < before.size() ==> #[trigger] after.find(i) == if before.find(i) == before.find(
                before.index(v.0, v.1),
            ) {
                before.find(before.index(u.0, u.1))
            } else {
                before.find(i)
            },
    ensures
        tracks(after, p.with_edge(edge_between(u, v))),
        !p.open.contains(edge_between(u, v)),
{
    let e = edge_between(u, v);
    let q = p.with_edge(e);
    let iu = before.index(u.0, u.1);
    let iv = before.index(v.0, v.1);
    lemma_index_bound(p.width, p.height, u.0, u.1);
    lemma_index_bound(p.width, p.height, v.0, v.1);
    let parent = before.find(iu);
    let child = before.find(iv);
    assert(before.entry_ok(iu));
    assert(before.entry_ok(iv));
    if p.open.contains(e) {
        assert(p.linked(u, v));
        p.lemma_joined_link(u, v);
    }
    assert((e.from() == u && e.to() == v) || (e.from() == v && e.to() == u));
    assert(q.linked(u, v));
    q.lemma_linked_sym(u, v);
    assert forall|i: int| after.leaders().contains(i) <==> before.leaders().remove(child).contains(i) by {
        if 0 <= i < before.size() {
            assert(before.entry_ok(i));
            assert(after.find(i) == if before.find(i) == child {
                parent
            } else {
                before.find(i)
            });
            assert(before.entry_ok(parent));
        }
    }
    assert(after.leaders() =~= before.leaders().remove(child));
    assert(before.leaders().contains(child));
    assert forall|f: Edge| q.open.contains(f) implies q.has_edge(f) by {
        if f != e {
            assert(p.open.contains(f));
        }
    }
    assert forall|a: (int, int), b: (int, int)| q.has_cell(a) && q.has_cell(b) implies (#[trigger] q.joined(a, b)
        <==> same_set(after, a, b)) by {
        let ia = before.index(a.0, a.1);
        let ib = before.index(b.0, b.1);
        lemma_index_bound(p.width, p.height, a.0, a.1);
        lemma_index_bound(p.width, p.height, b.0, b.1);
        assert(after.find(ia) == if before.find(ia) == child {
            parent
        } else {
            before.find(ia)
        });
        assert(after.find(ib) == if before.find(ib) == child {
            parent
        } else {
            before.find(ib)
        });
        assert(after.find(iu) == parent);
        assert(after.find(iv) == parent);
        if q.joined(a, b) {
            let inv = |c: (int, int)| q.has_cell(c) && same_set(after, a, c);
            assert forall|c: (int, int), d: (int, int)| inv(c) && #[trigger] q.linked(c, d) implies inv(d) by {
                let ic = before.index(c.0, c.1);
                let id = before.index(d.0, d.1);
                lemma_index_bound(p.width, p.height, c.0, c.1);
                lemma_index_bound(p.width, p.height, d.0, d.1);
                assert(after.find(ic) == if before.find(ic) == child {
                    parent
                } else {
                    before.find(ic)
                });
                assert(after.find(id) == if before.find(id) == child {
                    parent
                } else {
                    before.find(id)
                });
                if edge_between(c, d) == e {
                    assert((c == u && d == v) || (c == v && d == u));
                } else {
                    assert(p.linked(c, d));
                    p.lemma_joined_link(c, d);
                    assert(same_set(before, c, d));
                }
            }
            q.lemma_carried(inv, a, b);
        }
        if same_set(after, a, b) {
            if before.find(ia) == before.find(ib) {
                assert(same_set(before, a, b));
                assert(p.joined(a, b));
                p.lemma_joined_mono(q, a, b);
            } else if before.find(ia) == child {
                assert(same_set(before, a, v));
                assert(same_set(before, u, b));
                assert(p.joined(a, v));
                assert(p.joined(u, b));
                p.lemma_joined_mono(q, a, v);
                p.lemma_joined_mono(q, u, b);
                q.lemma_joined_snoc(a, v, u);
                q.lemma_joined_trans(a, u, b);
            } else {
                assert(same_set(before, a, u));
                assert(same_set(before, v, b));
                assert(p.joined(a, u));
                assert(p.joined(v, b));
                p.lemma_joined_mono(q, a, u);
                p.lemma_joined_mono(q, v, b);
                q.lemma_joined_snoc(a, u, v);
                q.lemma_joined_trans(a, v, b);
            }
        }
    }
}

/// Once any two adjacent cells are in one set, the passages form a
/// spanning tree.
pub proof fn lemma_tracks_perfect(sets: Sets, p: Plan)
    requires
        tracks(sets, p),
        forall|c: (int, int), d: (int, int)|
            p.has_cell(c) && p.has_cell(d) && #[trigger] adjacent(c, d) ==> same_set(sets, c, d),
    ensures
        p.is_perfect(),
{
    let origin = (0int, 0int);
    let s = Set::new(|c: (int, int)| same_set(sets, origin, c));
    assert forall|c: (int, int)| p.has_cell(c) implies #[trigger] p.joined(origin, c) by {
        lemma_spread(p.width, p.height, s, origin, c);
    }
    p.lemma_connected_via(origin);
    lemma_index_bound(p.width, p.height, 0, 0);
    let r = sets.find(sets.index(0, 0));
    assert(sets.entry_ok(sets.index(0, 0)));
    assert forall|i: int| sets.leaders().contains(i) <==> set![r].contains(i) by {
        if sets.leaders().contains(i) {
            let c = lemma_index_onto(p.width, p.height, i);
            assert(p.joined(origin, c));
            assert(same_set(sets, origin, c));
        }
    }
    assert(sets.leaders() =~= set![r]);
}

/// A wall between two cells of the grid, named by the cell on its northern
/// or western side and the direction, south or east, in which it lies.
pub open spec fn inner_wall(width: int, height: int, e: (usize, usize, Direction)) -> bool {
    ||| (e.2 == Direction::South && e.0 < width && e.1 + 1 < height)
    ||| (e.2 == Direction::East && e.0 + 1 < width && e.1 < height)
}

/// Every wall between two cells of the grid, once: for each cell the one to
/// its south and the one to its east, where the grid goes on there.
pub fn collect_edges(width: usize, height: usize) -> (edges: Vec<(usize, usize, Direction)>)
    requires
        width >= 1,
        height >= 1,
    ensures
        forall|k: int| 0 <= k < edges@.len() ==> inner_wall(width as int, height as int, #[trigger] edges@[k]),
        forall|e: (usize, usize, Direction)| inner_wall(width as int, height as int, e) ==> edges@.contains(e),
        edges@.no_duplicates(),
{
    let mut edges: Vec<(usize, usize, Direction)> = Vec::new();
    let mut y: usize = 0;
    while y < height
        invariant
            y <= height,
            forall|k: int| 0 <= k < edges@.len() ==> inner_wall(width as int, height as int, #[trigger] edges@[k]),
            forall|k: int| 0 <= k < edges@.len() ==> (#[trigger] edges@[k]).1 < y,
            forall|e: (usize, usize, Direction)|
                inner_wall(width as int, height as int, e) && e.1 < y ==> edges@.contains(e),
            edges@.no_duplicates(),
        decreases height - y,
    {
        let mut x: usize = 0;
        while x < width
            invariant
                y < height,
                x <= width,
                forall|k: int| 0 <= k < edges@.len() ==> inner_wall(width as int, height as int, #[trigger] edges@[k]),
                forall|k: int|
                    0 <= k < edges@.len() ==> (#[trigger] edges@[k]).1 < y || (edges@[k].1 == y && edges@[k].0 < x),
                forall|e: (usize, usize, Direction)|
                    inner_wall(width as int, height as int, e) && (e.1 < y || (e.1 == y && e.0 < x))
                        ==> edges@.contains(e),
                edges@.no_duplicates(),
            decreases width - x,
        {
            let ghost earlier = edges@;
            if y < height - 1 {
                edges.push((x, y, Direction::South));
            }
            let ghost between = edges@;
            if x < width - 1 {
                edges.push((x, y, Direction::East));
            }
            proof {
                assert forall|e: (usize, usize, Direction)|
                    inner_wall(width as int, height as int, e) && (e.1 < y || (e.1 == y && e.0 < x + 1))
                    implies edges@.contains(e) by {
                    if e.1 < y || (e.1 == y && e.0 < x) {
                        assert(earlier.contains(e));
                        let k = choose|k: int| 0 <= k < earlier.len() && earlier[k] == e;
                        assert(edges@[k] == e);
                    } else if e.2 == Direction::South {
                        assert(between[earlier.len() as int] == e);
                        assert(edges@[earlier.len() as int] == e);
                    } else {
                        assert(edges@[edges@.len() - 1] == e);
                    }
                }
            }
            x += 1;
        }
        y += 1;
    }
    edges
}

/// The cell on the far side of an inner wall.
pub open spec fn far_side(e: (usize, usize, Direction)) -> (int, int) {
    (e.0 + e.2.dx(), e.1 + e.2.dy())
}

/// Generates a perfect maze by Kruskal's algorithm.
pub fn run(width: usize, height: usize, rng: &mut StdRng) -> (grid: Grid)
    requires
        width >= 1,
        height >= 1,
    ensures
        grid.wf(),
        grid.width == width,
        grid.height == height,
        grid.sealed(),
        grid.plan().is_perfect(),
        grid.plan().acyclic(),
{
    let mut grid = Grid::new(width, height, true);
    let mut sets = Sets::new(width, height);
    let mut edges = collect_edges(width, height);
    let ghost listed = edges@;
    shuffle(rng, &mut edges);
    proof {
        listed.to_multiset_ensures();
        edges@.to_multiset_ensures();
        assert forall|k: int| 0 <= k < edges@.len() implies inner_wall(
            width as int,
            height as int,
            #[trigger] edges@[k],
        ) by {
            let e = edges@[k];
            assert(edges@.contains(e));
            assert(edges@.to_multiset().count(e) > 0);
            assert(listed.to_multiset().count(e) > 0);
            assert(listed.contains(e));
        }
        assert forall|e: (usize, usize, Direction)| inner_wall(width as int, height as int, e) implies edges@.contains(
            e,
        ) by {
            assert(listed.contains(e));
            assert(listed.to_multiset().count(e) > 0);
            assert(edges@.to_multiset().count(e) > 0);
        }
        grid.lemma_plan_wf();
        lemma_tracks_start(sets, grid.plan());
    }
    let mut i: usize = 0;
    while i < edges.len()
        invariant
            i <= edges@.len(),
            grid.wf(),
            grid.sealed(),
            grid.width == width,
            grid.height == height,
            tracks(sets, grid.plan()),
            forall|k: int| 0 <= k < edges@.len() ==> inner_wall(width as int, height as int, #[trigger] edges@[k]),
            forall|k: int|
                0 <= k < i ==> same_set(sets, ((#[trigger] edges@[k]).0 as int, edges@[k].1 as int), far_side(edges@[k])),
        decreases edges@.len() - i,
    {
        let (x, y, dir) = edges[i];
        let ghost before = grid;
        let ghost sets_before = sets;
        let ghost u = (x as int, y as int);
        proof {
            assert(inner_wall(width as int, height as int, edges@[i as int]));
            lemma_index_bound(width as int, height as int, x as int, y as int);
        }
        if let Some((nx, ny)) = grid.cell_at(x, y, dir) {
            let ghost v = (nx as int, ny as int);
            proof {
                lemma_index_bound(width as int, height as int, nx as int, ny as int);
            }
            if sets.reparent(x, y, nx, ny) {
                grid.open(x, y, dir);
                proof {
                    lemma_tracks_union(sets_before, sets, before.plan(), u, v);
                    before.lemma_sealed_kept(grid, x as int, y as int, dir, false);
                }
            } else {
                proof {
                    lemma_tracks_same(sets_before, sets, grid.plan());
                }
            }
            proof {
                assert(same_set(sets, u, v));
                assert forall|k: int| 0 <= k < i implies same_set(
                    sets,
                    ((#[trigger] edges@[k]).0 as int, edges@[k].1 as int),
                    far_side(edges@[k]),
                ) by {
                    let a = (edges@[k].0 as int, edges@[k].1 as int);
                    let b = far_side(edges@[k]);
                    assert(inner_wall(width as int, height as int, edges@[k]));
                    assert(same_set(sets_before, a, b));
                    lemma_index_bound(width as int, height as int, a.0, a.1);
                    lemma_index_bound(width as int, height as int, b.0, b.1);
                }
            }
        }
        i += 1;
    }
    proof {
        let p = grid.plan();
        assert forall|c: (int, int), d: (int, int)|
            p.has_cell(c) && p.has_cell(d) && #[trigger] adjacent(c, d) implies same_set(sets, c, d) by {
            let e = edge_between(c, d);
            let w: (usize, usize, Direction) = (
                e.x as usize,
                e.y as usize,
                if e.east {
                    Direction::East
                } else {
                    Direction::South
                },
            );
            assert(inner_wall(width as int, height as int, w));
            assert(edges@.contains(w));
            let k = choose|k: int| 0 <= k < edges@.len() && edges@[k] == w;
            assert(same_set(sets, (edges@[k].0 as int, edges@[k].1 as int), far_side(edges@[k])));
        }
        lemma_tracks_perfect(sets, p);
    }
    proof {
        grid.plan().lemma_perfect_acyclic();
    }
    grid
}

} // verus!
