//! Recursive division: the grid starts without inner walls; an area is cut
//! in two by a wall with one gap, and so are the two parts, until every
//! area left is a single corridor.

use crate::grid::{Direction, Grid};
use crate::plan::{adjacent, edge_between, in_box, Edge, Plan};
use crate::random::{gen_range, pick};
use rand::StdRng;
use vstd::prelude::*;
use vstd::relations::injective_on;
use vstd::set_lib::{lemma_int_range, lemma_map_size, set_int_range};

verus! {

/// A straight run of walls: the walls towards `dir` of the cells `low` to
/// `high - 1` of the row `fixed`, where `dir` is north or south, or of the
/// column `fixed`, where it is east or west.
pub struct Line {
    pub fixed: usize,
    pub low: usize,
    pub high: usize,
    pub dir: Direction,
}

/// The cells of the columns `xs..=xe` and the rows `ys..=ye`.
#[derive(Clone, Copy)]
pub struct Area {
    pub xs: usize,
    pub xe: usize,
    pub ys: usize,
    pub ye: usize,
}

impl Line {
    /// The cell number `i` along the line.
    pub open spec fn cell(self, i: int) -> (int, int) {
        match self.dir {
            Direction::North | Direction::South => (i, self.fixed as int),
            Direction::East | Direction::West => (self.fixed as int, i),
        }
    }

    /// The cell on the other side of the wall of cell number `i`.
    pub open spec fn beyond(self, i: int) -> (int, int) {
        (self.cell(i).0 + self.dir.dx(), self.cell(i).1 + self.dir.dy())
    }

    /// All cells of the line are cells of the grid.
    pub open spec fn fits(self, grid: Grid) -> bool {
        &&& self.low <= self.high
        &&& match self.dir {
            Direction::North | Direction::South => self.fixed < grid.height && self.high <= grid.width,
            Direction::East | Direction::West => self.fixed < grid.width && self.high <= grid.height,
        }
    }

    /// The wall flag `(a, b, d)` is on one side of the wall of cell number
    /// `i`.
    pub open spec fn wall_at(self, grid: Grid, i: int, a: int, b: int, d: Direction) -> bool {
        grid.same_wall(self.cell(i).0, self.cell(i).1, self.dir, a, b, d)
    }

    /// The wall flag `(a, b, d)` belongs to one of the cells before number
    /// `upto`.
    pub open spec fn covers(self, grid: Grid, upto: int, a: int, b: int, d: Direction) -> bool {
        exists|i: int| self.low <= i < upto && #[trigger] self.wall_at(grid, i, a, b, d)
    }

    /// The wall of cell number `i` separates two cells of the grid, and `e`
    /// is the edge between them.
    pub open spec fn edge_at(self, grid: Grid, i: int, e: Edge) -> bool {
        grid.in_bounds(self.beyond(i).0, self.beyond(i).1) && edge_between(self.cell(i), self.beyond(i)) == e
    }

    /// The edges that the walls of the cells before number `upto` stand
    /// across.
    pub open spec fn crossed(self, grid: Grid, upto: int) -> Set<Edge> {
        Set::new(|e: Edge| exists|i: int| self.low <= i < upto && #[trigger] self.edge_at(grid, i, e))
    }
}

/// Blocks every wall of the line, on both of its sides.
pub fn close_line(grid: &mut Grid, l: Line)
    requires
        old(grid).wf(),
        l.fits(*old(grid)),
    ensures
        final(grid).wf(),
        final(grid).width == old(grid).width,
        final(grid).height == old(grid).height,
        forall|a: int, b: int, d: Direction|
            old(grid).in_bounds(a, b) ==> #[trigger] final(grid).wall(a, b, d) == (old(grid).wall(a, b, d)
                || l.covers(*old(grid), l.high as int, a, b, d)),
        final(grid).plan().open == old(grid).plan().open.difference(l.crossed(*old(grid), l.high as int)),
{
    let mut i: usize = l.low;
    proof {
        assert(grid.plan().open =~= old(grid).plan().open.difference(l.crossed(*old(grid), l.low as int)));
    }
    while i < l.high
        invariant
            l.low <= i <= l.high,
            l.fits(*old(grid)),
            grid.wf(),
            grid.width == old(grid).width,
            grid.height == old(grid).height,
            forall|a: int, b: int, d: Direction|
                old(grid).in_bounds(a, b) ==> #[trigger] grid.wall(a, b, d) == (old(grid).wall(a, b, d) || l.covers(
                    *old(grid),
                    i as int,
                    a,
                    b,
                    d,
                )),
            grid.plan().open == old(grid).plan().open.difference(l.crossed(*old(grid), i as int)),
        decreases l.high - i,
    {
        let ghost before = *grid;
        match l.dir {
            Direction::North | Direction::South => grid.close(i, l.fixed, l.dir),
            Direction::East | Direction::West => grid.close(l.fixed, i, l.dir),
        }
        proof {
            let first = *old(grid);
            let c = l.cell(i as int);
            assert forall|a: int, b: int, d: Direction| first.in_bounds(a, b) implies #[trigger] grid.wall(a, b, d) == (
            first.wall(a, b, d) || l.covers(first, i + 1, a, b, d)) by {
                assert(before.wall(a, b, d) == (first.wall(a, b, d) || l.covers(first, i as int, a, b, d)));
                assert(grid.wall(a, b, d) == (before.same_wall(c.0, c.1, l.dir, a, b, d) || before.wall(a, b, d)));
                assert(before.same_wall(c.0, c.1, l.dir, a, b, d) == l.wall_at(first, i as int, a, b, d));
                if l.covers(first, i as int, a, b, d) {
                    let k = choose|k: int| l.low <= k < i && #[trigger] l.wall_at(first, k, a, b, d);
                    assert(l.low <= k < i + 1 && l.wall_at(first, k, a, b, d));
                }
                if l.covers(first, i + 1, a, b, d) {
                    let k = choose|k: int| l.low <= k < i + 1 && #[trigger] l.wall_at(first, k, a, b, d);
                    if k < i {
                        assert(l.covers(first, i as int, a, b, d));
                    }
                }
            }
            assert forall|e: Edge|
                grid.plan().open.contains(e) <==> first.plan().open.difference(l.crossed(first, i + 1)).contains(
                    e,
                ) by {
                let n = l.beyond(i as int);
                assert(before.plan().open.contains(e) == first.plan().open.difference(
                    l.crossed(first, i as int),
                ).contains(e));
                if l.crossed(first, i as int).contains(e) {
                    let k = choose|k: int| l.low <= k < i && #[trigger] l.edge_at(first, k, e);
                    assert(l.low <= k < i + 1 && l.edge_at(first, k, e));
                }
                if l.crossed(first, i + 1).contains(e) {
                    let k = choose|k: int| l.low <= k < i + 1 && #[trigger] l.edge_at(first, k, e);
                    if k < i {
                        assert(l.crossed(first, i as int).contains(e));
                    } else {
                        assert(l.edge_at(first, i as int, e));
                    }
                }
                if first.in_bounds(n.0, n.1) && e == edge_between(c, n) {
                    assert(l.edge_at(first, i as int, e));
                }
            }
            assert(grid.plan().open =~= first.plan().open.difference(l.crossed(first, i + 1)));
        }
        i += 1;
    }
}

impl Area {
    /// The area is not empty and lies in the plan.
    pub open spec fn within(self, p: Plan) -> bool {
        self.xs <= self.xe < p.width && self.ys <= self.ye < p.height
    }

    pub open spec fn holds(self, c: (int, int)) -> bool {
        in_box(self.xs as int, self.xe as int, self.ys as int, self.ye as int, c)
    }

    /// The two areas share no cell.
    pub open spec fn apart(self, other: Area) -> bool {
        self.xe < other.xs || other.xe < self.xs || self.ye < other.ys || other.ye < self.ys
    }

    /// How many passages an area without walls has more than a spanning
    /// tree of it.
    pub open spec fn slack(self) -> int {
        (self.xe - self.xs) * (self.ye - self.ys)
    }

    /// One less than twice the number of cells.
    pub open spec fn weight(self) -> int {
        2 * ((self.xe - self.xs + 1) * (self.ye - self.ys + 1)) - 1
    }

    /// The part of the area up to the cut: north of a wall below row `y`,
    /// or west of a wall behind column `x`.
    pub open spec fn near(self, x: int, y: int, south: bool) -> Area {
        if south {
            Area { xs: self.xs, xe: self.xe, ys: self.ys, ye: y as usize }
        } else {
            Area { xs: self.xs, xe: x as usize, ys: self.ys, ye: self.ye }
        }
    }

    /// The part of the area past the cut.
    pub open spec fn far(self, x: int, y: int, south: bool) -> Area {
        if south {
            Area { xs: self.xs, xe: self.xe, ys: (y + 1) as usize, ye: self.ye }
        } else {
            Area { xs: (x + 1) as usize, xe: self.xe, ys: self.ys, ye: self.ye }
        }
    }

    /// The edges across a cut through the whole area.
    pub open spec fn cut_edges(self, x: int, y: int, south: bool) -> Set<Edge> {
        Set::new(
            |e: Edge|
                if south {
                    !e.east && e.y == y && self.xs <= e.x <= self.xe
                } else {
                    e.east && e.x == x && self.ys <= e.y <= self.ye
                },
        )
    }

    /// The wall flag `(a, b, d)` is on one side of a cut through the whole
    /// area.
    pub open spec fn cut_walls(self, x: int, y: int, south: bool, a: int, b: int, d: Direction) -> bool {
        if south {
            self.xs <= a <= self.xe && ((b == y && d == Direction::South) || (b == y + 1 && d == Direction::North))
        } else {
            self.ys <= b <= self.ye && ((a == x && d == Direction::East) || (a == x + 1 && d == Direction::West))
        }
    }
}

/// The direction of a cut.
pub open spec fn cut_dir(south: bool) -> Direction {
    if south {
        Direction::South
    } else {
        Direction::East
    }
}

/// `after` is `before` with the area `a` cut in two: a wall right through
/// it, below row `y` or behind column `x`, with one gap at the cell
/// `(x, y)`.
pub open spec fn cut(before: Grid, after: Grid, a: Area, x: int, y: int, south: bool) -> bool {
    &&& a.xs <= x < a.xe
    &&& a.ys <= y < a.ye
    &&& after.width == before.width
    &&& after.height == before.height
    &&& forall|p: int, q: int, d: Direction|
        before.in_bounds(p, q) ==> #[trigger] after.wall(p, q, d) == (!before.same_wall(x, y, cut_dir(south), p, q, d)
            && (before.wall(p, q, d) || a.cut_walls(x, y, south, p, q, d)))
    &&& after.plan().open == before.plan().open.difference(a.cut_edges(x, y, south)).insert(
        Edge { x, y, east: !south },
    )
}

/// Cuts the area in two, unless it is one cell wide or one cell high: a
/// wall right through it, in a random place and direction, with a gap of
/// one cell. Returns the two parts.
pub fn bisect(grid: &mut Grid, a: Area, rng: &mut StdRng) -> (result: Option<(Area, Area)>)
    requires
        old(grid).wf(),
        a.within(old(grid).plan()),
    ensures
        final(grid).wf(),
        match result {
            None => (a.xe == a.xs || a.ye == a.ys) && *final(grid) == *old(grid),
            Some((b, c)) => a.xs < a.xe && a.ys < a.ye && exists|x: int, y: int, south: bool|
                #![trigger cut(*old(grid), *final(grid), a, x, y, south)]
                cut(*old(grid), *final(grid), a, x, y, south) && b == a.near(x, y, south) && c == a.far(x, y, south),
        },
{
    let mut result: Option<(Area, Area)> = None;
    if a.xe > a.xs && a.ye > a.ys {
        let (x, y) = (gen_range(rng, a.xs, a.xe), gen_range(rng, a.ys, a.ye));
        let mut both: Vec<Direction> = Vec::new();
        both.push(Direction::South);
        both.push(Direction::East);
        let dir = match pick(rng, &both) {
            Some(d) => *d,
            None => Direction::South,
        };
        let ghost south = dir == Direction::South;
        proof {
            if dir != Direction::South {
                assert(both@.contains(dir));
                let k = choose|k: int| 0 <= k < both@.len() && both@[k] == dir;
                assert(dir == Direction::East);
            }
        }
        let line;
        if dir == Direction::South {
            line = Line { fixed: y, low: a.xs, high: a.xe + 1, dir: Direction::South };
            result = Some((Area { xs: a.xs, xe: a.xe, ys: a.ys, ye: y }, Area { xs: a.xs, xe: a.xe, ys: y + 1, ye: a.ye }));
        } else {
            line = Line { fixed: x, low: a.ys, high: a.ye + 1, dir: Direction::East };
            result = Some((Area { xs: a.xs, xe: x, ys: a.ys, ye: a.ye }, Area { xs: x + 1, xe: a.xe, ys: a.ys, ye: a.ye }));
        }
        close_line(grid, line);
        grid.open(x, y, dir);
        proof {
            let first = *old(grid);
            let xi = x as int;
            let yi = y as int;
            assert forall|e: Edge| line.crossed(first, line.high as int).contains(e) <==> a.cut_edges(
                xi,
                yi,
                south,
            ).contains(e) by {
                if line.crossed(first, line.high as int).contains(e) {
                    let k = choose|k: int| line.low <= k < line.high && #[trigger] line.edge_at(first, k, e);
                }
                if a.cut_edges(xi, yi, south).contains(e) {
                    let k = if south {
                        e.x
                    } else {
                        e.y
                    };
                    assert(line.edge_at(first, k, e));
                }
            }
            assert(line.crossed(first, line.high as int) =~= a.cut_edges(xi, yi, south));
            assert forall|p: int, q: int, d: Direction| first.in_bounds(p, q) implies (line.covers(
                first,
                line.high as int,
                p,
                q,
                d,
            ) <==> a.cut_walls(xi, yi, south, p, q, d)) by {
                if line.covers(first, line.high as int, p, q, d) {
                    let k = choose|k: int| line.low <= k < line.high && #[trigger] line.wall_at(first, k, p, q, d);
                }
                if a.cut_walls(xi, yi, south, p, q, d) {
                    let k = if south {
                        p
                    } else {
                        q
                    };
                    assert(line.wall_at(first, k, p, q, d));
                }
            }
            assert(edge_between((xi, yi), (xi + dir.dx(), yi + dir.dy())) == Edge { x: xi, y: yi, east: !south });
            assert(cut(first, *grid, a, xi, yi, south));
        }
    }
    result
}

/// The sum of the slack of the areas.
pub open spec fn total_slack(areas: Seq<Area>) -> int
    decreases areas.len(),
{
    if areas.len() == 0 {
        0
    } else {
        total_slack(areas.drop_last()) + areas.last().slack()
    }
}

/// The sum of the weights of the areas.
pub open spec fn total_weight(areas: Seq<Area>) -> int
    decreases areas.len(),
{
    if areas.len() == 0 {
        0
    } else {
        total_weight(areas.drop_last()) + areas.last().weight()
    }
}

/// Every two adjacent cells of the area have a passage between them.
pub open spec fn open_inside(p: Plan, a: Area) -> bool {
    forall|c: (int, int), d: (int, int)| a.holds(c) && a.holds(d) && #[trigger] adjacent(c, d) ==> p.linked(c, d)
}

/// What holds while areas wait to be cut: they share no cell and have no
/// walls inside, the plan is connected, and it has as many passages more
/// than a spanning tree as the areas have slack.
pub open spec fn parted(p: Plan, areas: Seq<Area>) -> bool {
    &&& p.wf()
    &&& p.open.finite()
    &&& p.connected()
    &&& p.open.len() + 1 == p.size() + total_slack(areas)
    &&& forall|k: int| 0 <= k < areas.len() ==> (#[trigger] areas[k]).within(p) && open_inside(p, areas[k])
    &&& forall|k: int, m: int| 0 <= k < m < areas.len() ==> (#[trigger] areas[k]).apart(#[trigger] areas[m])
}

/// An area added to a list adds its slack and its weight to the sums.
pub proof fn lemma_total_push(areas: Seq<Area>, a: Area)
    ensures
        total_slack(areas.push(a)) == total_slack(areas) + a.slack(),
        total_weight(areas.push(a)) == total_weight(areas) + a.weight(),
{
    assert(areas.push(a).drop_last() =~= areas);
}

/// An area that is not empty has a positive weight.
pub proof fn lemma_weight_positive(a: Area)
    requires
        a.xs <= a.xe,
        a.ys <= a.ye,
    ensures
        a.weight() >= 1,
{
    assert((a.xe - a.xs + 1) * (a.ye - a.ys + 1) >= 1) by (nonlinear_arith)
        requires
            a.xe - a.xs + 1 >= 1,
            a.ye - a.ys + 1 >= 1,
    ;
}

/// A list of areas that are not empty has no negative weight.
pub proof fn lemma_total_weight(p: Plan, areas: Seq<Area>)
    requires
        forall|k: int| 0 <= k < areas.len() ==> (#[trigger] areas[k]).within(p),
    ensures
        total_weight(areas) >= 0,
    decreases areas.len(),
{
    if areas.len() > 0 {
        assert forall|k: int| 0 <= k < areas.drop_last().len() implies (#[trigger] areas.drop_last()[k]).within(p) by {
            assert(areas[k].within(p));
        }
        lemma_total_weight(p, areas.drop_last());
        assert(areas[areas.len() - 1].within(p));
        lemma_weight_positive(areas.last());
    }
}

/// A corridor has no slack and can leave the list.
pub proof fn lemma_part_skip(p: Plan, rest: Seq<Area>, a: Area)
    requires
        parted(p, rest.push(a)),
        a.xs == a.xe || a.ys == a.ye,
    ensures
        parted(p, rest),
{
    lemma_total_push(rest, a);
    let all = rest.push(a);
    assert(a.slack() == 0) by (nonlinear_arith)
        requires
            a.xs == a.xe || a.ys == a.ye,
            a.slack() == (a.xe - a.xs) * (a.ye - a.ys),
    ;
    assert forall|k: int| 0 <= k < rest.len() implies (#[trigger] rest[k]).within(p) && open_inside(p, rest[k]) by {
        assert(all[k] == rest[k]);
    }
    assert forall|k: int, m: int| 0 <= k < m < rest.len() implies (#[trigger] rest[k]).apart(#[trigger] rest[m]) by {
        assert(all[k] == rest[k]);
        assert(all[m] == rest[m]);
    }
}

/// A cut through an area has as many edges as the area is wide, or high.
pub proof fn lemma_cut_len(a: Area, x: int, y: int, south: bool)
    requires
        a.xs <= a.xe,
        a.ys <= a.ye,
    ensures
        a.cut_edges(x, y, south).finite(),
        a.cut_edges(x, y, south).len() == if south { a.xe - a.xs + 1 } else { a.ye - a.ys + 1 },
{
    let lo: int = if south { a.xs as int } else { a.ys as int };
    let hi: int = if south { a.xe + 1 } else { a.ye + 1 };
    let f = |i: int| if south { Edge { x: i, y, east: false } } else { Edge { x, y: i, east: true } };
    lemma_int_range(lo, hi);
    assert(injective_on(f, set_int_range(lo, hi)));
    assert forall|e: Edge| set_int_range(lo, hi).map(f).contains(e) <==> a.cut_edges(x, y, south).contains(e) by {
        if a.cut_edges(x, y, south).contains(e) {
            let i = if south { e.x } else { e.y };
            assert(set_int_range(lo, hi).contains(i) && f(i) == e);
        }
    }
    assert(set_int_range(lo, hi).map(f) =~= a.cut_edges(x, y, south));
    lemma_map_size(set_int_range(lo, hi), a.cut_edges(x, y, south), f);
}

/// Cutting an area of the list in two, with one gap in the cut, leaves a
/// list of the same kind, of less weight.
pub proof fn lemma_part_cut(p: Plan, q: Plan, rest: Seq<Area>, a: Area, x: int, y: int, south: bool)
    requires
        parted(p, rest.push(a)),
        a.xs <= x < a.xe,
        a.ys <= y < a.ye,
        q.width == p.width,
        q.height == p.height,
        q.open == p.open.difference(a.cut_edges(x, y, south)).insert(Edge { x, y, east: !south }),
    ensures
        parted(q, rest.push(a.near(x, y, south)).push(a.far(x, y, south))),
        total_weight(rest.push(a.near(x, y, south)).push(a.far(x, y, south))) < total_weight(rest.push(a)),
{
    broadcast use vstd::set_lib::group_set_properties;

    let b = a.near(x, y, south);
    let c = a.far(x, y, south);
    let all = rest.push(a);
    let next = rest.push(b).push(c);
    let wall = a.cut_edges(x, y, south);
    let gap = Edge { x, y, east: !south };
    let u = (x, y);
    let v = gap.to();
    assert(all[rest.len() as int] == a);
    assert(a.within(p) && open_inside(p, a));
    lemma_total_push(rest, a);
    lemma_total_push(rest, b);
    lemma_total_push(rest.push(b), c);
    lemma_cut_len(a, x, y, south);
    // The cut lies on open passages.
    assert forall|e: Edge| wall.contains(e) implies p.open.contains(e) by {
        assert(a.holds(e.from()) && a.holds(e.to()));
        assert(adjacent(e.from(), e.to()));
        assert(p.linked(e.from(), e.to()));
        assert(edge_between(e.from(), e.to()) == e);
    }
    assert(p.open.intersect(wall) =~= wall);
    vstd::set_lib::lemma_set_difference_len(p.open, wall);
    assert(wall.contains(gap));
    assert(!p.open.difference(wall).contains(gap));
    assert(q.open.len() == p.open.len() - wall.len() + 1);
    if south {
        assert(b.slack() + c.slack() + (a.xe - a.xs) == a.slack()) by (nonlinear_arith)
            requires
                b.slack() == (a.xe - a.xs) * (y - a.ys),
                c.slack() == (a.xe - a.xs) * (a.ye - (y + 1)),
                a.slack() == (a.xe - a.xs) * (a.ye - a.ys),
        ;
        assert(b.weight() + c.weight() + 1 == a.weight()) by (nonlinear_arith)
            requires
                b.weight() == 2 * ((a.xe - a.xs + 1) * (y - a.ys + 1)) - 1,
                c.weight() == 2 * ((a.xe - a.xs + 1) * (a.ye - (y + 1) + 1)) - 1,
                a.weight() == 2 * ((a.xe - a.xs + 1) * (a.ye - a.ys + 1)) - 1,
        ;
    } else {
        assert(b.slack() + c.slack() + (a.ye - a.ys) == a.slack()) by (nonlinear_arith)
            requires
                b.slack() == (x - a.xs) * (a.ye - a.ys),
                c.slack() == (a.xe - (x + 1)) * (a.ye - a.ys),
                a.slack() == (a.xe - a.xs) * (a.ye - a.ys),
        ;
        assert(b.weight() + c.weight() + 1 == a.weight()) by (nonlinear_arith)
            requires
                b.weight() == 2 * ((x - a.xs + 1) * (a.ye - a.ys + 1)) - 1,
                c.weight() == 2 * ((a.xe - (x + 1) + 1) * (a.ye - a.ys + 1)) - 1,
                a.weight() == 2 * ((a.xe - a.xs + 1) * (a.ye - a.ys + 1)) - 1,
        ;
    }
    assert forall|e: Edge| #[trigger] q.open.contains(e) implies q.has_edge(e) by {
        if e != gap {
            assert(p.open.contains(e));
        }
    }
    // The two parts have no walls inside, and the other areas are untouched.
    assert(open_inside(q, b)) by {
        assert forall|s: (int, int), t: (int, int)| b.holds(s) && b.holds(t) && #[trigger] adjacent(s, t) implies q.linked(
            s,
            t,
        ) by {
            assert(a.holds(s) && a.holds(t));
            assert(p.linked(s, t));
            assert(!wall.contains(edge_between(s, t)));
        }
    }
    assert(open_inside(q, c)) by {
        assert forall|s: (int, int), t: (int, int)| c.holds(s) && c.holds(t) && #[trigger] adjacent(s, t) implies q.linked(
            s,
            t,
        ) by {
            assert(a.holds(s) && a.holds(t));
            assert(p.linked(s, t));
            assert(!wall.contains(edge_between(s, t)));
        }
    }
    assert forall|k: int| 0 <= k < next.len() implies (#[trigger] next[k]).within(q) && open_inside(q, next[k]) by {
        if k < rest.len() {
            let r = rest[k];
            assert(all[k] == r);
            assert(r.apart(a));
            assert forall|s: (int, int), t: (int, int)| r.holds(s) && r.holds(t) && #[trigger] adjacent(
                s,
                t,
            ) implies q.linked(s, t) by {
                assert(p.linked(s, t));
                let e = edge_between(s, t);
                if wall.contains(e) {
                    assert(a.holds(e.from()));
                    assert(e.from() == s || e.from() == t);
                }
            }
        }
    }
    assert forall|k: int, m: int| 0 <= k < m < next.len() implies (#[trigger] next[k]).apart(#[trigger] next[m]) by {
        if k < rest.len() {
            assert(all[k] == rest[k]);
            if m < rest.len() {
                assert(all[m] == rest[m]);
            } else {
                assert(all[k].apart(all[rest.len() as int]));
            }
        }
    }
    // Every walled-up passage can be gone round through the gap.
    assert(q.linked(u, v));
    q.lemma_linked_sym(u, v);
    assert forall|s: (int, int), t: (int, int)| #[trigger] p.linked(s, t) implies q.joined(s, t) by {
        let e = edge_between(s, t);
        if q.open.contains(e) {
            assert(q.linked(s, t));
            q.lemma_joined_link(s, t);
        } else {
            assert(wall.contains(e));
            assert((e.from() == s && e.to() == t) || (e.from() == t && e.to() == s));
            let s_near = b.holds(s);
            let (m, n) = if s_near { (s, t) } else { (t, s) };
            assert(b.holds(m) && c.holds(n));
            assert(b.holds(u) && c.holds(v));
            q.lemma_box_joined(b.xs as int, b.xe as int, b.ys as int, b.ye as int, m, u);
            q.lemma_box_joined(c.xs as int, c.xe as int, c.ys as int, c.ye as int, v, n);
            q.lemma_joined_snoc(m, u, v);
            q.lemma_joined_trans(m, v, n);
            if !s_near {
                q.lemma_joined_sym(m, n);
            }
        }
    }
    p.lemma_reroute(q);
}

/// Blocks every wall on the outer boundary of the grid.
pub fn close_boundary(grid: &mut Grid)
    requires
        old(grid).wf(),
    ensures
        final(grid).wf(),
        final(grid).sealed(),
        final(grid).width == old(grid).width,
        final(grid).height == old(grid).height,
        forall|a: int, b: int, d: Direction|
            old(grid).in_bounds(a, b) ==> #[trigger] final(grid).wall(a, b, d) == (old(grid).wall(a, b, d)
                || !old(grid).in_bounds(a + d.dx(), b + d.dy())),
        final(grid).plan() == old(grid).plan(),
{
    let mut x: usize = 0;
    while x < grid.width
        invariant
            x <= grid.width,
            grid.wf(),
            grid.width == old(grid).width,
            grid.height == old(grid).height,
            grid.plan() == old(grid).plan(),
            forall|a: int, b: int, d: Direction|
                old(grid).in_bounds(a, b) ==> #[trigger] grid.wall(a, b, d) == (old(grid).wall(a, b, d) || (a < x && (d
                    == Direction::North || d == Direction::South) && !old(grid).in_bounds(a + d.dx(), b + d.dy()))),
        decreases grid.width - x,
    {
        let bottom = grid.height - 1;
        grid.close(x, 0, Direction::North);
        grid.close(x, bottom, Direction::South);
        x += 1;
    }
    let mut y: usize = 0;
    while y < grid.height
        invariant
            y <= grid.height,
            grid.wf(),
            grid.width == old(grid).width,
            grid.height == old(grid).height,
            grid.plan() == old(grid).plan(),
            forall|a: int, b: int, d: Direction|
                old(grid).in_bounds(a, b) ==> #[trigger] grid.wall(a, b, d) == (old(grid).wall(a, b, d) || ((b < y
                    || d == Direction::North || d == Direction::South) && !old(grid).in_bounds(
                    a + d.dx(),
                    b + d.dy(),
                ))),
        decreases grid.height - y,
    {
        let right = grid.width - 1;
        grid.close(0, y, Direction::West);
        grid.close(right, y, Direction::East);
        y += 1;
    }
}

/// Generates a perfect maze by recursive division. The grid starts with
/// its boundary blocked and no wall inside. The areas that wait to be cut
/// are kept on an explicit stack.
pub fn run(width: usize, height: usize, rng: &mut StdRng) -> (grid: Grid)
    requires
        width >= 1,
        height >= 1,
    ensures
        grid.wf(),
        grid.width == width,
        grid.height == height,
        grid.sealed(),
        grid.plan().is_perfect(),
        grid.plan().acyclic(),
{
    let mut grid = Grid::new(width, height, false);
    close_boundary(&mut grid);
    let mut stack: Vec<Area> = Vec::new();
    let whole = Area { xs: 0, xe: width - 1, ys: 0, ye: height - 1 };
    stack.push(whole);
    proof {
        let p = grid.plan();
        grid.lemma_plan_wf();
        p.lemma_all_edges_len();
        assert(p.open =~= p.all_edges());
        assert forall|c: (int, int), d: (int, int)| whole.holds(c) && whole.holds(d) && #[trigger] adjacent(
            c,
            d,
        ) implies p.linked(c, d) by {
            let e = edge_between(c, d);
            assert(p.has_edge(e));
        }
        assert forall|a: (int, int), b: (int, int)| p.has_cell(a) && p.has_cell(b) implies #[trigger] p.joined(a, b) by {
            p.lemma_box_joined(0, width - 1, 0, height - 1, a, b);
        }
        lemma_total_push(Seq::<Area>::empty(), whole);
        assert(stack@ =~= Seq::<Area>::empty().push(whole));
        assert((width - 1) * height + width * (height - 1) + 1 == width * height + (width - 1) * (height - 1))
            by (nonlinear_arith);
    }
    while stack.len() > 0
        invariant
            grid.wf(),
            grid.sealed(),
            grid.width == width,
            grid.height == height,
            parted(grid.plan(), stack@),
        decreases total_weight(stack@),
    {
        let ghost before = grid;
        let ghost waiting = stack@;
        let a = stack.pop().unwrap();
        proof {
            assert(waiting =~= stack@.push(a));
            lemma_total_push(stack@, a);
            assert(waiting[waiting.len() - 1].within(before.plan()));
            lemma_weight_positive(a);
        }
        let ghost rest = stack@;
        match bisect(&mut grid, a, rng) {
            Some((b, c)) => {
                proof {
                    let (x, y, south) = choose|x: int, y: int, south: bool|
                        #![trigger cut(before, grid, a, x, y, south)]
                        cut(before, grid, a, x, y, south) && b == a.near(x, y, south) && c == a.far(x, y, south);
                    lemma_part_cut(before.plan(), grid.plan(), stack@, a, x, y, south);
                    assert forall|p: int, q: int, d: Direction|
                        grid.in_bounds(p, q) && !grid.in_bounds(p + d.dx(), q + d.dy()) implies #[trigger] grid.wall(
                        p,
                        q,
                        d,
                    ) by {
                        assert(before.wall(p, q, d));
                    }
                }
                stack.push(b);
                stack.push(c);
                proof {
                    assert(stack@ =~= rest.push(b).push(c));
                }
            },
            None => {
                proof {
                    lemma_part_skip(grid.plan(), stack@, a);
                }
            },
        }
        proof {
            lemma_total_weight(grid.plan(), stack@);
        }
    }
    proof {
        assert(total_slack(stack@) == 0);
    }
    proof {
        grid.plan().lemma_perfect_acyclic();
    }
    grid
}

} // verus!
