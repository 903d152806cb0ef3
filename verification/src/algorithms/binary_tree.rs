//! The binary tree: every cell opens one passage towards the corner of the
//! bias, vertically or horizontally, chosen at random where both are
//! possible.

use crate::algorithms::Bias;
use crate::grid::{Direction, Grid};
use crate::plan::edge_between;
use crate::random::pick;
use rand::StdRng;
use vstd::prelude::*;

verus! {

impl Bias {
    /// The vertical direction of the bias.
    pub open spec fn vertical(self) -> Direction {
        match self {
            Bias::Northeast | Bias::Northwest => Direction::North,
            Bias::Southeast | Bias::Southwest => Direction::South,
        }
    }

    /// The horizontal direction of the bias.
    pub open spec fn horizontal(self) -> Direction {
        match self {
            Bias::Northwest | Bias::Southwest => Direction::West,
            Bias::Northeast | Bias::Southeast => Direction::East,
        }
    }
}

/// The directions of the bias in which the cell `(x, y)` has a neighbour,
/// the vertical one first.
pub open spec fn candidates(bias: Bias, x: int, y: int, width: int, height: int) -> Seq<Direction> {
    let up = if 0 <= y + bias.vertical().dy() < height {
        seq![bias.vertical()]
    } else {
        Seq::<Direction>::empty()
    };
    let side = if 0 <= x + bias.horizontal().dx() < width {
        seq![bias.horizontal()]
    } else {
        Seq::<Direction>::empty()
    };
    up + side
}

/// The directions in which the cell `(x, y)` may carve: those of the bias
/// that do not lead out of the grid, in the order north, south, west, east.
pub fn collect_directions(bias: Bias, x: usize, y: usize, width: usize, height: usize) -> (dir: Vec<Direction>)
    requires
        x < width,
        y < height,
    ensures
        dir@ == candidates(bias, x as int, y as int, width as int, height as int),
{
    let mut dir: Vec<Direction> = Vec::new();
    if y > 0 && (bias == Bias::Northeast || bias == Bias::Northwest) {
        dir.push(Direction::North);
    }
    if y < height - 1 && (bias == Bias::Southeast || bias == Bias::Southwest) {
        dir.push(Direction::South);
    }
    if x > 0 && (bias == Bias::Northwest || bias == Bias::Southwest) {
        dir.push(Direction::West);
    }
    if x < width - 1 && (bias == Bias::Northeast || bias == Bias::Southeast) {
        dir.push(Direction::East);
    }
    proof {
        assert(dir@ =~= candidates(bias, x as int, y as int, width as int, height as int));
    }
    dir
}

/// The cell has no neighbour in either direction of the bias: it is the
/// corner that the bias points to.
pub open spec fn at_corner(grid: Grid, bias: Bias, x: int, y: int) -> bool {
    !grid.in_bounds(x, y + bias.vertical().dy()) && !grid.in_bounds(x + bias.horizontal().dx(), y)
}

/// The cell `(x, y)` has exactly one passage towards the bias, or is the
/// corner of the bias.
pub open spec fn leans(grid: Grid, bias: Bias, x: int, y: int) -> bool {
    let up = grid.in_bounds(x, y + bias.vertical().dy()) && !grid.wall(x, y, bias.vertical());
    let side = grid.in_bounds(x + bias.horizontal().dx(), y) && !grid.wall(x, y, bias.horizontal());
    at_corner(grid, bias, x, y) || up != side
}

/// Both walls of `(x, y)` towards the bias are blocked.
pub open spec fn shut(grid: Grid, bias: Bias, x: int, y: int) -> bool {
    grid.wall(x, y, bias.vertical()) && grid.wall(x, y, bias.horizontal())
}

/// `(a, b)` comes before `(x, y)` in the sweep, which goes through the
/// columns from west to east and down each column.
pub open spec fn swept(a: int, b: int, x: int, y: int) -> bool {
    a < x || (a == x && b < y)
}

/// The number of cells before `(x, y)` in the sweep, not counting the
/// corner of the bias.
pub open spec fn carvers(grid: Grid, bias: Bias, x: int, y: int) -> int {
    let cx = if bias.horizontal() == Direction::West { 0 } else { grid.width - 1 };
    let cy = if bias.vertical() == Direction::North { 0 } else { grid.height - 1 };
    x * grid.height + y - if swept(cx, cy, x, y) { 1int } else { 0int }
}

/// What holds when the sweep stands before `(x, y)`.
pub open spec fn sweeping(grid: Grid, bias: Bias, x: int, y: int) -> bool {
    &&& grid.wf()
    &&& grid.sealed()
    &&& grid.plan().open.finite()
    &&& grid.plan().open.len() == carvers(grid, bias, x, y)
    &&& forall|a: int, b: int| grid.in_bounds(a, b) && swept(a, b, x, y) ==> #[trigger] leans(grid, bias, a, b)
    &&& forall|a: int, b: int| grid.in_bounds(a, b) && !swept(a, b, x, y) ==> #[trigger] shut(grid, bias, a, b)
}

/// Where every cell leans towards the bias, every cell is joined to the
/// corner of the bias.
pub proof fn lemma_leads_to_corner(grid: Grid, bias: Bias, c: (int, int)) -> (corner: (int, int))
    requires
        grid.wf(),
        grid.in_bounds(c.0, c.1),
        forall|a: int, b: int| grid.in_bounds(a, b) ==> #[trigger] leans(grid, bias, a, b),
    ensures
        corner == (
            if bias.horizontal() == Direction::West { 0 } else { grid.width - 1 },
            if bias.vertical() == Direction::North { 0 } else { grid.height - 1 },
        ),
        grid.plan().joined(corner, c),
    decreases
            (if bias.horizontal() == Direction::West { c.0 } else { grid.width - 1 - c.0 }) + (if bias.vertical()
                == Direction::North { c.1 } else { grid.height - 1 - c.1 }),
{
    let corner = (
        if bias.horizontal() == Direction::West { 0 } else { grid.width - 1 },
        if bias.vertical() == Direction::North { 0 } else { grid.height - 1 },
    );
    let p = grid.plan();
    if c == corner {
        p.lemma_joined_refl(c);
    } else {
        assert(leans(grid, bias, c.0, c.1));
        let up = grid.in_bounds(c.0, c.1 + bias.vertical().dy()) && !grid.wall(c.0, c.1, bias.vertical());
        let dir = if up { bias.vertical() } else { bias.horizontal() };
        let n = (c.0 + dir.dx(), c.1 + dir.dy());
        lemma_leads_to_corner(grid, bias, n);
        grid.lemma_linked_iff_open(c.0, c.1, dir);
        p.lemma_linked_sym(c, n);
        p.lemma_joined_snoc(corner, n, c);
    }
    corner
}

/// Generates a perfect maze in one sweep over the grid: every cell opens a
/// passage to its neighbour in one of the two directions of `bias`, chosen
/// at random where it has both.
pub fn run(width: usize, height: usize, rng: &mut StdRng, bias: Bias) -> (grid: Grid)
    requires
        width >= 1,
        height >= 1,
    ensures
        grid.wf(),
        grid.width == width,
        grid.height == height,
        grid.sealed(),
        grid.plan().is_perfect(),
        grid.plan().acyclic(),
        forall|a: int, b: int| grid.in_bounds(a, b) ==> #[trigger] leans(grid, bias, a, b),
{
    let mut grid = Grid::new(width, height, true);
    let mut x: usize = 0;
    proof {
        assert(0 * grid.height == 0) by (nonlinear_arith);
    }
    while x < width
        invariant
            x <= width,
            grid.width == width,
            grid.height == height,
            sweeping(grid, bias, x as int, 0),
        decreases width - x,
    {
        let mut y: usize = 0;
        while y < height
            invariant
                x < width,
                y <= height,
                grid.width == width,
                grid.height == height,
                sweeping(grid, bias, x as int, y as int),
            decreases height - y,
        {
            let directions = collect_directions(bias, x, y, width, height);
            let ghost before = grid;
            match pick(rng, &directions) {
                Some(dir) => {
                    grid.open(x, y, *dir);
                    proof {
                        let n = (x + dir.dx(), y + dir.dy());
                        assert(*dir == bias.vertical() || *dir == bias.horizontal());
                        assert(before.in_bounds(n.0, n.1));
                        before.lemma_sealed_kept(grid, x as int, y as int, *dir, false);
                        before.lemma_linked_iff_open(x as int, y as int, *dir);
                        assert(shut(before, bias, x as int, y as int));
                        assert(before.wall(x as int, y as int, *dir));
                        assert(!before.plan().open.contains(edge_between((x as int, y as int), n)));
                        assert(grid.plan().open.len() == before.plan().open.len() + 1);
                        assert(!at_corner(before, bias, x as int, y as int));
                        assert(carvers(grid, bias, x as int, y + 1) == carvers(before, bias, x as int, y as int) + 1);
                        assert(leans(grid, bias, x as int, y as int));
                        assert forall|a: int, b: int|
                            grid.in_bounds(a, b) && swept(a, b, x as int, y + 1) implies #[trigger] leans(
                            grid,
                            bias,
                            a,
                            b,
                        ) by {
                            if swept(a, b, x as int, y as int) {
                                assert(leans(before, bias, a, b));
                            }
                        }
                        assert forall|a: int, b: int|
                            grid.in_bounds(a, b) && !swept(a, b, x as int, y + 1) implies #[trigger] shut(
                            grid,
                            bias,
                            a,
                            b,
                        ) by {
                            assert(shut(before, bias, a, b));
                        }
                    }
                },
                None => {
                    proof {
                        assert(directions@ =~= Seq::<Direction>::empty());
                        assert(at_corner(grid, bias, x as int, y as int));
                        assert(leans(grid, bias, x as int, y as int));
                        assert(carvers(grid, bias, x as int, y + 1) == carvers(grid, bias, x as int, y as int));
                        assert forall|a: int, b: int|
                            grid.in_bounds(a, b) && !swept(a, b, x as int, y + 1) implies #[trigger] shut(
                            grid,
                            bias,
                            a,
                            b,
                        ) by {
                            assert(!swept(a, b, x as int, y as int));
                        }
                    }
                },
            }
            y += 1;
        }
        proof {
            assert(x * grid.height + grid.height == (x + 1) * grid.height) by (nonlinear_arith);
            assert(carvers(grid, bias, x + 1, 0) == carvers(grid, bias, x as int, height as int));
            assert forall|a: int, b: int| grid.in_bounds(a, b) && swept(a, b, x + 1, 0) implies #[trigger] leans(
                grid,
                bias,
                a,
                b,
            ) by {
                assert(swept(a, b, x as int, height as int));
            }
            assert forall|a: int, b: int| grid.in_bounds(a, b) && !swept(a, b, x + 1, 0) implies #[trigger] shut(
                grid,
                bias,
                a,
                b,
            ) by {
                assert(!swept(a, b, x as int, height as int));
            }
        }
        x += 1;
    }
    proof {
        let p = grid.plan();
        grid.lemma_plan_wf();
        assert forall|a: int, b: int| grid.in_bounds(a, b) implies #[trigger] leans(grid, bias, a, b) by {
            assert(swept(a, b, width as int, 0));
        }
        let corner = lemma_leads_to_corner(grid, bias, (0, 0));
        assert forall|c: (int, int)| p.has_cell(c) implies #[trigger] p.joined(corner, c) by {
            lemma_leads_to_corner(grid, bias, c);
        }
        p.lemma_connected_via(corner);
    }
    proof {
        grid.plan().lemma_perfect_acyclic();
    }
    grid
}

} // verus!
