//! Hunt and kill: a random walk that carves into closed cells; where it is
//! hemmed in, a scan of the grid finds a closed cell next to the maze and
//! the walk goes on from there.

use crate::algorithms::{at, carved, direction_to, open_random_dir, opened, shuffled_directions};
use crate::grid::{Direction, Grid};
use crate::plan::{adjacent, edge_between, rect};
use crate::random::gen_range;
use crate::tree::{grown, lemma_closed_unreached, lemma_grow, lemma_grown_bound, lemma_grown_perfect, lemma_grown_start, lemma_open_reached, lemma_reached_closed};
use rand::StdRng;
use vstd::prelude::*;

verus! {

/// All neighbours of `(x, y)` are closed.
pub open spec fn secluded(grid: Grid, x: int, y: int) -> bool {
    forall|dir: Direction|
        grid.in_bounds(x + dir.dx(), y + dir.dy()) ==> #[trigger] grid.closed_at(x + dir.dx(), y + dir.dy())
}

/// The hunt stops at `(x, y)`: a closed cell with a neighbour that is not
/// closed.
pub open spec fn huntable(grid: Grid, x: int, y: int) -> bool {
    grid.in_bounds(x, y) && grid.closed_at(x, y) && !secluded(grid, x, y)
}

/// `after` is `before` with a passage carved from the closed cell `(x, y)`
/// towards `dir`, into a cell that was not closed.
pub open spec fn attached(before: Grid, after: Grid, x: int, y: int, dir: Direction) -> bool {
    &&& !before.closed_at(x + dir.dx(), y + dir.dy())
    &&& opened(before, after, x, y, dir)
}

/// Scans the grid row by row, each row from west to east, for the first
/// closed cell that has a neighbour which is not closed, carves a passage
/// between the two and returns the cell. The neighbours are tried in one
/// random order for the whole scan. Where there is no such cell the grid
/// stays as it is.
pub fn hunt(grid: &mut Grid, rng: &mut StdRng) -> (r: Option<(usize, usize)>)
    requires
        old(grid).wf(),
    ensures
        final(grid).wf(),
        match r {
            Some(c) => {
                &&& huntable(*old(grid), c.0 as int, c.1 as int)
                &&& forall|a: int, b: int|
                    (b < c.1 || (b == c.1 && a < c.0)) ==> !#[trigger] huntable(*old(grid), a, b)
                &&& exists|dir: Direction| attached(*old(grid), *final(grid), c.0 as int, c.1 as int, dir)
            },
            None => *final(grid) == *old(grid) && forall|a: int, b: int| !#[trigger] huntable(*old(grid), a, b),
        },
{
    let directions = shuffled_directions(rng);
    let mut y: usize = 0;
    while y < grid.height
        invariant
            y <= grid.height,
            directions@.len() == 4,
            forall|dir: Direction| directions@.contains(dir),
            *grid == *old(grid),
            grid.wf(),
            forall|a: int, b: int| b < y ==> !#[trigger] huntable(*grid, a, b),
        decreases grid.height - y,
    {
        let mut x: usize = 0;
        while x < grid.width
            invariant
                y < grid.height,
                x <= grid.width,
                directions@.len() == 4,
                forall|dir: Direction| directions@.contains(dir),
                *grid == *old(grid),
                grid.wf(),
                forall|a: int, b: int| (b < y || (b == y && a < x)) ==> !#[trigger] huntable(*grid, a, b),
            decreases grid.width - x,
        {
            if grid.cells[x][y].is_closed() {
                let mut i: usize = 0;
                while i < 4
                    invariant
                        i <= 4,
                        x < grid.width,
                        y < grid.height,
                        directions@.len() == 4,
                        *grid == *old(grid),
                        grid.wf(),
                        grid.closed_at(x as int, y as int),
                        forall|a: int, b: int| (b < y || (b == y && a < x)) ==> !#[trigger] huntable(*grid, a, b),
                        forall|k: int|
                            0 <= k < i && grid.in_bounds(x + directions@[k].dx(), y + directions@[k].dy())
                                ==> grid.closed_at(x + #[trigger] directions@[k].dx(), y + directions@[k].dy()),
                    decreases 4 - i,
                {
                    let dir = directions[i];
                    if let Some((nx, ny)) = grid.cell_at(x, y, dir) {
                        if !grid.cells[nx][ny].is_closed() {
                            grid.open(x, y, dir);
                            proof {
                                assert(!old(grid).closed_at(x + dir.dx(), y + dir.dy()));
                                assert(!secluded(*old(grid), x as int, y as int));
                                assert(huntable(*old(grid), x as int, y as int));
                                assert(attached(*old(grid), *grid, x as int, y as int, dir));
                            }
                            return Some((x, y));
                        }
                    }
                    i += 1;
                }
                proof {
                    assert forall|dir: Direction|
                        grid.in_bounds(x + dir.dx(), y + dir.dy()) implies #[trigger] grid.closed_at(
                        x + dir.dx(),
                        y + dir.dy(),
                    ) by {
                        assert(directions@.contains(dir));
                        let k = choose|k: int| 0 <= k < directions@.len() && directions@[k] == dir;
                        assert(directions@[k].dx() == dir.dx());
                    }
                    assert(secluded(*grid, x as int, y as int));
                }
            }
            x += 1;
        }
        y += 1;
    }
    None
}

/// Generates a perfect maze by walking from a random cell and hunting for
/// a new start whenever the walk is hemmed in.
pub fn run(width: usize, height: usize, rng: &mut StdRng) -> (grid: Grid)
    requires
        width >= 1,
        height >= 1,
    ensures
        grid.wf(),
        grid.width == width,
        grid.height == height,
        grid.sealed(),
        grid.plan().is_perfect(),
        grid.plan().acyclic(),
{
    let mut grid = Grid::new(width, height, true);
    let first = (gen_range(rng, 0, width), gen_range(rng, 0, height));
    let mut o: Option<(usize, usize)> = Some(first);
    let ghost start = at(first);
    let ghost mut reached: Set<(int, int)> = set![start];
    proof {
        grid.lemma_plan_wf();
        lemma_grown_start(grid.plan(), start);
        lemma_grown_bound(grid.plan(), start, reached);
    }
    while o.is_some()
        invariant
            grid.wf(),
            grid.sealed(),
            grid.width == width,
            grid.height == height,
            grown(grid.plan(), start, reached),
            reached.len() <= width * height,
            o.is_some() ==> reached.contains(at(o.unwrap())),
            o.is_none() ==> forall|c: (int, int), d: (int, int)|
                reached.contains(c) && rect(width as int, height as int).contains(d) && #[trigger] adjacent(c, d)
                    ==> reached.contains(d),
        decreases 2 * (width * height - reached.len()) + if o.is_some() { 1int } else { 0int },
    {
        let (x, y) = o.unwrap();
        let ghost before = grid;
        o = open_random_dir(&mut grid, x, y, rng);
        match o {
            Some(next) => {
                proof {
                    let dir = choose|dir: Direction| carved(before, grid, x as int, y as int, dir, at(next));
                    let u = (x as int, y as int);
                    let v = at(next);
                    before.lemma_sealed_kept(grid, x as int, y as int, dir, false);
                    lemma_closed_unreached(before, start, reached, u, v);
                    lemma_grow(before.plan(), start, reached, u, v);
                    reached = reached.insert(v);
                    lemma_grown_bound(grid.plan(), start, reached);
                }
            },
            None => {
                o = hunt(&mut grid, rng);
                match o {
                    Some(c) => {
                        proof {
                            let dir = choose|dir: Direction| attached(before, grid, c.0 as int, c.1 as int, dir);
                            let v = at(c);
                            let u = (v.0 + dir.dx(), v.1 + dir.dy());
                            before.lemma_sealed_kept(grid, v.0, v.1, dir, false);
                            lemma_open_reached(before, start, reached, u);
                            lemma_closed_unreached(before, start, reached, u, v);
                            lemma_grow(before.plan(), start, reached, u, v);
                            assert(edge_between(u, v) == edge_between(v, u));
                            reached = reached.insert(v);
                            lemma_grown_bound(grid.plan(), start, reached);
                        }
                    },
                    None => {
                        proof {
                            assert forall|c: (int, int), d: (int, int)|
                                reached.contains(c) && rect(width as int, height as int).contains(d)
                                    && #[trigger] adjacent(c, d) implies reached.contains(d) by {
                                if !reached.contains(d) {
                                    if !grid.closed_at(d.0, d.1) {
                                        lemma_open_reached(grid, start, reached, d);
                                    }
                                    assert(!huntable(grid, d.0, d.1));
                                    let back = direction_to(d, c);
                                    assert(c == (d.0 + back.dx(), d.1 + back.dy()));
                                    assert(grid.closed_at(d.0 + back.dx(), d.1 + back.dy()));
                                    let here = (x as int, y as int);
                                    if c == here {
                                        let dir = direction_to(c, d);
                                        assert(d == (c.0 + dir.dx(), c.1 + dir.dy()));
                                        assert(!grid.closed_at(c.0 + dir.dx(), c.1 + dir.dy()));
                                    } else {
                                        lemma_reached_closed(grid, start, reached, c);
                                    }
                                }
                            }
                        }
                    },
                }
            },
        }
    }
    proof {
        lemma_grown_perfect(grid.plan(), start, reached);
    }
    proof {
        grid.plan().lemma_perfect_acyclic();
    }
    grid
}

} // verus!
