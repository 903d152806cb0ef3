//! Prim's algorithm: the maze grows from a random cell by attaching cells
//! of the frontier, drawn at random, to the part that is done.

use crate::algorithms::{at, direction_to, opened, shuffled_directions};
use crate::cell_set::CellSet;
use crate::grid::{Direction, Grid};
use crate::plan::{adjacent, edge_between, rect};
use crate::random::gen_range;
use crate::tree::{grown, lemma_grow, lemma_grown_bound, lemma_grown_perfect, lemma_grown_start};
use rand::StdRng;
use vstd::prelude::*;

verus! {

/// Draws a member of the set at random; the set keeps it.
pub fn pick(set: &CellSet, rng: &mut StdRng) -> (r: (usize, usize))
    requires
        set.cells@.len() > 0,
    ensures
        set@.contains(at(r)),
{
    let idx = gen_range(rng, 0, set.len());
    set.nth(idx)
}

/// The frontier after `c` was processed: `c` has left it, and the
/// neighbours of `c` that were not done have joined it.
pub open spec fn frontier_after(frontier: Set<(int, int)>, done: Set<(int, int)>, grid: Grid, c: (int, int)) -> Set<
    (int, int),
> {
    Set::new(
        |d: (int, int)|
            d != c && (frontier.contains(d) || (grid.in_bounds(d.0, d.1) && adjacent(c, d) && !done.contains(d))),
    )
}

/// Some neighbour of `(x, y)` is done.
pub open spec fn touches_done(grid: Grid, done: Set<(int, int)>, x: int, y: int) -> bool {
    exists|dir: Direction|
        grid.in_bounds(x + dir.dx(), y + dir.dy()) && #[trigger] done.contains((x + dir.dx(), y + dir.dy()))
}

/// Moves `(x, y)` from the frontier to the cells that are done. Its
/// neighbours are looked at in random order: those not done join the
/// frontier, and a passage is carved to the first one that is done, and to
/// no other.
pub fn connect(grid: &mut Grid, frontier: &mut CellSet, rng: &mut StdRng, done: &mut CellSet, x: usize, y: usize)
    requires
        old(grid).wf(),
        old(grid).in_bounds(x as int, y as int),
        old(frontier).wf(),
        old(done).wf(),
    ensures
        final(grid).wf(),
        final(frontier).wf(),
        final(done).wf(),
        final(done)@ == old(done)@.insert((x as int, y as int)),
        final(frontier)@ == frontier_after(old(frontier)@, old(done)@, *old(grid), (x as int, y as int)),
        if touches_done(*old(grid), old(done)@, x as int, y as int) {
            exists|dir: Direction|
                old(done)@.contains((x + dir.dx(), y + dir.dy())) && #[trigger] opened(
                    *old(grid),
                    *final(grid),
                    x as int,
                    y as int,
                    dir,
                )
        } else {
            *final(grid) == *old(grid)
        },
{
    let mut connected = false;
    let directions = shuffled_directions(rng);
    let ghost here = (x as int, y as int);
    let ghost mut way = Direction::North;
    let ghost mut added: Set<(int, int)> = Set::empty();
    let mut i: usize = 0;
    while i < 4
        invariant
            i <= 4,
            directions@.len() == 4,
            here == (x as int, y as int),
            grid.wf(),
            grid.width == old(grid).width,
            grid.height == old(grid).height,
            grid.in_bounds(x as int, y as int),
            frontier.wf(),
            *done == *old(done),
            frontier@ == old(frontier)@ + added,
            forall|d: (int, int)|
                added.contains(d) ==> old(grid).in_bounds(d.0, d.1) && adjacent(here, d) && !done@.contains(d),
            forall|k: int|
                0 <= k < i && old(grid).in_bounds(x + directions@[k].dx(), y + directions@[k].dy()) && !done@.contains(
                    (x + directions@[k].dx(), y + directions@[k].dy()),
                ) ==> added.contains((x + #[trigger] directions@[k].dx(), y + directions@[k].dy())),
            !connected ==> *grid == *old(grid) && forall|k: int|
                0 <= k < i && old(grid).in_bounds(x + directions@[k].dx(), y + directions@[k].dy())
                    ==> !done@.contains((x + #[trigger] directions@[k].dx(), y + directions@[k].dy())),
            connected ==> done@.contains((x + way.dx(), y + way.dy())) && opened(
                *old(grid),
                *grid,
                x as int,
                y as int,
                way,
            ),
        decreases 4 - i,
    {
        let dir = directions[i];
        if let Some(p) = grid.cell_at(x, y, dir) {
            if !done.contains(&p) {
                frontier.insert(p);
                proof {
                    added = added.insert(at(p));
                    assert(frontier@ =~= old(frontier)@ + added);
                }
            } else if !connected {
                grid.open(x, y, dir);
                connected = true;
                proof {
                    way = dir;
                }
            }
        }
        i += 1;
    }
    frontier.remove(&(x, y));
    done.insert((x, y));
    proof {
        let target = frontier_after(old(frontier)@, old(done)@, *old(grid), here);
        assert forall|d: (int, int)| frontier@.contains(d) <==> target.contains(d) by {
            if d != here && old(grid).in_bounds(d.0, d.1) && adjacent(here, d) && !old(done)@.contains(d) {
                let dir = direction_to(here, d);
                assert(directions@.contains(dir));
                let k = choose|k: int| 0 <= k < directions@.len() && directions@[k] == dir;
                assert(d == (x + directions@[k].dx(), y + directions@[k].dy()));
                assert(added.contains(d));
            }
        }
        assert(frontier@ =~= target);
        if touches_done(*old(grid), old(done)@, x as int, y as int) {
            let dir = choose|dir: Direction|
                old(grid).in_bounds(x + dir.dx(), y + dir.dy()) && #[trigger] old(done)@.contains(
                    (x + dir.dx(), y + dir.dy()),
                );
            assert(directions@.contains(dir));
            let k = choose|k: int| 0 <= k < directions@.len() && directions@[k] == dir;
            assert(directions@[k].dx() == dir.dx());
            assert(connected);
            assert(opened(*old(grid), *grid, x as int, y as int, way));
        } else {
            if connected {
                assert(old(done)@.contains((x + way.dx(), y + way.dy())));
                assert(false);
            }
        }
    }
}

/// Generates a perfect maze by Prim's algorithm, from a random cell.
pub fn run(width: usize, height: usize, rng: &mut StdRng) -> (grid: Grid)
    requires
        width >= 1,
        height >= 1,
    ensures
        grid.wf(),
        grid.width == width,
        grid.height == height,
        grid.sealed(),
        grid.plan().is_perfect(),
        grid.plan().acyclic(),
{
    let mut grid = Grid::new(width, height, true);
    let mut done = CellSet::new();
    let mut frontier = CellSet::new();
    let start_at = (gen_range(rng, 0, width), gen_range(rng, 0, height));
    frontier.insert(start_at);
    let ghost start = at(start_at);
    let ghost mut reached: Set<(int, int)> = set![start];
    let ghost mut begun = false;
    proof {
        grid.lemma_plan_wf();
        lemma_grown_start(grid.plan(), start);
        lemma_grown_bound(grid.plan(), start, reached);
        assert(frontier@ =~= set![start]);
    }
    while !frontier.is_empty()
        invariant
            grid.wf(),
            grid.sealed(),
            grid.width == width,
            grid.height == height,
            frontier.wf(),
            done.wf(),
            grown(grid.plan(), start, reached),
            reached.len() <= width * height,
            reached == done@.insert(start),
            !begun ==> done@ == Set::<(int, int)>::empty() && frontier@ == set![start],
            begun ==> done@.contains(start),
            forall|c: (int, int)| frontier@.contains(c) ==> grid.in_bounds(c.0, c.1) && !done@.contains(c),
            forall|c: (int, int)| #[trigger] frontier@.contains(c) && begun ==> touches_done(grid, done@, c.0, c.1),
            forall|c: (int, int), d: (int, int)|
                done@.contains(c) && rect(width as int, height as int).contains(d) && #[trigger] adjacent(c, d)
                    ==> done@.contains(d) || frontier@.contains(d),
        decreases 2 * (width * height - reached.len()) + if begun { 0int } else { 1int },
    {
        let (x, y) = pick(&frontier, rng);
        let ghost before = grid;
        let ghost was_done = done@;
        let ghost was_frontier = frontier@;
        let ghost here = (x as int, y as int);
        proof {
            assert(frontier@.contains(here));
        }
        connect(&mut grid, &mut frontier, rng, &mut done, x, y);
        proof {
            assert(done@.contains(here));
            if !begun {
                assert(here == start);
                assert(!touches_done(before, was_done, x as int, y as int));
                assert(reached =~= done@.insert(start));
            } else {
                assert(reached =~= was_done);
                assert(touches_done(before, was_done, x as int, y as int));
                let dir = choose|dir: Direction|
                    was_done.contains((x + dir.dx(), y + dir.dy())) && #[trigger] opened(
                        before,
                        grid,
                        x as int,
                        y as int,
                        dir,
                    );
                let u = (x + dir.dx(), y + dir.dy());
                before.lemma_sealed_kept(grid, x as int, y as int, dir, false);
                lemma_grow(before.plan(), start, reached, u, here);
                assert(edge_between(u, here) == edge_between(here, u));
                reached = reached.insert(here);
                lemma_grown_bound(grid.plan(), start, reached);
                assert(reached =~= done@.insert(start));
            }
            assert forall|c: (int, int)| #[trigger] frontier@.contains(c) implies touches_done(
                grid,
                done@,
                c.0,
                c.1,
            ) by {
                if was_frontier.contains(c) && begun {
                    assert(touches_done(before, was_done, c.0, c.1));
                    let dir = choose|dir: Direction|
                        before.in_bounds(c.0 + dir.dx(), c.1 + dir.dy()) && #[trigger] was_done.contains(
                            (c.0 + dir.dx(), c.1 + dir.dy()),
                        );
                    assert(done@.contains((c.0 + dir.dx(), c.1 + dir.dy())));
                } else {
                    assert(adjacent(here, c));
                    let dir = direction_to(c, here);
                    assert(here == (c.0 + dir.dx(), c.1 + dir.dy()));
                    assert(done@.contains((c.0 + dir.dx(), c.1 + dir.dy())));
                }
            }
            begun = true;
            assert forall|c: (int, int), d: (int, int)|
                done@.contains(c) && rect(width as int, height as int).contains(d) && #[trigger] adjacent(
                    c,
                    d,
                ) implies done@.contains(d) || frontier@.contains(d) by {
                if c == here {
                    if !was_done.contains(d) {
                        assert(d != here);
                        assert(frontier@.contains(d));
                    }
                } else {
                    assert(was_done.contains(c));
                }
            }
        }
    }
    proof {
        if !begun {
            assert(frontier@.contains(start));
        }
        assert(reached =~= done@);
        lemma_grown_perfect(grid.plan(), start, reached);
    }
    proof {
        grid.plan().lemma_perfect_acyclic();
    }
    grid
}

} // verus!
