//! The growing tree: carve from one of the active cells, picked by a
//! configurable policy, until no active cell is left.

use crate::algorithms::{at, carved, direction_to, listed, open_random_dir, CellSelection};
use crate::grid::{Direction, Grid};
use crate::plan::{adjacent, rect};
use crate::random::gen_range;
use crate::tree::{grown, lemma_closed_unreached, lemma_grow, lemma_grown_bound, lemma_grown_perfect, lemma_grown_start, lemma_open_reached};
use rand::StdRng;
use vstd::prelude::*;

verus! {

/// The position that a policy picks among `len` active cells, the oldest
/// at position 0. `random_pos` is a random position and `weight` a random
/// number from 1 to 100; a mixed policy with percentage `p` follows the
/// policy named first where `weight <= p`.
pub open spec fn selected(len: int, method: CellSelection, random_pos: int, weight: int) -> int {
    match method {
        CellSelection::Newest => len - 1,
        CellSelection::Oldest => 0,
        CellSelection::Random => random_pos,
        CellSelection::NewestOldest(p) => if weight <= p {
            len - 1
        } else {
            0
        },
        CellSelection::NewestRandom(p) => if weight <= p {
            len - 1
        } else {
            random_pos
        },
        CellSelection::OldestRandom(p) => if weight <= p {
            0
        } else {
            random_pos
        },
    }
}

/// Applies the policy to the two random draws.
pub fn select(len: usize, method: CellSelection, random_pos: usize, weight: usize) -> (pos: usize)
    requires
        random_pos < len,
    ensures
        pos == selected(len as int, method, random_pos as int, weight as int),
        pos < len,
{
    let newest = len - 1;
    let oldest: usize = 0;
    match method {
        CellSelection::Newest => newest,
        CellSelection::Oldest => oldest,
        CellSelection::Random => random_pos,
        CellSelection::NewestOldest(p) => if weight <= p {
            newest
        } else {
            oldest
        },
        CellSelection::NewestRandom(p) => if weight <= p {
            newest
        } else {
            random_pos
        },
        CellSelection::OldestRandom(p) => if weight <= p {
            oldest
        } else {
            random_pos
        },
    }
}

/// Picks one of the active cells by the policy and returns its coordinates
/// and its position in the list. A random position and a random weight are
/// drawn for every pick, whether the policy looks at them or not.
pub fn choose_cell(cells: &Vec<(usize, usize)>, selection_method: CellSelection, rng: &mut StdRng) -> (r: (
    usize,
    usize,
    usize,
))
    requires
        cells@.len() >= 1,
    ensures
        r.2 < cells@.len(),
        (r.0, r.1) == cells@[r.2 as int],
        exists|random_pos: int, weight: int|
            0 <= random_pos < cells@.len() && 1 <= weight <= 100 && r.2 == selected(
                cells@.len() as int,
                selection_method,
                random_pos,
                weight,
            ),
{
    let rp = gen_range(rng, 0, cells.len());
    let weight = gen_range(rng, 1, 101);
    let pos = select(cells.len(), selection_method, rp, weight);
    let (x, y) = cells[pos];
    proof {
        assert(0 <= rp < cells@.len() && 1 <= weight <= 100 && pos == selected(
            cells@.len() as int,
            selection_method,
            rp as int,
            weight as int,
        ));
    }
    (x, y, pos)
}

/// Generates a perfect maze by growing a tree from a random cell. Each
/// round picks an active cell by `selection_method` and carves from it into
/// a closed neighbour, which becomes active; a cell without closed
/// neighbours leaves the list.
pub fn run(width: usize, height: usize, rng: &mut StdRng, selection_method: CellSelection) -> (grid: Grid)
    requires
        width >= 1,
        height >= 1,
    ensures
        grid.wf(),
        grid.width == width,
        grid.height == height,
        grid.sealed(),
        grid.plan().is_perfect(),
        grid.plan().acyclic(),
{
    let mut grid = Grid::new(width, height, true);
    let (x, y) = (gen_range(rng, 0, width), gen_range(rng, 0, height));
    let mut cells: Vec<(usize, usize)> = Vec::new();
    cells.push((x, y));
    let ghost start = (x as int, y as int);
    let ghost mut reached: Set<(int, int)> = set![start];
    proof {
        grid.lemma_plan_wf();
        lemma_grown_start(grid.plan(), start);
        assert(at(cells@[0]) == start);
    }
    while cells.len() > 0
        invariant
            grid.wf(),
            grid.sealed(),
            grid.width == width,
            grid.height == height,
            grown(grid.plan(), start, reached),
            forall|k: int| 0 <= k < cells@.len() ==> reached.contains(at(#[trigger] cells@[k])),
            forall|c: (int, int), d: (int, int)|
                reached.contains(c) && !listed(cells@, c) && rect(width as int, height as int).contains(d)
                    && #[trigger] adjacent(c, d) ==> reached.contains(d),
        decreases width * height - reached.len(), cells@.len(),
    {
        let (x, y, pos) = choose_cell(&cells, selection_method, rng);
        let ghost before = grid;
        let ghost active = cells@;
        proof {
            lemma_grown_bound(grid.plan(), start, reached);
            assert(reached.contains(at(cells@[pos as int])));
        }
        match open_random_dir(&mut grid, x, y, rng) {
            Some(next) => {
                proof {
                    let dir = choose|dir: Direction| carved(before, grid, x as int, y as int, dir, at(next));
                    let u = (x as int, y as int);
                    let v = at(next);
                    before.lemma_sealed_kept(grid, x as int, y as int, dir, false);
                    lemma_closed_unreached(before, start, reached, u, v);
                    lemma_grow(before.plan(), start, reached, u, v);
                    reached = reached.insert(v);
                    lemma_grown_bound(grid.plan(), start, reached);
                }
                cells.push(next);
                proof {
                    assert(at(cells@[cells@.len() - 1]) == at(next));
                    assert forall|c: (int, int), d: (int, int)|
                        reached.contains(c) && !listed(cells@, c) && rect(width as int, height as int).contains(d)
                            && #[trigger] adjacent(c, d) implies reached.contains(d) by {
                        if listed(active, c) {
                            let k = choose|k: int| 0 <= k < active.len() && at(#[trigger] active[k]) == c;
                            assert(at(cells@[k]) == c);
                        }
                    }
                }
            },
            None => {
                cells.remove(pos);
                proof {
                    assert forall|c: (int, int), d: (int, int)|
                        reached.contains(c) && !listed(cells@, c) && rect(width as int, height as int).contains(d)
                            && #[trigger] adjacent(c, d) implies reached.contains(d) by {
                        if listed(active, c) {
                            let k = choose|k: int| 0 <= k < active.len() && at(#[trigger] active[k]) == c;
                            if k < pos {
                                assert(at(cells@[k]) == c);
                            } else if k > pos {
                                assert(at(cells@[k - 1]) == c);
                            }
                            assert(c == (x as int, y as int));
                            let dir = direction_to(c, d);
                            assert(d == (c.0 + dir.dx(), c.1 + dir.dy()));
                            assert(!grid.closed_at(c.0 + dir.dx(), c.1 + dir.dy()));
                            lemma_open_reached(grid, start, reached, d);
                        }
                    }
                }
            },
        }
    }
    proof {
        assert forall|c: (int, int), d: (int, int)|
            reached.contains(c) && rect(width as int, height as int).contains(d) && #[trigger] adjacent(
                c,
                d,
            ) implies reached.contains(d) by {
            assert(!listed(cells@, c));
        }
        lemma_grown_perfect(grid.plan(), start, reached);
    }
    proof {
        grid.plan().lemma_perfect_acyclic();
    }
    grid
}

} // verus!
