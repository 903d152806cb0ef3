//! Recursive backtracking: a random depth-first walk that carves into
//! closed cells and backs up along its own trail when it is hemmed in.

use crate::algorithms::{at, carved, direction_to, listed, open_random_dir};
use crate::grid::{Direction, Grid};
use crate::plan::{adjacent, rect};
use crate::random::gen_range;
use crate::tree::{grown, lemma_closed_unreached, lemma_grow, lemma_grown_bound, lemma_grown_perfect, lemma_grown_start, lemma_open_reached};
use rand::StdRng;
use vstd::prelude::*;

verus! {

/// Generates a perfect maze by a depth-first walk from a random cell. The
/// trail of the walk is kept on an explicit stack.
pub fn run(width: usize, height: usize, rng: &mut StdRng) -> (grid: Grid)
    requires
        width >= 1,
        height >= 1,
    ensures
        grid.wf(),
        grid.width == width,
        grid.height == height,
        grid.sealed(),
        grid.plan().is_perfect(),
        grid.plan().acyclic(),
{
    let mut grid = Grid::new(width, height, true);
    let mut indices: Vec<(usize, usize)> = Vec::new();
    let o = (gen_range(rng, 0, width), gen_range(rng, 0, height));
    indices.push(o);
    let ghost start = at(o);
    let ghost mut reached: Set<(int, int)> = set![start];
    proof {
        grid.lemma_plan_wf();
        lemma_grown_start(grid.plan(), start);
        assert(at(indices@[0]) == start);
    }
    while indices.len() > 0
        invariant
            grid.wf(),
            grid.sealed(),
            grid.width == width,
            grid.height == height,
            grown(grid.plan(), start, reached),
            forall|k: int| 0 <= k < indices@.len() ==> reached.contains(at(#[trigger] indices@[k])),
            forall|c: (int, int), d: (int, int)|
                reached.contains(c) && !listed(indices@, c) && rect(width as int, height as int).contains(d)
                    && #[trigger] adjacent(c, d) ==> reached.contains(d),
        decreases width * height - reached.len(), indices@.len(),
    {
        let (x, y) = indices[indices.len() - 1];
        let ghost before = grid;
        let ghost trail = indices@;
        proof {
            lemma_grown_bound(grid.plan(), start, reached);
            assert(reached.contains(at(indices@[indices@.len() - 1])));
        }
        match open_random_dir(&mut grid, x, y, rng) {
            Some(next) => {
                proof {
                    let dir = choose|dir: Direction| carved(before, grid, x as int, y as int, dir, at(next));
                    let u = (x as int, y as int);
                    let v = at(next);
                    before.lemma_sealed_kept(grid, x as int, y as int, dir, false);
                    lemma_closed_unreached(before, start, reached, u, v);
                    lemma_grow(before.plan(), start, reached, u, v);
                    reached = reached.insert(v);
                    lemma_grown_bound(grid.plan(), start, reached);
                }
                indices.push(next);
                proof {
                    assert(at(indices@[indices@.len() - 1]) == at(next));
                    assert forall|c: (int, int), d: (int, int)|
                        reached.contains(c) && !listed(indices@, c) && rect(width as int, height as int).contains(d)
                            && #[trigger] adjacent(c, d) implies reached.contains(d) by {
                        if listed(trail, c) {
                            let k = choose|k: int| 0 <= k < trail.len() && at(#[trigger] trail[k]) == c;
                            assert(at(indices@[k]) == c);
                        }
                    }
                }
            },
            None => {
                indices.pop();
                proof {
                    assert forall|c: (int, int), d: (int, int)|
                        reached.contains(c) && !listed(indices@, c) && rect(width as int, height as int).contains(d)
                            && #[trigger] adjacent(c, d) implies reached.contains(d) by {
                        if listed(trail, c) {
                            let k = choose|k: int| 0 <= k < trail.len() && at(#[trigger] trail[k]) == c;
                            if k < indices@.len() {
                                assert(at(indices@[k]) == c);
                            }
                            assert(c == (x as int, y as int));
                            let dir = direction_to(c, d);
                            assert(d == (c.0 + dir.dx(), c.1 + dir.dy()));
                            assert(!grid.closed_at(c.0 + dir.dx(), c.1 + dir.dy()));
                            lemma_open_reached(grid, start, reached, d);
                        }
                    }
                }
            },
        }
    }
    proof {
        assert forall|c: (int, int), d: (int, int)|
            reached.contains(c) && rect(width as int, height as int).contains(d) && #[trigger] adjacent(
                c,
                d,
            ) implies reached.contains(d) by {
            assert(!listed(indices@, c));
        }
        lemma_grown_perfect(grid.plan(), start, reached);
    }
    proof {
        grid.plan().lemma_perfect_acyclic();
    }
    grid
}

} // verus!
