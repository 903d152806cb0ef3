//! The generation strategies, and what they share.

use crate::grid::{Direction, Grid};
use crate::plan::edge_between;
use crate::random::{gen_range, shuffle};
use rand::StdRng;
use vstd::prelude::*;

pub mod binary_tree;
pub mod decode;
pub mod ellers_algorithm;
pub mod growing_tree;
pub mod hunt_kill_algorithm;
pub mod kruskals_algorithm;
pub mod prims_algorithm;
pub mod recursive_backtracking;
pub mod recursive_division;
pub mod sidewinder_algorithm;

verus! {

/// Which strategy generates the maze, with the strategy's own parameter.
#[derive(Clone, Copy, PartialEq, Eq, Debug)]
pub enum Algorithm {
    BinaryTree(Bias),
    EllersAlgorithm(Scan),
    RecursiveBacktracking,
    HuntKillAlgorithm,
    PrimsAlgorithm,
    GrowingTree(CellSelection),
    SidewinderAlgorithm(Scan),
    KruskalsAlgorithm,
    RecursiveDivision,
}

/// How the growing tree picks its next cell among the active ones. The
/// number of a mixed policy is the percentage of picks that go to the
/// policy named first.
#[derive(Clone, Copy, PartialEq, Eq, Debug)]
pub enum CellSelection {
    Newest,
    Oldest,
    Random,
    NewestOldest(usize),
    NewestRandom(usize),
    OldestRandom(usize),
}

/// The corner towards which the binary tree carves.
#[derive(Clone, Copy, PartialEq, Eq, Structural, Debug)]
pub enum Bias {
    Northeast,
    Northwest,
    Southeast,
    Southwest,
}

/// Whether a line-by-line strategy works through rows or through columns.
#[derive(Clone, Copy, PartialEq, Eq, Debug)]
pub enum Scan {
    Horizontal,
    Vertical,
}

impl Scan {
    /// The cell at position `pos` of line `line`: lines are rows for a
    /// horizontal scan and columns for a vertical one.
    pub open spec fn cell(self, pos: int, line: int) -> (int, int) {
        match self {
            Scan::Horizontal => (pos, line),
            Scan::Vertical => (line, pos),
        }
    }

    /// The direction from a cell to the next cell of its line.
    pub open spec fn along(self) -> Direction {
        match self {
            Scan::Horizontal => Direction::East,
            Scan::Vertical => Direction::South,
        }
    }

    /// The direction from a cell to the line before.
    pub open spec fn back(self) -> Direction {
        match self {
            Scan::Horizontal => Direction::North,
            Scan::Vertical => Direction::West,
        }
    }

    /// The direction from a cell to the next line.
    pub open spec fn ahead(self) -> Direction {
        match self {
            Scan::Horizontal => Direction::South,
            Scan::Vertical => Direction::East,
        }
    }

    /// The number of cells in a line.
    pub open spec fn line_len(self, grid: Grid) -> int {
        match self {
            Scan::Horizontal => grid.width as int,
            Scan::Vertical => grid.height as int,
        }
    }

    /// The number of lines.
    pub open spec fn lines(self, grid: Grid) -> int {
        match self {
            Scan::Horizontal => grid.height as int,
            Scan::Vertical => grid.width as int,
        }
    }
}

/// A coordinate pair of the executable code as a cell of the plan.
pub open spec fn at(p: (usize, usize)) -> (int, int) {
    (p.0 as int, p.1 as int)
}

/// Whether the cell `c` is somewhere in the list.
pub open spec fn listed(cells: Seq<(usize, usize)>, c: (int, int)) -> bool {
    exists|k: int| 0 <= k < cells.len() && at(#[trigger] cells[k]) == c
}

/// The direction of the step from a cell to an adjacent one.
pub open spec fn direction_to(c: (int, int), d: (int, int)) -> Direction {
    if d.0 == c.0 + 1 {
        Direction::East
    } else if d.0 + 1 == c.0 {
        Direction::West
    } else if d.1 == c.1 + 1 {
        Direction::South
    } else {
        Direction::North
    }
}

/// The four directions in their fixed order.
pub open spec fn all_directions() -> Seq<Direction> {
    seq![Direction::North, Direction::South, Direction::East, Direction::West]
}

/// The four directions in a random order.
pub fn shuffled_directions(rng: &mut StdRng) -> (dirs: Vec<Direction>)
    ensures
        dirs@.to_multiset() == all_directions().to_multiset(),
        dirs@.len() == 4,
        dirs@.no_duplicates(),
        forall|dir: Direction| dirs@.contains(dir),
{
    let mut dirs: Vec<Direction> = Vec::new();
    dirs.push(Direction::North);
    dirs.push(Direction::South);
    dirs.push(Direction::East);
    dirs.push(Direction::West);
    proof {
        assert(dirs@ =~= all_directions());
    }
    shuffle(rng, &mut dirs);
    proof {
        all_directions().to_multiset_ensures();
        dirs@.to_multiset_ensures();
        all_directions().lemma_multiset_has_no_duplicates();
        dirs@.lemma_multiset_has_no_duplicates_conv();
        assert forall|dir: Direction| dirs@.contains(dir) by {
            match dir {
                Direction::North => assert(all_directions()[0] == dir),
                Direction::South => assert(all_directions()[1] == dir),
                Direction::East => assert(all_directions()[2] == dir),
                Direction::West => assert(all_directions()[3] == dir),
            }
            assert(all_directions().contains(dir));
            assert(all_directions().to_multiset().count(dir) > 0);
            assert(dirs@.to_multiset().count(dir) > 0);
        }
    }
    dirs
}

/// `after` is `before` with the wall between `(x, y)` and its neighbour
/// towards `dir` opened, and nothing else changed.
pub open spec fn opened(before: Grid, after: Grid, x: int, y: int, dir: Direction) -> bool {
    &&& before.in_bounds(x + dir.dx(), y + dir.dy())
    &&& after.width == before.width
    &&& after.height == before.height
    &&& forall|a: int, b: int, d: Direction|
        before.in_bounds(a, b) ==> #[trigger] after.wall(a, b, d) == (!before.same_wall(x, y, dir, a, b, d)
            && before.wall(a, b, d))
    &&& after.plan() == before.plan().with_edge(edge_between((x, y), (x + dir.dx(), y + dir.dy())))
}

/// `after` is `before` with a passage carved from `(x, y)` towards `dir`,
/// into the cell `n`, which was closed.
pub open spec fn carved(before: Grid, after: Grid, x: int, y: int, dir: Direction, n: (int, int)) -> bool {
    &&& n == (x + dir.dx(), y + dir.dy())
    &&& before.closed_at(n.0, n.1)
    &&& opened(before, after, x, y, dir)
}

/// No neighbour of `(x, y)` is closed.
pub open spec fn hemmed_in(grid: Grid, x: int, y: int) -> bool {
    forall|dir: Direction|
        grid.in_bounds(x + dir.dx(), y + dir.dy()) ==> !#[trigger] grid.closed_at(x + dir.dx(), y + dir.dy())
}

/// Carves a passage from `(x, y)` into a closed neighbour, trying the four
/// directions in random order, and returns that neighbour. Where no
/// neighbour is closed the grid stays as it is.
pub fn open_random_dir(grid: &mut Grid, x: usize, y: usize, rng: &mut StdRng) -> (r: Option<(usize, usize)>)
    requires
        old(grid).wf(),
        old(grid).in_bounds(x as int, y as int),
    ensures
        final(grid).wf(),
        match r {
            Some(n) => exists|dir: Direction| carved(*old(grid), *final(grid), x as int, y as int, dir, at(n)),
            None => *final(grid) == *old(grid) && hemmed_in(*old(grid), x as int, y as int),
        },
{
    let directions = shuffled_directions(rng);
    let mut i: usize = 0;
    while i < 4
        invariant
            i <= 4,
            directions@.len() == 4,
            *grid == *old(grid),
            grid.wf(),
            grid.in_bounds(x as int, y as int),
            forall|k: int|
                0 <= k < i && grid.in_bounds(x + directions@[k].dx(), y + directions@[k].dy()) ==> !grid.closed_at(
                    x + #[trigger] directions@[k].dx(),
                    y + directions@[k].dy(),
                ),
        decreases 4 - i,
    {
        let dir = directions[i];
        if let Some((nx, ny)) = grid.cell_at(x, y, dir) {
            if grid.cells[nx][ny].is_closed() {
                grid.open(x, y, dir);
                proof {
                    assert(carved(*old(grid), *grid, x as int, y as int, dir, at((nx, ny))));
                }
                return Some((nx, ny));
            }
        }
        i += 1;
    }
    proof {
        assert forall|dir: Direction| grid.in_bounds(x + dir.dx(), y + dir.dy()) implies !#[trigger] grid.closed_at(
            x + dir.dx(),
            y + dir.dy(),
        ) by {
            assert(directions@.contains(dir));
            let k = choose|k: int| 0 <= k < directions@.len() && directions@[k] == dir;
            assert(directions@[k].dx() == dir.dx());
        }
    }
    None
}

/// `after` is `before` with the two boundary walls `first` and `second`
/// opened, which are on different sides of the grid.
pub open spec fn breached(before: Grid, after: Grid, first: (int, int, Direction), second: (int, int, Direction)) -> bool {
    &&& before.on_boundary(first)
    &&& before.on_boundary(second)
    &&& first.2 != second.2
    &&& after.width == before.width
    &&& after.height == before.height
    &&& forall|a: int, b: int, d: Direction|
        before.in_bounds(a, b) ==> #[trigger] after.wall(a, b, d) == (before.wall(a, b, d) && (a, b, d) != first && (
            a,
            b,
            d,
        ) != second)
}

/// Opens the outer boundary in two places, on two sides of the grid drawn
/// at random, each at a random cell of its side. The passages between the
/// cells stay as they are.
pub fn choose_entry_points(grid: &mut Grid, rng: &mut StdRng)
    requires
        old(grid).wf(),
    ensures
        final(grid).wf(),
        final(grid).plan() == old(grid).plan(),
        exists|first: (int, int, Direction), second: (int, int, Direction)|
            #![trigger breached(*old(grid), *final(grid), first, second)]
            breached(*old(grid), *final(grid), first, second) && (old(grid).sealed() ==> final(grid).breaches()
                == set![first, second]),
        old(grid).sealed() ==> final(grid).breaches().len() == 2,
{
    let directions = shuffled_directions(rng);
    let ghost mut first = (0int, 0int, Direction::North);
    let mut k: usize = 0;
    while k < 2
        invariant
            k <= 2,
            directions@.len() == 4,
            directions@.no_duplicates(),
            grid.wf(),
            grid.width == old(grid).width,
            grid.height == old(grid).height,
            grid.plan() == old(grid).plan(),
            k == 0 ==> *grid == *old(grid),
            k == 1 ==> first.2 == directions@[0] && old(grid).on_boundary(first) && forall|a: int, b: int, d: Direction|
                old(grid).in_bounds(a, b) ==> #[trigger] grid.wall(a, b, d) == (old(grid).wall(a, b, d) && (a, b, d)
                    != first),
            k == 2 ==> exists|second: (int, int, Direction)|
                #![trigger breached(*old(grid), *grid, first, second)]
                breached(*old(grid), *grid, first, second),
        decreases 2 - k,
    {
        let dir = directions[k];
        let (x, y) = match dir {
            Direction::North => (gen_range(rng, 0, grid.width), 0),
            Direction::South => (gen_range(rng, 0, grid.width), grid.height - 1),
            Direction::East => (grid.width - 1, gen_range(rng, 0, grid.height)),
            Direction::West => (0, gen_range(rng, 0, grid.height)),
        };
        let ghost before = *grid;
        grid.open(x, y, dir);
        proof {
            let entry = (x as int, y as int, dir);
            assert(before.on_boundary(entry));
            assert forall|a: int, b: int, d: Direction| before.in_bounds(a, b) implies #[trigger] grid.wall(a, b, d) == (
            before.wall(a, b, d) && (a, b, d) != entry) by {
                assert(before.same_wall(x as int, y as int, dir, a, b, d) == ((a, b, d) == entry));
            }
            if k == 0 {
                first = entry;
            } else {
                assert(directions@[0] != directions@[1]);
                assert(breached(*old(grid), *grid, first, entry));
            }
        }
        k += 1;
    }
    proof {
        let second = choose|second: (int, int, Direction)|
            #![trigger breached(*old(grid), *grid, first, second)]
            breached(*old(grid), *grid, first, second);
        if old(grid).sealed() {
            assert forall|w: (int, int, Direction)| grid.breaches().contains(w) <==> set![first, second].contains(w) by {
                if old(grid).on_boundary(w) {
                    assert(old(grid).wall(w.0, w.1, w.2));
                    assert(grid.wall(w.0, w.1, w.2) == (old(grid).wall(w.0, w.1, w.2) && (w.0, w.1, w.2) != first && (
                        w.0,
                        w.1,
                        w.2,
                    ) != second));
                }
            }
            assert(grid.breaches() =~= set![first, second]);
            assert(set![first, second].len() == 2) by {
                broadcast use vstd::set_lib::group_set_properties;

                assert(set![first, second] =~= set![first].insert(second));
            }
        }
    }
}

} // verus!
