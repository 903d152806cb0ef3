//! Perfect-maze generation on rectangular grids.
//!
//! A [`grid::Grid`] is a dense array of cells, each with four wall flags.
//! The strategies under [`algorithms`] carve passages into a grid (or, for
//! recursive division, build walls into an open one) until the passages
//! form a spanning tree of the grid. [`Maze`] picks a strategy and adds
//! two entry points on the outer boundary.

use vstd::prelude::*;

pub mod algorithms;
pub mod cell_set;
pub mod forest;
pub mod grid;
pub mod plan;
pub mod random;
pub mod render;
pub mod tree;

pub use crate::algorithms::{Algorithm, Bias, CellSelection, Scan};
use crate::algorithms::{
    binary_tree, breached, choose_entry_points, ellers_algorithm, growing_tree, hunt_kill_algorithm,
    kruskals_algorithm, prims_algorithm, recursive_backtracking, recursive_division, sidewinder_algorithm,
};
use crate::grid::{Direction, Grid};
use rand::StdRng;

verus! {

/// The size of a maze and the strategy that generates it.
pub struct Maze {
    width: usize,
    height: usize,
    algorithm: Algorithm,
}

impl Maze {
    /// The number of columns.
    pub closed spec fn width(&self) -> int {
        self.width as int
    }

    /// The number of rows.
    pub closed spec fn height(&self) -> int {
        self.height as int
    }

    /// The strategy that is set.
    pub closed spec fn chosen(&self) -> Algorithm {
        self.algorithm
    }

    /// Both dimensions are positive.
    pub open spec fn wf(&self) -> bool {
        self.width() >= 1 && self.height() >= 1
    }

    /// A maze of the given size, generated by recursive backtracking unless
    /// another strategy is set.
    pub fn new(width: usize, height: usize) -> (maze: Maze)
        requires
            width > 0,
            height > 0,
        ensures
            maze.wf(),
            maze.width() == width,
            maze.height() == height,
            maze.chosen() == Algorithm::RecursiveBacktracking,
    {
        Maze { width, height, algorithm: Algorithm::RecursiveBacktracking }
    }

    /// The width and the height that were set.
    pub fn dimensions(&self) -> (size: (usize, usize))
        ensures
            size.0 == self.width(),
            size.1 == self.height(),
    {
        (self.width, self.height)
    }

    /// Sets the strategy.
    pub fn algorithm(&mut self, algorithm: Algorithm) -> (maze: &mut Maze)
        ensures
            maze.chosen() == algorithm,
            maze.width() == old(self).width(),
            maze.height() == old(self).height(),
            *final(self) == *final(maze),
    {
        self.algorithm = algorithm;
        self
    }

    /// Generates the maze with the strategy that is set, drawing from
    /// `rng`, and opens two entry points on its boundary. The passages
    /// between the cells form a spanning tree of the grid, and the boundary
    /// is open in exactly two places, on two different sides. A binary
    /// tree leans towards its bias.
    pub fn generate_grid(&self, rng: &mut StdRng) -> (grid: Grid)
        requires
            self.wf(),
        ensures
            grid.wf(),
            grid.width == self.width(),
            grid.height == self.height(),
            grid.plan().is_perfect(),
            grid.plan().acyclic(),
            grid.breaches().len() == 2,
            exists|first: (int, int, Direction), second: (int, int, Direction)|
                first.2 != second.2 && #[trigger] grid.breaches() == set![first, second],
            match self.chosen() {
                Algorithm::BinaryTree(bias) => forall|a: int, b: int|
                    grid.in_bounds(a, b) ==> #[trigger] binary_tree::leans(grid, bias, a, b),
                _ => true,
            },
    {
        let width = self.width;
        let height = self.height;
        let mut grid = match self.algorithm {
            Algorithm::BinaryTree(bias) => binary_tree::run(width, height, rng, bias),
            Algorithm::EllersAlgorithm(scan) => ellers_algorithm::run(width, height, rng, scan),
            Algorithm::RecursiveBacktracking => recursive_backtracking::run(width, height, rng),
            Algorithm::HuntKillAlgorithm => hunt_kill_algorithm::run(width, height, rng),
            Algorithm::PrimsAlgorithm => prims_algorithm::run(width, height, rng),
            Algorithm::GrowingTree(cell_selection) => growing_tree::run(width, height, rng, cell_selection),
            Algorithm::SidewinderAlgorithm(scan) => sidewinder_algorithm::run(width, height, rng, scan),
            Algorithm::KruskalsAlgorithm => kruskals_algorithm::run(width, height, rng),
            Algorithm::RecursiveDivision => recursive_division::run(width, height, rng),
        };
        let ghost sealed = grid;
        choose_entry_points(&mut grid, rng);
        proof {
            let (first, second) = choose|first: (int, int, Direction), second: (int, int, Direction)|
                #![trigger breached(sealed, grid, first, second)]
                breached(sealed, grid, first, second) && (sealed.sealed() ==> grid.breaches() == set![first, second]);
            assert(first.2 != second.2 && grid.breaches() == set![first, second]);
            match self.algorithm {
                Algorithm::BinaryTree(bias) => {
                    assert forall|a: int, b: int| grid.in_bounds(a, b) implies #[trigger] binary_tree::leans(
                        grid,
                        bias,
                        a,
                        b,
                    ) by {
                        assert(binary_tree::leans(sealed, bias, a, b));
                    }
                },
                _ => {},
            }
        }
        grid
    }
}

} // verus!
