//! The grid of cells that every generation strategy reads and writes.

use crate::plan::{edge_between, Edge, Plan};
use vstd::prelude::*;

verus! {

/// One of the four sides of a cell.
#[derive(Clone, Copy, PartialEq, Eq, Structural, Debug)]
pub enum Direction {
    North,
    South,
    East,
    West,
}

impl Direction {
    /// The direction pointing the other way.
    pub open spec fn opposite_of(self) -> Direction {
        match self {
            Direction::North => Direction::South,
            Direction::South => Direction::North,
            Direction::East => Direction::West,
            Direction::West => Direction::East,
        }
    }

    /// Horizontal offset of one step in this direction.
    pub open spec fn dx(self) -> int {
        match self {
            Direction::East => 1,
            Direction::West => -1,
            _ => 0,
        }
    }

    /// Vertical offset of one step in this direction; `y` grows southwards.
    pub open spec fn dy(self) -> int {
        match self {
            Direction::South => 1,
            Direction::North => -1,
            _ => 0,
        }
    }

    /// The direction pointing the other way.
    #[verifier::when_used_as_spec(opposite_of)]
    pub fn opposite(self) -> (r: Direction)
        ensures
            r == self.opposite_of(),
    {
        match self {
            Direction::North => Direction::South,
            Direction::South => Direction::North,
            Direction::East => Direction::West,
            Direction::West => Direction::East,
        }
    }

    /// `opposite` is an involution without fixed points, and it negates the
    /// step offsets.
    pub proof fn lemma_opposite(self)
        ensures
            self.opposite().opposite() == self,
            self.opposite() != self,
            self.opposite().dx() == -self.dx(),
            self.opposite().dy() == -self.dy(),
    {
    }
}

/// The four wall flags of one cell; `true` means the side is blocked.
#[derive(Clone, Copy, Debug)]
pub struct Cell {
    north: bool,
    south: bool,
    east: bool,
    west: bool,
}

impl Cell {
    /// Whether the side `dir` of this cell is blocked.
    pub closed spec fn wall(&self, dir: Direction) -> bool {
        match dir {
            Direction::North => self.north,
            Direction::South => self.south,
            Direction::East => self.east,
            Direction::West => self.west,
        }
    }

    /// All four sides are blocked.
    pub open spec fn all_walls(&self) -> bool {
        &&& self.wall(Direction::North)
        &&& self.wall(Direction::South)
        &&& self.wall(Direction::East)
        &&& self.wall(Direction::West)
    }

    /// A cell whose four walls are all `closed`.
    pub fn new(closed: bool) -> (cell: Cell)
        ensures
            forall|dir: Direction| cell.wall(dir) == closed,
    {
        Cell { north: closed, south: closed, east: closed, west: closed }
    }

    /// Whether all four walls are blocked.
    pub fn is_closed(&self) -> (r: bool)
        ensures
            r == self.all_walls(),
    {
        self.north && self.south && self.east && self.west
    }

    /// Sets the wall towards `dir` and leaves the other three.
    pub fn set(&mut self, dir: Direction, closed: bool)
        ensures
            forall|d: Direction|
                final(self).wall(d) == if d == dir {
                    closed
                } else {
                    old(self).wall(d)
                },
    {
        match dir {
            Direction::North => self.north = closed,
            Direction::South => self.south = closed,
            Direction::East => self.east = closed,
            Direction::West => self.west = closed,
        }
    }

    /// Whether the wall towards `dir` is blocked.
    pub fn get(&self, dir: Direction) -> (r: bool)
        ensures
            r == self.wall(dir),
    {
        match dir {
            Direction::North => self.north,
            Direction::South => self.south,
            Direction::East => self.east,
            Direction::West => self.west,
        }
    }
}

/// A dense `width` x `height` array of cells, stored column by column:
/// the cell at `(x, y)` is `cells[x][y]`.
pub struct Grid {
    pub width: usize,
    pub height: usize,
    pub cells: Vec<Vec<Cell>>,
}

impl Grid {
    /// `(x, y)` is a cell of the grid.
    pub open spec fn in_bounds(&self, x: int, y: int) -> bool {
        0 <= x < self.width && 0 <= y < self.height
    }

    /// Whether side `dir` of the cell at `(x, y)` is blocked.
    pub open spec fn wall(&self, x: int, y: int, dir: Direction) -> bool {
        self.cells@[x]@[y].wall(dir)
    }

    /// The dimensions are positive and the cell array has exactly that shape.
    pub open spec fn shaped(&self) -> bool {
        &&& self.width >= 1
        &&& self.height >= 1
        &&& self.cells@.len() == self.width
        &&& forall|x: int| 0 <= x < self.width ==> (#[trigger] self.cells@[x])@.len() == self.height
    }

    /// Every wall between two cells of the grid looks the same from both sides.
    pub open spec fn symmetric(&self) -> bool {
        &&& forall|x: int, y: int|
            self.in_bounds(x, y) && self.in_bounds(x + 1, y) ==> #[trigger] self.wall(
                x,
                y,
                Direction::East,
            ) == self.wall(x + 1, y, Direction::West)
        &&& forall|x: int, y: int|
            self.in_bounds(x, y) && self.in_bounds(x, y + 1) ==> #[trigger] self.wall(
                x,
                y,
                Direction::South,
            ) == self.wall(x, y + 1, Direction::North)
    }

    /// The grid is well shaped and its walls are symmetric.
    pub open spec fn wf(&self) -> bool {
        self.shaped() && self.symmetric()
    }

    /// The cell next to `(x, y)` in direction `dir`, if the grid has one.
    pub open spec fn neighbor(&self, x: int, y: int, dir: Direction) -> Option<(int, int)> {
        if self.in_bounds(x + dir.dx(), y + dir.dy()) {
            Some((x + dir.dx(), y + dir.dy()))
        } else {
            None
        }
    }

    /// Whether `(a, b, d)` names the wall flag at `(x, y, dir)` or the flag
    /// on the other side of the same wall.
    pub open spec fn same_wall(&self, x: int, y: int, dir: Direction, a: int, b: int, d: Direction) -> bool {
        ||| (a == x && b == y && d == dir)
        ||| (self.in_bounds(a, b) && a == x + dir.dx() && b == y + dir.dy() && d == dir.opposite())
    }

    /// All four sides of the cell at `(x, y)` are blocked.
    pub open spec fn closed_at(&self, x: int, y: int) -> bool {
        &&& self.wall(x, y, Direction::North)
        &&& self.wall(x, y, Direction::South)
        &&& self.wall(x, y, Direction::East)
        &&& self.wall(x, y, Direction::West)
    }

    /// Every wall on the outer boundary of the grid is blocked.
    pub open spec fn sealed(&self) -> bool {
        forall|x: int, y: int, dir: Direction|
            self.in_bounds(x, y) && !self.in_bounds(x + dir.dx(), y + dir.dy()) ==> #[trigger] self.wall(x, y, dir)
    }

    /// The wall flag `w` is on the outer boundary: its cell has no
    /// neighbour on that side.
    pub open spec fn on_boundary(&self, w: (int, int, Direction)) -> bool {
        self.in_bounds(w.0, w.1) && !self.in_bounds(w.0 + w.2.dx(), w.1 + w.2.dy())
    }

    /// The walls on the outer boundary that are open.
    pub open spec fn breaches(&self) -> Set<(int, int, Direction)> {
        Set::new(|w: (int, int, Direction)| self.on_boundary(w) && !self.wall(w.0, w.1, w.2))
    }

    /// The edge `e` lies in the grid and the wall across it is open.
    pub open spec fn passage(&self, e: Edge) -> bool {
        &&& self.in_bounds(e.x, e.y)
        &&& self.in_bounds(e.to().0, e.to().1)
        &&& !self.wall(e.x, e.y, if e.east { Direction::East } else { Direction::South })
    }

    /// The grid's dimensions and its open passages between cells.
    pub open spec fn plan(&self) -> Plan {
        Plan { width: self.width as int, height: self.height as int, open: Set::new(|e: Edge| self.passage(e)) }
    }

    /// The plan after the wall at `(x, y, dir)` was set: a passage more or
    /// less where the wall separates two cells, the same plan where it is
    /// on the boundary.
    pub open spec fn plan_after_set(&self, x: int, y: int, dir: Direction, closed: bool) -> Plan {
        match self.neighbor(x, y, dir) {
            Some(n) => if closed {
                self.plan().without_edge(edge_between((x, y), n))
            } else {
                self.plan().with_edge(edge_between((x, y), n))
            },
            None => self.plan(),
        }
    }

    /// The coordinates of the neighbour of `(x, y)` towards `dir`, or `None`
    /// where `dir` points out of the grid.
    pub fn cell_at(&self, x: usize, y: usize, dir: Direction) -> (r: Option<(usize, usize)>)
        requires
            self.in_bounds(x as int, y as int),
        ensures
            match r {
                Some((nx, ny)) => self.in_bounds(nx as int, ny as int) && self.neighbor(x as int, y as int, dir)
                    == Some((nx as int, ny as int)),
                None => self.neighbor(x as int, y as int, dir).is_none(),
            },
    {
        match dir {
            Direction::North => if y > 0 { Some((x, y - 1)) } else { None },
            Direction::South => if y < self.height - 1 { Some((x, y + 1)) } else { None },
            Direction::East => if x < self.width - 1 { Some((x + 1, y)) } else { None },
            Direction::West => if x > 0 { Some((x - 1, y)) } else { None },
        }
    }

    /// Sets the wall of `(x, y)` towards `dir` to `closed`, and with it the
    /// other side of that wall, where the cell has a neighbour there.
    pub fn set(&mut self, x: usize, y: usize, dir: Direction, closed: bool)
        requires
            old(self).wf(),
            old(self).in_bounds(x as int, y as int),
        ensures
            final(self).wf(),
            final(self).width == old(self).width,
            final(self).height == old(self).height,
            forall|a: int, b: int, d: Direction|
                old(self).in_bounds(a, b) ==> #[trigger] final(self).wall(a, b, d) == if old(self).same_wall(
                    x as int,
                    y as int,
                    dir,
                    a,
                    b,
                    d,
                ) {
                    closed
                } else {
                    old(self).wall(a, b, d)
                },
            final(self).plan() == old(self).plan_after_set(x as int, y as int, dir, closed),
    {
        self.cells[x][y].set(dir, closed);
        if let Some((nx, ny)) = self.cell_at(x, y, dir) {
            self.cells[nx][ny].set(dir.opposite(), closed);
        }
        proof {
            let before = *old(self);
            assert forall|a: int, b: int, d: Direction| before.in_bounds(a, b) implies #[trigger] self.wall(a, b, d)
                == if before.same_wall(x as int, y as int, dir, a, b, d) {
                closed
            } else {
                before.wall(a, b, d)
            } by {}
            assert forall|a: int, b: int| self.in_bounds(a, b) && self.in_bounds(a + 1, b) implies #[trigger] self.wall(
                a,
                b,
                Direction::East,
            ) == self.wall(a + 1, b, Direction::West) by {
                assert(before.wall(a, b, Direction::East) == before.wall(a + 1, b, Direction::West));
            }
            assert forall|a: int, b: int| self.in_bounds(a, b) && self.in_bounds(a, b + 1) implies #[trigger] self.wall(
                a,
                b,
                Direction::South,
            ) == self.wall(a, b + 1, Direction::North) by {
                assert(before.wall(a, b, Direction::South) == before.wall(a, b + 1, Direction::North));
            }
            assert(self.plan().open =~= before.plan_after_set(x as int, y as int, dir, closed).open);
        }
    }

    /// Whether the grid is well formed: checks the shape of the cell array
    /// and every wall between two cells from both of its sides.
    pub fn is_well_formed(&self) -> (r: bool)
        ensures
            r == self.wf(),
    {
        if self.width == 0 || self.height == 0 || self.cells.len() != self.width {
            return false;
        }
        let mut x: usize = 0;
        while x < self.width
            invariant
                x <= self.width,
                self.width >= 1,
                self.height >= 1,
                self.cells@.len() == self.width,
                forall|a: int| 0 <= a < x ==> (#[trigger] self.cells@[a])@.len() == self.height,
            decreases self.width - x,
        {
            if self.cells[x].len() != self.height {
                return false;
            }
            x += 1;
        }
        let mut x: usize = 0;
        while x < self.width
            invariant
                x <= self.width,
                self.shaped(),
                forall|a: int, b: int|
                    0 <= a < x && self.in_bounds(a, b) && self.in_bounds(a + 1, b) ==> #[trigger] self.wall(
                        a,
                        b,
                        Direction::East,
                    ) == self.wall(a + 1, b, Direction::West),
                forall|a: int, b: int|
                    0 <= a < x && self.in_bounds(a, b) && self.in_bounds(a, b + 1) ==> #[trigger] self.wall(
                        a,
                        b,
                        Direction::South,
                    ) == self.wall(a, b + 1, Direction::North),
            decreases self.width - x,
        {
            let mut y: usize = 0;
            while y < self.height
                invariant
                    x < self.width,
                    y <= self.height,
                    self.shaped(),
                    forall|a: int, b: int|
                        (0 <= a < x || (a == x && b < y)) && self.in_bounds(a, b) && self.in_bounds(a + 1, b)
                            ==> #[trigger] self.wall(a, b, Direction::East) == self.wall(a + 1, b, Direction::West),
                    forall|a: int, b: int|
                        (0 <= a < x || (a == x && b < y)) && self.in_bounds(a, b) && self.in_bounds(a, b + 1)
                            ==> #[trigger] self.wall(a, b, Direction::South) == self.wall(a, b + 1, Direction::North),
                decreases self.height - y,
            {
                if x + 1 < self.width && self.cells[x][y].get(Direction::East) != self.cells[x + 1][y].get(
                    Direction::West,
                ) {
                    proof {
                        assert(self.wall(x as int, y as int, Direction::East) != self.wall(
                            x + 1,
                            y as int,
                            Direction::West,
                        ));
                    }
                    return false;
                }
                if y + 1 < self.height && self.cells[x][y].get(Direction::South) != self.cells[x][y + 1].get(
                    Direction::North,
                ) {
                    proof {
                        assert(self.wall(x as int, y as int, Direction::South) != self.wall(
                            x as int,
                            y + 1,
                            Direction::North,
                        ));
                    }
                    return false;
                }
                y += 1;
            }
            x += 1;
        }
        true
    }

    /// Opens the wall at `(x, y)` towards `dir`, on both of its sides.
    pub fn open(&mut self, x: usize, y: usize, dir: Direction)
        requires
            old(self).wf(),
            old(self).in_bounds(x as int, y as int),
        ensures
            final(self).wf(),
            final(self).width == old(self).width,
            final(self).height == old(self).height,
            forall|a: int, b: int, d: Direction|
                old(self).in_bounds(a, b) ==> #[trigger] final(self).wall(a, b, d) == (!old(self).same_wall(
                    x as int,
                    y as int,
                    dir,
                    a,
                    b,
                    d,
                ) && old(self).wall(a, b, d)),
            final(self).plan() == old(self).plan_after_set(x as int, y as int, dir, false),
    {
        self.set(x, y, dir, false);
    }

    /// Blocks the wall at `(x, y)` towards `dir`, on both of its sides.
    pub fn close(&mut self, x: usize, y: usize, dir: Direction)
        requires
            old(self).wf(),
            old(self).in_bounds(x as int, y as int),
        ensures
            final(self).wf(),
            final(self).width == old(self).width,
            final(self).height == old(self).height,
            forall|a: int, b: int, d: Direction|
                old(self).in_bounds(a, b) ==> #[trigger] final(self).wall(a, b, d) == (old(self).same_wall(
                    x as int,
                    y as int,
                    dir,
                    a,
                    b,
                    d,
                ) || old(self).wall(a, b, d)),
            final(self).plan() == old(self).plan_after_set(x as int, y as int, dir, true),
    {
        self.set(x, y, dir, true);
    }

    /// A grid of the given size in which every wall flag is `closed`.
    pub fn new(width: usize, height: usize, closed: bool) -> (grid: Grid)
        requires
            width >= 1,
            height >= 1,
        ensures
            grid.wf(),
            grid.width == width,
            grid.height == height,
            forall|x: int, y: int, dir: Direction| grid.in_bounds(x, y) ==> #[trigger] grid.wall(x, y, dir) == closed,
            closed ==> grid.sealed() && grid.plan().open == Set::<Edge>::empty(),
    {
        let mut cells: Vec<Vec<Cell>> = Vec::new();
        let mut x: usize = 0;
        while x < width
            invariant
                x <= width,
                cells@.len() == x,
                forall|i: int| 0 <= i < x ==> (#[trigger] cells@[i])@.len() == height,
                forall|i: int, j: int, dir: Direction|
                    0 <= i < x && 0 <= j < height ==> #[trigger] cells@[i]@[j].wall(dir) == closed,
            decreases width - x,
        {
            let mut column: Vec<Cell> = Vec::new();
            let mut y: usize = 0;
            while y < height
                invariant
                    y <= height,
                    column@.len() == y,
                    forall|j: int, dir: Direction| 0 <= j < y ==> #[trigger] column@[j].wall(dir) == closed,
                decreases height - y,
            {
                column.push(Cell::new(closed));
                y += 1;
            }
            cells.push(column);
            x += 1;
        }
        let grid = Grid { width, height, cells };
        proof {
            assert forall|a: int, b: int, dir: Direction| grid.in_bounds(a, b) implies #[trigger] grid.wall(a, b, dir)
                == closed by {
                assert(grid.cells@[a]@[b].wall(dir) == closed);
            }
            if closed {
                assert(grid.plan().open =~= Set::<Edge>::empty());
            }
        }
        grid
    }

    /// A wall between two cells is blocked on both sides or on neither.
    pub proof fn lemma_wall_symmetry(&self, x: int, y: int, dir: Direction)
        requires
            self.wf(),
            self.in_bounds(x, y),
            self.in_bounds(x + dir.dx(), y + dir.dy()),
        ensures
            self.wall(x, y, dir) == self.wall(x + dir.dx(), y + dir.dy(), dir.opposite()),
    {
        self.lemma_linked_iff_open(x, y, dir);
    }

    /// The plan of a well-shaped grid only holds edges of the grid.
    pub proof fn lemma_plan_wf(&self)
        requires
            self.shaped(),
        ensures
            self.plan().wf(),
    {
    }

    /// For a cell and its neighbour, an open wall and a passage of the plan
    /// are the same thing.
    pub proof fn lemma_linked_iff_open(&self, x: int, y: int, dir: Direction)
        requires
            self.wf(),
            self.in_bounds(x, y),
            self.in_bounds(x + dir.dx(), y + dir.dy()),
        ensures
            self.plan().linked((x, y), (x + dir.dx(), y + dir.dy())) <==> !self.wall(x, y, dir),
            self.wall(x, y, dir) == self.wall(x + dir.dx(), y + dir.dy(), dir.opposite()),
    {
        let n = (x + dir.dx(), y + dir.dy());
        let e = edge_between((x, y), n);
        assert(self.plan().open.contains(e) == self.passage(e));
        match dir {
            Direction::North => {
                assert(self.wall(n.0, n.1, Direction::South) == self.wall(x, y, Direction::North));
            },
            Direction::West => {
                assert(self.wall(n.0, n.1, Direction::East) == self.wall(x, y, Direction::West));
            },
            Direction::South => {
                assert(self.wall(x, y, Direction::South) == self.wall(n.0, n.1, Direction::North));
            },
            Direction::East => {
                assert(self.wall(x, y, Direction::East) == self.wall(n.0, n.1, Direction::West));
            },
        }
    }

    /// A cell at either end of a passage is not closed.
    pub proof fn lemma_linked_not_closed(&self, a: (int, int), b: (int, int))
        requires
            self.wf(),
            self.plan().linked(a, b),
        ensures
            !self.closed_at(a.0, a.1),
            !self.closed_at(b.0, b.1),
    {
        let dir = if b.0 == a.0 + 1 {
            Direction::East
        } else if b.0 + 1 == a.0 {
            Direction::West
        } else if b.1 == a.1 + 1 {
            Direction::South
        } else {
            Direction::North
        };
        self.lemma_linked_iff_open(a.0, a.1, dir);
    }

    /// In a sealed grid a cell that is not closed has a passage to one of
    /// its neighbours.
    pub proof fn lemma_not_closed_linked(&self, x: int, y: int) -> (n: (int, int))
        requires
            self.wf(),
            self.sealed(),
            self.in_bounds(x, y),
            !self.closed_at(x, y),
        ensures
            self.plan().linked((x, y), n),
    {
        let dir = if !self.wall(x, y, Direction::North) {
            Direction::North
        } else if !self.wall(x, y, Direction::South) {
            Direction::South
        } else if !self.wall(x, y, Direction::East) {
            Direction::East
        } else {
            Direction::West
        };
        assert(!self.wall(x, y, dir));
        self.lemma_linked_iff_open(x, y, dir);
        (x + dir.dx(), y + dir.dy())
    }

    /// Setting a wall between two cells leaves the boundary sealed.
    pub proof fn lemma_sealed_kept(&self, after: Grid, x: int, y: int, dir: Direction, closed: bool)
        requires
            self.sealed(),
            self.in_bounds(x, y),
            closed || self.in_bounds(x + dir.dx(), y + dir.dy()),
            after.width == self.width,
            after.height == self.height,
            forall|a: int, b: int, d: Direction|
                self.in_bounds(a, b) ==> #[trigger] after.wall(a, b, d) == if self.same_wall(x, y, dir, a, b, d) {
                    closed
                } else {
                    self.wall(a, b, d)
                },
        ensures
            after.sealed(),
    {
        assert forall|a: int, b: int, d: Direction|
            after.in_bounds(a, b) && !after.in_bounds(a + d.dx(), b + d.dy()) implies #[trigger] after.wall(
            a,
            b,
            d,
        ) by {
            assert(self.wall(a, b, d));
        }
    }
}

} // verus!
