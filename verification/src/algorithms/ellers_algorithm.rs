//! Eller's algorithm: the grid is worked through line by line, with no
//! more state than the set of each cell of the current line. Cells of a
//! line are merged sideways at random, and every set of a line gets one
//! passage into the next line. In the last line all sets are merged.

use crate::algorithms::sidewinder_algorithm::open;
use crate::algorithms::Scan;
use crate::grid::{Direction, Grid};
use crate::plan::edge_between;
use crate::random::{gen_bool, pick};
use rand::StdRng;
use vstd::prelude::*;
use vstd::seq_lib::seq_to_set_is_finite;

verus! {

/// The line that is worked on: for each position the set of its cell, the
/// next number for a new set, and the layout of the scan. There are `main`
/// lines of `cross` cells. Sets are numbered in `u128`: every cell may
/// start a set of its own, and a grid never has too many cells for that.
pub struct EllersHelper {
    pub line: Vec<u128>,
    pub counter: u128,
    pub main: usize,
    pub cross: usize,
    pub scan: Scan,
}

/// The cell at position `a` of line `b` is closed.
pub open spec fn shut_at(grid: Grid, scan: Scan, a: int, b: int) -> bool {
    grid.closed_at(scan.cell(a, b).0, scan.cell(a, b).1)
}

/// The wall towards `dir` of the cell at position `a` of line `b` is
/// blocked.
pub open spec fn barred(grid: Grid, scan: Scan, a: int, b: int, dir: Direction) -> bool {
    grid.wall(scan.cell(a, b).0, scan.cell(a, b).1, dir)
}

/// The cell at position `a` of line `b` is joined to a cell of line `i`
/// that is not closed.
pub open spec fn hooked(grid: Grid, scan: Scan, a: int, b: int, i: int) -> bool {
    exists|k: int|
        0 <= k < scan.line_len(grid) && !shut_at(grid, scan, k, i) && #[trigger] grid.plan().joined(
            scan.cell(a, b),
            scan.cell(k, i),
        )
}

/// The cell at position `a` of line `b` is joined to a cell of line `i`.
pub open spec fn tied(grid: Grid, scan: Scan, a: int, b: int, i: int) -> bool {
    exists|k: int|
        0 <= k < scan.line_len(grid) && #[trigger] grid.plan().joined(scan.cell(a, b), scan.cell(k, i))
}

/// The cells at positions `a` and `b` of line `i` are joined.
pub open spec fn level(grid: Grid, scan: Scan, a: int, b: int, i: int) -> bool {
    grid.plan().joined(scan.cell(a, i), scan.cell(b, i))
}

/// How many of the cells before position `j` of line `i` are closed.
pub open spec fn closed_before(grid: Grid, scan: Scan, i: int, j: int) -> int
    decreases j,
{
    if j <= 0 {
        0
    } else {
        closed_before(grid, scan, i, j - 1) + if shut_at(grid, scan, j - 1, i) { 1int } else { 0int }
    }
}

impl EllersHelper {
    /// The helper is laid out for this grid, which is sound and sealed.
    pub open spec fn fits(&self, grid: Grid) -> bool {
        &&& grid.wf()
        &&& grid.sealed()
        &&& grid.plan().open.finite()
        &&& self.main == self.scan.lines(grid)
        &&& self.cross == self.scan.line_len(grid)
        &&& self.line@.len() == self.cross
    }

    /// The number of different sets in the line.
    pub open spec fn distinct(&self) -> int {
        self.line@.to_set().len() as int
    }

    /// What holds before line `i` is begun: the lines before it are
    /// finished and hold `cross` passages each; every cell of those lines
    /// is joined to a cell of line `i` that has a passage from the line
    /// before; those cells of line `i` are in different sets.
    pub open spec fn entering(&self, grid: Grid, i: int) -> bool {
        &&& self.fits(grid)
        &&& 0 <= i < self.main
        &&& grid.plan().open.len() == i * self.cross
        &&& self.counter <= i * self.cross
        &&& forall|a: int, b: int| 0 <= a < self.cross && i < b < self.main ==> #[trigger] shut_at(grid, self.scan, a, b)
        &&& forall|a: int| 0 <= a < self.cross ==> #[trigger] barred(grid, self.scan, a, i, self.scan.along())
        &&& forall|a: int| 0 <= a < self.cross ==> #[trigger] barred(grid, self.scan, a, i, self.scan.ahead())
        &&& forall|a: int|
            0 <= a < self.cross && !#[trigger] shut_at(grid, self.scan, a, i) ==> self.line@[a] < self.counter
        &&& forall|a: int, b: int|
            0 <= a < b < self.cross && !shut_at(grid, self.scan, a, i) && !shut_at(grid, self.scan, b, i)
                ==> #[trigger] self.line@[a] != #[trigger] self.line@[b]
        &&& forall|a: int, b: int| 0 <= a < self.cross && 0 <= b < i ==> #[trigger] hooked(grid, self.scan, a, b, i)
    }

    /// What holds while the cells of line `i` are merged, before the wall
    /// behind position `j` is looked at: cells of one set are joined, every
    /// cell of the lines before is joined to the line, and each merge has
    /// opened one passage.
    pub open spec fn merging(&self, grid: Grid, i: int, j: int) -> bool {
        &&& self.fits(grid)
        &&& 0 <= i < self.main
        &&& grid.plan().open.len() == i * self.cross + self.cross - self.distinct()
        &&& self.counter <= i * self.cross + self.cross
        &&& forall|a: int, b: int| 0 <= a < self.cross && i < b < self.main ==> #[trigger] shut_at(grid, self.scan, a, b)
        &&& forall|a: int| j <= a < self.cross ==> #[trigger] barred(grid, self.scan, a, i, self.scan.along())
        &&& forall|a: int| 0 <= a < self.cross ==> #[trigger] barred(grid, self.scan, a, i, self.scan.ahead())
        &&& forall|a: int| 0 <= a < self.cross ==> #[trigger] self.line@[a] < self.counter
        &&& forall|a: int, b: int|
            0 <= a < self.cross && 0 <= b < self.cross && self.line@[a] == self.line@[b] ==> #[trigger] level(
                grid,
                self.scan,
                a,
                b,
                i,
            )
        &&& forall|a: int, b: int| 0 <= a < self.cross && 0 <= b < i ==> #[trigger] tied(grid, self.scan, a, b, i)
        &&& i == self.main - 1 ==> forall|a: int| 0 <= a < j ==> #[trigger] self.line@[a] == self.line@[a + 1]
    }
}

/// Gives every closed cell of line `i` a new set of its own; the other
/// cells, which have a passage from the line before, keep the set that
/// came down with it.
pub fn assign_sets(grid: &mut Grid, helper: &mut EllersHelper, i: usize)
    requires
        old(helper).entering(*old(grid), i as int),
    ensures
        *final(grid) == *old(grid),
        final(helper).main == old(helper).main,
        final(helper).cross == old(helper).cross,
        final(helper).scan == old(helper).scan,
        final(helper).line@.len() == old(helper).line@.len(),
        final(helper).counter == old(helper).counter + closed_before(
            *old(grid),
            old(helper).scan,
            i as int,
            old(helper).cross as int,
        ),
        forall|a: int|
            0 <= a < old(helper).cross ==> #[trigger] final(helper).line@[a] == if shut_at(
                *old(grid),
                old(helper).scan,
                a,
                i as int,
            ) {
                old(helper).counter + closed_before(*old(grid), old(helper).scan, i as int, a)
            } else {
                old(helper).line@[a] as int
            },
        final(helper).merging(*final(grid), i as int, 0),
{
    let ghost scan = helper.scan;
    let ghost cross = helper.cross as int;
    let ghost first = helper.counter as int;
    let mut j: usize = 0;
    proof {
        assert(helper.main * helper.cross <= u128::MAX) by (nonlinear_arith)
            requires
                0 <= helper.main <= 0xffff_ffff_ffff_ffff,
                0 <= helper.cross <= 0xffff_ffff_ffff_ffff,
        ;
        assert(i * helper.cross + helper.cross <= helper.main * helper.cross) by (nonlinear_arith)
            requires
                0 <= i < helper.main,
                0 <= helper.cross,
        ;
    }
    while j < helper.cross
        invariant
            j <= helper.cross,
            *grid == *old(grid),
            helper.main == old(helper).main,
            helper.cross == old(helper).cross,
            helper.scan == old(helper).scan,
            scan == helper.scan,
            cross == helper.cross,
            first == old(helper).counter,
            helper.line@.len() == cross,
            old(helper).entering(*grid, i as int),
            i * cross + cross <= u128::MAX,
            helper.counter == first + closed_before(*grid, scan, i as int, j as int),
            helper.counter <= i * cross + j,
            forall|a: int|
                0 <= a < j ==> #[trigger] helper.line@[a] == if shut_at(*grid, scan, a, i as int) {
                    first + closed_before(*grid, scan, i as int, a)
                } else {
                    old(helper).line@[a] as int
                },
            forall|a: int| j <= a < cross ==> #[trigger] helper.line@[a] == old(helper).line@[a],
            forall|a: int|
                0 <= a < cross && (a < j || !shut_at(*grid, scan, a, i as int)) ==> #[trigger] helper.line@[a]
                    < helper.counter,
            forall|a: int, b: int|
                0 <= a < b < cross && (a < j || !shut_at(*grid, scan, a, i as int)) && (b < j || !shut_at(
                    *grid,
                    scan,
                    b,
                    i as int,
                )) ==> #[trigger] helper.line@[a] != #[trigger] helper.line@[b],
        decreases helper.cross - j,
    {
        proof {
            assert(grid.in_bounds(scan.cell(j as int, i as int).0, scan.cell(j as int, i as int).1));
        }
        let is_closed = match helper.scan {
            Scan::Horizontal => grid.cells[j][i].is_closed(),
            Scan::Vertical => grid.cells[i][j].is_closed(),
        };
        proof {
            assert(is_closed == shut_at(*grid, scan, j as int, i as int));
        }
        if is_closed {
            helper.line[j] = helper.counter;
            helper.counter += 1;
        }
        j += 1;
    }
    proof {
        let g = *grid;
        assert(helper.line@.no_duplicates()) by {
            assert forall|a: int, b: int| 0 <= a < helper.line@.len() && 0 <= b < helper.line@.len() && a != b implies helper.line@[a]
                != helper.line@[b] by {
                if a < b {
                    assert(helper.line@[a] != helper.line@[b]);
                } else {
                    assert(helper.line@[b] != helper.line@[a]);
                }
            }
        }
        helper.line@.unique_seq_to_set();
        assert forall|a: int, b: int|
            0 <= a < cross && 0 <= b < cross && helper.line@[a] == helper.line@[b] implies #[trigger] level(
            g,
            scan,
            a,
            b,
            i as int,
        ) by {
            assert(a == b);
            g.plan().lemma_joined_refl(scan.cell(a, i as int));
        }
        assert forall|a: int, b: int| 0 <= a < cross && 0 <= b < i implies #[trigger] tied(g, scan, a, b, i as int) by {
            assert(hooked(g, scan, a, b, i as int));
        }
    }
}

/// The line after the set `from` was merged into the set `into`.
pub open spec fn relabeled(line: Seq<u128>, from: u128, into: u128) -> Seq<u128> {
    Seq::new(line.len(), |a: int| if line[a] == from { into } else { line[a] })
}

/// Merging a set of the line into another leaves one set less.
pub proof fn lemma_relabeled_distinct(line: Seq<u128>, j: int)
    requires
        0 <= j < line.len() - 1,
        line[j] != line[j + 1],
    ensures
        relabeled(line, line[j], line[j + 1]).to_set() == line.to_set().remove(line[j]),
        relabeled(line, line[j], line[j + 1]).to_set().len() + 1 == line.to_set().len(),
        line.to_set().finite(),
{
    let after = relabeled(line, line[j], line[j + 1]);
    seq_to_set_is_finite(line);
    assert forall|v: u128| after.to_set().contains(v) <==> line.to_set().remove(line[j]).contains(v) by {
        if after.to_set().contains(v) {
            let a = choose|a: int| 0 <= a < after.len() && after[a] == v;
            if line[a] == line[j] {
                assert(line[j + 1] == v);
            } else {
                assert(line[a] == v);
            }
            assert(line.contains(v));
        }
        if line.to_set().remove(line[j]).contains(v) {
            let a = choose|a: int| 0 <= a < line.len() && line[a] == v;
            assert(after[a] == v);
            assert(after.contains(v));
        }
    }
    assert(after.to_set() =~= line.to_set().remove(line[j]));
    assert(line.contains(line[j]));
}

/// The line after the first `j` pairs of neighbours were looked at, one
/// after the other: the pair at position `k` is merged where its two cells
/// are in different sets when it is reached and `coins[k]` says so.
pub open spec fn replayed(line: Seq<u128>, coins: Seq<bool>, j: int) -> Seq<u128>
    decreases j,
{
    if j <= 0 {
        line
    } else {
        let before = replayed(line, coins, j - 1);
        if before[j - 1] != before[j] && coins[j - 1] {
            relabeled(before, before[j - 1], before[j])
        } else {
            before
        }
    }
}

/// Whether the pair at position `k` is merged when it is reached.
pub open spec fn merged(line: Seq<u128>, coins: Seq<bool>, k: int) -> bool {
    replayed(line, coins, k)[k] != replayed(line, coins, k)[k + 1] && coins[k]
}

/// The wall flag `(a, b, d)` is on one side of the wall between the cells
/// at the positions `k` and `k + 1` of line `i`.
pub open spec fn pair_wall(grid: Grid, scan: Scan, i: int, k: int, a: int, b: int, d: Direction) -> bool {
    grid.same_wall(scan.cell(k, i).0, scan.cell(k, i).1, scan.along(), a, b, d)
}

/// The wall flag `(a, b, d)` is on one side of the wall between the two
/// cells of a pair that is merged, among the first `upto` pairs.
pub open spec fn merge_wall(
    grid: Grid,
    scan: Scan,
    i: int,
    line: Seq<u128>,
    coins: Seq<bool>,
    upto: int,
    a: int,
    b: int,
    d: Direction,
) -> bool {
    exists|k: int| 0 <= k < upto && merged(line, coins, k) && #[trigger] pair_wall(grid, scan, i, k, a, b, d)
}

/// `after` is `before` with the wall opened between the two cells of every
/// pair that is merged, among the first `upto` pairs of line `i`, and with
/// no other change.
pub open spec fn opened_sideways(
    before: Grid,
    after: Grid,
    scan: Scan,
    i: int,
    line: Seq<u128>,
    coins: Seq<bool>,
    upto: int,
) -> bool {
    forall|a: int, b: int, d: Direction|
        before.in_bounds(a, b) ==> #[trigger] after.wall(a, b, d) == (before.wall(a, b, d) && !merge_wall(
            before,
            scan,
            i,
            line,
            coins,
            upto,
            a,
            b,
            d,
        ))
}

/// What the sideways pass over line `i` does, for the coins that fell:
/// the line afterwards is the line replayed pair by pair, and the grid
/// afterwards has the walls of the merged pairs opened. In the last line
/// no coin is tossed: all count as heads.
pub open spec fn sideways(
    before: Grid,
    after: Grid,
    was: EllersHelper,
    line: Seq<u128>,
    i: int,
    coins: Seq<bool>,
) -> bool {
    &&& coins.len() == was.cross - 1
    &&& i == was.main - 1 ==> forall|k: int| 0 <= k < coins.len() ==> #[trigger] coins[k]
    &&& line == replayed(was.line@, coins, was.cross - 1)
    &&& opened_sideways(before, after, was.scan, i, was.line@, coins, was.cross - 1)
}

/// The replay keeps the length of the line.
pub proof fn lemma_replayed_len(line: Seq<u128>, coins: Seq<bool>, j: int)
    ensures
        replayed(line, coins, j).len() == line.len(),
    decreases j,
{
    if j > 0 {
        lemma_replayed_len(line, coins, j - 1);
    }
}

/// The replay of the first `j` pairs looks at the first `j` coins only.
pub proof fn lemma_replayed_prefix(line: Seq<u128>, coins: Seq<bool>, more: Seq<bool>, j: int)
    requires
        forall|k: int| 0 <= k < j ==> coins[k] == more[k],
    ensures
        replayed(line, coins, j) == replayed(line, more, j),
    decreases j,
{
    if j > 0 {
        lemma_replayed_prefix(line, coins, more, j - 1);
    }
}

/// Merges neighbouring cells of line `i` that are in different sets, each
/// pair on the toss of a coin, and in the last line every such pair. To
/// merge is to move all cells of the first cell's set into the second
/// cell's set and to open the wall between the two cells. No wall between
/// two cells of one set is opened, and no other wall changes.
pub fn carve_mainwise(grid: &mut Grid, helper: &mut EllersHelper, i: usize, rng: &mut StdRng)
    requires
        old(helper).merging(*old(grid), i as int, 0),
    ensures
        final(grid).width == old(grid).width,
        final(grid).height == old(grid).height,
        final(helper).main == old(helper).main,
        final(helper).cross == old(helper).cross,
        final(helper).scan == old(helper).scan,
        final(helper).counter == old(helper).counter,
        final(helper).merging(*final(grid), i as int, old(helper).cross - 1),
        forall|a: int|
            0 <= a < old(helper).cross - 1 && !#[trigger] barred(
                *final(grid),
                old(helper).scan,
                a,
                i as int,
                old(helper).scan.along(),
            ) ==> final(helper).line@[a] == final(helper).line@[a + 1],
        i == old(helper).main - 1 ==> forall|a: int|
            0 <= a < old(helper).cross ==> #[trigger] final(helper).line@[a] == final(helper).line@[0],
        exists|coins: Seq<bool>| #[trigger]
            sideways(*old(grid), *final(grid), *old(helper), final(helper).line@, i as int, coins),
{
    let ghost scan = helper.scan;
    let ghost cross = helper.cross as int;
    let ghost first_line = helper.line@;
    let ghost mut coins: Seq<bool> = Seq::empty();
    let mut j: usize = 0;
    while j + 1 < helper.cross
        invariant
            j + 1 <= helper.cross,
            first_line == old(helper).line@,
            coins.len() == j,
            i == helper.main - 1 ==> forall|k: int| 0 <= k < coins.len() ==> #[trigger] coins[k],
            helper.line@ == replayed(first_line, coins, j as int),
            opened_sideways(*old(grid), *grid, scan, i as int, first_line, coins, j as int),
            grid.width == old(grid).width,
            grid.height == old(grid).height,
            helper.main == old(helper).main,
            helper.cross == old(helper).cross,
            helper.scan == old(helper).scan,
            helper.counter == old(helper).counter,
            scan == helper.scan,
            cross == helper.cross,
            helper.merging(*grid, i as int, j as int),
            forall|a: int|
                0 <= a < j && !#[trigger] barred(*grid, scan, a, i as int, scan.along()) ==> helper.line@[a]
                    == helper.line@[a + 1],
        decreases helper.cross - j,
    {
        let (left, right) = (helper.line[j], helper.line[j + 1]);
        let ghost reached = helper.line@;
        let ghost grid_reached = *grid;
        let ghost tossed = coins;
        if left != right && (i == helper.main - 1 || gen_bool(rng)) {
            let ghost before = *grid;
            let ghost line = helper.line@;
            let ghost was = *helper;
            let mut k: usize = 0;
            while k < helper.line.len()
                invariant
                    k <= helper.line@.len(),
                    helper.line@.len() == line.len(),
                    helper.main == was.main,
                    helper.cross == was.cross,
                    helper.scan == was.scan,
                    helper.counter == was.counter,
                    forall|a: int| 0 <= a < k ==> #[trigger] helper.line@[a] == relabeled(line, left, right)[a],
                    forall|a: int| k <= a < line.len() ==> #[trigger] helper.line@[a] == line[a],
                decreases helper.line@.len() - k,
            {
                if helper.line[k] == left {
                    helper.line[k] = right;
                }
                k += 1;
            }
            let side = match helper.scan {
                Scan::Horizontal => Direction::East,
                Scan::Vertical => Direction::South,
            };
            open(helper.scan, grid, j, i, side);
            proof {
                let p = before.plan();
                let q = grid.plan();
                let c = scan.cell(j as int, i as int);
                let n = scan.cell(j + 1, i as int);
                let jj = j as int;
                assert(helper.line@ =~= relabeled(line, left, right));
                lemma_relabeled_distinct(line, jj);
                assert(n == (c.0 + side.dx(), c.1 + side.dy()));
                before.lemma_sealed_kept(*grid, c.0, c.1, side, false);
                before.lemma_linked_iff_open(c.0, c.1, side);
                assert(barred(before, scan, jj, i as int, side));
                assert(!p.open.contains(edge_between(c, n)));
                assert(q.linked(c, n));
                q.lemma_linked_sym(c, n);
                assert forall|a: int, b: int| 0 <= a < cross && i < b < helper.main implies #[trigger] shut_at(
                    *grid,
                    scan,
                    a,
                    b,
                ) by {
                    assert(shut_at(before, scan, a, b));
                }
                assert forall|a: int| j + 1 <= a < cross implies #[trigger] barred(
                    *grid,
                    scan,
                    a,
                    i as int,
                    scan.along(),
                ) by {
                    assert(barred(before, scan, a, i as int, scan.along()));
                }
                assert forall|a: int| 0 <= a < cross implies #[trigger] barred(
                    *grid,
                    scan,
                    a,
                    i as int,
                    scan.ahead(),
                ) by {
                    assert(barred(before, scan, a, i as int, scan.ahead()));
                }
                assert forall|a: int| 0 <= a < cross implies #[trigger] helper.line@[a] < helper.counter by {
                    assert(line[a] < was.counter);
                    assert(line[j + 1] < was.counter);
                }
                assert forall|a: int, b: int|
                    0 <= a < cross && 0 <= b < cross && helper.line@[a] == helper.line@[b] implies #[trigger] level(
                    *grid,
                    scan,
                    a,
                    b,
                    i as int,
                ) by {
                    let ca = scan.cell(a, i as int);
                    let cb = scan.cell(b, i as int);
                    if line[a] == line[b] {
                        assert(level(before, scan, a, b, i as int));
                        p.lemma_joined_mono(q, ca, cb);
                    } else if line[a] == left {
                        assert(level(before, scan, a, jj, i as int));
                        assert(level(before, scan, jj + 1, b, i as int));
                        p.lemma_joined_mono(q, ca, c);
                        p.lemma_joined_mono(q, n, cb);
                        q.lemma_joined_snoc(ca, c, n);
                        q.lemma_joined_trans(ca, n, cb);
                    } else {
                        assert(level(before, scan, a, jj + 1, i as int));
                        assert(level(before, scan, jj, b, i as int));
                        p.lemma_joined_mono(q, ca, n);
                        p.lemma_joined_mono(q, c, cb);
                        q.lemma_joined_snoc(ca, n, c);
                        q.lemma_joined_trans(ca, c, cb);
                    }
                }
                assert forall|a: int, b: int| 0 <= a < cross && 0 <= b < i implies #[trigger] tied(
                    *grid,
                    scan,
                    a,
                    b,
                    i as int,
                ) by {
                    assert(tied(before, scan, a, b, i as int));
                    let k = choose|k: int|
                        0 <= k < scan.line_len(before) && #[trigger] p.joined(scan.cell(a, b), scan.cell(k, i as int));
                    p.lemma_joined_mono(q, scan.cell(a, b), scan.cell(k, i as int));
                }
                if i == helper.main - 1 {
                    assert forall|a: int| 0 <= a < j + 1 implies #[trigger] helper.line@[a] == helper.line@[a + 1] by {
                        if a < j {
                            assert(line[a] == line[a + 1]);
                        }
                    }
                }
                assert forall|a: int|
                    0 <= a < j + 1 && !#[trigger] barred(
                        *grid,
                        scan,
                        a,
                        i as int,
                        scan.along(),
                    ) implies helper.line@[a] == helper.line@[a + 1] by {
                    if a < j {
                        assert(barred(before, scan, a, i as int, scan.along()) == barred(
                            *grid,
                            scan,
                            a,
                            i as int,
                            scan.along(),
                        ));
                        assert(line[a] == line[a + 1]);
                    }
                }
            }
            proof {
                coins = tossed.push(true);
            }
        } else {
            proof {
                assert(barred(*grid, scan, j as int, i as int, scan.along()));
                coins = tossed.push(left == right);
            }
        }
        proof {
            let jj = j as int;
            let first = *old(grid);
            lemma_replayed_prefix(first_line, tossed, coins, jj);
            lemma_replayed_len(first_line, tossed, jj);
            assert(replayed(first_line, coins, jj) == reached);
            assert(merged(first_line, coins, jj) == (left != right && coins[jj]));
            assert(helper.line@ == replayed(first_line, coins, jj + 1));
            assert forall|k: int| 0 <= k < jj implies merged(first_line, coins, k) == merged(
                first_line,
                tossed,
                k,
            ) by {
                lemma_replayed_prefix(first_line, tossed, coins, k);
            }
            assert forall|a: int, b: int, d: Direction| first.in_bounds(a, b) implies #[trigger] grid.wall(a, b, d) == (
            first.wall(a, b, d) && !merge_wall(first, scan, i as int, first_line, coins, jj + 1, a, b, d)) by {
                let earlier = merge_wall(first, scan, i as int, first_line, tossed, jj, a, b, d);
                let now = merge_wall(first, scan, i as int, first_line, coins, jj + 1, a, b, d);
                let here = merged(first_line, coins, jj) && pair_wall(first, scan, i as int, jj, a, b, d);
                assert(grid_reached.wall(a, b, d) == (first.wall(a, b, d) && !earlier));
                assert(grid.wall(a, b, d) == (grid_reached.wall(a, b, d) && !here));
                if earlier {
                    let k = choose|k: int|
                        0 <= k < jj && merged(first_line, tossed, k) && #[trigger] pair_wall(
                            first,
                            scan,
                            i as int,
                            k,
                            a,
                            b,
                            d,
                        );
                    assert(0 <= k < jj + 1 && merged(first_line, coins, k) && pair_wall(
                        first,
                        scan,
                        i as int,
                        k,
                        a,
                        b,
                        d,
                    ));
                }
                if now {
                    let k = choose|k: int|
                        0 <= k < jj + 1 && merged(first_line, coins, k) && #[trigger] pair_wall(
                            first,
                            scan,
                            i as int,
                            k,
                            a,
                            b,
                            d,
                        );
                    if k < jj {
                        assert(merged(first_line, tossed, k) && pair_wall(first, scan, i as int, k, a, b, d));
                    }
                }
            }
        }
        j += 1;
    }
    proof {
        if i == helper.main - 1 {
            lemma_all_equal(helper.line@, cross - 1);
        }
        assert(sideways(*old(grid), *grid, *old(helper), helper.line@, i as int, coins));
    }
}

/// A line whose neighbours are equal all along holds one value.
pub proof fn lemma_all_equal(line: Seq<u128>, a: int)
    requires
        0 <= a < line.len(),
        forall|b: int| 0 <= b < line.len() - 1 ==> #[trigger] line[b] == line[b + 1],
    ensures
        forall|b: int| 0 <= b <= a ==> #[trigger] line[b] == line[0],
    decreases a,
{
    if a > 0 {
        lemma_all_equal(line, a - 1);
        assert(line[a - 1] == line[a - 1 + 1]);
    }
}

/// Whether no position before `j` holds the set of position `j`.
pub fn first_of_set(line: &Vec<u128>, j: usize) -> (r: bool)
    requires
        j < line@.len(),
    ensures
        r == !line@.take(j as int).contains(line@[j as int]),
{
    let mut k: usize = 0;
    while k < j
        invariant
            k <= j,
            j < line@.len(),
            forall|a: int| 0 <= a < k ==> line@[a] != line@[j as int],
        decreases j - k,
    {
        if line[k] == line[j] {
            proof {
                assert(line@.take(j as int)[k as int] == line@[j as int]);
            }
            return false;
        }
        k += 1;
    }
    true
}

/// The positions of the line that hold `set`, in rising order.
pub fn members_of(line: &Vec<u128>, set: u128) -> (members: Vec<usize>)
    ensures
        forall|m: int| 0 <= m < members@.len() ==> (#[trigger] members@[m]) < line@.len() && line@[members@[m] as int] == set,
        forall|a: int| 0 <= a < line@.len() && line@[a] == set ==> members@.contains(a as usize),
        forall|m: int, n: int| 0 <= m < n < members@.len() ==> members@[m] < members@[n],
{
    let mut members: Vec<usize> = Vec::new();
    let mut k: usize = 0;
    while k < line.len()
        invariant
            k <= line@.len(),
            forall|m: int|
                0 <= m < members@.len() ==> (#[trigger] members@[m]) < k && line@[members@[m] as int] == set,
            forall|a: int| 0 <= a < k && line@[a] == set ==> members@.contains(a as usize),
            forall|m: int, n: int| 0 <= m < n < members@.len() ==> members@[m] < members@[n],
        decreases line@.len() - k,
    {
        if line[k] == set {
            let ghost earlier = members@;
            members.push(k);
            proof {
                assert forall|a: int| 0 <= a < k + 1 && line@[a] == set implies members@.contains(a as usize) by {
                    if a < k {
                        assert(earlier.contains(a as usize));
                        let m = choose|m: int| 0 <= m < earlier.len() && earlier[m] == a as usize;
                        assert(members@[m] == a as usize);
                    } else {
                        assert(members@[members@.len() - 1] == a as usize);
                    }
                }
            }
        }
        k += 1;
    }
    members
}

/// Some cell of line `i` whose set is `set` has a passage into the next
/// line.
pub open spec fn served(helper: EllersHelper, grid: Grid, i: int, set: u128) -> bool {
    exists|a: int|
        0 <= a < helper.cross && #[trigger] helper.line@[a] == set && !barred(
            grid,
            helper.scan,
            a,
            i,
            helper.scan.ahead(),
        )
}

impl EllersHelper {
    /// What holds while the sets of line `i` are given their passage into
    /// the next line, before position `j` is looked at: a set has its one
    /// passage exactly if it occurs before `j`.
    pub open spec fn crossing(&self, grid: Grid, i: int, j: int) -> bool {
        let seen = self.line@.take(j).to_set();
        &&& self.fits(grid)
        &&& 0 <= i < self.main - 1
        &&& grid.plan().open.len() == i * self.cross + self.cross - self.distinct() + seen.len()
        &&& self.counter <= i * self.cross + self.cross
        &&& forall|a: int, b: int|
            0 <= a < self.cross && i + 1 < b < self.main ==> #[trigger] shut_at(grid, self.scan, a, b)
        &&& forall|a: int| 0 <= a < self.cross ==> #[trigger] barred(grid, self.scan, a, i + 1, self.scan.along())
        &&& forall|a: int| 0 <= a < self.cross ==> #[trigger] barred(grid, self.scan, a, i + 1, self.scan.ahead())
        &&& forall|a: int| 0 <= a < self.cross ==> #[trigger] self.line@[a] < self.counter
        &&& forall|a: int, b: int|
            0 <= a < self.cross && 0 <= b < self.cross && self.line@[a] == self.line@[b] ==> #[trigger] level(
                grid,
                self.scan,
                a,
                b,
                i,
            )
        &&& forall|a: int, b: int| 0 <= a < self.cross && 0 <= b < i ==> #[trigger] tied(grid, self.scan, a, b, i)
        &&& forall|a: int|
            0 <= a < self.cross && !#[trigger] barred(grid, self.scan, a, i, self.scan.ahead()) ==> seen.contains(
                self.line@[a],
            )
        &&& forall|set: u128| #[trigger] seen.contains(set) ==> served(*self, grid, i, set)
        &&& forall|a: int, b: int|
            0 <= a < b < self.cross && !barred(grid, self.scan, a, i, self.scan.ahead()) && !barred(
                grid,
                self.scan,
                b,
                i,
                self.scan.ahead(),
            ) ==> #[trigger] self.line@[a] != #[trigger] self.line@[b]
    }
}

/// Once every set of line `i` has its passage into the next line, that
/// line can be begun.
pub proof fn lemma_crossed(helper: EllersHelper, grid: Grid, i: int)
    requires
        helper.crossing(grid, i, helper.cross as int),
    ensures
        helper.entering(grid, i + 1),
{
    let scan = helper.scan;
    let cross = helper.cross as int;
    let p = grid.plan();
    let line = helper.line@;
    assert(line.take(cross) =~= line);
    assert((i + 1) * cross == i * cross + cross) by (nonlinear_arith);
    assert forall|a: int| 0 <= a < cross && !shut_at(grid, scan, a, i + 1) implies !barred(
        grid,
        scan,
        a,
        i,
        scan.ahead(),
    ) by {
        let c = scan.cell(a, i + 1);
        assert(barred(grid, scan, a, i + 1, scan.along()));
        assert(barred(grid, scan, a, i + 1, scan.ahead()));
        if a > 0 {
            assert(barred(grid, scan, a - 1, i + 1, scan.along()));
            let w = scan.cell(a - 1, i + 1);
            grid.lemma_linked_iff_open(w.0, w.1, scan.along());
        } else {
            assert(grid.wall(c.0, c.1, scan.along().opposite()));
        }
        let n = scan.cell(a, i);
        grid.lemma_linked_iff_open(n.0, n.1, scan.ahead());
    }
    assert forall|a: int| 0 <= a < cross && !#[trigger] shut_at(grid, scan, a, i + 1) implies line[a]
        < helper.counter by {
        assert(line[a] < helper.counter);
    }
    assert forall|a: int, b: int|
        0 <= a < cross && 0 <= b < i + 1 implies #[trigger] hooked(grid, scan, a, b, i + 1) by {
        let c = scan.cell(a, b);
        let m = if b == i {
            a
        } else {
            assert(tied(grid, scan, a, b, i));
            choose|k: int| 0 <= k < scan.line_len(grid) && #[trigger] p.joined(scan.cell(a, b), scan.cell(k, i))
        };
        assert(p.joined(c, scan.cell(m, i))) by {
            if b == i {
                p.lemma_joined_refl(c);
            }
        }
        assert(line.contains(line[m]));
        assert(line.to_set().contains(line[m]));
        assert(served(helper, grid, i, line[m]));
        let k = choose|k: int|
            0 <= k < helper.cross && #[trigger] helper.line@[k] == line[m] && !barred(grid, scan, k, i, scan.ahead());
        assert(level(grid, scan, m, k, i));
        let u = scan.cell(k, i);
        let v = scan.cell(k, i + 1);
        grid.lemma_linked_iff_open(u.0, u.1, scan.ahead());
        assert(p.linked(u, v));
        grid.lemma_linked_not_closed(u, v);
        p.lemma_joined_trans(c, scan.cell(m, i), u);
        p.lemma_joined_snoc(c, u, v);
        assert(!shut_at(grid, scan, k, i + 1));
    }
}

/// The wall flag `(a, b, d)` is on one side of the wall between the cell
/// at position `k` of line `i` and the cell of the next line beside it.
pub open spec fn ahead_wall(grid: Grid, scan: Scan, i: int, k: int, a: int, b: int, d: Direction) -> bool {
    grid.same_wall(scan.cell(k, i).0, scan.cell(k, i).1, scan.ahead(), a, b, d)
}

/// The wall flag `(a, b, d)` is on one side of a wall between line `i` and
/// the next line that is open in `after`.
pub open spec fn passage_ahead(before: Grid, after: Grid, scan: Scan, i: int, a: int, b: int, d: Direction) -> bool {
    exists|k: int|
        0 <= k < scan.line_len(before) && !barred(after, scan, k, i, scan.ahead()) && #[trigger] ahead_wall(
            before,
            scan,
            i,
            k,
            a,
            b,
            d,
        )
}

/// `after` is `before` but for the walls between line `i` and the next
/// line that are open in `after`: no other wall has changed, and none was
/// blocked.
pub open spec fn opened_ahead(before: Grid, after: Grid, scan: Scan, i: int) -> bool {
    forall|a: int, b: int, d: Direction|
        before.in_bounds(a, b) ==> #[trigger] after.wall(a, b, d) == (before.wall(a, b, d) && !passage_ahead(
            before,
            after,
            scan,
            i,
            a,
            b,
            d,
        ))
}

/// After the sideways pass the wall behind a pair of cells is open exactly
/// if it was open before or the pair was merged.
pub proof fn lemma_sideways_wall(
    before: Grid,
    after: Grid,
    was: EllersHelper,
    line: Seq<u128>,
    i: int,
    coins: Seq<bool>,
    j: int,
)
    requires
        sideways(before, after, was, line, i, coins),
        0 <= j < was.cross - 1,
        before.in_bounds(was.scan.cell(j, i).0, was.scan.cell(j, i).1),
    ensures
        after.wall(was.scan.cell(j, i).0, was.scan.cell(j, i).1, was.scan.along()) == (before.wall(
            was.scan.cell(j, i).0,
            was.scan.cell(j, i).1,
            was.scan.along(),
        ) && !merged(was.line@, coins, j)),
{
    let scan = was.scan;
    let c = scan.cell(j, i);
    let hit = merge_wall(before, scan, i, was.line@, coins, was.cross - 1, c.0, c.1, scan.along());
    assert(after.wall(c.0, c.1, scan.along()) == (before.wall(c.0, c.1, scan.along()) && !hit));
    if merged(was.line@, coins, j) {
        assert(pair_wall(before, scan, i, j, c.0, c.1, scan.along()));
    }
    if hit {
        let k = choose|k: int|
            0 <= k < was.cross - 1 && merged(was.line@, coins, k) && #[trigger] pair_wall(
                before,
                scan,
                i,
                k,
                c.0,
                c.1,
                scan.along(),
            );
        assert(k == j);
    }
}

/// Gives every set of line `i` one passage into the next line, from a cell
/// of the set drawn at random. The sets are taken in the order in which
/// they first occur in the line. No other wall changes.
pub fn carve_crosswise(grid: &mut Grid, helper: &EllersHelper, i: usize, rng: &mut StdRng)
    requires
        old(grid).width >= 1,
        helper.merging(*old(grid), i as int, helper.cross - 1),
        i < helper.main - 1,
    ensures
        final(grid).width == old(grid).width,
        final(grid).height == old(grid).height,
        helper.crossing(*final(grid), i as int, helper.cross as int),
        helper.entering(*final(grid), i + 1),
        opened_ahead(*old(grid), *final(grid), helper.scan, i as int),
{
    let ghost scan = helper.scan;
    let ghost cross = helper.cross as int;
    let ghost line = helper.line@;
    let mut j: usize = 0;
    proof {
        assert(line.take(0) =~= Seq::<u128>::empty());
        assert(line.take(0).to_set() =~= Set::<u128>::empty());
        broadcast use vstd::seq_lib::group_seq_properties;
        assert forall|a: int| 0 <= a < cross implies #[trigger] barred(*grid, scan, a, i + 1, scan.along()) by {
            assert(shut_at(*grid, scan, a, i + 1));
        }
        assert forall|a: int| 0 <= a < cross implies #[trigger] barred(*grid, scan, a, i + 1, scan.ahead()) by {
            assert(shut_at(*grid, scan, a, i + 1));
        }
        assert forall|a: int| 0 <= a < cross implies #[trigger] barred(*grid, scan, a, i as int, scan.ahead()) by {}
    }
    while j < helper.cross
        invariant
            j <= helper.cross,
            grid.width == old(grid).width,
            grid.height == old(grid).height,
            scan == helper.scan,
            cross == helper.cross,
            line == helper.line@,
            helper.crossing(*grid, i as int, j as int),
            opened_ahead(*old(grid), *grid, scan, i as int),
        decreases helper.cross - j,
    {
        let ghost seen = line.take(j as int).to_set();
        proof {
            assert(line.take(j + 1) =~= line.take(j as int).push(line[j as int]));
            line.take(j as int).lemma_push_to_set_commute(line[j as int]);
            seq_to_set_is_finite(line.take(j as int));
        }
        if first_of_set(&helper.line, j) {
            let members = members_of(&helper.line, helper.line[j]);
            proof {
                assert(members@.contains(j));
            }
            match pick(rng, &members) {
                Some(found) => {
                    let k = *found;
                    let ghost before = *grid;
                    let ahead = match helper.scan {
                        Scan::Horizontal => Direction::South,
                        Scan::Vertical => Direction::East,
                    };
                    proof {
                        let m = choose|m: int| 0 <= m < members@.len() && members@[m] == k;
                        assert(members@[m] < line.len() && line[members@[m] as int] == line[j as int]);
                    }
                    open(helper.scan, grid, k, i, ahead);
                    proof {
                        let p = before.plan();
                        let q = grid.plan();
                        let c = scan.cell(k as int, i as int);
                        let n = scan.cell(k as int, i + 1);
                        let more = line.take(j + 1).to_set();
                        assert(n == (c.0 + ahead.dx(), c.1 + ahead.dy()));
                        before.lemma_sealed_kept(*grid, c.0, c.1, ahead, false);
                        before.lemma_linked_iff_open(c.0, c.1, ahead);
                        assert(barred(before, scan, k as int, i as int, ahead));
                        assert(!p.open.contains(edge_between(c, n)));
                        assert(!barred(*grid, scan, k as int, i as int, ahead));
                        let first = *old(grid);
                        assert forall|a: int, b: int, d: Direction| first.in_bounds(a, b) implies #[trigger] grid.wall(
                            a,
                            b,
                            d,
                        ) == (first.wall(a, b, d) && !passage_ahead(first, *grid, scan, i as int, a, b, d)) by {
                            let earlier = passage_ahead(first, before, scan, i as int, a, b, d);
                            let now = passage_ahead(first, *grid, scan, i as int, a, b, d);
                            let here = ahead_wall(first, scan, i as int, k as int, a, b, d);
                            assert(before.wall(a, b, d) == (first.wall(a, b, d) && !earlier));
                            assert(grid.wall(a, b, d) == (before.wall(a, b, d) && !here));
                            if earlier {
                                let m = choose|m: int|
                                    0 <= m < scan.line_len(first) && !barred(before, scan, m, i as int, scan.ahead())
                                        && #[trigger] ahead_wall(first, scan, i as int, m, a, b, d);
                                assert(!barred(*grid, scan, m, i as int, scan.ahead()));
                            }
                            if now {
                                let m = choose|m: int|
                                    0 <= m < scan.line_len(first) && !barred(*grid, scan, m, i as int, scan.ahead())
                                        && #[trigger] ahead_wall(first, scan, i as int, m, a, b, d);
                                if m != k {
                                    assert(!barred(before, scan, m, i as int, scan.ahead()));
                                }
                            }
                        }
                        assert forall|a: int, b: int| 0 <= a < cross && i + 1 < b < helper.main implies #[trigger] shut_at(
                            *grid,
                            scan,
                            a,
                            b,
                        ) by {
                            assert(shut_at(before, scan, a, b));
                        }
                        assert forall|a: int| 0 <= a < cross implies #[trigger] barred(
                            *grid,
                            scan,
                            a,
                            i + 1,
                            scan.along(),
                        ) by {
                            assert(barred(before, scan, a, i + 1, scan.along()));
                        }
                        assert forall|a: int| 0 <= a < cross implies #[trigger] barred(
                            *grid,
                            scan,
                            a,
                            i + 1,
                            scan.ahead(),
                        ) by {
                            assert(barred(before, scan, a, i + 1, scan.ahead()));
                        }
                        assert forall|a: int, b: int|
                            0 <= a < cross && 0 <= b < cross && line[a] == line[b] implies #[trigger] level(
                            *grid,
                            scan,
                            a,
                            b,
                            i as int,
                        ) by {
                            assert(level(before, scan, a, b, i as int));
                            p.lemma_joined_mono(q, scan.cell(a, i as int), scan.cell(b, i as int));
                        }
                        assert forall|a: int, b: int| 0 <= a < cross && 0 <= b < i implies #[trigger] tied(
                            *grid,
                            scan,
                            a,
                            b,
                            i as int,
                        ) by {
                            assert(tied(before, scan, a, b, i as int));
                            let t = choose|t: int|
                                0 <= t < scan.line_len(before) && #[trigger] p.joined(
                                    scan.cell(a, b),
                                    scan.cell(t, i as int),
                                );
                            p.lemma_joined_mono(q, scan.cell(a, b), scan.cell(t, i as int));
                        }
                        assert forall|a: int|
                            0 <= a < cross && !#[trigger] barred(*grid, scan, a, i as int, scan.ahead()) implies more.contains(
                            line[a],
                        ) by {
                            if a != k {
                                assert(!barred(before, scan, a, i as int, scan.ahead()));
                                assert(seen.contains(line[a]));
                            }
                        }
                        assert forall|set: u128| #[trigger] more.contains(set) implies served(
                            *helper,
                            *grid,
                            i as int,
                            set,
                        ) by {
                            if set == line[j as int] {
                                assert(helper.line@[k as int] == set);
                            } else {
                                assert(seen.contains(set));
                                assert(served(*helper, before, i as int, set));
                                let a = choose|a: int|
                                    0 <= a < helper.cross && #[trigger] helper.line@[a] == set && !barred(
                                        before,
                                        scan,
                                        a,
                                        i as int,
                                        scan.ahead(),
                                    );
                                assert(!barred(*grid, scan, a, i as int, scan.ahead()));
                            }
                        }
                        assert forall|a: int, b: int|
                            0 <= a < b < cross && !barred(*grid, scan, a, i as int, scan.ahead()) && !barred(
                                *grid,
                                scan,
                                b,
                                i as int,
                                scan.ahead(),
                            ) implies #[trigger] line[a] != #[trigger] line[b] by {
                            if a != k {
                                assert(!barred(before, scan, a, i as int, scan.ahead()));
                                assert(seen.contains(line[a]));
                            }
                            if b != k {
                                assert(!barred(before, scan, b, i as int, scan.ahead()));
                                assert(seen.contains(line[b]));
                            }
                        }
                    }
                },
                None => {
                    proof {
                        assert(false);
                    }
                },
            }
        } else {
            proof {
                assert(line.take(j as int).to_set().contains(line[j as int]));
                assert(line.take(j + 1).to_set() =~= seen);
            }
        }
        j += 1;
    }
    proof {
        lemma_crossed(*helper, *grid, i as int);
    }
}

/// When the last line is merged into one set, the maze is perfect.
pub proof fn lemma_finished(helper: EllersHelper, grid: Grid)
    requires
        helper.merging(grid, helper.main - 1, helper.cross - 1),
        forall|a: int| 0 <= a < helper.cross ==> #[trigger] helper.line@[a] == helper.line@[0],
    ensures
        grid.plan().is_perfect(),
{
    let scan = helper.scan;
    let cross = helper.cross as int;
    let last = helper.main - 1;
    let p = grid.plan();
    let line = helper.line@;
    let root = scan.cell(0, last);
    grid.lemma_plan_wf();
    assert(line.to_set() =~= set![line[0]]) by {
        assert(line.contains(line[0]));
        assert forall|v: u128| line.to_set().contains(v) implies v == line[0] by {
            let a = choose|a: int| 0 <= a < line.len() && line[a] == v;
            assert(helper.line@[a] == helper.line@[0]);
        }
    }
    assert(last * cross + cross == grid.width * grid.height) by (nonlinear_arith)
        requires
            last + 1 == helper.main,
            (helper.main == grid.width && cross == grid.height) || (helper.main == grid.height && cross
                == grid.width),
    ;
    assert forall|c: (int, int)| p.has_cell(c) implies #[trigger] p.joined(root, c) by {
        let (a, b) = match scan {
            Scan::Horizontal => (c.0, c.1),
            Scan::Vertical => (c.1, c.0),
        };
        assert(scan.cell(a, b) == c);
        if b == last {
            assert(helper.line@[a] == helper.line@[0]);
            assert(level(grid, scan, 0, a, last));
        } else {
            assert(tied(grid, scan, a, b, last));
            let k = choose|k: int| 0 <= k < scan.line_len(grid) && #[trigger] p.joined(scan.cell(a, b), scan.cell(k, last));
            assert(helper.line@[k] == helper.line@[0]);
            assert(level(grid, scan, 0, k, last));
            p.lemma_joined_sym(c, scan.cell(k, last));
            p.lemma_joined_trans(root, scan.cell(k, last), c);
        }
    }
    p.lemma_connected_via(root);
}

/// A line of `n` cells, all in set 0.
fn blank_line(n: usize) -> (line: Vec<u128>)
    ensures
        line@.len() == n,
        forall|a: int| 0 <= a < n ==> line@[a] == 0,
{
    let mut line: Vec<u128> = Vec::new();
    let mut k: usize = 0;
    while k < n
        invariant
            k <= n,
            line@.len() == k,
            forall|a: int| 0 <= a < k ==> line@[a] == 0,
        decreases n - k,
    {
        line.push(0);
        k += 1;
    }
    line
}

/// Generates a perfect maze by Eller's algorithm, through the rows of the
/// grid for a horizontal scan and through its columns for a vertical one.
pub fn run(width: usize, height: usize, rng: &mut StdRng, scan_dir: Scan) -> (grid: Grid)
    requires
        width >= 1,
        height >= 1,
    ensures
        grid.wf(),
        grid.width == width,
        grid.height == height,
        grid.sealed(),
        grid.plan().is_perfect(),
        grid.plan().acyclic(),
{
    let mut grid = Grid::new(width, height, true);
    let mut helper = match scan_dir {
        Scan::Horizontal => EllersHelper {
            line: blank_line(width),
            counter: 0,
            main: height,
            cross: width,
            scan: Scan::Horizontal,
        },
        Scan::Vertical => EllersHelper {
            line: blank_line(height),
            counter: 0,
            main: width,
            cross: height,
            scan: Scan::Vertical,
        },
    };
    proof {
        assert(0 * helper.cross == 0) by (nonlinear_arith);
        grid.lemma_plan_wf();
    }
    let mut i: usize = 0;
    while i < helper.main
        invariant
            i <= helper.main,
            grid.width == width,
            grid.height == height,
            helper.fits(grid),
            i < helper.main ==> helper.entering(grid, i as int),
            i == helper.main ==> grid.plan().is_perfect(),
        decreases helper.main - i,
    {
        assign_sets(&mut grid, &mut helper, i);
        carve_mainwise(&mut grid, &mut helper, i, rng);
        if i != helper.main - 1 {
            carve_crosswise(&mut grid, &helper, i, rng);
        } else {
            proof {
                lemma_finished(helper, grid);
            }
        }
        i += 1;
    }
    proof {
        grid.plan().lemma_perfect_acyclic();
    }
    grid
}

} // verus!
