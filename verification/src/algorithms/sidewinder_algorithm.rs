//! The sidewinder: each line is cut into runs of cells joined sideways,
//! and every run gets one passage to the line before it.

use crate::algorithms::Scan;
use crate::grid::{Direction, Grid};
use crate::plan::edge_between;
use crate::random::{gen_bool, gen_range};
use rand::StdRng;
use vstd::prelude::*;

verus! {

/// Opens the wall towards `dir` of the cell at position `x` of line `y`.
pub fn open(scan_dir: Scan, grid: &mut Grid, x: usize, y: usize, dir: Direction)
    requires
        old(grid).wf(),
        old(grid).in_bounds(scan_dir.cell(x as int, y as int).0, scan_dir.cell(x as int, y as int).1),
    ensures
        final(grid).wf(),
        final(grid).width == old(grid).width,
        final(grid).height == old(grid).height,
        forall|a: int, b: int, d: Direction|
            old(grid).in_bounds(a, b) ==> #[trigger] final(grid).wall(a, b, d) == (!old(grid).same_wall(
                scan_dir.cell(x as int, y as int).0,
                scan_dir.cell(x as int, y as int).1,
                dir,
                a,
                b,
                d,
            ) && old(grid).wall(a, b, d)),
        final(grid).plan() == old(grid).plan_after_set(
            scan_dir.cell(x as int, y as int).0,
            scan_dir.cell(x as int, y as int).1,
            dir,
            false,
        ),
{
    match scan_dir {
        Scan::Horizontal => grid.open(x, y, dir),
        Scan::Vertical => grid.open(y, x, dir),
    }
}

/// The number of passages opened when the scan stands before position `i`
/// of line `j`: none is opened from the last cell of the first line, and
/// one from every other cell.
pub open spec fn tally(j: int, i: int, len: int) -> int {
    j * len + i - if j == 0 && i < len { 0int } else { 1int }
}

/// The cell at position `a` of line `b` is joined to the first cell of the
/// first line.
pub open spec fn rooted(grid: Grid, scan: Scan, a: int, b: int) -> bool {
    grid.plan().joined((0, 0), scan.cell(a, b))
}

/// The cell at position `a` of line `j` is joined to the cell at position
/// `start` of that line.
pub open spec fn in_run(grid: Grid, scan: Scan, start: int, a: int, j: int) -> bool {
    grid.plan().joined(scan.cell(start, j), scan.cell(a, j))
}

/// The wall towards `dir` of the cell at position `a` of line `b` is
/// blocked.
pub open spec fn blocked(grid: Grid, scan: Scan, a: int, b: int, dir: Direction) -> bool {
    grid.wall(scan.cell(a, b).0, scan.cell(a, b).1, dir)
}

/// What holds when the scan stands before position `i` of line `j`, with
/// the current run beginning at position `start`.
pub open spec fn winding(grid: Grid, scan: Scan, j: int, i: int, start: int) -> bool {
    let len = scan.line_len(grid);
    let lines = scan.lines(grid);
    &&& grid.wf()
    &&& grid.sealed()
    &&& grid.plan().open.finite()
    &&& grid.plan().open.len() == tally(j, i, len)
    &&& forall|a: int, b: int|
        0 <= a < len && 0 <= b < lines && (b < j || (b == j && a < start)) ==> #[trigger] rooted(grid, scan, a, b)
    &&& forall|a: int| start <= a <= i && a < len && j < lines ==> #[trigger] in_run(grid, scan, start, a, j)
    &&& forall|a: int, b: int|
        0 <= a < len && 0 <= b < lines && (b > j || (b == j && a >= i)) ==> #[trigger] blocked(
            grid,
            scan,
            a,
            b,
            scan.along(),
        )
    &&& forall|a: int, b: int|
        0 <= a < len && 0 <= b < lines && (b > j || (b == j && a >= start)) ==> #[trigger] blocked(
            grid,
            scan,
            a,
            b,
            scan.back(),
        )
}

/// The cells from position `a` to position `b` of line `j` are joined
/// sideways, each to the next.
pub open spec fn run_of(grid: Grid, scan: Scan, a: int, b: int, j: int) -> bool {
    forall|k: int| a <= k < b ==> !#[trigger] blocked(grid, scan, k, j, scan.along())
}

/// The cell at position `a` of line `j` has a passage to the line before.
pub open spec fn exits(grid: Grid, scan: Scan, a: int, j: int) -> bool {
    !blocked(grid, scan, a, j, scan.back())
}

/// Among the first `upto` cells of line `j`, one that is joined sideways
/// to the cell at position `a` has a passage to the line before.
pub open spec fn has_exit(grid: Grid, scan: Scan, a: int, j: int, upto: int) -> bool {
    exists|b: int|
        0 <= b < upto && #[trigger] exits(grid, scan, b, j) && if a <= b {
            run_of(grid, scan, a, b, j)
        } else {
            run_of(grid, scan, b, a, j)
        }
}

/// The first `upto` cells of line `j` are whole runs: cells joined
/// sideways, of which exactly one has a passage to the line before.
pub open spec fn runs_done(grid: Grid, scan: Scan, j: int, upto: int) -> bool {
    &&& forall|a: int, b: int|
        0 <= a < b < upto && #[trigger] exits(grid, scan, a, j) && #[trigger] exits(grid, scan, b, j) ==> !run_of(
            grid,
            scan,
            a,
            b,
            j,
        )
    &&& forall|a: int| 0 <= a < upto ==> #[trigger] has_exit(grid, scan, a, j, upto)
    &&& upto > 0 ==> blocked(grid, scan, upto - 1, j, scan.along())
}

/// How the passages lie when the scan stands before position `i` of line
/// `j`, with the current run beginning at position `start`: the first
/// line is joined sideways as far as the scan has come, the lines after it
/// are whole runs, and so is the current line up to the current run.
pub open spec fn laid(grid: Grid, scan: Scan, j: int, i: int, start: int) -> bool {
    let len = scan.line_len(grid);
    &&& forall|a: int| 0 <= a < len - 1 && (j > 0 || a < i) ==> !#[trigger] blocked(grid, scan, a, 0, scan.along())
    &&& forall|b: int| 1 <= b < j ==> #[trigger] runs_done(grid, scan, b, len)
    &&& 1 <= j < scan.lines(grid) ==> runs_done(grid, scan, j, start) && run_of(grid, scan, start, i, j)
}

/// Runs stay what they are while the walls of their line stay.
pub proof fn lemma_runs_kept(before: Grid, after: Grid, scan: Scan, j: int, upto: int)
    requires
        runs_done(before, scan, j, upto),
        forall|a: int|
            0 <= a < upto ==> blocked(after, scan, a, j, scan.along()) == #[trigger] blocked(
                before,
                scan,
                a,
                j,
                scan.along(),
            ),
        forall|a: int|
            0 <= a < upto ==> blocked(after, scan, a, j, scan.back()) == #[trigger] blocked(
                before,
                scan,
                a,
                j,
                scan.back(),
            ),
    ensures
        runs_done(after, scan, j, upto),
{
    assert forall|a: int, b: int| 0 <= a <= b < upto implies run_of(after, scan, a, b, j) == run_of(
        before,
        scan,
        a,
        b,
        j,
    ) by {
        if run_of(before, scan, a, b, j) {
            assert forall|k: int| a <= k < b implies !#[trigger] blocked(after, scan, k, j, scan.along()) by {
                assert(!blocked(before, scan, k, j, scan.along()));
            }
        }
        if run_of(after, scan, a, b, j) {
            assert forall|k: int| a <= k < b implies !#[trigger] blocked(before, scan, k, j, scan.along()) by {
                assert(!blocked(after, scan, k, j, scan.along()));
            }
        }
    }
    assert forall|a: int, b: int|
        0 <= a < b < upto && #[trigger] exits(after, scan, a, j) && #[trigger] exits(
            after,
            scan,
            b,
            j,
        ) implies !run_of(after, scan, a, b, j) by {
        assert(blocked(after, scan, a, j, scan.back()) == blocked(before, scan, a, j, scan.back()));
        assert(blocked(after, scan, b, j, scan.back()) == blocked(before, scan, b, j, scan.back()));
        assert(exits(before, scan, a, j) && exits(before, scan, b, j));
    }
    assert forall|a: int| 0 <= a < upto implies #[trigger] has_exit(after, scan, a, j, upto) by {
        assert(has_exit(before, scan, a, j, upto));
        let b = choose|b: int|
            0 <= b < upto && #[trigger] exits(before, scan, b, j) && if a <= b {
                run_of(before, scan, a, b, j)
            } else {
                run_of(before, scan, b, a, j)
            };
        assert(blocked(after, scan, b, j, scan.back()) == blocked(before, scan, b, j, scan.back()));
        assert(exits(after, scan, b, j));
    }
    if upto > 0 {
        assert(blocked(after, scan, upto - 1, j, scan.along()) == blocked(before, scan, upto - 1, j, scan.along()));
    }
}

/// Opening a wall of line `j`, sideways or to the line before, leaves the
/// first line joined and the lines between whole.
pub proof fn lemma_laid_kept(before: Grid, after: Grid, scan: Scan, j: int, i: int, start: int)
    requires
        laid(before, scan, j, i, start),
        j >= 1,
        forall|a: int, b: int|
            0 <= a < scan.line_len(before) && 0 <= b < j ==> blocked(after, scan, a, b, scan.along())
                == #[trigger] blocked(before, scan, a, b, scan.along()),
        forall|a: int, b: int|
            0 <= a < scan.line_len(before) && 0 <= b < j ==> blocked(after, scan, a, b, scan.back())
                == #[trigger] blocked(before, scan, a, b, scan.back()),
        scan.line_len(after) == scan.line_len(before),
    ensures
        forall|a: int| 0 <= a < scan.line_len(after) - 1 ==> !#[trigger] blocked(after, scan, a, 0, scan.along()),
        forall|b: int| 1 <= b < j ==> #[trigger] runs_done(after, scan, b, scan.line_len(after)),
{
    let len = scan.line_len(before);
    assert forall|a: int| 0 <= a < len - 1 implies !#[trigger] blocked(after, scan, a, 0, scan.along()) by {
        assert(!blocked(before, scan, a, 0, scan.along()));
    }
    assert forall|b: int| 1 <= b < j implies #[trigger] runs_done(after, scan, b, len) by {
        assert(runs_done(before, scan, b, len));
        lemma_runs_kept(before, after, scan, b, len);
    }
}

/// Generates a perfect maze line by line. In the first line all cells are
/// joined sideways. In every other line a coin is tossed for each cell: it
/// either joins the cell to the next one, or ends the run of joined cells
/// there; the last cell of a line always ends its run. A run that ends
/// gets a passage to the line before, from one of its cells drawn at
/// random, so that every run has exactly one.
pub fn run(width: usize, height: usize, rng: &mut StdRng, scan_dir: Scan) -> (grid: Grid)
    requires
        width >= 1,
        height >= 1,
    ensures
        grid.wf(),
        grid.width == width,
        grid.height == height,
        grid.sealed(),
        grid.plan().is_perfect(),
        grid.plan().acyclic(),
        forall|a: int| 0 <= a < scan_dir.line_len(grid) - 1 ==> !#[trigger] blocked(grid, scan_dir, a, 0, scan_dir.along()),
        forall|j: int|
            1 <= j < scan_dir.lines(grid) ==> #[trigger] runs_done(grid, scan_dir, j, scan_dir.line_len(grid)),
{
    let mut grid = Grid::new(width, height, true);
    let mut set_start: usize = 0;
    let (main, cross, up, side) = match scan_dir {
        Scan::Horizontal => (width, height, Direction::North, Direction::East),
        Scan::Vertical => (height, width, Direction::West, Direction::South),
    };
    let mut j: usize = 0;
    proof {
        grid.lemma_plan_wf();
        grid.plan().lemma_joined_refl((0, 0));
        assert(0 * scan_dir.line_len(grid) == 0) by (nonlinear_arith);
        assert(in_run(grid, scan_dir, 0, 0, 0));
    }
    while j < cross
        invariant
            j <= cross,
            set_start == 0,
            grid.width == width,
            grid.height == height,
            main == scan_dir.line_len(grid),
            cross == scan_dir.lines(grid),
            up == scan_dir.back(),
            side == scan_dir.along(),
            winding(grid, scan_dir, j as int, 0, 0),
            laid(grid, scan_dir, j as int, 0, 0),
        decreases cross - j,
    {
        let mut i: usize = 0;
        while i < main
            invariant
                i <= main,
                j < cross,
                set_start <= i,
                j == 0 ==> set_start == 0,
                j > 0 && i == main ==> set_start == main,
                grid.width == width,
                grid.height == height,
                main == scan_dir.line_len(grid),
                cross == scan_dir.lines(grid),
                up == scan_dir.back(),
                side == scan_dir.along(),
                winding(grid, scan_dir, j as int, i as int, set_start as int),
                laid(grid, scan_dir, j as int, i as int, set_start as int),
            decreases main - i,
        {
            let ghost before = grid;
            let ghost p = grid.plan();
            let ghost start = set_start as int;
            let roll = j == 0 || gen_bool(rng);
            if roll && i != main - 1 {
                open(scan_dir, &mut grid, i, j, side);
                proof {
                    let c = scan_dir.cell(i as int, j as int);
                    let n = scan_dir.cell(i + 1, j as int);
                    let q = grid.plan();
                    assert(n == (c.0 + side.dx(), c.1 + side.dy()));
                    before.lemma_sealed_kept(grid, c.0, c.1, side, false);
                    before.lemma_linked_iff_open(c.0, c.1, side);
                    assert(blocked(before, scan_dir, i as int, j as int, side));
                    assert(!p.open.contains(edge_between(c, n)));
                    assert(q.linked(c, n));
                    assert(tally(j as int, i + 1, main as int) == tally(j as int, i as int, main as int) + 1);
                    assert forall|a: int, b: int|
                        0 <= a < main && 0 <= b < cross && (b < j || (b == j && a < start)) implies #[trigger] rooted(
                        grid,
                        scan_dir,
                        a,
                        b,
                    ) by {
                        assert(rooted(before, scan_dir, a, b));
                        p.lemma_joined_mono(q, (0, 0), scan_dir.cell(a, b));
                    }
                    assert forall|a: int| start <= a <= i + 1 && a < main implies #[trigger] in_run(
                        grid,
                        scan_dir,
                        start,
                        a,
                        j as int,
                    ) by {
                        if a <= i {
                            assert(in_run(before, scan_dir, start, a, j as int));
                            p.lemma_joined_mono(q, scan_dir.cell(start, j as int), scan_dir.cell(a, j as int));
                        } else {
                            assert(in_run(before, scan_dir, start, i as int, j as int));
                            p.lemma_joined_mono(q, scan_dir.cell(start, j as int), c);
                            q.lemma_joined_snoc(scan_dir.cell(start, j as int), c, n);
                        }
                    }
                    assert forall|a: int, b: int|
                        0 <= a < main && 0 <= b < cross && (b > j || (b == j && a >= i + 1)) implies #[trigger] blocked(
                        grid,
                        scan_dir,
                        a,
                        b,
                        scan_dir.along(),
                    ) by {
                        assert(blocked(before, scan_dir, a, b, scan_dir.along()));
                    }
                    assert forall|a: int, b: int|
                        0 <= a < main && 0 <= b < cross && (b > j || (b == j && a >= start)) implies #[trigger] blocked(
                        grid,
                        scan_dir,
                        a,
                        b,
                        scan_dir.back(),
                    ) by {
                        assert(blocked(before, scan_dir, a, b, scan_dir.back()));
                    }
                    if j == 0 {
                        assert forall|a: int| 0 <= a < main - 1 && a < i + 1 implies !#[trigger] blocked(
                            grid,
                            scan_dir,
                            a,
                            0,
                            scan_dir.along(),
                        ) by {
                            if a < i {
                                assert(!blocked(before, scan_dir, a, 0, scan_dir.along()));
                            }
                        }
                    } else {
                        lemma_laid_kept(before, grid, scan_dir, j as int, i as int, start);
                        lemma_runs_kept(before, grid, scan_dir, j as int, start);
                        assert forall|k: int| start <= k < i + 1 implies !#[trigger] blocked(
                            grid,
                            scan_dir,
                            k,
                            j as int,
                            scan_dir.along(),
                        ) by {
                            if k < i {
                                assert(!blocked(before, scan_dir, k, j as int, scan_dir.along()));
                            }
                        }
                    }
                }
            } else if j != 0 {
                let idx = gen_range(rng, set_start, i + 1);
                set_start = i + 1;
                open(scan_dir, &mut grid, idx, j, up);
                proof {
                    let c = scan_dir.cell(idx as int, j as int);
                    let n = scan_dir.cell(idx as int, j - 1);
                    let q = grid.plan();
                    let first = scan_dir.cell(start, j as int);
                    assert(n == (c.0 + up.dx(), c.1 + up.dy()));
                    before.lemma_sealed_kept(grid, c.0, c.1, up, false);
                    before.lemma_linked_iff_open(c.0, c.1, up);
                    assert(blocked(before, scan_dir, idx as int, j as int, up));
                    assert(!p.open.contains(edge_between(c, n)));
                    assert(q.linked(c, n));
                    q.lemma_linked_sym(c, n);
                    assert(tally(j as int, i + 1, main as int) == tally(j as int, i as int, main as int) + 1);
                    assert(rooted(before, scan_dir, idx as int, j - 1));
                    p.lemma_joined_mono(q, (0, 0), n);
                    q.lemma_joined_snoc((0, 0), n, c);
                    assert(in_run(before, scan_dir, start, idx as int, j as int));
                    p.lemma_joined_mono(q, first, c);
                    q.lemma_joined_sym(first, c);
                    q.lemma_joined_trans((0, 0), c, first);
                    assert forall|a: int, b: int|
                        0 <= a < main && 0 <= b < cross && (b < j || (b == j && a < i + 1)) implies #[trigger] rooted(
                        grid,
                        scan_dir,
                        a,
                        b,
                    ) by {
                        if b < j || a < start {
                            assert(rooted(before, scan_dir, a, b));
                            p.lemma_joined_mono(q, (0, 0), scan_dir.cell(a, b));
                        } else {
                            assert(in_run(before, scan_dir, start, a, j as int));
                            p.lemma_joined_mono(q, first, scan_dir.cell(a, j as int));
                            q.lemma_joined_trans((0, 0), first, scan_dir.cell(a, j as int));
                        }
                    }
                    assert forall|a: int| i + 1 <= a <= i + 1 && a < main implies #[trigger] in_run(
                        grid,
                        scan_dir,
                        i + 1,
                        a,
                        j as int,
                    ) by {
                        q.lemma_joined_refl(scan_dir.cell(a, j as int));
                    }
                    assert forall|a: int, b: int|
                        0 <= a < main && 0 <= b < cross && (b > j || (b == j && a >= i + 1)) implies #[trigger] blocked(
                        grid,
                        scan_dir,
                        a,
                        b,
                        scan_dir.along(),
                    ) by {
                        assert(blocked(before, scan_dir, a, b, scan_dir.along()));
                    }
                    assert forall|a: int, b: int|
                        0 <= a < main && 0 <= b < cross && (b > j || (b == j && a >= i + 1)) implies #[trigger] blocked(
                        grid,
                        scan_dir,
                        a,
                        b,
                        scan_dir.back(),
                    ) by {
                        assert(blocked(before, scan_dir, a, b, scan_dir.back()));
                    }
                    lemma_laid_kept(before, grid, scan_dir, j as int, i as int, start);
                    let jj = j as int;
                    let at_idx = idx as int;
                    assert forall|a: int| 0 <= a < main implies blocked(grid, scan_dir, a, jj, scan_dir.along())
                        == #[trigger] blocked(before, scan_dir, a, jj, scan_dir.along()) by {}
                    assert forall|a: int| 0 <= a < main && a != at_idx implies blocked(
                        grid,
                        scan_dir,
                        a,
                        jj,
                        scan_dir.back(),
                    ) == #[trigger] blocked(before, scan_dir, a, jj, scan_dir.back()) by {}
                    lemma_runs_kept(before, grid, scan_dir, jj, start);
                    assert(run_of(grid, scan_dir, start, i as int, jj)) by {
                        assert forall|k: int| start <= k < i implies !#[trigger] blocked(
                            grid,
                            scan_dir,
                            k,
                            jj,
                            scan_dir.along(),
                        ) by {
                            assert(!blocked(before, scan_dir, k, jj, scan_dir.along()));
                        }
                    }
                    assert(exits(grid, scan_dir, at_idx, jj));
                    assert forall|a: int, b: int|
                        0 <= a < b < i + 1 && #[trigger] exits(grid, scan_dir, a, jj) && #[trigger] exits(
                            grid,
                            scan_dir,
                            b,
                            jj,
                        ) implies !run_of(grid, scan_dir, a, b, jj) by {
                        if b < start {
                        } else {
                            assert(blocked(before, scan_dir, b, jj, scan_dir.back()) || b == at_idx);
                            if a >= start {
                                assert(blocked(before, scan_dir, a, jj, scan_dir.back()));
                            } else if run_of(grid, scan_dir, a, b, jj) {
                                assert(!blocked(grid, scan_dir, start - 1, jj, scan_dir.along()));
                            }
                        }
                    }
                    assert forall|a: int| 0 <= a < i + 1 implies #[trigger] has_exit(grid, scan_dir, a, jj, i + 1) by {
                        if a < start {
                            assert(has_exit(grid, scan_dir, a, jj, start));
                            let b = choose|b: int|
                                0 <= b < start && #[trigger] exits(grid, scan_dir, b, jj) && if a <= b {
                                    run_of(grid, scan_dir, a, b, jj)
                                } else {
                                    run_of(grid, scan_dir, b, a, jj)
                                };
                            assert(0 <= b < i + 1);
                        } else {
                            if a <= at_idx {
                                assert(run_of(grid, scan_dir, a, at_idx, jj));
                            } else {
                                assert(run_of(grid, scan_dir, at_idx, a, jj));
                            }
                        }
                    }
                    assert(blocked(before, scan_dir, i as int, jj, scan_dir.along()));
                    assert(runs_done(grid, scan_dir, jj, i + 1));
                }
            } else {
                proof {
                    assert(tally(0, i + 1, main as int) == tally(0, i as int, main as int));
                    assert forall|a: int, b: int|
                        0 <= a < main && 0 <= b < cross && (b > j || (b == j && a >= i + 1)) implies #[trigger] blocked(
                        grid,
                        scan_dir,
                        a,
                        b,
                        scan_dir.along(),
                    ) by {
                        assert(blocked(before, scan_dir, a, b, scan_dir.along()));
                    }
                }
            }
            i += 1;
        }
        proof {
            let q = grid.plan();
            assert(tally(j as int, main as int, main as int) == tally(j + 1, 0, main as int)) by (nonlinear_arith)
                requires
                    main >= 1,
                    j >= 0,
            ;
            assert forall|a: int, b: int|
                0 <= a < main && 0 <= b < cross && (b < j + 1 || (b == j + 1 && a < 0)) implies #[trigger] rooted(
                grid,
                scan_dir,
                a,
                b,
            ) by {
                if b == j && j == 0 {
                    assert(in_run(grid, scan_dir, 0, a, 0));
                }
            }
            if j >= 1 {
                assert(runs_done(grid, scan_dir, j as int, main as int));
            }
            assert forall|b: int| 1 <= b < j + 1 implies #[trigger] runs_done(grid, scan_dir, b, main as int) by {}
            assert(runs_done(grid, scan_dir, j + 1, 0)) by {
                assert forall|a: int| 0 <= a < 0 implies #[trigger] has_exit(grid, scan_dir, a, j + 1, 0) by {}
            }
            assert forall|a: int| 0 <= a <= 0 && a < main && j + 1 < cross implies #[trigger] in_run(
                grid,
                scan_dir,
                0,
                a,
                j + 1,
            ) by {
                q.lemma_joined_refl(scan_dir.cell(0, j + 1));
            }
        }
        set_start = 0;
        j += 1;
    }
    proof {
        let p = grid.plan();
        assert forall|c: (int, int)| p.has_cell(c) implies #[trigger] p.joined((0, 0), c) by {
            let (a, b) = match scan_dir {
                Scan::Horizontal => (c.0, c.1),
                Scan::Vertical => (c.1, c.0),
            };
            assert(rooted(grid, scan_dir, a, b));
        }
        p.lemma_connected_via((0, 0));
        assert(tally(cross as int, 0, main as int) == width * height - 1) by (nonlinear_arith)
            requires
                cross >= 1,
                (cross == width && main == height) || (cross == height && main == width),
        ;
    }
    proof {
        grid.plan().lemma_perfect_acyclic();
    }
    grid
}

} // verus!
