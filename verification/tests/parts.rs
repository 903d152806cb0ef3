use maze::algorithms::binary_tree::collect_directions;
use maze::algorithms::ellers_algorithm::{
    assign_sets, carve_crosswise, carve_mainwise, first_of_set, members_of, EllersHelper,
};
use maze::algorithms::growing_tree::{choose_cell, select};
use maze::algorithms::hunt_kill_algorithm::hunt;
use maze::algorithms::kruskals_algorithm::{collect_edges, Sets};
use maze::algorithms::prims_algorithm::{connect, pick};
use maze::algorithms::recursive_division::{bisect, close_boundary, close_line, Area, Line};
use maze::algorithms::sidewinder_algorithm::open;
use maze::algorithms::{choose_entry_points, open_random_dir, shuffled_directions};
use maze::cell_set::CellSet;
use maze::grid::{Direction, Grid};
use maze::{Bias, CellSelection, Scan};
use rand::{SeedableRng, StdRng};

const ALL: [Direction; 4] = [Direction::North, Direction::South, Direction::East, Direction::West];

fn seeded(seed: usize) -> StdRng {
    let words = [seed, 0x9e37_79b9, 0x7f4a_7c15, 42];
    SeedableRng::from_seed(&words[..])
}

fn passages(grid: &Grid) -> usize {
    let mut count = 0;
    for x in 0..grid.width {
        for y in 0..grid.height {
            if x + 1 < grid.width && !grid.cells[x][y].get(Direction::East) {
                count += 1;
            }
            if y + 1 < grid.height && !grid.cells[x][y].get(Direction::South) {
                count += 1;
            }
        }
    }
    count
}

fn openings(grid: &Grid) -> Vec<(usize, usize, Direction)> {
    let mut found = Vec::new();
    for x in 0..grid.width {
        for y in 0..grid.height {
            for dir in ALL {
                if grid.cell_at(x, y, dir).is_none() && !grid.cells[x][y].get(dir) {
                    found.push((x, y, dir));
                }
            }
        }
    }
    found
}

fn walls(grid: &Grid) -> Vec<bool> {
    let mut flags = Vec::new();
    for x in 0..grid.width {
        for y in 0..grid.height {
            for dir in ALL {
                flags.push(grid.cells[x][y].get(dir));
            }
        }
    }
    flags
}

#[test]
fn select_follows_the_plain_policies() {
    assert_eq!(select(5, CellSelection::Newest, 2, 50), 4);
    assert_eq!(select(5, CellSelection::Oldest, 2, 50), 0);
    assert_eq!(select(5, CellSelection::Random, 2, 50), 2);
    assert_eq!(select(1, CellSelection::Newest, 0, 1), 0);
    assert_eq!(select(1, CellSelection::Random, 0, 100), 0);
}

#[test]
fn select_splits_at_the_percentage() {
    assert_eq!(select(5, CellSelection::NewestOldest(40), 2, 40), 4);
    assert_eq!(select(5, CellSelection::NewestOldest(40), 2, 41), 0);
    assert_eq!(select(5, CellSelection::NewestRandom(20), 2, 20), 4);
    assert_eq!(select(5, CellSelection::NewestRandom(20), 2, 21), 2);
    assert_eq!(select(5, CellSelection::OldestRandom(50), 3, 50), 0);
    assert_eq!(select(5, CellSelection::OldestRandom(50), 3, 51), 3);
}

#[test]
fn select_at_the_ends_of_the_percentage() {
    // With 0 the first policy is never followed, with 100 always.
    assert_eq!(select(7, CellSelection::NewestOldest(0), 3, 1), 0);
    assert_eq!(select(7, CellSelection::NewestOldest(100), 3, 100), 6);
    assert_eq!(select(7, CellSelection::OldestRandom(0), 3, 1), 3);
    assert_eq!(select(7, CellSelection::NewestRandom(100), 3, 100), 6);
}

#[test]
fn choose_cell_returns_a_listed_cell() {
    let cells = vec![(3usize, 1usize), (4, 1), (4, 2), (5, 2)];
    for seed in 0..20 {
        let mut rng = seeded(seed);
        let (x, y, pos) = choose_cell(&cells, CellSelection::Random, &mut rng);
        assert!(pos < cells.len());
        assert_eq!(cells[pos], (x, y));
        let (x, y, pos) = choose_cell(&cells, CellSelection::Newest, &mut rng);
        assert_eq!((x, y, pos), (5, 2, 3));
        let (x, y, pos) = choose_cell(&cells, CellSelection::Oldest, &mut rng);
        assert_eq!((x, y, pos), (3, 1, 0));
        let (_, _, pos) = choose_cell(&cells, CellSelection::NewestOldest(50), &mut rng);
        assert!(pos == 0 || pos == 3);
    }
}

#[test]
fn random_picks_reach_more_than_one_cell() {
    let cells = vec![(0usize, 0usize), (1, 0), (2, 0), (3, 0), (4, 0)];
    let mut seen = Vec::new();
    for seed in 0..40 {
        let mut rng = seeded(seed);
        let (_, _, pos) = choose_cell(&cells, CellSelection::Random, &mut rng);
        if !seen.contains(&pos) {
            seen.push(pos);
        }
    }
    assert!(seen.len() >= 2);
}

#[test]
fn collect_directions_in_the_middle() {
    assert_eq!(collect_directions(Bias::Northwest, 1, 1, 3, 3), vec![Direction::North, Direction::West]);
    assert_eq!(collect_directions(Bias::Northeast, 1, 1, 3, 3), vec![Direction::North, Direction::East]);
    assert_eq!(collect_directions(Bias::Southwest, 1, 1, 3, 3), vec![Direction::South, Direction::West]);
    assert_eq!(collect_directions(Bias::Southeast, 1, 1, 3, 3), vec![Direction::South, Direction::East]);
}

#[test]
fn collect_directions_at_the_boundary() {
    assert_eq!(collect_directions(Bias::Northwest, 0, 0, 3, 3), Vec::<Direction>::new());
    assert_eq!(collect_directions(Bias::Northwest, 1, 0, 3, 3), vec![Direction::West]);
    assert_eq!(collect_directions(Bias::Northwest, 0, 1, 3, 3), vec![Direction::North]);
    assert_eq!(collect_directions(Bias::Southeast, 2, 2, 3, 3), Vec::<Direction>::new());
    assert_eq!(collect_directions(Bias::Southeast, 2, 1, 3, 3), vec![Direction::South]);
    assert_eq!(collect_directions(Bias::Southeast, 1, 2, 3, 3), vec![Direction::East]);
    assert_eq!(collect_directions(Bias::Northeast, 2, 0, 3, 3), Vec::<Direction>::new());
    assert_eq!(collect_directions(Bias::Southwest, 0, 2, 3, 3), Vec::<Direction>::new());
    assert_eq!(collect_directions(Bias::Southwest, 0, 0, 1, 1), Vec::<Direction>::new());
}

#[test]
fn collect_edges_lists_every_inner_wall_once() {
    let edges = collect_edges(3, 2);
    assert_eq!(edges.len(), 2 * 2 + 3 * 1);
    for (i, a) in edges.iter().enumerate() {
        for b in edges.iter().skip(i + 1) {
            assert_ne!(a, b);
        }
    }
    // The last column and the last row have their walls too.
    assert!(edges.contains(&(2, 0, Direction::South)));
    assert!(edges.contains(&(0, 1, Direction::East)));
    assert!(edges.contains(&(1, 1, Direction::East)));
    assert!(!edges.contains(&(2, 1, Direction::East)));
    assert!(!edges.contains(&(2, 1, Direction::South)));
    let grid = Grid::new(3, 2, true);
    for &(x, y, dir) in edges.iter() {
        assert!(dir == Direction::South || dir == Direction::East);
        assert!(grid.cell_at(x, y, dir).is_some());
    }
}

#[test]
fn collect_edges_of_a_corridor() {
    assert_eq!(collect_edges(1, 1).len(), 0);
    let row = collect_edges(5, 1);
    assert_eq!(row.len(), 4);
    assert!(row.iter().all(|&(_, y, dir)| y == 0 && dir == Direction::East));
    let column = collect_edges(1, 5);
    assert_eq!(column.len(), 4);
    assert!(column.iter().all(|&(x, _, dir)| x == 0 && dir == Direction::South));
}

#[test]
fn sets_begin_apart() {
    let mut sets = Sets::new(3, 2);
    assert_eq!(sets.cells, vec![0, 1, 2, 3, 4, 5]);
    assert_eq!(sets.root(0, 0), 0);
    assert_eq!(sets.root(2, 0), 2);
    assert_eq!(sets.root(0, 1), 3);
    assert_eq!(sets.root(2, 1), 5);
}

#[test]
fn reparent_unites_once() {
    let mut sets = Sets::new(3, 2);
    assert!(sets.reparent(0, 0, 1, 0));
    assert!(!sets.reparent(0, 0, 1, 0));
    assert!(!sets.reparent(1, 0, 0, 0));
    assert_eq!(sets.root(1, 0), 0);
    assert_eq!(sets.root(0, 0), 0);
    assert!(sets.reparent(2, 1, 1, 1));
    assert_eq!(sets.root(1, 1), 5);
    // Uniting the two pairs: the leader of the first argument leads all.
    assert!(sets.reparent(1, 1, 1, 0));
    for &(x, y) in [(0usize, 0usize), (1, 0), (1, 1), (2, 1)].iter() {
        assert_eq!(sets.root(x, y), 5);
    }
    assert_eq!(sets.root(2, 0), 2);
    assert_eq!(sets.root(0, 1), 3);
}

#[test]
fn root_shortens_the_way() {
    let mut sets = Sets::new(4, 1);
    assert!(sets.reparent(1, 0, 0, 0));
    assert!(sets.reparent(2, 0, 1, 0));
    assert!(sets.reparent(3, 0, 2, 0));
    assert_eq!(sets.cells, vec![1, 2, 3, 3]);
    assert_eq!(sets.root(0, 0), 3);
    assert_eq!(sets.cells, vec![2, 2, 3, 3]);
    assert_eq!(sets.root(0, 0), 3);
    assert_eq!(sets.cells, vec![3, 2, 3, 3]);
}

#[test]
fn cell_set_keeps_each_cell_once() {
    let mut set = CellSet::new();
    assert!(set.is_empty());
    assert_eq!(set.len(), 0);
    assert!(set.insert((1, 2)));
    assert!(set.insert((0, 0)));
    assert!(!set.insert((1, 2)));
    assert_eq!(set.len(), 2);
    assert!(set.contains(&(1, 2)));
    assert!(set.contains(&(0, 0)));
    assert!(!set.contains(&(2, 1)));
    assert_eq!(set.nth(0), (1, 2));
    assert_eq!(set.nth(1), (0, 0));
    assert_eq!(set.position(&(0, 0)), Some(1));
    assert_eq!(set.position(&(5, 5)), None);
}

#[test]
fn cell_set_remove() {
    let mut set = CellSet::new();
    set.insert((1, 2));
    set.insert((0, 0));
    set.insert((3, 3));
    assert!(set.remove(&(0, 0)));
    assert!(!set.remove(&(0, 0)));
    assert!(!set.contains(&(0, 0)));
    assert_eq!(set.len(), 2);
    assert_eq!(set.nth(0), (1, 2));
    assert_eq!(set.nth(1), (3, 3));
    assert!(set.remove(&(1, 2)));
    assert!(set.remove(&(3, 3)));
    assert!(set.is_empty());
}

#[test]
fn shuffled_directions_hold_each_direction_once() {
    for seed in 0..50 {
        let mut rng = seeded(seed);
        let dirs = shuffled_directions(&mut rng);
        assert_eq!(dirs.len(), 4);
        for dir in ALL {
            assert_eq!(dirs.iter().filter(|&&d| d == dir).count(), 1);
        }
    }
}

#[test]
fn shuffled_directions_change_their_order() {
    let mut orders: Vec<Vec<Direction>> = Vec::new();
    for seed in 0..50 {
        let mut rng = seeded(seed);
        let dirs = shuffled_directions(&mut rng);
        if !orders.contains(&dirs) {
            orders.push(dirs);
        }
    }
    assert!(orders.len() >= 2);
    assert!(orders.iter().any(|order| order[..] != ALL[..]));
}

#[test]
fn pick_draws_members_and_not_always_the_same() {
    let mut set = CellSet::new();
    set.insert((0, 0));
    set.insert((1, 0));
    set.insert((2, 0));
    set.insert((3, 0));
    let mut seen = Vec::new();
    for seed in 0..40 {
        let mut rng = seeded(seed);
        let cell = pick(&set, &mut rng);
        assert!(set.contains(&cell));
        if !seen.contains(&cell) {
            seen.push(cell);
        }
    }
    assert!(seen.len() >= 2);
    assert_eq!(set.len(), 4);
}

#[test]
fn open_random_dir_carves_into_a_closed_neighbour() {
    for seed in 0..20 {
        let mut rng = seeded(seed);
        let mut grid = Grid::new(3, 3, true);
        let next = open_random_dir(&mut grid, 1, 1, &mut rng);
        let (nx, ny) = next.unwrap();
        let dir = ALL.iter().cloned().find(|&d| grid.cell_at(1, 1, d) == Some((nx, ny))).unwrap();
        assert!(!grid.cells[1][1].get(dir));
        assert!(!grid.cells[nx][ny].get(dir.opposite()));
        assert_eq!(passages(&grid), 1);
        assert!(openings(&grid).is_empty());
    }
}

#[test]
fn open_random_dir_from_a_corner() {
    for seed in 0..20 {
        let mut rng = seeded(seed);
        let mut grid = Grid::new(2, 2, true);
        let next = open_random_dir(&mut grid, 0, 0, &mut rng).unwrap();
        assert!(next == (1, 0) || next == (0, 1));
        assert_eq!(passages(&grid), 1);
        assert!(openings(&grid).is_empty());
    }
}

#[test]
fn open_random_dir_hemmed_in() {
    let mut rng = seeded(3);
    let mut grid = Grid::new(3, 3, true);
    // Every neighbour of the middle cell gets a passage of its own.
    grid.open(1, 0, Direction::West);
    grid.open(0, 1, Direction::South);
    grid.open(2, 1, Direction::North);
    grid.open(1, 2, Direction::East);
    let before = walls(&grid);
    assert_eq!(open_random_dir(&mut grid, 1, 1, &mut rng), None);
    assert_eq!(walls(&grid), before);
    let mut lone = Grid::new(1, 1, true);
    assert_eq!(open_random_dir(&mut lone, 0, 0, &mut rng), None);
    assert!(lone.cells[0][0].is_closed());
}

#[test]
fn hunt_finds_nothing_in_a_closed_grid() {
    let mut rng = seeded(1);
    let mut grid = Grid::new(3, 3, true);
    assert_eq!(hunt(&mut grid, &mut rng), None);
    assert_eq!(passages(&grid), 0);
    let mut open = Grid::new(3, 3, false);
    assert_eq!(hunt(&mut open, &mut rng), None);
}

#[test]
fn hunt_takes_the_first_cell_next_to_the_maze() {
    for seed in 0..10 {
        let mut rng = seeded(seed);
        let mut grid = Grid::new(3, 3, true);
        grid.open(2, 2, Direction::North);
        // (2, 0) is the first closed cell, row by row, with a neighbour
        // that is not closed: (2, 1).
        assert_eq!(hunt(&mut grid, &mut rng), Some((2, 0)));
        assert!(!grid.cells[2][0].get(Direction::South));
        assert!(!grid.cells[2][1].get(Direction::North));
        assert_eq!(passages(&grid), 2);
    }
}

#[test]
fn hunt_goes_through_the_rows() {
    for seed in 0..10 {
        let mut rng = seeded(seed);
        // Only (0, 0) is not closed: its wall on the boundary is open. Both
        // (1, 0) and (0, 1) are next to it; (1, 0) is in the first row.
        let mut grid = Grid::new(2, 2, true);
        grid.open(0, 0, Direction::North);
        assert_eq!(hunt(&mut grid, &mut rng), Some((1, 0)));
        assert!(!grid.cells[1][0].get(Direction::West));
        assert!(!grid.cells[0][0].get(Direction::East));
        assert!(grid.cells[0][1].is_closed());
        assert_eq!(passages(&grid), 1);
    }
}

#[test]
fn connect_moves_the_first_cell_without_carving() {
    let mut rng = seeded(5);
    let mut grid = Grid::new(3, 3, true);
    let mut frontier = CellSet::new();
    let mut done = CellSet::new();
    frontier.insert((1, 1));
    connect(&mut grid, &mut frontier, &mut rng, &mut done, 1, 1);
    assert_eq!(passages(&grid), 0);
    assert!(done.contains(&(1, 1)));
    assert_eq!(done.len(), 1);
    assert_eq!(frontier.len(), 4);
    for cell in [(1usize, 0usize), (0, 1), (2, 1), (1, 2)].iter() {
        assert!(frontier.contains(cell));
    }
}

#[test]
fn connect_carves_one_passage_to_the_done_part() {
    for seed in 0..10 {
        let mut rng = seeded(seed);
        let mut grid = Grid::new(3, 3, true);
        let mut frontier = CellSet::new();
        let mut done = CellSet::new();
        done.insert((1, 1));
        done.insert((0, 0));
        frontier.insert((1, 0));
        frontier.insert((0, 1));
        connect(&mut grid, &mut frontier, &mut rng, &mut done, 1, 0);
        // Two neighbours are done; only one gets the passage.
        assert_eq!(passages(&grid), 1);
        let south = !grid.cells[1][0].get(Direction::South);
        let west = !grid.cells[1][0].get(Direction::West);
        assert!(south != west);
        assert!(done.contains(&(1, 0)));
        assert_eq!(done.len(), 3);
        assert!(!frontier.contains(&(1, 0)));
        assert!(frontier.contains(&(2, 0)));
        assert!(frontier.contains(&(0, 1)));
        assert_eq!(frontier.len(), 2);
    }
}

#[test]
fn scan_open_swaps_the_coordinates() {
    let mut grid = Grid::new(3, 2, true);
    open(Scan::Horizontal, &mut grid, 2, 1, Direction::North);
    assert!(!grid.cells[2][1].get(Direction::North));
    assert!(!grid.cells[2][0].get(Direction::South));
    let mut grid = Grid::new(3, 2, true);
    open(Scan::Vertical, &mut grid, 1, 2, Direction::West);
    assert!(!grid.cells[2][1].get(Direction::West));
    assert!(!grid.cells[1][1].get(Direction::East));
}

#[test]
fn first_of_set_looks_back() {
    let line = vec![3, 5, 3, 7, 5];
    assert!(first_of_set(&line, 0));
    assert!(first_of_set(&line, 1));
    assert!(!first_of_set(&line, 2));
    assert!(first_of_set(&line, 3));
    assert!(!first_of_set(&line, 4));
}

#[test]
fn members_of_lists_positions_in_order() {
    let line = vec![3, 5, 3, 7, 3];
    assert_eq!(members_of(&line, 3), vec![0, 2, 4]);
    assert_eq!(members_of(&line, 5), vec![1]);
    assert_eq!(members_of(&line, 7), vec![3]);
    assert_eq!(members_of(&line, 4), Vec::<usize>::new());
}

#[test]
fn assign_sets_numbers_the_closed_cells() {
    let mut grid = Grid::new(3, 2, true);
    let mut helper = EllersHelper { line: vec![0; 3], counter: 0, main: 2, cross: 3, scan: Scan::Horizontal };
    assign_sets(&mut grid, &mut helper, 0);
    assert_eq!(helper.line, vec![0, 1, 2]);
    assert_eq!(helper.counter, 3);
    assert_eq!(passages(&grid), 0);
}

#[test]
fn assign_sets_keeps_what_came_down() {
    // The first row: the first two cells merged into set 1, and a passage
    // down from each of the sets 1 and 2.
    let mut grid = Grid::new(3, 2, true);
    grid.open(0, 0, Direction::East);
    grid.open(1, 0, Direction::South);
    grid.open(2, 0, Direction::South);
    let mut helper = EllersHelper { line: vec![1, 1, 2], counter: 3, main: 2, cross: 3, scan: Scan::Horizontal };
    assign_sets(&mut grid, &mut helper, 1);
    assert_eq!(helper.line, vec![3, 1, 2]);
    assert_eq!(helper.counter, 4);
    assert_eq!(passages(&grid), 3);
}

#[test]
fn assign_sets_by_columns() {
    let mut grid = Grid::new(2, 3, true);
    let mut helper = EllersHelper { line: vec![0; 3], counter: 0, main: 2, cross: 3, scan: Scan::Vertical };
    assign_sets(&mut grid, &mut helper, 0);
    assert_eq!(helper.line, vec![0, 1, 2]);
    // The first column: the last two cells merged into set 2, and a
    // passage east from each of the sets 0 and 2.
    grid.open(0, 1, Direction::South);
    grid.open(0, 0, Direction::East);
    grid.open(0, 2, Direction::East);
    helper.line = vec![0, 2, 2];
    assign_sets(&mut grid, &mut helper, 1);
    assert_eq!(helper.line, vec![0, 3, 2]);
    assert_eq!(helper.counter, 4);
}

#[test]
fn carve_mainwise_joins_the_whole_last_line() {
    for &scan in [Scan::Horizontal, Scan::Vertical].iter() {
        for seed in 0..5 {
            let mut rng = seeded(seed);
            let (width, height) = match scan {
                Scan::Horizontal => (5, 1),
                Scan::Vertical => (1, 5),
            };
            let mut grid = Grid::new(width, height, true);
            let mut helper = EllersHelper { line: vec![0; 5], counter: 0, main: 1, cross: 5, scan };
            assign_sets(&mut grid, &mut helper, 0);
            carve_mainwise(&mut grid, &mut helper, 0, &mut rng);
            assert_eq!(helper.line, vec![4, 4, 4, 4, 4]);
            assert_eq!(passages(&grid), 4);
        }
    }
}

#[test]
fn carve_mainwise_opens_one_passage_for_each_merge() {
    for seed in 0..20 {
        let mut rng = seeded(seed);
        let mut grid = Grid::new(6, 2, true);
        let mut helper = EllersHelper { line: vec![0; 6], counter: 0, main: 2, cross: 6, scan: Scan::Horizontal };
        assign_sets(&mut grid, &mut helper, 0);
        carve_mainwise(&mut grid, &mut helper, 0, &mut rng);
        let mut sets = helper.line.clone();
        sets.sort();
        sets.dedup();
        assert_eq!(passages(&grid), 6 - sets.len());
        for x in 0..5 {
            let joined = !grid.cells[x][0].get(Direction::East);
            assert_eq!(joined, helper.line[x] == helper.line[x + 1]);
        }
    }
}

#[test]
fn carve_crosswise_gives_each_set_one_passage() {
    for &scan in [Scan::Horizontal, Scan::Vertical].iter() {
        for seed in 0..20 {
            let mut rng = seeded(seed);
            let (width, height, ahead) = match scan {
                Scan::Horizontal => (6, 2, Direction::South),
                Scan::Vertical => (2, 6, Direction::East),
            };
            let mut grid = Grid::new(width, height, true);
            let mut helper = EllersHelper { line: vec![0; 6], counter: 0, main: 2, cross: 6, scan };
            assign_sets(&mut grid, &mut helper, 0);
            carve_mainwise(&mut grid, &mut helper, 0, &mut rng);
            let merged = passages(&grid);
            carve_crosswise(&mut grid, &helper, 0, &mut rng);
            let mut sets = helper.line.clone();
            sets.sort();
            sets.dedup();
            assert_eq!(passages(&grid), merged + sets.len());
            for &set in sets.iter() {
                let mut down = 0;
                for j in 0..6 {
                    let (x, y) = match scan {
                        Scan::Horizontal => (j, 0),
                        Scan::Vertical => (0, j),
                    };
                    if helper.line[j] == set && !grid.cells[x][y].get(ahead) {
                        down += 1;
                    }
                }
                assert_eq!(down, 1);
            }
        }
    }
}

#[test]
fn carve_mainwise_changes_no_other_wall() {
    for seed in 0..20 {
        let mut rng = seeded(seed);
        // The first row is done: its first two cells are merged, and each
        // of its two sets has a passage down.
        let mut grid = Grid::new(3, 3, true);
        grid.open(0, 0, Direction::East);
        grid.open(0, 0, Direction::South);
        grid.open(2, 0, Direction::South);
        let mut helper = EllersHelper { line: vec![1, 1, 2], counter: 3, main: 3, cross: 3, scan: Scan::Horizontal };
        assign_sets(&mut grid, &mut helper, 1);
        assert_eq!(helper.line, vec![1, 3, 2]);
        let before = walls(&grid);
        let line = helper.line.clone();
        carve_mainwise(&mut grid, &mut helper, 1, &mut rng);
        // Replay: a pair is merged exactly where its wall is open now.
        let mut replay = line.clone();
        for j in 0..2 {
            let open = !grid.cells[j][1].get(Direction::East);
            assert_eq!(open, !grid.cells[j + 1][1].get(Direction::West));
            if open {
                assert_ne!(replay[j], replay[j + 1]);
                let (from, into) = (replay[j], replay[j + 1]);
                for set in replay.iter_mut() {
                    if *set == from {
                        *set = into;
                    }
                }
            }
        }
        assert_eq!(helper.line, replay);
        assert_eq!(helper.counter, 4);
        // Every other flag is as it was.
        let after = walls(&grid);
        let mut index = 0;
        for x in 0..3 {
            for y in 0..3 {
                for dir in ALL {
                    let in_the_row = y == 1
                        && ((dir == Direction::East && x < 2) || (dir == Direction::West && x > 0));
                    if !in_the_row {
                        assert_eq!(after[index], before[index]);
                    }
                    index += 1;
                }
            }
        }
    }
}

#[test]
fn carve_mainwise_merges_every_pair_of_the_last_line() {
    for seed in 0..5 {
        let mut rng = seeded(seed);
        let mut grid = Grid::new(3, 2, true);
        grid.open(0, 0, Direction::East);
        grid.open(0, 0, Direction::South);
        grid.open(2, 0, Direction::South);
        let mut helper = EllersHelper { line: vec![1, 1, 2], counter: 3, main: 2, cross: 3, scan: Scan::Horizontal };
        assign_sets(&mut grid, &mut helper, 1);
        assert_eq!(helper.line, vec![1, 3, 2]);
        carve_mainwise(&mut grid, &mut helper, 1, &mut rng);
        assert_eq!(helper.line, vec![2, 2, 2]);
        assert!(!grid.cells[0][1].get(Direction::East));
        assert!(!grid.cells[1][1].get(Direction::East));
        assert_eq!(passages(&grid), 5);
    }
}

#[test]
fn carve_crosswise_changes_no_other_wall() {
    for seed in 0..20 {
        let mut rng = seeded(seed);
        let mut grid = Grid::new(5, 3, true);
        let mut helper = EllersHelper { line: vec![0; 5], counter: 0, main: 3, cross: 5, scan: Scan::Horizontal };
        assign_sets(&mut grid, &mut helper, 0);
        carve_mainwise(&mut grid, &mut helper, 0, &mut rng);
        let before = walls(&grid);
        let line = helper.line.clone();
        carve_crosswise(&mut grid, &helper, 0, &mut rng);
        assert_eq!(helper.line, line);
        let after = walls(&grid);
        let mut index = 0;
        for x in 0..5 {
            for y in 0..3 {
                for dir in ALL {
                    let between = (y == 0 && dir == Direction::South) || (y == 1 && dir == Direction::North);
                    if between {
                        // Walls are opened, never blocked.
                        assert!(before[index] || !after[index]);
                    } else {
                        assert_eq!(after[index], before[index]);
                    }
                    index += 1;
                }
            }
        }
    }
}

#[test]
fn carve_crosswise_from_a_merged_pair() {
    for seed in 0..10 {
        let mut rng = seeded(seed);
        // The first two cells of the row are merged into set 1.
        let mut grid = Grid::new(3, 2, true);
        grid.open(0, 0, Direction::East);
        let helper = EllersHelper { line: vec![1, 1, 2], counter: 3, main: 2, cross: 3, scan: Scan::Horizontal };
        carve_crosswise(&mut grid, &helper, 0, &mut rng);
        let first = !grid.cells[0][0].get(Direction::South);
        let second = !grid.cells[1][0].get(Direction::South);
        assert!(first != second);
        assert!(!grid.cells[2][0].get(Direction::South));
        assert_eq!(passages(&grid), 3);
    }
}

#[test]
fn close_line_blocks_a_row_of_walls() {
    let mut grid = Grid::new(3, 3, false);
    close_line(&mut grid, Line { fixed: 0, low: 0, high: 3, dir: Direction::South });
    for x in 0..3 {
        assert!(grid.cells[x][0].get(Direction::South));
        assert!(grid.cells[x][1].get(Direction::North));
        assert!(!grid.cells[x][1].get(Direction::South));
    }
    assert_eq!(passages(&grid), 12 - 3);
    close_line(&mut grid, Line { fixed: 1, low: 1, high: 3, dir: Direction::East });
    assert!(!grid.cells[1][0].get(Direction::East));
    assert!(grid.cells[1][1].get(Direction::East));
    assert!(grid.cells[2][2].get(Direction::West));
    assert_eq!(passages(&grid), 12 - 3 - 2);
}

#[test]
fn close_line_of_no_cells() {
    let mut grid = Grid::new(2, 2, false);
    close_line(&mut grid, Line { fixed: 0, low: 1, high: 1, dir: Direction::South });
    assert_eq!(passages(&grid), 4);
}

#[test]
fn close_boundary_leaves_the_inside_open() {
    let mut grid = Grid::new(3, 2, false);
    close_boundary(&mut grid);
    assert!(openings(&grid).is_empty());
    assert_eq!(passages(&grid), 2 * 2 + 3 * 1);
    let mut lone = Grid::new(1, 1, false);
    close_boundary(&mut lone);
    assert!(lone.cells[0][0].is_closed());
}

#[test]
fn bisect_leaves_a_corridor_alone() {
    let mut rng = seeded(1);
    let mut grid = Grid::new(4, 4, false);
    let before = walls(&grid);
    assert!(bisect(&mut grid, Area { xs: 0, xe: 3, ys: 2, ye: 2 }, &mut rng).is_none());
    assert!(bisect(&mut grid, Area { xs: 1, xe: 1, ys: 0, ye: 3 }, &mut rng).is_none());
    assert!(bisect(&mut grid, Area { xs: 1, xe: 1, ys: 1, ye: 1 }, &mut rng).is_none());
    assert_eq!(walls(&grid), before);
}

#[test]
fn bisect_cuts_with_one_gap() {
    for seed in 0..20 {
        let mut rng = seeded(seed);
        let mut grid = Grid::new(4, 3, false);
        close_boundary(&mut grid);
        let whole = Area { xs: 0, xe: 3, ys: 0, ye: 2 };
        let (b, c) = bisect(&mut grid, whole, &mut rng).unwrap();
        assert_eq!((b.xs, b.ys), (0, 0));
        assert_eq!((c.xe, c.ye), (3, 2));
        if b.xe == 3 {
            // A wall below row b.ye, four cells long, with one gap.
            assert_eq!(c.ys, b.ye + 1);
            assert_eq!((c.xs, b.ye < 2), (0, true));
            let gaps = (0..4).filter(|&x| !grid.cells[x][b.ye].get(Direction::South)).count();
            assert_eq!(gaps, 1);
            assert_eq!(passages(&grid), 17 - 3);
        } else {
            assert_eq!(c.xs, b.xe + 1);
            assert_eq!((c.ys, b.ye, b.xe < 3), (0, 2, true));
            let gaps = (0..3).filter(|&y| !grid.cells[b.xe][y].get(Direction::East)).count();
            assert_eq!(gaps, 1);
            assert_eq!(passages(&grid), 17 - 2);
        }
        assert!(openings(&grid).is_empty());
    }
}

#[test]
fn entry_points_are_two_on_different_sides() {
    for seed in 0..30 {
        let mut rng = seeded(seed);
        let mut grid = Grid::new(4, 3, true);
        grid.open(1, 1, Direction::East);
        choose_entry_points(&mut grid, &mut rng);
        let found = openings(&grid);
        assert_eq!(found.len(), 2);
        assert_ne!(found[0].2, found[1].2);
        assert_eq!(passages(&grid), 1);
    }
}

#[test]
fn entry_points_of_a_single_cell() {
    for seed in 0..10 {
        let mut rng = seeded(seed);
        let mut grid = Grid::new(1, 1, true);
        choose_entry_points(&mut grid, &mut rng);
        let found = openings(&grid);
        assert_eq!(found.len(), 2);
        assert_ne!(found[0].2, found[1].2);
    }
}

#[test]
fn entry_points_are_drawn_on_every_side() {
    let mut sides = Vec::new();
    for seed in 0..60 {
        let mut rng = seeded(seed);
        let mut grid = Grid::new(3, 3, true);
        choose_entry_points(&mut grid, &mut rng);
        for (_, _, dir) in openings(&grid) {
            if !sides.contains(&dir) {
                sides.push(dir);
            }
        }
    }
    assert_eq!(sides.len(), 4);
}
