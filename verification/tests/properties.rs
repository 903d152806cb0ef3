use maze::algorithms::{
    binary_tree, ellers_algorithm, growing_tree, hunt_kill_algorithm, kruskals_algorithm, prims_algorithm,
    recursive_backtracking, recursive_division, sidewinder_algorithm,
};
use maze::grid::{Direction, Grid};
use maze::{Algorithm, Bias, CellSelection, Maze, Scan};
use rand::{SeedableRng, StdRng};

const ALL: [Direction; 4] = [Direction::North, Direction::South, Direction::East, Direction::West];

fn seeded(seed: usize) -> StdRng {
    let words = [seed, 0x9e37_79b9, 0x7f4a_7c15, 42];
    SeedableRng::from_seed(&words[..])
}

fn passages(grid: &Grid) -> usize {
    let mut count = 0;
    for x in 0..grid.width {
        for y in 0..grid.height {
            if x + 1 < grid.width && !grid.cells[x][y].get(Direction::East) {
                count += 1;
            }
            if y + 1 < grid.height && !grid.cells[x][y].get(Direction::South) {
                count += 1;
            }
        }
    }
    count
}

fn reachable_from(grid: &Grid, start: (usize, usize)) -> usize {
    let mut seen = vec![vec![false; grid.height]; grid.width];
    let mut queue = std::collections::VecDeque::new();
    seen[start.0][start.1] = true;
    queue.push_back(start);
    let mut count = 0;
    while let Some((x, y)) = queue.pop_front() {
        count += 1;
        for dir in ALL {
            if !grid.cells[x][y].get(dir) {
                if let Some((nx, ny)) = grid.cell_at(x, y, dir) {
                    if !seen[nx][ny] {
                        seen[nx][ny] = true;
                        queue.push_back((nx, ny));
                    }
                }
            }
        }
    }
    count
}

fn openings(grid: &Grid) -> Vec<(usize, usize, Direction)> {
    let mut found = Vec::new();
    for x in 0..grid.width {
        for y in 0..grid.height {
            for dir in ALL {
                if grid.cell_at(x, y, dir).is_none() && !grid.cells[x][y].get(dir) {
                    found.push((x, y, dir));
                }
            }
        }
    }
    found
}

fn symmetric(grid: &Grid) -> bool {
    for x in 0..grid.width {
        for y in 0..grid.height {
            for dir in ALL {
                if let Some((nx, ny)) = grid.cell_at(x, y, dir) {
                    if grid.cells[x][y].get(dir) != grid.cells[nx][ny].get(dir.opposite()) {
                        return false;
                    }
                }
            }
        }
    }
    true
}

fn walls(grid: &Grid) -> Vec<bool> {
    let mut flags = Vec::new();
    for x in 0..grid.width {
        for y in 0..grid.height {
            for dir in ALL {
                flags.push(grid.cells[x][y].get(dir));
            }
        }
    }
    flags
}

fn every_algorithm() -> Vec<Algorithm> {
    vec![
        Algorithm::BinaryTree(Bias::Northeast),
        Algorithm::BinaryTree(Bias::Northwest),
        Algorithm::BinaryTree(Bias::Southeast),
        Algorithm::BinaryTree(Bias::Southwest),
        Algorithm::EllersAlgorithm(Scan::Horizontal),
        Algorithm::EllersAlgorithm(Scan::Vertical),
        Algorithm::RecursiveBacktracking,
        Algorithm::HuntKillAlgorithm,
        Algorithm::PrimsAlgorithm,
        Algorithm::GrowingTree(CellSelection::Newest),
        Algorithm::GrowingTree(CellSelection::Oldest),
        Algorithm::GrowingTree(CellSelection::Random),
        Algorithm::GrowingTree(CellSelection::NewestOldest(40)),
        Algorithm::GrowingTree(CellSelection::NewestRandom(20)),
        Algorithm::GrowingTree(CellSelection::OldestRandom(50)),
        Algorithm::SidewinderAlgorithm(Scan::Horizontal),
        Algorithm::SidewinderAlgorithm(Scan::Vertical),
        Algorithm::KruskalsAlgorithm,
        Algorithm::RecursiveDivision,
    ]
}

/// The strategy alone, without the entry points.
fn carve(width: usize, height: usize, algorithm: Algorithm, rng: &mut StdRng) -> Grid {
    match algorithm {
        Algorithm::BinaryTree(bias) => binary_tree::run(width, height, rng, bias),
        Algorithm::EllersAlgorithm(scan) => ellers_algorithm::run(width, height, rng, scan),
        Algorithm::RecursiveBacktracking => recursive_backtracking::run(width, height, rng),
        Algorithm::HuntKillAlgorithm => hunt_kill_algorithm::run(width, height, rng),
        Algorithm::PrimsAlgorithm => prims_algorithm::run(width, height, rng),
        Algorithm::GrowingTree(selection) => growing_tree::run(width, height, rng, selection),
        Algorithm::SidewinderAlgorithm(scan) => sidewinder_algorithm::run(width, height, rng, scan),
        Algorithm::KruskalsAlgorithm => kruskals_algorithm::run(width, height, rng),
        Algorithm::RecursiveDivision => recursive_division::run(width, height, rng),
    }
}

fn check_tree(grid: &Grid, width: usize, height: usize) {
    assert_eq!((grid.width, grid.height), (width, height));
    assert_eq!(passages(grid), width * height - 1);
    assert_eq!(reachable_from(grid, (0, 0)), width * height);
    assert_eq!(reachable_from(grid, (width - 1, height - 1)), width * height);
    assert!(symmetric(grid));
}

#[test]
fn every_strategy_spans_small_grids() {
    let sizes = [(1, 1), (1, 2), (2, 1), (2, 2), (1, 5), (5, 1), (3, 7), (7, 3), (5, 5), (8, 6)];
    for algorithm in every_algorithm() {
        for &(width, height) in sizes.iter() {
            for seed in 0..6 {
                let mut rng = seeded(seed);
                let grid = carve(width, height, algorithm, &mut rng);
                check_tree(&grid, width, height);
                assert!(openings(&grid).is_empty());
            }
        }
    }
}

#[test]
fn every_strategy_gets_two_entry_points() {
    for algorithm in every_algorithm() {
        for &(width, height) in [(1usize, 1usize), (4, 4), (9, 2)].iter() {
            for seed in 0..4 {
                let mut rng = seeded(seed);
                let grid = Maze::new(width, height).algorithm(algorithm).generate_grid(&mut rng);
                check_tree(&grid, width, height);
                let found = openings(&grid);
                assert_eq!(found.len(), 2);
                assert_ne!(found[0].2, found[1].2);
            }
        }
    }
}

#[test]
fn maze_defaults_to_recursive_backtracking() {
    let mut first = seeded(11);
    let mut second = seeded(11);
    let by_default = Maze::new(6, 5).generate_grid(&mut first);
    let by_name = Maze::new(6, 5).algorithm(Algorithm::RecursiveBacktracking).generate_grid(&mut second);
    assert_eq!(walls(&by_default), walls(&by_name));
    assert_eq!(Maze::new(6, 5).dimensions(), (6, 5));
}

#[test]
fn kruskal_five_by_five() {
    for seed in 0..10 {
        let mut rng = seeded(seed);
        let grid = kruskals_algorithm::run(5, 5, &mut rng);
        assert_eq!(passages(&grid), 24);
        assert_eq!(reachable_from(&grid, (0, 0)), 25);
        assert_eq!(reachable_from(&grid, (4, 4)), 25);
    }
}

#[test]
fn one_by_five_is_a_single_corridor() {
    for algorithm in every_algorithm() {
        let mut rng = seeded(2);
        let grid = carve(1, 5, algorithm, &mut rng);
        assert_eq!(passages(&grid), 4);
        for y in 0..4 {
            assert!(!grid.cells[0][y].get(Direction::South));
            assert!(!grid.cells[0][y + 1].get(Direction::North));
        }
        let mut rng = seeded(2);
        let grid = carve(5, 1, algorithm, &mut rng);
        assert_eq!(passages(&grid), 4);
        for x in 0..4 {
            assert!(!grid.cells[x][0].get(Direction::East));
        }
    }
}

#[test]
fn recursive_division_two_by_two() {
    for seed in 0..10 {
        let mut rng = seeded(seed);
        let grid = recursive_division::run(2, 2, &mut rng);
        assert_eq!(passages(&grid), 3);
        assert_eq!(reachable_from(&grid, (0, 0)), 4);
        // One line of two walls was drawn, and one of them reopened.
        let rows_cut = (0..2).filter(|&x| grid.cells[x][0].get(Direction::South)).count();
        let columns_cut = (0..2).filter(|&y| grid.cells[0][y].get(Direction::East)).count();
        assert_eq!(rows_cut + columns_cut, 1);
        assert!(openings(&grid).is_empty());
    }
}

#[test]
fn same_seed_gives_the_same_grid() {
    for algorithm in every_algorithm() {
        let mut first = seeded(77);
        let mut second = seeded(77);
        let a = Maze::new(12, 9).algorithm(algorithm).generate_grid(&mut first);
        let b = Maze::new(12, 9).algorithm(algorithm).generate_grid(&mut second);
        assert_eq!(walls(&a), walls(&b));
    }
}

#[test]
fn other_seeds_give_other_grids() {
    for algorithm in every_algorithm() {
        let mut different = false;
        let mut rng = seeded(0);
        let first = walls(&carve(10, 10, algorithm, &mut rng));
        for seed in 1..8 {
            let mut rng = seeded(seed);
            if walls(&carve(10, 10, algorithm, &mut rng)) != first {
                different = true;
            }
        }
        assert!(different);
    }
}

#[test]
fn ellers_last_line_joins_all_sets() {
    for &scan in [Scan::Horizontal, Scan::Vertical].iter() {
        for &(width, height) in [(7usize, 1usize), (1, 7), (7, 2), (2, 7), (9, 9)].iter() {
            for seed in 0..12 {
                let mut rng = seeded(seed);
                let grid = ellers_algorithm::run(width, height, &mut rng, scan);
                check_tree(&grid, width, height);
            }
        }
    }
}

#[test]
fn sidewinder_first_line_is_a_corridor() {
    for seed in 0..6 {
        let mut rng = seeded(seed);
        let grid = sidewinder_algorithm::run(6, 4, &mut rng, Scan::Horizontal);
        for x in 0..5 {
            assert!(!grid.cells[x][0].get(Direction::East));
        }
        // Each run of a later row has one passage north; a row holds as
        // many passages east and north together as it has cells.
        for y in 1..4 {
            let east = (0..5).filter(|&x| !grid.cells[x][y].get(Direction::East)).count();
            let north = (0..6).filter(|&x| !grid.cells[x][y].get(Direction::North)).count();
            assert_eq!(east + north, 6);
        }
        let mut rng = seeded(seed);
        let grid = sidewinder_algorithm::run(4, 6, &mut rng, Scan::Vertical);
        for y in 0..5 {
            assert!(!grid.cells[0][y].get(Direction::South));
        }
        check_tree(&grid, 4, 6);
    }
}

/// Whether some passages form a cycle: found where a passage joins two
/// cells that earlier passages join already.
fn has_cycle(grid: &Grid) -> bool {
    let mut leader: Vec<usize> = (0..grid.width * grid.height).collect();
    fn find(leader: &mut Vec<usize>, mut i: usize) -> usize {
        while leader[i] != i {
            leader[i] = leader[leader[i]];
            i = leader[i];
        }
        i
    }
    for x in 0..grid.width {
        for y in 0..grid.height {
            for dir in [Direction::East, Direction::South] {
                if !grid.cells[x][y].get(dir) {
                    if let Some((nx, ny)) = grid.cell_at(x, y, dir) {
                        let a = find(&mut leader, x * grid.height + y);
                        let b = find(&mut leader, nx * grid.height + ny);
                        if a == b {
                            return true;
                        }
                        leader[a] = b;
                    }
                }
            }
        }
    }
    false
}

#[test]
fn no_strategy_leaves_a_cycle() {
    for algorithm in every_algorithm() {
        for seed in 0..5 {
            let mut rng = seeded(seed);
            let grid = carve(9, 7, algorithm, &mut rng);
            assert!(!has_cycle(&grid));
        }
    }
    let mut square = Grid::new(2, 2, true);
    square.open(0, 0, Direction::East);
    square.open(0, 0, Direction::South);
    square.open(1, 1, Direction::North);
    assert!(!has_cycle(&square));
    square.open(1, 1, Direction::West);
    assert!(has_cycle(&square));
}

#[test]
fn sidewinder_runs_have_one_exit_each() {
    for seed in 0..10 {
        let mut rng = seeded(seed);
        let grid = sidewinder_algorithm::run(9, 5, &mut rng, Scan::Horizontal);
        for y in 1..5 {
            let mut exits = 0;
            for x in 0..9 {
                if !grid.cells[x][y].get(Direction::North) {
                    exits += 1;
                }
                // A blocked wall to the east ends the run.
                if grid.cells[x][y].get(Direction::East) {
                    assert_eq!(exits, 1);
                    exits = 0;
                }
            }
        }
        let mut rng = seeded(seed);
        let grid = sidewinder_algorithm::run(5, 9, &mut rng, Scan::Vertical);
        for x in 1..5 {
            let mut exits = 0;
            for y in 0..9 {
                if !grid.cells[x][y].get(Direction::West) {
                    exits += 1;
                }
                if grid.cells[x][y].get(Direction::South) {
                    assert_eq!(exits, 1);
                    exits = 0;
                }
            }
        }
    }
}

#[test]
fn binary_tree_leans_to_its_corner() {
    let biases = [
        (Bias::Northwest, Direction::North, Direction::West),
        (Bias::Northeast, Direction::North, Direction::East),
        (Bias::Southwest, Direction::South, Direction::West),
        (Bias::Southeast, Direction::South, Direction::East),
    ];
    for &(bias, up, side) in biases.iter() {
        for seed in 0..5 {
            let mut rng = seeded(seed);
            let grid = binary_tree::run(6, 5, &mut rng, bias);
            let mut corners = 0;
            for x in 0..6 {
                for y in 0..5 {
                    let towards_up = grid.cell_at(x, y, up).is_some() && !grid.cells[x][y].get(up);
                    let towards_side = grid.cell_at(x, y, side).is_some() && !grid.cells[x][y].get(side);
                    if grid.cell_at(x, y, up).is_none() && grid.cell_at(x, y, side).is_none() {
                        corners += 1;
                        assert!(!towards_up && !towards_side);
                    } else {
                        assert!(towards_up != towards_side);
                    }
                }
            }
            assert_eq!(corners, 1);
        }
    }
}

#[test]
fn generated_walls_are_symmetric() {
    for algorithm in every_algorithm() {
        let mut rng = seeded(5);
        let grid = Maze::new(11, 7).algorithm(algorithm).generate_grid(&mut rng);
        assert!(symmetric(&grid));
    }
}

#[test]
fn a_tall_grid_and_a_wide_grid() {
    for algorithm in every_algorithm() {
        let mut rng = seeded(9);
        let grid = carve(40, 3, algorithm, &mut rng);
        check_tree(&grid, 40, 3);
        let grid = carve(3, 40, algorithm, &mut rng);
        check_tree(&grid, 3, 40);
    }
}
