use maze::grid::{Cell, Direction, Grid};

const ALL: [Direction; 4] = [Direction::North, Direction::South, Direction::East, Direction::West];

#[test]
fn opposite_swaps_pairs() {
    assert_eq!(Direction::North.opposite(), Direction::South);
    assert_eq!(Direction::South.opposite(), Direction::North);
    assert_eq!(Direction::East.opposite(), Direction::West);
    assert_eq!(Direction::West.opposite(), Direction::East);
}

#[test]
fn opposite_is_an_involution() {
    for dir in ALL {
        assert_eq!(dir.opposite().opposite(), dir);
        assert_ne!(dir.opposite(), dir);
    }
}

#[test]
fn new_cell_has_four_equal_walls() {
    let closed = Cell::new(true);
    let open = Cell::new(false);
    assert!(closed.is_closed());
    assert!(!open.is_closed());
    for dir in ALL {
        assert!(closed.get(dir));
        assert!(!open.get(dir));
    }
}

#[test]
fn cell_set_changes_one_wall() {
    for dir in ALL {
        let mut cell = Cell::new(true);
        cell.set(dir, false);
        assert!(!cell.is_closed());
        for other in ALL {
            assert_eq!(cell.get(other), other != dir);
        }
        cell.set(dir, true);
        assert!(cell.is_closed());
    }
}

#[test]
fn cell_is_closed_needs_all_four() {
    let mut cell = Cell::new(false);
    cell.set(Direction::North, true);
    cell.set(Direction::South, true);
    cell.set(Direction::East, true);
    assert!(!cell.is_closed());
    cell.set(Direction::West, true);
    assert!(cell.is_closed());
}

#[test]
fn new_grid_has_the_given_shape() {
    let grid = Grid::new(4, 3, true);
    assert_eq!(grid.width, 4);
    assert_eq!(grid.height, 3);
    assert_eq!(grid.cells.len(), 4);
    for column in grid.cells.iter() {
        assert_eq!(column.len(), 3);
        for cell in column.iter() {
            assert!(cell.is_closed());
        }
    }
    let open = Grid::new(2, 5, false);
    for x in 0..2 {
        for y in 0..5 {
            for dir in ALL {
                assert!(!open.cells[x][y].get(dir));
            }
        }
    }
}

#[test]
fn single_cell_grid() {
    let mut grid = Grid::new(1, 1, true);
    for dir in ALL {
        assert_eq!(grid.cell_at(0, 0, dir), None);
        grid.open(0, 0, dir);
        assert!(!grid.cells[0][0].get(dir));
        grid.close(0, 0, dir);
        assert!(grid.cells[0][0].get(dir));
    }
}

#[test]
fn cell_at_gives_the_neighbour() {
    let grid = Grid::new(3, 4, true);
    assert_eq!(grid.cell_at(1, 2, Direction::North), Some((1, 1)));
    assert_eq!(grid.cell_at(1, 2, Direction::South), Some((1, 3)));
    assert_eq!(grid.cell_at(1, 2, Direction::East), Some((2, 2)));
    assert_eq!(grid.cell_at(1, 2, Direction::West), Some((0, 2)));
}

#[test]
fn cell_at_stops_at_the_boundary() {
    let grid = Grid::new(3, 4, true);
    assert_eq!(grid.cell_at(0, 2, Direction::West), None);
    assert_eq!(grid.cell_at(1, 0, Direction::North), None);
    assert_eq!(grid.cell_at(2, 1, Direction::East), None);
    assert_eq!(grid.cell_at(1, 3, Direction::South), None);
    assert_eq!(grid.cell_at(2, 3, Direction::West), Some((1, 3)));
    assert_eq!(grid.cell_at(2, 3, Direction::North), Some((2, 2)));
}

#[test]
fn cell_at_never_leaves_the_grid() {
    let grid = Grid::new(5, 2, true);
    let mut inside = 0;
    for x in 0..5 {
        for y in 0..2 {
            for dir in ALL {
                if let Some((nx, ny)) = grid.cell_at(x, y, dir) {
                    assert!(nx < 5 && ny < 2);
                    assert_eq!(grid.cell_at(nx, ny, dir.opposite()), Some((x, y)));
                    inside += 1;
                }
            }
        }
    }
    // Every wall between two cells is seen from both sides.
    assert_eq!(inside, 2 * (4 * 2 + 5 * 1));
}

#[test]
fn open_sets_both_sides() {
    let mut grid = Grid::new(3, 3, true);
    grid.open(1, 1, Direction::East);
    assert!(!grid.cells[1][1].get(Direction::East));
    assert!(!grid.cells[2][1].get(Direction::West));
    let mut open_flags = 0;
    for x in 0..3 {
        for y in 0..3 {
            for dir in ALL {
                if !grid.cells[x][y].get(dir) {
                    open_flags += 1;
                }
            }
        }
    }
    assert_eq!(open_flags, 2);
    grid.open(1, 1, Direction::North);
    assert!(!grid.cells[1][1].get(Direction::North));
    assert!(!grid.cells[1][0].get(Direction::South));
}

#[test]
fn close_sets_both_sides() {
    let mut grid = Grid::new(3, 3, false);
    grid.close(1, 1, Direction::West);
    assert!(grid.cells[1][1].get(Direction::West));
    assert!(grid.cells[0][1].get(Direction::East));
    grid.close(1, 1, Direction::South);
    assert!(grid.cells[1][1].get(Direction::South));
    assert!(grid.cells[1][2].get(Direction::North));
    let mut closed_flags = 0;
    for x in 0..3 {
        for y in 0..3 {
            for dir in ALL {
                if grid.cells[x][y].get(dir) {
                    closed_flags += 1;
                }
            }
        }
    }
    assert_eq!(closed_flags, 4);
}

#[test]
fn set_writes_the_given_state() {
    let mut grid = Grid::new(2, 2, true);
    grid.set(0, 0, Direction::South, false);
    assert!(!grid.cells[0][0].get(Direction::South));
    assert!(!grid.cells[0][1].get(Direction::North));
    grid.set(0, 1, Direction::North, true);
    assert!(grid.cells[0][0].get(Direction::South));
    assert!(grid.cells[0][1].get(Direction::North));
}

#[test]
fn open_and_close_at_the_edges() {
    let mut grid = Grid::new(2, 2, true);
    for x in 0..2 {
        for y in 0..2 {
            for dir in ALL {
                grid.open(x, y, dir);
                assert!(!grid.cells[x][y].get(dir));
                if let Some((nx, ny)) = grid.cell_at(x, y, dir) {
                    assert!(!grid.cells[nx][ny].get(dir.opposite()));
                }
            }
        }
    }
    for x in 0..2 {
        for y in 0..2 {
            for dir in ALL {
                grid.close(x, y, dir);
                assert!(grid.cells[x][y].get(dir));
            }
        }
    }
    for x in 0..2 {
        for y in 0..2 {
            assert!(grid.cells[x][y].is_closed());
        }
    }
}

#[test]
fn walls_stay_symmetric_under_any_mutation() {
    let mut grid = Grid::new(4, 3, true);
    let steps = [
        (0usize, 0usize, Direction::East, false),
        (1, 0, Direction::West, true),
        (3, 2, Direction::North, false),
        (3, 1, Direction::South, false),
        (2, 1, Direction::East, false),
        (3, 1, Direction::West, true),
        (0, 2, Direction::West, false),
        (1, 1, Direction::South, false),
    ];
    for &(x, y, dir, closed) in steps.iter() {
        grid.set(x, y, dir, closed);
        for a in 0..4 {
            for b in 0..3 {
                for d in ALL {
                    if let Some((na, nb)) = grid.cell_at(a, b, d) {
                        assert_eq!(grid.cells[a][b].get(d), grid.cells[na][nb].get(d.opposite()));
                    }
                }
            }
        }
    }
}
