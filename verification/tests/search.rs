use astar_grid::a_star::{shortest_path, IsTraversable};
use astar_grid::grid::Grid2D;

fn grid_of(rows: Vec<Vec<u8>>) -> Grid2D<u8> {
    match Grid2D::new(rows) {
        Ok(grid) => grid,
        Err(e) => panic!("{}", e.message()),
    }
}

fn open_grid(height: usize, width: usize) -> Grid2D<u8> {
    grid_of(vec![vec![0u8; width]; height])
}

fn cost(path: &Vec<(usize, usize)>) -> usize {
    let mut total = 0;
    for k in 1..path.len() {
        total += path[k].0.abs_diff(path[k - 1].0) + path[k].1.abs_diff(path[k - 1].1);
    }
    total
}

/// Panics unless `path` leads from `start` to `end` over touching cells, all
/// of them traversable.
fn check_route(grid: &Grid2D<u8>, start: (usize, usize), end: (usize, usize), path: &Vec<(usize, usize)>) {
    assert!(!path.is_empty());
    assert_eq!(path[0], start);
    assert_eq!(path[path.len() - 1], end);
    for k in 0..path.len() {
        match grid.get(path[k]) {
            Some(cell) => assert!(cell.is_traversable()),
            None => panic!("{:?} lies outside the grid", path[k]),
        }
        if k > 0 {
            let dr = path[k].0.abs_diff(path[k - 1].0);
            let dc = path[k].1.abs_diff(path[k - 1].1);
            assert_eq!(dr.max(dc), 1);
        }
        for j in k + 2..path.len() {
            let dr = path[j].0.abs_diff(path[k].0);
            let dc = path[j].1.abs_diff(path[k].1);
            assert!(dr.max(dc) >= 2);
        }
    }
}

#[test]
fn code_one_blocks_and_other_codes_pass() {
    assert!(0u8.is_traversable());
    assert!(!1u8.is_traversable());
    assert!(2u8.is_traversable());
    assert!(3u8.is_traversable());
    assert!(4u8.is_traversable());
    assert!(255u8.is_traversable());
}

#[test]
fn single_cell_grid() {
    let grid = open_grid(1, 1);
    assert_eq!(shortest_path(&grid, (0, 0), (0, 0)), Some(vec![(0, 0)]));
}

#[test]
fn two_by_two_diagonal() {
    let grid = open_grid(2, 2);
    assert_eq!(shortest_path(&grid, (0, 0), (1, 1)), Some(vec![(0, 0), (1, 1)]));
}

#[test]
fn three_by_three_around_a_blocked_centre() {
    let grid = grid_of(vec![vec![0, 0, 0], vec![0, 1, 0], vec![0, 0, 0]]);
    let path = match shortest_path(&grid, (0, 0), (2, 2)) {
        Some(path) => path,
        None => panic!("the corner can be reached around the centre"),
    };
    check_route(&grid, (0, 0), (2, 2), &path);
    assert!(!path.contains(&(1, 1)));
    assert!(path[1] == (0, 1) || path[1] == (1, 0));
    assert_eq!(cost(&path), 4);
    assert_eq!(path, vec![(0, 0), (0, 1), (1, 2), (2, 2)]);
}

#[test]
fn start_equal_to_end_gives_one_cell() {
    let grid = grid_of(vec![vec![0, 1, 0], vec![0, 0, 0]]);
    assert_eq!(shortest_path(&grid, (1, 2), (1, 2)), Some(vec![(1, 2)]));
    assert_eq!(shortest_path(&grid, (0, 0), (0, 0)), Some(vec![(0, 0)]));
}

#[test]
fn start_equal_to_end_on_a_blocked_cell() {
    let grid = grid_of(vec![vec![0, 1, 0], vec![0, 0, 0]]);
    assert_eq!(shortest_path(&grid, (0, 1), (0, 1)), Some(vec![(0, 1)]));
}

#[test]
fn start_outside_gives_none() {
    let grid = open_grid(3, 4);
    assert_eq!(shortest_path(&grid, (3, 0), (0, 0)), None);
    assert_eq!(shortest_path(&grid, (0, 4), (0, 0)), None);
    assert_eq!(shortest_path(&grid, (usize::MAX, usize::MAX), (0, 0)), None);
}

#[test]
fn end_outside_gives_none() {
    let grid = open_grid(3, 4);
    assert_eq!(shortest_path(&grid, (0, 0), (3, 0)), None);
    assert_eq!(shortest_path(&grid, (0, 0), (0, 4)), None);
    assert_eq!(shortest_path(&grid, (0, 0), (2, usize::MAX)), None);
}

#[test]
fn bounds_follow_rows_and_columns() {
    let grid = open_grid(2, 5);
    let path = shortest_path(&grid, (0, 0), (1, 4));
    assert!(path.is_some());
    assert_eq!(shortest_path(&grid, (0, 0), (4, 1)), None);
}

#[test]
fn both_outside_an_empty_grid() {
    let grid = grid_of(vec![]);
    assert_eq!(shortest_path(&grid, (0, 0), (0, 0)), None);
}

#[test]
fn enclosed_end_gives_none() {
    let grid = grid_of(vec![
        vec![0, 0, 0, 0, 0],
        vec![0, 1, 1, 1, 0],
        vec![0, 1, 0, 1, 0],
        vec![0, 1, 1, 1, 0],
        vec![0, 0, 0, 0, 0],
    ]);
    assert_eq!(shortest_path(&grid, (0, 0), (2, 2)), None);
    assert_eq!(shortest_path(&grid, (4, 4), (2, 2)), None);
}

#[test]
fn enclosed_end_in_a_corner_gives_none() {
    let grid = grid_of(vec![vec![0, 1, 0], vec![1, 1, 0], vec![0, 0, 0]]);
    assert_eq!(shortest_path(&grid, (2, 2), (0, 0)), None);
}

#[test]
fn blocked_end_gives_none() {
    let grid = grid_of(vec![vec![0, 0, 0], vec![0, 0, 1]]);
    assert_eq!(shortest_path(&grid, (0, 0), (1, 2)), None);
}

#[test]
fn wall_across_the_grid_gives_none() {
    let grid = grid_of(vec![vec![0, 0, 1, 0, 0], vec![0, 0, 1, 0, 0], vec![0, 0, 1, 0, 0]]);
    assert_eq!(shortest_path(&grid, (1, 0), (1, 4)), None);
}

#[test]
fn blocked_start_is_left_in_one_step() {
    let grid = grid_of(vec![vec![1, 0], vec![0, 0]]);
    assert_eq!(shortest_path(&grid, (0, 0), (1, 1)), Some(vec![(0, 0), (1, 1)]));
}

#[test]
fn straight_line_along_a_row() {
    let grid = open_grid(1, 6);
    assert_eq!(
        shortest_path(&grid, (0, 0), (0, 5)),
        Some(vec![(0, 0), (0, 1), (0, 2), (0, 3), (0, 4), (0, 5)])
    );
    assert_eq!(
        shortest_path(&grid, (0, 4), (0, 1)),
        Some(vec![(0, 4), (0, 3), (0, 2), (0, 1)])
    );
}

#[test]
fn straight_line_along_a_column() {
    let grid = open_grid(4, 1);
    assert_eq!(
        shortest_path(&grid, (3, 0), (0, 0)),
        Some(vec![(3, 0), (2, 0), (1, 0), (0, 0)])
    );
}

#[test]
fn open_grids_connect_every_pair_at_direct_cost() {
    let grid = open_grid(4, 5);
    for (sr, sc, _) in grid.enumerate() {
        for (er, ec, _) in grid.enumerate() {
            let start = (sr, sc);
            let end = (er, ec);
            let path = match shortest_path(&grid, start, end) {
                Some(path) => path,
                None => panic!("no route from {:?} to {:?}", start, end),
            };
            check_route(&grid, start, end, &path);
            let rows = sr.abs_diff(er);
            let cols = sc.abs_diff(ec);
            assert_eq!(cost(&path), rows + cols);
            assert!(path.len() - 1 >= rows.max(cols));
            assert!(path.len() - 1 <= rows + cols);
        }
    }
}

#[test]
fn returned_routes_are_valid_in_a_maze() {
    let grid = grid_of(vec![
        vec![0, 0, 0, 1, 0, 0, 0],
        vec![1, 1, 0, 1, 0, 1, 0],
        vec![0, 0, 0, 1, 0, 1, 0],
        vec![0, 1, 1, 1, 0, 1, 0],
        vec![0, 0, 0, 0, 0, 1, 0],
    ]);
    let start = (0, 0);
    let end = (4, 6);
    let path = match shortest_path(&grid, start, end) {
        Some(path) => path,
        None => panic!("the maze has a way through"),
    };
    check_route(&grid, start, end, &path);
    assert_eq!(cost(&path), 22);
}

#[test]
fn detour_costs_more_than_the_direct_distance() {
    let grid = grid_of(vec![
        vec![0, 0, 0],
        vec![1, 1, 0],
        vec![0, 0, 0],
    ]);
    let path = match shortest_path(&grid, (0, 0), (2, 0)) {
        Some(path) => path,
        None => panic!("the wall has a gap"),
    };
    check_route(&grid, (0, 0), (2, 0), &path);
    assert_eq!(cost(&path), 6);
    assert_eq!(path, vec![(0, 0), (0, 1), (1, 2), (2, 1), (2, 0)]);
}

#[test]
fn search_leaves_the_grid_as_it_was() {
    let rows = vec![vec![2, 0, 0], vec![0, 1, 0], vec![0, 0, 3]];
    let grid = grid_of(rows.clone());
    let _ = shortest_path(&grid, (0, 0), (2, 2));
    assert_eq!(grid.rows(), &rows);
}

#[test]
fn path_can_be_painted_onto_the_grid() {
    let mut grid = grid_of(vec![vec![2, 0], vec![0, 3]]);
    let path = match shortest_path(&grid, (0, 0), (1, 1)) {
        Some(path) => path,
        None => panic!("the grid is open"),
    };
    for coord in path {
        match grid.get_mut(coord) {
            Some(cell) => *cell = 4,
            None => panic!("{:?} lies outside the grid", coord),
        }
    }
    assert_eq!(grid.rows(), &vec![vec![4u8, 0], vec![0, 4]]);
}

#[test]
fn blocked_start_next_to_a_walled_in_end() {
    let grid = grid_of(vec![vec![1, 0, 1], vec![1, 1, 1]]);
    assert_eq!(shortest_path(&grid, (0, 0), (0, 1)), Some(vec![(0, 0), (0, 1)]));
    assert_eq!(shortest_path(&grid, (1, 2), (0, 1)), Some(vec![(1, 2), (0, 1)]));
}

#[test]
fn touching_cells_are_joined_by_one_step() {
    let grid = open_grid(3, 3);
    for (r, c, _) in grid.neighbours((1, 1)) {
        assert_eq!(shortest_path(&grid, (1, 1), (r, c)), Some(vec![(1, 1), (r, c)]));
        assert_eq!(shortest_path(&grid, (r, c), (1, 1)), Some(vec![(r, c), (1, 1)]));
    }
}

#[test]
fn open_three_by_three_corner_to_corner() {
    let grid = open_grid(3, 3);
    assert_eq!(shortest_path(&grid, (0, 0), (2, 2)), Some(vec![(0, 0), (1, 1), (2, 2)]));
}
