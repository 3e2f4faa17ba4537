use astar_grid::grid::{Grid2D, GridError};

fn grid_of(rows: Vec<Vec<u8>>) -> Grid2D<u8> {
    match Grid2D::new(rows) {
        Ok(grid) => grid,
        Err(e) => panic!("{}", e.message()),
    }
}

fn coords(items: &Vec<(usize, usize, &u8)>) -> Vec<(usize, usize)> {
    let mut out = Vec::new();
    for item in items {
        out.push((item.0, item.1));
    }
    out
}

#[test]
fn new_accepts_equal_rows() {
    let grid = grid_of(vec![vec![1, 2, 3], vec![4, 5, 6]]);
    assert_eq!(grid.rows(), &vec![vec![1u8, 2, 3], vec![4, 5, 6]]);
}

#[test]
fn new_rejects_unequal_rows() {
    let res = Grid2D::new(vec![vec![1u8, 2, 3], vec![4, 5]]);
    assert!(matches!(res, Err(GridError::InconsistentRows)));
}

#[test]
fn new_rejects_a_late_short_row() {
    let res = Grid2D::new(vec![vec![0u8; 2], vec![0u8; 2], vec![0u8; 2], vec![0u8; 1]]);
    assert!(matches!(res, Err(GridError::InconsistentRows)));
}

#[test]
fn new_rejects_an_empty_row_among_others() {
    let res = Grid2D::new(vec![vec![], vec![7u8]]);
    assert!(res.is_err());
}

#[test]
fn error_message_names_the_rows() {
    assert_eq!(GridError::InconsistentRows.message(), "Matrix row sizes are inconsistent.");
}

#[test]
fn width_counts_columns_and_height_counts_rows() {
    let grid = grid_of(vec![vec![1, 2, 3], vec![4, 5, 6]]);
    assert_eq!(grid.width(), 3);
    assert_eq!(grid.height(), 2);
}

#[test]
fn empty_grid_has_no_extent() {
    let grid = grid_of(vec![]);
    assert_eq!(grid.height(), 0);
    assert_eq!(grid.width(), 0);
    assert!(grid.get((0, 0)).is_none());
    assert!(grid.enumerate().is_empty());
    assert!(grid.neighbours((0, 0)).is_empty());
}

#[test]
fn rows_without_cells_have_width_zero() {
    let grid = grid_of(vec![vec![], vec![]]);
    assert_eq!(grid.height(), 2);
    assert_eq!(grid.width(), 0);
    assert!(grid.get((1, 0)).is_none());
    assert!(grid.enumerate().is_empty());
}

#[test]
fn get_reads_by_row_and_column() {
    let grid = grid_of(vec![vec![1, 2, 3], vec![4, 5, 6]]);
    assert_eq!(grid.get((0, 0)), Some(&1));
    assert_eq!(grid.get((0, 2)), Some(&3));
    assert_eq!(grid.get((1, 0)), Some(&4));
    assert_eq!(grid.get((1, 2)), Some(&6));
}

#[test]
fn get_outside_is_none() {
    let grid = grid_of(vec![vec![1, 2, 3], vec![4, 5, 6]]);
    assert_eq!(grid.get((2, 0)), None);
    assert_eq!(grid.get((0, 3)), None);
    assert_eq!(grid.get((usize::MAX, usize::MAX)), None);
}

#[test]
fn get_mut_writes_one_cell() {
    let mut grid = grid_of(vec![vec![1, 2, 3], vec![4, 5, 6]]);
    match grid.get_mut((1, 1)) {
        Some(cell) => *cell = 9,
        None => panic!("cell (1, 1) is inside the grid"),
    }
    assert_eq!(grid.rows(), &vec![vec![1u8, 2, 3], vec![4, 9, 6]]);
    assert_eq!(grid.width(), 3);
    assert_eq!(grid.height(), 2);
}

#[test]
fn get_mut_outside_is_none() {
    let mut grid = grid_of(vec![vec![1, 2, 3], vec![4, 5, 6]]);
    assert!(grid.get_mut((2, 0)).is_none());
    assert!(grid.get_mut((0, 3)).is_none());
    assert_eq!(grid.rows(), &vec![vec![1u8, 2, 3], vec![4, 5, 6]]);
}

#[test]
fn enumerate_reads_row_by_row() {
    let grid = grid_of(vec![vec![1, 2, 3], vec![4, 5, 6]]);
    let items = grid.enumerate();
    assert_eq!(
        items,
        vec![(0, 0, &1u8), (0, 1, &2), (0, 2, &3), (1, 0, &4), (1, 1, &5), (1, 2, &6)]
    );
}

#[test]
fn enumerate_starts_afresh_and_sees_writes() {
    let mut grid = grid_of(vec![vec![1, 2], vec![3, 4]]);
    assert_eq!(grid.enumerate().len(), 4);
    if let Some(cell) = grid.get_mut((0, 1)) {
        *cell = 8;
    }
    assert_eq!(grid.enumerate(), vec![(0, 0, &1u8), (0, 1, &8), (1, 0, &3), (1, 1, &4)]);
}

#[test]
fn neighbours_of_an_inner_cell() {
    let grid = grid_of(vec![vec![1, 2, 3], vec![4, 5, 6], vec![7, 8, 9]]);
    let items = grid.neighbours((1, 1));
    assert_eq!(
        items,
        vec![
            (0, 0, &1u8),
            (0, 1, &2),
            (0, 2, &3),
            (1, 0, &4),
            (1, 2, &6),
            (2, 0, &7),
            (2, 1, &8),
            (2, 2, &9)
        ]
    );
}

#[test]
fn neighbours_of_corners() {
    let grid = grid_of(vec![vec![1, 2, 3], vec![4, 5, 6], vec![7, 8, 9]]);
    assert_eq!(coords(&grid.neighbours((0, 0))), vec![(0, 1), (1, 0), (1, 1)]);
    assert_eq!(coords(&grid.neighbours((0, 2))), vec![(0, 1), (1, 1), (1, 2)]);
    assert_eq!(coords(&grid.neighbours((2, 0))), vec![(1, 0), (1, 1), (2, 1)]);
    assert_eq!(coords(&grid.neighbours((2, 2))), vec![(1, 1), (1, 2), (2, 1)]);
}

#[test]
fn neighbours_of_an_edge_cell() {
    let grid = grid_of(vec![vec![1, 2, 3], vec![4, 5, 6]]);
    assert_eq!(
        coords(&grid.neighbours((0, 1))),
        vec![(0, 0), (0, 2), (1, 0), (1, 1), (1, 2)]
    );
}

#[test]
fn neighbours_of_the_only_cell() {
    let grid = grid_of(vec![vec![5]]);
    assert!(grid.neighbours((0, 0)).is_empty());
}

#[test]
fn neighbours_of_a_cell_just_outside() {
    let grid = grid_of(vec![vec![1, 2, 3], vec![4, 5, 6]]);
    assert_eq!(coords(&grid.neighbours((2, 1))), vec![(1, 0), (1, 1), (1, 2)]);
    assert_eq!(coords(&grid.neighbours((0, 3))), vec![(0, 2), (1, 2)]);
    assert_eq!(coords(&grid.neighbours((2, 3))), vec![(1, 2)]);
}

#[test]
fn neighbours_of_a_cell_far_outside() {
    let grid = grid_of(vec![vec![1, 2, 3], vec![4, 5, 6]]);
    assert!(grid.neighbours((3, 1)).is_empty());
    assert!(grid.neighbours((0, 4)).is_empty());
    assert!(grid.neighbours((usize::MAX, usize::MAX)).is_empty());
    assert!(grid.neighbours((usize::MAX, 0)).is_empty());
}

#[test]
fn neighbours_are_at_chebyshev_distance_one() {
    let grid = grid_of(vec![vec![0; 5], vec![0; 5], vec![0; 5], vec![0; 5]]);
    for r in 0..4usize {
        for c in 0..5usize {
            let found = coords(&grid.neighbours((r, c)));
            let mut expected = Vec::new();
            for (i, j, _) in grid.enumerate() {
                if i.abs_diff(r) <= 1 && j.abs_diff(c) <= 1 && (i, j) != (r, c) {
                    expected.push((i, j));
                }
            }
            assert_eq!(found, expected);
        }
    }
}
