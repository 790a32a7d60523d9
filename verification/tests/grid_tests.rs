use particle_sim::grid::{Grid, GridCell};

fn objects(grid: &Grid, x: usize, y: usize) -> Vec<usize> {
    grid.get(x, y).objects.clone()
}

#[test]
fn new_grid_has_one_more_cell_than_its_width_and_height() {
    let grid = Grid::new(3, 2);
    assert_eq!(grid.width, 3);
    assert_eq!(grid.height, 2);
    assert_eq!(grid.cells.len(), 4);
    for (i, col) in grid.cells.iter().enumerate() {
        assert_eq!(col.len(), 3);
        for (j, cell) in col.iter().enumerate() {
            assert_eq!(cell.col, i);
            assert_eq!(cell.row, j);
            assert!(cell.objects.is_empty());
        }
    }
}

#[test]
fn new_cell_is_empty() {
    let cell = GridCell::new(4, 7);
    assert_eq!(cell.col, 4);
    assert_eq!(cell.row, 7);
    assert!(cell.objects.is_empty());
}

#[test]
fn update_files_each_handle_in_its_cell_in_increasing_order() {
    let mut grid = Grid::new(2, 2);
    grid.update(&vec![(1, 1), (0, 2), (1, 1), (2, 0), (1, 1)]);
    assert_eq!(objects(&grid, 1, 1), vec![0, 2, 4]);
    assert_eq!(objects(&grid, 0, 2), vec![1]);
    assert_eq!(objects(&grid, 2, 0), vec![3]);
    assert!(objects(&grid, 0, 0).is_empty());
    // a second update empties the cells first
    grid.update(&vec![(0, 0)]);
    assert_eq!(objects(&grid, 0, 0), vec![0]);
    assert!(objects(&grid, 1, 1).is_empty());
    assert!(objects(&grid, 0, 2).is_empty());
}

#[test]
fn update_obj_clears_the_window_and_files_at_the_end() {
    let mut grid = Grid::new(3, 3);
    // handle 5 sits in several cells, twice in (1, 1)
    grid.get_mut(1, 1).objects = vec![5, 7, 5];
    grid.get_mut(2, 2).objects = vec![5];
    grid.get_mut(2, 1).objects = vec![8, 5];
    grid.get_mut(3, 3).objects = vec![5];
    grid.get_mut(0, 0).objects = vec![5];
    grid.update_obj(5, 2, 2);
    // window of (2, 2) is columns 1..=2 and rows 1..=2
    assert_eq!(objects(&grid, 1, 1), vec![7, 5]);
    assert_eq!(objects(&grid, 2, 1), vec![8]);
    assert_eq!(objects(&grid, 2, 2), vec![5]);
    // outside the window nothing changes
    assert_eq!(objects(&grid, 3, 3), vec![5]);
    assert_eq!(objects(&grid, 0, 0), vec![5]);
}

#[test]
fn update_obj_at_the_corner_clears_only_that_cell() {
    let mut grid = Grid::new(2, 2);
    grid.get_mut(0, 0).objects = vec![1, 2];
    grid.get_mut(1, 0).objects = vec![1];
    grid.update_obj(1, 0, 0);
    assert_eq!(objects(&grid, 0, 0), vec![2, 1]);
    assert_eq!(objects(&grid, 1, 0), vec![1]);
}

#[test]
fn update_obj_at_column_one_reaches_column_zero() {
    let mut grid = Grid::new(2, 2);
    grid.get_mut(0, 0).objects = vec![9];
    grid.get_mut(0, 1).objects = vec![9, 9];
    grid.update_obj(9, 1, 1);
    assert!(objects(&grid, 0, 0).is_empty());
    assert_eq!(objects(&grid, 0, 1), vec![9]);
    assert_eq!(objects(&grid, 1, 1), vec![9]);
}

#[test]
fn get_mut_changes_only_that_cell() {
    let mut grid = Grid::new(1, 1);
    grid.get_mut(1, 0).objects.push(3);
    assert_eq!(objects(&grid, 1, 0), vec![3]);
    assert!(objects(&grid, 0, 0).is_empty());
    assert!(objects(&grid, 0, 1).is_empty());
    assert!(objects(&grid, 1, 1).is_empty());
}
