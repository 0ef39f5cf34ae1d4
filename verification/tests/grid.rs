use mandelbrot::grid::Grid;

#[test]
fn full_fills_every_cell() {
    let grid = Grid::full((3, 4), 7u32);
    assert_eq!(grid.rows(), 3);
    assert_eq!(grid.cols(), 4);
    for i in 0..3 {
        for j in 0..4 {
            assert_eq!(*grid.get(i, j), 7);
        }
    }
}

#[test]
fn full_without_rows_has_no_columns() {
    let grid = Grid::full((0, 5), false);
    assert_eq!(grid.rows(), 0);
    assert_eq!(grid.cols(), 0);
}

#[test]
fn full_without_columns_keeps_its_rows() {
    let grid = Grid::full((2, 0), 1usize);
    assert_eq!(grid.rows(), 2);
    assert_eq!(grid.cols(), 0);
}

#[test]
fn new_applies_the_function_to_the_coordinates() {
    let grid = Grid::new((2, 3), |i: usize, j: usize| 10 * i + j);
    assert_eq!(grid.rows(), 2);
    assert_eq!(grid.cols(), 3);
    assert_eq!(*grid.get(0, 0), 0);
    assert_eq!(*grid.get(0, 2), 2);
    assert_eq!(*grid.get(1, 0), 10);
    assert_eq!(*grid.get(1, 2), 12);
}

#[test]
fn set_changes_one_cell_only() {
    let mut grid = Grid::full((2, 2), 0u8);
    grid.set(1, 0, 9);
    assert_eq!(*grid.get(0, 0), 0);
    assert_eq!(*grid.get(0, 1), 0);
    assert_eq!(*grid.get(1, 0), 9);
    assert_eq!(*grid.get(1, 1), 0);
}

#[test]
fn cells_of_a_full_grid_are_independent() {
    let mut grid = Grid::full((2, 2), (0.0f64, 0.0f64));
    grid.set(0, 1, (1.0, -1.0));
    assert_eq!(*grid.get(0, 0), (0.0, 0.0));
    assert_eq!(*grid.get(0, 1), (1.0, -1.0));
}

#[test]
fn centred_mapping_puts_the_centre_at_the_middle_cell() {
    let size: (usize, usize) = (5, 7);
    let centre = (0.0f64, 0.0f64);
    let scale = (1.0f64, 1.0f64);
    let mid_y = (size.0 - 1) as f64 / 2.;
    let mid_x = (size.1 - 1) as f64 / 2.;
    let grid = Grid::new(size, |i: usize, j: usize| {
        (
            (i as f64 - mid_y) * scale.0 + centre.0,
            (j as f64 - mid_x) * scale.1 + centre.1,
        )
    });
    assert_eq!(*grid.get(2, 3), (0.0, 0.0));
    assert_eq!(*grid.get(0, 0), (-2.0, -3.0));
    assert_eq!(*grid.get(4, 6), (2.0, 3.0));
}

#[test]
fn centred_mapping_has_half_steps_on_even_sizes() {
    let size: (usize, usize) = (2, 4);
    let mid_y = (size.0 - 1) as f64 / 2.;
    let mid_x = (size.1 - 1) as f64 / 2.;
    let grid = Grid::new(size, |i: usize, j: usize| {
        ((i as f64 - mid_y) * 0.5 + 1.0, (j as f64 - mid_x) * 2.0 - 1.0)
    });
    assert_eq!(*grid.get(0, 0), (0.75, -4.0));
    assert_eq!(*grid.get(1, 3), (1.25, 2.0));
}
