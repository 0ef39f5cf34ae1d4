use mandelbrot::grid::Grid;
use mandelbrot::text::decimal_text;

fn table(cells: &[&[&str]]) -> Grid<String> {
    Grid::new((cells.len(), cells[0].len()), |i: usize, j: usize| cells[i][j].to_string())
}

#[test]
fn layout_pads_every_cell_to_the_widest() {
    let grid = table(&[&["a", "bbb"], &["cc", ""]]);
    assert_eq!(grid.layout(), "  a | bbb\n cc |    ");
}

#[test]
fn layout_of_one_cell_is_the_cell() {
    let grid = table(&[&["only"]]);
    assert_eq!(grid.layout(), "only");
}

#[test]
fn layout_of_one_row_has_no_line_break() {
    let grid = table(&[&["1", "22", "333"]]);
    assert_eq!(grid.layout(), "  1 |  22 | 333");
}

#[test]
fn layout_of_one_column_has_no_separator() {
    let grid = table(&[&["1"], &["22"], &["333"]]);
    assert_eq!(grid.layout(), "  1\n 22\n333");
}

#[test]
fn layout_of_empty_texts_keeps_the_separators() {
    let grid = table(&[&["", ""], &["", ""]]);
    assert_eq!(grid.layout(), " | \n | ");
}

#[test]
fn layout_measures_width_in_bytes() {
    let grid = table(&[&["é", "ab"], &["x", "abc"]]);
    assert_eq!(grid.layout(), " é |  ab\n  x | abc");
}

#[test]
fn labels_are_the_display_forms() {
    let grid = Grid::new((2, 2), |i: usize, j: usize| 100 * i + j);
    let labels = grid.labels();
    assert_eq!(labels.rows(), 2);
    assert_eq!(labels.cols(), 2);
    assert_eq!(labels.get(0, 0).as_str(), "0");
    assert_eq!(labels.get(0, 1).as_str(), "1");
    assert_eq!(labels.get(1, 0).as_str(), "100");
    assert_eq!(labels.get(1, 1).as_str(), "101");
}

#[test]
fn render_lays_out_the_display_forms() {
    let grid = Grid::new((2, 3), |i: usize, j: usize| (i + 1) * 10usize.pow(j as u32));
    assert_eq!(grid.render(), "  1 |  10 | 100\n  2 |  20 | 200");
}

#[test]
fn render_of_booleans() {
    let grid = Grid::new((1, 2), |_i: usize, j: usize| j == 0);
    assert_eq!(grid.render(), " true | false");
}

#[test]
fn decimal_text_of_small_numbers() {
    assert_eq!(decimal_text(0), "0");
    assert_eq!(decimal_text(7), "7");
    assert_eq!(decimal_text(9), "9");
    assert_eq!(decimal_text(10), "10");
    assert_eq!(decimal_text(1234567890), "1234567890");
}

#[test]
fn decimal_text_is_the_display_form() {
    for n in [0usize, 1, 9, 10, 99, 100, 101, 4095, 65536, 999_999, usize::MAX / 3, usize::MAX] {
        assert_eq!(decimal_text(n), n.to_string());
    }
}
