use mandelbrot::grid::Grid;
use mandelbrot::image::{encode_grid, encoding_result, grid_intensities, intensity, ImageError};
use std::io::Cursor;

fn decode(bytes: &[u8]) -> (u32, u32, png::ColorType, png::BitDepth, Vec<u8>) {
    let decoder = png::Decoder::new(Cursor::new(bytes.to_vec()));
    let mut reader = decoder.read_info().unwrap();
    let mut buffer = vec![0; reader.output_buffer_size().unwrap()];
    let info = reader.next_frame(&mut buffer).unwrap();
    buffer.truncate(info.buffer_size());
    (info.width, info.height, info.color_type, info.bit_depth, buffer)
}

#[test]
fn intensity_is_zero_for_a_point_that_took_every_step() {
    assert_eq!(intensity(10, 10), 0);
    assert_eq!(intensity(0, 0), 0);
    assert_eq!(intensity(1000, 1000), 0);
}

#[test]
fn intensity_scales_the_count_to_255() {
    let levels: Vec<u8> = (0..=10).map(|count| intensity(count, 10)).collect();
    assert_eq!(levels, vec![0, 26, 51, 77, 102, 128, 153, 179, 204, 230, 0]);
    assert_eq!(intensity(0, 7), 0);
    assert_eq!(intensity(99, 100), 252);
    assert_eq!(intensity(999, 1000), 255);
}

#[test]
fn intensity_rounds_to_the_nearest_level() {
    assert_eq!(intensity(1, 3), 85);
    assert_eq!(intensity(2, 3), 170);
    assert_eq!(intensity(1, 2), 128);
    assert_eq!(intensity(1, 510), 1);
    assert_eq!(intensity(1, 511), 0);
}

#[test]
fn intensity_is_capped_beyond_the_threshold() {
    assert_eq!(intensity(5, 0), 255);
    assert_eq!(intensity(11, 10), 255);
    assert_eq!(intensity(usize::MAX, 1), 255);
}

#[test]
fn intensity_stands_the_largest_counts() {
    assert_eq!(intensity(usize::MAX - 1, usize::MAX), 255);
    assert_eq!(intensity(usize::MAX / 2, usize::MAX), 127);
}

#[test]
fn intensities_come_row_by_row() {
    let grid = Grid::new((2, 3), |i: usize, j: usize| 3 * i + j);
    assert_eq!(grid_intensities(&grid, 10), vec![0, 26, 51, 77, 102, 128]);
}

#[test]
fn intensities_of_an_empty_grid_are_empty() {
    assert_eq!(grid_intensities(&Grid::full((0, 4), 1usize), 10), Vec::<u8>::new());
    assert_eq!(grid_intensities(&Grid::full((4, 0), 1usize), 10), Vec::<u8>::new());
}

#[test]
fn encoded_grid_decodes_to_its_intensities() {
    let grid = Grid::new((2, 3), |i: usize, j: usize| 3 * i + j);
    let bytes = encode_grid(&grid, 10).unwrap();
    assert_eq!(&bytes[..8], &[137, 80, 78, 71, 13, 10, 26, 10]);
    let (width, height, color, depth, pixels) = decode(&bytes);
    assert_eq!(width, 3);
    assert_eq!(height, 2);
    assert!(matches!(color, png::ColorType::Grayscale));
    assert!(matches!(depth, png::BitDepth::Eight));
    assert_eq!(pixels, vec![0, 26, 51, 77, 102, 128]);
}

#[test]
fn encoding_is_repeatable() {
    let grid = Grid::new((16, 9), |i: usize, j: usize| (7 * i + 13 * j) % 50);
    let first = encode_grid(&grid, 50).unwrap();
    let second = encode_grid(&grid, 50).unwrap();
    assert_eq!(first, second);
    let (width, height, _, _, pixels) = decode(&first);
    assert_eq!((width, height), (9, 16));
    assert_eq!(pixels, grid_intensities(&grid, 50));
}

#[test]
fn empty_grid_is_refused() {
    assert!(matches!(encode_grid(&Grid::full((0, 0), 0usize), 1), Err(ImageError::Empty)));
    assert!(matches!(encode_grid(&Grid::full((0, 3), 0usize), 1), Err(ImageError::Empty)));
    assert!(matches!(encode_grid(&Grid::full((3, 0), 0usize), 1), Err(ImageError::Empty)));
}

#[test]
fn encoder_failure_becomes_an_encoding_error() {
    let failed = encoding_result(Err(png::EncodingError::LimitsExceeded));
    assert!(matches!(failed, Err(ImageError::Encoding)));
    let passed = encoding_result(Ok(vec![1, 2, 3]));
    assert_eq!(passed.unwrap(), vec![1, 2, 3]);
}
