//! Grayscale rendering of step counts, and their encoding as a PNG image.

use crate::grid::Grid;
use vstd::arithmetic::div_mod::lemma_fundamental_div_mod_converse;
use vstd::prelude::*;

verus! {

/// `png::EncodingError`, the failure of the encoder, carried as an opaque value.
#[verifier::external_type_specification]
#[verifier::external_body]
pub struct ExEncodingError(png::EncodingError);

/// Why a grid could not be turned into an image.
#[derive(Debug)]
pub enum ImageError {
    /// The grid has no rows or no columns.
    Empty,
    /// A dimension of the grid does not fit the 32 bits that the format has for it.
    TooLarge,
    /// The encoder failed. No grid makes it fail; this is what a failure of
    /// the encoder would be turned into.
    Encoding,
}

/// The gray level of a point that took `count` steps when `threshold` were offered:
/// 0 for a point that took them all, and else `255 * count / threshold` rounded to
/// the nearest integer (halves upwards), at most 255.
pub open spec fn spec_intensity(count: nat, threshold: nat) -> nat {
    if count == threshold {
        0
    } else if count > threshold {
        255
    } else {
        (510 * count + threshold) / (2 * threshold)
    }
}

/// The gray levels of a table of step counts with `cols` columns, row by row.
pub open spec fn spec_pixels(counts: Seq<Seq<usize>>, cols: nat, threshold: nat) -> Seq<u8> {
    Seq::new(
        counts.len() * cols,
        |k: int| spec_intensity(counts[k / cols as int][k % cols as int] as nat, threshold) as u8,
    )
}

/// The gray level of one point.
pub fn intensity(count: usize, max_size: usize) -> (level: u8)
    ensures
        level == spec_intensity(count as nat, max_size as nat),
{
    if count == max_size {
        0
    } else if count > max_size {
        255
    } else {
        let doubled: u128 = 510 * (count as u128) + (max_size as u128);
        let divisor: u128 = 2 * (max_size as u128);
        assert(doubled / divisor < 256) by (nonlinear_arith)
            requires
                0 < divisor,
                doubled < 256 * divisor,
        ;
        (doubled / divisor) as u8
    }
}

/// The gray levels of all points of `grid`, row by row.
pub fn grid_intensities(grid: &Grid<usize>, max_size: usize) -> (pixels: Vec<u8>)
    requires
        grid.wf(),
    ensures
        pixels@ == spec_pixels(grid@, grid.spec_cols(), max_size as nat),
{
    let rows = grid.rows();
    let cols = grid.cols();
    let mut pixels: Vec<u8> = Vec::new();
    let mut i: usize = 0;
    while i < rows
        invariant
            i <= rows,
            grid.wf(),
            rows == grid.spec_rows(),
            cols == grid.spec_cols(),
            pixels@.len() == i * cols,
            forall|k: int|
                0 <= k < pixels@.len() ==> #[trigger] pixels@[k] == spec_intensity(
                    grid@[k / cols as int][k % cols as int] as nat,
                    max_size as nat,
                ) as u8,
        decreases rows - i,
    {
        let mut j: usize = 0;
        while j < cols
            invariant
                i < rows,
                j <= cols,
                grid.wf(),
                rows == grid.spec_rows(),
                cols == grid.spec_cols(),
                pixels@.len() == i * cols + j,
                forall|k: int|
                    0 <= k < pixels@.len() ==> #[trigger] pixels@[k] == spec_intensity(
                        grid@[k / cols as int][k % cols as int] as nat,
                        max_size as nat,
                    ) as u8,
            decreases cols - j,
        {
            proof {
                lemma_fundamental_div_mod_converse(i * cols + j, cols as int, i as int, j as int);
            }
            pixels.push(intensity(*grid.get(i, j), max_size));
            j += 1;
        }
        assert((i + 1) * cols == i * cols + cols) by (nonlinear_arith);
        i += 1;
    }
    assert(pixels@ =~= spec_pixels(grid@, grid.spec_cols(), max_size as nat));
    pixels
}

/// The bytes of the PNG image of the given size whose pixels, 8-bit grayscale
/// and row by row, are `pixels`.
pub uninterp spec fn png_gray8(pixels: Seq<u8>, width: u32, height: u32) -> Seq<u8>;

/// Encodes `pixels` with `png::Encoder`: `Encoder::new` on a byte buffer, `set_color`
/// with `Grayscale`, `set_depth` with `Eight`, `write_header`, and
/// `Writer::write_image_data`; dropping the writer ends the image.
///
/// Two claims are made of the encoder. The bytes written for given pixels and
/// dimensions are always the same. And on the inputs admitted here it succeeds:
/// it refuses a zero width or height, a colour type that does not go with the bit
/// depth, and a buffer whose length is not `width * height`, none of which can
/// occur; its other failures are those of the writer, which is a buffer in memory
/// and does not fail, and of the compressor, which refuses only a stream that is
/// written to after its end.
#[verifier::external_body]
fn encode_gray8(pixels: &Vec<u8>, width: u32, height: u32) -> (out: Result<Vec<u8>, png::EncodingError>)
    requires
        width > 0,
        height > 0,
        pixels@.len() == width * height,
    ensures
        out is Ok,
        out matches Ok(bytes) ==> bytes@ == png_gray8(pixels@, width, height),
{
    let mut bytes: Vec<u8> = Vec::new();
    let mut encoder = png::Encoder::new(&mut bytes, width, height);
    encoder.set_color(png::ColorType::Grayscale);
    encoder.set_depth(png::BitDepth::Eight);
    let mut writer = encoder.write_header()?;
    writer.write_image_data(pixels)?;
    drop(writer);
    Ok(bytes)
}

/// What the encoder's answer becomes: its bytes, or `ImageError::Encoding`.
pub fn encoding_result(outcome: Result<Vec<u8>, png::EncodingError>) -> (image: Result<
    Vec<u8>,
    ImageError,
>)
    ensures
        outcome matches Ok(bytes) ==> image == Ok::<Vec<u8>, ImageError>(bytes),
        outcome is Err ==> image == Err::<Vec<u8>, ImageError>(ImageError::Encoding),
{
    match outcome {
        Ok(bytes) => Ok(bytes),
        Err(_) => Err(ImageError::Encoding),
    }
}

/// Renders the step counts of `grid` as an 8-bit grayscale PNG image, one pixel
/// per point, rows as image rows. `max_size` is the budget offered so far. Every
/// grid with at least one row and one column, neither above `u32::MAX` in number,
/// gets its image.
pub fn encode_grid(grid: &Grid<usize>, max_size: usize) -> (image: Result<Vec<u8>, ImageError>)
    requires
        grid.wf(),
    ensures
        image is Ok <==> 0 < grid.spec_rows() <= u32::MAX && 0 < grid.spec_cols() <= u32::MAX,
        image == Err::<Vec<u8>, ImageError>(ImageError::Empty) <==> grid.spec_rows() == 0
            || grid.spec_cols() == 0,
        image == Err::<Vec<u8>, ImageError>(ImageError::TooLarge) <==> grid.spec_rows() > 0
            && grid.spec_cols() > 0 && (grid.spec_rows() > u32::MAX || grid.spec_cols()
            > u32::MAX),
        image matches Ok(bytes) ==> bytes@ == png_gray8(
            spec_pixels(grid@, grid.spec_cols(), max_size as nat),
            grid.spec_cols() as u32,
            grid.spec_rows() as u32,
        ),
{
    let rows = grid.rows();
    let cols = grid.cols();
    if rows == 0 || cols == 0 {
        return Err(ImageError::Empty);
    }
    if rows > u32::MAX as usize || cols > u32::MAX as usize {
        return Err(ImageError::TooLarge);
    }
    let pixels = grid_intensities(grid, max_size);
    assert(pixels@.len() == (cols as u32) * (rows as u32)) by (nonlinear_arith)
        requires
            pixels@.len() == rows * cols,
            rows <= u32::MAX,
            cols <= u32::MAX,
    ;
    encoding_result(encode_gray8(&pixels, cols as u32, rows as u32))
}

} // verus!
