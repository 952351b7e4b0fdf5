//! Ordered dithering of images onto an arbitrary colour palette.
//!
//! Colours are points of CIELAB space on a fixed-point grid, so that every
//! quantity the dithering decision depends on is an exact integer or an exact
//! fraction of integers. Each pixel is decided on its own: the pair of palette
//! colours that best explains it is found, and a threshold matrix that tiles
//! the image picks one colour of the pair.

pub mod color_spaces;
pub mod fraction;
pub mod grid;
pub mod matrix;
pub mod optimizer;
pub mod render;

use vstd::prelude::*;
use vstd::arithmetic::power2::pow2;
use image::DynamicImage;
use crate::color_spaces::palette_labs;
use crate::color_spaces::PaletteColor;
use crate::color_spaces::LAB;
use crate::grid::PixelGrid;
use crate::matrix::bayer_rank;
use crate::matrix::ThresholdMatrix;
use crate::optimizer::best_pair;
use crate::optimizer::optimize_pair;
use crate::optimizer::pair_ratio;
use crate::optimizer::points;
use crate::render::image_dimensions;
use crate::render::image_samples;
use crate::render::paint;
use crate::render::painted;

verus! {

/// The order of the threshold matrix that `DitherBuilder` dithers with: a
/// matrix of 32 by 32 cells.
pub const MATRIX_ORDER: u8 = 5;

/// Why a dithering pass was refused.
#[derive(Clone, Copy, Debug, PartialEq, Eq)]
pub enum DitherError {
    /// The palette has fewer than two colours.
    InvalidPalette,
}

impl DitherError {
    /// The text of `description`.
    pub open spec fn description_text(self) -> Seq<char> {
        match self {
            DitherError::InvalidPalette => {
                "dithering aborted: the palette holds fewer than two colours"@
            },
        }
    }

    /// Says which condition on the input failed.
    pub fn description(&self) -> (text: &'static str)
        ensures
            text@ == self.description_text(),
    {
        match self {
            DitherError::InvalidPalette => {
                proof {
                    reveal_strlit("dithering aborted: the palette holds fewer than two colours");
                }
                "dithering aborted: the palette holds fewer than two colours"
            },
        }
    }
}

/// Whether the threshold `rank / levels` is strictly above `ratio`.
pub open spec fn threshold_above(rank: nat, levels: nat, ratio: (int, int)) -> bool {
    rank * ratio.1 > ratio.0 * levels
}

/// The index of the palette colour that pixel `(x, y)` with colour `target`
/// receives under the threshold matrix of the given order.
///
/// The matrix tiles the image, so the pixel is held against the threshold of
/// cell `(x mod side, y mod side)`. It gets the first colour of its best pair
/// where that threshold is strictly above the pair's blend ratio, and the
/// second colour everywhere else.
pub open spec fn dither_choice(
    order: nat,
    x: nat,
    y: nat,
    target: (int, int, int),
    palette: Seq<(int, int, int)>,
) -> int {
    let pair = best_pair(target, palette);
    let ratio = pair_ratio(target, palette[pair.0], palette[pair.1]);
    let rank = bayer_rank(order, x % pow2(order), y % pow2(order));
    if threshold_above(rank, pow2(2 * order), ratio) {
        pair.0
    } else {
        pair.1
    }
}

/// The dithered image: for each pixel of a row-major image of the given
/// width, the index of the palette colour it receives.
pub open spec fn dithered(order: nat, width: nat, pixels: Seq<LAB>, palette: Seq<LAB>) -> Seq<
    int,
> {
    Seq::new(
        pixels.len(),
        |k: int|
            dither_choice(
                order,
                (k % width as int) as nat,
                (k / width as int) as nat,
                pixels[k]@,
                points(palette),
            ),
    )
}

/// A sequence of indices as numbers.
pub open spec fn index_values(indices: Seq<usize>) -> Seq<int> {
    indices.map_values(|i: usize| i as int)
}

/// Decides one pixel: returns the index of the palette colour that pixel
/// `(x, y)` with colour `color` receives, or `InvalidPalette` for a palette of
/// fewer than two colours.
pub fn dither_pixel(
    matrix: &ThresholdMatrix,
    x: u32,
    y: u32,
    color: &LAB,
    palette: &[LAB],
) -> (result: Result<usize, DitherError>)
    ensures
        result is Err <==> palette@.len() < 2,
        result matches Ok(index) ==> index < palette@.len() && index == dither_choice(
            matrix.order(),
            x as nat,
            y as nat,
            color@,
            points(palette@),
        ),
{
    match optimize_pair(color, palette) {
        None => Err(DitherError::InvalidPalette),
        Some(plan) => {
            let rank = matrix.get(x, y);
            let levels = matrix.levels();
            let color1 = &palette[plan.first];
            let color2 = &palette[plan.second];
            proof {
                use_type_invariant(color);
                use_type_invariant(color1);
                use_type_invariant(color2);
                crate::optimizer::lemma_pair_magnitudes(color@, color1@, color2@);
                let lim = crate::optimizer::dot_limit();
                assert(rank * plan.ratio.den <= 1_073_741_824 * lim && plan.ratio.num * levels
                    <= lim * 1_073_741_824) by (nonlinear_arith)
                    requires
                        0 <= rank <= 1_073_741_824,
                        0 <= levels <= 1_073_741_824,
                        0 <= plan.ratio.den <= lim,
                        0 <= plan.ratio.num <= lim,
                ;
            }
            if rank as u128 * plan.ratio.den > plan.ratio.num * levels as u128 {
                Ok(plan.first)
            } else {
                Ok(plan.second)
            }
        },
    }
}

/// Dithers an image with the given threshold matrix.
///
/// Returns a grid of the same dimensions that holds, for each pixel, the index
/// of the palette colour it receives; or `InvalidPalette`, before any pixel is
/// looked at, for a palette of fewer than two colours.
pub fn dither_with_matrix(matrix: &ThresholdMatrix, img: &PixelGrid<LAB>, palette: &[LAB]) -> (result:
    Result<PixelGrid<usize>, DitherError>)
    ensures
        result is Err <==> palette@.len() < 2,
        result matches Ok(out) ==> {
            &&& out.width() == img.width()
            &&& out.height() == img.height()
            &&& index_values(out@) == dithered(matrix.order(), img.width() as nat, img@, palette@)
            &&& out@.len() == img.width() * img.height()
            &&& forall|k: int| 0 <= k < out@.len() ==> #[trigger] out@[k] < palette@.len()
        },
{
    if palette.len() < 2 {
        return Err(DitherError::InvalidPalette);
    }
    let width = img.width();
    let height = img.height();
    let pixels = img.cells();
    let count = pixels.len();
    let mut indices: Vec<usize> = Vec::new();
    let mut k: usize = 0;
    while k < count
        invariant
            palette@.len() >= 2,
            width == img.width(),
            height == img.height(),
            pixels@ == img@,
            count == pixels@.len(),
            count == width as int * height as int,
            k <= count,
            indices@.len() == k,
            forall|i: int|
                0 <= i < k ==> #[trigger] indices@[i] < palette@.len() && indices@[i]
                    == dither_choice(
                    matrix.order(),
                    (i % width as int) as nat,
                    (i / width as int) as nat,
                    pixels@[i]@,
                    points(palette@),
                ),
        decreases count - k,
    {
        proof {
            assert(width > 0 && (k as int) / (width as int) < height) by (nonlinear_arith)
                requires
                    0 <= k < width as int * height as int,
                    0 <= width,
                    0 <= height,
            ;
        }
        let x = (k % width as usize) as u32;
        let y = (k / width as usize) as u32;
        let index = dither_pixel(matrix, x, y, &pixels[k], palette).unwrap();
        indices.push(index);
        k += 1;
    }
    Ok(PixelGrid::from_cells(width, height, indices))
}

/// Configures and runs an ordered dithering pass.
pub struct DitherBuilder {
    dimensions: Option<(u32, u32)>,
}

impl Default for DitherBuilder {
    fn default() -> (builder: Self)
        ensures
            builder.requested_dimensions() is None,
    {
        DitherBuilder { dimensions: None }
    }
}

impl DitherBuilder {
    /// The output dimensions asked for, if any.
    pub closed spec fn requested_dimensions(self) -> Option<(u32, u32)> {
        self.dimensions
    }

    /// A builder with no output dimensions asked for.
    pub fn new() -> (builder: Self)
        ensures
            builder.requested_dimensions() is None,
    {
        DitherBuilder { dimensions: None }
    }

    /// Asks for output of the given width and height.
    pub fn dimensions(self, dimensions: (u32, u32)) -> (builder: Self)
        ensures
            builder.requested_dimensions() == Some(dimensions),
    {
        let mut builder = self;
        builder.dimensions = Some(dimensions);
        builder
    }

    /// Dithers an image with the matrix of order `MATRIX_ORDER` and paints the
    /// result.
    ///
    /// Returns an 8-bit RGB image of the same dimensions as `img` in which
    /// every pixel has the colour of the palette entry it receives; or
    /// `InvalidPalette`, before any pixel is looked at, for a palette of fewer
    /// than two colours. The result depends on the image and the palette
    /// alone. The samples of one row of the result, and those of the whole of
    /// it, must be no more than `usize` can count.
    pub fn ordered_dither(self, img: &PixelGrid<LAB>, palette: &[PaletteColor]) -> (result: Result<
        DynamicImage,
        DitherError,
    >)
        requires
            3 * img.width() <= usize::MAX,
            3 * (img.width() * img.height()) <= usize::MAX,
        ensures
            result is Err <==> palette@.len() < 2,
            result matches Ok(out) ==> {
                &&& image_dimensions(out) == (img.width(), img.height())
                &&& image_samples(out) == painted(
                    dithered(
                        MATRIX_ORDER as nat,
                        img.width() as nat,
                        img@,
                        palette_labs(palette@),
                    ),
                    palette@,
                )
            },
    {
        if palette.len() < 2 {
            return Err(DitherError::InvalidPalette);
        }
        let labs = labs_of(palette);
        let matrix = ThresholdMatrix::bayer_matrix(MATRIX_ORDER);
        let indices = dither_with_matrix(&matrix, img, labs.as_slice()).unwrap();
        let out = paint(&indices, palette);
        Ok(out)
    }
}

/// The CIELAB colours of a palette, in palette order.
pub fn labs_of(palette: &[PaletteColor]) -> (labs: Vec<LAB>)
    ensures
        labs@ == palette_labs(palette@),
{
    let mut labs: Vec<LAB> = Vec::new();
    let mut k: usize = 0;
    while k < palette.len()
        invariant
            k <= palette@.len(),
            labs@.len() == k,
            forall|i: int| 0 <= i < k ==> #[trigger] labs@[i] == palette@[i].lab,
        decreases palette@.len() - k,
    {
        labs.push(palette[k].lab);
        k += 1;
    }
    labs
}

} // verus!
