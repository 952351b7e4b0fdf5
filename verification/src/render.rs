//! Writing a dithered image out as 8-bit sRGB.

use vstd::prelude::*;
use image::DynamicImage;
use crate::color_spaces::PaletteColor;
use crate::grid::PixelGrid;

verus! {

/// `image::DynamicImage`, a decoded image of any pixel format. Nothing is
/// known of what a value of it holds beyond what `image_samples` and
/// `image_dimensions` name.
#[verifier::external_type_specification]
#[verifier::external_body]
pub struct ExDynamicImage(image::DynamicImage);

/// The samples that an 8-bit RGB image holds: three for each pixel, pixels row
/// by row. This is the buffer that `RgbImage::as_raw` hands out.
pub uninterp spec fn image_samples(img: DynamicImage) -> Seq<u8>;

/// The width and the height of an image, in pixels, as
/// `GenericImageView::dimensions` reports them.
pub uninterp spec fn image_dimensions(img: DynamicImage) -> (u32, u32);

/// Wraps a buffer of samples as an 8-bit RGB image.
///
/// This is `ImageBuffer::from_vec` for `Rgb<u8>` pixels, with the buffer
/// placed in `DynamicImage::ImageRgb8`. `from_vec` multiplies three by the
/// width and then by the height, refuses where either product leaves `usize`
/// or the buffer is shorter than the result, and accepts otherwise; the image
/// it returns keeps the buffer and the dimensions as they were given.
#[verifier::external_body]
fn rgb8_image(width: u32, height: u32, samples: Vec<u8>) -> (img: Option<DynamicImage>)
    ensures
        img is Some <==> (3 * width <= usize::MAX && 3 * (width * height) <= samples@.len()),
        img matches Some(i) ==> image_samples(i) == samples@ && image_dimensions(i) == (
            width,
            height,
        ),
{
    image::RgbImage::from_vec(width, height, samples).map(DynamicImage::ImageRgb8)
}

/// The samples of the image in which every pixel has the colour of the
/// palette entry that `indices` names for it.
pub open spec fn painted(indices: Seq<int>, palette: Seq<PaletteColor>) -> Seq<u8> {
    Seq::new(3 * indices.len(), |i: int| palette[indices[i / 3]].srgb.channel(i % 3))
}

/// Replaces every index of the grid by the colour of that palette entry and
/// returns the result as an 8-bit RGB image of the same dimensions.
pub(crate) fn paint(indices: &PixelGrid<usize>, palette: &[PaletteColor]) -> (img: DynamicImage)
    requires
        forall|k: int| 0 <= k < indices@.len() ==> #[trigger] indices@[k] < palette@.len(),
        3 * indices.width() <= usize::MAX,
        3 * indices@.len() <= usize::MAX,
    ensures
        image_dimensions(img) == (indices.width(), indices.height()),
        image_samples(img) == painted(indices@.map_values(|i: usize| i as int), palette@),
{
    let cells = indices.cells();
    let count = cells.len();
    let mut samples: Vec<u8> = Vec::new();
    let mut k: usize = 0;
    while k < count
        invariant
            cells@ == indices@,
            count == cells@.len(),
            forall|i: int| 0 <= i < cells@.len() ==> #[trigger] cells@[i] < palette@.len(),
            k <= count,
            samples@.len() == 3 * k,
            forall|i: int|
                0 <= i < 3 * k ==> #[trigger] samples@[i] == palette@[cells@[i / 3] as int].srgb.channel(
                    i % 3,
                ),
        decreases count - k,
    {
        let color = &palette[cells[k]];
        samples.push(color.srgb.r);
        samples.push(color.srgb.g);
        samples.push(color.srgb.b);
        k += 1;
    }
    rgb8_image(indices.width(), indices.height(), samples).unwrap()
}

} // verus!
