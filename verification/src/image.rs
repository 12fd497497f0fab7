use vstd::prelude::*;
use bmp::Image;
use crate::color::Color;

verus! {

/// `bmp::Image`: a picture held in memory, a pixel for every position.
#[verifier::external_type_specification]
#[verifier::external_body]
pub struct ExImage(Image);

/// The number of columns of an image.
pub uninterp spec fn image_width(img: Image) -> u32;

/// The number of rows of an image.
pub uninterp spec fn image_height(img: Image) -> u32;

/// The color channels of the pixel in column `x` and row `y`, row 0 being the
/// top one.
pub uninterp spec fn image_pixel(img: Image, x: u32, y: u32) -> (u8, u8, u8);

/// Whether the image is small enough for its pixels to be numbered in 32 bits,
/// as `get_pixel` and `set_pixel` do.
pub open spec fn image_indexable(img: Image) -> bool {
    image_width(img) * image_height(img) <= u32::MAX
}

/// `Image::get_width`.
#[verifier::external_body]
pub(crate) fn image_get_width(img: &Image) -> (w: u32)
    ensures
        w == image_width(*img),
{
    img.get_width()
}

/// `Image::get_height`.
#[verifier::external_body]
pub(crate) fn image_get_height(img: &Image) -> (h: u32)
    ensures
        h == image_height(*img),
{
    img.get_height()
}

/// `Image::get_pixel`: reads one pixel. The position must lie inside the image;
/// the crate computes the pixel's number in 32 bits and indexes with it.
#[verifier::external_body]
pub(crate) fn image_get_pixel(img: &Image, x: u32, y: u32) -> (c: Color)
    requires
        image_indexable(*img),
        x < image_width(*img),
        y < image_height(*img),
    ensures
        (c.r, c.g, c.b) == image_pixel(*img, x, y),
{
    let p = img.get_pixel(x, y);
    Color { r: p.r, g: p.g, b: p.b }
}

/// `Image::new`: a black image of the given size. The crate computes the size
/// of the encoded file in 32 bits: a row takes at most four bytes per pixel and
/// the headers take 54 bytes.
#[verifier::external_body]
pub(crate) fn image_new(width: u32, height: u32) -> (img: Image)
    requires
        4 * width <= u32::MAX,
        4 * width * height + 54 <= u32::MAX,
    ensures
        image_width(img) == width,
        image_height(img) == height,
        forall|x: u32, y: u32|
            x < width && y < height ==> #[trigger] image_pixel(img, x, y) == (0u8, 0u8, 0u8),
{
    Image::new(width, height)
}

/// `Image::set_pixel`: overwrites one pixel and leaves the others and the size
/// as they were. The position must lie inside the image.
#[verifier::external_body]
pub(crate) fn image_set_pixel(img: &mut Image, x: u32, y: u32, c: Color)
    requires
        image_indexable(*old(img)),
        x < image_width(*old(img)),
        y < image_height(*old(img)),
    ensures
        image_width(*final(img)) == image_width(*old(img)),
        image_height(*final(img)) == image_height(*old(img)),
        image_pixel(*final(img), x, y) == (c.r, c.g, c.b),
        forall|x2: u32, y2: u32|
            x2 < image_width(*old(img)) && y2 < image_height(*old(img)) && (x2 != x || y2 != y)
                ==> #[trigger] image_pixel(*final(img), x2, y2) == image_pixel(*old(img), x2, y2),
{
    img.set_pixel(x, y, bmp::Pixel { r: c.r, g: c.g, b: c.b })
}

} // verus!
