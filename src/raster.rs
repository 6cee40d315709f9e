//! The raster surface on which the maze is painted, backed by `image`.

use vstd::prelude::*;

verus! {

/// An 8-bit RGB color.
#[derive(Clone, Copy, PartialEq, Eq, Structural, Debug)]
pub struct Color {
    pub r: u8,
    pub g: u8,
    pub b: u8,
}

/// An RGB pixel buffer of fixed dimensions.
#[verifier::external_body]
pub struct Raster {
    img: image::RgbImage,
}

/// The pixels of a raster, keyed by `(x, y)`.
pub uninterp spec fn raster_pixels(r: Raster) -> Map<(int, int), Color>;

/// The set of pixel positions of a `width` by `height` surface.
pub open spec fn pixel_domain(width: int, height: int) -> Set<(int, int)> {
    Set::new(|p: (int, int)| 0 <= p.0 < width && 0 <= p.1 < height)
}

/// The color that a freshly allocated surface holds everywhere.
pub open spec fn blank() -> Color {
    Color { r: 0, g: 0, b: 0 }
}

/// Relies on `ImageBuffer::new`: a `width` by `height` buffer whose channels are all
/// zero; it panics when the byte length overflows, which `requires` leaves out.
#[verifier::external_body]
pub(crate) fn raster_new(width: u32, height: u32) -> (r: Raster)
    requires
        3 * (width as int) * (height as int) <= isize::MAX,
    ensures
        raster_pixels(r).dom() == pixel_domain(width as int, height as int),
        forall|p: (int, int)| #[trigger]
            raster_pixels(r).contains_key(p) ==> raster_pixels(r)[p] == blank(),
{
    Raster { img: image::RgbImage::new(width, height) }
}

/// Relies on `ImageBuffer::get_pixel`: the pixel at `(x, y)`; it panics out of bounds.
#[verifier::external_body]
pub(crate) fn raster_get(r: &Raster, x: u32, y: u32) -> (c: Color)
    requires
        raster_pixels(*r).contains_key((x as int, y as int)),
    ensures
        c == raster_pixels(*r)[(x as int, y as int)],
{
    let p = r.img.get_pixel(x, y);
    Color { r: p.0[0], g: p.0[1], b: p.0[2] }
}

/// Relies on `ImageBuffer::put_pixel`: sets the pixel at `(x, y)`; it panics out of
/// bounds.
#[verifier::external_body]
pub(crate) fn raster_put(r: &mut Raster, x: u32, y: u32, c: Color)
    requires
        raster_pixels(*old(r)).contains_key((x as int, y as int)),
    ensures
        raster_pixels(*final(r)) == raster_pixels(*old(r)).insert((x as int, y as int), c),
{
    r.img.put_pixel(x, y, image::Rgb([c.r, c.g, c.b]));
}

} // verus!
