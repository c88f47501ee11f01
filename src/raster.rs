//! The RGBA raster that decoding fills and encoding reads. It holds an
//! `image::RgbaImage` and is seen through its dimensions and its row-major
//! pixels.
use vstd::prelude::*;
use crate::colour::{Colour, transparent};
use image::RgbaImage;

verus! {

/// An RGBA image of 8-bit channels.
#[verifier::external_body]
pub struct Raster {
    img: RgbaImage,
}

/// The pixels of a raster, row by row: pixel `(x, y)` is at `y * width + x`.
pub uninterp spec fn pixels_of(r: Raster) -> Seq<Colour>;

/// The width of a raster, in pixels.
pub uninterp spec fn width_of(r: Raster) -> u32;

/// The height of a raster, in pixels.
pub uninterp spec fn height_of(r: Raster) -> u32;

/// The colour whose channels are the four bytes of `s` from `at` on.
pub open spec fn colour_at(s: Seq<u8>, at: int) -> Colour {
    Colour { r: s[at], g: s[at + 1], b: s[at + 2], a: s[at + 3] }
}

/// The pixel at `(x, y)` of a raster.
pub open spec fn pixel_at(r: Raster, x: int, y: int) -> Colour {
    pixels_of(r)[y * width_of(r) + x]
}

impl Raster {
    /// Relies on `ImageBuffer::new`: an image of the given size whose
    /// samples are all zero. It panics only where the sample count overflows
    /// `usize`.
    #[verifier::external_body]
    pub(crate) fn blank(width: u32, height: u32) -> (r: Raster)
        requires
            width as int * height as int * 4 <= usize::MAX,
        ensures
            width_of(r) == width,
            height_of(r) == height,
            pixels_of(r) == Seq::new((width * height) as nat, |k: int| transparent()),
    {
        Raster { img: RgbaImage::new(width, height) }
    }

    /// Relies on `ImageBuffer::from_raw`: a `width` x `height` image over
    /// the samples `buf`, four per pixel in row-major order, made exactly
    /// when `buf` holds at least that many samples.
    #[verifier::external_body]
    fn image_from_raw(width: u32, height: u32, buf: Vec<u8>) -> (r: Option<Raster>)
        ensures
            r.is_some() <==> 4 * width * height <= buf@.len(),
            r matches Some(img) ==> width_of(img) == width && height_of(img) == height
                && pixels_of(img) == Seq::new(
                (width * height) as nat,
                |k: int| colour_at(buf@, 4 * k),
            ),
    {
        RgbaImage::from_raw(width, height, buf).map(|img| Raster { img })
    }

    /// A `width` x `height` raster over the samples `buf`, four per pixel
    /// (red, green, blue, alpha) in row-major order; `None` where `buf` is
    /// too short. Samples past the last pixel are ignored.
    pub fn from_raw(width: u32, height: u32, buf: Vec<u8>) -> (r: Option<Raster>)
        ensures
            r is None <==> buf@.len() < 4 * width * height,
            r matches Some(img) ==> {
                &&& width_of(img) == width
                &&& height_of(img) == height
                &&& pixels_of(img).len() == width * height
                &&& forall|x: int, y: int|
                    0 <= x < width && 0 <= y < height ==> #[trigger] pixel_at(img, x, y) == colour_at(
                        buf@,
                        4 * (y * width + x),
                    )
            },
    {
        let r = Raster::image_from_raw(width, height, buf);
        proof {
            if r is Some {
                let img = r->Some_0;
                assert forall|x: int, y: int| 0 <= x < width && 0 <= y < height implies #[trigger] pixel_at(
                    img,
                    x,
                    y,
                ) == colour_at(buf@, 4 * (y * width + x)) by {
                    assert(y * width + x < width * height) by (nonlinear_arith)
                        requires
                            0 <= x < width,
                            0 <= y < height,
                    ;
                    assert(0 <= y * width + x) by (nonlinear_arith)
                        requires
                            0 <= x,
                            0 <= y,
                            0 <= width,
                    ;
                }
            }
        }
        r
    }

    /// Relies on `ImageBuffer::width`.
    #[verifier::external_body]
    pub(crate) fn width(&self) -> (r: u32)
        ensures
            r == width_of(*self),
    {
        self.img.width()
    }

    /// Relies on `ImageBuffer::height`.
    #[verifier::external_body]
    pub(crate) fn height(&self) -> (r: u32)
        ensures
            r == height_of(*self),
    {
        self.img.height()
    }

    /// Relies on `ImageBuffer::put_pixel`: it replaces the four samples of
    /// pixel `(x, y)`, at `(y * width + x) * 4`, and panics out of bounds.
    #[verifier::external_body]
    pub(crate) fn put_pixel(&mut self, x: u32, y: u32, c: Colour)
        requires
            x < width_of(*old(self)),
            y < height_of(*old(self)),
        ensures
            width_of(*final(self)) == width_of(*old(self)),
            height_of(*final(self)) == height_of(*old(self)),
            pixels_of(*final(self)) == pixels_of(*old(self)).update(y * width_of(*old(self)) + x, c),
    {
        self.img.put_pixel(x, y, image::Rgba([c.r, c.g, c.b, c.a]));
    }

    /// Relies on `ImageBuffer::get_pixel`: the four samples of pixel
    /// `(x, y)`, at `(y * width + x) * 4`; it panics out of bounds.
    #[verifier::external_body]
    pub(crate) fn get_pixel(&self, x: u32, y: u32) -> (r: Colour)
        requires
            x < width_of(*self),
            y < height_of(*self),
        ensures
            r == pixel_at(*self, x as int, y as int),
    {
        let p = self.img.get_pixel(x, y);
        Colour { r: p.0[0], g: p.0[1], b: p.0[2], a: p.0[3] }
    }

    /// The width and height, in pixels.
    pub fn dimensions(&self) -> (r: (u32, u32))
        ensures
            r.0 == width_of(*self),
            r.1 == height_of(*self),
    {
        (self.width(), self.height())
    }

    /// The pixel at `(x, y)`, or `None` outside the raster.
    pub fn pixel(&self, x: u32, y: u32) -> (r: Option<Colour>)
        ensures
            r == (if x < width_of(*self) && y < height_of(*self) {
                Some(pixel_at(*self, x as int, y as int))
            } else {
                None
            }),
    {
        if x < self.width() && y < self.height() {
            Some(self.get_pixel(x, y))
        } else {
            None
        }
    }
}

} // verus!
