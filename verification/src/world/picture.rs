//! Pictures of the `image` crate, four channels a pixel.

use image::GenericImage;
use vstd::prelude::*;

verus! {

/// A pixel: red, green, blue and alpha.
pub type Pixel = (u8, u8, u8, u8);

/// An `image::RgbaImage`.
#[verifier::external_body]
pub struct Picture {
    image: image::RgbaImage,
}

/// The error of the `image` crate.
#[verifier::external_type_specification]
#[verifier::external_body]
pub struct ExImageError(image::ImageError);

/// The pixels of a picture, by column and row.
pub uninterp spec fn pixels_of(picture: Picture) -> Map<(int, int), (u8, u8, u8, u8)>;

/// The columns and rows of a picture.
pub uninterp spec fn size_of(picture: Picture) -> (int, int);

/// What `Rgba::blend` makes of a pixel under another one.
pub uninterp spec fn blended(under: (u8, u8, u8, u8), over: (u8, u8, u8, u8)) -> (u8, u8, u8, u8);

/// Whether a picture has a pixel.
pub open spec fn has_pixel(picture: Picture, x: int, y: int) -> bool {
    0 <= x < size_of(picture).0 && 0 <= y < size_of(picture).1
}

impl Picture {
    /// `RgbaImage::new`: a picture of the given size, all zero. It panics where the
    /// bytes of a row, or those of all rows, are too many to count.
    #[verifier::external_body]
    pub(crate) fn new(width: u32, height: u32) -> (r: Picture)
        requires
            4 * width <= usize::MAX,
            4 * width * height <= isize::MAX,
        ensures
            size_of(r) == (width as int, height as int),
            forall|x: int, y: int| #[trigger]
                has_pixel(r, x, y) ==> pixels_of(r)[(x, y)] == (0u8, 0u8, 0u8, 0u8),
    {
        Picture { image: image::RgbaImage::new(width, height) }
    }

    /// `RgbaImage::from_raw`: a picture over bytes, row by row and four bytes to a
    /// pixel, if there are enough of them and the bytes of a row can be counted.
    #[verifier::external_body]
    pub(crate) fn from_raw(width: u32, height: u32, data: Vec<u8>) -> (r: Option<Picture>)
        ensures
            r is Some <==> (4 * width <= usize::MAX && 4 * width * height <= data@.len()),
            r is Some ==> size_of(r->0) == (width as int, height as int),
            r is Some ==> forall|x: int, y: int| #[trigger]
                has_pixel(r->0, x, y) ==> pixels_of(r->0)[(x, y)] == pixel_in(
                    data@,
                    width as int,
                    x,
                    y,
                ),
    {
        match image::RgbaImage::from_raw(width, height, data) {
            Some(image) => Some(Picture { image }),
            None => None,
        }
    }

    /// `RgbaImage::as_raw`, copied: the bytes of a picture, row by row and four to a
    /// pixel.
    #[verifier::external_body]
    pub(crate) fn to_raw(&self) -> (r: Vec<u8>)
        ensures
            r@.len() >= 4 * size_of(*self).0 * size_of(*self).1,
            forall|x: int, y: int| #[trigger]
                has_pixel(*self, x, y) ==> pixel_in(r@, size_of(*self).0, x, y) == pixels_of(
                    *self,
                )[(x, y)],
    {
        self.image.as_raw().clone()
    }

    /// `RgbaImage::get_pixel`, which panics outside the picture.
    #[verifier::external_body]
    pub(crate) fn get(&self, x: u32, y: u32) -> (r: Pixel)
        requires
            has_pixel(*self, x as int, y as int),
        ensures
            r == pixels_of(*self)[(x as int, y as int)],
    {
        let p = self.image.get_pixel(x, y).0;
        (p[0], p[1], p[2], p[3])
    }

    /// `RgbaImage::put_pixel`, which panics outside the picture: changes one pixel.
    #[verifier::external_body]
    pub(crate) fn put(&mut self, x: u32, y: u32, p: Pixel)
        requires
            has_pixel(*old(self), x as int, y as int),
        ensures
            size_of(*final(self)) == size_of(*old(self)),
            pixels_of(*final(self)) == pixels_of(*old(self)).insert((x as int, y as int), p),
    {
        self.image.put_pixel(x, y, image::Rgba([p.0, p.1, p.2, p.3]));
    }

    /// `GenericImage::copy_from`: copies a picture to a place of this one. It is an
    /// error, and changes nothing, if it does not fit there.
    #[verifier::external_body]
    pub(crate) fn copy_from(&mut self, other: &Picture, x: u32, y: u32) -> (r: Result<
        (),
        image::ImageError,
    >)
        ensures
            r is Ok <==> x + size_of(*other).0 <= size_of(*old(self)).0 && y + size_of(*other).1
                <= size_of(*old(self)).1,
            size_of(*final(self)) == size_of(*old(self)),
            r is Err ==> pixels_of(*final(self)) == pixels_of(*old(self)),
            r is Ok ==> forall|a: int, b: int|
                has_pixel(*old(self), a, b) ==> #[trigger] pixels_of(*final(self))[(a, b)]
                    == if has_pixel(*other, a - x, b - y) {
                    pixels_of(*other)[(a - x, b - y)]
                } else {
                    pixels_of(*old(self))[(a, b)]
                },
    {
        self.image.copy_from(&other.image, x, y)
    }

    /// `imageops::resize` with the Lanczos filter: the picture at a smaller size, or a copy
    /// of it at its own size. Which pixels a smaller picture has is left unsaid: the filter
    /// takes sines of floats, whose last bits differ from machine to machine.
    #[verifier::external_body]
    pub(crate) fn resize(&self, width: u32, height: u32) -> (r: Picture)
        requires
            1 <= width <= size_of(*self).0 <= 0x1_0000,
            1 <= height <= size_of(*self).1 <= 0x1_0000,
            16 * size_of(*self).0 * size_of(*self).1 <= isize::MAX,
        ensures
            size_of(r) == (width as int, height as int),
            forall|x: int, y: int|
                size_of(r) == size_of(*self) && has_pixel(*self, x, y) ==> #[trigger] pixels_of(r)[(
                    x,
                    y,
                )] == pixels_of(*self)[(x, y)],
    {
        let filter = image::imageops::FilterType::Lanczos3;
        Picture { image: image::imageops::resize(&self.image, width, height, filter) }
    }

    /// `imageops::overlay` at the corner of the picture: blends another picture over
    /// this one, pixel by pixel, as far as both have one.
    #[verifier::external_body]
    pub(crate) fn overlay(&mut self, over: &Picture)
        ensures
            size_of(*final(self)) == size_of(*old(self)),
            forall|x: int, y: int|
                has_pixel(*old(self), x, y) ==> #[trigger] pixels_of(*final(self))[(x, y)]
                    == if has_pixel(*over, x, y) {
                    blended(pixels_of(*old(self))[(x, y)], pixels_of(*over)[(x, y)])
                } else {
                    pixels_of(*old(self))[(x, y)]
                },
    {
        image::imageops::overlay(&mut self.image, &over.image, 0, 0);
    }
}

/// The pixel of a place among the bytes of a picture.
pub open spec fn pixel_in(data: Seq<u8>, width: int, x: int, y: int) -> (u8, u8, u8, u8) {
    let i = 4 * (y * width + x);
    (data[i], data[i + 1], data[i + 2], data[i + 3])
}

} // verus!
