use vstd::prelude::*;

verus! {

/// A decoded RGB raster: `width * height` pixels in row-major order,
/// three channel bytes per pixel.
pub struct Img {
    pub width: u32,
    pub height: u32,
    pub pixels: Vec<u8>,
}

impl Img {
    /// The buffer holds exactly three bytes for every pixel.
    pub open spec fn wf(&self) -> bool {
        self.pixels@.len() == 3 * (self.width as int) * (self.height as int)
    }
}

/// What `image::DynamicImage::thumbnail` produces from a raw RGB buffer
/// within the requested bounds: the width and height it settles on, and
/// the resampled pixel bytes. The output is a function of the arguments
/// alone.
pub uninterp spec fn thumb_result(
    pixels: Seq<u8>,
    w: int,
    h: int,
    nw: int,
    nh: int,
) -> (int, int, Seq<u8>);

/// Relies on image::RgbImage::from_raw (Some for a buffer of exactly
/// 3*w*h bytes), image::DynamicImage::thumbnail (aspect-preserving resize
/// toward the requested bounds; both produced dimensions are at least 1),
/// and ImageBuffer::into_raw (the raw buffer has 3 bytes per pixel).
#[verifier::external_body]
fn thumbnail_rgb(width: u32, height: u32, pixels: &Vec<u8>, nwidth: u32, nheight: u32) -> (r: (
    u32,
    u32,
    Vec<u8>,
))
    requires
        pixels@.len() == 3 * (width as int) * (height as int),
        width >= 1,
        height >= 1,
    ensures
        r.0 as int == thumb_result(
            pixels@,
            width as int,
            height as int,
            nwidth as int,
            nheight as int,
        ).0,
        r.1 as int == thumb_result(
            pixels@,
            width as int,
            height as int,
            nwidth as int,
            nheight as int,
        ).1,
        r.2@ == thumb_result(
            pixels@,
            width as int,
            height as int,
            nwidth as int,
            nheight as int,
        ).2,
        r.0 >= 1,
        r.1 >= 1,
        r.2@.len() == 3 * (r.0 as int) * (r.1 as int),
{
    let buf = image::RgbImage::from_raw(width, height, pixels.clone()).unwrap();
    let out = image::DynamicImage::ImageRgb8(buf).thumbnail(nwidth, nheight).into_rgb8();
    let (w, h) = (out.width(), out.height());
    (w, h, out.into_raw())
}

/// The width the resizer hands to the scaler's bounds for a given target
/// width: the height bound keeps the aspect ratio, by integer division.
pub open spec fn scaled_height(w: int, h: int, nw: int) -> int {
    (nw * h) / w
}

/// Downscales an image toward a target character width, preserving the
/// aspect ratio. The produced raster is the scaler's output for the bounds
/// `new_width` by `new_width * height / width`; both produced dimensions
/// are at least 1 and the buffer is well formed.
pub fn resize_img(img: &Img, new_width: u32) -> (r: Img)
    requires
        img.wf(),
        img.width >= 1,
        img.height >= 1,
        new_width >= 1,
        (new_width as int) * (img.height as int) <= u32::MAX as int,
    ensures
        ({
            let t = thumb_result(
                img.pixels@,
                img.width as int,
                img.height as int,
                new_width as int,
                scaled_height(img.width as int, img.height as int, new_width as int),
            );
            r.width as int == t.0 && r.height as int == t.1 && r.pixels@ == t.2
        }),
        r.wf(),
        r.width >= 1,
        r.height >= 1,
{
    let nheight: u32 = (new_width * img.height) / img.width;
    let (w, h, pixels) = thumbnail_rgb(img.width, img.height, &img.pixels, new_width, nheight);
    Img { width: w, height: h, pixels }
}

} // verus!
