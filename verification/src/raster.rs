//! Images as bytes, and what the `image` crate does with them.
use vstd::prelude::*;
use crate::float;

verus! {

/// An image of red, green, blue and alpha bytes, row after row.
#[derive(Debug, PartialEq, Eq)]
pub struct RgbaImage {
    pub width: u32,
    pub height: u32,
    pub data: Vec<u8>,
}

/// An image of red, green and blue bytes, row after row.
#[derive(Debug, PartialEq, Eq)]
pub struct RgbImage {
    pub width: u32,
    pub height: u32,
    pub data: Vec<u8>,
}

impl RgbaImage {
    /// There are four bytes for each pixel.
    pub open spec fn valid(self) -> bool {
        self.data@.len() == self.width * self.height * 4
    }

    /// The image has pixels.
    pub open spec fn full(self) -> bool {
        self.width > 0 && self.height > 0
    }

    /// A byte of a pixel: red, green, blue or alpha.
    pub open spec fn byte(self, x: int, y: int, channel: int) -> u8 {
        self.data@[(y * self.width + x) * 4 + channel]
    }

    /// A byte of a pixel: red, green, blue or alpha.
    pub fn get(&self, x: u32, y: u32, channel: usize) -> (r: u8)
        requires
            self.valid(),
            x < self.width,
            y < self.height,
            channel < 4,
        ensures
            r == self.byte(x as int, y as int, channel as int),
    {
        let size: usize = self.data.len();
        proof {
            lemma_index(self.width as int, self.height as int, 4, x as int, y as int, channel as int);
        }
        self.data[(y as usize * self.width as usize + x as usize) * 4 + channel]
    }
}

impl RgbImage {
    /// There are three bytes for each pixel.
    pub open spec fn valid(self) -> bool {
        self.data@.len() == self.width * self.height * 3
    }

    /// A byte of a pixel: red, green or blue.
    pub open spec fn byte(self, x: int, y: int, channel: int) -> u8 {
        self.data@[(y * self.width + x) * 3 + channel]
    }

    /// A byte of a pixel: red, green or blue.
    pub fn get(&self, x: u32, y: u32, channel: usize) -> (r: u8)
        requires
            self.valid(),
            x < self.width,
            y < self.height,
            channel < 3,
        ensures
            r == self.byte(x as int, y as int, channel as int),
    {
        let size: usize = self.data.len();
        proof {
            lemma_index(self.width as int, self.height as int, 3, x as int, y as int, channel as int);
        }
        self.data[(y as usize * self.width as usize + x as usize) * 3 + channel]
    }
}

/// A pixel's byte lies in the image.
pub proof fn lemma_index(width: int, height: int, channels: int, x: int, y: int, c: int)
    requires
        0 <= x < width,
        0 <= y < height,
        0 <= c < channels,
    ensures
        0 <= y * width,
        0 <= y * width + x < width * height,
        0 <= (y * width + x) * channels,
        0 <= (y * width + x) * channels + c < width * height * channels,
{
    assert(0 <= y * width && y * width + x < width * height) by (nonlinear_arith)
        requires
            0 <= x < width,
            0 <= y < height,
    ;
    let i = y * width + x;
    let n = width * height;
    assert(0 <= i * channels && i * channels + c < n * channels) by (nonlinear_arith)
        requires
            0 <= i < n,
            0 <= c < channels,
    ;
}

pub open spec fn smaller(a: int, b: int) -> int {
    if a < b {
        a
    } else {
        b
    }
}

/// The part of an image that starts at `x`, `y` and has at most this size, as
/// far as the image reaches.
///
/// Stands for `image::imageops::crop_imm` and `SubImage::to_image`: the corner
/// is brought into the image, the size is cut to what is left from there, and
/// the pixels are copied.
#[verifier::external_body]
pub(crate) fn crop_rgba(img: &RgbaImage, x: u32, y: u32, width: u32, height: u32) -> (r: RgbaImage)
    requires
        img.valid(),
    ensures
        r.valid(),
        r.width == smaller(width as int, img.width - smaller(x as int, img.width as int)),
        r.height == smaller(height as int, img.height - smaller(y as int, img.height as int)),
        forall|i: int, j: int, c: int|
            0 <= i < r.width && 0 <= j < r.height && 0 <= c < 4 ==> #[trigger] r.byte(i, j, c)
                == img.byte(x + i, y + j, c),
{
    let source = image::RgbaImage::from_raw(img.width, img.height, img.data.clone()).unwrap();
    let part = image::imageops::crop_imm(&source, x, y, width, height).to_image();
    RgbaImage { width: part.width(), height: part.height(), data: part.into_raw() }
}

/// The part of an image that starts at `x`, `y` and has at most this size, as
/// far as the image reaches.
///
/// Stands for `image::imageops::crop_imm` and `SubImage::to_image`, on three
/// channels.
#[verifier::external_body]
pub(crate) fn crop_rgb(img: &RgbImage, x: u32, y: u32, width: u32, height: u32) -> (r: RgbImage)
    requires
        img.valid(),
    ensures
        r.valid(),
        r.width == smaller(width as int, img.width - smaller(x as int, img.width as int)),
        r.height == smaller(height as int, img.height - smaller(y as int, img.height as int)),
        forall|i: int, j: int, c: int|
            0 <= i < r.width && 0 <= j < r.height && 0 <= c < 3 ==> #[trigger] r.byte(i, j, c)
                == img.byte(x + i, y + j, c),
{
    let source = image::RgbImage::from_raw(img.width, img.height, img.data.clone()).unwrap();
    let part = image::imageops::crop_imm(&source, x, y, width, height).to_image();
    RgbImage { width: part.width(), height: part.height(), data: part.into_raw() }
}

/// The image without its alpha bytes.
///
/// Stands for `image::DynamicImage::to_rgb8`, which copies the first three
/// bytes of each pixel.
#[verifier::external_body]
pub(crate) fn drop_alpha(img: &RgbaImage) -> (r: RgbImage)
    requires
        img.valid(),
    ensures
        r.valid(),
        r.width == img.width,
        r.height == img.height,
        forall|x: int, y: int, c: int|
            0 <= x < r.width && 0 <= y < r.height && 0 <= c < 3 ==> #[trigger] r.byte(x, y, c)
                == img.byte(x, y, c),
{
    let source = image::RgbaImage::from_raw(img.width, img.height, img.data.clone()).unwrap();
    let plain = image::DynamicImage::ImageRgba8(source).to_rgb8();
    RgbImage { width: plain.width(), height: plain.height(), data: plain.into_raw() }
}

/// A sampling filter.
#[derive(Clone, Copy)]
pub enum Filter {
    Nearest,
    Lanczos3,
}

/// The pixel of `old` in a row that the nearest-pixel filter takes for pixel
/// `out` of `new`: the one that holds its centre, in 32-bit arithmetic.
pub open spec fn nearest_source(out: int, new: u32, old: u32) -> int {
    let f = float::single_format();
    let step = float::quotient(f, float::natural(f, old as nat), float::natural(f, new as nat));
    let centre = float::sum(f, float::natural(f, out as nat), float::ratio(f, 1, 2));
    smaller(float::floor_u32(f, float::product(f, centre, step)) as int, old - 1)
}

/// Where the shorter of an old and a new side is no longer than this, rounding
/// in 32-bit arithmetic moves no pixel by as much as one.
pub const FINE_SIDE: u32 = 0x10_0000;

/// `made` is what the Lanczos filter of the `image` crate, on one machine or
/// another, makes of the bytes of an image of `width` by `height` pixels, of
/// four channels, at `new_width` by `new_height`.
pub uninterp spec fn lanczos_makes(
    data: Seq<u8>,
    width: u32,
    height: u32,
    new_width: u32,
    new_height: u32,
    made: Seq<u8>,
) -> bool;

/// The image at another size.
///
/// Stands for `image::imageops::resize`. At the size that the image has
/// already it is copied. The nearest-pixel filter takes one pixel of the image
/// for each of the result. What the Lanczos filter makes of the pixels rests on
/// the sine of the machine: that it is made by that filter, of these bytes and
/// sizes, has a name, and the bytes are left unsaid.
#[verifier::external_body]
pub(crate) fn resize_rgba(img: &RgbaImage, width: u32, height: u32, filter: Filter) -> (r: RgbaImage)
    requires
        img.valid(),
        img.full(),
        img.width * height * 16 <= isize::MAX,
        width * height * 4 <= isize::MAX,
        filter is Lanczos3 ==> img.width <= FINE_SIDE || width <= FINE_SIDE,
        filter is Lanczos3 ==> img.height <= FINE_SIDE || height <= FINE_SIDE,
    ensures
        r.valid(),
        r.width == width,
        r.height == height,
        width == img.width && height == img.height ==> r.data@ == img.data@,
        filter is Lanczos3 ==> lanczos_makes(
            img.data@,
            img.width,
            img.height,
            width,
            height,
            r.data@,
        ),
        filter is Nearest && !(width == img.width && height == img.height) ==> forall|
            x: int,
            y: int,
            c: int,
        |
            0 <= x < width && 0 <= y < height && 0 <= c < 4 ==> #[trigger] r.byte(x, y, c)
                == img.byte(
                nearest_source(x, width, img.width),
                nearest_source(y, height, img.height),
                c,
            ),
{
    let source = image::RgbaImage::from_raw(img.width, img.height, img.data.clone()).unwrap();
    let kind = match filter {
        Filter::Nearest => image::imageops::FilterType::Nearest,
        Filter::Lanczos3 => image::imageops::FilterType::Lanczos3,
    };
    let sized = image::imageops::resize(&source, width, height, kind);
    RgbaImage { width: sized.width(), height: sized.height(), data: sized.into_raw() }
}

/// The bytes of an image of `width` by `height` pixels, of three channels, at
/// `new_width` by `new_height`, by the triangle filter of the `image` crate.
pub uninterp spec fn triangle_resized(
    data: Seq<u8>,
    width: u32,
    height: u32,
    new_width: u32,
    new_height: u32,
) -> Seq<u8>;

/// The image at another size.
///
/// Stands for `image::imageops::resize` with the triangle filter, on three
/// channels. At the size that the image has already it is copied; what the
/// filter makes of the pixels otherwise has a name.
#[verifier::external_body]
pub(crate) fn resize_rgb(img: &RgbImage, width: u32, height: u32) -> (r: RgbImage)
    requires
        img.valid(),
        img.width > 0,
        img.height > 0,
        width <= 0x1_0000,
        height <= 0x1_0000,
        img.width * height * 16 <= isize::MAX,
        width * height * 4 <= isize::MAX,
    ensures
        r.valid(),
        r.width == width,
        r.height == height,
        r.data@ == triangle_resized(img.data@, img.width, img.height, width, height),
        width == img.width && height == img.height ==> r.data@ == img.data@,
{
    let source = image::RgbImage::from_raw(img.width, img.height, img.data.clone()).unwrap();
    let kind = image::imageops::FilterType::Triangle;
    let sized = image::imageops::resize(&source, width, height, kind);
    RgbImage { width: sized.width(), height: sized.height(), data: sized.into_raw() }
}

/// The JPEG file that the `image` crate makes of the bytes of an image of
/// `width` by `height` pixels, of three channels, at this quality.
pub uninterp spec fn jpeg_file(data: Seq<u8>, width: u32, height: u32, quality: u8) -> Seq<u8>;

/// The image as a JPEG file.
///
/// Stands for `image::codecs::jpeg::JpegEncoder::encode_image`, writing to
/// memory. It fails where a side does not fit in 16 bits, and only there.
#[verifier::external_body]
pub(crate) fn encode_jpeg(img: &RgbImage, quality: u8) -> (r: Result<Vec<u8>, String>)
    requires
        img.valid(),
    ensures
        match r {
            Ok(file) => {
                &&& img.width <= 0xffff && img.height <= 0xffff
                &&& file@ == jpeg_file(img.data@, img.width, img.height, quality)
            },
            Err(e) => {
                &&& img.width > 0xffff || img.height > 0xffff
                &&& e@ == "The Image's dimensions are either too small or too large"@
            },
        },
{
    let source = image::RgbImage::from_raw(img.width, img.height, img.data.clone()).unwrap();
    let mut file: Vec<u8> = Vec::new();
    let mut encoder = image::codecs::jpeg::JpegEncoder::new_with_quality(&mut file, quality);
    match encoder.encode_image(&source) {
        Ok(()) => Ok(file),
        Err(e) => Err(e.to_string()),
    }
}

/// The bytes of an image stand row after row, each row from left to right, the
/// channels of a pixel side by side.
pub proof fn bytes_stand_row_after_row(img: RgbaImage, plain: RgbImage, x: int, y: int, c: int)
    ensures
        img.byte(x, y, c) == img.data@[(y * img.width + x) * 4 + c],
        plain.byte(x, y, c) == plain.data@[(y * plain.width + x) * 3 + c],
{
}

} // verus!
