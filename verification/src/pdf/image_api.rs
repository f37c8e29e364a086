//! The calls this library makes into `image` to re-encode pixels as JPEG.
use image::codecs::jpeg::JpegEncoder;
use image::{DynamicImage, GrayImage, RgbImage};
use vstd::prelude::*;

verus! {

/// The JPEG bytes that `JpegEncoder::new_with_quality(_, quality)` writes for
/// the image that `image::load_from_memory(data)` decodes; `None` when
/// `data` decodes to no image.
pub uninterp spec fn jpeg_from_encoded(data: Seq<u8>, quality: u8) -> Option<Seq<u8>>;

/// The JPEG bytes that `JpegEncoder::new_with_quality(_, quality)` writes for
/// the 8-bit grey image of the given size whose samples start `raw`.
pub uninterp spec fn jpeg_from_gray(width: u32, height: u32, raw: Seq<u8>, quality: u8) -> Seq<u8>;

/// The JPEG bytes that `JpegEncoder::new_with_quality(_, quality)` writes for
/// the 8-bit RGB image of the given size whose samples start `raw`.
pub uninterp spec fn jpeg_from_rgb(width: u32, height: u32, raw: Seq<u8>, quality: u8) -> Seq<u8>;

/// The view of an optional byte vector.
pub open spec fn opt_bytes(b: Option<Vec<u8>>) -> Option<Seq<u8>> {
    match b {
        Some(v) => Some(v@),
        None => None,
    }
}

/// `image::load_from_memory` followed by `JpegEncoder::encode_image` into a
/// fresh buffer; an encoding error leaves in the buffer what was written
/// before it.
#[verifier::external_body]
pub(crate) fn reencode_as_jpeg(data: &[u8], quality: u8) -> (r: Option<Vec<u8>>)
    ensures
        opt_bytes(r) == jpeg_from_encoded(data@, quality),
{
    let img = image::load_from_memory(data).ok()?;
    let mut buf: Vec<u8> = Vec::new();
    let _ = JpegEncoder::new_with_quality(std::io::Cursor::new(&mut buf), quality).encode_image(&img);
    Some(buf)
}

/// `GrayImage::from_raw`, which takes a buffer of at least `width * height`
/// samples, followed by `JpegEncoder::encode_image` into a fresh buffer.
#[verifier::external_body]
pub(crate) fn gray_as_jpeg(width: u32, height: u32, raw: Vec<u8>, quality: u8) -> (r: Option<Vec<u8>>)
    ensures
        r is Some <==> width * height <= raw@.len(),
        r is Some ==> r.unwrap()@ == jpeg_from_gray(width, height, raw@, quality),
{
    let img = DynamicImage::ImageLuma8(GrayImage::from_raw(width, height, raw)?);
    let mut buf: Vec<u8> = Vec::new();
    let _ = JpegEncoder::new_with_quality(std::io::Cursor::new(&mut buf), quality).encode_image(&img);
    Some(buf)
}

/// `RgbImage::from_raw`, which takes a buffer of at least
/// `3 * width * height` samples, followed by `JpegEncoder::encode_image` into
/// a fresh buffer.
#[verifier::external_body]
pub(crate) fn rgb_as_jpeg(width: u32, height: u32, raw: Vec<u8>, quality: u8) -> (r: Option<Vec<u8>>)
    ensures
        r is Some <==> 3 * width * height <= raw@.len(),
        r is Some ==> r.unwrap()@ == jpeg_from_rgb(width, height, raw@, quality),
{
    let img = DynamicImage::ImageRgb8(RgbImage::from_raw(width, height, raw)?);
    let mut buf: Vec<u8> = Vec::new();
    let _ = JpegEncoder::new_with_quality(std::io::Cursor::new(&mut buf), quality).encode_image(&img);
    Some(buf)
}

/// A decoded picture: its size, whether it has an alpha channel, and its
/// samples as 8-bit RGBA, row after row.
pub struct RgbaImage {
    pub width: u32,
    pub height: u32,
    pub has_alpha: bool,
    pub samples: Vec<u8>,
}

/// What `ImageReader` decodes from `data`, its format guessed from the data
/// and else taken from the file extension `extension`: the size, whether the
/// colour type has alpha, and the `to_rgba8` samples; `None` when it decodes
/// to no image.
pub uninterp spec fn decoded_rgba(data: Seq<u8>, extension: Seq<char>) -> Option<
    (u32, u32, bool, Seq<u8>),
>;

/// The view of an optional decoded picture.
pub open spec fn rgba_view(r: Option<RgbaImage>) -> Option<(u32, u32, bool, Seq<u8>)> {
    match r {
        Some(x) => Some((x.width, x.height, x.has_alpha, x.samples@)),
        None => None,
    }
}

/// `ImageReader::with_guessed_format` and `decode` on `data` (the format set
/// first from `ImageFormat::from_extension(extension)`), then
/// `DynamicImage::to_rgba8`, which holds 4 samples per pixel.
#[verifier::external_body]
pub(crate) fn decode_rgba(data: &[u8], extension: &str) -> (r: Option<RgbaImage>)
    ensures
        rgba_view(r) == decoded_rgba(data@, extension@),
        r matches Some(x) ==> x.samples@.len() == 4 * x.width * x.height,
{
    let mut reader = image::ImageReader::new(std::io::Cursor::new(data));
    if let Some(format) = image::ImageFormat::from_extension(extension) {
        reader.set_format(format);
    }
    let img = reader.with_guessed_format().ok()?.decode().ok()?;
    let has_alpha = img.color().has_alpha();
    Some(RgbaImage { width: img.width(), height: img.height(), has_alpha, samples: img.to_rgba8().into_raw() })
}

} // verus!
