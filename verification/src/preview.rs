//! The facts and thumbnail shown for a loaded image.
use vstd::prelude::*;

use base64::Engine;

use crate::export::bitmap::{encode_png, png_rgba8};
use crate::pipeline::{pixel_bytes, rgba_bytes};
use crate::types::{ImageInfo, RawImage};

verus! {

/// The RGBA pixels and size of the thumbnail that the `image` crate makes of
/// an 8-bit RGBA picture to fit within `max_w x max_h`, keeping its proportions.
pub uninterp spec fn thumbnail_rgba8(rgba: Seq<u8>, width: u32, height: u32, max_w: u32, max_h: u32) -> (
    Seq<u8>,
    u32,
    u32,
);

/// The character of a six-bit value in the standard base64 alphabet.
pub open spec fn base64_digit(v: int) -> char {
    if v < 26 {
        (65 + v) as char
    } else if v < 52 {
        (97 + v - 26) as char
    } else if v < 62 {
        (48 + v - 52) as char
    } else if v == 62 {
        '+'
    } else {
        '/'
    }
}

/// The standard base64 text of some bytes: every three bytes become four
/// characters of six bits each, and a last group of one or two bytes is
/// padded with `=` to four characters.
pub open spec fn base64_standard(bytes: Seq<u8>) -> Seq<char>
    decreases bytes.len(),
{
    if bytes.len() == 0 {
        Seq::empty()
    } else if bytes.len() == 1 {
        let b0 = bytes[0] as int;
        seq![base64_digit(b0 / 4), base64_digit((b0 % 4) * 16), '=', '=']
    } else if bytes.len() == 2 {
        let b0 = bytes[0] as int;
        let b1 = bytes[1] as int;
        seq![base64_digit(b0 / 4), base64_digit((b0 % 4) * 16 + b1 / 16), base64_digit((b1 % 16) * 4), '=']
    } else {
        let b0 = bytes[0] as int;
        let b1 = bytes[1] as int;
        let b2 = bytes[2] as int;
        seq![
            base64_digit(b0 / 4),
            base64_digit((b0 % 4) * 16 + b1 / 16),
            base64_digit((b1 % 16) * 4 + b2 / 64),
            base64_digit(b2 % 64),
        ] + base64_standard(bytes.subrange(3, bytes.len() as int))
    }
}

/// A thumbnail of an RGBA picture that fits within `max_w x max_h`.
///
/// Builds an `image::RgbaImage` from the buffer and calls
/// `image::DynamicImage::thumbnail`, which keeps the proportions. The result
/// is named by `thumbnail_rgba8`; its buffer holds four bytes per pixel of
/// the size it reports.
#[verifier::external_body]
fn make_thumbnail(rgba: Vec<u8>, width: u32, height: u32, max_w: u32, max_h: u32) -> (t: (Vec<u8>, u32, u32))
    requires
        rgba@.len() == width * height * 4,
    ensures
        (t.0@, t.1, t.2) == thumbnail_rgba8(rgba@, width, height, max_w, max_h),
        t.0@.len() == t.1 * t.2 * 4,
{
    let image = image::DynamicImage::ImageRgba8(image::RgbaImage::from_raw(width, height, rgba).unwrap());
    let thumb = image.thumbnail(max_w, max_h).into_rgba8();
    let (w, h) = thumb.dimensions();
    (thumb.into_raw(), w, h)
}

/// The standard base64 text of some bytes.
///
/// Calls `base64::engine::general_purpose::STANDARD.encode`, which writes the
/// standard alphabet with `=` padding, as `base64_standard` states.
#[verifier::external_body]
fn encode_base64(bytes: &[u8]) -> (s: String)
    ensures
        s@ == base64_standard(bytes@),
{
    base64::engine::general_purpose::STANDARD.encode(bytes)
}

/// The pixels and size of the preview of a `width x height` picture: a
/// thumbnail within 200 x 200 when it is wider than 200 pixels, else the
/// picture itself.
pub open spec fn preview_of(rgba: Seq<u8>, width: u32, height: u32) -> (Seq<u8>, u32, u32) {
    if width > 200 {
        thumbnail_rgba8(rgba, width, height, 200, 200)
    } else {
        (rgba, width, height)
    }
}

/// Describe a decoded image of `file_size_bytes` bytes on disk, with a PNG
/// thumbnail in base64.
///
/// The picture is read from the first `width * height` pixels; with fewer
/// pixels than that the image is refused.
pub fn build_image_info(raw: &RawImage, file_size_bytes: u64) -> (r: Result<ImageInfo, String>)
    requires
        raw.pixels@.len() * 4 <= usize::MAX,
    ensures
        ({
            let n = raw.width * raw.height * 4;
            let bytes = pixel_bytes(raw.pixels@);
            if bytes.len() < n {
                r matches Err(m) && m@ == "Failed to create image buffer"@
            } else {
                let p = preview_of(bytes.take(n as int), raw.width, raw.height);
                match png_rgba8(p.0, p.1, p.2) {
                    Ok(png) => r matches Ok(info) && info.width == raw.width && info.height == raw.height
                        && info.has_alpha == raw.has_alpha && info.file_size_bytes == file_size_bytes
                        && info.thumbnail_base64@ == base64_standard(png),
                    Err(e) => r matches Err(m) && m@ == e,
                }
            }
        }),
{
    let flat = rgba_bytes(&raw.pixels);
    proof {
        assert((raw.width as int) * (raw.height as int) <= 0xffff_ffff * 0xffff_ffff) by (nonlinear_arith)
            requires
                raw.width <= 0xffff_ffff,
                raw.height <= 0xffff_ffff,
        ;
    }
    let n: u128 = raw.width as u128 * raw.height as u128 * 4;
    if (flat.len() as u128) < n {
        return Err(String::from_str("Failed to create image buffer"));
    }
    let mut picture: Vec<u8> = Vec::new();
    let m = n as usize;
    for i in 0..m
        invariant
            m == n,
            m <= flat@.len(),
            picture@ == flat@.take(i as int),
    {
        picture.push(flat[i]);
        assert(picture@ =~= flat@.take(i + 1));
    }
    let (pixels, w, h) = if raw.width > 200 {
        make_thumbnail(picture, raw.width, raw.height, 200, 200)
    } else {
        (picture, raw.width, raw.height)
    };
    let png = match encode_png(pixels.as_slice(), w, h) {
        Ok(bytes) => bytes,
        Err(e) => {
            return Err(e);
        },
    };
    let thumbnail_base64 = encode_base64(png.as_slice());
    Ok(
        ImageInfo {
            width: raw.width,
            height: raw.height,
            has_alpha: raw.has_alpha,
            file_size_bytes,
            thumbnail_base64,
        },
    )
}

} // verus!
