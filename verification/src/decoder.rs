//! Decoding image files (PNG, JPEG, BMP, GIF, TIFF) into the pipeline's
//! image type.
use vstd::prelude::*;

use crate::config::{spells, spells_word};
use crate::pipeline::pixel_bytes;
use crate::types::{RawImage, VectorItError};

verus! {

/// Some pixel of `pixels` is not fully opaque.
pub open spec fn has_translucent(pixels: Seq<[u8; 4]>) -> bool {
    exists|i: int| 0 <= i < pixels.len() && #[trigger] pixels[i][3] < 255
}

/// Build the image of `width` x `height` pixels from its row-major RGBA8
/// bytes, four per pixel, noting whether any pixel is translucent.
pub fn raw_image_from_rgba8(width: u32, height: u32, bytes: &Vec<u8>) -> (img: RawImage)
    requires
        bytes@.len() == 4 * (width * height),
    ensures
        img.width == width,
        img.height == height,
        img.pixels@.len() == width * height,
        forall|i: int, k: int|
            0 <= i < img.pixels@.len() && 0 <= k < 4 ==> #[trigger] img.pixels@[i][k] == bytes@[4 * i + k],
        img.has_alpha == has_translucent(img.pixels@),
        pixel_bytes(img.pixels@) == bytes@,
{
    let n = bytes.len() / 4;
    let mut pixels: Vec<[u8; 4]> = Vec::new();
    let mut has_alpha = false;
    let mut i: usize = 0;
    while i < n
        invariant
            n == bytes@.len() / 4,
            bytes@.len() == 4 * n,
            bytes@.len() <= usize::MAX,
            i <= n,
            pixels@.len() == i,
            forall|j: int, k: int|
                0 <= j < i && 0 <= k < 4 ==> #[trigger] pixels@[j][k] == bytes@[4 * j + k],
            has_alpha == has_translucent(pixels@),
        decreases n - i,
    {
        let o = 4 * i;
        let p: [u8; 4] = [bytes[o], bytes[o + 1], bytes[o + 2], bytes[o + 3]];
        let ghost before = pixels@;
        if p[3] < 255 {
            has_alpha = true;
        }
        pixels.push(p);
        proof {
            assert(pixels@[i as int] == p);
            if has_translucent(before) {
                let j = choose|j: int| 0 <= j < before.len() && #[trigger] before[j][3] < 255;
                assert(pixels@[j] == before[j]);
            }
            if has_translucent(pixels@) {
                let j = choose|j: int| 0 <= j < pixels@.len() && #[trigger] pixels@[j][3] < 255;
                if j < i {
                    assert(before[j] == pixels@[j]);
                }
            }
        }
        i = i + 1;
    }
    proof {
        assert(pixel_bytes(pixels@) =~= bytes@) by {
            assert forall|m: int| 0 <= m < bytes@.len() implies #[trigger] pixel_bytes(pixels@)[m] == bytes@[m] by {
                let j = m / 4;
                let k = m % 4;
                assert(0 <= j < n && 0 <= k < 4 && m == 4 * j + k) by (nonlinear_arith)
                    requires
                        0 <= m < 4 * n,
                        j == m / 4,
                        k == m % 4,
                ;
                assert(pixels@[j][k] == bytes@[4 * j + k]);
            }
        }
    }
    RawImage { width, height, pixels, has_alpha }
}

/// What the `image` crate decodes from the bytes of a file with extension
/// `ext` (the format named by the extension): width, height and 8-bit RGBA
/// pixels, or the text of its error.
pub uninterp spec fn decoded_rgba8(bytes: Seq<u8>, ext: Seq<char>) -> Result<(u32, u32, Seq<u8>), Seq<char>>;

/// What the `image` crate's GIF decoder makes of the bytes of a GIF file:
/// width, height and 8-bit RGBA pixels of its first frame, or the text of
/// its error.
pub uninterp spec fn gif_first_frame_rgba8(bytes: Seq<u8>) -> Result<(u32, u32, Seq<u8>), Seq<char>>;

/// The text of the error the `image` crate gives for a file whose format it
/// cannot tell.
pub open spec fn undetermined_format_text() -> Seq<char> {
    "The image format could not be determined"@
}

/// Decodes the bytes of a file with extension `ext` as 8-bit RGBA.
///
/// Calls `image::ImageFormat::from_extension` (which ignores case) and, for a
/// known format, `image::ImageReader::with_format(..).decode()` and
/// `to_rgba8`: what `image::open` does after reading the file. An unknown
/// extension gives the crate's own `Unsupported` error for it. The result is
/// named by `decoded_rgba8`; the pixel buffer holds four bytes per pixel.
#[verifier::external_body]
fn decode_rgba8(bytes: &[u8], ext: &str) -> (r: Result<(u32, u32, Vec<u8>), String>)
    ensures
        match r {
            Ok((w, h, px)) => decoded_rgba8(bytes@, ext@) == Ok::<(u32, u32, Seq<u8>), Seq<char>>((w, h, px@))
                && px@.len() == 4 * (w * h),
            Err(m) => decoded_rgba8(bytes@, ext@) == Err::<(u32, u32, Seq<u8>), Seq<char>>(m@),
        },
{
    let hint = image::error::ImageFormatHint::PathExtension(ext.into());
    let format = match image::ImageFormat::from_extension(ext) {
        Some(f) => f,
        None => return Err(image::ImageError::Unsupported(hint.into()).to_string()),
    };
    match image::ImageReader::with_format(std::io::Cursor::new(bytes), format).decode() {
        Ok(img) => {
            let rgba = img.to_rgba8();
            Ok((rgba.width(), rgba.height(), rgba.into_raw()))
        },
        Err(e) => Err(e.to_string()),
    }
}

/// Decodes the first frame of a GIF file as 8-bit RGBA.
///
/// Calls `image::codecs::gif::GifDecoder::new`, `image::DynamicImage::from_decoder`
/// and `to_rgba8`. The result is named by `gif_first_frame_rgba8`; the pixel
/// buffer holds four bytes per pixel.
#[verifier::external_body]
fn decode_gif_rgba8(bytes: &[u8]) -> (r: Result<(u32, u32, Vec<u8>), String>)
    ensures
        match r {
            Ok((w, h, px)) => gif_first_frame_rgba8(bytes@) == Ok::<(u32, u32, Seq<u8>), Seq<char>>((w, h, px@))
                && px@.len() == 4 * (w * h),
            Err(m) => gif_first_frame_rgba8(bytes@) == Err::<(u32, u32, Seq<u8>), Seq<char>>(m@),
        },
{
    let decoder = match image::codecs::gif::GifDecoder::new(std::io::Cursor::new(bytes)) {
        Ok(d) => d,
        Err(e) => return Err(e.to_string()),
    };
    match image::DynamicImage::from_decoder(decoder) {
        Ok(img) => {
            let rgba = img.to_rgba8();
            Ok((rgba.width(), rgba.height(), rgba.into_raw()))
        },
        Err(e) => Err(e.to_string()),
    }
}

/// Decodes bytes whose format is not known.
///
/// Calls `image::ImageReader::new(..).decode()` with no format set, which the
/// crate refuses (`require_format`) with the text of `undetermined_format_text`.
#[verifier::external_body]
fn decode_unknown_format(bytes: &[u8]) -> (r: Result<(u32, u32, Vec<u8>), String>)
    ensures
        r is Err,
        match r {
            Ok(_) => true,
            Err(m) => m@ == undetermined_format_text(),
        },
{
    match image::ImageReader::new(std::io::Cursor::new(bytes)).decode() {
        Ok(img) => {
            let rgba = img.to_rgba8();
            Ok((rgba.width(), rgba.height(), rgba.into_raw()))
        },
        Err(e) => Err(e.to_string()),
    }
}

/// What decoding a file's bytes gives, by its extension `ext`: a GIF (any
/// case) gives its first frame; no extension leaves the format unknown;
/// any other extension names the format to decode.
pub open spec fn decoding_of(bytes: Seq<u8>, ext: Seq<char>) -> Result<(u32, u32, Seq<u8>), Seq<char>> {
    if spells(ext, "gif"@) {
        gif_first_frame_rgba8(bytes)
    } else if ext.len() == 0 {
        Err(undetermined_format_text())
    } else {
        decoded_rgba8(bytes, ext)
    }
}

/// Decode the bytes of an image file with extension `ext` (empty when the
/// file has none) into RGBA pixels, noting whether any is translucent.
/// A GIF gives its first frame.
pub fn decode_image_bytes(bytes: &Vec<u8>, ext: &str) -> (r: Result<RawImage, VectorItError>)
    ensures
        match decoding_of(bytes@, ext@) {
            Ok((w, h, px)) => r matches Ok(img) && img.width == w && img.height == h && img.pixels@.len() == w
                * h && pixel_bytes(img.pixels@) == px && img.has_alpha == has_translucent(img.pixels@),
            Err(m) => r matches Err(VectorItError::ImageDecode(e)) && e@ == m,
        },
{
    proof {
        reveal_strlit("gif");
    }
    let decoded = if spells_word(ext, "gif") {
        decode_gif_rgba8(bytes.as_slice())
    } else if ext.unicode_len() == 0 {
        decode_unknown_format(bytes.as_slice())
    } else {
        decode_rgba8(bytes.as_slice(), ext)
    };
    match decoded {
        Ok((w, h, px)) => Ok(raw_image_from_rgba8(w, h, &px)),
        Err(m) => Err(VectorItError::ImageDecode(m)),
    }
}

} // verus!
