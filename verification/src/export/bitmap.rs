//! Downsampling and encoding of bitmap exports.
use vstd::prelude::*;

use image::ImageEncoder;

use crate::types::{BitmapFormat, VectorItError};

verus! {

/// The PNG file that the `image` crate writes for 8-bit RGBA pixels, or the
/// text of its error when it refuses them.
pub uninterp spec fn png_rgba8(rgba: Seq<u8>, width: u32, height: u32) -> Result<Seq<u8>, Seq<char>>;

/// The BMP file that the `image` crate writes for 8-bit RGBA pixels, or the
/// text of its error when it refuses them.
pub uninterp spec fn bmp_rgba8(rgba: Seq<u8>, width: u32, height: u32) -> Result<Seq<u8>, Seq<char>>;

/// The JPEG file that the `image` crate writes for 8-bit RGB pixels at the
/// given quality, or the text of its error when it refuses them.
pub uninterp spec fn jpeg_rgb8(rgb: Seq<u8>, width: u32, height: u32, quality: u8) -> Result<Seq<u8>, Seq<char>>;

/// Encodes RGBA pixels as a PNG file.
///
/// Calls `image::codecs::png::PngEncoder::write_image` with 8-bit RGBA
/// pixels; it panics unless the buffer holds `width * height * 4` bytes. The
/// file, or the text of the refusal, is named by `png_rgba8`.
#[verifier::external_body]
pub(crate) fn encode_png(rgba: &[u8], width: u32, height: u32) -> (r: Result<Vec<u8>, String>)
    requires
        rgba@.len() == width * height * 4,
    ensures
        match r {
            Ok(bytes) => png_rgba8(rgba@, width, height) == Ok::<Seq<u8>, Seq<char>>(bytes@),
            Err(m) => png_rgba8(rgba@, width, height) == Err::<Seq<u8>, Seq<char>>(m@),
        },
{
    let mut buf = Vec::new();
    match image::codecs::png::PngEncoder::new(&mut buf).write_image(
        rgba,
        width,
        height,
        image::ExtendedColorType::Rgba8,
    ) {
        Ok(()) => Ok(buf),
        Err(e) => Err(e.to_string()),
    }
}

/// Encodes RGBA pixels as a BMP file.
///
/// Calls `image::codecs::bmp::BmpEncoder::write_image` with 8-bit RGBA
/// pixels; it panics unless the buffer holds `width * height * 4` bytes. The
/// file, or the text of the refusal, is named by `bmp_rgba8`.
#[verifier::external_body]
fn encode_bmp(rgba: &[u8], width: u32, height: u32) -> (r: Result<Vec<u8>, String>)
    requires
        rgba@.len() == width * height * 4,
    ensures
        match r {
            Ok(bytes) => bmp_rgba8(rgba@, width, height) == Ok::<Seq<u8>, Seq<char>>(bytes@),
            Err(m) => bmp_rgba8(rgba@, width, height) == Err::<Seq<u8>, Seq<char>>(m@),
        },
{
    let mut buf = Vec::new();
    match image::codecs::bmp::BmpEncoder::new(&mut buf).write_image(
        rgba,
        width,
        height,
        image::ExtendedColorType::Rgba8,
    ) {
        Ok(()) => Ok(buf),
        Err(e) => Err(e.to_string()),
    }
}

/// Encodes RGB pixels as a JPEG file at the given quality.
///
/// Calls `image::codecs::jpeg::JpegEncoder::new_with_quality` (which clamps
/// the quality to 1..=100) and its `write_image` with 8-bit RGB pixels; it
/// panics unless the buffer holds `width * height * 3` bytes. The file, or the
/// text of the refusal, is named by `jpeg_rgb8`.
#[verifier::external_body]
fn encode_jpeg(rgb: &[u8], width: u32, height: u32, quality: u8) -> (r: Result<Vec<u8>, String>)
    requires
        rgb@.len() == width * height * 3,
    ensures
        match r {
            Ok(bytes) => jpeg_rgb8(rgb@, width, height, quality) == Ok::<Seq<u8>, Seq<char>>(bytes@),
            Err(m) => jpeg_rgb8(rgb@, width, height, quality) == Err::<Seq<u8>, Seq<char>>(m@),
        },
{
    let mut buf = Vec::new();
    match image::codecs::jpeg::JpegEncoder::new_with_quality(&mut buf, quality).write_image(
        rgb,
        width,
        height,
        image::ExtendedColorType::Rgb8,
    ) {
        Ok(()) => Ok(buf),
        Err(e) => Err(e.to_string()),
    }
}

/// The RGB bytes of RGBA pixels: every fourth byte dropped.
pub open spec fn drop_alpha(rgba: Seq<u8>) -> Seq<u8> {
    Seq::new((rgba.len() / 4 * 3) as nat, |i: int| rgba[(i / 3) * 4 + i % 3])
}

/// The encoded file, or the export error carrying `prefix` and the encoder's message.
fn export_result(r: Result<Vec<u8>, String>, prefix: &str) -> (out: Result<Vec<u8>, VectorItError>)
    ensures
        match r {
            Ok(bytes) => out matches Ok(b) && b@ == bytes@,
            Err(e) => out matches Err(VectorItError::ExportFailed(m)) && m@ == prefix@ + e@,
        },
{
    match r {
        Ok(bytes) => Ok(bytes),
        Err(e) => {
            let mut m = String::from_str(prefix);
            m.append(e.as_str());
            Err(VectorItError::ExportFailed(m))
        },
    }
}

/// What encoding RGBA pixels in `format` yields: the file, or `None` when the
/// encoder refuses (JPEG is written without the alpha channel).
pub open spec fn encoded(rgba: Seq<u8>, width: u32, height: u32, format: BitmapFormat) -> Result<Seq<u8>, Seq<char>> {
    match format {
        BitmapFormat::Png => png_rgba8(rgba, width, height),
        BitmapFormat::Bmp => bmp_rgba8(rgba, width, height),
        BitmapFormat::Jpg(q) => jpeg_rgb8(drop_alpha(rgba), width, height, q),
    }
}

/// The start of the error message for a refused encoding in `format`.
pub open spec fn encode_error_prefix(format: BitmapFormat) -> Seq<char> {
    match format {
        BitmapFormat::Png => "PNG encode error: "@,
        BitmapFormat::Bmp => "BMP encode error: "@,
        BitmapFormat::Jpg(_) => "JPEG encode error: "@,
    }
}

/// Encode `width x height` RGBA pixels in the requested bitmap format.
pub fn encode_bitmap(rgba_pixels: &[u8], width: u32, height: u32, format: BitmapFormat) -> (r: Result<
    Vec<u8>,
    VectorItError,
>)
    requires
        rgba_pixels@.len() == width * height * 4,
    ensures
        match encoded(rgba_pixels@, width, height, format) {
            Ok(bytes) => r matches Ok(b) && b@ == bytes,
            Err(e) => r matches Err(VectorItError::ExportFailed(m)) && m@ == encode_error_prefix(format) + e,
        },
{
    match format {
        BitmapFormat::Png => {
            let res = encode_png(rgba_pixels, width, height);
            let out = export_result(res, "PNG encode error: ");
            out
        },
        BitmapFormat::Bmp => {
            let res = encode_bmp(rgba_pixels, width, height);
            let out = export_result(res, "BMP encode error: ");
            out
        },
        BitmapFormat::Jpg(quality) => {
            // JPEG doesn't support alpha — convert to RGB
            let n = rgba_pixels.len();
            let mut rgb_pixels: Vec<u8> = Vec::new();
            let mut i: usize = 0;
            proof {
                assert(n % 4 == 0) by (nonlinear_arith)
                    requires
                        n == width * height * 4,
                ;
            }
            while i < n
                invariant
                    n == rgba_pixels@.len(),
                    n % 4 == 0,
                    i % 4 == 0,
                    i <= n,
                    rgb_pixels@ == drop_alpha(rgba_pixels@.take(i as int)),
                decreases n - i,
            {
                let ghost before = rgb_pixels@;
                rgb_pixels.push(rgba_pixels[i]);
                rgb_pixels.push(rgba_pixels[i + 1]);
                rgb_pixels.push(rgba_pixels[i + 2]);
                proof {
                    let t = rgba_pixels@.take(i + 4);
                    assert(drop_alpha(t).len() == before.len() + 3);
                    assert forall|k: int| 0 <= k < drop_alpha(t).len() implies drop_alpha(t)[k]
                        == rgb_pixels@[k] by {
                        if k < before.len() {
                            assert(drop_alpha(rgba_pixels@.take(i as int))[k] == before[k]);
                        } else {
                            assert((k / 3) * 4 + k % 3 == i + (k - before.len())) by (nonlinear_arith)
                                requires
                                    before.len() <= k < before.len() + 3,
                                    before.len() == i / 4 * 3,
                                    i % 4 == 0,
                            ;
                        }
                    }
                    assert(drop_alpha(t) =~= rgb_pixels@);
                }
                i = i + 4;
            }
            proof {
                assert(rgba_pixels@.take(n as int) =~= rgba_pixels@);
                assert(rgb_pixels@.len() == width * height * 3) by (nonlinear_arith)
                    requires
                        rgb_pixels@.len() == n / 4 * 3,
                        n == width * height * 4,
                ;
            }
            let res = encode_jpeg(rgb_pixels.as_slice(), width, height, quality);
            let out = export_result(res, "JPEG encode error: ");
            out
        },
    }
}

/// The PNG file of an RGBA picture taken from the clipboard, or the error to
/// report when the encoder refuses it.
pub fn clipboard_png(rgba: &[u8], width: u32, height: u32) -> (r: Result<Vec<u8>, String>)
    requires
        rgba@.len() == width * height * 4,
    ensures
        match png_rgba8(rgba@, width, height) {
            Ok(bytes) => r matches Ok(b) && b@ == bytes,
            Err(e) => r matches Err(m) && m@ == "Failed to encode clipboard image: "@ + e,
        },
{
    match encode_png(rgba, width, height) {
        Ok(bytes) => Ok(bytes),
        Err(e) => {
            let mut m = String::from_str("Failed to encode clipboard image: ");
            m.append(e.as_str());
            Err(m)
        },
    }
}

/// The average, rounded down, of channel `ch` over the 2x2 block of samples
/// behind output pixel `(x, y)` of a picture sampled twice as finely.
pub open spec fn block_average(samples: Seq<[u8; 4]>, width: int, x: int, y: int, ch: int) -> int {
    let sw = 2 * width;
    (samples[(2 * y) * sw + 2 * x][ch] + samples[(2 * y) * sw + 2 * x + 1][ch] + samples[(2 * y + 1)
        * sw + 2 * x][ch] + samples[(2 * y + 1) * sw + 2 * x + 1][ch]) / 4
}

/// Averages each 2x2 block of a picture sampled twice as finely in each
/// direction, giving `width x height` RGBA pixels (four bytes each, row by row).
pub fn downsample_2x(samples: &Vec<[u8; 4]>, width: u32, height: u32) -> (rgba: Vec<u8>)
    requires
        samples@.len() == 4 * width * height,
    ensures
        rgba@.len() == 4 * width * height,
        forall|y: int, x: int, ch: int|
            0 <= y < height && 0 <= x < width && 0 <= ch < 4 ==> #[trigger] rgba@[(y * width + x) * 4 + ch]
                == block_average(samples@, width as int, x, y, ch),
{
    let w = width as usize;
    let h = height as usize;
    let len = samples.len();
    let mut rgba: Vec<u8> = Vec::new();
    proof {
        assert(0 * w * 4 == 0);
    }
    for y in 0..h
        invariant
            w == width as usize,
            h == height as usize,
            len == samples@.len(),
            samples@.len() == 4 * width * height,
            rgba@.len() == y * w * 4,
            forall|yy: int, x: int, ch: int|
                0 <= yy < y && 0 <= x < width && 0 <= ch < 4 ==> #[trigger] rgba@[(yy * width + x) * 4 + ch]
                    == block_average(samples@, width as int, x, yy, ch),
    {
        proof {
            assert(2 * w <= 4 * w * h) by (nonlinear_arith)
                requires
                    y < h,
            ;
        }
        let sw = 2 * w;
        for x in 0..w
            invariant
                w == width as usize,
                h == height as usize,
                sw == 2 * w,
                y < h,
                len == samples@.len(),
                samples@.len() == 4 * width * height,
                rgba@.len() == (y * w + x) * 4,
                forall|yy: int, xx: int, ch: int|
                    0 <= yy < y && 0 <= xx < width && 0 <= ch < 4 ==> #[trigger] rgba@[(yy * width + xx) * 4
                        + ch] == block_average(samples@, width as int, xx, yy, ch),
                forall|xx: int, ch: int|
                    0 <= xx < x && 0 <= ch < 4 ==> #[trigger] rgba@[(y * width + xx) * 4 + ch] == block_average(
                        samples@,
                        width as int,
                        xx,
                        y as int,
                        ch,
                    ),
        {
            let ghost before = rgba@;
            proof {
                assert((2 * y + 1) * sw + 2 * x + 1 < len) by (nonlinear_arith)
                    requires
                        sw == 2 * w,
                        x < w,
                        y < h,
                        len == 4 * w * h,
                ;
                assert(2 * y <= (2 * y) * sw) by (nonlinear_arith)
                    requires
                        1 <= sw,
                ;
                assert((2 * y) * sw + 2 * x < (2 * y + 1) * sw + 2 * x) by (nonlinear_arith)
                    requires
                        sw == 2 * w,
                        x < w,
                ;
            }
            let i00 = (2 * y) * sw + 2 * x;
            let i01 = i00 + 1;
            let i10 = (2 * y + 1) * sw + 2 * x;
            let i11 = i10 + 1;
            let p00 = samples[i00];
            let p01 = samples[i01];
            let p10 = samples[i10];
            let p11 = samples[i11];
            for ch in 0..4
                invariant
                    rgba@.len() == (y * w + x) * 4 + ch,
                    forall|k: int| 0 <= k < (y * w + x) * 4 ==> rgba@[k] == before[k],
                    forall|c: int| 0 <= c < ch ==> #[trigger] rgba@[(y * w + x) * 4 + c] == (p00[c] as int
                        + p01[c] as int + p10[c] as int + p11[c] as int) / 4,
            {
                let sum = p00[ch] as u32 + p01[ch] as u32 + p10[ch] as u32 + p11[ch] as u32;
                rgba.push((sum / 4) as u8);
            }
            proof {
                assert((y * w + x + 1) * 4 == (y * w + x) * 4 + 4);
                assert forall|yy: int, xx: int, ch: int|
                    0 <= yy < y && 0 <= xx < width && 0 <= ch < 4 implies #[trigger] rgba@[(yy * width + xx) * 4
                        + ch] == block_average(samples@, width as int, xx, yy, ch) by {
                    assert((yy * width + xx) * 4 + ch < (y * w + x) * 4) by (nonlinear_arith)
                        requires
                            0 <= yy < y,
                            0 <= xx < width,
                            0 <= ch < 4,
                            w == width,
                            0 <= x,
                    ;
                    assert(rgba@[(yy * width + xx) * 4 + ch] == before[(yy * width + xx) * 4 + ch]);
                }
                assert forall|xx: int, ch: int| 0 <= xx < x + 1 && 0 <= ch < 4 implies #[trigger] rgba@[(y
                    * width + xx) * 4 + ch] == block_average(samples@, width as int, xx, y as int, ch) by {
                    if xx < x {
                        assert((y * width + xx) * 4 + ch < (y * w + x) * 4) by (nonlinear_arith)
                            requires
                                0 <= xx < x,
                                0 <= ch < 4,
                                w == width,
                        ;
                        assert(rgba@[(y * width + xx) * 4 + ch] == before[(y * width + xx) * 4 + ch]);
                    }
                }
            }
        }
        proof {
            assert((y + 1) * w * 4 == (y * w + w) * 4) by (nonlinear_arith);
        }
    }
    proof {
        assert(h * w * 4 == 4 * width * height) by (nonlinear_arith)
            requires
                w == width,
                h == height,
        ;
    }
    rgba
}

} // verus!
