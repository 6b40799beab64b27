use vectorit_core::export::bitmap::{downsample_2x, encode_bitmap};
use vectorit_core::export::dxf::{clamped_cubic_knots, rgb_to_aci};
use vectorit_core::types::{BitmapFormat, RgbColor, VectorItError};

#[test]
fn test_rgb_to_aci() {
    assert_eq!(rgb_to_aci(&RgbColor { r: 255, g: 0, b: 0 }), 1); // Red
    assert_eq!(rgb_to_aci(&RgbColor { r: 0, g: 255, b: 0 }), 3); // Green
    assert_eq!(rgb_to_aci(&RgbColor { r: 0, g: 0, b: 255 }), 5); // Blue
    assert_eq!(rgb_to_aci(&RgbColor { r: 0, g: 0, b: 0 }), 7); // Black -> 7
}

#[test]
fn aci_of_other_colors() {
    assert_eq!(rgb_to_aci(&RgbColor { r: 250, g: 240, b: 10 }), 2);
    assert_eq!(rgb_to_aci(&RgbColor { r: 10, g: 200, b: 220 }), 4);
    assert_eq!(rgb_to_aci(&RgbColor { r: 200, g: 30, b: 190 }), 6);
    assert_eq!(rgb_to_aci(&RgbColor { r: 240, g: 240, b: 240 }), 7);
    // 25 is below a tenth of 255, 26 is not
    assert_eq!(rgb_to_aci(&RgbColor { r: 25, g: 25, b: 25 }), 7);
    assert_eq!(rgb_to_aci(&RgbColor { r: 26, g: 0, b: 0 }), 1);
    // equally near red and green: red comes first
    assert_eq!(rgb_to_aci(&RgbColor { r: 128, g: 128, b: 0 }), 2);
    assert_eq!(rgb_to_aci(&RgbColor { r: 100, g: 100, b: 0 }), 1);
}

#[test]
fn knots_of_a_single_cubic() {
    assert_eq!(clamped_cubic_knots(4), vec![0, 0, 0, 0, 1, 1, 1, 1]);
    assert_eq!(clamped_cubic_knots(7), vec![0, 0, 0, 0, 1, 2, 3, 4, 4, 4, 4]);
}

#[test]
fn encode_bitmap_writes_each_format() {
    let rgba = vec![255u8, 0, 0, 255, 0, 255, 0, 255, 0, 0, 255, 255, 10, 20, 30, 255];
    let png = encode_bitmap(&rgba, 2, 2, BitmapFormat::Png).unwrap();
    assert_eq!(&png[0..4], &[0x89, 0x50, 0x4E, 0x47]);
    let bmp = encode_bitmap(&rgba, 2, 2, BitmapFormat::Bmp).unwrap();
    assert_eq!(&bmp[0..2], b"BM");
    let jpg = encode_bitmap(&rgba, 2, 2, BitmapFormat::Jpg(85)).unwrap();
    assert_eq!(&jpg[0..2], &[0xFF, 0xD8]);
}

#[test]
fn refused_encoding_is_an_export_error() {
    match encode_bitmap(&[], 0, 0, BitmapFormat::Jpg(90)) {
        Err(VectorItError::ExportFailed(m)) => assert!(m.starts_with("JPEG encode error: ")),
        Ok(_) => {}
        Err(e) => panic!("unexpected error {:?}", e),
    }
}

#[test]
fn downsample_averages_blocks() {
    // 4x2 samples -> 2x1 pixels
    let samples: Vec<[u8; 4]> = vec![
        [0, 0, 0, 255], [4, 8, 12, 255], [255, 255, 255, 255], [255, 255, 255, 255],
        [1, 1, 1, 255], [2, 2, 2, 255], [255, 255, 255, 0], [0, 0, 0, 0],
    ];
    let out = downsample_2x(&samples, 2, 1);
    assert_eq!(out, vec![1, 2, 3, 255, 191, 191, 191, 127]);
}

#[test]
fn refused_png_carries_the_encoder_text() {
    let mut buf = Vec::new();
    let expected = match image::ImageEncoder::write_image(
        image::codecs::png::PngEncoder::new(&mut buf),
        &[],
        0,
        0,
        image::ExtendedColorType::Rgba8,
    ) {
        Err(e) => e.to_string(),
        Ok(()) => return,
    };
    match encode_bitmap(&[], 0, 0, BitmapFormat::Png) {
        Err(VectorItError::ExportFailed(m)) => assert_eq!(m, format!("PNG encode error: {}", expected)),
        other => panic!("unexpected {:?}", other.is_ok()),
    }
}
