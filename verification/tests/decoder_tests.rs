use vectorit_core::decoder::decode_image_bytes;
use vectorit_core::export::bitmap::{clipboard_png, encode_bitmap};
use vectorit_core::types::{BitmapFormat, VectorItError};

#[test]
fn png_bytes_decode_to_their_pixels() {
    let rgba = vec![10, 20, 30, 255, 40, 50, 60, 100];
    let png = clipboard_png(&rgba, 2, 1).unwrap();
    for ext in ["png", "PNG", "Png"] {
        let img = decode_image_bytes(&png, ext).unwrap();
        assert_eq!((img.width, img.height), (2, 1));
        assert_eq!(img.pixels, vec![[10, 20, 30, 255], [40, 50, 60, 100]]);
        assert!(img.has_alpha);
    }
}

#[test]
fn bmp_bytes_decode_by_extension() {
    let rgba = vec![1, 2, 3, 255, 4, 5, 6, 255, 7, 8, 9, 255, 10, 11, 12, 255];
    let bmp = encode_bitmap(&rgba, 2, 2, BitmapFormat::Bmp).unwrap();
    let img = decode_image_bytes(&bmp, "bmp").unwrap();
    assert_eq!((img.width, img.height), (2, 2));
    assert_eq!(img.pixels, vec![[1, 2, 3, 255], [4, 5, 6, 255], [7, 8, 9, 255], [10, 11, 12, 255]]);
    assert!(!img.has_alpha);
}

#[test]
fn gif_gives_its_first_frame() {
    let rgba = vec![255, 0, 0, 255, 0, 0, 255, 255];
    let mut gif = Vec::new();
    image::codecs::gif::GifEncoder::new(&mut gif)
        .encode(&rgba, 2, 1, image::ExtendedColorType::Rgba8)
        .unwrap();
    let img = decode_image_bytes(&gif, "GIF").unwrap();
    assert_eq!((img.width, img.height), (2, 1));
    assert_eq!(img.pixels, vec![[255, 0, 0, 255], [0, 0, 255, 255]]);
}

#[test]
fn unknown_or_missing_extensions_are_decode_errors() {
    let png = clipboard_png(&[0, 0, 0, 255], 1, 1).unwrap();
    let expected = image::ImageError::Unsupported(
        image::error::ImageFormatHint::PathExtension("xyz".into()).into(),
    )
    .to_string();
    match decode_image_bytes(&png, "xyz") {
        Err(VectorItError::ImageDecode(m)) => assert_eq!(m, expected),
        other => panic!("unexpected {:?}", other.map(|i| i.width)),
    }
    match decode_image_bytes(&png, "") {
        Err(VectorItError::ImageDecode(m)) => assert_eq!(m, "The image format could not be determined"),
        other => panic!("unexpected {:?}", other.map(|i| i.width)),
    }
    match decode_image_bytes(&vec![1, 2, 3], "png") {
        Err(VectorItError::ImageDecode(m)) => assert!(!m.is_empty()),
        other => panic!("unexpected {:?}", other.map(|i| i.width)),
    }
}
