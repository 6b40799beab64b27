use vectorit_core::svgpath::{is_number, tokenize_svg_path};
use vectorit_core::text::{number_message, text_with_number};
use vectorit_core::types::{RgbColor, VectorItError};

#[test]
fn tokenize_commands_and_numbers() {
    let t = tokenize_svg_path("M10,20 L-3.5.5 30e\tZ");
    assert_eq!(t, vec!["M", "10", "20", "L", "-3.5", ".5", "30", "e", "Z"]);
}

#[test]
fn lone_signs_and_points_are_dropped() {
    let t = tokenize_svg_path("- + . 1.2.3 C+4");
    assert_eq!(t, vec!["1.2", ".3", "C", "+4"]);
    assert!(tokenize_svg_path("").is_empty());
    assert!(tokenize_svg_path(" ,\u{3000}\u{a0}").is_empty());
}

#[test]
fn is_number_looks_at_the_first_character() {
    assert!(is_number("12"));
    assert!(is_number("-1"));
    assert!(is_number("+"));
    assert!(is_number(".5"));
    assert!(!is_number("M"));
    assert!(!is_number(""));
}

#[test]
fn hex_and_messages() {
    assert_eq!(RgbColor { r: 255, g: 0, b: 16 }.to_hex(), "#ff0010");
    assert_eq!(RgbColor { r: 1, g: 171, b: 205 }.to_hex(), "#01abcd");
    assert_eq!(text_with_number("n=", 407), "n=407");
    assert_eq!(number_message("Region ", 0, " does not exist"), "Region 0 does not exist");
    assert_eq!(VectorItError::Cancelled.message(), "Pipeline cancelled");
    assert_eq!(
        VectorItError::ImageDecode("bad header".to_string()).message(),
        "Failed to decode image: bad header"
    );
    assert_eq!(VectorItError::Pipeline("x".to_string()).message(), "Pipeline error: x");
    assert_eq!(
        VectorItError::QuantizationFailed("y".to_string()).message(),
        "Quantization failed: y"
    );
}
