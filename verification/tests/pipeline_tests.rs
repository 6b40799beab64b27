use vectorit_core::config::{
    default_auto_resize, default_color_count, default_color_precision, default_path_mode,
    default_quality, default_speckle_filter, palette_sizes, parse_bitmap_format, traces_splines,
};
use vectorit_core::decoder::raw_image_from_rgba8;
use vectorit_core::detector::color_histogram;
use vectorit_core::resizer::average_rect;
use vectorit_core::desktop::{documents_dir_result, drag_request, start_file_drag};
use vectorit_core::flatten::color_merge_plan;
use vectorit_core::pipeline::{mark_transparent, rgba_bytes, segmentation_rgba, transparent_mask};
use vectorit_core::preview::build_image_info;
use vectorit_core::types::{BitmapFormat, Quality, RawImage, Region, RgbColor, Segmentation};

#[test]
fn transparent_pixels_get_region_zero() {
    let pixels = vec![[1, 2, 3, 255], [4, 5, 6, 10], [7, 8, 9, 128], [0, 0, 0, 127]];
    let mask = transparent_mask(&pixels);
    assert_eq!(mask, vec![false, true, false, true]);
    let mut seg = Segmentation {
        regions: vec![
            Region { id: 0, color_index: 3, pixel_count: 2 },
            Region { id: 1, color_index: 4, pixel_count: 2 },
        ],
        label_map: vec![0, 0, 1, 1],
        width: 2,
        height: 2,
    };
    mark_transparent(&mut seg, &mask);
    assert_eq!(seg.label_map, vec![1, 0, 2, 0]);
    assert_eq!(
        seg.regions,
        vec![
            Region { id: 0, color_index: u16::MAX, pixel_count: 2 },
            Region { id: 1, color_index: 3, pixel_count: 1 },
            Region { id: 2, color_index: 4, pixel_count: 1 },
        ]
    );
    let total: u32 = seg.regions.iter().map(|r| r.pixel_count).sum();
    assert_eq!(total, 4);
}

#[test]
fn a_region_made_wholly_transparent_counts_nothing() {
    let mut seg = Segmentation {
        regions: vec![
            Region { id: 0, color_index: 1, pixel_count: 1 },
            Region { id: 1, color_index: 2, pixel_count: 1 },
        ],
        label_map: vec![0, 1],
        width: 2,
        height: 1,
    };
    mark_transparent(&mut seg, &vec![true, false]);
    assert_eq!(seg.label_map, vec![0, 2]);
    assert_eq!(
        seg.regions,
        vec![
            Region { id: 0, color_index: u16::MAX, pixel_count: 1 },
            Region { id: 1, color_index: 1, pixel_count: 0 },
            Region { id: 2, color_index: 2, pixel_count: 1 },
        ]
    );
}

#[test]
fn opaque_images_are_left_alone() {
    let mut seg = Segmentation {
        regions: vec![Region { id: 0, color_index: 3, pixel_count: 2 }],
        label_map: vec![0, 0],
        width: 2,
        height: 1,
    };
    mark_transparent(&mut seg, &vec![false, false]);
    assert_eq!(seg.label_map, vec![0, 0]);
    assert_eq!(seg.regions.len(), 1);
}

#[test]
fn pixel_buffers() {
    assert_eq!(rgba_bytes(&vec![[1, 2, 3, 4], [5, 6, 7, 8]]), vec![1, 2, 3, 4, 5, 6, 7, 8]);
    let seg = Segmentation {
        regions: vec![
            Region { id: 0, color_index: 1, pixel_count: 1 },
            Region { id: 5, color_index: 2, pixel_count: 1 },
            Region { id: 5, color_index: 0, pixel_count: 1 },
        ],
        label_map: vec![0, 5, 9],
        width: 3,
        height: 1,
    };
    // label 0 -> index 1; label 5 -> the last region with id 5 (index 0); label 9 -> black
    assert_eq!(
        segmentation_rgba(&seg),
        vec![37, 73, 111, 255, 0, 0, 0, 255, 0, 0, 0, 255]
    );
}

#[test]
fn merge_plan_groups_by_first_occurrence() {
    let red = RgbColor { r: 255, g: 0, b: 0 };
    let blue = RgbColor { r: 0, g: 0, b: 255 };
    let white = RgbColor { r: 255, g: 255, b: 255 };
    let plan = color_merge_plan(&vec![blue, red, blue, white, red, blue]);
    assert_eq!(plan, vec![vec![0, 2, 5], vec![1, 4], vec![3]]);
    assert!(color_merge_plan(&vec![]).is_empty());
}

#[test]
fn settings() {
    assert_eq!(default_color_count(), 12);
    assert_eq!(default_quality(), Quality::Custom);
    assert_eq!(default_path_mode(), "polygon");
    assert_eq!(default_speckle_filter(), 4);
    assert_eq!(default_color_precision(), 6);
    assert!(default_auto_resize());
    assert_eq!(palette_sizes(7), vec![2, 4, 6]);
    assert_eq!(palette_sizes(16), vec![2, 4, 6, 8, 12, 16]);
    assert!(palette_sizes(1).is_empty());
    assert!(traces_splines("spline"));
    assert!(!traces_splines("polygon"));
    assert!(!traces_splines("Spline"));
}

#[test]
fn bitmap_format_names() {
    assert_eq!(parse_bitmap_format("PNG").unwrap(), BitmapFormat::Png);
    assert_eq!(parse_bitmap_format("bmp").unwrap(), BitmapFormat::Bmp);
    assert_eq!(parse_bitmap_format("Jpeg").unwrap(), BitmapFormat::Jpg(90));
    assert_eq!(parse_bitmap_format("jpg").unwrap(), BitmapFormat::Jpg(90));
    assert_eq!(parse_bitmap_format("gif").unwrap_err(), "Unsupported bitmap format: gif");
    assert_eq!(parse_bitmap_format("pngs").unwrap_err(), "Unsupported bitmap format: pngs");
}

#[test]
fn drag_and_documents() {
    assert!(drag_request("a.svg", true).is_ok());
    assert_eq!(drag_request("a.svg", false).unwrap_err(), "File does not exist: a.svg");
    assert_eq!(
        start_file_drag("/no/such/dir/vectorit.svg").unwrap_err(),
        "File does not exist: /no/such/dir/vectorit.svg"
    );
    assert_eq!(documents_dir_result(Some("/home/u/Documents".to_string())).unwrap(), "/home/u/Documents");
    assert_eq!(
        documents_dir_result(None).unwrap_err(),
        "Could not determine Documents directory"
    );
}

#[test]
fn image_info_has_a_png_thumbnail() {
    let raw = RawImage { width: 3, height: 2, pixels: vec![[200, 10, 10, 255]; 6], has_alpha: false };
    let info = build_image_info(&raw, 1234).unwrap();
    assert_eq!((info.width, info.height, info.has_alpha, info.file_size_bytes), (3, 2, false, 1234));
    // the base64 text of the PNG signature
    assert!(info.thumbnail_base64.starts_with("iVBORw0KGgo"));
    let wide = RawImage { width: 400, height: 100, pixels: vec![[0, 0, 0, 255]; 40000], has_alpha: true };
    assert!(build_image_info(&wide, 1).unwrap().thumbnail_base64.starts_with("iVBORw0KGgo"));
    let short = RawImage { width: 3, height: 2, pixels: vec![[0, 0, 0, 255]; 5], has_alpha: false };
    assert_eq!(build_image_info(&short, 1).unwrap_err(), "Failed to create image buffer");
}

#[test]
fn decoded_bytes_become_pixels() {
    let bytes = vec![10, 20, 30, 255, 40, 50, 60, 255, 70, 80, 90, 255, 1, 2, 3, 255];
    let img = raw_image_from_rgba8(2, 2, &bytes);
    assert_eq!(img.width, 2);
    assert_eq!(img.height, 2);
    assert_eq!(img.pixels, vec![[10, 20, 30, 255], [40, 50, 60, 255], [70, 80, 90, 255], [1, 2, 3, 255]]);
    assert!(!img.has_alpha);
    assert_eq!(rgba_bytes(&img.pixels), bytes);

    let translucent = raw_image_from_rgba8(1, 2, &vec![0, 0, 0, 255, 9, 9, 9, 254]);
    assert!(translucent.has_alpha);
    let empty = raw_image_from_rgba8(0, 3, &vec![]);
    assert!(empty.pixels.is_empty() && !empty.has_alpha);
}

#[test]
fn histogram_bins_by_high_nibbles() {
    let pixels = vec![[0, 0, 0, 255], [15, 15, 15, 0], [16, 32, 48, 255], [255, 255, 255, 255], [240, 241, 250, 9]];
    let hist = color_histogram(&pixels);
    assert_eq!(hist.len(), 4096);
    assert_eq!(hist[0], 2);
    assert_eq!(hist[256 + 2 * 16 + 3], 1);
    assert_eq!(hist[4095], 2);
    assert_eq!(hist.iter().map(|&c| c as u64).sum::<u64>(), 5);
    assert!(color_histogram(&vec![]).iter().all(|&c| c == 0));
}

#[test]
fn rectangles_are_averaged_channel_by_channel() {
    // 3x2 picture
    let pixels = vec![
        [10, 0, 0, 255], [20, 0, 0, 255], [30, 9, 0, 255],
        [40, 0, 0, 255], [51, 0, 0, 255], [60, 0, 1, 0],
    ];
    assert_eq!(average_rect(&pixels, 3, 2, 0, 2, 0, 2), [30, 0, 0, 255]);
    assert_eq!(average_rect(&pixels, 3, 2, 2, 3, 0, 2), [45, 4, 0, 127]);
    assert_eq!(average_rect(&pixels, 3, 2, 1, 1, 0, 2), [0, 0, 0, 255]);
    assert_eq!(average_rect(&pixels, 3, 2, 2, 1, 0, 2), [0, 0, 0, 255]);
}
