use vectorit_core::segmenter::segment;
use vectorit_core::types::LabelImage;

#[test]
fn test_solid_image_one_region() {
    let img = LabelImage { width: 3, height: 3, labels: vec![0; 9] };
    let seg = segment(&img);
    assert_eq!(seg.regions.len(), 1);
    assert_eq!(seg.regions[0].pixel_count, 9);
}

#[test]
fn test_checkerboard_four_regions() {
    // 2x2 checkerboard with 2 colors - each pixel is isolated
    let img = LabelImage { width: 2, height: 2, labels: vec![0, 1, 1, 0] };
    let seg = segment(&img);
    // In a 2x2 checkerboard, each pixel of same color is NOT 4-connected to the other
    assert_eq!(seg.regions.len(), 4);
}

#[test]
fn regions_are_numbered_in_scan_order() {
    let img = LabelImage {
        width: 4,
        height: 3,
        labels: vec![
            2, 2, 5, 5,
            7, 2, 5, 2,
            7, 7, 7, 2,
        ],
    };
    let seg = segment(&img);
    assert_eq!(seg.label_map, vec![0, 0, 1, 1, 2, 0, 1, 3, 2, 2, 2, 3]);
    let ids: Vec<u32> = seg.regions.iter().map(|r| r.id).collect();
    assert_eq!(ids, vec![0, 1, 2, 3]);
    let colors: Vec<u16> = seg.regions.iter().map(|r| r.color_index).collect();
    assert_eq!(colors, vec![2, 5, 7, 2]);
    let counts: Vec<u32> = seg.regions.iter().map(|r| r.pixel_count).collect();
    assert_eq!(counts, vec![3, 3, 4, 2]);
    assert_eq!((seg.width, seg.height), (4, 3));
}

#[test]
fn pixel_counts_match_the_label_map() {
    let img = LabelImage {
        width: 5,
        height: 4,
        labels: vec![
            0, 1, 1, 0, 0,
            0, 1, 0, 0, 1,
            1, 1, 0, 1, 1,
            0, 0, 0, 1, 0,
        ],
    };
    let seg = segment(&img);
    for r in &seg.regions {
        let n = seg.label_map.iter().filter(|&&l| l == r.id).count() as u32;
        assert_eq!(r.pixel_count, n);
    }
    let total: u32 = seg.regions.iter().map(|r| r.pixel_count).sum();
    assert_eq!(total, 20);
}

#[test]
fn empty_image_has_no_regions() {
    let seg = segment(&LabelImage { width: 0, height: 7, labels: vec![] });
    assert!(seg.regions.is_empty());
    assert!(seg.label_map.is_empty());
}
