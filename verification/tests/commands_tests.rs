use vectorit_core::commands::{fix_artifact, most_common, sample_color, zap_region};
use vectorit_core::editor::SegmentationEditor;
use vectorit_core::types::{Region, SegEdit, Segmentation};

fn two_regions() -> Segmentation {
    Segmentation {
        regions: vec![
            Region { id: 0, color_index: 0, pixel_count: 4 },
            Region { id: 1, color_index: 1, pixel_count: 12 },
        ],
        label_map: vec![
            0, 0, 1, 1,
            0, 0, 1, 1,
            1, 1, 1, 1,
            1, 1, 1, 1,
        ],
        width: 4,
        height: 4,
    }
}

#[test]
fn most_common_takes_the_first_among_ties() {
    assert_eq!(most_common(&vec![]), None);
    assert_eq!(most_common(&vec![4, 2, 2, 4, 7]), Some(4));
    assert_eq!(most_common(&vec![4, 2, 2, 7]), Some(2));
    assert_eq!(most_common(&vec![9]), Some(9));
}

#[test]
fn fix_artifact_paints_into_the_most_common_neighbour() {
    let seg = Segmentation {
        regions: vec![
            Region { id: 0, color_index: 0, pixel_count: 1 },
            Region { id: 1, color_index: 1, pixel_count: 4 },
            Region { id: 2, color_index: 2, pixel_count: 4 },
        ],
        label_map: vec![
            2, 1, 2,
            1, 0, 1,
            2, 1, 2,
        ],
        width: 3,
        height: 3,
    };
    let mut editor = SegmentationEditor::new(seg);
    let out = fix_artifact(&mut editor, 1, 1).unwrap();
    assert_eq!(out.label_map[4], 1);
    assert_eq!(out.regions[0].pixel_count, 0);
    assert_eq!(out.regions[1].pixel_count, 5);
    assert!(editor.can_undo());
}

#[test]
fn fix_artifact_without_foreign_neighbours_changes_nothing() {
    let mut editor = SegmentationEditor::new(two_regions());
    let out = fix_artifact(&mut editor, 3, 3).unwrap();
    assert_eq!(out.label_map, two_regions().label_map);
    assert!(!editor.can_undo());
}

#[test]
fn sample_color_reports_region_and_placeholder() {
    let editor = SegmentationEditor::new(two_regions());
    let s = sample_color(&editor, 3, 0, false).unwrap();
    assert_eq!(s.region_id, 1);
    // palette index 1: 37, 73, 111
    assert_eq!(s.color_hex, "#25496f");
    let s0 = sample_color(&editor, 0, 0, true).unwrap();
    assert_eq!(s0.region_id, 0);
    assert_eq!(s0.color_hex, "#000000");
    assert_eq!(sample_color(&editor, 4, 0, false).unwrap_err(), "Coordinates out of bounds");
    assert_eq!(sample_color(&editor, 0, 4, false).unwrap_err(), "Coordinates out of bounds");
}

#[test]
fn zap_out_of_bounds_is_refused() {
    let mut editor = SegmentationEditor::new(two_regions());
    assert_eq!(zap_region(&mut editor, 9, 0, 10).unwrap_err(), "Coordinates out of bounds");
    assert!(!editor.can_undo());
}

#[test]
fn zap_splits_and_merges_the_small_piece() {
    // Region 1 is the right half; the zap line through column 3 cuts off column 3.
    let seg = Segmentation {
        regions: vec![
            Region { id: 0, color_index: 0, pixel_count: 8 },
            Region { id: 1, color_index: 1, pixel_count: 8 },
        ],
        label_map: vec![
            0, 0, 1, 1,
            0, 0, 1, 1,
            0, 0, 1, 1,
            0, 0, 1, 1,
        ],
        width: 4,
        height: 4,
    };
    let mut editor = SegmentationEditor::new(seg);
    let out = zap_region(&mut editor, 3, 1, 100).unwrap();
    // The split leaves column 2 in region 1 and column 3 in a new region 2 of the
    // same color; the smallest region of that color is merged into its most
    // common neighbour.
    let total: u32 = out.regions.iter().map(|r| r.pixel_count).sum();
    assert_eq!(total, 16);
    for r in &out.regions {
        let n = out.label_map.iter().filter(|&&l| l == r.id).count() as u32;
        assert_eq!(r.pixel_count, n);
    }
    assert_eq!(out.regions.len(), 2);
    // two edits were made
    assert!(editor.undo());
    assert!(editor.undo());
    assert!(!editor.undo());
}

#[test]
fn sample_color_reads_the_original_when_asked() {
    let mut editor = SegmentationEditor::new(Segmentation {
        regions: vec![
            Region { id: 0, color_index: 0, pixel_count: 1 },
            Region { id: 1, color_index: 1, pixel_count: 1 },
        ],
        label_map: vec![0, 1],
        width: 2,
        height: 1,
    });
    editor
        .apply_edit(SegEdit::PaintPixels { pixels: vec![(0, 0)], target_region: 1 })
        .unwrap();
    assert_eq!(sample_color(&editor, 0, 0, false).unwrap().region_id, 1);
    let s = sample_color(&editor, 0, 0, true).unwrap();
    assert_eq!(s.region_id, 0);
    assert_eq!(s.color_hex, "#000000");
}

#[test]
fn zap_works_on_an_inconsistent_segmentation() {
    // Pixel counts as the transparency step leaves them: stale for region 1.
    let seg = Segmentation {
        regions: vec![
            Region { id: 0, color_index: 0, pixel_count: 2 },
            Region { id: 1, color_index: 1, pixel_count: 9 },
        ],
        label_map: vec![0, 1, 0, 1],
        width: 2,
        height: 2,
    };
    let mut editor = SegmentationEditor::new(seg.clone());
    assert_eq!(zap_region(&mut editor, 5, 5, 1).unwrap_err(), "Coordinates out of bounds");
    assert!(!editor.can_undo());
    assert_eq!(editor.get_current().label_map, seg.label_map);

    // Out of bounds even a label map that does not cover its grid is answered.
    let short = Segmentation { regions: vec![], label_map: vec![3], width: 2, height: 2 };
    let mut editor = SegmentationEditor::new(short);
    assert_eq!(zap_region(&mut editor, 2, 0, 1).unwrap_err(), "Coordinates out of bounds");
    assert!(!editor.can_undo());

    // A label that names no region: the split is refused but still saved for undo.
    let orphan = Segmentation {
        regions: vec![Region { id: 0, color_index: 0, pixel_count: 1 }],
        label_map: vec![0, 7],
        width: 2,
        height: 1,
    };
    let mut editor = SegmentationEditor::new(orphan.clone());
    assert_eq!(zap_region(&mut editor, 1, 0, 1).unwrap_err(), "Export failed: Region 7 does not exist");
    assert_eq!(editor.get_current().label_map, orphan.label_map);
    assert!(editor.can_undo());
}
