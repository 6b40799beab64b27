use vectorit_core::editor::{find_artifacts, SegmentationEditor, MAX_UNDO_STACK};
use vectorit_core::types::{LinePoint, Region, SegEdit, Segmentation, SplitLine, VectorItError};

fn make_test_segmentation() -> Segmentation {
    // 4x4 image with 2 regions:
    // Region 0: top-left 2x2
    // Region 1: rest
    let label_map = vec![
        0, 0, 1, 1,
        0, 0, 1, 1,
        1, 1, 1, 1,
        1, 1, 1, 1,
    ];
    Segmentation {
        regions: vec![
            Region { id: 0, color_index: 0, pixel_count: 4 },
            Region { id: 1, color_index: 1, pixel_count: 12 },
        ],
        label_map,
        width: 4,
        height: 4,
    }
}

#[test]
fn test_paint_pixels() {
    let seg = make_test_segmentation();
    let mut editor = SegmentationEditor::new(seg);

    // Paint pixel (0,0) to region 1
    editor
        .apply_edit(SegEdit::PaintPixels { pixels: vec![(0, 0)], target_region: 1 })
        .unwrap();

    assert_eq!(editor.get_current().label_map[0], 1);
    let r0 = editor.get_current().regions.iter().find(|r| r.id == 0).unwrap();
    assert_eq!(r0.pixel_count, 3);
    let r1 = editor.get_current().regions.iter().find(|r| r.id == 1).unwrap();
    assert_eq!(r1.pixel_count, 13);
}

#[test]
fn test_merge_regions() {
    let seg = make_test_segmentation();
    let mut editor = SegmentationEditor::new(seg);

    editor.apply_edit(SegEdit::MergeRegions { source: 0, target: 1 }).unwrap();

    // Region 0 should be gone
    assert!(!editor.get_current().regions.iter().any(|r| r.id == 0));
    let r1 = editor.get_current().regions.iter().find(|r| r.id == 1).unwrap();
    assert_eq!(r1.pixel_count, 16);
    // All labels should be 1
    assert!(editor.get_current().label_map.iter().all(|&l| l == 1));
}

#[test]
fn test_undo() {
    let seg = make_test_segmentation();
    let mut editor = SegmentationEditor::new(seg);

    editor
        .apply_edit(SegEdit::PaintPixels { pixels: vec![(0, 0)], target_region: 1 })
        .unwrap();

    assert_eq!(editor.get_current().label_map[0], 1);
    assert!(editor.undo());
    assert_eq!(editor.get_current().label_map[0], 0);
}

#[test]
fn test_undo_empty() {
    let seg = make_test_segmentation();
    let mut editor = SegmentationEditor::new(seg);
    assert!(!editor.undo());
}

#[test]
fn test_reset() {
    let seg = make_test_segmentation();
    let mut editor = SegmentationEditor::new(seg);

    editor.apply_edit(SegEdit::MergeRegions { source: 0, target: 1 }).unwrap();

    editor.reset();
    assert_eq!(editor.get_current().regions.len(), 2);
    assert_eq!(editor.get_current().label_map[0], 0);
}

#[test]
fn undo_after_edit_restores_the_segmentation() {
    let mut editor = SegmentationEditor::new(make_test_segmentation());
    editor
        .apply_edit(SegEdit::PaintPixels { pixels: vec![(3, 3), (0, 1)], target_region: 0 })
        .unwrap();
    assert!(editor.can_undo());
    assert!(editor.undo());
    assert_eq!(editor.get_current().label_map, make_test_segmentation().label_map);
    assert_eq!(editor.get_current().regions, make_test_segmentation().regions);
    assert!(!editor.can_undo());
}

#[test]
fn failed_edit_reports_and_keeps_the_segmentation() {
    let mut editor = SegmentationEditor::new(make_test_segmentation());
    let err = editor
        .apply_edit(SegEdit::PaintPixels { pixels: vec![(0, 0)], target_region: 9 })
        .unwrap_err();
    match err {
        VectorItError::ExportFailed(m) => assert_eq!(m, "Target region 9 does not exist"),
        other => panic!("unexpected error {:?}", other),
    }
    assert_eq!(editor.get_current().label_map, make_test_segmentation().label_map);
    // the failed edit still saved a state to undo to
    assert!(editor.undo());

    let err = editor.apply_edit(SegEdit::MergeRegions { source: 7, target: 1 }).unwrap_err();
    assert_eq!(err.message(), "Export failed: Region 7 or 1 does not exist");
    let err = editor
        .apply_edit(SegEdit::SplitRegion {
            region_id: 5,
            split_line: SplitLine { start: LinePoint { x: 0, y: 0 }, end: LinePoint { x: 2, y: 0 } },
        })
        .unwrap_err();
    assert_eq!(err.message(), "Export failed: Region 5 does not exist");
}

#[test]
fn history_never_exceeds_the_limit() {
    let mut editor = SegmentationEditor::new(make_test_segmentation());
    for k in 0..(MAX_UNDO_STACK + 5) {
        let target = (k % 2) as u32;
        editor
            .apply_edit(SegEdit::PaintPixels { pixels: vec![(1, 1)], target_region: target })
            .unwrap();
    }
    let mut undone = 0;
    while editor.undo() {
        undone += 1;
    }
    assert_eq!(undone, MAX_UNDO_STACK);
}

#[test]
fn split_moves_the_pixels_left_of_a_vertical_line() {
    let mut editor = SegmentationEditor::new(make_test_segmentation());
    // A line going down along x = 2 (half-pixel units: x = 4) splits region 1.
    editor
        .apply_edit(SegEdit::SplitRegion {
            region_id: 1,
            split_line: SplitLine { start: LinePoint { x: 4, y: 0 }, end: LinePoint { x: 4, y: 8 } },
        })
        .unwrap();
    let seg = editor.get_current();
    // The new region takes the next id after the largest.
    assert_eq!(seg.regions.len(), 3);
    assert_eq!(seg.regions[2].id, 2);
    assert_eq!(seg.regions[2].color_index, 1);
    let moved = seg.label_map.iter().filter(|&&l| l == 2).count() as u32;
    let stayed = seg.label_map.iter().filter(|&&l| l == 1).count() as u32;
    assert_eq!(seg.regions[2].pixel_count, moved);
    assert_eq!(seg.regions[1].pixel_count, stayed);
    assert_eq!(moved + stayed, 12);
    assert!(moved > 0 && stayed > 0);
}

#[test]
fn find_artifacts_reports_pinch_points() {
    // Region 1 is two blobs joined by the single pixel (2, 1).
    let label_map = vec![
        1, 1, 0, 1, 1,
        1, 1, 1, 1, 1,
        1, 1, 0, 1, 1,
    ];
    let seg = Segmentation {
        regions: vec![
            Region { id: 0, color_index: 0, pixel_count: 2 },
            Region { id: 1, color_index: 1, pixel_count: 13 },
        ],
        label_map,
        width: 5,
        height: 3,
    };
    let artifacts = find_artifacts(&seg);
    assert!(artifacts.contains(&(2, 1)));
    assert!(!artifacts.contains(&(0, 0)));
    // A solid region has no articulation points.
    let solid = Segmentation {
        regions: vec![Region { id: 0, color_index: 0, pixel_count: 9 }],
        label_map: vec![0; 9],
        width: 3,
        height: 3,
    };
    assert!(find_artifacts(&solid).is_empty());
}

#[test]
fn merge_works_whatever_the_grid() {
    // The label map is longer than the 1x1 grid it claims; a merge only relabels.
    let seg = Segmentation {
        regions: vec![
            Region { id: 0, color_index: 0, pixel_count: 1 },
            Region { id: 1, color_index: 1, pixel_count: 2 },
        ],
        label_map: vec![0, 1, 1],
        width: 1,
        height: 1,
    };
    let mut editor = SegmentationEditor::new(seg);
    editor.apply_edit(SegEdit::MergeRegions { source: 1, target: 0 }).unwrap();
    assert_eq!(editor.get_current().label_map, vec![0, 0, 0]);
    assert_eq!(editor.get_current().regions, vec![Region { id: 0, color_index: 0, pixel_count: 3 }]);
    assert!(editor.undo());
    assert_eq!(editor.get_current().label_map, vec![0, 1, 1]);
}
