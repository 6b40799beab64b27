use vectorit_core::tracer::{
    cell_case, cell_paths, edge_point, find_path_for_entry, sample_cell_center, step_to_neighbor,
    trace_boundaries, CellPath, Edge,
};
use vectorit_core::types::{Boundary, HalfPoint, Region, Segmentation};

#[test]
fn test_single_square_region() {
    // 3x3 image with a 1x1 region in the center
    // 0 0 0
    // 0 1 0
    // 0 0 0
    let label_map = vec![0, 0, 0, 0, 1, 0, 0, 0, 0];
    let seg = Segmentation {
        regions: vec![
            Region { id: 0, color_index: 0, pixel_count: 8 },
            Region { id: 1, color_index: 1, pixel_count: 1 },
        ],
        label_map,
        width: 3,
        height: 3,
    };

    let boundaries = trace_boundaries(&seg, 3, 3);
    // Region 1 should have a boundary
    let region1_boundary = boundaries.iter().find(|b| b.region_id == 1);
    assert!(region1_boundary.is_some());
    let boundary = region1_boundary.unwrap();
    assert!(boundary.is_closed);
    assert!(boundary.points.len() >= 4); // At least 4 points for a square
}

#[test]
fn test_region_with_hole_traces_multiple_boundaries() {
    let label_map = vec![
        0, 0, 0, 0, 0,
        0, 1, 1, 1, 0,
        0, 1, 0, 1, 0,
        0, 1, 1, 1, 0,
        0, 0, 0, 0, 0,
    ];
    let seg = Segmentation {
        regions: vec![
            Region { id: 0, color_index: 0, pixel_count: 17 },
            Region { id: 1, color_index: 1, pixel_count: 8 },
        ],
        label_map,
        width: 5,
        height: 5,
    };

    let boundaries = trace_boundaries(&seg, 5, 5);
    let region1_boundaries: Vec<_> = boundaries.iter().filter(|b| b.region_id == 1).collect();

    assert_eq!(region1_boundaries.len(), 2);
    assert!(region1_boundaries.iter().all(|boundary| boundary.is_closed));
}

#[test]
fn test_saddle_case_traces_disconnected_diagonals() {
    // 2x2 checkerboard for region 1:
    // 0 1
    // 1 0
    let label_map = vec![0, 1, 1, 0];
    let seg = Segmentation {
        regions: vec![
            Region { id: 0, color_index: 0, pixel_count: 2 },
            Region { id: 1, color_index: 1, pixel_count: 2 },
        ],
        label_map,
        width: 2,
        height: 2,
    };

    let boundaries = trace_boundaries(&seg, 2, 2);
    let region1_boundaries: Vec<_> = boundaries.iter().filter(|b| b.region_id == 1).collect();

    assert_eq!(region1_boundaries.len(), 2);
    assert!(region1_boundaries.iter().all(|boundary| boundary.points.len() >= 4));
}

fn inside(map: &[u32], w: i64, h: i64, id: u32, x: i64, y: i64) -> bool {
    x >= 0 && y >= 0 && x < w && y < h && map[(y * w + x) as usize] == id
}

fn check_closed_crack_loop(b: &Boundary, map: &[u32], w: i64, h: i64) {
    let pts = &b.points;
    assert!(pts.len() >= 4);
    assert_eq!(pts[0], pts[pts.len() - 1]);
    for k in 0..pts.len() - 1 {
        assert_ne!(pts[k], pts[k + 1]);
    }
    for p in pts {
        let (a, c) = if p.x.rem_euclid(2) == 1 && p.y.rem_euclid(2) == 0 {
            let i = (p.x - 1).div_euclid(2);
            let j = p.y.div_euclid(2);
            (inside(map, w, h, b.region_id, i, j - 1), inside(map, w, h, b.region_id, i, j))
        } else {
            assert!(p.x.rem_euclid(2) == 0 && p.y.rem_euclid(2) == 1);
            let i = p.x.div_euclid(2);
            let j = (p.y - 1).div_euclid(2);
            (inside(map, w, h, b.region_id, i - 1, j), inside(map, w, h, b.region_id, i, j))
        };
        assert_ne!(a, c, "point {:?} is not on a crack of region {}", p, b.region_id);
    }
}

#[test]
fn every_boundary_is_a_closed_loop_on_region_cracks() {
    let label_map = vec![
        0, 0, 1, 1, 0,
        0, 1, 1, 0, 0,
        2, 2, 1, 0, 3,
        2, 0, 0, 0, 3,
    ];
    let seg = Segmentation {
        regions: vec![
            Region { id: 0, color_index: 0, pixel_count: 10 },
            Region { id: 1, color_index: 1, pixel_count: 5 },
            Region { id: 2, color_index: 2, pixel_count: 3 },
            Region { id: 3, color_index: 3, pixel_count: 2 },
        ],
        label_map: label_map.clone(),
        width: 5,
        height: 4,
    };
    let boundaries = trace_boundaries(&seg, 5, 4);
    assert!(!boundaries.is_empty());
    for id in 1..4u32 {
        assert!(boundaries.iter().any(|b| b.region_id == id));
    }
    for b in &boundaries {
        check_closed_crack_loop(b, &label_map, 5, 4);
    }
}

#[test]
fn single_pixel_boundary_goes_around_the_pixel() {
    let label_map = vec![0, 0, 0, 0, 1, 0, 0, 0, 0];
    let seg = Segmentation {
        regions: vec![Region { id: 1, color_index: 1, pixel_count: 1 }],
        label_map,
        width: 3,
        height: 3,
    };
    let boundaries = trace_boundaries(&seg, 3, 3);
    assert_eq!(boundaries.len(), 1);
    // Pixel (1, 1) has its centre at (3, 3) in half-pixel units; its edge midpoints are
    // (2, 3), (3, 2), (4, 3) and (3, 4).
    let pts = &boundaries[0].points;
    assert_eq!(pts.len(), 5);
    for p in [(2, 3), (3, 2), (4, 3), (3, 4)] {
        assert!(pts.contains(&HalfPoint { x: p.0, y: p.1 }));
    }
}

#[test]
fn marching_squares_cell_functions() {
    // 2x2 mask with only the bottom-right pixel set
    let mask = vec![false, false, false, true];
    assert_eq!(cell_case(&mask, 2, 2, 1, 1), 2);
    assert_eq!(cell_case(&mask, 2, 2, 2, 2), 8);
    assert_eq!(cell_case(&mask, 2, 2, 0, 0), 0);
    assert!(sample_cell_center(&mask, 2, 2, 1, 1));
    assert!(!sample_cell_center(&mask, 2, 2, 2, 2));
    assert_eq!(cell_paths(2, false), vec![CellPath { entry: Edge::Bottom, exit: Edge::Right }]);
    assert_eq!(cell_paths(0, true), vec![]);
    assert_eq!(cell_paths(15, true), vec![]);
    assert_eq!(
        cell_paths(5, true),
        vec![
            CellPath { entry: Edge::Top, exit: Edge::Left },
            CellPath { entry: Edge::Bottom, exit: Edge::Right }
        ]
    );
    assert_eq!(
        find_path_for_entry(10, false, Edge::Bottom),
        Some(CellPath { entry: Edge::Bottom, exit: Edge::Right })
    );
    assert_eq!(find_path_for_entry(10, true, Edge::Top), None);
    assert_eq!(edge_point(3, 4, Edge::Left), HalfPoint { x: 5, y: 8 });
    assert_eq!(edge_point(3, 4, Edge::Bottom), HalfPoint { x: 6, y: 9 });
    assert_eq!(step_to_neighbor(3, 4, Edge::Top), (3, 3));
    assert_eq!(step_to_neighbor(3, 4, Edge::Right), (4, 4));
    assert_eq!(Edge::Left.opposite(), Edge::Right);
    assert_eq!(Edge::Top.opposite(), Edge::Bottom);
}
