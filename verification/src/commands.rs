//! Editing commands on the editor's current segmentation: fixing an artifact
//! pixel, sampling a pixel and zapping a region.
use vstd::prelude::*;

use crate::editor::{
    copy_segmentation, find_region, law_edit_keeps_consistency, max_id, merge_fits, merge_result, paint_result,
    push_history, split_result, SegmentationEditor,
};
use crate::model::{
    consistent, count_label, first_with_id, label_counts, is_first_with_id, lemma_count_label_bound, lemma_count_label_take_step,
    lemma_first_with_id, lemma_first_with_id_unique,
};
use crate::text::{decimal, hex_byte, push_hex_byte};
use crate::types::{LinePoint, Region, SampleResult, SegEdit, Segmentation, SegmentationView, SplitLine};

verus! {

broadcast use vstd::std_specs::hash::group_hash_axioms;

/// `t` occurs in `s` at least as often as any entry, and every entry met
/// before its first occurrence occurs less often.
pub open spec fn first_most_common(s: Seq<u32>, t: u32) -> bool {
    exists|j: int|
        0 <= j < s.len() && s[j] == t && (forall|i: int|
            0 <= i < s.len() ==> count_label(s, #[trigger] s[i]) <= count_label(s, t)) && (forall|i: int|
            0 <= i < j ==> count_label(s, #[trigger] s[i]) < count_label(s, t))
}

/// The most common entry of `s`, the first met among equally common ones.
pub open spec fn most_common_of(s: Seq<u32>) -> u32 {
    choose|t: u32| first_most_common(s, t)
}

/// There is only one first most common entry.
pub proof fn lemma_first_most_common_unique(s: Seq<u32>, t1: u32, t2: u32)
    requires
        first_most_common(s, t1),
        first_most_common(s, t2),
    ensures
        t1 == t2,
{
    let j1 = choose|j: int|
        0 <= j < s.len() && s[j] == t1 && (forall|i: int|
            0 <= i < s.len() ==> count_label(s, #[trigger] s[i]) <= count_label(s, t1)) && (forall|i: int|
            0 <= i < j ==> count_label(s, #[trigger] s[i]) < count_label(s, t1));
    let j2 = choose|j: int|
        0 <= j < s.len() && s[j] == t2 && (forall|i: int|
            0 <= i < s.len() ==> count_label(s, #[trigger] s[i]) <= count_label(s, t2)) && (forall|i: int|
            0 <= i < j ==> count_label(s, #[trigger] s[i]) < count_label(s, t2));
    assert(count_label(s, s[j1]) <= count_label(s, t2));
    assert(count_label(s, s[j2]) <= count_label(s, t1));
    if j1 < j2 {
        assert(count_label(s, s[j1]) < count_label(s, t2));
    } else if j2 < j1 {
        assert(count_label(s, s[j2]) < count_label(s, t1));
    }
}

/// The most common entry of `labels`, the first met among equally common
/// ones; `None` for an empty list.
pub fn most_common(labels: &Vec<u32>) -> (r: Option<u32>)
    ensures
        r is None <==> labels@.len() == 0,
        r matches Some(t) ==> first_most_common(labels@, t) && t == most_common_of(labels@),
{
    let n = labels.len();
    let ghost s = labels@;
    let counts = label_counts(labels);
    let mut best: Option<(u32, u64)> = None;
    let ghost mut best_j: int = 0;
    for i in 0..n
        invariant
            n == s.len(),
            s == labels@,
            forall|l: u32| #[trigger] counts@.contains_key(l) <==> s.contains(l),
            forall|l: u32| counts@.contains_key(l) ==> #[trigger] counts@[l] == count_label(s, l),
            best is None <==> i == 0,
            best matches Some(bc) ==> 0 <= best_j < i && s[best_j] == bc.0 && bc.1 == count_label(s, bc.0)
                && (forall|k: int| 0 <= k < i ==> count_label(s, #[trigger] s[k]) <= bc.1) && (forall|k: int|
                0 <= k < best_j ==> count_label(s, #[trigger] s[k]) < bc.1),
    {
        let l = labels[i];
        proof {
            assert(s.contains(l)) by {
                assert(s[i as int] == l);
            }
        }
        let c: u64 = match counts.get(&l) {
            Some(c) => *c,
            None => 0,
        };
        match best {
            None => {
                best = Some((l, c));
                proof {
                    best_j = i as int;
                }
            },
            Some(bc) => {
                if c > bc.1 {
                    best = Some((l, c));
                    proof {
                        best_j = i as int;
                    }
                }
            },
        }
    }
    match best {
        Some(bc) => {
            proof {
                assert(first_most_common(s, bc.0));
                lemma_first_most_common_unique(s, bc.0, most_common_of(s));
            }
            Some(bc.0)
        },
        None => None,
    }
}

/// The edge-neighbours of cell `(x, y)`: left, right, up, down.
pub open spec fn edge_neighbors(x: int, y: int) -> Seq<(int, int)> {
    seq![(x - 1, y), (x + 1, y), (x, y - 1), (x, y + 1)]
}

/// The labels, other than `id`, of the cells of `cands` that lie in the
/// `w x h` grid, in order.
pub open spec fn foreign_labels(map: Seq<u32>, w: int, h: int, id: u32, cands: Seq<(int, int)>) -> Seq<u32>
    decreases cands.len(),
{
    if cands.len() == 0 {
        Seq::empty()
    } else {
        let rest = foreign_labels(map, w, h, id, cands.drop_last());
        let c = cands.last();
        if 0 <= c.0 < w && 0 <= c.1 < h && map[c.1 * w + c.0] != id {
            rest.push(map[c.1 * w + c.0])
        } else {
            rest
        }
    }
}

/// The labels other than `id` of the edge-neighbours of cell `(x, y)`.
fn foreign_neighbor_labels(map: &Vec<u32>, w: usize, h: usize, x: i64, y: i64, id: u32) -> (ls: Vec<u32>)
    requires
        map@.len() == w * h,
        w <= i32::MAX,
        h <= i32::MAX,
        -0x1_0000_0000 <= x <= 0x1_0000_0000,
        -0x1_0000_0000 <= y <= 0x1_0000_0000,
    ensures
        ls@ == foreign_labels(map@, w as int, h as int, id, edge_neighbors(x as int, y as int)),
{
    let ghost cands = edge_neighbors(x as int, y as int);
    let offsets: [(i64, i64); 4] = [(-1, 0), (1, 0), (0, -1), (0, 1)];
    let mut ls: Vec<u32> = Vec::new();
    assert(cands.take(0).len() == 0);
    for k in 0..4
        invariant
            map@.len() == w * h,
            w <= i32::MAX,
            h <= i32::MAX,
            -0x1_0000_0000 <= x <= 0x1_0000_0000,
            -0x1_0000_0000 <= y <= 0x1_0000_0000,
            offsets@ == seq![(-1i64, 0i64), (1i64, 0i64), (0i64, -1i64), (0i64, 1i64)],
            cands == edge_neighbors(x as int, y as int),
            ls@ == foreign_labels(map@, w as int, h as int, id, cands.take(k as int)),
    {
        let (dx, dy) = offsets[k];
        assert(offsets@[k as int] == (dx, dy));
        let nx = x + dx;
        let ny = y + dy;
        assert(cands.take(k + 1).drop_last() =~= cands.take(k as int));
        assert(cands[k as int] == (nx as int, ny as int));
        if !(nx < 0 || ny < 0 || nx >= w as i64 || ny >= h as i64) {
            let nxu = nx as usize;
            let nyu = ny as usize;
            proof {
                assert(nyu * w + nxu < w * h) by (nonlinear_arith)
                    requires
                        nxu < w,
                        nyu < h,
                ;
                assert(0 <= nyu * w) by (nonlinear_arith);
            }
            let len = map.len();
            proof {
                assert(nyu * w + nxu < len);
            }
            let label = map[nyu * w + nxu];
            if label != id {
                ls.push(label);
            }
        }
        assert(ls@ =~= foreign_labels(map@, w as int, h as int, id, cands.take(k + 1)));
    }
    assert(cands.take(4) =~= cands);
    ls
}

/// `after` is the editor state left behind `before` by painting pixel
/// `(x, y)` into region `target`, with `r` the command's result.
pub open spec fn painted_into(
    before: SegmentationEditor,
    after: SegmentationEditor,
    x: u32,
    y: u32,
    target: u32,
    r: Result<Segmentation, String>,
) -> bool {
    let seg = before.current_view();
    &&& after.original_view() == before.original_view()
    &&& after.history() == push_history(before.history(), seg)
    &&& if seg.has_region(target) {
        &&& after.current_view() == paint_result(seg, seq![(x, y)], target)
        &&& r matches Ok(s) && s@ == after.current_view()
    } else {
        &&& after.current_view() == seg
        &&& r matches Err(m) && m@ == "Export failed: "@ + ("Target region "@ + decimal(target as nat)
            + " does not exist"@)
    }
}

/// Fix an artifact pixel by painting it into the most common neighbouring region.
///
/// Neighbours are the pixels left, right, above and below that lie in the
/// image and belong to another region; among equally common regions the one
/// met first in that order is taken. Without such a neighbour nothing changes.
pub fn fix_artifact(editor: &mut SegmentationEditor, x: u32, y: u32) -> (r: Result<Segmentation, String>)
    requires
        old(editor).inv(),
        old(editor).current_view().wf(),
        y * old(editor).current_view().width + x < old(editor).current_view().label_map.len(),
        old(editor).current_view().width <= i32::MAX,
        old(editor).current_view().height <= i32::MAX,
        x <= i32::MAX,
        y <= i32::MAX,
    ensures
        final(editor).inv(),
        final(editor).current_view().wf(),
        ({
            let seg = old(editor).current_view();
            let w = seg.width as int;
            let h = seg.height as int;
            let ls = foreign_labels(
                seg.label_map,
                w,
                h,
                seg.label_map[y * w + x],
                edge_neighbors(x as int, y as int),
            );
            &&& ls.len() == 0 ==> *final(editor) == *old(editor) && (r matches Ok(s) && s@ == seg)
            &&& ls.len() > 0 ==> painted_into(*old(editor), *final(editor), x, y, most_common_of(ls), r)
        }),
{
    let seg = editor.get_current();
    let width = seg.width as usize;
    let height = seg.height as usize;
    let ghost w = width as int;
    proof {
        assert((y as int) * w + x < seg.label_map@.len());
        assert(0 <= (y as int) * w) by (nonlinear_arith)
            requires
                0 <= w,
        ;
    }
    let idx = y as usize * width + x as usize;
    let region_id = seg.label_map[idx];
    let neighbors = foreign_neighbor_labels(&seg.label_map, width, height, x as i64, y as i64, region_id);
    let ghost ls = foreign_labels(
        old(editor).current_view().label_map,
        w,
        old(editor).current_view().height as int,
        old(editor).current_view().label_map[y * w + x],
        edge_neighbors(x as int, y as int),
    );
    assert(neighbors@ == ls);
    match most_common(&neighbors) {
        Some(target) => {
            let mut pixels: Vec<(u32, u32)> = Vec::new();
            pixels.push((x, y));
            assert(pixels@ =~= seq![(x, y)]);
            let edit = SegEdit::PaintPixels { pixels, target_region: target };
            let ghost e = edit;
            let ghost before = *editor;
            let res = editor.apply_edit(edit);
            proof {
                assert(e matches SegEdit::PaintPixels { pixels, target_region } && pixels@ == seq![(x, y)] && target_region == target);
                assert(crate::editor::applied(before, e, *editor, res));
            }
            let r = match res {
                Ok(()) => Ok(copy_segmentation(editor.get_current())),
                Err(err) => Err(err.message()),
            };
            assert(painted_into(before, *editor, x, y, target, r));
            assert(target == most_common_of(ls));
            r
        },
        None => Ok(copy_segmentation(editor.get_current())),
    }
}


/// The color index of the first region carrying `id`, or `default` when no
/// region does.
pub open spec fn region_color_or(regions: Seq<Region>, id: u32, default: u16) -> u16 {
    if exists|k: int| 0 <= k < regions.len() && regions[k].id == id {
        regions[first_with_id(regions, id)].color_index
    } else {
        default
    }
}

/// The color index of the first region carrying `id`, or `default`.
fn color_of_region(regions: &Vec<Region>, id: u32, default: u16) -> (c: u16)
    ensures
        c == region_color_or(regions@, id, default),
{
    match find_region(regions, id) {
        Some(k) => {
            proof {
                lemma_first_with_id(regions@, id);
                lemma_first_with_id_unique(regions@, k as int, first_with_id(regions@, id), id);
            }
            regions[k].color_index
        },
        None => default,
    }
}

/// A display color derived from a palette index: `#` and three hex bytes.
pub open spec fn placeholder_hex(ci: u16) -> Seq<char> {
    "#"@ + hex_byte(((ci * 37) % 256) as u8) + hex_byte(((ci * 73) % 256) as u8) + hex_byte(
        ((ci * 111) % 256) as u8,
    )
}

/// The segmentation that a sample reads: the original one when
/// `from_original` holds, else the current, edited one.
pub open spec fn sampled_segmentation(editor: SegmentationEditor, from_original: bool) -> SegmentationView {
    if from_original {
        editor.original_view()
    } else {
        editor.current_view()
    }
}

/// Sample the region under pixel `(x, y)` of the current segmentation, or of
/// the original one when `from_original` holds.
///
/// The color is a placeholder derived from the region's palette index (zero
/// when no region carries the pixel's label); the real color comes from the
/// palette.
pub fn sample_color(editor: &SegmentationEditor, x: u32, y: u32, from_original: bool) -> (r: Result<
    SampleResult,
    String,
>)
    requires
        sampled_segmentation(*editor, from_original).wf(),
    ensures
        ({
            let seg = sampled_segmentation(*editor, from_original);
            if x >= seg.width || y >= seg.height {
                r matches Err(m) && m@ == "Coordinates out of bounds"@
            } else {
                &&& r matches Ok(s)
                &&& s.region_id == seg.label_map[y * seg.width + x]
                &&& s.color_hex@ == placeholder_hex(region_color_or(seg.regions, s.region_id, 0))
            }
        }),
{
    let seg = if from_original {
        editor.get_original()
    } else {
        editor.get_current()
    };
    if x >= seg.width || y >= seg.height {
        return Err(String::from_str("Coordinates out of bounds"));
    }
    let width = seg.width as usize;
    let height = seg.height as usize;
    let idx = crate::grid::cell_key(width, height, x as usize, y as usize) as usize;
    let region_id = seg.label_map[idx];
    let color_index = color_of_region(&seg.regions, region_id, 0);
    let c = color_index as u32;
    let mut color_hex = String::from_str("#");
    push_hex_byte(&mut color_hex, ((c * 37) % 256) as u8);
    push_hex_byte(&mut color_hex, ((c * 73) % 256) as u8);
    push_hex_byte(&mut color_hex, ((c * 111) % 256) as u8);
    proof {
        reveal_strlit("#");
    }
    Ok(SampleResult { region_id, color_hex })
}


/// Some region has color index `color`.
pub open spec fn has_color_region(regions: Seq<Region>, color: u16) -> bool {
    exists|k: int| 0 <= k < regions.len() && regions[k].color_index == color
}

/// Region `k` is the first of the regions of color `color` with the fewest pixels.
pub open spec fn is_first_smallest(regions: Seq<Region>, color: u16, k: int) -> bool {
    &&& 0 <= k < regions.len()
    &&& regions[k].color_index == color
    &&& forall|j: int|
        0 <= j < regions.len() && #[trigger] regions[j].color_index == color ==> regions[k].pixel_count
            <= regions[j].pixel_count
    &&& forall|j: int|
        0 <= j < k && #[trigger] regions[j].color_index == color ==> regions[j].pixel_count
            > regions[k].pixel_count
}

/// The index of the first smallest region of color `color`.
pub open spec fn smallest_of_color(regions: Seq<Region>, color: u16) -> int {
    choose|k: int| is_first_smallest(regions, color, k)
}

proof fn lemma_first_smallest_unique(regions: Seq<Region>, color: u16, k1: int, k2: int)
    requires
        is_first_smallest(regions, color, k1),
        is_first_smallest(regions, color, k2),
    ensures
        k1 == k2,
{
    if k1 < k2 {
        assert(regions[k1].pixel_count > regions[k2].pixel_count);
    } else if k2 < k1 {
        assert(regions[k2].pixel_count > regions[k1].pixel_count);
    }
}

/// The index of the first region of color `color` with the fewest pixels.
fn smallest_with_color(regions: &Vec<Region>, color: u16) -> (r: Option<usize>)
    ensures
        r is None <==> !has_color_region(regions@, color),
        r matches Some(k) ==> k == smallest_of_color(regions@, color) && is_first_smallest(
            regions@,
            color,
            k as int,
        ),
{
    let n = regions.len();
    let mut best: Option<usize> = None;
    for i in 0..n
        invariant
            n == regions@.len(),
            best is None <==> forall|j: int| 0 <= j < i ==> (#[trigger] regions@[j]).color_index != color,
            best matches Some(k) ==> k < i && regions@[k as int].color_index == color && (forall|j: int|
                0 <= j < i && #[trigger] regions@[j].color_index == color ==> regions@[k as int].pixel_count
                    <= regions@[j].pixel_count) && (forall|j: int|
                0 <= j < k && #[trigger] regions@[j].color_index == color ==> regions@[j].pixel_count
                    > regions@[k as int].pixel_count),
    {
        if regions[i].color_index == color {
            match best {
                None => {
                    best = Some(i);
                },
                Some(k) => {
                    if regions[i].pixel_count < regions[k].pixel_count {
                        best = Some(i);
                    }
                },
            }
        }
    }
    match best {
        Some(k) => {
            proof {
                assert(is_first_smallest(regions@, color, k as int));
                lemma_first_smallest_unique(regions@, color, k as int, smallest_of_color(regions@, color));
            }
            Some(k)
        },
        None => {
            proof {
                if has_color_region(regions@, color) {
                    let j = choose|j: int| 0 <= j < regions@.len() && regions@[j].color_index == color;
                    assert(regions@[j].color_index != color);
                }
            }
            None
        },
    }
}

/// The labels other than `id` of the edge-neighbours of the pixels carrying
/// `id` among the first `n` pixels, pixel by pixel.
pub open spec fn border_labels(map: Seq<u32>, w: int, h: int, id: u32, n: int) -> Seq<u32>
    decreases n,
{
    if n <= 0 {
        Seq::empty()
    } else {
        let rest = border_labels(map, w, h, id, n - 1);
        let i = n - 1;
        if map[i] == id {
            rest + foreign_labels(map, w, h, id, edge_neighbors(i % w, i / w))
        } else {
            rest
        }
    }
}

/// Some pixel carries label `v`.
pub open spec fn in_map(map: Seq<u32>, v: u32) -> bool {
    exists|i: int| 0 <= i < map.len() && map[i] == v
}

/// Every label of the list is the label of some pixel.
proof fn lemma_foreign_labels_in_map(map: Seq<u32>, w: int, h: int, id: u32, cands: Seq<(int, int)>)
    requires
        0 <= w,
        0 <= h,
        map.len() == w * h,
    ensures
        forall|k: int|
            0 <= k < foreign_labels(map, w, h, id, cands).len() ==> in_map(map, #[trigger] foreign_labels(map, w, h, id, cands)[k]),
        forall|k: int|
            0 <= k < foreign_labels(map, w, h, id, cands).len() ==> #[trigger] foreign_labels(
                map,
                w,
                h,
                id,
                cands,
            )[k] != id,
    decreases cands.len(),
{
    if cands.len() == 0 {
        assert(foreign_labels(map, w, h, id, cands).len() == 0);
    } else {
        lemma_foreign_labels_in_map(map, w, h, id, cands.drop_last());
        let rest = foreign_labels(map, w, h, id, cands.drop_last());
        let all = foreign_labels(map, w, h, id, cands);
        let c = cands.last();
        if 0 <= c.0 < w && 0 <= c.1 < h && map[c.1 * w + c.0] != id {
            crate::grid::lemma_key_cell(w, h, c);
            assert forall|k: int| 0 <= k < all.len() implies in_map(map, #[trigger] all[k]) by {
                if k < rest.len() {
                    assert(all[k] == rest[k]);
                } else {
                    let i0 = c.1 * w + c.0;
                    assert(0 <= i0 < map.len());
                    assert(map[i0] == all[k]);
                }
            }
            assert forall|k: int| 0 <= k < all.len() implies #[trigger] all[k] != id by {
                if k < rest.len() {
                    assert(all[k] == rest[k]);
                }
            }
        } else {
            assert(all == rest);
        }
    }
}

proof fn lemma_border_labels_in_map(map: Seq<u32>, w: int, h: int, id: u32, n: int)
    requires
        0 <= w,
        0 <= h,
        map.len() == w * h,
        n <= map.len(),
    ensures
        forall|k: int|
            0 <= k < border_labels(map, w, h, id, n).len() ==> in_map(map, #[trigger] border_labels(map, w, h, id, n)[k]),
        forall|k: int|
            0 <= k < border_labels(map, w, h, id, n).len() ==> #[trigger] border_labels(map, w, h, id, n)[k]
                != id,
    decreases n,
{
    if n <= 0 {
        assert(border_labels(map, w, h, id, n).len() == 0);
    } else {
        lemma_border_labels_in_map(map, w, h, id, n - 1);
        let i = n - 1;
        if map[i] == id {
            let rest = border_labels(map, w, h, id, n - 1);
            let f = foreign_labels(map, w, h, id, edge_neighbors(i % w, i / w));
            lemma_foreign_labels_in_map(map, w, h, id, edge_neighbors(i % w, i / w));
            let all = border_labels(map, w, h, id, n);
            assert(all == rest + f);
            assert forall|k: int| 0 <= k < all.len() implies in_map(map, #[trigger] all[k]) by {
                if k < rest.len() {
                    assert(all[k] == rest[k]);
                } else {
                    assert(all[k] == f[k - rest.len()]);
                }
            }
            assert forall|k: int| 0 <= k < all.len() implies #[trigger] all[k] != id by {
                if k < rest.len() {
                    assert(all[k] == rest[k]);
                } else {
                    assert(all[k] == f[k - rest.len()]);
                }
            }
        } else {
            assert(border_labels(map, w, h, id, n) == border_labels(map, w, h, id, n - 1));
        }
    }
}

/// The labels other than `id` of the edge-neighbours of the pixels carrying `id`.
fn border_label_list(map: &Vec<u32>, w: usize, h: usize, id: u32) -> (ls: Vec<u32>)
    requires
        map@.len() == w * h,
        w * h <= u32::MAX,
        w <= i32::MAX,
        h <= i32::MAX,
    ensures
        ls@ == border_labels(map@, w as int, h as int, id, map@.len() as int),
{
    let n = map.len();
    let mut ls: Vec<u32> = Vec::new();
    for i in 0..n
        invariant
            n == map@.len(),
            map@.len() == w * h,
            w * h <= u32::MAX,
            w <= i32::MAX,
            h <= i32::MAX,
            ls@ == border_labels(map@, w as int, h as int, id, i as int),
    {
        if map[i] == id {
            proof {
                assert(w > 0) by (nonlinear_arith)
                    requires
                        i < w * h,
                        0 <= w,
                        0 <= h,
                ;
                crate::grid::lemma_cell_key(w as int, h as int, i as int);
            }
            let px = i % w;
            let py = i / w;
            let mut found = foreign_neighbor_labels(map, w, h, px as i64, py as i64, id);
            ls.append(&mut found);
        }
    }
    ls
}

/// The vertical line through the left edge of the column of pixel `(x, y)`,
/// reaching 20 pixels above and below it, in half-pixel units.
pub open spec fn zap_line(x: u32, y: u32) -> SplitLine {
    SplitLine {
        start: LinePoint { x: (2 * x) as i64, y: (2 * y - 40) as i64 },
        end: LinePoint { x: (2 * x) as i64, y: (2 * y + 40) as i64 },
    }
}

/// The segmentation after the zap's split at pixel `(x, y)`: the pixel's
/// region split by the zap line.
pub open spec fn zap_split(seg: SegmentationView, x: u32, y: u32) -> SegmentationView {
    split_result(seg, seg.label_map[y * seg.width + x], zap_line(x, y))
}

/// The split a zap makes cuts along the vertical line at the left edge of
/// the clicked column: of the clicked pixel's region exactly the pixels in
/// columns `x` and beyond, in every row, move to the new region (whose id is
/// one more than the largest), and every other pixel keeps its label.
pub proof fn law_zap_splits_at_the_column(seg: SegmentationView, x: u32, y: u32)
    requires
        seg.wf(),
        x < seg.width,
        y < seg.height,
    ensures
        ({
            let w = seg.width as int;
            let rid = seg.label_map[y * w + x];
            let s1 = zap_split(seg, x, y);
            &&& s1.label_map.len() == seg.label_map.len()
            &&& forall|i: int|
                0 <= i < seg.label_map.len() ==> #[trigger] s1.label_map[i] == if seg.label_map[i] == rid && i
                    % w >= x {
                    (max_id(seg.regions) + 1) as u32
                } else {
                    seg.label_map[i]
                }
        }),
{
    let w = seg.width as int;
    let line = zap_line(x, y);
    assert(line.start.x == 2 * x && line.end.x == 2 * x);
    assert(line.start.y == 2 * y - 40 && line.end.y == 2 * y + 40);
    assert forall|i: int| 0 <= i < seg.label_map.len() implies #[trigger] crate::editor::negative_side(
        line,
        i % w,
        i / w,
    ) == (i % w >= x) by {
        let px = 2 * (i % w) + 1 - 2 * x;
        let py = 2 * (i / w) + 1 - (2 * y - 40);
        assert(0 * py - 80 * px == -80 * px);
    }
}

/// The candidates of a fix at `(x, y)` are the labels, other than the pixel's
/// own label `id`, of its four edge neighbours `(x - 1, y)`, `(x + 1, y)`,
/// `(x, y - 1)` and `(x, y + 1)` that lie in the grid, each counted once: a
/// label occurs among them as often as it labels one of those neighbours.
pub proof fn law_fix_candidates_are_the_four_neighbours(
    map: Seq<u32>,
    w: int,
    h: int,
    id: u32,
    x: int,
    y: int,
    l: u32,
)
    requires
        0 <= w,
        0 <= h,
        map.len() == w * h,
    ensures
        count_label(foreign_labels(map, w, h, id, edge_neighbors(x, y)), l) == if l == id {
            0
        } else {
            labels_at(map, w, h, x - 1, y, l) + labels_at(map, w, h, x + 1, y, l) + labels_at(map, w, h, x, y - 1, l)
                + labels_at(map, w, h, x, y + 1, l)
        },
{
    let c = edge_neighbors(x, y);
    assert(c.take(0) =~= Seq::<(int, int)>::empty());
    assert forall|k: int| 0 <= k <= 4 implies count_label(foreign_labels(map, w, h, id, #[trigger] c.take(k)), l)
        == if l == id { 0 } else { neighbour_count(map, w, h, c, k, l) } by {
        lemma_foreign_count_prefix(map, w, h, id, c, k, l);
    }
    assert(c.take(4) =~= c);
    assert(c[0] == (x - 1, y) && c[1] == (x + 1, y) && c[2] == (x, y - 1) && c[3] == (x, y + 1));
    reveal_with_fuel(neighbour_count, 5);
    assert(neighbour_count(map, w, h, c, 4, l) == labels_at(map, w, h, x - 1, y, l) + labels_at(map, w, h, x + 1, y, l)
        + labels_at(map, w, h, x, y - 1, l) + labels_at(map, w, h, x, y + 1, l));
}

/// One when pixel `(a, b)` lies in the `w x h` grid and carries `l`, else zero.
pub open spec fn labels_at(map: Seq<u32>, w: int, h: int, a: int, b: int, l: u32) -> nat {
    if 0 <= a < w && 0 <= b < h && map[b * w + a] == l {
        1
    } else {
        0
    }
}

/// How many of the first `k` cells of `c` lie in the grid and carry `l`.
pub open spec fn neighbour_count(map: Seq<u32>, w: int, h: int, c: Seq<(int, int)>, k: int, l: u32) -> nat
    decreases k,
{
    if k <= 0 {
        0
    } else {
        neighbour_count(map, w, h, c, k - 1, l) + labels_at(map, w, h, c[k - 1].0, c[k - 1].1, l)
    }
}

proof fn lemma_foreign_count_prefix(map: Seq<u32>, w: int, h: int, id: u32, c: Seq<(int, int)>, k: int, l: u32)
    requires
        0 <= k <= c.len(),
    ensures
        count_label(foreign_labels(map, w, h, id, c.take(k)), l) == if l == id {
            0
        } else {
            neighbour_count(map, w, h, c, k, l)
        },
    decreases k,
{
    if k > 0 {
        lemma_foreign_count_prefix(map, w, h, id, c, k - 1, l);
        let t = c.take(k);
        assert(t.drop_last() =~= c.take(k - 1));
        let rest = foreign_labels(map, w, h, id, c.take(k - 1));
        let p = c[k - 1];
        if 0 <= p.0 < w && 0 <= p.1 < h && map[p.1 * w + p.0] != id {
            assert(rest.push(map[p.1 * w + p.0]).drop_last() =~= rest);
        }
    } else {
        assert(c.take(0) =~= Seq::<(int, int)>::empty());
    }
}

/// The merge that zapping pixel `(x, y)` makes after its split, as the pair
/// (region merged away, region it joins), or `None` when it makes none: when
/// the smallest region of the pixel's region's color is below
/// `min_region_size` or is the piece cut off, that smallest region is merged
/// into the most common region along its border (the first met, scanning its
/// pixels in row-major order and each pixel's neighbours left, right, up, down).
pub open spec fn zap_merge(seg: SegmentationView, x: u32, y: u32, min_region_size: u32) -> Option<(u32, u32)> {
    let w = seg.width as int;
    let h = seg.height as int;
    let rid = seg.label_map[y * w + x];
    let s1 = zap_split(seg, x, y);
    let c1 = region_color_or(s1.regions, rid, 0);
    let small = s1.regions[smallest_of_color(s1.regions, c1)];
    let wanted = has_color_region(s1.regions, c1) && (small.pixel_count < min_region_size || small.id
        != rid);
    let c2 = region_color_or(s1.regions, rid, u16::MAX);
    let smaller = s1.regions[smallest_of_color(s1.regions, c2)].id;
    let labels = border_labels(s1.label_map, w, h, smaller, s1.label_map.len() as int);
    if wanted && has_color_region(s1.regions, c2) && labels.len() > 0 {
        Some((smaller, most_common_of(labels)))
    } else {
        None
    }
}

/// Zapping pixel `(x, y)` keeps every count and id within `u32`: the split
/// can name its new region, and the merge after it does not overflow the
/// pixel count of the region it joins.
pub open spec fn zap_fits(seg: SegmentationView, x: u32, y: u32, min_region_size: u32) -> bool {
    x < seg.width && y < seg.height && seg.has_region(seg.label_map[y * seg.width + x]) ==> {
        &&& max_id(seg.regions) < u32::MAX
        &&& zap_merge(seg, x, y, min_region_size) matches Some((a, b)) ==> merge_fits(
            zap_split(seg, x, y),
            a,
            b,
        )
    }
}

/// `after` is the editor state that zapping pixel `(x, y)` leaves behind
/// `before`, with `r` the command's result. Out of bounds nothing changes.
/// Otherwise the pixel's region is split by the zap line (an unknown region
/// is an error), and then the merge of `zap_merge`, if any, is applied (a
/// region to join that does not exist is an error). Each edit saves the state
/// it started from, as `apply_edit` does.
pub open spec fn zapped(
    before: SegmentationEditor,
    after: SegmentationEditor,
    x: u32,
    y: u32,
    min_region_size: u32,
    r: Result<Segmentation, String>,
) -> bool {
    let seg = before.current_view();
    let w = seg.width as int;
    if x >= seg.width || y >= seg.height {
        after == before && (r matches Err(m) && m@ == "Coordinates out of bounds"@)
    } else {
        let rid = seg.label_map[y * w + x];
        let h1 = push_history(before.history(), seg);
        &&& after.original_view() == before.original_view()
        &&& if !seg.has_region(rid) {
            &&& after.current_view() == seg
            &&& after.history() == h1
            &&& r matches Err(m) && m@ == "Export failed: "@ + ("Region "@ + decimal(rid as nat)
                + " does not exist"@)
        } else {
            let s1 = zap_split(seg, x, y);
            match zap_merge(seg, x, y, min_region_size) {
                None => {
                    &&& after.current_view() == s1
                    &&& after.history() == h1
                    &&& r matches Ok(s) && s@ == s1
                },
                Some((a, b)) => {
                    &&& after.history() == push_history(h1, s1)
                    &&& if s1.has_region(b) {
                        &&& after.current_view() == merge_result(s1, a, b)
                        &&& r matches Ok(s) && s@ == after.current_view()
                    } else {
                        &&& after.current_view() == s1
                        &&& r matches Err(m) && m@ == "Export failed: "@ + ("Region "@ + decimal(
                            a as nat,
                        ) + " or "@ + decimal(b as nat) + " does not exist"@)
                    }
                },
            }
        }
    }
}

/// Zap: split a region at the clicked pixel and merge the smaller piece into
/// its most common neighbour.
///
/// Any editor state is accepted, consistent or not (out of bounds, whatever
/// it holds); a consistent segmentation stays consistent.
pub fn zap_region(editor: &mut SegmentationEditor, x: u32, y: u32, min_region_size: u32) -> (r: Result<
    Segmentation,
    String,
>)
    requires
        old(editor).inv(),
        zap_fits(old(editor).current_view(), x, y, min_region_size),
        x < old(editor).current_view().width && y < old(editor).current_view().height ==> {
            &&& old(editor).current_view().wf()
            &&& old(editor).current_view().width <= i32::MAX
            &&& old(editor).current_view().height <= i32::MAX
        },
    ensures
        final(editor).inv(),
        old(editor).current_view().wf() ==> final(editor).current_view().wf(),
        consistent(old(editor).current_view()) ==> consistent(final(editor).current_view()),
        zapped(*old(editor), *final(editor), x, y, min_region_size, r),
{
    let ghost e0 = *editor;
    let ghost seg = editor.current_view();
    let cur = editor.get_current();
    if x >= cur.width || y >= cur.height {
        return Err(String::from_str("Coordinates out of bounds"));
    }
    let width = cur.width as usize;
    let height = cur.height as usize;
    let ghost w = width as int;
    let ghost h = height as int;
    let idx = crate::grid::cell_key(width, height, x as usize, y as usize) as usize;
    let region_id = cur.label_map[idx];

    // A vertical split line through the clicked pixel's column
    let split_line = SplitLine {
        start: LinePoint { x: 2 * (x as i64), y: 2 * (y as i64) - 40 },
        end: LinePoint { x: 2 * (x as i64), y: 2 * (y as i64) + 40 },
    };
    let split = SegEdit::SplitRegion { region_id, split_line };
    proof {
        assert(split_line == zap_line(x, y));
        if consistent(seg) && seg.has_region(region_id) {
            law_edit_keeps_consistency(seg, split);
        }
    }
    let res = editor.apply_edit(split);
    let ghost s1 = editor.current_view();
    match res {
        Ok(()) => {},
        Err(e) => {
            return Err(e.message());
        },
    }
    assert(s1 == zap_split(seg, x, y));

    // Find the smallest region of the split region's color
    let seg_after = editor.get_current();
    let color = color_of_region(&seg_after.regions, region_id, 0);
    let new_region = smallest_with_color(&seg_after.regions, color);
    if let Some(k) = new_region {
        let small = seg_after.regions[k];
        if small.pixel_count < min_region_size || small.id != region_id {
            let color2 = color_of_region(&seg_after.regions, region_id, u16::MAX);
            let smaller_id = match smallest_with_color(&seg_after.regions, color2) {
                Some(k2) => Some(seg_after.regions[k2].id),
                None => None,
            };
            if let Some(smaller) = smaller_id {
                let labels = border_label_list(&seg_after.label_map, width, height, smaller);
                if let Some(target) = most_common(&labels) {
                    let merge = SegEdit::MergeRegions { source: smaller, target };
                    proof {
                        assert(zap_merge(seg, x, y, min_region_size) == Some((smaller, target)));
                        lemma_border_labels_in_map(s1.label_map, w, h, smaller, s1.label_map.len() as int);
                        let j = choose|j: int|
                            0 <= j < labels@.len() && labels@[j] == target && (forall|i: int|
                                0 <= i < labels@.len() ==> count_label(labels@, #[trigger] labels@[i])
                                    <= count_label(labels@, target)) && (forall|i: int|
                                0 <= i < j ==> count_label(labels@, #[trigger] labels@[i]) < count_label(
                                labels@,
                                target,
                            ));
                        assert(labels@[j] != smaller);
                        if consistent(s1) {
                            assert(in_map(s1.label_map, labels@[j]));
                            let i = choose|i: int| 0 <= i < s1.label_map.len() && s1.label_map[i] == labels@[j];
                            assert(s1.has_region(s1.label_map[i]));
                            assert(s1.has_region(smaller)) by {
                                let k2 = smallest_of_color(s1.regions, color2);
                                assert(s1.regions[k2].id == smaller);
                            }
                            law_edit_keeps_consistency(s1, merge);
                        }
                    }
                    let res2 = editor.apply_edit(merge);
                    match res2 {
                        Ok(()) => {},
                        Err(e) => {
                            return Err(e.message());
                        },
                    }
                } else {
                    assert(zap_merge(seg, x, y, min_region_size) is None);
                }
            } else {
                assert(zap_merge(seg, x, y, min_region_size) is None);
            }
        } else {
            assert(zap_merge(seg, x, y, min_region_size) is None);
        }
    } else {
        assert(zap_merge(seg, x, y, min_region_size) is None);
    }
    Ok(copy_segmentation(editor.get_current()))
}

} // verus!
