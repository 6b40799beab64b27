use vstd::prelude::*;

use crate::model::{
    consistent, count_label, first_with_id, is_first_with_id, lemma_count_label_bound,
    lemma_count_label_congruent, lemma_count_label_positive, lemma_count_label_take_step,
    lemma_count_label_zero, lemma_first_with_id, unique_ids,
};
use crate::text::{decimal, number_message, push_decimal};
use crate::grid::{adjacent, cell_key, cell_of, key_of, lemma_cell_key, lemma_key_cell};
use crate::types::{Region, SegEdit, Segmentation, SegmentationView, SplitLine, VectorItError};
use vstd::arithmetic::div_mod::lemma_fundamental_div_mod_converse;

verus! {

broadcast use vstd::std_specs::hash::group_hash_axioms;

/// Maximum number of undo entries to keep in memory.
pub const MAX_UNDO_STACK: usize = 20;

/// The undo history after saving `state`: the oldest entry is dropped when the
/// history already holds `MAX_UNDO_STACK` entries.
pub open spec fn push_history(
    history: Seq<SegmentationView>,
    state: SegmentationView,
) -> Seq<SegmentationView> {
    if history.len() >= MAX_UNDO_STACK {
        history.drop_first().push(state)
    } else {
        history.push(state)
    }
}


/// Pixel `p` is inside the grid and sits at row-major index `idx`.
pub open spec fn paints_index(p: (u32, u32), width: u32, height: u32, idx: int) -> bool {
    &&& p.0 < width
    &&& p.1 < height
    &&& p.1 * width + p.0 == idx
}

/// Some pixel of `pixels` sits at row-major index `idx`.
pub open spec fn painted(pixels: Seq<(u32, u32)>, width: u32, height: u32, idx: int) -> bool {
    exists|j: int| 0 <= j < pixels.len() && #[trigger] paints_index(pixels[j], width, height, idx)
}

/// The label map after painting `pixels` with `target`.
pub open spec fn paint_map(
    map: Seq<u32>,
    pixels: Seq<(u32, u32)>,
    width: u32,
    height: u32,
    target: u32,
) -> Seq<u32> {
    Seq::new(
        map.len(),
        |i: int|
            if painted(pixels, width, height, i) {
                target
            } else {
                map[i]
            },
    )
}

/// The ids whose pixel counts a paint recomputes: the target and every label
/// that a painted pixel carried before.
pub open spec fn paint_affected(
    map: Seq<u32>,
    pixels: Seq<(u32, u32)>,
    width: u32,
    height: u32,
    target: u32,
) -> Set<u32> {
    Set::new(
        |id: u32|
            id == target || exists|i: int|
                0 <= i < map.len() && painted(pixels, width, height, i) && #[trigger] map[i] == id,
    )
}

/// The region list with the pixel counts of the `affected` ids recomputed
/// from `map`: the first region with such an id gets the number of pixels
/// carrying it, later regions with the same id get zero.
pub open spec fn recount(regions: Seq<Region>, map: Seq<u32>, affected: Set<u32>) -> Seq<Region> {
    Seq::new(
        regions.len(),
        |k: int|
            if affected.contains(regions[k].id) {
                Region {
                    pixel_count: if is_first_with_id(regions, k, regions[k].id) {
                        count_label(map, regions[k].id) as u32
                    } else {
                        0
                    },
                    ..regions[k]
                }
            } else {
                regions[k]
            },
    )
}

/// The segmentation after painting `pixels` into region `target`.
pub open spec fn paint_result(
    seg: SegmentationView,
    pixels: Seq<(u32, u32)>,
    target: u32,
) -> SegmentationView {
    let map = paint_map(seg.label_map, pixels, seg.width, seg.height, target);
    SegmentationView {
        regions: recount(
            seg.regions,
            map,
            paint_affected(seg.label_map, pixels, seg.width, seg.height, target),
        ),
        label_map: map,
        ..seg
    }
}


/// The label map after relabelling `source` pixels as `target`.
pub open spec fn merge_map(map: Seq<u32>, source: u32, target: u32) -> Seq<u32> {
    map.map_values(|l: u32| if l == source { target } else { l })
}

/// The regions of `s` that do not carry `id`, in order.
pub open spec fn without_id(s: Seq<Region>, id: u32) -> Seq<Region>
    decreases s.len(),
{
    if s.len() == 0 {
        s
    } else if s.last().id == id {
        without_id(s.drop_last(), id)
    } else {
        without_id(s.drop_last(), id).push(s.last())
    }
}

/// The region list after merging `source` into `target`: the first `target`
/// region gains the pixel count of the first `source` region, then every
/// region carrying `source` is removed.
pub open spec fn merge_regions_list(regions: Seq<Region>, source: u32, target: u32) -> Seq<Region> {
    let sc = regions[first_with_id(regions, source)].pixel_count;
    let t = first_with_id(regions, target);
    let bumped = regions.update(
        t,
        Region { pixel_count: (regions[t].pixel_count + sc) as u32, ..regions[t] },
    );
    without_id(bumped, source)
}

/// The segmentation after merging region `source` into region `target`.
pub open spec fn merge_result(seg: SegmentationView, source: u32, target: u32) -> SegmentationView {
    SegmentationView {
        regions: merge_regions_list(seg.regions, source, target),
        label_map: merge_map(seg.label_map, source, target),
        ..seg
    }
}

/// Merging `source` into `target` does not overflow the target's pixel count.
pub open spec fn merge_fits(seg: SegmentationView, source: u32, target: u32) -> bool {
    seg.has_region(source) && seg.has_region(target) ==> seg.regions[first_with_id(
        seg.regions,
        target,
    )].pixel_count + seg.regions[first_with_id(seg.regions, source)].pixel_count <= u32::MAX
}


/// The centre of pixel `(x, y)` lies strictly on the negative side of the
/// directed line through `line.start` and `line.end`.
pub open spec fn negative_side(line: SplitLine, x: int, y: int) -> bool {
    let dx = line.end.x - line.start.x;
    let dy = line.end.y - line.start.y;
    let px = 2 * x + 1 - line.start.x;
    let py = 2 * y + 1 - line.start.y;
    dx * py - dy * px < 0
}

/// Pixel `i` of region `region_id` lies on the negative side of the split line.
pub open spec fn moves_in_split(
    map: Seq<u32>,
    width: u32,
    region_id: u32,
    line: SplitLine,
    i: int,
) -> bool {
    map[i] == region_id && negative_side(line, i % (width as int), i / (width as int))
}

/// The number of pixels `i < n` of region `region_id` whose side of the
/// split line is the negative one exactly when `moved` holds.
pub open spec fn split_count(
    map: Seq<u32>,
    width: u32,
    region_id: u32,
    line: SplitLine,
    moved: bool,
    n: int,
) -> nat
    decreases n,
{
    if n <= 0 {
        0
    } else {
        split_count(map, width, region_id, line, moved, n - 1) + if map[n - 1] == region_id
            && negative_side(line, (n - 1) % (width as int), (n - 1) / (width as int)) == moved {
            1nat
        } else {
            0nat
        }
    }
}

/// The largest region id of the list (zero for an empty list).
pub open spec fn max_id(regions: Seq<Region>) -> u32
    decreases regions.len(),
{
    if regions.len() == 0 {
        0
    } else if regions.last().id > max_id(regions.drop_last()) {
        regions.last().id
    } else {
        max_id(regions.drop_last())
    }
}

/// The label map after a split: pixels that move get `new_id`.
pub open spec fn split_map(
    map: Seq<u32>,
    width: u32,
    region_id: u32,
    line: SplitLine,
    new_id: u32,
) -> Seq<u32> {
    Seq::new(
        map.len(),
        |i: int|
            if moves_in_split(map, width, region_id, line, i) {
                new_id
            } else {
                map[i]
            },
    )
}

/// The region list after a split: the first region carrying `region_id` keeps
/// the pixels that stay, and a region with a fresh id (one more than the largest)
/// and the same color takes the moved pixels, if there are any.
pub open spec fn split_regions_list(
    regions: Seq<Region>,
    map: Seq<u32>,
    width: u32,
    region_id: u32,
    line: SplitLine,
) -> Seq<Region> {
    let k = first_with_id(regions, region_id);
    let moved = split_count(map, width, region_id, line, true, map.len() as int);
    let stayed = split_count(map, width, region_id, line, false, map.len() as int);
    let r1 = regions.update(k, Region { pixel_count: stayed as u32, ..regions[k] });
    if moved > 0 {
        r1.push(
            Region {
                id: (max_id(regions) + 1) as u32,
                color_index: regions[k].color_index,
                pixel_count: moved as u32,
            },
        )
    } else {
        r1
    }
}

/// The segmentation after splitting region `region_id` along `line`.
pub open spec fn split_result(seg: SegmentationView, region_id: u32, line: SplitLine) -> SegmentationView {
    SegmentationView {
        regions: split_regions_list(seg.regions, seg.label_map, seg.width, region_id, line),
        label_map: split_map(
            seg.label_map,
            seg.width,
            region_id,
            line,
            (max_id(seg.regions) + 1) as u32,
        ),
        ..seg
    }
}

/// A split of region `region_id` can name its new region without overflow.
pub open spec fn split_fits(seg: SegmentationView, region_id: u32) -> bool {
    seg.has_region(region_id) ==> max_id(seg.regions) < u32::MAX
}


/// The edit can be applied: the regions it names exist.
pub open spec fn edit_applies(seg: SegmentationView, edit: SegEdit) -> bool {
    match edit {
        SegEdit::PaintPixels { pixels, target_region } => seg.has_region(target_region),
        SegEdit::SplitRegion { region_id, split_line } => seg.has_region(region_id),
        SegEdit::MergeRegions { source, target } => seg.has_region(source) && seg.has_region(target),
    }
}

/// The segmentation after applying an edit that applies.
pub open spec fn edit_result(seg: SegmentationView, edit: SegEdit) -> SegmentationView {
    match edit {
        SegEdit::PaintPixels { pixels, target_region } => paint_result(seg, pixels@, target_region),
        SegEdit::SplitRegion { region_id, split_line } => split_result(seg, region_id, split_line),
        SegEdit::MergeRegions { source, target } => merge_result(seg, source, target),
    }
}

/// Both ends of a split line lie within `2^61` half-pixels of the origin.
pub open spec fn line_in_range(line: SplitLine) -> bool {
    &&& -0x2000_0000_0000_0000 <= line.start.x <= 0x2000_0000_0000_0000
    &&& -0x2000_0000_0000_0000 <= line.start.y <= 0x2000_0000_0000_0000
    &&& -0x2000_0000_0000_0000 <= line.end.x <= 0x2000_0000_0000_0000
    &&& -0x2000_0000_0000_0000 <= line.end.y <= 0x2000_0000_0000_0000
}

/// The edit keeps pixel counts and region ids within `u32`, and a split line
/// within the range where its side test is exact.
pub open spec fn edit_fits(seg: SegmentationView, edit: SegEdit) -> bool {
    match edit {
        SegEdit::PaintPixels { .. } => true,
        SegEdit::SplitRegion { region_id, split_line } => split_fits(seg, region_id) && line_in_range(split_line),
        SegEdit::MergeRegions { source, target } => merge_fits(seg, source, target),
    }
}

/// The message of the error reported for an edit that does not apply.
pub open spec fn edit_error_message(edit: SegEdit) -> Seq<char> {
    match edit {
        SegEdit::PaintPixels { pixels, target_region } => "Target region "@ + decimal(
            target_region as nat,
        ) + " does not exist"@,
        SegEdit::SplitRegion { region_id, .. } => "Region "@ + decimal(region_id as nat)
            + " does not exist"@,
        SegEdit::MergeRegions { source, target } => "Region "@ + decimal(source as nat) + " or "@
            + decimal(target as nat) + " does not exist"@,
    }
}

/// `after` is the editor state that `apply_edit(edit)` leaves behind `before`,
/// returning `res`.
pub open spec fn applied(
    before: SegmentationEditor,
    edit: SegEdit,
    after: SegmentationEditor,
    res: Result<(), VectorItError>,
) -> bool {
    &&& after.inv()
    &&& after.original_view() == before.original_view()
    &&& after.history() == push_history(before.history(), before.current_view())
    &&& (res is Ok <==> edit_applies(before.current_view(), edit))
    &&& (res is Ok ==> after.current_view() == edit_result(before.current_view(), edit))
    &&& (res is Err ==> after.current_view() == before.current_view())
    &&& (res matches Err(e) ==> e matches VectorItError::ExportFailed(m) && m@
        == edit_error_message(edit))
}


/// `after` is the editor state that `undo` leaves behind `before`, returning
/// `undone`: the last saved state comes back when there is one.
pub open spec fn undo_step(before: SegmentationEditor, after: SegmentationEditor, undone: bool) -> bool {
    &&& after.inv()
    &&& undone == (before.history().len() > 0)
    &&& after.original_view() == before.original_view()
    &&& (undone ==> after.current_view() == before.history().last() && after.history()
        == before.history().drop_last())
    &&& (!undone ==> after.current_view() == before.current_view() && after.history()
        == before.history())
}

/// `after` is the editor state that `reset` leaves behind `before`.
pub open spec fn reset_step(before: SegmentationEditor, after: SegmentationEditor) -> bool {
    &&& after.inv()
    &&& after.original_view() == before.original_view()
    &&& after.current_view() == before.original_view()
    &&& after.history() == Seq::<SegmentationView>::empty()
}

/// Undoing right after an edit restores the segmentation the edit started
/// from, whether the edit applied or not; the history is restored too unless
/// the edit pushed the oldest saved state out of it.
pub proof fn law_undo_reverts_edit(
    e0: SegmentationEditor,
    edit: SegEdit,
    e1: SegmentationEditor,
    res: Result<(), VectorItError>,
    e2: SegmentationEditor,
    undone: bool,
)
    requires
        applied(e0, edit, e1, res),
        undo_step(e1, e2, undone),
    ensures
        undone,
        e2.current_view() == e0.current_view(),
        e2.original_view() == e0.original_view(),
        e0.history().len() < MAX_UNDO_STACK ==> e2.history() == e0.history(),
{
    if e0.history().len() < MAX_UNDO_STACK {
        assert(e0.history().push(e0.current_view()).drop_last() =~= e0.history());
    }
}

/// Undo with an empty history changes nothing and reports it.
pub proof fn law_undo_empty_is_noop(e0: SegmentationEditor, e1: SegmentationEditor, undone: bool)
    requires
        undo_step(e0, e1, undone),
        e0.history().len() == 0,
    ensures
        !undone,
        e1.current_view() == e0.current_view(),
        e1.history() == e0.history(),
{
}

/// An edit leaves the original segmentation alone, and a reset after it
/// brings the original back with nothing left to undo.
pub proof fn law_reset_restores_original(
    e0: SegmentationEditor,
    edit: SegEdit,
    e1: SegmentationEditor,
    res: Result<(), VectorItError>,
    e2: SegmentationEditor,
)
    requires
        applied(e0, edit, e1, res),
        reset_step(e1, e2),
    ensures
        e2.current_view() == e0.original_view(),
        e2.original_view() == e0.original_view(),
        e2.history().len() == 0,
{
}

/// The undo history never holds more than `MAX_UNDO_STACK` states.
pub proof fn law_history_bounded(
    e0: SegmentationEditor,
    edit: SegEdit,
    e1: SegmentationEditor,
    res: Result<(), VectorItError>,
)
    requires
        applied(e0, edit, e1, res),
    ensures
        e1.history().len() <= MAX_UNDO_STACK,
        e0.history().len() < MAX_UNDO_STACK ==> e1.history().len() == e0.history().len() + 1,
        e0.history().len() == MAX_UNDO_STACK ==> e1.history().len() == MAX_UNDO_STACK,
{
}


/// The editors `es` come one from the other by `apply_edit`: step `i` applies
/// `edits[i]` with result `results[i]`.
pub open spec fn edit_chain(
    es: Seq<SegmentationEditor>,
    edits: Seq<SegEdit>,
    results: Seq<Result<(), VectorItError>>,
) -> bool {
    &&& es.len() == edits.len() + 1
    &&& results.len() == edits.len()
    &&& forall|i: int| 0 <= i < edits.len() ==> applied(es[i], #[trigger] edits[i], es[i + 1], results[i])
}

/// After `n` edits from an editor with nothing to undo, the history holds the
/// states before the last `min(n, MAX_UNDO_STACK)` edits, the latest last: the
/// undo stack keeps the last twenty states and drops older ones.
pub proof fn law_history_keeps_last_states(
    es: Seq<SegmentationEditor>,
    edits: Seq<SegEdit>,
    results: Seq<Result<(), VectorItError>>,
)
    requires
        edit_chain(es, edits, results),
        es[0].history().len() == 0,
    ensures
        ({
            let n = edits.len() as int;
            let hn = es[n].history();
            &&& hn.len() == if n < MAX_UNDO_STACK {
                n
            } else {
                MAX_UNDO_STACK as int
            }
            &&& forall|j: int| 0 <= j < hn.len() ==> #[trigger] hn[hn.len() - 1 - j] == es[n - 1 - j].current_view()
        }),
    decreases edits.len(),
{
    let n = edits.len() as int;
    if n > 0 {
        let es0 = es.drop_last();
        let ed0 = edits.drop_last();
        let rs0 = results.drop_last();
        assert forall|i: int| 0 <= i < ed0.len() implies applied(es0[i], #[trigger] ed0[i], es0[i + 1], rs0[i]) by {
            assert(applied(es[i], edits[i], es[i + 1], results[i]));
        }
        law_history_keeps_last_states(es0, ed0, rs0);
        let h = es[n - 1].history();
        let hn = es[n].history();
        assert(applied(es[n - 1], edits[n - 1], es[n], results[n - 1]));
        assert(hn == push_history(h, es[n - 1].current_view()));
        assert forall|j: int| 0 <= j < hn.len() implies #[trigger] hn[hn.len() - 1 - j] == es[n - 1 - j].current_view() by {
            if j > 0 {
                let jj = j - 1;
                assert(h[h.len() - 1 - jj] == es0[n - 2 - jj].current_view());
            }
        }
    }
}

/// The editors `us` come one from the other by `undo`, step `i` returning
/// `undone[i]`.
pub open spec fn undo_chain(us: Seq<SegmentationEditor>, undone: Seq<bool>) -> bool {
    &&& us.len() == undone.len() + 1
    &&& forall|i: int| 0 <= i < undone.len() ==> undo_step(us[i], us[i + 1], #[trigger] undone[i])
}

/// Undoing again and again walks the history back: the `i`-th undo succeeds
/// exactly while saved states remain, and after `i` successful undos the
/// segmentation is the `i`-th latest saved state.
pub proof fn law_undo_walks_back(us: Seq<SegmentationEditor>, undone: Seq<bool>)
    requires
        undo_chain(us, undone),
    ensures
        ({
            let h = us[0].history();
            &&& forall|i: int| 0 <= i < undone.len() ==> #[trigger] undone[i] == (i < h.len())
            &&& forall|i: int|
                0 < i <= undone.len() && i <= h.len() ==> #[trigger] us[i].current_view() == h[h.len() - i]
            &&& forall|i: int| 0 <= i <= undone.len() ==> #[trigger] us[i].history() == h.take(
                if i <= h.len() {
                    h.len() - i
                } else {
                    0
                },
            )
            &&& forall|i: int| 0 <= i <= undone.len() ==> #[trigger] us[i].original_view() == us[0].original_view()
        }),
    decreases undone.len(),
{
    let h = us[0].history();
    let k = undone.len() as int;
    if k == 0 {
        assert(h.take(h.len() as int) =~= h);
    } else {
        let us0 = us.drop_last();
        let un0 = undone.drop_last();
        assert forall|i: int| 0 <= i < un0.len() implies undo_step(us0[i], us0[i + 1], #[trigger] un0[i]) by {
            assert(undo_step(us[i], us[i + 1], undone[i]));
        }
        law_undo_walks_back(us0, un0);
        assert(undo_step(us[k - 1], us[k], undone[k - 1]));
        assert(us[k - 1] == us0[k - 1]);
        let hk = us[k - 1].history();
        if k - 1 < h.len() {
            assert(hk == h.take(h.len() - (k - 1)));
            assert(hk.drop_last() =~= h.take(h.len() - k));
            assert(hk.last() == h[h.len() - k]);
        } else {
            assert(hk == h.take(0));
        }
        assert forall|i: int| 0 <= i < undone.len() implies #[trigger] undone[i] == (i < h.len()) by {
            if i < k - 1 {
                assert(undone[i] == un0[i]);
            }
        }
        assert forall|i: int|
            0 < i <= undone.len() && i <= h.len() implies #[trigger] us[i].current_view() == h[h.len() - i] by {
            if i < k {
                assert(us[i] == us0[i]);
            }
        }
        assert forall|i: int| 0 <= i <= undone.len() implies #[trigger] us[i].history() == h.take(
            if i <= h.len() {
                h.len() - i
            } else {
                0
            },
        ) by {
            if i < k {
                assert(us[i] == us0[i]);
            }
        }
        assert forall|i: int| 0 <= i <= undone.len() implies #[trigger] us[i].original_view() == us[0].original_view() by {
            if i < k {
                assert(us[i] == us0[i]);
            }
        }
    }
}

/// `after` comes from `before` by one editor operation: an edit, an undo or
/// a reset.
pub open spec fn editor_step(before: SegmentationEditor, after: SegmentationEditor) -> bool {
    ||| exists|edit: SegEdit, res: Result<(), VectorItError>| applied(before, edit, after, res)
    ||| exists|undone: bool| undo_step(before, after, undone)
    ||| reset_step(before, after)
}

proof fn lemma_steps_keep_original(es: Seq<SegmentationEditor>)
    requires
        es.len() > 0,
        forall|i: int| 0 <= i < es.len() - 1 ==> #[trigger] editor_step(es[i], es[i + 1]),
    ensures
        es.last().original_view() == es[0].original_view(),
    decreases es.len(),
{
    if es.len() > 1 {
        let es0 = es.drop_last();
        assert forall|i: int| 0 <= i < es0.len() - 1 implies #[trigger] editor_step(es0[i], es0[i + 1]) by {
            assert(editor_step(es[i], es[i + 1]));
        }
        lemma_steps_keep_original(es0);
        let m = es.len() - 2;
        assert(editor_step(es[m], es[m + 1]));
        assert(es0.last() == es[m]);
    }
}

/// Whatever edits, undos and resets happened since an editor was made, a
/// reset brings back the segmentation it was made with and leaves nothing to
/// undo: an undo right after it fails and changes nothing.
pub proof fn law_reset_after_any_operations(
    es: Seq<SegmentationEditor>,
    e: SegmentationEditor,
    e2: SegmentationEditor,
    undone: bool,
)
    requires
        es.len() > 0,
        forall|i: int| 0 <= i < es.len() - 1 ==> #[trigger] editor_step(es[i], es[i + 1]),
        reset_step(es.last(), e),
        undo_step(e, e2, undone),
    ensures
        e.current_view() == es[0].original_view(),
        e.history().len() == 0,
        !undone,
        e2.current_view() == es[0].original_view(),
{
    lemma_steps_keep_original(es);
}

/// `can_undo` answers whether the next undo succeeds: the history it reads is
/// the one `undo` reads.
pub proof fn law_can_undo_predicts_undo(e: SegmentationEditor, e2: SegmentationEditor, undone: bool)
    requires
        undo_step(e, e2, undone),
    ensures
        undone == (e.history().len() > 0),
{
}

/// After any edit, applied or refused, there is something to undo.
pub proof fn law_edit_enables_undo(
    e0: SegmentationEditor,
    edit: SegEdit,
    e1: SegmentationEditor,
    res: Result<(), VectorItError>,
)
    requires
        applied(e0, edit, e1, res),
    ensures
        e1.history().len() > 0,
{
}

/// Painting is row-major: every painted pixel `(x, y)` inside the grid gets
/// the target at entry `y * width + x` of the label map, and every entry that
/// no painted pixel inside the grid names keeps its label.
pub proof fn law_paint_is_row_major(seg: SegmentationView, pixels: Seq<(u32, u32)>, target: u32)
    requires
        seg.wf(),
    ensures
        paint_result(seg, pixels, target).label_map.len() == seg.label_map.len(),
        forall|k: int|
            0 <= k < pixels.len() && (#[trigger] pixels[k]).0 < seg.width && pixels[k].1 < seg.height
                ==> paint_result(seg, pixels, target).label_map[pixels[k].1 * seg.width + pixels[k].0] == target,
        forall|i: int|
            0 <= i < seg.label_map.len() && (forall|k: int|
                0 <= k < pixels.len() && (#[trigger] pixels[k]).0 < seg.width && pixels[k].1 < seg.height
                    ==> pixels[k].1 * seg.width + pixels[k].0 != i) ==> paint_result(seg, pixels, target).label_map[i]
                == seg.label_map[i],
{
    let w = seg.width;
    let h = seg.height;
    assert forall|k: int|
        0 <= k < pixels.len() && (#[trigger] pixels[k]).0 < w && pixels[k].1 < h implies paint_result(
        seg,
        pixels,
        target,
    ).label_map[pixels[k].1 * w + pixels[k].0] == target by {
        let i = pixels[k].1 * w + pixels[k].0;
        assert(i < w * h) by (nonlinear_arith)
            requires
                pixels[k].0 < w,
                pixels[k].1 < h,
                i == pixels[k].1 * w + pixels[k].0,
        ;
        assert(0 <= i) by (nonlinear_arith)
            requires
                i == pixels[k].1 * w + pixels[k].0,
        ;
        assert(paints_index(pixels[k], w, h, i));
        assert(painted(pixels, w, h, i));
    }
    assert forall|i: int|
        0 <= i < seg.label_map.len() && (forall|k: int|
            0 <= k < pixels.len() && (#[trigger] pixels[k]).0 < w && pixels[k].1 < h ==> pixels[k].1 * w
                + pixels[k].0 != i) implies paint_result(seg, pixels, target).label_map[i] == seg.label_map[i] by {
        if painted(pixels, w, h, i) {
            let j = choose|j: int| 0 <= j < pixels.len() && #[trigger] paints_index(pixels[j], w, h, i);
            assert(pixels[j].1 * w + pixels[j].0 != i);
        }
    }
}

/// A split only redistributes pixels of one color: the regions that were
/// there keep their ids and colors, and every region it adds carries the
/// color of the first region with the split id.
pub proof fn law_split_keeps_color(seg: SegmentationView, region_id: u32, line: SplitLine)
    requires
        seg.has_region(region_id),
    ensures
        ({
            let s = split_result(seg, region_id, line);
            &&& seg.regions.len() <= s.regions.len() <= seg.regions.len() + 1
            &&& forall|k: int|
                0 <= k < seg.regions.len() ==> #[trigger] s.regions[k].id == seg.regions[k].id
                    && s.regions[k].color_index == seg.regions[k].color_index
            &&& forall|k: int|
                seg.regions.len() <= k < s.regions.len() ==> #[trigger] s.regions[k].color_index
                    == seg.regions[first_with_id(seg.regions, region_id)].color_index
        }),
{
    lemma_first_with_id(seg.regions, region_id);
}

proof fn lemma_paint_keeps_consistency(seg: SegmentationView, pixels: Seq<(u32, u32)>, target: u32)
    requires
        seg.wf(),
        consistent(seg),
        seg.has_region(target),
    ensures
        consistent(paint_result(seg, pixels, target)),
        paint_result(seg, pixels, target).wf(),
{
    let r = paint_result(seg, pixels, target);
    let map = r.label_map;
    let aff = paint_affected(seg.label_map, pixels, seg.width, seg.height, target);
    assert forall|k: int| 0 <= k < seg.regions.len() implies #[trigger] r.regions[k].id
        == seg.regions[k].id by {}
    assert forall|k: int| 0 <= k < r.regions.len() implies #[trigger] r.regions[k].pixel_count
        == count_label(map, r.regions[k].id) by {
        let id = seg.regions[k].id;
        if aff.contains(id) {
            assert(is_first_with_id(seg.regions, k, id));
            lemma_count_label_bound(map, id);
        } else {
            assert forall|i: int| 0 <= i < seg.label_map.len() implies (seg.label_map[i] == id)
                == (map[i] == id) by {
                if painted(pixels, seg.width, seg.height, i) {
                    if seg.label_map[i] == id {
                        assert(aff.contains(id));
                    }
                }
            }
            lemma_count_label_congruent(seg.label_map, id, map, id);
        }
    }
    assert forall|i: int| 0 <= i < map.len() implies r.has_region(#[trigger] map[i]) by {
        if painted(pixels, seg.width, seg.height, i) {
            let k = choose|k: int| 0 <= k < seg.regions.len() && seg.regions[k].id == target;
            assert(r.regions[k].id == target);
        } else {
            assert(seg.has_region(seg.label_map[i]));
            let k = choose|k: int| 0 <= k < seg.regions.len() && seg.regions[k].id == seg.label_map[i];
            assert(r.regions[k].id == map[i]);
        }
    }
}


proof fn lemma_without_id(s: Seq<Region>, id: u32) -> (f: Seq<int>)
    ensures
        f.len() == without_id(s, id).len(),
        forall|k: int|
            0 <= k < f.len() ==> 0 <= #[trigger] f[k] < s.len() && without_id(s, id)[k] == s[f[k]]
                && s[f[k]].id != id,
        forall|k1: int, k2: int| 0 <= k1 < k2 < f.len() ==> f[k1] < f[k2],
        forall|j: int|
            0 <= j < s.len() && s[j].id != id ==> exists|k: int| 0 <= k < f.len() && #[trigger] f[k] == j,
    decreases s.len(),
{
    if s.len() == 0 {
        Seq::empty()
    } else {
        let f0 = lemma_without_id(s.drop_last(), id);
        if s.last().id == id {
            assert forall|j: int| 0 <= j < s.len() && s[j].id != id implies exists|k: int|
                0 <= k < f0.len() && #[trigger] f0[k] == j by {
                assert(s.drop_last()[j] == s[j]);
            }
            f0
        } else {
            let f = f0.push(s.len() - 1);
            assert forall|k: int| 0 <= k < f.len() implies 0 <= #[trigger] f[k] < s.len()
                && without_id(s, id)[k] == s[f[k]] && s[f[k]].id != id by {
                if k < f0.len() {
                    assert(f[k] == f0[k]);
                }
            }
            assert forall|j: int| 0 <= j < s.len() && s[j].id != id implies exists|k: int|
                0 <= k < f.len() && #[trigger] f[k] == j by {
                if j < s.len() - 1 {
                    assert(s.drop_last()[j] == s[j]);
                    let k = choose|k: int| 0 <= k < f0.len() && #[trigger] f0[k] == j;
                    assert(f[k] == j);
                } else {
                    assert(f[f0.len() as int] == j);
                }
            }
            f
        }
    }
}

proof fn lemma_merge_counts(m: Seq<u32>, source: u32, target: u32)
    requires
        source != target,
    ensures
        count_label(merge_map(m, source, target), target) == count_label(m, target) + count_label(
            m,
            source,
        ),
    decreases m.len(),
{
    if m.len() > 0 {
        assert(merge_map(m, source, target).drop_last() =~= merge_map(m.drop_last(), source, target));
        lemma_merge_counts(m.drop_last(), source, target);
    }
}

proof fn lemma_merge_keeps_consistency(seg: SegmentationView, source: u32, target: u32)
    requires
        seg.wf(),
        consistent(seg),
        seg.has_region(source),
        seg.has_region(target),
        source != target,
    ensures
        consistent(merge_result(seg, source, target)),
        merge_result(seg, source, target).wf(),
{
    let regions = seg.regions;
    let m = seg.label_map;
    let nm = merge_map(m, source, target);
    lemma_first_with_id(regions, source);
    lemma_first_with_id(regions, target);
    let ks = first_with_id(regions, source);
    let kt = first_with_id(regions, target);
    let sc = regions[ks].pixel_count;
    lemma_merge_counts(m, source, target);
    lemma_count_label_bound(nm, target);
    let bumped = regions.update(
        kt,
        Region { pixel_count: (regions[kt].pixel_count + sc) as u32, ..regions[kt] },
    );
    let nr = without_id(bumped, source);
    let f = lemma_without_id(bumped, source);
    let r = merge_result(seg, source, target);
    assert(r.regions == nr);
    assert forall|j: int| 0 <= j < bumped.len() implies #[trigger] bumped[j].id == regions[j].id by {}
    assert forall|k1: int, k2: int|
        0 <= k1 < nr.len() && 0 <= k2 < nr.len() && k1 != k2 implies nr[k1].id != nr[k2].id by {
        assert(nr[k1] == bumped[f[k1]]);
        assert(nr[k2] == bumped[f[k2]]);
        if k1 < k2 {
            assert(f[k1] < f[k2]);
        } else {
            assert(f[k2] < f[k1]);
        }
    }
    assert forall|k: int| 0 <= k < nr.len() implies #[trigger] nr[k].pixel_count == count_label(
        nm,
        nr[k].id,
    ) by {
        let j = f[k];
        assert(nr[k] == bumped[j]);
        let x = regions[j].id;
        if j == kt {
        } else {
            assert(bumped[j] == regions[j]);
            assert(x != target);
            assert forall|i: int| 0 <= i < m.len() implies (m[i] == x) == (nm[i] == x) by {}
            lemma_count_label_congruent(m, x, nm, x);
        }
    }
    assert forall|i: int| 0 <= i < nm.len() implies r.has_region(#[trigger] nm[i]) by {
        if m[i] == source {
            assert(bumped[kt].id == target);
            let k = choose|k: int| 0 <= k < f.len() && #[trigger] f[k] == kt;
            assert(nr[k].id == target);
        } else {
            assert(seg.has_region(m[i]));
            let j = choose|j: int| 0 <= j < regions.len() && regions[j].id == m[i];
            assert(bumped[j].id == m[i]);
            let k = choose|k: int| 0 <= k < f.len() && #[trigger] f[k] == j;
            assert(nr[k].id == nm[i]);
        }
    }
}


proof fn lemma_max_id(regions: Seq<Region>)
    ensures
        forall|k: int| 0 <= k < regions.len() ==> #[trigger] regions[k].id <= max_id(regions),
    decreases regions.len(),
{
    if regions.len() > 0 {
        lemma_max_id(regions.drop_last());
        assert forall|k: int| 0 <= k < regions.len() implies #[trigger] regions[k].id <= max_id(
            regions,
        ) by {
            if k < regions.len() - 1 {
                assert(regions.drop_last()[k] == regions[k]);
            }
        }
    }
}

proof fn lemma_split_counts(
    m: Seq<u32>,
    width: u32,
    region_id: u32,
    line: SplitLine,
    new_id: u32,
    n: int,
)
    requires
        new_id != region_id,
        0 <= n <= m.len(),
    ensures
        count_label(split_map(m, width, region_id, line, new_id).take(n), region_id) == split_count(
            m,
            width,
            region_id,
            line,
            false,
            n,
        ),
        count_label(split_map(m, width, region_id, line, new_id).take(n), new_id) == split_count(
            m,
            width,
            region_id,
            line,
            true,
            n,
        ) + count_label(m.take(n), new_id),
    decreases n,
{
    let sm = split_map(m, width, region_id, line, new_id);
    if n > 0 {
        lemma_split_counts(m, width, region_id, line, new_id, n - 1);
        lemma_count_label_take_step(sm, n - 1, region_id);
        lemma_count_label_take_step(sm, n - 1, new_id);
        lemma_count_label_take_step(m, n - 1, new_id);
    } else {
        assert(sm.take(0).len() == 0);
        assert(m.take(0).len() == 0);
    }
}

proof fn lemma_split_keeps_consistency(seg: SegmentationView, region_id: u32, line: SplitLine)
    requires
        seg.wf(),
        consistent(seg),
        seg.has_region(region_id),
        split_fits(seg, region_id),
    ensures
        consistent(split_result(seg, region_id, line)),
        split_result(seg, region_id, line).wf(),
{
    let regions = seg.regions;
    let m = seg.label_map;
    let w = seg.width;
    lemma_max_id(regions);
    let new_id = (max_id(regions) + 1) as u32;
    lemma_first_with_id(regions, region_id);
    let k0 = first_with_id(regions, region_id);
    assert(new_id != region_id);
    let sm = split_map(m, w, region_id, line, new_id);
    lemma_split_counts(m, w, region_id, line, new_id, m.len() as int);
    assert(sm.take(m.len() as int) =~= sm);
    assert(m.take(m.len() as int) =~= m);
    assert forall|i: int| 0 <= i < m.len() implies m[i] != new_id by {
        assert(seg.has_region(m[i]));
    }
    lemma_count_label_zero(m, new_id);
    let moved = split_count(m, w, region_id, line, true, m.len() as int);
    let stayed = split_count(m, w, region_id, line, false, m.len() as int);
    lemma_count_label_bound(sm, region_id);
    lemma_count_label_bound(sm, new_id);
    let r = split_result(seg, region_id, line);
    let r1 = regions.update(k0, Region { pixel_count: stayed as u32, ..regions[k0] });
    assert forall|j: int| 0 <= j < r1.len() implies #[trigger] r1[j].id == regions[j].id by {}
    assert(r.label_map == sm);
    assert forall|k: int| 0 <= k < r.regions.len() implies #[trigger] r.regions[k].pixel_count
        == count_label(sm, r.regions[k].id) by {
        if k < regions.len() {
            assert(r.regions[k] == r1[k]);
            if k != k0 {
                let x = regions[k].id;
                assert(x != region_id);
                assert(x != new_id);
                assert forall|i: int| 0 <= i < m.len() implies (m[i] == x) == (sm[i] == x) by {}
                lemma_count_label_congruent(m, x, sm, x);
            }
        }
    }
    assert forall|i: int| 0 <= i < sm.len() implies r.has_region(#[trigger] sm[i]) by {
        if moves_in_split(m, w, region_id, line, i) {
            lemma_count_label_positive(sm, new_id, i);
            assert(r.regions[regions.len() as int].id == new_id);
        } else {
            assert(seg.has_region(m[i]));
            let j = choose|j: int| 0 <= j < regions.len() && regions[j].id == m[i];
            assert(r.regions[j].id == sm[i]);
        }
    }
}

/// Every edit keeps a consistent segmentation consistent: region ids stay
/// distinct, every pixel's label names a region, and each region's pixel
/// count equals the number of pixels carrying its id. (A merge of a region
/// into itself is left out: it removes the region and keeps its pixels.)
pub proof fn law_edit_keeps_consistency(seg: SegmentationView, edit: SegEdit)
    requires
        seg.wf(),
        consistent(seg),
        edit_fits(seg, edit),
        edit_applies(seg, edit),
        edit matches SegEdit::MergeRegions { source, target } ==> source != target,
    ensures
        consistent(edit_result(seg, edit)),
        edit_result(seg, edit).wf(),
{
    match edit {
        SegEdit::PaintPixels { pixels, target_region } => {
            lemma_paint_keeps_consistency(seg, pixels@, target_region);
        },
        SegEdit::SplitRegion { region_id, split_line } => {
            lemma_split_keeps_consistency(seg, region_id, split_line);
        },
        SegEdit::MergeRegions { source, target } => {
            lemma_merge_keeps_consistency(seg, source, target);
        },
    }
}

/// Segmentation editor that supports applying edits with undo/reset.
#[derive(Debug, Clone)]
pub struct SegmentationEditor {
    original: Segmentation,
    current: Segmentation,
    undo_stack: Vec<Segmentation>,
}

/// A copy of a segmentation with the same value.
pub fn copy_segmentation(seg: &Segmentation) -> (r: Segmentation)
    ensures
        r@ == seg@,
{
    let mut regions: Vec<Region> = Vec::new();
    let n = seg.regions.len();
    for i in 0..n
        invariant
            n == seg.regions@.len(),
            regions@ == seg.regions@.take(i as int),
    {
        regions.push(seg.regions[i]);
        assert(regions@ == seg.regions@.take(i + 1));
    }
    let mut label_map: Vec<u32> = Vec::new();
    let m = seg.label_map.len();
    for i in 0..m
        invariant
            m == seg.label_map@.len(),
            label_map@ == seg.label_map@.take(i as int),
    {
        label_map.push(seg.label_map[i]);
        assert(label_map@ == seg.label_map@.take(i + 1));
    }
    assert(regions@ == seg.regions@);
    assert(label_map@ == seg.label_map@);
    Segmentation { regions, label_map, width: seg.width, height: seg.height }
}


/// Whether some region of the list carries `id`.
pub fn region_exists(regions: &Vec<Region>, id: u32) -> (b: bool)
    ensures
        b == (exists|k: int| 0 <= k < regions@.len() && regions@[k].id == id),
{
    let n = regions.len();
    for k in 0..n
        invariant
            n == regions@.len(),
            forall|j: int| 0 <= j < k ==> regions@[j].id != id,
    {
        if regions[k].id == id {
            return true;
        }
    }
    false
}

/// The index of the first region carrying `id`, if any.
pub fn find_region(regions: &Vec<Region>, id: u32) -> (r: Option<usize>)
    ensures
        r matches Some(k) ==> is_first_with_id(regions@, k as int, id),
        r is None ==> forall|k: int| 0 <= k < regions@.len() ==> regions@[k].id != id,
{
    let n = regions.len();
    for k in 0..n
        invariant
            n == regions@.len(),
            forall|j: int| 0 <= j < k ==> regions@[j].id != id,
    {
        if regions[k].id == id {
            return Some(k);
        }
    }
    None
}

impl SegmentationEditor {

    /// Apply an edit operation to the current segmentation.
    pub fn apply_edit(&mut self, edit: SegEdit) -> (res: Result<(), VectorItError>)
        requires
            old(self).inv(),
            edit is MergeRegions || old(self).current_view().wf(),
            edit_fits(old(self).current_view(), edit),
        ensures
            applied(*old(self), edit, *final(self), res),
            old(self).current_view().wf() ==> final(self).current_view().wf(),
    {
        let ghost h0 = self.history();
        // Push current state onto undo stack
        if self.undo_stack.len() >= MAX_UNDO_STACK {
            self.undo_stack.remove(0);
            assert(self.history() =~= h0.drop_first());
        }
        let ghost h1 = self.history();
        let snapshot = copy_segmentation(&self.current);
        self.undo_stack.push(snapshot);
        assert(self.history() =~= h1.push(old(self).current_view()));
        assert(self.history() == push_history(h0, old(self).current_view()));

        match edit {
            SegEdit::PaintPixels { pixels, target_region } => {
                self.apply_paint_pixels(pixels, target_region)
            },
            SegEdit::MergeRegions { source, target } => { self.apply_merge_regions(source, target) },
            SegEdit::SplitRegion { region_id, split_line } => {
                self.apply_split_region(region_id, split_line)
            },
        }
    }

    fn apply_paint_pixels(&mut self, pixels: Vec<(u32, u32)>, target_region: u32) -> (res: Result<
        (),
        VectorItError,
    >)
        requires
            old(self).current_view().wf(),
        ensures
            final(self).original_view() == old(self).original_view(),
            final(self).history() == old(self).history(),
            res is Ok <==> old(self).current_view().has_region(target_region),
            res is Ok ==> final(self).current_view() == paint_result(
                old(self).current_view(),
                pixels@,
                target_region,
            ),
            res is Err ==> final(self).current_view() == old(self).current_view(),
            res matches Err(e) ==> e matches VectorItError::ExportFailed(m) && m@ == "Target region "@
                + decimal(target_region as nat) + " does not exist"@,
    {
        let width = self.current.width as usize;
        let height = self.current.height as usize;

        if !region_exists(&self.current.regions, target_region) {
            return Err(
                VectorItError::ExportFailed(
                    number_message("Target region ", target_region, " does not exist"),
                ),
            );
        }
        proof {
            let k = choose|k: int| 0 <= k < self.current.regions@.len() && self.current.regions@[k].id == target_region;
            assert(old(self).current_view().regions[k].id == target_region);
        }
        let ghost old_map = self.current.label_map@;
        let ghost w = self.current.width;
        let ghost h = self.current.height;

        let mut affected: std::collections::HashSet<u32> = std::collections::HashSet::new();
        affected.insert(target_region);
        proof {
            assert(self.current.label_map@ =~= paint_map(old_map, pixels@.take(0), w, h, target_region));
            assert(affected@ =~= paint_affected(old_map, pixels@.take(0), w, h, target_region));
        }

        let n = pixels.len();
        for j in 0..n
            invariant
                n == pixels@.len(),
                width == w as usize,
                height == h as usize,
                self.current.width == w,
                self.current.height == h,
                old_map.len() == w * h,
                w * h <= u32::MAX,
                self.current.regions@ == old(self).current.regions@,
                old(self).current_view().has_region(target_region),
                self.original@ == old(self).original@,
                self.undo_stack@ == old(self).undo_stack@,
                self.current.label_map@ == paint_map(old_map, pixels@.take(j as int), w, h, target_region),
                affected@ == paint_affected(old_map, pixels@.take(j as int), w, h, target_region),
        {
            let ghost pre = pixels@.take(j as int);
            let ghost post = pixels@.take(j + 1);
            let (x, y) = pixels[j];
            let xu = x as usize;
            let yu = y as usize;
            let ghost mut idx_g: int = -1;
            if xu < width && yu < height {
                proof {
                    assert(y * w + x < w * h) by (nonlinear_arith)
                        requires x < w, y < h;
                }
                let idx = yu * width + xu;
                proof { idx_g = idx as int; }
                let old_region = self.current.label_map[idx];
                if old_region != target_region {
                    affected.insert(old_region);
                    self.current.label_map.set(idx, target_region);
                }
            }
            proof {
                assert(post[j as int] == pixels@[j as int]);
                assert forall|i: int| #![auto] 0 <= i < old_map.len() implies
                    painted(post, w, h, i) == (painted(pre, w, h, i) || paints_index(pixels@[j as int], w, h, i))
                by {
                    if painted(pre, w, h, i) {
                        let jj = choose|jj: int| 0 <= jj < pre.len() && #[trigger] paints_index(pre[jj], w, h, i);
                        assert(post[jj] == pre[jj]);
                    }
                    if paints_index(pixels@[j as int], w, h, i) {
                        assert(paints_index(post[j as int], w, h, i));
                    }
                    if painted(post, w, h, i) {
                        let jj = choose|jj: int| 0 <= jj < post.len() && #[trigger] paints_index(post[jj], w, h, i);
                        if jj < j {
                            assert(pre[jj] == post[jj]);
                        }
                    }
                }
                assert forall|i: int| 0 <= i < old_map.len() implies
                    (#[trigger] paints_index(pixels@[j as int], w, h, i)) == (i == idx_g)
                by {
                    if paints_index(pixels@[j as int], w, h, i) {
                        assert(x < w && y < h);
                    }
                }
                assert(self.current.label_map@ =~= paint_map(old_map, post, w, h, target_region));
                assert(affected@ =~= paint_affected(old_map, post, w, h, target_region));
            }
        }
        assert(pixels@.take(n as int) =~= pixels@);
        self.recalculate_pixel_counts(&affected);
        Ok(())
    }


    fn apply_merge_regions(&mut self, source: u32, target: u32) -> (res: Result<(), VectorItError>)
        requires
            merge_fits(old(self).current_view(), source, target),
        ensures
            final(self).original_view() == old(self).original_view(),
            final(self).history() == old(self).history(),
            res is Ok <==> old(self).current_view().has_region(source)
                && old(self).current_view().has_region(target),
            res is Ok ==> final(self).current_view() == merge_result(
                old(self).current_view(),
                source,
                target,
            ),
            res is Err ==> final(self).current_view() == old(self).current_view(),
            res matches Err(e) ==> e matches VectorItError::ExportFailed(m) && m@ == "Region "@
                + decimal(source as nat) + " or "@ + decimal(target as nat) + " does not exist"@,
    {
        // Verify both regions exist
        let source_exists = region_exists(&self.current.regions, source);
        let target_exists = region_exists(&self.current.regions, target);

        if !source_exists || !target_exists {
            let mut m = number_message("Region ", source, " or ");
            push_decimal(&mut m, target);
            m.append(" does not exist");
            return Err(VectorItError::ExportFailed(m));
        }
        let ghost old_regions = self.current.regions@;
        let ghost old_map = self.current.label_map@;
        proof {
            let ks = choose|k: int| 0 <= k < old_regions.len() && old_regions[k].id == source;
            let kt = choose|k: int| 0 <= k < old_regions.len() && old_regions[k].id == target;
            assert(old(self).current_view().regions[ks].id == source);
            assert(old(self).current_view().regions[kt].id == target);
            lemma_first_with_id(old_regions, source);
            lemma_first_with_id(old_regions, target);
        }

        // Replace all source labels with target
        let nm = self.current.label_map.len();
        for i in 0..nm
            invariant
                nm == old_map.len(),
                self.current.label_map@.len() == nm,
                self.current.regions@ == old_regions,
                self.current.width == old(self).current.width,
                self.current.height == old(self).current.height,
                self.original@ == old(self).original@,
                self.undo_stack@ == old(self).undo_stack@,
                forall|q: int| i <= q < nm ==> self.current.label_map@[q] == old_map[q],
                forall|q: int| 0 <= q < i ==> self.current.label_map@[q] == (if old_map[q] == source { target } else { old_map[q] }),
        {
            if self.current.label_map[i] == source {
                self.current.label_map.set(i, target);
            }
        }
        assert(self.current.label_map@ =~= merge_map(old_map, source, target));

        // Get source pixel count to add to target
        let source_count = match find_region(&self.current.regions, source) {
            Some(k) => self.current.regions[k].pixel_count,
            None => 0,
        };
        // Update target pixel count
        match find_region(&self.current.regions, target) {
            Some(k) => {
                let r = self.current.regions[k];
                self.current.regions.set(k, Region { pixel_count: r.pixel_count + source_count, ..r });
            },
            None => {},
        }
        let ghost bumped = self.current.regions@;

        // Remove source region
        let mut kept: Vec<Region> = Vec::new();
        let nr = self.current.regions.len();
        for k in 0..nr
            invariant
                nr == bumped.len(),
                self.current.regions@ == bumped,
                kept@ == without_id(bumped.take(k as int), source),
        {
            let r = self.current.regions[k];
            if r.id != source {
                kept.push(r);
            }
            assert(bumped.take(k + 1).drop_last() =~= bumped.take(k as int));
        }
        assert(bumped.take(nr as int) =~= bumped);
        self.current.regions = kept;
        Ok(())
    }


    fn apply_split_region(&mut self, region_id: u32, split_line: SplitLine) -> (res: Result<
        (),
        VectorItError,
    >)
        requires
            old(self).current_view().wf(),
            split_fits(old(self).current_view(), region_id),
            line_in_range(split_line),
        ensures
            final(self).original_view() == old(self).original_view(),
            final(self).history() == old(self).history(),
            res is Ok <==> old(self).current_view().has_region(region_id),
            res is Ok ==> final(self).current_view() == split_result(
                old(self).current_view(),
                region_id,
                split_line,
            ),
            res is Err ==> final(self).current_view() == old(self).current_view(),
            res matches Err(e) ==> e matches VectorItError::ExportFailed(m) && m@ == "Region "@
                + decimal(region_id as nat) + " does not exist"@,
    {
        let width = self.current.width as usize;
        let height = self.current.height as usize;

        // Verify region exists
        let k0 = match find_region(&self.current.regions, region_id) {
            Some(k) => k,
            None => {
                return Err(
                    VectorItError::ExportFailed(
                        number_message("Region ", region_id, " does not exist"),
                    ),
                );
            },
        };
        let color_index = self.current.regions[k0].color_index;
        let ghost old_regions = self.current.regions@;
        let ghost old_map = self.current.label_map@;
        let ghost w = self.current.width;
        let ghost h = self.current.height;
        proof {
            assert(old(self).current_view().regions[k0 as int].id == region_id);
            lemma_first_with_id(old_regions, region_id);
            assert(first_with_id(old_regions, region_id) == k0);
        }

        let p1 = split_line.start;
        let p2 = split_line.end;
        let dx = p2.x as i128 - p1.x as i128;
        let dy = p2.y as i128 - p1.y as i128;

        // Assign a new region id for pixels on one side
        let mut max_seen: u32 = 0;
        let nr = self.current.regions.len();
        for k in 0..nr
            invariant
                nr == old_regions.len(),
                self.current.regions@ == old_regions,
                max_seen == max_id(old_regions.take(k as int)),
        {
            assert(old_regions.take(k + 1).drop_last() =~= old_regions.take(k as int));
            if self.current.regions[k].id > max_seen {
                max_seen = self.current.regions[k].id;
            }
        }
        assert(old_regions.take(nr as int) =~= old_regions);
        let new_region_id = max_seen + 1;

        let mut new_count: u32 = 0;
        let mut old_count: u32 = 0;
        assert(0 * (w as int) == 0);
        assert(split_count(old_map, w, region_id, split_line, true, 0) == 0);
        assert(split_count(old_map, w, region_id, split_line, false, 0) == 0);

        for y in 0..height
            invariant
                width == w as usize,
                height == h as usize,
                old_map.len() == w * h,
                w * h <= u32::MAX,
                self.current.regions@ == old_regions,
                self.current.width == w,
                self.current.height == h,
                self.original@ == old(self).original@,
                self.undo_stack@ == old(self).undo_stack@,
                dx == p2.x - p1.x,
                dy == p2.y - p1.y,
                p1 == split_line.start,
                p2 == split_line.end,
                line_in_range(split_line),
                new_region_id == max_id(old_regions) + 1,
                self.current.label_map@.len() == old_map.len(),
                forall|q: int| y * w <= q < old_map.len() ==> self.current.label_map@[q] == old_map[q],
                forall|q: int| 0 <= q < y * w ==> self.current.label_map@[q] == (
                    if moves_in_split(old_map, w, region_id, split_line, q) { new_region_id } else { old_map[q] }),
                new_count == split_count(old_map, w, region_id, split_line, true, y * w),
                old_count == split_count(old_map, w, region_id, split_line, false, y * w),
                new_count + old_count <= y * w,
        {
            proof {
                assert((y + 1) * w <= w * h) by (nonlinear_arith) requires y < h;
                assert((y + 1) * w == y * w + w) by (nonlinear_arith);
            }
            for x in 0..width
                invariant
                    width == w as usize,
                    height == h as usize,
                    y < h,
                    old_map.len() == w * h,
                    w * h <= u32::MAX,
                    (y + 1) * w <= w * h,
                    (y + 1) * w == y * w + w,
                    self.current.regions@ == old_regions,
                    self.current.width == w,
                    self.current.height == h,
                    self.original@ == old(self).original@,
                    self.undo_stack@ == old(self).undo_stack@,
                    dx == p2.x - p1.x,
                    dy == p2.y - p1.y,
                    p1 == split_line.start,
                    p2 == split_line.end,
                    line_in_range(split_line),
                    new_region_id == max_id(old_regions) + 1,
                    self.current.label_map@.len() == old_map.len(),
                    forall|q: int| y * w + x <= q < old_map.len() ==> self.current.label_map@[q] == old_map[q],
                    forall|q: int| 0 <= q < y * w + x ==> self.current.label_map@[q] == (
                        if moves_in_split(old_map, w, region_id, split_line, q) { new_region_id } else { old_map[q] }),
                    new_count == split_count(old_map, w, region_id, split_line, true, y * w + x),
                    old_count == split_count(old_map, w, region_id, split_line, false, y * w + x),
                    new_count + old_count <= y * w + x,
            {
                let idx = y * width + x;
                proof {
                    lemma_fundamental_div_mod_converse(idx as int, w as int, y as int, x as int);
                }
                if self.current.label_map[idx] == region_id {

                    // Cross product to determine which side of the line this pixel is on
                    let px = 2 * (x as i128) + 1 - p1.x as i128;
                    let py = 2 * (y as i128) + 1 - p1.y as i128;
                    proof {
                        assert(-0x4000_0000_0000_0000i128 <= dx <= 0x4000_0000_0000_0000i128);
                        assert(-0x4000_0000_0000_0000i128 <= dy <= 0x4000_0000_0000_0000i128);
                        assert(-0x4000_0000_0000_0000i128 <= px <= 0x4000_0000_0000_0000i128);
                        assert(-0x4000_0000_0000_0000i128 <= py <= 0x4000_0000_0000_0000i128);
                        assert(-0x1000_0000_0000_0000_0000_0000_0000_0000i128 <= dx * py <= 0x1000_0000_0000_0000_0000_0000_0000_0000i128) by (nonlinear_arith)
                            requires -0x4000_0000_0000_0000i128 <= dx <= 0x4000_0000_0000_0000i128, -0x4000_0000_0000_0000i128 <= py <= 0x4000_0000_0000_0000i128;
                        assert(-0x1000_0000_0000_0000_0000_0000_0000_0000i128 <= dy * px <= 0x1000_0000_0000_0000_0000_0000_0000_0000i128) by (nonlinear_arith)
                            requires -0x4000_0000_0000_0000i128 <= dy <= 0x4000_0000_0000_0000i128, -0x4000_0000_0000_0000i128 <= px <= 0x4000_0000_0000_0000i128;
                    }
                    let cross = dx * py - dy * px;

                    if cross < 0 {
                        // Reassign to new region
                        self.current.label_map.set(idx, new_region_id);
                        new_count += 1;
                    } else {
                        old_count += 1;
                    }
                }
            }
        }

        proof {
            assert((h as int) * (w as int) == (w as int) * (h as int)) by (nonlinear_arith);
            assert(new_count == split_count(old_map, w, region_id, split_line, true, old_map.len() as int));
            assert(old_count == split_count(old_map, w, region_id, split_line, false, old_map.len() as int));
        }
        // Update old region pixel count
        match find_region(&self.current.regions, region_id) {
            Some(k) => {
                proof {
                    assert(is_first_with_id(old_regions, k0 as int, region_id));
                }
                let r = self.current.regions[k];
                self.current.regions.set(k, Region { pixel_count: old_count, ..r });
            },
            None => {},
        }

        // Add new region
        if new_count > 0 {
            self.current.regions.push(Region { id: new_region_id, color_index, pixel_count: new_count });
        }
        proof {
            assert(self.current.label_map@ =~= split_map(old_map, w, region_id, split_line, new_region_id));
            assert(self.current.regions@ =~= split_regions_list(old_regions, old_map, w, region_id, split_line));
        }
        Ok(())
    }

    fn recalculate_pixel_counts(&mut self, affected: &std::collections::HashSet<u32>)
        requires
            old(self).current.label_map@.len() <= u32::MAX,
        ensures
            final(self).original@ == old(self).original@,
            final(self).undo_stack@ == old(self).undo_stack@,
            final(self).current.label_map@ == old(self).current.label_map@,
            final(self).current.width == old(self).current.width,
            final(self).current.height == old(self).current.height,
            final(self).current.regions@ == recount(
                old(self).current.regions@,
                old(self).current.label_map@,
                affected@,
            ),
    {
        let ghost orig = self.current.regions@;
        let ghost map = self.current.label_map@;
        let nr = self.current.regions.len();
        // Reset counts for affected regions
        for k in 0..nr
            invariant
                nr == orig.len(),
                self.current.regions@.len() == orig.len(),
                self.current.label_map@ == map,
                self.current.width == old(self).current.width,
                self.current.height == old(self).current.height,
                self.original@ == old(self).original@,
                self.undo_stack@ == old(self).undo_stack@,
                forall|q: int| k <= q < orig.len() ==> self.current.regions@[q] == orig[q],
                forall|q: int| 0 <= q < k ==> #[trigger] self.current.regions@[q] == (
                    if affected@.contains(orig[q].id) {
                        Region { pixel_count: 0, ..orig[q] }
                    } else {
                        orig[q]
                    }),
        {
            let r = self.current.regions[k];
            if affected.contains(&r.id) {
                self.current.regions.set(k, Region { pixel_count: 0, ..r });
            }
        }
        // Count pixels
        let nm = self.current.label_map.len();
        for i in 0..nm
            invariant
                nr == orig.len(),
                nm == map.len(),
                map.len() <= u32::MAX,
                self.current.regions@.len() == orig.len(),
                self.current.label_map@ == map,
                self.current.width == old(self).current.width,
                self.current.height == old(self).current.height,
                self.original@ == old(self).original@,
                self.undo_stack@ == old(self).undo_stack@,
                forall|q: int| 0 <= q < orig.len() ==> #[trigger] self.current.regions@[q] == (
                    if affected@.contains(orig[q].id) {
                        Region {
                            pixel_count: if is_first_with_id(orig, q, orig[q].id) {
                                count_label(map.take(i as int), orig[q].id) as u32
                            } else {
                                0
                            },
                            ..orig[q]
                        }
                    } else {
                        orig[q]
                    }),
        {
            let label = self.current.label_map[i];
            proof {
                assert forall|id: u32| #![auto] true implies count_label(map.take(i + 1), id) == count_label(map.take(i as int), id) + if map[i as int] == id { 1nat } else { 0nat } by {
                    lemma_count_label_take_step(map, i as int, id);
                }
            }
            if affected.contains(&label) {
                let mut f: usize = 0;
                while f < nr && self.current.regions[f].id != label
                    invariant
                        f <= nr,
                        nr == orig.len(),
                        self.current.regions@.len() == orig.len(),
                        forall|q: int| 0 <= q < orig.len() ==> #[trigger] self.current.regions@[q].id == orig[q].id,
                        forall|q: int| 0 <= q < f ==> orig[q].id != label,
                    decreases nr - f,
                {
                    f = f + 1;
                }
                if f < nr {
                    let r = self.current.regions[f];
                    proof {
                        assert(is_first_with_id(orig, f as int, label));
                        lemma_count_label_bound(map.take(i as int), label);
                    }
                    self.current.regions.set(f, Region { pixel_count: r.pixel_count + 1, ..r });
                    proof {
                        assert forall|q: int| 0 <= q < orig.len() && orig[q].id == label && q != f implies !is_first_with_id(orig, q, label) by {
                            if q < f { } else { assert(orig[f as int].id == label); }
                        }
                    }
                } else {
                    proof {
                        assert forall|q: int| 0 <= q < orig.len() implies orig[q].id != label by {
                            assert(self.current.regions@[q].id == orig[q].id);
                        }
                    }
                }
            }
        }
        proof {
            assert(map.take(nm as int) =~= map);
            assert(self.current.regions@ =~= recount(orig, map, affected@));
        }
    }
}

impl SegmentationEditor {
    /// The segmentation the editor was created with.
    pub closed spec fn original_view(&self) -> SegmentationView {
        self.original@
    }

    /// The segmentation as edited so far.
    pub closed spec fn current_view(&self) -> SegmentationView {
        self.current@
    }

    /// The saved states, oldest first; `undo` restores the last one.
    pub closed spec fn history(&self) -> Seq<SegmentationView> {
        self.undo_stack@.map_values(|s: Segmentation| s@)
    }

    /// The history holds at most `MAX_UNDO_STACK` states.
    pub open spec fn inv(&self) -> bool {
        self.history().len() <= MAX_UNDO_STACK
    }

    /// Create a new editor from an initial segmentation.
    pub fn new(segmentation: Segmentation) -> (e: Self)
        ensures
            e.inv(),
            e.original_view() == segmentation@,
            e.current_view() == segmentation@,
            e.history() == Seq::<SegmentationView>::empty(),
    {
        let original = copy_segmentation(&segmentation);
        let e = SegmentationEditor { original, current: segmentation, undo_stack: Vec::new() };
        assert(e.history() =~= Seq::<SegmentationView>::empty());
        e
    }

    /// Undo the last edit. Returns false if undo stack is empty.
    pub fn undo(&mut self) -> (undone: bool)
        requires
            old(self).inv(),
        ensures
            undo_step(*old(self), *final(self), undone),
    {
        let ghost h = self.history();
        if let Some(prev) = self.undo_stack.pop() {
            self.current = prev;
            assert(self.history() =~= h.drop_last());
            true
        } else {
            false
        }
    }

    /// Reset to the original segmentation, clearing undo history.
    pub fn reset(&mut self)
        requires
            old(self).inv(),
        ensures
            reset_step(*old(self), *final(self)),
    {
        self.current = copy_segmentation(&self.original);
        self.undo_stack.clear();
        assert(self.history() =~= Seq::<SegmentationView>::empty());
    }

    /// Get a reference to the current segmentation state.
    pub fn get_current(&self) -> (s: &Segmentation)
        ensures
            s@ == self.current_view(),
    {
        &self.current
    }

    /// Get a reference to the segmentation the editor was created with.
    pub fn get_original(&self) -> (s: &Segmentation)
        ensures
            s@ == self.original_view(),
    {
        &self.original
    }

    /// Returns true if the undo stack has entries.
    pub fn can_undo(&self) -> (b: bool)
        ensures
            b == (self.history().len() > 0),
    {
        !self.undo_stack.is_empty()
    }
}

/// A grid cell `p` lies in the `width x height` grid and carries `region_id`.
pub open spec fn in_region(map: Seq<u32>, width: int, height: int, p: (int, int), region_id: u32) -> bool {
    &&& 0 <= p.0 < width
    &&& 0 <= p.1 < height
    &&& map[p.1 * width + p.0] == region_id
}

/// `path` walks through edge-adjacent cells of region `region_id`, never
/// entering `avoid`.
pub open spec fn is_region_path(
    map: Seq<u32>,
    width: int,
    height: int,
    region_id: u32,
    avoid: (int, int),
    path: Seq<(int, int)>,
) -> bool {
    &&& path.len() >= 1
    &&& forall|k: int|
        0 <= k < path.len() ==> in_region(map, width, height, #[trigger] path[k], region_id)
            && path[k] != avoid
    &&& forall|k: int| 0 <= k < path.len() - 1 ==> adjacent(#[trigger] path[k], path[k + 1])
}

/// `b` can be reached from `a` inside region `region_id` without passing through `avoid`.
pub open spec fn connected_avoiding(
    map: Seq<u32>,
    width: int,
    height: int,
    region_id: u32,
    avoid: (int, int),
    a: (int, int),
    b: (int, int),
) -> bool {
    exists|path: Seq<(int, int)>|
        is_region_path(map, width, height, region_id, avoid, path) && path[0] == a && path.last()
            == b
}

/// The cells of `cands` that carry `region_id`, in order.
pub open spec fn keep_in_region(
    map: Seq<u32>,
    width: int,
    height: int,
    region_id: u32,
    cands: Seq<(int, int)>,
) -> Seq<(int, int)>
    decreases cands.len(),
{
    if cands.len() == 0 {
        cands
    } else {
        let rest = keep_in_region(map, width, height, region_id, cands.drop_last());
        if in_region(map, width, height, cands.last(), region_id) {
            rest.push(cands.last())
        } else {
            rest
        }
    }
}

/// The edge-neighbours of `(x, y)` that carry `region_id`, in the order left,
/// right, up, down.
pub open spec fn region_neighbors(
    map: Seq<u32>,
    width: int,
    height: int,
    x: int,
    y: int,
    region_id: u32,
) -> Seq<(int, int)> {
    keep_in_region(map, width, height, region_id, seq![(x - 1, y), (x + 1, y), (x, y - 1), (x, y + 1)])
}

/// Removing `(x, y)` disconnects its region: it has at least two neighbours in
/// the region, and one of them cannot reach the first without passing through it.
pub open spec fn is_articulation(
    map: Seq<u32>,
    width: int,
    height: int,
    x: int,
    y: int,
    region_id: u32,
) -> bool {
    let ns = region_neighbors(map, width, height, x, y, region_id);
    &&& ns.len() >= 2
    &&& exists|k: int|
        1 <= k < ns.len() && !connected_avoiding(
            map,
            width,
            height,
            region_id,
            (x, y),
            ns[0],
            #[trigger] ns[k],
        )
}

/// The articulation pixels among the first `n` pixels (row-major), in order.
pub open spec fn artifacts_upto(seg: SegmentationView, n: int) -> Seq<(u32, u32)>
    decreases n,
{
    if n <= 0 {
        Seq::empty()
    } else {
        let i = n - 1;
        let x = i % (seg.width as int);
        let y = i / (seg.width as int);
        let rest = artifacts_upto(seg, n - 1);
        if is_articulation(seg.label_map, seg.width as int, seg.height as int, x, y, seg.label_map[i]) {
            rest.push((x as u32, y as u32))
        } else {
            rest
        }
    }
}

/// Find articulation points (pinching artifacts) in a segmentation.
/// Returns pixel coordinates where removing the pixel would disconnect a region.
pub fn find_artifacts(segmentation: &Segmentation) -> (artifacts: Vec<(u32, u32)>)
    requires
        segmentation@.wf(),
        segmentation.width <= i32::MAX,
        segmentation.height <= i32::MAX,
    ensures
        artifacts@ == artifacts_upto(segmentation@, segmentation.label_map@.len() as int),
{
    let width = segmentation.width as usize;
    let height = segmentation.height as usize;
    let ghost seg = segmentation@;
    let ghost w = width as int;
    let mut artifacts: Vec<(u32, u32)> = Vec::new();
    proof {
        assert(0 * w == 0);
    }

    for y in 0..height
        invariant
            width == segmentation.width as usize,
            height == segmentation.height as usize,
            seg == segmentation@,
            w == width as int,
            seg.wf(),
            width <= i32::MAX,
            height <= i32::MAX,
            artifacts@ == artifacts_upto(seg, y * w),
    {
        proof {
            assert((y + 1) * w <= w * height) by (nonlinear_arith) requires y < height, 0 <= w;
            assert((y + 1) * w == y * w + w) by (nonlinear_arith);
        }
        for x in 0..width
            invariant
                width == segmentation.width as usize,
                height == segmentation.height as usize,
                seg == segmentation@,
                w == width as int,
                seg.wf(),
                width <= i32::MAX,
                height <= i32::MAX,
                y < height,
                (y + 1) * w <= w * height,
                (y + 1) * w == y * w + w,
                artifacts@ == artifacts_upto(seg, y * w + x),
        {
            let idx = y * width + x;
            proof {
                lemma_fundamental_div_mod_converse(idx as int, w, y as int, x as int);
            }
            let region_id = segmentation.label_map[idx];

            if is_articulation_point(&segmentation.label_map, width, height, x, y, region_id) {
                artifacts.push((x as u32, y as u32));
            }
        }
    }
    proof {
        assert((height as int) * w == w * (height as int)) by (nonlinear_arith);
    }
    artifacts
}

/// Every region neighbour of `p` other than `avoid` is in `visited`.
#[verifier::opaque]
spec fn closed_cell(
    map: Seq<u32>,
    w: int,
    h: int,
    region_id: u32,
    avoid: (int, int),
    visited: Set<u64>,
    p: (int, int),
) -> bool {
    forall|q: (int, int)|
        adjacent(p, q) && in_region(map, w, h, q, region_id) && q != avoid ==> visited.contains(
            key_of(w, q) as u64,
        )
}

/// Some entry of the search stack has key `v`.
#[verifier::opaque]
spec fn in_stack(w: int, stack: Seq<(usize, usize)>, v: u64) -> bool {
    exists|j: int| 0 <= j < stack.len() && key_of(w, (stack[j].0 as int, stack[j].1 as int)) == v
}

proof fn lemma_closed_mono(
    map: Seq<u32>,
    w: int,
    h: int,
    region_id: u32,
    avoid: (int, int),
    visited: Set<u64>,
    bigger: Set<u64>,
    p: (int, int),
)
    requires
        closed_cell(map, w, h, region_id, avoid, visited, p),
        visited.subset_of(bigger),
    ensures
        closed_cell(map, w, h, region_id, avoid, bigger, p),
{
    reveal(closed_cell);
}

proof fn lemma_in_stack_prefix(w: int, small: Seq<(usize, usize)>, big: Seq<(usize, usize)>, v: u64)
    requires
        in_stack(w, small, v),
        small.len() <= big.len(),
        forall|j: int| 0 <= j < small.len() ==> small[j] == big[j],
    ensures
        in_stack(w, big, v),
{
    reveal(in_stack);
    let j = choose|j: int| 0 <= j < small.len() && key_of(w, (small[j].0 as int, small[j].1 as int)) == v;
    assert(big[j] == small[j]);
}

proof fn lemma_extend_connection(
    map: Seq<u32>,
    w: int,
    h: int,
    region_id: u32,
    avoid: (int, int),
    start: (int, int),
    c: (int, int),
    q: (int, int),
)
    requires
        connected_avoiding(map, w, h, region_id, avoid, start, c),
        adjacent(c, q),
        in_region(map, w, h, q, region_id),
        q != avoid,
    ensures
        connected_avoiding(map, w, h, region_id, avoid, start, q),
{
    let path = choose|path: Seq<(int, int)>|
        is_region_path(map, w, h, region_id, avoid, path) && path[0] == start && path.last() == c;
    let path2 = path.push(q);
    assert(is_region_path(map, w, h, region_id, avoid, path2));
    assert(path2[0] == start && path2.last() == q);
}

proof fn lemma_keep_in_region(
    map: Seq<u32>,
    width: int,
    height: int,
    region_id: u32,
    cands: Seq<(int, int)>,
)
    ensures
        forall|k: int|
            0 <= k < keep_in_region(map, width, height, region_id, cands).len() ==> in_region(
                map,
                width,
                height,
                #[trigger] keep_in_region(map, width, height, region_id, cands)[k],
                region_id,
            ) && cands.contains(keep_in_region(map, width, height, region_id, cands)[k]),
        forall|j: int|
            0 <= j < cands.len() && in_region(map, width, height, #[trigger] cands[j], region_id)
                ==> keep_in_region(map, width, height, region_id, cands).contains(cands[j]),
    decreases cands.len(),
{
    if cands.len() > 0 {
        let pre = cands.drop_last();
        lemma_keep_in_region(map, width, height, region_id, pre);
        let rest = keep_in_region(map, width, height, region_id, pre);
        let res = keep_in_region(map, width, height, region_id, cands);
        assert forall|k: int| 0 <= k < res.len() implies in_region(map, width, height, #[trigger] res[k], region_id)
            && cands.contains(res[k]) by {
            if k < rest.len() {
                assert(res[k] == rest[k]);
                let j = choose|j: int| 0 <= j < pre.len() && pre[j] == rest[k];
                assert(cands[j] == res[k]);
            } else {
                assert(cands[cands.len() - 1] == res[k]);
            }
        }
        assert forall|j: int| 0 <= j < cands.len() && in_region(map, width, height, #[trigger] cands[j], region_id)
            implies res.contains(cands[j]) by {
            if j < cands.len() - 1 {
                assert(pre[j] == cands[j]);
                let k = choose|k: int| 0 <= k < rest.len() && rest[k] == pre[j];
                assert(res[k] == rest[k]);
            } else {
                assert(res[res.len() - 1] == cands[j]);
            }
        }
    }
}

proof fn lemma_region_neighbors(map: Seq<u32>, width: int, height: int, x: int, y: int, region_id: u32)
    ensures
        forall|k: int|
            0 <= k < region_neighbors(map, width, height, x, y, region_id).len() ==> in_region(
                map,
                width,
                height,
                #[trigger] region_neighbors(map, width, height, x, y, region_id)[k],
                region_id,
            ) && adjacent((x, y), region_neighbors(map, width, height, x, y, region_id)[k]),
        forall|q: (int, int)|
            adjacent((x, y), q) && in_region(map, width, height, q, region_id)
                ==> #[trigger] region_neighbors(map, width, height, x, y, region_id).contains(q),
{
    let cands = seq![(x - 1, y), (x + 1, y), (x, y - 1), (x, y + 1)];
    lemma_keep_in_region(map, width, height, region_id, cands);
    assert forall|q: (int, int)| adjacent((x, y), q) && in_region(map, width, height, q, region_id)
        implies #[trigger] region_neighbors(map, width, height, x, y, region_id).contains(q) by {
        if q == cands[0] {
        } else if q == cands[1] {
        } else if q == cands[2] {
        } else {
            assert(q == cands[3]);
        }
    }
}

spec fn int_pairs(s: Seq<(usize, usize)>) -> Seq<(int, int)> {
    s.map_values(|p: (usize, usize)| (p.0 as int, p.1 as int))
}

proof fn lemma_path_stays_visited(
    map: Seq<u32>,
    w: int,
    h: int,
    region_id: u32,
    avoid: (int, int),
    path: Seq<(int, int)>,
    visited: Set<u64>,
    n: int,
)
    requires
        0 < w,
        0 < h,
        w * h <= u32::MAX,
        is_region_path(map, w, h, region_id, avoid, path),
        0 <= n < path.len(),
        visited.contains(key_of(w, path[0]) as u64),
        forall|v: u64| #[trigger] visited.contains(v) ==> v < w * h && forall|q: (int, int)|
            adjacent(cell_of(w, v as int), q) && in_region(map, w, h, q, region_id) && q != avoid
                ==> visited.contains(key_of(w, q) as u64),
    ensures
        visited.contains(key_of(w, path[n]) as u64),
    decreases n,
{
    if n > 0 {
        lemma_path_stays_visited(map, w, h, region_id, avoid, path, visited, n - 1);
        let prev = path[n - 1];
        assert(in_region(map, w, h, prev, region_id));
        lemma_key_cell(w, h, prev);
        let v = key_of(w, prev) as u64;
        assert(visited.contains(v));
        assert(cell_of(w, v as int) == prev);
        reveal(closed_cell);
        assert(adjacent(path[n - 1], path[n]));
        assert(in_region(map, w, h, path[n], region_id) && path[n] != avoid);
        assert(adjacent(cell_of(w, v as int), path[n]));
    }
}

/// The neighbours of `(cx, cy)` that carry `region_id`, in the order left,
/// right, up, down.
fn region_neighbor_cells(
    label_map: &Vec<u32>,
    width: usize,
    height: usize,
    cx: usize,
    cy: usize,
    region_id: u32,
) -> (neighbors: Vec<(usize, usize)>)
    requires
        label_map@.len() == width * height,
        width * height <= u32::MAX,
        width <= i32::MAX,
        height <= i32::MAX,
        cx < width,
        cy < height,
    ensures
        int_pairs(neighbors@) == region_neighbors(label_map@, width as int, height as int, cx as int, cy as int, region_id),
        forall|k: int| 0 <= k < neighbors@.len() ==> (#[trigger] neighbors@[k]).0 < width && neighbors@[k].1 < height,
{
    let ghost map = label_map@;
    let ghost w = width as int;
    let ghost h = height as int;
    let ghost cands = seq![(cx as int - 1, cy as int), (cx as int + 1, cy as int), (cx as int, cy as int - 1), (cx as int, cy as int + 1)];
    let offsets: [(i64, i64); 4] = [(-1, 0), (1, 0), (0, -1), (0, 1)];
    let mut neighbors: Vec<(usize, usize)> = Vec::new();
    assert(cands.take(0).len() == 0);
    for k in 0..4
        invariant
            map == label_map@,
            w == width as int,
            h == height as int,
            map.len() == w * h,
            w * h <= u32::MAX,
            w <= i32::MAX,
            h <= i32::MAX,
            cx < width,
            cy < height,
            offsets@ == seq![(-1i64, 0i64), (1i64, 0i64), (0i64, -1i64), (0i64, 1i64)],
            cands == seq![(cx as int - 1, cy as int), (cx as int + 1, cy as int), (cx as int, cy as int - 1), (cx as int, cy as int + 1)],
            int_pairs(neighbors@) == keep_in_region(map, w, h, region_id, cands.take(k as int)),
            forall|j: int| 0 <= j < neighbors@.len() ==> (#[trigger] neighbors@[j]).0 < width && neighbors@[j].1 < height,
    {
        let (dx, dy) = offsets[k];
        assert(offsets@[k as int] == (dx, dy));
        assert(-1 <= dx <= 1 && -1 <= dy <= 1);
        let nx = cx as i64 + dx;
        let ny = cy as i64 + dy;
        assert(cands.take(k + 1).drop_last() =~= cands.take(k as int));
        assert(cands[k as int] == (nx as int, ny as int));
        if !(nx < 0 || ny < 0 || nx >= width as i64 || ny >= height as i64) {
            let nidx = cell_key(width, height, nx as usize, ny as usize) as usize;
            if label_map[nidx] == region_id {
                neighbors.push((nx as usize, ny as usize));
            }
        }
        assert(int_pairs(neighbors@) =~= keep_in_region(map, w, h, region_id, cands.take(k + 1)));
    }
    assert(cands.take(4) =~= cands);
    neighbors
}

/// Check if a pixel is an articulation point in its region using neighbor connectivity.
#[verifier::rlimit(100)]
fn is_articulation_point(
    label_map: &Vec<u32>,
    width: usize,
    height: usize,
    x: usize,
    y: usize,
    region_id: u32,
) -> (b: bool)
    requires
        label_map@.len() == width * height,
        width * height <= u32::MAX,
        width <= i32::MAX,
        height <= i32::MAX,
        x < width,
        y < height,
    ensures
        b == is_articulation(label_map@, width as int, height as int, x as int, y as int, region_id),
{
    let ghost map = label_map@;
    let ghost w = width as int;
    let ghost h = height as int;
    let ghost avoid = (x as int, y as int);
    let ghost n_cells = w * h;
    // Get 4-connected neighbors that belong to the same region
    let neighbors = region_neighbor_cells(label_map, width, height, x, y, region_id);
    let ghost ns = int_pairs(neighbors@);
    proof {
        lemma_region_neighbors(map, w, h, x as int, y as int, region_id);
        assert forall|k: int| 0 <= k < ns.len() implies in_region(map, w, h, #[trigger] ns[k], region_id)
            && ns[k] != avoid by {
            assert(adjacent(avoid, ns[k]));
        }
    }

    // If 0 or 1 neighbor, not an articulation point
    if neighbors.len() <= 1 {
        return false;
    }

    // Check if removing this pixel disconnects its neighbors.
    // Do a search from the first neighbor, see if all other neighbors are reachable
    // without passing through (x, y).
    let start = neighbors[0];
    let ghost start_i = ns[0];
    let start_key = cell_key(width, height, start.0, start.1);
    proof {
        assert(start_i == (start.0 as int, start.1 as int));
        let p0 = seq![start_i];
        assert(is_region_path(map, w, h, region_id, avoid, p0));
        assert(p0[0] == start_i && p0.last() == start_i);
        assert(connected_avoiding(map, w, h, region_id, avoid, start_i, start_i));
        vstd::set_lib::range_set_properties::<u64>(0, n_cells as u64);
    }
    let mut visited: std::collections::HashSet<u64> = std::collections::HashSet::new();
    visited.insert(start_key);
    let mut stack: Vec<(usize, usize)> = Vec::new();
    stack.push(start);
    proof {
        assert(visited@ =~= Set::<u64>::empty().insert(start_key));
        assert(visited@.subset_of(Set::<u64>::range(0, n_cells as u64)));
        vstd::set_lib::lemma_len_subset(visited@, Set::<u64>::range(0, n_cells as u64));
        assert forall|v: u64| #[trigger] visited@.contains(v) implies in_stack(w, stack@, v) || closed_cell(map, w, h, region_id, avoid, visited@, cell_of(w, v as int)) by {
            reveal(in_stack);
            assert(stack@[0] == start);
        }
    }

    while stack.len() > 0
        invariant
            map == label_map@,
            w == width as int,
            h == height as int,
            n_cells == w * h,
            map.len() == n_cells,
            n_cells <= u32::MAX,
            w <= i32::MAX,
            h <= i32::MAX,
            x < width,
            y < height,
            avoid == (x as int, y as int),
            visited@.finite(),
            visited@.subset_of(Set::<u64>::range(0, n_cells as u64)),
            visited@.len() <= n_cells,
            Set::<u64>::range(0, n_cells as u64).finite(),
            Set::<u64>::range(0, n_cells as u64).len() == n_cells,
            visited@.contains(key_of(w, start_i) as u64),
            forall|v: u64| #[trigger] visited@.contains(v) ==> v < n_cells
                && connected_avoiding(map, w, h, region_id, avoid, start_i, cell_of(w, v as int)),
            forall|j: int| 0 <= j < stack@.len() ==> (#[trigger] stack@[j]).0 < width && stack@[j].1 < height
                && visited@.contains(key_of(w, (stack@[j].0 as int, stack@[j].1 as int)) as u64),
            forall|v: u64| #[trigger] visited@.contains(v) ==> in_stack(w, stack@, v) || closed_cell(map, w, h, region_id, avoid, visited@, cell_of(w, v as int)),
        decreases n_cells - visited@.len(), stack@.len(),
    {
        let ghost stack_before = stack@;
        let ghost visited_before = visited@;
        let (cx, cy) = stack.pop().unwrap();
        let ghost c = (cx as int, cy as int);
        let ckey = cell_key(width, height, cx, cy);
        proof {
            assert(stack_before[stack_before.len() - 1] == (cx, cy));
            assert(visited@.contains(ckey));
            assert forall|v: u64| #[trigger] visited@.contains(v) && v != ckey implies in_stack(w, stack@, v) || closed_cell(map, w, h, region_id, avoid, visited@, cell_of(w, v as int)) by {
                reveal(in_stack);
                if exists|j: int| 0 <= j < stack_before.len() && key_of(w, (stack_before[j].0 as int, stack_before[j].1 as int)) == v {
                    let j = choose|j: int| 0 <= j < stack_before.len() && key_of(w, (stack_before[j].0 as int, stack_before[j].1 as int)) == v;
                    assert(j != stack_before.len() - 1);
                    assert(stack@[j] == stack_before[j]);
                }
            }
        }
        let cell_ns = region_neighbor_cells(label_map, width, height, cx, cy, region_id);
        let ghost cns = int_pairs(cell_ns@);
        proof {
            lemma_region_neighbors(map, w, h, cx as int, cy as int, region_id);
        }
        let m = cell_ns.len();
        for k in 0..m
            invariant
                m == cell_ns@.len(),
                cns == int_pairs(cell_ns@),
                cns == region_neighbors(map, w, h, cx as int, cy as int, region_id),
                forall|kk: int| 0 <= kk < cell_ns@.len() ==> (#[trigger] cell_ns@[kk]).0 < width && cell_ns@[kk].1 < height,
                forall|kk: int| 0 <= kk < cns.len() ==> in_region(map, w, h, #[trigger] cns[kk], region_id) && adjacent(c, cns[kk]),
                map == label_map@,
                w == width as int,
                h == height as int,
                n_cells == w * h,
                map.len() == n_cells,
                n_cells <= u32::MAX,
                x < width,
                y < height,
                avoid == (x as int, y as int),
                c == (cx as int, cy as int),
                cx < width,
                cy < height,
                ckey as int == key_of(w, c),
                cell_of(w, ckey as int) == c,
                visited@.contains(ckey),
                visited@.finite(),
                visited@.subset_of(Set::<u64>::range(0, n_cells as u64)),
                Set::<u64>::range(0, n_cells as u64).finite(),
                Set::<u64>::range(0, n_cells as u64).len() == n_cells,
                visited_before.finite(),
                visited_before.subset_of(visited@),
                visited@.contains(key_of(w, start_i) as u64),
                stack_before.len() >= 1,
                stack@.len() >= stack_before.len() - 1,
                forall|j: int| 0 <= j < stack_before.len() - 1 ==> stack@[j] == stack_before[j],
                visited@.len() == visited_before.len() + (stack@.len() - (stack_before.len() - 1)),
                forall|v: u64| #[trigger] visited@.contains(v) ==> v < n_cells
                    && connected_avoiding(map, w, h, region_id, avoid, start_i, cell_of(w, v as int)),
                forall|j: int| 0 <= j < stack@.len() ==> (#[trigger] stack@[j]).0 < width && stack@[j].1 < height
                    && visited@.contains(key_of(w, (stack@[j].0 as int, stack@[j].1 as int)) as u64),
                forall|v: u64| #[trigger] visited@.contains(v) && v != ckey ==> in_stack(w, stack@, v) || closed_cell(map, w, h, region_id, avoid, visited@, cell_of(w, v as int)),
                forall|kk: int| 0 <= kk < k ==> #[trigger] cns[kk] == avoid || visited@.contains(key_of(w, cns[kk]) as u64),
        {
            let (nux, nuy) = cell_ns[k];
            let ghost q = (nux as int, nuy as int);
            assert(cns[k as int] == q);
            // Skip the pixel being tested
            if !(nux == x && nuy == y) {
                let nkey = cell_key(width, height, nux, nuy);
                if !visited.contains(&nkey) {
                    proof {
                        assert(connected_avoiding(map, w, h, region_id, avoid, start_i, cell_of(w, ckey as int)));
                        lemma_extend_connection(map, w, h, region_id, avoid, start_i, c, q);
                    }
                    let ghost vis0 = visited@;
                    let ghost st0 = stack@;
                    visited.insert(nkey);
                    stack.push((nux, nuy));
                    proof {
                        assert(visited@.subset_of(Set::<u64>::range(0, n_cells as u64)));
                        vstd::set_lib::lemma_len_subset(visited@, Set::<u64>::range(0, n_cells as u64));
                        assert forall|v: u64| #[trigger] visited@.contains(v) && v != ckey implies in_stack(w, stack@, v) || closed_cell(map, w, h, region_id, avoid, visited@, cell_of(w, v as int)) by {
                            if v == nkey {
                                reveal(in_stack);
                                assert(stack@[stack@.len() - 1] == (nux, nuy));
                            } else {
                                assert(vis0.contains(v));
                                if in_stack(w, st0, v) {
                                    lemma_in_stack_prefix(w, st0, stack@, v);
                                } else {
                                    lemma_closed_mono(map, w, h, region_id, avoid, vis0, visited@, cell_of(w, v as int));
                                }
                            }
                        }
                    }
                }
            }
        }
        proof {
            vstd::set_lib::lemma_len_subset(visited@, Set::<u64>::range(0, n_cells as u64));
            assert(closed_cell(map, w, h, region_id, avoid, visited@, c)) by {
                reveal(closed_cell);
                assert forall|q: (int, int)| adjacent(c, q) && in_region(map, w, h, q, region_id) && q != avoid
                    implies visited@.contains(key_of(w, q) as u64) by {
                    assert(cns.contains(q));
                    let kk = choose|kk: int| 0 <= kk < cns.len() && cns[kk] == q;
                }
            }
        }
    }

    proof {
        assert forall|v: u64| #[trigger] visited@.contains(v) implies closed_cell(map, w, h, region_id, avoid, visited@, cell_of(w, v as int)) by {
            reveal(in_stack);
        }
    }
    // If any neighbor is NOT reachable from the first, this is an articulation point
    let n = neighbors.len();
    let mut disconnected = false;
    for k in 1..n
        invariant
            n == neighbors@.len(),
            ns == int_pairs(neighbors@),
            n >= 2,
            w == width as int,
            h == height as int,
            n_cells == w * h,
            map == label_map@,
            map.len() == n_cells,
            n_cells <= u32::MAX,
            avoid == (x as int, y as int),
            forall|kk: int| 0 <= kk < ns.len() ==> in_region(map, w, h, #[trigger] ns[kk], region_id) && ns[kk] != avoid,
            forall|kk: int| 0 <= kk < neighbors@.len() ==> (#[trigger] neighbors@[kk]).0 < width && neighbors@[kk].1 < height,
            start_i == ns[0],
            visited@.contains(key_of(w, start_i) as u64),
            forall|v: u64| #[trigger] visited@.contains(v) ==> v < n_cells
                && connected_avoiding(map, w, h, region_id, avoid, start_i, cell_of(w, v as int)),
            forall|v: u64| #[trigger] visited@.contains(v) ==> closed_cell(map, w, h, region_id, avoid, visited@, cell_of(w, v as int)),
            disconnected == exists|kk: int| 1 <= kk < k && !connected_avoiding(map, w, h, region_id, avoid, ns[0], #[trigger] ns[kk]),
    {
        let (px, py) = neighbors[k];
        let key = cell_key(width, height, px, py);
        proof {
            assert(ns[k as int] == (px as int, py as int));
            if connected_avoiding(map, w, h, region_id, avoid, ns[0], ns[k as int]) {
                let path = choose|path: Seq<(int, int)>|
                    is_region_path(map, w, h, region_id, avoid, path) && path[0] == ns[0] && path.last() == ns[k as int];
                assert forall|v: u64| #[trigger] visited@.contains(v) implies v < w * h && forall|q: (int, int)|
                    adjacent(cell_of(w, v as int), q) && in_region(map, w, h, q, region_id) && q != avoid
                        ==> visited@.contains(key_of(w, q) as u64) by {
                    assert(closed_cell(map, w, h, region_id, avoid, visited@, cell_of(w, v as int)));
                    reveal(closed_cell);
                }
                lemma_path_stays_visited(map, w, h, region_id, avoid, path, visited@, path.len() - 1);
            }
        }
        if !visited.contains(&key) {
            disconnected = true;
        }
    }
    disconnected
}

} // verus!
