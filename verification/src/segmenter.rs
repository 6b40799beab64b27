//! Connected-component labelling of a quantized image.
use vstd::prelude::*;

use crate::grid::{adjacent, cell_key, cell_of, key_of, lemma_cell_key, lemma_key_cell};
use crate::model::{
    consistent, count_label, unique_ids, lemma_count_label_bound, lemma_count_label_congruent, lemma_count_label_update,
    lemma_count_label_zero,
};
use crate::types::{LabelImage, Region, Segmentation, SegmentationView};

verus! {

/// Cell `p` lies in the `w x h` grid and its pixel has palette index `color`.
pub open spec fn has_color(labels: Seq<u16>, w: int, h: int, p: (int, int), color: u16) -> bool {
    &&& 0 <= p.0 < w
    &&& 0 <= p.1 < h
    &&& labels[key_of(w, p)] == color
}

/// `path` walks through edge-adjacent cells that all have palette index `color`.
pub open spec fn is_color_path(
    labels: Seq<u16>,
    w: int,
    h: int,
    color: u16,
    path: Seq<(int, int)>,
) -> bool {
    &&& path.len() >= 1
    &&& forall|k: int| 0 <= k < path.len() ==> has_color(labels, w, h, #[trigger] path[k], color)
    &&& forall|k: int| 0 <= k < path.len() - 1 ==> adjacent(#[trigger] path[k], path[k + 1])
}

/// `b` can be reached from `a` through edge-adjacent cells of `a`'s color.
pub open spec fn color_connected(labels: Seq<u16>, w: int, h: int, a: (int, int), b: (int, int)) -> bool {
    exists|path: Seq<(int, int)>|
        is_color_path(labels, w, h, labels[key_of(w, a)], path) && path[0] == a && path.last() == b
}

/// Pixels `i` and `j` (row-major indices) are 4-connected through pixels of one color.
pub open spec fn pixel_linked(labels: Seq<u16>, w: int, h: int, i: int, j: int) -> bool {
    color_connected(labels, w, h, cell_of(w, i), cell_of(w, j))
}

/// `seg` is the labelling of the `w x h` image `labels` into its 4-connected
/// single-color components: two pixels share a label exactly when they are
/// linked, labels are numbered `0, 1, ...` in the row-major order of each
/// component's first pixel, and region `k` records id `k`, its color and the
/// number of its pixels.
pub open spec fn segments(labels: Seq<u16>, w: u32, h: u32, seg: SegmentationView) -> bool {
    let n = w * h;
    let m = seg.label_map;
    let r = seg.regions;
    &&& seg.width == w
    &&& seg.height == h
    &&& m.len() == n
    &&& forall|i: int| 0 <= i < n ==> #[trigger] m[i] < r.len()
    &&& forall|i: int, j: int|
        0 <= i < n && 0 <= j < n ==> (#[trigger] m[i] == #[trigger] m[j] <==> pixel_linked(
            labels,
            w as int,
            h as int,
            i,
            j,
        ))
    &&& forall|i: int| 0 <= i < n && #[trigger] m[i] > 0 ==> exists|j: int| 0 <= j < i && m[j] == m[i] - 1
    &&& forall|k: int|
        0 <= k < r.len() ==> (#[trigger] r[k]).id == k && r[k].pixel_count == count_label(m, k as u32)
            && exists|i: int| 0 <= i < n && m[i] == k
    &&& forall|i: int| 0 <= i < n ==> r[#[trigger] m[i] as int].color_index == labels[i]
}

proof fn lemma_linked_refl(labels: Seq<u16>, w: int, h: int, a: (int, int))
    requires
        0 <= a.0 < w,
        0 <= a.1 < h,
    ensures
        color_connected(labels, w, h, a, a),
{
    let p = seq![a];
    assert(is_color_path(labels, w, h, labels[key_of(w, a)], p));
    assert(p[0] == a && p.last() == a);
}

proof fn lemma_linked_color(labels: Seq<u16>, w: int, h: int, a: (int, int), b: (int, int))
    requires
        color_connected(labels, w, h, a, b),
    ensures
        has_color(labels, w, h, a, labels[key_of(w, a)]),
        has_color(labels, w, h, b, labels[key_of(w, a)]),
{
    let path = choose|path: Seq<(int, int)>|
        is_color_path(labels, w, h, labels[key_of(w, a)], path) && path[0] == a && path.last() == b;
    assert(has_color(labels, w, h, path[0], labels[key_of(w, a)]));
    assert(has_color(labels, w, h, path[path.len() - 1], labels[key_of(w, a)]));
}

proof fn lemma_linked_extend(labels: Seq<u16>, w: int, h: int, a: (int, int), c: (int, int), q: (int, int))
    requires
        color_connected(labels, w, h, a, c),
        adjacent(c, q),
        has_color(labels, w, h, q, labels[key_of(w, a)]),
    ensures
        color_connected(labels, w, h, a, q),
{
    let path = choose|path: Seq<(int, int)>|
        is_color_path(labels, w, h, labels[key_of(w, a)], path) && path[0] == a && path.last() == c;
    let p2 = path.push(q);
    assert(is_color_path(labels, w, h, labels[key_of(w, a)], p2));
    assert(p2[0] == a && p2.last() == q);
}

proof fn lemma_linked_symm(labels: Seq<u16>, w: int, h: int, a: (int, int), b: (int, int))
    requires
        color_connected(labels, w, h, a, b),
    ensures
        color_connected(labels, w, h, b, a),
{
    let color = labels[key_of(w, a)];
    let path = choose|path: Seq<(int, int)>|
        is_color_path(labels, w, h, color, path) && path[0] == a && path.last() == b;
    lemma_linked_color(labels, w, h, a, b);
    let n = path.len();
    let rev = Seq::new(n, |k: int| path[n - 1 - k]);
    assert forall|k: int| 0 <= k < rev.len() implies has_color(labels, w, h, #[trigger] rev[k], color) by {
        assert(has_color(labels, w, h, path[n - 1 - k], color));
    }
    assert forall|k: int| 0 <= k < rev.len() - 1 implies adjacent(#[trigger] rev[k], rev[k + 1]) by {
        assert(adjacent(path[n - 2 - k], path[n - 2 - k + 1]));
    }
    assert(is_color_path(labels, w, h, labels[key_of(w, b)], rev));
    assert(rev[0] == b && rev.last() == a);
}

proof fn lemma_linked_trans(labels: Seq<u16>, w: int, h: int, a: (int, int), b: (int, int), c: (int, int))
    requires
        color_connected(labels, w, h, a, b),
        color_connected(labels, w, h, b, c),
    ensures
        color_connected(labels, w, h, a, c),
{
    let color = labels[key_of(w, a)];
    lemma_linked_color(labels, w, h, a, b);
    let p1 = choose|path: Seq<(int, int)>|
        is_color_path(labels, w, h, color, path) && path[0] == a && path.last() == b;
    let p2 = choose|path: Seq<(int, int)>|
        is_color_path(labels, w, h, labels[key_of(w, b)], path) && path[0] == b && path.last() == c;
    let tail = p2.subrange(1, p2.len() as int);
    let p = p1 + tail;
    assert forall|k: int| 0 <= k < p.len() implies has_color(labels, w, h, #[trigger] p[k], color) by {
        if k < p1.len() {
            assert(has_color(labels, w, h, p1[k], color));
        } else {
            assert(p[k] == p2[k - p1.len() + 1]);
            assert(has_color(labels, w, h, p2[k - p1.len() + 1], color));
        }
    }
    assert forall|k: int| 0 <= k < p.len() - 1 implies adjacent(#[trigger] p[k], p[k + 1]) by {
        if k < p1.len() - 1 {
            assert(adjacent(p1[k], p1[k + 1]));
        } else if k == p1.len() - 1 {
            assert(p[k] == p2[0]);
            assert(p[k + 1] == p2[1]);
            assert(adjacent(p2[0], p2[1]));
        } else {
            let m = k - p1.len() + 1;
            assert(p[k] == p2[m]);
            assert(p[k + 1] == p2[m + 1]);
            assert(adjacent(p2[m], p2[m + 1]));
        }
    }
    assert(is_color_path(labels, w, h, color, p));
    if p2.len() == 1 {
        assert(p.last() == p1.last());
    } else {
        assert(p.last() == p2.last());
    }
}

/// Some entry of the fill stack is the cell `q`.
#[verifier::opaque]
spec fn on_stack(stack: Seq<(usize, usize)>, q: (int, int)) -> bool {
    exists|j: int| 0 <= j < stack.len() && (stack[j].0 as int, stack[j].1 as int) == q
}

/// Cell `q` already carries `region_id`, or waits on the stack.
spec fn covered(map: Seq<u32>, w: int, region_id: u32, stack: Seq<(usize, usize)>, q: (int, int)) -> bool {
    map[key_of(w, q)] == region_id || on_stack(stack, q)
}

/// Cell `q` belongs in a fill of `color`: it has that color and was unlabelled.
spec fn fillable(labels: Seq<u16>, map0: Seq<u32>, w: int, h: int, color: u16, q: (int, int)) -> bool {
    has_color(labels, w, h, q, color) && map0[key_of(w, q)] == u32::MAX
}

/// Every fillable neighbour of `p` is covered.
#[verifier::opaque]
spec fn pending_closed(
    labels: Seq<u16>,
    map0: Seq<u32>,
    map: Seq<u32>,
    w: int,
    h: int,
    color: u16,
    region_id: u32,
    stack: Seq<(usize, usize)>,
    p: (int, int),
) -> bool {
    forall|q: (int, int)|
        adjacent(p, q) && fillable(labels, map0, w, h, color, q) ==> covered(map, w, region_id, stack, q)
}

/// Cell `q` is the start of the fill or a neighbour of a cell linked to it.
spec fn near_fill(labels: Seq<u16>, w: int, h: int, start: (int, int), q: (int, int)) -> bool {
    q == start || exists|f: (int, int)| color_connected(labels, w, h, start, f) && #[trigger] adjacent(f, q)
}

proof fn lemma_pending_step(
    labels: Seq<u16>,
    map0: Seq<u32>,
    m1: Seq<u32>,
    m2: Seq<u32>,
    w: int,
    h: int,
    color: u16,
    region_id: u32,
    s1: Seq<(usize, usize)>,
    s2: Seq<(usize, usize)>,
    p: (int, int),
)
    requires
        pending_closed(labels, map0, m1, w, h, color, region_id, s1, p),
        forall|q: (int, int)|
            fillable(labels, map0, w, h, color, q) && #[trigger] covered(m1, w, region_id, s1, q)
                ==> covered(m2, w, region_id, s2, q),
    ensures
        pending_closed(labels, map0, m2, w, h, color, region_id, s2, p),
{
    reveal(pending_closed);
}

proof fn lemma_fill_reaches(
    labels: Seq<u16>,
    map0: Seq<u32>,
    map: Seq<u32>,
    w: int,
    h: int,
    color: u16,
    region_id: u32,
    start: (int, int),
    path: Seq<(int, int)>,
    k: int,
)
    requires
        0 < w,
        0 < h,
        map.len() == w * h,
        labels.len() == w * h,
        is_color_path(labels, w, h, color, path),
        path[0] == start,
        labels[key_of(w, start)] == color,
        map[key_of(w, start)] == region_id,
        forall|i: int|
            0 <= i < w * h && #[trigger] map[i] == region_id ==> pending_closed(
                labels,
                map0,
                map,
                w,
                h,
                color,
                region_id,
                Seq::empty(),
                cell_of(w, i),
            ),
        forall|i: int|
            0 <= i < w * h && color_connected(labels, w, h, start, #[trigger] cell_of(w, i))
                ==> map0[i] == u32::MAX,
        0 <= k < path.len(),
    ensures
        map[key_of(w, path[k])] == region_id,
    decreases k,
{
    if k > 0 {
        lemma_fill_reaches(labels, map0, map, w, h, color, region_id, start, path, k - 1);
        let prev = path[k - 1];
        let q = path[k];
        assert(has_color(labels, w, h, prev, color));
        assert(has_color(labels, w, h, q, color));
        lemma_key_cell(w, h, prev);
        lemma_key_cell(w, h, q);
        let i = key_of(w, prev);
        assert(pending_closed(labels, map0, map, w, h, color, region_id, Seq::empty(), cell_of(w, i)));
        let pre = path.take(k + 1);
        assert(is_color_path(labels, w, h, labels[key_of(w, start)], pre));
        assert(pre[0] == start && pre.last() == q);
        assert(color_connected(labels, w, h, start, cell_of(w, key_of(w, q))));
        assert(map0[key_of(w, q)] == u32::MAX);
        assert(adjacent(prev, q));
        reveal(pending_closed);
        reveal(on_stack);
        assert(covered(map, w, region_id, Seq::empty(), q));
    }
}

/// The in-grid edge-neighbours of `(x, y)` in the order left, right, up, down.
spec fn grid_neighbors(x: usize, y: usize, w: usize, h: usize) -> Seq<(usize, usize)> {
    let left = if x > 0 { seq![((x - 1) as usize, y)] } else { Seq::empty() };
    let right = if x + 1 < w { seq![((x + 1) as usize, y)] } else { Seq::empty() };
    let up = if y > 0 { seq![(x, (y - 1) as usize)] } else { Seq::empty() };
    let down = if y + 1 < h { seq![(x, (y + 1) as usize)] } else { Seq::empty() };
    left + right + up + down
}

proof fn lemma_grid_neighbors(x: usize, y: usize, w: usize, h: usize)
    requires
        x < w,
        y < h,
    ensures
        forall|j: int|
            0 <= j < grid_neighbors(x, y, w, h).len() ==> (#[trigger] grid_neighbors(x, y, w, h)[j]).0 < w
                && grid_neighbors(x, y, w, h)[j].1 < h && adjacent(
                (x as int, y as int),
                (grid_neighbors(x, y, w, h)[j].0 as int, grid_neighbors(x, y, w, h)[j].1 as int),
            ),
        forall|q: (int, int)|
            #![trigger adjacent((x as int, y as int), q)]
            adjacent((x as int, y as int), q) && 0 <= q.0 < w && 0 <= q.1 < h ==> exists|j: int|
                0 <= j < grid_neighbors(x, y, w, h).len() && (
                grid_neighbors(x, y, w, h)[j].0 as int,
                grid_neighbors(x, y, w, h)[j].1 as int,
            ) == q,
{
    let g = grid_neighbors(x, y, w, h);
    let left: Seq<(usize, usize)> = if x > 0 { seq![((x - 1) as usize, y)] } else { Seq::empty() };
    let right: Seq<(usize, usize)> = if x + 1 < w { seq![((x + 1) as usize, y)] } else { Seq::empty() };
    let up: Seq<(usize, usize)> = if y > 0 { seq![(x, (y - 1) as usize)] } else { Seq::empty() };
    let down: Seq<(usize, usize)> = if y + 1 < h { seq![(x, (y + 1) as usize)] } else { Seq::empty() };
    assert(g == left + right + up + down);
    let a = left.len() as int;
    let b = a + right.len() as int;
    let c = b + up.len() as int;
    assert forall|q: (int, int)|
        #![trigger adjacent((x as int, y as int), q)]
        adjacent((x as int, y as int), q) && 0 <= q.0 < w && 0 <= q.1 < h implies exists|j: int|
            0 <= j < g.len() && (g[j].0 as int, g[j].1 as int) == q by {
        if q == (x as int - 1, y as int) {
            assert((g[0].0 as int, g[0].1 as int) == q);
        } else if q == (x as int + 1, y as int) {
            assert((g[a].0 as int, g[a].1 as int) == q);
        } else if q == (x as int, y as int - 1) {
            assert((g[b].0 as int, g[b].1 as int) == q);
        } else {
            assert((g[c].0 as int, g[c].1 as int) == q);
        }
    }
}

/// The state of a fill from `start` with `region_id` over the color
/// `color`, where `map0` is the label map it started from.
#[verifier::opaque]
spec fn fill_inv(
    lab: Seq<u16>,
    map0: Seq<u32>,
    w: int,
    h: int,
    color: u16,
    region_id: u32,
    start: (int, int),
    map: Seq<u32>,
    stack: Seq<(usize, usize)>,
) -> bool {
    let n = w * h;
    &&& 0 <= start.0 < w
    &&& 0 <= start.1 < h
    &&& n <= u32::MAX
    &&& lab.len() == n
    &&& lab[key_of(w, start)] == color
    &&& region_id != u32::MAX
    &&& map0.len() == n
    &&& forall|i: int| 0 <= i < n ==> map0[i] != region_id
    &&& forall|i: int|
        0 <= i < n && color_connected(lab, w, h, start, #[trigger] cell_of(w, i)) ==> map0[i] == u32::MAX
    &&& map.len() == n
    &&& forall|i: int| 0 <= i < n && #[trigger] map[i] != region_id ==> map[i] == map0[i]
    &&& forall|i: int|
        0 <= i < n && #[trigger] map[i] == region_id ==> color_connected(lab, w, h, start, cell_of(w, i))
            && pending_closed(lab, map0, map, w, h, color, region_id, stack, cell_of(w, i))
    &&& covered(map, w, region_id, stack, start)
    &&& forall|j: int|
        0 <= j < stack.len() ==> (#[trigger] stack[j]).0 < w && stack[j].1 < h && near_fill(
            lab,
            w,
            h,
            start,
            (stack[j].0 as int, stack[j].1 as int),
        )
}

/// Popping the top cell `c` and pushing new cells keeps every covered cell
/// covered, provided `c` itself ends up filled or is not fillable.
proof fn lemma_covered_keep(
    lab: Seq<u16>,
    map0: Seq<u32>,
    w: int,
    h: int,
    color: u16,
    region_id: u32,
    m1: Seq<u32>,
    m2: Seq<u32>,
    s1: Seq<(usize, usize)>,
    s2: Seq<(usize, usize)>,
)
    requires
        s1.len() > 0,
        s2.len() >= s1.len() - 1,
        forall|j: int| 0 <= j < s1.len() - 1 ==> s2[j] == s1[j],
        m1.len() == m2.len(),
        forall|i: int| 0 <= i < m1.len() && m1[i] == region_id ==> m2[i] == region_id,
        forall|q: (int, int)| fillable(lab, map0, w, h, color, q) ==> 0 <= key_of(w, q) < m1.len(),
        ({
            let c = (s1.last().0 as int, s1.last().1 as int);
            !fillable(lab, map0, w, h, color, c) || m2[key_of(w, c)] == region_id
        }),
    ensures
        forall|q: (int, int)|
            fillable(lab, map0, w, h, color, q) && #[trigger] covered(m1, w, region_id, s1, q)
                ==> covered(m2, w, region_id, s2, q),
{
    assert forall|q: (int, int)|
        fillable(lab, map0, w, h, color, q) && #[trigger] covered(m1, w, region_id, s1, q)
            implies covered(m2, w, region_id, s2, q) by {
        if m1[key_of(w, q)] != region_id {
            reveal(on_stack);
            let j = choose|j: int| 0 <= j < s1.len() && (s1[j].0 as int, s1[j].1 as int) == q;
            if j < s1.len() - 1 {
                assert(s2[j] == s1[j]);
            } else {
                assert(s1[j] == s1.last());
            }
        }
    }
}

/// The start of a fill is fillable.
proof fn lemma_start_fillable(
    lab: Seq<u16>,
    map0: Seq<u32>,
    w: int,
    h: int,
    color: u16,
    start: (int, int),
)
    requires
        0 <= start.0 < w,
        0 <= start.1 < h,
        lab[key_of(w, start)] == color,
        forall|i: int|
            0 <= i < w * h && color_connected(lab, w, h, start, #[trigger] cell_of(w, i)) ==> map0[i] == u32::MAX,
    ensures
        fillable(lab, map0, w, h, color, start),
        forall|q: (int, int)| fillable(lab, map0, w, h, color, q) ==> 0 <= key_of(w, q) < w * h,
{
    lemma_key_cell(w, h, start);
    lemma_linked_refl(lab, w, h, start);
    assert forall|q: (int, int)| fillable(lab, map0, w, h, color, q) implies 0 <= key_of(w, q) < w * h by {
        lemma_key_cell(w, h, q);
    }
}

proof fn lemma_fill_init(
    lab: Seq<u16>,
    map0: Seq<u32>,
    w: int,
    h: int,
    color: u16,
    region_id: u32,
    start: (int, int),
    stack: Seq<(usize, usize)>,
)
    requires
        0 <= start.0 < w,
        0 <= start.1 < h,
        w * h <= u32::MAX,
        lab.len() == w * h,
        lab[key_of(w, start)] == color,
        region_id != u32::MAX,
        map0.len() == w * h,
        forall|i: int| 0 <= i < w * h ==> map0[i] != region_id,
        forall|i: int|
            0 <= i < w * h && color_connected(lab, w, h, start, #[trigger] cell_of(w, i)) ==> map0[i] == u32::MAX,
        stack.len() == 1,
        (stack[0].0 as int, stack[0].1 as int) == start,
    ensures
        fill_inv(lab, map0, w, h, color, region_id, start, map0, stack),
{
    reveal(fill_inv);
    reveal(on_stack);
    assert(on_stack(stack, start));
}

proof fn lemma_skip_step(
    lab: Seq<u16>,
    map0: Seq<u32>,
    w: int,
    h: int,
    color: u16,
    region_id: u32,
    start: (int, int),
    map: Seq<u32>,
    stack: Seq<(usize, usize)>,
)
    requires
        fill_inv(lab, map0, w, h, color, region_id, start, map, stack),
        stack.len() > 0,
        ({
            let c = (stack.last().0 as int, stack.last().1 as int);
            !(map[key_of(w, c)] == u32::MAX && lab[key_of(w, c)] == color)
        }),
    ensures
        fill_inv(lab, map0, w, h, color, region_id, start, map, stack.drop_last()),
        stack.last().0 < w,
        stack.last().1 < h,
{
    reveal(fill_inv);
    let c = (stack.last().0 as int, stack.last().1 as int);
    let popped = stack.drop_last();
    assert(stack[stack.len() - 1] == stack.last());
    lemma_key_cell(w, h, c);
    lemma_start_fillable(lab, map0, w, h, color, start);
    assert(!fillable(lab, map0, w, h, color, c) || map[key_of(w, c)] == region_id);
    lemma_covered_keep(lab, map0, w, h, color, region_id, map, map, stack, popped);
    assert forall|i: int| 0 <= i < w * h && #[trigger] map[i] == region_id implies pending_closed(
        lab, map0, map, w, h, color, region_id, popped, cell_of(w, i)) by {
        lemma_pending_step(lab, map0, map, map, w, h, color, region_id, stack, popped, cell_of(w, i));
    }
    assert(covered(map, w, region_id, stack, start));
    assert forall|j: int| 0 <= j < popped.len() implies (#[trigger] popped[j]).0 < w && popped[j].1 < h && near_fill(
        lab,
        w,
        h,
        start,
        (popped[j].0 as int, popped[j].1 as int),
    ) by {
        assert(popped[j] == stack[j]);
    }
}

/// The cell on top of the stack, about to be filled, is linked to the start.
proof fn lemma_mark_linked(
    lab: Seq<u16>,
    map0: Seq<u32>,
    w: int,
    h: int,
    color: u16,
    region_id: u32,
    start: (int, int),
    map: Seq<u32>,
    stack: Seq<(usize, usize)>,
)
    requires
        fill_inv(lab, map0, w, h, color, region_id, start, map, stack),
        stack.len() > 0,
        ({
            let c = (stack.last().0 as int, stack.last().1 as int);
            lab[key_of(w, c)] == color
        }),
    ensures
        color_connected(lab, w, h, start, (stack.last().0 as int, stack.last().1 as int)),
        stack.last().0 < w,
        stack.last().1 < h,
{
    reveal(fill_inv);
    let c = (stack.last().0 as int, stack.last().1 as int);
    assert(stack[stack.len() - 1] == stack.last());
    assert(near_fill(lab, w, h, start, c));
    if c != start {
        let f = choose|f: (int, int)| color_connected(lab, w, h, start, f) && #[trigger] adjacent(f, c);
        lemma_linked_extend(lab, w, h, start, f, c);
    } else {
        lemma_linked_refl(lab, w, h, start);
    }
}

proof fn lemma_mark_step(
    lab: Seq<u16>,
    map0: Seq<u32>,
    w: int,
    h: int,
    color: u16,
    region_id: u32,
    start: (int, int),
    map: Seq<u32>,
    stack: Seq<(usize, usize)>,
    wu: usize,
    hu: usize,
)
    requires
        fill_inv(lab, map0, w, h, color, region_id, start, map, stack),
        w == wu as int,
        h == hu as int,
        stack.len() > 0,
        ({
            let c = (stack.last().0 as int, stack.last().1 as int);
            map[key_of(w, c)] == u32::MAX && lab[key_of(w, c)] == color
        }),
    ensures
        fill_inv(
            lab,
            map0,
            w,
            h,
            color,
            region_id,
            start,
            map.update(key_of(w, (stack.last().0 as int, stack.last().1 as int)), region_id),
            stack.drop_last() + grid_neighbors(stack.last().0, stack.last().1, wu, hu),
        ),
{
    lemma_mark_linked(lab, map0, w, h, color, region_id, start, map, stack);
    reveal(fill_inv);
    let x = stack.last().0;
    let y = stack.last().1;
    let c = (x as int, y as int);
    let popped = stack.drop_last();
    let g = grid_neighbors(x, y, wu, hu);
    let after = popped + g;
    let idx = key_of(w, c);
    let m_after = map.update(idx, region_id);
    lemma_key_cell(w, h, c);
    lemma_grid_neighbors(x, y, wu, hu);
    lemma_start_fillable(lab, map0, w, h, color, start);
    assert forall|j: int| 0 <= j < popped.len() implies after[j] == stack[j] by {}
    lemma_covered_keep(lab, map0, w, h, color, region_id, map, m_after, stack, after);
    // The neighbours of the new cell are all on the stack.
    assert(pending_closed(lab, map0, m_after, w, h, color, region_id, after, c)) by {
        reveal(pending_closed);
        assert forall|q: (int, int)| adjacent(c, q) && fillable(lab, map0, w, h, color, q)
            implies covered(m_after, w, region_id, after, q) by {
            let j = choose|j: int| 0 <= j < g.len() && (g[j].0 as int, g[j].1 as int) == q;
            assert(after[popped.len() + j] == g[j]);
            reveal(on_stack);
        }
    }
    assert forall|i: int| 0 <= i < w * h && #[trigger] m_after[i] == region_id implies color_connected(
        lab,
        w,
        h,
        start,
        cell_of(w, i),
    ) && pending_closed(lab, map0, m_after, w, h, color, region_id, after, cell_of(w, i)) by {
        if i != idx {
            assert(map[i] == region_id);
            lemma_pending_step(lab, map0, map, m_after, w, h, color, region_id, stack, after, cell_of(w, i));
        }
    }
    assert(covered(map, w, region_id, stack, start));
    assert forall|j: int| 0 <= j < after.len() implies (#[trigger] after[j]).0 < w && after[j].1 < h && near_fill(
        lab,
        w,
        h,
        start,
        (after[j].0 as int, after[j].1 as int),
    ) by {
        if j < popped.len() {
            assert(after[j] == stack[j]);
        } else {
            assert(after[j] == g[j - popped.len()]);
            let q = (after[j].0 as int, after[j].1 as int);
            assert(adjacent(c, q));
        }
    }
}

proof fn lemma_fill_done(
    lab: Seq<u16>,
    map0: Seq<u32>,
    w: int,
    h: int,
    color: u16,
    region_id: u32,
    start: (int, int),
    map: Seq<u32>,
)
    requires
        fill_inv(lab, map0, w, h, color, region_id, start, map, Seq::empty()),
    ensures
        map.len() == w * h,
        forall|i: int|
            0 <= i < w * h ==> #[trigger] map[i] == if color_connected(lab, w, h, start, cell_of(w, i)) {
                region_id
            } else {
                map0[i]
            },
{
    reveal(fill_inv);
    lemma_key_cell(w, h, start);
    assert(map[key_of(w, start)] == region_id) by {
        reveal(on_stack);
    }
    assert forall|i: int| 0 <= i < w * h implies #[trigger] map[i] == if color_connected(
        lab,
        w,
        h,
        start,
        cell_of(w, i),
    ) {
        region_id
    } else {
        map0[i]
    } by {
        if color_connected(lab, w, h, start, cell_of(w, i)) {
            let path = choose|path: Seq<(int, int)>|
                is_color_path(lab, w, h, lab[key_of(w, start)], path) && path[0] == start && path.last()
                    == cell_of(w, i);
            lemma_fill_reaches(lab, map0, map, w, h, color, region_id, start, path, path.len() - 1);
            lemma_cell_key(w, h, i);
        }
    }
}

/// Flood-fill from `(start_x, start_y)`, giving `region_id` to every pixel
/// 4-connected to it through pixels of `color_index`; returns how many were filled.
fn flood_fill(
    labels: &Vec<u16>,
    label_map: &mut Vec<u32>,
    w: usize,
    h: usize,
    start_x: usize,
    start_y: usize,
    color_index: u16,
    region_id: u32,
) -> (count: u32)
    requires
        labels@.len() == w * h,
        old(label_map)@.len() == w * h,
        w * h <= u32::MAX,
        start_x < w,
        start_y < h,
        labels@[key_of(w as int, (start_x as int, start_y as int))] == color_index,
        region_id != u32::MAX,
        forall|i: int| 0 <= i < w * h ==> old(label_map)@[i] != region_id,
        forall|i: int|
            0 <= i < w * h && color_connected(
                labels@,
                w as int,
                h as int,
                (start_x as int, start_y as int),
                #[trigger] cell_of(w as int, i),
            ) ==> old(label_map)@[i] == u32::MAX,
    ensures
        final(label_map)@.len() == w * h,
        forall|i: int|
            0 <= i < w * h ==> #[trigger] final(label_map)@[i] == if color_connected(
                labels@,
                w as int,
                h as int,
                (start_x as int, start_y as int),
                cell_of(w as int, i),
            ) {
                region_id
            } else {
                old(label_map)@[i]
            },
        count == count_label(final(label_map)@, region_id),
{
    let ghost lab = labels@;
    let ghost map0 = label_map@;
    let ghost wi = w as int;
    let ghost hi = h as int;
    let ghost start = (start_x as int, start_y as int);
    let mut stack: Vec<(usize, usize)> = Vec::new();
    stack.push((start_x, start_y));
    let mut count: u32 = 0;
    proof {
        lemma_count_label_zero(map0, region_id);
        lemma_fill_init(lab, map0, wi, hi, color_index, region_id, start, stack@);
    }
    while stack.len() > 0
        invariant
            lab == labels@,
            wi == w as int,
            hi == h as int,
            wi * hi <= u32::MAX,
            label_map@.len() == wi * hi,
            lab.len() == wi * hi,
            start == (start_x as int, start_y as int),
            region_id != u32::MAX,
            fill_inv(lab, map0, wi, hi, color_index, region_id, start, label_map@, stack@),
            count == count_label(label_map@, region_id),
        decreases count_label(label_map@, u32::MAX), stack@.len(),
    {
        let ghost s_before = stack@;
        let ghost m_before = label_map@;
        let (x, y) = stack.pop().unwrap();
        proof {
            assert(s_before[s_before.len() - 1] == (x, y));
            if !(m_before[key_of(wi, (x as int, y as int))] == u32::MAX && lab[key_of(wi, (x as int, y as int))] == color_index) {
                lemma_skip_step(lab, map0, wi, hi, color_index, region_id, start, m_before, s_before);
            } else {
                lemma_mark_linked(lab, map0, wi, hi, color_index, region_id, start, m_before, s_before);
            }
        }
        let idx = cell_key(w, h, x, y) as usize;
        if label_map[idx] == u32::MAX && labels[idx] == color_index {
            proof {
                lemma_mark_step(lab, map0, wi, hi, color_index, region_id, start, m_before, s_before, w, h);
                lemma_count_label_update(m_before, idx as int, region_id, region_id);
                lemma_count_label_update(m_before, idx as int, region_id, u32::MAX);
                lemma_count_label_bound(m_before.update(idx as int, region_id), region_id);
            }
            label_map.set(idx, region_id);
            count = count + 1;
            let ghost s_popped = stack@;
            if x > 0 {
                stack.push((x - 1, y));
            }
            if x + 1 < w {
                stack.push((x + 1, y));
            }
            if y > 0 {
                stack.push((x, y - 1));
            }
            if y + 1 < h {
                stack.push((x, y + 1));
            }
            assert(stack@ =~= s_popped + grid_neighbors(x, y, w, h));
        }
    }
    proof {
        assert(stack@ =~= Seq::<(usize, usize)>::empty());
        lemma_fill_done(lab, map0, wi, hi, color_index, region_id, start, label_map@);
    }
    count
}


/// The state of a row-major scan that has visited the pixels before `idx`:
/// every visited pixel is labelled, labels follow linked components exactly,
/// and region `k` was seeded at pixel `seeds[k]`.
#[verifier::opaque]
spec fn scan_inv(
    lab: Seq<u16>,
    w: int,
    h: int,
    map: Seq<u32>,
    regions: Seq<Region>,
    seeds: Seq<int>,
    idx: int,
) -> bool {
    let n = w * h;
    &&& map.len() == n
    &&& lab.len() == n
    &&& 0 <= idx <= n
    &&& n <= u32::MAX
    &&& regions.len() == seeds.len()
    &&& regions.len() <= idx
    &&& forall|i: int| 0 <= i < n ==> #[trigger] map[i] == u32::MAX || map[i] < regions.len()
    &&& forall|i: int| 0 <= i < idx ==> #[trigger] map[i] != u32::MAX
    &&& forall|i: int, j: int|
        0 <= i < n && 0 <= j < n && #[trigger] pixel_linked(lab, w, h, i, j) ==> map[i] == map[j]
    &&& forall|i: int, j: int|
        0 <= i < n && 0 <= j < n && #[trigger] map[i] != u32::MAX && map[i] == #[trigger] map[j]
            ==> pixel_linked(lab, w, h, i, j)
    &&& forall|k: int|
        0 <= k < seeds.len() ==> 0 <= #[trigger] seeds[k] < idx && map[seeds[k]] == k && (k > 0
            ==> seeds[k - 1] < seeds[k])
    &&& forall|i: int| 0 <= i < n && #[trigger] map[i] < regions.len() ==> i >= seeds[map[i] as int]
    &&& forall|k: int|
        0 <= k < regions.len() ==> (#[trigger] regions[k]).id == k && regions[k].color_index
            == lab[seeds[k]] && regions[k].pixel_count == count_label(map, k as u32)
}

proof fn lemma_pixel_linked_refl(lab: Seq<u16>, w: int, h: int, i: int)
    requires
        0 <= i < w * h,
        0 < w,
    ensures
        pixel_linked(lab, w, h, i, i),
{
    lemma_cell_key(w, h, i);
    lemma_linked_refl(lab, w, h, cell_of(w, i));
}

proof fn lemma_scan_init(lab: Seq<u16>, w: int, h: int, map: Seq<u32>)
    requires
        0 <= w,
        0 <= h,
        w * h <= u32::MAX,
        lab.len() == w * h,
        map.len() == w * h,
        forall|i: int| 0 <= i < w * h ==> map[i] == u32::MAX,
    ensures
        scan_inv(lab, w, h, map, Seq::empty(), Seq::empty(), 0),
{
    reveal(scan_inv);
}

proof fn lemma_scan_skip(
    lab: Seq<u16>,
    w: int,
    h: int,
    map: Seq<u32>,
    regions: Seq<Region>,
    seeds: Seq<int>,
    idx: int,
)
    requires
        scan_inv(lab, w, h, map, regions, seeds, idx),
        idx < w * h,
        map[idx] != u32::MAX,
    ensures
        scan_inv(lab, w, h, map, regions, seeds, idx + 1),
{
    reveal(scan_inv);
}

/// What a fill from the unlabelled pixel `idx` needs of the scan state.
proof fn lemma_scan_fill_ready(
    lab: Seq<u16>,
    w: int,
    h: int,
    map: Seq<u32>,
    regions: Seq<Region>,
    seeds: Seq<int>,
    idx: int,
)
    requires
        scan_inv(lab, w, h, map, regions, seeds, idx),
        idx < w * h,
        map[idx] == u32::MAX,
    ensures
        regions.len() < u32::MAX,
        forall|i: int| 0 <= i < w * h ==> map[i] != regions.len(),
        forall|i: int| 0 <= i < w * h && pixel_linked(lab, w, h, idx, i) ==> map[i] == u32::MAX,
{
    reveal(scan_inv);
    assert forall|i: int| 0 <= i < w * h implies map[i] != regions.len() by {
        assert(map[i] == u32::MAX || map[i] < regions.len());
    }
}

proof fn lemma_scan_fill(
    lab: Seq<u16>,
    w: int,
    h: int,
    map: Seq<u32>,
    map2: Seq<u32>,
    regions: Seq<Region>,
    seeds: Seq<int>,
    idx: int,
)
    requires
        scan_inv(lab, w, h, map, regions, seeds, idx),
        idx < w * h,
        0 < w,
        map[idx] == u32::MAX,
        map2.len() == w * h,
        forall|i: int|
            0 <= i < w * h ==> #[trigger] map2[i] == if pixel_linked(lab, w, h, idx, i) {
                regions.len() as u32
            } else {
                map[i]
            },
    ensures
        scan_inv(
            lab,
            w,
            h,
            map2,
            regions.push(
                Region {
                    id: regions.len() as u32,
                    color_index: lab[idx],
                    pixel_count: count_label(map2, regions.len() as u32) as u32,
                },
            ),
            seeds.push(idx),
            idx + 1,
        ),
{
    lemma_scan_fill_ready(lab, w, h, map, regions, seeds, idx);
    reveal(scan_inv);
    let n = w * h;
    let r = regions.len() as u32;
    let regions2 = regions.push(
        Region { id: r, color_index: lab[idx], pixel_count: count_label(map2, r) as u32 },
    );
    let seeds2 = seeds.push(idx);
    lemma_pixel_linked_refl(lab, w, h, idx);
    lemma_count_label_bound(map2, r);
    assert forall|i: int, j: int|
        0 <= i < n && 0 <= j < n && #[trigger] pixel_linked(lab, w, h, i, j) implies map2[i] == map2[j] by {
        if pixel_linked(lab, w, h, idx, i) {
            lemma_linked_trans(lab, w, h, cell_of(w, idx), cell_of(w, i), cell_of(w, j));
        } else if pixel_linked(lab, w, h, idx, j) {
            lemma_linked_symm(lab, w, h, cell_of(w, i), cell_of(w, j));
            lemma_linked_trans(lab, w, h, cell_of(w, idx), cell_of(w, j), cell_of(w, i));
        }
    }
    assert forall|i: int, j: int|
        0 <= i < n && 0 <= j < n && #[trigger] map2[i] != u32::MAX && map2[i] == #[trigger] map2[j]
            implies pixel_linked(lab, w, h, i, j) by {
        if pixel_linked(lab, w, h, idx, i) && pixel_linked(lab, w, h, idx, j) {
            lemma_linked_symm(lab, w, h, cell_of(w, idx), cell_of(w, i));
            lemma_linked_trans(lab, w, h, cell_of(w, i), cell_of(w, idx), cell_of(w, j));
        } else if pixel_linked(lab, w, h, idx, i) {
            assert(map[j] != r);
        } else if pixel_linked(lab, w, h, idx, j) {
            assert(map[i] != r);
        } else {
            assert(map[i] != u32::MAX && map[i] == map[j]);
        }
    }
    assert forall|k: int| 0 <= k < seeds2.len() implies 0 <= #[trigger] seeds2[k] < idx + 1 && map2[seeds2[k]]
        == k && (k > 0 ==> seeds2[k - 1] < seeds2[k]) by {
        if k < seeds.len() {
            assert(seeds2[k] == seeds[k]);
            assert(map[seeds[k]] != u32::MAX);
            if k > 0 {
                assert(seeds2[k - 1] == seeds[k - 1]);
            }
        } else if k > 0 {
            assert(seeds2[k - 1] == seeds[k - 1]);
        }
    }
    assert forall|i: int| 0 <= i < n && #[trigger] map2[i] < regions2.len() implies i >= seeds2[map2[i] as int] by {
        if pixel_linked(lab, w, h, idx, i) {
            assert(map[i] == u32::MAX);
        } else {
            assert(map[i] < regions.len());
            assert(seeds2[map[i] as int] == seeds[map[i] as int]);
        }
    }
    assert forall|k: int| 0 <= k < regions2.len() implies (#[trigger] regions2[k]).id == k
        && regions2[k].color_index == lab[seeds2[k]] && regions2[k].pixel_count == count_label(map2, k as u32) by {
        if k < regions.len() {
            assert(regions2[k] == regions[k]);
            assert(seeds2[k] == seeds[k]);
            assert forall|i: int| 0 <= i < map.len() implies (map[i] == k as u32) == (map2[i] == k as u32) by {
                if pixel_linked(lab, w, h, idx, i) {
                    assert(map[i] == u32::MAX);
                }
            }
            lemma_count_label_congruent(map, k as u32, map2, k as u32);
        }
    }
    assert forall|i: int| 0 <= i < idx + 1 implies #[trigger] map2[i] != u32::MAX by {
        if i < idx {
            assert(map[i] != u32::MAX);
        }
    }
    assert forall|i: int| 0 <= i < n implies #[trigger] map2[i] == u32::MAX || map2[i] < regions2.len() by {
        assert(map[i] == u32::MAX || map[i] < regions.len());
    }
}

proof fn lemma_scan_done(
    lab: Seq<u16>,
    w: u32,
    h: u32,
    map: Seq<u32>,
    regions: Seq<Region>,
    seeds: Seq<int>,
)
    requires
        scan_inv(lab, w as int, h as int, map, regions, seeds, w * h),
    ensures
        segments(
            lab,
            w,
            h,
            SegmentationView { regions: regions, label_map: map, width: w, height: h },
        ),
{
    reveal(scan_inv);
    let wi = w as int;
    let hi = h as int;
    let n = wi * hi;
    assert forall|i: int| 0 <= i < n && #[trigger] map[i] > 0 implies exists|j: int| 0 <= j < i && map[j] == map[i] - 1 by {
        assert(map[i] != u32::MAX);
        let k = map[i] as int;
        assert(seeds[k - 1] < seeds[k]);
        assert(map[seeds[k - 1]] == k - 1);
    }
    assert forall|k: int| 0 <= k < regions.len() implies (#[trigger] regions[k]).id == k && regions[k].pixel_count
        == count_label(map, k as u32) && exists|i: int| 0 <= i < n && map[i] == k by {
        assert(map[seeds[k]] == k);
    }
    assert forall|i: int| 0 <= i < n implies regions[#[trigger] map[i] as int].color_index == lab[i] by {
        assert(map[i] != u32::MAX);
        let k = map[i] as int;
        let s = seeds[k];
        assert(map[s] == k);
        assert(pixel_linked(lab, wi, hi, s, i));
        lemma_linked_color(lab, wi, hi, cell_of(wi, s), cell_of(wi, i));
        lemma_cell_key(wi, hi, s);
        lemma_cell_key(wi, hi, i);
    }
    assert forall|i: int, j: int| 0 <= i < n && 0 <= j < n implies (#[trigger] map[i] == #[trigger] map[j]
        <==> pixel_linked(lab, wi, hi, i, j)) by {
        assert(map[i] != u32::MAX);
    }
}

/// Segment a quantized image into connected regions using flood-fill.
///
/// Pixels are scanned in row-major order; each pixel not yet labelled seeds a
/// new region, numbered from 0, that takes every pixel 4-connected to it
/// through pixels of its palette index.
pub fn segment(image: &LabelImage) -> (seg: Segmentation)
    requires
        image.labels@.len() == image.width * image.height,
        image.width * image.height <= u32::MAX,
    ensures
        segments(image.labels@, image.width, image.height, seg@),
{
    let w = image.width as usize;
    let h = image.height as usize;
    let total = w * h;
    let ghost lab = image.labels@;
    let ghost wi = w as int;
    let ghost hi = h as int;

    let mut label_map: Vec<u32> = vec![u32::MAX; total];
    let mut regions: Vec<Region> = Vec::new();
    let mut region_id: u32 = 0;
    let ghost mut seeds: Seq<int> = Seq::empty();
    proof {
        assert forall|i: int| 0 <= i < wi * hi implies label_map@[i] == u32::MAX by {
            assert(vstd::pervasive::cloned(u32::MAX, label_map@[i]));
        }
        lemma_scan_init(lab, wi, hi, label_map@);
        assert(regions@ =~= Seq::<Region>::empty());
        assert(0 * wi == 0);
    }

    for y in 0..h
        invariant
            lab == image.labels@,
            wi == w as int,
            hi == h as int,
            w == image.width,
            h == image.height,
            lab.len() == wi * hi,
            wi * hi <= u32::MAX,
            label_map@.len() == wi * hi,
            region_id as int == regions@.len(),
            scan_inv(lab, wi, hi, label_map@, regions@, seeds, y * wi),
    {
        proof {
            assert((y + 1) * wi <= wi * hi) by (nonlinear_arith)
                requires y < hi, 0 <= wi;
            assert((y + 1) * wi == y * wi + wi) by (nonlinear_arith);
        }
        for x in 0..w
            invariant
                lab == image.labels@,
                wi == w as int,
                hi == h as int,
                lab.len() == wi * hi,
                wi * hi <= u32::MAX,
                label_map@.len() == wi * hi,
                y < h,
                (y + 1) * wi <= wi * hi,
                (y + 1) * wi == y * wi + wi,
                region_id as int == regions@.len(),
                scan_inv(lab, wi, hi, label_map@, regions@, seeds, y * wi + x),
        {
            let idx = cell_key(w, h, x, y) as usize;
            proof {
                assert(idx as int == y * wi + x);
            }
            if label_map[idx] == u32::MAX {
                proof {
                    lemma_scan_fill_ready(lab, wi, hi, label_map@, regions@, seeds, idx as int);
                    lemma_cell_key(wi, hi, idx as int);
                }
                let color_index = image.labels[idx];
                let ghost before = label_map@;
                let pixel_count = flood_fill(
                    &image.labels,
                    &mut label_map,
                    w,
                    h,
                    x,
                    y,
                    color_index,
                    region_id,
                );
                proof {
                    lemma_scan_fill(lab, wi, hi, before, label_map@, regions@, seeds, idx as int);
                }
                regions.push(Region { id: region_id, color_index, pixel_count });
                proof {
                    seeds = seeds.push(idx as int);
                }
                region_id = region_id + 1;
            } else {
                proof {
                    lemma_scan_skip(lab, wi, hi, label_map@, regions@, seeds, idx as int);
                }
            }
        }
    }
    proof {
        assert(hi * wi == wi * hi) by (nonlinear_arith);
        lemma_scan_done(lab, image.width, image.height, label_map@, regions@, seeds);
    }
    Segmentation { regions, label_map, width: image.width, height: image.height }
}


/// A segmentation of an image is consistent: region ids are distinct, every
/// label names a region, and each region's pixel count is the number of
/// pixels carrying its id; it is therefore a valid input to the editor.
pub proof fn law_segmentation_consistent(labels: Seq<u16>, w: u32, h: u32, seg: SegmentationView)
    requires
        w * h <= u32::MAX,
        segments(labels, w, h, seg),
    ensures
        seg.wf(),
        consistent(seg),
{
    let n = w * h;
    assert forall|i: int| 0 <= i < seg.label_map.len() implies seg.has_region(#[trigger] seg.label_map[i]) by {
        let k = seg.label_map[i] as int;
        assert(seg.regions[k].id == k);
    }
    assert forall|k: int| 0 <= k < seg.regions.len() implies #[trigger] seg.regions[k].pixel_count == count_label(
        seg.label_map,
        seg.regions[k].id,
    ) by {
        assert(seg.regions[k].id == k);
    }
    assert(unique_ids(seg.regions)) by {
        assert forall|i: int, j: int| 0 <= i < seg.regions.len() && 0 <= j < seg.regions.len() && i != j
            implies seg.regions[i].id != seg.regions[j].id by {
            assert(seg.regions[i].id == i);
            assert(seg.regions[j].id == j);
        }
    }
}

} // verus!
