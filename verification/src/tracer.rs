//! Boundary tracing by marching squares.
//!
//! Cell `(cx, cy)` has the pixels `(cx - 1, cy - 1)`, `(cx, cy - 1)`,
//! `(cx - 1, cy)` and `(cx, cy)` at its top-left, top-right, bottom-left and
//! bottom-right corners; pixels outside the image count as outside the region.
//! Contour points are edge midpoints, given in half-pixel units
//! ([`HalfPoint`]), where the centre of pixel `(i, j)` is `(2i + 1, 2j + 1)`.
use vstd::prelude::*;

use crate::types::{Boundary, HalfPoint, Region, Segmentation};

verus! {

broadcast use vstd::std_specs::hash::group_hash_axioms;

/// An edge of a marching-squares cell.
#[derive(Debug, Clone, Copy, PartialEq, Eq, Structural)]
pub enum Edge {
    Left,
    Top,
    Right,
    Bottom,
}

/// The edge across the cell from `e`.
pub open spec fn opposite_edge(e: Edge) -> Edge {
    match e {
        Edge::Left => Edge::Right,
        Edge::Top => Edge::Bottom,
        Edge::Right => Edge::Left,
        Edge::Bottom => Edge::Top,
    }
}

impl Edge {
    /// The edge across the cell.
    pub fn opposite(self) -> (e: Edge)
        ensures
            e == opposite_edge(self),
    {
        match self {
            Edge::Left => Edge::Right,
            Edge::Top => Edge::Bottom,
            Edge::Right => Edge::Left,
            Edge::Bottom => Edge::Top,
        }
    }
}

/// A contour piece crossing a cell from its `entry` edge to its `exit` edge.
#[derive(Debug, Clone, Copy, PartialEq, Eq, Structural)]
pub struct CellPath {
    pub entry: Edge,
    pub exit: Edge,
}

/// Pixel `(x, y)` lies in the `w x h` grid and is set in `mask`.
pub open spec fn mask_at(mask: Seq<bool>, w: int, h: int, x: int, y: int) -> bool {
    0 <= x < w && 0 <= y < h && mask[y * w + x]
}

/// The marching-squares case of cell `(cx, cy)`: 8 for the top-left corner,
/// 4 for the top-right, 2 for the bottom-right and 1 for the bottom-left,
/// summed over the corners that are set.
pub open spec fn case_of(mask: Seq<bool>, w: int, h: int, cx: int, cy: int) -> int {
    (if mask_at(mask, w, h, cx - 1, cy - 1) { 8int } else { 0int })
        + (if mask_at(mask, w, h, cx, cy - 1) { 4int } else { 0int })
        + (if mask_at(mask, w, h, cx, cy) { 2int } else { 0int })
        + (if mask_at(mask, w, h, cx - 1, cy) { 1int } else { 0int })
}

/// The contour pieces of a cell of the given case; `center_inside` settles
/// the two saddle cases.
pub open spec fn cell_paths_spec(case: int, center_inside: bool) -> Seq<CellPath> {
    let l = Edge::Left;
    let t = Edge::Top;
    let r = Edge::Right;
    let b = Edge::Bottom;
    if case == 1 {
        seq![CellPath { entry: l, exit: b }]
    } else if case == 2 {
        seq![CellPath { entry: b, exit: r }]
    } else if case == 3 {
        seq![CellPath { entry: l, exit: r }]
    } else if case == 4 {
        seq![CellPath { entry: r, exit: t }]
    } else if case == 5 {
        if center_inside {
            seq![CellPath { entry: t, exit: l }, CellPath { entry: b, exit: r }]
        } else {
            seq![CellPath { entry: r, exit: t }, CellPath { entry: l, exit: b }]
        }
    } else if case == 6 {
        seq![CellPath { entry: b, exit: t }]
    } else if case == 7 {
        seq![CellPath { entry: l, exit: t }]
    } else if case == 8 {
        seq![CellPath { entry: t, exit: l }]
    } else if case == 9 {
        seq![CellPath { entry: t, exit: b }]
    } else if case == 10 {
        if center_inside {
            seq![CellPath { entry: r, exit: t }, CellPath { entry: b, exit: l }]
        } else {
            seq![CellPath { entry: t, exit: l }, CellPath { entry: b, exit: r }]
        }
    } else if case == 11 {
        seq![CellPath { entry: t, exit: r }]
    } else if case == 12 {
        seq![CellPath { entry: r, exit: l }]
    } else if case == 13 {
        seq![CellPath { entry: r, exit: b }]
    } else if case == 14 {
        seq![CellPath { entry: b, exit: l }]
    } else {
        Seq::empty()
    }
}

/// The first path of `paths` that enters through `entry`.
pub open spec fn first_with_entry(paths: Seq<CellPath>, entry: Edge) -> Option<CellPath>
    decreases paths.len(),
{
    if paths.len() == 0 {
        None
    } else if paths[0].entry == entry {
        Some(paths[0])
    } else {
        first_with_entry(paths.drop_first(), entry)
    }
}

/// The midpoint of edge `e` of cell `(cx, cy)`.
pub open spec fn edge_point_spec(cx: int, cy: int, e: Edge) -> HalfPoint {
    match e {
        Edge::Left => HalfPoint { x: (2 * cx - 1) as i64, y: (2 * cy) as i64 },
        Edge::Top => HalfPoint { x: (2 * cx) as i64, y: (2 * cy - 1) as i64 },
        Edge::Right => HalfPoint { x: (2 * cx + 1) as i64, y: (2 * cy) as i64 },
        Edge::Bottom => HalfPoint { x: (2 * cx) as i64, y: (2 * cy + 1) as i64 },
    }
}

/// The cell on the other side of edge `e` of cell `(cx, cy)`.
pub open spec fn neighbor_cell(cx: int, cy: int, e: Edge) -> (int, int) {
    match e {
        Edge::Right => (cx + 1, cy),
        Edge::Bottom => (cx, cy + 1),
        Edge::Left => (cx - 1, cy),
        Edge::Top => (cx, cy - 1),
    }
}

/// `p` is the midpoint between two edge-adjacent pixels, exactly one of
/// which is set in `mask`: it lies on the crack between the region and the rest.
pub open spec fn on_crack(mask: Seq<bool>, w: int, h: int, p: HalfPoint) -> bool {
    if p.x % 2 != 0 && p.y % 2 == 0 {
        let i = (p.x - 1) / 2;
        let j = p.y / 2;
        mask_at(mask, w, h, i, j - 1) != mask_at(mask, w, h, i, j)
    } else if p.x % 2 == 0 && p.y % 2 != 0 {
        let i = p.x / 2;
        let j = (p.y - 1) / 2;
        mask_at(mask, w, h, i - 1, j) != mask_at(mask, w, h, i, j)
    } else {
        false
    }
}

/// `q` is one step from `p` along the cracks: the two midpoints of two edges
/// of one cell.
pub open spec fn crack_step(p: HalfPoint, q: HalfPoint) -> bool {
    let dx = q.x - p.x;
    let dy = q.y - p.y;
    ||| (dx == 1 || dx == -1) && (dy == 1 || dy == -1)
    ||| (dx == 2 || dx == -2) && dy == 0
    ||| dx == 0 && (dy == 2 || dy == -2)
}

/// Every point lies on a crack, consecutive points differ, and all
/// consecutive points but the last pair are one crack step apart.
pub open spec fn crack_walk(mask: Seq<bool>, w: int, h: int, pts: Seq<HalfPoint>) -> bool {
    &&& forall|k: int| 0 <= k < pts.len() ==> on_crack(mask, w, h, #[trigger] pts[k])
    &&& forall|k: int| 0 <= k < pts.len() - 1 ==> #[trigger] pts[k] != pts[k + 1]
    &&& forall|k: int| 0 <= k < pts.len() - 2 ==> crack_step(#[trigger] pts[k], pts[k + 1])
}

/// Every point lies on a crack and consecutive points are one crack step apart.
pub open spec fn crack_chain(mask: Seq<bool>, w: int, h: int, pts: Seq<HalfPoint>) -> bool {
    &&& forall|k: int| 0 <= k < pts.len() ==> on_crack(mask, w, h, #[trigger] pts[k])
    &&& forall|k: int| 0 <= k < pts.len() - 1 ==> #[trigger] pts[k] != pts[k + 1] && crack_step(pts[k], pts[k + 1])
}

/// A closed contour of the region in `mask`: a crack walk of at least three
/// points that ends where it starts.
pub open spec fn closed_contour(mask: Seq<bool>, w: int, h: int, pts: Seq<HalfPoint>) -> bool {
    &&& pts.len() >= 3
    &&& pts[0] == pts.last()
    &&& crack_walk(mask, w, h, pts)
}

/// `pts` with `p` appended, unless `p` is already its last point.
pub open spec fn push_dedup(pts: Seq<HalfPoint>, p: HalfPoint) -> Seq<HalfPoint> {
    if pts.len() > 0 && pts.last() == p {
        pts
    } else {
        pts.push(p)
    }
}

/// The number of an edge: left, top, right, bottom.
pub open spec fn edge_index(e: Edge) -> int {
    match e {
        Edge::Left => 0,
        Edge::Top => 1,
        Edge::Right => 2,
        Edge::Bottom => 3,
    }
}

/// The key under which the tracer remembers having followed path `p` in
/// cell `(cx, cy)` of a grid of width `w`.
pub open spec fn visit_key(w: int, cx: int, cy: int, p: CellPath) -> u128 {
    ((cy * (w + 1) + cx) * 16 + 4 * edge_index(p.entry) + edge_index(p.exit)) as u128
}

/// The most cells a single contour trace walks through.
pub open spec fn max_trace_steps(w: int, h: int) -> int {
    (w + 1) * (h + 1) * 2
}

/// A contour trace that started at `start` and is now at path `cur.2` of cell
/// `(cur.0, cur.1)`, with `fuel` steps left, having remembered `visited` and
/// gathered `pts`: the points and the remembered keys when it stops.
pub open spec fn trace_from(
    mask: Seq<bool>,
    w: int,
    h: int,
    start: (int, int, CellPath),
    cur: (int, int, CellPath),
    visited: Set<u128>,
    pts: Seq<HalfPoint>,
    fuel: nat,
) -> (Seq<HalfPoint>, Set<u128>)
    decreases fuel,
{
    let key = visit_key(w, cur.0, cur.1, cur.2);
    if fuel == 0 || visited.contains(key) {
        (pts, visited)
    } else {
        let visited2 = visited.insert(key);
        let pts2 = push_dedup(
            push_dedup(pts, edge_point_spec(cur.0, cur.1, cur.2.entry)),
            edge_point_spec(cur.0, cur.1, cur.2.exit),
        );
        let next = neighbor_cell(cur.0, cur.1, cur.2.exit);
        let next_case = case_of(mask, w, h, next.0, next.1);
        if next.0 < 0 || next.1 < 0 || next.0 > w || next.1 > h || next_case == 0 || next_case == 15 {
            (pts2, visited2)
        } else {
            let center = mask_at(mask, w, h, next.0, next.1);
            match first_with_entry(cell_paths_spec(next_case, center), opposite_edge(cur.2.exit)) {
                None => (pts2, visited2),
                Some(np) => {
                    if next.0 == start.0 && next.1 == start.1 && np == start.2 {
                        (pts2, visited2)
                    } else {
                        trace_from(mask, w, h, start, (next.0, next.1, np), visited2, pts2, (fuel - 1) as nat)
                    }
                },
            }
        }
    }
}

/// The closed contour made of the points `pts` of a trace: `None` when it has
/// fewer than three points, else the points with the first one appended when
/// the trace did not end where it began.
pub open spec fn close_contour(pts: Seq<HalfPoint>) -> Option<Seq<HalfPoint>> {
    if pts.len() < 3 {
        None
    } else if pts[0] != pts.last() {
        Some(pts.push(pts[0]))
    } else {
        Some(pts)
    }
}

/// Marching squares looks at the corners on both sides of every edge that a
/// path crosses, and those corners differ.
pub open spec fn crosses(case: int, e: Edge) -> bool {
    let tl = (case / 8) % 2;
    let tr = (case / 4) % 2;
    let br = (case / 2) % 2;
    let bl = case % 2;
    match e {
        Edge::Left => tl != bl,
        Edge::Top => tl != tr,
        Edge::Right => tr != br,
        Edge::Bottom => bl != br,
    }
}

proof fn lemma_paths_cross(case: int, center: bool)
    requires
        0 <= case < 16,
    ensures
        forall|j: int|
            0 <= j < cell_paths_spec(case, center).len() ==> crosses(
                case,
                (#[trigger] cell_paths_spec(case, center)[j]).entry,
            ) && crosses(case, cell_paths_spec(case, center)[j].exit) && cell_paths_spec(case, center)[j].entry
                != cell_paths_spec(case, center)[j].exit,
{
}

/// Whether corner `corner` of a cell of case `case` is set: 0 is the
/// top-left corner, 1 the top-right, 2 the bottom-right, 3 the bottom-left.
pub open spec fn corner_set(case: int, corner: int) -> bool {
    if corner == 0 {
        (case / 8) % 2 == 1
    } else if corner == 1 {
        (case / 4) % 2 == 1
    } else if corner == 2 {
        (case / 2) % 2 == 1
    } else {
        case % 2 == 1
    }
}

/// The corners at the ends of edge `e`, in clockwise order around the cell.
pub open spec fn clockwise_corners(e: Edge) -> (int, int) {
    match e {
        Edge::Top => (0, 1),
        Edge::Right => (1, 2),
        Edge::Bottom => (2, 3),
        Edge::Left => (3, 0),
    }
}

/// Going clockwise along edge `e`, its first corner is set and its second is not.
pub open spec fn set_then_unset(case: int, e: Edge) -> bool {
    corner_set(case, clockwise_corners(e).0) && !corner_set(case, clockwise_corners(e).1)
}

/// Going clockwise along edge `e`, its first corner is not set and its second is.
pub open spec fn unset_then_set(case: int, e: Edge) -> bool {
    !corner_set(case, clockwise_corners(e).0) && corner_set(case, clockwise_corners(e).1)
}

/// The paths of a cell follow the region's boundary in one direction, with
/// the region always on the same side: every path enters through an edge
/// that is set-then-unset going clockwise and leaves through one that is
/// unset-then-set, and every edge whose two corners differ is used by
/// exactly one path, once. This holds for every cell as the tracer samples
/// it (the bottom-right pixel settling the saddles), except the diagonal
/// saddle whose top-left and bottom-right pixels are set (case 10), where
/// the paths run against that direction.
pub proof fn law_cell_paths_are_oriented(case: int)
    requires
        0 <= case < 16,
        case != 10,
    ensures
        ({
            let ps = cell_paths_spec(case, (case / 2) % 2 == 1);
            &&& forall|j: int|
                0 <= j < ps.len() ==> set_then_unset(case, (#[trigger] ps[j]).entry) && unset_then_set(
                    case,
                    ps[j].exit,
                )
            &&& forall|e: Edge|
                #[trigger] crosses(case, e) ==> exists|j: int|
                    0 <= j < ps.len() && ((#[trigger] ps[j]).entry == e || ps[j].exit == e)
            &&& forall|j1: int, j2: int|
                0 <= j1 < j2 < ps.len() ==> (#[trigger] ps[j1]).entry != (#[trigger] ps[j2]).entry && ps[j1].exit
                    != ps[j2].exit && ps[j1].entry != ps[j2].exit && ps[j1].exit != ps[j2].entry
        }),
{
    let ps = cell_paths_spec(case, (case / 2) % 2 == 1);
    assert(ps.len() <= 2);
    assert forall|j: int| 0 <= j < ps.len() implies set_then_unset(case, (#[trigger] ps[j]).entry) && unset_then_set(
        case,
        ps[j].exit,
    ) by {
        lemma_oriented_cases(case);
    }
    assert forall|e: Edge| #[trigger] crosses(case, e) implies exists|j: int|
        0 <= j < ps.len() && ((#[trigger] ps[j]).entry == e || ps[j].exit == e) by {
        lemma_oriented_cases(case);
        if ps.len() > 0 && (ps[0].entry == e || ps[0].exit == e) {
        } else {
            assert(ps[1].entry == e || ps[1].exit == e);
        }
    }
    assert forall|j1: int, j2: int|
        0 <= j1 < j2 < ps.len() implies (#[trigger] ps[j1]).entry != (#[trigger] ps[j2]).entry && ps[j1].exit
            != ps[j2].exit && ps[j1].entry != ps[j2].exit && ps[j1].exit != ps[j2].entry by {
        lemma_oriented_cases(case);
    }
}

/// The corners at the ends of edge `e` of cell `(cx, cy)`, as pixels, in
/// clockwise order.
pub open spec fn edge_pixels(cx: int, cy: int, e: Edge) -> ((int, int), (int, int)) {
    match e {
        Edge::Top => ((cx - 1, cy - 1), (cx, cy - 1)),
        Edge::Right => ((cx, cy - 1), (cx, cy)),
        Edge::Bottom => ((cx, cy), (cx - 1, cy)),
        Edge::Left => ((cx - 1, cy), (cx - 1, cy - 1)),
    }
}

proof fn lemma_edge_corners(mask: Seq<bool>, w: int, h: int, cx: int, cy: int, e: Edge)
    ensures
        corner_set(case_of(mask, w, h, cx, cy), clockwise_corners(e).0) == mask_at(
            mask,
            w,
            h,
            edge_pixels(cx, cy, e).0.0,
            edge_pixels(cx, cy, e).0.1,
        ),
        corner_set(case_of(mask, w, h, cx, cy), clockwise_corners(e).1) == mask_at(
            mask,
            w,
            h,
            edge_pixels(cx, cy, e).1.0,
            edge_pixels(cx, cy, e).1.1,
        ),
        0 <= case_of(mask, w, h, cx, cy) < 16,
        ((case_of(mask, w, h, cx, cy) / 2) % 2 == 1) == mask_at(mask, w, h, cx, cy),
{
    lemma_case_bits(mask, w, h, cx, cy);
}

proof fn lemma_first_with_entry_found(paths: Seq<CellPath>, q: CellPath)
    requires
        paths.contains(q),
    ensures
        first_with_entry(paths, q.entry) is Some,
    decreases paths.len(),
{
    if paths[0].entry != q.entry {
        let j = choose|j: int| 0 <= j < paths.len() && paths[j] == q;
        assert(j > 0);
        assert(paths.drop_first()[j - 1] == q);
        lemma_first_with_entry_found(paths.drop_first(), q);
    }
}

/// The paths of neighbouring cells join up: a path leaving a cell through an
/// edge is continued in the cell across that edge by a path entering through
/// it (the one the tracer follows), and a path entering a cell through an
/// edge continues a path of the cell across it that leaves through it.
/// Neither cell may be the diagonal saddle of case 10.
pub proof fn law_paths_join_across_cells(mask: Seq<bool>, w: int, h: int, cx: int, cy: int, p: CellPath)
    requires
        paths_at(mask, w, h, cx, cy).contains(p),
        case_of(mask, w, h, cx, cy) != 10,
        case_of(mask, w, h, neighbor_cell(cx, cy, p.exit).0, neighbor_cell(cx, cy, p.exit).1) != 10,
        case_of(mask, w, h, neighbor_cell(cx, cy, p.entry).0, neighbor_cell(cx, cy, p.entry).1) != 10,
    ensures
        ({
            let n = neighbor_cell(cx, cy, p.exit);
            first_with_entry(paths_at(mask, w, h, n.0, n.1), opposite_edge(p.exit)) matches Some(q)
                && paths_at(mask, w, h, n.0, n.1).contains(q) && q.entry == opposite_edge(p.exit)
        }),
        ({
            let m = neighbor_cell(cx, cy, p.entry);
            exists|q: CellPath| #[trigger] paths_at(mask, w, h, m.0, m.1).contains(q) && q.exit == opposite_edge(p.entry)
        }),
{
    let case = case_of(mask, w, h, cx, cy);
    lemma_edge_corners(mask, w, h, cx, cy, p.exit);
    lemma_edge_corners(mask, w, h, cx, cy, p.entry);
    law_cell_paths_are_oriented(case);
    let ps = paths_at(mask, w, h, cx, cy);
    let j = choose|j: int| 0 <= j < ps.len() && ps[j] == p;
    assert(set_then_unset(case, ps[j].entry) && unset_then_set(case, ps[j].exit));
    // across the exit
    let n = neighbor_cell(cx, cy, p.exit);
    let ncase = case_of(mask, w, h, n.0, n.1);
    let ne = opposite_edge(p.exit);
    lemma_edge_corners(mask, w, h, n.0, n.1, ne);
    assert(edge_pixels(n.0, n.1, ne).0 == edge_pixels(cx, cy, p.exit).1);
    assert(edge_pixels(n.0, n.1, ne).1 == edge_pixels(cx, cy, p.exit).0);
    assert(set_then_unset(ncase, ne));
    law_cell_paths_are_oriented(ncase);
    let nps = paths_at(mask, w, h, n.0, n.1);
    assert(crosses(ncase, ne)) by {
        lemma_oriented_cases(ncase);
        reveal_crosses_corners(ncase, ne);
    }
    let k = choose|k: int| 0 <= k < nps.len() && ((#[trigger] nps[k]).entry == ne || nps[k].exit == ne);
    assert(nps[k].entry == ne) by {
        if nps[k].exit == ne {
            assert(unset_then_set(ncase, nps[k].exit));
        }
    }
    assert(nps.contains(nps[k]));
    lemma_first_with_entry_found(nps, nps[k]);
    lemma_first_with_entry(nps, ne);
    // across the entry
    let m = neighbor_cell(cx, cy, p.entry);
    let mcase = case_of(mask, w, h, m.0, m.1);
    let me = opposite_edge(p.entry);
    lemma_edge_corners(mask, w, h, m.0, m.1, me);
    assert(edge_pixels(m.0, m.1, me).0 == edge_pixels(cx, cy, p.entry).1);
    assert(edge_pixels(m.0, m.1, me).1 == edge_pixels(cx, cy, p.entry).0);
    assert(unset_then_set(mcase, me));
    law_cell_paths_are_oriented(mcase);
    let mps = paths_at(mask, w, h, m.0, m.1);
    assert(crosses(mcase, me)) by {
        reveal_crosses_corners(mcase, me);
    }
    let k2 = choose|k: int| 0 <= k < mps.len() && ((#[trigger] mps[k]).entry == me || mps[k].exit == me);
    assert(mps[k2].exit == me) by {
        if mps[k2].entry == me {
            assert(set_then_unset(mcase, mps[k2].entry));
        }
    }
    assert(mps.contains(mps[k2]));
}

/// An edge crosses the boundary exactly when its two corners differ.
proof fn reveal_crosses_corners(case: int, e: Edge)
    requires
        0 <= case < 16,
    ensures
        crosses(case, e) == (corner_set(case, clockwise_corners(e).0) != corner_set(case, clockwise_corners(e).1)),
{
}

/// The paths of each case, as the tracer samples the cell, with the corners
/// of their edges.
proof fn lemma_oriented_cases(case: int)
    requires
        0 <= case < 16,
        case != 10,
    ensures
        ({
            let ps = cell_paths_spec(case, (case / 2) % 2 == 1);
            &&& ps.len() <= 2
            &&& ps.len() >= 1 ==> set_then_unset(case, ps[0].entry) && unset_then_set(case, ps[0].exit)
            &&& ps.len() == 2 ==> set_then_unset(case, ps[1].entry) && unset_then_set(case, ps[1].exit)
            &&& ps.len() == 2 ==> ps[0].entry != ps[1].entry && ps[0].exit != ps[1].exit && ps[0].entry
                != ps[1].exit && ps[0].exit != ps[1].entry
            &&& forall|e: Edge|
                crosses(case, e) ==> (ps.len() >= 1 && (ps[0].entry == e || ps[0].exit == e)) || (ps.len() == 2
                    && (ps[1].entry == e || ps[1].exit == e))
        }),
{
    let l = Edge::Left;
    let t = Edge::Top;
    let r = Edge::Right;
    let b = Edge::Bottom;
    if case == 0 {
        assert(forall|e: Edge| !crosses(0, e));
    } else if case == 1 {
    } else if case == 2 {
    } else if case == 3 {
    } else if case == 4 {
    } else if case == 5 {
    } else if case == 6 {
    } else if case == 7 {
    } else if case == 8 {
    } else if case == 9 {
    } else if case == 11 {
    } else if case == 12 {
    } else if case == 13 {
    } else if case == 14 {
    } else {
        assert(case == 15);
        assert(forall|e: Edge| !crosses(15, e));
    }
}

proof fn lemma_case_bits(mask: Seq<bool>, w: int, h: int, cx: int, cy: int)
    ensures
        0 <= case_of(mask, w, h, cx, cy) < 16,
        (case_of(mask, w, h, cx, cy) / 8) % 2 == if mask_at(mask, w, h, cx - 1, cy - 1) { 1int } else { 0int },
        (case_of(mask, w, h, cx, cy) / 4) % 2 == if mask_at(mask, w, h, cx, cy - 1) { 1int } else { 0int },
        (case_of(mask, w, h, cx, cy) / 2) % 2 == if mask_at(mask, w, h, cx, cy) { 1int } else { 0int },
        case_of(mask, w, h, cx, cy) % 2 == if mask_at(mask, w, h, cx - 1, cy) { 1int } else { 0int },
{
}

/// A path of cell `(cx, cy)` crosses edges whose midpoints lie on cracks.
proof fn lemma_path_on_crack(mask: Seq<bool>, w: int, h: int, cx: int, cy: int, p: CellPath)
    requires
        cell_paths_spec(case_of(mask, w, h, cx, cy), mask_at(mask, w, h, cx, cy)).contains(p),
        -0x4000_0000_0000 < cx < 0x4000_0000_0000,
        -0x4000_0000_0000 < cy < 0x4000_0000_0000,
    ensures
        on_crack(mask, w, h, edge_point_spec(cx, cy, p.entry)),
        on_crack(mask, w, h, edge_point_spec(cx, cy, p.exit)),
        p.entry != p.exit,
        crack_step(edge_point_spec(cx, cy, p.entry), edge_point_spec(cx, cy, p.exit)),
{
    let case = case_of(mask, w, h, cx, cy);
    let center = mask_at(mask, w, h, cx, cy);
    lemma_case_bits(mask, w, h, cx, cy);
    lemma_paths_cross(case, center);
    let j = choose|j: int| 0 <= j < cell_paths_spec(case, center).len() && cell_paths_spec(case, center)[j] == p;
    assert(crosses(case, p.entry) && crosses(case, p.exit) && p.entry != p.exit);
}

/// Leaving a cell through edge `e` and entering its neighbour through the
/// opposite edge passes the same midpoint.
proof fn lemma_shared_edge(cx: int, cy: int, e: Edge)
    requires
        -0x4000_0000_0000 < cx < 0x4000_0000_0000,
        -0x4000_0000_0000 < cy < 0x4000_0000_0000,
    ensures
        edge_point_spec(neighbor_cell(cx, cy, e).0, neighbor_cell(cx, cy, e).1, opposite_edge(e))
            == edge_point_spec(cx, cy, e),
{
}

proof fn lemma_first_with_entry(paths: Seq<CellPath>, entry: Edge)
    ensures
        match first_with_entry(paths, entry) {
            Some(p) => paths.contains(p) && p.entry == entry,
            None => true,
        },
    decreases paths.len(),
{
    if paths.len() > 0 && paths[0].entry != entry {
        lemma_first_with_entry(paths.drop_first(), entry);
        match first_with_entry(paths.drop_first(), entry) {
            Some(p) => {
                let j = choose|j: int| 0 <= j < paths.drop_first().len() && paths.drop_first()[j] == p;
                assert(paths[j + 1] == p);
            },
            None => {},
        }
    } else if paths.len() > 0 {
        assert(paths[0] == paths[0]);
    }
}

/// Whether pixel `(x, y)` is set, pixels outside the grid being unset.
fn mask_value(mask: &Vec<bool>, w: usize, h: usize, x: i64, y: i64) -> (b: bool)
    requires
        mask@.len() == w * h,
        w <= i32::MAX,
        h <= i32::MAX,
    ensures
        b == mask_at(mask@, w as int, h as int, x as int, y as int),
{
    if x < 0 || y < 0 || x >= w as i64 || y >= h as i64 {
        false
    } else {
        let xu = x as usize;
        let yu = y as usize;
        proof {
            assert(yu * w + xu < w * h) by (nonlinear_arith)
                requires
                    xu < w,
                    yu < h,
            ;
            assert(0 <= yu * w) by (nonlinear_arith);
        }
        let len = mask.len();
        proof {
            assert(yu * w + xu < len);
        }
        mask[yu * w + xu]
    }
}

/// Compute the marching squares case (0-15) for cell `(cx, cy)`.
pub fn cell_case(mask: &Vec<bool>, w: usize, h: usize, cx: i64, cy: i64) -> (case: u8)
    requires
        mask@.len() == w * h,
        w <= i32::MAX,
        h <= i32::MAX,
        i64::MIN < cx,
        i64::MIN < cy,
    ensures
        case as int == case_of(mask@, w as int, h as int, cx as int, cy as int),
{
    let tl: u8 = if mask_value(mask, w, h, cx - 1, cy - 1) { 8 } else { 0 };
    let tr: u8 = if mask_value(mask, w, h, cx, cy - 1) { 4 } else { 0 };
    let br: u8 = if mask_value(mask, w, h, cx, cy) { 2 } else { 0 };
    let bl: u8 = if mask_value(mask, w, h, cx - 1, cy) { 1 } else { 0 };
    tl + tr + br + bl
}

/// Sample the region value at the center of a marching-squares cell.
pub fn sample_cell_center(mask: &Vec<bool>, w: usize, h: usize, cx: i64, cy: i64) -> (b: bool)
    requires
        mask@.len() == w * h,
        w <= i32::MAX,
        h <= i32::MAX,
    ensures
        b == mask_at(mask@, w as int, h as int, cx as int, cy as int),
{
    mask_value(mask, w, h, cx, cy)
}

/// The contour pieces of a cell of the given case.
pub fn cell_paths(case: u8, center_inside: bool) -> (paths: Vec<CellPath>)
    ensures
        paths@ == cell_paths_spec(case as int, center_inside),
{
    let l = Edge::Left;
    let t = Edge::Top;
    let r = Edge::Right;
    let b = Edge::Bottom;
    let paths = if case == 1 {
        vec![CellPath { entry: l, exit: b }]
    } else if case == 2 {
        vec![CellPath { entry: b, exit: r }]
    } else if case == 3 {
        vec![CellPath { entry: l, exit: r }]
    } else if case == 4 {
        vec![CellPath { entry: r, exit: t }]
    } else if case == 5 {
        if center_inside {
            vec![CellPath { entry: t, exit: l }, CellPath { entry: b, exit: r }]
        } else {
            vec![CellPath { entry: r, exit: t }, CellPath { entry: l, exit: b }]
        }
    } else if case == 6 {
        vec![CellPath { entry: b, exit: t }]
    } else if case == 7 {
        vec![CellPath { entry: l, exit: t }]
    } else if case == 8 {
        vec![CellPath { entry: t, exit: l }]
    } else if case == 9 {
        vec![CellPath { entry: t, exit: b }]
    } else if case == 10 {
        if center_inside {
            vec![CellPath { entry: r, exit: t }, CellPath { entry: b, exit: l }]
        } else {
            vec![CellPath { entry: t, exit: l }, CellPath { entry: b, exit: r }]
        }
    } else if case == 11 {
        vec![CellPath { entry: t, exit: r }]
    } else if case == 12 {
        vec![CellPath { entry: r, exit: l }]
    } else if case == 13 {
        vec![CellPath { entry: r, exit: b }]
    } else if case == 14 {
        vec![CellPath { entry: b, exit: l }]
    } else {
        Vec::new()
    };
    assert(paths@ =~= cell_paths_spec(case as int, center_inside));
    paths
}

/// The path of a cell of the given case that enters through `entry`, if any.
pub fn find_path_for_entry(case: u8, center_inside: bool, entry: Edge) -> (p: Option<CellPath>)
    ensures
        p == first_with_entry(cell_paths_spec(case as int, center_inside), entry),
{
    let paths = cell_paths(case, center_inside);
    let mut k: usize = 0;
    assert(paths@.skip(0) =~= paths@);
    while k < paths.len()
        invariant
            paths@ == cell_paths_spec(case as int, center_inside),
            0 <= k <= paths@.len(),
            first_with_entry(paths@, entry) == first_with_entry(paths@.skip(k as int), entry),
        decreases paths@.len() - k,
    {
        assert(paths@.skip(k as int).drop_first() =~= paths@.skip(k + 1));
        if paths[k].entry == entry {
            return Some(paths[k]);
        }
        k = k + 1;
    }
    None
}

/// The midpoint of edge `edge` of cell `(cx, cy)`.
pub fn edge_point(cx: i64, cy: i64, edge: Edge) -> (p: HalfPoint)
    requires
        -0x4000_0000_0000 < cx < 0x4000_0000_0000,
        -0x4000_0000_0000 < cy < 0x4000_0000_0000,
    ensures
        p == edge_point_spec(cx as int, cy as int, edge),
{
    match edge {
        Edge::Left => HalfPoint { x: 2 * cx - 1, y: 2 * cy },
        Edge::Top => HalfPoint { x: 2 * cx, y: 2 * cy - 1 },
        Edge::Right => HalfPoint { x: 2 * cx + 1, y: 2 * cy },
        Edge::Bottom => HalfPoint { x: 2 * cx, y: 2 * cy + 1 },
    }
}

/// The cell on the other side of edge `exit` of cell `(cx, cy)`.
pub fn step_to_neighbor(cx: i64, cy: i64, exit: Edge) -> (n: (i64, i64))
    requires
        i64::MIN < cx < i64::MAX,
        i64::MIN < cy < i64::MAX,
    ensures
        (n.0 as int, n.1 as int) == neighbor_cell(cx as int, cy as int, exit),
{
    match exit {
        Edge::Right => (cx + 1, cy),
        Edge::Bottom => (cx, cy + 1),
        Edge::Left => (cx - 1, cy),
        Edge::Top => (cx, cy - 1),
    }
}

/// Appends `point` unless it repeats the last point.
fn push_point(points: &mut Vec<HalfPoint>, point: HalfPoint)
    ensures
        final(points)@ == push_dedup(old(points)@, point),
{
    let n = points.len();
    if n == 0 || points[n - 1] != point {
        points.push(point);
    }
}

fn edge_number(e: Edge) -> (n: u128)
    ensures
        n as int == edge_index(e),
{
    match e {
        Edge::Left => 0,
        Edge::Top => 1,
        Edge::Right => 2,
        Edge::Bottom => 3,
    }
}

/// The key of path `p` in cell `(cx, cy)`.
fn cell_visit_key(w: usize, cx: i64, cy: i64, p: CellPath) -> (k: u128)
    requires
        w <= i32::MAX,
        0 <= cx <= w,
        0 <= cy <= i32::MAX,
    ensures
        k == visit_key(w as int, cx as int, cy as int, p),
{
    proof {
        assert((cy as int) * (w as int + 1) <= 0x8000_0000 * 0x8000_0000) by (nonlinear_arith)
            requires
                0 <= cy <= 0x7fff_ffff,
                0 <= w <= 0x7fff_ffff,
        ;
    }
    let row = (cy as u128) * (w as u128 + 1);
    (row + cx as u128) * 16 + 4 * edge_number(p.entry) + edge_number(p.exit)
}


proof fn lemma_push_dedup_chain(mask: Seq<bool>, w: int, h: int, pts: Seq<HalfPoint>, p: HalfPoint)
    requires
        crack_chain(mask, w, h, pts),
        on_crack(mask, w, h, p),
        pts.len() >= 1 ==> pts.last() == p || crack_step(pts.last(), p),
    ensures
        crack_chain(mask, w, h, push_dedup(pts, p)),
        push_dedup(pts, p).len() >= 1,
        push_dedup(pts, p).last() == p,
{
    let q = push_dedup(pts, p);
    if !(pts.len() > 0 && pts.last() == p) {
        assert forall|k: int| 0 <= k < q.len() - 1 implies #[trigger] q[k] != q[k + 1] && crack_step(q[k], q[k + 1]) by {
            if k < pts.len() - 1 {
                assert(q[k] == pts[k] && q[k + 1] == pts[k + 1]);
            } else {
                assert(q[k] == pts.last());
            }
        }
        assert forall|k: int| 0 <= k < q.len() implies on_crack(mask, w, h, #[trigger] q[k]) by {
            if k < pts.len() {
                assert(q[k] == pts[k]);
            }
        }
    }
}

/// One step of a contour trace that goes on into the next cell.
proof fn lemma_trace_step(
    mask: Seq<bool>,
    w: int,
    h: int,
    start: (int, int, CellPath),
    cur: (int, int, CellPath),
    visited: Set<u128>,
    pts: Seq<HalfPoint>,
    fuel: nat,
    np: CellPath,
)
    requires
        fuel > 0,
        !visited.contains(visit_key(w, cur.0, cur.1, cur.2)),
        ({
            let next = neighbor_cell(cur.0, cur.1, cur.2.exit);
            let next_case = case_of(mask, w, h, next.0, next.1);
            &&& 0 <= next.0 <= w
            &&& 0 <= next.1 <= h
            &&& next_case != 0
            &&& next_case != 15
            &&& first_with_entry(
                cell_paths_spec(next_case, mask_at(mask, w, h, next.0, next.1)),
                opposite_edge(cur.2.exit),
            ) == Some(np)
        }),
    ensures
        ({
            let next = neighbor_cell(cur.0, cur.1, cur.2.exit);
            let visited2 = visited.insert(visit_key(w, cur.0, cur.1, cur.2));
            let pts2 = push_dedup(
                push_dedup(pts, edge_point_spec(cur.0, cur.1, cur.2.entry)),
                edge_point_spec(cur.0, cur.1, cur.2.exit),
            );
            trace_from(mask, w, h, start, cur, visited, pts, fuel) == if next.0 == start.0 && next.1
                == start.1 && np == start.2 {
                (pts2, visited2)
            } else {
                trace_from(mask, w, h, start, (next.0, next.1, np), visited2, pts2, (fuel - 1) as nat)
            }
        }),
{
}

/// Closing the points of a trace gives a closed contour.
proof fn lemma_close_contour(mask: Seq<bool>, w: int, h: int, pts: Seq<HalfPoint>)
    requires
        crack_chain(mask, w, h, pts),
        pts.len() >= 3,
    ensures
        close_contour(pts) is Some,
        closed_contour(mask, w, h, close_contour(pts)->0),
{
    if pts[0] != pts.last() {
        let q = pts.push(pts[0]);
        assert forall|k: int| 0 <= k < q.len() - 1 implies #[trigger] q[k] != q[k + 1] by {
            if k < pts.len() - 1 {
                assert(q[k] == pts[k] && q[k + 1] == pts[k + 1]);
            }
        }
        assert forall|k: int| 0 <= k < q.len() - 2 implies crack_step(#[trigger] q[k], q[k + 1]) by {
            assert(q[k] == pts[k] && q[k + 1] == pts[k + 1]);
        }
        assert forall|k: int| 0 <= k < q.len() implies on_crack(mask, w, h, #[trigger] q[k]) by {
            if k < pts.len() {
                assert(q[k] == pts[k]);
            } else {
                assert(q[k] == pts[0]);
            }
        }
    } else {
        assert forall|k: int| 0 <= k < pts.len() - 2 implies crack_step(#[trigger] pts[k], pts[k + 1]) by {
            assert(pts[k] != pts[k + 1] && crack_step(pts[k], pts[k + 1]));
        }
    }
}

/// Follows the contour through path `start_path` of cell `(start_cx, start_cy)`
/// until it closes, leaves the grid, reaches a cell where it cannot go on, meets
/// a path already followed, or has walked `max_trace_steps` cells.
fn trace_contour(
    mask: &Vec<bool>,
    w: usize,
    h: usize,
    start_cx: i64,
    start_cy: i64,
    start_path: CellPath,
    region_id: u32,
    visited: &mut std::collections::HashSet<u128>,
) -> (r: Option<Boundary>)
    requires
        mask@.len() == w * h,
        w <= i32::MAX,
        h <= i32::MAX,
        0 <= start_cx <= w,
        0 <= start_cy <= h,
        cell_paths_spec(
            case_of(mask@, w as int, h as int, start_cx as int, start_cy as int),
            mask_at(mask@, w as int, h as int, start_cx as int, start_cy as int),
        ).contains(start_path),
    ensures
        ({
            let start = (start_cx as int, start_cy as int, start_path);
            let run = trace_from(
                mask@,
                w as int,
                h as int,
                start,
                start,
                old(visited)@,
                Seq::empty(),
                max_trace_steps(w as int, h as int) as nat,
            );
            &&& final(visited)@ == run.1
            &&& match r {
                Some(b) => close_contour(run.0) == Some(b.points@) && b.region_id == region_id && b.is_closed,
                None => close_contour(run.0) is None,
            }
        }),
        match r {
            Some(b) => closed_contour(mask@, w as int, h as int, b.points@),
            None => true,
        },
{
    let ghost m = mask@;
    let ghost wi = w as int;
    let ghost hi = h as int;
    let ghost start = (start_cx as int, start_cy as int, start_path);
    proof {
        assert((w as int + 1) * (h as int + 1) <= 0x8000_0000 * 0x8000_0000) by (nonlinear_arith)
            requires
                w <= 0x7fff_ffff,
                h <= 0x7fff_ffff,
        ;
    }
    let max_steps: u64 = (w as u64 + 1) * (h as u64 + 1) * 2;
    let ghost run = trace_from(m, wi, hi, start, start, visited@, Seq::empty(), max_steps as nat);
    let mut points: Vec<HalfPoint> = Vec::new();
    let mut cx = start_cx;
    let mut cy = start_cy;
    let mut path = start_path;
    let mut step: u64 = 0;
    proof {
        assert(max_steps as int == max_trace_steps(wi, hi));
    }
    while step < max_steps
        invariant_except_break
            0 <= cx <= w,
            0 <= cy <= h,
            cell_paths_spec(case_of(m, wi, hi, cx as int, cy as int), mask_at(m, wi, hi, cx as int, cy as int)).contains(path),
            points@.len() == 0 || points@.last() == edge_point_spec(cx as int, cy as int, path.entry),
            run == trace_from(m, wi, hi, start, (cx as int, cy as int, path), visited@, points@, (max_steps - step) as nat),
        invariant
            m == mask@,
            wi == w as int,
            hi == h as int,
            m.len() == wi * hi,
            w <= i32::MAX,
            h <= i32::MAX,
            step <= max_steps,
            start == (start_cx as int, start_cy as int, start_path),
            crack_chain(m, wi, hi, points@),
        ensures
            run == (points@, visited@),
            crack_chain(m, wi, hi, points@),
        decreases max_steps - step,
    {
        let ghost vis0 = visited@;
        let ghost pts0 = points@;
        let ghost c = (cx as int, cy as int, path);
        let ghost fuel = (max_steps - step) as nat;
        let key = cell_visit_key(w, cx, cy, path);
        let ghost pts2 = push_dedup(
            push_dedup(pts0, edge_point_spec(cx as int, cy as int, path.entry)),
            edge_point_spec(cx as int, cy as int, path.exit),
        );
        let ghost vis2 = vis0.insert(key);
        if !visited.insert(key) {
            proof {
                assert(vis0.contains(key));
                assert(visited@ =~= vis0);
            }
            break;
        }
        proof {
            lemma_path_on_crack(m, wi, hi, cx as int, cy as int, path);
            lemma_push_dedup_chain(m, wi, hi, pts0, edge_point_spec(cx as int, cy as int, path.entry));
            lemma_push_dedup_chain(
                m,
                wi,
                hi,
                push_dedup(pts0, edge_point_spec(cx as int, cy as int, path.entry)),
                edge_point_spec(cx as int, cy as int, path.exit),
            );
        }
        push_point(&mut points, edge_point(cx, cy, path.entry));
        push_point(&mut points, edge_point(cx, cy, path.exit));

        let (next_cx, next_cy) = step_to_neighbor(cx, cy, path.exit);
        proof {
            assert(points@ == pts2);
            assert(visited@ == vis2);
            assert(!vis0.contains(key));
        }
        if next_cx < 0 || next_cy < 0 || next_cx > w as i64 || next_cy > h as i64 {
            assert(run == (pts2, vis2));
            break;
        }

        let next_case = cell_case(mask, w, h, next_cx, next_cy);
        if next_case == 0 || next_case == 15 {
            assert(run == (pts2, vis2));
            break;
        }

        let next_center_inside = sample_cell_center(mask, w, h, next_cx, next_cy);
        let next_entry = path.exit.opposite();
        let next_path = match find_path_for_entry(next_case, next_center_inside, next_entry) {
            Some(p) => p,
            None => {
                assert(run == (pts2, vis2));
                break;
            },
        };

        proof {
            let nxt = neighbor_cell(cx as int, cy as int, path.exit);
            assert(nxt == (next_cx as int, next_cy as int));
            assert(case_of(m, wi, hi, nxt.0, nxt.1) == next_case as int);
            assert(mask_at(m, wi, hi, nxt.0, nxt.1) == next_center_inside);
            assert(first_with_entry(cell_paths_spec(next_case as int, next_center_inside), opposite_edge(path.exit)) == Some(next_path));
            assert(fuel > 0);
            assert(!vis0.contains(visit_key(wi, c.0, c.1, c.2)));
            lemma_trace_step(m, wi, hi, start, c, vis0, pts0, fuel, next_path);
        }
        if next_cx == start_cx && next_cy == start_cy && next_path == start_path {
            assert(run == (pts2, vis2));
            break;
        }
        proof {
            assert(run == trace_from(m, wi, hi, start, (next_cx as int, next_cy as int, next_path), vis2, pts2, (fuel - 1) as nat));
        }

        proof {
            lemma_first_with_entry(cell_paths_spec(next_case as int, next_center_inside), next_entry);
            lemma_shared_edge(cx as int, cy as int, path.exit);
        }
        cx = next_cx;
        cy = next_cy;
        path = next_path;
        step = step + 1;
    }

    if points.len() < 3 {
        return None;
    }

    let n = points.len();
    proof {
        lemma_close_contour(m, wi, hi, points@);
    }
    if points[0] != points[n - 1] {
        let first = points[0];
        points.push(first);
    }
    Some(Boundary { region_id, points, is_closed: true })
}


/// The state of a region scan: the keys of the paths followed so far, and the
/// contours kept so far.
pub type ScanState = (Set<u128>, Seq<Seq<HalfPoint>>);

/// The scan state after considering path `c`: unless it was followed already,
/// its contour is traced and kept when it closes with at least four points.
pub open spec fn process_candidate(mask: Seq<bool>, w: int, h: int, c: (int, int, CellPath), st: ScanState) -> ScanState {
    if st.0.contains(visit_key(w, c.0, c.1, c.2)) {
        st
    } else {
        let run = trace_from(mask, w, h, c, c, st.0, Seq::empty(), max_trace_steps(w, h) as nat);
        match close_contour(run.0) {
            Some(pts) => if pts.len() >= 4 {
                (run.1, st.1.push(pts))
            } else {
                (run.1, st.1)
            },
            None => (run.1, st.1),
        }
    }
}

/// The scan state after considering the paths `paths` of cell `(cx, cy)` in order.
pub open spec fn process_paths(
    mask: Seq<bool>,
    w: int,
    h: int,
    cx: int,
    cy: int,
    paths: Seq<CellPath>,
    st: ScanState,
) -> ScanState
    decreases paths.len(),
{
    if paths.len() == 0 {
        st
    } else {
        process_candidate(mask, w, h, (cx, cy, paths.last()), process_paths(mask, w, h, cx, cy, paths.drop_last(), st))
    }
}

/// The paths of cell `(cx, cy)`.
pub open spec fn paths_at(mask: Seq<bool>, w: int, h: int, cx: int, cy: int) -> Seq<CellPath> {
    cell_paths_spec(case_of(mask, w, h, cx, cy), mask_at(mask, w, h, cx, cy))
}

/// The scan state after the first `n` cells, taken row by row over the
/// `(w + 1) x (h + 1)` cells.
pub open spec fn scan_cells(mask: Seq<bool>, w: int, h: int, n: int) -> ScanState
    decreases n,
{
    if n <= 0 {
        (Set::empty(), Seq::empty())
    } else {
        let k = n - 1;
        let cx = k % (w + 1);
        let cy = k / (w + 1);
        process_paths(mask, w, h, cx, cy, paths_at(mask, w, h, cx, cy), scan_cells(mask, w, h, n - 1))
    }
}

/// The contours of the region in `mask`, in the order the scan finds them.
pub open spec fn region_contours(mask: Seq<bool>, w: int, h: int) -> Seq<Seq<HalfPoint>> {
    scan_cells(mask, w, h, (w + 1) * (h + 1)).1
}

/// The points of each boundary.
pub open spec fn boundary_points(bs: Seq<Boundary>) -> Seq<Seq<HalfPoint>> {
    bs.map_values(|b: Boundary| b.points@)
}

proof fn lemma_cell_index(w: int, cx: int, cy: int)
    requires
        0 <= w,
        0 <= cx <= w,
        0 <= cy,
    ensures
        (cy * (w + 1) + cx) % (w + 1) == cx,
        (cy * (w + 1) + cx) / (w + 1) == cy,
{
    vstd::arithmetic::div_mod::lemma_fundamental_div_mod_converse(cy * (w + 1) + cx, w + 1, cy, cx);
}

/// Trace every contour of a single region.
fn trace_region_boundaries(mask: &Vec<bool>, w: usize, h: usize, region_id: u32) -> (boundaries: Vec<
    Boundary,
>)
    requires
        mask@.len() == w * h,
        w <= i32::MAX,
        h <= i32::MAX,
    ensures
        boundary_points(boundaries@) == region_contours(mask@, w as int, h as int),
        forall|k: int|
            0 <= k < boundaries@.len() ==> (#[trigger] boundaries@[k]).region_id == region_id
                && boundaries@[k].is_closed && boundaries@[k].points@.len() >= 4 && closed_contour(
                mask@,
                w as int,
                h as int,
                boundaries@[k].points@,
            ),
{
    let ghost m = mask@;
    let ghost wi = w as int;
    let ghost hi = h as int;
    let mut visited: std::collections::HashSet<u128> = std::collections::HashSet::new();
    let mut boundaries: Vec<Boundary> = Vec::new();
    let mut cy: i64 = 0;
    proof {
        assert(boundary_points(boundaries@) =~= Seq::<Seq<HalfPoint>>::empty());
        assert(scan_cells(m, wi, hi, 0) == (Set::<u128>::empty(), Seq::<Seq<HalfPoint>>::empty()));
    }
    while cy <= h as i64
        invariant
            m == mask@,
            wi == w as int,
            hi == h as int,
            m.len() == wi * hi,
            w <= i32::MAX,
            h <= i32::MAX,
            0 <= cy <= h + 1,
            (visited@, boundary_points(boundaries@)) == scan_cells(m, wi, hi, cy * (wi + 1)),
            forall|k: int|
                0 <= k < boundaries@.len() ==> (#[trigger] boundaries@[k]).region_id == region_id
                    && boundaries@[k].is_closed && boundaries@[k].points@.len() >= 4 && closed_contour(
                    m,
                    wi,
                    hi,
                    boundaries@[k].points@,
                ),
        decreases h + 1 - cy,
    {
        let mut cx: i64 = 0;
        while cx <= w as i64
            invariant
                m == mask@,
                wi == w as int,
                hi == h as int,
                m.len() == wi * hi,
                w <= i32::MAX,
                h <= i32::MAX,
                0 <= cy <= h,
                0 <= cx <= w + 1,
                (visited@, boundary_points(boundaries@)) == scan_cells(m, wi, hi, cy * (wi + 1) + cx),
                forall|k: int|
                    0 <= k < boundaries@.len() ==> (#[trigger] boundaries@[k]).region_id == region_id
                        && boundaries@[k].is_closed && boundaries@[k].points@.len() >= 4 && closed_contour(
                        m,
                        wi,
                        hi,
                        boundaries@[k].points@,
                    ),
            decreases w + 1 - cx,
        {
            let ghost n = cy * (wi + 1) + cx;
            let ghost st0 = scan_cells(m, wi, hi, n);
            proof {
                lemma_cell_index(wi, cx as int, cy as int);
                assert(scan_cells(m, wi, hi, n + 1) == process_paths(
                    m,
                    wi,
                    hi,
                    cx as int,
                    cy as int,
                    paths_at(m, wi, hi, cx as int, cy as int),
                    st0,
                ));
            }
            let case = cell_case(mask, w, h, cx, cy);
            if case != 0 && case != 15 {
                let center_inside = sample_cell_center(mask, w, h, cx, cy);
                let paths = cell_paths(case, center_inside);
                let ghost ps = paths@;
                proof {
                    assert(ps.take(0) =~= Seq::<CellPath>::empty());
                }
                for k in 0..paths.len()
                    invariant
                        m == mask@,
                        wi == w as int,
                        hi == h as int,
                        m.len() == wi * hi,
                        w <= i32::MAX,
                        h <= i32::MAX,
                        0 <= cy <= h,
                        0 <= cx <= w,
                        ps == paths@,
                        ps == paths_at(m, wi, hi, cx as int, cy as int),
                        (visited@, boundary_points(boundaries@)) == process_paths(
                            m,
                            wi,
                            hi,
                            cx as int,
                            cy as int,
                            ps.take(k as int),
                            st0,
                        ),
                        forall|kk: int|
                            0 <= kk < boundaries@.len() ==> (#[trigger] boundaries@[kk]).region_id == region_id
                                && boundaries@[kk].is_closed && boundaries@[kk].points@.len() >= 4
                                && closed_contour(m, wi, hi, boundaries@[kk].points@),
                {
                    let path = paths[k];
                    proof {
                        assert(ps.take(k + 1).drop_last() =~= ps.take(k as int));
                        assert(ps.take(k + 1).last() == path);
                        assert(ps.contains(path));
                    }
                    let key = cell_visit_key(w, cx, cy, path);
                    if !visited.contains(&key) {
                        let ghost b0 = boundaries@;
                        let traced = trace_contour(mask, w, h, cx, cy, path, region_id, &mut visited);
                        match traced {
                            Some(boundary) => {
                                if boundary.points.len() >= 4 {
                                    boundaries.push(boundary);
                                    proof {
                                        assert(boundary_points(boundaries@) =~= boundary_points(b0).push(
                                            boundary.points@,
                                        ));
                                    }
                                }
                            },
                            None => {},
                        }
                    }
                }
                proof {
                    assert(ps.take(ps.len() as int) =~= ps);
                }
            } else {
                proof {
                    assert(paths_at(m, wi, hi, cx as int, cy as int) =~= Seq::<CellPath>::empty());
                }
            }
            cx = cx + 1;
        }
        proof {
            assert((cy + 1) * (wi + 1) == cy * (wi + 1) + (wi + 1)) by (nonlinear_arith);
        }
        cy = cy + 1;
    }
    proof {
        assert((hi + 1) * (wi + 1) == (wi + 1) * (hi + 1)) by (nonlinear_arith);
    }
    boundaries
}


/// The pixels of region `id` in a label map.
pub open spec fn region_mask(map: Seq<u32>, id: u32) -> Seq<bool> {
    map.map_values(|l: u32| l == id)
}

/// The contours of the regions `regions[0..k]`, region by region, each with
/// the id of its region.
pub open spec fn contours_upto(regions: Seq<Region>, map: Seq<u32>, w: int, h: int, k: int) -> Seq<
    (u32, Seq<HalfPoint>),
>
    decreases k,
{
    if k <= 0 {
        Seq::empty()
    } else {
        let id = regions[k - 1].id;
        contours_upto(regions, map, w, h, k - 1) + region_contours(region_mask(map, id), w, h).map_values(
            |pts: Seq<HalfPoint>| (id, pts),
        )
    }
}

/// The region id and points of each boundary.
pub open spec fn boundary_views(bs: Seq<Boundary>) -> Seq<(u32, Seq<HalfPoint>)> {
    bs.map_values(|b: Boundary| (b.region_id, b.points@))
}

/// Trace boundaries of all regions using marching squares with midpoint interpolation.
///
/// Every boundary is a closed contour of its region: its points lie on the
/// cracks between the region's pixels and the others.
pub fn trace_boundaries(seg: &Segmentation, width: u32, height: u32) -> (boundaries: Vec<Boundary>)
    requires
        seg.label_map@.len() == width * height,
        width <= i32::MAX,
        height <= i32::MAX,
    ensures
        boundary_views(boundaries@) == contours_upto(
            seg.regions@,
            seg.label_map@,
            width as int,
            height as int,
            seg.regions@.len() as int,
        ),
        forall|k: int|
            0 <= k < boundaries@.len() ==> (#[trigger] boundaries@[k]).is_closed && boundaries@[k].points@.len()
                >= 4 && closed_contour(
                region_mask(seg.label_map@, boundaries@[k].region_id),
                width as int,
                height as int,
                boundaries@[k].points@,
            ),
{
    let w = width as usize;
    let h = height as usize;
    let ghost map = seg.label_map@;
    let mut boundaries: Vec<Boundary> = Vec::new();
    proof {
        assert(boundary_views(boundaries@) =~= Seq::<(u32, Seq<HalfPoint>)>::empty());
    }
    for i in 0..seg.regions.len()
        invariant
            map == seg.label_map@,
            map.len() == width * height,
            w == width as usize,
            h == height as usize,
            width <= i32::MAX,
            height <= i32::MAX,
            boundary_views(boundaries@) == contours_upto(seg.regions@, map, width as int, height as int, i as int),
            forall|k: int|
                0 <= k < boundaries@.len() ==> (#[trigger] boundaries@[k]).is_closed && boundaries@[k].points@.len()
                    >= 4 && closed_contour(
                    region_mask(map, boundaries@[k].region_id),
                    width as int,
                    height as int,
                    boundaries@[k].points@,
                ),
    {
        let region_id = seg.regions[i].id;
        let mut mask: Vec<bool> = Vec::new();
        for j in 0..seg.label_map.len()
            invariant
                map == seg.label_map@,
                mask@ == region_mask(map, region_id).take(j as int),
        {
            mask.push(seg.label_map[j] == region_id);
            proof {
                assert(mask@ =~= region_mask(map, region_id).take(j + 1));
            }
        }
        proof {
            assert(mask@ =~= region_mask(map, region_id));
        }
        let ghost b0 = boundaries@;
        let mut found = trace_region_boundaries(&mask, w, h, region_id);
        let ghost f = found@;
        boundaries.append(&mut found);
        proof {
            let rc = region_contours(region_mask(map, region_id), width as int, height as int);
            assert(boundary_views(f) =~= rc.map_values(|pts: Seq<HalfPoint>| (region_id, pts))) by {
                assert forall|k: int| 0 <= k < f.len() implies boundary_views(f)[k] == rc.map_values(
                    |pts: Seq<HalfPoint>| (region_id, pts),
                )[k] by {
                    assert(boundary_points(f)[k] == f[k].points@);
                }
            }
            assert(boundary_views(boundaries@) =~= boundary_views(b0) + boundary_views(f));
            assert forall|k: int| 0 <= k < boundaries@.len() implies (#[trigger] boundaries@[k]).is_closed
                && boundaries@[k].points@.len() >= 4 && closed_contour(
                region_mask(map, boundaries@[k].region_id),
                width as int,
                height as int,
                boundaries@[k].points@,
            ) by {
                if k >= b0.len() {
                    assert(boundaries@[k] == f[k - b0.len()]);
                } else {
                    assert(boundaries@[k] == b0[k]);
                }
            }
        }
    }
    boundaries
}

} // verus!
