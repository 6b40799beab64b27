//! The integer stages of the vectorization pipeline: transparency handling on
//! a segmentation and the pixel buffers handed to the tracer.
use vstd::prelude::*;

use std::collections::HashMap;

use crate::model::{count_label, label_counts, lemma_count_label_bound, lemma_count_label_zero};
use crate::types::{Region, RgbColor, Segmentation};

verus! {

broadcast use vstd::std_specs::hash::group_hash_axioms;

/// Pixels whose alpha is below one half count as transparent.
pub open spec fn is_transparent(p: [u8; 4]) -> bool {
    p[3] < 128
}

/// Which pixels are transparent.
pub fn transparent_mask(pixels: &Vec<[u8; 4]>) -> (mask: Vec<bool>)
    ensures
        mask@.len() == pixels@.len(),
        forall|i: int| 0 <= i < pixels@.len() ==> #[trigger] mask@[i] == is_transparent(pixels@[i]),
{
    let mut mask: Vec<bool> = Vec::new();
    for i in 0..pixels.len()
        invariant
            mask@.len() == i,
            forall|j: int| 0 <= j < i ==> #[trigger] mask@[j] == is_transparent(pixels@[j]),
    {
        mask.push(pixels[i][3] < 128);
    }
    mask
}

/// The number of `true` entries of `s`.
pub open spec fn count_true(s: Seq<bool>) -> nat
    decreases s.len(),
{
    if s.len() == 0 {
        0
    } else {
        count_true(s.drop_last()) + if s.last() { 1nat } else { 0nat }
    }
}

proof fn lemma_count_true_take(s: Seq<bool>, i: int)
    requires
        0 <= i < s.len(),
    ensures
        count_true(s.take(i + 1)) == count_true(s.take(i)) + if s[i] { 1nat } else { 0nat },
        count_true(s.take(i)) <= i,
    decreases i,
{
    assert(s.take(i + 1).drop_last() =~= s.take(i));
    if i > 0 {
        lemma_count_true_take(s, i - 1);
    }
}

/// The label map once transparent pixels are set apart: they get label 0
/// and every other label moves up by one.
pub open spec fn relabelled_map(map: Seq<u32>, transparent: Seq<bool>) -> Seq<u32> {
    Seq::new(map.len(), |i: int| if transparent[i] { 0u32 } else { (map[i] + 1) as u32 })
}

/// The region list once transparent pixels are set apart: a region 0 of
/// palette index `u16::MAX` holds the transparent pixels, in front of the
/// other regions, whose ids move up by one and whose pixel counts become the
/// number of pixels that still carry their id.
pub open spec fn relabelled_regions(regions: Seq<Region>, map: Seq<u32>, transparent: Seq<bool>) -> Seq<Region> {
    let m = relabelled_map(map, transparent);
    seq![Region { id: 0, color_index: u16::MAX, pixel_count: count_true(transparent) as u32 }]
        + regions.map_values(
        |r: Region|
            Region { id: (r.id + 1) as u32, pixel_count: count_label(m, (r.id + 1) as u32) as u32, ..r },
    )
}

proof fn lemma_transparent_count(map: Seq<u32>, transparent: Seq<bool>)
    requires
        transparent.len() == map.len(),
        forall|i: int| 0 <= i < map.len() ==> #[trigger] map[i] < u32::MAX,
    ensures
        count_label(relabelled_map(map, transparent), 0) == count_true(transparent),
    decreases map.len(),
{
    if map.len() > 0 {
        let m0 = map.drop_last();
        let t0 = transparent.drop_last();
        assert forall|i: int| 0 <= i < m0.len() implies #[trigger] m0[i] < u32::MAX by {
            assert(m0[i] == map[i]);
        }
        lemma_transparent_count(m0, t0);
        assert(relabelled_map(map, transparent).drop_last() =~= relabelled_map(m0, t0));
        assert(map[map.len() - 1] < u32::MAX);
    }
}

/// Set transparent pixels apart in region 0; nothing changes when no pixel
/// is transparent.
pub fn mark_transparent(segmentation: &mut Segmentation, transparent: &Vec<bool>)
    requires
        transparent@.len() == old(segmentation).label_map@.len(),
        transparent@.len() <= u32::MAX,
        forall|i: int| 0 <= i < old(segmentation).label_map@.len() ==> #[trigger] old(segmentation).label_map@[i]
            < u32::MAX,
        forall|k: int| 0 <= k < old(segmentation).regions@.len() ==> #[trigger] old(segmentation).regions@[k].id
            < u32::MAX,
    ensures
        final(segmentation).width == old(segmentation).width,
        final(segmentation).height == old(segmentation).height,
        (exists|i: int| 0 <= i < transparent@.len() && transparent@[i]) ==> {
            &&& final(segmentation).label_map@ == relabelled_map(old(segmentation).label_map@, transparent@)
            &&& forall|k: int|
                0 <= k < final(segmentation).regions@.len() ==> #[trigger] final(segmentation).regions@[k].pixel_count
                    == count_label(final(segmentation).label_map@, final(segmentation).regions@[k].id)
            &&& final(segmentation).regions@ == relabelled_regions(
                old(segmentation).regions@,
                old(segmentation).label_map@,
                transparent@,
            )
        },
        !(exists|i: int| 0 <= i < transparent@.len() && transparent@[i]) ==> final(segmentation)@ == old(
            segmentation,
        )@,
{
    let n = transparent.len();
    let mut has_transparency = false;
    for i in 0..n
        invariant
            n == transparent@.len(),
            has_transparency == exists|j: int| 0 <= j < i && transparent@[j],
    {
        if transparent[i] {
            has_transparency = true;
        }
    }
    if !has_transparency {
        return;
    }
    let ghost map0 = segmentation.label_map@;
    let ghost regions0 = segmentation.regions@;
    let ghost w0 = segmentation.width;
    let ghost h0 = segmentation.height;
    let nl = segmentation.label_map.len();
    for i in 0..nl
        invariant
            segmentation.width == w0,
            segmentation.height == h0,
            nl == map0.len(),
            segmentation.label_map@.len() == nl,
            segmentation.regions@ == regions0,
            forall|j: int| 0 <= j < nl ==> #[trigger] map0[j] < u32::MAX,
            forall|j: int| 0 <= j < i ==> #[trigger] segmentation.label_map@[j] == map0[j] + 1,
            forall|j: int| i <= j < nl ==> #[trigger] segmentation.label_map@[j] == map0[j],
    {
        let l = segmentation.label_map[i];
        segmentation.label_map.set(i, l + 1);
    }
    let ghost shifted = segmentation.label_map@;
    proof {
        assert forall|j: int| 0 <= j < nl implies #[trigger] shifted[j] == map0[j] + 1 by {}
    }
    let mut transparent_count: u32 = 0;
    for i in 0..n
        invariant
            segmentation.width == w0,
            segmentation.height == h0,
            segmentation.regions@ == regions0,
            n == transparent@.len(),
            n == nl,
            n <= u32::MAX,
            segmentation.label_map@.len() == nl,
            forall|j: int| 0 <= j < i ==> #[trigger] segmentation.label_map@[j] == if transparent@[j] {
                0u32
            } else {
                shifted[j]
            },
            forall|j: int| i <= j < nl ==> #[trigger] segmentation.label_map@[j] == shifted[j],
            transparent_count == count_true(transparent@.take(i as int)),
    {
        proof {
            lemma_count_true_take(transparent@, i as int);
        }
        if transparent[i] {
            segmentation.label_map.set(i, 0);
            transparent_count += 1;
        }
    }
    proof {
        assert(transparent@.take(n as int) =~= transparent@);
        assert(segmentation.label_map@ =~= relabelled_map(map0, transparent@));
    }
    let ghost map1 = segmentation.label_map@;
    let counts = label_counts(&segmentation.label_map);
    let nr = segmentation.regions.len();
    for k in 0..nr
        invariant
            segmentation.width == w0,
            segmentation.height == h0,
            segmentation.label_map@ == map1,
            map1.len() <= u32::MAX,
            nr == regions0.len(),
            segmentation.regions@.len() == nr,
            forall|l: u32| #[trigger] counts@.contains_key(l) <==> map1.contains(l),
            forall|l: u32| counts@.contains_key(l) ==> #[trigger] counts@[l] == count_label(map1, l),
            forall|j: int| 0 <= j < nr ==> #[trigger] regions0[j].id < u32::MAX,
            forall|j: int|
                0 <= j < k ==> #[trigger] segmentation.regions@[j] == (Region {
                    id: (regions0[j].id + 1) as u32,
                    pixel_count: count_label(map1, (regions0[j].id + 1) as u32) as u32,
                    ..regions0[j]
                }),
            forall|j: int| k <= j < nr ==> #[trigger] segmentation.regions@[j] == regions0[j],
    {
        let r = segmentation.regions[k];
        let id = r.id + 1;
        let c: u64 = match counts.get(&id) {
            Some(c) => *c,
            None => 0,
        };
        proof {
            lemma_count_label_bound(map1, id);
            if !counts@.contains_key(id) {
                assert forall|i: int| 0 <= i < map1.len() implies map1[i] != id by {
                    if map1[i] == id {
                        assert(map1.contains(id));
                    }
                }
                lemma_count_label_zero(map1, id);
            }
        }
        segmentation.regions.set(k, Region { id, pixel_count: c as u32, ..r });
    }
    if transparent_count > 0 {
        segmentation.regions.insert(0, Region { id: 0, color_index: u16::MAX, pixel_count: transparent_count });
    }
    proof {
        let j = choose|j: int| 0 <= j < transparent@.len() && transparent@[j];
        lemma_count_true_pos(transparent@, j);
        assert(segmentation.regions@ =~= relabelled_regions(regions0, map0, transparent@));
        lemma_transparent_count(map0, transparent@);
        assert(transparent_count == count_true(transparent@));
        let rs = segmentation.regions@;
        assert forall|k: int| 0 <= k < rs.len() implies #[trigger] rs[k].pixel_count == count_label(map1, rs[k].id) by {
            lemma_count_label_bound(map1, rs[k].id);
            if k > 0 {
                assert(rs[k] == segmentation.regions@[k]);
            }
        }
    }
}

proof fn lemma_count_true_pos(s: Seq<bool>, j: int)
    requires
        0 <= j < s.len(),
        s[j],
    ensures
        count_true(s) > 0,
    decreases s.len(),
{
    if j < s.len() - 1 {
        lemma_count_true_pos(s.drop_last(), j);
    }
}

/// The bytes of RGBA pixels, four per pixel.
pub open spec fn pixel_bytes(pixels: Seq<[u8; 4]>) -> Seq<u8> {
    Seq::new(pixels.len() * 4, |i: int| pixels[i / 4][i % 4])
}

/// The bytes of RGBA pixels, four per pixel, as the tracer takes them.
pub fn rgba_bytes(pixels: &Vec<[u8; 4]>) -> (bytes: Vec<u8>)
    requires
        pixels@.len() * 4 <= usize::MAX,
    ensures
        bytes@ == pixel_bytes(pixels@),
{
    let mut bytes: Vec<u8> = Vec::new();
    for i in 0..pixels.len()
        invariant
            bytes@ == pixel_bytes(pixels@.take(i as int)),
    {
        let p = pixels[i];
        let ghost before = bytes@;
        bytes.push(p[0]);
        bytes.push(p[1]);
        bytes.push(p[2]);
        bytes.push(p[3]);
        proof {
            let t = pixels@.take(i + 1);
            assert forall|k: int| 0 <= k < pixel_bytes(t).len() implies pixel_bytes(t)[k] == bytes@[k] by {
                if k < 4 * i {
                    assert(pixel_bytes(pixels@.take(i as int))[k] == before[k]);
                    assert(k / 4 < i) by (nonlinear_arith)
                        requires
                            0 <= k < 4 * i,
                    ;
                } else {
                    assert(k / 4 == i && k % 4 == k - 4 * i) by (nonlinear_arith)
                        requires
                            4 * i <= k < 4 * i + 4,
                    ;
                }
            }
            assert(pixel_bytes(t) =~= bytes@);
        }
    }
    proof {
        assert(pixels@.take(pixels@.len() as int) =~= pixels@);
    }
    bytes
}

/// The stand-in color for palette index `i` when a segmentation is traced
/// without its palette.
pub open spec fn placeholder_rgb(i: int) -> RgbColor {
    RgbColor { r: ((i * 37) % 256) as u8, g: ((i * 73) % 256) as u8, b: ((i * 111) % 256) as u8 }
}

/// The color of label `label` when a segmentation is traced without its
/// palette: the stand-in color of the last region carrying it, or black.
pub open spec fn label_color(regions: Seq<Region>, label: u32) -> RgbColor
    decreases regions.len(),
{
    if regions.len() == 0 {
        RgbColor { r: 0, g: 0, b: 0 }
    } else if regions.last().id == label {
        placeholder_rgb(regions.last().color_index as int)
    } else {
        label_color(regions.drop_last(), label)
    }
}

/// The colors keyed by region id, each region in turn overwriting what an
/// earlier region with the same id left.
pub open spec fn label_colors(regions: Seq<Region>) -> Map<u32, RgbColor>
    decreases regions.len(),
{
    if regions.len() == 0 {
        Map::empty()
    } else {
        label_colors(regions.drop_last()).insert(
            regions.last().id,
            placeholder_rgb(regions.last().color_index as int),
        )
    }
}

proof fn lemma_label_colors(regions: Seq<Region>, label: u32)
    ensures
        label_colors(regions).contains_key(label) ==> label_colors(regions)[label] == label_color(regions, label),
        !label_colors(regions).contains_key(label) ==> label_color(regions, label) == (RgbColor {
            r: 0,
            g: 0,
            b: 0,
        }),
    decreases regions.len(),
{
    if regions.len() > 0 {
        lemma_label_colors(regions.drop_last(), label);
    }
}

/// The map from region id to stand-in color, the last region with an id winning.
fn region_color_map(regions: &Vec<Region>) -> (m: HashMap<u32, RgbColor>)
    ensures
        m@ == label_colors(regions@),
{
    let mut m: HashMap<u32, RgbColor> = HashMap::new();
    proof {
        assert(regions@.take(0) =~= Seq::<Region>::empty());
    }
    for k in 0..regions.len()
        invariant
            m@ == label_colors(regions@.take(k as int)),
    {
        let i = regions[k].color_index as u32;
        let c = RgbColor { r: ((i * 37) % 256) as u8, g: ((i * 73) % 256) as u8, b: ((i * 111) % 256) as u8 };
        m.insert(regions[k].id, c);
        proof {
            assert(regions@.take(k + 1).drop_last() =~= regions@.take(k as int));
        }
    }
    proof {
        assert(regions@.take(regions@.len() as int) =~= regions@);
    }
    m
}

/// The RGBA bytes that stand for a segmentation: each pixel in the color of
/// its label, fully opaque.
pub open spec fn segmentation_bytes(regions: Seq<Region>, map: Seq<u32>) -> Seq<u8> {
    Seq::new(
        map.len() * 4,
        |i: int|
            {
                let c = label_color(regions, map[i / 4]);
                if i % 4 == 0 {
                    c.r
                } else if i % 4 == 1 {
                    c.g
                } else if i % 4 == 2 {
                    c.b
                } else {
                    255u8
                }
            },
    )
}

/// Reconstruct an RGBA image from the segmentation label map and region
/// colors, so that an edited segmentation can be traced again.
pub fn segmentation_rgba(segmentation: &Segmentation) -> (bytes: Vec<u8>)
    requires
        segmentation.label_map@.len() * 4 <= usize::MAX,
    ensures
        bytes@ == segmentation_bytes(segmentation.regions@, segmentation.label_map@),
{
    let map = &segmentation.label_map;
    let regions = &segmentation.regions;
    let colors = region_color_map(regions);
    let mut bytes: Vec<u8> = Vec::new();
    for i in 0..map.len()
        invariant
            map@ == segmentation.label_map@,
            regions@ == segmentation.regions@,
            colors@ == label_colors(regions@),
            bytes@ == segmentation_bytes(regions@, map@.take(i as int)),
    {
        let c = match colors.get(&map[i]) {
            Some(c) => *c,
            None => RgbColor { r: 0, g: 0, b: 0 },
        };
        proof {
            lemma_label_colors(regions@, map@[i as int]);
        }
        let ghost before = bytes@;
        bytes.push(c.r);
        bytes.push(c.g);
        bytes.push(c.b);
        bytes.push(255u8);
        proof {
            let t = map@.take(i + 1);
            assert forall|k: int| 0 <= k < segmentation_bytes(regions@, t).len() implies segmentation_bytes(
                regions@,
                t,
            )[k] == bytes@[k] by {
                if k < 4 * i {
                    assert(segmentation_bytes(regions@, map@.take(i as int))[k] == before[k]);
                    assert(k / 4 < i) by (nonlinear_arith)
                        requires
                            0 <= k < 4 * i,
                    ;
                } else {
                    assert(k / 4 == i && k % 4 == k - 4 * i) by (nonlinear_arith)
                        requires
                            4 * i <= k < 4 * i + 4,
                    ;
                }
            }
            assert(segmentation_bytes(regions@, t) =~= bytes@);
        }
    }
    proof {
        assert(map@.take(map@.len() as int) =~= map@);
    }
    bytes
}

} // verus!
