//! Mathematical descriptions of segmentations shared by the editor, the
//! segmenter and the commands built on them.
use vstd::prelude::*;

use std::collections::HashMap;

use crate::types::{Region, SegmentationView};

verus! {

broadcast use vstd::std_specs::hash::group_hash_axioms;

/// The number of entries of `s` equal to `id`.
pub open spec fn count_label(s: Seq<u32>, id: u32) -> nat
    decreases s.len(),
{
    if s.len() == 0 {
        0
    } else {
        count_label(s.drop_last(), id) + if s.last() == id { 1nat } else { 0nat }
    }
}

/// `k` is the first index of `regions` whose region carries `id`.
pub open spec fn is_first_with_id(regions: Seq<Region>, k: int, id: u32) -> bool {
    &&& 0 <= k < regions.len()
    &&& regions[k].id == id
    &&& forall|j: int| 0 <= j < k ==> regions[j].id != id
}

/// The index of the first region carrying `id` (meaningful when one exists).
pub open spec fn first_with_id(regions: Seq<Region>, id: u32) -> int {
    choose|k: int| is_first_with_id(regions, k, id)
}

/// Region ids are pairwise distinct.
pub open spec fn unique_ids(regions: Seq<Region>) -> bool {
    forall|i: int, j: int|
        0 <= i < regions.len() && 0 <= j < regions.len() && i != j ==> regions[i].id
            != regions[j].id
}

/// Every label of the map names a region, and every region's pixel count is
/// the number of pixels that carry its id.
pub open spec fn consistent(seg: SegmentationView) -> bool {
    &&& unique_ids(seg.regions)
    &&& forall|k: int|
        0 <= k < seg.regions.len() ==> #[trigger] seg.regions[k].pixel_count == count_label(
            seg.label_map,
            seg.regions[k].id,
        )
    &&& forall|i: int| 0 <= i < seg.label_map.len() ==> seg.has_region(#[trigger] seg.label_map[i])
}

pub proof fn lemma_count_label_bound(s: Seq<u32>, id: u32)
    ensures
        count_label(s, id) <= s.len(),
    decreases s.len(),
{
    if s.len() > 0 {
        lemma_count_label_bound(s.drop_last(), id);
    }
}

pub proof fn lemma_count_label_take_step(s: Seq<u32>, i: int, id: u32)
    requires
        0 <= i < s.len(),
    ensures
        count_label(s.take(i + 1), id) == count_label(s.take(i), id) + if s[i] == id {
            1nat
        } else {
            0nat
        },
{
    assert(s.take(i + 1).drop_last() =~= s.take(i));
}

pub proof fn lemma_count_label_zero(s: Seq<u32>, id: u32)
    requires
        forall|i: int| 0 <= i < s.len() ==> s[i] != id,
    ensures
        count_label(s, id) == 0,
    decreases s.len(),
{
    if s.len() > 0 {
        lemma_count_label_zero(s.drop_last(), id);
    }
}

pub proof fn lemma_first_with_id(regions: Seq<Region>, id: u32)
    requires
        exists|k: int| 0 <= k < regions.len() && regions[k].id == id,
    ensures
        is_first_with_id(regions, first_with_id(regions, id), id),
    decreases regions.len(),
{
    let k = choose|k: int| 0 <= k < regions.len() && regions[k].id == id;
    if exists|j: int| 0 <= j < k && regions[j].id == id {
        let j = choose|j: int| 0 <= j < k && regions[j].id == id;
        assert(regions.take(k)[j].id == id);
        lemma_first_with_id(regions.take(k), id);
        let f = first_with_id(regions.take(k), id);
        assert forall|i: int| 0 <= i < f implies regions[i].id != id by {
            assert(regions.take(k)[i] == regions[i]);
        }
        assert(regions.take(k)[f] == regions[f]);
        assert(is_first_with_id(regions, f, id));
    } else {
        assert(is_first_with_id(regions, k, id));
    }
}

pub proof fn lemma_first_with_id_unique(regions: Seq<Region>, k1: int, k2: int, id: u32)
    requires
        is_first_with_id(regions, k1, id),
        is_first_with_id(regions, k2, id),
    ensures
        k1 == k2,
{
}

pub proof fn lemma_count_label_congruent(s1: Seq<u32>, a: u32, s2: Seq<u32>, b: u32)
    requires
        s1.len() == s2.len(),
        forall|i: int| 0 <= i < s1.len() ==> (s1[i] == a) == (s2[i] == b),
    ensures
        count_label(s1, a) == count_label(s2, b),
    decreases s1.len(),
{
    if s1.len() > 0 {
        lemma_count_label_congruent(s1.drop_last(), a, s2.drop_last(), b);
    }
}

pub proof fn lemma_count_label_positive(s: Seq<u32>, id: u32, i: int)
    requires
        0 <= i < s.len(),
        s[i] == id,
    ensures
        count_label(s, id) > 0,
    decreases s.len(),
{
    if i < s.len() - 1 {
        lemma_count_label_positive(s.drop_last(), id, i);
    }
}

pub proof fn lemma_count_label_update(s: Seq<u32>, i: int, v: u32, id: u32)
    requires
        0 <= i < s.len(),
    ensures
        count_label(s.update(i, v), id) + (if s[i] == id { 1int } else { 0int }) == count_label(s, id)
            + (if v == id { 1int } else { 0int }),
    decreases s.len(),
{
    let t = s.update(i, v);
    if i < s.len() - 1 {
        assert(t.drop_last() =~= s.drop_last().update(i, v));
        lemma_count_label_update(s.drop_last(), i, v, id);
    } else {
        assert(t.drop_last() =~= s.drop_last());
    }
}


/// How many times each label occurs in `labels`: a key for every label that
/// occurs, holding its count.
pub fn label_counts(labels: &Vec<u32>) -> (counts: HashMap<u32, u64>)
    ensures
        forall|l: u32| #[trigger] counts@.contains_key(l) <==> labels@.contains(l),
        forall|l: u32| counts@.contains_key(l) ==> #[trigger] counts@[l] == count_label(labels@, l),
{
    let n = labels.len();
    let ghost s = labels@;
    let mut counts: std::collections::HashMap<u32, u64> = std::collections::HashMap::new();
    proof {
        assert(s.take(0) =~= Seq::<u32>::empty());
    }
    for i in 0..n
        invariant
            n == s.len(),
            s == labels@,
            forall|l: u32| #[trigger] counts@.contains_key(l) <==> s.take(i as int).contains(l),
            forall|l: u32| counts@.contains_key(l) ==> #[trigger] counts@[l] == count_label(s.take(i as int), l),
    {
        let l = labels[i];
        let c: u64 = match counts.get(&l) {
            Some(c) => *c,
            None => 0,
        };
        proof {
            assert(s.take(i + 1) =~= s.take(i as int).push(l));
            if !counts@.contains_key(l) {
                assert(!s.take(i as int).contains(l));
                assert forall|k: int| 0 <= k < s.take(i as int).len() implies s.take(i as int)[k] != l by {
                    if s.take(i as int)[k] == l {
                        assert(s.take(i as int).contains(l));
                    }
                }
                lemma_count_label_zero(s.take(i as int), l);
            }
            assert(c == count_label(s.take(i as int), l));
            lemma_count_label_bound(s.take(i as int), l);
            assert forall|l2: u32| counts@.insert(l, (c + 1) as u64).contains_key(l2) implies #[trigger] counts@.insert(l, (c + 1) as u64)[l2]
                == count_label(s.take(i + 1), l2) by {
                lemma_count_label_take_step(s, i as int, l2);
            }
            let pre = s.take(i as int);
            let post = s.take(i + 1);
            assert forall|l2: u32| #[trigger] counts@.insert(l, (c + 1) as u64).contains_key(l2) <==> post.contains(l2) by {
                if post.contains(l2) && l2 != l {
                    let k = choose|k: int| 0 <= k < post.len() && #[trigger] post[k] == l2;
                    assert(k < i);
                    assert(pre[k] == l2);
                }
                if pre.contains(l2) {
                    let k = choose|k: int| 0 <= k < pre.len() && #[trigger] pre[k] == l2;
                    assert(post[k] == l2);
                }
                if l2 == l {
                    assert(post[i as int] == l);
                }
            }
        }
        counts.insert(l, c + 1);
    }
    proof {
        assert(s.take(n as int) =~= s);
    }
    counts
}

} // verus!
