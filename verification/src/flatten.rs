//! Grouping the paths of a flattened result by fill color.
use vstd::prelude::*;

use std::collections::HashMap;

use crate::types::RgbColor;

verus! {

broadcast use vstd::std_specs::hash::group_hash_axioms;

/// The distinct colors of `colors`, in the order of their first occurrence.
pub open spec fn first_colors(colors: Seq<RgbColor>) -> Seq<RgbColor>
    decreases colors.len(),
{
    if colors.len() == 0 {
        Seq::empty()
    } else {
        let d = first_colors(colors.drop_last());
        if d.contains(colors.last()) {
            d
        } else {
            d.push(colors.last())
        }
    }
}

/// The positions of color `c` in `colors`, in increasing order.
pub open spec fn indices_of_color(colors: Seq<RgbColor>, c: RgbColor) -> Seq<usize>
    decreases colors.len(),
{
    if colors.len() == 0 {
        Seq::empty()
    } else {
        let r = indices_of_color(colors.drop_last(), c);
        if colors.last() == c {
            r.push((colors.len() - 1) as usize)
        } else {
            r
        }
    }
}

/// The distinct colors of `colors`, in the order of their first occurrence.
pub fn distinct_colors(colors: &Vec<RgbColor>) -> (d: Vec<RgbColor>)
    ensures
        d@ == first_colors(colors@),
{
    let n = colors.len();
    let mut d: Vec<RgbColor> = Vec::new();
    assert(colors@.take(0) =~= Seq::<RgbColor>::empty());
    for i in 0..n
        invariant
            n == colors@.len(),
            d@ == first_colors(colors@.take(i as int)),
    {
        let c = colors[i];
        let mut found = false;
        for k in 0..d.len()
            invariant
                found == exists|j: int| 0 <= j < k && d@[j] == c,
        {
            if d[k] == c {
                found = true;
            }
        }
        assert(colors@.take(i + 1).drop_last() =~= colors@.take(i as int));
        assert(colors@.take(i + 1).last() == c);
        if !found {
            d.push(c);
        }
    }
    assert(colors@.take(n as int) =~= colors@);
    d
}

/// The positions of color `c` in `colors`, in increasing order.
pub fn positions_of_color(colors: &Vec<RgbColor>, c: RgbColor) -> (p: Vec<usize>)
    ensures
        p@ == indices_of_color(colors@, c),
{
    let n = colors.len();
    let mut p: Vec<usize> = Vec::new();
    assert(colors@.take(0) =~= Seq::<RgbColor>::empty());
    for i in 0..n
        invariant
            n == colors@.len(),
            p@ == indices_of_color(colors@.take(i as int), c),
    {
        assert(colors@.take(i + 1).drop_last() =~= colors@.take(i as int));
        assert(colors@.take(i + 1).last() == colors@[i as int]);
        if colors[i] == c {
            p.push(i);
        }
    }
    assert(colors@.take(n as int) =~= colors@);
    p
}

/// The key of a color in the grouping map: its channels packed into one number.
pub open spec fn color_key(c: RgbColor) -> u32 {
    (c.r * 65536 + c.g * 256 + c.b) as u32
}

fn color_key_of(c: RgbColor) -> (k: u32)
    ensures
        k == color_key(c),
{
    c.r as u32 * 65536 + c.g as u32 * 256 + c.b as u32
}

proof fn lemma_color_key_injective(a: RgbColor, b: RgbColor)
    requires
        color_key(a) == color_key(b),
    ensures
        a == b,
{
    let (ar, ag, ab) = (a.r as int, a.g as int, a.b as int);
    let (br, bg, bb) = (b.r as int, b.g as int, b.b as int);
    assert(ar * 65536 + ag * 256 + ab == br * 65536 + bg * 256 + bb);
    assert(ar == br && ag == bg && ab == bb) by (nonlinear_arith)
        requires
            ar * 65536 + ag * 256 + ab == br * 65536 + bg * 256 + bb,
            0 <= ar < 256,
            0 <= ag < 256,
            0 <= ab < 256,
            0 <= br < 256,
            0 <= bg < 256,
            0 <= bb < 256,
    ;
}

proof fn lemma_no_indices_without_color(colors: Seq<RgbColor>, c: RgbColor)
    requires
        !colors.contains(c),
    ensures
        indices_of_color(colors, c) == Seq::<usize>::empty(),
    decreases colors.len(),
{
    if colors.len() > 0 {
        assert(!colors.drop_last().contains(c)) by {
            if colors.drop_last().contains(c) {
                let k = choose|k: int| 0 <= k < colors.drop_last().len() && colors.drop_last()[k] == c;
                assert(colors[k] == c);
            }
        }
        assert(colors.last() != c) by {
            assert(colors[colors.len() - 1] == colors.last());
        }
        lemma_no_indices_without_color(colors.drop_last(), c);
    }
}

/// The paths of each fill color, keyed by `color_key`: a key is present
/// exactly for the colors that occur, with their positions in order.
fn group_by_color(colors: &Vec<RgbColor>) -> (m: HashMap<u32, Vec<usize>>)
    ensures
        forall|c: RgbColor| #[trigger] m@.contains_key(color_key(c)) <==> colors@.contains(c),
        forall|c: RgbColor|
            m@.contains_key(color_key(c)) ==> (#[trigger] m@[color_key(c)])@ == indices_of_color(colors@, c),
{
    let n = colors.len();
    let mut m: HashMap<u32, Vec<usize>> = HashMap::new();
    proof {
        assert forall|c: RgbColor| !colors@.take(0).contains(c) by {}
    }
    for i in 0..n
        invariant
            n == colors@.len(),
            forall|c: RgbColor| #[trigger] m@.contains_key(color_key(c)) <==> colors@.take(i as int).contains(c),
            forall|c: RgbColor|
                m@.contains_key(color_key(c)) ==> (#[trigger] m@[color_key(c)])@ == indices_of_color(
                    colors@.take(i as int),
                    c,
                ),
    {
        let c = colors[i];
        let key = color_key_of(c);
        let ghost pre = colors@.take(i as int);
        let ghost post = colors@.take(i + 1);
        let ghost m0 = m@;
        let mut v = match m.remove(&key) {
            Some(v) => v,
            None => Vec::new(),
        };
        proof {
            if !m0.contains_key(key) {
                lemma_no_indices_without_color(pre, c);
            }
        }
        assert(v@ == indices_of_color(pre, c));
        v.push(i);
        m.insert(key, v);
        proof {
            assert(post.drop_last() =~= pre);
            assert(post.last() == c);
            assert forall|c2: RgbColor| #[trigger] m@.contains_key(color_key(c2)) <==> post.contains(c2) by {
                if color_key(c2) == key {
                    lemma_color_key_injective(c2, c);
                    assert(post[i as int] == c);
                } else {
                    assert(c2 != c);
                    if post.contains(c2) {
                        let k = choose|k: int| 0 <= k < post.len() && post[k] == c2;
                        assert(k < i);
                        assert(pre[k] == c2);
                    }
                    if pre.contains(c2) {
                        let k = choose|k: int| 0 <= k < pre.len() && pre[k] == c2;
                        assert(post[k] == c2);
                    }
                }
            }
            assert forall|c2: RgbColor|
                m@.contains_key(color_key(c2)) implies (#[trigger] m@[color_key(c2)])@ == indices_of_color(post, c2) by {
                if color_key(c2) == key {
                    lemma_color_key_injective(c2, c);
                } else {
                    assert(c2 != c);
                }
            }
        }
    }
    proof {
        assert(colors@.take(n as int) =~= colors@);
    }
    m
}

/// The paths to merge, given their fill colors: one group per color, in the
/// order of each color's first path, each listing its paths in order. A path
/// alone in its group is kept as it is; the paths of a larger group become one.
pub fn color_merge_plan(colors: &Vec<RgbColor>) -> (groups: Vec<Vec<usize>>)
    ensures
        groups@.len() == first_colors(colors@).len(),
        forall|k: int|
            0 <= k < groups@.len() ==> (#[trigger] groups@[k])@ == indices_of_color(
                colors@,
                first_colors(colors@)[k],
            ),
{
    let by_color = group_by_color(colors);
    let d = distinct_colors(colors);
    let mut groups: Vec<Vec<usize>> = Vec::new();
    for k in 0..d.len()
        invariant
            d@ == first_colors(colors@),
            groups@.len() == k,
            forall|c: RgbColor| #[trigger] by_color@.contains_key(color_key(c)) <==> colors@.contains(c),
            forall|c: RgbColor|
                by_color@.contains_key(color_key(c)) ==> (#[trigger] by_color@[color_key(c)])@
                    == indices_of_color(colors@, c),
            forall|j: int|
                0 <= j < k ==> (#[trigger] groups@[j])@ == indices_of_color(colors@, first_colors(colors@)[j]),
    {
        let c = d[k];
        let group = match by_color.get(&color_key_of(c)) {
            Some(v) => v.clone(),
            None => {
                proof {
                    lemma_no_indices_without_color(colors@, c);
                }
                Vec::new()
            },
        };
        groups.push(group);
    }
    groups
}

} // verus!
