//! The integer part of image-type detection: the coarse color histogram whose
//! entropy tells photographs from flat artwork.
use vstd::prelude::*;

verus! {

/// The number of histogram bins: four bits for each of red, green and blue.
pub const COLOR_BINS: usize = 4096;

/// The bin of a pixel: the high four bits of red, green and blue, in that order.
pub open spec fn color_bin(p: [u8; 4]) -> int {
    (p[0] / 16) * 256 + (p[1] / 16) * 16 + p[2] / 16
}

/// How many of `pixels` fall into bin `b`.
pub open spec fn bin_count(pixels: Seq<[u8; 4]>, b: int) -> nat
    decreases pixels.len(),
{
    if pixels.len() == 0 {
        0
    } else {
        bin_count(pixels.drop_last(), b) + if color_bin(pixels.last()) == b {
            1nat
        } else {
            0nat
        }
    }
}

proof fn lemma_bin_count_bounded(pixels: Seq<[u8; 4]>, b: int)
    ensures
        bin_count(pixels, b) <= pixels.len(),
    decreases pixels.len(),
{
    if pixels.len() > 0 {
        lemma_bin_count_bounded(pixels.drop_last(), b);
    }
}

/// The histogram of `pixels` over the bins of `color_bin`.
pub fn color_histogram(pixels: &Vec<[u8; 4]>) -> (hist: Vec<u32>)
    requires
        pixels@.len() <= u32::MAX,
    ensures
        hist@.len() == COLOR_BINS,
        forall|b: int| 0 <= b < COLOR_BINS ==> #[trigger] hist@[b] == bin_count(pixels@, b),
{
    let mut hist: Vec<u32> = Vec::new();
    let mut k: usize = 0;
    while k < COLOR_BINS
        invariant
            k <= COLOR_BINS,
            hist@.len() == k,
            forall|b: int| 0 <= b < k ==> #[trigger] hist@[b] == 0,
        decreases COLOR_BINS - k,
    {
        hist.push(0);
        k = k + 1;
    }
    proof {
        assert forall|b: int| 0 <= b < COLOR_BINS implies #[trigger] hist@[b] == bin_count(
            pixels@.take(0),
            b,
        ) by {
            assert(pixels@.take(0).len() == 0);
        }
    }
    for i in 0..pixels.len()
        invariant
            pixels@.len() <= u32::MAX,
            hist@.len() == COLOR_BINS,
            forall|b: int| 0 <= b < COLOR_BINS ==> #[trigger] hist@[b] == bin_count(pixels@.take(i as int), b),
    {
        let p = pixels[i];
        let bin: usize = (p[0] / 16) as usize * 256 + (p[1] / 16) as usize * 16 + (p[2] / 16) as usize;
        let ghost before = hist@;
        proof {
            let t = pixels@.take(i + 1);
            assert(t.drop_last() =~= pixels@.take(i as int));
            assert(t.last() == p);
            assert(bin == color_bin(p));
            lemma_bin_count_bounded(pixels@.take(i as int), bin as int);
        }
        let c = hist[bin];
        hist.set(bin, c + 1);
        proof {
            let t = pixels@.take(i + 1);
            assert forall|b: int| 0 <= b < COLOR_BINS implies #[trigger] hist@[b] == bin_count(t, b) by {
                assert(t.drop_last() =~= pixels@.take(i as int));
                if b != bin {
                    assert(hist@[b] == before[b]);
                }
            }
        }
    }
    proof {
        assert(pixels@.take(pixels@.len() as int) =~= pixels@);
    }
    hist
}

} // verus!
