//! The integer part of downsampling for analysis: averaging a rectangle of
//! source pixels into one output pixel.
use vstd::prelude::*;

verus! {

/// The sum of channel `ch` over the pixels `x0..x1` of row `y`.
pub open spec fn row_sum(pixels: Seq<[u8; 4]>, width: int, y: int, x0: int, x1: int, ch: int) -> int
    decreases x1 - x0,
{
    if x1 <= x0 {
        0
    } else {
        row_sum(pixels, width, y, x0, x1 - 1, ch) + pixels[y * width + x1 - 1][ch]
    }
}

/// The sum of channel `ch` over the pixels of columns `x0..x1` and rows `y0..y1`.
pub open spec fn rect_sum(pixels: Seq<[u8; 4]>, width: int, x0: int, x1: int, y0: int, y1: int, ch: int) -> int
    decreases y1 - y0,
{
    if y1 <= y0 {
        0
    } else {
        rect_sum(pixels, width, x0, x1, y0, y1 - 1, ch) + row_sum(pixels, width, y1 - 1, x0, x1, ch)
    }
}

/// The number of pixels of columns `x0..x1` and rows `y0..y1`.
pub open spec fn rect_count(x0: int, x1: int, y0: int, y1: int) -> int {
    if x0 < x1 && y0 < y1 {
        (x1 - x0) * (y1 - y0)
    } else {
        0
    }
}

/// The output pixel for a source rectangle: each channel's sum divided by
/// the number of pixels (rounded down, kept to its low byte), or opaque
/// black for an empty rectangle.
pub open spec fn rect_average(pixels: Seq<[u8; 4]>, width: int, x0: int, x1: int, y0: int, y1: int) -> [u8; 4] {
    let n = rect_count(x0, x1, y0, y1);
    if n > 0 {
        [
            (rect_sum(pixels, width, x0, x1, y0, y1, 0) / n) as u8,
            (rect_sum(pixels, width, x0, x1, y0, y1, 1) / n) as u8,
            (rect_sum(pixels, width, x0, x1, y0, y1, 2) / n) as u8,
            (rect_sum(pixels, width, x0, x1, y0, y1, 3) / n) as u8,
        ]
    } else {
        [0, 0, 0, 255]
    }
}

proof fn lemma_row_sum_bound(pixels: Seq<[u8; 4]>, width: int, y: int, x0: int, x1: int, ch: int)
    requires
        x0 <= x1,
    ensures
        0 <= row_sum(pixels, width, y, x0, x1, ch) <= 255 * (x1 - x0),
    decreases x1 - x0,
{
    if x1 > x0 {
        lemma_row_sum_bound(pixels, width, y, x0, x1 - 1, ch);
    }
}

/// Average the source pixels of columns `x0..x1` and rows `y0..y1` of a
/// `width x height` picture, channel by channel.
pub fn average_rect(
    pixels: &Vec<[u8; 4]>,
    width: u32,
    height: u32,
    x0: u32,
    x1: u32,
    y0: u32,
    y1: u32,
) -> (p: [u8; 4])
    requires
        pixels@.len() == width * height,
        width * height <= u32::MAX,
        x1 <= width,
        y1 <= height,
    ensures
        p == rect_average(pixels@, width as int, x0 as int, x1 as int, y0 as int, y1 as int),
{
    let ghost s = pixels@;
    let ghost w = width as int;
    let mut r: u64 = 0;
    let mut g: u64 = 0;
    let mut b: u64 = 0;
    let mut a: u64 = 0;
    let mut count: u64 = 0;
    let mut sy = y0;
    while sy < y1
        invariant
            pixels@ == s,
            w == width,
            s.len() == width * height,
            width * height <= u32::MAX,
            x1 <= width,
            y1 <= height,
            y0 <= sy <= y1 || (y1 < y0 && sy == y0),
            count == if x0 < x1 { (x1 - x0) * (sy - y0) } else { 0 },
            count <= width * height,
            r == rect_sum(s, w, x0 as int, x1 as int, y0 as int, sy as int, 0),
            g == rect_sum(s, w, x0 as int, x1 as int, y0 as int, sy as int, 1),
            b == rect_sum(s, w, x0 as int, x1 as int, y0 as int, sy as int, 2),
            a == rect_sum(s, w, x0 as int, x1 as int, y0 as int, sy as int, 3),
            r <= 255 * count,
            g <= 255 * count,
            b <= 255 * count,
            a <= 255 * count,
        decreases y1 - sy,
    {
        proof {
            if x0 < x1 {
                assert((x1 - x0) * (sy - y0) + (x1 - x0) <= width * height) by (nonlinear_arith)
                    requires
                        x0 < x1 <= width,
                        y0 <= sy < y1 <= height,
                ;
            }
        }
        let mut sx = x0;
        let ghost r0 = r;
        let ghost g0 = g;
        let ghost b0 = b;
        let ghost a0 = a;
        let ghost c0 = count;
        while sx < x1
            invariant
                pixels@ == s,
                w == width,
                s.len() == width * height,
                width * height <= u32::MAX,
                x1 <= width,
                sy < y1 <= height,
                (x0 <= sx <= x1) || (x1 < x0 && sx == x0),
                count == c0 + (sx - x0),
                x0 < x1 ==> c0 + (x1 - x0) <= width * height,
                c0 <= width * height,
                r == r0 + row_sum(s, w, sy as int, x0 as int, sx as int, 0),
                g == g0 + row_sum(s, w, sy as int, x0 as int, sx as int, 1),
                b == b0 + row_sum(s, w, sy as int, x0 as int, sx as int, 2),
                a == a0 + row_sum(s, w, sy as int, x0 as int, sx as int, 3),
                r0 <= 255 * c0,
                g0 <= 255 * c0,
                b0 <= 255 * c0,
                a0 <= 255 * c0,
            decreases x1 - sx,
        {
            proof {
                assert(sy * width + sx < width * height) by (nonlinear_arith)
                    requires
                        sy < height,
                        sx < width,
                ;
                lemma_row_sum_bound(s, w, sy as int, x0 as int, sx as int, 0);
                lemma_row_sum_bound(s, w, sy as int, x0 as int, sx as int, 1);
                lemma_row_sum_bound(s, w, sy as int, x0 as int, sx as int, 2);
                lemma_row_sum_bound(s, w, sy as int, x0 as int, sx as int, 3);
            }
            let idx = (sy * width + sx) as usize;
            let pixel = pixels[idx];
            r = r + pixel[0] as u64;
            g = g + pixel[1] as u64;
            b = b + pixel[2] as u64;
            a = a + pixel[3] as u64;
            count = count + 1;
            proof {
                let xe = (sx + 1) as int;
                assert(idx == sy * w + sx);
                assert(s[idx as int] == pixel);
                assert(sy * w + xe - 1 == idx);
                assert(row_sum(s, w, sy as int, x0 as int, xe, 0) == row_sum(s, w, sy as int, x0 as int, sx as int, 0) + pixel[0]);
                assert(row_sum(s, w, sy as int, x0 as int, xe, 1) == row_sum(s, w, sy as int, x0 as int, sx as int, 1) + pixel[1]);
                assert(row_sum(s, w, sy as int, x0 as int, xe, 2) == row_sum(s, w, sy as int, x0 as int, sx as int, 2) + pixel[2]);
                assert(row_sum(s, w, sy as int, x0 as int, xe, 3) == row_sum(s, w, sy as int, x0 as int, sx as int, 3) + pixel[3]);
            }
            sx = sx + 1;
        }
        proof {
            if x0 <= x1 {
                lemma_row_sum_bound(s, w, sy as int, x0 as int, x1 as int, 0);
                lemma_row_sum_bound(s, w, sy as int, x0 as int, x1 as int, 1);
                lemma_row_sum_bound(s, w, sy as int, x0 as int, x1 as int, 2);
                lemma_row_sum_bound(s, w, sy as int, x0 as int, x1 as int, 3);
            }
            if x0 < x1 {
                assert((x1 - x0) * (sy - y0) + (x1 - x0) == (x1 - x0) * (sy + 1 - y0)) by (nonlinear_arith);
                assert((x1 - x0) * (sy + 1 - y0) <= width * height) by (nonlinear_arith)
                    requires
                        x0 < x1 <= width,
                        y0 <= sy < y1 <= height,
                ;
            }
        }
        sy = sy + 1;
    }
    proof {
        if y0 <= y1 {
            assert(sy == y1);
            if x0 < x1 && y0 < y1 {
                assert((x1 - x0) * (sy - y0) > 0) by (nonlinear_arith)
                    requires
                        x0 < x1,
                        y0 < sy,
                ;
            } else if x0 < x1 {
                assert(sy - y0 == 0);
                assert(count == 0) by (nonlinear_arith)
                    requires
                        count == (x1 - x0) * (sy - y0),
                        sy - y0 == 0,
                ;
            }
        } else {
            assert(sy == y0);
            assert(count == 0) by (nonlinear_arith)
                requires
                    x0 < x1 ==> count == (x1 - x0) * (sy - y0),
                    !(x0 < x1) ==> count == 0,
                    sy == y0,
            ;
            assert(rect_sum(s, w, x0 as int, x1 as int, y0 as int, y1 as int, 0) == 0);
            assert(rect_sum(s, w, x0 as int, x1 as int, y0 as int, y1 as int, 1) == 0);
            assert(rect_sum(s, w, x0 as int, x1 as int, y0 as int, y1 as int, 2) == 0);
            assert(rect_sum(s, w, x0 as int, x1 as int, y0 as int, y1 as int, 3) == 0);
        }
        assert(count == rect_count(x0 as int, x1 as int, y0 as int, y1 as int));
    }
    if count > 0 {
        [(r / count) as u8, (g / count) as u8, (b / count) as u8, (a / count) as u8]
    } else {
        [0, 0, 0, 255]
    }
}

} // verus!
