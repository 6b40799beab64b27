//! Colors and knot vectors for DXF drawings.
use vstd::prelude::*;

use crate::types::RgbColor;

verus! {

/// The AutoCAD Color Index candidates, with their red, green and blue
/// channels at full scale (255) or zero: red, yellow, green, cyan, blue,
/// magenta, white.
pub open spec fn aci_candidate(k: int) -> (u8, int, int, int) {
    if k == 0 {
        (1, 255, 0, 0)
    } else if k == 1 {
        (2, 255, 255, 0)
    } else if k == 2 {
        (3, 0, 255, 0)
    } else if k == 3 {
        (4, 0, 255, 255)
    } else if k == 4 {
        (5, 0, 0, 255)
    } else if k == 5 {
        (6, 255, 0, 255)
    } else {
        (7, 255, 255, 255)
    }
}

/// The squared distance from `c` to candidate `k`.
pub open spec fn aci_distance(c: RgbColor, k: int) -> int {
    let (_, r, g, b) = aci_candidate(k);
    (c.r - r) * (c.r - r) + (c.g - g) * (c.g - g) + (c.b - b) * (c.b - b)
}

/// The nearest of the first `n` candidates, the first one among equally near ones.
pub open spec fn nearest_candidate(c: RgbColor, n: int) -> int
    decreases n,
{
    if n <= 1 {
        0
    } else {
        let best = nearest_candidate(c, n - 1);
        if aci_distance(c, n - 1) < aci_distance(c, best) {
            n - 1
        } else {
            best
        }
    }
}

/// The ACI of a color: 7 for near-black colors (every channel below a tenth
/// of full scale), else the nearest of the seven primary candidates.
pub open spec fn aci_of(c: RgbColor) -> u8 {
    if 10 * c.r < 255 && 10 * c.g < 255 && 10 * c.b < 255 {
        7
    } else {
        aci_candidate(nearest_candidate(c, 7)).0
    }
}

/// Map an RGB color to the nearest DXF ACI (AutoCAD Color Index).
/// ACI has 256 indexed colors; this is inherently lossy.
///
/// Channels and distances are compared exactly, in units of 1/255.
pub fn rgb_to_aci(color: &RgbColor) -> (aci: u8)
    ensures
        aci == aci_of(*color),
{
    let r = color.r as i32;
    let g = color.g as i32;
    let b = color.b as i32;

    // Near-black adapts to the background
    if 10 * r < 255 && 10 * g < 255 && 10 * b < 255 {
        return 7;
    }

    let candidates: [(u8, i32, i32, i32); 7] = [
        (1, 255, 0, 0),
        (2, 255, 255, 0),
        (3, 0, 255, 0),
        (4, 0, 255, 255),
        (5, 0, 0, 255),
        (6, 255, 0, 255),
        (7, 255, 255, 255),
    ];

    let mut best_k: usize = 0;
    let mut best_dist: i32 = i32::MAX;
    for k in 0..7
        invariant
            r == color.r,
            g == color.g,
            b == color.b,
            candidates@ == seq![
                (1u8, 255i32, 0i32, 0i32),
                (2u8, 255i32, 255i32, 0i32),
                (3u8, 0i32, 255i32, 0i32),
                (4u8, 0i32, 255i32, 255i32),
                (5u8, 0i32, 0i32, 255i32),
                (6u8, 255i32, 0i32, 255i32),
                (7u8, 255i32, 255i32, 255i32),
            ],
            k == 0 ==> best_dist == i32::MAX,
            k > 0 ==> best_k == nearest_candidate(*color, k as int) && best_dist == aci_distance(
                *color,
                best_k as int,
            ),
            best_k < 7,
    {
        let (_, cr, cg, cb) = candidates[k];
        assert(candidates@[k as int] == (aci_candidate(k as int).0, cr, cg, cb));
        assert((cr as int, cg as int, cb as int) == (aci_candidate(k as int).1, aci_candidate(k as int).2, aci_candidate(k as int).3));
        proof {
            assert(0 <= cr <= 255 && 0 <= cg <= 255 && 0 <= cb <= 255);
            assert(0 <= (r - cr) * (r - cr) <= 65025) by (nonlinear_arith)
                requires
                    -255 <= r - cr <= 255,
            ;
            assert(0 <= (g - cg) * (g - cg) <= 65025) by (nonlinear_arith)
                requires
                    -255 <= g - cg <= 255,
            ;
            assert(0 <= (b - cb) * (b - cb) <= 65025) by (nonlinear_arith)
                requires
                    -255 <= b - cb <= 255,
            ;
        }
        let dist = (r - cr) * (r - cr) + (g - cg) * (g - cg) + (b - cb) * (b - cb);
        if dist < best_dist {
            best_dist = dist;
            best_k = k;
        }
    }
    candidates[best_k].0
}

/// The knots of a clamped cubic B-spline with `n` control points: four
/// zeros, then `1, 2, ...`, then four copies of `n - 3`.
pub open spec fn clamped_knot(n: int, i: int) -> int {
    if i <= 3 {
        0
    } else if i >= n {
        n - 3
    } else {
        i - 3
    }
}

/// The knot vector of a clamped cubic B-spline through `n_ctrl` control points.
pub fn clamped_cubic_knots(n_ctrl: usize) -> (knots: Vec<usize>)
    requires
        3 <= n_ctrl <= usize::MAX - 4,
    ensures
        knots@.len() == n_ctrl + 4,
        forall|i: int| 0 <= i < n_ctrl + 4 ==> knots@[i] == clamped_knot(n_ctrl as int, i),
{
    let degree: usize = 3;
    let n_knots = n_ctrl + degree + 1;
    let mut knots: Vec<usize> = Vec::new();
    for i in 0..n_knots
        invariant
            n_knots == n_ctrl + 4,
            degree == 3,
            3 <= n_ctrl,
            knots@.len() == i,
            forall|j: int| 0 <= j < i ==> knots@[j] == clamped_knot(n_ctrl as int, j),
    {
        if i <= degree {
            knots.push(0);
        } else if i >= n_knots - degree - 1 {
            knots.push(n_knots - 2 * degree - 1);
        } else {
            knots.push(i - degree);
        }
    }
    knots
}

} // verus!
