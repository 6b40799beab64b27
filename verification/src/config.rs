//! Settings: the defaults of the vectorization configuration, the palette
//! sizes offered, and the names of formats and modes.
use vstd::prelude::*;

use crate::types::{BitmapFormat, Quality};

verus! {

/// Number of colors to quantize to by default.
pub fn default_color_count() -> (n: u16)
    ensures
        n == 12,
{
    12
}

/// The quality preset used by default.
pub fn default_quality() -> (q: Quality)
    ensures
        q == Quality::Custom,
{
    Quality::Custom
}

/// The path simplification mode used by default.
pub fn default_path_mode() -> (m: String)
    ensures
        m@ == "polygon"@,
{
    String::from_str("polygon")
}

/// Speckle filter used by default: patches smaller than 4x4 pixels are dropped.
pub fn default_speckle_filter() -> (n: u32)
    ensures
        n == 4,
{
    4
}

/// Significant bits per color channel used by default.
pub fn default_color_precision() -> (n: u32)
    ensures
        n == 6,
{
    6
}

/// Whether large images are resized before vectorization by default.
pub fn default_auto_resize() -> (b: bool)
    ensures
        b,
{
    true
}

/// Whether the path mode asks for smooth curves (`"spline"`) rather than polygons.
pub fn traces_splines(path_mode: &str) -> (b: bool)
    ensures
        b == (path_mode@ == "spline"@),
{
    let n = path_mode.unicode_len();
    if n != 6 {
        proof {
            reveal_strlit("spline");
        }
        return false;
    }
    let target = "spline";
    proof {
        reveal_strlit("spline");
    }
    let mut k: usize = 0;
    while k < 6
        invariant
            n == 6,
            path_mode@.len() == 6,
            target@ == "spline"@,
            target@.len() == 6,
            k <= 6,
            forall|j: int| 0 <= j < k ==> path_mode@[j] == target@[j],
        decreases 6 - k,
    {
        if path_mode.get_char(k) != target.get_char(k) {
            return false;
        }
        k = k + 1;
    }
    assert(path_mode@ =~= "spline"@);
    true
}

/// The palette sizes offered: those of 2, 4, 6, 8, 12 and 16 that are at most `max_colors`.
pub fn palette_sizes(max_colors: u16) -> (sizes: Vec<u16>)
    ensures
        sizes@ == seq![2u16, 4, 6, 8, 12, 16].filter(|c: u16| c <= max_colors),
{
    let all: [u16; 6] = [2, 4, 6, 8, 12, 16];
    let ghost s = seq![2u16, 4, 6, 8, 12, 16];
    let mut sizes: Vec<u16> = Vec::new();
    assert(s.take(0).filter(|c: u16| c <= max_colors) =~= Seq::<u16>::empty());
    for k in 0..6
        invariant
            all@ == s,
            s == seq![2u16, 4, 6, 8, 12, 16],
            sizes@ == s.take(k as int).filter(|c: u16| c <= max_colors),
    {
        let c = all[k];
        proof {
            assert(s.take(k + 1).drop_last() =~= s.take(k as int));
            reveal(Seq::filter);
        }
        if c <= max_colors {
            sizes.push(c);
        }
        proof {
            assert(s.take(k + 1).last() == c);
        }
    }
    assert(s.take(6) =~= s);
    sizes
}

/// The ASCII lowercase form of a character.
pub open spec fn ascii_lower(c: char) -> char {
    if 'A' <= c <= 'Z' {
        ((c as u32) + 32) as char
    } else {
        c
    }
}

/// `s` spells `word` (given in lowercase) with letters in any case.
pub open spec fn spells(s: Seq<char>, word: Seq<char>) -> bool {
    s.len() == word.len() && forall|i: int| 0 <= i < s.len() ==> ascii_lower(#[trigger] s[i]) == word[i]
}

fn lower(c: char) -> (l: char)
    ensures
        l == ascii_lower(c),
{
    if 'A' <= c && c <= 'Z' {
        ((c as u8) + 32) as char
    } else {
        c
    }
}

/// Whether `s` spells `word` with letters in any case.
pub(crate) fn spells_word(s: &str, word: &str) -> (b: bool)
    ensures
        b == spells(s@, word@),
{
    let n = s.unicode_len();
    if n != word.unicode_len() {
        return false;
    }
    let mut k: usize = 0;
    while k < n
        invariant
            n == s@.len(),
            n == word@.len(),
            k <= n,
            forall|j: int| 0 <= j < k ==> ascii_lower(#[trigger] s@[j]) == word@[j],
        decreases n - k,
    {
        if lower(s.get_char(k)) != word.get_char(k) {
            return false;
        }
        k = k + 1;
    }
    true
}

/// The bitmap format named by `format` (`png`, `bmp`, `jpg` or `jpeg`, letters
/// in any case; JPEG at quality 90), or the error for any other name.
pub fn parse_bitmap_format(format: &str) -> (r: Result<BitmapFormat, String>)
    ensures
        spells(format@, "png"@) ==> r == Ok::<BitmapFormat, String>(BitmapFormat::Png),
        spells(format@, "bmp"@) ==> r == Ok::<BitmapFormat, String>(BitmapFormat::Bmp),
        spells(format@, "jpg"@) || spells(format@, "jpeg"@) ==> r == Ok::<BitmapFormat, String>(
            BitmapFormat::Jpg(90),
        ),
        !(spells(format@, "png"@) || spells(format@, "bmp"@) || spells(format@, "jpg"@) || spells(
            format@,
            "jpeg"@,
        )) ==> (r matches Err(m) && m@ == "Unsupported bitmap format: "@ + format@),
{
    proof {
        reveal_strlit("png");
        reveal_strlit("bmp");
        reveal_strlit("jpg");
        reveal_strlit("jpeg");
        if spells(format@, "png"@) {
            assert(ascii_lower(format@[0]) == 'p');
        }
        if spells(format@, "bmp"@) {
            assert(ascii_lower(format@[0]) == 'b');
        }
    }
    if spells_word(format, "png") {
        Ok(BitmapFormat::Png)
    } else if spells_word(format, "bmp") {
        Ok(BitmapFormat::Bmp)
    } else if spells_word(format, "jpg") || spells_word(format, "jpeg") {
        Ok(BitmapFormat::Jpg(90))
    } else {
        let mut m = String::from_str("Unsupported bitmap format: ");
        m.append(format);
        Err(m)
    }
}

} // verus!
