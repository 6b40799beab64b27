//! Splitting SVG path data into command letters and numbers.
use vstd::prelude::*;

use crate::text::push_char;

verus! {

broadcast use vstd::string::axiom_spec_iter;

/// An ASCII decimal digit.
pub open spec fn is_ascii_digit(c: char) -> bool {
    '0' <= c <= '9'
}

/// An ASCII letter.
pub open spec fn is_ascii_alpha(c: char) -> bool {
    ('a' <= c <= 'z') || ('A' <= c <= 'Z')
}

/// A character with the Unicode `White_Space` property.
pub open spec fn is_white_space(c: char) -> bool {
    ||| '\u{9}' <= c <= '\u{d}'
    ||| c == ' '
    ||| c == '\u{85}'
    ||| c == '\u{a0}'
    ||| c == '\u{1680}'
    ||| '\u{2000}' <= c <= '\u{200a}'
    ||| c == '\u{2028}'
    ||| c == '\u{2029}'
    ||| c == '\u{202f}'
    ||| c == '\u{205f}'
    ||| c == '\u{3000}'
}

/// The length of the run of digits at the start of `s`, with at most one
/// decimal point in it (none if `has_dot`).
pub open spec fn number_body_len(s: Seq<char>, has_dot: bool) -> nat
    decreases s.len(),
{
    if s.len() == 0 {
        0
    } else if is_ascii_digit(s[0]) {
        1 + number_body_len(s.drop_first(), has_dot)
    } else if s[0] == '.' && !has_dot {
        1 + number_body_len(s.drop_first(), true)
    } else {
        0
    }
}

/// The length of the number at the start of `s`: an optional sign, then a
/// run of digits with at most one decimal point.
pub open spec fn number_len(s: Seq<char>) -> nat {
    if s.len() > 0 && (s[0] == '-' || s[0] == '+') {
        1 + number_body_len(s.drop_first(), false)
    } else {
        number_body_len(s, false)
    }
}

/// The tokens of SVG path data: each ASCII letter on its own, and each
/// number (an optional sign and digits with at most one decimal point) that
/// is more than a lone sign or point; whitespace, commas and other
/// characters separate tokens and are dropped.
pub open spec fn svg_tokens(s: Seq<char>) -> Seq<Seq<char>>
    decreases s.len(),
{
    if s.len() == 0 {
        Seq::empty()
    } else {
        let ch = s[0];
        if is_white_space(ch) || ch == ',' {
            svg_tokens(s.drop_first())
        } else if is_ascii_alpha(ch) {
            seq![seq![ch]] + svg_tokens(s.drop_first())
        } else if ch == '-' || ch == '+' || ch == '.' || is_ascii_digit(ch) {
            let len = number_len(s);
            let num = s.take(len as int);
            proof {
                lemma_number_len_bound(s);
            }
            if len == 0 {
                svg_tokens(s.drop_first())
            } else if num != seq!['-'] && num != seq!['+'] && num != seq!['.'] {
                seq![num] + svg_tokens(s.skip(len as int))
            } else {
                svg_tokens(s.skip(len as int))
            }
        } else {
            svg_tokens(s.drop_first())
        }
    }
}

/// The text of each token.
pub open spec fn token_views(tokens: Seq<String>) -> Seq<Seq<char>> {
    tokens.map_values(|t: String| t@)
}

pub proof fn lemma_number_body_len_bound(s: Seq<char>, has_dot: bool)
    ensures
        number_body_len(s, has_dot) <= s.len(),
    decreases s.len(),
{
    if s.len() > 0 {
        lemma_number_body_len_bound(s.drop_first(), true);
        lemma_number_body_len_bound(s.drop_first(), has_dot);
    }
}

pub proof fn lemma_number_len_bound(s: Seq<char>)
    ensures
        number_len(s) <= s.len(),
{
    lemma_number_body_len_bound(s, false);
    if s.len() > 0 {
        lemma_number_body_len_bound(s.drop_first(), false);
    }
}

/// The characters of `d`, in order.
fn chars_of(d: &str) -> (cs: Vec<char>)
    ensures
        cs@ == d@,
{
    let mut cs: Vec<char> = Vec::new();
    for c in it: d.chars()
        invariant
            cs@ == it.seq().take(it.index() as int),
    {
        cs.push(c);
    }
    cs
}

/// Whether `c` has the Unicode `White_Space` property.
fn white_space(c: char) -> (b: bool)
    ensures
        b == is_white_space(c),
{
    ('\u{9}' <= c && c <= '\u{d}') || c == ' ' || c == '\u{85}' || c == '\u{a0}' || c == '\u{1680}'
        || ('\u{2000}' <= c && c <= '\u{200a}') || c == '\u{2028}' || c == '\u{2029}' || c
        == '\u{202f}' || c == '\u{205f}' || c == '\u{3000}'
}

fn ascii_digit(c: char) -> (b: bool)
    ensures
        b == is_ascii_digit(c),
{
    '0' <= c && c <= '9'
}

fn ascii_alpha(c: char) -> (b: bool)
    ensures
        b == is_ascii_alpha(c),
{
    ('a' <= c && c <= 'z') || ('A' <= c && c <= 'Z')
}

/// Tokenize an SVG path string into commands and numbers.
pub fn tokenize_svg_path(d: &str) -> (tokens: Vec<String>)
    ensures
        token_views(tokens@) == svg_tokens(d@),
{
    let cs = chars_of(d);
    let n = cs.len();
    let ghost s = cs@;
    let mut tokens: Vec<String> = Vec::new();
    let mut i: usize = 0;
    proof {
        assert(s.skip(0) =~= s);
        assert(token_views(tokens@) =~= Seq::<Seq<char>>::empty());
    }
    while i < n
        invariant
            s == cs@,
            n == s.len(),
            i <= n,
            token_views(tokens@) + svg_tokens(s.skip(i as int)) == svg_tokens(s),
        decreases n - i,
    {
        let ghost rest = s.skip(i as int);
        let ghost t0 = tokens@;
        let ch = cs[i];
        assert(rest[0] == ch);
        assert(rest.drop_first() =~= s.skip(i + 1));
        if white_space(ch) || ch == ',' {
            i = i + 1;
        } else if ascii_alpha(ch) {
            let mut t = String::new();
            push_char(&mut t, ch);
            tokens.push(t);
            proof {
                assert(token_views(tokens@) =~= token_views(t0).push(seq![ch]));
                assert(token_views(t0) + svg_tokens(rest) == token_views(t0) + (seq![seq![ch]] + svg_tokens(
                    s.skip(i + 1),
                )));
                assert(token_views(tokens@) + svg_tokens(s.skip(i + 1)) =~= token_views(t0) + (seq![seq![ch]]
                    + svg_tokens(s.skip(i + 1))));
            }
            i = i + 1;
        } else if ch == '-' || ch == '+' || ch == '.' || ascii_digit(ch) {
            let start = i;
            let mut num = String::new();
            if ch == '-' || ch == '+' {
                push_char(&mut num, ch);
                i = i + 1;
            }
            let body = i;
            let mut has_dot = false;
            proof {
                if ch == '-' || ch == '+' {
                    assert(rest.drop_first() =~= s.skip(body as int));
                } else {
                    assert(rest =~= s.skip(body as int));
                }
                assert(num@ =~= s.subrange(start as int, i as int));
            }
            while i < n
                invariant
                    s == cs@,
                    n == s.len(),
                    start <= body <= i <= n,
                    num@ == s.subrange(start as int, i as int),
                    (i - body) + number_body_len(s.skip(i as int), has_dot) == number_body_len(
                        s.skip(body as int),
                        false,
                    ),
                ensures
                    start <= body <= i <= n,
                    num@ == s.subrange(start as int, i as int),
                    (i - body) + number_body_len(s.skip(i as int), has_dot) == number_body_len(
                        s.skip(body as int),
                        false,
                    ),
                    i == n || !(is_ascii_digit(s[i as int]) || (s[i as int] == '.' && !has_dot)),
                decreases n - i,
            {
                let c = cs[i];
                assert(s.skip(i as int)[0] == c);
                assert(s.skip(i as int).drop_first() =~= s.skip(i + 1));
                if ascii_digit(c) {
                    push_char(&mut num, c);
                    i = i + 1;
                } else if c == '.' && !has_dot {
                    has_dot = true;
                    push_char(&mut num, c);
                    i = i + 1;
                } else {
                    break;
                }
                assert(num@ =~= s.subrange(start as int, i as int));
            }
            proof {
                if i < n {
                    assert(s.skip(i as int)[0] == s[i as int]);
                } else {
                    assert(s.skip(i as int).len() == 0);
                }
                assert(number_body_len(s.skip(i as int), has_dot) == 0);
                let len = number_len(rest);
                assert(len == i - start);
                assert(rest.take(len as int) =~= num@);
                assert(rest.skip(len as int) =~= s.skip(i as int));
            }
            if i > start && !is_lone(&num) {
                let ghost nv = num@;
                tokens.push(num);
                proof {
                    assert(token_views(tokens@) =~= token_views(t0).push(nv));
                    assert(token_views(tokens@) + svg_tokens(s.skip(i as int)) =~= token_views(t0) + (
                    seq![nv] + svg_tokens(s.skip(i as int))));
                }
            }
        } else {
            i = i + 1;
        }
    }
    proof {
        assert(s.skip(n as int) =~= Seq::<char>::empty());
        assert(token_views(tokens@) + Seq::<Seq<char>>::empty() =~= token_views(tokens@));
    }
    tokens
}

/// Whether `num` is a lone sign or decimal point.
fn is_lone(num: &String) -> (b: bool)
    requires
        num@.len() > 0,
    ensures
        b == (num@ == seq!['-'] || num@ == seq!['+'] || num@ == seq!['.']),
{
    if num.unicode_len() != 1 {
        assert(num@.len() != 1);
        return false;
    }
    let c = num.as_str().get_char(0);
    assert(num@ =~= seq![c]);
    c == '-' || c == '+' || c == '.'
}

/// Whether a token starts like a number: with a digit, a sign or a decimal point.
pub fn is_number(s: &str) -> (b: bool)
    ensures
        b == (s@.len() > 0 && (is_ascii_digit(s@[0]) || s@[0] == '-' || s@[0] == '+' || s@[0] == '.')),
{
    if s.unicode_len() == 0 {
        return false;
    }
    let c = s.get_char(0);
    ascii_digit(c) || c == '-' || c == '+' || c == '.'
}

} // verus!
