//! The pure parts of drawing a sidebar row: fitting text to the row's width
//! in terminal cells, and picking the row's colours.
use vstd::prelude::*;

use crate::layout::LineStyle;
use crate::text::{chars_of, push_char};
use crate::theme::{Color, Theme, ThemeView};

verus! {

/// `UnicodeWidthChar::width`: the columns a character takes, `None` for
/// control characters.
pub uninterp spec fn char_width(c: char) -> Option<usize>;

/// `UnicodeWidthStr::width`: the columns a string takes.
pub uninterp spec fn str_width(s: Seq<char>) -> usize;

/// `unicode_width::UnicodeWidthChar::width`. Its result is the crate's
/// width table entry for the character; what this states besides the name
/// is what the crate's source shows directly: C0 and C1 control codes have
/// no width, printable ASCII is one column, and no entry exceeds three.
#[verifier::external_body]
fn unicode_char_width(c: char) -> (r: Option<usize>)
    ensures
        r == char_width(c),
        c < ' ' ==> r is None,
        ' ' <= c && c < '\u{7f}' ==> r == Some(1usize),
        '\u{7f}' <= c && c < '\u{a0}' ==> r is None,
        r matches Some(w) ==> w <= 3,
{
    unicode_width::UnicodeWidthChar::width(c)
}

/// `unicode_width::UnicodeWidthStr::width`: the columns the whole string
/// takes, which may differ from the sum of its characters' widths (emoji
/// sequences, for one). Only the name is claimed.
#[verifier::external_body]
fn unicode_str_width(s: &str) -> (r: usize)
    ensures
        r == str_width(s@),
{
    unicode_width::UnicodeWidthStr::width(s)
}

pub open spec fn width_or_zero(w: Option<usize>) -> int {
    match w {
        Some(w) => w as int,
        None => 0,
    }
}

/// How many leading characters fit in `width` cells, counting from `k`
/// with `cells` already used.
pub open spec fn fitting_chars(text: Seq<char>, width: int, cells: int, k: int) -> int
    decreases text.len() - k,
{
    if k < 0 || k >= text.len() {
        k
    } else if cells + width_or_zero(char_width(text[k])) > width {
        k
    } else {
        fitting_chars(text, width, cells + width_or_zero(char_width(text[k])), k + 1)
    }
}

/// `text` cut to the characters that fit in `width` cells, then padded
/// with spaces up to `width` cells as measured for the cut text.
pub open spec fn pad_spec(text: Seq<char>, width: usize) -> Seq<char> {
    let kept = text.take(fitting_chars(text, width as int, 0, 0));
    let used = str_width(kept);
    kept + Seq::new(
        if used < width {
            (width - used) as nat
        } else {
            0
        },
        |i: int| ' ',
    )
}

/// Pads `text` with spaces to `width` display cells, cutting wide content on
/// cell boundaries.
pub fn pad(text: &str, width: usize) -> (r: String)
    ensures
        r@ == pad_spec(text@, width),
{
    let v = chars_of(text);
    let mut out = String::new();
    let mut cells: usize = 0;
    let mut k: usize = 0;
    let mut full = false;
    while k < v.len() && !full
        invariant
            k <= v.len(),
            cells <= width,
            out@ == v@.take(k as int),
            fitting_chars(v@, width as int, 0, 0) == fitting_chars(v@, width as int, cells as int, k as int),
            full ==> fitting_chars(v@, width as int, cells as int, k as int) == k,
        decreases (v.len() - k) * 2 + (if full { 0int } else { 1int }),
    {
        let w = match unicode_char_width(v[k]) {
            Some(w) => w,
            None => 0,
        };
        if cells as u128 + w as u128 > width as u128 {
            full = true;
        } else {
            push_char(&mut out, v[k]);
            assert(v@.take(k as int + 1) =~= v@.take(k as int).push(v@[k as int]));
            cells = cells + w;
            k += 1;
        }
    }
    let ghost kept = out@;
    assert(kept == v@.take(fitting_chars(v@, width as int, 0, 0)));
    let used = unicode_str_width(out.as_str());
    let mut i = used;
    while i < width
        invariant
            used <= i <= width || (used > width && i == used),
            out@ == kept + Seq::new((i - used) as nat, |j: int| ' '),
        decreases width - i,
    {
        push_char(&mut out, ' ');
        assert(out@ =~= kept + Seq::new((i + 1 - used) as nat, |j: int| ' '));
        i += 1;
    }
    assert(out@ =~= pad_spec(text@, width));
    out
}

/// The background, foreground, bold and dim of a row: window names are
/// bold and take the active or bell colours; details, PR rows and menu
/// entries are dim.
pub open spec fn colors_spec(style: LineStyle, t: ThemeView) -> (Color, Color, bool, bool) {
    match style {
        LineStyle::Blank => (t.bg, t.fg, false, false),
        LineStyle::Group => (t.bg, t.fg, true, false),
        LineStyle::WindowName { active, bell } => if active {
            (t.active_bg, t.active_fg, true, false)
        } else if bell {
            (t.bell_bg, t.bell_fg, true, false)
        } else {
            (t.bg, t.fg, true, false)
        },
        LineStyle::Detail { active, bell } => (if active {
            t.active_bg
        } else if bell {
            t.bell_bg
        } else {
            t.bg
        }, t.fg, false, true),
        LineStyle::Pr { active, bell, state: _ } => (if active {
            t.active_bg
        } else if bell {
            t.bell_bg
        } else {
            t.bg
        }, t.fg, false, true),
        LineStyle::Action => (t.bg, t.fg, false, true),
    }
}

/// The colours and attributes of a row.
pub fn colors_for(style: LineStyle, theme: &Theme) -> (r: (Color, Color, bool, bool))
    ensures
        r == colors_spec(style, theme@),
{
    match style {
        LineStyle::Blank => (theme.bg, theme.fg, false, false),
        LineStyle::Group => (theme.bg, theme.fg, true, false),
        LineStyle::WindowName { active, bell } => {
            if active {
                (theme.active_bg, theme.active_fg, true, false)
            } else if bell {
                (theme.bell_bg, theme.bell_fg, true, false)
            } else {
                (theme.bg, theme.fg, true, false)
            }
        },
        LineStyle::Detail { active, bell } => {
            let bg = if active {
                theme.active_bg
            } else if bell {
                theme.bell_bg
            } else {
                theme.bg
            };
            (bg, theme.fg, false, true)
        },
        LineStyle::Pr { active, bell, state: _ } => {
            let bg = if active {
                theme.active_bg
            } else if bell {
                theme.bell_bg
            } else {
                theme.bg
            };
            (bg, theme.fg, false, true)
        },
        LineStyle::Action => (theme.bg, theme.fg, false, true),
    }
}

} // verus!
