//! Reads the live tmux colour theme so the sidebar matches the user's scheme.
//!
//! Colours are this crate's own `Color`, one variant per terminal colour the
//! renderer knows; the renderer maps them onto its backend's colours.
use vstd::prelude::*;

use crate::text::{
    all_digits, chars_eq, chars_of, digits_value, find_char, lemma_find_char_from_props,
    find_char_in, parse_digits, split_bounds, split_char, starts_with, starts_with_chars,
    string_of_range, sub_vec, trim_bounds, trim_ws,
};
use crate::sections::string_views;
use crate::tmux::{reply_text, run_words, Tmux};

verus! {

/// A terminal colour.
#[derive(Debug, Clone, Copy, PartialEq, Eq, Structural)]
pub enum Color {
    Reset,
    Black,
    Red,
    Green,
    Yellow,
    Blue,
    Magenta,
    Cyan,
    Gray,
    DarkGray,
    LightRed,
    LightGreen,
    LightYellow,
    LightBlue,
    LightMagenta,
    LightCyan,
    White,
    Rgb(u8, u8, u8),
    Indexed(u8),
}

/// A parsed tmux style: the colours it names and its attributes.
#[derive(Debug, Clone)]
pub struct Style {
    pub bg: Option<String>,
    pub fg: Option<String>,
    pub bold: bool,
    pub reverse: bool,
}

pub struct StyleView {
    pub bg: Option<Seq<char>>,
    pub fg: Option<Seq<char>>,
    pub bold: bool,
    pub reverse: bool,
}

pub open spec fn opt_view(o: Option<String>) -> Option<Seq<char>> {
    match o {
        Some(s) => Some(s@),
        None => None,
    }
}

impl View for Style {
    type V = StyleView;

    open spec fn view(&self) -> StyleView {
        StyleView { bg: opt_view(self.bg), fg: opt_view(self.fg), bold: self.bold, reverse: self.reverse }
    }
}

impl Default for Style {
    fn default() -> (r: Style)
        ensures
            r.bg is None,
            r.fg is None,
            !r.bold,
            !r.reverse,
    {
        Style { bg: None, fg: None, bold: false, reverse: false }
    }
}

pub open spec fn empty_style() -> StyleView {
    StyleView { bg: None, fg: None, bold: false, reverse: false }
}

/// One comma-separated part of a style: `bg=` and `fg=` set colours,
/// `bold` and `reverse` set attributes, anything else is ignored.
pub open spec fn style_step(s: StyleView, part: Seq<char>) -> StyleView {
    let p = trim_ws(part);
    let key = match find_char(p, '=') {
        Some(i) => p.take(i),
        None => p,
    };
    let val = match find_char(p, '=') {
        Some(i) => p.skip(i + 1),
        None => seq![],
    };
    if p.len() == 0 {
        s
    } else if key == "bg"@ {
        StyleView { bg: Some(val), ..s }
    } else if key == "fg"@ {
        StyleView { fg: Some(val), ..s }
    } else if key == "bold"@ {
        StyleView { bold: true, ..s }
    } else if key == "reverse"@ {
        StyleView { reverse: true, ..s }
    } else {
        s
    }
}

pub open spec fn style_parts(parts: Seq<Seq<char>>) -> StyleView
    decreases parts.len(),
{
    if parts.len() == 0 {
        empty_style()
    } else {
        style_step(style_parts(parts.drop_last()), parts.last())
    }
}

/// A tmux style string such as `bg=#1e1e2e,fg=white,bold`.
pub open spec fn parse_style_spec(raw: Seq<char>) -> StyleView {
    style_parts(split_char(raw, ','))
}

/// Parses a tmux style string.
pub fn parse_style(raw: &str) -> (r: Style)
    ensures
        r@ == parse_style_spec(raw@),
{
    let v = chars_of(raw);
    let bounds = split_bounds(v.as_slice(), ',');
    let ghost parts = split_char(v@, ',');
    let mut s = Style { bg: None, fg: None, bold: false, reverse: false };
    let mut k: usize = 0;
    assert(parts.take(0) =~= Seq::<Seq<char>>::empty());
    while k < bounds.len()
        invariant
            k <= bounds.len(),
            parts == split_char(v@, ','),
            v@ == raw@,
            bounds@.len() == parts.len(),
            forall|q: int|
                0 <= q < bounds@.len() ==> {
                    &&& (#[trigger] bounds@[q]).0 <= bounds@[q].1 <= v@.len()
                    &&& v@.subrange(bounds@[q].0 as int, bounds@[q].1 as int) == parts[q]
                },
            s@ == style_parts(parts.take(k as int)),
        decreases bounds.len() - k,
    {
        let (a, b) = bounds[k];
        let part = sub_vec(v.as_slice(), a, b);
        let (ta, tb) = trim_bounds(part.as_slice());
        let p = sub_vec(part.as_slice(), ta, tb);
        proof {
            let t = parts.take(k as int + 1);
            assert(t.drop_last() =~= parts.take(k as int));
            assert(t.last() == part@);
            lemma_find_char_from_props(p@, '=', 0);
        }
        if p.len() > 0 {
            let (key, val) = match find_char_in(p.as_slice(), '=', 0) {
                Some(i) => {
                    assert(p@.subrange(0, i as int) =~= p@.take(i as int));
                    assert(p@.subrange(i + 1, p@.len() as int) =~= p@.skip(i + 1));
                    (sub_vec(p.as_slice(), 0, i), string_of_range(p.as_slice(), i + 1, p.len()))
                },
                None => {
                    assert(p@.subrange(0, p@.len() as int) =~= p@);
                    (sub_vec(p.as_slice(), 0, p.len()), String::new())
                },
            };
            if chars_eq(key.as_slice(), chars_of("bg").as_slice()) {
                s.bg = Some(val);
            } else if chars_eq(key.as_slice(), chars_of("fg").as_slice()) {
                s.fg = Some(val);
            } else if chars_eq(key.as_slice(), chars_of("bold").as_slice()) {
                s.bold = true;
            } else if chars_eq(key.as_slice(), chars_of("reverse").as_slice()) {
                s.reverse = true;
            }
        }
        assert(s@ == style_parts(parts.take(k as int + 1)));
        k += 1;
    }
    assert(parts.take(bounds.len() as int) =~= parts);
    s
}

// ---------------------------------------------------------------------------
// Colours
// ---------------------------------------------------------------------------

pub open spec fn hex_value(c: char) -> Option<u8> {
    if '0' <= c && c <= '9' {
        Some(((c as u32) - ('0' as u32)) as u8)
    } else if 'a' <= c && c <= 'f' {
        Some(((c as u32) - ('a' as u32) + 10) as u8)
    } else if 'A' <= c && c <= 'F' {
        Some(((c as u32) - ('A' as u32) + 10) as u8)
    } else {
        None
    }
}

/// `u8::from_str_radix(.., 16)` on two characters: two hex digits, or a
/// `+` and one.
pub open spec fn hex_pair(a: char, b: char) -> Option<u8> {
    match (hex_value(a), hex_value(b)) {
        (Some(x), Some(y)) => Some((x * 16 + y) as u8),
        (None, Some(y)) => if a == '+' {
            Some(y)
        } else {
            None
        },
        _ => None,
    }
}

pub open spec fn is_ascii_char(c: char) -> bool {
    (c as u32) < 0x80
}

/// `#rrggbb`, six ASCII characters parsed by pairs.
pub open spec fn rgb_spec(t: Seq<char>) -> Option<Color> {
    if t.len() == 7 && t[0] == '#' && (forall|k: int| 1 <= k < 7 ==> is_ascii_char(#[trigger] t[k])) {
        match (hex_pair(t[1], t[2]), hex_pair(t[3], t[4]), hex_pair(t[5], t[6])) {
            (Some(r), Some(g), Some(b)) => Some(Color::Rgb(r, g, b)),
            _ => None,
        }
    } else {
        None
    }
}

/// `u8::from_str`: an optional `+`, then decimal digits, at most 255.
pub open spec fn parse_u8_spec(s: Seq<char>) -> Option<u8> {
    let d = if s.len() > 0 && s[0] == '+' {
        s.drop_first()
    } else {
        s
    };
    if all_digits(d) && digits_value(d) <= 255 {
        Some(digits_value(d) as u8)
    } else {
        None
    }
}

/// `colourN` or `colorN`, a palette index.
pub open spec fn indexed_spec(t: Seq<char>) -> Option<Color> {
    let n = if starts_with(t, "colour"@) {
        Some(t.skip("colour"@.len() as int))
    } else if starts_with(t, "color"@) {
        Some(t.skip("color"@.len() as int))
    } else {
        None
    };
    match n {
        Some(n) => match parse_u8_spec(n) {
            Some(v) => Some(Color::Indexed(v)),
            None => None,
        },
        None => None,
    }
}

/// The named colours tmux knows.
pub open spec fn named_spec(t: Seq<char>) -> Color {
    if t == "black"@ {
        Color::Black
    } else if t == "red"@ {
        Color::Red
    } else if t == "green"@ {
        Color::Green
    } else if t == "yellow"@ {
        Color::Yellow
    } else if t == "blue"@ {
        Color::Blue
    } else if t == "magenta"@ {
        Color::Magenta
    } else if t == "cyan"@ {
        Color::Cyan
    } else if t == "white"@ {
        Color::White
    } else if t == "brightblack"@ {
        Color::DarkGray
    } else if t == "brightred"@ {
        Color::LightRed
    } else if t == "brightgreen"@ {
        Color::LightGreen
    } else if t == "brightyellow"@ {
        Color::LightYellow
    } else if t == "brightblue"@ {
        Color::LightBlue
    } else if t == "brightmagenta"@ {
        Color::LightMagenta
    } else if t == "brightcyan"@ {
        Color::LightCyan
    } else if t == "brightwhite"@ {
        Color::Gray
    } else {
        Color::Reset
    }
}

/// The colour a tmux colour token names: `#rrggbb`, `colourN`, or a name;
/// anything else resets.
pub open spec fn color_spec(token: Seq<char>) -> Color {
    let t = trim_ws(token);
    match rgb_spec(t) {
        Some(c) => c,
        None => match indexed_spec(t) {
            Some(c) => c,
            None => named_spec(t),
        },
    }
}

/// Bytes of a character in UTF-8.
pub open spec fn utf8_char_len(c: char) -> nat {
    if (c as u32) < 0x80 {
        1
    } else if (c as u32) < 0x800 {
        2
    } else if (c as u32) < 0x10000 {
        3
    } else {
        4
    }
}

pub open spec fn utf8_len(s: Seq<char>) -> nat
    decreases s.len(),
{
    if s.len() == 0 {
        0
    } else {
        utf8_len(s.drop_last()) + utf8_char_len(s.last())
    }
}

/// Byte offset `b` falls between two characters of `s`.
pub open spec fn on_boundary(s: Seq<char>, b: nat) -> bool {
    exists|k: int| 0 <= k <= s.len() && #[trigger] utf8_len(s.take(k)) == b
}

/// The token's hexadecimal part can be cut into byte pairs: a six-byte part
/// after `#` must break between characters at bytes 2 and 4.
pub open spec fn color_token_ok(token: Seq<char>) -> bool {
    let t = trim_ws(token);
    t.len() > 0 && t[0] == '#' && utf8_len(t.skip(1)) == 6 ==> on_boundary(t.skip(1), 2)
        && on_boundary(t.skip(1), 4)
}

fn hex_digit_value(c: char) -> (r: Option<u8>)
    ensures
        r == hex_value(c),
{
    if '0' <= c && c <= '9' {
        Some((c as u32 - '0' as u32) as u8)
    } else if 'a' <= c && c <= 'f' {
        Some((c as u32 - 'a' as u32 + 10) as u8)
    } else if 'A' <= c && c <= 'F' {
        Some((c as u32 - 'A' as u32 + 10) as u8)
    } else {
        None
    }
}

fn parse_hex_pair(a: char, b: char) -> (r: Option<u8>)
    ensures
        r == hex_pair(a, b),
{
    match (hex_digit_value(a), hex_digit_value(b)) {
        (Some(x), Some(y)) => Some(x * 16 + y),
        (None, Some(y)) => if a == '+' {
            Some(y)
        } else {
            None
        },
        _ => None,
    }
}

fn parse_u8(v: &Vec<char>, from: usize) -> (r: Option<u8>)
    requires
        from <= v.len(),
    ensures
        r == parse_u8_spec(v@.skip(from as int)),
{
    let ghost s = v@.skip(from as int);
    let start = if from < v.len() && v[from] == '+' {
        from + 1
    } else {
        from
    };
    assert(v@.subrange(start as int, v@.len() as int) =~= if s.len() > 0 && s[0] == '+' {
        s.drop_first()
    } else {
        s
    });
    match parse_digits(v.as_slice(), start, v.len()) {
        Some(x) => if x <= 255 {
            Some(x as u8)
        } else {
            None
        },
        None => None,
    }
}

fn named_color(t: &Vec<char>) -> (r: Color)
    ensures
        r == named_spec(t@),
{
    let s = t.as_slice();
    if chars_eq(s, chars_of("black").as_slice()) {
        Color::Black
    } else if chars_eq(s, chars_of("red").as_slice()) {
        Color::Red
    } else if chars_eq(s, chars_of("green").as_slice()) {
        Color::Green
    } else if chars_eq(s, chars_of("yellow").as_slice()) {
        Color::Yellow
    } else if chars_eq(s, chars_of("blue").as_slice()) {
        Color::Blue
    } else if chars_eq(s, chars_of("magenta").as_slice()) {
        Color::Magenta
    } else if chars_eq(s, chars_of("cyan").as_slice()) {
        Color::Cyan
    } else if chars_eq(s, chars_of("white").as_slice()) {
        Color::White
    } else if chars_eq(s, chars_of("brightblack").as_slice()) {
        Color::DarkGray
    } else if chars_eq(s, chars_of("brightred").as_slice()) {
        Color::LightRed
    } else if chars_eq(s, chars_of("brightgreen").as_slice()) {
        Color::LightGreen
    } else if chars_eq(s, chars_of("brightyellow").as_slice()) {
        Color::LightYellow
    } else if chars_eq(s, chars_of("brightblue").as_slice()) {
        Color::LightBlue
    } else if chars_eq(s, chars_of("brightmagenta").as_slice()) {
        Color::LightMagenta
    } else if chars_eq(s, chars_of("brightcyan").as_slice()) {
        Color::LightCyan
    } else if chars_eq(s, chars_of("brightwhite").as_slice()) {
        Color::Gray
    } else {
        Color::Reset
    }
}

fn trimmed_chars(token: &str) -> (r: Vec<char>)
    ensures
        r@ == trim_ws(token@),
{
    let v = chars_of(token);
    let (a, b) = trim_bounds(v.as_slice());
    sub_vec(v.as_slice(), a, b)
}

/// Maps a tmux colour token to a colour. A six-byte hexadecimal part that
/// does not break between characters at bytes 2 and 4 is left out: cutting
/// it into byte pairs would split a character.
pub fn parse_color(token: &str) -> (r: Color)
    requires
        color_token_ok(token@),
    ensures
        r == color_spec(token@),
{
    let t = trimmed_chars(token);
    if t.len() == 7 && t[0] == '#' && (t[1] as u32) < 0x80 && (t[2] as u32) < 0x80 && (t[3] as u32)
        < 0x80 && (t[4] as u32) < 0x80 && (t[5] as u32) < 0x80 && (t[6] as u32) < 0x80 {
        match (parse_hex_pair(t[1], t[2]), parse_hex_pair(t[3], t[4]), parse_hex_pair(t[5], t[6])) {
            (Some(r), Some(g), Some(b)) => {
                return Color::Rgb(r, g, b);
            },
            _ => {},
        }
    }
    assert(rgb_spec(t@) is None);
    let p1 = chars_of("colour");
    let p2 = chars_of("color");
    if starts_with_chars(t.as_slice(), p1.as_slice()) {
        if let Some(v) = parse_u8(&t, p1.len()) {
            return Color::Indexed(v);
        }
    } else if starts_with_chars(t.as_slice(), p2.as_slice()) {
        if let Some(v) = parse_u8(&t, p2.len()) {
            return Color::Indexed(v);
        }
    }
    named_color(&t)
}

/// Whether cutting the token's hexadecimal part into byte pairs is safe.
pub fn color_token_is_ok(token: &str) -> (r: bool)
    ensures
        r == color_token_ok(token@),
{
    let t = trimmed_chars(token);
    if !(t.len() > 0 && t[0] == '#') {
        return true;
    }
    let h = sub_vec(t.as_slice(), 1, t.len());
    assert(h@ =~= t@.skip(1));
    let mut bytes: u64 = 0;
    let mut at2 = false;
    let mut at4 = false;
    let mut k: usize = 0;
    assert(h@.take(0) =~= Seq::<char>::empty());
    while k < h.len() && bytes <= 6
        invariant
            k <= h.len(),
            bytes == utf8_len(h@.take(k as int)),
            bytes <= 10,
            at2 == exists|q: int| 0 <= q <= k && #[trigger] utf8_len(h@.take(q)) == 2,
            at4 == exists|q: int| 0 <= q <= k && #[trigger] utf8_len(h@.take(q)) == 4,
        decreases h.len() - k,
    {
        let c = h[k];
        let cu = c as u32;
        let w: u64 = if cu < 0x80 {
            1
        } else if cu < 0x800 {
            2
        } else if cu < 0x10000 {
            3
        } else {
            4
        };
        proof {
            assert(h@.take(k as int + 1).drop_last() =~= h@.take(k as int));
            assert(h@.take(k as int + 1).last() == c);
        }
        bytes = bytes + w;
        assert(utf8_len(h@.take(k as int + 1)) == bytes);
        if bytes == 2 {
            at2 = true;
        }
        if bytes == 4 {
            at4 = true;
        }
        k += 1;
    }
    if bytes > 6 {
        proof {
            lemma_utf8_len_prefix(h@, k as int);
        }
        return true;
    }
    assert(h@.take(h.len() as int) =~= h@);
    bytes != 6 || (at2 && at4)
}

proof fn lemma_utf8_len_prefix(s: Seq<char>, k: int)
    requires
        0 <= k <= s.len(),
    ensures
        utf8_len(s.take(k)) <= utf8_len(s),
    decreases s.len() - k,
{
    if k < s.len() {
        lemma_utf8_len_prefix(s, k + 1);
        assert(s.take(k + 1).drop_last() =~= s.take(k));
    } else {
        assert(s.take(k) =~= s);
    }
}

/// Like `parse_color`, but a token `parse_color` leaves out reads as
/// `Color::Reset`.
pub open spec fn color_or_reset(token: Seq<char>) -> Color {
    if color_token_ok(token) {
        color_spec(token)
    } else {
        Color::Reset
    }
}

fn color_of(token: &String) -> (r: Color)
    ensures
        r == color_or_reset(token@),
{
    if color_token_is_ok(token.as_str()) {
        parse_color(token.as_str())
    } else {
        Color::Reset
    }
}

// ---------------------------------------------------------------------------
// The theme
// ---------------------------------------------------------------------------

#[derive(Debug, Clone)]
pub struct Theme {
    pub bg: Color,
    pub fg: Color,
    pub active_bg: Color,
    pub active_fg: Color,
    pub active_bold: bool,
    pub bell_bg: Color,
    pub bell_fg: Color,
}

impl Default for Theme {
    /// The built-in theme: mint background, black text, a dark active row
    /// with amber bold text, and red bell rows with white text.
    fn default() -> (r: Theme)
        ensures
            r.bg == Color::Rgb(0x94, 0xcd, 0xba),
            r.fg == Color::Black,
            r.active_bg == Color::Rgb(0x29, 0x2e, 0x42),
            r.active_fg == Color::Rgb(0xe0, 0xaf, 0x68),
            r.active_bold,
            r.bell_bg == Color::Red,
            r.bell_fg == Color::White,
    {
        Theme {
            bg: Color::Rgb(0x94, 0xcd, 0xba),
            fg: Color::Black,
            active_bg: Color::Rgb(0x29, 0x2e, 0x42),
            active_fg: Color::Rgb(0xe0, 0xaf, 0x68),
            active_bold: true,
            bell_bg: Color::Red,
            bell_fg: Color::White,
        }
    }
}

/// A style's colours over a base style and defaults: each colour from the
/// style, else the base, else the default; `reverse` swaps them.
pub open spec fn resolve_spec(style: StyleView, base: StyleView, def_bg: Color, def_fg: Color) -> (Color, Color) {
    let bg = match style.bg {
        Some(s) => color_or_reset(s),
        None => match base.bg {
            Some(s) => color_or_reset(s),
            None => def_bg,
        },
    };
    let fg = match style.fg {
        Some(s) => color_or_reset(s),
        None => match base.fg {
            Some(s) => color_or_reset(s),
            None => def_fg,
        },
    };
    if style.reverse {
        (fg, bg)
    } else {
        (bg, fg)
    }
}

pub fn resolve(style: &Style, base: &Style, def_bg: Color, def_fg: Color) -> (r: (Color, Color))
    ensures
        r == resolve_spec(style@, base@, def_bg, def_fg),
{
    let bg = match &style.bg {
        Some(s) => color_of(s),
        None => match &base.bg {
            Some(s) => color_of(s),
            None => def_bg,
        },
    };
    let fg = match &style.fg {
        Some(s) => color_of(s),
        None => match &base.fg {
            Some(s) => color_of(s),
            None => def_fg,
        },
    };
    if style.reverse {
        (fg, bg)
    } else {
        (bg, fg)
    }
}

pub struct ThemeView {
    pub bg: Color,
    pub fg: Color,
    pub active_bg: Color,
    pub active_fg: Color,
    pub active_bold: bool,
    pub bell_bg: Color,
    pub bell_fg: Color,
}

impl View for Theme {
    type V = ThemeView;

    open spec fn view(&self) -> ThemeView {
        ThemeView {
            bg: self.bg,
            fg: self.fg,
            active_bg: self.active_bg,
            active_fg: self.active_fg,
            active_bold: self.active_bold,
            bell_bg: self.bell_bg,
            bell_fg: self.bell_fg,
        }
    }
}

/// The sidebar theme from the window, current-window, bell and status
/// styles: the status style is the base of the others; a current style
/// naming no colour keeps the built-in active colours and turns bold on.
pub open spec fn theme_spec(normal: StyleView, current: StyleView, bell: StyleView, status: StyleView) -> ThemeView {
    let n = resolve_spec(normal, status, Color::Rgb(0x94, 0xcd, 0xba), Color::Black);
    let plain_current = current.bg is None && current.fg is None;
    let a = if plain_current {
        (Color::Rgb(0x29, 0x2e, 0x42), Color::Rgb(0xe0, 0xaf, 0x68))
    } else {
        resolve_spec(current, status, Color::Rgb(0x29, 0x2e, 0x42), Color::Rgb(0xe0, 0xaf, 0x68))
    };
    let b = resolve_spec(bell, status, Color::Red, Color::White);
    ThemeView {
        bg: n.0,
        fg: n.1,
        active_bg: a.0,
        active_fg: a.1,
        active_bold: plain_current || current.bold,
        bell_bg: b.0,
        bell_fg: b.1,
    }
}

/// The theme the four tmux styles make.
pub fn theme_from_styles(normal: &Style, current: &Style, bell: &Style, status: &Style) -> (r: Theme)
    ensures
        r@ == theme_spec(normal@, current@, bell@, status@),
{
    let def = Theme::default();
    let (bg, fg) = resolve(normal, status, def.bg, def.fg);
    let plain_current = current.bg.is_none() && current.fg.is_none();
    let (active_bg, active_fg) = if plain_current {
        (def.active_bg, def.active_fg)
    } else {
        resolve(current, status, def.active_bg, def.active_fg)
    };
    let (bell_bg, bell_fg) = resolve(bell, status, def.bell_bg, def.bell_fg);
    Theme {
        bg,
        fg,
        active_bg,
        active_fg,
        active_bold: plain_current || current.bold,
        bell_bg,
        bell_fg,
    }
}

/// The bell rows take their colours from `window-status-bell-style` over
/// `status-style`, red and white by default, whatever the window and
/// current-window styles say: a bell colour the style names is used as it
/// is (swapped when the style reverses), and with neither style naming a
/// colour the rows are red with white text.
pub proof fn lemma_bell_colours_from_bell_style(
    normal: StyleView,
    current: StyleView,
    bell: StyleView,
    status: StyleView,
    other_normal: StyleView,
    other_current: StyleView,
)
    ensures
        (theme_spec(normal, current, bell, status).bell_bg, theme_spec(normal, current, bell, status).bell_fg)
            == resolve_spec(bell, status, Color::Red, Color::White),
        theme_spec(normal, current, bell, status).bell_bg == theme_spec(other_normal, other_current, bell, status).bell_bg,
        theme_spec(normal, current, bell, status).bell_fg == theme_spec(other_normal, other_current, bell, status).bell_fg,
        !bell.reverse && bell.bg is Some ==> theme_spec(normal, current, bell, status).bell_bg == color_or_reset(bell.bg->0),
        !bell.reverse && bell.fg is Some ==> theme_spec(normal, current, bell, status).bell_fg == color_or_reset(bell.fg->0),
        bell.reverse && bell.bg is Some ==> theme_spec(normal, current, bell, status).bell_fg == color_or_reset(bell.bg->0),
        bell.reverse && bell.fg is Some ==> theme_spec(normal, current, bell, status).bell_bg == color_or_reset(bell.fg->0),
        !bell.reverse && bell.bg is None && bell.fg is None && status.bg is None && status.fg is None ==> (
        theme_spec(normal, current, bell, status).bell_bg == Color::Red && theme_spec(normal, current, bell, status).bell_fg
            == Color::White),
{
}

/// The window rows take their colours from `window-status-style` over
/// `status-style` (mint and black by default); the current window's row
/// from `window-status-current-style` over `status-style`, except that a
/// current style naming no colour keeps the built-in dark row with amber
/// bold text.
pub proof fn lemma_row_colours_from_their_styles(
    normal: StyleView,
    current: StyleView,
    bell: StyleView,
    status: StyleView,
)
    ensures
        (theme_spec(normal, current, bell, status).bg, theme_spec(normal, current, bell, status).fg)
            == resolve_spec(normal, status, Color::Rgb(0x94, 0xcd, 0xba), Color::Black),
        current.bg is None && current.fg is None ==> (theme_spec(normal, current, bell, status).active_bg
            == Color::Rgb(0x29, 0x2e, 0x42) && theme_spec(normal, current, bell, status).active_fg == Color::Rgb(
            0xe0,
            0xaf,
            0x68,
        ) && theme_spec(normal, current, bell, status).active_bold),
        !(current.bg is None && current.fg is None) ==> ((
            theme_spec(normal, current, bell, status).active_bg,
            theme_spec(normal, current, bell, status).active_fg,
        ) == resolve_spec(current, status, Color::Rgb(0x29, 0x2e, 0x42), Color::Rgb(0xe0, 0xaf, 0x68))
            && theme_spec(normal, current, bell, status).active_bold == current.bold),
{
}

/// `show-options -gv <key>`: a global option's value.
pub open spec fn style_option_command_spec(key: Seq<char>) -> Seq<Seq<char>> {
    seq!["show-options"@, "-gv"@, key]
}

/// The command that reads a style option.
pub fn style_option_command(key: &str) -> (r: Vec<String>)
    ensures
        string_views(r@) == style_option_command_spec(key@),
{
    let r = vec![String::from_str("show-options"), String::from_str("-gv"), String::from_str(key)];
    assert(string_views(r@) =~= style_option_command_spec(key@));
    r
}

/// A style option as tmux reports it (`style_option_command`), parsed by
/// `parse_style`.
fn style_option<T: Tmux>(t: &T, key: &str) -> (r: Style)
    ensures
        exists|raw: Seq<char>| #[trigger] parse_style_spec(raw) == r@,
{
    let raw = reply_text(run_words(t, &style_option_command(key)));
    let s = parse_style(raw.as_str());
    assert(parse_style_spec(raw@) == s@);
    s
}

/// Reads the window, current-window, bell and status styles from tmux
/// (`style_option_command`), put together by `theme_from_styles`; a style
/// tmux does not report reads as empty.
pub fn load_theme<T: Tmux>(t: &T) -> (r: Theme)
    ensures
        exists|n: Seq<char>, c: Seq<char>, b: Seq<char>, s: Seq<char>|
            #[trigger] theme_spec(
                parse_style_spec(n),
                parse_style_spec(c),
                parse_style_spec(b),
                parse_style_spec(s),
            ) == r@,
{
    let normal = style_option(t, "window-status-style");
    let current = style_option(t, "window-status-current-style");
    let bell = style_option(t, "window-status-bell-style");
    let status = style_option(t, "status-style");
    let ghost n = choose|raw: Seq<char>| #[trigger] parse_style_spec(raw) == normal@;
    let ghost c = choose|raw: Seq<char>| #[trigger] parse_style_spec(raw) == current@;
    let ghost b = choose|raw: Seq<char>| #[trigger] parse_style_spec(raw) == bell@;
    let ghost s = choose|raw: Seq<char>| #[trigger] parse_style_spec(raw) == status@;
    let r = theme_from_styles(&normal, &current, &bell, &status);
    assert(theme_spec(parse_style_spec(n), parse_style_spec(c), parse_style_spec(b), parse_style_spec(s)) == r@);
    r
}

} // verus!
