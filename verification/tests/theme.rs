use std::io;

use tmux_tabs::layout::LineStyle;
use tmux_tabs::model::PrState;
use tmux_tabs::runtime::{colors_for, pad};
use tmux_tabs::theme::{
    color_token_is_ok, load_theme, parse_color, parse_style, resolve, style_option_command,
    theme_from_styles, Color,
    Style, Theme,
};
use tmux_tabs::tmux::Tmux;

#[test]
fn colour_tokens_map_to_colours() {
    assert_eq!(parse_color("#94cdba"), Color::Rgb(0x94, 0xcd, 0xba));
    assert_eq!(parse_color("  #FFaa00 "), Color::Rgb(0xff, 0xaa, 0x00));
    assert_eq!(parse_color("#+f+f+f"), Color::Rgb(15, 15, 15));
    assert_eq!(parse_color("#12345"), Color::Reset);
    assert_eq!(parse_color("#12345g"), Color::Reset);
    assert_eq!(parse_color("colour42"), Color::Indexed(42));
    assert_eq!(parse_color("color7"), Color::Indexed(7));
    assert_eq!(parse_color("colour256"), Color::Reset);
    assert_eq!(parse_color("brightblack"), Color::DarkGray);
    assert_eq!(parse_color("brightwhite"), Color::Gray);
    assert_eq!(parse_color("white"), Color::White);
    assert_eq!(parse_color("default"), Color::Reset);
}

#[test]
fn hex_parts_that_would_split_a_character_are_flagged() {
    assert!(color_token_is_ok("#94cdba"));
    assert!(color_token_is_ok("#ééé"));
    assert!(!color_token_is_ok("#aéabc"));
    assert_eq!(parse_color("#ééé"), Color::Reset);
}

#[test]
fn styles_parse_colours_and_attributes() {
    let s = parse_style("bg=#000000, fg=colour1,bold,,reverse,bg=red,italics");
    assert_eq!(s.bg.as_deref(), Some("red"));
    assert_eq!(s.fg.as_deref(), Some("colour1"));
    assert!(s.bold && s.reverse);
    let empty = parse_style("");
    assert!(empty.bg.is_none() && empty.fg.is_none() && !empty.bold && !empty.reverse);
}

#[test]
fn resolving_falls_back_to_base_then_defaults() {
    let style = parse_style("fg=red,reverse");
    let base = parse_style("bg=blue");
    assert_eq!(
        resolve(&style, &base, Color::Black, Color::White),
        (Color::Red, Color::Blue)
    );
    assert_eq!(
        resolve(&Style::default(), &Style::default(), Color::Black, Color::White),
        (Color::Black, Color::White)
    );
}

#[test]
fn a_plain_current_style_keeps_the_builtin_active_colours() {
    let t = theme_from_styles(
        &parse_style("bg=green"),
        &Style::default(),
        &Style::default(),
        &parse_style("fg=yellow"),
    );
    let d = Theme::default();
    assert_eq!((t.bg, t.fg), (Color::Green, Color::Yellow));
    assert_eq!((t.active_bg, t.active_fg), (d.active_bg, d.active_fg));
    assert!(t.active_bold);
    assert_eq!((t.bell_bg, t.bell_fg), (Color::Red, Color::Yellow));
    let styled = theme_from_styles(
        &Style::default(),
        &parse_style("fg=cyan"),
        &Style::default(),
        &Style::default(),
    );
    assert_eq!((styled.active_bg, styled.active_fg), (d.active_bg, Color::Cyan));
    assert!(!styled.active_bold);
}

struct Styles;

impl Tmux for Styles {
    fn run(&self, args: &[&str]) -> io::Result<String> {
        match args {
            ["show-options", "-gv", "window-status-style"] => Ok("bg=#101010".to_string()),
            ["show-options", "-gv", "window-status-current-style"] => Ok("bold".to_string()),
            ["show-options", "-gv", "status-style"] => Ok("fg=magenta".to_string()),
            _ => Err(io::Error::new(io::ErrorKind::Other, "no")),
        }
    }
}

#[test]
fn the_theme_follows_tmux_styles() {
    let t = load_theme(&Styles);
    assert_eq!((t.bg, t.fg), (Color::Rgb(16, 16, 16), Color::Magenta));
    assert!(t.active_bold);
    assert_eq!((t.bell_bg, t.bell_fg), (Color::Red, Color::Magenta));
}

#[test]
fn padding_fills_the_row_in_cells() {
    assert_eq!(pad("ab", 5), "ab   ");
    assert_eq!(pad("abcdef", 3), "abc");
    assert_eq!(pad("", 2), "  ");
    assert_eq!(pad("界界", 3), "界 ");
    assert_eq!(pad("🔔 x", 4), "🔔 x");
}

#[test]
fn row_colours_follow_the_line_style() {
    let t = Theme::default();
    assert_eq!(colors_for(LineStyle::Blank, &t), (t.bg, t.fg, false, false));
    assert_eq!(colors_for(LineStyle::Group, &t), (t.bg, t.fg, true, false));
    assert_eq!(
        colors_for(LineStyle::WindowName { active: true, bell: true }, &t),
        (t.active_bg, t.active_fg, true, false)
    );
    assert_eq!(
        colors_for(LineStyle::WindowName { active: false, bell: true }, &t),
        (t.bell_bg, t.bell_fg, true, false)
    );
    assert_eq!(
        colors_for(LineStyle::Detail { active: false, bell: true }, &t),
        (t.bell_bg, t.fg, false, true)
    );
    assert_eq!(
        colors_for(
            LineStyle::Pr { active: true, bell: false, state: PrState::Ready },
            &t
        ),
        (t.active_bg, t.fg, false, true)
    );
    assert_eq!(colors_for(LineStyle::Action, &t), (t.bg, t.fg, false, true));
}

#[test]
fn styles_are_read_with_show_options() {
    assert_eq!(style_option_command("status-style"), vec!["show-options", "-gv", "status-style"]);
}
