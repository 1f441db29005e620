//! Sidebar control commands: toggle on and off, and move between windows.
//! These are the `--select` and no-argument entry points, plus the helper
//! the runtime uses to follow focus.
//!
//! What each command sends to tmux is computed by a function of plain values
//! with an exact contract; the functions taking a `Tmux` gather those values
//! and send the commands, ignoring tmux's replies as the commands allow.
use vstd::prelude::*;

use crate::model::{
    adjacent_sidebar_window_with_sections, adjacent_spec, sidebar_order_spec, Direction, Window,
    DEFAULT_WIDTH,
};
use crate::sections::{string_views, SectionLayout};
use crate::text::{
    all_digits, chars_eq, chars_of, decimal, digits_value, line_bounds, lines_of, parse_digits,
    push_decimal, push_str, splitn_char, splitn_pieces, str_is, string_of, sub_vec, trim,
    trim_ws,
};
use crate::tmux::{
    active_pane, display, run_words, leftmost_active_pane, reply_text, text_or_empty, tmux_windows,
    CacheFiles, Ctx, Tmux,
};

verus! {

// ---------------------------------------------------------------------------
// Finding the sidebar
// ---------------------------------------------------------------------------

/// The format of the pane listing the sidebar is looked up in.
pub const ALL_PANES_FORMAT: &'static str = "#{session_id}|#{pane_id}|#{pane_title}";

/// The pane id on the first `session|pane|title` line of `session` titled
/// `tmux-tabs`.
pub open spec fn sidebar_in_lines(lines: Seq<Seq<char>>, session: Seq<char>) -> Option<Seq<char>>
    decreases lines.len(),
{
    if lines.len() == 0 {
        None
    } else {
        let p = splitn_char(lines[0], '|', 3);
        if p.len() == 3 && p[0] == session && p[2] == "tmux-tabs"@ {
            Some(p[1])
        } else {
            sidebar_in_lines(lines.drop_first(), session)
        }
    }
}

pub open spec fn sidebar_in_listing(listing: Seq<char>, session: Seq<char>) -> Option<Seq<char>> {
    sidebar_in_lines(lines_of(listing), session)
}

/// The sidebar pane of `session` in a pane listing.
pub fn find_sidebar_pane(listing: &str, session: &str) -> (r: Option<String>)
    ensures
        match r {
            Some(p) => sidebar_in_listing(listing@, session@) == Some(p@),
            None => sidebar_in_listing(listing@, session@) is None,
        },
{
    let v = chars_of(listing);
    let bounds = line_bounds(v.as_slice());
    let ghost lines = lines_of(v@);
    let s = chars_of(session);
    let title = chars_of("tmux-tabs");
    let mut k: usize = 0;
    assert(lines.skip(0) =~= lines);
    while k < bounds.len()
        invariant
            k <= bounds.len(),
            lines == lines_of(v@),
            v@ == listing@,
            s@ == session@,
            title@ == "tmux-tabs"@,
            bounds@.len() == lines.len(),
            forall|q: int|
                0 <= q < bounds@.len() ==> {
                    &&& (#[trigger] bounds@[q]).0 <= bounds@[q].1 <= v@.len()
                    &&& v@.subrange(bounds@[q].0 as int, bounds@[q].1 as int) == lines[q]
                },
            sidebar_in_lines(lines, session@) == sidebar_in_lines(lines.skip(k as int), session@),
        decreases bounds.len() - k,
    {
        let (a, b) = bounds[k];
        let line = sub_vec(v.as_slice(), a, b);
        let parts = splitn_pieces(line.as_slice(), '|', 3);
        proof {
            let t = lines.skip(k as int);
            assert(t[0] == line@);
            assert(t.drop_first() =~= lines.skip(k as int + 1));
        }
        if parts.len() == 3 && chars_eq(parts[0].as_slice(), s.as_slice()) && chars_eq(
            parts[2].as_slice(),
            title.as_slice(),
        ) {
            return Some(string_of(parts[1].as_slice()));
        }
        k += 1;
    }
    proof {
        assert(lines.skip(bounds.len() as int) =~= Seq::<Seq<char>>::empty());
    }
    None
}

/// `list-panes -a -F ALL_PANES_FORMAT`: every pane of every session.
pub open spec fn all_panes_command_spec() -> Seq<Seq<char>> {
    seq!["list-panes"@, "-a"@, "-F"@, ALL_PANES_FORMAT@]
}

/// The command that lists every pane the sidebar may be.
pub fn all_panes_command() -> (r: Vec<String>)
    ensures
        string_views(r@) == all_panes_command_spec(),
{
    let r = vec![word("list-panes"), word("-a"), word("-F"), word(ALL_PANES_FORMAT)];
    assert(string_views(r@) =~= all_panes_command_spec());
    r
}

/// Finds the sidebar pane in the current session (`all_panes_command`,
/// read by `find_sidebar_pane`); empty when there is none.
pub fn sidebar_pane_id<T: Tmux>(t: &T) -> (r: String)
    ensures
        exists|listing: Seq<char>, session: Seq<char>|
            #[trigger] text_or_empty(sidebar_in_listing(listing, session)) == r@,
{
    let current_session = display(t, "#{session_id}");
    let out = reply_text(run_words(t, &all_panes_command()));
    let r = match find_sidebar_pane(out.as_str(), current_session.as_str()) {
        Some(p) => p,
        None => String::new(),
    };
    assert(text_or_empty(sidebar_in_listing(out@, current_session@)) == r@);
    r
}

// ---------------------------------------------------------------------------
// Width
// ---------------------------------------------------------------------------

/// `usize::from_str`: an optional `+`, then decimal digits, in range.
pub open spec fn parse_usize_spec(s: Seq<char>) -> Option<usize> {
    let d = if s.len() > 0 && s[0] == '+' {
        s.drop_first()
    } else {
        s
    };
    if all_digits(d) && digits_value(d) <= usize::MAX {
        Some(digits_value(d) as usize)
    } else {
        None
    }
}

/// The width an `@tmux-tabs-width` value sets: a positive number after
/// trimming, else the default.
pub open spec fn width_spec(value: Seq<char>) -> usize {
    match parse_usize_spec(trim_ws(value)) {
        Some(w) => if w > 0 {
            w
        } else {
            DEFAULT_WIDTH
        },
        None => DEFAULT_WIDTH,
    }
}

/// The sidebar width an `@tmux-tabs-width` value sets.
pub fn parse_width(value: &str) -> (r: usize)
    ensures
        r == width_spec(value@),
        r > 0,
{
    let t = trim(value);
    let v = chars_of(t.as_str());
    let start: usize = if v.len() > 0 && v[0] == '+' {
        1
    } else {
        0
    };
    let ghost d = if v@.len() > 0 && v@[0] == '+' {
        v@.drop_first()
    } else {
        v@
    };
    assert(v@.subrange(start as int, v@.len() as int) =~= d);
    let parsed = parse_digits(v.as_slice(), start, v.len());
    match parsed {
        Some(x) => {
            if x as u128 <= usize::MAX as u128 && x > 0 {
                x as usize
            } else {
                DEFAULT_WIDTH
            }
        },
        None => DEFAULT_WIDTH,
    }
}

/// `show-option -gvq @tmux-tabs-width`: the configured width, if any.
pub open spec fn width_option_command_spec() -> Seq<Seq<char>> {
    seq!["show-option"@, "-gvq"@, "@tmux-tabs-width"@]
}

/// The command that reads the configured sidebar width.
pub fn width_option_command() -> (r: Vec<String>)
    ensures
        string_views(r@) == width_option_command_spec(),
{
    let r = vec![word("show-option"), word("-gvq"), word("@tmux-tabs-width")];
    assert(string_views(r@) =~= width_option_command_spec());
    r
}

/// The sidebar's fixed width: `@tmux-tabs-width`, else `DEFAULT_WIDTH`.
pub fn sidebar_width<T: Tmux>(t: &T) -> (r: usize)
    ensures
        r > 0,
        r == DEFAULT_WIDTH || exists|value: Seq<char>| #[trigger] width_spec(value) == r,
{
    match run_words(t, &width_option_command()) {
        Ok(v) => parse_width(v.as_str()),
        Err(_) => DEFAULT_WIDTH,
    }
}

// ---------------------------------------------------------------------------
// Commands
// ---------------------------------------------------------------------------

pub open spec fn command_views(v: Seq<Vec<String>>) -> Seq<Seq<Seq<char>>> {
    v.map_values(|c: Vec<String>| string_views(c@))
}

/// The commands that move the sidebar pane to the left edge of a window at
/// its fixed width and focus the window: move it, force its width, select
/// the window, then select the window's active pane when there is one.
pub open spec fn move_commands_spec(
    sidebar_pane: Seq<char>,
    target_pane: Seq<char>,
    focus_pane: Seq<char>,
    win_index: Seq<char>,
    width: usize,
) -> Seq<Seq<Seq<char>>> {
    let w = decimal(width as nat);
    let base = seq![
        seq!["move-pane"@, "-h"@, "-l"@, w, "-s"@, sidebar_pane, "-t"@, target_pane, "-d"@, "-b"@],
        seq!["resize-pane"@, "-t"@, sidebar_pane, "-x"@, w],
        seq!["select-window"@, "-t"@, win_index],
    ];
    if focus_pane.len() > 0 {
        base.push(seq!["select-pane"@, "-t"@, focus_pane])
    } else {
        base
    }
}

fn word(s: &str) -> (r: String)
    ensures
        r@ == s@,
{
    String::from_str(s)
}

fn width_text(width: usize) -> (r: String)
    ensures
        r@ == decimal(width as nat),
{
    let mut s = String::new();
    push_decimal(&mut s, width as u64);
    assert(Seq::<char>::empty() + decimal(width as nat) =~= decimal(width as nat));
    s
}

/// The commands that move the sidebar to `win_index`.
pub fn move_sidebar_commands(
    sidebar_pane: &str,
    target_pane: &str,
    focus_pane: &str,
    win_index: &str,
    width: usize,
) -> (r: Vec<Vec<String>>)
    ensures
        command_views(r@) == move_commands_spec(
            sidebar_pane@,
            target_pane@,
            focus_pane@,
            win_index@,
            width,
        ),
{
    let w = width_text(width);
    let mut cmds: Vec<Vec<String>> = Vec::new();
    let mut c1: Vec<String> = Vec::new();
    c1.push(word("move-pane"));
    c1.push(word("-h"));
    c1.push(word("-l"));
    c1.push(w.clone());
    c1.push(word("-s"));
    c1.push(word(sidebar_pane));
    c1.push(word("-t"));
    c1.push(word(target_pane));
    c1.push(word("-d"));
    c1.push(word("-b"));
    let mut c2: Vec<String> = Vec::new();
    c2.push(word("resize-pane"));
    c2.push(word("-t"));
    c2.push(word(sidebar_pane));
    c2.push(word("-x"));
    c2.push(w);
    let mut c3: Vec<String> = Vec::new();
    c3.push(word("select-window"));
    c3.push(word("-t"));
    c3.push(word(win_index));
    let ghost v1 = string_views(c1@);
    let ghost v2 = string_views(c2@);
    let ghost v3 = string_views(c3@);
    let ghost wv = decimal(width as nat);
    assert(v1 =~= seq![
        "move-pane"@, "-h"@, "-l"@, wv, "-s"@, sidebar_pane@, "-t"@, target_pane@, "-d"@, "-b"@,
    ]);
    assert(v2 =~= seq!["resize-pane"@, "-t"@, sidebar_pane@, "-x"@, wv]);
    assert(v3 =~= seq!["select-window"@, "-t"@, win_index@]);
    cmds.push(c1);
    cmds.push(c2);
    cmds.push(c3);
    let ghost base = command_views(cmds@);
    assert(base =~= seq![v1, v2, v3]);
    if !focus_pane.is_empty() {
        let mut c4: Vec<String> = Vec::new();
        c4.push(word("select-pane"));
        c4.push(word("-t"));
        c4.push(word(focus_pane));
        let ghost v4 = string_views(c4@);
        assert(v4 =~= seq!["select-pane"@, "-t"@, focus_pane@]);
        cmds.push(c4);
        assert(command_views(cmds@) =~= base.push(v4));
    }
    assert(command_views(cmds@) =~= move_commands_spec(
        sidebar_pane@,
        target_pane@,
        focus_pane@,
        win_index@,
        width,
    ));
    cmds
}

/// Sends each command to tmux in order, ignoring the replies.
fn run_commands<T: Tmux>(t: &T, cmds: &Vec<Vec<String>>) {
    let mut k: usize = 0;
    while k < cmds.len()
        decreases cmds.len() - k,
    {
        let _ = run_words(t, &cmds[k]);
        k += 1;
    }
}

/// `select-window -t <window>`.
pub open spec fn select_window_command_spec(win_index: Seq<char>) -> Seq<Seq<char>> {
    seq!["select-window"@, "-t"@, win_index]
}

/// The command that focuses a window without moving the sidebar.
pub fn select_window_command(win_index: &str) -> (r: Vec<String>)
    ensures
        string_views(r@) == select_window_command_spec(win_index@),
{
    let r = vec![word("select-window"), word("-t"), word(win_index)];
    assert(string_views(r@) =~= select_window_command_spec(win_index@));
    r
}

/// `kill-pane -t <pane>`.
pub open spec fn kill_pane_command_spec(pane: Seq<char>) -> Seq<Seq<char>> {
    seq!["kill-pane"@, "-t"@, pane]
}

/// The command that closes the sidebar pane.
pub fn kill_pane_command(pane: &str) -> (r: Vec<String>)
    ensures
        string_views(r@) == kill_pane_command_spec(pane@),
{
    let r = vec![word("kill-pane"), word("-t"), word(pane)];
    assert(string_views(r@) =~= kill_pane_command_spec(pane@));
    r
}

/// Whether `--select` has somewhere to go: the adjacent window exists and
/// is not the current one.
pub fn select_moves(target: &str, current: &str) -> (r: bool)
    ensures
        r == (target@.len() > 0 && target@ != current@),
{
    !target.is_empty() && !str_is(target, current)
}

/// Moves the sidebar pane to the left edge of `win_index` and focuses that
/// window; nothing happens without a sidebar pane.
pub fn move_sidebar_to_window<T: Tmux>(t: &T, ctx: &Ctx, sidebar_pane: &str, win_index: &str) {
    if sidebar_pane.is_empty() {
        return;
    }
    let target_pane = leftmost_active_pane(t, win_index, ctx.home.as_str());
    let focus_pane = active_pane(t, win_index, ctx.home.as_str());
    let width = sidebar_width(t);
    let cmds = move_sidebar_commands(
        sidebar_pane,
        target_pane.as_str(),
        focus_pane.as_str(),
        win_index,
        width,
    );
    run_commands(t, &cmds);
}

/// `--select prev|next`: moves the sidebar to the adjacent grouped window
/// (custom sections applied), or just selects that window
/// (`select_window_command`) when no sidebar is open; nothing happens when
/// there is no other window to go to (`select_moves`).
pub fn select_adjacent_sidebar_window<T: Tmux>(
    t: &T,
    ctx: &Ctx,
    cache: &CacheFiles,
    layout: &SectionLayout,
    dir: Direction,
) {
    let windows = tmux_windows(t, ctx, cache);
    let current = display(t, "#{window_index}");
    let target = adjacent_sidebar_window_with_sections(
        windows.as_slice(),
        layout,
        current.as_str(),
        dir,
    );
    if select_moves(target.as_str(), current.as_str()) {
        let sidebar = sidebar_pane_id(t);
        if !sidebar.as_str().is_empty() {
            move_sidebar_to_window(t, ctx, sidebar.as_str(), target.as_str());
        } else {
            let _ = run_words(t, &select_window_command(target.as_str()));
        }
    }
}

/// The command that opens the sidebar: a split of `width` cells on the left
/// of `target_pane` running `<self_exe> --sidebar`.
pub open spec fn split_command_spec(width: usize, target_pane: Seq<char>, self_exe: Seq<char>) -> Seq<
    Seq<char>,
> {
    seq![
        "split-window"@,
        "-h"@,
        "-l"@,
        decimal(width as nat),
        "-t"@,
        target_pane,
        "-b"@,
        self_exe + " --sidebar"@,
    ]
}

/// The command that opens the sidebar next to `target_pane`.
pub fn split_command(width: usize, target_pane: &str, self_exe: &str) -> (r: Vec<String>)
    ensures
        string_views(r@) == split_command_spec(width, target_pane@, self_exe@),
{
    let mut launch = String::from_str(self_exe);
    push_str(&mut launch, " --sidebar");
    let mut c: Vec<String> = Vec::new();
    c.push(word("split-window"));
    c.push(word("-h"));
    c.push(word("-l"));
    c.push(width_text(width));
    c.push(word("-t"));
    c.push(word(target_pane));
    c.push(word("-b"));
    c.push(launch);
    assert(string_views(c@) =~= split_command_spec(width, target_pane@, self_exe@));
    c
}

/// The prompt that asks for a window's new name, prefilled with its current
/// one, and renames the window with the answer.
pub open spec fn rename_command_spec(index: Seq<char>, current: Seq<char>) -> Seq<Seq<char>> {
    seq![
        "command-prompt"@,
        "-I"@,
        current,
        "-p"@,
        "Rename window:"@,
        "rename-window -t "@ + index + " '%%'"@,
    ]
}

pub fn rename_command(index: &str, current: &str) -> (r: Vec<String>)
    ensures
        string_views(r@) == rename_command_spec(index@, current@),
{
    let mut rename = String::from_str("rename-window -t ");
    push_str(&mut rename, index);
    push_str(&mut rename, " '%%'");
    let mut c: Vec<String> = Vec::new();
    c.push(word("command-prompt"));
    c.push(word("-I"));
    c.push(word(current));
    c.push(word("-p"));
    c.push(word("Rename window:"));
    c.push(rename);
    assert(string_views(c@) =~= rename_command_spec(index@, current@));
    c
}

/// No-argument entry point: kills the sidebar of the current session when it
/// is open (the first pane `find_sidebar_pane` reads from the pane listing,
/// with `kill_pane_command`), else opens it on the left of the current
/// window (`split_command`).
pub fn toggle_sidebar<T: Tmux>(t: &T, ctx: &Ctx, self_exe: &str) {
    let current_session = display(t, "#{session_id}");
    let panes = reply_text(run_words(t, &all_panes_command()));
    if let Some(sidebar) = find_sidebar_pane(panes.as_str(), current_session.as_str()) {
        let _ = run_words(t, &kill_pane_command(sidebar.as_str()));
        return;
    }
    let width = sidebar_width(t);
    let current_window = display(t, "#{window_index}");
    let target_pane = leftmost_active_pane(t, current_window.as_str(), ctx.home.as_str());
    let mut cmds: Vec<Vec<String>> = Vec::new();
    cmds.push(split_command(width, target_pane.as_str(), self_exe));
    run_commands(t, &cmds);
}

} // verus!
