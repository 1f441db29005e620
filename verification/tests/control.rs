use std::cell::RefCell;
use std::io;

use tmux_tabs::control::{
    all_panes_command, find_sidebar_pane, kill_pane_command, move_sidebar_commands,
    move_sidebar_to_window, parse_width, rename_command, select_moves, select_window_command,
    width_option_command,
    select_adjacent_sidebar_window, sidebar_pane_id, sidebar_width, split_command, toggle_sidebar,
};
use tmux_tabs::model::{Direction, DEFAULT_WIDTH};
use tmux_tabs::sections::SectionLayout;
use tmux_tabs::tmux::{CacheFiles, Ctx, Tmux};

struct FakeTmux {
    calls: RefCell<Vec<String>>,
    configured_width: Option<usize>,
    panes: String,
}

impl FakeTmux {
    fn new(configured_width: Option<usize>) -> Self {
        Self {
            calls: RefCell::new(Vec::new()),
            configured_width,
            panes: String::new(),
        }
    }
}

impl Tmux for FakeTmux {
    fn run(&self, args: &[&str]) -> io::Result<String> {
        self.calls.borrow_mut().push(args.join(" "));
        match args {
            ["show-option", "-gvq", "@tmux-tabs-width"] => Ok(self
                .configured_width
                .map(|w| w.to_string())
                .unwrap_or_default()),
            ["list-panes", "-t", "2", "-F", _] => {
                Ok("%2|0|0|1|zsh|content|/home/alec/dev/proj|/dev/ttys001".to_string())
            }
            ["list-panes", "-a", "-F", _] => Ok(self.panes.clone()),
            ["display-message", "-p", "#{session_id}"] => Ok("$1".to_string()),
            ["display-message", "-p", "#{window_index}"] => Ok("2".to_string()),
            _ => Ok(String::new()),
        }
    }
}

fn ctx() -> Ctx {
    Ctx {
        home: "/home/alec".to_string(),
        cwd: "/home/alec".to_string(),
        cache_home: "/tmp".into(),
    }
}

#[test]
fn width_comes_from_the_tmux_option_or_the_default() {
    assert_eq!(sidebar_width(&FakeTmux::new(Some(40))), 40);
    assert_eq!(sidebar_width(&FakeTmux::new(None)), DEFAULT_WIDTH);
}

#[test]
fn moving_the_sidebar_always_uses_the_fixed_width() {
    let t = FakeTmux::new(Some(32));

    move_sidebar_to_window(&t, &ctx(), "%sidebar", "2");

    let calls = t.calls.borrow();
    assert!(
        calls
            .iter()
            .any(|c| c == "move-pane -h -l 32 -s %sidebar -t %2 -d -b"),
        "calls: {:?}",
        calls
    );
    assert!(
        calls.iter().any(|c| c == "resize-pane -t %sidebar -x 32"),
        "calls: {:?}",
        calls
    );
}

#[test]
fn moving_without_a_sidebar_pane_does_nothing() {
    let t = FakeTmux::new(Some(32));
    move_sidebar_to_window(&t, &ctx(), "", "2");
    assert!(t.calls.borrow().is_empty());
}

#[test]
fn width_values_are_trimmed_and_must_be_positive() {
    assert_eq!(parse_width(" 40\n"), 40);
    assert_eq!(parse_width("+24"), 24);
    assert_eq!(parse_width("0"), DEFAULT_WIDTH);
    assert_eq!(parse_width("-5"), DEFAULT_WIDTH);
    assert_eq!(parse_width("wide"), DEFAULT_WIDTH);
    assert_eq!(parse_width(""), DEFAULT_WIDTH);
    assert_eq!(parse_width("99999999999999999999999"), DEFAULT_WIDTH);
}

#[test]
fn move_commands_select_the_focus_pane_last() {
    let with_focus = move_sidebar_commands("%9", "%2", "%3", "4", 30);
    assert_eq!(
        with_focus,
        vec![
            vec!["move-pane", "-h", "-l", "30", "-s", "%9", "-t", "%2", "-d", "-b"],
            vec!["resize-pane", "-t", "%9", "-x", "30"],
            vec!["select-window", "-t", "4"],
            vec!["select-pane", "-t", "%3"],
        ]
    );
    assert_eq!(move_sidebar_commands("%9", "%2", "", "4", 30).len(), 3);
}

#[test]
fn the_split_runs_the_sidebar_mode() {
    assert_eq!(
        split_command(18, "%1", "/usr/bin/tmux-tabs"),
        vec!["split-window", "-h", "-l", "18", "-t", "%1", "-b", "/usr/bin/tmux-tabs --sidebar"]
    );
}

#[test]
fn the_sidebar_is_found_only_in_the_current_session() {
    let listing = "$2|%5|tmux-tabs\n$1|%6|zsh\n$1|%7|tmux-tabs\n";
    assert_eq!(find_sidebar_pane(listing, "$1").as_deref(), Some("%7"));
    assert_eq!(find_sidebar_pane(listing, "$3"), None);
    let mut t = FakeTmux::new(None);
    t.panes = listing.to_string();
    assert_eq!(sidebar_pane_id(&t), "%7");
}

#[test]
fn toggling_kills_an_open_sidebar() {
    let mut t = FakeTmux::new(None);
    t.panes = "$1|%7|tmux-tabs".to_string();
    toggle_sidebar(&t, &ctx(), "tmux-tabs");
    let calls = t.calls.borrow();
    assert_eq!(calls.last().unwrap(), "kill-pane -t %7");
    assert!(!calls.iter().any(|c| c.starts_with("split-window")));
}

#[test]
fn toggling_opens_a_missing_sidebar() {
    let t = FakeTmux::new(Some(26));
    toggle_sidebar(&t, &ctx(), "/bin/tmux-tabs");
    let calls = t.calls.borrow();
    assert_eq!(
        calls.last().unwrap(),
        "split-window -h -l 26 -t %2 -b /bin/tmux-tabs --sidebar"
    );
}

#[test]
fn selecting_with_no_windows_does_nothing() {
    let t = FakeTmux::new(None);
    select_adjacent_sidebar_window(
        &t,
        &ctx(),
        &CacheFiles::default(),
        &SectionLayout::default(),
        Direction::Next,
    );
    assert!(!t.calls.borrow().iter().any(|c| c.starts_with("select-window")));
}

#[test]
fn rename_prompts_with_the_current_name() {
    assert_eq!(
        rename_command("4", "notes"),
        vec!["command-prompt", "-I", "notes", "-p", "Rename window:", "rename-window -t 4 '%%'"]
    );
}

#[test]
fn control_commands_are_fixed() {
    assert_eq!(
        all_panes_command(),
        vec!["list-panes", "-a", "-F", "#{session_id}|#{pane_id}|#{pane_title}"]
    );
    assert_eq!(width_option_command(), vec!["show-option", "-gvq", "@tmux-tabs-width"]);
    assert_eq!(kill_pane_command("%5"), vec!["kill-pane", "-t", "%5"]);
    assert_eq!(select_window_command("2"), vec!["select-window", "-t", "2"]);
    assert!(select_moves("2", "1"));
    assert!(!select_moves("1", "1"));
    assert!(!select_moves("", "1"));
}
