use std::io;

use tmux_tabs::json::{json_bool_field, json_string_field, json_u64_field};
use tmux_tabs::model::PrState;
use tmux_tabs::tmux::{
    active_pane, active_pane_of, description_for_window, display, display_command,
    is_sidebar_pane, leftmost_active_pane, leftmost_pane, list_panes_command,
    list_windows_command, listed_window_indexes, live_pane_ids, pane_ids_by_window,
    pane_records, pane_var, pane_var_command, parse_pane_map, parse_pane_records, pr_for_pane,
    ready_panes, session_panes_command, stale_ready_markers, tmux_windows,
    windows_from_listing, CacheFiles, Ctx, Tmux, PANE_FORMAT, SESSION_PANE_FORMAT, WINDOW_FORMAT,
};

#[test]
fn json_field_extraction() {
    let text = r#"{ "pane": "%3", "state": "ready" }"#;
    assert_eq!(json_string_field(text, "pane").as_deref(), Some("%3"));
    assert_eq!(json_string_field(text, "state").as_deref(), Some("ready"));
    assert_eq!(json_string_field(text, "missing"), None);
}

#[test]
fn json_scalar_extraction() {
    let text = r#"{ "number": 42, "draft": false, "title": "Show PRs" }"#;
    assert_eq!(json_u64_field(text, "number"), Some(42));
    assert_eq!(json_bool_field(text, "draft"), Some(false));
    assert_eq!(json_u64_field(text, "missing"), None);
}

#[test]
fn sidebar_pane_detection() {
    assert!(is_sidebar_pane("zsh", "tmux-tabs", "/x", "/home/u"));
    assert!(is_sidebar_pane("Python", "x", "/home/u/dev", "/home/u"));
    assert!(is_sidebar_pane("tmux-tabs", "x", "/x", "/home/u"));
    assert!(!is_sidebar_pane("zsh", "x", "/x", "/home/u"));
}

#[test]
fn field_readers_handle_escapes_and_edges() {
    assert_eq!(json_string_field(r#"{"k": "a\"b"}"#, "k").as_deref(), Some("a\"b"));
    assert_eq!(json_string_field(r#"{"k": "unterminated"#, "k"), None);
    assert_eq!(json_string_field(r#"{"k" 1}"#, "k"), None);
    assert_eq!(json_u64_field(r#"{"n":   7x}"#, "n"), Some(7));
    assert_eq!(json_u64_field(r#"{"n": -7}"#, "n"), None);
    assert_eq!(json_u64_field(r#"{"n": 99999999999999999999}"#, "n"), None);
    assert_eq!(json_bool_field(r#"{"b":true}"#, "b"), Some(true));
    assert_eq!(json_bool_field(r#"{"b": null}"#, "b"), None);
}

#[test]
fn pane_listings_parse_into_records() {
    let recs = parse_pane_records("%1|10|-2|1|zsh|title|/a|b\nshort|line\n%2|x|3|0|vim||/c");
    assert_eq!(recs.len(), 2);
    assert_eq!(recs[0].id, "%1");
    assert_eq!((recs[0].left, recs[0].top, recs[0].active), (10, -2, true));
    assert_eq!(recs[0].path, "/a|b");
    assert_eq!((recs[1].left, recs[1].top, recs[1].active), (0, 3, false));
    assert_eq!(recs[1].title, "");
}

#[test]
fn pane_maps_group_content_panes_by_window() {
    let m = parse_pane_map(
        "1|%1|zsh|a|/x\n2|%2|tmux-tabs|b|/y\n1|%3|vim|c|/z\n3|%4|zsh|tmux-tabs|/w",
        "/home/u",
    );
    assert_eq!(
        m,
        vec![("1".to_string(), vec!["%1".to_string(), "%3".to_string()])]
    );
    assert_eq!(live_pane_ids(&m), vec!["%1".to_string(), "%3".to_string()]);
}

#[test]
fn ready_markers_count_only_live_json_files() {
    let markers = vec![
        ("1.json".to_string(), r#"{"pane": "%1"}"#.to_string()),
        ("9.json".to_string(), r#"{"pane": "%9"}"#.to_string()),
        ("2.txt".to_string(), r#"{"pane": "%2"}"#.to_string()),
        (".json".to_string(), r#"{"pane": "%2"}"#.to_string()),
        ("3.json".to_string(), "{}".to_string()),
    ];
    let live = vec!["%1".to_string(), "%2".to_string()];
    assert_eq!(ready_panes(&markers, &live), vec!["%1".to_string()]);
    assert_eq!(stale_ready_markers(&markers, &live), vec!["9.json".to_string()]);
}

#[test]
fn cached_descriptions_and_prs_are_looked_up_by_file_name() {
    let descriptions = vec![(
        "1-3.json".to_string(),
        r#"{"description": "running tests"}"#.to_string(),
    )];
    assert_eq!(description_for_window(&descriptions, "$1", "3"), "running tests");
    assert_eq!(description_for_window(&descriptions, "$1", "4"), "");

    let prs = vec![
        (
            "5.json".to_string(),
            r#"{"number": 12, "title": "Fix", "url": "u", "draft": true}"#.to_string(),
        ),
        (
            "6.json".to_string(),
            r#"{"number": 13, "displayState": "ci_failed"}"#.to_string(),
        ),
    ];
    let pr = pr_for_pane(&prs, "%5").unwrap();
    assert_eq!((pr.number, pr.draft, pr.state), (12, true, PrState::Draft));
    assert_eq!((pr.title.as_str(), pr.url.as_str()), ("Fix", "u"));
    let pr = pr_for_pane(&prs, "%6").unwrap();
    assert_eq!((pr.number, pr.draft, pr.state), (13, false, PrState::CiFailed));
    assert!(pr_for_pane(&prs, "%7").is_none());
}

#[test]
fn context_paths_live_under_the_cache() {
    let ctx = Ctx {
        home: "/home/u".to_string(),
        cwd: "/home/u".to_string(),
        cache_home: "/home/u/.cache".to_string(),
    };
    assert_eq!(ctx.agent_ready_dir(), "/home/u/.cache/dotfiles/agent-ready");
    assert_eq!(ctx.pr_status_dir(), "/home/u/.cache/dotfiles/pr-status");
    assert_eq!(
        ctx.descriptions_dir("$4"),
        "/home/u/.cache/dotfiles/tmux-tabs/descriptions/4"
    );
    assert_eq!(
        ctx.sections_path("$4"),
        "/home/u/.cache/dotfiles/tmux-tabs/sections/4.json"
    );
}

struct Session;

impl Tmux for Session {
    fn run(&self, args: &[&str]) -> io::Result<String> {
        match args {
            ["list-panes", "-s", "-F", _] => {
                Ok("1|%1|zsh|x|/home/u/dev/app\n1|%9|tmux-tabs|tmux-tabs|/\n2|%2|ssh|y|/".to_string())
            }
            ["display-message", "-p", "#{session_id}"] => Ok("$1".to_string()),
            ["display-message", "-p", "-t", "%1", "#{pane_title}"] => Ok("editor".to_string()),
            ["list-windows", "-F", _] => Ok(
                "1|@1|tab_1|zsh|0|*|t1|/home/u\n2|@2|tab_2|ssh|1|-|t2|/\nbroken".to_string(),
            ),
            ["list-panes", "-t", "1", "-F", _] => Ok(
                "%9|0|0|0|tmux-tabs|tmux-tabs|/\n%1|30|0|1|zsh|shell|/home/u/dev/app".to_string(),
            ),
            ["list-panes", "-t", "2", "-F", _] => Ok("%2|0|0|1|ssh||".to_string()),
            _ => Err(io::Error::new(io::ErrorKind::Other, "unknown")),
        }
    }
}

fn session_ctx() -> Ctx {
    Ctx {
        home: "/home/u".to_string(),
        cwd: "/home/u".to_string(),
        cache_home: "/c".to_string(),
    }
}

#[test]
fn window_list_combines_tmux_state_and_caches() {
    let cache = CacheFiles {
        ready_markers: vec![("2.json".to_string(), r#"{"pane":"%2"}"#.to_string())],
        descriptions: vec![("1-1.json".to_string(), r#"{"description":"editing"}"#.to_string())],
        pr_status: vec![("1.json".to_string(), r#"{"number": 3, "url": "u"}"#.to_string())],
    };
    let ws = tmux_windows(&Session, &session_ctx(), &cache);
    assert_eq!(ws.len(), 2);
    let a = &ws[0];
    assert_eq!((a.index.as_str(), a.window_id.as_str(), a.tab_id.as_str()), ("1", "@1", "tab_1"));
    assert_eq!((a.pane.as_str(), a.command.as_str()), ("%1", "zsh"));
    assert_eq!((a.title.as_str(), a.path.as_str()), ("shell", "/home/u/dev/app"));
    assert_eq!(a.group, "app");
    assert!(a.active && !a.last && !a.bell && !a.ready);
    assert_eq!(a.panes, vec!["%1".to_string()]);
    assert_eq!(a.description, "editing");
    assert_eq!(a.pr.as_ref().map(|p| p.number), Some(3));
    let b = &ws[1];
    assert!(b.bell && b.ready && b.last && !b.active);
    assert_eq!((b.title.as_str(), b.path.as_str()), ("t2", "/"));
    assert!(b.pr.is_none());
}

#[test]
fn pane_queries_pick_content_panes() {
    assert_eq!(active_pane(&Session, "1", "/home/u"), "%1");
    assert_eq!(leftmost_active_pane(&Session, "1", "/home/u"), "%1");
    assert_eq!(active_pane(&Session, "7", "/home/u"), "");
    assert_eq!(pane_records(&Session, "2").len(), 1);
    assert_eq!(pane_ids_by_window(&Session, "/home/u").len(), 2);
    assert_eq!(display(&Session, "#{session_id}"), "$1");
    assert_eq!(display(&Session, "#{nothing}"), "");
    assert_eq!(pane_var(&Session, "%1", "#{pane_title}"), "editor");
}

#[test]
fn queries_send_fixed_commands() {
    assert_eq!(display_command("#{session_id}"), vec!["display-message", "-p", "#{session_id}"]);
    assert_eq!(
        pane_var_command("%1", "#{pane_title}"),
        vec!["display-message", "-p", "-t", "%1", "#{pane_title}"]
    );
    assert_eq!(list_panes_command("3"), vec!["list-panes", "-t", "3", "-F", PANE_FORMAT]);
    assert_eq!(session_panes_command(), vec!["list-panes", "-s", "-F", SESSION_PANE_FORMAT]);
    assert_eq!(list_windows_command(), vec!["list-windows", "-F", WINDOW_FORMAT]);
}

#[test]
fn windows_are_built_from_the_replies() {
    let listing = "1|@1|tab_1|zsh|0|*|t1|/home/u\nbroken\n4|@4|tab_4|vim|1|-|t4|/";
    assert_eq!(listed_window_indexes(listing), vec!["1".to_string(), "4".to_string()]);
    let pane_map = parse_pane_map("1|%1|zsh|x|/home/u/dev/app\n4|%4|vim|y|/", "/home/u");
    let outs = vec![
        "%1|0|0|1|zsh|shell|/home/u/dev/app".to_string(),
        "%4|0|0|1|vim||".to_string(),
    ];
    let cache = CacheFiles { ready_markers: vec![], descriptions: vec![], pr_status: vec![] };
    let ws = windows_from_listing(listing, &pane_map, "$1", &outs, &cache, "/home/u", "/home/u");
    assert_eq!(ws.len(), 2);
    assert_eq!((ws[0].index.as_str(), ws[0].pane.as_str(), ws[0].path.as_str()), ("1", "%1", "/home/u/dev/app"));
    assert_eq!((ws[1].index.as_str(), ws[1].pane.as_str(), ws[1].title.as_str()), ("4", "%4", "t4"));
    assert!(ws[1].bell && ws[1].last);
}

#[test]
fn pane_choices_over_records() {
    let recs = parse_pane_records(
        "%9|0|0|0|tmux-tabs|tmux-tabs|/\n%1|30|0|0|zsh|a|/x\n%2|30|5|1|zsh|b|/y\n%3|10|9|0|vim|c|/z",
    );
    assert_eq!(active_pane_of(&recs, "/home/u"), "%2");
    assert_eq!(leftmost_pane(&recs, "/home/u"), "%3");
    assert_eq!(active_pane_of(&vec![], "/home/u"), "");
}
