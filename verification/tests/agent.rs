use std::cell::RefCell;
use std::io;

use tmux_tabs::agent::{
    add_section_window_and_prune,
    add_section_window_by_ref, capture_tab, find_json, find_window, remove_section_window_by_ref,
    send_to_tab, window_with_index, windows_json, capture_command, capture_reply, send_command,
    send_next, step_done, SendStep,
};
use tmux_tabs::model::{PrState, PullRequestStatus, Window};
use tmux_tabs::sections::SectionLayout;
use tmux_tabs::tmux::{CacheFiles, Ctx, Tmux};

struct FakeTmux {
    calls: RefCell<Vec<String>>,
    fail_set_buffer: bool,
}

impl FakeTmux {
    fn new(fail_set_buffer: bool) -> Self {
        Self {
            calls: RefCell::new(Vec::new()),
            fail_set_buffer,
        }
    }
}

impl Tmux for FakeTmux {
    fn run(&self, args: &[&str]) -> io::Result<String> {
        self.calls.borrow_mut().push(args.join(" "));
        match args {
            ["list-panes", "-s", "-F", _] => Ok("1|%1|zsh|agent|/repo".to_string()),
            ["display-message", "-p", "#{session_id}"] => Ok("$1".to_string()),
            ["list-windows", "-F", _] => Ok("1|@1|tab_1|Agent|0|*|agent|/repo".to_string()),
            ["list-panes", "-t", "1", "-F", _] => Ok("%1|0|0|1|zsh|agent|/repo".to_string()),
            ["display-message", "-p", "-t", "%1", "#{window_width}"] => Ok("120".to_string()),
            ["capture-pane", "-p", "-t", "%1", "-S", "-200"] => Ok("$ cargo test".to_string()),
            ["set-buffer", ..] if self.fail_set_buffer => {
                Err(io::Error::new(io::ErrorKind::Other, "set failed"))
            }
            _ => Ok(String::new()),
        }
    }
}

fn test_ctx() -> Ctx {
    Ctx {
        home: "/home/alec".to_string(),
        cwd: "/home/alec".to_string(),
        cache_home: "/tmp/tmux-tabs-agent-tests".to_string(),
    }
}

fn window(index: &str, name: &str, description: &str, path: &str) -> Window {
    Window {
        index: index.to_string(),
        window_id: format!("@{index}"),
        tab_id: format!("tab_{index}"),
        name: name.to_string(),
        bell: false,
        ready: false,
        active: false,
        last: false,
        title: "zsh".to_string(),
        path: path.to_string(),
        group: "repo".to_string(),
        pane: format!("%{index}"),
        panes: vec![format!("%{index}")],
        command: "pi".to_string(),
        description: description.to_string(),
        pr: Some(PullRequestStatus {
            number: 1,
            title: "PR".to_string(),
            url: "https://example.com".to_string(),
            draft: false,
            state: PrState::Open,
        }),
    }
}

#[test]
fn list_json_exposes_agent_addressable_fields() {
    let json = windows_json(&[window("2", "Sidebar Naming", "renaming tmux tabs", "/repo")]);

    assert!(json.contains("\"index\":\"2\""));
    assert!(json.contains("\"name\":\"Sidebar Naming\""));
    assert!(json.contains("\"description\":\"renaming tmux tabs\""));
    assert!(json.contains("\"pane\":\"%2\""));
    assert!(json.contains("\"tab_id\":\"tab_2\""));
}

#[test]
fn finds_window_by_tab_mention_name_description_or_index() {
    let windows = vec![
        window("1", "Tests", "running tests", "/repo"),
        window("2", "Sidebar Naming", "renaming tmux tabs", "/repo/sidebar"),
    ];

    assert_eq!(find_window(&windows, "@tab:sidebar").unwrap().index, "2");
    assert_eq!(find_window(&windows, "renaming").unwrap().index, "2");
    assert_eq!(find_window(&windows, "1").unwrap().name, "Tests");
    assert!(find_window(&windows, "missing").is_none());
}

#[test]
fn section_add_and_remove_resolve_references_to_window_ids() {
    let windows = vec![
        window("1", "Tests", "running tests", "/repo"),
        window("2", "Sidebar Naming", "renaming tmux tabs", "/repo/sidebar"),
    ];
    let mut layout = SectionLayout::default();

    assert!(add_section_window_by_ref(
        &mut layout,
        &windows,
        "Review",
        "@tab:sidebar"
    ));
    assert_eq!(layout.sections[0].windows, vec!["@2".to_string()]);

    assert!(remove_section_window_by_ref(
        &mut layout,
        &windows,
        "Review",
        "renaming"
    ));
    assert!(layout.sections[0].windows.is_empty());
}

#[test]
fn send_to_tab_fails_if_setting_buffer_fails() {
    let t = FakeTmux::new(true);
    let sent = send_to_tab(&t, &test_ctx(), &CacheFiles::default(), "Agent", "hello", true);

    assert!(!sent);
    assert!(
        !t.calls
            .borrow()
            .iter()
            .any(|c| c.starts_with("paste-buffer")),
        "calls: {:?}",
        t.calls.borrow()
    );
}

#[test]
fn send_to_tab_pastes_and_presses_enter() {
    let t = FakeTmux::new(false);
    assert!(send_to_tab(&t, &test_ctx(), &CacheFiles::default(), "@tab:agent", "hello", true));
    let calls = t.calls.borrow();
    assert!(calls.iter().any(|c| c == "set-buffer -- hello"));
    assert!(calls.iter().any(|c| c == "paste-buffer -t %1"));
    assert!(calls.iter().any(|c| c == "send-keys -t %1 Enter"));
}

#[test]
fn paste_without_enter_sends_no_keys() {
    let t = FakeTmux::new(false);
    assert!(send_to_tab(&t, &test_ctx(), &CacheFiles::default(), "agent", "text", false));
    assert!(!t.calls.borrow().iter().any(|c| c.starts_with("send-keys")));
}

#[test]
fn sending_to_an_unknown_tab_fails() {
    let t = FakeTmux::new(false);
    assert!(!send_to_tab(&t, &test_ctx(), &CacheFiles::default(), "nothing-here", "x", true));
    assert!(!t.calls.borrow().iter().any(|c| c.starts_with("set-buffer")));
}

#[test]
fn capture_reads_the_referenced_pane() {
    let t = FakeTmux::new(false);
    assert_eq!(
        capture_tab(&t, &test_ctx(), &CacheFiles::default(), "Agent").as_deref(),
        Some("$ cargo test")
    );
    assert_eq!(capture_tab(&t, &test_ctx(), &CacheFiles::default(), "nope"), None);
}

#[test]
fn json_list_escapes_and_frames_every_window() {
    let mut w = window("3", "say \"hi\"", "line\nbreak", "C:\\repo");
    w.active = true;
    w.pr = None;
    let json = windows_json(&[w, window("4", "b", "", "/x")]);
    assert!(json.starts_with("[\n  {\"index\":\"3\""));
    assert!(json.contains("\"name\":\"say \\\"hi\\\"\""));
    assert!(json.contains("\"description\":\"line\\nbreak\""));
    assert!(json.contains("\"path\":\"C:\\\\repo\""));
    assert!(json.contains("\"active\":true},\n  {\"index\":\"4\""));
    assert!(json.ends_with("\"active\":false}\n]\n"));
    assert_eq!(windows_json(&[]), "[\n\n]\n");
}

#[test]
fn find_json_gives_one_record_or_null() {
    let windows = vec![window("1", "Tests", "running tests", "/repo")];
    let found = find_json(&windows, "\"Tests\"");
    assert!(found.starts_with("[\n  {\"index\":\"1\""));
    assert!(found.ends_with("}\n]\n"));
    assert_eq!(find_json(&windows, "   "), "null\n");
    assert_eq!(find_json(&windows, "zzz"), "null\n");
}

#[test]
fn exact_field_matches_win_over_partial_ones() {
    let windows = vec![
        window("1", "build all", "", "/a"),
        window("2", "build", "", "/b"),
    ];
    assert_eq!(find_window(&windows, "BUILD").unwrap().index, "2");
    assert_eq!(find_window(&windows, "@tab:  build a ").unwrap().index, "1");
    assert_eq!(find_window(&windows, "tab_2").unwrap().index, "2");
}

#[test]
fn section_commands_refuse_unknown_or_idless_tabs() {
    let mut idless = window("5", "Notes", "", "/n");
    idless.window_id.clear();
    let windows = vec![idless];
    let mut layout = SectionLayout::default();
    assert!(!add_section_window_by_ref(&mut layout, &windows, "Review", "notes"));
    assert!(!add_section_window_by_ref(&mut layout, &windows, "Review", "ghost"));
    assert!(!remove_section_window_by_ref(&mut layout, &windows, "Review", "notes"));
    assert!(layout.sections.is_empty());
}

#[test]
fn windows_are_found_by_their_tmux_index() {
    let windows = vec![
        Window { index: "1".into(), name: "a".into(), ..Default::default() },
        Window { index: "12".into(), name: "b".into(), ..Default::default() },
        Window { index: "12".into(), name: "c".into(), ..Default::default() },
    ];
    assert_eq!(window_with_index(&windows, "12").map(|w| w.name.as_str()), Some("b"));
    assert_eq!(window_with_index(&windows, "2").map(|w| w.name.as_str()), None);
}

#[test]
fn capture_and_send_commands() {
    assert_eq!(capture_command("%3"), vec!["capture-pane", "-p", "-t", "%3", "-S", "-200"]);
    assert_eq!(capture_reply(Ok("text".to_string())), Some("text".to_string()));
    assert_eq!(capture_reply(Err(io::Error::new(io::ErrorKind::Other, "x"))), None);
    assert_eq!(send_command(&SendStep::SetBuffer, "%3", "hi"), vec!["set-buffer", "--", "hi"]);
    assert_eq!(send_command(&SendStep::Paste, "%3", "hi"), vec!["paste-buffer", "-t", "%3"]);
    assert_eq!(send_command(&SendStep::PressEnter, "%3", "hi"), vec!["send-keys", "-t", "%3", "Enter"]);
    assert!(send_command(&SendStep::Done(true), "%3", "hi").is_empty());
}

fn run_steps(set_ok: bool, paste_ok: bool, enter: bool) -> (Vec<&'static str>, bool) {
    let mut seen = vec![];
    let mut step = SendStep::SetBuffer;
    while !step_done(&step) {
        let (name, ok) = match step {
            SendStep::SetBuffer => ("set", set_ok),
            SendStep::Paste => ("paste", paste_ok),
            SendStep::PressEnter => ("enter", false),
            SendStep::Done(_) => unreachable!(),
        };
        seen.push(name);
        step = send_next(&step, ok, enter);
    }
    let sent = matches!(step, SendStep::Done(true));
    (seen, sent)
}

#[test]
fn send_steps_follow_the_replies() {
    assert_eq!(run_steps(false, true, true), (vec!["set"], false));
    assert_eq!(run_steps(true, false, true), (vec!["set", "paste"], false));
    assert_eq!(run_steps(true, true, true), (vec!["set", "paste", "enter"], true));
    assert_eq!(run_steps(true, true, false), (vec!["set", "paste"], true));
}

#[test]
fn adding_by_reference_prunes_gone_windows() {
    let windows = vec![
        window("1", "Tests", "running tests", "/repo"),
        window("2", "Sidebar Naming", "renaming tmux tabs", "/repo/sidebar"),
    ];
    let mut layout = SectionLayout::default();
    layout.add_window("Old", "@9");
    assert!(add_section_window_and_prune(&mut layout, &windows, "Review", "@tab:sidebar"));
    assert!(layout.sections[0].windows.is_empty());
    assert_eq!(layout.sections[1].windows, vec!["@2".to_string()]);
    let before = layout.clone();
    assert!(!add_section_window_and_prune(&mut layout, &windows, "Review", "nothing-like-this"));
    assert_eq!(layout, before);
}
