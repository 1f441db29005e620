use tmux_tabs::app::{handle_event, visible, Action, Event, State};
use tmux_tabs::layout::{build_lines, target_at, Target};
use tmux_tabs::model::{
    adjacent_sidebar_window_with_sections, grouped_windows_with_sections,
    sidebar_window_order_with_sections, Direction, Window,
};
use tmux_tabs::descriptions::{
    cached_record_fields, description_record, normalize_capture, signature, GeneratedMetadata,
};
use tmux_tabs::json::json_string_field;
use tmux_tabs::sections::{Section, SectionLayout};

fn win(index: &str, group: &str) -> Window {
    Window {
        index: index.to_string(),
        window_id: format!("@{index}"),
        name: format!("w{index}"),
        group: group.to_string(),
        ..Default::default()
    }
}

fn state(n: usize, height: usize) -> State {
    State {
        windows: (0..n).map(|i| win(&i.to_string(), "g")).collect(),
        width: 30,
        height,
        ..Default::default()
    }
}

#[test]
fn every_event_leaves_the_scroll_in_view() {
    let mut s = state(12, 7);
    let events = [
        Event::ScrollDown,
        Event::ScrollDown,
        Event::RightClick { row: 1 },
        Event::ScrollDown,
        Event::Click { row: 3 },
        Event::Key('x'),
        Event::RightClick { row: 1 },
        Event::ScrollUp,
        Event::DoubleClick { row: 2 },
    ];
    for _ in 0..10 {
        for e in events.iter() {
            let windows = s.windows.len();
            handle_event(&mut s, e.clone());
            assert!(s.scroll <= s.max_scroll());
            assert_eq!(s.windows.len(), windows);
            assert_eq!((s.width, s.height), (30, 7));
        }
    }
}

#[test]
fn the_wheel_moves_three_lines() {
    let mut s = state(12, 7);
    let max = s.max_scroll();
    assert!(max > 6);
    assert!(handle_event(&mut s, Event::ScrollDown).is_empty());
    assert_eq!(s.scroll, 3);
    handle_event(&mut s, Event::ScrollUp);
    assert_eq!(s.scroll, 0);
    s.scroll = max - 1;
    handle_event(&mut s, Event::ScrollDown);
    assert_eq!(s.scroll, max);
    s.scroll = 2;
    handle_event(&mut s, Event::ScrollUp);
    assert_eq!(s.scroll, 0);
}

#[test]
fn an_out_of_range_scroll_is_pulled_back() {
    let mut s = state(2, 50);
    s.scroll = 40;
    handle_event(&mut s, Event::Key('z'));
    assert_eq!(s.scroll, 0);
    s.scroll = 9;
    s.on_data_changed();
    assert_eq!(s.scroll, 0);
}

#[test]
fn a_menu_entry_emits_its_action_and_closes_the_menu() {
    let mut s = state(3, 100);
    s.menu_window = "1".into();
    let lines = s.lines();
    let row = lines
        .iter()
        .position(|l| matches!(&l.target, Some(Target::RunAction { action, .. }) if action == "refresh PR"))
        .unwrap() as u16;
    assert_eq!(handle_event(&mut s, Event::Click { row }), vec![Action::RefreshPr("1".into())]);
    assert_eq!(s.menu_window, "");
}

#[test]
fn right_clicks_open_then_close_the_same_menu() {
    let mut s = state(3, 100);
    let row = s
        .lines()
        .iter()
        .position(|l| l.target == Some(Target::SwitchTo("2".into())))
        .unwrap() as u16;
    assert!(handle_event(&mut s, Event::RightClick { row }).is_empty());
    assert_eq!(s.menu_window, "2");
    assert!(handle_event(&mut s, Event::RightClick { row }).is_empty());
    assert_eq!(s.menu_window, "");
}

#[test]
fn a_live_menu_survives_data_changes() {
    let mut s = state(3, 100);
    s.menu_window = "1".into();
    s.on_data_changed();
    assert_eq!(s.menu_window, "1");
}

#[test]
fn the_viewport_is_cut_at_the_end() {
    let lines = build_lines(&[win("1", "g")], "", 30);
    assert_eq!(lines.len(), 4);
    assert_eq!(visible(&lines, 1, 2).len(), 2);
    assert_eq!(visible(&lines, 3, 10).len(), 1);
    assert!(visible(&lines, 9, 3).is_empty());
    assert_eq!(target_at(&lines, 2), Some(&Target::SwitchTo("1".into())));
    assert_eq!(target_at(&lines, 0), None);
    assert_eq!(target_at(&lines, 99), None);
}

#[test]
fn adding_a_window_leaves_it_in_exactly_one_section() {
    let mut layout = SectionLayout::default();
    layout.add_window("A", "@1");
    layout.add_window("B", " @1 ");
    layout.add_window(" A ", "@2");
    let holding: Vec<&str> = layout
        .sections
        .iter()
        .filter(|s| s.windows.iter().any(|w| w == "@1"))
        .map(|s| s.name.as_str())
        .collect();
    assert_eq!(holding, vec!["B"]);
    assert_eq!(layout.sections[0].windows, vec!["@2".to_string()]);
}

#[test]
fn blank_names_or_ids_change_nothing() {
    let mut layout = SectionLayout::default();
    layout.add_window("  ", "@1");
    layout.add_window("A", "   ");
    layout.create_section("");
    assert!(layout.sections.is_empty());
}

#[test]
fn creating_a_section_twice_is_creating_it_once() {
    let mut once = SectionLayout::default();
    once.create_section("Review");
    let mut twice = once.clone();
    twice.create_section(" Review ");
    assert_eq!(once, twice);
}

#[test]
fn removing_touches_only_the_named_section() {
    let mut layout = SectionLayout::default();
    layout.add_window("A", "@1");
    layout.sections.push(Section {
        name: "B".into(),
        windows: vec!["@1".into(), "@2".into()],
    });
    layout.remove_window("B", "@1");
    assert_eq!(layout.sections[0].windows, vec!["@1".to_string()]);
    assert_eq!(layout.sections[1].windows, vec!["@2".to_string()]);
}

#[test]
fn pruning_keeps_only_live_ids_in_order() {
    let mut layout = SectionLayout {
        sections: vec![Section {
            name: "A".into(),
            windows: vec!["@3".into(), "@1".into(), "@2".into()],
        }],
    };
    layout.prune_missing(&["@2".to_string(), "@3".to_string()]);
    assert_eq!(layout.sections[0].windows, vec!["@3".to_string(), "@2".to_string()]);
}

#[test]
fn layouts_survive_a_json_round_trip() {
    let layout = SectionLayout {
        sections: vec![
            Section {
                name: "🔎 Review \\ \t".into(),
                windows: vec!["@1".into(), "@22".into()],
            },
            Section {
                name: "Empty".into(),
                windows: vec![],
            },
        ],
    };
    assert_eq!(SectionLayout::from_json(&layout.to_json()), layout);
    assert_eq!(SectionLayout::from_json(&SectionLayout::default().to_json()), SectionLayout::default());
}

#[test]
fn no_tab_is_ever_listed_twice() {
    let mut layout = SectionLayout::default();
    layout.add_window("A", "@1");
    layout.add_window("B", "@1");
    layout.add_window("A", "@2");
    layout.add_window("A", "@2");
    layout.create_section("C");
    layout.add_window(" C ", " @1 ");
    layout.remove_window("A", "@9");
    layout.prune_missing(&["@1".to_string(), "@2".to_string()]);
    layout.delete_section("B");
    let mut seen: Vec<String> = Vec::new();
    for section in &layout.sections {
        for id in &section.windows {
            assert!(!seen.contains(id), "{id} listed twice");
            seen.push(id.clone());
        }
    }
    assert_eq!(seen, vec!["@2".to_string(), "@1".to_string()]);
}

#[test]
fn every_window_is_shown_once_with_other_last_and_herdr_first() {
    let windows = vec![
        win("1", "Other"),
        win("2", "beta"),
        win("3", "Alpha"),
        win("4", "herdr"),
        win("5", "beta"),
        win("6", "Other"),
    ];
    let mut layout = SectionLayout::default();
    layout.add_window("Review", "@5");
    layout.add_window("Review", "@2");
    let groups = grouped_windows_with_sections(&windows, &layout);
    let names: Vec<&str> = groups.iter().map(|(n, _)| n.as_str()).collect();
    assert_eq!(names, vec!["herdr", "Review", "Alpha", "Other"]);
    let members: Vec<Vec<&str>> = groups
        .iter()
        .map(|(_, ws)| ws.iter().map(|w| w.index.as_str()).collect())
        .collect();
    assert_eq!(members, vec![vec!["4"], vec!["5", "2"], vec!["3"], vec!["1", "6"]]);
    let mut order = sidebar_window_order_with_sections(&windows, &layout);
    assert_eq!(order, vec!["4", "5", "2", "3", "1", "6"]);
    order.sort();
    assert_eq!(order, vec!["1", "2", "3", "4", "5", "6"]);
}

#[test]
fn select_next_then_prev_comes_back() {
    let windows = vec![win("1", "b"), win("2", "a"), win("3", "Other"), win("4", "a")];
    let mut layout = SectionLayout::default();
    layout.add_window("S", "@3");
    for w in &windows {
        let next = adjacent_sidebar_window_with_sections(&windows, &layout, &w.index, Direction::Next);
        let back = adjacent_sidebar_window_with_sections(&windows, &layout, &next, Direction::Prev);
        assert_eq!(back, w.index);
        let prev = adjacent_sidebar_window_with_sections(&windows, &layout, &w.index, Direction::Prev);
        let fwd = adjacent_sidebar_window_with_sections(&windows, &layout, &prev, Direction::Next);
        assert_eq!(fwd, w.index);
    }
    let mut seen = vec![];
    let mut cur = "3".to_string();
    for _ in 0..windows.len() {
        seen.push(cur.clone());
        cur = adjacent_sidebar_window_with_sections(&windows, &layout, &cur, Direction::Next);
    }
    assert_eq!(cur, "3");
    assert_eq!(seen, vec!["3", "2", "4", "1"]);
}

#[test]
fn description_records_read_back() {
    let generated = GeneratedMetadata {
        name: "Review \"sidebar\" \\ fix".to_string(),
        description: "reviewing \"quoted\" C:\\path names".to_string(),
    };
    let captured = "line one\n\nline \"two\"\twith tab   \n";
    let sig = signature(captured);
    let record = description_record(&generated, captured, &sig, "3");
    assert_eq!(
        json_string_field(&record, "description"),
        Some(generated.description.clone())
    );
    let (read_sig, read_sample) = cached_record_fields(&record);
    assert_eq!(read_sig, sig);
    assert_eq!(read_sample, normalize_capture(captured));
}

#[test]
fn adding_a_tab_keeps_the_other_tabs_in_order() {
    let mut layout = SectionLayout {
        sections: vec![
            Section { name: "A".into(), windows: vec!["@1".into(), "@2".into(), "@3".into(), "@2".into()] },
            Section { name: "B".into(), windows: vec!["@4".into()] },
        ],
    };
    layout.add_window("B", "@2");
    assert_eq!(layout.sections[0].windows, vec!["@1".to_string(), "@3".to_string()]);
    assert_eq!(layout.sections[1].windows, vec!["@4".to_string(), "@2".to_string()]);
    layout.add_window("C", "@9");
    assert_eq!(layout.sections[2].windows, vec!["@9".to_string()]);
}

#[test]
fn a_name_like_id_in_the_last_section_reads_back() {
    let layout = SectionLayout {
        sections: vec![
            Section { name: "A".into(), windows: vec!["@1".into()] },
            Section { name: "B".into(), windows: vec!["name".into(), "x".into()] },
        ],
    };
    assert_eq!(SectionLayout::from_json(&layout.to_json()), layout);
}

#[test]
fn a_name_like_id_before_another_section_reads_back() {
    let layout = SectionLayout {
        sections: vec![
            Section { name: "A".into(), windows: vec!["@1".into(), "name".into(), "@2".into()] },
            Section { name: "B".into(), windows: vec!["a:b".into()] },
        ],
    };
    assert_eq!(SectionLayout::from_json(&layout.to_json()), layout);
}
