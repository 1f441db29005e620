use tmux_tabs::sections::{Section, SectionLayout};

#[test]
fn create_delete_and_roundtrip_sections() {
    let mut layout = SectionLayout::default();
    layout.create_section("Review");
    layout.create_section("Review");
    layout.create_section("Build");

    assert_eq!(layout.sections.len(), 2);
    assert_eq!(layout.sections[0].name, "Review");

    let decoded = SectionLayout::from_json(&layout.to_json());
    assert_eq!(decoded, layout);

    layout.delete_section("Review");
    assert_eq!(
        layout.sections,
        vec![Section {
            name: "Build".into(),
            windows: vec![]
        }]
    );
}

#[test]
fn add_window_moves_it_out_of_other_sections() {
    let mut layout = SectionLayout::default();
    layout.add_window("Review", "@7");
    layout.add_window("Tests", "@7");
    layout.add_window("Tests", "@9");

    assert_eq!(
        layout.sections[0],
        Section {
            name: "Review".into(),
            windows: vec![]
        }
    );
    assert_eq!(
        layout.sections[1],
        Section {
            name: "Tests".into(),
            windows: vec!["@7".into(), "@9".into()]
        }
    );
}

#[test]
fn remove_window_only_affects_named_section() {
    let mut layout = SectionLayout::default();
    layout.add_window("Review", "@7");
    layout.add_window("Review", "@9");
    layout.remove_window("Review", "@7");

    assert_eq!(layout.sections[0].windows, vec!["@9".to_string()]);
}

#[test]
fn prune_missing_removes_dead_window_ids() {
    let mut layout = SectionLayout::default();
    layout.add_window("Review", "@7");
    layout.add_window("Review", "@9");
    layout.prune_missing(&["@9".to_string()]);

    assert_eq!(layout.sections[0].windows, vec!["@9".to_string()]);
}

#[test]
fn to_json_writes_the_expected_document() {
    let mut layout = SectionLayout::default();
    assert_eq!(layout.to_json(), "{\n  \"sections\": []\n}\n");
    layout.add_window("Re\"view", "@1");
    layout.add_window("Re\"view", "@2");
    layout.create_section("Empty");
    assert_eq!(
        layout.to_json(),
        "{\n  \"sections\": [\n    {\n      \"name\": \"Re\\\"view\",\n      \"windows\": [\"@1\", \"@2\"]\n    },\n    {\n      \"name\": \"Empty\",\n      \"windows\": []\n    }\n  ]\n}\n"
    );
    assert_eq!(SectionLayout::from_json(&layout.to_json()), layout);
}

#[test]
fn from_json_reads_escapes_and_stops_at_broken_text() {
    let layout = SectionLayout::from_json(
        "{\"sections\": [{\"name\": \"a\\tb\", \"windows\": [\"@1\", \"x\\\\y\"]}, {\"name\": \"c\"",
    );
    assert_eq!(
        layout.sections,
        vec![Section {
            name: "a\tb".into(),
            windows: vec!["@1".into(), "x\\y".into()]
        }]
    );
    assert!(SectionLayout::from_json("not json").sections.is_empty());
}

#[test]
fn create_section_trims_and_ignores_blank_names() {
    let mut layout = SectionLayout::default();
    layout.create_section("   ");
    assert!(layout.sections.is_empty());
    layout.create_section("  Review \n");
    assert_eq!(layout.sections[0].name, "Review");
    layout.create_section("Review");
    assert_eq!(layout.sections.len(), 1);
}

#[test]
fn add_window_ignores_blank_names_and_ids() {
    let mut layout = SectionLayout::default();
    layout.add_window(" ", "@1");
    layout.add_window("Review", "  ");
    assert!(layout.sections.is_empty());
    layout.add_window(" Review ", " @1 ");
    assert_eq!(
        layout.sections,
        vec![Section {
            name: "Review".into(),
            windows: vec!["@1".into()]
        }]
    );
}
