use herdr_hint::{render, tab_cell, HintItem, HintKind};

fn tab(target_id: &str, name: &str, group: &str, focused: bool) -> HintItem {
    HintItem {
        label: String::new(),
        kind: HintKind::Tab,
        target_id: target_id.into(),
        display_name: name.into(),
        status: String::new(),
        focused,
        context: None,
        group: Some(group.into()),
        title: None,
    }
}

fn agent(target_id: &str, name: &str, status: &str, context: Option<&str>) -> HintItem {
    HintItem {
        label: String::new(),
        kind: HintKind::Agent,
        target_id: target_id.into(),
        display_name: name.into(),
        status: status.into(),
        focused: false,
        context: context.map(Into::into),
        group: None,
        title: None,
    }
}

#[test]
fn render_groups_tabs_by_workspace() {
    let items = vec![
        HintItem { label: "a".into(), ..tab("w7:t1", "1", "herdr", true) },
        HintItem { label: "b".into(), ..tab("w7:t2", "2", "herdr", false) },
        HintItem { label: "c".into(), ..tab("w9:t1", "1", "ga-pms", false) },
        HintItem { label: "d".into(), ..agent("term-1", "coder", "working", Some("herdr:main")) },
    ];

    let output = render(&items);

    assert!(output.contains(" herdr\r\n"));
    assert!(output.contains("[a]  1"));
    assert!(output.contains("[b]  2"));
    assert!(output.contains(" ga-pms\r\n"));
    assert!(output.contains("[c]  1"));
    assert!(output.contains("Agents"));
    assert!(output.contains("working"));
    assert!(output.contains("[d]"));
    assert!(output.contains("herdr:main"));
}

#[test]
fn render_tabs_in_two_columns() {
    let items = vec![
        HintItem { label: "a".into(), ..tab("w7:t1", "1", "herdr", true) },
        HintItem { label: "b".into(), ..tab("w7:t2", "2", "herdr", false) },
        HintItem { label: "c".into(), ..tab("w7:t3", "3", "herdr", false) },
        HintItem { label: "d".into(), ..tab("w7:t4", "4", "herdr", false) },
    ];

    let output = render(&items);
    let lines: Vec<&str> = output.split("\r\n").collect();

    let row1 = lines.iter().find(|l| l.contains("[a]")).unwrap();
    assert!(row1.contains("[b]"), "First row should contain both [a] and [b]");
    let row2 = lines.iter().find(|l| l.contains("[c]")).unwrap();
    assert!(row2.contains("[d]"), "Second row should contain both [c] and [d]");
}

#[test]
fn render_tabs_two_columns_odd_count() {
    let items = vec![
        HintItem { label: "a".into(), ..tab("w7:t1", "1", "herdr", false) },
        HintItem { label: "b".into(), ..tab("w7:t2", "2", "herdr", false) },
        HintItem { label: "c".into(), ..tab("w7:t3", "3", "herdr", false) },
    ];

    let output = render(&items);
    let lines: Vec<&str> = output.split("\r\n").collect();

    let row1 = lines.iter().find(|l| l.contains("[a]")).unwrap();
    assert!(row1.contains("[b]"), "First row should contain both [a] and [b]");
    let row2 = lines.iter().find(|l| l.contains("[c]")).unwrap();
    assert!(!row2.contains("[a]") && !row2.contains("[b]"), "[c] should be alone");
}

#[test]
fn render_agents_single_line_with_status_and_title() {
    let mut a1 = agent("term-1", "coder", "idle", Some("herdr:main"));
    a1.title = Some("Fix login bug".into());
    let mut a2 = agent("term-2", "coder", "working", Some("ga-pms:feat"));
    a2.title = Some("Add feature".into());
    a2.focused = true;
    let items = vec![
        HintItem { label: "a".into(), ..a1 },
        HintItem { label: "b".into(), ..a2 },
    ];

    let output = render(&items);
    let line_a = output.split("\r\n").find(|l| l.contains("[a]")).unwrap();
    let line_b = output.split("\r\n").find(|l| l.contains("[b]")).unwrap();

    assert!(line_a.contains("idle"));
    assert!(line_a.contains("herdr:main"));
    assert!(line_a.contains("Fix login bug"));
    assert!(!line_a.contains("coder"));

    assert!(line_b.contains("working"));
    assert!(line_b.contains("ga-pms:feat"));
    assert!(line_b.contains("Add feature"));
}

#[test]
fn render_of_nothing_is_empty() {
    assert_eq!(render(&[]), "");
}

#[test]
fn render_exact_text_of_tabs_and_agents() {
    let items = vec![
        HintItem { label: "a".into(), ..tab("w7:t1", "main", "herdr", true) },
        HintItem { label: "b".into(), ..tab("w7:t2", "x", "herdr", false) },
        HintItem { label: "c".into(), ..tab("w7:t3", "logs", "herdr", false) },
        HintItem { label: "d".into(), ..tab("w9:t1", "1", "ga-pms", false) },
        HintItem { label: "e".into(), ..agent("term-1", "coder", "idle", Some("herdr:main")) },
        HintItem {
            label: "f".into(),
            title: Some("T".into()),
            focused: true,
            ..agent("term-2", "codex", "working", None)
        },
    ];
    let expected = concat(&[
        " herdr\r\n",
        "   * [a]  main  ",
        "  [b]  x\r\n",
        "     [c]  logs\r\n",
        "\r\n",
        " ga-pms\r\n",
        "     [d]  1\r\n",
        "\r\n",
        " Agents\r\n",
        "     [e]  idle     herdr:main  \r\n",
        "   * [f]  working    \x1b[2mT\x1b[0m\r\n",
    ]);
    assert_eq!(render(&items), expected);
}

fn concat(parts: &[&str]) -> String {
    let mut s = String::new();
    for p in parts {
        s.push_str(p);
    }
    s
}

#[test]
fn render_gathers_all_tabs_of_a_workspace_in_one_block() {
    let items = vec![
        HintItem { label: "a".into(), ..tab("1", "1", "one", false) },
        HintItem { label: "b".into(), ..tab("2", "2", "two", false) },
        HintItem { label: "c".into(), ..tab("3", "3", "one", false) },
    ];
    let output = render(&items);
    assert_eq!(output.matches(" one\r\n").count(), 1);
    assert_eq!(output.matches(" two\r\n").count(), 1);
    assert_eq!(
        output,
        " one\r\n     [a]  1    [c]  3\r\n\r\n two\r\n     [b]  2\r\n\r\n"
    );
}

#[test]
fn render_orders_groups_by_first_appearance() {
    let items = vec![
        HintItem { label: "a".into(), ..tab("1", "1", "x", false) },
        HintItem { label: "b".into(), ..tab("2", "2", "y", false) },
        HintItem { label: "c".into(), ..tab("3", "3", "z", false) },
        HintItem { label: "d".into(), ..tab("4", "4", "y", false) },
        HintItem { label: "e".into(), ..tab("5", "5", "x", false) },
    ];
    let output = render(&items);
    let x = output.find(" x\r\n").unwrap();
    let y = output.find(" y\r\n").unwrap();
    let z = output.find(" z\r\n").unwrap();
    assert!(x < y && y < z);
    assert!(output.contains("     [a]  1    [e]  5\r\n"));
    assert!(output.contains("     [b]  2    [d]  4\r\n"));
    assert!(output.contains("     [c]  3\r\n"));
}

#[test]
fn render_groups_tabs_without_workspace_under_question_mark() {
    let items = vec![
        HintItem { label: "a".into(), group: None, ..tab("1", "1", "", false) },
        HintItem { label: "b".into(), ..tab("2", "2", "?", false) },
    ];
    let output = render(&items);
    assert_eq!(output, " ?\r\n     [a]  1    [b]  2\r\n\r\n");
}

#[test]
fn render_pads_by_bytes_measured_width() {
    // The column width counts bytes while padding counts characters.
    let items = vec![
        HintItem { label: "a".into(), ..tab("1", "é", "g", false) },
        HintItem { label: "b".into(), ..tab("2", "x", "g", false) },
    ];
    let output = render(&items);
    // cell "  [a]  é" is 8 characters and 9 bytes, so the width is 11.
    assert_eq!(output, " g\r\n     [a]  é     [b]  x\r\n\r\n");
}

#[test]
fn tab_cell_marks_focus() {
    let t = HintItem { label: "k".into(), ..tab("1", "name", "g", true) };
    assert_eq!(tab_cell(&t), "* [k]  name");
    let u = HintItem { label: "k".into(), ..tab("1", "name", "g", false) };
    assert_eq!(tab_cell(&u), "  [k]  name");
}

#[test]
fn render_of_agents_alone_is_heading_and_lines() {
    let items = vec![
        HintItem { label: "a".into(), ..agent("term-1", "coder", "idle", Some("r:main")) },
        HintItem { label: "b".into(), ..agent("term-2", "codex", "working", None) },
    ];
    assert_eq!(
        render(&items),
        " Agents\r\n     [a]  idle     r:main  \r\n     [b]  working    \r\n"
    );
}

#[test]
fn render_of_one_group_is_name_rows_and_blank_line() {
    let items = vec![
        HintItem { label: "a".into(), ..tab("1", "ab", "w", false) },
        HintItem { label: "b".into(), ..tab("2", "c", "w", true) },
        HintItem { label: "c".into(), ..tab("3", "d", "w", false) },
    ];
    assert_eq!(render(&items), " w\r\n     [a]  ab  * [b]  c\r\n     [c]  d\r\n\r\n");
}

#[test]
fn render_counts_one_line_end_per_line() {
    let items = vec![
        HintItem { label: "a".into(), ..tab("1", "1", "x", false) },
        HintItem { label: "b".into(), ..tab("2", "2", "y", false) },
        HintItem { label: "c".into(), ..tab("3", "3", "x", false) },
        HintItem { label: "d".into(), ..tab("4", "4", "x", false) },
        HintItem { label: "e".into(), ..agent("t", "n", "idle", None) },
    ];
    let output = render(&items);
    // Two groups: x with three tabs (two rows), y with one (one row);
    // two blank lines; then the agents' heading and one line.
    assert_eq!(output.matches("\r\n").count(), 2 + (1 + 2) + (1 + 1) + (1 + 1));
    assert_eq!(output.matches('\n').count(), 9);
    assert!(output.ends_with("\r\n"));
}

#[test]
fn render_shows_each_label_once_tabs_before_agents() {
    let items = vec![
        HintItem { label: "a".into(), ..tab("1", "1", "x", false) },
        HintItem { label: "b".into(), ..tab("2", "2", "y", false) },
        HintItem { label: "c".into(), ..tab("3", "3", "x", false) },
        HintItem {
            label: "d".into(),
            title: Some("T".into()),
            ..agent("t1", "n", "idle", None)
        },
        HintItem { label: "e".into(), ..agent("t2", "n", "busy", None) },
    ];
    let output = render(&items);
    for label in ["[a]", "[b]", "[c]", "[d]", "[e]"] {
        assert_eq!(output.matches(label).count(), 1, "{label}");
    }
    let pos = |l: &str| output.find(l).unwrap();
    let agents = output.find(" Agents\r\n").unwrap();
    assert!(pos("[a]") < pos("[c]") && pos("[c]") < pos("[b]"));
    assert!(pos("[b]") < agents && agents < pos("[d]") && pos("[d]") < pos("[e]"));
}

#[test]
fn render_agent_line_holds_status_and_context() {
    let items = vec![
        HintItem { label: "a".into(), ..tab("1", "1", "x", false) },
        HintItem { label: "b".into(), ..agent("t", "n", "working", Some("repo:dev")) },
    ];
    let output = render(&items);
    let agents = output.find(" Agents\r\n").unwrap();
    let line = output.split("\r\n").find(|l| l.contains("[b]")).unwrap();
    assert!(line.contains("working"));
    assert!(line.contains("repo:dev"));
    assert!(output.find("[b]").unwrap() > agents);
}
