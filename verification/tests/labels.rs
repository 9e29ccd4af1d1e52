use herdr_hint::hint::{label_for, label_width_for};
use herdr_hint::{assign_labels, resolve_input, uses_double_labels, HintItem, HintKind};

fn tab(target_id: &str, name: &str, group: &str, focused: bool) -> HintItem {
    HintItem {
        label: String::new(),
        kind: HintKind::Tab,
        target_id: target_id.into(),
        display_name: name.into(),
        status: String::new(),
        focused,
        context: None,
        group: Some(group.into()),
        title: None,
    }
}

fn agent(target_id: &str, name: &str, status: &str, context: Option<&str>) -> HintItem {
    HintItem {
        label: String::new(),
        kind: HintKind::Agent,
        target_id: target_id.into(),
        display_name: name.into(),
        status: status.into(),
        focused: false,
        context: context.map(Into::into),
        group: None,
        title: None,
    }
}

#[test]
fn assign_labels_tabs_then_agents() {
    let tabs = vec![tab("w7:t1", "1", "herdr", true)];
    let agents = vec![
        agent("term-1", "coder", "idle", None),
        agent("term-2", "codex", "working", None),
    ];

    let items = assign_labels(tabs, agents);

    assert_eq!(items.len(), 3);
    assert_eq!(items[0].label, "a");
    assert_eq!(items[0].kind, HintKind::Tab);
    assert_eq!(items[1].label, "b");
    assert_eq!(items[1].kind, HintKind::Agent);
    assert_eq!(items[2].label, "c");
}

#[test]
fn assign_labels_double_when_over_26() {
    let tabs: Vec<HintItem> = (0..30)
        .map(|i| tab(&format!("t-{i}"), &format!("tab-{i}"), "ws", false))
        .collect();

    let items = assign_labels(tabs, vec![]);

    assert_eq!(items.len(), 30);
    assert_eq!(items[0].label, "aa");
    assert_eq!(items[1].label, "ab");
    assert_eq!(items[25].label, "az");
    assert_eq!(items[26].label, "ba");
    assert_eq!(items[29].label, "bd");
}

#[test]
fn assign_labels_all_double_when_agents_push_over_26() {
    let tabs: Vec<HintItem> = (0..26)
        .map(|i| tab(&format!("t-{i}"), &format!("{i}"), "ws", false))
        .collect();
    let agents = vec![agent("term-1", "coder", "idle", None)];

    let items = assign_labels(tabs, agents);

    assert_eq!(items.len(), 27);
    assert_eq!(items[0].label, "aa");
    assert_eq!(items[26].label, "ba");
    assert_eq!(items[26].kind, HintKind::Agent);
}

#[test]
fn resolve_input_finds_matching_item() {
    let items = vec![
        HintItem { label: "a".into(), ..tab("w7:t1", "1", "herdr", true) },
        HintItem { label: "b".into(), ..agent("term-1", "coder", "idle", None) },
    ];

    let found = resolve_input(&items, "b");
    assert_eq!(found.unwrap().target_id, "term-1");
}

#[test]
fn resolve_input_returns_none_for_unknown_key() {
    let items = vec![HintItem { label: "a".into(), ..tab("w7:t1", "1", "herdr", false) }];
    assert!(resolve_input(&items, "z").is_none());
}

#[test]
fn assign_labels_keeps_every_other_field() {
    let mut a = agent("term-9", "coder", "working", Some("repo:main"));
    a.title = Some("Fix it".into());
    a.focused = true;
    let items = assign_labels(vec![tab("w1:t1", "editor", "ws", true)], vec![a]);
    assert_eq!(items[0].target_id, "w1:t1");
    assert_eq!(items[0].display_name, "editor");
    assert_eq!(items[0].group, Some("ws".to_string()));
    assert!(items[0].focused);
    assert_eq!(items[1].target_id, "term-9");
    assert_eq!(items[1].status, "working");
    assert_eq!(items[1].context, Some("repo:main".to_string()));
    assert_eq!(items[1].title, Some("Fix it".to_string()));
    assert!(items[1].focused);
}

#[test]
fn assign_labels_replaces_existing_labels() {
    let t = HintItem { label: "zz".into(), ..tab("t", "n", "g", false) };
    let items = assign_labels(vec![t], vec![]);
    assert_eq!(items[0].label, "a");
}

#[test]
fn assign_labels_of_nothing_is_empty() {
    assert!(assign_labels(vec![], vec![]).is_empty());
}

#[test]
fn assign_labels_exactly_26_stays_single() {
    let tabs: Vec<HintItem> = (0..26).map(|i| tab(&format!("t{i}"), "n", "g", false)).collect();
    let items = assign_labels(tabs, vec![]);
    assert_eq!(items[0].label, "a");
    assert_eq!(items[25].label, "z");
    assert!(!uses_double_labels(&items));
}

#[test]
fn assigned_labels_are_distinct_and_each_selects_its_item() {
    let tabs: Vec<HintItem> = (0..700).map(|i| tab(&format!("t{i}"), "n", "g", false)).collect();
    let items = assign_labels(tabs, vec![]);
    assert_eq!(items[0].label, "aaa");
    assert_eq!(items[675].label, "azz");
    assert_eq!(items[676].label, "baa");
    assert_eq!(items[699].label, "bax");
    for (i, item) in items.iter().enumerate() {
        assert_eq!(item.label.len(), 3);
        assert!(item.label.chars().all(|c| c.is_ascii_lowercase()));
        let found = resolve_input(&items, &item.label).unwrap();
        assert_eq!(found.target_id, format!("t{i}"));
    }
    assert!(uses_double_labels(&items));
}

#[test]
fn labels_stay_two_letters_up_to_676_items() {
    let tabs: Vec<HintItem> = (0..676).map(|i| tab(&format!("t{i}"), "n", "g", false)).collect();
    let items = assign_labels(tabs, vec![]);
    assert_eq!(items[0].label, "aa");
    assert_eq!(items[675].label, "zz");
}

#[test]
fn third_letter_from_677_items() {
    let tabs: Vec<HintItem> = (0..676).map(|i| tab(&format!("t{i}"), "n", "g", false)).collect();
    let agents = vec![agent("term-1", "coder", "idle", None)];
    let items = assign_labels(tabs, agents);
    assert_eq!(items[0].label, "aaa");
    assert_eq!(items[675].label, "azz");
    assert_eq!(items[676].label, "baa");
    assert_eq!(items[676].kind, HintKind::Agent);
}

#[test]
fn label_for_spells_the_index_in_letters() {
    assert_eq!(label_for(0, 1), "a");
    assert_eq!(label_for(25, 1), "z");
    assert_eq!(label_for(0, 2), "aa");
    assert_eq!(label_for(27, 2), "bb");
    assert_eq!(label_for(675, 2), "zz");
    assert_eq!(label_for(676, 3), "baa");
    assert_eq!(label_for(17575, 3), "zzz");
}

#[test]
fn label_width_grows_with_the_count() {
    assert_eq!(label_width_for(0), 1);
    assert_eq!(label_width_for(1), 1);
    assert_eq!(label_width_for(26), 1);
    assert_eq!(label_width_for(27), 2);
    assert_eq!(label_width_for(676), 2);
    assert_eq!(label_width_for(677), 3);
    assert_eq!(label_width_for(17576), 3);
    assert_eq!(label_width_for(17577), 4);
}

#[test]
fn uses_double_labels_checks_first_label() {
    let none: Vec<HintItem> = vec![];
    assert!(!uses_double_labels(&none));
    let one = vec![HintItem { label: "q".into(), ..tab("t", "n", "g", false) }];
    assert!(!uses_double_labels(&one));
    let two = vec![HintItem { label: "qa".into(), ..tab("t", "n", "g", false) }];
    assert!(uses_double_labels(&two));
    let wide = vec![HintItem { label: "é".into(), ..tab("t", "n", "g", false) }];
    assert!(uses_double_labels(&wide));
}

#[test]
fn resolve_input_returns_the_first_match() {
    let items = vec![
        HintItem { label: "a".into(), ..tab("first", "1", "g", false) },
        HintItem { label: "a".into(), ..tab("second", "2", "g", false) },
    ];
    assert_eq!(resolve_input(&items, "a").unwrap().target_id, "first");
    assert!(resolve_input(&items, "").is_none());
}
