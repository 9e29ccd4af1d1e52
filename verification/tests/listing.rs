use herdr_hint::{agent_item, agent_items, tab_items, AgentInfo, HintKind, TabInfo};

fn tab_info(tab_id: &str, label: &str, workspace_id: &str, focused: bool) -> TabInfo {
    TabInfo {
        tab_id: tab_id.into(),
        label: label.into(),
        workspace_id: workspace_id.into(),
        focused,
    }
}

fn agent_info(
    pane_id: &str,
    name: Option<&str>,
    kind: Option<&str>,
    status: &str,
    cwd: Option<&str>,
    focused: bool,
    title: Option<&str>,
) -> AgentInfo {
    AgentInfo {
        pane_id: pane_id.into(),
        name: name.map(Into::into),
        agent: kind.map(Into::into),
        agent_status: status.into(),
        cwd: cwd.map(Into::into),
        focused,
        terminal_title_stripped: title.map(Into::into),
    }
}

#[test]
fn tab_items_are_grouped_by_workspace_label() {
    let labels = vec![
        ("w7".to_string(), "herdr".to_string()),
        ("w9".to_string(), "ga-pms".to_string()),
    ];
    let tabs = vec![
        tab_info("w7:t1", "1", "w7", true),
        tab_info("w7:t2", "2", "w7", false),
        tab_info("w9:t1", "1", "w9", false),
    ];

    let items = tab_items(tabs, &labels);

    assert_eq!(items.len(), 3);
    assert_eq!(items[0].kind, HintKind::Tab);
    assert_eq!(items[0].target_id, "w7:t1");
    assert_eq!(items[0].display_name, "1");
    assert_eq!(items[0].group, Some("herdr".into()));
    assert!(items[0].focused);
    assert_eq!(items[2].group, Some("ga-pms".into()));
    assert_eq!(items[0].label, "");
    assert_eq!(items[0].status, "");
    assert_eq!(items[0].context, None);
    assert_eq!(items[0].title, None);
}

#[test]
fn tab_items_without_known_workspace_have_no_group() {
    let labels = vec![("w1".to_string(), "one".to_string()), ("w1".to_string(), "dup".to_string())];
    let items = tab_items(vec![tab_info("t", "x", "w2", false), tab_info("u", "y", "w1", false)], &labels);
    assert_eq!(items[0].group, None);
    assert_eq!(items[1].group, Some("one".into()));
}

#[test]
fn agent_items_resolve_context_and_names() {
    let agents = vec![
        agent_info(
            "ws-1:p1",
            Some("my-agent"),
            Some("coder-cli"),
            "working",
            Some("/home/user/repo-a"),
            true,
            Some("Fix login bug"),
        ),
        agent_info("ws-1:p2", None, Some("coder"), "idle", Some("/home/user/repo-b"), false, None),
    ];
    let resolver = |cwd: &str| -> Option<String> {
        match cwd {
            "/home/user/repo-a" => Some("repo-a:main".into()),
            "/home/user/repo-b" => Some("repo-b:feature".into()),
            _ => None,
        }
    };

    let items = agent_items(agents, &resolver);

    assert_eq!(items.len(), 2);
    assert_eq!(items[0].kind, HintKind::Agent);
    assert_eq!(items[0].target_id, "ws-1:p1");
    assert_eq!(items[0].display_name, "my-agent");
    assert_eq!(items[0].context, Some("repo-a:main".into()));
    assert_eq!(items[0].title, Some("Fix login bug".into()));
    assert_eq!(items[0].status, "working");
    assert!(items[0].focused);
    assert_eq!(items[1].target_id, "ws-1:p2");
    assert_eq!(items[1].display_name, "coder");
    assert_eq!(items[1].context, Some("repo-b:feature".into()));
    assert_eq!(items[1].title, None);
}

#[test]
fn agent_without_names_is_shown_by_pane_id() {
    let item = agent_item(agent_info("ws:p9", None, None, "idle", None, false, None), None);
    assert_eq!(item.display_name, "ws:p9");
    assert_eq!(item.target_id, "ws:p9");
    assert_eq!(item.group, None);
}

#[test]
fn agent_without_cwd_gets_no_context() {
    let item = agent_item(
        agent_info("p", Some("n"), None, "idle", None, false, None),
        Some("ignored".into()),
    );
    assert_eq!(item.context, None);
    let calls = std::cell::Cell::new(0);
    let resolver = |_: &str| -> Option<String> {
        calls.set(calls.get() + 1);
        Some("x".into())
    };
    let items = agent_items(vec![agent_info("p", None, None, "idle", None, false, None)], &resolver);
    assert_eq!(items[0].context, None);
    assert_eq!(calls.get(), 0);
}
