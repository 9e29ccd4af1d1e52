use herdr_hint::{
    assign_labels, focus_command, label_length, resolve_input, select_step, HintItem, HintKind,
    KeyInput, SelectState, SelectStep,
};

fn tab(target_id: &str) -> HintItem {
    HintItem {
        label: String::new(),
        kind: HintKind::Tab,
        target_id: target_id.into(),
        display_name: "n".into(),
        status: String::new(),
        focused: false,
        context: None,
        group: Some("g".into()),
        title: None,
    }
}

fn empty() -> SelectState {
    SelectState { typed: String::new() }
}

fn typed(s: &str) -> SelectState {
    SelectState { typed: s.to_string() }
}

#[test]
fn single_key_chooses_with_single_labels() {
    let step = select_step(empty(), 1, KeyInput::Char('c'));
    assert_eq!(step, SelectStep::Choose("c".to_string()));
}

#[test]
fn two_keys_choose_with_double_labels() {
    let step = select_step(empty(), 2, KeyInput::Char('b'));
    assert_eq!(step, SelectStep::Wait(typed("b")));
    let step = select_step(typed("b"), 2, KeyInput::Char('d'));
    assert_eq!(step, SelectStep::Choose("bd".to_string()));
}

#[test]
fn three_keys_choose_with_three_letter_labels() {
    let step = select_step(empty(), 3, KeyInput::Char('b'));
    assert_eq!(step, SelectStep::Wait(typed("b")));
    let step = select_step(typed("b"), 3, KeyInput::Char('a'));
    assert_eq!(step, SelectStep::Wait(typed("ba")));
    let step = select_step(typed("ba"), 3, KeyInput::Char('c'));
    assert_eq!(step, SelectStep::Choose("bac".to_string()));
}

#[test]
fn escape_cancels() {
    assert_eq!(select_step(empty(), 1, KeyInput::Esc), SelectStep::Cancel);
    assert_eq!(select_step(empty(), 2, KeyInput::Esc), SelectStep::Cancel);
    assert_eq!(select_step(typed("a"), 2, KeyInput::Esc), SelectStep::Cancel);
}

#[test]
fn other_keys_are_ignored_first_and_cancel_later() {
    assert_eq!(select_step(empty(), 2, KeyInput::Other), SelectStep::Wait(empty()));
    assert_eq!(select_step(typed("a"), 2, KeyInput::Other), SelectStep::Cancel);
}

#[test]
fn typed_label_selects_item() {
    let tabs: Vec<HintItem> = (0..30).map(|i| tab(&format!("t{i}"))).collect();
    let items = assign_labels(tabs, vec![]);
    let label_len = label_length(&items);
    assert_eq!(label_len, 2);
    let mut state = empty();
    let mut chosen = None;
    for key in [KeyInput::Other, KeyInput::Char('b'), KeyInput::Char('c')] {
        match select_step(state.clone(), label_len, key) {
            SelectStep::Wait(next) => state = next,
            SelectStep::Choose(input) => chosen = resolve_input(&items, &input).cloned(),
            SelectStep::Cancel => break,
        }
    }
    assert_eq!(chosen.unwrap().target_id, "t28");
}

#[test]
fn typed_three_letter_label_selects_item() {
    let tabs: Vec<HintItem> = (0..700).map(|i| tab(&format!("t{i}"))).collect();
    let items = assign_labels(tabs, vec![]);
    let label_len = label_length(&items);
    assert_eq!(label_len, 3);
    let mut state = empty();
    let mut chosen = None;
    for key in [KeyInput::Char('b'), KeyInput::Char('a'), KeyInput::Char('c')] {
        match select_step(state.clone(), label_len, key) {
            SelectStep::Wait(next) => state = next,
            SelectStep::Choose(input) => chosen = resolve_input(&items, &input).cloned(),
            SelectStep::Cancel => break,
        }
    }
    assert_eq!(chosen.unwrap().target_id, "t678");
}

#[test]
fn focus_command_by_kind() {
    let t = tab("w1:t1");
    assert_eq!(focus_command(&t), ("tab", "w1:t1"));
    let a = HintItem { kind: HintKind::Agent, target_id: "ws:p1".into(), ..tab("x") };
    assert_eq!(focus_command(&a), ("agent", "ws:p1"));
}
