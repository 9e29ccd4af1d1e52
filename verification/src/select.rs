//! Reading a label from the keyboard, one key at a time, and the command
//! that focuses the chosen item.

use vstd::prelude::*;

use crate::hint::{HintItem, HintKind};
use crate::text::push_char;

verus! {

/// A key press, as far as choosing a label is concerned.
#[derive(Debug, Clone, Copy, PartialEq, Eq)]
pub enum KeyInput {
    /// A character key.
    Char(char),
    /// The escape key.
    Esc,
    /// Any other key or event, or a failed read.
    Other,
}

/// How far a label has been typed: the keys typed so far.
#[derive(Debug, Clone, PartialEq, Eq)]
pub struct SelectState {
    pub typed: String,
}

/// What to do after a key.
#[derive(Debug, Clone, PartialEq, Eq)]
pub enum SelectStep {
    /// Read another key, in the given state.
    Wait(SelectState),
    /// The label is complete: choose the item that carries it.
    Choose(String),
    /// Give up without choosing.
    Cancel,
}

/// The decision after one key, when labels have `label_len` letters. A
/// character is added to what was typed, and once that has `label_len`
/// characters it is the label to choose. Escape as the first key gives up
/// and any other first key is ignored; once a key was typed, anything but a
/// character gives up.
pub fn select_step(state: SelectState, label_len: usize, key: KeyInput) -> (r: SelectStep)
    ensures
        match key {
            KeyInput::Char(c) => {
                let typed = state.typed@.push(c);
                if typed.len() >= label_len {
                    r matches SelectStep::Choose(s) && s@ == typed
                } else {
                    r matches SelectStep::Wait(next) && next.typed@ == typed
                }
            },
            KeyInput::Esc => r == SelectStep::Cancel,
            KeyInput::Other => if state.typed@.len() == 0 {
                r matches SelectStep::Wait(next) && next.typed@ == state.typed@
            } else {
                r == SelectStep::Cancel
            },
        },
{
    match key {
        KeyInput::Char(c) => {
            let mut typed = state.typed;
            push_char(&mut typed, c);
            if typed.as_str().unicode_len() >= label_len {
                SelectStep::Choose(typed)
            } else {
                SelectStep::Wait(SelectState { typed })
            }
        },
        KeyInput::Esc => SelectStep::Cancel,
        KeyInput::Other => {
            if state.typed.as_str().unicode_len() == 0 {
                SelectStep::Wait(state)
            } else {
                SelectStep::Cancel
            }
        },
    }
}

/// The subcommand and target that focus an item: `tab` or `agent`, and the
/// item's target id.
pub fn focus_command(item: &HintItem) -> (r: (&'static str, &str))
    ensures
        r.0@ == (match item.kind {
            HintKind::Tab => "tab"@,
            HintKind::Agent => "agent"@,
        }),
        r.1@ == item.target_id@,
{
    let cmd = match item.kind {
        HintKind::Tab => "tab",
        HintKind::Agent => "agent",
    };
    (cmd, item.target_id.as_str())
}

} // verus!
