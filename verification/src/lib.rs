//! Hint labels for jumping to the tabs and agents of a terminal
//! workspace manager: items are labelled with the letters `a` to `z` (`a`,
//! `b`, ...; `aa`, `ab`, ... beyond twenty-six items; a third letter beyond
//! 676), shown as an overview with the tabs grouped by workspace, and a
//! typed label selects its item.

pub mod hint;
pub mod render;
pub mod repo;
pub mod select;
pub mod source;
pub mod text;

pub use hint::{
    assign_labels, label_length, resolve_input, uses_double_labels, HintItem, HintKind,
};
pub use render::{render, tab_cell};
pub use repo::{repo_context, repo_name_from_paths};
pub use select::{focus_command, select_step, KeyInput, SelectState, SelectStep};
pub use source::{agent_item, agent_items, tab_item, tab_items, AgentInfo, TabInfo};
