//! Hint items from the tab and agent listings of the workspace manager.

use vstd::prelude::*;

use crate::hint::{HintItem, HintKind};

verus! {

/// A tab as the workspace manager lists it.
pub struct TabInfo {
    pub tab_id: String,
    pub label: String,
    pub workspace_id: String,
    pub focused: bool,
}

/// An agent as the workspace manager lists it.
pub struct AgentInfo {
    pub pane_id: String,
    pub name: Option<String>,
    pub agent: Option<String>,
    pub agent_status: String,
    pub cwd: Option<String>,
    pub focused: bool,
    pub terminal_title_stripped: Option<String>,
}

/// Entry `j` is the first of `labels` whose workspace id is `id`.
pub open spec fn first_workspace_match(labels: Seq<(String, String)>, id: Seq<char>, j: int) -> bool {
    &&& 0 <= j < labels.len()
    &&& labels[j].0@ == id
    &&& forall|k: int| 0 <= k < j ==> #[trigger] labels[k].0@ != id
}

/// The label of the first workspace with id `id`, if any.
pub open spec fn workspace_label(labels: Seq<(String, String)>, id: Seq<char>) -> Option<String> {
    if exists|j: int| first_workspace_match(labels, id, j) {
        Some(labels[choose|j: int| first_workspace_match(labels, id, j)].1)
    } else {
        None
    }
}

/// `item` is the unlabelled hint for `tab`, in workspace group `group`.
pub open spec fn is_tab_item(item: HintItem, tab: TabInfo, group: Option<String>) -> bool {
    &&& item.label@ == Seq::<char>::empty()
    &&& item.kind == HintKind::Tab
    &&& item.target_id == tab.tab_id
    &&& item.display_name == tab.label
    &&& item.status@ == Seq::<char>::empty()
    &&& item.focused == tab.focused
    &&& item.context is None
    &&& item.group == group
    &&& item.title is None
}

/// The name shown for an agent: its name, else its agent kind, else its pane
/// id.
pub open spec fn agent_display_name(agent: AgentInfo) -> String {
    match agent.name {
        Some(n) => n,
        None => match agent.agent {
            Some(a) => a,
            None => agent.pane_id,
        },
    }
}

/// `item` is the unlabelled hint for `agent`, with the given context.
pub open spec fn is_agent_item(item: HintItem, agent: AgentInfo, context: Option<String>) -> bool {
    &&& item.label@ == Seq::<char>::empty()
    &&& item.kind == HintKind::Agent
    &&& item.target_id == agent.pane_id
    &&& item.display_name == agent_display_name(agent)
    &&& item.status == agent.agent_status
    &&& item.focused == agent.focused
    &&& item.context == context
    &&& item.group is None
    &&& item.title == agent.terminal_title_stripped
}

/// Where some entry has workspace id `id`, a first one does.
proof fn lemma_first_match_exists(labels: Seq<(String, String)>, id: Seq<char>, j: int)
    requires
        0 <= j < labels.len(),
        labels[j].0@ == id,
    ensures
        exists|f: int| first_workspace_match(labels, id, f),
    decreases j,
{
    if exists|k: int| 0 <= k < j && #[trigger] labels[k].0@ == id {
        let k = choose|k: int| 0 <= k < j && #[trigger] labels[k].0@ == id;
        lemma_first_match_exists(labels, id, k);
    } else {
        assert(first_workspace_match(labels, id, j));
    }
}

/// A tab is grouped under the label of the first workspace whose id equals
/// the tab's workspace id exactly; entries with any other id are never
/// chosen, and it has no group when no entry has that id.
pub proof fn lemma_tab_group_is_exact_match(
    item: HintItem,
    tab: TabInfo,
    labels: Seq<(String, String)>,
)
    requires
        is_tab_item(item, tab, workspace_label(labels, tab.workspace_id@)),
    ensures
        item.group is Some ==> exists|j: int|
            0 <= j < labels.len() && #[trigger] labels[j].0@ == tab.workspace_id@ && labels[j].1
                == item.group->0 && forall|k: int|
                0 <= k < j ==> #[trigger] labels[k].0@ != tab.workspace_id@,
        item.group is None <==> forall|j: int|
            0 <= j < labels.len() ==> #[trigger] labels[j].0@ != tab.workspace_id@,
{
    let id = tab.workspace_id@;
    if exists|j: int| first_workspace_match(labels, id, j) {
        let f = choose|j: int| first_workspace_match(labels, id, j);
        assert(item.group == Some(labels[f].1));
        assert(labels[f].0@ == id);
    } else {
        assert forall|j: int| 0 <= j < labels.len() implies #[trigger] labels[j].0@ != id by {
            if labels[j].0@ == id {
                lemma_first_match_exists(labels, id, j);
            }
        }
    }
}

/// The name shown for an agent is its name whenever it has one; otherwise
/// its agent kind when that is known; otherwise its pane id.
pub proof fn lemma_agent_display_name(item: HintItem, agent: AgentInfo, context: Option<String>)
    requires
        is_agent_item(item, agent, context),
    ensures
        agent.name is Some ==> item.display_name == agent.name->0,
        agent.name is None && agent.agent is Some ==> item.display_name == agent.agent->0,
        agent.name is None && agent.agent is None ==> item.display_name == agent.pane_id,
{
}

/// The label of the first workspace whose id is `id`, if any.
fn lookup_workspace_label(labels: &[(String, String)], id: &String) -> (r: Option<String>)
    ensures
        r == workspace_label(labels@, id@),
{
    let mut j: usize = 0;
    while j < labels.len()
        invariant
            j <= labels@.len(),
            forall|k: int| 0 <= k < j ==> #[trigger] labels@[k].0@ != id@,
        decreases labels@.len() - j,
    {
        if labels[j].0 == *id {
            assert(first_workspace_match(labels@, id@, j as int));
            assert forall|k: int| #[trigger] first_workspace_match(labels@, id@, k) implies k
                == j by {
                if k > j {
                    assert(labels@[j as int].0@ != id@);
                }
            }
            return Some(labels[j].1.clone());
        }
        j = j + 1;
    }
    None
}

/// The unlabelled hint for a tab, grouped under the label of the first
/// workspace whose id is the tab's workspace id.
pub fn tab_item(tab: TabInfo, workspace_labels: &[(String, String)]) -> (r: HintItem)
    ensures
        is_tab_item(r, tab, workspace_label(workspace_labels@, tab.workspace_id@)),
{
    let group = lookup_workspace_label(workspace_labels, &tab.workspace_id);
    HintItem {
        label: String::new(),
        kind: HintKind::Tab,
        target_id: tab.tab_id,
        display_name: tab.label,
        status: String::new(),
        focused: tab.focused,
        context: None,
        group,
        title: None,
    }
}

/// The unlabelled hints for a tab listing, in order.
pub fn tab_items(tabs: Vec<TabInfo>, workspace_labels: &[(String, String)]) -> (r: Vec<HintItem>)
    ensures
        r@.len() == tabs@.len(),
        forall|i: int|
            0 <= i < r@.len() ==> is_tab_item(
                #[trigger] r@[i],
                tabs@[i],
                workspace_label(workspace_labels@, tabs@[i].workspace_id@),
            ),
{
    let ghost all = tabs@;
    let mut rest = tabs;
    let mut out: Vec<HintItem> = Vec::new();
    while rest.len() > 0
        invariant
            out@.len() + rest@.len() == all.len(),
            rest@ == all.skip(out@.len() as int),
            forall|i: int|
                0 <= i < out@.len() ==> is_tab_item(
                    #[trigger] out@[i],
                    all[i],
                    workspace_label(workspace_labels@, all[i].workspace_id@),
                ),
        decreases rest@.len(),
    {
        let tab = rest.remove(0);
        assert(tab == all[out@.len() as int]);
        let item = tab_item(tab, workspace_labels);
        out.push(item);
        assert(rest@ =~= all.skip(out@.len() as int));
    }
    out
}

/// The unlabelled hint for an agent; `resolved` is the context found for
/// its working directory, and is kept only when it has one.
pub fn agent_item(agent: AgentInfo, resolved: Option<String>) -> (r: HintItem)
    ensures
        is_agent_item(
            r,
            agent,
            if agent.cwd is Some {
                resolved
            } else {
                None
            },
        ),
{
    let context = if agent.cwd.is_some() {
        resolved
    } else {
        None
    };
    let display_name = match agent.name {
        Some(n) => n,
        None => match agent.agent {
            Some(a) => a,
            None => agent.pane_id.clone(),
        },
    };
    HintItem {
        label: String::new(),
        kind: HintKind::Agent,
        target_id: agent.pane_id,
        display_name,
        status: agent.agent_status,
        focused: agent.focused,
        context,
        group: None,
        title: agent.terminal_title_stripped,
    }
}

/// The unlabelled hints for an agent listing, in order. The context of an
/// agent with a working directory is what `resolve_context` returns for it
/// (called once per such agent, in order); an agent without one has none.
pub fn agent_items<F: Fn(&str) -> Option<String>>(
    agents: Vec<AgentInfo>,
    resolve_context: &F,
) -> (r: Vec<HintItem>)
    requires
        forall|dir: &str| call_requires(*resolve_context, (dir,)),
    ensures
        r@.len() == agents@.len(),
        forall|i: int|
            0 <= i < r@.len() ==> {
                &&& is_agent_item(#[trigger] r@[i], agents@[i], r@[i].context)
                &&& agents@[i].cwd is None ==> r@[i].context is None
                &&& agents@[i].cwd matches Some(d) ==> exists|dir: &str|
                    dir@ == d@ && call_ensures(*resolve_context, (dir,), r@[i].context)
            },
{
    let ghost all = agents@;
    let mut rest = agents;
    let mut out: Vec<HintItem> = Vec::new();
    while rest.len() > 0
        invariant
            forall|dir: &str| call_requires(*resolve_context, (dir,)),
            out@.len() + rest@.len() == all.len(),
            rest@ == all.skip(out@.len() as int),
            forall|i: int|
                0 <= i < out@.len() ==> {
                    &&& is_agent_item(#[trigger] out@[i], all[i], out@[i].context)
                    &&& all[i].cwd is None ==> out@[i].context is None
                    &&& all[i].cwd matches Some(d) ==> exists|dir: &str|
                        dir@ == d@ && call_ensures(*resolve_context, (dir,), out@[i].context)
                },
        decreases rest@.len(),
    {
        let agent = rest.remove(0);
        assert(agent == all[out@.len() as int]);
        let resolved = match &agent.cwd {
            Some(dir) => {
                let d = dir.as_str();
                let found = resolve_context(d);
                assert(d@ == dir@ && call_ensures(*resolve_context, (d,), found));
                found
            },
            None => None,
        };
        let item = agent_item(agent, resolved);
        out.push(item);
        assert(rest@ =~= all.skip(out@.len() as int));
    }
    out
}

} // verus!
