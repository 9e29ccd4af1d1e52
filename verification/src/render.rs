//! The overview that lists the labelled tabs, grouped by workspace, and the
//! labelled agents.

use vstd::prelude::*;

use crate::hint::{HintItem, HintKind};
use crate::text::{
    byte_len, pad_right, push_padded, spaces, str_or_empty, text_or_empty, utf8_len,
};

verus! {

// ---------------------------------------------------------------------------
// What the overview is
// ---------------------------------------------------------------------------

/// `*` for the focused item, a space otherwise.
pub open spec fn marker(focused: bool) -> Seq<char> {
    if focused {
        "*"@
    } else {
        " "@
    }
}

/// The cell of a tab: its marker, its label in brackets and its name.
pub open spec fn tab_cell_text(item: HintItem) -> Seq<char> {
    marker(item.focused) + " ["@ + item.label@ + "]  "@ + item.display_name@
}

/// The name of the workspace group of an item; `?` where it has none.
pub open spec fn group_key(item: HintItem) -> Seq<char> {
    match item.group {
        Some(g) => g@,
        None => "?"@,
    }
}

/// The items of `items` of the given kind, in order.
pub open spec fn of_kind(items: Seq<HintItem>, kind: HintKind) -> Seq<HintItem>
    decreases items.len(),
{
    if items.len() == 0 {
        Seq::empty()
    } else {
        let rest = of_kind(items.drop_last(), kind);
        if items.last().kind == kind {
            rest.push(items.last())
        } else {
            rest
        }
    }
}

/// The distinct group names of `tabs`, in the order in which they first
/// appear.
pub open spec fn group_names(tabs: Seq<HintItem>) -> Seq<Seq<char>>
    decreases tabs.len(),
{
    if tabs.len() == 0 {
        Seq::empty()
    } else {
        let names = group_names(tabs.drop_last());
        let k = group_key(tabs.last());
        if names.contains(k) {
            names
        } else {
            names.push(k)
        }
    }
}

/// The tabs of `tabs` whose group is named `name`, in order.
pub open spec fn tabs_in_group(tabs: Seq<HintItem>, name: Seq<char>) -> Seq<HintItem>
    decreases tabs.len(),
{
    if tabs.len() == 0 {
        Seq::empty()
    } else {
        let rest = tabs_in_group(tabs.drop_last(), name);
        if group_key(tabs.last()) == name {
            rest.push(tabs.last())
        } else {
            rest
        }
    }
}

/// The largest byte length of the cells of a run; 0 for no cells.
pub open spec fn max_cell_len(run: Seq<HintItem>) -> nat
    decreases run.len(),
{
    if run.len() == 0 {
        0
    } else {
        let m = max_cell_len(run.drop_last());
        let l = utf8_len(tab_cell_text(run.last()));
        if m < l {
            l
        } else {
            m
        }
    }
}

/// The width of the first column of a group: its widest cell, in bytes, plus
/// two.
pub open spec fn column_width(run: Seq<HintItem>) -> nat {
    max_cell_len(run) + 2
}

/// The number of rows that `n` cells take in two columns.
pub open spec fn row_count(n: nat) -> nat {
    (n + 1) / 2
}

/// Row `c` of a group: cells `2c` and `2c + 1`, the first padded to `width`;
/// or cell `2c` alone when it is the last.
pub open spec fn row_text(run: Seq<HintItem>, c: int, width: nat) -> Seq<char> {
    if 2 * c + 1 < run.len() {
        "   "@ + pad_right(tab_cell_text(run[2 * c]), width) + tab_cell_text(run[2 * c + 1])
            + "\r\n"@
    } else {
        "   "@ + tab_cell_text(run[2 * c]) + "\r\n"@
    }
}

/// The first `c` rows of a group.
pub open spec fn rows_upto(run: Seq<HintItem>, c: nat, width: nat) -> Seq<char>
    decreases c,
{
    if c == 0 {
        Seq::empty()
    } else {
        rows_upto(run, (c - 1) as nat, width) + row_text(run, c - 1, width)
    }
}

/// The block of a group: a blank line when it follows another group, the
/// group's name, and the cells of its tabs in two columns.
pub open spec fn block_text(name: Seq<char>, run: Seq<HintItem>, follows_another: bool) -> Seq<
    char,
> {
    (if follows_another {
        "\r\n"@
    } else {
        Seq::empty()
    }) + " "@ + name + "\r\n"@ + rows_upto(run, row_count(run.len()), column_width(run))
}

/// The block of group `g` of `tabs`: all tabs of that group, in order; every
/// group but the first follows another.
pub open spec fn group_block(tabs: Seq<HintItem>, g: int) -> Seq<char> {
    let name = group_names(tabs)[g];
    block_text(name, tabs_in_group(tabs, name), g > 0)
}

/// The first `g` group blocks of `tabs`.
pub open spec fn blocks_upto(tabs: Seq<HintItem>, g: nat) -> Seq<char>
    decreases g,
{
    if g == 0 {
        Seq::empty()
    } else {
        blocks_upto(tabs, (g - 1) as nat) + group_block(tabs, g - 1)
    }
}

/// The tab part of the overview: one block for each group name, in the order
/// in which the names first appear, then a blank line; nothing when there are
/// no tabs.
pub open spec fn tabs_section(items: Seq<HintItem>) -> Seq<char> {
    let tabs = of_kind(items, HintKind::Tab);
    if tabs.len() == 0 {
        Seq::empty()
    } else {
        blocks_upto(tabs, group_names(tabs).len()) + "\r\n"@
    }
}

/// The largest byte length of the statuses of `agents`; 0 for none.
pub open spec fn max_status_len(agents: Seq<HintItem>) -> nat
    decreases agents.len(),
{
    if agents.len() == 0 {
        0
    } else {
        let m = max_status_len(agents.drop_last());
        let l = utf8_len(agents.last().status@);
        if m < l {
            l
        } else {
            m
        }
    }
}

/// A title shown dimmed; nothing for an empty title.
pub open spec fn dimmed(title: Seq<char>) -> Seq<char> {
    if title.len() == 0 {
        Seq::empty()
    } else {
        "\x1b[2m"@ + title + "\x1b[0m"@
    }
}

/// The line of an agent: marker, label, status padded to `width`, context
/// and dimmed title.
pub open spec fn agent_line(item: HintItem, width: nat) -> Seq<char> {
    "   "@ + marker(item.focused) + " ["@ + item.label@ + "]  "@ + pad_right(item.status@, width)
        + "  "@ + text_or_empty(item.context) + "  "@ + dimmed(text_or_empty(item.title))
        + "\r\n"@
}

/// The lines of the first `n` agents.
pub open spec fn agent_lines_upto(agents: Seq<HintItem>, n: nat, width: nat) -> Seq<char>
    decreases n,
{
    if n == 0 {
        Seq::empty()
    } else {
        agent_lines_upto(agents, (n - 1) as nat, width) + agent_line(agents[n - 1], width)
    }
}

/// The agent part of the overview: a heading and one line per agent, the
/// statuses padded to the widest; nothing when there are no agents.
pub open spec fn agents_section(items: Seq<HintItem>) -> Seq<char> {
    let agents = of_kind(items, HintKind::Agent);
    if agents.len() == 0 {
        Seq::empty()
    } else {
        " Agents\r\n"@ + agent_lines_upto(agents, agents.len(), max_status_len(agents))
    }
}

/// The whole overview: the tabs, then the agents.
pub open spec fn render_text(items: Seq<HintItem>) -> Seq<char> {
    tabs_section(items) + agents_section(items)
}

/// The column width of every tab can be computed: its cell is shorter than
/// `usize::MAX - 1` bytes.
pub open spec fn tab_cells_fit(items: Seq<HintItem>) -> bool {
    forall|i: int|
        0 <= i < items.len() && items[i].kind == HintKind::Tab ==> utf8_len(
            #[trigger] tab_cell_text(items[i]),
        ) + 2 <= usize::MAX
}

/// The items behind a list of references.
pub open spec fn deref_all(refs: Seq<&HintItem>) -> Seq<HintItem> {
    refs.map_values(|r: &HintItem| *r)
}

/// The text behind a list of strings.
pub open spec fn names_view(names: Seq<String>) -> Seq<Seq<char>> {
    names.map_values(|n: String| n@)
}

// ---------------------------------------------------------------------------
// Facts about the definitions
// ---------------------------------------------------------------------------

/// The items of a kind are exactly the items of that kind, in order.
pub proof fn lemma_of_kind_is_filter(items: Seq<HintItem>, kind: HintKind)
    ensures
        of_kind(items, kind) == items.filter(|i: HintItem| i.kind == kind),
    decreases items.len(),
{
    reveal(Seq::filter);
    if items.len() > 0 {
        lemma_of_kind_is_filter(items.drop_last(), kind);
    }
}

/// A tab of `of_kind(items, Tab)` is one of `items`.
proof fn lemma_of_kind_members(items: Seq<HintItem>, kind: HintKind)
    ensures
        forall|k: int|
            0 <= k < of_kind(items, kind).len() ==> exists|i: int|
                0 <= i < items.len() && items[i] == #[trigger] of_kind(items, kind)[k]
                    && items[i].kind == kind,
    decreases items.len(),
{
    if items.len() > 0 {
        lemma_of_kind_members(items.drop_last(), kind);
        let rest = of_kind(items.drop_last(), kind);
        assert forall|k: int| 0 <= k < of_kind(items, kind).len() implies exists|i: int|
            0 <= i < items.len() && items[i] == #[trigger] of_kind(items, kind)[k] && items[i].kind
                == kind by {
            if k < rest.len() {
                let i = choose|i: int|
                    0 <= i < items.drop_last().len() && items.drop_last()[i] == rest[k]
                        && items.drop_last()[i].kind == kind;
                assert(items[i] == items.drop_last()[i]);
            } else {
                assert(items[items.len() - 1] == of_kind(items, kind)[k]);
            }
        }
    }
}

/// The group names are distinct; every tab's group name is among them; each
/// of them is the group name of some tab; and they come in the order in
/// which they first appear: a tab of group `g + 1` has a tab of group `g`
/// before it.
pub proof fn lemma_group_names(tabs: Seq<HintItem>)
    ensures
        group_names(tabs).no_duplicates(),
        forall|j: int| 0 <= j < tabs.len() ==> group_names(tabs).contains(#[trigger] group_key(tabs[j])),
        forall|g: int|
            #![trigger group_names(tabs)[g]]
            0 <= g < group_names(tabs).len() ==> exists|j: int|
                0 <= j < tabs.len() && #[trigger] group_key(tabs[j]) == group_names(tabs)[g],
        forall|g: int, j: int|
            0 <= g && g + 1 < group_names(tabs).len() && 0 <= j < tabs.len() && #[trigger] group_key(
                tabs[j],
            ) == #[trigger] group_names(tabs)[g + 1] ==> exists|i: int|
                0 <= i < j && group_key(tabs[i]) == group_names(tabs)[g],
    decreases tabs.len(),
{
    if tabs.len() > 0 {
        let prev = tabs.drop_last();
        lemma_group_names(prev);
        let names = group_names(prev);
        let k = group_key(tabs.last());
        let all = group_names(tabs);
        assert forall|j: int| 0 <= j < tabs.len() implies all.contains(#[trigger] group_key(tabs[j])) by {
            if j < tabs.len() - 1 {
                assert(tabs[j] == prev[j]);
                let g = choose|g: int| 0 <= g < names.len() && names[g] == group_key(prev[j]);
                assert(all[g] == names[g]);
            } else if names.contains(k) {
            } else {
                assert(all[names.len() as int] == k);
            }
        }
        assert forall|g: int| #![trigger all[g]] 0 <= g < all.len() implies exists|j: int|
            0 <= j < tabs.len() && #[trigger] group_key(tabs[j]) == all[g] by {
            if g < names.len() {
                assert(all[g] == names[g]);
                let j = choose|j: int| 0 <= j < prev.len() && #[trigger] group_key(prev[j]) == names[g];
                assert(tabs[j] == prev[j]);
            } else {
                assert(group_key(tabs[tabs.len() - 1]) == all[g]);
            }
        }
        assert forall|g: int, j: int|
            0 <= g && g + 1 < all.len() && 0 <= j < tabs.len() && #[trigger] group_key(tabs[j])
                == #[trigger] all[g + 1] implies exists|i: int|
            0 <= i < j && group_key(tabs[i]) == all[g] by {
            assert(all[g] == names[g]);
            if g + 1 < names.len() {
                assert(all[g + 1] == names[g + 1]);
                if j < tabs.len() - 1 {
                    assert(tabs[j] == prev[j]);
                    assert(group_key(prev[j]) == names[g + 1]);
                    let i = choose|i: int| 0 <= i < j && group_key(prev[i]) == names[g];
                    assert(tabs[i] == prev[i]);
                } else {
                    let j0 = choose|j0: int|
                        0 <= j0 < prev.len() && #[trigger] group_key(prev[j0]) == names[g + 1];
                    let i = choose|i: int| 0 <= i < j0 && group_key(prev[i]) == names[g];
                    assert(tabs[i] == prev[i]);
                }
            } else {
                assert(!names.contains(k));
                assert(all[g + 1] == k);
                if j < tabs.len() - 1 {
                    assert(tabs[j] == prev[j]);
                    assert(names.contains(group_key(prev[j])));
                } else {
                    let i = choose|i: int| 0 <= i < prev.len() && #[trigger] group_key(prev[i]) == names[g];
                    assert(tabs[i] == prev[i]);
                }
            }
        }
    }
}

/// The block of a group holds exactly the tabs of that group, in the order
/// of the items.
pub proof fn lemma_group_is_filter(tabs: Seq<HintItem>, name: Seq<char>)
    ensures
        tabs_in_group(tabs, name) == tabs.filter(|t: HintItem| group_key(t) == name),
    decreases tabs.len(),
{
    reveal(Seq::filter);
    if tabs.len() > 0 {
        lemma_group_is_filter(tabs.drop_last(), name);
    }
}

/// A tab of a group is one of the tabs.
proof fn lemma_group_members(tabs: Seq<HintItem>, name: Seq<char>)
    ensures
        forall|m: int|
            0 <= m < tabs_in_group(tabs, name).len() ==> exists|i: int|
                0 <= i < tabs.len() && tabs[i] == #[trigger] tabs_in_group(tabs, name)[m],
    decreases tabs.len(),
{
    if tabs.len() > 0 {
        let prev = tabs.drop_last();
        lemma_group_members(prev, name);
        let rest = tabs_in_group(prev, name);
        assert forall|m: int| 0 <= m < tabs_in_group(tabs, name).len() implies exists|i: int|
            0 <= i < tabs.len() && tabs[i] == #[trigger] tabs_in_group(tabs, name)[m] by {
            if m < rest.len() {
                let i = choose|i: int| 0 <= i < prev.len() && prev[i] == rest[m];
                assert(tabs[i] == prev[i]);
            } else {
                assert(tabs[tabs.len() - 1] == tabs_in_group(tabs, name)[m]);
            }
        }
    }
}

/// A tab whose group is named `name` is one of the tabs of that group.
proof fn lemma_group_complete(tabs: Seq<HintItem>, name: Seq<char>, j: int)
    requires
        0 <= j < tabs.len(),
        group_key(tabs[j]) == name,
    ensures
        exists|m: int|
            0 <= m < tabs_in_group(tabs, name).len() && #[trigger] tabs_in_group(tabs, name)[m]
                == tabs[j],
    decreases tabs.len(),
{
    let prev = tabs.drop_last();
    let rest = tabs_in_group(prev, name);
    if j == tabs.len() - 1 {
        assert(tabs_in_group(tabs, name)[rest.len() as int] == tabs[j]);
    } else {
        lemma_group_complete(prev, name, j);
        let m = choose|m: int| 0 <= m < rest.len() && #[trigger] rest[m] == prev[j];
        assert(tabs_in_group(tabs, name)[m] == tabs[j]);
    }
}

/// The status column is as wide as the widest status: no status is wider,
/// some status is exactly that wide, and it is 0 when there are no agents.
pub proof fn lemma_status_width_is_widest(agents: Seq<HintItem>)
    ensures
        forall|j: int|
            0 <= j < agents.len() ==> utf8_len(#[trigger] agents[j].status@) <= max_status_len(
                agents,
            ),
        agents.len() == 0 ==> max_status_len(agents) == 0,
        agents.len() > 0 ==> exists|j: int|
            0 <= j < agents.len() && max_status_len(agents) == utf8_len(#[trigger] agents[j].status@),
    decreases agents.len(),
{
    if agents.len() > 0 {
        let d = agents.drop_last();
        lemma_status_width_is_widest(d);
        assert forall|j: int| 0 <= j < agents.len() implies utf8_len(#[trigger] agents[j].status@)
            <= max_status_len(agents) by {
            if j < d.len() {
                assert(agents[j] == d[j]);
            }
        }
        let l = utf8_len(agents.last().status@);
        if max_status_len(d) < l || d.len() == 0 {
            assert(max_status_len(agents) == utf8_len(agents[agents.len() - 1].status@));
        } else {
            let j = choose|j: int| 0 <= j < d.len() && max_status_len(d) == utf8_len(#[trigger] d[j].status@);
            assert(agents[j] == d[j]);
            assert(max_status_len(agents) == utf8_len(agents[j].status@));
        }
    }
}

/// The first column of a group is two wider than the group's widest cell:
/// every cell leaves at least two columns, and some cell exactly two.
pub proof fn lemma_column_width_is_widest(run: Seq<HintItem>)
    ensures
        forall|k: int|
            0 <= k < run.len() ==> utf8_len(#[trigger] tab_cell_text(run[k])) + 2 <= column_width(run),
        run.len() == 0 ==> column_width(run) == 2,
        run.len() > 0 ==> exists|k: int|
            0 <= k < run.len() && column_width(run) == utf8_len(#[trigger] tab_cell_text(run[k])) + 2,
    decreases run.len(),
{
    if run.len() > 0 {
        let d = run.drop_last();
        lemma_column_width_is_widest(d);
        assert forall|k: int| 0 <= k < run.len() implies utf8_len(#[trigger] tab_cell_text(run[k]))
            + 2 <= column_width(run) by {
            if k < d.len() {
                assert(run[k] == d[k]);
                assert(utf8_len(tab_cell_text(d[k])) + 2 <= column_width(d));
            }
        }
        let l = utf8_len(tab_cell_text(run.last()));
        if max_cell_len(d) < l || d.len() == 0 {
            assert(column_width(run) == utf8_len(tab_cell_text(run[run.len() - 1])) + 2);
        } else {
            let k = choose|k: int|
                0 <= k < d.len() && column_width(d) == utf8_len(#[trigger] tab_cell_text(d[k])) + 2;
            assert(run[k] == d[k]);
            assert(column_width(run) == utf8_len(tab_cell_text(run[k])) + 2);
        }
    }
}

// ---------------------------------------------------------------------------
// Every item shows up in the overview
// ---------------------------------------------------------------------------

/// `t` occurs in `s` at some position.
pub open spec fn occurs_in(t: Seq<char>, s: Seq<char>) -> bool {
    exists|p: int| 0 <= p && p + t.len() <= s.len() && #[trigger] s.subrange(p, p + t.len()) == t
}

proof fn lemma_occurs_at(t: Seq<char>, s: Seq<char>, p: int)
    requires
        0 <= p,
        p + t.len() <= s.len(),
        s.subrange(p, p + t.len()) =~= t,
    ensures
        occurs_in(t, s),
{
}

proof fn lemma_occurs_self(t: Seq<char>)
    ensures
        occurs_in(t, t),
{
    lemma_occurs_at(t, t, 0);
}

proof fn lemma_occurs_in_left(t: Seq<char>, a: Seq<char>, b: Seq<char>)
    requires
        occurs_in(t, a),
    ensures
        occurs_in(t, a + b),
{
    let p = choose|p: int| 0 <= p && p + t.len() <= a.len() && #[trigger] a.subrange(p, p + t.len()) == t;
    assert((a + b).subrange(p, p + t.len()) =~= a.subrange(p, p + t.len()));
    lemma_occurs_at(t, a + b, p);
}

proof fn lemma_occurs_in_right(t: Seq<char>, a: Seq<char>, b: Seq<char>)
    requires
        occurs_in(t, b),
    ensures
        occurs_in(t, a + b),
{
    let p = choose|p: int| 0 <= p && p + t.len() <= b.len() && #[trigger] b.subrange(p, p + t.len()) == t;
    assert((a + b).subrange(a.len() + p, a.len() + p + t.len()) =~= b.subrange(p, p + t.len()));
    lemma_occurs_at(t, a + b, a.len() + p);
}

/// An item of the given kind is one of `of_kind(items, kind)`.
proof fn lemma_of_kind_complete(items: Seq<HintItem>, kind: HintKind, i: int)
    requires
        0 <= i < items.len(),
        items[i].kind == kind,
    ensures
        exists|k: int| 0 <= k < of_kind(items, kind).len() && #[trigger] of_kind(items, kind)[k] == items[i],
    decreases items.len(),
{
    let rest = of_kind(items.drop_last(), kind);
    if i == items.len() - 1 {
        assert(of_kind(items, kind)[rest.len() as int] == items[i]);
    } else {
        lemma_of_kind_complete(items.drop_last(), kind, i);
        let k = choose|k: int| 0 <= k < rest.len() && #[trigger] rest[k] == items.drop_last()[i];
        assert(of_kind(items, kind)[k] == items[i]);
    }
}

/// Row `c` is among the first `n` rows.
proof fn lemma_row_occurs(run: Seq<HintItem>, c: int, n: nat, width: nat)
    requires
        0 <= c < n,
    ensures
        occurs_in(row_text(run, c, width), rows_upto(run, n, width)),
    decreases n,
{
    if c == n - 1 {
        lemma_occurs_self(row_text(run, c, width));
        lemma_occurs_in_right(
            row_text(run, c, width),
            rows_upto(run, (n - 1) as nat, width),
            row_text(run, c, width),
        );
    } else {
        lemma_row_occurs(run, c, (n - 1) as nat, width);
        lemma_occurs_in_left(
            row_text(run, c, width),
            rows_upto(run, (n - 1) as nat, width),
            row_text(run, n - 1, width),
        );
    }
}

/// The cell of every tab of a run shows in the run's rows.
proof fn lemma_cell_occurs_in_rows(run: Seq<HintItem>, m: int, width: nat)
    requires
        0 <= m < run.len(),
    ensures
        occurs_in(tab_cell_text(run[m]), rows_upto(run, row_count(run.len()), width)),
{
    let c = m / 2;
    let cell = tab_cell_text(run[m]);
    let row = row_text(run, c, width);
    if 2 * c + 1 < run.len() {
        if m == 2 * c {
            let padded = pad_right(cell, width);
            assert(padded.subrange(0, cell.len() as int) =~= cell);
            lemma_occurs_at(cell, padded, 0);
            lemma_occurs_in_right(cell, "   "@, padded);
            lemma_occurs_in_left(cell, "   "@ + padded, tab_cell_text(run[2 * c + 1]));
            lemma_occurs_in_left(cell, "   "@ + padded + tab_cell_text(run[2 * c + 1]), "\r\n"@);
        } else {
            lemma_occurs_self(cell);
            lemma_occurs_in_right(cell, "   "@ + pad_right(tab_cell_text(run[2 * c]), width), cell);
            lemma_occurs_in_left(
                cell,
                "   "@ + pad_right(tab_cell_text(run[2 * c]), width) + cell,
                "\r\n"@,
            );
        }
    } else {
        lemma_occurs_self(cell);
        lemma_occurs_in_right(cell, "   "@, cell);
        lemma_occurs_in_left(cell, "   "@ + cell, "\r\n"@);
    }
    lemma_row_occurs(run, c, row_count(run.len()), width);
    lemma_occurs_in_infix(cell, row, rows_upto(run, row_count(run.len()), width));
}

/// Occurring is transitive.
proof fn lemma_occurs_in_infix(t: Seq<char>, u: Seq<char>, s: Seq<char>)
    requires
        occurs_in(t, u),
        occurs_in(u, s),
    ensures
        occurs_in(t, s),
{
    let p = choose|p: int| 0 <= p && p + t.len() <= u.len() && #[trigger] u.subrange(p, p + t.len()) == t;
    let q = choose|q: int| 0 <= q && q + u.len() <= s.len() && #[trigger] s.subrange(q, q + u.len()) == u;
    assert(s.subrange(q + p, q + p + t.len()) =~= u.subrange(p, p + t.len()));
    lemma_occurs_at(t, s, q + p);
}

/// Group block `g` is among the first `n` blocks.
proof fn lemma_block_occurs(tabs: Seq<HintItem>, g: int, n: nat)
    requires
        0 <= g < n,
    ensures
        occurs_in(group_block(tabs, g), blocks_upto(tabs, n)),
    decreases n,
{
    if g == n - 1 {
        lemma_occurs_self(group_block(tabs, g));
        lemma_occurs_in_right(group_block(tabs, g), blocks_upto(tabs, (n - 1) as nat), group_block(tabs, g));
    } else {
        lemma_block_occurs(tabs, g, (n - 1) as nat);
        lemma_occurs_in_left(group_block(tabs, g), blocks_upto(tabs, (n - 1) as nat), group_block(tabs, n - 1));
    }
}

/// The line of agent `j` is among the first `n` lines.
proof fn lemma_agent_line_occurs(agents: Seq<HintItem>, j: int, n: nat, width: nat)
    requires
        0 <= j < n,
    ensures
        occurs_in(agent_line(agents[j], width), agent_lines_upto(agents, n, width)),
    decreases n,
{
    if j == n - 1 {
        lemma_occurs_self(agent_line(agents[j], width));
        lemma_occurs_in_right(
            agent_line(agents[j], width),
            agent_lines_upto(agents, (n - 1) as nat, width),
            agent_line(agents[j], width),
        );
    } else {
        lemma_agent_line_occurs(agents, j, (n - 1) as nat, width);
        lemma_occurs_in_left(
            agent_line(agents[j], width),
            agent_lines_upto(agents, (n - 1) as nat, width),
            agent_line(agents[n - 1], width),
        );
    }
}

/// The overview shows every tab: the cell of each tab, with its label,
/// occurs in the rendered text.
pub proof fn lemma_every_tab_shown(items: Seq<HintItem>, i: int)
    requires
        0 <= i < items.len(),
        items[i].kind == HintKind::Tab,
    ensures
        occurs_in(tab_cell_text(items[i]), render_text(items)),
{
    let tabs = of_kind(items, HintKind::Tab);
    lemma_of_kind_complete(items, HintKind::Tab, i);
    let j = choose|j: int| 0 <= j < tabs.len() && #[trigger] tabs[j] == items[i];
    let names = group_names(tabs);
    let name = group_key(tabs[j]);
    lemma_group_names(tabs);
    assert(names.contains(name));
    let g = choose|g: int| 0 <= g < names.len() && names[g] == name;
    lemma_group_complete(tabs, name, j);
    let run = tabs_in_group(tabs, name);
    let m = choose|m: int| 0 <= m < run.len() && #[trigger] run[m] == tabs[j];
    let cell = tab_cell_text(items[i]);
    let rows = rows_upto(run, row_count(run.len()), column_width(run));
    lemma_cell_occurs_in_rows(run, m, column_width(run));
    let head = (if g > 0 {
        "\r\n"@
    } else {
        Seq::empty()
    }) + " "@ + name + "\r\n"@;
    lemma_occurs_in_right(cell, head, rows);
    assert(group_block(tabs, g) == head + rows);
    lemma_block_occurs(tabs, g, names.len());
    lemma_occurs_in_infix(cell, group_block(tabs, g), blocks_upto(tabs, names.len()));
    lemma_occurs_in_left(cell, blocks_upto(tabs, names.len()), "\r\n"@);
    lemma_occurs_in_left(cell, tabs_section(items), agents_section(items));
}

/// The overview shows every agent: the line of each agent, with its label,
/// status, context and title, occurs in the rendered text.
pub proof fn lemma_every_agent_shown(items: Seq<HintItem>, i: int)
    requires
        0 <= i < items.len(),
        items[i].kind == HintKind::Agent,
    ensures
        occurs_in(
            agent_line(items[i], max_status_len(of_kind(items, HintKind::Agent))),
            render_text(items),
        ),
{
    let agents = of_kind(items, HintKind::Agent);
    let width = max_status_len(agents);
    lemma_of_kind_complete(items, HintKind::Agent, i);
    let j = choose|j: int| 0 <= j < agents.len() && #[trigger] agents[j] == items[i];
    let line = agent_line(items[i], width);
    lemma_agent_line_occurs(agents, j, agents.len(), width);
    lemma_occurs_in_right(line, " Agents\r\n"@, agent_lines_upto(agents, agents.len(), width));
    lemma_occurs_in_right(line, tabs_section(items), agents_section(items));
}

// ---------------------------------------------------------------------------
// The shape of the overview
// ---------------------------------------------------------------------------

/// When every item has the given kind, `of_kind` keeps them all.
proof fn lemma_of_kind_all(items: Seq<HintItem>, kind: HintKind)
    requires
        forall|i: int| 0 <= i < items.len() ==> #[trigger] items[i].kind == kind,
    ensures
        of_kind(items, kind) == items,
    decreases items.len(),
{
    if items.len() > 0 {
        lemma_of_kind_all(items.drop_last(), kind);
        assert(items.drop_last().push(items.last()) =~= items);
    }
}

/// When no item has the given kind, `of_kind` keeps none.
proof fn lemma_of_kind_none(items: Seq<HintItem>, kind: HintKind)
    requires
        forall|i: int| 0 <= i < items.len() ==> #[trigger] items[i].kind != kind,
    ensures
        of_kind(items, kind).len() == 0,
    decreases items.len(),
{
    if items.len() > 0 {
        lemma_of_kind_none(items.drop_last(), kind);
    }
}

/// Tabs of one group have that group's name as their only group name, and
/// the group holds them all.
proof fn lemma_one_group(tabs: Seq<HintItem>, name: Seq<char>)
    requires
        tabs.len() > 0,
        forall|i: int| 0 <= i < tabs.len() ==> #[trigger] group_key(tabs[i]) == name,
    ensures
        group_names(tabs) == seq![name],
        tabs_in_group(tabs, name) == tabs,
    decreases tabs.len(),
{
    let prev = tabs.drop_last();
    if prev.len() > 0 {
        lemma_one_group(prev, name);
        assert(seq![name].contains(name)) by {
            assert(seq![name][0] == name);
        }
    } else {
        assert(group_names(prev).len() == 0);
        assert(tabs_in_group(prev, name) =~= prev);
    }
    assert(group_key(tabs[tabs.len() - 1]) == name);
    assert(prev.push(tabs.last()) =~= tabs);
    assert(tabs_in_group(tabs, name) =~= tabs);
}

/// The overview of agents alone: the `Agents` heading, then one line for
/// each agent, in order, with marker, label, status padded to the widest
/// status, context and dimmed title.
pub proof fn lemma_agents_only_text(items: Seq<HintItem>)
    requires
        items.len() > 0,
        forall|i: int| 0 <= i < items.len() ==> #[trigger] items[i].kind == HintKind::Agent,
    ensures
        render_text(items) == " Agents\r\n"@ + agent_lines_upto(
            items,
            items.len(),
            max_status_len(items),
        ),
{
    lemma_of_kind_all(items, HintKind::Agent);
    lemma_of_kind_none(items, HintKind::Tab);
    assert(tabs_section(items) =~= Seq::<char>::empty());
    assert(render_text(items) =~= agents_section(items));
}

/// The overview of the tabs of a single group: the group's name, the cells
/// two to a row with the first column as wide as the widest cell plus two,
/// and a closing blank line.
pub proof fn lemma_single_group_text(items: Seq<HintItem>, name: Seq<char>)
    requires
        items.len() > 0,
        forall|i: int| 0 <= i < items.len() ==> #[trigger] items[i].kind == HintKind::Tab,
        forall|i: int| 0 <= i < items.len() ==> #[trigger] group_key(items[i]) == name,
    ensures
        render_text(items) == " "@ + name + "\r\n"@ + rows_upto(
            items,
            row_count(items.len()),
            column_width(items),
        ) + "\r\n"@,
{
    lemma_of_kind_all(items, HintKind::Tab);
    lemma_of_kind_none(items, HintKind::Agent);
    lemma_one_group(items, name);
    assert(group_names(items)[0] == name);
    assert(blocks_upto(items, 0) =~= Seq::<char>::empty());
    assert(blocks_upto(items, 1) =~= group_block(items, 0));
    assert(agents_section(items) =~= Seq::<char>::empty());
    assert(render_text(items) =~= " "@ + name + "\r\n"@ + rows_upto(
        items,
        row_count(items.len()),
        column_width(items),
    ) + "\r\n"@);
}

/// The line of an agent comes after the `Agents` heading, below all tabs,
/// and shows the agent's label in brackets, its status and its context.
pub proof fn lemma_agent_line_shows_status_and_context(items: Seq<HintItem>, i: int)
    requires
        0 <= i < items.len(),
        items[i].kind == HintKind::Agent,
    ensures
        ({
            let agents = of_kind(items, HintKind::Agent);
            let width = max_status_len(agents);
            let line = agent_line(items[i], width);
            &&& render_text(items) == tabs_section(items) + " Agents\r\n"@ + agent_lines_upto(
                agents,
                agents.len(),
                width,
            )
            &&& occurs_in(line, agent_lines_upto(agents, agents.len(), width))
            &&& occurs_in("["@ + items[i].label@ + "]"@, line)
            &&& occurs_in(items[i].status@, line)
            &&& occurs_in(text_or_empty(items[i].context), line)
        }),
{
    let agents = of_kind(items, HintKind::Agent);
    let width = max_status_len(agents);
    let item = items[i];
    let line = agent_line(item, width);
    lemma_of_kind_complete(items, HintKind::Agent, i);
    let j = choose|j: int| 0 <= j < agents.len() && #[trigger] agents[j] == items[i];
    lemma_agent_line_occurs(agents, j, agents.len(), width);
    assert(agents.len() > 0);
    assert(render_text(items) =~= tabs_section(items) + " Agents\r\n"@ + agent_lines_upto(
        agents,
        agents.len(),
        width,
    ));
    reveal_strlit("   ");
    reveal_strlit(" [");
    reveal_strlit("[");
    reveal_strlit("]");
    reveal_strlit("]  ");
    reveal_strlit("  ");
    let head = "   "@ + marker(item.focused);
    let tagged = "["@ + item.label@ + "]"@;
    let padded = pad_right(item.status@, width);
    let ctx = text_or_empty(item.context);
    let tail = "  "@ + dimmed(text_or_empty(item.title)) + "\r\n"@;
    assert(line =~= head + " ["@ + item.label@ + "]  "@ + padded + "  "@ + ctx + tail);
    let p: int = head.len() + 1int;
    assert(line.subrange(p, p + tagged.len() as int) =~= tagged);
    lemma_occurs_at(tagged, line, p);
    let q: int = head.len() + 2int + item.label@.len() + 3int;
    assert(padded.subrange(0, item.status@.len() as int) =~= item.status@);
    assert(line.subrange(q, q + item.status@.len() as int) =~= item.status@);
    lemma_occurs_at(item.status@, line, q);
    let r: int = q + padded.len() + 2;
    assert(line.subrange(r, r + ctx.len() as int) =~= ctx);
    lemma_occurs_at(ctx, line, r);
}

// ---------------------------------------------------------------------------
// Counting lines
// ---------------------------------------------------------------------------

/// The number of line feeds in `s`.
pub open spec fn newline_count(s: Seq<char>) -> nat
    decreases s.len(),
{
    if s.len() == 0 {
        0
    } else {
        newline_count(s.drop_last()) + if s.last() == '\n' {
            1nat
        } else {
            0nat
        }
    }
}

/// No text field of the item holds a line feed, nor does its group name.
pub open spec fn fields_on_one_line(item: HintItem) -> bool {
    &&& !item.label@.contains('\n')
    &&& !item.display_name@.contains('\n')
    &&& !item.status@.contains('\n')
    &&& !text_or_empty(item.context).contains('\n')
    &&& !text_or_empty(item.title).contains('\n')
    &&& !group_key(item).contains('\n')
}

/// `s` ends with a carriage return and a line feed.
pub open spec fn ends_with_line_end(s: Seq<char>) -> bool {
    s.len() >= 2 && s.subrange(s.len() - 2, s.len() as int) == "\r\n"@
}

/// The lines of the first `g` group blocks, not counting the blank lines
/// between them: each block's heading and its rows.
pub open spec fn tab_lines_upto(tabs: Seq<HintItem>, g: nat) -> nat
    decreases g,
{
    if g == 0 {
        0
    } else {
        tab_lines_upto(tabs, (g - 1) as nat) + 1 + row_count(
            tabs_in_group(tabs, group_names(tabs)[g - 1]).len(),
        )
    }
}

/// The number of lines of the overview: for `m` groups, a heading and the
/// rows of each and `m` blank lines; for the agents, a heading and one line
/// each.
pub open spec fn line_count(items: Seq<HintItem>) -> nat {
    let tabs = of_kind(items, HintKind::Tab);
    let agents = of_kind(items, HintKind::Agent);
    let m = group_names(tabs).len();
    (if tabs.len() == 0 {
        0
    } else {
        m + tab_lines_upto(tabs, m)
    }) + (if agents.len() == 0 {
        0
    } else {
        1 + agents.len()
    })
}

proof fn lemma_count_add(a: Seq<char>, b: Seq<char>)
    ensures
        newline_count(a + b) == newline_count(a) + newline_count(b),
    decreases b.len(),
{
    if b.len() == 0 {
        assert(a + b =~= a);
    } else {
        lemma_count_add(a, b.drop_last());
        assert((a + b).drop_last() =~= a + b.drop_last());
        assert((a + b).last() == b.last());
    }
}

proof fn lemma_count_zero(s: Seq<char>)
    requires
        !s.contains('\n'),
    ensures
        newline_count(s) == 0,
    decreases s.len(),
{
    if s.len() > 0 {
        assert forall|k: int| 0 <= k < s.drop_last().len() implies s.drop_last()[k] != '\n' by {
            assert(s.drop_last()[k] == s[k]);
        }
        lemma_count_zero(s.drop_last());
        assert(s[s.len() - 1] != '\n');
    }
}

proof fn lemma_line_end_count()
    ensures
        newline_count("\r\n"@) == 1,
        ends_with_line_end("\r\n"@),
{
    reveal_strlit("\r\n");
    let s = "\r\n"@;
    let one = s.drop_last();
    assert(one =~= seq!['\r']);
    assert(one.drop_last() =~= Seq::<char>::empty());
    assert(newline_count(one.drop_last()) == 0);
    assert(one.last() == '\r');
    assert(newline_count(one) == 0);
    assert(s.last() == '\n');
    assert(newline_count(s) == 1);
    assert(s.subrange(0, 2) =~= s);
}

proof fn lemma_no_newline_concat(a: Seq<char>, b: Seq<char>)
    requires
        !a.contains('\n'),
        !b.contains('\n'),
    ensures
        !(a + b).contains('\n'),
{
    assert forall|k: int| 0 <= k < (a + b).len() implies (a + b)[k] != '\n' by {
        if k < a.len() {
            assert((a + b)[k] == a[k]);
        } else {
            assert((a + b)[k] == b[k - a.len()]);
        }
    }
}

proof fn lemma_spaces_one_line(n: nat)
    ensures
        !spaces(n).contains('\n'),
    decreases n,
{
    if n > 0 {
        lemma_spaces_one_line((n - 1) as nat);
        let s = spaces(n);
        assert forall|k: int| 0 <= k < s.len() implies s[k] != '\n' by {
            if k < s.len() - 1 {
                assert(s[k] == spaces((n - 1) as nat)[k]);
            }
        }
    }
}

proof fn lemma_pad_one_line(s: Seq<char>, width: nat)
    requires
        !s.contains('\n'),
    ensures
        !pad_right(s, width).contains('\n'),
{
    if s.len() < width {
        lemma_spaces_one_line((width - s.len()) as nat);
        lemma_no_newline_concat(s, spaces((width - s.len()) as nat));
    }
}

proof fn lemma_literals_one_line()
    ensures
        !"   "@.contains('\n'),
        !" "@.contains('\n'),
        !"*"@.contains('\n'),
        !" ["@.contains('\n'),
        !"]  "@.contains('\n'),
        !"  "@.contains('\n'),
        !"\x1b[2m"@.contains('\n'),
        !"\x1b[0m"@.contains('\n'),
        !" Agents"@.contains('\n'),
{
    reveal_strlit("   ");
    reveal_strlit(" ");
    reveal_strlit("*");
    reveal_strlit(" [");
    reveal_strlit("]  ");
    reveal_strlit("  ");
    reveal_strlit("\x1b[2m");
    reveal_strlit("\x1b[0m");
    reveal_strlit(" Agents");
}

/// A tab's cell is on one line.
proof fn lemma_cell_one_line(item: HintItem)
    requires
        fields_on_one_line(item),
    ensures
        !tab_cell_text(item).contains('\n'),
{
    lemma_literals_one_line();
    lemma_no_newline_concat(marker(item.focused), " ["@);
    lemma_no_newline_concat(marker(item.focused) + " ["@, item.label@);
    lemma_no_newline_concat(marker(item.focused) + " ["@ + item.label@, "]  "@);
    lemma_no_newline_concat(marker(item.focused) + " ["@ + item.label@ + "]  "@, item.display_name@);
}

/// Suffixing a line end.
proof fn lemma_one_line_then_end(x: Seq<char>)
    requires
        !x.contains('\n'),
    ensures
        newline_count(x + "\r\n"@) == 1,
        ends_with_line_end(x + "\r\n"@),
{
    lemma_line_end_count();
    lemma_count_zero(x);
    lemma_count_add(x, "\r\n"@);
    lemma_ends_with_line_end(x, "\r\n"@);
}

proof fn lemma_ends_with_line_end(a: Seq<char>, b: Seq<char>)
    requires
        ends_with_line_end(b),
    ensures
        ends_with_line_end(a + b),
{
    let s = a + b;
    assert(s.subrange(s.len() - 2, s.len() as int) =~= b.subrange(b.len() - 2, b.len() as int));
}

/// Each row is one line.
proof fn lemma_row_count_one(run: Seq<HintItem>, c: int, width: nat)
    requires
        0 <= 2 * c < run.len(),
        forall|k: int| 0 <= k < run.len() ==> fields_on_one_line(#[trigger] run[k]),
    ensures
        newline_count(row_text(run, c, width)) == 1,
{
    lemma_literals_one_line();
    lemma_cell_one_line(run[2 * c]);
    if 2 * c + 1 < run.len() {
        lemma_cell_one_line(run[2 * c + 1]);
        lemma_pad_one_line(tab_cell_text(run[2 * c]), width);
        lemma_no_newline_concat("   "@, pad_right(tab_cell_text(run[2 * c]), width));
        lemma_no_newline_concat(
            "   "@ + pad_right(tab_cell_text(run[2 * c]), width),
            tab_cell_text(run[2 * c + 1]),
        );
        lemma_one_line_then_end(
            "   "@ + pad_right(tab_cell_text(run[2 * c]), width) + tab_cell_text(run[2 * c + 1]),
        );
    } else {
        lemma_no_newline_concat("   "@, tab_cell_text(run[2 * c]));
        lemma_one_line_then_end("   "@ + tab_cell_text(run[2 * c]));
    }
}

/// The first `c` rows are `c` lines.
proof fn lemma_rows_count(run: Seq<HintItem>, c: nat, width: nat)
    requires
        c <= row_count(run.len()),
        forall|k: int| 0 <= k < run.len() ==> fields_on_one_line(#[trigger] run[k]),
    ensures
        newline_count(rows_upto(run, c, width)) == c,
    decreases c,
{
    if c > 0 {
        lemma_rows_count(run, (c - 1) as nat, width);
        lemma_row_count_one(run, c - 1, width);
        lemma_count_add(rows_upto(run, (c - 1) as nat, width), row_text(run, c - 1, width));
    }
}

/// A group's heading is one line.
proof fn lemma_heading_count(name: Seq<char>)
    requires
        !name.contains('\n'),
    ensures
        newline_count(" "@ + name + "\r\n"@) == 1,
{
    assert(!" "@.contains('\n')) by {
        reveal_strlit(" ");
    }
    lemma_no_newline_concat(" "@, name);
    lemma_one_line_then_end(" "@ + name);
}

/// A group block is its heading, its rows, and a blank line before it when
/// it follows another.
proof fn lemma_block_count(name: Seq<char>, run: Seq<HintItem>, follows_another: bool)
    requires
        !name.contains('\n'),
        forall|k: int| 0 <= k < run.len() ==> fields_on_one_line(#[trigger] run[k]),
    ensures
        newline_count(block_text(name, run, follows_another)) == (if follows_another {
            1nat
        } else {
            0nat
        }) + 1 + row_count(run.len()),
{
    let gap: Seq<char> = if follows_another {
        "\r\n"@
    } else {
        Seq::empty()
    };
    let heading = " "@ + name + "\r\n"@;
    let rows = rows_upto(run, row_count(run.len()), column_width(run));
    lemma_line_end_count();
    assert(newline_count(gap) == if follows_another {
        1nat
    } else {
        0nat
    });
    lemma_heading_count(name);
    lemma_rows_count(run, row_count(run.len()), column_width(run));
    lemma_count_add(gap, heading);
    lemma_count_add(gap + heading, rows);
    assert(block_text(name, run, follows_another) =~= gap + heading + rows);
}

/// The first `g` blocks: `g` headings with their rows, and `g - 1` blank
/// lines.
proof fn lemma_blocks_count(tabs: Seq<HintItem>, g: nat)
    requires
        g <= group_names(tabs).len(),
        forall|k: int| 0 <= k < tabs.len() ==> fields_on_one_line(#[trigger] tabs[k]),
    ensures
        newline_count(blocks_upto(tabs, g)) == (if g > 0 {
            (g - 1) as nat
        } else {
            0nat
        }) + tab_lines_upto(tabs, g),
    decreases g,
{
    if g > 0 {
        lemma_blocks_count(tabs, (g - 1) as nat);
        let names = group_names(tabs);
        let name = names[g - 1];
        let run = tabs_in_group(tabs, name);
        lemma_group_names(tabs);
        let j = choose|j: int| 0 <= j < tabs.len() && #[trigger] group_key(tabs[j]) == names[g - 1];
        assert(fields_on_one_line(tabs[j]));
        lemma_group_members(tabs, name);
        assert forall|k: int| 0 <= k < run.len() implies fields_on_one_line(#[trigger] run[k]) by {
            let i = choose|i: int| 0 <= i < tabs.len() && tabs[i] == run[k];
            assert(fields_on_one_line(tabs[i]));
        }
        lemma_block_count(name, run, g - 1 > 0);
        lemma_count_add(blocks_upto(tabs, (g - 1) as nat), group_block(tabs, g - 1));
    }
}

/// An agent's line is one line.
proof fn lemma_agent_line_count(item: HintItem, width: nat)
    requires
        fields_on_one_line(item),
    ensures
        newline_count(agent_line(item, width)) == 1,
        ends_with_line_end(agent_line(item, width)),
{
    lemma_literals_one_line();
    let title = text_or_empty(item.title);
    if title.len() > 0 {
        lemma_no_newline_concat("\x1b[2m"@, title);
        lemma_no_newline_concat("\x1b[2m"@ + title, "\x1b[0m"@);
    } else {
        assert(!dimmed(title).contains('\n'));
    }
    lemma_pad_one_line(item.status@, width);
    let x = "   "@ + marker(item.focused) + " ["@ + item.label@ + "]  "@ + pad_right(item.status@, width)
        + "  "@ + text_or_empty(item.context) + "  "@ + dimmed(title);
    lemma_no_newline_concat("   "@, marker(item.focused));
    lemma_no_newline_concat("   "@ + marker(item.focused), " ["@);
    lemma_no_newline_concat("   "@ + marker(item.focused) + " ["@, item.label@);
    lemma_no_newline_concat("   "@ + marker(item.focused) + " ["@ + item.label@, "]  "@);
    lemma_no_newline_concat(
        "   "@ + marker(item.focused) + " ["@ + item.label@ + "]  "@,
        pad_right(item.status@, width),
    );
    lemma_no_newline_concat(
        "   "@ + marker(item.focused) + " ["@ + item.label@ + "]  "@ + pad_right(item.status@, width),
        "  "@,
    );
    lemma_no_newline_concat(
        "   "@ + marker(item.focused) + " ["@ + item.label@ + "]  "@ + pad_right(item.status@, width)
            + "  "@,
        text_or_empty(item.context),
    );
    lemma_no_newline_concat(
        "   "@ + marker(item.focused) + " ["@ + item.label@ + "]  "@ + pad_right(item.status@, width)
            + "  "@ + text_or_empty(item.context),
        "  "@,
    );
    lemma_no_newline_concat(
        "   "@ + marker(item.focused) + " ["@ + item.label@ + "]  "@ + pad_right(item.status@, width)
            + "  "@ + text_or_empty(item.context) + "  "@,
        dimmed(title),
    );
    lemma_one_line_then_end(x);
}

/// The first `n` agent lines are `n` lines.
proof fn lemma_agent_lines_count(agents: Seq<HintItem>, n: nat, width: nat)
    requires
        n <= agents.len(),
        forall|k: int| 0 <= k < agents.len() ==> fields_on_one_line(#[trigger] agents[k]),
    ensures
        newline_count(agent_lines_upto(agents, n, width)) == n,
        n > 0 ==> ends_with_line_end(agent_lines_upto(agents, n, width)),
    decreases n,
{
    if n > 0 {
        lemma_agent_lines_count(agents, (n - 1) as nat, width);
        lemma_agent_line_count(agents[n - 1], width);
        lemma_count_add(agent_lines_upto(agents, (n - 1) as nat, width), agent_line(agents[n - 1], width));
        lemma_ends_with_line_end(agent_lines_upto(agents, (n - 1) as nat, width), agent_line(agents[n - 1], width));
    }
}

/// Every item is a tab or an agent.
proof fn lemma_kinds_cover(items: Seq<HintItem>)
    ensures
        of_kind(items, HintKind::Tab).len() + of_kind(items, HintKind::Agent).len() == items.len(),
    decreases items.len(),
{
    if items.len() > 0 {
        lemma_kinds_cover(items.drop_last());
    }
}

/// The items of a kind of one-line items are on one line.
proof fn lemma_kind_one_line(items: Seq<HintItem>, kind: HintKind)
    requires
        forall|i: int| 0 <= i < items.len() ==> fields_on_one_line(#[trigger] items[i]),
    ensures
        forall|k: int|
            0 <= k < of_kind(items, kind).len() ==> fields_on_one_line(
                #[trigger] of_kind(items, kind)[k],
            ),
{
    let sel = of_kind(items, kind);
    lemma_of_kind_members(items, kind);
    assert forall|k: int| 0 <= k < sel.len() implies fields_on_one_line(#[trigger] sel[k]) by {
        let i = choose|i: int| 0 <= i < items.len() && items[i] == sel[k] && items[i].kind == kind;
        assert(fields_on_one_line(items[i]));
    }
}

/// The tab part: `m` blank lines and each group's heading and rows; when
/// there are tabs it ends with a line end.
proof fn lemma_tabs_section_count(items: Seq<HintItem>)
    requires
        forall|i: int| 0 <= i < items.len() ==> fields_on_one_line(#[trigger] items[i]),
    ensures
        ({
            let tabs = of_kind(items, HintKind::Tab);
            let m = group_names(tabs).len();
            &&& newline_count(tabs_section(items)) == if tabs.len() == 0 {
                0
            } else {
                m + tab_lines_upto(tabs, m)
            }
            &&& tabs.len() > 0 ==> ends_with_line_end(tabs_section(items))
        }),
{
    let tabs = of_kind(items, HintKind::Tab);
    if tabs.len() > 0 {
        lemma_kind_one_line(items, HintKind::Tab);
        let m = group_names(tabs).len();
        lemma_group_names(tabs);
        assert(group_names(tabs).contains(group_key(tabs[0])));
        lemma_blocks_count(tabs, m);
        lemma_line_end_count();
        lemma_count_add(blocks_upto(tabs, m), "\r\n"@);
        lemma_ends_with_line_end(blocks_upto(tabs, m), "\r\n"@);
    }
}

/// The agent part: a heading and one line per agent; when there are agents
/// it ends with a line end.
proof fn lemma_agents_section_count(items: Seq<HintItem>)
    requires
        forall|i: int| 0 <= i < items.len() ==> fields_on_one_line(#[trigger] items[i]),
    ensures
        ({
            let agents = of_kind(items, HintKind::Agent);
            &&& newline_count(agents_section(items)) == if agents.len() == 0 {
                0
            } else {
                1 + agents.len()
            }
            &&& agents.len() > 0 ==> ends_with_line_end(agents_section(items))
        }),
{
    let agents = of_kind(items, HintKind::Agent);
    if agents.len() > 0 {
        lemma_kind_one_line(items, HintKind::Agent);
        let w = max_status_len(agents);
        let heading = " Agents\r\n"@;
        assert(!" Agents"@.contains('\n')) by {
            reveal_strlit(" Agents");
        }
        lemma_one_line_then_end(" Agents"@);
        assert(" Agents"@ + "\r\n"@ =~= heading) by {
            reveal_strlit(" Agents");
            reveal_strlit("\r\n");
            reveal_strlit(" Agents\r\n");
        }
        lemma_agent_lines_count(agents, agents.len(), w);
        lemma_count_add(heading, agent_lines_upto(agents, agents.len(), w));
        lemma_ends_with_line_end(heading, agent_lines_upto(agents, agents.len(), w));
    }
}

/// The overview has one line end for each of its lines: for `m` groups of
/// tabs, a heading and the rows of each, and `m` blank lines; for the
/// agents, a heading and a line each. It is empty exactly when there are no
/// items, and otherwise ends with a line end.
pub proof fn lemma_line_count(items: Seq<HintItem>)
    requires
        forall|i: int| 0 <= i < items.len() ==> fields_on_one_line(#[trigger] items[i]),
    ensures
        newline_count(render_text(items)) == line_count(items),
        render_text(items).len() == 0 <==> items.len() == 0,
        items.len() > 0 ==> ends_with_line_end(render_text(items)),
{
    let tabs = of_kind(items, HintKind::Tab);
    let agents = of_kind(items, HintKind::Agent);
    lemma_kinds_cover(items);
    lemma_tabs_section_count(items);
    lemma_agents_section_count(items);
    lemma_count_add(tabs_section(items), agents_section(items));
    if agents.len() > 0 {
        lemma_ends_with_line_end(tabs_section(items), agents_section(items));
    } else {
        assert(render_text(items) =~= tabs_section(items));
    }
    if items.len() == 0 {
        assert(render_text(items) =~= Seq::<char>::empty());
    }
}

// ---------------------------------------------------------------------------
// The labels in brackets
// ---------------------------------------------------------------------------

/// The text after the last `[` of `s`, when `s` has one.
pub open spec fn after_last_open(s: Seq<char>) -> Option<Seq<char>>
    decreases s.len(),
{
    if s.len() == 0 {
        None
    } else if s.last() == '[' {
        Some(Seq::empty())
    } else {
        match after_last_open(s.drop_last()) {
            Some(t) => Some(t.push(s.last())),
            None => None,
        }
    }
}

/// The words in brackets in `s`, in order: for each `]` that has a `[`
/// before it, the text between the last such `[` and the `]`.
pub open spec fn bracketed(s: Seq<char>) -> Seq<Seq<char>>
    decreases s.len(),
{
    if s.len() == 0 {
        Seq::empty()
    } else {
        let prev = bracketed(s.drop_last());
        if s.last() == ']' {
            match after_last_open(s.drop_last()) {
                Some(t) => prev.push(t),
                None => prev,
            }
        } else {
            prev
        }
    }
}

/// `s` holds neither `[` nor `]`.
pub open spec fn no_brackets(s: Seq<char>) -> bool {
    !s.contains('[') && !s.contains(']')
}

/// Every `]` of `s` has a `[` before it in `s`.
pub open spec fn closed(s: Seq<char>) -> bool {
    forall|k: int| 0 <= k < s.len() && s[k] == ']' ==> #[trigger] s.take(k).contains('[')
}

/// No text field of the item holds a bracket, nor does its group name.
pub open spec fn fields_without_brackets(item: HintItem) -> bool {
    &&& no_brackets(item.label@)
    &&& no_brackets(item.display_name@)
    &&& no_brackets(item.status@)
    &&& no_brackets(text_or_empty(item.context))
    &&& no_brackets(text_or_empty(item.title))
    &&& no_brackets(group_key(item))
}

/// The labels of `items`, in order.
pub open spec fn labels_of(items: Seq<HintItem>) -> Seq<Seq<char>> {
    items.map_values(|t: HintItem| t.label@)
}

/// The labels of the tabs of the first `g` groups, group by group.
pub open spec fn group_labels_upto(tabs: Seq<HintItem>, g: nat) -> Seq<Seq<char>>
    decreases g,
{
    if g == 0 {
        Seq::empty()
    } else {
        group_labels_upto(tabs, (g - 1) as nat) + labels_of(
            tabs_in_group(tabs, group_names(tabs)[g - 1]),
        )
    }
}

proof fn lemma_open_after_prefix(a: Seq<char>, x: Seq<char>)
    requires
        x.contains('['),
    ensures
        after_last_open(a + x) == after_last_open(x),
    decreases x.len(),
{
    assert((a + x).drop_last() =~= a + x.drop_last());
    assert((a + x).last() == x.last());
    if x.last() != '[' {
        let k = choose|k: int| 0 <= k < x.len() && x[k] == '[';
        assert(x.drop_last()[k] == x[k]);
        lemma_open_after_prefix(a, x.drop_last());
    }
}

proof fn lemma_open_of_bracket(y: Seq<char>, w: Seq<char>)
    requires
        !w.contains('['),
    ensures
        after_last_open(y + seq!['['] + w) == Some(w),
    decreases w.len(),
{
    let s = y + seq!['['] + w;
    if w.len() == 0 {
        assert(s =~= y.push('['));
        assert(s.last() == '[');
    } else {
        assert(s.drop_last() =~= y + seq!['['] + w.drop_last());
        assert(w[w.len() - 1] != '[');
        assert forall|k: int| 0 <= k < w.drop_last().len() implies w.drop_last()[k] != '[' by {
            assert(w.drop_last()[k] == w[k]);
        }
        lemma_open_of_bracket(y, w.drop_last());
        assert(w.drop_last().push(w.last()) =~= w);
    }
}

proof fn lemma_open_ends(x: Seq<char>)
    requires
        after_last_open(x) is Some,
    ensures
        ({
            let w = after_last_open(x)->0;
            &&& !w.contains('[')
            &&& w.len() + 1 <= x.len()
            &&& x.subrange(x.len() - w.len() - 1, x.len() as int) == seq!['['] + w
        }),
    decreases x.len(),
{
    if x.last() == '[' {
        assert(x.subrange(x.len() - 1, x.len() as int) =~= seq!['['] + Seq::<char>::empty());
    } else {
        lemma_open_ends(x.drop_last());
        let v = after_last_open(x.drop_last())->0;
        let w = v.push(x.last());
        assert forall|k: int| 0 <= k < w.len() implies w[k] != '[' by {
            if k < v.len() {
                assert(w[k] == v[k]);
            }
        }
        assert(x.subrange(x.len() - w.len() - 1, x.len() as int) =~= x.drop_last().subrange(
            x.drop_last().len() - v.len() - 1,
            x.drop_last().len() as int,
        ).push(x.last()));
    }
}

/// A prefix of a closed text is closed.
proof fn lemma_closed_drop_last(s: Seq<char>)
    requires
        closed(s),
        s.len() > 0,
    ensures
        closed(s.drop_last()),
{
    let d = s.drop_last();
    assert forall|k: int| 0 <= k < d.len() && d[k] == ']' implies #[trigger] d.take(k).contains('[') by {
        assert(s[k] == ']');
        assert(s.take(k).contains('['));
        assert(d.take(k) =~= s.take(k));
    }
}

/// The bracketed words of a text followed by a closed text are those of
/// each.
proof fn lemma_bracketed_add(a: Seq<char>, b: Seq<char>)
    requires
        closed(b),
    ensures
        bracketed(a + b) == bracketed(a) + bracketed(b),
    decreases b.len(),
{
    if b.len() == 0 {
        assert(a + b =~= a);
        assert(bracketed(a) + bracketed(b) =~= bracketed(a));
    } else {
        lemma_closed_drop_last(b);
        lemma_bracketed_add(a, b.drop_last());
        assert((a + b).drop_last() =~= a + b.drop_last());
        assert((a + b).last() == b.last());
        if b.last() == ']' {
            assert(b[b.len() - 1] == ']');
            assert(b.take(b.len() - 1).contains('['));
            assert(b.take(b.len() - 1) =~= b.drop_last());
            lemma_open_after_prefix(a, b.drop_last());
        }
        assert(bracketed(a + b) =~= bracketed(a) + bracketed(b));
    }
}

/// A text without `]` is closed and has no bracketed words.
proof fn lemma_no_close(s: Seq<char>)
    requires
        !s.contains(']'),
    ensures
        closed(s),
        bracketed(s).len() == 0,
    decreases s.len(),
{
    if s.len() > 0 {
        assert forall|k: int| 0 <= k < s.drop_last().len() implies s.drop_last()[k] != ']' by {
            assert(s.drop_last()[k] == s[k]);
        }
        lemma_no_close(s.drop_last());
        assert(s[s.len() - 1] != ']');
    }
}

proof fn lemma_closed_add(a: Seq<char>, b: Seq<char>)
    requires
        closed(a),
        closed(b),
    ensures
        closed(a + b),
{
    let s = a + b;
    assert forall|k: int| 0 <= k < s.len() && s[k] == ']' implies #[trigger] s.take(k).contains('[') by {
        if k < a.len() {
            assert(a[k] == ']');
            assert(a.take(k).contains('['));
            assert(s.take(k) =~= a.take(k));
            let i = choose|i: int| 0 <= i < a.take(k).len() && a.take(k)[i] == '[';
            assert(s.take(k)[i] == '[');
        } else {
            let kb = k - a.len();
            assert(b[kb] == ']');
            assert(b.take(kb).contains('['));
            let i = choose|i: int| 0 <= i < b.take(kb).len() && b.take(kb)[i] == '[';
            assert(s.take(k)[a.len() + i] == b.take(kb)[i]);
        }
    }
}

/// A word in brackets, with text without `]` around it.
proof fn lemma_bracket_piece(pre: Seq<char>, w: Seq<char>, post: Seq<char>)
    requires
        !pre.contains(']'),
        no_brackets(w),
        !post.contains(']'),
    ensures
        closed(pre + (seq!['['] + w + seq![']']) + post),
        bracketed(pre + (seq!['['] + w + seq![']']) + post) == seq![w],
{
    let mid = seq!['['] + w + seq![']'];
    lemma_no_close(pre);
    lemma_no_close(post);
    lemma_no_close(seq!['['] + w);
    assert(!(seq!['['] + w).contains(']')) by {
        assert forall|k: int| 0 <= k < (seq!['['] + w).len() implies (seq!['['] + w)[k] != ']' by {
            if k > 0 {
                assert((seq!['['] + w)[k] == w[k - 1]);
            }
        }
    }
    lemma_no_close(seq!['['] + w);
    assert(mid.drop_last() =~= Seq::<char>::empty() + seq!['['] + w);
    lemma_open_of_bracket(Seq::<char>::empty(), w);
    assert(bracketed(mid) =~= seq![w]);
    assert forall|k: int| 0 <= k < mid.len() && mid[k] == ']' implies #[trigger] mid.take(k).contains('[') by {
        if k < mid.len() - 1 {
            assert(mid[k] == (seq!['['] + w)[k]);
        }
        assert(mid.take(k)[0] == '[');
    }
    lemma_closed_add(pre, mid);
    lemma_closed_add(pre + mid, post);
    lemma_bracketed_add(pre, mid);
    lemma_bracketed_add(pre + mid, post);
    assert(bracketed(pre) + bracketed(mid) + bracketed(post) =~= seq![w]);
}

proof fn lemma_join(a: Seq<char>, b: Seq<char>)
    requires
        closed(a),
        closed(b),
    ensures
        closed(a + b),
        bracketed(a + b) == bracketed(a) + bracketed(b),
{
    lemma_closed_add(a, b);
    lemma_bracketed_add(a, b);
}

proof fn lemma_lacks_concat(a: Seq<char>, b: Seq<char>, c: char)
    requires
        !a.contains(c),
        !b.contains(c),
    ensures
        !(a + b).contains(c),
{
    assert forall|k: int| 0 <= k < (a + b).len() implies (a + b)[k] != c by {
        if k < a.len() {
            assert((a + b)[k] == a[k]);
        } else {
            assert((a + b)[k] == b[k - a.len()]);
        }
    }
}

proof fn lemma_spaces_lack(n: nat, c: char)
    requires
        c != ' ',
    ensures
        !spaces(n).contains(c),
    decreases n,
{
    if n > 0 {
        lemma_spaces_lack((n - 1) as nat, c);
        let s = spaces(n);
        assert forall|k: int| 0 <= k < s.len() implies s[k] != c by {
            if k < s.len() - 1 {
                assert(s[k] == spaces((n - 1) as nat)[k]);
            }
        }
    }
}

proof fn lemma_pad_no_close(s: Seq<char>, width: nat)
    requires
        !s.contains(']'),
    ensures
        !pad_right(s, width).contains(']'),
{
    if s.len() < width {
        lemma_spaces_lack((width - s.len()) as nat, ']');
        lemma_lacks_concat(s, spaces((width - s.len()) as nat), ']');
    }
}

proof fn lemma_literals_no_close()
    ensures
        !"   "@.contains(']'),
        !" "@.contains(']'),
        !"*"@.contains(']'),
        !"  "@.contains(']'),
        !"\r\n"@.contains(']'),
        !"\x1b[2m"@.contains(']'),
        !"\x1b[0m"@.contains(']'),
        !" Agents\r\n"@.contains(']'),
        " ["@ == " "@ + seq!['['],
        "]  "@ == seq![']'] + "  "@,
{
    reveal_strlit("   ");
    reveal_strlit(" ");
    reveal_strlit("*");
    reveal_strlit("  ");
    reveal_strlit("\r\n");
    reveal_strlit("\x1b[2m");
    reveal_strlit("\x1b[0m");
    reveal_strlit(" Agents\r\n");
    reveal_strlit(" [");
    reveal_strlit("]  ");
    assert(" ["@ =~= " "@ + seq!['[']);
    assert("]  "@ =~= seq![']'] + "  "@);
}

/// A tab's cell holds its label in brackets, and nothing else in brackets.
proof fn lemma_cell_bracketed(item: HintItem)
    requires
        fields_without_brackets(item),
    ensures
        closed(tab_cell_text(item)),
        bracketed(tab_cell_text(item)) == seq![item.label@],
{
    lemma_literals_no_close();
    let pre = marker(item.focused) + " "@;
    let post = "  "@ + item.display_name@;
    lemma_lacks_concat(marker(item.focused), " "@, ']');
    lemma_lacks_concat("  "@, item.display_name@, ']');
    lemma_bracket_piece(pre, item.label@, post);
    assert(tab_cell_text(item) =~= pre + (seq!['['] + item.label@ + seq![']']) + post);
}

/// A row holds the labels of its cells.
proof fn lemma_row_bracketed(run: Seq<HintItem>, c: int, width: nat)
    requires
        0 <= 2 * c < run.len(),
        forall|k: int| 0 <= k < run.len() ==> fields_without_brackets(#[trigger] run[k]),
    ensures
        closed(row_text(run, c, width)),
        bracketed(row_text(run, c, width)) == labels_of(
            run.subrange(2 * c, if 2 * c + 2 <= run.len() {
                2 * c + 2
            } else {
                run.len() as int
            }),
        ),
{
    lemma_literals_no_close();
    lemma_no_close("   "@);
    lemma_no_close("\r\n"@);
    let cell = tab_cell_text(run[2 * c]);
    lemma_cell_bracketed(run[2 * c]);
    if 2 * c + 1 < run.len() {
        let padded = pad_right(cell, width);
        if cell.len() < width {
            let sp = spaces((width - cell.len()) as nat);
            lemma_spaces_lack((width - cell.len()) as nat, ']');
            lemma_no_close(sp);
            lemma_join(cell, sp);
        }
        assert(closed(padded) && bracketed(padded) == seq![run[2 * c].label@]) by {
            if cell.len() < width {
                assert(bracketed(cell) + bracketed(spaces((width - cell.len()) as nat)) =~= seq![run[2 * c].label@]);
            }
        }
        lemma_cell_bracketed(run[2 * c + 1]);
        let second = tab_cell_text(run[2 * c + 1]);
        lemma_join("   "@, padded);
        lemma_join("   "@ + padded, second);
        lemma_join("   "@ + padded + second, "\r\n"@);
        assert(run.subrange(2 * c, 2 * c + 2) =~= seq![run[2 * c], run[2 * c + 1]]);
        assert(labels_of(seq![run[2 * c], run[2 * c + 1]]) =~= seq![run[2 * c].label@, run[2 * c + 1].label@]);
        assert(bracketed(row_text(run, c, width)) =~= seq![run[2 * c].label@, run[2 * c + 1].label@]);
    } else {
        lemma_join("   "@, cell);
        lemma_join("   "@ + cell, "\r\n"@);
        assert(run.subrange(2 * c, run.len() as int) =~= seq![run[2 * c]]);
        assert(labels_of(seq![run[2 * c]]) =~= seq![run[2 * c].label@]);
        assert(bracketed(row_text(run, c, width)) =~= seq![run[2 * c].label@]);
    }
}

/// The first `c` rows hold the labels of their cells, in order.
proof fn lemma_rows_bracketed(run: Seq<HintItem>, c: nat, width: nat)
    requires
        c <= row_count(run.len()),
        forall|k: int| 0 <= k < run.len() ==> fields_without_brackets(#[trigger] run[k]),
    ensures
        closed(rows_upto(run, c, width)),
        bracketed(rows_upto(run, c, width)) == labels_of(
            run.take(if 2 * c <= run.len() {
                (2 * c) as int
            } else {
                run.len() as int
            }),
        ),
    decreases c,
{
    if c == 0 {
        lemma_no_close(Seq::<char>::empty());
        assert(labels_of(run.take(0)) =~= Seq::<Seq<char>>::empty());
    } else {
        lemma_rows_bracketed(run, (c - 1) as nat, width);
        lemma_row_bracketed(run, c - 1, width);
        lemma_join(rows_upto(run, (c - 1) as nat, width), row_text(run, c - 1, width));
        let end: int = if 2 * c <= run.len() {
            (2 * c) as int
        } else {
            run.len() as int
        };
        assert(run.take(2 * (c - 1)) + run.subrange(2 * (c - 1), end) =~= run.take(end));
        assert(labels_of(run.take(2 * (c - 1))) + labels_of(run.subrange(2 * (c - 1), end))
            =~= labels_of(run.take(end)));
    }
}

/// A group block holds the labels of the group's tabs, in order.
proof fn lemma_block_bracketed(name: Seq<char>, run: Seq<HintItem>, follows_another: bool)
    requires
        no_brackets(name),
        forall|k: int| 0 <= k < run.len() ==> fields_without_brackets(#[trigger] run[k]),
    ensures
        closed(block_text(name, run, follows_another)),
        bracketed(block_text(name, run, follows_another)) == labels_of(run),
{
    lemma_literals_no_close();
    let gap: Seq<char> = if follows_another {
        "\r\n"@
    } else {
        Seq::empty()
    };
    let head = gap + " "@ + name + "\r\n"@;
    assert(!gap.contains(']'));
    lemma_lacks_concat(gap, " "@, ']');
    lemma_lacks_concat(gap + " "@, name, ']');
    lemma_lacks_concat(gap + " "@ + name, "\r\n"@, ']');
    lemma_no_close(head);
    let rows = rows_upto(run, row_count(run.len()), column_width(run));
    lemma_rows_bracketed(run, row_count(run.len()), column_width(run));
    assert(run.take(run.len() as int) =~= run);
    lemma_join(head, rows);
    assert(block_text(name, run, follows_another) =~= head + rows);
    assert(bracketed(head) + bracketed(rows) =~= labels_of(run));
}

/// The first `g` blocks hold the labels of their groups, group by group.
proof fn lemma_blocks_bracketed(tabs: Seq<HintItem>, g: nat)
    requires
        g <= group_names(tabs).len(),
        forall|k: int| 0 <= k < tabs.len() ==> fields_without_brackets(#[trigger] tabs[k]),
    ensures
        closed(blocks_upto(tabs, g)),
        bracketed(blocks_upto(tabs, g)) == group_labels_upto(tabs, g),
    decreases g,
{
    if g == 0 {
        lemma_no_close(Seq::<char>::empty());
    } else {
        lemma_blocks_bracketed(tabs, (g - 1) as nat);
        let names = group_names(tabs);
        let name = names[g - 1];
        let run = tabs_in_group(tabs, name);
        lemma_group_names(tabs);
        let j = choose|j: int| 0 <= j < tabs.len() && #[trigger] group_key(tabs[j]) == names[g - 1];
        assert(fields_without_brackets(tabs[j]));
        lemma_group_members(tabs, name);
        assert forall|k: int| 0 <= k < run.len() implies fields_without_brackets(#[trigger] run[k]) by {
            let i = choose|i: int| 0 <= i < tabs.len() && tabs[i] == run[k];
            assert(fields_without_brackets(tabs[i]));
        }
        lemma_block_bracketed(name, run, g - 1 > 0);
        lemma_join(blocks_upto(tabs, (g - 1) as nat), group_block(tabs, g - 1));
    }
}

/// What follows an agent's label holds no `]`.
proof fn lemma_agent_tail_no_close(item: HintItem, width: nat)
    requires
        fields_without_brackets(item),
    ensures
        !("  "@ + pad_right(item.status@, width) + "  "@ + text_or_empty(item.context) + "  "@
            + dimmed(text_or_empty(item.title)) + "\r\n"@).contains(']'),
{
    lemma_literals_no_close();
    let title = text_or_empty(item.title);
    if title.len() > 0 {
        lemma_lacks_concat("\x1b[2m"@, title, ']');
        lemma_lacks_concat("\x1b[2m"@ + title, "\x1b[0m"@, ']');
    } else {
        assert(!dimmed(title).contains(']'));
    }
    lemma_pad_no_close(item.status@, width);
    let ctx = text_or_empty(item.context);
    let padded = pad_right(item.status@, width);
    lemma_lacks_concat("  "@, padded, ']');
    lemma_lacks_concat("  "@ + padded, "  "@, ']');
    lemma_lacks_concat("  "@ + padded + "  "@, ctx, ']');
    lemma_lacks_concat("  "@ + padded + "  "@ + ctx, "  "@, ']');
    lemma_lacks_concat("  "@ + padded + "  "@ + ctx + "  "@, dimmed(title), ']');
    lemma_lacks_concat("  "@ + padded + "  "@ + ctx + "  "@ + dimmed(title), "\r\n"@, ']');
}

/// An agent's line holds its label in brackets, and nothing else in
/// brackets.
proof fn lemma_agent_line_bracketed(item: HintItem, width: nat)
    requires
        fields_without_brackets(item),
    ensures
        closed(agent_line(item, width)),
        bracketed(agent_line(item, width)) == seq![item.label@],
{
    let pre = "   "@ + marker(item.focused) + " "@;
    let post = "  "@ + pad_right(item.status@, width) + "  "@ + text_or_empty(item.context) + "  "@
        + dimmed(text_or_empty(item.title)) + "\r\n"@;
    assert(!pre.contains(']')) by {
        lemma_literals_no_close();
        lemma_lacks_concat("   "@, marker(item.focused), ']');
        lemma_lacks_concat("   "@ + marker(item.focused), " "@, ']');
    }
    lemma_agent_tail_no_close(item, width);
    lemma_bracket_piece(pre, item.label@, post);
    assert(agent_line(item, width) =~= pre + (seq!['['] + item.label@ + seq![']']) + post) by {
        lemma_literals_no_close();
    }
}

/// The first `n` agent lines hold the agents' labels, in order.
proof fn lemma_agent_lines_bracketed(agents: Seq<HintItem>, n: nat, width: nat)
    requires
        n <= agents.len(),
        forall|k: int| 0 <= k < agents.len() ==> fields_without_brackets(#[trigger] agents[k]),
    ensures
        closed(agent_lines_upto(agents, n, width)),
        bracketed(agent_lines_upto(agents, n, width)) == labels_of(agents.take(n as int)),
    decreases n,
{
    if n == 0 {
        lemma_no_close(Seq::<char>::empty());
        assert(labels_of(agents.take(0)) =~= Seq::<Seq<char>>::empty());
    } else {
        lemma_agent_lines_bracketed(agents, (n - 1) as nat, width);
        lemma_agent_line_bracketed(agents[n - 1], width);
        lemma_join(agent_lines_upto(agents, (n - 1) as nat, width), agent_line(agents[n - 1], width));
        assert(labels_of(agents.take(n - 1)).push(agents[n - 1].label@) =~= labels_of(agents.take(n as int)));
    }
}

/// The labels shown in brackets are those of the tabs, group by group in
/// the order in which the groups first appear and in item order within a
/// group, followed by those of the agents in item order; nothing else in
/// the overview is in brackets.
pub proof fn lemma_bracketed_labels(items: Seq<HintItem>)
    requires
        forall|i: int| 0 <= i < items.len() ==> fields_without_brackets(#[trigger] items[i]),
    ensures
        ({
            let tabs = of_kind(items, HintKind::Tab);
            bracketed(render_text(items)) == group_labels_upto(tabs, group_names(tabs).len())
                + labels_of(of_kind(items, HintKind::Agent))
        }),
{
    let tabs = of_kind(items, HintKind::Tab);
    let agents = of_kind(items, HintKind::Agent);
    let m = group_names(tabs).len();
    lemma_of_kind_members(items, HintKind::Tab);
    lemma_of_kind_members(items, HintKind::Agent);
    assert forall|k: int| 0 <= k < tabs.len() implies fields_without_brackets(#[trigger] tabs[k]) by {
        let i = choose|i: int| 0 <= i < items.len() && items[i] == tabs[k] && items[i].kind == HintKind::Tab;
        assert(fields_without_brackets(items[i]));
    }
    assert forall|k: int| 0 <= k < agents.len() implies fields_without_brackets(#[trigger] agents[k]) by {
        let i = choose|i: int|
            0 <= i < items.len() && items[i] == agents[k] && items[i].kind == HintKind::Agent;
        assert(fields_without_brackets(items[i]));
    }
    lemma_literals_no_close();
    lemma_no_close("\r\n"@);
    lemma_no_close(" Agents\r\n"@);
    lemma_no_close(Seq::<char>::empty());
    if tabs.len() > 0 {
        lemma_blocks_bracketed(tabs, m);
        lemma_join(blocks_upto(tabs, m), "\r\n"@);
    } else {
        assert(group_names(tabs).len() == 0);
    }
    assert(closed(tabs_section(items)));
    assert(bracketed(tabs_section(items)) =~= group_labels_upto(tabs, m));
    if agents.len() > 0 {
        let w = max_status_len(agents);
        lemma_agent_lines_bracketed(agents, agents.len(), w);
        lemma_join(" Agents\r\n"@, agent_lines_upto(agents, agents.len(), w));
        assert(agents.take(agents.len() as int) =~= agents);
    } else {
        assert(labels_of(agents) =~= Seq::<Seq<char>>::empty());
    }
    assert(closed(agents_section(items)));
    assert(bracketed(agents_section(items)) =~= labels_of(agents));
    lemma_join(tabs_section(items), agents_section(items));
}

/// `w` between brackets.
pub open spec fn in_brackets(w: Seq<char>) -> Seq<char> {
    seq!['['] + w + seq![']']
}

/// `s` ends with `t`.
pub open spec fn ends_with(s: Seq<char>, t: Seq<char>) -> bool {
    t.len() <= s.len() && s.subrange(s.len() - t.len(), s.len() as int) == t
}

/// The number of places at which `t` occurs in `s`, counted by where they
/// end.
pub open spec fn occurrences(t: Seq<char>, s: Seq<char>) -> nat
    decreases s.len(),
{
    if s.len() == 0 {
        0
    } else {
        occurrences(t, s.drop_last()) + if ends_with(s, t) {
            1nat
        } else {
            0nat
        }
    }
}

/// How often `w` is among `words`.
pub open spec fn count_word(words: Seq<Seq<char>>, w: Seq<char>) -> nat
    decreases words.len(),
{
    if words.len() == 0 {
        0
    } else {
        count_word(words.drop_last(), w) + if words.last() == w {
            1nat
        } else {
            0nat
        }
    }
}

proof fn lemma_ends_in_brackets(s: Seq<char>, w: Seq<char>)
    requires
        s.len() > 0,
        no_brackets(w),
    ensures
        ends_with(s, in_brackets(w)) <==> (s.last() == ']' && after_last_open(s.drop_last())
            == Some(w)),
{
    let t = in_brackets(w);
    let d = s.drop_last();
    if ends_with(s, t) {
        let y = s.take(s.len() - t.len());
        assert(d =~= y + seq!['['] + w) by {
            assert forall|k: int| 0 <= k < d.len() implies d[k] == (y + seq!['['] + w)[k] by {
                if k >= y.len() {
                    assert(d[k] == s.subrange(s.len() - t.len(), s.len() as int)[k - y.len()]);
                }
            }
        }
        assert(s.last() == t.last());
        assert(t.last() == ']');
        lemma_open_of_bracket(y, w);
        assert(after_last_open(d) == Some(w));
    }
    if s.last() == ']' && after_last_open(d) == Some(w) {
        lemma_open_ends(d);
        let tail = d.subrange(d.len() - w.len() - 1, d.len() as int);
        assert(tail == seq!['['] + w);
        assert(s.subrange(s.len() - t.len(), s.len() as int) =~= tail.push(']'));
        assert(tail.push(']') =~= t);
        assert(ends_with(s, t));
    }
}

/// The places where a bracket-free word occurs between brackets are the
/// bracketed words equal to it.
pub proof fn lemma_occurrences_are_bracketed(s: Seq<char>, w: Seq<char>)
    requires
        no_brackets(w),
    ensures
        occurrences(in_brackets(w), s) == count_word(bracketed(s), w),
    decreases s.len(),
{
    if s.len() > 0 {
        lemma_occurrences_are_bracketed(s.drop_last(), w);
        lemma_ends_in_brackets(s, w);
        let prev = bracketed(s.drop_last());
        if s.last() == ']' {
            match after_last_open(s.drop_last()) {
                Some(t) => {
                    assert(bracketed(s).drop_last() =~= prev);
                },
                None => {},
            }
        }
    }
}

proof fn lemma_count_word_add(a: Seq<Seq<char>>, b: Seq<Seq<char>>, w: Seq<char>)
    ensures
        count_word(a + b, w) == count_word(a, w) + count_word(b, w),
    decreases b.len(),
{
    if b.len() == 0 {
        assert(a + b =~= a);
    } else {
        lemma_count_word_add(a, b.drop_last(), w);
        assert((a + b).drop_last() =~= a + b.drop_last());
    }
}

proof fn lemma_count_word_push(ws: Seq<Seq<char>>, v: Seq<char>, w: Seq<char>)
    ensures
        count_word(ws.push(v), w) == count_word(ws, w) + if v == w {
            1nat
        } else {
            0nat
        },
{
    assert(ws.push(v).drop_last() =~= ws);
}

proof fn lemma_count_word_absent(ws: Seq<Seq<char>>, w: Seq<char>)
    requires
        !ws.contains(w),
    ensures
        count_word(ws, w) == 0,
    decreases ws.len(),
{
    if ws.len() > 0 {
        assert forall|k: int| 0 <= k < ws.drop_last().len() implies ws.drop_last()[k] != w by {
            assert(ws.drop_last()[k] == ws[k]);
        }
        lemma_count_word_absent(ws.drop_last(), w);
        assert(ws[ws.len() - 1] != w);
    }
}

proof fn lemma_count_word_distinct(ws: Seq<Seq<char>>, i: int)
    requires
        ws.no_duplicates(),
        0 <= i < ws.len(),
    ensures
        count_word(ws, ws[i]) == 1,
    decreases ws.len(),
{
    let d = ws.drop_last();
    if i == ws.len() - 1 {
        assert forall|k: int| 0 <= k < d.len() implies d[k] != ws[i] by {
            assert(d[k] == ws[k]);
        }
        lemma_count_word_absent(d, ws[i]);
    } else {
        assert(d.no_duplicates()) by {
            assert forall|a: int, b: int| 0 <= a < d.len() && 0 <= b < d.len() && a != b implies d[a]
                != d[b] by {
                assert(d[a] == ws[a] && d[b] == ws[b]);
            }
        }
        assert(d[i] == ws[i]);
        lemma_count_word_distinct(d, i);
        assert(ws[ws.len() - 1] != ws[i]);
    }
}

proof fn lemma_labels_push(s: Seq<HintItem>, t: HintItem)
    ensures
        labels_of(s.push(t)) == labels_of(s).push(t.label@),
{
    assert(labels_of(s.push(t)) =~= labels_of(s).push(t.label@));
}

/// Tabs with label `w` whose group name is among `names`.
pub open spec fn count_in_groups(tabs: Seq<HintItem>, names: Seq<Seq<char>>, w: Seq<char>) -> nat
    decreases tabs.len(),
{
    if tabs.len() == 0 {
        0
    } else {
        count_in_groups(tabs.drop_last(), names, w) + if tabs.last().label@ == w && names.contains(
            group_key(tabs.last()),
        ) {
            1nat
        } else {
            0nat
        }
    }
}

proof fn lemma_count_one_group(tabs: Seq<HintItem>, name: Seq<char>, w: Seq<char>)
    ensures
        count_word(labels_of(tabs_in_group(tabs, name)), w) == count_in_groups(tabs, seq![name], w),
    decreases tabs.len(),
{
    if tabs.len() > 0 {
        let d = tabs.drop_last();
        lemma_count_one_group(d, name, w);
        assert(seq![name].contains(group_key(tabs.last())) <==> group_key(tabs.last()) == name) by {
            assert(seq![name][0] == name);
        }
        if group_key(tabs.last()) == name {
            lemma_labels_push(tabs_in_group(d, name), tabs.last());
            lemma_count_word_push(labels_of(tabs_in_group(d, name)), tabs.last().label@, w);
        }
    }
}

proof fn lemma_count_groups_push(tabs: Seq<HintItem>, names: Seq<Seq<char>>, name: Seq<char>, w: Seq<char>)
    requires
        !names.contains(name),
    ensures
        count_in_groups(tabs, names.push(name), w) == count_in_groups(tabs, names, w)
            + count_in_groups(tabs, seq![name], w),
    decreases tabs.len(),
{
    if tabs.len() > 0 {
        lemma_count_groups_push(tabs.drop_last(), names, name, w);
        let k = group_key(tabs.last());
        assert(names.push(name).contains(k) <==> (names.contains(k) || k == name)) by {
            if names.push(name).contains(k) {
                let j = choose|j: int| 0 <= j < names.push(name).len() && names.push(name)[j] == k;
                if j < names.len() {
                    assert(names[j] == k);
                }
            }
            if names.contains(k) {
                let j = choose|j: int| 0 <= j < names.len() && names[j] == k;
                assert(names.push(name)[j] == k);
            }
            if k == name {
                assert(names.push(name)[names.len() as int] == k);
            }
        }
        assert(seq![name].contains(k) <==> k == name) by {
            assert(seq![name][0] == name);
        }
    }
}

proof fn lemma_count_all_groups(tabs: Seq<HintItem>, names: Seq<Seq<char>>, w: Seq<char>)
    requires
        forall|j: int| 0 <= j < tabs.len() ==> names.contains(#[trigger] group_key(tabs[j])),
    ensures
        count_in_groups(tabs, names, w) == count_word(labels_of(tabs), w),
    decreases tabs.len(),
{
    if tabs.len() > 0 {
        let d = tabs.drop_last();
        assert forall|j: int| 0 <= j < d.len() implies names.contains(#[trigger] group_key(d[j])) by {
            assert(d[j] == tabs[j]);
        }
        lemma_count_all_groups(d, names, w);
        assert(names.contains(group_key(tabs[tabs.len() - 1])));
        assert(d.push(tabs.last()) =~= tabs);
        lemma_labels_push(d, tabs.last());
        lemma_count_word_push(labels_of(d), tabs.last().label@, w);
    }
}

proof fn lemma_group_labels_count(tabs: Seq<HintItem>, g: nat, w: Seq<char>)
    requires
        g <= group_names(tabs).len(),
    ensures
        count_word(group_labels_upto(tabs, g), w) == count_in_groups(
            tabs,
            group_names(tabs).take(g as int),
            w,
        ),
    decreases g,
{
    let names = group_names(tabs);
    if g == 0 {
        lemma_count_in_no_groups(tabs, names.take(0), w);
    } else {
        lemma_group_labels_count(tabs, (g - 1) as nat, w);
        lemma_group_names(tabs);
        let name = names[g - 1];
        assert(!names.take(g - 1).contains(name)) by {
            if names.take(g - 1).contains(name) {
                let pre = names.take(g - 1);
                let j = choose|j: int| 0 <= j < pre.len() && #[trigger] pre[j] == name;
                assert(names[j] == names[g - 1]);
            }
        }
        assert(names.take(g - 1).push(name) =~= names.take(g as int));
        lemma_count_groups_push(tabs, names.take(g - 1), name, w);
        lemma_count_one_group(tabs, name, w);
        lemma_count_word_add(
            group_labels_upto(tabs, (g - 1) as nat),
            labels_of(tabs_in_group(tabs, name)),
            w,
        );
    }
}

proof fn lemma_count_in_no_groups(tabs: Seq<HintItem>, names: Seq<Seq<char>>, w: Seq<char>)
    requires
        names.len() == 0,
    ensures
        count_in_groups(tabs, names, w) == 0,
    decreases tabs.len(),
{
    if tabs.len() > 0 {
        lemma_count_in_no_groups(tabs.drop_last(), names, w);
    }
}

proof fn lemma_count_kinds(items: Seq<HintItem>, w: Seq<char>)
    ensures
        count_word(labels_of(items), w) == count_word(labels_of(of_kind(items, HintKind::Tab)), w)
            + count_word(labels_of(of_kind(items, HintKind::Agent)), w),
    decreases items.len(),
{
    if items.len() > 0 {
        let d = items.drop_last();
        lemma_count_kinds(d, w);
        let t = items.last();
        assert(d.push(t) =~= items);
        lemma_labels_push(d, t);
        lemma_count_word_push(labels_of(d), t.label@, w);
        lemma_labels_push(of_kind(d, t.kind), t);
        lemma_count_word_push(labels_of(of_kind(d, t.kind)), t.label@, w);
    }
}

/// With distinct labels and no brackets in any field, the label of every
/// item occurs in brackets exactly once in the overview.
pub proof fn lemma_each_label_once(items: Seq<HintItem>, i: int)
    requires
        0 <= i < items.len(),
        forall|j: int| 0 <= j < items.len() ==> fields_without_brackets(#[trigger] items[j]),
        forall|j: int, k: int|
            0 <= j < k < items.len() ==> #[trigger] items[j].label@ != #[trigger] items[k].label@,
    ensures
        occurrences(in_brackets(items[i].label@), render_text(items)) == 1,
{
    let w = items[i].label@;
    let tabs = of_kind(items, HintKind::Tab);
    let agents = of_kind(items, HintKind::Agent);
    let names = group_names(tabs);
    assert(fields_without_brackets(items[i]));
    lemma_occurrences_are_bracketed(render_text(items), w);
    lemma_bracketed_labels(items);
    lemma_count_word_add(group_labels_upto(tabs, names.len()), labels_of(agents), w);
    lemma_group_labels_count(tabs, names.len(), w);
    assert(names.take(names.len() as int) =~= names);
    lemma_group_names(tabs);
    lemma_count_all_groups(tabs, names, w);
    lemma_count_kinds(items, w);
    let ls = labels_of(items);
    assert(ls.no_duplicates()) by {
        assert forall|a: int, b: int| 0 <= a < ls.len() && 0 <= b < ls.len() && a != b implies ls[a]
            != ls[b] by {
            if a < b {
                assert(items[a].label@ != items[b].label@);
            } else {
                assert(items[b].label@ != items[a].label@);
            }
        }
    }
    lemma_count_word_distinct(ls, i);
}

// ---------------------------------------------------------------------------
// Building the overview
// ---------------------------------------------------------------------------

/// `*` for the focused item, a space otherwise.
fn marker_str(focused: bool) -> (r: &'static str)
    ensures
        r@ == marker(focused),
{
    if focused {
        "*"
    } else {
        " "
    }
}

/// The cell of a tab: `{marker} [{label}]  {name}`.
pub fn tab_cell(item: &HintItem) -> (r: String)
    ensures
        r@ == tab_cell_text(*item),
{
    let mut r = String::new();
    r.append(marker_str(item.focused));
    r.append(" [");
    r.append(item.label.as_str());
    r.append("]  ");
    r.append(item.display_name.as_str());
    assert(r@ =~= tab_cell_text(*item));
    r
}

/// The name of the workspace group of an item; `?` where it has none.
fn group_key_str(item: &HintItem) -> (r: &str)
    ensures
        r@ == group_key(*item),
{
    match &item.group {
        Some(g) => g.as_str(),
        None => "?",
    }
}

/// Whether the group of an item is named `name`.
fn in_group(item: &HintItem, name: &String) -> (r: bool)
    ensures
        r == (group_key(*item) == name@),
{
    let key = group_key_str(item).to_owned();
    key == *name
}

/// Whether `key` is one of `names`.
fn contains_name(names: &Vec<String>, key: &String) -> (r: bool)
    ensures
        r == names_view(names@).contains(key@),
{
    let mut j: usize = 0;
    while j < names.len()
        invariant
            j <= names@.len(),
            forall|h: int| 0 <= h < j ==> #[trigger] names_view(names@)[h] != key@,
        decreases names@.len() - j,
    {
        if names[j] == *key {
            assert(names_view(names@)[j as int] == key@);
            return true;
        }
        j = j + 1;
    }
    false
}

/// References to the items of the given kind, in order.
fn select_kind<'a>(items: &'a [HintItem], kind: HintKind) -> (r: Vec<&'a HintItem>)
    ensures
        deref_all(r@) == of_kind(items@, kind),
{
    let mut r: Vec<&'a HintItem> = Vec::new();
    let mut i: usize = 0;
    while i < items.len()
        invariant
            i <= items@.len(),
            deref_all(r@) == of_kind(items@.take(i as int), kind),
        decreases items@.len() - i,
    {
        let ghost before = r@;
        assert(items@.take(i + 1).drop_last() =~= items@.take(i as int));
        assert(items@.take(i + 1).last() == items@[i as int]);
        if items[i].kind == kind {
            r.push(&items[i]);
            assert(deref_all(r@) =~= deref_all(before).push(items@[i as int]));
        }
        i = i + 1;
    }
    assert(items@.take(items@.len() as int) =~= items@);
    r
}

/// The distinct group names of the tabs, in the order in which they first
/// appear.
fn group_names_of(tabs: &Vec<&HintItem>) -> (names: Vec<String>)
    ensures
        names_view(names@) == group_names(deref_all(tabs@)),
{
    let ghost all = deref_all(tabs@);
    let mut names: Vec<String> = Vec::new();
    let mut i: usize = 0;
    while i < tabs.len()
        invariant
            i <= tabs@.len(),
            all == deref_all(tabs@),
            names_view(names@) == group_names(all.take(i as int)),
        decreases tabs@.len() - i,
    {
        let ghost before = names_view(names@);
        assert(all.take(i + 1).drop_last() =~= all.take(i as int));
        assert(all.take(i + 1).last() == *tabs@[i as int]);
        let key = group_key_str(tabs[i]).to_owned();
        if !contains_name(&names, &key) {
            names.push(key);
            assert(names_view(names@) =~= before.push(group_key(*tabs@[i as int])));
        }
        i = i + 1;
    }
    assert(all.take(tabs@.len() as int) =~= all);
    names
}

/// The tabs whose group is named `name`, in order.
fn tabs_of_group<'a>(tabs: &Vec<&'a HintItem>, name: &String) -> (r: Vec<&'a HintItem>)
    ensures
        deref_all(r@) == tabs_in_group(deref_all(tabs@), name@),
{
    let ghost all = deref_all(tabs@);
    let mut r: Vec<&'a HintItem> = Vec::new();
    let mut i: usize = 0;
    while i < tabs.len()
        invariant
            i <= tabs@.len(),
            all == deref_all(tabs@),
            deref_all(r@) == tabs_in_group(all.take(i as int), name@),
        decreases tabs@.len() - i,
    {
        let ghost before = r@;
        assert(all.take(i + 1).drop_last() =~= all.take(i as int));
        assert(all.take(i + 1).last() == *tabs@[i as int]);
        if in_group(tabs[i], name) {
            r.push(tabs[i]);
            assert(deref_all(r@) =~= deref_all(before).push(*tabs@[i as int]));
        }
        i = i + 1;
    }
    assert(all.take(tabs@.len() as int) =~= all);
    r
}

/// The cells of a run all fit a column width.
pub open spec fn run_cells_fit(run: Seq<HintItem>) -> bool {
    forall|k: int|
        0 <= k < run.len() ==> utf8_len(#[trigger] tab_cell_text(run[k])) + 2 <= usize::MAX
}

/// The tabs of fitting items fit.
proof fn lemma_tabs_fit(items: Seq<HintItem>)
    requires
        tab_cells_fit(items),
    ensures
        run_cells_fit(of_kind(items, HintKind::Tab)),
{
    let tabs = of_kind(items, HintKind::Tab);
    lemma_of_kind_members(items, HintKind::Tab);
    assert forall|k: int| 0 <= k < tabs.len() implies utf8_len(
        #[trigger] tab_cell_text(tabs[k]),
    ) + 2 <= usize::MAX by {
        let j = choose|j: int|
            0 <= j < items.len() && items[j] == tabs[k] && items[j].kind == HintKind::Tab;
        assert(utf8_len(tab_cell_text(items[j])) + 2 <= usize::MAX);
    }
}

/// The tabs of a group of fitting tabs fit.
proof fn lemma_group_fits(tabs: Seq<HintItem>, name: Seq<char>)
    requires
        run_cells_fit(tabs),
    ensures
        run_cells_fit(tabs_in_group(tabs, name)),
{
    let run = tabs_in_group(tabs, name);
    lemma_group_members(tabs, name);
    assert forall|k: int| 0 <= k < run.len() implies utf8_len(
        #[trigger] tab_cell_text(run[k]),
    ) + 2 <= usize::MAX by {
        let i = choose|i: int| 0 <= i < tabs.len() && tabs[i] == run[k];
        assert(utf8_len(tab_cell_text(tabs[i])) + 2 <= usize::MAX);
    }
}

/// The width of the first column of a group.
fn column_width_of(run: &Vec<&HintItem>) -> (w: usize)
    requires
        run_cells_fit(deref_all(run@)),
    ensures
        w == column_width(deref_all(run@)),
{
    let ghost cells = deref_all(run@);
    let mut m: usize = 0;
    let mut k: usize = 0;
    while k < run.len()
        invariant
            k <= run@.len(),
            cells == deref_all(run@),
            run_cells_fit(cells),
            m == max_cell_len(cells.take(k as int)),
            m + 2 <= usize::MAX,
        decreases run@.len() - k,
    {
        assert(cells.take(k + 1).drop_last() =~= cells.take(k as int));
        assert(cells.take(k + 1).last() == cells[k as int]);
        let cell = tab_cell(run[k]);
        let l = byte_len(cell.as_str());
        assert(utf8_len(tab_cell_text(cells[k as int])) + 2 <= usize::MAX);
        if m < l {
            m = l;
        }
        k = k + 1;
    }
    assert(cells.take(run@.len() as int) =~= cells);
    m + 2
}

/// Appends the rows of a group, two cells to a row.
fn push_rows(out: &mut String, run: &Vec<&HintItem>, width: usize)
    ensures
        final(out)@ == old(out)@ + rows_upto(
            deref_all(run@),
            row_count(run@.len()),
            width as nat,
        ),
{
    let ghost cells = deref_all(run@);
    let n = run.len();
    let mut k: usize = 0;
    while k < n
        invariant
            n == run@.len(),
            cells == deref_all(run@),
            k <= n,
            k % 2 == 0 || k == n,
            out@ == old(out)@ + rows_upto(cells, row_count(k as nat), width as nat),
        decreases n - k,
    {
        let ghost c: int = k as int / 2;
        assert(row_count(k as nat) == c);
        let ghost before = out@;
        assert(cells[k as int] == *run@[k as int]);
        assert(2 * c == k);
        let first = tab_cell(run[k]);
        out.append("   ");
        if k + 1 < n {
            push_padded(out, first.as_str(), width);
            assert(cells[k + 1] == *run@[k + 1]);
            let second = tab_cell(run[k + 1]);
            out.append(second.as_str());
            out.append("\r\n");
            assert(out@ =~= before + row_text(cells, c, width as nat));
            k = k + 2;
        } else {
            out.append(first.as_str());
            out.append("\r\n");
            assert(out@ =~= before + row_text(cells, c, width as nat));
            k = n;
        }
        assert(row_count(k as nat) == c + 1);
        assert(out@ =~= old(out)@ + rows_upto(cells, row_count(k as nat), width as nat));
    }
}

/// Appends the block of a group.
fn push_group_block(out: &mut String, name: &str, run: &Vec<&HintItem>, follows_another: bool)
    requires
        run_cells_fit(deref_all(run@)),
    ensures
        final(out)@ == old(out)@ + block_text(name@, deref_all(run@), follows_another),
{
    let ghost cells = deref_all(run@);
    if follows_another {
        out.append("\r\n");
    }
    let ghost after_gap = out@;
    out.append(" ");
    out.append(name);
    out.append("\r\n");
    let width = column_width_of(run);
    let ghost before_rows = out@;
    push_rows(out, run, width);
    assert(before_rows =~= after_gap + " "@ + name@ + "\r\n"@);
    assert(out@ =~= old(out)@ + block_text(name@, cells, follows_another));
}

/// The widest status, in bytes.
fn status_width_of(agents: &Vec<&HintItem>) -> (w: usize)
    ensures
        w == max_status_len(deref_all(agents@)),
{
    let ghost all = deref_all(agents@);
    let mut m: usize = 0;
    let mut k: usize = 0;
    while k < agents.len()
        invariant
            k <= agents@.len(),
            all == deref_all(agents@),
            m == max_status_len(all.take(k as int)),
        decreases agents@.len() - k,
    {
        assert(all.take(k + 1).drop_last() =~= all.take(k as int));
        assert(all.take(k + 1).last() == all[k as int]);
        let l = byte_len(agents[k].status.as_str());
        if m < l {
            m = l;
        }
        k = k + 1;
    }
    assert(all.take(agents@.len() as int) =~= all);
    m
}

/// Appends the line of an agent.
fn push_agent_line(out: &mut String, item: &HintItem, width: usize)
    ensures
        final(out)@ == old(out)@ + agent_line(*item, width as nat),
{
    out.append("   ");
    out.append(marker_str(item.focused));
    out.append(" [");
    out.append(item.label.as_str());
    out.append("]  ");
    push_padded(out, item.status.as_str(), width);
    out.append("  ");
    out.append(str_or_empty(&item.context));
    out.append("  ");
    let ghost before_title = out@;
    let title = str_or_empty(&item.title);
    if !title.is_empty() {
        out.append("\x1b[2m");
        out.append(title);
        out.append("\x1b[0m");
    }
    assert(out@ =~= before_title + dimmed(title@));
    out.append("\r\n");
    assert(out@ =~= old(out)@ + agent_line(*item, width as nat));
}

/// The overview of labelled items: the tabs grouped by workspace, two to a
/// row, then the agents, one to a line.
pub fn render(items: &[HintItem]) -> (r: String)
    requires
        tab_cells_fit(items@),
    ensures
        r@ == render_text(items@),
{
    let mut out = String::new();
    let tabs = select_kind(items, HintKind::Tab);
    let agents = select_kind(items, HintKind::Agent);
    if tabs.len() > 0 {
        let names = group_names_of(&tabs);
        let ghost spec_tabs = of_kind(items@, HintKind::Tab);
        proof {
            lemma_tabs_fit(items@);
        }
        let mut g: usize = 0;
        while g < names.len()
            invariant
                g <= names@.len(),
                deref_all(tabs@) == spec_tabs,
                spec_tabs == of_kind(items@, HintKind::Tab),
                names_view(names@) == group_names(spec_tabs),
                run_cells_fit(spec_tabs),
                out@ == blocks_upto(spec_tabs, g as nat),
            decreases names@.len() - g,
        {
            let ghost name = names_view(names@)[g as int];
            assert(name == names@[g as int]@);
            let run = tabs_of_group(&tabs, &names[g]);
            proof {
                lemma_group_fits(spec_tabs, name);
            }
            push_group_block(&mut out, names[g].as_str(), &run, g > 0);
            g = g + 1;
        }
        out.append("\r\n");
    }
    let ghost after_tabs = out@;
    assert(after_tabs == tabs_section(items@));
    if agents.len() > 0 {
        out.append(" Agents\r\n");
        let width = status_width_of(&agents);
        let ghost all = deref_all(agents@);
        let mut k: usize = 0;
        while k < agents.len()
            invariant
                k <= agents@.len(),
                all == deref_all(agents@),
                out@ == after_tabs + " Agents\r\n"@ + agent_lines_upto(
                    all,
                    k as nat,
                    width as nat,
                ),
            decreases agents@.len() - k,
        {
            assert(all[k as int] == *agents@[k as int]);
            push_agent_line(&mut out, agents[k], width);
            k = k + 1;
            assert(out@ =~= after_tabs + " Agents\r\n"@ + agent_lines_upto(
                all,
                k as nat,
                width as nat,
            ));
        }
    }
    assert(out@ =~= render_text(items@));
    out
}

} // verus!
