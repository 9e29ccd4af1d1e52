//! Hint items, their labels, and the lookup of a typed label.

use vstd::prelude::*;

use crate::text::{byte_len, push_char, utf8_len};

verus! {

/// What a hint jumps to.
#[derive(Debug, Clone, Copy, PartialEq, Eq, Structural)]
pub enum HintKind {
    Tab,
    Agent,
}

/// One entry of the hint overview: a tab or an agent, with the label that
/// selects it.
#[derive(Debug, Clone, PartialEq, Eq)]
pub struct HintItem {
    pub label: String,
    pub kind: HintKind,
    pub target_id: String,
    pub display_name: String,
    pub status: String,
    pub focused: bool,
    pub context: Option<String>,
    pub group: Option<String>,
    pub title: Option<String>,
}

/// The character `k` places after `a`.
pub open spec fn letter(k: int) -> char {
    (97 + k) as char
}

/// `n` divided by 26, rounded up.
pub open spec fn ceil_div26(n: nat) -> nat {
    (n + 25) / 26
}

/// The number of letters in each label of a list of `n` items: one for up
/// to twenty-six items, and one more for every further factor of
/// twenty-six.
pub open spec fn label_width(n: nat) -> nat
    decreases n,
{
    if n <= 26 {
        1
    } else {
        1 + label_width(ceil_div26(n))
    }
}

/// `26` to the power `k`.
pub open spec fn pow26(k: nat) -> nat
    decreases k,
{
    if k == 0 {
        1
    } else {
        26 * pow26((k - 1) as nat)
    }
}

/// The label of the item at `index` among labels of `width` letters: the
/// last `width` digits of `index` in base twenty-six, written with the
/// letters `a` to `z`.
pub open spec fn label_text(index: nat, width: nat) -> Seq<char>
    decreases width,
{
    if width == 0 {
        Seq::empty()
    } else {
        label_text(index / 26, (width - 1) as nat).push(letter((index % 26) as int))
    }
}

/// `a` and `b` agree on every field but the label.
pub open spec fn same_except_label(a: HintItem, b: HintItem) -> bool {
    &&& a.kind == b.kind
    &&& a.target_id == b.target_id
    &&& a.display_name == b.display_name
    &&& a.status == b.status
    &&& a.focused == b.focused
    &&& a.context == b.context
    &&& a.group == b.group
    &&& a.title == b.title
}

/// Every item carries the label of its position.
pub open spec fn labels_assigned(items: Seq<HintItem>) -> bool {
    forall|i: int|
        0 <= i < items.len() ==> #[trigger] items[i].label@ == label_text(
            i as nat,
            label_width(items.len()),
        )
}

/// `i` is the first position whose label is `input`.
pub open spec fn first_label_match(items: Seq<HintItem>, input: Seq<char>, i: int) -> bool {
    &&& 0 <= i < items.len()
    &&& items[i].label@ == input
    &&& forall|j: int| 0 <= j < i ==> #[trigger] items[j].label@ != input
}

/// The number of letters in each label of a list of `n` items.
pub fn label_width_for(n: usize) -> (w: usize)
    ensures
        w == label_width(n as nat),
        1 <= w,
        n >= 1 ==> w <= n,
    decreases n,
{
    if n <= 26 {
        1
    } else {
        let q: usize = n / 26 + if n % 26 == 0 {
            0
        } else {
            1
        };
        assert(q == ceil_div26(n as nat));
        1 + label_width_for(q)
    }
}

/// The label of the item at `index` among labels of `width` letters.
pub fn label_for(index: usize, width: usize) -> (r: String)
    ensures
        r@ == label_text(index as nat, width as nat),
    decreases width,
{
    if width == 0 {
        String::new()
    } else {
        let mut r = label_for(index / 26, width - 1);
        let digit: u8 = (index % 26) as u8;
        push_char(&mut r, (97u8 + digit) as char);
        r
    }
}

/// Joins the tabs and then the agents into one list and labels it: item `i`
/// gets the `i`-th label, all labels having as many letters as a list of
/// that length needs (one letter for up to twenty-six items, two for up to
/// 676, and so on).
pub fn assign_labels(tabs: Vec<HintItem>, agents: Vec<HintItem>) -> (r: Vec<HintItem>)
    ensures
        r@.len() == tabs@.len() + agents@.len(),
        forall|i: int|
            0 <= i < r@.len() ==> {
                &&& #[trigger] r@[i].label@ == label_text(
                    i as nat,
                    label_width(tabs@.len() + agents@.len()),
                )
                &&& same_except_label(r@[i], (tabs@ + agents@)[i])
            },
        labels_assigned(r@),
{
    let ghost all = tabs@ + agents@;
    let mut rest = tabs;
    let mut more = agents;
    rest.append(&mut more);
    assert(rest@ =~= all);
    let n = rest.len();
    let width = label_width_for(n);
    let mut out: Vec<HintItem> = Vec::new();
    while rest.len() > 0
        invariant
            n == all.len(),
            width == label_width(n as nat),
            rest@ == all.take(rest@.len() as int),
            out@.len() + rest@.len() == n,
            forall|j: int|
                0 <= j < out@.len() ==> {
                    &&& #[trigger] out@[j].label@ == label_text(
                        (rest@.len() + j) as nat,
                        width as nat,
                    )
                    &&& same_except_label(out@[j], all[rest@.len() + j])
                },
        decreases rest@.len(),
    {
        let mut item = rest.pop().unwrap();
        let i = rest.len();
        assert(item == all[i as int]);
        item.label = label_for(i, width);
        let ghost old_out = out@;
        out.insert(0, item);
        assert forall|j: int| 0 <= j < out@.len() implies {
            &&& #[trigger] out@[j].label@ == label_text((rest@.len() + j) as nat, width as nat)
            &&& same_except_label(out@[j], all[rest@.len() + j])
        } by {
            if j > 0 {
                assert(out@[j] == old_out[j - 1]);
            }
        }
        assert(rest@ =~= all.take(rest@.len() as int));
    }
    out
}

/// The item whose label is `input`: the first one, or none.
pub fn resolve_input<'a>(items: &'a [HintItem], input: &str) -> (r: Option<&'a HintItem>)
    ensures
        match r {
            Some(x) => exists|i: int| first_label_match(items@, input@, i) && *x == items@[i],
            None => forall|i: int| 0 <= i < items@.len() ==> #[trigger] items@[i].label@ != input@,
        },
{
    let wanted = input.to_owned();
    let mut i: usize = 0;
    while i < items.len()
        invariant
            i <= items@.len(),
            wanted@ == input@,
            forall|j: int| 0 <= j < i ==> #[trigger] items@[j].label@ != input@,
        decreases items@.len() - i,
    {
        if items[i].label == wanted {
            assert(first_label_match(items@, input@, i as int));
            return Some(&items[i]);
        }
        i = i + 1;
    }
    None
}

/// Whether the items carry two-letter labels: the first label is longer
/// than one byte.
pub fn uses_double_labels(items: &[HintItem]) -> (r: bool)
    ensures
        r == (items@.len() > 0 && utf8_len(items@[0].label@) > 1),
{
    if items.len() == 0 {
        false
    } else {
        byte_len(items[0].label.as_str()) > 1
    }
}

/// The number of letters of the labels: the length of the first label, or
/// 0 when there are no items.
pub fn label_length(items: &[HintItem]) -> (r: usize)
    ensures
        r == (if items@.len() > 0 {
            items@[0].label@.len()
        } else {
            0
        }),
{
    if items.len() == 0 {
        0
    } else {
        items[0].label.as_str().unicode_len()
    }
}

/// A label of `width` letters has `width` characters, each a letter from
/// `a` to `z`.
pub proof fn lemma_label_letters(index: nat, width: nat)
    ensures
        label_text(index, width).len() == width,
        forall|k: int|
            0 <= k < width ==> 'a' <= #[trigger] label_text(index, width)[k] <= 'z',
    decreases width,
{
    if width > 0 {
        lemma_label_letters(index / 26, (width - 1) as nat);
    }
}

/// The label of `0` is all `a`s, which takes one byte each.
proof fn lemma_first_label_bytes(width: nat)
    ensures
        utf8_len(label_text(0, width)) == width,
{
    lemma_label_letters(0, width);
    let l = label_text(0, width);
    assert(vstd::utf8::is_ascii_chars(l));
    vstd::utf8::is_ascii_chars_encode_utf8(l);
}

/// Different indices below `26` to the power `width` have different labels.
pub proof fn lemma_label_injective(i: nat, j: nat, width: nat)
    requires
        i < pow26(width),
        j < pow26(width),
        label_text(i, width) == label_text(j, width),
    ensures
        i == j,
    decreases width,
{
    if width > 0 {
        let li = label_text(i, width);
        let lj = label_text(j, width);
        assert(li.last() == letter((i % 26) as int));
        assert(lj.last() == letter((j % 26) as int));
        assert(li.drop_last() =~= label_text(i / 26, (width - 1) as nat));
        assert(lj.drop_last() =~= label_text(j / 26, (width - 1) as nat));
        lemma_label_injective(i / 26, j / 26, (width - 1) as nat);
    }
}

/// A list of `n` items has room for `n` labels.
pub proof fn lemma_width_covers(n: nat)
    ensures
        n <= pow26(label_width(n)),
        label_width(n) >= 1,
    decreases n,
{
    if n > 26 {
        lemma_width_covers(ceil_div26(n));
        assert(pow26(label_width(n)) == 26 * pow26(label_width(ceil_div26(n))));
    } else {
        assert(pow26(0) == 1);
        assert(pow26(1) == 26);
    }
}

/// `26` to a power is positive.
proof fn lemma_pow26_positive(k: nat)
    ensures
        pow26(k) > 0,
    decreases k,
{
    if k > 0 {
        lemma_pow26_positive((k - 1) as nat);
    }
}

/// The letters of a label spell its index in base twenty-six, most
/// significant digit first: letter `k` of a label of `width` letters is the
/// character with code 97 (`a`) plus digit `width - 1 - k` of the index, so
/// digit 0 is `a`, digit 1 is `b`, ..., digit 25 is `z`.
pub proof fn lemma_label_digits(index: nat, width: nat, k: int)
    requires
        0 <= k < width,
    ensures
        label_text(index, width).len() == width,
        label_text(index, width)[k] as int == 97 + (index / pow26((width - 1 - k) as nat)) % 26,
    decreases width,
{
    lemma_label_letters(index, width);
    if k == width - 1 {
        assert(pow26(0) == 1);
        assert(index / 1 == index);
        assert(label_text(index, width)[k] == letter((index % 26) as int));
    } else {
        lemma_label_digits(index / 26, (width - 1) as nat, k);
        let m = (width - 2 - k) as nat;
        lemma_pow26_positive(m);
        vstd::arithmetic::div_mod::lemma_div_denominator(index as int, 26, pow26(m) as int);
        assert(pow26((width - 1 - k) as nat) == 26 * pow26(m));
        assert(label_text(index, width)[k] == label_text(index / 26, (width - 1) as nat)[k]);
    }
}

/// With one letter per label, item `i` (below twenty-six) gets the `i`-th
/// letter of the alphabet.
pub proof fn lemma_single_letter_labels(i: nat)
    requires
        i < 26,
    ensures
        label_text(i, 1) == seq![(97 + i) as char],
{
    lemma_label_digits(i, 1, 0);
    assert(pow26(0) == 1);
    assert(label_text(i, 1) =~= seq![(97 + i) as char]);
}

/// No two items of a labelled list share a label.
pub proof fn lemma_labels_distinct(items: Seq<HintItem>, i: int, j: int)
    requires
        labels_assigned(items),
        0 <= i < j < items.len(),
    ensures
        items[i].label@ != items[j].label@,
{
    let w = label_width(items.len());
    lemma_width_covers(items.len());
    assert(items[i].label@ == label_text(i as nat, w));
    assert(items[j].label@ == label_text(j as nat, w));
    if items[i].label@ == items[j].label@ {
        lemma_label_injective(i as nat, j as nat, w);
    }
}

/// In a labelled list, typing the label of an item selects that item: it is
/// the first (indeed the only) item with that label, which is what
/// `resolve_input` returns.
pub proof fn lemma_label_selects_its_item(items: Seq<HintItem>, i: int)
    requires
        labels_assigned(items),
        0 <= i < items.len(),
    ensures
        first_label_match(items, items[i].label@, i),
        forall|k: int| #[trigger] first_label_match(items, items[i].label@, k) ==> k == i,
{
    assert forall|j: int| 0 <= j < i implies #[trigger] items[j].label@ != items[i].label@ by {
        lemma_labels_distinct(items, j, i);
    }
    assert forall|k: int| #[trigger] first_label_match(items, items[i].label@, k) implies k == i by {
        if k > i {
            assert(items[i].label@ != items[i].label@);
        } else if k < i {
            lemma_labels_distinct(items, k, i);
        }
    }
}

/// Every label of a labelled list is made of the letters `a` to `z` and has
/// `label_width` of the list's length letters, whatever its length; so
/// reading that many keys, as `label_length` tells, reads a whole label.
pub proof fn lemma_labels_are_letters(items: Seq<HintItem>, i: int)
    requires
        labels_assigned(items),
        0 <= i < items.len(),
    ensures
        items[i].label@.len() == label_width(items.len()),
        forall|k: int|
            0 <= k < items[i].label@.len() ==> 'a' <= #[trigger] items[i].label@[k] <= 'z',
{
    assert(items[i].label@ == label_text(i as nat, label_width(items.len())));
    lemma_label_letters(i as nat, label_width(items.len()));
}

/// Telling single from multi-letter labels by the byte length of the first
/// label, as `uses_double_labels` does, finds labels of more than one
/// letter exactly when a labelled list holds more than twenty-six items.
pub proof fn lemma_double_labels_detected(items: Seq<HintItem>)
    requires
        labels_assigned(items),
        0 < items.len(),
    ensures
        utf8_len(items[0].label@) > 1 <==> items.len() > 26,
{
    assert(items[0].label@ == label_text(0, label_width(items.len())));
    lemma_first_label_bytes(label_width(items.len()));
    if items.len() > 26 {
        lemma_width_covers(ceil_div26(items.len()));
    }
}

/// Labels are no longer than they need be: beyond twenty-six items, one
/// letter fewer would not give every item its own label.
pub proof fn lemma_width_is_least(n: nat)
    requires
        n > 26,
    ensures
        label_width(n) >= 2,
        pow26((label_width(n) - 1) as nat) < n,
    decreases n,
{
    let c = ceil_div26(n);
    assert(26 * c <= n + 25);
    if c > 26 {
        lemma_width_is_least(c);
        let w = label_width(c);
        assert(pow26(w) == 26 * pow26((w - 1) as nat));
    } else {
        assert(label_width(c) == 1);
        assert(pow26(1) == 26 * pow26(0));
    }
}

/// The item that a typed label finds is one whose label is the typed text,
/// and no item before it has that label.
pub proof fn lemma_found_item_is_first(items: Seq<HintItem>, input: Seq<char>, i: int)
    requires
        first_label_match(items, input, i),
    ensures
        0 <= i < items.len(),
        items[i].label@ == input,
        forall|j: int| 0 <= j < i ==> #[trigger] items[j].label@ != input,
{
}

} // verus!
