//! Which items a command acts on: by name, by group, all of them, or what is
//! checked in the picker.
use vstd::prelude::*;
use vstd::string::*;

use crate::error::{Error, ErrorView};
use crate::number;
use crate::overview;
use crate::plan::{Item, ItemView, State, StateView};
use crate::script::Outcome;
use crate::text;

verus! {

// ---------------------------------------------------------------------------
// By name
// ---------------------------------------------------------------------------

/// Whether an item in that state can be acted on: it applies here and has a
/// cloud copy to speak of.
pub open spec fn acts(state: StateView) -> bool {
    !(state is Skipped || state is Missing || state is LocalOnly)
}

fn can_act(state: &State) -> (r: bool)
    ensures
        r == acts(state@),
{
    !matches!(state, State::Skipped | State::Missing | State::LocalOnly)
}

/// The items that can be acted on, in order.
pub open spec fn acting(items: Seq<ItemView>) -> Seq<ItemView>
    decreases items.len(),
{
    if items.len() == 0 {
        items
    } else if acts(items.last().state) {
        acting(items.drop_last()).push(items.last())
    } else {
        acting(items.drop_last())
    }
}

/// The items of a group, in order.
pub open spec fn in_group(items: Seq<ItemView>, group: Seq<char>) -> Seq<ItemView>
    decreases items.len(),
{
    if items.len() == 0 {
        items
    } else if items.last().mapping.group == Some(group) {
        in_group(items.drop_last(), group).push(items.last())
    } else {
        in_group(items.drop_last(), group)
    }
}

/// The index of the first item of that name, or how many items there are.
pub open spec fn index_named(items: Seq<ItemView>, name: Seq<char>) -> int
    decreases items.len(),
{
    if items.len() == 0 || items[0].mapping.name == name {
        0
    } else {
        1 + index_named(items.skip(1), name)
    }
}

/// The items that can be acted on, in order: everything except what is skipped
/// on this system, absent, or only local.
pub fn actionable(items: &Vec<Item>) -> (r: Vec<Item>)
    ensures
        r.deep_view() == acting(items.deep_view()),
{
    let ghost all = items.deep_view();
    let mut r: Vec<Item> = Vec::new();
    let mut i: usize = 0;
    assert(r.deep_view() =~= acting(all.take(0)));
    while i < items.len()
        invariant
            i <= items@.len(),
            all == items.deep_view(),
            r.deep_view() == acting(all.take(i as int)),
        decreases items@.len() - i,
    {
        let ghost before = r.deep_view();
        assert(all.take(i + 1).drop_last() =~= all.take(i as int));
        assert(all.take(i + 1).last() == items@[i as int]@);
        if can_act(&items[i].state) {
            r.push(items[i].clone());
            assert(r.deep_view() =~= before.push(all[i as int]));
        }
        i += 1;
    }
    assert(all.take(i as int) =~= all);
    r
}

/// The items of a group, in order.
pub fn group_items(items: &Vec<Item>, group: &str) -> (r: Vec<Item>)
    ensures
        r.deep_view() == in_group(items.deep_view(), group@),
{
    let ghost all = items.deep_view();
    let mut r: Vec<Item> = Vec::new();
    let mut i: usize = 0;
    assert(r.deep_view() =~= in_group(all.take(0), group@));
    while i < items.len()
        invariant
            i <= items@.len(),
            all == items.deep_view(),
            r.deep_view() == in_group(all.take(i as int), group@),
        decreases items@.len() - i,
    {
        let ghost before = r.deep_view();
        assert(all.take(i + 1).drop_last() =~= all.take(i as int));
        assert(all.take(i + 1).last() == items@[i as int]@);
        if text::is_label(&items[i].mapping.group, group) {
            r.push(items[i].clone());
            assert(r.deep_view() =~= before.push(all[i as int]));
        }
        i += 1;
    }
    assert(all.take(i as int) =~= all);
    r
}

fn find_named(items: &Vec<Item>, name: &str) -> (r: usize)
    ensures
        r == index_named(items.deep_view(), name@),
        r <= items@.len(),
{
    let ghost all = items.deep_view();
    let mut i: usize = 0;
    assert(all.skip(0) =~= all);
    while i < items.len()
        invariant
            i <= items@.len(),
            all == items.deep_view(),
            index_named(all, name@) == i + index_named(all.skip(i as int), name@),
        decreases items@.len() - i,
    {
        assert(all.skip(i as int)[0] == items@[i as int]@);
        assert(all.skip(i as int).skip(1) =~= all.skip(i + 1));
        if text::same(items[i].name(), name) {
            return i;
        }
        i += 1;
    }
    i
}

/// What a name stands for: where there is a group of that name, its members that
/// can be acted on; else the one mapping of that name.
pub open spec fn named(items: Seq<ItemView>, name: Seq<char>) -> Result<Seq<ItemView>, ErrorView> {
    if in_group(items, name).len() > 0 {
        Ok(in_group(acting(items), name))
    } else if index_named(items, name) < items.len() {
        Ok(seq![items[index_named(items, name)]])
    } else {
        Err(ErrorView::NoSuchName { name })
    }
}

/// What names stand for, in order; the first that stands for nothing is refused.
pub open spec fn all_named(items: Seq<ItemView>, names: Seq<Seq<char>>) -> Result<
    Seq<ItemView>,
    ErrorView,
>
    decreases names.len(),
{
    if names.len() == 0 {
        Ok(seq![])
    } else {
        match all_named(items, names.drop_last()) {
            Err(e) => Err(e),
            Ok(front) => match named(items, names.last()) {
                Err(e) => Err(e),
                Ok(more) => Ok(front + more),
            },
        }
    }
}

/// What names or `--all` select. Names win over `--all`.
pub open spec fn selection(items: Seq<ItemView>, names: Seq<Seq<char>>, all: bool) -> Result<
    Seq<ItemView>,
    ErrorView,
> {
    if names.len() > 0 {
        all_named(items, names)
    } else if all {
        Ok(acting(items))
    } else {
        Ok(seq![])
    }
}

/// The views of what was selected or refused.
pub open spec fn seen(r: Result<Vec<Item>, Error>) -> Result<Seq<ItemView>, ErrorView> {
    match r {
        Ok(v) => Ok(v.deep_view()),
        Err(e) => Err(e@),
    }
}

fn select_named(items: &Vec<Item>, name: &str) -> (r: Result<Vec<Item>, Error>)
    ensures
        seen(r) == named(items.deep_view(), name@),
{
    let members = group_items(items, name);
    assert(members.deep_view().len() == members@.len());
    if members.len() > 0 {
        return Ok(group_items(&actionable(items), name));
    }
    let i = find_named(items, name);
    if i < items.len() {
        let mut r: Vec<Item> = Vec::new();
        r.push(items[i].clone());
        assert(r.deep_view() =~= seq![items.deep_view()[i as int]]);
        Ok(r)
    } else {
        Err(Error::NoSuchName { name: name.to_owned() })
    }
}

proof fn lemma_named_prefix_fails(items: Seq<ItemView>, names: Seq<Seq<char>>, n: int)
    requires
        0 <= n <= names.len(),
        all_named(items, names.take(n)) is Err,
    ensures
        all_named(items, names) == all_named(items, names.take(n)),
    decreases names.len() - n,
{
    if n == names.len() {
        assert(names.take(n) =~= names);
    } else {
        assert(names.take(n + 1).drop_last() =~= names.take(n));
        lemma_named_prefix_fails(items, names, n + 1);
    }
}

/// The items that names or `--all` select. A name matches either a group, which
/// stands for all its members that can be acted on, or one mapping.
pub fn select_items(items: &Vec<Item>, names: &Vec<String>, all: bool) -> (r: Result<
    Vec<Item>,
    Error,
>)
    ensures
        seen(r) == selection(items.deep_view(), names.deep_view(), all),
{
    if names.len() == 0 {
        if all {
            return Ok(actionable(items));
        }
        let none: Vec<Item> = Vec::new();
        assert(none.deep_view() =~= Seq::<ItemView>::empty());
        return Ok(none);
    }
    let ghost list = names.deep_view();
    let mut r: Vec<Item> = Vec::new();
    let mut i: usize = 0;
    assert(r.deep_view() =~= Seq::<ItemView>::empty());
    assert(list.take(0) =~= Seq::<Seq<char>>::empty());
    while i < names.len()
        invariant
            i <= names@.len(),
            names@.len() > 0,
            list == names.deep_view(),
            all_named(items.deep_view(), list.take(i as int)) == Ok::<Seq<ItemView>, ErrorView>(
                r.deep_view(),
            ),
        decreases names@.len() - i,
    {
        let ghost before = r.deep_view();
        proof {
            assert(list.take(i + 1).drop_last() =~= list.take(i as int));
            assert(list.take(i + 1).last() == names@[i as int]@);
        }
        match select_named(items, names[i].as_str()) {
            Ok(more) => {
                let mut more = more;
                let ghost added = more.deep_view();
                r.append(&mut more);
                assert(r.deep_view() =~= before + added);
            },
            Err(e) => {
                proof {
                    lemma_named_prefix_fails(items.deep_view(), list, i + 1);
                }
                return Err(e);
            },
        }
        i += 1;
    }
    assert(list.take(i as int) =~= list);
    Ok(r)
}

/// What there is to link; to select nothing is refused.
pub open spec fn to_install(items: Seq<ItemView>, names: Seq<Seq<char>>, all: bool) -> Result<
    Seq<ItemView>,
    ErrorView,
> {
    match selection(items, names, all) {
        Ok(s) => if s.len() == 0 {
            Err(ErrorView::NothingToInstall)
        } else {
            Ok(s)
        },
        Err(e) => Err(e),
    }
}

/// What there is to link; to select nothing is refused.
pub fn select_install(items: &Vec<Item>, names: &Vec<String>, all: bool) -> (r: Result<
    Vec<Item>,
    Error,
>)
    ensures
        seen(r) == to_install(items.deep_view(), names.deep_view(), all),
{
    match select_items(items, names, all) {
        Ok(s) => {
            assert(s.deep_view().len() == s@.len());
            if s.len() == 0 {
                Err(Error::NothingToInstall)
            } else {
                Ok(s)
            }
        },
        Err(e) => Err(e),
    }
}

/// What there is to unlink: every item with `--all`, else what the names select;
/// to select nothing is refused.
pub open spec fn to_uninstall(items: Seq<ItemView>, names: Seq<Seq<char>>, all: bool) -> Result<
    Seq<ItemView>,
    ErrorView,
> {
    let chosen = if all {
        Ok(items)
    } else {
        selection(items, names, false)
    };
    match chosen {
        Ok(s) => if s.len() == 0 {
            Err(ErrorView::NothingToUninstall)
        } else {
            Ok(s)
        },
        Err(e) => Err(e),
    }
}

fn copy_items(items: &Vec<Item>) -> (r: Vec<Item>)
    ensures
        r@ == items@,
{
    let mut r: Vec<Item> = Vec::new();
    let mut i: usize = 0;
    while i < items.len()
        invariant
            i <= items@.len(),
            r@ == items@.take(i as int),
        decreases items@.len() - i,
    {
        r.push(items[i].clone());
        assert(items@.take(i + 1) =~= items@.take(i as int).push(items@[i as int]));
        i += 1;
    }
    assert(items@.take(i as int) =~= items@);
    r
}

/// What there is to unlink.
pub fn select_uninstall(items: &Vec<Item>, names: &Vec<String>, all: bool) -> (r: Result<
    Vec<Item>,
    Error,
>)
    ensures
        seen(r) == to_uninstall(items.deep_view(), names.deep_view(), all),
{
    let chosen = if all {
        Ok(copy_items(items))
    } else {
        select_items(items, names, false)
    };
    match chosen {
        Ok(s) => {
            assert(s.deep_view().len() == s@.len());
            if all {
                assert(s.deep_view() =~= items.deep_view());
            }
            if s.len() == 0 {
                Err(Error::NothingToUninstall)
            } else {
                Ok(s)
            }
        },
        Err(e) => Err(e),
    }
}

/// What there is to stop managing: each name stands for one mapping.
pub open spec fn to_unadopt(items: Seq<ItemView>, names: Seq<Seq<char>>) -> Result<
    Seq<ItemView>,
    ErrorView,
>
    decreases names.len(),
{
    if names.len() == 0 {
        Ok(seq![])
    } else {
        match to_unadopt(items, names.drop_last()) {
            Err(e) => Err(e),
            Ok(front) => if index_named(items, names.last()) < items.len() {
                Ok(front.push(items[index_named(items, names.last())]))
            } else {
                Err(ErrorView::NoSuchMapping { name: names.last() })
            },
        }
    }
}

proof fn lemma_unadopt_prefix_fails(items: Seq<ItemView>, names: Seq<Seq<char>>, n: int)
    requires
        0 <= n <= names.len(),
        to_unadopt(items, names.take(n)) is Err,
    ensures
        to_unadopt(items, names) == to_unadopt(items, names.take(n)),
    decreases names.len() - n,
{
    if n == names.len() {
        assert(names.take(n) =~= names);
    } else {
        assert(names.take(n + 1).drop_last() =~= names.take(n));
        lemma_unadopt_prefix_fails(items, names, n + 1);
    }
}

/// What there is to stop managing. Groups are not accepted here.
pub fn select_unadopt(items: &Vec<Item>, names: &Vec<String>) -> (r: Result<Vec<Item>, Error>)
    ensures
        seen(r) == to_unadopt(items.deep_view(), names.deep_view()),
{
    let ghost list = names.deep_view();
    let mut r: Vec<Item> = Vec::new();
    let mut i: usize = 0;
    assert(r.deep_view() =~= Seq::<ItemView>::empty());
    assert(list.take(0) =~= Seq::<Seq<char>>::empty());
    while i < names.len()
        invariant
            i <= names@.len(),
            list == names.deep_view(),
            to_unadopt(items.deep_view(), list.take(i as int)) == Ok::<Seq<ItemView>, ErrorView>(
                r.deep_view(),
            ),
        decreases names@.len() - i,
    {
        let ghost before = r.deep_view();
        let name = names[i].as_str();
        proof {
            assert(list.take(i + 1).drop_last() =~= list.take(i as int));
            assert(list.take(i + 1).last() == name@);
        }
        let k = find_named(items, name);
        if k < items.len() {
            r.push(items[k].clone());
            assert(r.deep_view() =~= before.push(items.deep_view()[k as int]));
        } else {
            proof {
                lemma_unadopt_prefix_fails(items.deep_view(), list, i + 1);
            }
            return Err(Error::NoSuchMapping { name: name.to_owned() });
        }
        i += 1;
    }
    assert(list.take(i as int) =~= list);
    Ok(r)
}

/// Whether installing opens the picker.
pub open spec fn picker_opens(
    names: nat,
    all: bool,
    json: bool,
    dry_run: bool,
    adopt: bool,
    interactive: bool,
) -> bool {
    names == 0 && !all && !json && !dry_run && !adopt && interactive
}

/// Whether installing asks in the picker: nothing is selected, nothing overrides
/// the conflict policy, and there is someone to ask.
pub fn wants_picker(
    names: &Vec<String>,
    all: bool,
    json: bool,
    dry_run: bool,
    adopt: bool,
    interactive: bool,
) -> (r: bool)
    ensures
        r == picker_opens(names@.len(), all, json, dry_run, adopt, interactive),
{
    names.len() == 0 && !all && !json && !dry_run && !adopt && interactive
}

/// A name that is a mapping's and not a group's selects that mapping alone.
pub proof fn law_mapping_name_selects_it(items: Seq<ItemView>, name: Seq<char>)
    requires
        index_named(items, name) < items.len(),
        forall|i: int| 0 <= i < items.len() ==> (#[trigger] items[i]).mapping.group != Some(name),
    ensures
        named(items, name) == Ok::<Seq<ItemView>, ErrorView>(
            seq![items[index_named(items, name)]],
        ),
{
    lemma_no_members(items, name);
}

proof fn lemma_no_members(items: Seq<ItemView>, name: Seq<char>)
    requires
        forall|i: int| 0 <= i < items.len() ==> (#[trigger] items[i]).mapping.group != Some(name),
    ensures
        in_group(items, name).len() == 0,
    decreases items.len(),
{
    if items.len() > 0 {
        let front = items.drop_last();
        assert forall|i: int| 0 <= i < front.len() implies (#[trigger] front[i]).mapping.group
            != Some(name) by {
            assert(items[i].mapping.group != Some(name));
        }
        lemma_no_members(front, name);
        assert(items[items.len() - 1].mapping.group != Some(name));
    }
}

proof fn lemma_has_member(items: Seq<ItemView>, name: Seq<char>, i: int)
    requires
        0 <= i < items.len(),
        items[i].mapping.group == Some(name),
    ensures
        in_group(items, name).len() > 0,
    decreases items.len(),
{
    if i < items.len() - 1 {
        lemma_has_member(items.drop_last(), name, i);
    }
}

proof fn lemma_index_named(items: Seq<ItemView>, name: Seq<char>)
    ensures
        0 <= index_named(items, name) <= items.len(),
        index_named(items, name) < items.len() <==> exists|i: int|
            0 <= i < items.len() && (#[trigger] items[i]).mapping.name == name,
    decreases items.len(),
{
    if items.len() > 0 && items[0].mapping.name != name {
        let rest = items.skip(1);
        lemma_index_named(rest, name);
        assert forall|i: int| 0 < i < items.len() implies rest[i - 1] == #[trigger] items[i] by {}
        if exists|i: int| 0 <= i < items.len() && (#[trigger] items[i]).mapping.name == name {
            let i = choose|i: int| 0 <= i < items.len() && (#[trigger] items[i]).mapping.name == name;
            assert(rest[i - 1].mapping.name == name);
        }
        if index_named(rest, name) < rest.len() {
            let i = choose|i: int| 0 <= i < rest.len() && (#[trigger] rest[i]).mapping.name == name;
            assert(items[i + 1].mapping.name == name);
        }
    }
}

/// A name is refused as unknown exactly when neither a group nor a mapping has
/// it, whatever states the items are in.
pub proof fn law_only_unknown_names_are_refused(items: Seq<ItemView>, name: Seq<char>)
    ensures
        named(items, name) is Err <==> forall|i: int|
            0 <= i < items.len() ==> (#[trigger] items[i]).mapping.group != Some(name)
                && items[i].mapping.name != name,
        named(items, name) matches Err(e) ==> e == (ErrorView::NoSuchName { name }),
{
    lemma_index_named(items, name);
    if exists|i: int| 0 <= i < items.len() && (#[trigger] items[i]).mapping.group == Some(name) {
        let i = choose|i: int|
            0 <= i < items.len() && (#[trigger] items[i]).mapping.group == Some(name);
        lemma_has_member(items, name, i);
    } else {
        lemma_no_members(items, name);
    }
}

// ---------------------------------------------------------------------------
// The picker
// ---------------------------------------------------------------------------

/// One selectable line: a whole group, or a single mapping.
#[derive(Debug)]
pub enum Row {
    Group(String, Vec<Item>),
    Single(Item),
}

/// What a row holds.
#[verifier::ext_equal]
pub enum RowView {
    Group(Seq<char>, Seq<ItemView>),
    Single(ItemView),
}

impl View for Row {
    type V = RowView;

    open spec fn view(&self) -> RowView {
        match *self {
            Row::Group(name, members) => RowView::Group(name@, members.deep_view()),
            Row::Single(item) => RowView::Single(item@),
        }
    }
}

impl DeepView for Row {
    type V = RowView;

    open spec fn deep_view(&self) -> RowView {
        self@
    }
}

/// The rows of the items without a group, in order.
pub open spec fn single_rows(items: Seq<ItemView>) -> Seq<RowView>
    decreases items.len(),
{
    if items.len() == 0 {
        seq![]
    } else if items.last().mapping.group is None {
        single_rows(items.drop_last()).push(RowView::Single(items.last()))
    } else {
        single_rows(items.drop_last())
    }
}

/// The rows of the groups, in order.
pub open spec fn group_rows(items: Seq<ItemView>, groups: Seq<Seq<char>>) -> Seq<RowView> {
    groups.map_values(|g: Seq<char>| RowView::Group(g, in_group(items, g)))
}

/// The rows to choose from: the groups in the order in which they are first
/// seen, then what has no group.
pub open spec fn picker_rows(items: Seq<ItemView>) -> Seq<RowView> {
    group_rows(items, overview::groups_seen(items)) + single_rows(items)
}

/// The rows to choose from.
pub fn rows(choices: &Vec<Item>) -> (r: Vec<Row>)
    ensures
        r.deep_view() == picker_rows(choices.deep_view()),
{
    let ghost all = choices.deep_view();
    let groups = overview::group_order(choices);
    let ghost names = groups.deep_view();
    let ghost want = group_rows(all, names);
    let mut r: Vec<Row> = Vec::new();
    let mut i: usize = 0;
    assert(r.deep_view() =~= want.take(0));
    while i < groups.len()
        invariant
            i <= groups@.len(),
            all == choices.deep_view(),
            names == groups.deep_view(),
            want == group_rows(all, names),
            r.deep_view() == want.take(i as int),
        decreases groups@.len() - i,
    {
        let ghost before = r.deep_view();
        let row = Row::Group(groups[i].clone(), group_items(choices, groups[i].as_str()));
        r.push(row);
        assert(names[i as int] == groups@[i as int]@);
        assert(r.deep_view() =~= before.push(want[i as int]));
        assert(want.take(i + 1) =~= want.take(i as int).push(want[i as int]));
        i += 1;
    }
    assert(want.take(i as int) =~= want);
    let mut k: usize = 0;
    assert(r.deep_view() =~= want + single_rows(all.take(0)));
    while k < choices.len()
        invariant
            k <= choices@.len(),
            all == choices.deep_view(),
            r.deep_view() == want + single_rows(all.take(k as int)),
        decreases choices@.len() - k,
    {
        let ghost before = r.deep_view();
        assert(all.take(k + 1).drop_last() =~= all.take(k as int));
        assert(all.take(k + 1).last() == choices@[k as int]@);
        if choices[k].mapping.group.is_none() {
            let row = Row::Single(choices[k].clone());
            r.push(row);
            assert(r.deep_view() =~= before.push(row@));
        }
        assert(r.deep_view() =~= want + single_rows(all.take(k + 1)));
        k += 1;
    }
    assert(all.take(k as int) =~= all);
    r
}

/// How many of the items are linked.
pub open spec fn linked_in(items: Seq<ItemView>) -> nat
    decreases items.len(),
{
    if items.len() == 0 {
        0
    } else {
        linked_in(items.drop_last()) + if items.last().state is Linked {
            1nat
        } else {
            0nat
        }
    }
}

/// How many of the items are linked.
pub fn linked_count(items: &Vec<Item>) -> (r: usize)
    ensures
        r == linked_in(items.deep_view()),
        r <= items@.len(),
{
    let ghost all = items.deep_view();
    let mut n: usize = 0;
    let mut i: usize = 0;
    assert(all.take(0) =~= Seq::<ItemView>::empty());
    while i < items.len()
        invariant
            n <= i <= items@.len(),
            all == items.deep_view(),
            n == linked_in(all.take(i as int)),
        decreases items@.len() - i,
    {
        assert(all.take(i + 1).drop_last() =~= all.take(i as int));
        assert(all.take(i + 1).last() == items@[i as int]@);
        if items[i].state.is_linked() {
            n += 1;
        }
        i += 1;
    }
    assert(all.take(i as int) =~= all);
    n
}

/// A text filled up with blanks to a width.
pub open spec fn filled(s: Seq<char>, width: nat) -> Seq<char> {
    s + overview::blanks(overview::gap(s.len(), width))
}

fn fill(s: &str, width: usize) -> (r: String)
    ensures
        r@ == filled(s@, width as nat),
{
    let n = text::chars(s).len();
    let gap: usize = if width > n {
        width - n
    } else {
        0
    };
    s.to_owned().concat(overview::blank(gap).as_str())
}

/// How an item is offered in the picker.
pub open spec fn item_offer(item: ItemView, home: Seq<char>) -> Seq<char> {
    let (lab, note) = overview::label_of(item, home);
    let secret = if item.mapping.mode is Some {
        "  secret"@
    } else {
        ""@
    };
    if note.len() == 0 {
        filled(item.mapping.name, 28) + "  "@ + lab + secret
    } else {
        filled(item.mapping.name, 28) + "  "@ + lab + " — "@ + note + secret
    }
}

/// How an item is offered in the picker.
pub fn row_label(item: &Item, home: &str) -> (r: String)
    ensures
        r@ == item_offer(item@, home@),
{
    let (lab, note) = overview::label(item, home);
    let secret = if item.is_secret() {
        "  secret"
    } else {
        ""
    };
    let start = fill(item.name(), 28).concat("  ").concat(lab.as_str());
    if text::chars(note.as_str()).len() == 0 {
        start.concat(secret)
    } else {
        start.concat(" — ").concat(note.as_str()).concat(secret)
    }
}

impl RowView {
    /// How a row is offered in the picker.
    pub open spec fn offer(self, home: Seq<char>) -> Seq<char> {
        match self {
            RowView::Group(name, members) => filled(name, 26) + "  group · "@ + number::decimal(
                linked_in(members),
            ) + "/"@ + number::decimal(members.len()) + " linked"@,
            RowView::Single(item) => item_offer(item, home),
        }
    }

    /// Whether a row is checked to begin with: everything in it is linked.
    pub open spec fn checked(self) -> bool {
        match self {
            RowView::Group(_, members) => linked_in(members) == members.len(),
            RowView::Single(item) => item.state is Linked,
        }
    }

    /// The items of a row.
    pub open spec fn items(self) -> Seq<ItemView> {
        match self {
            RowView::Group(_, members) => members,
            RowView::Single(item) => seq![item],
        }
    }
}

impl Row {
    /// How the row is offered in the picker.
    pub fn label(&self, home: &str) -> (r: String)
        ensures
            r@ == self@.offer(home@),
    {
        match self {
            Row::Group(name, members) => fill(name.as_str(), 26).concat("  group · ").concat(
                number::decimal_text(linked_count(members) as u128).as_str(),
            ).concat("/").concat(number::decimal_text(members.len() as u128).as_str()).concat(
                " linked",
            ),
            Row::Single(item) => row_label(item, home),
        }
    }

    /// Whether the row is checked to begin with.
    pub fn default_checked(&self) -> (r: bool)
        ensures
            r == self@.checked(),
    {
        match self {
            Row::Group(_, members) => linked_count(members) == members.len(),
            Row::Single(item) => item.state.is_linked(),
        }
    }
}

/// What the picker does to one item.
#[derive(Debug)]
pub enum Task {
    Link(Item),
    Unlink(Item),
}

/// What a task holds.
#[verifier::ext_equal]
pub enum TaskView {
    Link(ItemView),
    Unlink(ItemView),
}

impl View for Task {
    type V = TaskView;

    open spec fn view(&self) -> TaskView {
        match *self {
            Task::Link(item) => TaskView::Link(item@),
            Task::Unlink(item) => TaskView::Unlink(item@),
        }
    }
}

impl DeepView for Task {
    type V = TaskView;

    open spec fn deep_view(&self) -> TaskView {
        self@
    }
}

/// What items come to: checked ones are linked, unchecked ones that have a
/// symlink lose it.
pub open spec fn item_tasks(items: Seq<ItemView>, selected: bool) -> Seq<TaskView>
    decreases items.len(),
{
    if items.len() == 0 {
        seq![]
    } else {
        let front = item_tasks(items.drop_last(), selected);
        let last = items.last();
        if selected {
            front.push(TaskView::Link(last))
        } else if last.state is Linked || last.state is DanglingSelf {
            front.push(TaskView::Unlink(last))
        } else {
            front
        }
    }
}

/// What the rows come to, where `chosen` are the indices of the checked ones.
pub open spec fn row_tasks(rows: Seq<RowView>, chosen: Seq<usize>) -> Seq<TaskView>
    decreases rows.len(),
{
    if rows.len() == 0 {
        seq![]
    } else {
        row_tasks(rows.drop_last(), chosen) + item_tasks(
            rows.last().items(),
            chosen.contains((rows.len() - 1) as usize),
        )
    }
}

fn add_task(tasks: &mut Vec<Task>, item: &Item, selected: bool)
    ensures
        old(tasks).deep_view() + item_tasks(seq![item@], selected) == final(tasks).deep_view(),
{
    let ghost start = tasks.deep_view();
    proof {
        assert(seq![item@].drop_last() =~= Seq::<ItemView>::empty());
        assert(seq![item@].last() == item@);
        assert(item_tasks(seq![item@].drop_last(), selected) =~= Seq::<TaskView>::empty());
    }
    if selected {
        tasks.push(Task::Link(item.clone()));
        assert(tasks.deep_view() =~= start + seq![TaskView::Link(item@)]);
    } else if matches!(item.state, State::Linked | State::DanglingSelf) {
        tasks.push(Task::Unlink(item.clone()));
        assert(tasks.deep_view() =~= start + seq![TaskView::Unlink(item@)]);
    }
    assert(tasks.deep_view() =~= start + item_tasks(seq![item@], selected));
}

proof fn lemma_tasks_push(items: Seq<ItemView>, item: ItemView, selected: bool)
    ensures
        item_tasks(items.push(item), selected) == item_tasks(items, selected) + item_tasks(
            seq![item],
            selected,
        ),
{
    assert(items.push(item).drop_last() =~= items);
    assert(seq![item].drop_last() =~= Seq::<ItemView>::empty());
    assert(item_tasks(seq![item].drop_last(), selected) =~= Seq::<TaskView>::empty());
    assert(item_tasks(items.push(item), selected) =~= item_tasks(items, selected) + item_tasks(
        seq![item],
        selected,
    ));
}

fn add_tasks(tasks: &mut Vec<Task>, items: &Vec<Item>, selected: bool)
    ensures
        final(tasks).deep_view() == old(tasks).deep_view() + item_tasks(
            items.deep_view(),
            selected,
        ),
{
    let ghost start = tasks.deep_view();
    let ghost all = items.deep_view();
    let mut i: usize = 0;
    assert(start =~= start + item_tasks(all.take(0), selected));
    while i < items.len()
        invariant
            i <= items@.len(),
            all == items.deep_view(),
            tasks.deep_view() == start + item_tasks(all.take(i as int), selected),
        decreases items@.len() - i,
    {
        proof {
            assert(all.take(i + 1) =~= all.take(i as int).push(all[i as int]));
            lemma_tasks_push(all.take(i as int), all[i as int], selected);
        }
        add_task(tasks, &items[i], selected);
        assert(tasks.deep_view() =~= start + item_tasks(all.take(i + 1), selected));
        i += 1;
    }
    assert(all.take(i as int) =~= all);
}

fn has_index(chosen: &Vec<usize>, k: usize) -> (r: bool)
    ensures
        r == chosen@.contains(k),
{
    let mut i: usize = 0;
    while i < chosen.len()
        invariant
            i <= chosen@.len(),
            forall|j: int| 0 <= j < i ==> chosen@[j] != k,
        decreases chosen@.len() - i,
    {
        if chosen[i] == k {
            assert(chosen@[i as int] == k);
            return true;
        }
        i += 1;
    }
    false
}

/// What the picker comes to once the user has chosen.
pub fn tasks(rows: &Vec<Row>, chosen: &Vec<usize>) -> (r: Vec<Task>)
    ensures
        r.deep_view() == row_tasks(rows.deep_view(), chosen@),
{
    let ghost all = rows.deep_view();
    let mut r: Vec<Task> = Vec::new();
    let mut i: usize = 0;
    assert(r.deep_view() =~= row_tasks(all.take(0), chosen@));
    while i < rows.len()
        invariant
            i <= rows@.len(),
            all == rows.deep_view(),
            r.deep_view() == row_tasks(all.take(i as int), chosen@),
        decreases rows@.len() - i,
    {
        let selected = has_index(chosen, i);
        proof {
            assert(all.take(i + 1).drop_last() =~= all.take(i as int));
            assert(all.take(i + 1).last() == rows@[i as int]@);
        }
        match &rows[i] {
            Row::Group(_, members) => {
                add_tasks(&mut r, members, selected);
            },
            Row::Single(item) => {
                add_task(&mut r, item, selected);
            },
        }
        i += 1;
    }
    assert(all.take(i as int) =~= all);
    r
}

/// Whether an outcome of the picker is worth reporting: what was linked already
/// is not.
pub fn worth_reporting(outcome: &Outcome) -> (r: bool)
    ensures
        r == (outcome@.action != "already-linked"@),
{
    !text::same(outcome.action.as_str(), "already-linked")
}

/// The picker reconciles to what is checked: of a checked row every item is
/// linked, and of an unchecked one nothing is linked and only symlinks are
/// removed.
pub proof fn law_picker_reconciles(items: Seq<ItemView>)
    ensures
        item_tasks(items, true).len() == items.len(),
        forall|k: int|
            0 <= k < items.len() ==> #[trigger] item_tasks(items, true)[k] == TaskView::Link(
                items[k],
            ),
        forall|k: int|
            0 <= k < item_tasks(items, false).len() ==> (#[trigger] item_tasks(
                items,
                false,
            )[k] matches TaskView::Unlink(item) && (item.state is Linked || item.state
                is DanglingSelf)),
    decreases items.len(),
{
    if items.len() > 0 {
        law_picker_reconciles(items.drop_last());
    }
}

// ---------------------------------------------------------------------------
// What is selected
// ---------------------------------------------------------------------------

proof fn lemma_acting_filter(items: Seq<ItemView>, keep: spec_fn(ItemView) -> bool)
    requires
        forall|i: ItemView| #[trigger] keep(i) == acts(i.state),
    ensures
        acting(items) == items.filter(keep),
    decreases items.len(),
{
    reveal(Seq::filter);
    if items.len() > 0 {
        lemma_acting_filter(items.drop_last(), keep);
    }
}

proof fn lemma_group_filter(
    items: Seq<ItemView>,
    group: Seq<char>,
    keep: spec_fn(ItemView) -> bool,
)
    requires
        forall|i: ItemView| #[trigger] keep(i) == (i.mapping.group == Some(group)),
    ensures
        in_group(items, group) == items.filter(keep),
    decreases items.len(),
{
    reveal(Seq::filter);
    if items.len() > 0 {
        lemma_group_filter(items.drop_last(), group, keep);
    }
}

proof fn lemma_group_of_acting(
    items: Seq<ItemView>,
    group: Seq<char>,
    keep: spec_fn(ItemView) -> bool,
)
    requires
        forall|i: ItemView| #[trigger]
            keep(i) == (i.mapping.group == Some(group) && acts(i.state)),
    ensures
        in_group(acting(items), group) == items.filter(keep),
    decreases items.len(),
{
    reveal(Seq::filter);
    if items.len() > 0 {
        let front = items.drop_last();
        lemma_group_of_acting(front, group, keep);
        if acts(items.last().state) {
            assert(acting(items).drop_last() =~= acting(front));
        }
    }
}

/// Selecting all selects every item that is linked, available, healable, in
/// conflict, dangling or foreign, each once and in order, and no item that is
/// skipped, missing or only local.
pub proof fn law_all_selects_what_can_be_acted_on(
    items: Seq<ItemView>,
    keep: spec_fn(ItemView) -> bool,
)
    requires
        forall|i: ItemView| #[trigger]
            keep(i) == (i.state is Linked || i.state is Available || i.state is Healable || i.state
                is Diverged || i.state is DanglingSelf || i.state is ForeignSymlink),
    ensures
        acting(items) == items.filter(keep),
        selection(items, Seq::empty(), true) == Ok::<Seq<ItemView>, ErrorView>(items.filter(keep)),
        items.filter(keep).len() > 0 ==> to_install(items, Seq::empty(), true) == Ok::<
            Seq<ItemView>,
            ErrorView,
        >(items.filter(keep)),
{
    lemma_acting_filter(items, keep);
}

/// The name of a group selects every member that is linked, available, healable,
/// in conflict, dangling or foreign, each once and in order, and no member that is
/// skipped, missing or only local, whether or not a mapping has that name too.
pub proof fn law_a_group_selects_its_members(
    items: Seq<ItemView>,
    group: Seq<char>,
    keep: spec_fn(ItemView) -> bool,
)
    requires
        exists|i: int| 0 <= i < items.len() && (#[trigger] items[i]).mapping.group == Some(group),
        forall|i: ItemView| #[trigger]
            keep(i) == (i.mapping.group == Some(group) && (i.state is Linked || i.state is Available
                || i.state is Healable || i.state is Diverged || i.state is DanglingSelf || i.state
                is ForeignSymlink)),
    ensures
        named(items, group) == Ok::<Seq<ItemView>, ErrorView>(items.filter(keep)),
{
    let i = choose|i: int|
        0 <= i < items.len() && (#[trigger] items[i]).mapping.group == Some(group);
    lemma_has_member(items, group, i);
    lemma_group_of_acting(items, group, keep);
}

/// A name that no group has selects the first mapping of that name, whatever state
/// it is in.
pub proof fn law_a_name_selects_the_first_of_that_name(items: Seq<ItemView>, k: int)
    requires
        0 <= k < items.len(),
        forall|i: int| 0 <= i < k ==> (#[trigger] items[i]).mapping.name != items[k].mapping.name,
        forall|i: int|
            0 <= i < items.len() ==> (#[trigger] items[i]).mapping.group != Some(
                items[k].mapping.name,
            ),
    ensures
        named(items, items[k].mapping.name) == Ok::<Seq<ItemView>, ErrorView>(seq![items[k]]),
{
    lemma_no_members(items, items[k].mapping.name);
    lemma_index_is(items, k);
}

proof fn lemma_index_is(items: Seq<ItemView>, k: int)
    requires
        0 <= k < items.len(),
        forall|i: int| 0 <= i < k ==> (#[trigger] items[i]).mapping.name != items[k].mapping.name,
    ensures
        index_named(items, items[k].mapping.name) == k,
    decreases k,
{
    if k > 0 {
        let rest = items.skip(1);
        assert(rest[k - 1] == items[k]);
        assert(items[0].mapping.name != items[k].mapping.name);
        assert forall|i: int| 0 <= i < k - 1 implies (#[trigger] rest[i]).mapping.name != rest[k
            - 1].mapping.name by {
            assert(rest[i] == items[i + 1]);
        }
        lemma_index_is(rest, k - 1);
    }
}

proof fn lemma_index_found(items: Seq<ItemView>, name: Seq<char>)
    requires
        index_named(items, name) < items.len(),
    ensures
        0 <= index_named(items, name),
        items[index_named(items, name)].mapping.name == name,
        forall|i: int|
            0 <= i < index_named(items, name) ==> (#[trigger] items[i]).mapping.name != name,
    decreases items.len(),
{
    if items.len() > 0 && items[0].mapping.name != name {
        let rest = items.skip(1);
        lemma_index_found(rest, name);
        let k = index_named(items, name);
        assert(items[k] == rest[k - 1]);
        assert forall|i: int| 0 <= i < k implies (#[trigger] items[i]).mapping.name != name by {
            if i > 0 {
                assert(items[i] == rest[i - 1]);
            }
        }
    }
}

/// Names select in the order they are given, one after the other: what a list of
/// names selects is what its parts select, and the first name that stands for
/// nothing refuses the whole.
pub proof fn law_names_select_one_after_the_other(
    items: Seq<ItemView>,
    a: Seq<Seq<char>>,
    b: Seq<Seq<char>>,
    name: Seq<char>,
    all: bool,
)
    ensures
        all_named(items, seq![name]) == named(items, name),
        all_named(items, a + b) == (match (all_named(items, a), all_named(items, b)) {
            (Err(e), _) => Err::<Seq<ItemView>, ErrorView>(e),
            (_, Err(e)) => Err::<Seq<ItemView>, ErrorView>(e),
            (Ok(x), Ok(y)) => Ok::<Seq<ItemView>, ErrorView>(x + y),
        }),
        a.len() > 0 ==> selection(items, a, all) == all_named(items, a),
        selection(items, Seq::empty(), false) == Ok::<Seq<ItemView>, ErrorView>(Seq::empty()),
    decreases b.len(),
{
    let one = seq![name];
    assert(one.drop_last() =~= Seq::<Seq<char>>::empty());
    assert(all_named(items, one.drop_last()) == Ok::<Seq<ItemView>, ErrorView>(Seq::empty()));
    match named(items, name) {
        Ok(x) => {
            assert(Seq::<ItemView>::empty() + x =~= x);
        },
        Err(_) => {},
    }
    if b.len() == 0 {
        assert(a + b =~= a);
        match all_named(items, a) {
            Ok(x) => {
                assert(x + Seq::<ItemView>::empty() =~= x);
            },
            Err(_) => {},
        }
    } else {
        let front = b.drop_last();
        law_names_select_one_after_the_other(items, a, front, name, all);
        assert((a + b).drop_last() =~= a + front);
        assert((a + b).last() == b.last());
        match (all_named(items, a), all_named(items, front), named(items, b.last())) {
            (Ok(x), Ok(y), Ok(z)) => {
                assert((x + y) + z =~= x + (y + z));
            },
            _ => {},
        }
    }
}

/// Installing and uninstalling refuse only an unknown name, or to select nothing.
/// Uninstalling all is uninstalling every item there is, whatever its state.
pub proof fn law_nothing_selected_is_refused(
    items: Seq<ItemView>,
    names: Seq<Seq<char>>,
    all: bool,
)
    ensures
        to_install(items, names, all) matches Ok(s) ==> s.len() > 0 && selection(items, names, all)
            == Ok::<Seq<ItemView>, ErrorView>(s),
        to_install(items, names, all) is Err <==> (match selection(items, names, all) {
            Ok(s) => s.len() == 0,
            Err(_) => true,
        }),
        items.len() > 0 ==> to_uninstall(items, names, true) == Ok::<Seq<ItemView>, ErrorView>(
            items,
        ),
        to_uninstall(items, names, false) matches Ok(s) ==> s.len() > 0 && selection(
            items,
            names,
            false,
        ) == Ok::<Seq<ItemView>, ErrorView>(s),
        to_uninstall(items, names, false) is Err <==> (match selection(items, names, false) {
            Ok(s) => s.len() == 0,
            Err(_) => true,
        }),
{
}

/// To stop managing, each name stands for the first mapping of that name, in the
/// order given, and never for a group; the first name that no mapping has is
/// refused.
pub proof fn law_unadopting_takes_mappings_alone(items: Seq<ItemView>, names: Seq<Seq<char>>)
    ensures
        to_unadopt(items, names) is Ok <==> forall|k: int|
            0 <= k < names.len() ==> known(items, #[trigger] names[k]),
        to_unadopt(items, names) matches Ok(r) ==> r.len() == names.len() && forall|k: int|
            0 <= k < names.len() ==> first_named(items, #[trigger] names[k], r[k]),
        to_unadopt(items, names) matches Err(e) ==> exists|k: int|
            0 <= k < names.len() && !known(items, #[trigger] names[k]) && e == (
            ErrorView::NoSuchMapping { name: names[k] }) && forall|j: int|
                0 <= j < k ==> known(items, #[trigger] names[j]),
    decreases names.len(),
{
    if names.len() > 0 {
        let front = names.drop_last();
        law_unadopting_takes_mappings_alone(items, front);
        lemma_index_named(items, names.last());
        assert forall|k: int| 0 <= k < front.len() implies #[trigger] names[k] == front[k] by {}
        assert(names[names.len() - 1] == names.last());
        match to_unadopt(items, front) {
            Ok(r) => {
                assert forall|k: int| 0 <= k < front.len() implies known(
                    items,
                    #[trigger] names[k],
                ) by {
                    assert(known(items, front[k]));
                }
                if known(items, names.last()) {
                    lemma_index_found(items, names.last());
                    let i = index_named(items, names.last());
                    let all = to_unadopt(items, names)->Ok_0;
                    assert(all == r.push(items[i]));
                    assert forall|k: int| 0 <= k < names.len() implies first_named(
                        items,
                        #[trigger] names[k],
                        all[k],
                    ) by {
                        if k < front.len() {
                            assert(first_named(items, front[k], r[k]));
                        } else {
                            assert(items[i] == all[k]);
                        }
                    }
                }
            },
            Err(_) => {
                let k = choose|k: int|
                    0 <= k < front.len() && !known(items, #[trigger] front[k])
                        && to_unadopt(items, front)->Err_0 == (ErrorView::NoSuchMapping {
                        name: front[k],
                    }) && forall|j: int| 0 <= j < k ==> known(items, #[trigger] front[j]);
                assert(!known(items, names[k]));
                assert forall|j: int| 0 <= j < k implies known(items, #[trigger] names[j]) by {
                    assert(known(items, front[j]));
                }
            },
        }
    }
}

/// Whether some item is of a mapping of that name.
pub open spec fn known(items: Seq<ItemView>, name: Seq<char>) -> bool {
    exists|i: int| 0 <= i < items.len() && (#[trigger] items[i]).mapping.name == name
}

/// Whether that is the first item of a mapping of that name.
pub open spec fn first_named(items: Seq<ItemView>, name: Seq<char>, item: ItemView) -> bool {
    exists|i: int|
        0 <= i < items.len() && item == #[trigger] items[i] && item.mapping.name == name && forall|
            j: int,
        |
            0 <= j < i ==> (#[trigger] items[j]).mapping.name != name
}

/// The picker offers every item once: a group as one row with all its members, in
/// order, and each item without a group as a row of its own. Each group has one
/// row, and only a group that has members.
pub proof fn law_picker_offers_everything_once(items: Seq<ItemView>, k: int)
    requires
        0 <= k < picker_rows(items).len(),
    ensures
        forall|i: int|
            0 <= i < items.len() ==> ((#[trigger] items[i]).mapping.group matches Some(g)
                ==> overview::groups_seen(items).contains(g)),
        overview::groups_seen(items).no_duplicates(),
        k < overview::groups_seen(items).len() ==> (picker_rows(items)[k] matches RowView::Group(
            g,
            members,
        ) && g == overview::groups_seen(items)[k] && members.len() > 0 && forall|
            keep: spec_fn(ItemView) -> bool,
        |
            (forall|i: ItemView| #[trigger] keep(i) == (i.mapping.group == Some(g))) ==> members
                == #[trigger] items.filter(keep)),
        k >= overview::groups_seen(items).len() ==> (picker_rows(items)[k] matches RowView::Single(
            item,
        ) && item.mapping.group is None),
        forall|keep: spec_fn(ItemView) -> bool|
            (forall|i: ItemView| #[trigger] keep(i) == (i.mapping.group is None))
                ==> picker_rows(items).skip(overview::groups_seen(items).len() as int)
                == (#[trigger] items.filter(keep)).map_values(|i: ItemView| RowView::Single(i)),
{
    let groups = overview::groups_seen(items);
    lemma_groups_seen(items);
    let rows = picker_rows(items);
    assert(rows.skip(groups.len() as int) =~= single_rows(items));
    if k < groups.len() {
        let g = groups[k];
        assert(rows[k] == RowView::Group(g, in_group(items, g)));
        assert(groups.contains(g));
        let i = choose|i: int|
            0 <= i < items.len() && (#[trigger] items[i]).mapping.group == Some(g);
        lemma_has_member(items, g, i);
        assert forall|keep: spec_fn(ItemView) -> bool|
            (forall|i: ItemView| #[trigger] keep(i) == (i.mapping.group == Some(
                g,
            ))) implies in_group(items, g) == #[trigger] items.filter(keep) by {
            lemma_group_filter(items, g, keep);
        }
    } else {
        lemma_single_rows(items, |i: ItemView| i.mapping.group is None);
        assert(rows[k] == single_rows(items)[k - groups.len()]);
        let keep = |i: ItemView| i.mapping.group is None;
        items.lemma_filter_pred(keep, k - groups.len());
    }
    assert forall|keep: spec_fn(ItemView) -> bool|
        (forall|i: ItemView| #[trigger] keep(i) == (i.mapping.group is None)) implies rows.skip(
        groups.len() as int,
    ) == (#[trigger] items.filter(keep)).map_values(|i: ItemView| RowView::Single(i)) by {
        lemma_single_rows(items, keep);
    }
}

proof fn lemma_single_rows(items: Seq<ItemView>, keep: spec_fn(ItemView) -> bool)
    requires
        forall|i: ItemView| #[trigger] keep(i) == (i.mapping.group is None),
    ensures
        single_rows(items) == items.filter(keep).map_values(|i: ItemView| RowView::Single(i)),
    decreases items.len(),
{
    reveal(Seq::filter);
    if items.len() > 0 {
        lemma_single_rows(items.drop_last(), keep);
        assert(single_rows(items) =~= items.filter(keep).map_values(
            |i: ItemView| RowView::Single(i),
        ));
    } else {
        assert(single_rows(items) =~= items.filter(keep).map_values(
            |i: ItemView| RowView::Single(i),
        ));
    }
}

proof fn lemma_groups_seen(items: Seq<ItemView>)
    ensures
        overview::groups_seen(items).no_duplicates(),
        forall|g: Seq<char>| #[trigger]
            overview::groups_seen(items).contains(g) <==> exists|i: int|
                0 <= i < items.len() && (#[trigger] items[i]).mapping.group == Some(g),
    decreases items.len(),
{
    if items.len() > 0 {
        let front = items.drop_last();
        let before = overview::groups_seen(front);
        let now = overview::groups_seen(items);
        lemma_groups_seen(front);
        assert(items[items.len() - 1] == items.last());
        assert forall|g: Seq<char>| #[trigger] now.contains(g) <==> exists|i: int|
            0 <= i < items.len() && (#[trigger] items[i]).mapping.group == Some(g) by {
            if before.contains(g) {
                let i = choose|i: int|
                    0 <= i < front.len() && (#[trigger] front[i]).mapping.group == Some(g);
                assert(items[i].mapping.group == Some(g));
                let j = choose|j: int| 0 <= j < before.len() && before[j] == g;
                assert(now[j] == g);
            } else {
                assert forall|i: int| 0 <= i < front.len() implies (#[trigger] items[i]).mapping.group
                    != Some(g) by {
                    assert(front[i] == items[i]);
                }
                if items.last().mapping.group == Some(g) {
                    assert(now[before.len() as int] == g);
                } else if now.contains(g) {
                    let j = choose|j: int| 0 <= j < now.len() && now[j] == g;
                    if j < before.len() {
                        assert(before[j] == g);
                    }
                }
            }
        }
        assert forall|i: int, j: int| 0 <= i < now.len() && 0 <= j < now.len() && i != j implies now[i]
            != now[j] by {
            if i < before.len() && j < before.len() {
                assert(now[i] == before[i] && now[j] == before[j]);
            } else if i < before.len() {
                assert(before.contains(before[i]));
            } else if j < before.len() {
                assert(before.contains(before[j]));
            }
        }
    }
}

/// A row is checked to begin with exactly when everything in it is linked, and its
/// count is of the items in it that are linked.
pub proof fn law_a_row_is_checked_when_all_of_it_is_linked(row: RowView)
    ensures
        row.checked() <==> forall|i: int|
            0 <= i < row.items().len() ==> (#[trigger] row.items()[i]).state is Linked,
{
    match row {
        RowView::Group(_, members) => {
            lemma_linked_in(members);
        },
        RowView::Single(item) => {
            assert(row.items()[0] == item);
        },
    }
}

proof fn lemma_linked_in(items: Seq<ItemView>)
    ensures
        linked_in(items) <= items.len(),
        linked_in(items) == items.len() <==> forall|i: int|
            0 <= i < items.len() ==> (#[trigger] items[i]).state is Linked,
    decreases items.len(),
{
    if items.len() > 0 {
        let front = items.drop_last();
        lemma_linked_in(front);
        assert(items[items.len() - 1] == items.last());
        if linked_in(items) == items.len() {
            assert forall|i: int| 0 <= i < items.len() implies (#[trigger] items[i]).state is Linked by {
                if i < front.len() {
                    assert(front[i].state is Linked);
                }
            }
        } else if linked_in(front) < front.len() {
            let i = choose|i: int|
                0 <= i < front.len() && !((#[trigger] front[i]).state is Linked);
            assert(!(items[i].state is Linked));
        }
    }
}

/// The count of linked items is the number of those whose state is linked.
pub proof fn law_linked_count_counts_the_linked(
    items: Seq<ItemView>,
    keep: spec_fn(ItemView) -> bool,
)
    requires
        forall|i: ItemView| #[trigger] keep(i) == (i.state is Linked),
    ensures
        linked_in(items) == items.filter(keep).len(),
    decreases items.len(),
{
    reveal(Seq::filter);
    if items.len() > 0 {
        law_linked_count_counts_the_linked(items.drop_last(), keep);
    }
}

/// What the picker comes to: an item is linked exactly when a checked row holds
/// it, and loses its symlink exactly when an unchecked row holds it and it has one.
pub proof fn law_picker_links_the_checked_and_unlinks_the_rest(
    rows: Seq<RowView>,
    chosen: Seq<usize>,
    item: ItemView,
)
    requires
        rows.len() <= usize::MAX,
    ensures
        row_tasks(rows, chosen).contains(TaskView::Link(item)) <==> exists|k: int|
            0 <= k < rows.len() && chosen.contains(k as usize) && (
            #[trigger] rows[k]).items().contains(item),
        row_tasks(rows, chosen).contains(TaskView::Unlink(item)) <==> (item.state is Linked
            || item.state is DanglingSelf) && exists|k: int|
            0 <= k < rows.len() && !chosen.contains(k as usize) && (
            #[trigger] rows[k]).items().contains(item),
    decreases rows.len(),
{
    if rows.len() > 0 {
        let front = rows.drop_last();
        law_picker_links_the_checked_and_unlinks_the_rest(front, chosen, item);
        let at = rows.len() - 1;
        let picked = chosen.contains(at as usize);
        let before = row_tasks(front, chosen);
        let more = item_tasks(rows.last().items(), picked);
        assert(rows[at] == rows.last());
        lemma_item_tasks(rows.last().items(), picked, item);
        lemma_added_contains(before, more, TaskView::Link(item));
        lemma_added_contains(before, more, TaskView::Unlink(item));
        assert forall|k: int| 0 <= k < front.len() implies #[trigger] rows[k] == front[k] by {}
        if exists|k: int|
            0 <= k < front.len() && chosen.contains(k as usize) && (
            #[trigger] front[k]).items().contains(item) {
            let k = choose|k: int|
                0 <= k < front.len() && chosen.contains(k as usize) && (
                #[trigger] front[k]).items().contains(item);
            assert(rows[k].items().contains(item));
        }
        if exists|k: int|
            0 <= k < front.len() && !chosen.contains(k as usize) && (
            #[trigger] front[k]).items().contains(item) {
            let k = choose|k: int|
                0 <= k < front.len() && !chosen.contains(k as usize) && (
                #[trigger] front[k]).items().contains(item);
            assert(rows[k].items().contains(item));
        }
    }
}

proof fn lemma_added_contains(a: Seq<TaskView>, b: Seq<TaskView>, t: TaskView)
    ensures
        (a + b).contains(t) <==> a.contains(t) || b.contains(t),
{
    if a.contains(t) {
        let i = choose|i: int| 0 <= i < a.len() && a[i] == t;
        assert((a + b)[i] == t);
    }
    if b.contains(t) {
        let i = choose|i: int| 0 <= i < b.len() && b[i] == t;
        assert((a + b)[a.len() + i] == t);
    }
    if (a + b).contains(t) {
        let i = choose|i: int| 0 <= i < (a + b).len() && (a + b)[i] == t;
        if i < a.len() {
            assert(a[i] == t);
        } else {
            assert(b[i - a.len()] == t);
        }
    }
}

proof fn lemma_item_tasks(items: Seq<ItemView>, selected: bool, item: ItemView)
    ensures
        item_tasks(items, selected).contains(TaskView::Link(item)) <==> selected && items.contains(
            item,
        ),
        item_tasks(items, selected).contains(TaskView::Unlink(item)) <==> !selected
            && items.contains(item) && (item.state is Linked || item.state is DanglingSelf),
    decreases items.len(),
{
    if items.len() > 0 {
        let front = items.drop_last();
        let last = items.last();
        lemma_item_tasks(front, selected, item);
        let before = item_tasks(front, selected);
        let one = if selected {
            seq![TaskView::Link(last)]
        } else if last.state is Linked || last.state is DanglingSelf {
            seq![TaskView::Unlink(last)]
        } else {
            Seq::empty()
        };
        assert(item_tasks(items, selected) =~= before + one);
        lemma_added_contains(before, one, TaskView::Link(item));
        lemma_added_contains(before, one, TaskView::Unlink(item));
        assert(one.len() > 0 ==> one.contains(one[0]));
        assert(items[items.len() - 1] == last);
        assert(items.contains(item) <==> front.contains(item) || last == item) by {
            if front.contains(item) {
                let i = choose|i: int| 0 <= i < front.len() && front[i] == item;
                assert(items[i] == item);
            }
            if items.contains(item) {
                let i = choose|i: int| 0 <= i < items.len() && items[i] == item;
                if i < front.len() {
                    assert(front[i] == item);
                }
            }
        }
    }
}

} // verus!
