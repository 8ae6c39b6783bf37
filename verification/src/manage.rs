//! Managing the mapping document: adopting into a group, relabelling groups,
//! moving mappings between them, and dropping mappings, with the confirmation
//! that changes on every machine ask for.
use vstd::prelude::*;
use vstd::string::*;

use crate::apply;
use crate::apply::{AdoptFacts, AdoptFactsView};
use crate::config::{Config, ConfigView};
use crate::discovery;
use crate::discovery::{Candidate, CandidateView};
use crate::error::{Error, ErrorView};
use crate::group;
use crate::journal::{UndoAction, UndoView};
use crate::mapping;
use crate::mapping::{Mapping, MappingView, MappingsFile, MappingsView, OnConflict};
use crate::number;
use crate::path;
use crate::plan::{Item, ItemView, State};
use crate::script;
use crate::script::{Decision, DecisionView, Outcome, OutcomeView};
use crate::text;

verus! {

// ---------------------------------------------------------------------------
// Confirmation
// ---------------------------------------------------------------------------

/// What stands between a command and a change on every machine.
#[derive(Debug)]
pub enum Consent {
    /// Nothing: go on.
    Given,
    /// There is no one to ask: refuse.
    Refused(Error),
    /// Ask this first.
    Ask(String),
}

/// What a consent holds.
pub enum ConsentView {
    Given,
    Refused(ErrorView),
    Ask(Seq<char>),
}

impl View for Consent {
    type V = ConsentView;

    open spec fn view(&self) -> ConsentView {
        match *self {
            Consent::Given => ConsentView::Given,
            Consent::Refused(e) => ConsentView::Refused(e@),
            Consent::Ask(s) => ConsentView::Ask(s@),
        }
    }
}

/// A dry run and `--yes` go on; else, without someone to ask, the change is
/// refused, and with someone it is asked for.
pub open spec fn consent_for(
    dry_run: bool,
    yes: bool,
    json: bool,
    interactive: bool,
    refusal: ErrorView,
    question: Seq<char>,
) -> ConsentView {
    if dry_run || yes {
        ConsentView::Given
    } else if json || !interactive {
        ConsentView::Refused(refusal)
    } else {
        ConsentView::Ask(question)
    }
}

/// The consent to a change on every machine.
pub fn consent(
    dry_run: bool,
    yes: bool,
    json: bool,
    interactive: bool,
    refusal: Error,
    question: String,
) -> (r: Consent)
    ensures
        r@ == consent_for(dry_run, yes, json, interactive, refusal@, question@),
{
    if dry_run || yes {
        Consent::Given
    } else if json || !interactive {
        Consent::Refused(refusal)
    } else {
        Consent::Ask(question)
    }
}

/// A change on every machine is never made unasked: without `--yes` it is either
/// a dry run, refused, or asked for.
pub proof fn law_no_unasked_change(
    dry_run: bool,
    json: bool,
    interactive: bool,
    refusal: ErrorView,
    question: Seq<char>,
)
    ensures
        consent_for(dry_run, false, json, interactive, refusal, question) is Given ==> dry_run,
        consent_for(dry_run, false, json, interactive, refusal, question) is Ask ==> interactive
            && !json,
{
}

/// Whether a sync folder may be created: it is asked about exactly where it is not
/// there yet and there is someone to ask.
pub open spec fn creation_consent(
    dir: Seq<char>,
    exists_already: bool,
    json: bool,
    interactive: bool,
) -> ConsentView {
    if exists_already || json || !interactive {
        ConsentView::Given
    } else {
        ConsentView::Ask(dir + " doesn't exist — create it?"@)
    }
}

/// The consent to create the sync folder where it does not exist: asked for when
/// there is someone to ask.
pub fn consent_to_create(
    dir: &str,
    exists_already: bool,
    json: bool,
    interactive: bool,
) -> (r: Consent)
    ensures
        r@ == creation_consent(dir@, exists_already, json, interactive),
{
    if exists_already || json || !interactive {
        Consent::Given
    } else {
        Consent::Ask(dir.to_owned().concat(" doesn't exist — create it?"))
    }
}

/// The question before a group is removed.
pub fn removal_question(name: &str, local: usize, total: usize) -> (r: String)
    ensures
        r@ == "Remove group '"@ + name@ + "'? Restores "@ + number::decimal(local as nat)
            + " file(s) to $HOME here (cloud copies kept) and removes "@ + number::decimal(
            total as nat,
        ) + " mapping(s) from dotsync.toml on ALL machines."@,
{
    "Remove group '".to_owned().concat(name).concat("'? Restores ").concat(
        number::decimal_text(local as u128).as_str(),
    ).concat(" file(s) to $HOME here (cloud copies kept) and removes ").concat(
        number::decimal_text(total as u128).as_str(),
    ).concat(" mapping(s) from dotsync.toml on ALL machines.")
}

/// The question before mappings are dropped.
pub fn unadopt_question(count: usize) -> (r: String)
    ensures
        r@ == "Un-adopt "@ + number::decimal(count as nat)
            + " mapping(s)? Restores them to $HOME here (cloud copies kept) and removes them from dotsync.toml on ALL machines."@,
{
    "Un-adopt ".to_owned().concat(number::decimal_text(count as u128).as_str()).concat(
        " mapping(s)? Restores them to $HOME here (cloud copies kept) and removes them from dotsync.toml on ALL machines.",
    )
}

/// The question before a run is undone.
pub fn undo_question(command: &str, count: usize) -> (r: String)
    ensures
        r@ == "Undo the last run (`"@ + command@ + "`, "@ + number::decimal(count as nat)
            + " item(s))? Reverses those changes here and may re-add/drop mappings on every machine."@,
{
    "Undo the last run (`".to_owned().concat(command).concat("`, ").concat(
        number::decimal_text(count as u128).as_str(),
    ).concat(
        " item(s))? Reverses those changes here and may re-add/drop mappings on every machine.",
    )
}

// ---------------------------------------------------------------------------
// Relabelling
// ---------------------------------------------------------------------------

/// A mapping with another group.
pub open spec fn regrouped(m: MappingView, group: Seq<char>) -> MappingView {
    MappingView { group: Some(group), ..m }
}

/// The mappings with the group `old` called `new`.
pub open spec fn renamed(s: Seq<MappingView>, old_name: Seq<char>, new_name: Seq<char>) -> Seq<
    MappingView,
> {
    s.map_values(
        |m: MappingView|
            if m.group == Some(old_name) {
                regrouped(m, new_name)
            } else {
                m
            },
    )
}

/// The mappings with those of that name in the group.
pub open spec fn moved(s: Seq<MappingView>, name: Seq<char>, group: Seq<char>) -> Seq<MappingView> {
    s.map_values(
        |m: MappingView|
            if m.name == name {
                regrouped(m, group)
            } else {
                m
            },
    )
}

/// How many mappings are in a group.
pub open spec fn group_size(s: Seq<MappingView>, group: Seq<char>) -> nat
    decreases s.len(),
{
    if s.len() == 0 {
        0
    } else {
        group_size(s.drop_last(), group) + if s.last().group == Some(group) {
            1nat
        } else {
            0nat
        }
    }
}

/// What renaming a group did.
#[derive(Debug)]
pub struct Renamed {
    /// How many mappings were relabelled.
    pub members: usize,
    /// Whether a group of the new name existed.
    pub merged: bool,
}

/// Why a name cannot be a group's.
pub open spec fn group_refusal(name: Seq<char>, s: Seq<MappingView>) -> Option<ErrorView> {
    match group::name_problem(name) {
        Some(e) => Some(e),
        None => if mapping::has_name(s, text::trim(name)) {
            Some(ErrorView::NameIsMapping { name: text::trim(name) })
        } else {
            None
        },
    }
}

/// Refuse what cannot be a group's name: one that is not valid, or that is a
/// mapping's.
pub fn check_group_name(name: &str, mappings: &MappingsFile) -> (r: Result<(), Error>)
    ensures
        match r {
            Ok(_) => group_refusal(name@, mappings@.mappings) is None,
            Err(e) => group_refusal(name@, mappings@.mappings) == Some(e@),
        },
{
    match group::validate_group_name(name) {
        Ok(_) => group::ensure_free_of_mapping(name, mappings),
        Err(e) => Err(e),
    }
}

fn copy_with_group(m: &Mapping, group: &str) -> (r: Mapping)
    ensures
        r@ == regrouped(m@, group@),
{
    let mut r = m.clone();
    r.group = Some(group.to_owned());
    assert(r@ =~= regrouped(m@, group@));
    r
}

/// What renaming a group comes to: the document afterwards, how many members moved,
/// and whether the new name was a group's already; or why it is refused.
pub open spec fn renaming(d: MappingsView, old_name: Seq<char>, typed: Seq<char>) -> Result<
    (MappingsView, nat, bool),
    ErrorView,
> {
    let name = text::trim(typed);
    match group_refusal(name, d.mappings) {
        Some(e) => Err(e),
        None => if group_size(d.mappings, old_name) == 0 {
            Err(ErrorView::NoSuchGroup { name: old_name })
        } else {
            Ok(
                (
                    MappingsView { mappings: renamed(d.mappings, old_name, name), ..d },
                    group_size(d.mappings, old_name),
                    mapping::has_group(d.mappings, name),
                ),
            )
        },
    }
}

/// Rename a group: relabel all its members. If a group of the new name exists,
/// the two become one.
pub fn rename_group(mappings: &mut MappingsFile, old_name: &str, new_name: &str) -> (r: Result<
    Renamed,
    Error,
>)
    ensures
        match r {
            Err(e) => *final(mappings) == *old(mappings) && renaming(
                old(mappings)@,
                old_name@,
                new_name@,
            ) == Err::<(MappingsView, nat, bool), ErrorView>(e@),
            Ok(done) => renaming(old(mappings)@, old_name@, new_name@) == Ok::<
                (MappingsView, nat, bool),
                ErrorView,
            >((final(mappings)@, done.members as nat, done.merged)),
        },
{
    let ghost before = mappings@.mappings;
    let name = text::trim_text(new_name);
    match check_group_name(name.as_str(), mappings) {
        Ok(_) => {},
        Err(e) => return Err(e),
    }
    let merged = text::list_has(&mappings.groups(), name.as_str());
    proof {
        group::law_groups_are_the_labels(mappings@);
    }
    let mut members: usize = 0;
    let mut out: Vec<Mapping> = Vec::new();
    let mut i: usize = 0;
    let ghost want = renamed(before, old_name@, name@);
    assert(before.take(0) =~= Seq::<MappingView>::empty());
    assert(out.deep_view() =~= want.take(0));
    while i < mappings.mappings.len()
        invariant
            members <= i <= mappings.mappings@.len(),
            before == mappings.mappings.deep_view(),
            want == renamed(before, old_name@, name@),
            members == group_size(before.take(i as int), old_name@),
            out.deep_view() == want.take(i as int),
            *mappings == *old(mappings),
        decreases mappings.mappings@.len() - i,
    {
        let ghost so_far = out.deep_view();
        let m = &mappings.mappings[i];
        proof {
            assert(before.take(i + 1).drop_last() =~= before.take(i as int));
            assert(before.take(i + 1).last() == m@);
            assert(before[i as int] == m@);
            assert(want.take(i + 1) =~= want.take(i as int).push(want[i as int]));
        }
        if text::is_label(&m.group, old_name) {
            members += 1;
            out.push(copy_with_group(m, name.as_str()));
        } else {
            out.push(m.clone());
        }
        assert(out.deep_view() =~= so_far.push(want[i as int]));
        i += 1;
    }
    proof {
        assert(before.take(i as int) =~= before);
        assert(want.take(i as int) =~= want);
    }
    if members == 0 {
        return Err(Error::NoSuchGroup { name: old_name.to_owned() });
    }
    mappings.mappings = out;
    Ok(Renamed { members, merged })
}

/// What moving a mapping to a group comes to: the document afterwards, and whether
/// the group is new; or why it is refused.
pub open spec fn moving(d: MappingsView, name: Seq<char>, typed: Seq<char>) -> Result<
    (MappingsView, bool),
    ErrorView,
> {
    let label = text::trim(typed);
    match group_refusal(label, d.mappings) {
        Some(e) => Err(e),
        None => if mapping::has_name(d.mappings, name) {
            Ok(
                (
                    MappingsView { mappings: moved(d.mappings, name, label), ..d },
                    !mapping::has_group(d.mappings, label),
                ),
            )
        } else {
            Err(ErrorView::NoSuchMapping { name })
        },
    }
}

/// Move the mapping of that name into a group, which need not exist yet. Returns
/// whether the group is new.
pub fn move_to_group(mappings: &mut MappingsFile, name: &str, group: &str) -> (r: Result<
    bool,
    Error,
>)
    ensures
        match r {
            Err(e) => *final(mappings) == *old(mappings) && moving(
                old(mappings)@,
                name@,
                group@,
            ) == Err::<(MappingsView, bool), ErrorView>(e@),
            Ok(created) => moving(old(mappings)@, name@, group@) == Ok::<
                (MappingsView, bool),
                ErrorView,
            >((final(mappings)@, created)),
        },
{
    let ghost before = mappings@.mappings;
    let label = text::trim_text(group);
    match check_group_name(label.as_str(), mappings) {
        Ok(_) => {},
        Err(e) => return Err(e),
    }
    if mappings.find(name).is_none() {
        return Err(Error::NoSuchMapping { name: name.to_owned() });
    }
    let created = !text::list_has(&mappings.groups(), label.as_str());
    proof {
        group::law_groups_are_the_labels(mappings@);
    }
    let mut out: Vec<Mapping> = Vec::new();
    let mut i: usize = 0;
    let ghost want = moved(before, name@, label@);
    assert(out.deep_view() =~= want.take(0));
    while i < mappings.mappings.len()
        invariant
            i <= mappings.mappings@.len(),
            before == mappings.mappings.deep_view(),
            want == moved(before, name@, label@),
            out.deep_view() == want.take(i as int),
            *mappings == *old(mappings),
        decreases mappings.mappings@.len() - i,
    {
        let ghost so_far = out.deep_view();
        let m = &mappings.mappings[i];
        proof {
            assert(before[i as int] == m@);
            assert(want.take(i + 1) =~= want.take(i as int).push(want[i as int]));
        }
        if text::same(m.name.as_str(), name) {
            out.push(copy_with_group(m, label.as_str()));
        } else {
            out.push(m.clone());
        }
        assert(out.deep_view() =~= so_far.push(want[i as int]));
        i += 1;
    }
    assert(want.take(i as int) =~= want);
    mappings.mappings = out;
    Ok(created)
}

/// The names of a group's members, in order.
pub open spec fn member_names(s: Seq<MappingView>, group: Seq<char>) -> Seq<Seq<char>>
    decreases s.len(),
{
    if s.len() == 0 {
        seq![]
    } else if s.last().group == Some(group) {
        member_names(s.drop_last(), group).push(s.last().name)
    } else {
        member_names(s.drop_last(), group)
    }
}

/// The names of a group's members, in order.
pub fn members_of(mappings: &MappingsFile, group: &str) -> (r: Vec<String>)
    ensures
        r.deep_view() == member_names(mappings@.mappings, group@),
{
    let ghost all = mappings@.mappings;
    let mut r: Vec<String> = Vec::new();
    let mut i: usize = 0;
    assert(r.deep_view() =~= member_names(all.take(0), group@));
    while i < mappings.mappings.len()
        invariant
            i <= mappings.mappings@.len(),
            all == mappings.mappings.deep_view(),
            r.deep_view() == member_names(all.take(i as int), group@),
        decreases mappings.mappings@.len() - i,
    {
        let ghost before = r.deep_view();
        let m = &mappings.mappings[i];
        assert(all.take(i + 1).drop_last() =~= all.take(i as int));
        assert(all.take(i + 1).last() == m@);
        if text::is_label(&m.group, group) {
            r.push(m.name.clone());
            assert(r.deep_view() =~= before.push(m@.name));
        }
        i += 1;
    }
    assert(all.take(i as int) =~= all);
    r
}

// ---------------------------------------------------------------------------
// Dropping
// ---------------------------------------------------------------------------

/// How many of the items have a symlink here.
pub open spec fn linked_here(items: Seq<ItemView>) -> nat
    decreases items.len(),
{
    if items.len() == 0 {
        0
    } else {
        linked_here(items.drop_last()) + if items.last().state is Linked || items.last().state
            is DanglingSelf {
            1nat
        } else {
            0nat
        }
    }
}

/// How many of the items have a symlink here, and so would be restored.
pub fn count_linked_here(items: &Vec<Item>) -> (r: usize)
    ensures
        r == linked_here(items.deep_view()),
{
    let ghost all = items.deep_view();
    let mut n: usize = 0;
    let mut i: usize = 0;
    assert(all.take(0) =~= Seq::<ItemView>::empty());
    while i < items.len()
        invariant
            n <= i <= items@.len(),
            all == items.deep_view(),
            n == linked_here(all.take(i as int)),
        decreases items@.len() - i,
    {
        assert(all.take(i + 1).drop_last() =~= all.take(i as int));
        assert(all.take(i + 1).last() == items@[i as int]@);
        if matches!(items[i].state, State::Linked | State::DanglingSelf) {
            n += 1;
        }
        i += 1;
    }
    assert(all.take(i as int) =~= all);
    n
}

/// The mappings that none of the outcomes restored well.
pub open spec fn not_restored(s: Seq<MappingView>, outcomes: Seq<OutcomeView>) -> Seq<MappingView>
    decreases s.len(),
{
    if s.len() == 0 {
        s
    } else if restored(s.last().name, outcomes) {
        not_restored(s.drop_last(), outcomes)
    } else {
        not_restored(s.drop_last(), outcomes).push(s.last())
    }
}

/// Whether some outcome of that name went well.
pub open spec fn restored(name: Seq<char>, outcomes: Seq<OutcomeView>) -> bool {
    exists|i: int|
        0 <= i < outcomes.len() && (#[trigger] outcomes[i]).ok && outcomes[i].name == name
}

fn was_restored(name: &str, outcomes: &Vec<Outcome>) -> (r: bool)
    ensures
        r == restored(name@, outcomes.deep_view()),
{
    let ghost all = outcomes.deep_view();
    let mut i: usize = 0;
    while i < outcomes.len()
        invariant
            i <= outcomes@.len(),
            all == outcomes.deep_view(),
            forall|j: int| 0 <= j < i ==> !((#[trigger] all[j]).ok && all[j].name == name@),
        decreases outcomes@.len() - i,
    {
        assert(all[i as int] == outcomes@[i as int]@);
        if outcomes[i].ok && text::same(outcomes[i].name.as_str(), name) {
            return true;
        }
        i += 1;
    }
    false
}

/// Drop the mappings that were restored well; one whose restore failed stays, so
/// that it can be tried again.
pub fn drop_restored(mappings: &mut MappingsFile, outcomes: &Vec<Outcome>)
    ensures
        final(mappings)@ == (MappingsView {
            mappings: not_restored(old(mappings)@.mappings, outcomes.deep_view()),
            ..old(mappings)@
        }),
{
    let ghost all = mappings@.mappings;
    let mut kept: Vec<Mapping> = Vec::new();
    let mut i: usize = 0;
    assert(kept.deep_view() =~= not_restored(all.take(0), outcomes.deep_view()));
    while i < mappings.mappings.len()
        invariant
            i <= mappings.mappings@.len(),
            all == mappings.mappings.deep_view(),
            *mappings == *old(mappings),
            kept.deep_view() == not_restored(all.take(i as int), outcomes.deep_view()),
        decreases mappings.mappings@.len() - i,
    {
        let ghost before = kept.deep_view();
        let m = &mappings.mappings[i];
        assert(all.take(i + 1).drop_last() =~= all.take(i as int));
        assert(all.take(i + 1).last() == m@);
        if !was_restored(m.name.as_str(), outcomes) {
            kept.push(m.clone());
            assert(kept.deep_view() =~= before.push(m@));
        }
        i += 1;
    }
    assert(all.take(i as int) =~= all);
    mappings.mappings = kept;
}

/// The mappings with the conflict policy that lets the cloud copy win.
pub open spec fn overridden(s: Seq<MappingView>) -> Seq<MappingView> {
    s.map_values(|m: MappingView| MappingView { on_conflict: OnConflict::Adopt, ..m })
}

/// Let the cloud copy win for this run; never saved.
pub fn override_conflicts(mappings: &mut MappingsFile)
    ensures
        final(mappings)@ == (MappingsView {
            mappings: overridden(old(mappings)@.mappings),
            ..old(mappings)@
        }),
{
    let ghost all = mappings@.mappings;
    let ghost want = overridden(all);
    let mut out: Vec<Mapping> = Vec::new();
    let mut i: usize = 0;
    assert(out.deep_view() =~= want.take(0));
    while i < mappings.mappings.len()
        invariant
            i <= mappings.mappings@.len(),
            all == mappings.mappings.deep_view(),
            want == overridden(all),
            *mappings == *old(mappings),
            out.deep_view() == want.take(i as int),
        decreases mappings.mappings@.len() - i,
    {
        let ghost before = out.deep_view();
        let mut m = mappings.mappings[i].clone();
        m.on_conflict = OnConflict::Adopt;
        proof {
            assert(all[i as int] == mappings.mappings@[i as int]@);
            assert(m@ =~= want[i as int]);
            assert(want.take(i + 1) =~= want.take(i as int).push(want[i as int]));
        }
        out.push(m);
        assert(out.deep_view() =~= before.push(want[i as int]));
        i += 1;
    }
    assert(want.take(i as int) =~= want);
    mappings.mappings = out;
}

/// The actions that reverse the outcomes, in order.
pub open spec fn reversible(outcomes: Seq<OutcomeView>) -> Seq<UndoView>
    decreases outcomes.len(),
{
    if outcomes.len() == 0 {
        seq![]
    } else {
        match outcomes.last().undo {
            Some(u) => reversible(outcomes.drop_last()).push(u),
            None => reversible(outcomes.drop_last()),
        }
    }
}

/// The actions that reverse the outcomes, in order: what a run records.
pub fn undo_actions(outcomes: &Vec<Outcome>) -> (r: Vec<UndoAction>)
    ensures
        r.deep_view() == reversible(outcomes.deep_view()),
{
    let ghost all = outcomes.deep_view();
    let mut r: Vec<UndoAction> = Vec::new();
    let mut i: usize = 0;
    assert(r.deep_view() =~= reversible(all.take(0)));
    while i < outcomes.len()
        invariant
            i <= outcomes@.len(),
            all == outcomes.deep_view(),
            r.deep_view() == reversible(all.take(i as int)),
        decreases outcomes@.len() - i,
    {
        let ghost before = r.deep_view();
        assert(all.take(i + 1).drop_last() =~= all.take(i as int));
        assert(all.take(i + 1).last() == outcomes@[i as int]@);
        if let Some(u) = &outcomes[i].undo {
            r.push(u.clone());
            assert(r.deep_view() =~= before.push(u@));
        }
        i += 1;
    }
    assert(all.take(i as int) =~= all);
    r
}

// ---------------------------------------------------------------------------
// Adopting
// ---------------------------------------------------------------------------

/// The system that the flags scope a mapping to.
pub fn os_scope(mac: bool, linux: bool) -> (r: Option<String>)
    ensures
        r.deep_view() == (if mac {
            Some("mac"@)
        } else if linux {
            Some("linux"@)
        } else {
            None
        }),
{
    if mac {
        Some("mac".to_owned())
    } else if linux {
        Some("linux".to_owned())
    } else {
        None
    }
}

/// The home-relative names of the paths that are under the home base, in order.
pub open spec fn relative_names(paths: Seq<Seq<char>>, home: Seq<char>) -> Seq<Seq<char>>
    decreases paths.len(),
{
    if paths.len() == 0 {
        seq![]
    } else {
        match path::stripped(paths.last(), home) {
            Some(rel) => relative_names(paths.drop_last(), home).push(
                text::replace_char(rel, '\\', '/'),
            ),
            None => relative_names(paths.drop_last(), home),
        }
    }
}

/// The home-relative names of the paths that are under the home base, in order.
pub fn names_under(paths: &Vec<String>, home: &str) -> (r: Vec<String>)
    ensures
        r.deep_view() == relative_names(paths.deep_view(), home@),
{
    let ghost all = paths.deep_view();
    let mut r: Vec<String> = Vec::new();
    let mut i: usize = 0;
    assert(r.deep_view() =~= relative_names(all.take(0), home@));
    while i < paths.len()
        invariant
            i <= paths@.len(),
            all == paths.deep_view(),
            r.deep_view() == relative_names(all.take(i as int), home@),
        decreases paths@.len() - i,
    {
        let ghost before = r.deep_view();
        assert(all.take(i + 1).drop_last() =~= all.take(i as int));
        assert(all.take(i + 1).last() == paths@[i as int]@);
        if let Some(rel) = path::strip_prefix(paths[i].as_str(), home) {
            let name = text::replace_chars(rel.as_str(), '\\', '/');
            r.push(name);
            assert(r.deep_view() =~= before.push(name@));
        }
        i += 1;
    }
    assert(all.take(i as int) =~= all);
    r
}

/// The group name that is suggested for paths: from their home-relative names,
/// or from what was typed where none of them is under the home base.
pub fn suggestion(relative: &Vec<String>, typed: &Vec<String>) -> (r: String)
    ensures
        r@ == text::unicode_lower(
            group::suggestion_stem(
                text::texts(
                    if relative@.len() == 0 {
                        typed@
                    } else {
                        relative@
                    },
                ),
            ),
        ),
{
    if relative.len() == 0 {
        group::suggest_group_name(typed.as_slice())
    } else {
        group::suggest_group_name(relative.as_slice())
    }
}

/// Take a group name as it was given: trimmed, and refused when it is not valid
/// or is a mapping's.
pub fn accept_group(name: &str, mappings: &MappingsFile) -> (r: Result<String, Error>)
    ensures
        match r {
            Ok(n) => group_refusal(name@, mappings@.mappings) is None && n@ == text::trim(name@),
            Err(e) => group_refusal(name@, mappings@.mappings) == Some(e@),
        },
{
    match check_group_name(name, mappings) {
        Ok(_) => Ok(text::trim_text(name)),
        Err(e) => Err(e),
    }
}

/// Whether a group of that name exists, so that adopting merges into it.
pub fn merges(mappings: &MappingsFile, group: &str) -> (r: bool)
    ensures
        r == mapping::has_group(mappings@.mappings, group@),
{
    proof {
        group::law_groups_are_the_labels(mappings@);
    }
    text::list_has(&mappings.groups(), group)
}

/// Why a path cannot be adopted as that mapping into that group: a name is
/// either a group's or a mapping's, not both.
pub open spec fn name_refusal(name: Seq<char>, group: Seq<char>, s: Seq<MappingView>) -> Option<
    ErrorView,
> {
    if mapping::has_group(s, name) {
        Some(ErrorView::NameIsGroup { name })
    } else if name == group {
        Some(ErrorView::NameIsOwnGroup { name })
    } else {
        None
    }
}

/// Refuse a mapping name that is a group's, or that would become one with the
/// group it is adopted into.
pub fn check_mapping_name(name: &str, group: &str, mappings: &MappingsFile) -> (r: Result<(), Error>)
    ensures
        match r {
            Ok(_) => name_refusal(name@, group@, mappings@.mappings) is None,
            Err(e) => name_refusal(name@, group@, mappings@.mappings) == Some(e@),
        },
{
    match group::ensure_free_of_group(name, mappings) {
        Ok(_) => {},
        Err(e) => return Err(e),
    }
    if text::same(name, group) {
        Err(Error::NameIsOwnGroup { name: name.to_owned() })
    } else {
        Ok(())
    }
}

/// The group that paths are adopted into: the one that was given, trimmed; else
/// `None` where the user is asked; else the suggested one. Every mapping belongs
/// to a group.
pub open spec fn group_to_use(
    given: Option<Seq<char>>,
    asking: bool,
    suggested: Seq<char>,
    s: Seq<MappingView>,
) -> Result<Option<Seq<char>>, ErrorView> {
    match given {
        Some(g) => match group_refusal(g, s) {
            Some(e) => Err(e),
            None => Ok(Some(text::trim(g))),
        },
        None => if asking {
            Ok(None)
        } else {
            match group_refusal(suggested, s) {
                Some(e) => Err(e),
                None => Ok(Some(suggested)),
            }
        },
    }
}

/// The group that paths are adopted into; `None` when the user is to be asked.
pub fn resolve_group(
    given: &Option<String>,
    asking: bool,
    suggested: &str,
    mappings: &MappingsFile,
) -> (r: Result<Option<String>, Error>)
    ensures
        match r {
            Ok(g) => group_to_use(given.deep_view(), asking, suggested@, mappings@.mappings) == Ok::<
                Option<Seq<char>>,
                ErrorView,
            >(g.deep_view()),
            Err(e) => group_to_use(given.deep_view(), asking, suggested@, mappings@.mappings)
                == Err::<Option<Seq<char>>, ErrorView>(e@),
        },
{
    match given {
        Some(g) => match accept_group(g.as_str(), mappings) {
            Ok(name) => Ok(Some(name)),
            Err(e) => Err(e),
        },
        None => if asking {
            Ok(None)
        } else {
            match check_group_name(suggested, mappings) {
                Ok(_) => Ok(Some(suggested.to_owned())),
                Err(e) => Err(e),
            }
        },
    }
}

/// What adopting a path into a group comes to, where `s` are the mappings so far
/// and `existing` the names of those before the command.
pub open spec fn path_adoption(
    cfg: ConfigView,
    s: Seq<MappingView>,
    target: Seq<char>,
    os_scope: Option<Seq<char>>,
    group: Seq<char>,
    existing: Seq<Seq<char>>,
    dry_run: bool,
    facts: AdoptFactsView,
) -> Result<(MappingView, DecisionView), ErrorView> {
    match apply::adopt_name(cfg, target) {
        Err(e) => Err(e),
        Ok(name) => match name_refusal(name, group, s) {
            Some(e) => Err(e),
            None => apply::adoption(cfg, target, os_scope, Some(group), existing, dry_run, facts),
        },
    }
}

/// Adopt a path into a group, unless its name is a group's.
pub fn adopt_into(
    cfg: &Config,
    mappings: &MappingsFile,
    abs_target: &str,
    os_scope: &Option<String>,
    group: &str,
    existing: &Vec<String>,
    dry_run: bool,
    facts: &AdoptFacts,
) -> (r: Result<(Mapping, Decision), Error>)
    ensures
        path_adoption(
            cfg@,
            mappings@.mappings,
            abs_target@,
            os_scope.deep_view(),
            group@,
            existing.deep_view(),
            dry_run,
            facts@,
        ) == (match r {
            Ok((m, d)) => Ok::<(MappingView, DecisionView), ErrorView>((m@, d@)),
            Err(e) => Err::<(MappingView, DecisionView), ErrorView>(e@),
        }),
{
    let name = match apply::mapping_name_for(cfg, abs_target) {
        Ok(name) => name,
        Err(e) => return Err(e),
    };
    match check_mapping_name(name.as_str(), group, mappings) {
        Ok(_) => {},
        Err(e) => return Err(e),
    }
    let label: Option<String> = Some(group.to_owned());
    apply::adopt(cfg, abs_target, os_scope, &label, existing, dry_run, facts)
}

/// The names of the mappings, in order.
pub open spec fn names_of(s: Seq<MappingView>) -> Seq<Seq<char>> {
    s.map_values(|m: MappingView| m.name)
}

/// The names of the mappings, in order.
pub fn mapping_names(mappings: &MappingsFile) -> (r: Vec<String>)
    ensures
        r.deep_view() == names_of(mappings@.mappings),
{
    let ghost all = names_of(mappings@.mappings);
    let mut r: Vec<String> = Vec::new();
    let mut i: usize = 0;
    assert(r.deep_view() =~= all.take(0));
    while i < mappings.mappings.len()
        invariant
            i <= mappings.mappings@.len(),
            all == names_of(mappings@.mappings),
            r.deep_view() == all.take(i as int),
        decreases mappings.mappings@.len() - i,
    {
        let ghost before = r.deep_view();
        r.push(mappings.mappings[i].name.clone());
        assert(mappings@.mappings[i as int] == mappings.mappings@[i as int]@);
        assert(r.deep_view() =~= before.push(all[i as int]));
        assert(all.take(i + 1) =~= all.take(i as int).push(all[i as int]));
        i += 1;
    }
    assert(all.take(i as int) =~= all);
    r
}

// ---------------------------------------------------------------------------
// Adopting several paths
// ---------------------------------------------------------------------------

/// Adopting paths one after the other: the names of the mappings before, the
/// mappings as they are by now, and what was reported so far. A path that fails
/// is reported like any other and never stops the rest.
#[derive(Debug)]
pub struct Adopting {
    pub existing: Vec<String>,
    pub mappings: MappingsFile,
    pub outcomes: Vec<Outcome>,
    /// Whether some path was not refused.
    pub attempted: bool,
    /// Why the first path that was refused was.
    pub refusal: Option<Error>,
}

/// What that holds.
#[verifier::ext_equal]
pub struct AdoptingView {
    pub existing: Seq<Seq<char>>,
    pub mappings: MappingsView,
    pub outcomes: Seq<OutcomeView>,
    pub attempted: bool,
    pub refusal: Option<ErrorView>,
}

impl View for Adopting {
    type V = AdoptingView;

    open spec fn view(&self) -> AdoptingView {
        AdoptingView {
            existing: self.existing.deep_view(),
            mappings: self.mappings@,
            outcomes: self.outcomes.deep_view(),
            attempted: self.attempted,
            refusal: match self.refusal {
                Some(e) => Some(e@),
                None => None,
            },
        }
    }
}

/// What a path that is refused is reported as: by its mapping name where it has
/// one.
pub open spec fn refused_outcome(cfg: ConfigView, target: Seq<char>, e: ErrorView) -> OutcomeView {
    script::outcome(
        match apply::adopt_name(cfg, target) {
            Ok(name) => name,
            Err(_) => target,
        },
        "error"@,
        false,
        e.text(),
    )
}

impl AdoptingView {
    /// The same once a path was carried out: its mapping is recorded exactly when
    /// that went well.
    pub open spec fn settled(self, m: MappingView, o: OutcomeView) -> AdoptingView {
        AdoptingView {
            mappings: MappingsView {
                version: self.mappings.version,
                mappings: if o.ok {
                    mapping::upserted(self.mappings.mappings, m)
                } else {
                    self.mappings.mappings
                },
            },
            outcomes: self.outcomes.push(o),
            attempted: true,
            ..self
        }
    }

    /// What adopting one more path comes to: it may overlap with no mapping that was
    /// there before, and its name may be no group's by now.
    pub open spec fn decision(
        self,
        cfg: ConfigView,
        target: Seq<char>,
        os_scope: Option<Seq<char>>,
        group: Seq<char>,
        dry_run: bool,
        facts: AdoptFactsView,
    ) -> Result<(MappingView, DecisionView), ErrorView> {
        path_adoption(
            cfg,
            self.mappings.mappings,
            target,
            os_scope,
            group,
            self.existing,
            dry_run,
            facts,
        )
    }

    /// Why the whole fails: the first refusal, where no path came to anything else.
    pub open spec fn failed(self) -> Option<Seq<char>> {
        match self.refusal {
            Some(e) => if self.attempted {
                None
            } else {
                Some(e.text())
            },
            None => None,
        }
    }

    /// The document to write once every path was dealt with, unless this is a dry
    /// run.
    pub open spec fn written(self, dry_run: bool) -> Option<MappingsView> {
        if dry_run {
            None
        } else {
            Some(self.mappings.saved())
        }
    }

    /// The same once a path was refused.
    pub open spec fn refused(self, cfg: ConfigView, target: Seq<char>, e: ErrorView) -> AdoptingView {
        AdoptingView {
            outcomes: self.outcomes.push(refused_outcome(cfg, target, e)),
            refusal: match self.refusal {
                Some(first) => Some(first),
                None => Some(e),
            },
            ..self
        }
    }
}

/// The beginning of adopting paths into a document.
pub open spec fn sweep_of(d: MappingsView) -> AdoptingView {
    AdoptingView {
        existing: names_of(d.mappings),
        mappings: d,
        outcomes: seq![],
        attempted: false,
        refusal: None,
    }
}

/// Begin to adopt paths.
pub fn adopting(mappings: MappingsFile) -> (r: Adopting)
    ensures
        r@ == sweep_of(mappings@),
{
    let existing = mapping_names(&mappings);
    let r = Adopting { existing, mappings, outcomes: Vec::new(), attempted: false, refusal: None };
    assert(r@.outcomes =~= Seq::<OutcomeView>::empty());
    r
}

impl Adopting {
    /// What adopting the next path comes to.
    pub fn decide(
        &self,
        cfg: &Config,
        abs_target: &str,
        os_scope: &Option<String>,
        group: &str,
        dry_run: bool,
        facts: &AdoptFacts,
    ) -> (r: Result<(Mapping, Decision), Error>)
        ensures
            self@.decision(
                cfg@,
                abs_target@,
                os_scope.deep_view(),
                group@,
                dry_run,
                facts@,
            ) == (match r {
                Ok((m, d)) => Ok::<(MappingView, DecisionView), ErrorView>((m@, d@)),
                Err(e) => Err::<(MappingView, DecisionView), ErrorView>(e@),
            }),
    {
        adopt_into(
            cfg,
            &self.mappings,
            abs_target,
            os_scope,
            group,
            &self.existing,
            dry_run,
            facts,
        )
    }

    /// Take up how a path ended that was decided on.
    pub fn settle(&mut self, mapping: Mapping, outcome: Outcome)
        ensures
            final(self)@ == old(self)@.settled(mapping@, outcome@),
    {
        let ghost before = self@;
        if outcome.ok {
            self.mappings.upsert(mapping);
        }
        self.outcomes.push(outcome);
        self.attempted = true;
        proof {
            assert(self@.outcomes =~= before.outcomes.push(outcome@));
            assert(self@ =~= before.settled(mapping@, outcome@));
        }
    }

    /// Take up that a path was refused.
    pub fn refuse(&mut self, cfg: &Config, abs_target: &str, error: Error)
        ensures
            final(self)@ == old(self)@.refused(cfg@, abs_target@, error@),
    {
        let ghost before = self@;
        let name = match apply::mapping_name_for(cfg, abs_target) {
            Ok(name) => name,
            Err(_) => abs_target.to_owned(),
        };
        let outcome = Outcome::new(name.as_str(), "error", false, error.message().as_str());
        self.outcomes.push(outcome);
        if self.refusal.is_none() {
            self.refusal = Some(error);
        }
        proof {
            assert(self@.outcomes =~= before.outcomes.push(
                refused_outcome(cfg@, abs_target@, error@),
            ));
            assert(self@ =~= before.refused(cfg@, abs_target@, error@));
        }
    }

    /// Why the command could not run at all: every path was refused. The first
    /// refusal is the reason.
    pub fn failure(&self) -> (r: Option<String>)
        ensures
            r.deep_view() == self@.failed(),
    {
        match &self.refusal {
            Some(e) => if self.attempted {
                None
            } else {
                Some(e.message())
            },
            None => None,
        }
    }

    /// The document to write once every path has ended, unless this is a dry run.
    pub fn document(&self, dry_run: bool) -> (r: Option<MappingsFile>)
        ensures
            match r {
                Some(file) => self@.written(dry_run) == Some(file@),
                None => self@.written(dry_run) is None,
            },
    {
        if dry_run {
            None
        } else {
            Some(self.mappings.save())
        }
    }
}

// ---------------------------------------------------------------------------
// Ranking groups
// ---------------------------------------------------------------------------

/// The greater of two numbers.
pub open spec fn greater(a: nat, b: nat) -> nat {
    if a > b {
        a
    } else {
        b
    }
}

/// The deepest directory that a name shares with one of the paths.
pub open spec fn depth_with(name: Seq<char>, paths: Seq<Seq<char>>) -> nat
    decreases paths.len(),
{
    if paths.len() == 0 {
        0
    } else {
        greater(
            depth_with(name, paths.drop_last()),
            group::shared_len(group::dirs(name), group::dirs(paths.last())),
        )
    }
}

/// The deepest directory that a member of the group shares with one of the
/// paths.
pub open spec fn group_depth(s: Seq<MappingView>, group: Seq<char>, paths: Seq<Seq<char>>) -> nat
    decreases s.len(),
{
    if s.len() == 0 {
        0
    } else {
        let front = group_depth(s.drop_last(), group, paths);
        if s.last().group == Some(group) {
            greater(front, depth_with(s.last().name, paths))
        } else {
            front
        }
    }
}

fn depth(name: &str, paths: &Vec<String>) -> (r: usize)
    ensures
        r == depth_with(name@, paths.deep_view()),
{
    let ghost all = paths.deep_view();
    let mut best: usize = 0;
    let mut i: usize = 0;
    assert(all.take(0) =~= Seq::<Seq<char>>::empty());
    while i < paths.len()
        invariant
            i <= paths@.len(),
            all == paths.deep_view(),
            best == depth_with(name@, all.take(i as int)),
        decreases paths@.len() - i,
    {
        assert(all.take(i + 1).drop_last() =~= all.take(i as int));
        assert(all.take(i + 1).last() == paths@[i as int]@);
        let d = group::shared_dir_depth(name, paths[i].as_str());
        if d > best {
            best = d;
        }
        i += 1;
    }
    assert(all.take(i as int) =~= all);
    best
}

fn depth_of_group(mappings: &MappingsFile, group: &str, paths: &Vec<String>) -> (r: usize)
    ensures
        r == group_depth(mappings@.mappings, group@, paths.deep_view()),
{
    let ghost all = mappings@.mappings;
    let mut best: usize = 0;
    let mut i: usize = 0;
    assert(all.take(0) =~= Seq::<MappingView>::empty());
    while i < mappings.mappings.len()
        invariant
            i <= mappings.mappings@.len(),
            all == mappings.mappings.deep_view(),
            best == group_depth(all.take(i as int), group@, paths.deep_view()),
        decreases mappings.mappings@.len() - i,
    {
        let m = &mappings.mappings[i];
        assert(all.take(i + 1).drop_last() =~= all.take(i as int));
        assert(all.take(i + 1).last() == m@);
        if text::is_label(&m.group, group) {
            let d = depth(m.name.as_str(), paths);
            if d > best {
                best = d;
            }
        }
        i += 1;
    }
    assert(all.take(i as int) =~= all);
    best
}

/// A group with how deep it goes, put into a list that has the deepest first,
/// behind those that go as deep.
pub open spec fn placed_deepest(sorted: Seq<(Seq<char>, nat)>, g: (Seq<char>, nat)) -> Seq<
    (Seq<char>, nat),
>
    decreases sorted.len(),
{
    if sorted.len() == 0 || sorted.last().1 >= g.1 {
        sorted.push(g)
    } else {
        placed_deepest(sorted.drop_last(), g).push(sorted.last())
    }
}

/// The groups with how deep they go, the deepest first; of those that go as
/// deep, the order stays.
pub open spec fn deepest_first(
    s: Seq<MappingView>,
    groups: Seq<Seq<char>>,
    paths: Seq<Seq<char>>,
) -> Seq<(Seq<char>, nat)>
    decreases groups.len(),
{
    if groups.len() == 0 {
        seq![]
    } else {
        placed_deepest(
            deepest_first(s, groups.drop_last(), paths),
            (groups.last(), group_depth(s, groups.last(), paths)),
        )
    }
}

/// The groups to choose from when adopting, and which of them is the default.
#[derive(Debug)]
pub struct GroupChoice {
    pub groups: Vec<String>,
    /// The index of the default; that behind the last group stands for a new
    /// one.
    pub default: usize,
}

struct Ranked {
    pub groups: Vec<String>,
    pub depths: Vec<usize>,
}

impl Ranked {
    spec fn is(&self, s: Seq<(Seq<char>, nat)>) -> bool {
        &&& self.groups@.len() == s.len()
        &&& self.depths@.len() == s.len()
        &&& forall|i: int|
            0 <= i < s.len() ==> #[trigger] s[i] == (self.groups@[i]@, self.depths@[i] as nat)
    }
}

fn place(ranked: &mut Ranked, g: String, d: usize, Ghost(s): Ghost<Seq<(Seq<char>, nat)>>)
    requires
        old(ranked).is(s),
    ensures
        final(ranked).is(placed_deepest(s, (g@, d as nat))),
{
    let ghost new = (g@, d as nat);
    let mut k: usize = ranked.groups.len();
    assert(s.take(k as int) =~= s);
    assert(placed_deepest(s, new) =~= placed_deepest(s.take(k as int), new) + s.skip(k as int));
    while k > 0 && ranked.depths[k - 1] < d
        invariant
            k <= s.len(),
            ranked.is(s),
            new == (g@, d as nat),
            placed_deepest(s, new) == placed_deepest(s.take(k as int), new) + s.skip(k as int),
        decreases k,
    {
        proof {
            let part = s.take(k as int);
            assert(part.last() == s[k - 1]);
            assert(part.drop_last() =~= s.take(k - 1));
            assert(placed_deepest(part, new) + s.skip(k as int) =~= placed_deepest(
                s.take(k - 1),
                new,
            ) + s.skip(k - 1));
        }
        k -= 1;
    }
    proof {
        let part = s.take(k as int);
        if k > 0 {
            assert(part.last() == s[k - 1]);
        }
        assert(placed_deepest(part, new) =~= part.push(new));
        assert(s.insert(k as int, new) =~= part.push(new) + s.skip(k as int));
    }
    ranked.groups.insert(k, g);
    ranked.depths.insert(k, d);
    proof {
        let out = s.insert(k as int, new);
        assert forall|i: int| 0 <= i < out.len() implies #[trigger] out[i] == (
            ranked.groups@[i]@,
            ranked.depths@[i] as nat,
        ) by {
            if i < k {
                assert(out[i] == s[i]);
            } else if i > k {
                assert(out[i] == s[i - 1]);
            }
        }
    }
}

/// The groups to choose from, those that share most with the paths first, and which
/// of them is offered: the first if it shares anything, else none of them.
pub open spec fn group_choice(d: MappingsView, paths: Seq<Seq<char>>) -> (Seq<Seq<char>>, nat) {
    let order = deepest_first(d.mappings, d.group_names(), paths);
    (
        order.map_values(|g: (Seq<char>, nat)| g.0),
        if order.len() > 0 && order[0].1 > 0 {
            0
        } else {
            order.len()
        },
    )
}

/// The existing groups to choose from, ordered by the deepest directory that
/// they share with the paths being adopted, so that a sibling's group comes
/// first and is the default. When nothing shares a directory, a new group is.
pub fn rank_groups(mappings: &MappingsFile, paths: &Vec<String>) -> (r: GroupChoice)
    ensures
        (r.groups.deep_view(), r.default as nat) == group_choice(mappings@, paths.deep_view()),
{
    let names = mappings.groups();
    let ghost s = mappings@.mappings;
    let ghost all = names.deep_view();
    let ghost ps = paths.deep_view();
    let mut ranked = Ranked { groups: Vec::new(), depths: Vec::new() };
    let mut i: usize = 0;
    assert(all.take(0) =~= Seq::<Seq<char>>::empty());
    while i < names.len()
        invariant
            i <= names@.len(),
            all == names.deep_view(),
            s == mappings@.mappings,
            ps == paths.deep_view(),
            ranked.is(deepest_first(s, all.take(i as int), ps)),
        decreases names@.len() - i,
    {
        proof {
            assert(all.take(i + 1).drop_last() =~= all.take(i as int));
            assert(all.take(i + 1).last() == names@[i as int]@);
        }
        let d = depth_of_group(mappings, names[i].as_str(), paths);
        place(
            &mut ranked,
            names[i].clone(),
            d,
            Ghost(deepest_first(s, all.take(i as int), ps)),
        );
        i += 1;
    }
    assert(all.take(i as int) =~= all);
    let ghost order = deepest_first(s, all, ps);
    let default: usize = if ranked.groups.len() > 0 && ranked.depths[0] > 0 {
        0
    } else {
        ranked.groups.len()
    };
    proof {
        if order.len() > 0 {
            assert(order[0] == (ranked.groups@[0]@, ranked.depths@[0] as nat));
        }
        assert forall|k: int| 0 <= k < order.len() implies ranked.groups.deep_view()[k]
            == #[trigger] order[k].0 by {}
        assert(ranked.groups.deep_view() =~= order.map_values(|g: (Seq<char>, nat)| g.0));
    }
    GroupChoice { groups: ranked.groups, default }
}

/// The sync folder to use where nobody can be asked: the only one there is.
pub open spec fn unasked_pick(candidates: Seq<CandidateView>) -> Result<Seq<char>, ErrorView> {
    let paths = discovery::existing_paths(candidates);
    if paths.len() == 1 {
        Ok(paths[0])
    } else if paths.len() == 0 {
        Err(ErrorView::NoCloudFolder)
    } else {
        Err(ErrorView::SeveralCloudFolders { paths: text::join(paths, ", "@) })
    }
}

/// The sync folder to use without asking: the only candidate that exists. None
/// and several are refused; a folder is never created unasked.
pub fn pick_unasked(candidates: &Vec<Candidate>) -> (r: Result<String, Error>)
    ensures
        unasked_pick(candidates.deep_view()) == (match r {
            Ok(p) => Ok::<Seq<char>, ErrorView>(p@),
            Err(e) => Err::<Seq<char>, ErrorView>(e@),
        }),
{
    let paths = discovery::list_existing(candidates);
    assert(paths.deep_view().len() == paths@.len());
    if paths.len() == 1 {
        let r = paths[0].clone();
        assert(paths.deep_view() =~= seq![r@]);
        return Ok(r);
    }
    if paths.len() == 0 {
        return Err(Error::NoCloudFolder);
    }
    assert(text::texts(paths@) =~= paths.deep_view());
    Err(Error::SeveralCloudFolders { paths: text::join_text(paths.as_slice(), ", ") })
}

} // verus!
