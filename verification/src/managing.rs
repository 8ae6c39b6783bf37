//! What managing promises: which group names are refused, what renaming and moving
//! change, what adopting several paths leaves behind, and who is asked when.
use vstd::prelude::*;
use vstd::string::*;

use crate::apply;
use crate::apply::AdoptFactsView;
use crate::config::ConfigView;
use crate::discovery;
use crate::discovery::CandidateView;
use crate::document;
use crate::error::ErrorView;
use crate::group;
use crate::journal::UndoView;
use crate::manage;
use crate::manage::{AdoptingView, ConsentView};
use crate::mapping;
use crate::mapping::{MappingView, MappingsView, OnConflict};
use crate::path;
use crate::plan::ItemView;
use crate::script::{DecisionView, OutcomeView};
use crate::select;
use crate::text;

verus! {

// ---------------------------------------------------------------------------
// Groups
// ---------------------------------------------------------------------------

/// A group name is refused exactly when, but for the white space around it, it is
/// empty, holds a slash, begins with a dot, or is a mapping's name.
pub proof fn law_a_group_name_is_refused_exactly(name: Seq<char>, s: Seq<MappingView>)
    ensures
        ({
            let n = text::trim(name);
            &&& manage::group_refusal(name, s) is Some <==> n.len() == 0 || n.contains('/') || n[0]
                == '.' || exists|i: int| 0 <= i < s.len() && (#[trigger] s[i]).name == n
            &&& n.len() == 0 <==> manage::group_refusal(name, s) == Some(ErrorView::GroupNameEmpty)
        }),
{
}

/// Renaming a group moves every member, and no other mapping, to the new name; all
/// else stays as it is, in its place. It is refused exactly when the new name is, or
/// when there is no member.
pub proof fn law_renaming_moves_the_members_alone(
    d: MappingsView,
    old_name: Seq<char>,
    typed: Seq<char>,
    member: spec_fn(MappingView) -> bool,
)
    requires
        forall|m: MappingView| #[trigger] member(m) == (m.group == Some(old_name)),
    ensures
        ({
            let name = text::trim(typed);
            let before = d.mappings;
            &&& manage::renaming(d, old_name, typed) is Ok <==> manage::group_refusal(name, before)
                is None && exists|i: int|
                0 <= i < before.len() && (#[trigger] before[i]).group == Some(old_name)
            &&& manage::renaming(d, old_name, typed) matches Ok((end, moved, merged)) ==> {
                &&& end.version == d.version
                &&& end.mappings.len() == before.len()
                &&& moved == before.filter(member).len()
                &&& merged <==> exists|i: int|
                    0 <= i < before.len() && (#[trigger] before[i]).group == Some(name)
                &&& forall|i: int|
                    0 <= i < before.len() ==> (#[trigger] end.mappings[i]) == (MappingView {
                        group: if before[i].group == Some(old_name) {
                            Some(name)
                        } else {
                            before[i].group
                        },
                        ..before[i]
                    })
            }
            &&& manage::renaming(d, old_name, typed) matches Err(e) ==> e == (
            match manage::group_refusal(name, before) {
                Some(why) => why,
                None => ErrorView::NoSuchGroup { name: old_name },
            })
        }),
{
    law_members_are_those_of_the_group(d.mappings, old_name, member);
    lemma_some_member(d.mappings, old_name, member);
}

proof fn lemma_some_member(
    s: Seq<MappingView>,
    name: Seq<char>,
    member: spec_fn(MappingView) -> bool,
)
    requires
        forall|m: MappingView| #[trigger] member(m) == (m.group == Some(name)),
    ensures
        s.filter(member).len() > 0 <==> exists|i: int|
            0 <= i < s.len() && (#[trigger] s[i]).group == Some(name),
    decreases s.len(),
{
    reveal(Seq::filter);
    if s.len() > 0 {
        let front = s.drop_last();
        lemma_some_member(front, name, member);
        assert(s[s.len() - 1] == s.last());
        if front.filter(member).len() > 0 {
            let i = choose|i: int| 0 <= i < front.len() && (#[trigger] front[i]).group == Some(name);
            assert(s[i].group == Some(name));
        } else {
            assert forall|i: int| 0 <= i < front.len() implies (#[trigger] s[i]).group != Some(
                name,
            ) by {
                assert(front[i] == s[i]);
            }
        }
    }
}

/// The members of a group, and how many they are, are the mappings with its label,
/// in order.
pub proof fn law_members_are_those_of_the_group(
    s: Seq<MappingView>,
    name: Seq<char>,
    member: spec_fn(MappingView) -> bool,
)
    requires
        forall|m: MappingView| #[trigger] member(m) == (m.group == Some(name)),
    ensures
        manage::group_size(s, name) == s.filter(member).len(),
        manage::member_names(s, name) == s.filter(member).map_values(|m: MappingView| m.name),
    decreases s.len(),
{
    reveal(Seq::filter);
    if s.len() > 0 {
        law_members_are_those_of_the_group(s.drop_last(), name, member);
    }
    assert(manage::member_names(s, name) =~= s.filter(member).map_values(|m: MappingView| m.name));
}

/// Moving a mapping puts it into the group, and no other; all else stays as it is,
/// in its place. It is refused exactly when the group's name is, or when no mapping
/// has the name.
pub proof fn law_moving_moves_that_mapping_alone(
    d: MappingsView,
    name: Seq<char>,
    typed: Seq<char>,
)
    ensures
        ({
            let label = text::trim(typed);
            let before = d.mappings;
            &&& manage::moving(d, name, typed) is Ok <==> manage::group_refusal(label, before)
                is None && exists|i: int|
                0 <= i < before.len() && (#[trigger] before[i]).name == name
            &&& manage::moving(d, name, typed) matches Ok((end, created)) ==> {
                &&& end.version == d.version
                &&& end.mappings.len() == before.len()
                &&& !created <==> exists|i: int|
                    0 <= i < before.len() && (#[trigger] before[i]).group == Some(label)
                &&& forall|i: int|
                    0 <= i < before.len() ==> (#[trigger] end.mappings[i]) == (MappingView {
                        group: if before[i].name == name {
                            Some(label)
                        } else {
                            before[i].group
                        },
                        ..before[i]
                    })
            }
            &&& manage::moving(d, name, typed) matches Err(e) ==> e == (match manage::group_refusal(
                label,
                before,
            ) {
                Some(why) => why,
                None => ErrorView::NoSuchMapping { name },
            })
        }),
{
}

/// How many items a group's removal restores here are those whose symlink is here,
/// whether or not the sync copy is.
pub proof fn law_linked_here_counts_the_symlinks(
    items: Seq<ItemView>,
    keep: spec_fn(ItemView) -> bool,
)
    requires
        forall|i: ItemView| #[trigger] keep(i) == (i.state is Linked || i.state is DanglingSelf),
    ensures
        manage::linked_here(items) == items.filter(keep).len(),
    decreases items.len(),
{
    reveal(Seq::filter);
    if items.len() > 0 {
        law_linked_here_counts_the_symlinks(items.drop_last(), keep);
    }
}

/// Letting the cloud copy win changes the conflict policy of every mapping and
/// nothing else.
pub proof fn law_overriding_changes_the_policy_alone(s: Seq<MappingView>, i: int)
    requires
        0 <= i < s.len(),
    ensures
        manage::overridden(s).len() == s.len(),
        manage::overridden(s)[i] == (MappingView { on_conflict: OnConflict::Adopt, ..s[i] }),
{
}

// ---------------------------------------------------------------------------
// Consent
// ---------------------------------------------------------------------------

/// A change on every machine is made without asking exactly in a dry run or when it
/// was agreed to beforehand; else it is refused where nobody can be asked, and asked
/// about where somebody can.
pub proof fn law_consent_is_given_asked_or_refused(
    dry_run: bool,
    yes: bool,
    json: bool,
    interactive: bool,
    refusal: ErrorView,
    question: Seq<char>,
)
    ensures
        ({
            let c = manage::consent_for(dry_run, yes, json, interactive, refusal, question);
            &&& c is Given <==> dry_run || yes
            &&& c is Ask <==> !dry_run && !yes && !json && interactive
            &&& c is Refused <==> !dry_run && !yes && (json || !interactive)
            &&& c matches ConsentView::Ask(q) ==> q == question
            &&& c matches ConsentView::Refused(e) ==> e == refusal
        }),
{
}

/// Creating a folder is asked about exactly when it is not there and somebody can
/// be asked, and never refused.
pub proof fn law_creating_is_asked_about_where_it_can_be(
    dir: Seq<char>,
    exists_already: bool,
    json: bool,
    interactive: bool,
)
    ensures
        manage::creation_consent(dir, exists_already, json, interactive) is Ask <==> !exists_already
            && !json && interactive,
        !(manage::creation_consent(dir, exists_already, json, interactive) is Refused),
{
}

/// The picker opens exactly when nothing is selected, nothing overrides the policy,
/// nothing is to be printed for a program or only tried, and somebody can choose.
pub proof fn law_the_picker_opens_only_for_a_person(
    names: nat,
    all: bool,
    json: bool,
    dry_run: bool,
    adopt: bool,
    interactive: bool,
)
    ensures
        select::picker_opens(names, all, json, dry_run, adopt, interactive) <==> !(names > 0 || all
            || json || dry_run || adopt || !interactive),
{
}

// ---------------------------------------------------------------------------
// Adopting
// ---------------------------------------------------------------------------

/// A mapping's name is refused exactly when it is the name of a group, its own or
/// another.
pub proof fn law_a_mapping_name_is_refused_beside_groups(
    name: Seq<char>,
    label: Seq<char>,
    s: Seq<MappingView>,
)
    ensures
        manage::name_refusal(name, label, s) is Some <==> name == label || exists|i: int|
            0 <= i < s.len() && (#[trigger] s[i]).group == Some(name),
{
}

/// Adopting a path into a group is what adopting the path is, with that group,
/// unless its name is refused.
pub proof fn law_adopting_into_a_group_is_adopting(
    cfg: ConfigView,
    s: Seq<MappingView>,
    target: Seq<char>,
    os_scope: Option<Seq<char>>,
    label: Seq<char>,
    existing: Seq<Seq<char>>,
    dry_run: bool,
    facts: AdoptFactsView,
)
    ensures
        ({
            let r = manage::path_adoption(
                cfg,
                s,
                target,
                os_scope,
                label,
                existing,
                dry_run,
                facts,
            );
            let plain = apply::adoption(
                cfg,
                target,
                os_scope,
                Some(label),
                existing,
                dry_run,
                facts,
            );
            let name = apply::adopt_name(cfg, target);
            &&& r is Ok ==> r == plain
            &&& r is Err <==> plain is Err || (name matches Ok(n) && manage::name_refusal(n, label, s)
                is Some)
            &&& r matches Ok((m, d)) ==> m.group == Some(label)
        }),
{
}

/// The group that paths are adopted into: the given one if it may be a group's name,
/// the one that is still to be asked for, or the suggested one if it may be one.
pub proof fn law_the_group_to_use(
    given: Option<Seq<char>>,
    asking: bool,
    suggested: Seq<char>,
    s: Seq<MappingView>,
)
    ensures
        manage::group_to_use(given, asking, suggested, s) matches Ok(Some(g)) ==> g == (
        match given {
            Some(typed) => text::trim(typed),
            None => suggested,
        }) && (given is None ==> !asking),
        manage::group_to_use(given, asking, suggested, s) matches Ok(None) ==> given is None
            && asking,
        manage::group_to_use(given, asking, suggested, s) is Err <==> (match given {
            Some(typed) => manage::group_refusal(typed, s) is Some,
            None => !asking && manage::group_refusal(suggested, s) is Some,
        }),
{
}

/// A path that was adopted is in the document as its mapping, and one that was not
/// changes nothing there; either way all other names stand for what they stood for,
/// and its outcome is the last.
pub proof fn law_an_adopted_path_is_in_the_document(
    sweep: AdoptingView,
    m: MappingView,
    outcome: OutcomeView,
    cfg: ConfigView,
    target: Seq<char>,
    error: ErrorView,
    name: Seq<char>,
)
    ensures
        ({
            let end = sweep.settled(m, outcome);
            &&& outcome.ok ==> document::found(end.mappings.mappings, m.name) == Some(m)
            &&& !outcome.ok ==> end.mappings == sweep.mappings
            &&& name != m.name ==> document::found(end.mappings.mappings, name) == document::found(
                sweep.mappings.mappings,
                name,
            )
            &&& end.outcomes == sweep.outcomes.push(outcome)
            &&& end.attempted
            &&& end.existing == sweep.existing
            &&& end.refusal == sweep.refusal
            &&& end.failed() is None
        }),
        ({
            let end = sweep.refused(cfg, target, error);
            &&& end.mappings == sweep.mappings
            &&& end.attempted == sweep.attempted
            &&& end.existing == sweep.existing
            &&& end.outcomes.len() == sweep.outcomes.len() + 1
            &&& !end.outcomes.last().ok
            &&& end.outcomes.last().undo is None
            &&& end.outcomes.last().detail == error.text()
            &&& end.outcomes.drop_last() == sweep.outcomes
            &&& !sweep.attempted ==> end.failed() == Some(
                match sweep.refusal {
                    Some(first) => first.text(),
                    None => error.text(),
                },
            )
            &&& sweep.attempted ==> end.failed() is None
        }),
{
    document::law_upsert_then_find(sweep.mappings.mappings, m, name);
    let end = sweep.refused(cfg, target, error);
    assert(end.outcomes.drop_last() =~= sweep.outcomes);
}

/// Adopting begins with the whole document, knows the names that were in it, and
/// writes what every name stands for in the end, unless it is a dry run.
pub proof fn law_a_sweep_begins_and_ends_with_the_document(
    d: MappingsView,
    sweep: AdoptingView,
    dry_run: bool,
    name: Seq<char>,
)
    ensures
        manage::sweep_of(d).mappings == d,
        manage::sweep_of(d).outcomes.len() == 0,
        manage::sweep_of(d).failed() is None,
        !manage::sweep_of(d).attempted,
        manage::sweep_of(d).existing.contains(name) <==> exists|i: int|
            0 <= i < d.mappings.len() && (#[trigger] d.mappings[i]).name == name,
        sweep.written(true) is None,
        sweep.written(false) matches Some(doc) && document::found(doc.mappings, name)
            == document::found(sweep.mappings.mappings, name),
{
    let names = manage::names_of(d.mappings);
    if exists|i: int| 0 <= i < d.mappings.len() && (#[trigger] d.mappings[i]).name == name {
        let i = choose|i: int| 0 <= i < d.mappings.len() && (#[trigger] d.mappings[i]).name == name;
        assert(names[i] == name);
    }
    if names.contains(name) {
        let i = choose|i: int| 0 <= i < names.len() && names[i] == name;
        assert(d.mappings[i].name == name);
    }
    document::law_saved_document_reads_back(sweep.mappings, name);
    document::law_loading_keeps_the_first(sweep.mappings.saved(), name);
}

/// What can be undone of a command is what its outcomes recorded, all of it and in
/// order.
pub proof fn law_every_recorded_change_can_be_undone(outcomes: Seq<OutcomeView>)
    ensures
        manage::reversible(outcomes) == outcomes.filter_map(|o: OutcomeView| o.undo),
    decreases outcomes.len(),
{
    if outcomes.len() > 0 {
        law_every_recorded_change_can_be_undone(outcomes.drop_last());
        assert(manage::reversible(outcomes) =~= outcomes.filter_map(|o: OutcomeView| o.undo));
    } else {
        assert(manage::reversible(outcomes) =~= outcomes.filter_map(|o: OutcomeView| o.undo));
    }
}

/// The names that a group's suggestion is made from are those of the paths under
/// the home base, in order; a path elsewhere has none.
pub proof fn law_names_are_those_under_the_home_base(paths: Seq<Seq<char>>, home: Seq<char>)
    ensures
        manage::relative_names(paths, home) == paths.filter_map(
            |p: Seq<char>|
                match path::stripped(p, home) {
                    Some(rel) => Some(text::replace_char(rel, '\\', '/')),
                    None => None::<Seq<char>>,
                },
        ),
    decreases paths.len(),
{
    let f = |p: Seq<char>|
        match path::stripped(p, home) {
            Some(rel) => Some(text::replace_char(rel, '\\', '/')),
            None => None::<Seq<char>>,
        };
    if paths.len() > 0 {
        law_names_are_those_under_the_home_base(paths.drop_last(), home);
    }
    assert(manage::relative_names(paths, home) =~= paths.filter_map(f));
}

// ---------------------------------------------------------------------------
// Choosing a group
// ---------------------------------------------------------------------------

/// How much a group shares with paths is the most that a member shares with one of
/// them, counted in leading directories.
pub proof fn law_depth_is_the_most_that_is_shared(
    s: Seq<MappingView>,
    name: Seq<char>,
    paths: Seq<Seq<char>>,
)
    ensures
        forall|i: int, k: int|
            #![trigger s[i], paths[k]]
            0 <= i < s.len() && 0 <= k < paths.len() && s[i].group == Some(name)
                ==> group::shared_len(group::dirs(s[i].name), group::dirs(paths[k]))
                <= manage::group_depth(s, name, paths),
        manage::group_depth(s, name, paths) > 0 ==> exists|i: int, k: int|
            #![trigger s[i], paths[k]]
            0 <= i < s.len() && 0 <= k < paths.len() && s[i].group == Some(name)
                && group::shared_len(group::dirs(s[i].name), group::dirs(paths[k]))
                == manage::group_depth(s, name, paths),
    decreases s.len(),
{
    if s.len() > 0 {
        let front = s.drop_last();
        law_depth_is_the_most_that_is_shared(front, name, paths);
        lemma_depth_with(s.last().name, paths);
        let before = manage::group_depth(front, name, paths);
        let now = manage::group_depth(s, name, paths);
        assert(s[s.len() - 1] == s.last());
        assert forall|i: int, k: int|
            #![trigger s[i], paths[k]]
            0 <= i < s.len() && 0 <= k < paths.len() && s[i].group == Some(
                name,
            ) implies group::shared_len(group::dirs(s[i].name), group::dirs(paths[k])) <= now by {
            if i < front.len() {
                assert(front[i] == s[i]);
            }
        }
        if now > 0 {
            if s.last().group == Some(name) && manage::depth_with(s.last().name, paths) == now {
                let k = choose|k: int|
                    0 <= k < paths.len() && group::shared_len(
                        group::dirs(s.last().name),
                        group::dirs(#[trigger] paths[k]),
                    ) == now;
                assert(s[s.len() - 1].group == Some(name) && paths[k] == paths[k]);
            } else {
                let (i, k) = choose|i: int, k: int|
                    #![trigger front[i], paths[k]]
                    0 <= i < front.len() && 0 <= k < paths.len() && front[i].group == Some(name)
                        && group::shared_len(group::dirs(front[i].name), group::dirs(paths[k]))
                        == before;
                assert(s[i] == front[i]);
            }
        }
    }
}

proof fn lemma_depth_with(name: Seq<char>, paths: Seq<Seq<char>>)
    ensures
        forall|k: int|
            0 <= k < paths.len() ==> group::shared_len(
                group::dirs(name),
                group::dirs(#[trigger] paths[k]),
            ) <= manage::depth_with(name, paths),
        manage::depth_with(name, paths) > 0 ==> exists|k: int|
            0 <= k < paths.len() && group::shared_len(
                group::dirs(name),
                group::dirs(#[trigger] paths[k]),
            ) == manage::depth_with(name, paths),
    decreases paths.len(),
{
    if paths.len() > 0 {
        let front = paths.drop_last();
        lemma_depth_with(name, front);
        assert(paths[paths.len() - 1] == paths.last());
        let before = manage::depth_with(name, front);
        let now = manage::depth_with(name, paths);
        assert forall|k: int| 0 <= k < paths.len() implies group::shared_len(
            group::dirs(name),
            group::dirs(#[trigger] paths[k]),
        ) <= now by {
            if k < front.len() {
                assert(front[k] == paths[k]);
            }
        }
        if now > 0 && now == before {
            let k = choose|k: int|
                0 <= k < front.len() && group::shared_len(
                    group::dirs(name),
                    group::dirs(#[trigger] front[k]),
                ) == before;
            assert(paths[k] == front[k]);
        }
    }
}

/// The groups are offered all, each once, those that share more with the paths
/// before those that share less; the first is the default exactly when it shares
/// anything, and else a new group is.
pub proof fn law_groups_are_offered_by_what_they_share(
    d: MappingsView,
    paths: Seq<Seq<char>>,
    name: Seq<char>,
)
    ensures
        ({
            let (groups, default) = manage::group_choice(d, paths);
            &&& groups.len() == d.group_names().len()
            &&& groups.contains(name) <==> exists|i: int|
                0 <= i < d.mappings.len() && (#[trigger] d.mappings[i]).group == Some(name)
            &&& forall|i: int, j: int|
                0 <= i < j < groups.len() ==> manage::group_depth(
                    d.mappings,
                    #[trigger] groups[i],
                    paths,
                ) >= manage::group_depth(d.mappings, #[trigger] groups[j], paths)
            &&& default == 0 && groups.len() > 0 <==> exists|i: int|
                0 <= i < groups.len() && manage::group_depth(
                    d.mappings,
                    #[trigger] groups[i],
                    paths,
                ) > 0
            &&& default == 0 || default == groups.len()
        }),
{
    let all = d.group_names();
    let order = manage::deepest_first(d.mappings, all, paths);
    let (groups, default) = manage::group_choice(d, paths);
    lemma_deepest_first(d.mappings, all, paths);
    group::law_groups_are_the_labels(d);
    assert forall|i: int| 0 <= i < groups.len() implies (#[trigger] groups[i]) == order[i].0
        && manage::group_depth(d.mappings, groups[i], paths) == order[i].1 by {
        let g = order[i];
    }
    assert(groups.contains(name) <==> all.contains(name)) by {
        if groups.contains(name) {
            let i = choose|i: int| 0 <= i < groups.len() && groups[i] == name;
            assert(all.contains(order[i].0));
        }
        if all.contains(name) {
            let i = choose|i: int| 0 <= i < order.len() && (#[trigger] order[i]).0 == name;
            assert(groups[i] == name);
        }
    }
    assert forall|i: int, j: int| 0 <= i < j < groups.len() implies manage::group_depth(
        d.mappings,
        #[trigger] groups[i],
        paths,
    ) >= manage::group_depth(d.mappings, #[trigger] groups[j], paths) by {
        assert(order[i].1 >= order[j].1);
    }
    if groups.len() > 0 {
        assert(manage::group_depth(d.mappings, groups[0], paths) == order[0].1);
        if exists|i: int|
            0 <= i < groups.len() && manage::group_depth(d.mappings, #[trigger] groups[i], paths)
                > 0 {
            let i = choose|i: int|
                0 <= i < groups.len() && manage::group_depth(
                    d.mappings,
                    #[trigger] groups[i],
                    paths,
                ) > 0;
            if i > 0 {
                assert(manage::group_depth(d.mappings, groups[0], paths) >= manage::group_depth(
                    d.mappings,
                    groups[i],
                    paths,
                ));
            }
        }
    }
}

proof fn lemma_deepest_first(
    s: Seq<MappingView>,
    groups: Seq<Seq<char>>,
    paths: Seq<Seq<char>>,
)
    ensures
        ({
            let order = manage::deepest_first(s, groups, paths);
            &&& order.len() == groups.len()
            &&& forall|i: int|
                0 <= i < order.len() ==> (#[trigger] order[i]).1 == manage::group_depth(
                    s,
                    order[i].0,
                    paths,
                ) && groups.contains(order[i].0)
            &&& forall|g: Seq<char>| #[trigger]
                groups.contains(g) ==> exists|i: int|
                    0 <= i < order.len() && (#[trigger] order[i]).0 == g
            &&& forall|i: int, j: int|
                0 <= i < j < order.len() ==> (#[trigger] order[i]).1 >= (#[trigger] order[j]).1
        }),
    decreases groups.len(),
{
    if groups.len() > 0 {
        let front = groups.drop_last();
        lemma_deepest_first(s, front, paths);
        let before = manage::deepest_first(s, front, paths);
        let one = (groups.last(), manage::group_depth(s, groups.last(), paths));
        lemma_placed_deepest(before, one);
        let order = manage::deepest_first(s, groups, paths);
        assert(groups[groups.len() - 1] == groups.last());
        assert forall|i: int| 0 <= i < order.len() implies (#[trigger] order[i]).1
            == manage::group_depth(s, order[i].0, paths) && groups.contains(order[i].0) by {
            assert(order.contains(order[i]));
            if order[i] != one {
                let k = choose|k: int| 0 <= k < before.len() && before[k] == order[i];
                let g = before[k];
                let j = choose|j: int| 0 <= j < front.len() && front[j] == g.0;
                assert(groups[j] == g.0);
            }
        }
        assert forall|g: Seq<char>| #[trigger] groups.contains(g) implies exists|i: int|
            0 <= i < order.len() && (#[trigger] order[i]).0 == g by {
            let j = choose|j: int| 0 <= j < groups.len() && groups[j] == g;
            if j < front.len() {
                assert(front[j] == g);
                assert(front.contains(g));
                let k = choose|k: int| 0 <= k < before.len() && (#[trigger] before[k]).0 == g;
                assert(before.contains(before[k]));
                assert(order.contains(before[k]));
                let i = choose|i: int| 0 <= i < order.len() && order[i] == before[k];
                assert(order[i].0 == g);
            } else {
                assert(order.contains(one));
                let i = choose|i: int| 0 <= i < order.len() && order[i] == one;
                assert(order[i].0 == g);
            }
        }
    }
}

proof fn lemma_placed_deepest(sorted: Seq<(Seq<char>, nat)>, g: (Seq<char>, nat))
    requires
        forall|i: int, j: int|
            0 <= i < j < sorted.len() ==> (#[trigger] sorted[i]).1 >= (#[trigger] sorted[j]).1,
    ensures
        ({
            let r = manage::placed_deepest(sorted, g);
            &&& r.len() == sorted.len() + 1
            &&& forall|x: (Seq<char>, nat)| #[trigger] r.contains(x) <==> sorted.contains(x) || x == g
            &&& forall|i: int, j: int|
                0 <= i < j < r.len() ==> (#[trigger] r[i]).1 >= (#[trigger] r[j]).1
        }),
    decreases sorted.len(),
{
    let r = manage::placed_deepest(sorted, g);
    if sorted.len() == 0 || sorted.last().1 >= g.1 {
        assert forall|x: (Seq<char>, nat)| #[trigger] r.contains(x) <==> sorted.contains(x) || x
            == g by {
            lemma_pushed_contains(sorted, g, x);
        }
        assert forall|i: int, j: int| 0 <= i < j < r.len() implies (#[trigger] r[i]).1 >= (
        #[trigger] r[j]).1 by {
            if j == sorted.len() && i < sorted.len() - 1 {
                assert(sorted[i].1 >= sorted[sorted.len() - 1].1);
            }
        }
    } else {
        let front = sorted.drop_last();
        let last = sorted.last();
        lemma_placed_deepest(front, g);
        let f = manage::placed_deepest(front, g);
        assert(front.push(last) =~= sorted);
        assert forall|x: (Seq<char>, nat)| #[trigger] r.contains(x) <==> sorted.contains(x) || x
            == g by {
            lemma_pushed_contains(f, last, x);
            lemma_pushed_contains(front, last, x);
        }
        assert forall|i: int, j: int| 0 <= i < j < r.len() implies (#[trigger] r[i]).1 >= (
        #[trigger] r[j]).1 by {
            if j == f.len() {
                assert(f.contains(f[i]));
                if f[i] != g {
                    let k = choose|k: int| 0 <= k < front.len() && front[k] == f[i];
                    assert(sorted[k].1 >= sorted[sorted.len() - 1].1);
                }
            } else {
                assert(f[i].1 >= f[j].1);
            }
        }
    }
}

proof fn lemma_pushed_contains(
    s: Seq<(Seq<char>, nat)>,
    g: (Seq<char>, nat),
    x: (Seq<char>, nat),
)
    ensures
        s.push(g).contains(x) <==> s.contains(x) || x == g,
{
    if s.contains(x) {
        let i = choose|i: int| 0 <= i < s.len() && s[i] == x;
        assert(s.push(g)[i] == x);
    }
    assert(s.push(g)[s.len() as int] == g);
    if s.push(g).contains(x) {
        let i = choose|i: int| 0 <= i < s.push(g).len() && s.push(g)[i] == x;
        if i < s.len() {
            assert(s[i] == x);
        }
    }
}

// ---------------------------------------------------------------------------
// Choosing a folder
// ---------------------------------------------------------------------------

/// Where nobody can be asked, a sync folder is picked exactly when one and only one
/// is there already.
pub proof fn law_only_a_single_folder_is_picked_unasked(
    candidates: Seq<CandidateView>,
    there: spec_fn(CandidateView) -> bool,
)
    requires
        forall|c: CandidateView| #[trigger] there(c) == c.exists,
    ensures
        discovery::existing_paths(candidates) == candidates.filter(there).map_values(
            |c: CandidateView| c.path,
        ),
        manage::unasked_pick(candidates) is Ok <==> candidates.filter(there).len() == 1,
        manage::unasked_pick(candidates) matches Ok(p) ==> p == candidates.filter(there)[0].path,
        manage::unasked_pick(candidates) == Err::<Seq<char>, ErrorView>(ErrorView::NoCloudFolder)
            <==> candidates.filter(there).len() == 0,
{
    lemma_existing_paths(candidates, there);
}

proof fn lemma_existing_paths(
    candidates: Seq<CandidateView>,
    there: spec_fn(CandidateView) -> bool,
)
    requires
        forall|c: CandidateView| #[trigger] there(c) == c.exists,
    ensures
        discovery::existing_paths(candidates) == candidates.filter(there).map_values(
            |c: CandidateView| c.path,
        ),
    decreases candidates.len(),
{
    reveal(Seq::filter);
    if candidates.len() > 0 {
        lemma_existing_paths(candidates.drop_last(), there);
    }
    assert(discovery::existing_paths(candidates) =~= candidates.filter(there).map_values(
        |c: CandidateView| c.path,
    ));
}

/// While paths are adopted one after the other, one is refused when its name is a
/// group's by then or overlaps with a mapping that was there to begin with, and
/// what is decided for it is what adopting it alone would be.
pub proof fn law_a_sweep_refuses_what_overlaps(
    sweep: AdoptingView,
    cfg: ConfigView,
    target: Seq<char>,
    os_scope: Option<Seq<char>>,
    label: Seq<char>,
    dry_run: bool,
    facts: AdoptFactsView,
)
    ensures
        ({
            let r = sweep.decision(cfg, target, os_scope, label, dry_run, facts);
            let name = apply::adopt_name(cfg, target);
            &&& r is Ok ==> name is Ok && name->Ok_0 != label && (forall|i: int|
                0 <= i < sweep.mappings.mappings.len() ==> (
                #[trigger] sweep.mappings.mappings[i]).group != Some(name->Ok_0)) && (forall|i: int|
                0 <= i < sweep.existing.len() ==> !apply::lies_in(
                    name->Ok_0,
                    #[trigger] sweep.existing[i],
                ) && !apply::lies_in(sweep.existing[i], name->Ok_0))
            &&& r is Ok ==> r == apply::adoption(
                cfg,
                target,
                os_scope,
                Some(label),
                sweep.existing,
                dry_run,
                facts,
            )
            &&& r is Err <==> apply::adoption(
                cfg,
                target,
                os_scope,
                Some(label),
                sweep.existing,
                dry_run,
                facts,
            ) is Err || (name matches Ok(n) && manage::name_refusal(
                n,
                label,
                sweep.mappings.mappings,
            ) is Some)
        }),
{
    apply::law_adopting_is_refused_exactly(
        cfg,
        target,
        os_scope,
        Some(label),
        sweep.existing,
        facts,
        dry_run,
    );
}

/// A refused path is told as one that failed, with why, under the name it would have
/// had; one that could have none is told under the path itself.
pub proof fn law_a_refused_path_is_told(
    view: AdoptingView,
    cfg: ConfigView,
    target: Seq<char>,
    e: ErrorView,
)
    ensures
        ({
            let told = view.refused(cfg, target, e).outcomes;
            &&& told.len() == view.outcomes.len() + 1
            &&& told.drop_last() == view.outcomes
            &&& !told.last().ok
            &&& told.last().detail == e.text()
            &&& told.last().undo is None
            &&& told.last().name == match apply::adopt_name(cfg, target) {
                Ok(name) => name,
                Err(_) => target,
            }
        }),
        view.refused(cfg, target, e).mappings == view.mappings,
{
    assert(view.refused(cfg, target, e).outcomes.drop_last() =~= view.outcomes);
}

} // verus!
