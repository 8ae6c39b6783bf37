//! What loading, saving and editing the mapping document keep.
use vstd::prelude::*;
use vstd::string::*;

use crate::apply;
use crate::config::ConfigView;
use crate::error::ErrorView;
use crate::journal::{RevertingView, UndoView};
use crate::manage;
use crate::manage::AdoptingView;
use crate::mapping;
use crate::mapping::{MappingView, MappingsView};
use crate::order;
use crate::plan::ItemView;
use crate::script::{DecisionView, OutcomeView};
use crate::text;

verus! {

/// Whether no two mappings have the same name.
pub open spec fn unique(s: Seq<MappingView>) -> bool {
    forall|i: int, j: int|
        0 <= i < j < s.len() ==> (#[trigger] s[i]).name != (#[trigger] s[j]).name
}

/// Whether the mappings are sorted by name.
pub open spec fn sorted(s: Seq<MappingView>) -> bool {
    forall|i: int, j: int|
        0 <= i < j < s.len() ==> !order::before((#[trigger] s[j]).name, (#[trigger] s[i]).name)
}

/// The mapping of a name, if there is one.
pub open spec fn found(s: Seq<MappingView>, name: Seq<char>) -> Option<MappingView> {
    if mapping::has_name(s, name) {
        Some(s[mapping::position(s, name)])
    } else {
        None
    }
}

proof fn lemma_found_at(s: Seq<MappingView>, i: int)
    requires
        unique(s),
        0 <= i < s.len(),
    ensures
        found(s, s[i].name) == Some(s[i]),
{
    let name = s[i].name;
    assert(mapping::has_name(s, name));
    mapping::lemma_position(s, name);
    let p = mapping::position(s, name);
    assert(s[p].name == name);
    if p < i {
        assert(s[p].name != s[i].name);
    } else if i < p {
        assert(s[i].name != s[p].name);
    }
}

// ---------------------------------------------------------------------------
// Loading
// ---------------------------------------------------------------------------

proof fn lemma_first_names(s: Seq<MappingView>, name: Seq<char>)
    ensures
        mapping::has_name(mapping::first_of_each(s), name) == mapping::has_name(s, name),
    decreases s.len(),
{
    if s.len() > 0 {
        let front = s.drop_last();
        let f = mapping::first_of_each(front);
        let all = mapping::first_of_each(s);
        lemma_first_names(front, name);
        if mapping::has_name(all, name) {
            let k = choose|k: int| 0 <= k < all.len() && (#[trigger] all[k]).name == name;
            if k < f.len() {
                assert(f[k].name == name);
                let j = choose|j: int| 0 <= j < front.len() && (#[trigger] front[j]).name == name;
                assert(s[j].name == name);
            } else {
                assert(s[s.len() - 1].name == name);
            }
        }
        if mapping::has_name(s, name) {
            let j = choose|j: int| 0 <= j < s.len() && (#[trigger] s[j]).name == name;
            if j < front.len() {
                assert(front[j].name == name);
            }
            if mapping::has_name(f, name) {
                let k = choose|k: int| 0 <= k < f.len() && (#[trigger] f[k]).name == name;
                assert(all[k].name == name);
            } else {
                assert(!mapping::has_name(front, name));
                assert(all[f.len() as int].name == name);
            }
        }
    }
}

/// After loading, every name stands for one mapping.
pub proof fn law_loaded_names_are_unique(d: MappingsView)
    ensures
        unique(d.loaded().mappings),
{
    lemma_first_unique(d.mappings);
}

proof fn lemma_first_unique(s: Seq<MappingView>)
    ensures
        unique(mapping::first_of_each(s)),
    decreases s.len(),
{
    if s.len() > 0 {
        let front = s.drop_last();
        let f = mapping::first_of_each(front);
        lemma_first_unique(front);
        lemma_first_names(front, s.last().name);
        if !mapping::has_name(front, s.last().name) {
            let all = f.push(s.last());
            assert forall|i: int, j: int| 0 <= i < j < all.len() implies (#[trigger] all[i]).name
                != (#[trigger] all[j]).name by {
                assert(all[i] == f[i]);
                if j == f.len() {
                    assert(f[i].name != s.last().name);
                }
            }
        }
    }
}

/// Loading keeps what each name stands for: the first mapping of that name.
pub proof fn law_loading_keeps_the_first(d: MappingsView, name: Seq<char>)
    ensures
        found(d.loaded().mappings, name) == found(d.mappings, name),
{
    lemma_first_found(d.mappings, name);
}

proof fn lemma_first_found(s: Seq<MappingView>, name: Seq<char>)
    ensures
        found(mapping::first_of_each(s), name) == found(s, name),
    decreases s.len(),
{
    lemma_first_names(s, name);
    if s.len() > 0 {
        let front = s.drop_last();
        let f = mapping::first_of_each(front);
        let all = mapping::first_of_each(s);
        lemma_first_found(front, name);
        lemma_first_names(front, name);
        mapping::lemma_position(front, name);
        mapping::lemma_position(f, name);
        if mapping::has_name(front, name) {
            let p = mapping::position(front, name);
            assert forall|j: int| 0 <= j < p implies (#[trigger] s[j]).name != name by {
                assert(front[j].name != name);
            }
            assert(s[p].name == name);
            mapping::lemma_position_is(s, name, p);
            let q = mapping::position(f, name);
            assert forall|j: int| 0 <= j < q implies (#[trigger] all[j]).name != name by {
                assert(f[j].name != name);
            }
            assert(all[q].name == name);
            mapping::lemma_position_is(all, name, q);
        } else if s.last().name == name {
            assert forall|j: int| 0 <= j < front.len() implies (#[trigger] s[j]).name != name by {
                assert(front[j].name != name);
            }
            mapping::lemma_position_is(s, name, front.len() as int);
            assert forall|j: int| 0 <= j < f.len() implies (#[trigger] all[j]).name != name by {
                assert(f[j].name != name);
            }
            mapping::lemma_position_is(all, name, f.len() as int);
        }
    }
}

/// Loading what was loaded changes nothing.
pub proof fn law_loading_is_idempotent(d: MappingsView)
    ensures
        d.loaded().loaded() == d.loaded(),
{
    lemma_first_unique(d.mappings);
    lemma_unique_stays(d.loaded().mappings);
}

proof fn lemma_unique_stays(s: Seq<MappingView>)
    requires
        unique(s),
    ensures
        mapping::first_of_each(s) == s,
    decreases s.len(),
{
    if s.len() > 0 {
        let front = s.drop_last();
        assert forall|i: int, j: int| 0 <= i < j < front.len() implies (#[trigger] front[i]).name
            != (#[trigger] front[j]).name by {
            assert(s[i].name != s[j].name);
        }
        lemma_unique_stays(front);
        if mapping::has_name(front, s.last().name) {
            let i = choose|i: int|
                0 <= i < front.len() && (#[trigger] front[i]).name == s.last().name;
            assert(s[i].name != s[s.len() - 1].name);
        }
        assert(front.push(s.last()) =~= s);
    } else {
        assert(s =~= Seq::<MappingView>::empty());
    }
}

// ---------------------------------------------------------------------------
// Saving
// ---------------------------------------------------------------------------

proof fn lemma_placed(s: Seq<MappingView>, m: MappingView)
    requires
        sorted(s),
    ensures
        sorted(mapping::placed_by_name(s, m)),
        mapping::placed_by_name(s, m).to_multiset() == s.to_multiset().insert(m),
        mapping::placed_by_name(s, m).len() == s.len() + 1,
        forall|i: int|
            #![trigger mapping::placed_by_name(s, m)[i]]
            0 <= i < mapping::placed_by_name(s, m).len() ==> mapping::placed_by_name(s, m)[i] == m
                || exists|j: int| 0 <= j < s.len() && s[j] == mapping::placed_by_name(s, m)[i],
    decreases s.len(),
{
    broadcast use vstd::seq_lib::group_to_multiset_ensures;

    let out = mapping::placed_by_name(s, m);
    if s.len() > 0 && order::before(m.name, s.last().name) {
        let front = s.drop_last();
        let rest = mapping::placed_by_name(front, m);
        assert forall|i: int, j: int| 0 <= i < j < front.len() implies !order::before(
            (#[trigger] front[j]).name,
            (#[trigger] front[i]).name,
        ) by {
            assert(!order::before(s[j].name, s[i].name));
        }
        lemma_placed(front, m);
        assert(s =~= front.push(s.last()));
        assert forall|i: int, j: int| 0 <= i < j < out.len() implies !order::before(
            (#[trigger] out[j]).name,
            (#[trigger] out[i]).name,
        ) by {
            if j < rest.len() {
                assert(out[i] == rest[i] && out[j] == rest[j]);
            } else {
                assert(out[i] == rest[i]);
                assert(out[j] == s.last());
                if rest[i] == m {
                    order::lemma_before_asymmetric(m.name, s.last().name);
                } else {
                    let k = choose|k: int| 0 <= k < front.len() && front[k] == rest[i];
                    assert(s[k] == front[k]);
                    assert(!order::before(s[s.len() - 1].name, s[k].name));
                }
            }
        }
        assert forall|i: int| #![trigger out[i]] 0 <= i < out.len() implies out[i] == m || exists|
            j: int,
        |
            0 <= j < s.len() && s[j] == out[i] by {
            if i < rest.len() {
                assert(out[i] == rest[i]);
                if rest[i] != m {
                    let k = choose|k: int| 0 <= k < front.len() && front[k] == rest[i];
                    assert(s[k] == out[i]);
                }
            } else {
                assert(s[s.len() - 1] == out[i]);
            }
        }
    } else {
        assert(out == s.push(m));
        assert forall|i: int, j: int| 0 <= i < j < out.len() implies !order::before(
            (#[trigger] out[j]).name,
            (#[trigger] out[i]).name,
        ) by {
            assert(out[i] == s[i]);
            if j < s.len() {
                assert(out[j] == s[j]);
            } else if order::before(m.name, s[i].name) {
                if i < s.len() - 1 {
                    let last = s[s.len() - 1];
                    assert(!order::before(last.name, s[i].name));
                    order::lemma_before_total(s[i].name, last.name);
                    if s[i].name != last.name {
                        order::lemma_before_transitive(m.name, s[i].name, last.name);
                    }
                }
            }
        }
        assert forall|i: int| #![trigger out[i]] 0 <= i < out.len() implies out[i] == m || exists|
            j: int,
        |
            0 <= j < s.len() && s[j] == out[i] by {
            if i < s.len() {
                assert(s[i] == out[i]);
            }
        }
    }
}

/// Saving sorts the mappings by name and keeps every one of them as it is.
pub proof fn law_saving_sorts_and_keeps(d: MappingsView)
    ensures
        sorted(d.saved().mappings),
        d.saved().mappings.to_multiset() == d.mappings.to_multiset(),
        d.saved().version == Some(mapping::VERSION@),
{
    lemma_by_name(d.mappings);
}

proof fn lemma_by_name(s: Seq<MappingView>)
    ensures
        sorted(mapping::by_name(s)),
        mapping::by_name(s).to_multiset() == s.to_multiset(),
        mapping::by_name(s).len() == s.len(),
    decreases s.len(),
{
    broadcast use vstd::seq_lib::group_to_multiset_ensures;

    if s.len() > 0 {
        lemma_by_name(s.drop_last());
        lemma_placed(mapping::by_name(s.drop_last()), s.last());
        assert(s =~= s.drop_last().push(s.last()));
    }
}

proof fn lemma_same_members(a: Seq<MappingView>, b: Seq<MappingView>, m: MappingView)
    requires
        a.to_multiset() == b.to_multiset(),
    ensures
        a.contains(m) == b.contains(m),
{
    broadcast use vstd::seq_lib::group_to_multiset_ensures;

    assert(a.contains(m) <==> a.to_multiset().count(m) > 0);
    assert(b.contains(m) <==> b.to_multiset().count(m) > 0);
}

/// Saving and loading again keeps what each name stands for, also where a name
/// is there more than once; names that are unique stay so.
pub proof fn law_saved_document_reads_back(d: MappingsView, name: Seq<char>)
    ensures
        found(d.saved().loaded().mappings, name) == found(d.mappings, name),
        unique(d.mappings) ==> unique(d.saved().mappings),
{
    let s = d.mappings;
    let t = d.saved().mappings;
    lemma_by_name(s);
    if unique(s) {
        lemma_unique_kept(s, t);
    }
    lemma_first_found(t, name);
    lemma_by_name_found(s, name);
}

proof fn lemma_by_name_found(s: Seq<MappingView>, name: Seq<char>)
    ensures
        found(mapping::by_name(s), name) == found(s, name),
    decreases s.len(),
{
    if s.len() > 0 {
        lemma_by_name_found(s.drop_last(), name);
        lemma_placed_found(mapping::by_name(s.drop_last()), s.last(), name);
        lemma_found_front(s, name);
    }
}

proof fn lemma_placed_found(s: Seq<MappingView>, m: MappingView, name: Seq<char>)
    ensures
        found(mapping::placed_by_name(s, m), name) == (match found(s, name) {
            Some(x) => Some(x),
            None => if m.name == name {
                Some(m)
            } else {
                None
            },
        }),
    decreases s.len(),
{
    let out = mapping::placed_by_name(s, m);
    lemma_found_front(out, name);
    if s.len() > 0 && order::before(m.name, s.last().name) {
        let front = s.drop_last();
        lemma_placed_found(front, m, name);
        lemma_found_front(s, name);
        order::lemma_before_irreflexive(m.name);
        assert(out.drop_last() =~= mapping::placed_by_name(front, m));
    } else {
        assert(out.drop_last() =~= s);
    }
}

proof fn lemma_unique_kept(s: Seq<MappingView>, t: Seq<MappingView>)
    requires
        unique(s),
        s.to_multiset() == t.to_multiset(),
        s.len() == t.len(),
    ensures
        unique(t),
{
    broadcast use vstd::seq_lib::group_to_multiset_ensures;

    assert forall|i: int, j: int| 0 <= i < s.len() && 0 <= j < s.len() && i != j implies s[i]
        != s[j] by {
        if i < j {
            assert(s[i].name != s[j].name);
        } else {
            assert(s[j].name != s[i].name);
        }
    }
    s.lemma_multiset_has_no_duplicates();
    t.lemma_multiset_has_no_duplicates_conv();
    assert(t.no_duplicates());
    assert forall|i: int, j: int| 0 <= i < j < t.len() implies (#[trigger] t[i]).name != (
    #[trigger] t[j]).name by {
        if t[i].name == t[j].name {
            assert(t.contains(t[i]) && t.contains(t[j]));
            lemma_same_members(s, t, t[i]);
            lemma_same_members(s, t, t[j]);
            let a = choose|a: int| 0 <= a < s.len() && s[a] == t[i];
            let b = choose|b: int| 0 <= b < s.len() && s[b] == t[j];
            lemma_found_at(s, a);
            lemma_found_at(s, b);
            assert(t[i] == t[j]);
        }
    }
}

// ---------------------------------------------------------------------------
// Editing
// ---------------------------------------------------------------------------

/// After a mapping was put in, its name stands for it, other names stand for
/// what they stood for, and names that were unique stay so.
pub proof fn law_upsert_then_find(s: Seq<MappingView>, m: MappingView, name: Seq<char>)
    ensures
        unique(s) ==> unique(mapping::upserted(s, m)),
        found(mapping::upserted(s, m), m.name) == Some(m),
        name != m.name ==> found(mapping::upserted(s, m), name) == found(s, name),
{
    let p = mapping::position(s, m.name);
    let t = mapping::upserted(s, m);
    mapping::lemma_position(s, m.name);
    if unique(s) {
        assert forall|i: int, j: int| 0 <= i < j < t.len() implies (#[trigger] t[i]).name != (
        #[trigger] t[j]).name by {
            if p < s.len() {
                assert(s[p].name == m.name);
                assert(s[i].name != s[j].name);
            } else if j < s.len() {
                assert(s[i].name != s[j].name);
            } else {
                assert(s[i].name != m.name);
            }
        }
    }
    assert(t[p as int].name == m.name);
    assert forall|j: int| 0 <= j < p implies (#[trigger] t[j]).name != m.name by {
        assert(s[j].name != m.name);
    }
    mapping::lemma_position_is(t, m.name, p as int);
    if name != m.name {
        let q = mapping::position(s, name);
        mapping::lemma_position(s, name);
        if mapping::has_name(s, name) {
            assert(s[q as int].name == name);
            assert(t[q as int] == s[q as int]);
            assert forall|j: int| 0 <= j < q implies (#[trigger] t[j]).name != name by {
                assert(s[j].name != name);
            }
            mapping::lemma_position_is(t, name, q as int);
        }
        if mapping::has_name(t, name) {
            let i = choose|i: int| 0 <= i < t.len() && (#[trigger] t[i]).name == name;
            assert(s[i].name == name);
        }
    }
}

/// After a mapping was dropped, its name stands for nothing, and other names
/// stand for what they stood for.
pub proof fn law_drop_then_find(s: Seq<MappingView>, dropped: Seq<char>, name: Seq<char>)
    ensures
        found(mapping::without(s, dropped), dropped) is None,
        name != dropped ==> found(mapping::without(s, dropped), name) == found(s, name),
    decreases s.len(),
{
    if s.len() > 0 {
        let front = s.drop_last();
        let w = mapping::without(front, dropped);
        let all = mapping::without(s, dropped);
        law_drop_then_find(front, dropped, name);
        law_drop_then_find(front, dropped, dropped);
        if mapping::has_name(all, dropped) {
            let k = choose|k: int| 0 <= k < all.len() && (#[trigger] all[k]).name == dropped;
            if k < w.len() {
                assert(w[k].name == dropped);
            }
        }
        if name != dropped {
            lemma_found_front(s, name);
            if s.last().name != dropped {
                assert(all.drop_last() =~= w);
                lemma_found_front(all, name);
            }
        }
    }
}

proof fn lemma_found_front(s: Seq<MappingView>, name: Seq<char>)
    requires
        s.len() > 0,
    ensures
        found(s, name) == (match found(s.drop_last(), name) {
            Some(m) => Some(m),
            None => if s.last().name == name {
                Some(s.last())
            } else {
                None
            },
        }),
{
    let front = s.drop_last();
    mapping::lemma_position(front, name);
    if mapping::has_name(front, name) {
        let p = mapping::position(front, name);
        assert(s[p].name == name);
        assert forall|j: int| 0 <= j < p implies (#[trigger] s[j]).name != name by {
            assert(front[j].name != name);
        }
        mapping::lemma_position_is(s, name, p);
    } else {
        assert forall|j: int| 0 <= j < front.len() implies (#[trigger] s[j]).name != name by {
            assert(front[j].name != name);
        }
        if s.last().name == name {
            assert(s[s.len() - 1].name == name);
            mapping::lemma_position_is(s, name, s.len() - 1);
        } else if mapping::has_name(s, name) {
            let j = choose|j: int| 0 <= j < s.len() && (#[trigger] s[j]).name == name;
            assert(j < front.len());
        }
    }
}

// ---------------------------------------------------------------------------
// Groups and mappings share one space of names
// ---------------------------------------------------------------------------

/// Whether no name is both a group's and a mapping's.
pub open spec fn apart(s: Seq<MappingView>) -> bool {
    forall|i: int, j: int|
        #![trigger s[i].group, s[j].name]
        0 <= i < s.len() && 0 <= j < s.len() ==> s[i].group != Some(s[j].name)
}

/// Adopting keeps the names of groups and mappings apart.
pub proof fn law_adopting_keeps_names_apart(s: Seq<MappingView>, m: MappingView, group: Seq<char>)
    requires
        apart(s),
        m.group == Some(group),
        manage::name_refusal(m.name, group, s) is None,
        !mapping::has_name(s, group),
    ensures
        apart(mapping::upserted(s, m)),
{
    let t = mapping::upserted(s, m);
    mapping::lemma_position(s, m.name);
    assert forall|i: int, j: int|
        #![trigger t[i].group, t[j].name]
        0 <= i < t.len() && 0 <= j < t.len() implies t[i].group != Some(t[j].name) by {
        if t[i] != m {
            assert(s[i].group == t[i].group);
            assert(!(s[i].group == Some(m.name)));
        }
        if t[j] != m {
            assert(s[j].name == t[j].name);
            assert(s[j].name != group);
        }
    }
}

/// How one path of an adoption ended.
pub enum Ended {
    /// It was decided on and carried out, well or not.
    Settled(MappingView, OutcomeView),
    /// It was refused: the path, and why.
    Refused(Seq<char>, ErrorView),
}

/// Adopting paths, once they ended in that way.
pub open spec fn swept(start: AdoptingView, cfg: ConfigView, ends: Seq<Ended>) -> AdoptingView
    decreases ends.len(),
{
    if ends.len() == 0 {
        start
    } else {
        let before = swept(start, cfg, ends.drop_last());
        match ends.last() {
            Ended::Settled(m, o) => before.settled(m, o),
            Ended::Refused(target, e) => before.refused(cfg, target, e),
        }
    }
}

/// Adopting never stops at a path that fails: every path is reported, in order;
/// what went well is in the document, however the others ended; and where nothing
/// went well the document is as it was. The command as a whole fails only where
/// every path was refused.
pub proof fn law_adopting_reports_every_path(start: AdoptingView, cfg: ConfigView, ends: Seq<Ended>)
    requires
        start.outcomes.len() == 0,
        !start.attempted,
    ensures
        ({
            let end = swept(start, cfg, ends);
            &&& end.outcomes.len() == ends.len()
            &&& forall|i: int|
                0 <= i < ends.len() ==> end.outcomes[i] == (match #[trigger] ends[i] {
                    Ended::Settled(m, o) => o,
                    Ended::Refused(target, e) => manage::refused_outcome(cfg, target, e),
                })
            &&& forall|i: int|
                0 <= i < ends.len() ==> (#[trigger] ends[i] matches Ended::Settled(m, o) ==> o.ok
                    ==> mapping::has_name(end.mappings.mappings, m.name))
            &&& (forall|i: int|
                0 <= i < ends.len() ==> (#[trigger] ends[i] matches Ended::Settled(m, o)
                    ==> !o.ok)) ==> end.mappings == start.mappings
            &&& end.attempted <==> exists|i: int|
                0 <= i < ends.len() && #[trigger] ends[i] is Settled
            &&& end.mappings.version == start.mappings.version
            &&& end.existing == start.existing
        }),
    decreases ends.len(),
{
    let end = swept(start, cfg, ends);
    if ends.len() > 0 {
        let front = ends.drop_last();
        let before = swept(start, cfg, front);
        law_adopting_reports_every_path(start, cfg, front);
        assert(ends[ends.len() - 1] == ends.last());
        assert forall|i: int| 0 <= i < ends.len() implies end.outcomes[i] == (
        match #[trigger] ends[i] {
            Ended::Settled(m, o) => o,
            Ended::Refused(target, e) => manage::refused_outcome(cfg, target, e),
        }) by {
            if i < front.len() {
                assert(front[i] == ends[i]);
            }
        }
        assert forall|i: int| 0 <= i < ends.len() implies (#[trigger] ends[i] matches Ended::Settled(
            m,
            o,
        ) ==> o.ok ==> mapping::has_name(end.mappings.mappings, m.name)) by {
            match ends[i] {
                Ended::Settled(m, o) => {
                    if o.ok {
                        match ends.last() {
                            Ended::Settled(last, lo) => {
                                if i < front.len() {
                                    assert(front[i] == ends[i]);
                                }
                                if lo.ok {
                                    lemma_upserted_names(
                                        before.mappings.mappings,
                                        last,
                                        m.name,
                                    );
                                }
                            },
                            _ => {
                                assert(front[i] == ends[i]);
                            },
                        }
                    }
                },
                _ => {},
            }
        }
        if forall|i: int|
            0 <= i < ends.len() ==> (#[trigger] ends[i] matches Ended::Settled(m, o) ==> !o.ok) {
            assert forall|i: int| 0 <= i < front.len() implies (
            #[trigger] front[i] matches Ended::Settled(m, o) ==> !o.ok) by {
                assert(front[i] == ends[i]);
            }
            assert(end.mappings == start.mappings);
        }
        if end.attempted {
            if ends.last() is Settled {
                assert(ends[ends.len() - 1] is Settled);
            } else {
                let i = choose|i: int| 0 <= i < front.len() && #[trigger] front[i] is Settled;
                assert(ends[i] is Settled);
            }
        }
        if exists|i: int| 0 <= i < ends.len() && #[trigger] ends[i] is Settled {
            let i = choose|i: int| 0 <= i < ends.len() && #[trigger] ends[i] is Settled;
            if i < front.len() {
                assert(front[i] is Settled);
            }
        }
    }
}

proof fn lemma_upserted_names(s: Seq<MappingView>, m: MappingView, name: Seq<char>)
    ensures
        mapping::has_name(mapping::upserted(s, m), name) <==> mapping::has_name(s, name) || name
            == m.name,
{
    mapping::lemma_position(s, m.name);
    let t = mapping::upserted(s, m);
    let p = mapping::position(s, m.name);
    assert(t[p] == m);
    if mapping::has_name(s, name) {
        let i = choose|i: int| 0 <= i < s.len() && (#[trigger] s[i]).name == name;
        if i != p {
            assert(t[i].name == name);
        } else {
            assert(t[p].name == name);
        }
    }
    if mapping::has_name(t, name) {
        let i = choose|i: int| 0 <= i < t.len() && (#[trigger] t[i]).name == name;
        if i != p {
            assert(s[i].name == name);
        }
    }
}

/// Renaming a group keeps the names of groups and mappings apart.
pub proof fn law_renaming_keeps_names_apart(
    s: Seq<MappingView>,
    old_name: Seq<char>,
    typed: Seq<char>,
)
    requires
        apart(s),
        manage::group_refusal(text::trim(typed), s) is None,
    ensures
        apart(manage::renamed(s, old_name, text::trim(typed))),
{
    text::lemma_trim_idempotent(typed);
    let new_name = text::trim(typed);
    let t = manage::renamed(s, old_name, new_name);
    assert forall|i: int, j: int|
        #![trigger t[i].group, t[j].name]
        0 <= i < t.len() && 0 <= j < t.len() implies t[i].group != Some(t[j].name) by {
        assert(t[j].name == s[j].name);
        assert(s[j].name != new_name);
        assert(s[i].group != Some(s[j].name));
    }
}

/// Moving a mapping into a group keeps the names of groups and mappings apart.
pub proof fn law_moving_keeps_names_apart(
    s: Seq<MappingView>,
    name: Seq<char>,
    typed: Seq<char>,
)
    requires
        apart(s),
        manage::group_refusal(text::trim(typed), s) is None,
    ensures
        apart(manage::moved(s, name, text::trim(typed))),
{
    text::lemma_trim_idempotent(typed);
    let group = text::trim(typed);
    let t = manage::moved(s, name, group);
    assert forall|i: int, j: int|
        #![trigger t[i].group, t[j].name]
        0 <= i < t.len() && 0 <= j < t.len() implies t[i].group != Some(t[j].name) by {
        assert(t[j].name == s[j].name);
        assert(s[j].name != group);
        assert(s[i].group != Some(s[j].name));
    }
}

/// A mapping leaves the document only where its restore went well: a name whose
/// restore failed stands for what it stood for.
pub proof fn law_failed_restore_keeps_mapping(
    s: Seq<MappingView>,
    outcomes: Seq<OutcomeView>,
    name: Seq<char>,
)
    ensures
        found(manage::not_restored(s, outcomes), name) == (if manage::restored(name, outcomes) {
            None
        } else {
            found(s, name)
        }),
    decreases s.len(),
{
    if s.len() > 0 {
        let front = s.drop_last();
        let rest = manage::not_restored(front, outcomes);
        law_failed_restore_keeps_mapping(front, outcomes, name);
        lemma_found_front(s, name);
        if !manage::restored(s.last().name, outcomes) {
            let all = manage::not_restored(s, outcomes);
            assert(all.drop_last() =~= rest);
            lemma_found_front(all, name);
        }
    }
}

/// Dropping mappings keeps the names of groups and mappings apart.
pub proof fn law_dropping_keeps_names_apart(s: Seq<MappingView>, outcomes: Seq<OutcomeView>)
    requires
        apart(s),
    ensures
        apart(manage::not_restored(s, outcomes)),
{
    let t = manage::not_restored(s, outcomes);
    assert forall|i: int, j: int|
        #![trigger t[i].group, t[j].name]
        0 <= i < t.len() && 0 <= j < t.len() implies t[i].group != Some(t[j].name) by {
        let a = lemma_kept_from(s, outcomes, i);
        let b = lemma_kept_from(s, outcomes, j);
        assert(s[a].group != Some(s[b].name));
    }
}

proof fn lemma_kept_from(s: Seq<MappingView>, outcomes: Seq<OutcomeView>, i: int) -> (k: int)
    requires
        0 <= i < manage::not_restored(s, outcomes).len(),
    ensures
        0 <= k < s.len(),
        s[k] == manage::not_restored(s, outcomes)[i],
    decreases s.len(),
{
    let front = s.drop_last();
    let t = manage::not_restored(front, outcomes);
    if i < t.len() {
        let k = lemma_kept_from(front, outcomes, i);
        k
    } else {
        s.len() - 1
    }
}

/// Renaming a group keeps every mapping but for its group, and leaves no member
/// in the old group.
pub proof fn law_renaming_moves_all_members(
    s: Seq<MappingView>,
    old_name: Seq<char>,
    new_name: Seq<char>,
)
    ensures
        old_name != new_name ==> !mapping::has_group(
            manage::renamed(s, old_name, new_name),
            old_name,
        ),
        forall|i: int|
            0 <= i < s.len() ==> (#[trigger] manage::renamed(s, old_name, new_name)[i]) == (
            MappingView { group: manage::renamed(s, old_name, new_name)[i].group, ..s[i] }),
{
}

// ---------------------------------------------------------------------------
// Undoing
// ---------------------------------------------------------------------------

/// Once a restore is undone in full, its name stands for the recorded mapping, with
/// every field as it was recorded, and every other name for what it stood for. The
/// document that is written says the same.
pub proof fn law_undone_restore_brings_the_mapping_back(
    start: RevertingView,
    action: UndoView,
    outcome: OutcomeView,
    name: Seq<char>,
)
    requires
        action is Restore,
    ensures
        ({
            let m = action->mapping;
            let end = start.settled(action, true, outcome);
            &&& found(end.mappings.mappings, m.name) == Some(m)
            &&& name != m.name ==> found(end.mappings.mappings, name) == found(
                start.mappings.mappings,
                name,
            )
            &&& !start.dry_run ==> (end.written() matches Some(doc) && found(doc.mappings, m.name)
                == Some(m) && (name != m.name ==> found(doc.mappings, name) == found(
                start.mappings.mappings,
                name,
            )))
        }),
{
    let m = action->mapping;
    let end = start.settled(action, true, outcome);
    law_upsert_then_find(start.mappings.mappings, m, name);
    lemma_saved_found(end.mappings, m.name);
    lemma_saved_found(end.mappings, name);
}

proof fn lemma_saved_found(d: MappingsView, name: Seq<char>)
    ensures
        found(d.saved().mappings, name) == found(d.mappings, name),
{
    law_saved_document_reads_back(d, name);
    law_loading_keeps_the_first(d.saved(), name);
}

/// Once an adoption is undone in full, its name stands for nothing, and every other
/// name for what it stood for. The document that is written says the same.
pub proof fn law_undone_adoption_drops_the_mapping(
    start: RevertingView,
    action: UndoView,
    outcome: OutcomeView,
    name: Seq<char>,
)
    requires
        action is Adopt,
    ensures
        ({
            let gone = action->Adopt_name;
            let end = start.settled(action, true, outcome);
            &&& found(end.mappings.mappings, gone) is None
            &&& name != gone ==> found(end.mappings.mappings, name) == found(
                start.mappings.mappings,
                name,
            )
            &&& !start.dry_run ==> (end.written() matches Some(doc) && found(doc.mappings, gone)
                is None && (name != gone ==> found(doc.mappings, name) == found(
                start.mappings.mappings,
                name,
            )))
        }),
{
    let gone = action->Adopt_name;
    let end = start.settled(action, true, outcome);
    law_drop_then_find(start.mappings.mappings, gone, name);
    lemma_saved_found(end.mappings, gone);
    lemma_saved_found(end.mappings, name);
}

/// Undoing a backup leaves the mappings alone, and so does an action that was not
/// undone in full. Every action leaves its outcome, last, behind those there were.
pub proof fn law_what_is_not_undone_changes_no_mapping(
    start: RevertingView,
    action: UndoView,
    done: bool,
    outcome: OutcomeView,
)
    ensures
        !done || action is Backup ==> start.settled(action, done, outcome).mappings
            == start.mappings && start.settled(action, done, outcome).changed == start.changed,
        start.changed ==> start.settled(action, done, outcome).changed,
        !start.changed && !start.settled(action, done, outcome).changed ==> start.settled(
            action,
            done,
            outcome,
        ).written() is None,
        start.settled(action, done, outcome).outcomes == start.outcomes.push(outcome),
        start.settled(action, done, outcome).pending == start.pending,
        start.settled(action, done, outcome).id == start.id,
        start.settled(action, done, outcome).dry_run == start.dry_run,
        start.settled(action, done, outcome).mappings.version == start.mappings.version,
{
}

/// Unadopting and then undoing it leaves the document as it was: what restoring an
/// item records is the whole mapping, and undoing that puts it back for every name.
pub proof fn law_undo_reverses_unadopting_in_the_document(
    s: Seq<MappingView>,
    item: ItemView,
    outcomes: Seq<OutcomeView>,
    start: RevertingView,
    outcome: OutcomeView,
    name: Seq<char>,
)
    requires
        item.state is Linked,
        item.target is Some,
        found(s, item.mapping.name) == Some(item.mapping),
        forall|n: Seq<char>| #[trigger] manage::restored(n, outcomes) ==> n == item.mapping.name,
        start.mappings.mappings == manage::not_restored(s, outcomes),
    ensures
        apply::restoring(item, false, true) matches DecisionView::Perform(script) && (
        script.undo matches Some(action) && found(
            start.settled(action, true, outcome).mappings.mappings,
            name,
        ) == found(s, name)),
{
    match apply::restoring(item, false, true) {
        DecisionView::Perform(script) => {
            let action = script.undo->0;
            law_undone_restore_brings_the_mapping_back(start, action, outcome, name);
            law_failed_restore_keeps_mapping(s, outcomes, name);
        },
        _ => {},
    }
}

// ---------------------------------------------------------------------------
// Lists
// ---------------------------------------------------------------------------

/// Putting a mapping in replaces the first of its name where it stands, or adds it
/// at the end; nothing else moves or changes.
pub proof fn law_upsert_replaces_in_place(s: Seq<MappingView>, m: MappingView, k: int)
    requires
        0 <= k < s.len(),
        s[k].name == m.name,
        forall|j: int| 0 <= j < k ==> (#[trigger] s[j]).name != m.name,
    ensures
        mapping::upserted(s, m) == s.update(k, m),
{
    mapping::lemma_position_is(s, m.name, k);
}

/// A mapping of a new name goes to the end.
pub proof fn law_upsert_appends_what_is_new(s: Seq<MappingView>, m: MappingView)
    requires
        forall|j: int| 0 <= j < s.len() ==> (#[trigger] s[j]).name != m.name,
    ensures
        mapping::upserted(s, m) == s.push(m),
{
    mapping::lemma_position_is(s, m.name, s.len() as int);
}

/// Dropping a name, and dropping what was restored, keep everything else as it is
/// and in order.
pub proof fn law_dropping_keeps_the_rest_in_order(
    s: Seq<MappingView>,
    name: Seq<char>,
    other: spec_fn(MappingView) -> bool,
    outcomes: Seq<OutcomeView>,
    stays: spec_fn(MappingView) -> bool,
)
    requires
        forall|m: MappingView| #[trigger] other(m) == (m.name != name),
        forall|m: MappingView| #[trigger]
            stays(m) == !(exists|i: int|
                0 <= i < outcomes.len() && (#[trigger] outcomes[i]).ok && outcomes[i].name
                    == m.name),
    ensures
        mapping::without(s, name) == s.filter(other),
        manage::not_restored(s, outcomes) == s.filter(stays),
    decreases s.len(),
{
    reveal(Seq::filter);
    if s.len() > 0 {
        law_dropping_keeps_the_rest_in_order(s.drop_last(), name, other, outcomes, stays);
    }
}

/// Loading keeps the stamp and the order: of the mappings it drops only those whose
/// name an earlier one has.
pub proof fn law_loading_drops_only_later_namesakes(d: MappingsView, i: int)
    requires
        0 <= i < d.mappings.len(),
    ensures
        d.loaded().version == d.version,
        (forall|j: int| 0 <= j < i ==> (#[trigger] d.mappings[j]).name != d.mappings[i].name)
            ==> d.loaded().mappings.contains(d.mappings[i]),
        d.loaded().mappings.len() <= d.mappings.len(),
{
    lemma_first_kept(d.mappings, i);
}

proof fn lemma_first_kept(s: Seq<MappingView>, i: int)
    requires
        0 <= i < s.len(),
    ensures
        (forall|j: int| 0 <= j < i ==> (#[trigger] s[j]).name != s[i].name)
            ==> mapping::first_of_each(s).contains(s[i]),
        mapping::first_of_each(s).len() <= s.len(),
    decreases s.len(),
{
    let front = s.drop_last();
    let f = mapping::first_of_each(front);
    let all = mapping::first_of_each(s);
    if front.len() > 0 {
        lemma_first_kept(
            front,
            if i < front.len() {
                i
            } else {
                0
            },
        );
    }
    if forall|j: int| 0 <= j < i ==> (#[trigger] s[j]).name != s[i].name {
        if i < front.len() {
            assert forall|j: int| 0 <= j < i implies (#[trigger] front[j]).name != front[i].name by {
                assert(s[j].name != s[i].name);
            }
            let k = choose|k: int| 0 <= k < f.len() && f[k] == s[i];
            assert(all[k] == s[i]);
        } else {
            if mapping::has_name(front, s.last().name) {
                let j = choose|j: int|
                    0 <= j < front.len() && (#[trigger] front[j]).name == s.last().name;
                assert(s[j].name != s[i].name);
            }
            assert(all[f.len() as int] == s[i]);
        }
    }
}

} // verus!
