//! What the health check finds: for every kind of issue, exactly when it is
//! reported, how grave it is, and that nothing that is found is left out.
use vstd::prelude::*;
use vstd::string::*;

use crate::apply;
use crate::config;
use crate::config::ConfigView;
use crate::content;
use crate::doctor;
use crate::doctor::{CheckupView, CloudView, IssueView, Level, ReportView};
use crate::fsutil;
use crate::group;
use crate::mapping;
use crate::mapping::{MappingView, MappingsFile};
use crate::path;
use crate::plan::{ItemView, StateView};
use crate::script::OutcomeView;
use crate::text;
use crate::tree;
use crate::tree::Tree;

verus! {

// ---------------------------------------------------------------------------
// One item
// ---------------------------------------------------------------------------

/// The state of an item is an issue exactly when it is in conflict, dangling,
/// foreign, or healable and not about to be healed. A conflict alone is an error,
/// and only what heals can be repaired.
pub proof fn law_states_are_told_by_their_weight(item: ItemView, fix: bool)
    ensures
        doctor::state_issue(item, fix) is Some <==> item.state is Diverged || item.state
            is DanglingSelf || item.state is ForeignSymlink || item.state is Healable && !fix,
        doctor::state_issue(item, fix) matches Some(i) ==> i.name == item.mapping.name && (i.level
            == Level::Error <==> item.state is Diverged) && (i.fixable <==> item.state is Healable),
{
}

/// The permissions of an item are an issue exactly when it is a secret, nothing is
/// about to be repaired, and something in its sync copy, at any depth, is open to
/// group or others. It is a warning that can be repaired.
pub proof fn law_an_open_secret_is_told(item: ItemView, fix: bool, found: Option<Tree>)
    ensures
        doctor::mode_issue(item, fix, found) is Some <==> item.mapping.mode is Some && !fix && (
        found matches Some(t) && exists|p: Seq<Seq<char>>, x: Tree| #[trigger]
            content::stands_at(t, p, x) && (content::mode_of(x) matches Some(m) && m & 0o077 != 0)),
        doctor::mode_issue(item, fix, found) matches Some(i) ==> i.name == item.mapping.name
            && i.level == Level::Warn && i.fixable,
{
    match found {
        Some(t) => {
            content::law_too_open_iff_something_is(t);
        },
        None => {},
    }
}

/// A secret whose target, or a directory that it lies in, is a git working tree is
/// an error that cannot be repaired; anything but a secret may lie in one.
pub proof fn law_a_secret_in_git_is_an_error(item: ItemView, repos: Seq<Seq<char>>)
    ensures
        doctor::git_issue(item, repos) is Some <==> item.mapping.mode is Some && (
        item.target matches Some(t) && exists|i: int|
            0 <= i < path::ancestry(t).len() && repos.contains(#[trigger] path::ancestry(t)[i])),
        doctor::git_issue(item, repos) matches Some(i) ==> i.name == item.mapping.name && i.level
            == Level::Error && !i.fixable,
{
    match item.target {
        Some(t) => {
            config::law_git_refused_iff_enclosed(t, repos);
        },
        None => {},
    }
}

/// A sync folder in a git working tree is an error; one that group or others have
/// access to is a warning exactly when some mapping is a secret.
pub proof fn law_the_sync_folder_is_checked(
    cfg: ConfigView,
    repos: Seq<Seq<char>>,
    mode: Option<u32>,
    checks: Seq<CheckupView>,
)
    ensures
        doctor::sync_git_issue(cfg, repos) is Some <==> exists|i: int|
            0 <= i < path::ancestry(cfg.sync_dir).len() && repos.contains(
                #[trigger] path::ancestry(cfg.sync_dir)[i],
            ),
        doctor::sync_git_issue(cfg, repos) matches Some(i) ==> i.name == cfg.sync_dir && i.level
            == Level::Error && !i.fixable,
        doctor::sync_mode_issue(cfg, mode, checks) is Some <==> (mode matches Some(m) && m & 0o077
            != 0) && exists|i: int|
            0 <= i < checks.len() && (#[trigger] checks[i]).item.mapping.mode is Some,
        doctor::sync_mode_issue(cfg, mode, checks) matches Some(i) ==> i.name == cfg.sync_dir
            && i.level == Level::Warn && !i.fixable,
{
    config::law_git_refused_iff_enclosed(cfg.sync_dir, repos);
    match mode {
        Some(m) => {
            assert((m & 0o7777) & 0o077 == m & 0o077) by (bit_vector);
        },
        None => {},
    }
}

// ---------------------------------------------------------------------------
// Groups
// ---------------------------------------------------------------------------

/// A group is partly linked exactly when one member is linked and another one is
/// available; states of another kind do not count.
pub proof fn law_a_partly_linked_group_is_told(checks: Seq<CheckupView>, name: Seq<char>)
    ensures
        doctor::group_issue(checks, name) is Some <==> (exists|i: int|
            0 <= i < checks.len() && (#[trigger] checks[i]).item.mapping.group == Some(name)
                && checks[i].item.state is Linked) && (exists|i: int|
            0 <= i < checks.len() && (#[trigger] checks[i]).item.mapping.group == Some(name)
                && checks[i].item.state is Available),
        doctor::group_issue(checks, name) matches Some(i) ==> i.name == name && i.level
            == Level::Warn && !i.fixable,
        (exists|i: IssueView| #[trigger]
            doctor::group_issues(
                checks,
                mapping::labels(doctor::checked_labels(checks)),
            ).contains(i) && i.name == name) <==> doctor::group_issue(checks, name) is Some,
        doctor::group_issue(checks, name) matches Some(i) ==> doctor::group_issues(
            checks,
            mapping::labels(doctor::checked_labels(checks)),
        ).contains(i),
{
    lemma_members(checks, name, true);
    lemma_members(checks, name, false);
    let all = doctor::checked_labels(checks);
    let groups = mapping::labels(all);
    group::lemma_labels(all);
    lemma_group_issues(checks, groups);
    let told = doctor::group_issues(checks, groups);
    match doctor::group_issue(checks, name) {
        Some(issue) => {
            let i = choose|i: int|
                0 <= i < checks.len() && (#[trigger] checks[i]).item.mapping.group == Some(name)
                    && checks[i].item.state is Linked;
            assert(all[i] == Some(name));
            assert(all.contains(Some(name)));
            assert(groups.contains(name));
            assert(told.contains(issue));
        },
        None => {
            if exists|i: IssueView| #[trigger] told.contains(i) && i.name == name {
                let i = choose|i: IssueView| #[trigger] told.contains(i) && i.name == name;
                let g = choose|g: Seq<char>|
                    groups.contains(g) && #[trigger] doctor::group_issue(checks, g) == Some(i);
                assert(g == name);
            }
        },
    }
}

proof fn lemma_members(checks: Seq<CheckupView>, name: Seq<char>, linked: bool)
    ensures
        doctor::members(checks, name, linked) > 0 <==> exists|i: int|
            0 <= i < checks.len() && (#[trigger] checks[i]).item.mapping.group == Some(name) && (
            if linked {
                checks[i].item.state is Linked
            } else {
                checks[i].item.state is Available
            }),
    decreases checks.len(),
{
    if checks.len() > 0 {
        let front = checks.drop_last();
        lemma_members(front, name, linked);
        assert(checks[checks.len() - 1] == checks.last());
        if doctor::members(front, name, linked) > 0 {
            let i = choose|i: int|
                0 <= i < front.len() && (#[trigger] front[i]).item.mapping.group == Some(name) && (
                if linked {
                    front[i].item.state is Linked
                } else {
                    front[i].item.state is Available
                });
            assert(checks[i] == front[i]);
        } else {
            assert forall|i: int| 0 <= i < front.len() implies #[trigger] checks[i] == front[i] by {}
        }
    }
}

proof fn lemma_group_issues(checks: Seq<CheckupView>, groups: Seq<Seq<char>>)
    ensures
        forall|i: IssueView| #[trigger]
            doctor::group_issues(checks, groups).contains(i) <==> exists|g: Seq<char>|
                groups.contains(g) && #[trigger] doctor::group_issue(checks, g) == Some(i),
    decreases groups.len(),
{
    let told = doctor::group_issues(checks, groups);
    if groups.len() > 0 {
        let front = groups.drop_last();
        let before = doctor::group_issues(checks, front);
        let one = doctor::listed(doctor::group_issue(checks, groups.last()));
        lemma_group_issues(checks, front);
        assert(groups[groups.len() - 1] == groups.last());
        assert forall|i: IssueView| #[trigger] told.contains(i) <==> exists|g: Seq<char>|
            groups.contains(g) && #[trigger] doctor::group_issue(checks, g) == Some(i) by {
            lemma_in_sum(before, one, i);
            lemma_in_listed(doctor::group_issue(checks, groups.last()), i);
            if before.contains(i) {
                let g = choose|g: Seq<char>|
                    front.contains(g) && #[trigger] doctor::group_issue(checks, g) == Some(i);
                let k = choose|k: int| 0 <= k < front.len() && front[k] == g;
                assert(groups[k] == g);
                assert(groups.contains(g));
            }
            if exists|g: Seq<char>|
                groups.contains(g) && #[trigger] doctor::group_issue(checks, g) == Some(i) {
                let g = choose|g: Seq<char>|
                    groups.contains(g) && #[trigger] doctor::group_issue(checks, g) == Some(i);
                let k = choose|k: int| 0 <= k < groups.len() && groups[k] == g;
                if k < front.len() {
                    assert(front[k] == g);
                    assert(front.contains(g));
                }
            }
        }
    }
}

proof fn lemma_in_sum(a: Seq<IssueView>, b: Seq<IssueView>, i: IssueView)
    ensures
        (a + b).contains(i) <==> a.contains(i) || b.contains(i),
{
    if a.contains(i) {
        let k = choose|k: int| 0 <= k < a.len() && a[k] == i;
        assert((a + b)[k] == i);
    }
    if b.contains(i) {
        let k = choose|k: int| 0 <= k < b.len() && b[k] == i;
        assert((a + b)[a.len() + k] == i);
    }
    if (a + b).contains(i) {
        let k = choose|k: int| 0 <= k < (a + b).len() && (a + b)[k] == i;
        if k < a.len() {
            assert(a[k] == i);
        } else {
            assert(b[k - a.len()] == i);
        }
    }
}

proof fn lemma_in_listed(issue: Option<IssueView>, i: IssueView)
    ensures
        doctor::listed(issue).contains(i) <==> issue == Some(i),
{
    match issue {
        Some(x) => {
            assert(doctor::listed(issue)[0] == x);
        },
        None => {},
    }
}

// ---------------------------------------------------------------------------
// The sync folder's contents
// ---------------------------------------------------------------------------

/// Whether that entry of a folder stands at those names, one below the other.
pub open spec fn entry_at(es: Seq<CloudView>, p: Seq<Seq<char>>, e: CloudView) -> bool
    decreases p.len(),
{
    p.len() > 0 && exists|i: int|
        #![trigger es[i]]
        0 <= i < es.len() && es[i].name == p[0] && (if p.len() == 1 {
            e == es[i]
        } else {
            es[i].is_dir && entry_at(es[i].entries, p.skip(1), e)
        })
}

/// The relative path that those names spell below a directory.
pub open spec fn under(dir: Seq<char>, p: Seq<Seq<char>>) -> Seq<char>
    decreases p.len(),
{
    if p.len() == 0 {
        dir
    } else if dir.len() == 0 {
        under(p[0], p.skip(1))
    } else {
        under(dir + "/"@ + p[0], p.skip(1))
    }
}

/// A conflicted copy is found at any depth: what is listed are the paths, and only
/// those, whose last name says in any case that it is one.
pub proof fn law_conflicted_copies_are_found_at_any_depth(
    es: Seq<CloudView>,
    dir: Seq<char>,
    rel: Seq<char>,
)
    ensures
        doctor::conflicts_in(es, dir, es.len()).contains(rel) <==> exists|
            p: Seq<Seq<char>>,
            e: CloudView,
        | #[trigger]
            entry_at(es, p, e) && rel == under(dir, p) && conflicted(e.name),
{
    if doctor::conflicts_in(es, dir, es.len()).contains(rel) {
        lemma_conflict_is_somewhere(es, dir, es.len(), rel);
    }
    if exists|p: Seq<Seq<char>>, e: CloudView| #[trigger]
        entry_at(es, p, e) && rel == under(dir, p) && conflicted(e.name) {
        let (p, e) = choose|p: Seq<Seq<char>>, e: CloudView| #[trigger]
            entry_at(es, p, e) && rel == under(dir, p) && conflicted(e.name);
        lemma_conflict_is_listed(es, dir, p, e);
    }
}

/// Whether a name is what a cloud client calls a conflicted copy.
pub open spec fn conflicted(name: Seq<char>) -> bool {
    let lower = text::ascii_lower(name);
    ||| text::has_text(lower, "conflicted copy"@)
    ||| text::has_text(lower, "conflicted-copy"@)
    ||| text::has_text(lower, "sync-conflict"@)
    ||| text::has_text(lower, "(case conflict)"@)
}

proof fn lemma_conflict_is_somewhere(es: Seq<CloudView>, dir: Seq<char>, n: nat, rel: Seq<char>)
    requires
        n <= es.len(),
        doctor::conflicts_in(es, dir, n).contains(rel),
    ensures
        exists|p: Seq<Seq<char>>, e: CloudView| #[trigger]
            entry_at(es, p, e) && rel == under(dir, p) && conflicted(e.name),
    decreases es, n,
{
    let before = doctor::conflicts_in(es, dir, (n - 1) as nat);
    let c = es[n - 1];
    let here = doctor::conflicts_at(c, dir);
    lemma_text_in_sum(before, here, rel);
    if before.contains(rel) {
        lemma_conflict_is_somewhere(es, dir, (n - 1) as nat, rel);
    } else {
        let raw = doctor::relative(dir, c.name);
        let one = seq![c.name];
        assert(one.skip(1) =~= Seq::<Seq<char>>::empty());
        assert(under(raw, one.skip(1)) == raw);
        assert(under(dir, one) == raw);
        let own = if doctor::conflict_name(text::ascii_lower(c.name)) {
            seq![raw]
        } else {
            seq![]
        };
        let inner = doctor::conflicts_in(c.entries, raw, c.entries.len());
        lemma_text_in_sum(own, inner, rel);
        if own.contains(rel) {
            assert(entry_at(es, one, c));
        } else {
            assert(decreases_to!(es => es[n - 1]));
            assert(decreases_to!(c => c.entries));
            lemma_conflict_is_somewhere(c.entries, raw, c.entries.len(), rel);
            let (p, e) = choose|p: Seq<Seq<char>>, e: CloudView| #[trigger]
                entry_at(c.entries, p, e) && rel == under(raw, p) && conflicted(e.name);
            let q = one + p;
            assert(q.skip(1) =~= p);
            assert(entry_at(es, q, e));
            assert(under(dir, q) == under(raw, p));
        }
    }
}

proof fn lemma_conflict_is_listed(
    es: Seq<CloudView>,
    dir: Seq<char>,
    p: Seq<Seq<char>>,
    e: CloudView,
)
    requires
        entry_at(es, p, e),
        conflicted(e.name),
    ensures
        doctor::conflicts_in(es, dir, es.len()).contains(under(dir, p)),
    decreases p.len(),
{
    let i = choose|i: int|
        #![trigger es[i]]
        0 <= i < es.len() && es[i].name == p[0] && (if p.len() == 1 {
            e == es[i]
        } else {
            es[i].is_dir && entry_at(es[i].entries, p.skip(1), e)
        });
    let c = es[i];
    let raw = doctor::relative(dir, c.name);
    let here = doctor::conflicts_at(c, dir);
    let own = if doctor::conflict_name(text::ascii_lower(c.name)) {
        seq![raw]
    } else {
        seq![]
    };
    let inner = doctor::conflicts_in(c.entries, raw, c.entries.len());
    let rel = under(dir, p);
    lemma_text_in_sum(own, inner, rel);
    assert(rel == under(raw, p.skip(1)));
    if p.len() == 1 {
        assert(p.skip(1) =~= Seq::<Seq<char>>::empty());
        assert(own[0] == rel);
    } else {
        lemma_conflict_is_listed(c.entries, raw, p.skip(1), e);
    }
    assert(here.contains(rel));
    lemma_conflicts_kept(es, dir, es.len(), i, rel);
}

proof fn lemma_conflicts_kept(
    es: Seq<CloudView>,
    dir: Seq<char>,
    n: nat,
    i: int,
    rel: Seq<char>,
)
    requires
        0 <= i < n <= es.len(),
        doctor::conflicts_at(es[i], dir).contains(rel),
    ensures
        doctor::conflicts_in(es, dir, n).contains(rel),
    decreases n,
{
    let before = doctor::conflicts_in(es, dir, (n - 1) as nat);
    lemma_text_in_sum(before, doctor::conflicts_at(es[n - 1], dir), rel);
    if i < n - 1 {
        lemma_conflicts_kept(es, dir, (n - 1) as nat, i, rel);
    }
}

proof fn lemma_text_in_sum(a: Seq<Seq<char>>, b: Seq<Seq<char>>, t: Seq<char>)
    ensures
        (a + b).contains(t) <==> a.contains(t) || b.contains(t),
{
    if a.contains(t) {
        let k = choose|k: int| 0 <= k < a.len() && a[k] == t;
        assert((a + b)[k] == t);
    }
    if b.contains(t) {
        let k = choose|k: int| 0 <= k < b.len() && b[k] == t;
        assert((a + b)[a.len() + k] == t);
    }
    if (a + b).contains(t) {
        let k = choose|k: int| 0 <= k < (a + b).len() && (a + b)[k] == t;
        if k < a.len() {
            assert(a[k] == t);
        } else {
            assert(b[k - a.len()] == t);
        }
    }
}

// ---------------------------------------------------------------------------
// Orphans
// ---------------------------------------------------------------------------

/// Whether an entry of the sync folder at `raw` is linked from the home base though
/// no mapping is it or holds it.
pub open spec fn orphaned(
    e: CloudView,
    raw: Seq<char>,
    cfg: ConfigView,
    mappings: Seq<MappingView>,
) -> bool {
    let rel = text::replace_char(raw, '\\', '/');
    &&& e.home_link matches Some(d) && path::components(d) == path::components(
        path::joined(cfg.sync_dir, raw),
    )
    &&& rel != "dotsync.toml"@
    &&& forall|i: int|
        0 <= i < mappings.len() ==> (#[trigger] mappings[i]).name != rel && !text::starts_with(
            rel,
            mappings[i].name + "/"@,
        )
}

/// What is listed as an orphan is an entry of the sync folder, at some depth, that
/// the home base links to though no mapping is it or holds it.
pub proof fn law_an_orphan_is_linked_and_unmapped(
    es: Seq<CloudView>,
    dir: Seq<char>,
    cfg: ConfigView,
    mappings: Seq<MappingView>,
    n: nat,
    rel: Seq<char>,
)
    requires
        n <= es.len(),
        doctor::orphans_in(es, dir, cfg, mappings, n).contains(rel),
    ensures
        exists|p: Seq<Seq<char>>, e: CloudView| #[trigger]
            entry_at(es, p, e) && rel == text::replace_char(under(dir, p), '\\', '/') && orphaned(
                e,
                under(dir, p),
                cfg,
                mappings,
            ),
    decreases es, n,
{
    let before = doctor::orphans_in(es, dir, cfg, mappings, (n - 1) as nat);
    let c = es[n - 1];
    let here = doctor::orphans_at(c, dir, cfg, mappings);
    lemma_text_in_sum(before, here, rel);
    if before.contains(rel) {
        law_an_orphan_is_linked_and_unmapped(es, dir, cfg, mappings, (n - 1) as nat, rel);
    } else {
        let raw = doctor::relative(dir, c.name);
        let one = seq![c.name];
        assert(one.skip(1) =~= Seq::<Seq<char>>::empty());
        assert(under(raw, one.skip(1)) == raw);
        assert(under(dir, one) == raw);
        lemma_orphaned(c, raw, cfg, mappings);
        if orphaned(c, raw, cfg, mappings) {
            assert(entry_at(es, one, c));
        } else {
            assert(decreases_to!(es => es[n - 1]));
            assert(decreases_to!(c => c.entries));
            law_an_orphan_is_linked_and_unmapped(
                c.entries,
                raw,
                cfg,
                mappings,
                c.entries.len(),
                rel,
            );
            let (p, e) = choose|p: Seq<Seq<char>>, e: CloudView| #[trigger]
                entry_at(c.entries, p, e) && rel == text::replace_char(under(raw, p), '\\', '/')
                    && orphaned(e, under(raw, p), cfg, mappings);
            let q = one + p;
            assert(q.skip(1) =~= p);
            assert(entry_at(es, q, e));
            assert(under(dir, q) == under(raw, p));
        }
    }
}

proof fn lemma_orphaned(
    e: CloudView,
    raw: Seq<char>,
    cfg: ConfigView,
    mappings: Seq<MappingView>,
)
    ensures
        ({
            let rel = doctor::slashed(raw);
            orphaned(e, raw, cfg, mappings) <==> (e.home_link matches Some(dest) && path::same_path(
                dest,
                path::joined(cfg.sync_dir, raw),
            ) && !doctor::is_covered(rel, mappings)) && !(rel == MappingsFile::FILE_NAME@
                || mapping::has_name(mappings, rel))
        }),
{
    let rel = doctor::slashed(raw);
    if !doctor::is_covered(rel, mappings) {
        assert forall|i: int| 0 <= i < mappings.len() implies (#[trigger] mappings[i]).name != rel
            && !text::starts_with(rel, mappings[i].name + "/"@) by {
            assert(!fsutil::in_dir(rel, mappings[i].name));
        }
    } else {
        let i = choose|i: int|
            0 <= i < mappings.len() && fsutil::in_dir(rel, (#[trigger] mappings[i]).name);
        assert(mappings[i].name == rel || text::starts_with(rel, mappings[i].name + "/"@));
    }
}

/// No orphan is passed over: an entry at any depth that the home base links to
/// though no mapping is it or holds it is listed, or a directory that it lies in is.
/// (What lies in a mapping or in a directory with the document's name is not looked
/// at.)
pub proof fn law_no_orphan_is_passed_over(
    es: Seq<CloudView>,
    dir: Seq<char>,
    cfg: ConfigView,
    mappings: Seq<MappingView>,
    p: Seq<Seq<char>>,
    e: CloudView,
)
    requires
        entry_at(es, p, e),
        orphaned(e, under(dir, p), cfg, mappings),
        forall|k: int|
            0 < k < p.len() ==> {
                let rel = text::replace_char(under(dir, #[trigger] p.take(k)), '\\', '/');
                rel != "dotsync.toml"@ && !mapping::has_name(mappings, rel)
            },
    ensures
        exists|k: int|
            0 < k <= p.len() && doctor::orphans_in(es, dir, cfg, mappings, es.len()).contains(
                text::replace_char(under(dir, #[trigger] p.take(k)), '\\', '/'),
            ),
    decreases p.len(),
{
    let i = choose|i: int|
        #![trigger es[i]]
        0 <= i < es.len() && es[i].name == p[0] && (if p.len() == 1 {
            e == es[i]
        } else {
            es[i].is_dir && entry_at(es[i].entries, p.skip(1), e)
        });
    let c = es[i];
    let raw = doctor::relative(dir, c.name);
    let all = doctor::orphans_in(es, dir, cfg, mappings, es.len());
    let first = p.take(1);
    assert(first =~= seq![c.name]);
    assert(first.skip(1) =~= Seq::<Seq<char>>::empty());
    assert(under(raw, first.skip(1)) == raw);
    assert(under(dir, first) == raw);
    lemma_orphaned(c, raw, cfg, mappings);
    if p.len() == 1 {
        assert(first =~= p);
    }
    if orphaned(c, raw, cfg, mappings) {
        let rel = doctor::slashed(raw);
        assert(doctor::orphans_at(c, dir, cfg, mappings) == seq![rel]);
        assert(seq![rel][0] == rel);
        lemma_orphans_kept(es, dir, cfg, mappings, es.len(), i, rel);
        assert(all.contains(text::replace_char(under(dir, p.take(1)), '\\', '/')));
    } else {
        let rest = p.skip(1);
        assert(under(dir, p) == under(raw, rest));
        assert forall|k: int| 0 < k < rest.len() implies {
            let rel = text::replace_char(under(raw, #[trigger] rest.take(k)), '\\', '/');
            rel != "dotsync.toml"@ && !mapping::has_name(mappings, rel)
        } by {
            lemma_under_take(dir, p, k);
            let rel = text::replace_char(under(dir, p.take(k + 1)), '\\', '/');
        }
        law_no_orphan_is_passed_over(c.entries, raw, cfg, mappings, rest, e);
        let k = choose|k: int|
            0 < k <= rest.len() && doctor::orphans_in(
                c.entries,
                raw,
                cfg,
                mappings,
                c.entries.len(),
            ).contains(text::replace_char(under(raw, #[trigger] rest.take(k)), '\\', '/'));
        lemma_under_take(dir, p, k);
        let rel = text::replace_char(under(dir, p.take(k + 1)), '\\', '/');
        assert(doctor::orphans_at(c, dir, cfg, mappings).contains(rel));
        lemma_orphans_kept(es, dir, cfg, mappings, es.len(), i, rel);
    }
}

proof fn lemma_under_take(dir: Seq<char>, p: Seq<Seq<char>>, k: int)
    requires
        0 <= k < p.len(),
    ensures
        under(dir, p.take(k + 1)) == under(doctor::relative(dir, p[0]), p.skip(1).take(k)),
{
    assert(p.take(k + 1).skip(1) =~= p.skip(1).take(k));
    assert(p.take(k + 1)[0] == p[0]);
}

proof fn lemma_orphans_kept(
    es: Seq<CloudView>,
    dir: Seq<char>,
    cfg: ConfigView,
    mappings: Seq<MappingView>,
    n: nat,
    i: int,
    rel: Seq<char>,
)
    requires
        0 <= i < n <= es.len(),
        doctor::orphans_at(es[i], dir, cfg, mappings).contains(rel),
    ensures
        doctor::orphans_in(es, dir, cfg, mappings, n).contains(rel),
    decreases n,
{
    let before = doctor::orphans_in(es, dir, cfg, mappings, (n - 1) as nat);
    lemma_text_in_sum(before, doctor::orphans_at(es[n - 1], dir, cfg, mappings), rel);
    if i < n - 1 {
        lemma_orphans_kept(es, dir, cfg, mappings, (n - 1) as nat, i, rel);
    }
}

// ---------------------------------------------------------------------------
// The whole report
// ---------------------------------------------------------------------------

/// A second copy of the mapping document is what lies directly in the sync folder
/// and begins and ends as the document does, in any case, without being it.
pub proof fn law_forks_of_the_document_are_found(
    es: Seq<CloudView>,
    name: Seq<char>,
)
    ensures
        doctor::forked_documents(es).contains(name) <==> (exists|i: int|
            0 <= i < es.len() && (#[trigger] es[i]).name == name) && {
            let lower = text::ascii_lower(name);
            lower != "dotsync.toml"@ && text::starts_with(lower, "dotsync"@) && text::ends_with(
                lower,
                ".toml"@,
            )
        },
    decreases es.len(),
{
    if es.len() > 0 {
        let front = es.drop_last();
        law_forks_of_the_document_are_found(front, name);
        let before = doctor::forked_documents(front);
        let one = if doctor::forked_document(es.last().name) {
            seq![es.last().name]
        } else {
            seq![]
        };
        assert(doctor::forked_documents(es) =~= before + one);
        lemma_text_in_sum(before, one, name);
        assert(one.len() > 0 ==> one[0] == es.last().name);
        assert(es[es.len() - 1] == es.last());
        if exists|i: int| 0 <= i < front.len() && (#[trigger] front[i]).name == name {
            let i = choose|i: int| 0 <= i < front.len() && (#[trigger] front[i]).name == name;
            assert(es[i].name == name);
        }
        if exists|i: int| 0 <= i < es.len() && (#[trigger] es[i]).name == name {
            let i = choose|i: int| 0 <= i < es.len() && (#[trigger] es[i]).name == name;
            if i < front.len() {
                assert(front[i].name == name);
            }
        }
    }
}

/// An advisory is given for every name but the excepted ones, and for no other; it
/// is a warning that cannot be repaired.
pub proof fn law_advice_is_given_for_every_name(
    names: Seq<Seq<char>>,
    but: Seq<Seq<char>>,
    message: Seq<char>,
    issue: IssueView,
)
    ensures
        doctor::advisories_for(names, but, message).contains(issue) <==> names.contains(issue.name)
            && !but.contains(issue.name) && issue.message == message && issue.level == Level::Warn
            && !issue.fixable,
    decreases names.len(),
{
    if names.len() > 0 {
        let front = names.drop_last();
        law_advice_is_given_for_every_name(front, but, message, issue);
        let before = doctor::advisories_for(front, but, message);
        let last = IssueView { name: names.last(), level: Level::Warn, message, fixable: false };
        let one = if but.contains(names.last()) {
            seq![]
        } else {
            seq![last]
        };
        assert(doctor::advisories_for(names, but, message) =~= before + one);
        lemma_in_sum(before, one, issue);
        assert(one.len() > 0 ==> one[0] == last);
        assert(names[names.len() - 1] == names.last());
        if front.contains(issue.name) {
            let i = choose|i: int| 0 <= i < front.len() && front[i] == issue.name;
            assert(names[i] == issue.name);
        }
        if names.contains(issue.name) {
            let i = choose|i: int| 0 <= i < names.len() && names[i] == issue.name;
            if i < front.len() {
                assert(front[i] == issue.name);
            }
        }
        if one.contains(issue) {
            assert(issue == last);
        }
        if issue.name == names.last() && issue.message == message && issue.level == Level::Warn
            && !issue.fixable {
            assert(issue == last);
        }
    }
}

/// The report holds everything that is found and nothing else: what there is to say
/// of each item's state, permissions and place, of the sync folder, of copies of
/// the document, of conflicted copies, of groups and of orphans.
pub proof fn law_the_report_holds_everything_found(
    cfg: ConfigView,
    mappings: Seq<MappingView>,
    checks: Seq<CheckupView>,
    fix: bool,
    repos: Seq<Seq<char>>,
    mode: Option<u32>,
    entries: Seq<CloudView>,
    issue: IssueView,
)
    ensures
        doctor::all_issues(cfg, mappings, checks, fix, repos, mode, entries).contains(issue) <==> {
            let none = Seq::<char>::empty();
            let forks = doctor::forked_documents(entries);
            ||| exists|i: int|
                0 <= i < checks.len() && (doctor::state_issue((#[trigger] checks[i]).item, fix)
                    == Some(issue) || doctor::mode_issue(checks[i].item, fix, checks[i].found)
                    == Some(issue) || doctor::git_issue(checks[i].item, checks[i].repos) == Some(
                    issue,
                ))
            ||| doctor::sync_git_issue(cfg, repos) == Some(issue)
            ||| doctor::sync_mode_issue(cfg, mode, checks) == Some(issue)
            ||| doctor::advisories_for(forks, Seq::empty(), doctor::FORKED@).contains(issue)
            ||| doctor::advisories_for(
                doctor::conflicts_in(entries, none, entries.len()),
                forks,
                doctor::CONFLICTED@,
            ).contains(issue)
            ||| doctor::group_issue(checks, issue.name) == Some(issue)
            ||| doctor::advisories_for(
                doctor::orphans_in(entries, none, cfg, mappings, entries.len()),
                Seq::empty(),
                doctor::ORPHANED@,
            ).contains(issue)
        },
{
    let none = Seq::<char>::empty();
    let forks = doctor::forked_documents(entries);
    let items = doctor::all_item_issues(checks, fix);
    let git = doctor::listed(doctor::sync_git_issue(cfg, repos));
    let open = doctor::listed(doctor::sync_mode_issue(cfg, mode, checks));
    let second = doctor::advisories_for(forks, seq![], doctor::FORKED@);
    let copies = doctor::advisories_for(
        doctor::conflicts_in(entries, seq![], entries.len()),
        forks,
        doctor::CONFLICTED@,
    );
    let groups = mapping::labels(doctor::checked_labels(checks));
    let partly = doctor::group_issues(checks, groups);
    let lost = doctor::advisories_for(
        doctor::orphans_in(entries, seq![], cfg, mappings, entries.len()),
        seq![],
        doctor::ORPHANED@,
    );
    lemma_in_sum(items, git, issue);
    lemma_in_sum(items + git, open, issue);
    lemma_in_sum(items + git + open, second, issue);
    lemma_in_sum(items + git + open + second, copies, issue);
    lemma_in_sum(items + git + open + second + copies, partly + lost, issue);
    lemma_in_sum(partly, lost, issue);
    lemma_in_listed(doctor::sync_git_issue(cfg, repos), issue);
    lemma_in_listed(doctor::sync_mode_issue(cfg, mode, checks), issue);
    lemma_item_issues(checks, fix, issue);
    law_a_partly_linked_group_is_told(checks, issue.name);
    lemma_group_issues(checks, groups);
    if partly.contains(issue) {
        let g = choose|g: Seq<char>|
            groups.contains(g) && #[trigger] doctor::group_issue(checks, g) == Some(issue);
        assert(g == issue.name);
    }
}

proof fn lemma_item_issues(checks: Seq<CheckupView>, fix: bool, issue: IssueView)
    ensures
        doctor::all_item_issues(checks, fix).contains(issue) <==> exists|i: int|
            0 <= i < checks.len() && (doctor::state_issue((#[trigger] checks[i]).item, fix) == Some(
                issue,
            ) || doctor::mode_issue(checks[i].item, fix, checks[i].found) == Some(issue)
                || doctor::git_issue(checks[i].item, checks[i].repos) == Some(issue)),
    decreases checks.len(),
{
    if checks.len() > 0 {
        let front = checks.drop_last();
        let last = checks.last();
        lemma_item_issues(front, fix, issue);
        let before = doctor::all_item_issues(front, fix);
        let a = doctor::listed(doctor::state_issue(last.item, fix));
        let b = doctor::listed(doctor::mode_issue(last.item, fix, last.found));
        let c = doctor::listed(doctor::git_issue(last.item, last.repos));
        lemma_in_sum(before, a + b + c, issue);
        lemma_in_sum(a + b, c, issue);
        lemma_in_sum(a, b, issue);
        lemma_in_listed(doctor::state_issue(last.item, fix), issue);
        lemma_in_listed(doctor::mode_issue(last.item, fix, last.found), issue);
        lemma_in_listed(doctor::git_issue(last.item, last.repos), issue);
        assert(checks[checks.len() - 1] == last);
        assert forall|i: int| 0 <= i < front.len() implies #[trigger] checks[i] == front[i] by {}
        if before.contains(issue) {
            let i = choose|i: int|
                0 <= i < front.len() && (doctor::state_issue((#[trigger] front[i]).item, fix)
                    == Some(issue) || doctor::mode_issue(front[i].item, fix, front[i].found) == Some(
                    issue,
                ) || doctor::git_issue(front[i].item, front[i].repos) == Some(issue));
            assert(checks[i] == front[i]);
        }
    }
}

/// The report is healthy exactly when nothing is in conflict, no secret's target
/// lies in a git working tree, and the sync folder does not. What was repaired is
/// reported when repairing was asked for, all of it, and else nothing is.
pub proof fn law_healthy_iff_nothing_is_at_stake(
    cfg: ConfigView,
    mappings: Seq<MappingView>,
    checks: Seq<CheckupView>,
    fix: bool,
    fixed: Seq<OutcomeView>,
    repos: Seq<Seq<char>>,
    mode: Option<u32>,
    entries: Seq<CloudView>,
)
    ensures
        ({
            let report = doctor::report_of(cfg, mappings, checks, fix, fixed, repos, mode, entries);
            &&& report.is_healthy() <==> (forall|i: int|
                0 <= i < checks.len() ==> !((#[trigger] checks[i]).item.state is Diverged)
                    && doctor::git_issue(checks[i].item, checks[i].repos) is None)
                && doctor::sync_git_issue(cfg, repos) is None
            &&& report.issues == doctor::all_issues(
                cfg,
                mappings,
                checks,
                fix,
                repos,
                mode,
                entries,
            )
            &&& fix ==> report.fixed == fixed
            &&& !fix ==> report.fixed.len() == 0
        }),
{
    let report = doctor::report_of(cfg, mappings, checks, fix, fixed, repos, mode, entries);
    let all = report.issues;
    let calm = (forall|i: int|
        0 <= i < checks.len() ==> !((#[trigger] checks[i]).item.state is Diverged)
            && doctor::git_issue(checks[i].item, checks[i].repos) is None) && doctor::sync_git_issue(
        cfg,
        repos,
    ) is None;
    if calm {
        assert forall|k: int| 0 <= k < all.len() implies (#[trigger] all[k]).level
            != Level::Error by {
            let issue = all[k];
            assert(all.contains(issue));
            law_the_report_holds_everything_found(
                cfg,
                mappings,
                checks,
                fix,
                repos,
                mode,
                entries,
                issue,
            );
            lemma_only_these_err(cfg, mappings, checks, mode, entries, issue);
        }
    } else if doctor::sync_git_issue(cfg, repos) is Some {
        lemma_told(cfg, mappings, checks, fix, repos, mode, entries, doctor::sync_git_issue(
            cfg,
            repos,
        )->0);
    } else {
        let i = choose|i: int|
            0 <= i < checks.len() && ((#[trigger] checks[i]).item.state is Diverged
                || doctor::git_issue(checks[i].item, checks[i].repos) is Some);
        if checks[i].item.state is Diverged {
            let issue = doctor::state_issue(checks[i].item, fix)->0;
            lemma_told(cfg, mappings, checks, fix, repos, mode, entries, issue);
        } else {
            let issue = doctor::git_issue(checks[i].item, checks[i].repos)->0;
            lemma_told(cfg, mappings, checks, fix, repos, mode, entries, issue);
        }
    }
}

proof fn lemma_told(
    cfg: ConfigView,
    mappings: Seq<MappingView>,
    checks: Seq<CheckupView>,
    fix: bool,
    repos: Seq<Seq<char>>,
    mode: Option<u32>,
    entries: Seq<CloudView>,
    issue: IssueView,
)
    requires
        issue.level == Level::Error,
        doctor::sync_git_issue(cfg, repos) == Some(issue) || exists|i: int|
            0 <= i < checks.len() && (doctor::state_issue((#[trigger] checks[i]).item, fix) == Some(
                issue,
            ) || doctor::git_issue(checks[i].item, checks[i].repos) == Some(issue)),
    ensures
        exists|k: int|
            0 <= k < doctor::all_issues(cfg, mappings, checks, fix, repos, mode, entries).len() && (
            #[trigger] doctor::all_issues(
                cfg,
                mappings,
                checks,
                fix,
                repos,
                mode,
                entries,
            )[k]).level == Level::Error,
{
    let all = doctor::all_issues(cfg, mappings, checks, fix, repos, mode, entries);
    law_the_report_holds_everything_found(cfg, mappings, checks, fix, repos, mode, entries, issue);
    assert(all.contains(issue));
    let k = choose|k: int| 0 <= k < all.len() && all[k] == issue;
    assert(all[k].level == Level::Error);
}

proof fn lemma_only_these_err(
    cfg: ConfigView,
    mappings: Seq<MappingView>,
    checks: Seq<CheckupView>,
    mode: Option<u32>,
    entries: Seq<CloudView>,
    issue: IssueView,
)
    ensures
        ({
            let none = Seq::<char>::empty();
            let forks = doctor::forked_documents(entries);
            doctor::sync_mode_issue(cfg, mode, checks) == Some(issue) || doctor::advisories_for(
                forks,
                Seq::empty(),
                doctor::FORKED@,
            ).contains(issue) || doctor::advisories_for(
                doctor::conflicts_in(entries, none, entries.len()),
                forks,
                doctor::CONFLICTED@,
            ).contains(issue) || doctor::group_issue(checks, issue.name) == Some(issue)
                || doctor::advisories_for(
                doctor::orphans_in(entries, none, cfg, mappings, entries.len()),
                Seq::empty(),
                doctor::ORPHANED@,
            ).contains(issue) ==> issue.level == Level::Warn
        }),
{
    let none = Seq::<char>::empty();
    let forks = doctor::forked_documents(entries);
    law_advice_is_given_for_every_name(forks, Seq::empty(), doctor::FORKED@, issue);
    law_advice_is_given_for_every_name(
        doctor::conflicts_in(entries, none, entries.len()),
        forks,
        doctor::CONFLICTED@,
        issue,
    );
    law_advice_is_given_for_every_name(
        doctor::orphans_in(entries, none, cfg, mappings, entries.len()),
        Seq::empty(),
        doctor::ORPHANED@,
        issue,
    );
}

// ---------------------------------------------------------------------------
// Repairing
// ---------------------------------------------------------------------------

/// Repairing an item begins with its symlink, which is relinked exactly when it
/// heals, and goes on to its permissions, which are set exactly when it is a secret
/// and something in it is too open by then; after that nothing is left to do.
pub proof fn law_repairing_heals_and_tightens(
    item: ItemView,
    found: Option<Tree>,
    later: Option<Tree>,
)
    ensures
        ({
            let (first, next) = doctor::repair_due(item, true, doctor::first_stage(), found);
            let (second, last) = doctor::repair_due(item, true, next, later);
            &&& item.state is Healable ==> first == Some(
                apply::linking(item, false, Seq::empty()),
            ) && second == apply::mode_enforcing(item, false, later)
            &&& !(item.state is Healable) ==> first == apply::mode_enforcing(item, false, found)
                && second is None
            &&& doctor::repair_due(item, true, last, later).0 is None
        }),
        doctor::repair_due(item, false, doctor::first_stage(), found).0 is None,
{
}

} // verus!
