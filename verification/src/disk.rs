//! What the scripts do to a disk, and what they promise: that linking ends
//! linked, that nothing unsaved is ever lost on the way, and that undoing brings
//! back what was there.
//!
//! A disk is what stands at each path that the scripts name. These paths are
//! taken to lie beside each other: none of them is inside another.
use vstd::prelude::*;
use vstd::string::*;

use crate::apply;
use crate::apply::AdoptFactsView;
use crate::config::ConfigView;
use crate::doctor;
use crate::doctor::Stage;
use crate::fsutil;
use crate::journal;
use crate::journal::{UndoFactsView, UndoView};
use crate::mapping::OnConflict;
use crate::path;
use crate::plan;
use crate::plan::{ItemView, ProbeView, SpotView, StateView};
use crate::script::{DecisionView, OpView, ScriptView};
use crate::tree;
use crate::tree::Tree;

verus! {

/// What stands at each path.
pub struct Disk {
    pub at: Map<Seq<char>, Tree>,
}

impl Disk {
    /// Whether anything stands at a path.
    pub open spec fn has(self, p: Seq<char>) -> bool {
        self.at.dom().contains(p)
    }

    /// What stands at a path, if anything does.
    pub open spec fn get(self, p: Seq<char>) -> Option<Tree> {
        if self.has(p) {
            Some(self.at[p])
        } else {
            None
        }
    }

    /// The disk with that at a path.
    pub open spec fn with(self, p: Seq<char>, tree: Tree) -> Disk {
        Disk { at: self.at.insert(p, tree) }
    }

    /// The disk with nothing at a path.
    pub open spec fn clear(self, p: Seq<char>) -> Disk {
        Disk { at: self.at.remove(p) }
    }

    /// The symlink's destination, when a symlink stands at a path.
    pub open spec fn link(self, p: Seq<char>) -> Option<Seq<char>> {
        match self.get(p) {
            Some(Tree::Link { dest }) => dest,
            _ => None,
        }
    }
}

/// A symlink to that destination.
pub open spec fn link_to(dest: Seq<char>) -> Tree {
    Tree::Link { dest: Some(dest) }
}

/// The disk after an operation; `None` when the operation fails, which leaves
/// the disk as it was. A move or a copy replaces what stands where it goes.
pub open spec fn perform(disk: Disk, op: OpView) -> Option<Disk> {
    match op {
        OpView::MakeSymlink { original, link } => if disk.has(link) {
            None
        } else {
            Some(disk.with(link, link_to(original)))
        },
        OpView::RemoveSymlink { path } => match disk.get(path) {
            None => None,
            Some(Tree::Dir { .. }) => None,
            Some(_) => Some(disk.clear(path)),
        },
        OpView::RemovePath { path } => if disk.has(path) {
            Some(disk.clear(path))
        } else {
            None
        },
        OpView::MovePath { from, to } => match disk.get(from) {
            None => None,
            Some(t) => Some(disk.clear(from).with(to, t)),
        },
        OpView::CopyTree { from, to } => match disk.get(from) {
            None => None,
            Some(t) => Some(disk.with(to, t)),
        },
        OpView::Discard { path } => Some(disk.clear(path)),
        OpView::KeepEqual { target, source } => match (disk.get(target), disk.get(source)) {
            (Some(t), Some(s)) => if tree::same_tree(t, s) {
                Some(disk)
            } else {
                None
            },
            _ => None,
        },
        OpView::KeepSymlink { path } => match disk.get(path) {
            Some(Tree::Link { .. }) => Some(disk),
            _ => None,
        },
        OpView::Tighten { path } => match disk.get(path) {
            Some(t) => Some(disk.with(path, tree::tightened(t))),
            None => None,
        },
    }
}

/// The disk after operations in order; `None` when one of them fails.
pub open spec fn run(disk: Disk, ops: Seq<OpView>) -> Option<Disk>
    decreases ops.len(),
{
    if ops.len() == 0 {
        Some(disk)
    } else {
        match run(disk, ops.drop_last()) {
            Some(d) => perform(d, ops.last()),
            None => None,
        }
    }
}

/// The disk once a script has done its first `n` steps, where they succeed.
pub open spec fn after(disk: Disk, script: ScriptView, n: int) -> Option<Disk> {
    run(disk, script.steps.take(n))
}

proof fn lemma_run_step(disk: Disk, ops: Seq<OpView>, n: int)
    requires
        0 <= n < ops.len(),
    ensures
        run(disk, ops.take(n + 1)) == (match run(disk, ops.take(n)) {
            Some(d) => perform(d, ops[n]),
            None => None,
        }),
        run(disk, ops.take(0)) == Some(disk),
{
    assert(ops.take(n + 1).drop_last() =~= ops.take(n));
    assert(ops.take(n + 1).last() == ops[n]);
    assert(ops.take(0) =~= Seq::<OpView>::empty());
}

// ---------------------------------------------------------------------------
// What is found on a disk
// ---------------------------------------------------------------------------

/// What is found on a disk for a mapping with those paths.
pub open spec fn probe(disk: Disk, target: Seq<char>, source: Seq<char>) -> ProbeView {
    ProbeView {
        target: match disk.get(target) {
            None => SpotView::Absent,
            Some(Tree::Link { dest: Some(dest) }) => SpotView::Link { dest, resolved: None },
            Some(Tree::Link { dest: None }) => SpotView::Link {
                dest: Seq::<char>::empty(),
                resolved: None,
            },
            Some(t) => SpotView::Real { tree: t },
        },
        source_present: disk.has(source),
        source_real: None,
        source: disk.get(source),
    }
}

/// What is found on a disk about a recorded action with those paths.
pub open spec fn undo_facts(
    disk: Disk,
    target: Seq<char>,
    source: Seq<char>,
    backup: Seq<char>,
) -> UndoFactsView {
    UndoFactsView {
        is_link: disk.get(target) matches Some(t) && t is Link,
        link: disk.link(target),
        source_present: disk.has(source),
        backup_present: disk.has(backup),
        target: disk.get(target),
        source: disk.get(source),
    }
}

/// Whether an item's paths and state are what is found on the disk.
pub open spec fn describes(item: ItemView, disk: Disk) -> bool {
    item.target matches Some(target) && target != item.source && item.state == plan::found_state(
        item.source,
        probe(disk, target, item.source),
    )
}

// ---------------------------------------------------------------------------
// Linking
// ---------------------------------------------------------------------------

/// A dry run never performs anything, whatever it decides on.
pub proof fn law_dry_run_only_reports(
    item: ItemView,
    backup: Seq<char>,
    present: bool,
    found: Option<Tree>,
    action: UndoView,
    facts: UndoFactsView,
)
    ensures
        apply::linking(item, true, backup) is Report,
        apply::unlinking(item, true) is Report,
        apply::restoring(item, true, present) is Report,
        apply::mode_enforcing(item, true, found) matches Some(d) ==> d is Report,
        journal::reversal(action, facts, true) is Report,
{
}

/// A dry run of adopting never performs anything.
pub proof fn law_dry_adopt_only_reports(
    cfg: ConfigView,
    target: Seq<char>,
    os_scope: Option<Seq<char>>,
    group: Option<Seq<char>>,
    existing: Seq<Seq<char>>,
    facts: AdoptFactsView,
)
    ensures
        apply::adoption(cfg, target, os_scope, group, existing, true, facts) matches Ok(p)
            ==> p.1 is Report,
{
}

/// Whether there is room for what an item's linking moves out of the way, if it
/// moves anything.
pub open spec fn room_for_backup(item: ItemView, disk: Disk, backup: Seq<char>) -> bool {
    item.state is Diverged || item.state is ForeignSymlink ==> backup != item.source && item.target
        != Some(backup) && !disk.has(backup)
}

/// Installing links: what linking performs succeeds on the disk that it was
/// decided for, ends with the symlink in place, and leaves the sync copy alone.
/// The item's state is then `Linked`, unless a foreign symlink was replaced while
/// there was no sync copy.
pub proof fn law_linking_ends_linked(item: ItemView, disk: Disk, backup: Seq<char>)
    requires
        describes(item, disk),
        room_for_backup(item, disk, backup),
    ensures
        apply::linking(item, false, backup) matches DecisionView::Perform(s) ==> !(item.state
            is Linked) ==> {
            &&& run(disk, s.steps) matches Some(end)
            &&& end.get(item.target->0) == Some(link_to(item.source))
            &&& end.get(item.source) == disk.get(item.source)
            &&& plan::found_state(item.source, probe(end, item.target->0, item.source)) == (
            if disk.has(item.source) {
                StateView::Linked
            } else {
                StateView::DanglingSelf
            })
        },
{
    let target = item.target->0;
    match apply::linking(item, false, backup) {
        DecisionView::Perform(s) => {
            lemma_linking_runs(item, disk, backup);
            assert(s.steps.take(s.steps.len() as int) =~= s.steps);
        },
        _ => {},
    }
}

proof fn lemma_linking_runs(item: ItemView, disk: Disk, backup: Seq<char>)
    requires
        describes(item, disk),
        room_for_backup(item, disk, backup),
    ensures
        apply::linking(item, false, backup) matches DecisionView::Perform(s) ==> !(item.state
            is Linked) ==> {
            &&& run(disk, s.steps) matches Some(end)
            &&& end.get(item.target->0) == Some(link_to(item.source))
            &&& end.get(item.source) == disk.get(item.source)
            &&& forall|n: int|
                #![trigger after(disk, s, n)]
                0 <= n <= s.steps.len() ==> (after(disk, s, n) matches Some(mid) && mid.get(
                    item.source,
                ) == disk.get(item.source) && (mid.get(item.target->0) == disk.get(item.target->0)
                    || !disk.has(item.target->0) || item.state is Healable || mid.get(backup)
                    == disk.get(item.target->0)))
        },
{
    let target = item.target->0;
    match apply::linking(item, false, backup) {
        DecisionView::Perform(s) => {
            assert(s.steps.take(s.steps.len() as int) =~= s.steps);
            assert forall|n: int|
                #![trigger after(disk, s, n)]
                0 <= n <= s.steps.len() && !(item.state is Linked) implies (after(
                disk,
                s,
                n,
            ) matches Some(mid) && mid.get(item.source) == disk.get(item.source) && (mid.get(target)
                == disk.get(target) || !disk.has(target) || item.state is Healable || mid.get(backup)
                == disk.get(target))) by {
                if s.steps.len() > 0 {
                    lemma_run_step(disk, s.steps, 0);
                }
                if s.steps.len() > 1 {
                    lemma_run_step(disk, s.steps, 1);
                }
                if s.steps.len() > 2 {
                    lemma_run_step(disk, s.steps, 2);
                }
            }
            if s.steps.len() > 0 {
                lemma_run_step(disk, s.steps, 0);
            }
            if s.steps.len() > 1 {
                lemma_run_step(disk, s.steps, 1);
            }
            if s.steps.len() > 2 {
                lemma_run_step(disk, s.steps, 2);
            }
        },
        _ => {},
    }
}

/// Linking loses nothing: however far the script came, what stood at the target
/// still stands there, or at the backup path, or is content that the untouched
/// sync copy holds.
pub proof fn law_linking_loses_nothing(item: ItemView, disk: Disk, backup: Seq<char>, n: int)
    requires
        describes(item, disk),
        room_for_backup(item, disk, backup),
    ensures
        apply::linking(item, false, backup) matches DecisionView::Perform(s) ==> 0 <= n
            <= s.steps.len() ==> {
            &&& after(disk, s, n) matches Some(mid)
            &&& mid.get(item.source) == disk.get(item.source)
            &&& disk.get(item.target->0) matches Some(was) ==> {
                ||| mid.get(item.target->0) == Some(was)
                ||| mid.get(backup) == Some(was)
                ||| mid.get(item.source) matches Some(s) && tree::same_tree(was, s)
            }
        },
{
    match apply::linking(item, false, backup) {
        DecisionView::Perform(s) => {
            lemma_linking_runs(item, disk, backup);
            if item.state is Linked {
                assert(s.steps.len() == 0);
                assert(s.steps.take(0) =~= Seq::<OpView>::empty());
            } else if 0 <= n <= s.steps.len() {
                assert(after(disk, s, n) is Some);
            }
        },
        _ => {},
    }
}

/// Linking twice is linking once: an item that is linked is left as it is.
pub proof fn law_linking_is_idempotent(item: ItemView, dry_run: bool, backup: Seq<char>)
    requires
        item.state is Linked,
        item.target is Some,
    ensures
        match apply::linking(item, dry_run, backup) {
            DecisionView::Report(o) => o.action == "already-linked"@ && o.ok,
            DecisionView::Perform(s) => s.steps.len() == 0 && s.action == "already-linked"@,
        },
{
}

/// A conflict that the mapping's policy does not settle changes nothing.
pub proof fn law_conflict_touches_nothing(item: ItemView, dry_run: bool, backup: Seq<char>)
    requires
        item.state is Diverged || item.state is ForeignSymlink,
        item.mapping.on_conflict == OnConflict::Fail,
    ensures
        apply::linking(item, dry_run, backup) is Report,
{
}

/// The guard before a replaced link is healed: if what stands at the target no
/// longer matches the sync copy, the script stops before it changed anything.
pub proof fn law_heal_stops_on_change(item: ItemView, disk: Disk, backup: Seq<char>)
    requires
        item.state is Healable,
        item.target is Some,
        !(disk.get(item.target->0) matches Some(t) && disk.get(item.source) matches Some(s)
            && tree::same_tree(t, s)),
    ensures
        apply::linking(item, false, backup) matches DecisionView::Perform(s) && after(
            disk,
            s,
            0,
        ) == Some(disk) && after(disk, s, 1) is None,
{
    match apply::linking(item, false, backup) {
        DecisionView::Perform(s) => {
            lemma_run_step(disk, s.steps, 0);
        },
        _ => {},
    }
}

/// Repairing twice is repairing once: what the health check repairs, it finds in
/// order when it looks again. A healed link is linked, and permissions that were
/// set again are not too open any more.
pub proof fn law_repair_leaves_nothing_to_repair(item: ItemView, disk: Disk, backup: Seq<char>)
    requires
        describes(item, disk),
    ensures
        item.state is Healable ==> (apply::linking(item, false, backup) matches DecisionView::Perform(s)
            && run(disk, s.steps) matches Some(end) && plan::found_state(
            item.source,
            probe(end, item.target->0, item.source),
        ) == StateView::Linked),
        apply::mode_enforcing(item, false, disk.get(item.source)) matches Some(
            DecisionView::Perform(s),
        ) ==> (run(disk, s.steps) matches Some(end) && apply::mode_enforcing(
            item,
            false,
            end.get(item.source),
        ) is None),
{
    if item.state is Healable {
        law_linking_ends_linked(item, disk, backup);
    }
    match apply::mode_enforcing(item, false, disk.get(item.source)) {
        Some(DecisionView::Perform(s)) => {
            assert(s.steps.take(1) =~= s.steps);
            lemma_run_step(disk, s.steps, 0);
            tree::law_tightened_is_tight(disk.at[item.source]);
        },
        _ => {},
    }
}

/// Repairing touches nothing but the item that it repairs: however far it came,
/// healing changed nothing but what stands at the target, and tightening nothing
/// but the permissions of the sync copy.
pub proof fn law_repairs_touch_only_their_item(
    item: ItemView,
    stage: Stage,
    disk: Disk,
    n: int,
    p: Seq<char>,
)
    ensures
        doctor::repair_due(item, true, stage, disk.get(item.source)).0 matches Some(
            DecisionView::Perform(s),
        ) ==> 0 <= n <= s.steps.len() ==> (after(disk, s, n) matches Some(mid) ==> {
            ||| item.state is Healable && (p != item.target->0 ==> mid.get(p) == disk.get(p))
            ||| item.mapping.mode is Some && (p != item.source ==> mid.get(p) == disk.get(p)) && (
            mid.get(item.source) == disk.get(item.source) || mid.get(item.source) == Some(
                tree::tightened(disk.at[item.source]),
            ))
        }),
{
    match doctor::repair_due(item, true, stage, disk.get(item.source)).0 {
        Some(DecisionView::Perform(s)) => {
            lemma_run_step(disk, s.steps, 0);
            if s.steps.len() > 1 {
                lemma_run_step(disk, s.steps, 1);
                lemma_run_step(disk, s.steps, 2);
            }
        },
        _ => {},
    }
}

/// Only what is destructive is recorded for undoing: linking that backed a local
/// file up, and restoring. Plain linking and unlinking are not, since the one
/// reverses the other; nor is anything that was not performed.
pub proof fn law_only_the_destructive_is_recorded(
    item: ItemView,
    dry_run: bool,
    backup: Seq<char>,
    present: bool,
)
    ensures
        match apply::linking(item, dry_run, backup) {
            DecisionView::Perform(s) => s.undo is Some <==> item.state is Diverged || item.state
                is ForeignSymlink,
            DecisionView::Report(o) => o.undo is None,
        },
        match apply::unlinking(item, dry_run) {
            DecisionView::Perform(s) => s.undo is None,
            DecisionView::Report(o) => o.undo is None,
        },
        match apply::restoring(item, dry_run, present) {
            DecisionView::Perform(s) => s.undo is Some <==> item.state is Linked,
            DecisionView::Report(o) => o.undo is None,
        },
{
}

// ---------------------------------------------------------------------------
// Unlinking and restoring
// ---------------------------------------------------------------------------

/// Unlinking removes a symlink and nothing else: on any disk the script either
/// fails and changes nothing, or a symlink stood at the target and all that
/// changed is that it is gone.
pub proof fn law_unlinking_removes_only_a_link(item: ItemView, disk: Disk)
    ensures
        apply::unlinking(item, false) matches DecisionView::Perform(s) ==> match run(
            disk,
            s.steps,
        ) {
            Some(end) => (disk.get(item.target->0) matches Some(t) && t is Link) && end
                == disk.clear(item.target->0),
            None => after(disk, s, 1) is None && !(disk.get(item.target->0) matches Some(t) && t
                is Link),
        },
{
    match apply::unlinking(item, false) {
        DecisionView::Perform(s) => {
            assert(s.steps.take(2) =~= s.steps);
            lemma_run_step(disk, s.steps, 0);
            lemma_run_step(disk, s.steps, 1);
        },
        _ => {},
    }
}

/// Restoring ends with a copy of the sync copy at the target and keeps the sync
/// copy; at no step is the sync copy touched, and the symlink stays until the
/// copy beside it is complete.
pub proof fn law_restoring_keeps_the_cloud_copy(item: ItemView, disk: Disk)
    requires
        describes(item, disk),
        item.state is Linked,
        item.source != fsutil::temp_name(item.target->0),
    ensures
        apply::restoring(item, false, true) matches DecisionView::Perform(s) && {
            &&& run(disk, s.steps) matches Some(end)
            &&& end.get(item.source) == disk.get(item.source)
            &&& end.get(item.target->0) == disk.get(item.source)
            &&& !end.has(fsutil::temp_name(item.target->0))
            &&& forall|n: int|
                #![trigger after(disk, s, n)]
                0 <= n <= s.steps.len() ==> (after(disk, s, n) matches Some(mid) && mid.get(
                    item.source,
                ) == disk.get(item.source) && (mid.get(item.target->0) == disk.get(item.target->0)
                    || mid.get(fsutil::temp_name(item.target->0)) == disk.get(item.source)
                    || mid.get(item.target->0) == disk.get(item.source)))
        },
{
    reveal_strlit(".dotsync-tmp");
    let target = item.target->0;
    let tmp = fsutil::temp_name(target);
    assert(tmp.len() > target.len());
    match apply::restoring(item, false, true) {
        DecisionView::Perform(s) => {
            assert(s.steps.take(5) =~= s.steps);
            lemma_run_step(disk, s.steps, 0);
            lemma_run_step(disk, s.steps, 1);
            lemma_run_step(disk, s.steps, 2);
            lemma_run_step(disk, s.steps, 3);
            lemma_run_step(disk, s.steps, 4);
        },
        _ => {},
    }
}

/// Restoring replaces a symlink and nothing else: on any disk, however far the
/// script came, a symlink stood at the target or what stood there still does. So
/// what was saved there after planning is never lost.
pub proof fn law_restoring_removes_only_a_link(item: ItemView, disk: Disk, present: bool)
    ensures
        apply::restoring(item, false, present) matches DecisionView::Perform(s) ==> forall|n: int|
            #![trigger after(disk, s, n)]
            0 <= n <= s.steps.len() ==> (after(disk, s, n) matches Some(mid) ==> (disk.get(
                item.target->0,
            ) matches Some(t) && t is Link) || mid.get(item.target->0) == disk.get(
                item.target->0,
            )),
{
    reveal_strlit(".dotsync-tmp");
    let target = item.target->0;
    assert(fsutil::temp_name(target).len() > target.len());
    match apply::restoring(item, false, present) {
        DecisionView::Perform(s) => {
            lemma_run_step(disk, s.steps, 0);
            lemma_run_step(disk, s.steps, 1);
            if s.steps.len() > 2 {
                lemma_run_step(disk, s.steps, 2);
                lemma_run_step(disk, s.steps, 3);
                lemma_run_step(disk, s.steps, 4);
            }
        },
        _ => {},
    }
}

// ---------------------------------------------------------------------------
// Undoing
// ---------------------------------------------------------------------------

/// Undoing a linking that backed a local file up brings back the whole disk.
pub proof fn law_undo_reverses_backup(item: ItemView, disk: Disk, backup: Seq<char>)
    requires
        describes(item, disk),
        room_for_backup(item, disk, backup),
        item.state is Diverged || item.state is ForeignSymlink,
    ensures
        apply::linking(item, false, backup) matches DecisionView::Perform(s) ==> {
            &&& run(disk, s.steps) matches Some(end)
            &&& s.undo matches Some(undo)
            &&& journal::reversal(
                undo,
                undo_facts(end, item.target->0, item.source, backup),
                false,
            ) matches DecisionView::Perform(back)
            &&& run(end, back.steps) matches Some(again)
            &&& again.at =~= disk.at
        },
{
    let target = item.target->0;
    match apply::linking(item, false, backup) {
        DecisionView::Perform(s) => {
            assert(s.steps.take(2) =~= s.steps);
            lemma_run_step(disk, s.steps, 0);
            lemma_run_step(disk, s.steps, 1);
            let end = run(disk, s.steps)->0;
            let facts = undo_facts(end, target, item.source, backup);
            let back = journal::reversal(s.undo->0, facts, false)->Perform_0;
            assert(back.steps.take(3) =~= back.steps);
            lemma_run_step(end, back.steps, 0);
            lemma_run_step(end, back.steps, 1);
            lemma_run_step(end, back.steps, 2);
        },
        _ => {},
    }
}

/// Undoing an adoption brings back the whole disk, but for the permissions of a
/// secret, which stay as tight as they were made.
pub proof fn law_undo_reverses_adopt(
    name: Seq<char>,
    target: Seq<char>,
    source: Seq<char>,
    secret: bool,
    disk: Disk,
)
    requires
        target != source,
        disk.has(target),
        !disk.has(source),
    ensures
        ({
            let s = apply::adopt_script(name, target, source, secret);
            &&& run(disk, s.steps) matches Some(end)
            &&& end.get(target) == Some(link_to(source))
            &&& s.undo matches Some(undo)
            &&& journal::reversal(
                undo,
                undo_facts(end, target, source, source),
                false,
            ) matches DecisionView::Perform(back)
            &&& run(end, back.steps) matches Some(again)
            &&& again.at =~= disk.at.insert(
                target,
                if secret {
                    tree::tightened(disk.at[target])
                } else {
                    disk.at[target]
                },
            )
        }),
{
    let s = apply::adopt_script(name, target, source, secret);
    assert(s.steps.take(s.steps.len() as int) =~= s.steps);
    lemma_run_step(disk, s.steps, 0);
    lemma_run_step(disk, s.steps, 1);
    if secret {
        lemma_run_step(disk, s.steps, 2);
    }
    let end = run(disk, s.steps)->0;
    let facts = undo_facts(end, target, source, source);
    let back = journal::reversal(s.undo->0, facts, false)->Perform_0;
    assert(back.steps.take(3) =~= back.steps);
    lemma_run_step(end, back.steps, 0);
    lemma_run_step(end, back.steps, 1);
    lemma_run_step(end, back.steps, 2);
}

/// Adopting loses nothing: however far the script came, what stood at the
/// target still stands there or at the sync copy's path.
pub proof fn law_adopt_loses_nothing(
    name: Seq<char>,
    target: Seq<char>,
    source: Seq<char>,
    secret: bool,
    disk: Disk,
    n: int,
)
    requires
        target != source,
        disk.has(target),
        !disk.has(source),
        0 <= n <= apply::adopt_script(name, target, source, secret).steps.len(),
    ensures
        after(disk, apply::adopt_script(name, target, source, secret), n) matches Some(mid) && {
            ||| mid.get(target) == disk.get(target)
            ||| mid.get(source) == disk.get(target)
            ||| mid.get(source) == Some(tree::tightened(disk.at[target]))
        },
{
    let s = apply::adopt_script(name, target, source, secret);
    lemma_run_step(disk, s.steps, 0);
    lemma_run_step(disk, s.steps, 1);
    if secret {
        lemma_run_step(disk, s.steps, 2);
    }
}

/// Undoing a restore links the sync copy again and leaves everything else as it
/// was before the restore.
pub proof fn law_undo_reverses_restore(item: ItemView, disk: Disk)
    requires
        describes(item, disk),
        item.state is Linked,
        item.source != fsutil::temp_name(item.target->0),
        !disk.has(fsutil::temp_name(item.target->0)),
        tree::readable(disk.at[item.source]),
        !(disk.at[item.source] is Link),
    ensures
        apply::restoring(item, false, true) matches DecisionView::Perform(s) && {
            &&& run(disk, s.steps) matches Some(end)
            &&& s.undo matches Some(undo)
            &&& journal::reversal(
                undo,
                undo_facts(end, item.target->0, item.source, item.source),
                false,
            ) matches DecisionView::Perform(back)
            &&& run(end, back.steps) matches Some(again)
            &&& again.at =~= disk.at.insert(item.target->0, link_to(item.source))
        },
{
    reveal_strlit(".dotsync-tmp");
    let target = item.target->0;
    let tmp = fsutil::temp_name(target);
    assert(tmp.len() > target.len());
    law_restoring_keeps_the_cloud_copy(item, disk);
    match apply::restoring(item, false, true) {
        DecisionView::Perform(s) => {
            assert(s.steps.take(5) =~= s.steps);
            lemma_run_step(disk, s.steps, 0);
            lemma_run_step(disk, s.steps, 1);
            lemma_run_step(disk, s.steps, 2);
            lemma_run_step(disk, s.steps, 3);
            lemma_run_step(disk, s.steps, 4);
            let end = run(disk, s.steps)->0;
            tree::law_same_tree_reflexive(disk.at[item.source]);
            let facts = undo_facts(end, target, item.source, item.source);
            let back = journal::reversal(s.undo->0, facts, false)->Perform_0;
            assert(back.steps.take(3) =~= back.steps);
            lemma_run_step(end, back.steps, 0);
            lemma_run_step(end, back.steps, 1);
            lemma_run_step(end, back.steps, 2);
        },
        _ => {},
    }
}

/// Undoing never clobbers: whatever stands on the disk, a reversal that
/// performs anything finds there exactly what the action left, and otherwise it
/// only reports.
pub proof fn law_undo_never_clobbers(action: UndoView, facts: UndoFactsView, dry_run: bool)
    ensures
        journal::reversal(action, facts, dry_run) is Perform ==> match action {
            UndoView::Adopt { name: _, target: _, source } => facts.ours(source),
            UndoView::Backup { name: _, target: _, source, backup: _ } => facts.ours(source),
            UndoView::Restore { .. } => !facts.is_link && facts.matching(),
        },
{
}

/// Undoing loses nothing: however far a reversal came, what it brings back still
/// stands where it was or already stands at the target, and a restored copy is
/// dropped only while the sync copy holds the same content.
pub proof fn law_undo_loses_nothing(action: UndoView, disk: Disk, backup: Seq<char>, n: int)
    requires
        action matches UndoView::Adopt { name: _, target, source } ==> target != source,
        action matches UndoView::Backup { name: _, target, source, backup: b } ==> b == backup
            && target != source && target != b && source != b,
        action matches UndoView::Restore { name: _, target, source, mapping: _ } ==> target
            != source,
    ensures
        match action {
            UndoView::Adopt { name: _, target, source } => journal::reversal(
                action,
                undo_facts(disk, target, source, backup),
                false,
            ) matches DecisionView::Perform(s) ==> 0 <= n <= s.steps.len() ==> (after(
                disk,
                s,
                n,
            ) matches Some(mid) && (mid.get(source) == disk.get(source) || mid.get(target)
                == disk.get(source))),
            UndoView::Backup { name: _, target, source, backup: b } => journal::reversal(
                action,
                undo_facts(disk, target, source, b),
                false,
            ) matches DecisionView::Perform(s) ==> 0 <= n <= s.steps.len() ==> (after(
                disk,
                s,
                n,
            ) matches Some(mid) && mid.get(source) == disk.get(source) && (mid.get(b) == disk.get(b)
                || mid.get(target) == disk.get(b))),
            UndoView::Restore { name: _, target, source, mapping: _ } => journal::reversal(
                action,
                undo_facts(disk, target, source, backup),
                false,
            ) matches DecisionView::Perform(s) ==> 0 <= n <= s.steps.len() ==> (after(
                disk,
                s,
                n,
            ) matches Some(mid) && mid.get(source) == disk.get(source) && (disk.get(
                target,
            ) matches Some(was) && disk.get(source) matches Some(kept) && tree::same_tree(
                was,
                kept,
            ))),
        },
{
    match action {
        UndoView::Adopt { name: _, target, source } => {
            lemma_three_steps(
                disk,
                journal::reversal(action, undo_facts(disk, target, source, backup), false),
            );
        },
        UndoView::Backup { name: _, target, source, backup: b } => {
            lemma_three_steps(
                disk,
                journal::reversal(action, undo_facts(disk, target, source, b), false),
            );
        },
        UndoView::Restore { name: _, target, source, mapping: _ } => {
            lemma_three_steps(
                disk,
                journal::reversal(action, undo_facts(disk, target, source, backup), false),
            );
        },
    }
}

proof fn lemma_three_steps(disk: Disk, d: DecisionView)
    ensures
        d matches DecisionView::Perform(s) ==> s.steps.len() == 3 ==> {
            &&& after(disk, s, 0) == Some(disk)
            &&& after(disk, s, 1) == perform(disk, s.steps[0])
            &&& after(disk, s, 2) == (match after(disk, s, 1) {
                Some(mid) => perform(mid, s.steps[1]),
                None => None,
            })
            &&& after(disk, s, 3) == (match after(disk, s, 2) {
                Some(mid) => perform(mid, s.steps[2]),
                None => None,
            })
        },
{
    match d {
        DecisionView::Perform(s) => {
            if s.steps.len() == 3 {
                lemma_run_step(disk, s.steps, 0);
                lemma_run_step(disk, s.steps, 1);
                lemma_run_step(disk, s.steps, 2);
            }
        },
        _ => {},
    }
}

/// Undoing removes nothing but a symlink or what the sync copy holds too: on any
/// disk, whatever was found before, however far the script came. So what was
/// saved at the target meanwhile is never lost.
pub proof fn law_undo_removes_nothing_unsaved(
    action: UndoView,
    facts: UndoFactsView,
    disk: Disk,
    n: int,
)
    ensures
        journal::reversal(action, facts, false) matches DecisionView::Perform(s) ==> 0 <= n
            <= s.steps.len() ==> (after(disk, s, n) matches Some(mid) ==> match action {
            UndoView::Adopt { name: _, target, source: _ } => mid.get(target) == disk.get(target) || (
            disk.get(target) matches Some(t) && t is Link),
            UndoView::Backup { name: _, target, source: _, backup: _ } => mid.get(target)
                == disk.get(target) || (disk.get(target) matches Some(t) && t is Link),
            UndoView::Restore { name: _, target, source, mapping: _ } => mid.get(target)
                == disk.get(target) || (disk.get(target) matches Some(t) && (disk.get(
                source,
            ) matches Some(k) && tree::same_tree(t, k))),
        }),
{
    lemma_three_steps(disk, journal::reversal(action, facts, false));
}

// ---------------------------------------------------------------------------
// Adopting
// ---------------------------------------------------------------------------

/// What was adopted is linked: the item's state is then `Linked`, and the sync
/// copy is what stood at the target.
pub proof fn law_adopted_is_linked(
    name: Seq<char>,
    target: Seq<char>,
    source: Seq<char>,
    secret: bool,
    disk: Disk,
)
    requires
        target != source,
        disk.has(target),
        !disk.has(source),
    ensures
        run(disk, apply::adopt_script(name, target, source, secret).steps) matches Some(end)
            && plan::found_state(source, probe(end, target, source)) == StateView::Linked
            && end.get(source) == Some(
            if secret {
                tree::tightened(disk.at[target])
            } else {
                disk.at[target]
            },
        ),
{
    let s = apply::adopt_script(name, target, source, secret);
    assert(s.steps.take(s.steps.len() as int) =~= s.steps);
    lemma_run_step(disk, s.steps, 0);
    lemma_run_step(disk, s.steps, 1);
    if secret {
        lemma_run_step(disk, s.steps, 2);
    }
}

/// An adopted secret is tight: nothing in its sync copy is accessible to group
/// or others.
pub proof fn law_adopted_secret_is_tight(
    name: Seq<char>,
    target: Seq<char>,
    source: Seq<char>,
    disk: Disk,
)
    requires
        target != source,
        disk.has(target),
        !disk.has(source),
    ensures
        run(disk, apply::adopt_script(name, target, source, true).steps) matches Some(end)
            && end.get(source) matches Some(t) && !tree::too_open(t),
{
    law_adopted_is_linked(name, target, source, true, disk);
    tree::law_tightened_is_tight(disk.at[target]);
}

/// Adopting what matches the cloud copy loses nothing: the cloud copy stays, and
/// it holds the same content as what is dropped.
pub proof fn law_relink_loses_nothing(
    name: Seq<char>,
    target: Seq<char>,
    source: Seq<char>,
    disk: Disk,
    n: int,
)
    requires
        target != source,
        disk.get(target) matches Some(t) && disk.get(source) matches Some(s) && tree::same_tree(
            t,
            s,
        ),
        0 <= n <= 3,
    ensures
        after(disk, apply::relink_script(name, target, source), n) matches Some(mid) && mid.get(
            source,
        ) == disk.get(source),
        run(disk, apply::relink_script(name, target, source).steps) matches Some(end) && end.get(
            target,
        ) == Some(link_to(source)),
{
    let s = apply::relink_script(name, target, source);
    assert(s.steps.take(3) =~= s.steps);
    lemma_run_step(disk, s.steps, 0);
    lemma_run_step(disk, s.steps, 1);
    lemma_run_step(disk, s.steps, 2);
}

/// Adopting what matched the cloud copy stops, with nothing changed, where it no
/// longer does.
pub proof fn law_relink_stops_on_change(
    name: Seq<char>,
    target: Seq<char>,
    source: Seq<char>,
    disk: Disk,
)
    requires
        !(disk.get(target) matches Some(t) && (disk.get(source) matches Some(s) && tree::same_tree(
            t,
            s,
        ))),
    ensures
        after(disk, apply::relink_script(name, target, source), 0) == Some(disk),
        after(disk, apply::relink_script(name, target, source), 1) is None,
{
    lemma_run_step(disk, apply::relink_script(name, target, source).steps, 0);
}

/// Linking a secret sets its permissions again, also where it was linked
/// already: cloud clients often rewrite files open to others.
pub proof fn law_linking_asserts_modes(item: ItemView, backup: Seq<char>)
    requires
        item.mapping.mode is Some,
    ensures
        apply::linking(item, false, backup) matches DecisionView::Perform(s) ==> s.tighten == Some(
            item.source,
        ),
        item.state is Linked && item.target is Some ==> apply::linking(item, false, backup)
            is Perform,
{
}

// ---------------------------------------------------------------------------
// What is left alone
// ---------------------------------------------------------------------------

/// Whether an operation may change what stands at a path.
pub open spec fn changes(op: OpView, p: Seq<char>) -> bool {
    match op {
        OpView::MakeSymlink { original: _, link } => p == link,
        OpView::RemoveSymlink { path } => p == path,
        OpView::RemovePath { path } => p == path,
        OpView::MovePath { from, to } => p == from || p == to,
        OpView::CopyTree { from: _, to } => p == to,
        OpView::Discard { path } => p == path,
        OpView::KeepEqual { .. } => false,
        OpView::KeepSymlink { .. } => false,
        OpView::Tighten { path } => p == path,
    }
}

/// Whether operations, however far they come, leave what stands at a path alone.
pub open spec fn leaves_alone(ops: Seq<OpView>, p: Seq<char>) -> bool {
    forall|i: int| 0 <= i < ops.len() ==> !changes(#[trigger] ops[i], p)
}

/// Operations that leave a path alone leave on it what stood there, on any disk and
/// however far they come.
pub proof fn law_what_is_left_alone_stays(disk: Disk, ops: Seq<OpView>, p: Seq<char>, n: int)
    requires
        leaves_alone(ops, p),
        0 <= n <= ops.len(),
    ensures
        run(disk, ops.take(n)) matches Some(mid) ==> mid.get(p) == disk.get(p),
    decreases n,
{
    if n == 0 {
        assert(ops.take(0) =~= Seq::<OpView>::empty());
    } else {
        law_what_is_left_alone_stays(disk, ops, p, n - 1);
        lemma_run_step(disk, ops, n - 1);
        assert(!changes(ops[n - 1], p));
    }
}

/// An operation on an item changes nothing but what it is about: linking the target
/// and the backup path, unlinking the target, restoring the target and the
/// temporary beside it, and setting a mode the sync copy. Linking, unlinking and
/// restoring leave the sync copy alone, save for the mode of a secret.
pub proof fn law_operations_keep_to_their_paths(
    item: ItemView,
    backup: Seq<char>,
    present: bool,
    found: Option<Tree>,
    p: Seq<char>,
)
    ensures
        apply::linking(item, false, backup) matches DecisionView::Perform(s) ==> p != item.target->0
            && p != backup ==> leaves_alone(s.steps, p) && leaves_alone(s.cleanup, p),
        apply::linking(item, false, backup) matches DecisionView::Perform(s) ==> (item.state
            is Available || item.state is Healable) && p != item.target->0 ==> leaves_alone(
            s.steps,
            p,
        ),
        apply::unlinking(item, false) matches DecisionView::Perform(s) ==> p != item.target->0
            ==> leaves_alone(s.steps, p) && leaves_alone(s.cleanup, p),
        apply::restoring(item, false, present) matches DecisionView::Perform(s) ==> p
            != item.target->0 && p != fsutil::temp_name(item.target->0) ==> leaves_alone(s.steps, p)
            && leaves_alone(s.cleanup, p),
        apply::restoring(item, false, present) matches DecisionView::Perform(s) ==> p
            != fsutil::temp_name(item.target->0) ==> leaves_alone(s.cleanup, p),
        apply::mode_enforcing(item, false, found) matches Some(DecisionView::Perform(s)) ==> p
            != item.source ==> leaves_alone(s.steps, p) && leaves_alone(s.cleanup, p),
{
}

/// Adopting changes nothing but the path that is adopted and where its sync copy
/// goes; where the sync copy is there already, it is left alone.
pub proof fn law_adopting_keeps_to_its_paths(
    name: Seq<char>,
    target: Seq<char>,
    source: Seq<char>,
    secret: bool,
    p: Seq<char>,
)
    ensures
        p != target && p != source ==> leaves_alone(
            apply::adopt_script(name, target, source, secret).steps,
            p,
        ),
        p != target ==> leaves_alone(apply::relink_script(name, target, source).steps, p),
        apply::adopt_script(name, target, source, secret).cleanup.len() == 0,
        apply::relink_script(name, target, source).cleanup.len() == 0,
{
}

/// Undoing changes nothing but the target and where what it puts back is; a restore
/// is undone at the target alone.
pub proof fn law_undo_keeps_to_its_paths(action: UndoView, facts: UndoFactsView, p: Seq<char>)
    ensures
        journal::reversal(action, facts, false) matches DecisionView::Perform(s) ==> s.cleanup.len()
            == 0 && (match action {
            UndoView::Adopt { name: _, target, source } => p != target && p != source
                ==> leaves_alone(s.steps, p),
            UndoView::Backup { name: _, target, source: _, backup } => p != target && p != backup
                ==> leaves_alone(s.steps, p),
            UndoView::Restore { name: _, target, source: _, mapping: _ } => p != target
                ==> leaves_alone(s.steps, p),
        }),
{
}

// ---------------------------------------------------------------------------
// What is left behind
// ---------------------------------------------------------------------------

/// However far restoring came, what is cleaned up afterwards is the temporary beside
/// the target, and only that: none is left behind.
pub proof fn law_a_restore_leaves_no_temporary(
    item: ItemView,
    disk: Disk,
    n: int,
    p: Seq<char>,
)
    requires
        item.state is Linked,
        item.target is Some,
    ensures
        apply::restoring(item, false, true) matches DecisionView::Perform(s) && (0 <= n
            <= s.steps.len() ==> (after(disk, s, n) matches Some(mid) ==> (run(
            mid,
            s.cleanup,
        ) matches Some(end) && !end.has(fsutil::temp_name(item.target->0)) && (p
            != fsutil::temp_name(item.target->0) ==> end.get(p) == mid.get(p))))),
{
    match apply::restoring(item, false, true) {
        DecisionView::Perform(s) => {
            match after(disk, s, n) {
                Some(mid) => {
                    assert(s.cleanup.take(1) =~= s.cleanup);
                    lemma_run_step(mid, s.cleanup, 0);
                },
                None => {},
            }
        },
        _ => {},
    }
}

/// Whether the place that an operation puts something at is free.
pub open spec fn finds_room(disk: Disk, op: OpView) -> bool {
    match op {
        OpView::MovePath { from: _, to } => !disk.has(to),
        OpView::CopyTree { from: _, to } => !disk.has(to),
        OpView::MakeSymlink { original: _, link } => !disk.has(link),
        _ => true,
    }
}

/// Nothing is ever written over: whatever a restore or an undo copies, moves or
/// links somewhere, on any disk, finds nothing there when its turn comes.
pub proof fn law_nothing_is_written_over(
    item: ItemView,
    action: UndoView,
    facts: UndoFactsView,
    disk: Disk,
    n: int,
)
    ensures
        apply::restoring(item, false, true) matches DecisionView::Perform(s) ==> 0 <= n
            < s.steps.len() ==> (after(disk, s, n) matches Some(mid) ==> finds_room(
            mid,
            s.steps[n],
        )),
        journal::reversal(action, facts, false) matches DecisionView::Perform(s) ==> 0 <= n
            < s.steps.len() ==> (after(disk, s, n) matches Some(mid) ==> finds_room(
            mid,
            s.steps[n],
        )),
{
    reveal_strlit(".dotsync-tmp");
    match apply::restoring(item, false, true) {
        DecisionView::Perform(s) => {
            let target = item.target->0;
            assert(fsutil::temp_name(target).len() > target.len());
            lemma_run_step(disk, s.steps, 0);
            lemma_run_step(disk, s.steps, 1);
            if s.steps.len() > 2 {
                lemma_run_step(disk, s.steps, 2);
                lemma_run_step(disk, s.steps, 3);
                lemma_run_step(disk, s.steps, 4);
            }
        },
        _ => {},
    }
    match journal::reversal(action, facts, false) {
        DecisionView::Perform(s) => {
            lemma_run_step(disk, s.steps, 0);
            lemma_run_step(disk, s.steps, 1);
            lemma_run_step(disk, s.steps, 2);
        },
        _ => {},
    }
}

/// Linking and adopting write nothing over either: a backup goes where there is
/// room for it, what is adopted where no sync copy is, and a symlink where what
/// stood there is gone.
pub proof fn law_linking_writes_nothing_over(
    item: ItemView,
    backup: Seq<char>,
    name: Seq<char>,
    target: Seq<char>,
    source: Seq<char>,
    secret: bool,
    disk: Disk,
    n: int,
)
    ensures
        describes(item, disk) && room_for_backup(item, disk, backup) ==> (apply::linking(
            item,
            false,
            backup,
        ) matches DecisionView::Perform(s) ==> 0 <= n < s.steps.len() ==> (after(
            disk,
            s,
            n,
        ) matches Some(mid) ==> finds_room(mid, s.steps[n]))),
        !disk.has(source) && target != source ==> 0 <= n < apply::adopt_script(
            name,
            target,
            source,
            secret,
        ).steps.len() ==> (after(
            disk,
            apply::adopt_script(name, target, source, secret),
            n,
        ) matches Some(mid) ==> finds_room(
            mid,
            apply::adopt_script(name, target, source, secret).steps[n],
        )),
{
    match apply::linking(item, false, backup) {
        DecisionView::Perform(s) => {
            if s.steps.len() > 0 {
                lemma_run_step(disk, s.steps, 0);
            }
            if s.steps.len() > 1 {
                lemma_run_step(disk, s.steps, 1);
            }
            if s.steps.len() > 2 {
                lemma_run_step(disk, s.steps, 2);
            }
        },
        _ => {},
    }
    let a = apply::adopt_script(name, target, source, secret);
    lemma_run_step(disk, a.steps, 0);
    lemma_run_step(disk, a.steps, 1);
    if secret {
        lemma_run_step(disk, a.steps, 2);
    }
}

} // verus!
