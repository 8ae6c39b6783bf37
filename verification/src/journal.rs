//! The undo journal: a per-machine record of each destructive run, so that the
//! most recent one can be reversed.
//!
//! The journal is per-machine state, neither configuration nor part of the
//! synced folder: what an undo restores only ever existed on the machine that
//! ran the operation. There is no separate store of bytes. Originals are kept
//! anyway (the cloud copy, or the backup), so a recorded run holds only the
//! paths. Every reversal is guarded: it acts only if what stands on disk is
//! still exactly what was left there, and otherwise skips and says why.
use vstd::prelude::*;
use vstd::string::*;

use crate::config;
use crate::mapping;
use crate::mapping::{Mapping, MappingView, MappingsFile, MappingsView};
use crate::number;
use crate::path;
use crate::script;
use crate::script::{Decision, DecisionView, Op, OpView, Outcome, OutcomeView};
use crate::text;
use crate::tree;
use crate::tree::{Node, Tree};

verus! {

/// How to reverse one destructive action. Each variant carries the exact paths
/// that the action used: a backup path cannot be found again afterwards.
#[derive(Debug)]
pub enum UndoAction {
    /// A real path was moved into the cloud and symlinked back. Reverse: drop
    /// the symlink, move the cloud copy back, drop the mapping.
    Adopt { name: String, target: String, source: String },
    /// The local file was backed up and the cloud copy linked. Reverse: drop
    /// the symlink, move the backup back over it.
    Backup { name: String, target: String, source: String, backup: String },
    /// A real copy was restored and the mapping dropped. Reverse: drop the real
    /// copy, link the cloud copy again, add the mapping again.
    Restore { name: String, target: String, source: String, mapping: Mapping },
}

/// What an undo action holds.
#[verifier::ext_equal]
pub enum UndoView {
    Adopt { name: Seq<char>, target: Seq<char>, source: Seq<char> },
    Backup { name: Seq<char>, target: Seq<char>, source: Seq<char>, backup: Seq<char> },
    Restore { name: Seq<char>, target: Seq<char>, source: Seq<char>, mapping: MappingView },
}

impl View for UndoAction {
    type V = UndoView;

    open spec fn view(&self) -> UndoView {
        match *self {
            UndoAction::Adopt { name, target, source } => UndoView::Adopt {
                name: name@,
                target: target@,
                source: source@,
            },
            UndoAction::Backup { name, target, source, backup } => UndoView::Backup {
                name: name@,
                target: target@,
                source: source@,
                backup: backup@,
            },
            UndoAction::Restore { name, target, source, mapping } => UndoView::Restore {
                name: name@,
                target: target@,
                source: source@,
                mapping: mapping@,
            },
        }
    }
}

impl DeepView for UndoAction {
    type V = UndoView;

    open spec fn deep_view(&self) -> UndoView {
        self@
    }
}

impl Clone for UndoAction {
    fn clone(&self) -> (r: Self)
        ensures
            r == *self,
    {
        match self {
            UndoAction::Adopt { name, target, source } => UndoAction::Adopt {
                name: name.clone(),
                target: target.clone(),
                source: source.clone(),
            },
            UndoAction::Backup { name, target, source, backup } => UndoAction::Backup {
                name: name.clone(),
                target: target.clone(),
                source: source.clone(),
                backup: backup.clone(),
            },
            UndoAction::Restore { name, target, source, mapping } => UndoAction::Restore {
                name: name.clone(),
                target: target.clone(),
                source: source.clone(),
                mapping: mapping.clone(),
            },
        }
    }
}

impl UndoView {
    /// The name of the mapping that the action concerns.
    pub open spec fn concerns(self) -> Seq<char> {
        match self {
            UndoView::Adopt { name, .. } => name,
            UndoView::Backup { name, .. } => name,
            UndoView::Restore { name, .. } => name,
        }
    }
}

impl UndoAction {
    /// The name of the mapping that the action concerns.
    pub fn name(&self) -> (r: &str)
        ensures
            r@ == self@.concerns(),
    {
        match self {
            UndoAction::Adopt { name, .. } => name.as_str(),
            UndoAction::Backup { name, .. } => name.as_str(),
            UndoAction::Restore { name, .. } => name.as_str(),
        }
    }
}

/// One recorded destructive run.
#[derive(Debug)]
pub struct Run {
    /// Milliseconds since the Unix epoch: the manifest's name and sort key.
    pub id: u128,
    /// The verb that produced the run.
    pub command: String,
    /// The version that wrote the run.
    pub dotsync_version: String,
    /// The reversible actions, in the order in which they were applied.
    pub actions: Vec<UndoAction>,
}

/// What a run holds.
#[verifier::ext_equal]
pub struct RunView {
    pub id: nat,
    pub command: Seq<char>,
    pub dotsync_version: Seq<char>,
    pub actions: Seq<UndoView>,
}

impl View for Run {
    type V = RunView;

    open spec fn view(&self) -> RunView {
        RunView {
            id: self.id as nat,
            command: self.command@,
            dotsync_version: self.dotsync_version@,
            actions: self.actions.deep_view(),
        }
    }
}

impl DeepView for Run {
    type V = RunView;

    open spec fn deep_view(&self) -> RunView {
        self@
    }
}

/// How many recent runs are kept.
pub const KEEP_RUNS: usize = 10;

// ---------------------------------------------------------------------------
// Where the journal is, and what its files are called
// ---------------------------------------------------------------------------

/// The journal directory, from the values of `$DOTSYNC_STATE_DIR`,
/// `$XDG_STATE_HOME` and `$HOME`.
pub open spec fn state_dir(
    own: Option<Seq<char>>,
    xdg: Option<Seq<char>>,
    home: Option<Seq<char>>,
) -> Option<Seq<char>> {
    match config::filled(own) {
        Some(dir) => Some(dir),
        None => match config::filled(xdg) {
            Some(dir) => Some(path::joined(dir, "dotsync"@)),
            None => match config::filled(home) {
                Some(dir) => Some(path::joined(dir, ".local/state/dotsync"@)),
                None => None,
            },
        },
    }
}

/// The default per-machine journal directory: `$DOTSYNC_STATE_DIR`, else
/// `$XDG_STATE_HOME/dotsync`, else `~/.local/state/dotsync`. `None` only when
/// `$HOME` is unset and no override is given.
pub fn default_dir(own: &Option<String>, xdg: &Option<String>, home: &Option<String>) -> (r: Option<
    String,
>)
    ensures
        r.deep_view() == state_dir(own.deep_view(), xdg.deep_view(), home.deep_view()),
{
    match config::non_empty(own) {
        Some(dir) => Some(dir),
        None => match config::non_empty(xdg) {
            Some(dir) => Some(path::join_path(dir.as_str(), "dotsync")),
            None => match config::non_empty(home) {
                Some(dir) => Some(path::join_path(dir.as_str(), ".local/state/dotsync")),
                None => None,
            },
        },
    }
}

/// The file name of a run's manifest.
pub open spec fn manifest(id: nat) -> Seq<char> {
    number::decimal(id) + ".json"@
}

/// The file name of a run's manifest.
pub fn manifest_name(id: u128) -> (r: String)
    ensures
        r@ == manifest(id as nat),
{
    number::decimal_text(id).concat(".json")
}

/// The id of the run that a file name stands for, if it stands for one.
pub open spec fn run_id(name: Seq<char>) -> Option<nat> {
    if text::ends_with(name, ".json"@) {
        number::parsed(name.take(name.len() - ".json"@.len()), 10, u128::MAX as nat)
    } else {
        None
    }
}

fn id_of(name: &str) -> (r: Option<u128>)
    ensures
        match r {
            Some(id) => run_id(name@) == Some(id as nat),
            None => run_id(name@) is None,
        },
{
    if !text::has_suffix(name, ".json") {
        return None;
    }
    let cs = text::chars(name);
    proof {
        reveal_strlit(".json");
    }
    let end: usize = cs.len() - 5;
    let stem = text::slice_text(cs.as_slice(), 0, end);
    assert(stem@ =~= name@.take(name@.len() - ".json"@.len()));
    number::parse_unsigned(stem.as_str(), 10, u128::MAX)
}

/// A manifest's name stands for the run that it was made for.
pub proof fn law_manifest_reads_back(id: nat)
    requires
        id <= u128::MAX,
    ensures
        run_id(manifest(id)) == Some(id),
{
    reveal_strlit(".json");
    let name = manifest(id);
    assert(name.take(name.len() - ".json"@.len()) =~= number::decimal(id));
    assert(name.skip(name.len() - ".json"@.len()) =~= ".json"@);
    number::law_decimal_reads_back(id, u128::MAX as nat);
}

/// The ids that the file names stand for, in order.
pub open spec fn ids_in(names: Seq<Seq<char>>) -> Seq<nat>
    decreases names.len(),
{
    if names.len() == 0 {
        seq![]
    } else {
        match run_id(names.last()) {
            Some(id) => ids_in(names.drop_last()).push(id),
            None => ids_in(names.drop_last()),
        }
    }
}

/// The ids as numbers.
pub open spec fn nats(ids: Seq<u128>) -> Seq<nat> {
    ids.map_values(|id: u128| id as nat)
}

/// The ids of the runs that are recorded, from the file names in the journal
/// directory.
pub fn read_ids(names: &Vec<String>) -> (r: Vec<u128>)
    ensures
        nats(r@) == ids_in(names.deep_view()),
{
    let ghost all = names.deep_view();
    let mut r: Vec<u128> = Vec::new();
    let mut i: usize = 0;
    assert(nats(r@) =~= ids_in(all.take(0)));
    while i < names.len()
        invariant
            i <= names@.len(),
            all == names.deep_view(),
            nats(r@) == ids_in(all.take(i as int)),
        decreases names@.len() - i,
    {
        let ghost before = r@;
        assert(all.take(i + 1).drop_last() =~= all.take(i as int));
        assert(all.take(i + 1).last() == all[i as int]);
        match id_of(names[i].as_str()) {
            Some(id) => {
                r.push(id);
                assert(nats(r@) =~= nats(before).push(id as nat));
            },
            None => {},
        }
        i += 1;
    }
    assert(all.take(i as int) =~= all);
    r
}

// ---------------------------------------------------------------------------
// Recording, pruning and listing
// ---------------------------------------------------------------------------

/// Whether `id` is the first from `now` on whose manifest's name is not taken.
pub open spec fn first_free_id(now: nat, names: Seq<Seq<char>>, id: nat) -> bool {
    &&& now <= id
    &&& !names.contains(manifest(id))
    &&& forall|k: nat| now <= k < id ==> names.contains(#[trigger] manifest(k))
}

/// Different runs have different manifest names.
pub proof fn law_manifests_differ(a: nat, b: nat)
    requires
        manifest(a) == manifest(b),
    ensures
        a == b,
{
    reveal_strlit(".json");
    assert(manifest(a).take(manifest(a).len() - 5) =~= number::decimal(a));
    assert(manifest(b).take(manifest(b).len() - 5) =~= number::decimal(b));
    number::law_decimal_injective(a, b);
}

/// An id for a run that begins at `now`: unique even for two runs within the
/// same millisecond.
pub fn fresh_id(now: u128, names: &Vec<String>) -> (r: u128)
    requires
        now + names@.len() <= u128::MAX,
    ensures
        first_free_id(now as nat, names.deep_view(), r as nat),
{
    let ghost all = names.deep_view();
    let size: usize = names.len();
    let mut id: u128 = now;
    loop
        invariant
            all == names.deep_view(),
            size == all.len(),
            now + size <= u128::MAX,
            now <= id <= now + size,
            forall|k: nat| now <= k < id ==> all.contains(#[trigger] manifest(k)),
        decreases now + size - id,
    {
        let name = manifest_name(id);
        if !text::list_has(names, name.as_str()) {
            return id;
        }
        proof {
            let found = Seq::new((id - now + 1) as nat, |i: int| manifest((now + i) as nat));
            assert forall|i: int, j: int| 0 <= i < found.len() && 0 <= j < found.len() && i != j
                implies found[i] != found[j] by {
                if found[i] == found[j] {
                    law_manifests_differ((now + i) as nat, (now + j) as nat);
                }
            }
            assert forall|i: int| 0 <= i < found.len() implies all.contains(
                #[trigger] found[i],
            ) by {
                assert(all.contains(manifest((now + i) as nat)));
            }
            text::lemma_distinct_fit(found, all);
        }
        id += 1;
    }
}

/// The run that is recorded for a command.
pub open spec fn recorded(id: nat, command: Seq<char>, actions: Seq<UndoView>) -> RunView {
    RunView { id, command, dotsync_version: mapping::VERSION@, actions }
}

/// The run to record for those actions, where `now` is the time and `names` are
/// the file names in the journal directory. Nothing is recorded for no actions.
pub fn record(now: u128, command: &str, actions: Vec<UndoAction>, names: &Vec<String>) -> (r: Option<
    Run,
>)
    requires
        now + names@.len() <= u128::MAX,
    ensures
        match r {
            None => actions@.len() == 0,
            Some(run) => actions@.len() > 0 && first_free_id(
                now as nat,
                names.deep_view(),
                run@.id,
            ) && run@ == recorded(run@.id, command@, actions.deep_view()),
        },
{
    if actions.len() == 0 {
        return None;
    }
    let id = fresh_id(now, names);
    Some(
        Run {
            id,
            command: command.to_owned(),
            dotsync_version: mapping::VERSION.to_owned(),
            actions,
        },
    )
}

/// An id put into an ascending list.
pub open spec fn placed(sorted: Seq<nat>, id: nat) -> Seq<nat>
    decreases sorted.len(),
{
    if sorted.len() == 0 || sorted.last() <= id {
        sorted.push(id)
    } else {
        placed(sorted.drop_last(), id).push(sorted.last())
    }
}

/// The ids in ascending order.
pub open spec fn ascending(ids: Seq<nat>) -> Seq<nat>
    decreases ids.len(),
{
    if ids.len() == 0 {
        seq![]
    } else {
        placed(ascending(ids.drop_last()), ids.last())
    }
}

/// Whether the ids are in ascending order.
pub open spec fn is_ascending(ids: Seq<nat>) -> bool {
    forall|i: int, j: int| 0 <= i <= j < ids.len() ==> ids[i] <= ids[j]
}

proof fn lemma_placed(sorted: Seq<nat>, id: nat)
    requires
        is_ascending(sorted),
    ensures
        is_ascending(placed(sorted, id)),
        placed(sorted, id).len() == sorted.len() + 1,
        placed(sorted, id).to_multiset() == sorted.to_multiset().insert(id),
        sorted.len() > 0 && sorted.last() > id ==> placed(sorted, id).last() == sorted.last(),
        forall|x: nat|
            #![trigger placed(sorted, id).contains(x)]
            placed(sorted, id).contains(x) <==> sorted.contains(x) || x == id,
    decreases sorted.len(),
{
    broadcast use vstd::seq_lib::group_to_multiset_ensures;

    let out = placed(sorted, id);
    if sorted.len() == 0 || sorted.last() <= id {
        assert forall|x: nat| #![trigger out.contains(x)] out.contains(x) <==> sorted.contains(x)
            || x == id by {
            if sorted.contains(x) {
                let k = choose|k: int| 0 <= k < sorted.len() && sorted[k] == x;
                assert(out[k] == x);
            }
            assert(out[sorted.len() as int] == id);
        }
    } else {
        let init = sorted.drop_last();
        lemma_placed(init, id);
        let rest = placed(init, id);
        assert(sorted =~= init.push(sorted.last()));
        assert forall|x: nat| #![trigger out.contains(x)] out.contains(x) <==> sorted.contains(x)
            || x == id by {
            if rest.contains(x) {
                let k = choose|k: int| 0 <= k < rest.len() && rest[k] == x;
                assert(out[k] == x);
            }
            assert(out[rest.len() as int] == sorted.last());
            if init.contains(x) {
                let k = choose|k: int| 0 <= k < init.len() && init[k] == x;
                assert(sorted[k] == x);
            }
            assert(sorted[sorted.len() - 1] == sorted.last());
            if sorted.contains(x) {
                let k = choose|k: int| 0 <= k < sorted.len() && sorted[k] == x;
                if k < init.len() {
                    assert(init[k] == x);
                }
            }
            if out.contains(x) {
                let k = choose|k: int| 0 <= k < out.len() && out[k] == x;
                if k < rest.len() {
                    assert(rest[k] == x);
                }
            }
        }
        assert forall|i: int| 0 <= i < rest.len() implies rest[i] <= sorted.last() by {
            assert(rest.contains(rest[i]));
            if rest[i] != id {
                assert(init.contains(rest[i]));
            }
        }
    }
}

/// Putting ids in ascending order keeps each as often as it was there.
pub proof fn lemma_ascending(ids: Seq<nat>)
    ensures
        is_ascending(ascending(ids)),
        ascending(ids).len() == ids.len(),
        ascending(ids).to_multiset() == ids.to_multiset(),
    decreases ids.len(),
{
    broadcast use vstd::seq_lib::group_to_multiset_ensures;

    if ids.len() > 0 {
        lemma_ascending(ids.drop_last());
        lemma_placed(ascending(ids.drop_last()), ids.last());
        assert(ids =~= ids.drop_last().push(ids.last()));
    } else {
        assert(ids =~= Seq::<nat>::empty());
    }
}

fn sort_ids(ids: &Vec<u128>) -> (r: Vec<u128>)
    ensures
        nats(r@) == ascending(nats(ids@)),
{
    let mut r: Vec<u128> = Vec::new();
    let mut i: usize = 0;
    let ghost all = nats(ids@);
    assert(nats(r@) =~= ascending(all.take(0)));
    while i < ids.len()
        invariant
            i <= ids@.len(),
            all == nats(ids@),
            nats(r@) == ascending(all.take(i as int)),
        decreases ids@.len() - i,
    {
        let id = ids[i];
        let ghost sorted = nats(r@);
        let mut k: usize = r.len();
        assert(sorted.take(k as int) =~= sorted);
        assert(sorted.skip(k as int) =~= Seq::<nat>::empty());
        assert(placed(sorted, id as nat) =~= placed(sorted.take(k as int), id as nat)
            + sorted.skip(k as int));
        while k > 0 && r[k - 1] > id
            invariant
                k <= r@.len(),
                sorted == nats(r@),
                placed(sorted, id as nat) == placed(sorted.take(k as int), id as nat)
                    + sorted.skip(k as int),
            decreases k,
        {
            proof {
                let part = sorted.take(k as int);
                assert(part.last() == r@[k - 1]);
                assert(part.drop_last() =~= sorted.take(k - 1));
                assert(placed(part, id as nat) + sorted.skip(k as int) =~= placed(
                    sorted.take(k - 1),
                    id as nat,
                ) + sorted.skip(k - 1));
            }
            k -= 1;
        }
        proof {
            let part = sorted.take(k as int);
            if k > 0 {
                assert(part.last() == r@[k - 1]);
            }
            assert(placed(part, id as nat) =~= part.push(id as nat));
            assert(sorted.insert(k as int, id as nat) =~= part.push(id as nat) + sorted.skip(
                k as int,
            ));
            assert(all.take(i + 1).drop_last() =~= all.take(i as int));
            assert(all.take(i + 1).last() == id as nat);
        }
        r.insert(k, id);
        assert(nats(r@) =~= sorted.insert(k as int, id as nat));
        i += 1;
    }
    assert(all.take(i as int) =~= all);
    r
}

/// How many of so many runs are too many.
pub open spec fn excess(n: nat) -> nat {
    if n > KEEP_RUNS {
        (n - KEEP_RUNS) as nat
    } else {
        0
    }
}

/// The ids of the runs to forget: the oldest, until only the newest are left.
pub open spec fn pruned(ids: Seq<nat>) -> Seq<nat> {
    ascending(ids).take(excess(ids.len()) as int)
}

/// The ids of the runs that stay.
pub open spec fn kept(ids: Seq<nat>) -> Seq<nat> {
    ascending(ids).skip(excess(ids.len()) as int)
}

/// The ids of the runs to forget, from the file names in the journal directory.
pub fn prune(names: &Vec<String>) -> (r: Vec<u128>)
    ensures
        nats(r@) == pruned(ids_in(names.deep_view())),
{
    let ids = read_ids(names);
    let mut r = sort_ids(&ids);
    let excess: usize = if ids.len() > KEEP_RUNS {
        ids.len() - KEEP_RUNS
    } else {
        0
    };
    proof {
        lemma_ascending(nats(ids@));
        assert(nats(ids@).len() == ids@.len());
        assert(nats(r@).len() == r@.len());
    }
    let ghost sorted = r@;
    r.truncate(excess);
    assert(nats(r@) =~= nats(sorted).take(excess as int));
    r
}

/// Pruning keeps the newest runs: no more than the limit, each recorded run is
/// either kept or forgotten, and what is forgotten is no newer than what stays.
pub proof fn law_prune_keeps_newest(ids: Seq<nat>)
    ensures
        kept(ids).len() == (if ids.len() < KEEP_RUNS {
            ids.len() as int
        } else {
            KEEP_RUNS as int
        }),
        pruned(ids).to_multiset().add(kept(ids).to_multiset()) == ids.to_multiset(),
        forall|i: int, j: int|
            #![trigger pruned(ids)[i], kept(ids)[j]]
            0 <= i < pruned(ids).len() && 0 <= j < kept(ids).len() ==> pruned(ids)[i]
                <= kept(ids)[j],
{
    lemma_ascending(ids);
    let all = ascending(ids);
    let n = excess(ids.len()) as int;
    vstd::seq_lib::lemma_multiset_commutative(all.take(n), all.skip(n));
    assert(all.take(n) + all.skip(n) =~= all);
}

/// The greatest of the ids.
pub open spec fn greatest(ids: Seq<nat>, id: nat) -> bool {
    ids.contains(id) && forall|i: int| 0 <= i < ids.len() ==> #[trigger] ids[i] <= id
}

/// The id of the most recent run, if any, from the file names in the journal
/// directory.
pub fn latest(names: &Vec<String>) -> (r: Option<u128>)
    ensures
        match r {
            Some(id) => greatest(ids_in(names.deep_view()), id as nat),
            None => ids_in(names.deep_view()).len() == 0,
        },
{
    let ids = read_ids(names);
    let ghost all = nats(ids@);
    if ids.len() == 0 {
        return None;
    }
    let mut best: u128 = ids[0];
    let mut i: usize = 1;
    assert(all[0] == best as nat);
    while i < ids.len()
        invariant
            1 <= i <= ids@.len(),
            all == nats(ids@),
            all.contains(best as nat),
            forall|j: int| 0 <= j < i ==> #[trigger] all[j] <= best,
        decreases ids@.len() - i,
    {
        assert(all[i as int] == ids@[i as int] as nat);
        if ids[i] > best {
            best = ids[i];
        }
        i += 1;
    }
    Some(best)
}

/// A run put into a list that has the newest first, ahead of those that are as
/// new.
pub open spec fn placed_newest(sorted: Seq<RunView>, run: RunView) -> Seq<RunView>
    decreases sorted.len(),
{
    if sorted.len() == 0 || sorted[0].id <= run.id {
        seq![run] + sorted
    } else {
        seq![sorted[0]] + placed_newest(sorted.skip(1), run)
    }
}

/// The runs with the newest first; of those that are as new, the order stays.
pub open spec fn newest_first(runs: Seq<RunView>) -> Seq<RunView>
    decreases runs.len(),
{
    if runs.len() == 0 {
        seq![]
    } else {
        placed_newest(newest_first(runs.skip(1)), runs[0])
    }
}

/// Every recorded run that could be read, newest first.
pub fn list(runs: Vec<Run>) -> (r: Vec<Run>)
    ensures
        r.deep_view() == newest_first(runs.deep_view()),
{
    let ghost all = runs.deep_view();
    let mut rest = runs;
    let mut r: Vec<Run> = Vec::new();
    proof {
        assert(all.take(all.len() as int) =~= all);
        assert(r.deep_view() =~= newest_first(all.skip(all.len() as int)));
    }
    while rest.len() > 0
        invariant
            rest@.len() <= all.len(),
            rest.deep_view() == all.take(rest@.len() as int),
            r.deep_view() == newest_first(all.skip(rest@.len() as int)),
        decreases rest@.len(),
    {
        let ghost n = rest@.len() as int;
        let ghost before = rest.deep_view();
        let ghost sorted = r.deep_view();
        let run = match rest.pop() {
            Some(run) => run,
            None => return r,
        };
        proof {
            assert(run@ == before[n - 1]);
            assert(rest.deep_view() =~= before.drop_last());
            assert(before.drop_last() =~= all.take(n - 1));
            assert(all.skip(n - 1).skip(1) =~= all.skip(n));
            assert(all.skip(n - 1)[0] == run@);
        }
        let id = run.id;
        let mut k: usize = 0;
        assert(sorted.skip(0) =~= sorted);
        assert(placed_newest(sorted, run@) =~= sorted.take(0) + placed_newest(
            sorted.skip(0),
            run@,
        ));
        while k < r.len() && r[k].id > id
            invariant
                k <= r@.len(),
                sorted == r.deep_view(),
                id as nat == run@.id,
                placed_newest(sorted, run@) == sorted.take(k as int) + placed_newest(
                    sorted.skip(k as int),
                    run@,
                ),
            decreases r@.len() - k,
        {
            proof {
                let part = sorted.skip(k as int);
                assert(part[0] == r@[k as int]@);
                assert(part.skip(1) =~= sorted.skip(k + 1));
                assert(sorted.take(k as int) + placed_newest(part, run@) =~= sorted.take(k + 1)
                    + placed_newest(sorted.skip(k + 1), run@));
            }
            k += 1;
        }
        proof {
            let part = sorted.skip(k as int);
            if k < r@.len() {
                assert(part[0] == r@[k as int]@);
            }
            assert(placed_newest(part, run@) =~= seq![run@] + part);
            assert(sorted.insert(k as int, run@) =~= sorted.take(k as int) + (seq![run@] + part));
        }
        r.insert(k, run);
        assert(r.deep_view() =~= sorted.insert(k as int, run@));
    }
    assert(all.skip(0) =~= all);
    r
}

/// The list has every run it was given, and none is newer than one before it.
pub proof fn law_list_is_newest_first(runs: Seq<RunView>)
    ensures
        newest_first(runs).to_multiset() == runs.to_multiset(),
        forall|i: int, j: int|
            0 <= i <= j < newest_first(runs).len() ==> newest_first(runs)[i].id >= newest_first(
                runs,
            )[j].id,
    decreases runs.len(),
{
    broadcast use vstd::seq_lib::group_to_multiset_ensures;

    if runs.len() > 0 {
        let rest = runs.skip(1);
        law_list_is_newest_first(rest);
        lemma_placed_newest(newest_first(rest), runs[0]);
        lemma_multiset_front(runs[0], rest);
        assert(runs =~= seq![runs[0]] + rest);
    } else {
        assert(runs =~= Seq::<RunView>::empty());
    }
}

proof fn lemma_multiset_front(first: RunView, rest: Seq<RunView>)
    ensures
        (seq![first] + rest).to_multiset() == rest.to_multiset().insert(first),
{
    broadcast use vstd::seq_lib::group_to_multiset_ensures;

    vstd::seq_lib::lemma_multiset_commutative(seq![first], rest);
    let none = Seq::<RunView>::empty();
    assert(seq![first] =~= none.push(first));
    assert(none.to_multiset() =~= vstd::multiset::Multiset::empty());
    assert((seq![first] + rest).to_multiset() =~= rest.to_multiset().insert(first));
}

proof fn lemma_placed_newest(sorted: Seq<RunView>, run: RunView)
    requires
        forall|i: int, j: int| 0 <= i <= j < sorted.len() ==> sorted[i].id >= sorted[j].id,
    ensures
        placed_newest(sorted, run).to_multiset() == sorted.to_multiset().insert(run),
        forall|i: int, j: int|
            0 <= i <= j < placed_newest(sorted, run).len() ==> placed_newest(sorted, run)[i].id
                >= placed_newest(sorted, run)[j].id,
        forall|i: int|
            0 <= i < placed_newest(sorted, run).len() ==> (#[trigger] placed_newest(
                sorted,
                run,
            )[i]).id <= run.id || sorted.len() > 0 && placed_newest(sorted, run)[i].id
                <= sorted[0].id,
    decreases sorted.len(),
{
    let out = placed_newest(sorted, run);
    if sorted.len() == 0 || sorted[0].id <= run.id {
        lemma_multiset_front(run, sorted);
    } else {
        let rest = sorted.skip(1);
        let tail = placed_newest(rest, run);
        lemma_placed_newest(rest, run);
        lemma_multiset_front(sorted[0], tail);
        lemma_multiset_front(sorted[0], rest);
        assert(sorted =~= seq![sorted[0]] + rest);
        assert(out.to_multiset() =~= sorted.to_multiset().insert(run));
        assert forall|i: int| 0 <= i < tail.len() implies (#[trigger] tail[i]).id
            <= sorted[0].id by {
            if rest.len() > 0 {
                assert(rest[0] == sorted[1]);
            }
        }
        assert forall|i: int, j: int| 0 <= i <= j < out.len() implies out[i].id >= out[j].id by {
            if i > 0 {
                assert(out[i] == tail[i - 1]);
            }
            if j > 0 {
                assert(out[j] == tail[j - 1]);
            }
        }
        assert forall|i: int| 0 <= i < out.len() implies (#[trigger] out[i]).id <= run.id
            || out[i].id <= sorted[0].id by {
            if i > 0 {
                assert(out[i] == tail[i - 1]);
            }
        }
    }
}

// ---------------------------------------------------------------------------
// Reversing
// ---------------------------------------------------------------------------

/// What was found on disk about one recorded action.
#[derive(Debug)]
pub struct UndoFacts {
    /// Whether the target is a symlink.
    pub is_link: bool,
    /// The destination of that symlink, when it could be read.
    pub link: Option<String>,
    /// Whether anything stands at the sync copy's path.
    pub source_present: bool,
    /// Whether anything stands at the backup's path.
    pub backup_present: bool,
    /// What stands at the target.
    pub target: Option<Node>,
    /// What stands at the sync copy's path.
    pub source: Option<Node>,
}

/// What those facts hold.
pub struct UndoFactsView {
    pub is_link: bool,
    pub link: Option<Seq<char>>,
    pub source_present: bool,
    pub backup_present: bool,
    pub target: Option<Tree>,
    pub source: Option<Tree>,
}

impl View for UndoFacts {
    type V = UndoFactsView;

    open spec fn view(&self) -> UndoFactsView {
        UndoFactsView {
            is_link: self.is_link,
            link: self.link.deep_view(),
            source_present: self.source_present,
            backup_present: self.backup_present,
            target: self.target.deep_view(),
            source: self.source.deep_view(),
        }
    }
}

impl UndoFactsView {
    /// Whether the target is still exactly the symlink that leads to `source`.
    pub open spec fn ours(self, source: Seq<char>) -> bool {
        self.link matches Some(dest) && self.is_link && path::same_path(dest, source)
    }

    /// Whether what stands at the target has the content of the sync copy.
    pub open spec fn matching(self) -> bool {
        self.target matches Some(t) && self.source matches Some(s) && tree::same_tree(t, s)
    }
}

fn is_our_symlink(facts: &UndoFacts, source: &str) -> (r: bool)
    ensures
        r == facts@.ours(source@),
{
    facts.is_link && match &facts.link {
        Some(dest) => path::same(dest.as_str(), source),
        None => false,
    }
}

/// Dropping the symlink at the target, while it is one, and moving something
/// there.
pub open spec fn put_back(target: Seq<char>, from: Seq<char>) -> Seq<OpView> {
    seq![
        OpView::KeepSymlink { path: target },
        OpView::RemoveSymlink { path: target },
        OpView::MovePath { from, to: target },
    ]
}

/// What reversing one action comes to.
pub open spec fn reversal(action: UndoView, facts: UndoFactsView, dry_run: bool) -> DecisionView {
    let name = action.concerns();
    match action {
        UndoView::Adopt { name: _, target, source } => if !facts.ours(source) {
            script::report(name, "skipped"@, true, "target is no longer dotsync's symlink"@)
        } else if !facts.source_present {
            script::report(name, "skipped"@, true, "cloud copy is gone — nothing to move back"@)
        } else if dry_run {
            script::report(name, "would-undo"@, true, "move back to $HOME, drop mapping"@)
        } else {
            DecisionView::Perform(
                script::plain_script(
                    name,
                    put_back(target, source),
                    "un-adopted"@,
                    "moved back to $HOME, mapping dropped"@,
                ),
            )
        },
        UndoView::Backup { name: _, target, source, backup } => if !facts.ours(source) {
            script::report(name, "skipped"@, true, "target is no longer dotsync's symlink"@)
        } else if !facts.backup_present {
            script::report(name, "skipped"@, true, "backup is gone — nothing to restore"@)
        } else if dry_run {
            script::report(name, "would-undo"@, true, "restore "@ + backup)
        } else {
            DecisionView::Perform(
                script::plain_script(
                    name,
                    put_back(target, backup),
                    "restored-backup"@,
                    "put the backed-up file back"@,
                ),
            )
        },
        UndoView::Restore { name: _, target, source, mapping: _ } => if facts.is_link {
            script::report(name, "skipped"@, true, "already re-linked"@)
        } else if !facts.source_present {
            script::report(name, "skipped"@, true, "cloud copy is gone — cannot re-link"@)
        } else if !facts.matching() {
            script::report(
                name,
                "skipped"@,
                true,
                "changed since it was restored — kept your version"@,
            )
        } else if dry_run {
            script::report(name, "would-undo"@, true, "re-link and restore the mapping"@)
        } else {
            DecisionView::Perform(
                script::plain_script(
                    name,
                    seq![
                        OpView::KeepEqual { target, source },
                        OpView::RemovePath { path: target },
                        OpView::MakeSymlink { original: source, link: target },
                    ],
                    "re-linked"@,
                    "restored the symlink and the mapping"@,
                ),
            )
        },
    }
}

fn put_back_steps(target: &str, from: &str) -> (r: Vec<Op>)
    ensures
        r.deep_view() == put_back(target@, from@),
{
    script::three(
        Op::KeepSymlink { path: target.to_owned() },
        Op::RemoveSymlink { path: target.to_owned() },
        Op::MovePath { from: from.to_owned(), to: target.to_owned() },
    )
}

/// What reversing one action comes to. Guarded: if what stands on disk is not
/// exactly what was left there, nothing is touched and the report says why.
pub fn revert_one(action: &UndoAction, facts: &UndoFacts, dry_run: bool) -> (r: Decision)
    ensures
        r@ == reversal(action@, facts@, dry_run),
{
    let name = action.name();
    match action {
        UndoAction::Adopt { name: _, target, source } => if !is_our_symlink(
            facts,
            source.as_str(),
        ) {
            script::reported(name, "skipped", true, "target is no longer dotsync's symlink")
        } else if !facts.source_present {
            script::reported(name, "skipped", true, "cloud copy is gone — nothing to move back")
        } else if dry_run {
            script::reported(name, "would-undo", true, "move back to $HOME, drop mapping")
        } else {
            Decision::Perform(
                script::script(
                    name,
                    put_back_steps(target.as_str(), source.as_str()),
                    "un-adopted",
                    "moved back to $HOME, mapping dropped",
                ),
            )
        },
        UndoAction::Backup { name: _, target, source, backup } => if !is_our_symlink(
            facts,
            source.as_str(),
        ) {
            script::reported(name, "skipped", true, "target is no longer dotsync's symlink")
        } else if !facts.backup_present {
            script::reported(name, "skipped", true, "backup is gone — nothing to restore")
        } else if dry_run {
            script::reported(
                name,
                "would-undo",
                true,
                "restore ".to_owned().concat(backup.as_str()).as_str(),
            )
        } else {
            Decision::Perform(
                script::script(
                    name,
                    put_back_steps(target.as_str(), backup.as_str()),
                    "restored-backup",
                    "put the backed-up file back",
                ),
            )
        },
        UndoAction::Restore { name: _, target, source, mapping: _ } => if facts.is_link {
            script::reported(name, "skipped", true, "already re-linked")
        } else if !facts.source_present {
            script::reported(name, "skipped", true, "cloud copy is gone — cannot re-link")
        } else if !tree::trees_equal(&facts.target, &facts.source) {
            script::reported(
                name,
                "skipped",
                true,
                "changed since it was restored — kept your version",
            )
        } else if dry_run {
            script::reported(name, "would-undo", true, "re-link and restore the mapping")
        } else {
            let steps = script::three(
                Op::KeepEqual { target: target.clone(), source: source.clone() },
                Op::RemovePath { path: target.clone() },
                Op::MakeSymlink { original: source.clone(), link: target.clone() },
            );
            Decision::Perform(
                script::script(name, steps, "re-linked", "restored the symlink and the mapping"),
            )
        },
    }
}

/// The mappings once an action is reversed: an adopted one is dropped, a dropped
/// one is back.
pub open spec fn reversed_mappings(action: UndoView, mappings: Seq<MappingView>) -> Seq<
    MappingView,
> {
    match action {
        UndoView::Adopt { name, .. } => mapping::without(mappings, name),
        UndoView::Backup { .. } => mappings,
        UndoView::Restore { name: _, target: _, source: _, mapping } => mapping::upserted(
            mappings,
            mapping,
        ),
    }
}

/// Reversing a run: which one, whether only to show what would be done, what is
/// still to be reversed, the mappings as they are by now, whether they changed,
/// and what was reported so far.
#[derive(Debug)]
pub struct Reverting {
    pub id: u128,
    pub dry_run: bool,
    pub pending: Vec<UndoAction>,
    pub mappings: MappingsFile,
    pub changed: bool,
    pub outcomes: Vec<Outcome>,
}

/// What that holds.
#[verifier::ext_equal]
pub struct RevertingView {
    pub id: nat,
    pub dry_run: bool,
    pub pending: Seq<UndoView>,
    pub mappings: MappingsView,
    pub changed: bool,
    pub outcomes: Seq<OutcomeView>,
}

impl View for Reverting {
    type V = RevertingView;

    open spec fn view(&self) -> RevertingView {
        RevertingView {
            id: self.id as nat,
            dry_run: self.dry_run,
            pending: self.pending.deep_view(),
            mappings: self.mappings@,
            changed: self.changed,
            outcomes: self.outcomes.deep_view(),
        }
    }
}

/// Reversing that run, with nothing done yet.
pub open spec fn reverting(run: RunView, mappings: MappingsView, dry_run: bool) -> RevertingView {
    RevertingView {
        id: run.id,
        dry_run,
        pending: run.actions,
        mappings,
        changed: false,
        outcomes: seq![],
    }
}

/// Begin to reverse the most recent run; `None` when there is none.
pub fn revert(run: Option<Run>, mappings: MappingsFile, dry_run: bool) -> (r: Option<Reverting>)
    ensures
        match run {
            Some(run) => r is Some && (r->0)@ == reverting(run@, mappings@, dry_run),
            None => r is None,
        },
{
    match run {
        Some(run) => {
            let r = Reverting {
                id: run.id,
                dry_run,
                pending: run.actions,
                mappings,
                changed: false,
                outcomes: Vec::new(),
            };
            assert(r@.outcomes =~= Seq::<OutcomeView>::empty());
            Some(r)
        },
        None => None,
    }
}

impl RevertingView {
    /// The same once an action ended: `done` is whether it was reversed.
    pub open spec fn settled(
        self,
        action: UndoView,
        done: bool,
        outcome: OutcomeView,
    ) -> RevertingView {
        RevertingView {
            id: self.id,
            dry_run: self.dry_run,
            pending: self.pending,
            mappings: MappingsView {
                version: self.mappings.version,
                mappings: if done {
                    reversed_mappings(action, self.mappings.mappings)
                } else {
                    self.mappings.mappings
                },
            },
            changed: self.changed || done && !(action is Backup),
            outcomes: self.outcomes.push(outcome),
        }
    }

    /// The action to reverse next: the one of those left that was applied last.
    pub open spec fn upcoming(self) -> Option<UndoView> {
        if self.pending.len() > 0 {
            Some(self.pending.last())
        } else {
            None
        }
    }

    /// With the action to reverse next taken out of what is left.
    pub open spec fn taken_up(self) -> RevertingView {
        RevertingView { pending: self.pending.drop_last(), ..self }
    }

    /// The document to write, if the mappings changed and this is no dry run.
    pub open spec fn written(self) -> Option<MappingsView> {
        if self.dry_run || !self.changed {
            None
        } else {
            Some(self.mappings.saved())
        }
    }

    /// The run to forget, unless this is a dry run.
    pub open spec fn forgotten(self) -> Option<nat> {
        if self.dry_run {
            None
        } else {
            Some(self.id)
        }
    }
}

impl Reverting {
    /// The action to reverse next, if any is left: the last one applied comes
    /// first.
    pub fn next(&mut self) -> (r: Option<UndoAction>)
        ensures
            match r {
                Some(action) => old(self)@.upcoming() == Some(action@) && final(self)@ == old(
                    self,
                )@.taken_up(),
                None => old(self)@.upcoming() is None && final(self)@ == old(self)@,
            },
    {
        let ghost before = self@;
        let r = self.pending.pop();
        proof {
            if before.pending.len() > 0 {
                assert(self@.pending =~= before.pending.drop_last());
            }
            assert(self@.outcomes == before.outcomes);
        }
        r
    }

    /// Take up how reversing an action ended; `done` is whether its script was
    /// carried out in full.
    pub fn settle(&mut self, action: &UndoAction, done: bool, outcome: Outcome)
        ensures
            final(self)@ == old(self)@.settled(action@, done, outcome@),
    {
        let ghost before = self@;
        if done {
            match action {
                UndoAction::Adopt { name, .. } => {
                    self.mappings.remove(name.as_str());
                    self.changed = true;
                },
                UndoAction::Backup { .. } => {},
                UndoAction::Restore { name: _, target: _, source: _, mapping } => {
                    self.mappings.upsert(mapping.clone());
                    self.changed = true;
                },
            }
        }
        self.outcomes.push(outcome);
        proof {
            assert(self@.outcomes =~= before.outcomes.push(outcome@));
            assert(self@ =~= before.settled(action@, done, outcome@));
        }
    }

    /// The document to write once nothing is left, if the mappings changed and
    /// this is no dry run.
    pub fn document(&self) -> (r: Option<MappingsFile>)
        ensures
            match r {
                Some(file) => self@.written() == Some(file@),
                None => self@.written() is None,
            },
    {
        if self.dry_run || !self.changed {
            None
        } else {
            Some(self.mappings.save())
        }
    }

    /// The run to forget once nothing is left, unless this is a dry run: a run is
    /// reversed at most once.
    pub fn consumed(&self) -> (r: Option<u128>)
        ensures
            match r {
                Some(id) => self@.forgotten() == Some(id as nat),
                None => self@.forgotten() is None,
            },
    {
        if self.dry_run {
            None
        } else {
            Some(self.id)
        }
    }
}

/// Undoing acts exactly when the disk still is as the action left it: adopting and
/// backing up are undone while the target is the symlink that was made and what was
/// moved away is still there, and a restore while the target is no symlink and
/// still has the content of the sync copy. Else the report says so, as no failure,
/// and nothing is recorded. A dry run announces exactly what would be done.
pub proof fn law_undo_acts_exactly_on_what_is_untouched(action: UndoView, facts: UndoFactsView)
    ensures
        reversal(action, facts, false) is Perform <==> (match action {
            UndoView::Adopt { name: _, target: _, source } => facts.is_link && facts.source_present
                && (facts.link matches Some(d) && path::components(d) == path::components(source)),
            UndoView::Backup { name: _, target: _, source, backup: _ } => facts.is_link
                && facts.backup_present && (facts.link matches Some(d) && path::components(d)
                == path::components(source)),
            UndoView::Restore { .. } => !facts.is_link && facts.source_present
                && facts.target is Some && facts.source is Some && tree::same_tree(
                facts.target->0,
                facts.source->0,
            ),
        }),
        reversal(action, facts, false) matches DecisionView::Report(o) ==> o.ok && o.action
            == "skipped"@ && o.undo is None && reversal(action, facts, true) == reversal(
            action,
            facts,
            false,
        ),
        reversal(action, facts, false) matches DecisionView::Perform(s) ==> s.undo is None && (
        reversal(action, facts, true) matches DecisionView::Report(o) && o.ok && o.action
            == "would-undo"@),
        reversal(action, facts, true) is Report,
{
}

/// What is recorded of a command are all its actions, in the order in which they
/// were applied; reversing begins with the last of them.
pub proof fn law_a_run_holds_every_action(
    id: nat,
    command: Seq<char>,
    actions: Seq<UndoView>,
    mappings: MappingsView,
    dry_run: bool,
)
    ensures
        recorded(id, command, actions).actions == actions,
        recorded(id, command, actions).id == id,
        recorded(id, command, actions).command == command,
        ({
            let start = reverting(recorded(id, command, actions), mappings, dry_run);
            &&& start.pending == actions
            &&& start.mappings == mappings
            &&& start.outcomes.len() == 0
            &&& actions.len() == 0 ==> start.upcoming() is None
            &&& actions.len() > 0 ==> start.upcoming() == Some(actions.last())
                && start.taken_up().pending == actions.drop_last() && start.taken_up().mappings
                == mappings
        }),
{
}

// ---------------------------------------------------------------------------
// Whole runs
// ---------------------------------------------------------------------------

/// Reversing a run, once actions ended in that way: whether each was reversed,
/// and what was reported of it.
pub open spec fn reversed(start: RevertingView, ends: Seq<(bool, OutcomeView)>) -> RevertingView
    decreases ends.len(),
{
    if ends.len() == 0 {
        start
    } else {
        let before = reversed(start, ends.drop_last());
        before.taken_up().settled(before.upcoming()->0, ends.last().0, ends.last().1)
    }
}

/// Whether reversing an action can end in that way, whatever is found on disk:
/// with an outcome that the decision comes to, and done only where something was
/// performed.
pub open spec fn can_end(action: UndoView, dry_run: bool, end: (bool, OutcomeView)) -> bool {
    exists|facts: UndoFactsView|
        #![trigger reversal(action, facts, dry_run)]
        reversal(action, facts, dry_run).comes_to(end.1) && (end.0 ==> reversal(
            action,
            facts,
            dry_run,
        ) is Perform)
}

/// A run is reversed as a whole: from its last action to its first, with one
/// outcome for each, which is about the mapping of that action. A dry run writes
/// no document and forgets no run; else the run is forgotten, so that no later
/// reversal repeats it.
pub proof fn law_a_run_is_reversed_once(
    run: RunView,
    mappings: MappingsView,
    dry_run: bool,
    ends: Seq<(bool, OutcomeView)>,
)
    requires
        ends.len() <= run.actions.len(),
        forall|k: int|
            0 <= k < ends.len() ==> can_end(
                run.actions[run.actions.len() - 1 - k],
                dry_run,
                #[trigger] ends[k],
            ),
    ensures
        ({
            let end = reversed(reverting(run, mappings, dry_run), ends);
            &&& end.pending == run.actions.take(run.actions.len() - ends.len())
            &&& end.outcomes.len() == ends.len()
            &&& forall|k: int|
                0 <= k < ends.len() ==> (#[trigger] end.outcomes[k]) == ends[k].1
                    && end.outcomes[k].name == run.actions[run.actions.len() - 1 - k].concerns()
            &&& dry_run ==> end.mappings == mappings && end.written() is None
                && end.forgotten() is None
            &&& !dry_run ==> end.forgotten() == Some(run.id)
        }),
    decreases ends.len(),
{
    let n = run.actions.len() as int;
    let start = reverting(run, mappings, dry_run);
    let end = reversed(start, ends);
    if ends.len() == 0 {
        assert(run.actions.take(n) =~= run.actions);
    } else {
        let front = ends.drop_last();
        assert forall|k: int| 0 <= k < front.len() implies can_end(
            run.actions[n - 1 - k],
            dry_run,
            #[trigger] front[k],
        ) by {
            assert(front[k] == ends[k]);
        }
        law_a_run_is_reversed_once(run, mappings, dry_run, front);
        lemma_run_kept(start, front);
        let before = reversed(start, front);
        let m = ends.len() - 1;
        let action = run.actions[n - 1 - m];
        assert(before.pending.last() == action);
        assert(end.pending =~= run.actions.take(n - ends.len()));
        assert(can_end(action, dry_run, ends[m]));
        let facts = choose|facts: UndoFactsView|
            #![trigger reversal(action, facts, dry_run)]
            reversal(action, facts, dry_run).comes_to(ends[m].1) && (ends[m].0 ==> reversal(
                action,
                facts,
                dry_run,
            ) is Perform);
        script::law_outcomes_keep_the_name(reversal(action, facts, dry_run), ends[m].1);
        assert forall|k: int| 0 <= k < ends.len() implies (#[trigger] end.outcomes[k]) == ends[k].1
            && end.outcomes[k].name == run.actions[n - 1 - k].concerns() by {
            if k < m {
                assert(end.outcomes[k] == before.outcomes[k]);
                assert(front[k] == ends[k]);
            }
        }
    }
}

proof fn lemma_run_kept(start: RevertingView, ends: Seq<(bool, OutcomeView)>)
    ensures
        reversed(start, ends).id == start.id,
        reversed(start, ends).dry_run == start.dry_run,
    decreases ends.len(),
{
    if ends.len() > 0 {
        lemma_run_kept(start, ends.drop_last());
    }
}

/// The file names without one of them.
pub open spec fn names_without(names: Seq<Seq<char>>, gone: Seq<char>) -> Seq<Seq<char>>
    decreases names.len(),
{
    if names.len() == 0 {
        names
    } else if names.last() == gone {
        names_without(names.drop_last(), gone)
    } else {
        names_without(names.drop_last(), gone).push(names.last())
    }
}

/// Whether every file that reads as that run is called as its manifest is.
pub open spec fn only_manifest(names: Seq<Seq<char>>, id: nat) -> bool {
    forall|i: int|
        0 <= i < names.len() && run_id(#[trigger] names[i]) == Some(id) ==> names[i] == manifest(id)
}

/// Once a run is forgotten, it is recorded no more, unless a file of another name
/// reads as it too; every other run stays recorded, and no run is added.
pub proof fn law_a_forgotten_run_is_gone(names: Seq<Seq<char>>, id: nat, other: nat)
    requires
        id <= u128::MAX,
        other != id,
    ensures
        !ids_in(names_without(names, manifest(id))).contains(id) <==> only_manifest(names, id),
        ids_in(names_without(names, manifest(id))).contains(other) <==> ids_in(names).contains(
            other,
        ),
    decreases names.len(),
{
    if names.len() > 0 {
        let front = names.drop_last();
        let last = names.last();
        law_a_forgotten_run_is_gone(front, id, other);
        lemma_only_manifest_last(names, id);
        law_manifest_reads_back(id);
        let rest = names_without(front, manifest(id));
        assert(rest.push(last).drop_last() =~= rest);
        match run_id(last) {
            Some(k) => {
                lemma_push_contains(ids_in(front), k, other);
                lemma_push_contains(ids_in(rest), k, other);
                lemma_push_contains(ids_in(rest), k, id);
            },
            None => {},
        }
    }
}

proof fn lemma_only_manifest_last(names: Seq<Seq<char>>, id: nat)
    requires
        names.len() > 0,
    ensures
        only_manifest(names, id) <==> only_manifest(names.drop_last(), id) && (run_id(names.last())
            == Some(id) ==> names.last() == manifest(id)),
{
    let front = names.drop_last();
    assert(names[names.len() - 1] == names.last());
    if only_manifest(names, id) {
        assert forall|i: int| 0 <= i < front.len() && run_id(#[trigger] front[i]) == Some(
            id,
        ) implies front[i] == manifest(id) by {
            assert(front[i] == names[i]);
        }
    }
    if only_manifest(front, id) && (run_id(names.last()) == Some(id) ==> names.last() == manifest(
        id,
    )) {
        assert forall|i: int| 0 <= i < names.len() && run_id(#[trigger] names[i]) == Some(
            id,
        ) implies names[i] == manifest(id) by {
            if i < front.len() {
                assert(front[i] == names[i]);
            }
        }
    }
}

proof fn lemma_push_contains(s: Seq<nat>, x: nat, y: nat)
    ensures
        s.push(x).contains(y) <==> s.contains(y) || x == y,
{
    if s.contains(y) {
        let i = choose|i: int| 0 <= i < s.len() && s[i] == y;
        assert(s.push(x)[i] == y);
    }
    assert(s.push(x)[s.len() as int] == x);
    if s.push(x).contains(y) {
        let i = choose|i: int| 0 <= i < s.push(x).len() && s.push(x)[i] == y;
        if i < s.len() {
            assert(s[i] == y);
        }
    }
}

/// The latest run is the one that was just recorded, provided that no run is
/// recorded from a time to come; its id is greater than that of every other run,
/// unless a file of another name reads as it too.
pub proof fn law_the_recorded_run_is_the_latest(now: nat, names: Seq<Seq<char>>, id: nat)
    requires
        first_free_id(now, names, id),
        id <= u128::MAX,
        forall|i: int| 0 <= i < ids_in(names).len() ==> #[trigger] ids_in(names)[i] <= now,
    ensures
        greatest(ids_in(names.push(manifest(id))), id),
        (forall|i: int| 0 <= i < ids_in(names).len() ==> #[trigger] ids_in(names)[i] < id)
            <==> only_manifest(names, id),
{
    let all = names.push(manifest(id));
    law_manifest_reads_back(id);
    assert(all.drop_last() =~= names);
    let ids = ids_in(names);
    assert(ids_in(all) == ids.push(id));
    assert(ids.push(id)[ids.len() as int] == id);
    lemma_recorded_under_another_name(names, id);
    if only_manifest(names, id) {
        assert forall|i: int| 0 <= i < ids.len() implies #[trigger] ids[i] < id by {
            if ids[i] == id {
                assert(ids.contains(id));
            }
        }
    }
}

proof fn lemma_recorded_under_another_name(names: Seq<Seq<char>>, id: nat)
    requires
        !names.contains(manifest(id)),
    ensures
        ids_in(names).contains(id) <==> !only_manifest(names, id),
    decreases names.len(),
{
    if names.len() > 0 {
        let front = names.drop_last();
        assert(names[names.len() - 1] == names.last());
        assert(!front.contains(manifest(id))) by {
            if front.contains(manifest(id)) {
                let i = choose|i: int| 0 <= i < front.len() && front[i] == manifest(id);
                assert(names[i] == manifest(id));
            }
        }
        lemma_recorded_under_another_name(front, id);
        lemma_only_manifest_last(names, id);
        match run_id(names.last()) {
            Some(k) => {
                lemma_push_contains(ids_in(front), k, id);
            },
            None => {},
        }
    }
}

/// The ids of runs, in order.
pub open spec fn run_ids(runs: Seq<RunView>) -> Seq<nat> {
    runs.map_values(|run: RunView| run.id)
}

/// The runs whose id is not among those.
pub open spec fn runs_without(runs: Seq<RunView>, gone: Seq<nat>) -> Seq<RunView>
    decreases runs.len(),
{
    if runs.len() == 0 {
        runs
    } else if gone.contains(runs.last().id) {
        runs_without(runs.drop_last(), gone)
    } else {
        runs_without(runs.drop_last(), gone).push(runs.last())
    }
}

/// What the journal holds once those runs were recorded one after the other, each
/// time forgetting what is pruned.
pub open spec fn journal_after(runs: Seq<RunView>) -> Seq<RunView>
    decreases runs.len(),
{
    if runs.len() == 0 {
        runs
    } else {
        let all = journal_after(runs.drop_last()).push(runs.last());
        runs_without(all, pruned(run_ids(all)))
    }
}

/// Whether each run has a greater id than the one before.
pub open spec fn ids_grow(runs: Seq<RunView>) -> bool {
    forall|i: int, j: int|
        0 <= i < j < runs.len() ==> (#[trigger] runs[i]).id < (#[trigger] runs[j]).id
}

/// After any number of recordings, each later than the one before, the newest ten
/// are what is listed, the newest first, in whatever order they were read.
pub proof fn law_the_newest_are_listed(runs: Seq<RunView>, read: Seq<RunView>)
    requires
        ids_grow(runs),
        read.to_multiset() == journal_after(runs).to_multiset(),
    ensures
        ({
            let n = runs.len() as int;
            let shown = newest_first(read);
            &&& journal_after(runs) == runs.skip(excess(runs.len()) as int)
            &&& shown.len() == (if n < KEEP_RUNS {
                n
            } else {
                KEEP_RUNS as int
            })
            &&& forall|k: int| 0 <= k < shown.len() ==> #[trigger] shown[k] == runs[n - 1 - k]
        }),
{
    broadcast use vstd::seq_lib::group_to_multiset_ensures;

    lemma_journal_after(runs);
    let held = runs.skip(excess(runs.len()) as int);
    law_list_is_newest_first(read);
    let shown = newest_first(read);
    let back = Seq::new(held.len(), |k: int| held[held.len() - 1 - k]);
    lemma_reverse_multiset(held, back);
    lemma_same_order(shown, back);
}

proof fn lemma_journal_after(runs: Seq<RunView>)
    requires
        ids_grow(runs),
    ensures
        journal_after(runs) == runs.skip(excess(runs.len()) as int),
    decreases runs.len(),
{
    if runs.len() == 0 {
        assert(runs.skip(0) =~= runs);
    } else {
        let front = runs.drop_last();
        assert(ids_grow(front)) by {
            assert forall|i: int, j: int| 0 <= i < j < front.len() implies (#[trigger] front[i]).id
                < (#[trigger] front[j]).id by {
                assert(runs[i].id < runs[j].id);
            }
        }
        lemma_journal_after(front);
        let from = excess(front.len()) as int;
        let all = journal_after(front).push(runs.last());
        assert(all =~= runs.skip(from));
        assert(ids_grow(all)) by {
            assert forall|i: int, j: int| 0 <= i < j < all.len() implies (#[trigger] all[i]).id < (
            #[trigger] all[j]).id by {
                assert(runs[from + i].id < runs[from + j].id);
            }
        }
        let ids = run_ids(all);
        lemma_ascending_already(ids);
        let k = excess(ids.len()) as int;
        assert(pruned(ids) == ids.take(k));
        assert forall|i: int| 0 <= i < all.len() implies (ids.take(k).contains(
            (#[trigger] all[i]).id,
        ) <==> i < k) by {
            if i < k {
                assert(ids.take(k)[i] == all[i].id);
            }
            if ids.take(k).contains(all[i].id) {
                let j = choose|j: int| 0 <= j < k && ids.take(k)[j] == all[i].id;
                assert(all[j].id == all[i].id);
            }
        }
        lemma_runs_without(all, ids.take(k), k);
        assert(all.skip(k) =~= runs.skip(excess(runs.len()) as int));
    }
}

proof fn lemma_ascending_already(ids: Seq<nat>)
    requires
        forall|i: int, j: int| 0 <= i < j < ids.len() ==> ids[i] < ids[j],
    ensures
        ascending(ids) == ids,
    decreases ids.len(),
{
    if ids.len() > 0 {
        let front = ids.drop_last();
        assert forall|i: int, j: int| 0 <= i < j < front.len() implies front[i] < front[j] by {
            assert(ids[i] < ids[j]);
        }
        lemma_ascending_already(front);
        if front.len() > 0 {
            assert(ids[front.len() - 1] < ids[ids.len() - 1]);
        }
        assert(front.push(ids.last()) =~= ids);
    }
}

proof fn lemma_runs_without(all: Seq<RunView>, gone: Seq<nat>, k: int)
    requires
        0 <= k,
        forall|i: int| 0 <= i < all.len() ==> (gone.contains((#[trigger] all[i]).id) <==> i < k),
    ensures
        runs_without(all, gone) == (if k < all.len() {
            all.skip(k)
        } else {
            Seq::empty()
        }),
    decreases all.len(),
{
    if all.len() > 0 {
        let front = all.drop_last();
        assert forall|i: int| 0 <= i < front.len() implies (gone.contains(
            (#[trigger] front[i]).id,
        ) <==> i < k) by {
            assert(front[i] == all[i]);
        }
        lemma_runs_without(front, gone, k);
        assert(all[all.len() - 1] == all.last());
        if k < all.len() {
            assert(runs_without(all, gone) =~= all.skip(k));
        }
    } else {
        assert(runs_without(all, gone) =~= Seq::<RunView>::empty());
    }
}

proof fn lemma_reverse_multiset(a: Seq<RunView>, b: Seq<RunView>)
    requires
        b.len() == a.len(),
        forall|k: int| 0 <= k < a.len() ==> #[trigger] b[k] == a[a.len() - 1 - k],
    ensures
        a.to_multiset() == b.to_multiset(),
    decreases a.len(),
{
    broadcast use vstd::seq_lib::group_to_multiset_ensures;

    if a.len() > 0 {
        let front = a.drop_last();
        let rest = b.skip(1);
        assert forall|k: int| 0 <= k < front.len() implies #[trigger] rest[k] == front[front.len()
            - 1 - k] by {
            assert(rest[k] == b[k + 1]);
        }
        lemma_reverse_multiset(front, rest);
        assert(b[0] == a.last());
        lemma_multiset_front(b[0], rest);
        assert(b =~= seq![b[0]] + rest);
        assert(a =~= front.push(a.last()));
    } else {
        assert(a =~= b);
    }
}

/// Two lists of the same runs that both have the newest first are the same, where
/// no two runs are as new.
proof fn lemma_same_order(a: Seq<RunView>, b: Seq<RunView>)
    requires
        a.to_multiset() == b.to_multiset(),
        forall|i: int, j: int| 0 <= i <= j < a.len() ==> a[i].id >= a[j].id,
        forall|i: int, j: int|
            0 <= i < j < b.len() ==> (#[trigger] b[i]).id > (#[trigger] b[j]).id,
    ensures
        a == b,
    decreases a.len(),
{
    broadcast use vstd::seq_lib::group_to_multiset_ensures;

    assert(a.len() == a.to_multiset().len());
    assert(b.len() == b.to_multiset().len());
    if a.len() == 0 {
        assert(a =~= b);
    } else {
        assert(a.contains(a[0]));
        assert(a.to_multiset().count(a[0]) > 0);
        assert(b.contains(a[0]));
        let j = choose|j: int| 0 <= j < b.len() && b[j] == a[0];
        assert(b.contains(b[0]));
        assert(b.to_multiset().count(b[0]) > 0);
        assert(a.contains(b[0]));
        let i = choose|i: int| 0 <= i < a.len() && a[i] == b[0];
        assert(a[0].id >= a[i].id);
        if j > 0 {
            assert(b[0].id > b[j].id);
        }
        assert(a[0] == b[0]);
        let (ra, rb) = (a.skip(1), b.skip(1));
        lemma_multiset_front(a[0], ra);
        lemma_multiset_front(b[0], rb);
        assert(a =~= seq![a[0]] + ra);
        assert(b =~= seq![b[0]] + rb);
        assert(ra.to_multiset() =~= ra.to_multiset().insert(a[0]).remove(a[0]));
        assert(rb.to_multiset() =~= rb.to_multiset().insert(b[0]).remove(b[0]));
        assert forall|x: int, y: int| 0 <= x <= y < ra.len() implies ra[x].id >= ra[y].id by {
            assert(a[x + 1].id >= a[y + 1].id);
        }
        assert forall|x: int, y: int| 0 <= x < y < rb.len() implies (#[trigger] rb[x]).id > (
        #[trigger] rb[y]).id by {
            assert(b[x + 1].id > b[y + 1].id);
        }
        lemma_same_order(ra, rb);
    }
}

// ---------------------------------------------------------------------------
// Where runs are recorded
// ---------------------------------------------------------------------------

/// The first variable that is set and not empty decides where runs are recorded.
pub proof fn law_the_first_filled_variable_decides(
    own: Option<Seq<char>>,
    xdg: Option<Seq<char>>,
    home: Option<Seq<char>>,
)
    ensures
        own matches Some(o) ==> o.len() > 0 ==> state_dir(own, xdg, home) == Some(o),
        (own is None || own->0.len() == 0) && (xdg matches Some(x) && x.len() > 0) ==> state_dir(
            own,
            xdg,
            home,
        ) == Some(path::joined(xdg->0, "dotsync"@)),
        (own is None || own->0.len() == 0) && (xdg is None || xdg->0.len() == 0) && (
        home matches Some(h) && h.len() > 0) ==> state_dir(own, xdg, home) == Some(
            path::joined(home->0, ".local/state/dotsync"@),
        ),
        (own is None || own->0.len() == 0) && (xdg is None || xdg->0.len() == 0) && (home is None
            || home->0.len() == 0) ==> state_dir(own, xdg, home) is None,
{
}

/// The ids that are read are those of the names that are a number and `.json`, in
/// order; any other file is passed over.
pub proof fn law_only_manifests_are_read(names: Seq<Seq<char>>, name: Seq<char>)
    ensures
        ids_in(names) == names.filter_map(|n: Seq<char>| run_id(n)),
        run_id(name) is Some ==> name.len() > 5 && name.skip(name.len() - 5) == ".json"@,
    decreases names.len(),
{
    reveal_strlit(".json");
    if names.len() > 0 {
        law_only_manifests_are_read(names.drop_last(), name);
    }
    assert(ids_in(names) =~= names.filter_map(|n: Seq<char>| run_id(n)));
}

} // verus!
