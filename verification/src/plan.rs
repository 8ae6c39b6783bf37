//! The state of each mapping on this machine: the pure analysis that the
//! overview, the picker, installing and the health check all build on.
use vstd::prelude::*;
use vstd::string::*;

use crate::config::{Config, ConfigView};
use crate::content;
use crate::mapping::{Mapping, MappingView, MappingsFile};
use crate::path;
use crate::text;
use crate::tree;
use crate::tree::{Node, Tree};

verus! {

/// The state of one mapping on this machine.
#[derive(Debug)]
pub enum State {
    /// Does not apply on this system.
    Skipped,
    /// Correctly symlinked into the sync folder. Active here.
    Linked,
    /// Present in the cloud, not linked here yet.
    Available,
    /// Something real exists locally but not in the cloud.
    LocalOnly,
    /// Something real sits where the symlink should be, but its content matches
    /// the sync copy (a save that replaced the link). Safe to relink.
    Healable,
    /// Something real and the sync copy both exist and differ. A conflict.
    Diverged,
    /// Symlinked into the sync folder, but the sync copy is missing.
    DanglingSelf,
    /// A symlink that points somewhere other than the sync copy.
    ForeignSymlink(String),
    /// Neither a local target nor a sync copy exists.
    Missing,
}

/// What a state holds.
#[verifier::ext_equal]
pub enum StateView {
    Skipped,
    Linked,
    Available,
    LocalOnly,
    Healable,
    Diverged,
    DanglingSelf,
    ForeignSymlink(Seq<char>),
    Missing,
}

impl View for State {
    type V = StateView;

    open spec fn view(&self) -> StateView {
        match *self {
            State::Skipped => StateView::Skipped,
            State::Linked => StateView::Linked,
            State::Available => StateView::Available,
            State::LocalOnly => StateView::LocalOnly,
            State::Healable => StateView::Healable,
            State::Diverged => StateView::Diverged,
            State::DanglingSelf => StateView::DanglingSelf,
            State::ForeignSymlink(dest) => StateView::ForeignSymlink(dest@),
            State::Missing => StateView::Missing,
        }
    }
}

impl Clone for State {
    fn clone(&self) -> (r: Self)
        ensures
            r == *self,
    {
        match self {
            State::Skipped => State::Skipped,
            State::Linked => State::Linked,
            State::Available => State::Available,
            State::LocalOnly => State::LocalOnly,
            State::Healable => State::Healable,
            State::Diverged => State::Diverged,
            State::DanglingSelf => State::DanglingSelf,
            State::ForeignSymlink(dest) => State::ForeignSymlink(dest.clone()),
            State::Missing => State::Missing,
        }
    }
}

impl StateView {
    /// A short machine-readable token for the state.
    pub open spec fn token(self) -> Seq<char> {
        match self {
            StateView::Skipped => "skipped"@,
            StateView::Linked => "linked"@,
            StateView::Available => "available"@,
            StateView::LocalOnly => "local-only"@,
            StateView::Healable => "healable"@,
            StateView::Diverged => "diverged"@,
            StateView::DanglingSelf => "dangling"@,
            StateView::ForeignSymlink(_) => "foreign-symlink"@,
            StateView::Missing => "missing"@,
        }
    }

    /// Whether the state is a problem worth surfacing.
    pub open spec fn problem(self) -> bool {
        self is Diverged || self is DanglingSelf || self is ForeignSymlink
    }
}

impl State {
    /// A short machine-readable token for the state.
    pub fn code(&self) -> (r: &'static str)
        ensures
            r@ == self@.token(),
    {
        match self {
            State::Skipped => "skipped",
            State::Linked => "linked",
            State::Available => "available",
            State::LocalOnly => "local-only",
            State::Healable => "healable",
            State::Diverged => "diverged",
            State::DanglingSelf => "dangling",
            State::ForeignSymlink(_) => "foreign-symlink",
            State::Missing => "missing",
        }
    }

    /// Whether the mapping is currently active (linked) on this machine.
    pub fn is_linked(&self) -> (r: bool)
        ensures
            r == (self@ is Linked),
    {
        matches!(self, State::Linked)
    }

    /// Whether the state is a problem worth surfacing.
    pub fn is_problem(&self) -> (r: bool)
        ensures
            r == self@.problem(),
    {
        matches!(self, State::Diverged | State::DanglingSelf | State::ForeignSymlink(_))
    }
}

/// States of different kinds have different tokens.
pub proof fn law_codes_tell_states_apart(a: StateView, b: StateView)
    requires
        a.token() == b.token(),
    ensures
        a is ForeignSymlink && b is ForeignSymlink || a == b,
{
    reveal_strlit("skipped");
    reveal_strlit("linked");
    reveal_strlit("available");
    reveal_strlit("local-only");
    reveal_strlit("healable");
    reveal_strlit("diverged");
    reveal_strlit("dangling");
    reveal_strlit("foreign-symlink");
    reveal_strlit("missing");
    assert("skipped"@.len() == 7);
    assert("linked"@.len() == 6);
    assert("available"@.len() == 9);
    assert("local-only"@.len() == 10);
    assert("healable"@.len() == 8);
    assert("diverged"@.len() == 8);
    assert("dangling"@.len() == 8);
    assert("foreign-symlink"@.len() == 15);
    assert("missing"@.len() == 7);
    assert("skipped"@[0] == 's' && "missing"@[0] == 'm');
    assert("healable"@[1] == 'e' && "diverged"@[1] == 'i' && "dangling"@[1] == 'a');
    let (x, y) = (a.token(), b.token());
    assert(x.len() == y.len() && x[0] == y[0] && x[1] == y[1]);
}

/// A mapping with its resolved paths and its state.
#[derive(Debug)]
pub struct Item {
    pub mapping: Mapping,
    /// The target on this system (`None` when the mapping does not apply).
    pub target: Option<String>,
    /// The path inside the sync folder.
    pub source: String,
    pub state: State,
}

/// What an item holds.
#[verifier::ext_equal]
pub struct ItemView {
    pub mapping: MappingView,
    pub target: Option<Seq<char>>,
    pub source: Seq<char>,
    pub state: StateView,
}

impl View for Item {
    type V = ItemView;

    open spec fn view(&self) -> ItemView {
        ItemView {
            mapping: self.mapping@,
            target: self.target.deep_view(),
            source: self.source@,
            state: self.state@,
        }
    }
}

impl DeepView for Item {
    type V = ItemView;

    open spec fn deep_view(&self) -> ItemView {
        self@
    }
}

impl Clone for Item {
    fn clone(&self) -> (r: Self)
        ensures
            r == *self,
    {
        Item {
            mapping: self.mapping.clone(),
            target: text::copy_option(&self.target),
            source: self.source.clone(),
            state: self.state.clone(),
        }
    }
}

impl Item {
    /// The name of the item's mapping.
    pub fn name(&self) -> (r: &str)
        ensures
            r@ == self@.mapping.name,
    {
        self.mapping.name.as_str()
    }

    /// Whether the item is a secret: a mode is enforced on its sync copy.
    pub fn is_secret(&self) -> (r: bool)
        ensures
            r == (self@.mapping.mode is Some),
    {
        self.mapping.mode.is_some()
    }
}

/// What stands at a mapping's target.
#[derive(Debug)]
pub enum Spot {
    /// Nothing.
    Absent,
    /// A symlink: its destination as written, and where it leads once every
    /// symlink on the way is resolved.
    Link { dest: String, resolved: Option<String> },
    /// Something real.
    Real { node: Node },
}

/// What a spot holds.
pub enum SpotView {
    Absent,
    Link { dest: Seq<char>, resolved: Option<Seq<char>> },
    Real { tree: Tree },
}

impl View for Spot {
    type V = SpotView;

    open spec fn view(&self) -> SpotView {
        match *self {
            Spot::Absent => SpotView::Absent,
            Spot::Link { dest, resolved } => SpotView::Link { dest: dest@, resolved: resolved.deep_view() },
            Spot::Real { node } => SpotView::Real { tree: node@ },
        }
    }
}

/// What was found on disk for one mapping.
#[derive(Debug)]
pub struct Probe {
    /// What stands at the target.
    pub target: Spot,
    /// Whether anything stands at the sync copy's path.
    pub source_present: bool,
    /// Where the sync copy's path leads once every symlink is resolved.
    pub source_real: Option<String>,
    /// What stands at the sync copy's path; of interest only when something
    /// real stands at the target.
    pub source: Option<Node>,
}

/// What a probe holds.
pub struct ProbeView {
    pub target: SpotView,
    pub source_present: bool,
    pub source_real: Option<Seq<char>>,
    pub source: Option<Tree>,
}

impl View for Probe {
    type V = ProbeView;

    open spec fn view(&self) -> ProbeView {
        ProbeView {
            target: self.target@,
            source_present: self.source_present,
            source_real: self.source_real.deep_view(),
            source: self.source.deep_view(),
        }
    }
}

impl DeepView for Probe {
    type V = ProbeView;

    open spec fn deep_view(&self) -> ProbeView {
        self@
    }
}

/// Whether two resolved paths are the same location; one that could not be
/// resolved is like nothing else.
pub open spec fn one_place(a: Option<Seq<char>>, b: Option<Seq<char>>) -> bool {
    match (a, b) {
        (Some(x), Some(y)) => path::same_path(x, y),
        _ => false,
    }
}

/// Whether two paths are the same location, by what they resolve to. `false`
/// when one could not be resolved, so that a dangling link is never masked.
pub fn same_location(left_real: &Option<String>, right_real: &Option<String>) -> (r: bool)
    ensures
        r == one_place(left_real.deep_view(), right_real.deep_view()),
{
    match (left_real, right_real) {
        (Some(a), Some(b)) => path::same(a.as_str(), b.as_str()),
        _ => false,
    }
}

/// The state of a mapping whose sync copy belongs at `source` and that applies
/// here, by what was found.
pub open spec fn found_state(source: Seq<char>, probe: ProbeView) -> StateView {
    match probe.target {
        SpotView::Absent => if probe.source_present {
            StateView::Available
        } else {
            StateView::Missing
        },
        SpotView::Link { dest, resolved } => if path::same_path(dest, source) {
            if probe.source_present {
                StateView::Linked
            } else {
                StateView::DanglingSelf
            }
        } else if probe.source_present && one_place(resolved, probe.source_real) {
            StateView::Linked
        } else {
            StateView::ForeignSymlink(dest)
        },
        SpotView::Real { tree } => if !probe.source_present {
            StateView::LocalOnly
        } else if probe.source matches Some(s) && tree::same_tree(tree, s) {
            StateView::Healable
        } else {
            StateView::Diverged
        },
    }
}

/// A conflict is nothing but two real copies that differ: matching content is
/// never one, and neither is anything that stands on one side alone.
pub proof fn law_conflict_is_two_copies_that_differ(source: Seq<char>, probe: ProbeView)
    ensures
        found_state(source, probe) is Diverged <==> (probe.target matches SpotView::Real { tree }
            && probe.source_present && !(probe.source matches Some(s) && tree::same_tree(tree, s))),
        found_state(source, probe) is Healable <==> (probe.target matches SpotView::Real { tree }
            && probe.source_present && (probe.source matches Some(s) && tree::same_tree(tree, s))),
{
}

/// What a state says of the disk, state by state: what stands at the target, and
/// whether anything stands at the sync copy's path. A symlink is ours when it is
/// written with the sync copy's path, or when it leads to where a sync copy that is
/// there is.
pub proof fn law_each_state_says_what_was_found(source: Seq<char>, probe: ProbeView)
    ensures
        ({
            let state = found_state(source, probe);
            let there = probe.source_present;
            let written = probe.target matches SpotView::Link { dest, resolved: _ }
                && path::components(dest) == path::components(source);
            let leads = probe.target matches SpotView::Link { dest: _, resolved: Some(at) }
                && probe.source_real matches Some(place) && path::components(at)
                == path::components(place);
            &&& state is Available <==> probe.target is Absent && there
            &&& state is Missing <==> probe.target is Absent && !there
            &&& state is Linked <==> there && (written || leads)
            &&& state is DanglingSelf <==> !there && written
            &&& state is ForeignSymlink <==> probe.target is Link && !written && !(there && leads)
            &&& state matches StateView::ForeignSymlink(d) ==> (probe.target matches SpotView::Link {
                dest,
                resolved: _,
            } && d == dest)
            &&& state is LocalOnly <==> probe.target is Real && !there
            &&& state is Healable || state is Diverged <==> probe.target is Real && there
            &&& !(state is Skipped)
        }),
{
}

/// Something real beside a sync copy heals exactly when at every path, at any
/// depth, both hold the same; one file that differs makes it a conflict.
pub proof fn law_healable_iff_equal_everywhere(source: Seq<char>, probe: ProbeView)
    requires
        probe.source_present,
        probe.target is Real,
        probe.source is Some,
        content::named_once(probe.target->tree),
        content::named_once(probe.source->0),
    ensures
        found_state(source, probe) is Healable <==> content::repeated_in(
            probe.target->tree,
            probe.source->0,
        ) && content::repeated_in(probe.source->0, probe.target->tree),
        found_state(source, probe) is Diverged <==> !(found_state(source, probe) is Healable),
{
    content::law_equal_trees_agree_everywhere(probe.target->tree, probe.source->0);
}

/// The states that are a problem are a conflict, a symlink that leads nowhere and
/// one that leads elsewhere; that is, those where acting needs a person.
pub proof fn law_problems_need_a_person(state: StateView)
    ensures
        state.problem() <==> !(state is Skipped || state is Linked || state is Available || state
            is LocalOnly || state is Healable || state is Missing),
{
}

/// A mapping with its resolved paths and its state.
pub open spec fn item_of(
    mapping: MappingView,
    cfg: ConfigView,
    os: Seq<char>,
    probe: ProbeView,
) -> ItemView {
    let target = mapping.target_path(cfg.home, os);
    let source = mapping.source_path(cfg.sync_dir);
    ItemView {
        mapping,
        target,
        source,
        state: if target is None {
            StateView::Skipped
        } else {
            found_state(source, probe)
        },
    }
}

/// Compute the state of one mapping. The probe tells what was found at its
/// target and at its sync copy.
pub fn state_of(mapping: &Mapping, cfg: &Config, os: &str, probe: &Probe) -> (r: Item)
    ensures
        r@ == item_of(mapping@, cfg@, os@, probe@),
{
    let source = mapping.source(cfg.sync_dir.as_str());
    let target = match mapping.target_for(cfg.home.as_str(), os) {
        None => return Item {
            mapping: mapping.clone(),
            target: None,
            source,
            state: State::Skipped,
        },
        Some(target) => target,
    };
    let state = match &probe.target {
        Spot::Absent => if probe.source_present {
            State::Available
        } else {
            State::Missing
        },
        Spot::Link { dest, resolved } => if path::same(dest.as_str(), source.as_str()) {
            if probe.source_present {
                State::Linked
            } else {
                State::DanglingSelf
            }
        } else if probe.source_present && same_location(resolved, &probe.source_real) {
            State::Linked
        } else {
            State::ForeignSymlink(dest.clone())
        },
        Spot::Real { node } => if !probe.source_present {
            State::LocalOnly
        } else {
            let matching = match &probe.source {
                Some(s) => tree::same_node(node, s),
                None => false,
            };
            if matching {
                State::Healable
            } else {
                State::Diverged
            }
        },
    };
    Item { mapping: mapping.clone(), target: Some(target), source, state }
}

/// The state of every mapping, in order.
pub open spec fn planned(
    mappings: Seq<MappingView>,
    cfg: ConfigView,
    os: Seq<char>,
    probes: Seq<ProbeView>,
) -> Seq<ItemView> {
    Seq::new(mappings.len(), |i: int| item_of(mappings[i], cfg, os, probes[i]))
}

/// A plan has one item for each mapping, in order, and the item keeps the whole
/// mapping. An item is skipped exactly when its mapping has no target on the
/// system; else its state is by what was found for it, and for it alone.
pub proof fn law_plan_has_an_item_for_each_mapping(
    mappings: Seq<MappingView>,
    cfg: ConfigView,
    os: Seq<char>,
    probes: Seq<ProbeView>,
    i: int,
)
    requires
        0 <= i < mappings.len(),
    ensures
        planned(mappings, cfg, os, probes).len() == mappings.len(),
        ({
            let item = planned(mappings, cfg, os, probes)[i];
            &&& item.mapping == mappings[i]
            &&& item.target == mappings[i].target_path(cfg.home, os)
            &&& item.source == path::joined(cfg.sync_dir, mappings[i].name)
            &&& item.state is Skipped <==> item.target is None
            &&& item.target is Some ==> item.state == found_state(item.source, probes[i])
        }),
{
    law_each_state_says_what_was_found(mappings[i].source_path(cfg.sync_dir), probes[i]);
}

/// Compute the state of every mapping in the document, from one probe for each.
pub fn plan(mappings: &MappingsFile, cfg: &Config, os: &str, probes: &Vec<Probe>) -> (r: Vec<Item>)
    requires
        probes@.len() == mappings.mappings@.len(),
    ensures
        r.deep_view() == planned(mappings@.mappings, cfg@, os@, probes.deep_view()),
{
    let mut r: Vec<Item> = Vec::new();
    let mut i: usize = 0;
    let ghost all = planned(mappings@.mappings, cfg@, os@, probes.deep_view());
    while i < mappings.mappings.len()
        invariant
            i <= mappings.mappings@.len(),
            probes@.len() == mappings.mappings@.len(),
            all == planned(mappings@.mappings, cfg@, os@, probes.deep_view()),
            r.deep_view() == all.take(i as int),
        decreases mappings.mappings@.len() - i,
    {
        let item = state_of(&mappings.mappings[i], cfg, os, &probes[i]);
        let ghost before = r.deep_view();
        r.push(item);
        assert(r.deep_view() =~= before.push(all[i as int]));
        assert(all.take(i + 1) =~= all.take(i as int).push(all[i as int]));
        i += 1;
    }
    assert(all.take(i as int) =~= all);
    r
}

} // verus!
