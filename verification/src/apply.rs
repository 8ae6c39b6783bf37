//! The mutating operations: adopt (local to cloud), link and unlink (cloud and
//! home), restore, and mode enforcement. Each decides from what was found on
//! disk, and honours a dry run (decide, touch nothing).
use vstd::prelude::*;
use vstd::string::*;

use crate::config::{Config, ConfigView};
use crate::content;
use crate::error::{Error, ErrorView};
use crate::fsutil;
use crate::journal::{UndoAction, UndoView};
use crate::mapping::{Mapping, MappingView, OnConflict};
use crate::path;
use crate::plan;
use crate::plan::{Item, ItemView, Probe, ProbeView, State, StateView};
use crate::script;
use crate::script::{Decision, DecisionView, Op, OpView, ScriptView};
use crate::text;
use crate::tree;
use crate::tree::{Node, Tree};

verus! {

// ---------------------------------------------------------------------------
// Adopting
// ---------------------------------------------------------------------------

/// The mapping name that a path would adopt as, or why it cannot.
pub open spec fn adopt_name(cfg: ConfigView, target: Seq<char>) -> Result<Seq<char>, ErrorView> {
    match path::stripped(target, cfg.home) {
        None => Err(ErrorView::NotUnderHome { path: target, home: cfg.home }),
        Some(rel) => if rel.len() == 0 {
            Err(ErrorView::HomeItself)
        } else {
            Ok(text::replace_char(rel, '\\', '/'))
        },
    }
}

/// The home-relative mapping name that a path would adopt as (`~/.config/zed`
/// as `.config/zed`). Refused if the path is not under the home base, or is the
/// home base itself.
pub fn mapping_name_for(cfg: &Config, abs_target: &str) -> (r: Result<String, Error>)
    ensures
        match r {
            Ok(name) => adopt_name(cfg@, abs_target@) == Ok::<Seq<char>, ErrorView>(name@),
            Err(e) => adopt_name(cfg@, abs_target@) == Err::<Seq<char>, ErrorView>(e@),
        },
{
    match path::strip_prefix(abs_target, cfg.home.as_str()) {
        None => Err(
            Error::NotUnderHome { path: abs_target.to_owned(), home: cfg.home.clone() },
        ),
        Some(rel) => if text::chars(rel.as_str()).len() == 0 {
            Err(Error::HomeItself)
        } else {
            Ok(text::replace_chars(rel.as_str(), '\\', '/'))
        },
    }
}

/// Why a name cannot be adopted beside one existing mapping name: it lies in
/// that mapping, or it would contain it.
pub open spec fn overlap_with(name: Seq<char>, existing: Seq<char>) -> Option<ErrorView> {
    if existing == name {
        None
    } else if text::starts_with(name, existing + "/"@) {
        Some(ErrorView::Covered { name, by: existing })
    } else if text::starts_with(existing, name + "/"@) {
        Some(ErrorView::WouldContain { name, other: existing })
    } else {
        None
    }
}

/// Why a name cannot be adopted beside the existing mapping names: the first
/// overlap among them.
pub open spec fn overlap(name: Seq<char>, existing: Seq<Seq<char>>) -> Option<ErrorView>
    decreases existing.len(),
{
    if existing.len() == 0 {
        None
    } else {
        match overlap_with(name, existing[0]) {
            Some(e) => Some(e),
            None => overlap(name, existing.skip(1)),
        }
    }
}

/// The error for the first overlap of a name with existing mapping names, if
/// there is one.
pub fn find_overlap(name: &str, existing: &Vec<String>) -> (r: Option<Error>)
    ensures
        match r {
            Some(e) => overlap(name@, existing.deep_view()) == Some(e@),
            None => overlap(name@, existing.deep_view()) is None,
        },
{
    let ghost all = existing.deep_view();
    let mut i: usize = 0;
    assert(all.skip(0) =~= all);
    while i < existing.len()
        invariant
            i <= existing@.len(),
            all == existing.deep_view(),
            overlap(name@, all) == overlap(name@, all.skip(i as int)),
        decreases existing@.len() - i,
    {
        let other = existing[i].as_str();
        assert(all.skip(i as int)[0] == other@);
        assert(all.skip(i as int).skip(1) =~= all.skip(i + 1));
        if !text::same(other, name) {
            if text::has_prefix(name, other.to_owned().concat("/").as_str()) {
                return Some(Error::Covered { name: name.to_owned(), by: other.to_owned() });
            }
            if text::has_prefix(other, name.to_owned().concat("/").as_str()) {
                return Some(
                    Error::WouldContain { name: name.to_owned(), other: other.to_owned() },
                );
            }
        }
        i += 1;
    }
    None
}

/// The mapping that adopting a path records: a secret gets a restrictive mode
/// (`0700` for a directory, `0600` for a file), and a path that was scoped to
/// one system gets a target there alone.
pub open spec fn adopted_mapping(
    name: Seq<char>,
    is_dir: bool,
    os_scope: Option<Seq<char>>,
    group: Option<Seq<char>>,
) -> MappingView {
    MappingView {
        mode: if fsutil::secret_name(name) {
            Some(
                if is_dir {
                    "0700"@
                } else {
                    "0600"@
                },
            )
        } else {
            None
        },
        group,
        target_mac: if os_scope == Some("mac"@) {
            Some("~/"@ + name)
        } else {
            None
        },
        target_linux: if os_scope == Some("linux"@) {
            Some("~/"@ + name)
        } else {
            None
        },
        ..MappingView::plain(name)
    }
}

fn new_mapping(
    name: &str,
    is_dir: bool,
    os_scope: &Option<String>,
    group: &Option<String>,
) -> (r: Mapping)
    ensures
        r@ == adopted_mapping(name@, is_dir, os_scope.deep_view(), group.deep_view()),
{
    let mut mapping = Mapping::new(name);
    mapping.mode = if fsutil::looks_secret(name) {
        Some(
            if is_dir {
                "0700".to_owned()
            } else {
                "0600".to_owned()
            },
        )
    } else {
        None
    };
    mapping.group = text::copy_option(group);
    proof {
        reveal_strlit("mac");
        reveal_strlit("linux");
        assert("mac"@.len() != "linux"@.len());
    }
    match os_scope {
        Some(os) => if text::same(os.as_str(), "mac") {
            mapping.target_mac = Some("~/".to_owned().concat(name));
        } else if text::same(os.as_str(), "linux") {
            mapping.target_linux = Some("~/".to_owned().concat(name));
        },
        None => {},
    }
    mapping
}

/// What was found on disk about a path that is to be adopted.
#[derive(Debug)]
pub struct AdoptFacts {
    /// Whether anything stands at the path.
    pub present: bool,
    /// Whether the path leads to a directory.
    pub is_dir: bool,
    /// The destination, when the path is a symlink.
    pub link: Option<String>,
    /// Where the path leads once every symlink is resolved.
    pub resolved: Option<String>,
    /// Where the sync folder is once every symlink is resolved.
    pub sync_resolved: Option<String>,
    /// Whether anything stands where the sync copy belongs.
    pub source_present: bool,
    /// What stands at the path.
    pub target: Option<Node>,
    /// What stands where the sync copy belongs.
    pub source: Option<Node>,
}

/// What those facts hold.
pub struct AdoptFactsView {
    pub present: bool,
    pub is_dir: bool,
    pub link: Option<Seq<char>>,
    pub resolved: Option<Seq<char>>,
    pub sync_resolved: Option<Seq<char>>,
    pub source_present: bool,
    pub target: Option<Tree>,
    pub source: Option<Tree>,
}

impl View for AdoptFacts {
    type V = AdoptFactsView;

    open spec fn view(&self) -> AdoptFactsView {
        AdoptFactsView {
            present: self.present,
            is_dir: self.is_dir,
            link: self.link.deep_view(),
            resolved: self.resolved.deep_view(),
            sync_resolved: self.sync_resolved.deep_view(),
            source_present: self.source_present,
            target: self.target.deep_view(),
            source: self.source.deep_view(),
        }
    }
}

impl AdoptFactsView {
    /// Whether the path already leads into the sync folder.
    pub open spec fn inside_sync(self, cfg: ConfigView) -> bool {
        self.resolved matches Some(at) && path::within(
            at,
            match self.sync_resolved {
                Some(s) => s,
                None => cfg.sync_dir,
            },
        )
    }

    /// Whether what stands at the path has the content of the sync copy.
    pub open spec fn matching(self) -> bool {
        self.target matches Some(t) && self.source matches Some(s) && tree::same_tree(t, s)
    }
}

/// Moving a path into the sync folder and linking it back.
pub open spec fn adopt_script(
    name: Seq<char>,
    target: Seq<char>,
    source: Seq<char>,
    secret: bool,
) -> ScriptView {
    let tighten = if secret {
        seq![OpView::Tighten { path: source }]
    } else {
        seq![]
    };
    ScriptView {
        undo: Some(UndoView::Adopt { name, target, source }),
        ..script::plain_script(
            name,
            seq![OpView::MovePath { from: target, to: source }] + tighten + seq![
                OpView::MakeSymlink { original: source, link: target },
            ],
            "adopted"@,
            source,
        )
    }
}

/// Replacing a path with a symlink to the sync copy that it matches.
pub open spec fn relink_script(name: Seq<char>, target: Seq<char>, source: Seq<char>) -> ScriptView {
    script::plain_script(
        name,
        seq![
            OpView::KeepEqual { target, source },
            OpView::RemovePath { path: target },
            OpView::MakeSymlink { original: source, link: target },
        ],
        "relinked"@,
        "matched existing cloud copy"@,
    )
}

/// What adopting a path comes to: the mapping to record and what to do, or why
/// it is refused.
pub open spec fn adoption(
    cfg: ConfigView,
    target: Seq<char>,
    os_scope: Option<Seq<char>>,
    group: Option<Seq<char>>,
    existing: Seq<Seq<char>>,
    dry_run: bool,
    facts: AdoptFactsView,
) -> Result<(MappingView, DecisionView), ErrorView> {
    if !facts.present {
        Err(ErrorView::NothingAt { path: target })
    } else if path::within(target, cfg.sync_dir) {
        Err(ErrorView::InsideSync { path: target })
    } else {
        match adopt_name(cfg, target) {
            Err(e) => Err(e),
            Ok(name) => match overlap(name, existing) {
                Some(e) => Err(e),
                None => {
                    let source = path::joined(cfg.sync_dir, name);
                    let mapping = adopted_mapping(name, facts.is_dir, os_scope, group);
                    if facts.link matches Some(dest) && path::same_path(dest, source) {
                        Ok(
                            (
                                mapping,
                                script::report(
                                    name,
                                    if group is Some {
                                        "grouped"@
                                    } else {
                                        "already-adopted"@
                                    },
                                    true,
                                    ""@,
                                ),
                            ),
                        )
                    } else if facts.inside_sync(cfg) {
                        Err(ErrorView::ResolvesInsideSync { path: target })
                    } else if facts.source_present {
                        if !facts.matching() {
                            Err(ErrorView::CloudDiffers { name })
                        } else if dry_run {
                            Ok(
                                (
                                    mapping,
                                    script::report(
                                        name,
                                        "would-relink"@,
                                        true,
                                        "content matches cloud"@,
                                    ),
                                ),
                            )
                        } else {
                            Ok((mapping, DecisionView::Perform(relink_script(name, target, source))))
                        }
                    } else if dry_run {
                        Ok(
                            (
                                mapping,
                                script::report(
                                    name,
                                    "would-adopt"@,
                                    true,
                                    "move into cloud, link back"@,
                                ),
                            ),
                        )
                    } else {
                        Ok(
                            (
                                mapping,
                                DecisionView::Perform(
                                    adopt_script(name, target, source, mapping.mode is Some),
                                ),
                            ),
                        )
                    }
                },
            },
        }
    }
}

fn adopt_decision(name: &str, target: &str, source: &str, secret: bool) -> (r: Decision)
    ensures
        r@ == DecisionView::Perform(adopt_script(name@, target@, source@, secret)),
{
    let mut steps: Vec<Op> = Vec::new();
    steps.push(Op::MovePath { from: target.to_owned(), to: source.to_owned() });
    if secret {
        steps.push(Op::Tighten { path: source.to_owned() });
    }
    steps.push(Op::MakeSymlink { original: source.to_owned(), link: target.to_owned() });
    let mut s = script::script(name, steps, "adopted", source);
    s.undo = Some(
        UndoAction::Adopt {
            name: name.to_owned(),
            target: target.to_owned(),
            source: source.to_owned(),
        },
    );
    assert(s@.steps =~= adopt_script(name@, target@, source@, secret).steps);
    Decision::Perform(s)
}

/// Adopt a real path under the home base into the sync folder and symlink it
/// back: the mapping to record, which the caller puts into the document, and
/// what to do. `existing` are the names of the mappings there already.
pub fn adopt(
    cfg: &Config,
    abs_target: &str,
    os_scope: &Option<String>,
    group: &Option<String>,
    existing: &Vec<String>,
    dry_run: bool,
    facts: &AdoptFacts,
) -> (r: Result<(Mapping, Decision), Error>)
    ensures
        adoption(
            cfg@,
            abs_target@,
            os_scope.deep_view(),
            group.deep_view(),
            existing.deep_view(),
            dry_run,
            facts@,
        ) == (match r {
            Ok((m, d)) => Ok::<(MappingView, DecisionView), ErrorView>((m@, d@)),
            Err(e) => Err::<(MappingView, DecisionView), ErrorView>(e@),
        }),
{
    if !facts.present {
        return Err(Error::NothingAt { path: abs_target.to_owned() });
    }
    if path::is_within(abs_target, cfg.sync_dir.as_str()) {
        return Err(Error::InsideSync { path: abs_target.to_owned() });
    }
    let owned = match mapping_name_for(cfg, abs_target) {
        Ok(name) => name,
        Err(e) => return Err(e),
    };
    let name = owned.as_str();
    match find_overlap(name, existing) {
        Some(e) => return Err(e),
        None => {},
    }
    let joined = path::join_path(cfg.sync_dir.as_str(), name);
    let source = joined.as_str();
    let mapping = new_mapping(name, facts.is_dir, os_scope, group);
    let linked = match &facts.link {
        Some(dest) => path::same(dest.as_str(), source),
        None => false,
    };
    if linked {
        let action = if group.is_some() {
            "grouped"
        } else {
            "already-adopted"
        };
        return Ok((mapping, script::reported(name, action, true, "")));
    }
    let inside = match &facts.resolved {
        Some(at) => match &facts.sync_resolved {
            Some(s) => path::is_within(at.as_str(), s.as_str()),
            None => path::is_within(at.as_str(), cfg.sync_dir.as_str()),
        },
        None => false,
    };
    if inside {
        return Err(Error::ResolvesInsideSync { path: abs_target.to_owned() });
    }
    if facts.source_present {
        if !tree::trees_equal(&facts.target, &facts.source) {
            return Err(Error::CloudDiffers { name: owned });
        }
        if dry_run {
            return Ok(
                (mapping, script::reported(name, "would-relink", true, "content matches cloud")),
            );
        }
        let steps = script::three(
            Op::KeepEqual { target: abs_target.to_owned(), source: source.to_owned() },
            Op::RemovePath { path: abs_target.to_owned() },
            Op::MakeSymlink { original: source.to_owned(), link: abs_target.to_owned() },
        );
        let s = script::script(name, steps, "relinked", "matched existing cloud copy");
        return Ok((mapping, Decision::Perform(s)));
    }
    if dry_run {
        return Ok(
            (mapping, script::reported(name, "would-adopt", true, "move into cloud, link back")),
        );
    }
    let secret = mapping.mode.is_some();
    Ok((mapping, adopt_decision(name, abs_target, source, secret)))
}

/// The mirror layout: an adopted path's name, seen from the home base, leads back
/// to the path, and seen from the sync folder it is where the sync copy goes. So
/// the recorded mapping's target is the adopted path, on every system that the
/// mapping applies to. (A backslash in a path reads as a slash in its name.)
pub proof fn law_mapping_points_back(
    cfg: ConfigView,
    target: Seq<char>,
    is_dir: bool,
    os_scope: Option<Seq<char>>,
    group: Option<Seq<char>>,
    os: Seq<char>,
)
    requires
        adopt_name(cfg, target) is Ok,
        os_scope matches Some(s) ==> s == "mac"@ || s == "linux"@,
    ensures
        ({
            let name = adopt_name(cfg, target)->Ok_0;
            let m = adopted_mapping(name, is_dir, os_scope, group);
            &&& m.target_path(cfg.home, os) matches Some(t) ==> t == path::joined(cfg.home, name)
                && (!path::stripped(target, cfg.home)->0.contains('\\') ==> path::same_path(t, target))
            &&& m.source_path(cfg.sync_dir) == path::joined(cfg.sync_dir, name)
            &&& os_scope is None ==> m.applies(os)
            &&& os_scope == Some(os) ==> m.applies(os)
            &&& os_scope matches Some(s) ==> s != os ==> !m.applies(os)
        }),
{
    reveal_strlit("mac");
    reveal_strlit("linux");
    reveal_strlit("~/");
    reveal_strlit("~");
    assert("mac"@.len() != "linux"@.len());
    let rel = path::stripped(target, cfg.home)->0;
    let name = adopt_name(cfg, target)->Ok_0;
    if !rel.contains('\\') {
        assert forall|k: int| 0 <= k < rel.len() implies rel[k] != '\\' by {}
        assert(name =~= rel);
        path::law_strip_then_join(target, cfg.home);
    }
    let tilde = "~/"@ + name;
    assert(tilde.take(2) =~= "~/"@);
    assert(tilde.skip(2) =~= name);
    assert(tilde.len() >= 2);
}

/// Names never collide: paths that would adopt as the same name are the same
/// path. (A backslash in a path reads as a slash in its name.)
pub proof fn law_names_never_collide(cfg: ConfigView, a: Seq<char>, b: Seq<char>)
    requires
        adopt_name(cfg, a) is Ok,
        adopt_name(cfg, a) == adopt_name(cfg, b),
        path::stripped(a, cfg.home) matches Some(rel) && !rel.contains('\\'),
        path::stripped(b, cfg.home) matches Some(rel) && !rel.contains('\\'),
    ensures
        path::same_path(a, b),
{
    let ra = path::stripped(a, cfg.home)->0;
    let rb = path::stripped(b, cfg.home)->0;
    assert forall|k: int| 0 <= k < ra.len() implies ra[k] != '\\' by {}
    assert forall|k: int| 0 <= k < rb.len() implies rb[k] != '\\' by {}
    assert(text::replace_char(ra, '\\', '/') =~= ra);
    assert(text::replace_char(rb, '\\', '/') =~= rb);
    path::law_strip_then_join(a, cfg.home);
    path::law_strip_then_join(b, cfg.home);
}

// ---------------------------------------------------------------------------
// Linking
// ---------------------------------------------------------------------------

/// Whether the mode of an item has to be set on its sync copy.
pub open spec fn to_tighten(item: ItemView) -> Option<Seq<char>> {
    if item.mapping.mode is Some {
        Some(item.source)
    } else {
        None
    }
}

/// Moving what stands at the target to the backup path and linking the sync
/// copy.
pub open spec fn backup_script(
    item: ItemView,
    target: Seq<char>,
    backup: Seq<char>,
    detail: Seq<char>,
) -> ScriptView {
    ScriptView {
        tighten: to_tighten(item),
        undo: Some(
            UndoView::Backup {
                name: item.mapping.name,
                target,
                source: item.source,
                backup,
            },
        ),
        ..script::plain_script(
            item.mapping.name,
            seq![
                OpView::MovePath { from: target, to: backup },
                OpView::MakeSymlink { original: item.source, link: target },
            ],
            "backed-up-linked"@,
            detail,
        )
    }
}

/// What linking an item comes to, where `backup` is the path that a local file
/// in the way would be moved to.
pub open spec fn linking(item: ItemView, dry_run: bool, backup: Seq<char>) -> DecisionView {
    let name = item.mapping.name;
    match item.target {
        None => script::report(name, "skipped"@, true, "not for this OS"@),
        Some(target) => match item.state {
            StateView::Skipped => script::report(name, "skipped"@, true, "not for this OS"@),
            StateView::Linked => if dry_run || item.mapping.mode is None {
                script::report(name, "already-linked"@, true, ""@)
            } else {
                DecisionView::Perform(
                    ScriptView {
                        tighten: Some(item.source),
                        ..script::plain_script(name, seq![], "already-linked"@, ""@)
                    },
                )
            },
            StateView::Missing => script::report(name, "skipped"@, true, "nothing to link"@),
            StateView::LocalOnly => script::report(
                name,
                "skipped"@,
                true,
                "local only — run `dotsync adopt`"@,
            ),
            StateView::DanglingSelf => if dry_run {
                script::report(
                    name,
                    "would-skip"@,
                    true,
                    "cloud copy missing — nothing to link yet"@,
                )
            } else {
                script::report(
                    name,
                    "warn"@,
                    false,
                    "cloud copy missing — wait for sync, or re-adopt"@,
                )
            },
            StateView::Available => if dry_run {
                script::report(name, "would-link"@, true, ""@)
            } else {
                DecisionView::Perform(
                    ScriptView {
                        tighten: to_tighten(item),
                        ..script::plain_script(
                            name,
                            seq![OpView::MakeSymlink { original: item.source, link: target }],
                            "linked"@,
                            ""@,
                        )
                    },
                )
            },
            StateView::Healable => if dry_run {
                script::report(name, "would-relink"@, true, "content matches cloud"@)
            } else {
                DecisionView::Perform(
                    ScriptView {
                        tighten: to_tighten(item),
                        ..script::plain_script(
                            name,
                            seq![
                                OpView::KeepEqual { target, source: item.source },
                                OpView::RemovePath { path: target },
                                OpView::MakeSymlink { original: item.source, link: target },
                            ],
                            "relinked"@,
                            "healed atomic-save clobber"@,
                        )
                    },
                )
            },
            StateView::Diverged => match item.mapping.on_conflict {
                OnConflict::Fail => if dry_run {
                    script::report(
                        name,
                        "would-skip"@,
                        true,
                        "conflict — resolve, or set on_conflict = \"adopt\""@,
                    )
                } else {
                    script::report(
                        name,
                        "conflict"@,
                        false,
                        "local differs from cloud — resolve, or set on_conflict = \"adopt\""@,
                    )
                },
                OnConflict::Adopt => if dry_run {
                    script::report(name, "would-adopt"@, true, "back up local, link cloud"@)
                } else {
                    DecisionView::Perform(
                        backup_script(item, target, backup, "local → "@ + backup),
                    )
                },
            },
            StateView::ForeignSymlink(dest) => match item.mapping.on_conflict {
                OnConflict::Fail => if dry_run {
                    script::report(
                        name,
                        "would-skip"@,
                        true,
                        "foreign symlink to "@ + dest + " — resolve by hand"@,
                    )
                } else {
                    script::report(
                        name,
                        "conflict"@,
                        false,
                        "target is a symlink to "@ + dest + " — resolve by hand"@,
                    )
                },
                OnConflict::Adopt => if dry_run {
                    script::report(name, "would-adopt"@, true, "replace foreign symlink"@)
                } else {
                    DecisionView::Perform(
                        backup_script(item, target, backup, "old link → "@ + backup),
                    )
                },
            },
        },
    }
}

fn source_to_tighten(item: &Item) -> (r: Option<String>)
    ensures
        r.deep_view() == to_tighten(item@),
{
    if item.mapping.mode.is_some() {
        Some(item.source.clone())
    } else {
        None
    }
}

fn back_up(item: &Item, target: &str, backup: &str, detail: &str) -> (r: Decision)
    ensures
        r@ == DecisionView::Perform(backup_script(item@, target@, backup@, detail@)),
{
    let steps = script::two(
        Op::MovePath { from: target.to_owned(), to: backup.to_owned() },
        Op::MakeSymlink { original: item.source.clone(), link: target.to_owned() },
    );
    let mut s = script::script(item.name(), steps, "backed-up-linked", detail);
    s.tighten = source_to_tighten(item);
    s.undo = Some(
        UndoAction::Backup {
            name: item.mapping.name.clone(),
            target: target.to_owned(),
            source: item.source.clone(),
            backup: backup.to_owned(),
        },
    );
    Decision::Perform(s)
}

/// Make one item linked on this machine, according to its state and conflict
/// policy. Heals a save that replaced the link. `taken` are those of the
/// target's backup paths that something stands at.
pub fn link_item(item: &Item, dry_run: bool, taken: &Vec<String>) -> (r: Decision)
    ensures
        exists|backup: Seq<char>|
            #![trigger linking(item@, dry_run, backup)]
            r@ == linking(item@, dry_run, backup) && (item@.target matches Some(t)
                ==> fsutil::first_free_backup(t, taken.deep_view(), backup)),
{
    let name = item.name();
    let target: &str = match &item.target {
        None => {
            let r = script::reported(name, "skipped", true, "not for this OS");
            assert(r@ == linking(item@, dry_run, ""@));
            return r;
        },
        Some(target) => target.as_str(),
    };
    let bak = fsutil::backup_path(target, taken);
    let backup = bak.as_str();
    let r = match &item.state {
        State::Skipped => script::reported(name, "skipped", true, "not for this OS"),
        State::Linked => if dry_run || item.mapping.mode.is_none() {
            script::reported(name, "already-linked", true, "")
        } else {
            let mut s = script::script(name, Vec::new(), "already-linked", "");
            s.tighten = Some(item.source.clone());
            assert(s@.steps =~= Seq::<OpView>::empty());
            Decision::Perform(s)
        },
        State::Missing => script::reported(name, "skipped", true, "nothing to link"),
        State::LocalOnly => script::reported(
            name,
            "skipped",
            true,
            "local only — run `dotsync adopt`",
        ),
        State::DanglingSelf => if dry_run {
            script::reported(name, "would-skip", true, "cloud copy missing — nothing to link yet")
        } else {
            script::reported(
                name,
                "warn",
                false,
                "cloud copy missing — wait for sync, or re-adopt",
            )
        },
        State::Available => if dry_run {
            script::reported(name, "would-link", true, "")
        } else {
            let steps = script::one(
                Op::MakeSymlink { original: item.source.clone(), link: target.to_owned() },
            );
            let mut s = script::script(name, steps, "linked", "");
            s.tighten = source_to_tighten(item);
            Decision::Perform(s)
        },
        State::Healable => if dry_run {
            script::reported(name, "would-relink", true, "content matches cloud")
        } else {
            let mut steps: Vec<Op> = Vec::new();
            steps.push(Op::KeepEqual { target: target.to_owned(), source: item.source.clone() });
            steps.push(Op::RemovePath { path: target.to_owned() });
            steps.push(
                Op::MakeSymlink { original: item.source.clone(), link: target.to_owned() },
            );
            let mut s = script::script(name, steps, "relinked", "healed atomic-save clobber");
            s.tighten = source_to_tighten(item);
            assert(s@.steps =~= seq![
                OpView::KeepEqual { target: target@, source: item@.source },
                OpView::RemovePath { path: target@ },
                OpView::MakeSymlink { original: item@.source, link: target@ },
            ]);
            Decision::Perform(s)
        },
        State::Diverged => match item.mapping.on_conflict {
            OnConflict::Fail => if dry_run {
                script::reported(
                    name,
                    "would-skip",
                    true,
                    "conflict — resolve, or set on_conflict = \"adopt\"",
                )
            } else {
                script::reported(
                    name,
                    "conflict",
                    false,
                    "local differs from cloud — resolve, or set on_conflict = \"adopt\"",
                )
            },
            OnConflict::Adopt => if dry_run {
                script::reported(name, "would-adopt", true, "back up local, link cloud")
            } else {
                back_up(item, target, backup, "local → ".to_owned().concat(backup).as_str())
            },
        },
        State::ForeignSymlink(dest) => match item.mapping.on_conflict {
            OnConflict::Fail => if dry_run {
                script::reported(
                    name,
                    "would-skip",
                    true,
                    "foreign symlink to ".to_owned().concat(dest.as_str()).concat(
                        " — resolve by hand",
                    ).as_str(),
                )
            } else {
                script::reported(
                    name,
                    "conflict",
                    false,
                    "target is a symlink to ".to_owned().concat(dest.as_str()).concat(
                        " — resolve by hand",
                    ).as_str(),
                )
            },
            OnConflict::Adopt => if dry_run {
                script::reported(name, "would-adopt", true, "replace foreign symlink")
            } else {
                back_up(item, target, backup, "old link → ".to_owned().concat(backup).as_str())
            },
        },
    };
    assert(r@ == linking(item@, dry_run, backup@));
    r
}

// ---------------------------------------------------------------------------
// Unlinking and restoring
// ---------------------------------------------------------------------------

/// What removing an item's symlink comes to.
pub open spec fn unlinking(item: ItemView, dry_run: bool) -> DecisionView {
    let name = item.mapping.name;
    if item.state is Linked || item.state is DanglingSelf {
        match item.target {
            None => script::report(name, "skipped"@, true, ""@),
            Some(target) => if dry_run {
                script::report(name, "would-unlink"@, true, ""@)
            } else {
                DecisionView::Perform(
                    script::plain_script(
                        name,
                        seq![
                            OpView::KeepSymlink { path: target },
                            OpView::RemoveSymlink { path: target },
                        ],
                        "unlinked"@,
                        ""@,
                    ),
                )
            },
        }
    } else {
        script::report(name, "skipped"@, true, "no dotsync symlink here"@)
    }
}

/// Remove the symlink of one item, leaving the cloud copy in place. The script
/// first makes sure that it is still a symlink, so that a real file that was
/// saved there meanwhile is never deleted.
pub fn unlink_item(item: &Item, dry_run: bool) -> (r: Decision)
    ensures
        r@ == unlinking(item@, dry_run),
{
    let name = item.name();
    match &item.state {
        State::Linked | State::DanglingSelf => {
            let target: &str = match &item.target {
                None => return script::reported(name, "skipped", true, ""),
                Some(target) => target.as_str(),
            };
            if dry_run {
                return script::reported(name, "would-unlink", true, "");
            }
            let steps = script::two(
                Op::KeepSymlink { path: target.to_owned() },
                Op::RemoveSymlink { path: target.to_owned() },
            );
            Decision::Perform(script::script(name, steps, "unlinked", ""))
        },
        _ => script::reported(name, "skipped", true, "no dotsync symlink here"),
    }
}

/// Copying the sync copy next to the target, then swapping the symlink for it.
/// What stands at the target is removed only while it is still a symlink.
pub open spec fn restore_script(item: ItemView, target: Seq<char>) -> ScriptView {
    let tmp = fsutil::temp_name(target);
    ScriptView {
        cleanup: seq![OpView::Discard { path: tmp }],
        undo: Some(
            UndoView::Restore {
                name: item.mapping.name,
                target,
                source: item.source,
                mapping: item.mapping,
            },
        ),
        ..script::plain_script(
            item.mapping.name,
            seq![
                OpView::Discard { path: tmp },
                OpView::CopyTree { from: item.source, to: tmp },
                OpView::KeepSymlink { path: target },
                OpView::RemoveSymlink { path: target },
                OpView::MovePath { from: tmp, to: target },
            ],
            "restored"@,
            "real copy in $HOME; cloud copy kept"@,
        )
    }
}

/// What restoring an item to something real comes to; `present` is whether its
/// cloud copy is still there.
pub open spec fn restoring(item: ItemView, dry_run: bool, present: bool) -> DecisionView {
    let name = item.mapping.name;
    match item.target {
        None => script::report(name, "skipped"@, true, "not for this OS"@),
        Some(target) => match item.state {
            StateView::Linked => if !present {
                script::report(name, "error"@, false, "cloud copy missing — cannot restore"@)
            } else if dry_run {
                script::report(
                    name,
                    "would-restore"@,
                    true,
                    "copy cloud → $HOME, keep cloud copy"@,
                )
            } else {
                DecisionView::Perform(restore_script(item, target))
            },
            StateView::DanglingSelf => if dry_run {
                script::report(name, "would-unlink"@, true, "cloud copy missing"@)
            } else {
                DecisionView::Perform(
                    script::plain_script(
                        name,
                        seq![
                            OpView::KeepSymlink { path: target },
                            OpView::RemoveSymlink { path: target },
                        ],
                        "unlinked"@,
                        "cloud copy was missing"@,
                    ),
                )
            },
            _ => script::report(name, "skipped"@, true, "not linked here"@),
        },
    }
}

fn restore_decision(item: &Item, target: &str) -> (r: Decision)
    ensures
        r@ == DecisionView::Perform(restore_script(item@, target@)),
{
    let tmp = fsutil::temp_sibling(target);
    let mut steps: Vec<Op> = Vec::new();
    steps.push(Op::Discard { path: tmp.clone() });
    steps.push(Op::CopyTree { from: item.source.clone(), to: tmp.clone() });
    steps.push(Op::KeepSymlink { path: target.to_owned() });
    steps.push(Op::RemoveSymlink { path: target.to_owned() });
    steps.push(Op::MovePath { from: tmp.clone(), to: target.to_owned() });
    let mut s = script::script(
        item.name(),
        steps,
        "restored",
        "real copy in $HOME; cloud copy kept",
    );
    s.cleanup = script::one(Op::Discard { path: tmp });
    s.undo = Some(
        UndoAction::Restore {
            name: item.mapping.name.clone(),
            target: target.to_owned(),
            source: item.source.clone(),
            mapping: item.mapping.clone(),
        },
    );
    assert(s@.steps =~= restore_script(item@, target@).steps);
    Decision::Perform(s)
}

/// Restore a member to something real in the home base, leaving the cloud copy
/// untouched. The cloud copy is copied next to the target first and swapped for
/// the symlink after that, so a failure on the way loses nothing. A real file
/// that was saved at the target meanwhile is kept, and nothing is swapped.
pub fn restore_item(item: &Item, dry_run: bool, source_present: bool) -> (r: Decision)
    ensures
        r@ == restoring(item@, dry_run, source_present),
{
    let name = item.name();
    let target: &str = match &item.target {
        None => return script::reported(name, "skipped", true, "not for this OS"),
        Some(target) => target.as_str(),
    };
    match &item.state {
        State::Linked => if !source_present {
            script::reported(name, "error", false, "cloud copy missing — cannot restore")
        } else if dry_run {
            script::reported(name, "would-restore", true, "copy cloud → $HOME, keep cloud copy")
        } else {
            restore_decision(item, target)
        },
        State::DanglingSelf => if dry_run {
            script::reported(name, "would-unlink", true, "cloud copy missing")
        } else {
            let steps = script::two(
                Op::KeepSymlink { path: target.to_owned() },
                Op::RemoveSymlink { path: target.to_owned() },
            );
            Decision::Perform(script::script(name, steps, "unlinked", "cloud copy was missing"))
        },
        _ => script::reported(name, "skipped", true, "not linked here"),
    }
}

// ---------------------------------------------------------------------------
// Modes
// ---------------------------------------------------------------------------

/// What setting the permissions of a secret again comes to, by what stands at
/// its sync copy's path: nothing unless something there is too open.
pub open spec fn mode_enforcing(
    item: ItemView,
    dry_run: bool,
    found: Option<Tree>,
) -> Option<DecisionView> {
    if item.mapping.mode is None || !(found matches Some(t) && tree::too_open(t)) {
        None
    } else if dry_run {
        Some(script::report(item.mapping.name, "would-chmod"@, true, "tighten secret perms"@))
    } else {
        Some(
            DecisionView::Perform(
                script::plain_script(
                    item.mapping.name,
                    seq![OpView::Tighten { path: item.source }],
                    "chmod"@,
                    "tightened to 0700/0600"@,
                ),
            ),
        )
    }
}

/// Set the permissions of a secret again on an item's sync copy. Comes to
/// something only when something is (or would be) tightened.
pub fn enforce_mode(item: &Item, dry_run: bool, found: &Option<Node>) -> (r: Option<Decision>)
    ensures
        match r {
            Some(d) => mode_enforcing(item@, dry_run, found.deep_view()) == Some(d@),
            None => mode_enforcing(item@, dry_run, found.deep_view()) is None,
        },
{
    if item.mapping.mode.is_none() || !tree::any_too_open(found) {
        return None;
    }
    let name = item.name();
    if dry_run {
        return Some(script::reported(name, "would-chmod", true, "tighten secret perms"));
    }
    let steps = script::one(Op::Tighten { path: item.source.clone() });
    Some(Decision::Perform(script::script(name, steps, "chmod", "tightened to 0700/0600")))
}

/// An item as it is by what is found now.
pub open spec fn refreshed(
    item: ItemView,
    cfg: ConfigView,
    os: Seq<char>,
    probe: ProbeView,
) -> ItemView {
    plan::item_of(item.mapping, cfg, os, probe)
}

/// Compute an item's state anew, after something was done to it.
pub fn refresh(item: &Item, cfg: &Config, os: &str, probe: &Probe) -> (r: Item)
    ensures
        r@ == refreshed(item@, cfg@, os@, probe@),
{
    plan::state_of(&item.mapping, cfg, os, probe)
}

// ---------------------------------------------------------------------------
// When each operation acts
// ---------------------------------------------------------------------------

/// Linking acts exactly where it can: it links what is available, relinks what
/// heals, backs up and links on a conflict that the policy settles, and sets the
/// mode of a secret that is linked already. It fails exactly on a conflict that the
/// policy does not settle and on a symlink whose sync copy is missing.
pub proof fn law_linking_acts_exactly_where_it_can(item: ItemView, backup: Seq<char>)
    ensures
        ({
            let conflict = item.state is Diverged || item.state is ForeignSymlink;
            let settles = item.mapping.on_conflict == OnConflict::Adopt;
            let d = linking(item, false, backup);
            &&& d.concerns() == item.mapping.name
            &&& item.target is None ==> d is Report
            &&& item.target is Some ==> (d is Perform <==> item.state is Available || item.state
                is Healable || conflict && settles || item.state is Linked && item.mapping.mode
                is Some)
            &&& d matches DecisionView::Report(o) ==> {
                &&& o.undo is None
                &&& !o.ok <==> item.target is Some && (item.state is DanglingSelf || conflict
                    && !settles)
            }
            &&& d matches DecisionView::Perform(s) ==> {
                &&& s.tighten == (if item.mapping.mode is Some {
                    Some(item.source)
                } else {
                    None
                })
                &&& s.undo is Some <==> conflict
                &&& s.undo matches Some(u) ==> u == (UndoView::Backup {
                    name: item.mapping.name,
                    target: item.target->0,
                    source: item.source,
                    backup,
                })
                &&& item.state is Linked <==> s.steps.len() == 0
            }
        }),
{
}

/// A dry run of linking never fails, and announces a change exactly where linking
/// would change something at the target.
pub proof fn law_dry_linking_announces_what_linking_does(
    item: ItemView,
    backup: Seq<char>,
    other: Seq<char>,
)
    ensures
        linking(item, true, backup) matches DecisionView::Report(o) && o.ok && o.undo is None
            && o.name == item.mapping.name && ((o.action == "would-link"@ || o.action
            == "would-relink"@ || o.action == "would-adopt"@) <==> (linking(
            item,
            false,
            backup,
        ) matches DecisionView::Perform(s) && s.steps.len() > 0)),
        linking(item, true, backup) == linking(item, true, other),
{
    reveal_strlit("would-link");
    reveal_strlit("would-relink");
    reveal_strlit("would-adopt");
    reveal_strlit("would-skip");
    reveal_strlit("skipped");
    reveal_strlit("already-linked");
    assert("would-link"@.len() == 10);
    assert("would-relink"@.len() == 12);
    assert("would-adopt"@.len() == 11);
    assert("would-skip"@.len() == 10);
    assert("skipped"@.len() == 7);
    assert("already-linked"@.len() == 14);
    assert("would-link"@[6] == 'l');
    assert("would-skip"@[6] == 's');
}

/// Unlinking acts exactly on a symlink of its own, whether or not the sync copy is
/// there, and never fails in deciding.
pub proof fn law_unlinking_acts_exactly_on_its_symlinks(item: ItemView)
    ensures
        unlinking(item, false) is Perform <==> item.target is Some && (item.state is Linked
            || item.state is DanglingSelf),
        unlinking(item, false) matches DecisionView::Report(o) ==> o.ok && o.undo is None,
        unlinking(item, true) matches DecisionView::Report(o) && o.ok && o.undo is None && (o.action
            == "would-unlink"@ <==> unlinking(item, false) is Perform),
        unlinking(item, false).concerns() == item.mapping.name,
        unlinking(item, true).concerns() == item.mapping.name,
{
    reveal_strlit("would-unlink");
    reveal_strlit("skipped");
    assert("would-unlink"@.len() == 12);
    assert("skipped"@.len() == 7);
}

/// Restoring acts exactly on a symlink of its own: it copies the sync copy back
/// where there is one, and only drops the symlink where there was none. It fails
/// exactly where the sync copy went missing, and what it records of a copy is all
/// it takes to reverse it, the whole mapping with it.
pub proof fn law_restoring_acts_exactly_on_its_symlinks(item: ItemView, present: bool)
    ensures
        restoring(item, false, present) is Perform <==> item.target is Some && (item.state is Linked
            && present || item.state is DanglingSelf),
        restoring(item, false, present) matches DecisionView::Report(o) ==> o.undo is None && (!o.ok
            <==> item.target is Some && item.state is Linked && !present),
        restoring(item, false, present) matches DecisionView::Perform(s) ==> s.undo == (if item.state
            is Linked {
            Some(
                UndoView::Restore {
                    name: item.mapping.name,
                    target: item.target->0,
                    source: item.source,
                    mapping: item.mapping,
                },
            )
        } else {
            None
        }) && s.tighten is None,
        restoring(item, true, present) matches DecisionView::Report(o) && o.undo is None && (!o.ok
            <==> item.target is Some && item.state is Linked && !present) && ((o.action
            == "would-restore"@ || o.action == "would-unlink"@) <==> restoring(item, false, present)
            is Perform),
        restoring(item, false, present).concerns() == item.mapping.name,
        restoring(item, true, present).concerns() == item.mapping.name,
{
    reveal_strlit("would-restore");
    reveal_strlit("would-unlink");
    reveal_strlit("skipped");
    reveal_strlit("error");
    assert("would-restore"@.len() == 13);
    assert("would-unlink"@.len() == 12);
    assert("skipped"@.len() == 7);
    assert("error"@.len() == 5);
}

/// The mode of an item is set again exactly when it is a secret and something in
/// its sync copy, at any depth, is open to group or others.
pub proof fn law_modes_are_set_exactly_on_open_secrets(
    item: ItemView,
    dry_run: bool,
    found: Option<Tree>,
)
    ensures
        mode_enforcing(item, dry_run, found) is Some <==> item.mapping.mode is Some && (
        found matches Some(t) && exists|p: Seq<Seq<char>>, x: Tree| #[trigger]
            content::stands_at(t, p, x) && (content::mode_of(x) matches Some(m) && m & 0o077 != 0)),
        mode_enforcing(item, dry_run, found) matches Some(d) ==> d.concerns() == item.mapping.name
            && (d is Report <==> dry_run) && (d matches DecisionView::Report(o) ==> o.ok),
        mode_enforcing(item, dry_run, found) matches Some(DecisionView::Perform(s)) ==> s.steps
            == seq![OpView::Tighten { path: item.source }] && s.undo is None,
{
    match found {
        Some(t) => {
            content::law_too_open_iff_something_is(t);
        },
        None => {},
    }
}

// ---------------------------------------------------------------------------
// When adopting is refused
// ---------------------------------------------------------------------------

/// Looking at an item again keeps its mapping, and takes its state from what is
/// found now, whatever it was before.
pub proof fn law_a_refreshed_item_is_what_is_found_now(
    item: ItemView,
    other: ItemView,
    cfg: ConfigView,
    os: Seq<char>,
    probe: ProbeView,
)
    ensures
        refreshed(item, cfg, os, probe).mapping == item.mapping,
        item.mapping == other.mapping ==> refreshed(item, cfg, os, probe) == refreshed(
            other,
            cfg,
            os,
            probe,
        ),
        refreshed(item, cfg, os, probe).target == item.mapping.target_path(cfg.home, os),
        item.mapping.applies(os) ==> refreshed(item, cfg, os, probe).state == plan::found_state(
            refreshed(item, cfg, os, probe).source,
            probe,
        ),
        !item.mapping.applies(os) ==> refreshed(item, cfg, os, probe).state is Skipped,
{
}

/// Whether one path, by its text, lies in the other: it begins with the other and a
/// slash.
pub open spec fn lies_in(inner: Seq<char>, outer: Seq<char>) -> bool {
    inner.len() > outer.len() && inner[outer.len() as int] == '/' && inner.take(outer.len() as int)
        == outer
}

/// A name overlaps with existing mappings exactly when it lies in one of them or
/// one of them lies in it; a name that is there already is no overlap. The first
/// such mapping is the one that is named.
pub proof fn law_overlap_iff_one_lies_in_the_other(name: Seq<char>, existing: Seq<Seq<char>>)
    ensures
        overlap(name, existing) is Some <==> exists|i: int|
            0 <= i < existing.len() && (lies_in(name, #[trigger] existing[i]) || lies_in(
                existing[i],
                name,
            )),
        overlap(name, existing) matches Some(e) ==> exists|i: int|
            0 <= i < existing.len() && e == (if lies_in(name, #[trigger] existing[i]) {
                ErrorView::Covered { name, by: existing[i] }
            } else {
                ErrorView::WouldContain { name, other: existing[i] }
            }) && (lies_in(name, existing[i]) || lies_in(existing[i], name)) && forall|j: int|
                0 <= j < i ==> !lies_in(name, #[trigger] existing[j]) && !lies_in(
                    existing[j],
                    name,
                ),
    decreases existing.len(),
{
    if existing.len() > 0 {
        let rest = existing.skip(1);
        law_overlap_iff_one_lies_in_the_other(name, rest);
        lemma_lies_in(name, existing[0]);
        lemma_lies_in(existing[0], name);
        if overlap_with(name, existing[0]) is Some {
            assert(lies_in(name, existing[0]) || lies_in(existing[0], name));
        } else {
            assert(!lies_in(name, existing[0]) && !lies_in(existing[0], name));
            assert forall|i: int| 0 < i < existing.len() implies #[trigger] existing[i] == rest[i
                - 1] by {}
            if overlap(name, rest) is Some {
                let e = overlap(name, rest)->0;
                let k = choose|i: int|
                    0 <= i < rest.len() && e == (if lies_in(name, #[trigger] rest[i]) {
                        ErrorView::Covered { name, by: rest[i] }
                    } else {
                        ErrorView::WouldContain { name, other: rest[i] }
                    }) && (lies_in(name, rest[i]) || lies_in(rest[i], name)) && forall|j: int|
                        0 <= j < i ==> !lies_in(name, #[trigger] rest[j]) && !lies_in(
                            rest[j],
                            name,
                        );
                assert(existing[k + 1] == rest[k]);
                assert forall|j: int| 0 <= j < k + 1 implies !lies_in(name, #[trigger] existing[j])
                    && !lies_in(existing[j], name) by {
                    if j > 0 {
                        assert(rest[j - 1] == existing[j]);
                    }
                }
            } else if exists|i: int|
                0 <= i < existing.len() && (lies_in(name, #[trigger] existing[i]) || lies_in(
                    existing[i],
                    name,
                )) {
                let i = choose|i: int|
                    0 <= i < existing.len() && (lies_in(name, #[trigger] existing[i]) || lies_in(
                        existing[i],
                        name,
                    ));
                assert(existing[i] == rest[i - 1]);
            }
        }
    }
}

proof fn lemma_lies_in(inner: Seq<char>, outer: Seq<char>)
    ensures
        lies_in(inner, outer) <==> text::starts_with(inner, outer + "/"@),
        lies_in(inner, outer) ==> inner != outer && !lies_in(outer, inner),
{
    reveal_strlit("/");
    let n = outer.len() as int;
    let slashed = outer + "/"@;
    if lies_in(inner, outer) {
        assert(inner.take(n + 1) =~= slashed) by {
            assert forall|i: int| 0 <= i < n implies inner[i] == outer[i] by {
                assert(inner.take(n)[i] == outer[i]);
            }
        }
    }
    if text::starts_with(inner, slashed) {
        assert(inner.take(n) =~= outer) by {
            assert forall|i: int| 0 <= i < n implies inner[i] == outer[i] by {
                assert(inner.take(n + 1)[i] == slashed[i]);
            }
        }
        assert(inner.take(n + 1)[n] == slashed[n]);
    }
}

/// A path has a name to be adopted by exactly when it lies under the home base and
/// is not the home base itself.
pub proof fn law_name_iff_under_the_home_base(cfg: ConfigView, target: Seq<char>)
    requires
        path::components(cfg.home).len() > 0,
    ensures
        adopt_name(cfg, target) is Ok <==> path::within(target, cfg.home) && path::components(target)
            != path::components(cfg.home),
        adopt_name(cfg, target) matches Err(e) ==> e == (if path::within(target, cfg.home) {
            ErrorView::HomeItself
        } else {
            ErrorView::NotUnderHome { path: target, home: cfg.home }
        }),
{
    let n = path::components(cfg.home).len();
    if path::within(target, cfg.home) {
        path::lemma_rest_components(target, n);
        let rel = path::rest(target, n);
        let left = path::components(target).skip(n as int);
        if rel.len() == 0 {
            path::lemma_empty_components();
            assert(rel =~= Seq::<char>::empty());
            assert(left.len() == 0);
            assert(path::components(target).take(n as int) =~= path::components(target));
        }
        if path::components(target) == path::components(cfg.home) {
            path::lemma_rest_of_all(target);
        }
    }
}

/// Adopting is refused exactly when nothing is there, the path lies in the sync
/// folder, it has no name under the home base, its name overlaps with a mapping,
/// or, unless it is linked to its sync copy already, it leads into the sync folder
/// or a sync copy is there that differs. A dry run is refused exactly when adopting
/// is.
pub proof fn law_adopting_is_refused_exactly(
    cfg: ConfigView,
    target: Seq<char>,
    os_scope: Option<Seq<char>>,
    group: Option<Seq<char>>,
    existing: Seq<Seq<char>>,
    facts: AdoptFactsView,
    dry_run: bool,
)
    ensures
        ({
            let r = adoption(cfg, target, os_scope, group, existing, dry_run, facts);
            let name = adopt_name(cfg, target);
            let source = path::joined(cfg.sync_dir, name->Ok_0);
            let ours = facts.link matches Some(d) && path::components(d) == path::components(source);
            let folder = match facts.sync_resolved {
                Some(s) => s,
                None => cfg.sync_dir,
            };
            &&& r is Err <==> !facts.present || path::within(target, cfg.sync_dir) || name is Err || (
            exists|i: int|
                0 <= i < existing.len() && (lies_in(name->Ok_0, #[trigger] existing[i]) || lies_in(
                    existing[i],
                    name->Ok_0,
                ))) || !ours && ((facts.resolved matches Some(at) && path::within(at, folder))
                || facts.source_present && !(facts.target is Some && facts.source is Some
                && tree::same_tree(facts.target->0, facts.source->0)))
            &&& r matches Ok((m, d)) ==> {
                &&& m == adopted_mapping(name->Ok_0, facts.is_dir, os_scope, group)
                &&& d.concerns() == name->Ok_0
                &&& d is Perform <==> !dry_run && !ours
                &&& d matches DecisionView::Report(o) ==> o.ok && o.undo is None
                &&& d matches DecisionView::Perform(s) ==> s == (if facts.source_present {
                    relink_script(name->Ok_0, target, source)
                } else {
                    adopt_script(name->Ok_0, target, source, m.mode is Some)
                })
            }
        }),
{
    match adopt_name(cfg, target) {
        Ok(name) => {
            law_overlap_iff_one_lies_in_the_other(name, existing);
        },
        Err(_) => {},
    }
}

/// What adopting records: the name, the group and nothing that was not asked for.
/// A secret gets a mode, `0700` for a directory and `0600` for a file; anything
/// else gets none. A path scoped to one system gets a target there alone.
pub proof fn law_adopted_mapping_is_plain(
    name: Seq<char>,
    is_dir: bool,
    os_scope: Option<Seq<char>>,
    group: Option<Seq<char>>,
)
    ensures
        ({
            let m = adopted_mapping(name, is_dir, os_scope, group);
            &&& m.name == name
            &&& m.group == group
            &&& m.target is None
            &&& m.on_conflict == OnConflict::Fail
            &&& m.mode is Some <==> fsutil::secret_name(name)
            &&& m.mode matches Some(mode) ==> mode == (if is_dir {
                "0700"@
            } else {
                "0600"@
            })
            &&& os_scope is None ==> m.target_mac is None && m.target_linux is None
            &&& m.target_mac is Some <==> os_scope == Some("mac"@)
            &&& m.target_linux is Some <==> os_scope == Some("linux"@)
        }),
{
}

/// What adopting, relinking and backing up record is what it takes to reverse them,
/// and of relinking, which loses nothing, nothing is recorded.
pub proof fn law_adopting_records_where_it_moved(
    name: Seq<char>,
    target: Seq<char>,
    source: Seq<char>,
    secret: bool,
)
    ensures
        adopt_script(name, target, source, secret).undo == Some(
            UndoView::Adopt { name, target, source },
        ),
        adopt_script(name, target, source, secret).name == name,
        relink_script(name, target, source).undo is None,
        relink_script(name, target, source).name == name,
{
}

} // verus!
