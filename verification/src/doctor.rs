//! Health checks. They surface the states that need attention (replaced links,
//! conflicts, dangling and foreign links, secrets whose mode drifted open, cloud
//! "conflicted copy" siblings) and drift from other machines (orphan links whose
//! mapping was removed elsewhere, partially linked groups). What is safe to
//! repair can be repaired; drift is an advisory, never a mutation.
use vstd::prelude::*;
use vstd::string::*;

use crate::apply;
use crate::config;
use crate::config::{Config, ConfigView};
use crate::fsutil;
use crate::mapping;
use crate::mapping::{MappingView, MappingsFile};
use crate::number;
use crate::path;
use crate::plan::{Item, ItemView, State, StateView};
use crate::script::{Decision, DecisionView, Outcome, OutcomeView};
use crate::text;
use crate::tree;
use crate::tree::{Node, Tree};

verus! {

/// How grave an issue is.
#[derive(Debug, Clone, Copy, PartialEq, Eq, Structural)]
pub enum Level {
    Warn,
    Error,
}

/// One thing worth the user's attention.
#[derive(Debug)]
pub struct Issue {
    pub name: String,
    pub level: Level,
    pub message: String,
    /// Whether it can be repaired automatically.
    pub fixable: bool,
}

/// What an issue holds.
#[verifier::ext_equal]
pub struct IssueView {
    pub name: Seq<char>,
    pub level: Level,
    pub message: Seq<char>,
    pub fixable: bool,
}

impl View for Issue {
    type V = IssueView;

    open spec fn view(&self) -> IssueView {
        IssueView {
            name: self.name@,
            level: self.level,
            message: self.message@,
            fixable: self.fixable,
        }
    }
}

impl DeepView for Issue {
    type V = IssueView;

    open spec fn deep_view(&self) -> IssueView {
        self@
    }
}

impl Clone for Issue {
    fn clone(&self) -> (r: Self)
        ensures
            r == *self,
    {
        Issue {
            name: self.name.clone(),
            level: self.level,
            message: self.message.clone(),
            fixable: self.fixable,
        }
    }
}

/// The result of a health check.
#[derive(Debug)]
pub struct Report {
    pub issues: Vec<Issue>,
    pub fixed: Vec<Outcome>,
}

/// What a report holds.
#[verifier::ext_equal]
pub struct ReportView {
    pub issues: Seq<IssueView>,
    pub fixed: Seq<OutcomeView>,
}

impl View for Report {
    type V = ReportView;

    open spec fn view(&self) -> ReportView {
        ReportView { issues: self.issues.deep_view(), fixed: self.fixed.deep_view() }
    }
}

/// The issues of a level, in order.
pub open spec fn of_level(issues: Seq<IssueView>, level: Level) -> Seq<IssueView>
    decreases issues.len(),
{
    if issues.len() == 0 {
        issues
    } else if issues.last().level == level {
        of_level(issues.drop_last(), level).push(issues.last())
    } else {
        of_level(issues.drop_last(), level)
    }
}

impl ReportView {
    /// Whether there is no problem of the graver level.
    pub open spec fn is_healthy(self) -> bool {
        forall|i: int| 0 <= i < self.issues.len() ==> (#[trigger] self.issues[i]).level
            != Level::Error
    }
}

impl Report {
    /// Healthy is to have no error-level problem. Advisories are surfaced, but
    /// do not make a machine unhealthy: they are often transient.
    pub fn healthy(&self) -> (r: bool)
        ensures
            r == self@.is_healthy(),
    {
        let mut i: usize = 0;
        while i < self.issues.len()
            invariant
                i <= self.issues@.len(),
                forall|j: int| 0 <= j < i ==> (#[trigger] self@.issues[j]).level != Level::Error,
            decreases self.issues@.len() - i,
        {
            if self.issues[i].level == Level::Error {
                assert(self@.issues[i as int].level == Level::Error);
                return false;
            }
            i += 1;
        }
        true
    }

    /// The error-level problems.
    pub fn errors(&self) -> (r: Vec<Issue>)
        ensures
            r.deep_view() == of_level(self@.issues, Level::Error),
    {
        issues_of(&self.issues, Level::Error)
    }

    /// The advisories.
    pub fn advisories(&self) -> (r: Vec<Issue>)
        ensures
            r.deep_view() == of_level(self@.issues, Level::Warn),
    {
        issues_of(&self.issues, Level::Warn)
    }
}

fn issues_of(issues: &Vec<Issue>, level: Level) -> (r: Vec<Issue>)
    ensures
        r.deep_view() == of_level(issues.deep_view(), level),
{
    let ghost all = issues.deep_view();
    let mut r: Vec<Issue> = Vec::new();
    let mut i: usize = 0;
    assert(r.deep_view() =~= of_level(all.take(0), level));
    while i < issues.len()
        invariant
            i <= issues@.len(),
            all == issues.deep_view(),
            r.deep_view() == of_level(all.take(i as int), level),
        decreases issues@.len() - i,
    {
        let ghost before = r.deep_view();
        assert(all.take(i + 1).drop_last() =~= all.take(i as int));
        assert(all.take(i + 1).last() == issues@[i as int]@);
        if issues[i].level == level {
            r.push(issues[i].clone());
            assert(r.deep_view() =~= before.push(all[i as int]));
        }
        i += 1;
    }
    assert(all.take(i as int) =~= all);
    r
}

/// A report is healthy exactly when it lists no errors.
pub proof fn law_healthy_iff_no_errors(report: ReportView)
    ensures
        report.is_healthy() <==> of_level(report.issues, Level::Error).len() == 0,
{
    lemma_no_errors(report.issues);
}

proof fn lemma_no_errors(issues: Seq<IssueView>)
    ensures
        of_level(issues, Level::Error).len() == 0 <==> forall|i: int|
            0 <= i < issues.len() ==> (#[trigger] issues[i]).level != Level::Error,
    decreases issues.len(),
{
    if issues.len() > 0 {
        let init = issues.drop_last();
        lemma_no_errors(init);
        if of_level(issues, Level::Error).len() == 0 {
            assert forall|i: int| 0 <= i < issues.len() implies (#[trigger] issues[i]).level
                != Level::Error by {
                if i < init.len() {
                    assert(init[i].level != Level::Error);
                }
            }
        } else if issues.last().level == Level::Error {
            assert(issues[issues.len() - 1].level == Level::Error);
        } else {
            let i = choose|i: int|
                0 <= i < init.len() && (#[trigger] init[i]).level == Level::Error;
            assert(issues[i].level == Level::Error);
        }
    }
}

/// At most one issue as a list.
pub open spec fn listed(issue: Option<IssueView>) -> Seq<IssueView> {
    match issue {
        Some(i) => seq![i],
        None => seq![],
    }
}

fn note(issues: &mut Vec<Issue>, issue: Option<Issue>)
    ensures
        final(issues).deep_view() == old(issues).deep_view() + listed(issue.deep_view()),
{
    let ghost before = issues.deep_view();
    match issue {
        Some(i) => {
            issues.push(i);
            assert(issues.deep_view() =~= before + seq![i@]);
        },
        None => {
            assert(issues.deep_view() =~= before + Seq::<IssueView>::empty());
        },
    }
}

fn warning(name: &str, message: &str, fixable: bool) -> (r: Issue)
    ensures
        r@ == (IssueView { name: name@, level: Level::Warn, message: message@, fixable }),
{
    Issue { name: name.to_owned(), level: Level::Warn, message: message.to_owned(), fixable }
}

fn failing(name: &str, message: &str) -> (r: Issue)
    ensures
        r@ == (IssueView { name: name@, level: Level::Error, message: message@, fixable: false }),
{
    Issue { name: name.to_owned(), level: Level::Error, message: message.to_owned(), fixable: false }
}

// ---------------------------------------------------------------------------
// One mapping
// ---------------------------------------------------------------------------

/// What the state of a mapping gives rise to. A replaced link that is being
/// repaired is no issue.
pub open spec fn state_issue(item: ItemView, fix: bool) -> Option<IssueView> {
    let name = item.mapping.name;
    match item.state {
        StateView::Healable => if fix {
            None
        } else {
            Some(
                IssueView {
                    name,
                    level: Level::Warn,
                    message:
                        "an atomic-save replaced the symlink with a real file; content still matches the cloud copy (fixable: relink)"@,
                    fixable: true,
                },
            )
        },
        StateView::Diverged => Some(
            IssueView {
                name,
                level: Level::Error,
                message:
                    "local file differs from the cloud copy — resolve by hand, or set on_conflict = \"adopt\""@,
                fixable: false,
            },
        ),
        StateView::DanglingSelf => Some(
            IssueView {
                name,
                level: Level::Warn,
                message:
                    "symlinked into the cloud, but the cloud copy is missing (not downloaded yet, or deleted)"@,
                fixable: false,
            },
        ),
        StateView::ForeignSymlink(dest) => Some(
            IssueView {
                name,
                level: Level::Warn,
                message: "target is a symlink to "@ + dest + " — not managed by dotsync"@,
                fixable: false,
            },
        ),
        _ => None,
    }
}

fn check_state(item: &Item, fix: bool) -> (r: Option<Issue>)
    ensures
        r.deep_view() == state_issue(item@, fix),
{
    let name = item.name();
    match &item.state {
        State::Healable => if fix {
            None
        } else {
            Some(
                warning(
                    name,
                    "an atomic-save replaced the symlink with a real file; content still matches the cloud copy (fixable: relink)",
                    true,
                ),
            )
        },
        State::Diverged => Some(
            failing(
                name,
                "local file differs from the cloud copy — resolve by hand, or set on_conflict = \"adopt\"",
            ),
        ),
        State::DanglingSelf => Some(
            warning(
                name,
                "symlinked into the cloud, but the cloud copy is missing (not downloaded yet, or deleted)",
                false,
            ),
        ),
        State::ForeignSymlink(dest) => Some(
            warning(
                name,
                "target is a symlink to ".to_owned().concat(dest.as_str()).concat(
                    " — not managed by dotsync",
                ).as_str(),
                false,
            ),
        ),
        _ => None,
    }
}

/// What the permissions of a secret give rise to, by what stands at its sync
/// copy's path. While repairing, they are no issue.
pub open spec fn mode_issue(item: ItemView, fix: bool, found: Option<Tree>) -> Option<IssueView> {
    if found matches Some(t) && tree::too_open(t) && item.mapping.mode is Some && !fix {
        Some(
            IssueView {
                name: item.mapping.name,
                level: Level::Warn,
                message:
                    "secret perms are group/world-accessible somewhere in the tree (fixable: chmod to 0700/0600)"@,
                fixable: true,
            },
        )
    } else {
        None
    }
}

fn check_mode(item: &Item, fix: bool, found: &Option<Node>) -> (r: Option<Issue>)
    ensures
        r.deep_view() == mode_issue(item@, fix, found.deep_view()),
{
    if !fix && item.is_secret() && tree::any_too_open(found) {
        Some(
            warning(
                item.name(),
                "secret perms are group/world-accessible somewhere in the tree (fixable: chmod to 0700/0600)",
                true,
            ),
        )
    } else {
        None
    }
}

/// What a secret's target inside a git working tree gives rise to: git could
/// commit the secret.
pub open spec fn git_issue(item: ItemView, repos: Seq<Seq<char>>) -> Option<IssueView> {
    match item.target {
        Some(target) => match config::git_tree(target, repos) {
            Some(repo) => if item.mapping.mode is Some {
                Some(
                    IssueView {
                        name: item.mapping.name,
                        level: Level::Error,
                        message: "secret's target is inside a git repository ("@ + repo
                            + ") — git could commit it; move it out of the repo"@,
                        fixable: false,
                    },
                )
            } else {
                None
            },
            None => None,
        },
        None => None,
    }
}

fn check_git(item: &Item, repos: &Vec<String>) -> (r: Option<Issue>)
    ensures
        r.deep_view() == git_issue(item@, repos.deep_view()),
{
    if !item.is_secret() {
        return None;
    }
    let target: &str = match &item.target {
        Some(target) => target.as_str(),
        None => return None,
    };
    match config::enclosing_git_tree(target, repos) {
        Some(repo) => Some(
            failing(
                item.name(),
                "secret's target is inside a git repository (".to_owned().concat(
                    repo.as_str(),
                ).concat(") — git could commit it; move it out of the repo").as_str(),
            ),
        ),
        None => None,
    }
}

/// One mapping as it was planned, with what was found on disk about it.
#[derive(Debug)]
pub struct Checkup {
    pub item: Item,
    /// What stands at the sync copy's path; of interest for a secret only.
    pub found: Option<Node>,
    /// Those of the target and its ancestors that hold a `.git`; of interest
    /// for a secret only.
    pub repos: Vec<String>,
}

/// What a checkup holds.
#[verifier::ext_equal]
pub struct CheckupView {
    pub item: ItemView,
    pub found: Option<Tree>,
    pub repos: Seq<Seq<char>>,
}

impl View for Checkup {
    type V = CheckupView;

    open spec fn view(&self) -> CheckupView {
        CheckupView {
            item: self.item@,
            found: self.found.deep_view(),
            repos: self.repos.deep_view(),
        }
    }
}

impl DeepView for Checkup {
    type V = CheckupView;

    open spec fn deep_view(&self) -> CheckupView {
        self@
    }
}

/// What one mapping gives rise to.
pub open spec fn item_issues(check: CheckupView, fix: bool) -> Seq<IssueView> {
    listed(state_issue(check.item, fix)) + listed(mode_issue(check.item, fix, check.found))
        + listed(git_issue(check.item, check.repos))
}

/// What the mappings give rise to, in order.
pub open spec fn all_item_issues(checks: Seq<CheckupView>, fix: bool) -> Seq<IssueView>
    decreases checks.len(),
{
    if checks.len() == 0 {
        seq![]
    } else {
        all_item_issues(checks.drop_last(), fix) + item_issues(checks.last(), fix)
    }
}

fn check_items(checks: &Vec<Checkup>, fix: bool) -> (r: Vec<Issue>)
    ensures
        r.deep_view() == all_item_issues(checks.deep_view(), fix),
{
    let ghost all = checks.deep_view();
    let mut r: Vec<Issue> = Vec::new();
    let mut i: usize = 0;
    assert(r.deep_view() =~= all_item_issues(all.take(0), fix));
    while i < checks.len()
        invariant
            i <= checks@.len(),
            all == checks.deep_view(),
            r.deep_view() == all_item_issues(all.take(i as int), fix),
        decreases checks@.len() - i,
    {
        let ghost before = r.deep_view();
        let check = &checks[i];
        assert(all.take(i + 1).drop_last() =~= all.take(i as int));
        assert(all.take(i + 1).last() == check@);
        let state = check_state(&check.item, fix);
        note(&mut r, state);
        let mode = check_mode(&check.item, fix, &check.found);
        note(&mut r, mode);
        let git = check_git(&check.item, &check.repos);
        note(&mut r, git);
        assert(r.deep_view() =~= before + item_issues(check@, fix));
        i += 1;
    }
    assert(all.take(i as int) =~= all);
    r
}

/// The repair that a replaced link calls for: linking, which backs nothing up
/// here.
pub open spec fn healing(item: ItemView) -> Option<DecisionView> {
    if item.state is Healable {
        Some(apply::linking(item, false, Seq::empty()))
    } else {
        None
    }
}

/// The repair that a replaced link calls for.
pub fn heal(item: &Item) -> (r: Option<Decision>)
    ensures
        match r {
            Some(d) => healing(item@) == Some(d@),
            None => healing(item@) is None,
        },
{
    match &item.state {
        State::Healable => {
            let taken: Vec<String> = Vec::new();
            let d = apply::link_item(item, false, &taken);
            proof {
                let backup = choose|backup: Seq<char>|
                    #![trigger apply::linking(item@, false, backup)]
                    d@ == apply::linking(item@, false, backup);
                assert(d@ == apply::linking(item@, false, backup));
                assert(apply::linking(item@, false, backup) == apply::linking(
                    item@,
                    false,
                    Seq::empty(),
                ));
            }
            Some(d)
        },
        _ => None,
    }
}

/// How far the repairs of an item have come: what is looked at next.
#[derive(Debug, Clone, Copy, PartialEq, Eq, Structural)]
pub enum Stage {
    /// Whether its link was replaced.
    Link,
    /// Whether its permissions drifted open.
    Mode,
    /// Nothing more.
    Done,
}

/// The repairs of one item, one after the other. Healing a secret tightens it
/// too, so the permissions are judged by what is found once that is done.
#[derive(Debug)]
pub struct Repairs {
    pub fix: bool,
    pub stage: Stage,
}

/// The repair that is due on an item, and what is looked at after it. There is
/// none unless repairing was asked for.
pub open spec fn repair_due(
    item: ItemView,
    fix: bool,
    stage: Stage,
    found: Option<Tree>,
) -> (Option<DecisionView>, Stage) {
    if !fix || stage == Stage::Done {
        (None, Stage::Done)
    } else if stage == Stage::Link && healing(item) is Some {
        (healing(item), Stage::Mode)
    } else {
        (apply::mode_enforcing(item, false, found), Stage::Done)
    }
}

/// What repairing an item begins with: its symlink, before its permissions.
pub open spec fn first_stage() -> Stage {
    Stage::Link
}

/// Begin the repairs of one item; `fix` is whether repairing was asked for.
pub fn repairs(fix: bool) -> (r: Repairs)
    ensures
        r == (Repairs { fix, stage: first_stage() }),
{
    Repairs { fix, stage: Stage::Link }
}

impl Repairs {
    /// The repair that is due on the item, if any is left, where `found` is what
    /// stands at its sync copy's path now.
    pub fn next(&mut self, item: &Item, found: &Option<Node>) -> (r: Option<Decision>)
        ensures
            match r {
                Some(d) => repair_due(item@, old(self).fix, old(self).stage, found.deep_view()).0
                    == Some(d@),
                None => repair_due(item@, old(self).fix, old(self).stage, found.deep_view()).0
                    is None,
            },
            *final(self) == (Repairs {
                fix: old(self).fix,
                stage: repair_due(item@, old(self).fix, old(self).stage, found.deep_view()).1,
            }),
    {
        if !self.fix || self.stage == Stage::Done {
            self.stage = Stage::Done;
            return None;
        }
        if self.stage == Stage::Link {
            match heal(item) {
                Some(d) => {
                    self.stage = Stage::Mode;
                    return Some(d);
                },
                None => {},
            }
        }
        self.stage = Stage::Done;
        apply::enforce_mode(item, false, found)
    }
}

/// Repairing is asked for and safe: without `fix` nothing is repaired, and with
/// it only a replaced link whose content still matches is linked again and only
/// a secret that is too open is tightened. Each repair is about the item that it
/// repairs.
pub proof fn law_repairs_are_asked_for_and_safe(
    item: ItemView,
    fix: bool,
    stage: Stage,
    found: Option<Tree>,
)
    ensures
        repair_due(item, false, stage, found).0 is None,
        repair_due(item, fix, stage, found).0 matches Some(d) ==> {
            &&& fix
            &&& d.concerns() == item.mapping.name
            &&& item.state is Healable && Some(d) == healing(item) || item.mapping.mode is Some && (
            found matches Some(t) && tree::too_open(t)) && Some(d) == apply::mode_enforcing(
                item,
                false,
                found,
            )
        },
        fix && item.state is Healable ==> repair_due(item, fix, Stage::Link, found).0 is Some,
        fix && item.mapping.mode is Some && (found matches Some(t) && tree::too_open(t))
            ==> repair_due(item, fix, Stage::Mode, found).0 is Some,
{
}

// ---------------------------------------------------------------------------
// The sync folder
// ---------------------------------------------------------------------------

/// What a sync folder inside a git working tree gives rise to.
pub open spec fn sync_git_issue(cfg: ConfigView, repos: Seq<Seq<char>>) -> Option<IssueView> {
    match config::git_tree(cfg.sync_dir, repos) {
        Some(repo) => Some(
            IssueView {
                name: cfg.sync_dir,
                level: Level::Error,
                message: "sync folder is inside a git repository ("@ + repo
                    + ") — synced files and secrets could be committed"@,
                fixable: false,
            },
        ),
        None => None,
    }
}

fn check_sync_git(cfg: &Config, repos: &Vec<String>) -> (r: Option<Issue>)
    ensures
        r.deep_view() == sync_git_issue(cfg@, repos.deep_view()),
{
    match config::enclosing_git_tree(cfg.sync_dir.as_str(), repos) {
        Some(repo) => Some(
            failing(
                cfg.sync_dir.as_str(),
                "sync folder is inside a git repository (".to_owned().concat(
                    repo.as_str(),
                ).concat(") — synced files and secrets could be committed").as_str(),
            ),
        ),
        None => None,
    }
}

/// Whether some mapping is a secret.
pub open spec fn any_secret(checks: Seq<CheckupView>) -> bool {
    exists|i: int| 0 <= i < checks.len() && (#[trigger] checks[i]).item.mapping.mode is Some
}

/// What a sync folder that holds secrets and is open to others gives rise to.
pub open spec fn sync_mode_issue(
    cfg: ConfigView,
    mode: Option<u32>,
    checks: Seq<CheckupView>,
) -> Option<IssueView> {
    match mode {
        Some(m) => if (m & 0o7777) & 0o077 != 0 && any_secret(checks) {
            Some(
                IssueView {
                    name: cfg.sync_dir,
                    level: Level::Warn,
                    message: "sync folder is group/world-accessible ("@ + number::octal4(
                        (m & 0o7777) as nat,
                    ) + ") but holds secrets — consider `chmod 700`"@,
                    fixable: false,
                },
            )
        } else {
            None
        },
        None => None,
    }
}

fn holds_secret(checks: &Vec<Checkup>) -> (r: bool)
    ensures
        r == any_secret(checks.deep_view()),
{
    let ghost all = checks.deep_view();
    let mut i: usize = 0;
    while i < checks.len()
        invariant
            i <= checks@.len(),
            all == checks.deep_view(),
            forall|j: int| 0 <= j < i ==> (#[trigger] all[j]).item.mapping.mode is None,
        decreases checks@.len() - i,
    {
        if checks[i].item.is_secret() {
            assert(all[i as int].item.mapping.mode is Some);
            return true;
        }
        i += 1;
    }
    false
}

fn check_sync_mode(cfg: &Config, raw: Option<u32>, checks: &Vec<Checkup>) -> (r: Option<Issue>)
    ensures
        r.deep_view() == sync_mode_issue(cfg@, raw, checks.deep_view()),
{
    match raw {
        Some(m) => {
            let mode = fsutil::mode_of(m);
            if (mode & 0o077) != 0 && holds_secret(checks) {
                Some(
                    warning(
                        cfg.sync_dir.as_str(),
                        "sync folder is group/world-accessible (".to_owned().concat(
                            number::octal4_text(mode).as_str(),
                        ).concat(") but holds secrets — consider `chmod 700`").as_str(),
                        false,
                    ),
                )
            } else {
                None
            }
        },
        None => None,
    }
}

/// Permissions as an octal text, for display; `????` when they could not be
/// read.
pub fn mode_string(raw: Option<u32>) -> (r: String)
    ensures
        r@ == (match raw {
            Some(m) => number::octal4((m & 0o7777) as nat),
            None => "????"@,
        }),
{
    match raw {
        Some(m) => number::octal4_text(fsutil::mode_of(m)),
        None => "????".to_owned(),
    }
}

// ---------------------------------------------------------------------------
// The cloud tree
// ---------------------------------------------------------------------------

/// One entry of the cloud tree.
#[derive(Debug)]
pub struct CloudEntry {
    pub name: String,
    /// Whether it is a directory (a symlink to one is not).
    pub is_dir: bool,
    /// What is in it.
    pub entries: Vec<CloudEntry>,
    /// The destination, when a symlink stands at its place in the home base.
    pub home_link: Option<String>,
}

/// What a cloud entry holds.
#[verifier::ext_equal]
pub struct CloudView {
    pub name: Seq<char>,
    pub is_dir: bool,
    pub entries: Seq<CloudView>,
    pub home_link: Option<Seq<char>>,
}

/// What a cloud entry holds.
pub open spec fn cloud_view(e: CloudEntry) -> CloudView
    decreases e,
{
    CloudView {
        name: e.name@,
        is_dir: e.is_dir,
        entries: Seq::new(
            e.entries@.len(),
            |i: int|
                if 0 <= i < e.entries@.len() {
                    cloud_view(e.entries@[i])
                } else {
                    CloudView { name: seq![], is_dir: false, entries: seq![], home_link: None }
                },
        ),
        home_link: e.home_link.deep_view(),
    }
}

/// What cloud entries hold.
pub open spec fn cloud_views(es: Seq<CloudEntry>) -> Seq<CloudView> {
    Seq::new(es.len(), |i: int| cloud_view(es[i]))
}

/// The path of an entry relative to the sync folder, where `dir` is that of the
/// directory it is in (empty for the sync folder itself).
pub open spec fn relative(dir: Seq<char>, name: Seq<char>) -> Seq<char> {
    if dir.len() == 0 {
        name
    } else {
        dir + "/"@ + name
    }
}

/// The path of an entry relative to the sync folder.
pub fn entry_path(dir: &str, name: &str) -> (r: String)
    ensures
        r@ == relative(dir@, name@),
{
    if text::chars(dir).len() == 0 {
        name.to_owned()
    } else {
        dir.to_owned().concat("/").concat(name)
    }
}

/// The mapping name that stands for a path relative to the sync folder.
pub open spec fn slashed(rel: Seq<char>) -> Seq<char> {
    text::replace_char(rel, '\\', '/')
}

/// Where a path relative to the sync folder has its place in the home base.
pub fn home_place(cfg: &Config, rel: &str) -> (r: String)
    ensures
        r@ == path::joined(cfg@.home, slashed(rel@)),
{
    path::join_path(cfg.home.as_str(), text::replace_chars(rel, '\\', '/').as_str())
}

/// Whether a home-relative path is covered by a mapping: the mapping itself, or
/// a directory above it that is mapped as a whole.
pub open spec fn is_covered(rel: Seq<char>, mappings: Seq<MappingView>) -> bool {
    exists|i: int|
        0 <= i < mappings.len() && fsutil::in_dir(rel, (#[trigger] mappings[i]).name)
}

/// Whether a home-relative path is covered by a mapping.
pub fn covered(rel: &str, mappings: &MappingsFile) -> (r: bool)
    ensures
        r == is_covered(rel@, mappings@.mappings),
{
    let ghost all = mappings@.mappings;
    let mut i: usize = 0;
    while i < mappings.mappings.len()
        invariant
            i <= mappings.mappings@.len(),
            all == mappings@.mappings,
            forall|j: int| 0 <= j < i ==> !fsutil::in_dir(rel@, (#[trigger] all[j]).name),
        decreases mappings.mappings@.len() - i,
    {
        let name = mappings.mappings[i].name.as_str();
        assert(all[i as int].name == name@);
        if text::same(name, rel) || text::has_prefix(rel, name.to_owned().concat("/").as_str()) {
            return true;
        }
        i += 1;
    }
    false
}

/// The orphan links that one entry of the cloud tree gives rise to: its place in
/// the home base is a symlink pointing back at it, and no mapping covers it. The
/// document itself and what a mapping stands for are passed over as a whole, and
/// so is what an orphan contains.
pub open spec fn orphans_at(
    e: CloudView,
    dir: Seq<char>,
    cfg: ConfigView,
    mappings: Seq<MappingView>,
) -> Seq<Seq<char>>
    decreases e, 0nat, 0nat,
{
    let raw = relative(dir, e.name);
    let rel = slashed(raw);
    if rel == MappingsFile::FILE_NAME@ || mapping::has_name(mappings, rel) {
        seq![]
    } else if e.home_link matches Some(dest) && path::same_path(
        dest,
        path::joined(cfg.sync_dir, raw),
    ) && !is_covered(rel, mappings) {
        seq![rel]
    } else if e.is_dir {
        orphans_in(e.entries, raw, cfg, mappings, e.entries.len())
    } else {
        seq![]
    }
}

/// The orphan links that the first `n` entries of a directory give rise to.
pub open spec fn orphans_in(
    es: Seq<CloudView>,
    dir: Seq<char>,
    cfg: ConfigView,
    mappings: Seq<MappingView>,
    n: nat,
) -> Seq<Seq<char>>
    decreases es, 1nat, n,
{
    if n == 0 || n > es.len() {
        seq![]
    } else {
        orphans_in(es, dir, cfg, mappings, (n - 1) as nat) + orphans_at(
            es[n - 1],
            dir,
            cfg,
            mappings,
        )
    }
}

fn scan_entry(
    e: &CloudEntry,
    dir: &str,
    cfg: &Config,
    mappings: &MappingsFile,
    out: &mut Vec<String>,
)
    ensures
        final(out).deep_view() == old(out).deep_view() + orphans_at(
            cloud_view(*e),
            dir@,
            cfg@,
            mappings@.mappings,
        ),
    decreases *e, 0nat,
{
    let ghost before = out.deep_view();
    let raw = entry_path(dir, e.name.as_str());
    let rel = text::replace_chars(raw.as_str(), '\\', '/');
    proof {
        mapping::lemma_position(mappings@.mappings, rel@);
        assert(before + Seq::<Seq<char>>::empty() =~= before);
    }
    if text::same(rel.as_str(), MappingsFile::FILE_NAME) || mappings.find(
        rel.as_str(),
    ).is_some() {
        return ;
    }
    let back = match &e.home_link {
        Some(dest) => path::same(
            dest.as_str(),
            path::join_path(cfg.sync_dir.as_str(), raw.as_str()).as_str(),
        ),
        None => false,
    };
    if back && !covered(rel.as_str(), mappings) {
        out.push(rel);
        assert(out.deep_view() =~= before + seq![rel@]);
        return ;
    }
    if e.is_dir {
        assert(cloud_view(*e).entries =~= cloud_views(e.entries@));
        scan_orphans(&e.entries, raw.as_str(), cfg, mappings, out);
    }
}

/// Collect the orphan links in a directory of the cloud tree.
pub fn scan_orphans(
    es: &Vec<CloudEntry>,
    dir: &str,
    cfg: &Config,
    mappings: &MappingsFile,
    out: &mut Vec<String>,
)
    ensures
        final(out).deep_view() == old(out).deep_view() + orphans_in(
            cloud_views(es@),
            dir@,
            cfg@,
            mappings@.mappings,
            es@.len(),
        ),
    decreases *es, 1nat,
{
    let ghost start = out.deep_view();
    let ghost all = cloud_views(es@);
    let mut i: usize = 0;
    assert(start =~= start + orphans_in(all, dir@, cfg@, mappings@.mappings, 0));
    while i < es.len()
        invariant
            i <= es@.len(),
            all == cloud_views(es@),
            out.deep_view() == start + orphans_in(
                all,
                dir@,
                cfg@,
                mappings@.mappings,
                i as nat,
            ),
        decreases es@.len() - i,
    {
        let ghost before = out.deep_view();
        proof {
            assert(decreases_to!(*es => es@));
            assert(decreases_to!(es@ => es@[i as int]));
        }
        scan_entry(&es[i], dir, cfg, mappings, out);
        assert(out.deep_view() =~= start + orphans_in(
            all,
            dir@,
            cfg@,
            mappings@.mappings,
            (i + 1) as nat,
        ));
        i += 1;
    }
}

/// Whether a lowercased file name looks like a cloud sync-conflict copy.
pub open spec fn conflict_name(lower: Seq<char>) -> bool {
    ||| text::has_text(lower, "conflicted copy"@)
    ||| text::has_text(lower, "sync-conflict"@)
    ||| text::has_text(lower, "(case conflict)"@)
    ||| text::has_text(lower, "conflicted-copy"@)
}

/// The conflict copies that one entry gives rise to: itself, then those in it.
pub open spec fn conflicts_at(e: CloudView, dir: Seq<char>) -> Seq<Seq<char>>
    decreases e, 0nat, 0nat,
{
    let rel = relative(dir, e.name);
    let own = if conflict_name(text::ascii_lower(e.name)) {
        seq![rel]
    } else {
        seq![]
    };
    if e.is_dir {
        own + conflicts_in(e.entries, rel, e.entries.len())
    } else {
        own
    }
}

/// The conflict copies among the first `n` entries of a directory.
pub open spec fn conflicts_in(es: Seq<CloudView>, dir: Seq<char>, n: nat) -> Seq<Seq<char>>
    decreases es, 1nat, n,
{
    if n == 0 || n > es.len() {
        seq![]
    } else {
        conflicts_in(es, dir, (n - 1) as nat) + conflicts_at(es[n - 1], dir)
    }
}

fn is_conflict_name(lower: &str) -> (r: bool)
    ensures
        r == conflict_name(lower@),
{
    text::contains(lower, "conflicted copy") || text::contains(lower, "sync-conflict")
        || text::contains(lower, "(case conflict)") || text::contains(lower, "conflicted-copy")
}

fn scan_conflict_entry(e: &CloudEntry, dir: &str, out: &mut Vec<String>)
    ensures
        final(out).deep_view() == old(out).deep_view() + conflicts_at(cloud_view(*e), dir@),
    decreases *e, 0nat,
{
    let ghost before = out.deep_view();
    let rel = entry_path(dir, e.name.as_str());
    let ghost mut own: Seq<Seq<char>> = seq![];
    if is_conflict_name(text::lower(e.name.as_str()).as_str()) {
        out.push(rel.clone());
        proof {
            own = seq![rel@];
        }
    }
    assert(out.deep_view() =~= before + own);
    if e.is_dir {
        assert(cloud_view(*e).entries =~= cloud_views(e.entries@));
        scan_conflicted(&e.entries, rel.as_str(), out);
        assert(out.deep_view() =~= before + (own + conflicts_in(
            cloud_views(e.entries@),
            rel@,
            e.entries@.len(),
        )));
    }
}

/// Collect the files whose names look like cloud sync-conflict copies.
pub fn scan_conflicted(es: &Vec<CloudEntry>, dir: &str, out: &mut Vec<String>)
    ensures
        final(out).deep_view() == old(out).deep_view() + conflicts_in(
            cloud_views(es@),
            dir@,
            es@.len(),
        ),
    decreases *es, 1nat,
{
    let ghost start = out.deep_view();
    let ghost all = cloud_views(es@);
    let mut i: usize = 0;
    assert(start =~= start + conflicts_in(all, dir@, 0));
    while i < es.len()
        invariant
            i <= es@.len(),
            all == cloud_views(es@),
            out.deep_view() == start + conflicts_in(all, dir@, i as nat),
        decreases es@.len() - i,
    {
        proof {
            assert(decreases_to!(*es => es@));
            assert(decreases_to!(es@ => es@[i as int]));
        }
        scan_conflict_entry(&es[i], dir, out);
        assert(out.deep_view() =~= start + conflicts_in(all, dir@, (i + 1) as nat));
        i += 1;
    }
}

/// Whether a file name at the sync root is that of a conflicted copy of the
/// document: any `dotsync*.toml` that is not the real one.
pub open spec fn forked_document(name: Seq<char>) -> bool {
    let lower = text::ascii_lower(name);
    text::starts_with(lower, "dotsync"@) && text::ends_with(lower, ".toml"@) && lower
        != MappingsFile::FILE_NAME@
}

/// The conflicted copies of the document at the sync root.
pub open spec fn forked_documents(es: Seq<CloudView>) -> Seq<Seq<char>>
    decreases es.len(),
{
    if es.len() == 0 {
        seq![]
    } else if forked_document(es.last().name) {
        forked_documents(es.drop_last()).push(es.last().name)
    } else {
        forked_documents(es.drop_last())
    }
}

fn find_forks(es: &Vec<CloudEntry>) -> (r: Vec<String>)
    ensures
        r.deep_view() == forked_documents(cloud_views(es@)),
{
    let ghost all = cloud_views(es@);
    let mut r: Vec<String> = Vec::new();
    let mut i: usize = 0;
    assert(r.deep_view() =~= forked_documents(all.take(0)));
    while i < es.len()
        invariant
            i <= es@.len(),
            all == cloud_views(es@),
            r.deep_view() == forked_documents(all.take(i as int)),
        decreases es@.len() - i,
    {
        let ghost before = r.deep_view();
        let name = es[i].name.as_str();
        let lower = text::lower(name);
        assert(all.take(i + 1).drop_last() =~= all.take(i as int));
        assert(all.take(i + 1).last().name == name@);
        if text::has_prefix(lower.as_str(), "dotsync") && text::has_suffix(
            lower.as_str(),
            ".toml",
        ) && !text::same(lower.as_str(), MappingsFile::FILE_NAME) {
            r.push(name.to_owned());
            assert(r.deep_view() =~= before.push(name@));
        }
        i += 1;
    }
    assert(all.take(i as int) =~= all);
    r
}

/// One advisory with that message for each name that is not among `but`.
pub open spec fn advisories_for(
    names: Seq<Seq<char>>,
    but: Seq<Seq<char>>,
    message: Seq<char>,
) -> Seq<IssueView>
    decreases names.len(),
{
    if names.len() == 0 {
        seq![]
    } else if but.contains(names.last()) {
        advisories_for(names.drop_last(), but, message)
    } else {
        advisories_for(names.drop_last(), but, message).push(
            IssueView { name: names.last(), level: Level::Warn, message, fixable: false },
        )
    }
}

fn advise(issues: &mut Vec<Issue>, names: &Vec<String>, but: &Vec<String>, message: &str)
    ensures
        final(issues).deep_view() == old(issues).deep_view() + advisories_for(
            names.deep_view(),
            but.deep_view(),
            message@,
        ),
{
    let ghost start = issues.deep_view();
    let ghost all = names.deep_view();
    let mut i: usize = 0;
    assert(start =~= start + advisories_for(all.take(0), but.deep_view(), message@));
    while i < names.len()
        invariant
            i <= names@.len(),
            all == names.deep_view(),
            issues.deep_view() == start + advisories_for(
                all.take(i as int),
                but.deep_view(),
                message@,
            ),
        decreases names@.len() - i,
    {
        let ghost before = issues.deep_view();
        assert(all.take(i + 1).drop_last() =~= all.take(i as int));
        assert(all.take(i + 1).last() == names@[i as int]@);
        if !text::list_has(but, names[i].as_str()) {
            let issue = warning(names[i].as_str(), message, false);
            issues.push(issue);
            assert(issues.deep_view() =~= before.push(issue@));
        }
        assert(issues.deep_view() =~= start + advisories_for(
            all.take(i + 1),
            but.deep_view(),
            message@,
        ));
        i += 1;
    }
    assert(all.take(i as int) =~= all);
}

// ---------------------------------------------------------------------------
// Groups
// ---------------------------------------------------------------------------

/// How many of a group's members are linked here (or, if not `linked`, are
/// available but not linked).
pub open spec fn members(checks: Seq<CheckupView>, group: Seq<char>, linked: bool) -> nat
    decreases checks.len(),
{
    if checks.len() == 0 {
        0
    } else {
        let last = checks.last().item;
        let counts = last.mapping.group == Some(group) && (if linked {
            last.state is Linked
        } else {
            last.state is Available
        });
        members(checks.drop_last(), group, linked) + if counts {
            1nat
        } else {
            0nat
        }
    }
}

fn count_members(checks: &Vec<Checkup>, group: &str, linked: bool) -> (r: usize)
    ensures
        r == members(checks.deep_view(), group@, linked),
{
    let ghost all = checks.deep_view();
    let mut n: usize = 0;
    let mut i: usize = 0;
    assert(all.take(0) =~= Seq::<CheckupView>::empty());
    while i < checks.len()
        invariant
            n <= i <= checks@.len(),
            all == checks.deep_view(),
            n == members(all.take(i as int), group@, linked),
        decreases checks@.len() - i,
    {
        let item = &checks[i].item;
        assert(all.take(i + 1).drop_last() =~= all.take(i as int));
        assert(all.take(i + 1).last() == checks@[i as int]@);
        let counts = text::is_label(&item.mapping.group, group) && (if linked {
            matches!(item.state, State::Linked)
        } else {
            matches!(item.state, State::Available)
        });
        if counts {
            n += 1;
        }
        i += 1;
    }
    assert(all.take(i as int) =~= all);
    n
}

/// The group labels of the checked mappings.
pub open spec fn checked_labels(checks: Seq<CheckupView>) -> Seq<Option<Seq<char>>> {
    Seq::new(checks.len(), |i: int| checks[i].item.mapping.group)
}

fn checked_groups(checks: &Vec<Checkup>) -> (r: Vec<String>)
    ensures
        r.deep_view() == mapping::labels(checked_labels(checks.deep_view())),
{
    let ghost all = checked_labels(checks.deep_view());
    let mut r: Vec<String> = Vec::new();
    let mut i: usize = 0;
    assert(r.deep_view() =~= mapping::labels(all.take(0)));
    while i < checks.len()
        invariant
            i <= checks@.len(),
            all == checked_labels(checks.deep_view()),
            r.deep_view() == mapping::labels(all.take(i as int)),
        decreases checks@.len() - i,
    {
        assert(all.take(i + 1).drop_last() =~= all.take(i as int));
        assert(all.take(i + 1).last() == checks@[i as int].item.mapping.group.deep_view());
        if let Some(g) = &checks[i].item.mapping.group {
            mapping::add_label(&mut r, g.as_str());
        }
        i += 1;
    }
    assert(all.take(i as int) =~= all);
    r
}

/// What one group gives rise to: some members linked here, others available but
/// not linked, so that it gained members on another machine.
pub open spec fn group_issue(checks: Seq<CheckupView>, group: Seq<char>) -> Option<IssueView> {
    let available = members(checks, group, false);
    if members(checks, group, true) > 0 && available > 0 {
        Some(
            IssueView {
                name: group,
                level: Level::Warn,
                message: "group is partially linked here: "@ + number::decimal(available)
                    + " member(s) available but not linked (run `dotsync install "@ + group
                    + "` to link them)"@,
                fixable: false,
            },
        )
    } else {
        None
    }
}

/// What the groups give rise to, in order.
pub open spec fn group_issues(checks: Seq<CheckupView>, groups: Seq<Seq<char>>) -> Seq<IssueView>
    decreases groups.len(),
{
    if groups.len() == 0 {
        seq![]
    } else {
        group_issues(checks, groups.drop_last()) + listed(group_issue(checks, groups.last()))
    }
}

fn check_group(checks: &Vec<Checkup>, group: &str) -> (r: Option<Issue>)
    ensures
        r.deep_view() == group_issue(checks.deep_view(), group@),
{
    let linked = count_members(checks, group, true);
    let available = count_members(checks, group, false);
    if linked > 0 && available > 0 {
        Some(
            warning(
                group,
                "group is partially linked here: ".to_owned().concat(
                    number::decimal_text(available as u128).as_str(),
                ).concat(" member(s) available but not linked (run `dotsync install ").concat(
                    group,
                ).concat("` to link them)").as_str(),
                false,
            ),
        )
    } else {
        None
    }
}

fn check_groups(checks: &Vec<Checkup>, issues: &mut Vec<Issue>)
    ensures
        final(issues).deep_view() == old(issues).deep_view() + group_issues(
            checks.deep_view(),
            mapping::labels(checked_labels(checks.deep_view())),
        ),
{
    let groups = checked_groups(checks);
    let ghost all = groups.deep_view();
    let ghost start = issues.deep_view();
    let ghost seen = checks.deep_view();
    let mut i: usize = 0;
    assert(start =~= start + group_issues(seen, all.take(0)));
    while i < groups.len()
        invariant
            i <= groups@.len(),
            all == groups.deep_view(),
            seen == checks.deep_view(),
            issues.deep_view() == start + group_issues(seen, all.take(i as int)),
        decreases groups@.len() - i,
    {
        assert(all.take(i + 1).drop_last() =~= all.take(i as int));
        assert(all.take(i + 1).last() == groups@[i as int]@);
        let issue = check_group(checks, groups[i].as_str());
        note(issues, issue);
        assert(issues.deep_view() =~= start + group_issues(seen, all.take(i + 1)));
        i += 1;
    }
    assert(all.take(i as int) =~= all);
}

// ---------------------------------------------------------------------------
// The whole check
// ---------------------------------------------------------------------------

/// The message for a conflicted copy of the document.
pub const FORKED: &'static str =
    "a conflicted copy of dotsync.toml — two machines edited the mapping list. Union its [[mapping]] entries into dotsync.toml (by name) and delete this copy";

/// The message for another conflict copy.
pub const CONFLICTED: &'static str =
    "looks like a cloud sync-conflict copy — reconcile and delete it";

/// The message for an orphan link.
pub const ORPHANED: &'static str =
    "symlinked into the cloud folder but no mapping covers it (drift from another machine) — `dotsync adopt` it to re-track, or remove the symlink";

/// What was found on disk about the sync folder.
#[derive(Debug)]
pub struct Surroundings {
    /// Those of the sync folder and its ancestors that hold a `.git`.
    pub repos: Vec<String>,
    /// The permissions of the sync folder.
    pub mode: Option<u32>,
    /// What is in the sync folder.
    pub entries: Vec<CloudEntry>,
}

/// The advisories about drift from other machines: groups that are partially
/// linked here, then orphan links.
pub open spec fn drift_issues(
    cfg: ConfigView,
    mappings: Seq<MappingView>,
    checks: Seq<CheckupView>,
    entries: Seq<CloudView>,
) -> Seq<IssueView> {
    group_issues(checks, mapping::labels(checked_labels(checks))) + advisories_for(
        orphans_in(entries, seq![], cfg, mappings, entries.len()),
        seq![],
        ORPHANED@,
    )
}

/// Everything worth the user's attention, in the order in which it is reported.
pub open spec fn all_issues(
    cfg: ConfigView,
    mappings: Seq<MappingView>,
    checks: Seq<CheckupView>,
    fix: bool,
    repos: Seq<Seq<char>>,
    mode: Option<u32>,
    entries: Seq<CloudView>,
) -> Seq<IssueView> {
    let forks = forked_documents(entries);
    all_item_issues(checks, fix) + listed(sync_git_issue(cfg, repos)) + listed(
        sync_mode_issue(cfg, mode, checks),
    ) + advisories_for(forks, seq![], FORKED@) + advisories_for(
        conflicts_in(entries, seq![], entries.len()),
        forks,
        CONFLICTED@,
    ) + drift_issues(cfg, mappings, checks, entries)
}

/// The report of a health check; what was repaired is part of it where repairing
/// was asked for.
pub open spec fn report_of(
    cfg: ConfigView,
    mappings: Seq<MappingView>,
    checks: Seq<CheckupView>,
    fix: bool,
    fixed: Seq<OutcomeView>,
    repos: Seq<Seq<char>>,
    mode: Option<u32>,
    entries: Seq<CloudView>,
) -> ReportView {
    ReportView {
        issues: all_issues(cfg, mappings, checks, fix, repos, mode, entries),
        fixed: if fix {
            fixed
        } else {
            seq![]
        },
    }
}

/// The report on everything worth the user's attention. With `fix`, the repairs
/// were made already: `fixed` is how they ended. Without it there are none. The
/// items are as they were planned, before them.
pub fn run(
    cfg: &Config,
    mappings: &MappingsFile,
    checks: &Vec<Checkup>,
    fix: bool,
    fixed: Vec<Outcome>,
    around: &Surroundings,
) -> (r: Report)
    ensures
        r@ == report_of(
            cfg@,
            mappings@.mappings,
            checks.deep_view(),
            fix,
            fixed.deep_view(),
            around.repos.deep_view(),
            around.mode,
            cloud_views(around.entries@),
        ),
{
    let ghost entries = cloud_views(around.entries@);
    let none: Vec<String> = Vec::new();
    assert(none.deep_view() =~= Seq::<Seq<char>>::empty());
    let mut issues = check_items(checks, fix);
    let git = check_sync_git(cfg, &around.repos);
    note(&mut issues, git);
    let mode = check_sync_mode(cfg, around.mode, checks);
    note(&mut issues, mode);
    let forks = find_forks(&around.entries);
    advise(&mut issues, &forks, &none, FORKED);
    let mut conflicts: Vec<String> = Vec::new();
    scan_conflicted(&around.entries, "", &mut conflicts);
    proof {
        reveal_strlit("");
        assert(""@ =~= Seq::<char>::empty());
        assert(conflicts.deep_view() =~= conflicts_in(entries, seq![], entries.len()));
    }
    advise(&mut issues, &conflicts, &forks, CONFLICTED);
    let ghost before = issues.deep_view();
    check_groups(checks, &mut issues);
    let mut orphans: Vec<String> = Vec::new();
    scan_orphans(&around.entries, "", cfg, mappings, &mut orphans);
    assert(orphans.deep_view() =~= orphans_in(
        entries,
        seq![],
        cfg@,
        mappings@.mappings,
        entries.len(),
    ));
    advise(&mut issues, &orphans, &none, ORPHANED);
    assert(issues.deep_view() =~= before + drift_issues(
        cfg@,
        mappings@.mappings,
        checks.deep_view(),
        entries,
    ));
    if fix {
        Report { issues, fixed }
    } else {
        let fixed: Vec<Outcome> = Vec::new();
        assert(fixed.deep_view() =~= Seq::<OutcomeView>::empty());
        Report { issues, fixed }
    }
}

// ---------------------------------------------------------------------------
// Laws
// ---------------------------------------------------------------------------

/// Whether all issues are advisories that nothing repairs by itself.
pub open spec fn only_advice(issues: Seq<IssueView>) -> bool {
    forall|i: int|
        0 <= i < issues.len() ==> (#[trigger] issues[i]).level == Level::Warn && !issues[i].fixable
}

proof fn lemma_advisories(names: Seq<Seq<char>>, but: Seq<Seq<char>>, message: Seq<char>)
    ensures
        only_advice(advisories_for(names, but, message)),
    decreases names.len(),
{
    if names.len() > 0 {
        lemma_advisories(names.drop_last(), but, message);
    }
}

proof fn lemma_group_advice(checks: Seq<CheckupView>, groups: Seq<Seq<char>>)
    ensures
        only_advice(group_issues(checks, groups)),
    decreases groups.len(),
{
    if groups.len() > 0 {
        lemma_group_advice(checks, groups.drop_last());
    }
}

/// Drift is an advisory: it never makes a machine unhealthy, and nothing repairs
/// it by itself.
pub proof fn law_drift_is_advisory(
    cfg: ConfigView,
    mappings: Seq<MappingView>,
    checks: Seq<CheckupView>,
    entries: Seq<CloudView>,
)
    ensures
        only_advice(drift_issues(cfg, mappings, checks, entries)),
{
    lemma_group_advice(checks, mapping::labels(checked_labels(checks)));
    lemma_advisories(
        orphans_in(entries, seq![], cfg, mappings, entries.len()),
        seq![],
        ORPHANED@,
    );
}

/// The issues that can be repaired automatically, in order.
pub open spec fn fixables(issues: Seq<IssueView>) -> Seq<IssueView>
    decreases issues.len(),
{
    if issues.len() == 0 {
        issues
    } else if issues.last().fixable {
        fixables(issues.drop_last()).push(issues.last())
    } else {
        fixables(issues.drop_last())
    }
}

/// What can be repaired of the mappings, in order: for each a replaced link, then
/// permissions that are too open.
pub open spec fn repairable(checks: Seq<CheckupView>) -> Seq<IssueView>
    decreases checks.len(),
{
    if checks.len() == 0 {
        seq![]
    } else {
        let check = checks.last();
        repairable(checks.drop_last()) + (if check.item.state is Healable {
            listed(state_issue(check.item, false))
        } else {
            seq![]
        }) + listed(mode_issue(check.item, false, check.found))
    }
}

proof fn lemma_fixables_concat(a: Seq<IssueView>, b: Seq<IssueView>)
    ensures
        fixables(a + b) == fixables(a) + fixables(b),
    decreases b.len(),
{
    if b.len() == 0 {
        assert(a + b =~= a);
        assert(fixables(a) + fixables(b) =~= fixables(a));
    } else {
        assert((a + b).drop_last() =~= a + b.drop_last());
        lemma_fixables_concat(a, b.drop_last());
        assert(fixables(a + b) =~= fixables(a) + fixables(b));
    }
}

proof fn lemma_fixables_none(issues: Seq<IssueView>)
    requires
        forall|i: int| 0 <= i < issues.len() ==> !(#[trigger] issues[i]).fixable,
    ensures
        fixables(issues) == Seq::<IssueView>::empty(),
    decreases issues.len(),
{
    if issues.len() > 0 {
        assert(!issues[issues.len() - 1].fixable);
        assert forall|i: int| 0 <= i < issues.drop_last().len() implies !(
        #[trigger] issues.drop_last()[i]).fixable by {
            assert(!issues[i].fixable);
        }
        lemma_fixables_none(issues.drop_last());
    } else {
        assert(issues =~= Seq::<IssueView>::empty());
    }
}

proof fn lemma_fixables_listed(issue: Option<IssueView>)
    ensures
        fixables(listed(issue)) == (if issue matches Some(i) && i.fixable {
            listed(issue)
        } else {
            Seq::empty()
        }),
{
    match issue {
        Some(i) => {
            assert(seq![i].drop_last() =~= Seq::<IssueView>::empty());
            assert(fixables(seq![i].drop_last()) =~= Seq::<IssueView>::empty());
            assert(fixables(seq![i]) =~= (if i.fixable {
                seq![i]
            } else {
                Seq::empty()
            }));
        },
        None => {
            assert(fixables(listed(issue)) =~= Seq::<IssueView>::empty());
        },
    }
}

proof fn lemma_fixable_items(checks: Seq<CheckupView>, fix: bool)
    ensures
        fixables(all_item_issues(checks, fix)) == (if fix {
            Seq::empty()
        } else {
            repairable(checks)
        }),
    decreases checks.len(),
{
    if checks.len() > 0 {
        let check = checks.last();
        let (a, b, c) = (
            listed(state_issue(check.item, fix)),
            listed(mode_issue(check.item, fix, check.found)),
            listed(git_issue(check.item, check.repos)),
        );
        let front = all_item_issues(checks.drop_last(), fix);
        lemma_fixable_items(checks.drop_last(), fix);
        lemma_fixables_concat(front, a + b + c);
        lemma_fixables_concat(a + b, c);
        lemma_fixables_concat(a, b);
        lemma_fixables_listed(state_issue(check.item, fix));
        lemma_fixables_listed(mode_issue(check.item, fix, check.found));
        lemma_fixables_listed(git_issue(check.item, check.repos));
        assert(fixables(all_item_issues(checks, fix)) =~= (if fix {
            Seq::empty()
        } else {
            repairable(checks)
        }));
    } else {
        assert(fixables(all_item_issues(checks, fix)) =~= Seq::<IssueView>::empty());
    }
}

/// Without repairing, what is reported as fixable is exactly what would be
/// repaired: every replaced link and every secret that is too open. While
/// repairing, nothing is.
pub proof fn law_fixable_is_what_is_repaired(
    cfg: ConfigView,
    mappings: Seq<MappingView>,
    checks: Seq<CheckupView>,
    fix: bool,
    repos: Seq<Seq<char>>,
    mode: Option<u32>,
    entries: Seq<CloudView>,
)
    ensures
        fixables(all_issues(cfg, mappings, checks, fix, repos, mode, entries)) == (if fix {
            Seq::empty()
        } else {
            repairable(checks)
        }),
{
    let forks = forked_documents(entries);
    let copies = conflicts_in(entries, seq![], entries.len());
    let items = all_item_issues(checks, fix);
    let git = listed(sync_git_issue(cfg, repos));
    let open = listed(sync_mode_issue(cfg, mode, checks));
    let forked = advisories_for(forks, seq![], FORKED@);
    let conflicted = advisories_for(copies, forks, CONFLICTED@);
    let drift = drift_issues(cfg, mappings, checks, entries);
    lemma_fixable_items(checks, fix);
    lemma_fixables_listed(sync_git_issue(cfg, repos));
    lemma_fixables_listed(sync_mode_issue(cfg, mode, checks));
    lemma_advisories(forks, seq![], FORKED@);
    lemma_advisories(copies, forks, CONFLICTED@);
    law_drift_is_advisory(cfg, mappings, checks, entries);
    lemma_fixables_none(forked);
    lemma_fixables_none(conflicted);
    lemma_fixables_none(drift);
    lemma_fixables_concat(items, git);
    lemma_fixables_concat(items + git, open);
    lemma_fixables_concat(items + git + open, forked);
    lemma_fixables_concat(items + git + open + forked, conflicted);
    lemma_fixables_concat(items + git + open + forked + conflicted, drift);
    assert(fixables(all_issues(cfg, mappings, checks, fix, repos, mode, entries)) =~= fixables(
        items,
    ));
}

/// Every problem state is reported, whether or not repairs are made; so is a
/// replaced link, unless it is being repaired.
pub proof fn law_every_problem_is_reported(item: ItemView, fix: bool)
    ensures
        state_issue(item, fix) is Some <==> item.state.problem() || item.state is Healable && !fix,
        state_issue(item, fix) matches Some(i) ==> i.name == item.mapping.name,
{
}

/// What a mapping covers is never an orphan, nor is the document itself.
pub proof fn law_covered_is_no_orphan(
    es: Seq<CloudView>,
    dir: Seq<char>,
    cfg: ConfigView,
    mappings: Seq<MappingView>,
    n: nat,
)
    ensures
        forall|i: int|
            #![trigger orphans_in(es, dir, cfg, mappings, n)[i]]
            0 <= i < orphans_in(es, dir, cfg, mappings, n).len() ==> !is_covered(
                orphans_in(es, dir, cfg, mappings, n)[i],
                mappings,
            ) && orphans_in(es, dir, cfg, mappings, n)[i] != MappingsFile::FILE_NAME@,
    decreases es, 1nat, n,
{
    if 0 < n <= es.len() {
        let all = orphans_in(es, dir, cfg, mappings, n);
        let front = orphans_in(es, dir, cfg, mappings, (n - 1) as nat);
        let back = orphans_at(es[n - 1], dir, cfg, mappings);
        law_covered_is_no_orphan(es, dir, cfg, mappings, (n - 1) as nat);
        lemma_entry_is_no_orphan(es[n - 1], dir, cfg, mappings);
        assert forall|i: int| #![trigger all[i]] 0 <= i < all.len() implies !is_covered(
            all[i],
            mappings,
        ) && all[i] != MappingsFile::FILE_NAME@ by {
            if i < front.len() {
                assert(all[i] == front[i]);
            } else {
                assert(all[i] == back[i - front.len()]);
            }
        }
    }
}

proof fn lemma_entry_is_no_orphan(
    e: CloudView,
    dir: Seq<char>,
    cfg: ConfigView,
    mappings: Seq<MappingView>,
)
    ensures
        forall|i: int|
            #![trigger orphans_at(e, dir, cfg, mappings)[i]]
            0 <= i < orphans_at(e, dir, cfg, mappings).len() ==> !is_covered(
                orphans_at(e, dir, cfg, mappings)[i],
                mappings,
            ) && orphans_at(e, dir, cfg, mappings)[i] != MappingsFile::FILE_NAME@,
    decreases e, 0nat, 0nat,
{
    let raw = relative(dir, e.name);
    law_covered_is_no_orphan(e.entries, raw, cfg, mappings, e.entries.len());
    let inner = orphans_in(e.entries, raw, cfg, mappings, e.entries.len());
    let all = orphans_at(e, dir, cfg, mappings);
    assert forall|i: int| #![trigger all[i]] 0 <= i < all.len() implies !is_covered(
        all[i],
        mappings,
    ) && all[i] != MappingsFile::FILE_NAME@ by {
        if all != seq![slashed(raw)] {
            assert(all == inner);
            assert(all[i] == inner[i]);
        }
    }
}

} // verus!
