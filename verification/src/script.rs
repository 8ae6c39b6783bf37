//! Decisions and what carries them out: what acting on one mapping comes to,
//! either a plain report or a script of operations on the filesystem with the
//! report for each way that it can end.
use vstd::prelude::*;
use vstd::string::*;

use crate::journal::{UndoAction, UndoView};

verus! {

/// The result of acting on one mapping.
#[derive(Debug)]
pub struct Outcome {
    pub name: String,
    pub action: String,
    pub ok: bool,
    pub detail: String,
    /// How to reverse the action, when it is a reversible destructive one.
    /// Consumed by the undo journal, never rendered.
    pub undo: Option<UndoAction>,
}

/// What an outcome holds.
#[verifier::ext_equal]
pub struct OutcomeView {
    pub name: Seq<char>,
    pub action: Seq<char>,
    pub ok: bool,
    pub detail: Seq<char>,
    pub undo: Option<UndoView>,
}

impl View for Outcome {
    type V = OutcomeView;

    open spec fn view(&self) -> OutcomeView {
        OutcomeView {
            name: self.name@,
            action: self.action@,
            ok: self.ok,
            detail: self.detail@,
            undo: self.undo.deep_view(),
        }
    }
}

impl DeepView for Outcome {
    type V = OutcomeView;

    open spec fn deep_view(&self) -> OutcomeView {
        self@
    }
}

/// An outcome that needs no undoing.
pub open spec fn outcome(
    name: Seq<char>,
    action: Seq<char>,
    ok: bool,
    detail: Seq<char>,
) -> OutcomeView {
    OutcomeView { name, action, ok, detail, undo: None }
}

impl Outcome {
    /// An outcome that needs no undoing.
    pub fn new(name: &str, action: &str, ok: bool, detail: &str) -> (r: Self)
        ensures
            r@ == outcome(name@, action@, ok, detail@),
    {
        Outcome {
            name: name.to_owned(),
            action: action.to_owned(),
            ok,
            detail: detail.to_owned(),
            undo: None,
        }
    }

    /// The outcome with the action that reverses it.
    pub fn with_undo(self, undo: UndoAction) -> (r: Self)
        ensures
            r@ == (OutcomeView { undo: Some(undo@), ..self@ }),
    {
        Outcome {
            name: self.name,
            action: self.action,
            ok: self.ok,
            detail: self.detail,
            undo: Some(undo),
        }
    }
}

/// One operation on the filesystem. Either it is done in full, or it fails.
#[derive(Debug)]
pub enum Op {
    /// Create a symlink at `link` pointing to `original`, with its parents.
    MakeSymlink { original: String, link: String },
    /// Remove a symlink, not what it points to.
    RemoveSymlink { path: String },
    /// Remove whatever stands at a path.
    RemovePath { path: String },
    /// Move what stands at a path, with the parents of where it goes.
    MovePath { from: String, to: String },
    /// Copy what stands at a path.
    CopyTree { from: String, to: String },
    /// Remove whatever stands at a path, if anything; never fails.
    Discard { path: String },
    /// Go on only if the two hold the same content.
    KeepEqual { target: String, source: String },
    /// Go on only if a symlink stands there.
    KeepSymlink { path: String },
    /// Set the permissions of a secret on a whole tree.
    Tighten { path: String },
}

/// What an operation holds.
#[verifier::ext_equal]
pub enum OpView {
    MakeSymlink { original: Seq<char>, link: Seq<char> },
    RemoveSymlink { path: Seq<char> },
    RemovePath { path: Seq<char> },
    MovePath { from: Seq<char>, to: Seq<char> },
    CopyTree { from: Seq<char>, to: Seq<char> },
    Discard { path: Seq<char> },
    KeepEqual { target: Seq<char>, source: Seq<char> },
    KeepSymlink { path: Seq<char> },
    Tighten { path: Seq<char> },
}

impl View for Op {
    type V = OpView;

    open spec fn view(&self) -> OpView {
        match *self {
            Op::MakeSymlink { original, link } => OpView::MakeSymlink {
                original: original@,
                link: link@,
            },
            Op::RemoveSymlink { path } => OpView::RemoveSymlink { path: path@ },
            Op::RemovePath { path } => OpView::RemovePath { path: path@ },
            Op::MovePath { from, to } => OpView::MovePath { from: from@, to: to@ },
            Op::CopyTree { from, to } => OpView::CopyTree { from: from@, to: to@ },
            Op::Discard { path } => OpView::Discard { path: path@ },
            Op::KeepEqual { target, source } => OpView::KeepEqual {
                target: target@,
                source: source@,
            },
            Op::KeepSymlink { path } => OpView::KeepSymlink { path: path@ },
            Op::Tighten { path } => OpView::Tighten { path: path@ },
        }
    }
}

impl DeepView for Op {
    type V = OpView;

    open spec fn deep_view(&self) -> OpView {
        self@
    }
}

/// Operations to carry out in order, stopping at the first that fails.
#[derive(Debug)]
pub struct Script {
    /// The mapping that the script acts on.
    pub name: String,
    pub steps: Vec<Op>,
    /// What to do when a step fails.
    pub cleanup: Vec<Op>,
    /// The sync copy to set the permissions of a secret on once every step is
    /// done. Failing at that does not fail the script.
    pub tighten: Option<String>,
    /// What is reported once every step is done.
    pub action: String,
    pub detail: String,
    pub undo: Option<UndoAction>,
}

/// What a script holds.
#[verifier::ext_equal]
pub struct ScriptView {
    pub name: Seq<char>,
    pub steps: Seq<OpView>,
    pub cleanup: Seq<OpView>,
    pub tighten: Option<Seq<char>>,
    pub action: Seq<char>,
    pub detail: Seq<char>,
    pub undo: Option<UndoView>,
}

impl View for Script {
    type V = ScriptView;

    open spec fn view(&self) -> ScriptView {
        ScriptView {
            name: self.name@,
            steps: self.steps.deep_view(),
            cleanup: self.cleanup.deep_view(),
            tighten: self.tighten.deep_view(),
            action: self.action@,
            detail: self.detail@,
            undo: self.undo.deep_view(),
        }
    }
}

impl ScriptView {
    /// What is reported once every step is done; `tight` is whether setting the
    /// permissions of a secret went well, where it was asked for.
    pub open spec fn success(self, tight: bool) -> OutcomeView {
        OutcomeView {
            name: self.name,
            action: self.action,
            ok: true,
            detail: if self.tighten is Some && !tight {
                self.detail + " (mode not set)"@
            } else {
                self.detail
            },
            undo: self.undo,
        }
    }

    /// What is reported when a step fails with that error. A step that only
    /// checks that nothing changed reports what it found changed.
    pub open spec fn failure(self, step: OpView, error: Seq<char>) -> OutcomeView {
        match step {
            OpView::KeepEqual { .. } => outcome(
                self.name,
                "conflict"@,
                false,
                "changed since planning — no longer matches the cloud copy; resolve by hand"@,
            ),
            OpView::KeepSymlink { .. } => outcome(
                self.name,
                "skipped"@,
                true,
                "no longer a symlink (changed since planning) — re-run to re-check"@,
            ),
            OpView::CopyTree { .. } => outcome(
                self.name,
                "error"@,
                false,
                "restore copy failed: "@ + error,
            ),
            _ => outcome(self.name, "error"@, false, error),
        }
    }
}

impl Script {
    /// What is reported once every step is done; `tight` is whether setting the
    /// permissions of a secret went well, where it was asked for.
    pub fn finished(self, tight: bool) -> (r: Outcome)
        ensures
            r@ == self@.success(tight),
    {
        let detail = if self.tighten.is_some() && !tight {
            self.detail.concat(" (mode not set)")
        } else {
            self.detail
        };
        Outcome { name: self.name, action: self.action, ok: true, detail, undo: self.undo }
    }

    /// What is reported when the step at that index fails with that error.
    pub fn failed(&self, at: usize, error: &str) -> (r: Outcome)
        requires
            at < self.steps@.len(),
        ensures
            r@ == self@.failure(self@.steps[at as int], error@),
    {
        match &self.steps[at] {
            Op::KeepEqual { .. } => Outcome::new(
                self.name.as_str(),
                "conflict",
                false,
                "changed since planning — no longer matches the cloud copy; resolve by hand",
            ),
            Op::KeepSymlink { .. } => Outcome::new(
                self.name.as_str(),
                "skipped",
                true,
                "no longer a symlink (changed since planning) — re-run to re-check",
            ),
            Op::CopyTree { .. } => Outcome::new(
                self.name.as_str(),
                "error",
                false,
                "restore copy failed: ".to_owned().concat(error).as_str(),
            ),
            _ => Outcome::new(self.name.as_str(), "error", false, error),
        }
    }
}

/// What acting on one mapping comes to.
#[derive(Debug)]
pub enum Decision {
    /// Nothing to do: report that.
    Report(Outcome),
    /// Carry out the script, and report how it ends.
    Perform(Script),
}

/// What a decision holds.
#[verifier::ext_equal]
pub enum DecisionView {
    Report(OutcomeView),
    Perform(ScriptView),
}

impl View for Decision {
    type V = DecisionView;

    open spec fn view(&self) -> DecisionView {
        match *self {
            Decision::Report(o) => DecisionView::Report(o@),
            Decision::Perform(s) => DecisionView::Perform(s@),
        }
    }
}

impl DecisionView {
    /// The name of the mapping that the decision acts on or reports about.
    pub open spec fn concerns(self) -> Seq<char> {
        match self {
            DecisionView::Report(o) => o.name,
            DecisionView::Perform(s) => s.name,
        }
    }

    /// Whether an outcome is one that the decision can come to.
    pub open spec fn comes_to(self, o: OutcomeView) -> bool {
        match self {
            DecisionView::Report(r) => o == r,
            DecisionView::Perform(s) => (exists|tight: bool| o == #[trigger] s.success(tight)) || (
            exists|at: int, error: Seq<char>|
                0 <= at < s.steps.len() && o == #[trigger] s.failure(s.steps[at], error)),
        }
    }
}

/// However a decision is carried out, its outcome is about the mapping that it
/// concerns.
pub proof fn law_outcomes_keep_the_name(d: DecisionView, o: OutcomeView)
    requires
        d.comes_to(o),
    ensures
        o.name == d.concerns(),
{
}

/// The decision to do nothing but report.
pub open spec fn report(
    name: Seq<char>,
    action: Seq<char>,
    ok: bool,
    detail: Seq<char>,
) -> DecisionView {
    DecisionView::Report(outcome(name, action, ok, detail))
}

/// The decision to do nothing but report.
pub fn reported(name: &str, action: &str, ok: bool, detail: &str) -> (r: Decision)
    ensures
        r@ == report(name@, action@, ok, detail@),
{
    Decision::Report(Outcome::new(name, action, ok, detail))
}

/// The script that does those steps, with nothing to clean up, tighten or undo.
pub open spec fn plain_script(
    name: Seq<char>,
    steps: Seq<OpView>,
    action: Seq<char>,
    detail: Seq<char>,
) -> ScriptView {
    ScriptView { name, steps, cleanup: seq![], tighten: None, action, detail, undo: None }
}

/// The script that does those steps, with nothing to clean up, tighten or undo.
pub fn script(name: &str, steps: Vec<Op>, action: &str, detail: &str) -> (r: Script)
    ensures
        r@ == plain_script(name@, steps.deep_view(), action@, detail@),
{
    let r = Script {
        name: name.to_owned(),
        steps,
        cleanup: Vec::new(),
        tighten: None,
        action: action.to_owned(),
        detail: detail.to_owned(),
        undo: None,
    };
    assert(r@.cleanup =~= Seq::<OpView>::empty());
    r
}

/// One operation after another.
pub fn two(first: Op, second: Op) -> (r: Vec<Op>)
    ensures
        r.deep_view() == seq![first@, second@],
{
    let mut r: Vec<Op> = Vec::new();
    r.push(first);
    r.push(second);
    assert(r.deep_view() =~= seq![first@, second@]);
    r
}

/// One operation after another.
pub fn three(first: Op, second: Op, third: Op) -> (r: Vec<Op>)
    ensures
        r.deep_view() == seq![first@, second@, third@],
{
    let mut r: Vec<Op> = Vec::new();
    r.push(first);
    r.push(second);
    r.push(third);
    assert(r.deep_view() =~= seq![first@, second@, third@]);
    r
}

/// One operation.
pub fn one(first: Op) -> (r: Vec<Op>)
    ensures
        r.deep_view() == seq![first@],
{
    let mut r: Vec<Op> = Vec::new();
    r.push(first);
    assert(r.deep_view() =~= seq![first@]);
    r
}

/// A script that was carried out is a success and records what it takes to reverse
/// it; that a mode could not be set is said and changes neither. One that failed
/// records nothing, and counts as a failure unless it was the symlink that had
/// changed meanwhile.
pub proof fn law_only_what_was_done_is_recorded(
    s: ScriptView,
    tight: bool,
    step: OpView,
    error: Seq<char>,
)
    ensures
        s.success(tight).ok,
        s.success(tight).undo == s.undo,
        s.success(tight).action == s.action,
        s.success(tight).name == s.name,
        tight || s.tighten is None ==> s.success(tight).detail == s.detail,
        s.failure(step, error).undo is None,
        s.failure(step, error).name == s.name,
        s.failure(step, error).ok <==> step is KeepSymlink,
        s.failure(step, error).action == "conflict"@ <==> step is KeepEqual,
{
    reveal_strlit("conflict");
    reveal_strlit("skipped");
    reveal_strlit("error");
    assert("conflict"@.len() == 8);
    assert("skipped"@.len() == 7);
    assert("error"@.len() == 5);
}

/// What is only reported records nothing and says what it is told to say.
pub proof fn law_a_report_says_what_it_is_told(
    name: Seq<char>,
    action: Seq<char>,
    ok: bool,
    detail: Seq<char>,
)
    ensures
        report(name, action, ok, detail) matches DecisionView::Report(o) && o.name == name && o.action
            == action && o.ok == ok && o.detail == detail && o.undo is None,
{
}

} // verus!
