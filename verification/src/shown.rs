//! What is shown: that every item, outcome and issue is told, in its place, and that
//! the counts are of what they say.
use vstd::prelude::*;
use vstd::string::*;

use crate::config::ConfigView;
use crate::discovery;
use crate::discovery::CandidateView;
use crate::doctor;
use crate::doctor::{IssueView, Level, ReportView};
use crate::fsutil::StepView;
use crate::journal::RunView;
use crate::json;
use crate::json::{FieldView, ValueView};
use crate::manage;
use crate::mapping;
use crate::mapping::{MappingView, OnConflict};
use crate::number;
use crate::overview;
use crate::overview::Bucket;
use crate::plan::{ItemView, StateView};
use crate::report;
use crate::script::OutcomeView;
use crate::select;
use crate::shell;
use crate::shell::Shell;
use crate::text;
use crate::ui;
use crate::ui::{Palette, To};

verus! {

// ---------------------------------------------------------------------------
// The overview
// ---------------------------------------------------------------------------

/// Every state is counted under one heading and one only, except that what is
/// missing is under none.
pub proof fn law_each_state_is_counted_once(state: StateView, a: Bucket, b: Bucket)
    ensures
        a.takes(state) && b.takes(state) ==> a == b,
        state is Missing ==> !a.takes(state),
        !(state is Missing) ==> (Bucket::Linked.takes(state) || Bucket::Available.takes(state)
            || Bucket::Healable.takes(state) || Bucket::Conflict.takes(state)
            || Bucket::Dangling.takes(state) || Bucket::LocalOnly.takes(state)
            || Bucket::Skipped.takes(state)),
        Bucket::Linked.takes(state) <==> state is Linked,
        Bucket::Conflict.takes(state) || Bucket::Dangling.takes(state) <==> state.problem(),
{
}

/// The counts add up to how many items there are, but for those that are missing.
pub proof fn law_the_counts_add_up(items: Seq<ItemView>, keep: spec_fn(ItemView) -> bool)
    requires
        forall|i: ItemView| #[trigger] keep(i) == !(i.state is Missing),
    ensures
        overview::tally(items, Bucket::Linked) + overview::tally(items, Bucket::Available)
            + overview::tally(items, Bucket::Healable) + overview::tally(items, Bucket::Conflict)
            + overview::tally(items, Bucket::Dangling) + overview::tally(items, Bucket::LocalOnly)
            + overview::tally(items, Bucket::Skipped) == items.filter(keep).len(),
    decreases items.len(),
{
    reveal(Seq::filter);
    if items.len() > 0 {
        law_the_counts_add_up(items.drop_last(), keep);
    }
}

/// The number under a heading is how many items are in its states.
pub proof fn law_a_count_is_of_its_states(
    items: Seq<ItemView>,
    bucket: Bucket,
    keep: spec_fn(ItemView) -> bool,
)
    requires
        forall|i: ItemView| #[trigger] keep(i) == bucket.takes(i.state),
    ensures
        overview::tally(items, bucket) == items.filter(keep).len(),
    decreases items.len(),
{
    reveal(Seq::filter);
    if items.len() > 0 {
        law_a_count_is_of_its_states(items.drop_last(), bucket, keep);
    }
}

/// The numbers of a group are its members and those of them that are linked.
pub proof fn law_group_numbers_are_of_its_members(
    items: Seq<ItemView>,
    name: Seq<char>,
    member: spec_fn(ItemView) -> bool,
    linked: spec_fn(ItemView) -> bool,
)
    requires
        forall|i: ItemView| #[trigger] member(i) == (i.mapping.group == Some(name)),
        forall|i: ItemView| #[trigger]
            linked(i) == (i.mapping.group == Some(name) && i.state is Linked),
    ensures
        overview::group_counts(items, name) == (items.filter(member).len(), items.filter(
            linked,
        ).len()),
    decreases items.len(),
{
    reveal(Seq::filter);
    if items.len() > 0 {
        law_group_numbers_are_of_its_members(items.drop_last(), name, member, linked);
    }
}

/// The box of an item is ticked exactly when it is linked, marked as a problem
/// exactly when its state is one, and as healing exactly when it heals. What its
/// state is called is the state's code, but that both kinds of conflict have names
/// of their own.
pub proof fn law_marks_and_labels_follow_the_state(item: ItemView, home: Seq<char>)
    ensures
        overview::mark_of(item.state) == "[x]"@ <==> item.state is Linked,
        overview::mark_of(item.state) == "[!]"@ <==> item.state.problem(),
        overview::mark_of(item.state) == "[~]"@ <==> item.state is Healable,
        overview::mark_of(item.state) == "   "@ <==> item.state is Skipped || item.state is Missing,
        !(item.state is Diverged || item.state is ForeignSymlink) ==> overview::label_of(
            item,
            home,
        ).0 == item.state.token(),
        item.state is Diverged ==> overview::label_of(item, home).0 == "conflict"@,
        item.state is ForeignSymlink ==> overview::label_of(item, home).0 == "foreign"@,
        item.state is Linked ==> overview::label_of(item, home).1 == ""@,
{
    reveal_strlit("[x]");
    reveal_strlit("[!]");
    reveal_strlit("[~]");
    reveal_strlit("[ ]");
    reveal_strlit("   ");
    assert("[x]"@[1] == 'x' && "[!]"@[1] == '!' && "[~]"@[1] == '~' && "[ ]"@[1] == ' ' && "   "@[1]
        == ' ');
    assert("   "@[0] == ' ' && "[ ]"@[0] == '[' && "[x]"@[0] == '[');
}

/// The column of names is as wide as the longest name, and at least four.
pub proof fn law_the_column_fits_every_name(items: Seq<ItemView>)
    ensures
        overview::name_width(items) >= 4,
        forall|i: int|
            0 <= i < items.len() ==> (#[trigger] items[i]).mapping.name.len() <= overview::name_width(
                items,
            ),
        overview::name_width(items) == 4 || exists|i: int|
            0 <= i < items.len() && (#[trigger] items[i]).mapping.name.len() == overview::name_width(
                items,
            ),
    decreases items.len(),
{
    if items.len() > 0 {
        let front = items.drop_last();
        law_the_column_fits_every_name(front);
        assert(items[items.len() - 1] == items.last());
        assert forall|i: int| 0 <= i < items.len() implies (#[trigger] items[i]).mapping.name.len()
            <= overview::name_width(items) by {
            if i < front.len() {
                assert(front[i] == items[i]);
            }
        }
        if overview::name_width(front) != 4 && overview::name_width(items) == overview::name_width(
            front,
        ) {
            let i = choose|i: int|
                0 <= i < front.len() && (#[trigger] front[i]).mapping.name.len()
                    == overview::name_width(front);
            assert(items[i] == front[i]);
        }
    }
}

/// Every item has its row in the overview: under its group, or by itself when it
/// has none.
pub proof fn law_every_item_has_a_row(p: Palette, items: Seq<ItemView>, cfg: ConfigView, i: int)
    requires
        0 <= i < items.len(),
    ensures
        overview::dashboard(p, items, cfg).contains(
            overview::row(
                p,
                items[i],
                cfg.home,
                overview::name_width(items),
                if items[i].mapping.group is Some {
                    4
                } else {
                    0
                },
            ),
        ),
{
    let width = overview::name_width(items);
    let groups = overview::groups_seen(items);
    let top = overview::heading(p, items, cfg) + seq![""@];
    let blocks = overview::group_blocks(p, items, groups, cfg.home, width);
    let singles = overview::rows_of(p, items, None, cfg.home, width, 0);
    let line = overview::row(
        p,
        items[i],
        cfg.home,
        width,
        if items[i].mapping.group is Some {
            4
        } else {
            0
        },
    );
    match items[i].mapping.group {
        Some(g) => {
            lemma_rows_of(p, items, Some(g), cfg.home, width, 4, i);
            lemma_group_is_seen(items, i);
            lemma_line_in_sum(
                seq![
                    "  "@ + ui::painted(p, To::Out, "1"@, g) + "  "@ + ui::painted(
                        p,
                        To::Out,
                        "2"@,
                        "group · "@ + number::decimal(overview::group_counts(items, g).1) + "/"@
                            + number::decimal(overview::group_counts(items, g).0) + " linked"@,
                    ),
                ],
                overview::rows_of(p, items, Some(g), cfg.home, width, 4),
                line,
            );
            assert(overview::group_block(p, items, g, cfg.home, width).contains(line));
            lemma_blocks(p, items, groups, cfg.home, width, g, line);
        },
        None => {
            lemma_rows_of(p, items, None, cfg.home, width, 0, i);
        },
    }
    lemma_line_in_sum(top, blocks, line);
    lemma_line_in_sum(top + blocks, singles, line);
    lemma_line_in_sum(top + blocks + singles, seq![""@], line);
}

proof fn lemma_line_in_sum(a: Seq<Seq<char>>, b: Seq<Seq<char>>, t: Seq<char>)
    ensures
        (a + b).contains(t) <==> a.contains(t) || b.contains(t),
{
    if a.contains(t) {
        let k = choose|k: int| 0 <= k < a.len() && a[k] == t;
        assert((a + b)[k] == t);
    }
    if b.contains(t) {
        let k = choose|k: int| 0 <= k < b.len() && b[k] == t;
        assert((a + b)[a.len() + k] == t);
    }
    if (a + b).contains(t) {
        let k = choose|k: int| 0 <= k < (a + b).len() && (a + b)[k] == t;
        if k < a.len() {
            assert(a[k] == t);
        } else {
            assert(b[k - a.len()] == t);
        }
    }
}

proof fn lemma_group_is_seen(items: Seq<ItemView>, i: int)
    requires
        0 <= i < items.len(),
        items[i].mapping.group is Some,
    ensures
        overview::groups_seen(items).contains(items[i].mapping.group->0),
    decreases items.len(),
{
    let front = items.drop_last();
    let before = overview::groups_seen(front);
    let now = overview::groups_seen(items);
    let g = items[i].mapping.group->0;
    if i < front.len() {
        lemma_group_is_seen(front, i);
        let k = choose|k: int| 0 <= k < before.len() && before[k] == g;
        assert(now[k] == g);
    } else if !before.contains(g) {
        assert(now[before.len() as int] == g);
    }
}

proof fn lemma_rows_of(
    p: Palette,
    items: Seq<ItemView>,
    group: Option<Seq<char>>,
    home: Seq<char>,
    width: nat,
    indent: nat,
    i: int,
)
    requires
        0 <= i < items.len(),
        items[i].mapping.group == group,
    ensures
        overview::rows_of(p, items, group, home, width, indent).contains(
            overview::row(p, items[i], home, width, indent),
        ),
    decreases items.len(),
{
    let front = items.drop_last();
    let before = overview::rows_of(p, front, group, home, width, indent);
    let now = overview::rows_of(p, items, group, home, width, indent);
    let line = overview::row(p, items[i], home, width, indent);
    if i < front.len() {
        lemma_rows_of(p, front, group, home, width, indent, i);
        let k = choose|k: int| 0 <= k < before.len() && before[k] == line;
        assert(now[k] == line);
    } else {
        assert(now[before.len() as int] == line);
    }
}

proof fn lemma_blocks(
    p: Palette,
    items: Seq<ItemView>,
    groups: Seq<Seq<char>>,
    home: Seq<char>,
    width: nat,
    g: Seq<char>,
    line: Seq<char>,
)
    requires
        groups.contains(g),
        overview::group_block(p, items, g, home, width).contains(line),
    ensures
        overview::group_blocks(p, items, groups, home, width).contains(line),
    decreases groups.len(),
{
    let front = groups.drop_last();
    let before = overview::group_blocks(p, items, front, home, width);
    lemma_line_in_sum(before, overview::group_block(p, items, groups.last(), home, width), line);
    if groups.last() != g {
        let k = choose|k: int| 0 <= k < groups.len() && groups[k] == g;
        assert(front[k] == g);
        lemma_blocks(p, items, front, home, width, g, line);
    }
}

/// What programs are told of the status: one entry for each item, in order, with its
/// name, its state's code, its paths, whether it is linked, and whether it is a
/// secret and of which mode.
pub proof fn law_the_status_tells_each_item(items: Seq<ItemView>, cfg: ConfigView, i: int)
    requires
        0 <= i < items.len(),
    ensures
        ({
            let doc = overview::status_document(items, cfg);
            let row = doc.lists[0].rows[i];
            let item = items[i];
            &&& doc.lists.len() == 1
            &&& doc.lists[0].key == "mappings"@
            &&& doc.lists[0].rows.len() == items.len()
            &&& doc.fields.contains(
                FieldView { key: "sync_dir"@, value: ValueView::Text(cfg.sync_dir) },
            )
            &&& doc.fields.contains(FieldView { key: "home"@, value: ValueView::Text(cfg.home) })
            &&& row.contains(FieldView { key: "name"@, value: ValueView::Text(item.mapping.name) })
            &&& row.contains(FieldView { key: "state"@, value: ValueView::Text(item.state.token()) })
            &&& row.contains(FieldView { key: "source"@, value: ValueView::Text(item.source) })
            &&& row.contains(
                FieldView {
                    key: "target"@,
                    value: match item.target {
                        Some(t) => ValueView::Text(t),
                        None => ValueView::Null,
                    },
                },
            )
            &&& row.contains(
                FieldView { key: "linked"@, value: ValueView::Bool(item.state is Linked) },
            )
            &&& row.contains(
                FieldView { key: "secret"@, value: ValueView::Bool(item.mapping.mode is Some) },
            )
            &&& row.contains(
                FieldView {
                    key: "mode"@,
                    value: match item.mapping.mode {
                        Some(m) => ValueView::Text(m),
                        None => ValueView::Null,
                    },
                },
            )
        }),
{
    let doc = overview::status_document(items, cfg);
    let row = doc.lists[0].rows[i];
    assert(row == overview::item_fields(items[i]));
    let (a, b, c, d) = (row[0], row[1], row[2], row[3]);
    let (e, f, g) = (row[4], row[5], row[6]);
    let (x, y) = (doc.fields[0], doc.fields[1]);
    assert(row.contains(a) && row.contains(b) && row.contains(c) && row.contains(d));
    assert(row.contains(e) && row.contains(f) && row.contains(g));
    assert(doc.fields.contains(x) && doc.fields.contains(y));
}

/// There is a problem to report exactly when some item is in conflict, dangling or
/// foreign.
pub proof fn law_a_problem_is_some_items_problem(items: Seq<ItemView>)
    ensures
        report::any_problem(items) <==> exists|i: int|
            0 <= i < items.len() && ((#[trigger] items[i]).state is Diverged || items[i].state
                is DanglingSelf || items[i].state is ForeignSymlink),
{
    if exists|i: int|
        0 <= i < items.len() && ((#[trigger] items[i]).state is Diverged || items[i].state
            is DanglingSelf || items[i].state is ForeignSymlink) {
        let i = choose|i: int|
            0 <= i < items.len() && ((#[trigger] items[i]).state is Diverged || items[i].state
                is DanglingSelf || items[i].state is ForeignSymlink);
        assert(items[i].state.problem());
    }
}

// ---------------------------------------------------------------------------
// Outcomes
// ---------------------------------------------------------------------------

/// Every outcome has its line, in order; behind more than one the count follows, and
/// where there is none it is said that there was nothing to do.
pub proof fn law_every_outcome_has_its_line(
    p: Palette,
    outcomes: Seq<OutcomeView>,
    home: Seq<char>,
    i: int,
    fine: spec_fn(OutcomeView) -> bool,
)
    requires
        forall|o: OutcomeView| #[trigger] fine(o) == o.ok,
    ensures
        outcomes.len() == 0 ==> report::sweep_lines(p, outcomes, home).len() == 1,
        outcomes.len() == 1 ==> report::sweep_lines(p, outcomes, home).len() == 1,
        outcomes.len() > 1 ==> report::sweep_lines(p, outcomes, home).len() == outcomes.len() + 1,
        0 <= i < outcomes.len() ==> report::sweep_lines(p, outcomes, home)[i]
            == report::outcome_text(p, outcomes[i], home),
        report::well(outcomes) == outcomes.filter(fine).len(),
    decreases outcomes.len(),
{
    lemma_well(outcomes, fine);
}

proof fn lemma_well(outcomes: Seq<OutcomeView>, fine: spec_fn(OutcomeView) -> bool)
    requires
        forall|o: OutcomeView| #[trigger] fine(o) == o.ok,
    ensures
        report::well(outcomes) == outcomes.filter(fine).len(),
    decreases outcomes.len(),
{
    reveal(Seq::filter);
    if outcomes.len() > 0 {
        lemma_well(outcomes.drop_last(), fine);
    }
}

/// What programs are told of outcomes: one entry for each, in order, with its name,
/// what was done, whether it went well and the detail.
pub proof fn law_outcomes_are_told_in_order(outcomes: Seq<OutcomeView>, i: int)
    requires
        0 <= i < outcomes.len(),
    ensures
        ({
            let row = report::outcome_rows(outcomes)[i];
            let o = outcomes[i];
            &&& report::outcome_rows(outcomes).len() == outcomes.len()
            &&& row.contains(FieldView { key: "name"@, value: ValueView::Text(o.name) })
            &&& row.contains(FieldView { key: "action"@, value: ValueView::Text(o.action) })
            &&& row.contains(FieldView { key: "ok"@, value: ValueView::Bool(o.ok) })
            &&& row.contains(FieldView { key: "detail"@, value: ValueView::Text(o.detail) })
        }),
{
    let row = report::outcome_rows(outcomes)[i];
    let (a, b, c, d) = (row[0], row[1], row[2], row[3]);
    assert(row.contains(a) && row.contains(b) && row.contains(c) && row.contains(d));
}

// ---------------------------------------------------------------------------
// The health check
// ---------------------------------------------------------------------------

/// The issues of a level are those of that level, in order.
pub proof fn law_issues_of_a_level_are_all_of_it(
    issues: Seq<IssueView>,
    level: Level,
    keep: spec_fn(IssueView) -> bool,
)
    requires
        forall|i: IssueView| #[trigger] keep(i) == (i.level == level),
    ensures
        doctor::of_level(issues, level) == issues.filter(keep),
    decreases issues.len(),
{
    reveal(Seq::filter);
    if issues.len() > 0 {
        law_issues_of_a_level_are_all_of_it(issues.drop_last(), level, keep);
    }
}

/// What programs are told of the health check: whether it is healthy, every issue
/// with its name, weight, message and whether it can be repaired, and everything
/// that was repaired.
pub proof fn law_the_health_check_tells_each_issue(r: ReportView, i: int)
    ensures
        ({
            let doc = report::doctor_view(r);
            &&& doc.fields.contains(
                FieldView {
                    key: "healthy"@,
                    value: ValueView::Bool(
                        forall|k: int|
                            0 <= k < r.issues.len() ==> (#[trigger] r.issues[k]).level
                                != Level::Error,
                    ),
                },
            )
            &&& doc.lists.len() == 2
            &&& doc.lists[0].key == "issues"@
            &&& doc.lists[1].key == "fixed"@
            &&& doc.lists[0].rows.len() == r.issues.len()
            &&& doc.lists[1].rows == report::outcome_rows(r.fixed)
            &&& 0 <= i < r.issues.len() ==> {
                let row = doc.lists[0].rows[i];
                let issue = r.issues[i];
                &&& row.contains(FieldView { key: "name"@, value: ValueView::Text(issue.name) })
                &&& row.contains(FieldView { key: "message"@, value: ValueView::Text(issue.message) })
                &&& row.contains(FieldView { key: "fixable"@, value: ValueView::Bool(issue.fixable) })
                &&& row.contains(
                    FieldView {
                        key: "level"@,
                        value: ValueView::Text(
                            if issue.level == Level::Error {
                                "error"@
                            } else {
                                "warn"@
                            },
                        ),
                    },
                )
            }
        }),
{
    let doc = report::doctor_view(r);
    let x = doc.fields[0];
    assert(doc.fields.contains(x));
    if 0 <= i < r.issues.len() {
        let row = doc.lists[0].rows[i];
        assert(row == report::issue_fields(r.issues[i]));
        let (a, b, c, d) = (row[0], row[1], row[2], row[3]);
        assert(row.contains(a) && row.contains(b) && row.contains(c) && row.contains(d));
    }
}

/// Every issue has its line, and everything that was repaired has one; nothing was
/// found exactly when it is said that everything looks healthy.
pub proof fn law_every_issue_has_its_line(
    p: Palette,
    r: ReportView,
    home: Seq<char>,
    fix: bool,
    i: int,
)
    ensures
        0 <= i < r.issues.len() ==> report::doctor_text(p, r, home, fix).contains(
            report::issue_text(p, r.issues[i], home, fix),
        ),
        0 <= i < r.fixed.len() ==> report::doctor_text(p, r, home, fix).contains(
            report::fixed_text(p, r.fixed[i], home),
        ),
        report::doctor_text(p, r, home, fix).last() == report::verdict(
            p,
            doctor::of_level(r.issues, Level::Error).len(),
            doctor::of_level(r.issues, Level::Warn).len(),
            r.fixed.len(),
        ),
        r.issues.len() == 0 <==> doctor::of_level(r.issues, Level::Error).len() + doctor::of_level(
            r.issues,
            Level::Warn,
        ).len() == 0,
{
    let errors = doctor::of_level(r.issues, Level::Error);
    let advice = doctor::of_level(r.issues, Level::Warn);
    let done = r.fixed.map_values(|o: OutcomeView| report::fixed_text(p, o, home));
    let a = report::section(p, "Problems"@, errors, home, fix);
    let b = report::section(p, "Advisories"@, advice, home, fix);
    let end = seq![""@, report::verdict(p, errors.len(), advice.len(), r.fixed.len())];
    lemma_levels_add_up(r.issues);
    if 0 <= i < r.issues.len() {
        let issue = r.issues[i];
        let line = report::issue_text(p, issue, home, fix);
        lemma_in_its_level(r.issues, i);
        if issue.level == Level::Error {
            lemma_section(p, "Problems"@, errors, home, fix, issue);
        } else {
            lemma_section(p, "Advisories"@, advice, home, fix, issue);
        }
        lemma_line_in_sum(done, a, line);
        lemma_line_in_sum(done + a, b, line);
        lemma_line_in_sum(done + a + b, end, line);
    }
    if 0 <= i < r.fixed.len() {
        let line = report::fixed_text(p, r.fixed[i], home);
        assert(done[i] == line);
        lemma_line_in_sum(done, a, line);
        lemma_line_in_sum(done + a, b, line);
        lemma_line_in_sum(done + a + b, end, line);
    }
}

proof fn lemma_levels_add_up(issues: Seq<IssueView>)
    ensures
        doctor::of_level(issues, Level::Error).len() + doctor::of_level(issues, Level::Warn).len()
            == issues.len(),
    decreases issues.len(),
{
    if issues.len() > 0 {
        lemma_levels_add_up(issues.drop_last());
    }
}

proof fn lemma_in_its_level(issues: Seq<IssueView>, i: int)
    requires
        0 <= i < issues.len(),
    ensures
        doctor::of_level(issues, issues[i].level).contains(issues[i]),
    decreases issues.len(),
{
    let front = issues.drop_last();
    let level = issues[i].level;
    let before = doctor::of_level(front, level);
    let now = doctor::of_level(issues, level);
    if i < front.len() {
        lemma_in_its_level(front, i);
        let k = choose|k: int| 0 <= k < before.len() && before[k] == issues[i];
        assert(now[k] == issues[i]);
    } else {
        assert(now[before.len() as int] == issues[i]);
    }
}

proof fn lemma_section(
    p: Palette,
    title: Seq<char>,
    issues: Seq<IssueView>,
    home: Seq<char>,
    fix: bool,
    issue: IssueView,
)
    requires
        issues.contains(issue),
    ensures
        report::section(p, title, issues, home, fix).contains(
            report::issue_text(p, issue, home, fix),
        ),
{
    let k = choose|k: int| 0 <= k < issues.len() && issues[k] == issue;
    let lines = issues.map_values(|i: IssueView| report::issue_text(p, i, home, fix));
    assert(lines[k] == report::issue_text(p, issue, home, fix));
    assert(report::section(p, title, issues, home, fix)[k + 2] == lines[k]);
}

// ---------------------------------------------------------------------------
// Runs and groups
// ---------------------------------------------------------------------------

/// How long ago a run was is told in whole seconds, minutes, hours or days, the
/// greatest of them that is full, and as no time for a run from a time to come.
pub proof fn law_an_age_is_told_in_its_greatest_unit(id: nat, now: nat)
    ensures
        ({
            let ms = if now > id {
                (now - id) as nat
            } else {
                0
            };
            &&& ms < 60_000 ==> report::age(id, now) == number::decimal(ms / 1000) + "s ago"@
            &&& 60_000 <= ms < 3_600_000 ==> report::age(id, now) == number::decimal(ms / 60_000)
                + "m ago"@
            &&& 3_600_000 <= ms < 86_400_000 ==> report::age(id, now) == number::decimal(
                ms / 3_600_000,
            ) + "h ago"@
            &&& 86_400_000 <= ms ==> report::age(id, now) == number::decimal(ms / 86_400_000)
                + "d ago"@
        }),
{
    let ms: nat = if now > id {
        (now - id) as nat
    } else {
        0
    };
    assert(ms / 1000 / 60 == ms / 60_000);
    assert(ms / 1000 / 3600 == ms / 3_600_000);
    assert(ms / 1000 / 86400 == ms / 86_400_000);
}

/// Every run has its line, in order, and tells programs its id, its command and how
/// many actions it holds.
pub proof fn law_every_run_has_its_line(p: Palette, runs: Seq<RunView>, now: nat, i: int)
    requires
        0 <= i < runs.len(),
    ensures
        report::runs_text(p, runs, now).len() == runs.len(),
        report::runs_text(p, runs, now)[i] == report::run_text(p, runs[i], now),
        report::run_fields(runs[i]).contains(
            FieldView { key: "id"@, value: ValueView::Text(number::decimal(runs[i].id)) },
        ),
        report::run_fields(runs[i]).contains(
            FieldView { key: "command"@, value: ValueView::Text(runs[i].command) },
        ),
        report::run_fields(runs[i]).contains(
            FieldView { key: "items"@, value: ValueView::Count(runs[i].actions.len()) },
        ),
{
    let row = report::run_fields(runs[i]);
    let (a, b, c) = (row[0], row[1], row[2]);
    assert(row.contains(a) && row.contains(b) && row.contains(c));
}

/// Every group that is listed is listed with all its members, and tells programs
/// its name and them.
pub proof fn law_every_group_lists_its_members(
    p: Palette,
    s: Seq<MappingView>,
    groups: Seq<Seq<char>>,
    k: int,
    i: int,
)
    requires
        0 <= k < groups.len(),
        0 <= i < s.len(),
        s[i].group == Some(groups[k]),
    ensures
        report::groups_text(p, s, groups).contains("      "@ + s[i].name),
        report::group_fields(s, groups[k]).contains(
            FieldView { key: "name"@, value: ValueView::Text(groups[k]) },
        ),
        exists|names: Seq<Seq<char>>| #[trigger]
            names.contains(s[i].name) && report::group_fields(s, groups[k]).contains(
                FieldView { key: "members"@, value: ValueView::Texts(names) },
            ),
    decreases groups.len(),
{
    let g = groups[k];
    let members = manage::member_names(s, g);
    lemma_is_member(s, g, i);
    let row = report::group_fields(s, g);
    let (a, b) = (row[0], row[1]);
    assert(row.contains(a) && row.contains(b));
    assert(members.contains(s[i].name));
    let front = groups.drop_last();
    let line = "      "@ + s[i].name;
    lemma_line_in_sum(
        report::groups_text(p, s, front),
        report::group_text(p, s, groups.last()),
        line,
    );
    if k < front.len() {
        law_every_group_lists_its_members(p, s, front, k, i);
    } else {
        let j = choose|j: int| 0 <= j < members.len() && members[j] == s[i].name;
        let lines = members.map_values(|m: Seq<char>| "      "@ + m);
        assert(lines[j] == line);
        assert(report::group_text(p, s, g)[j + 1] == line);
    }
}

proof fn lemma_is_member(s: Seq<MappingView>, name: Seq<char>, i: int)
    requires
        0 <= i < s.len(),
        s[i].group == Some(name),
    ensures
        manage::member_names(s, name).contains(s[i].name),
    decreases s.len(),
{
    let front = s.drop_last();
    let before = manage::member_names(front, name);
    let now = manage::member_names(s, name);
    if i < front.len() {
        lemma_is_member(front, name, i);
        let k = choose|k: int| 0 <= k < before.len() && before[k] == s[i].name;
        assert(now[k] == s[i].name);
    } else {
        assert(now[before.len() as int] == s[i].name);
    }
}

// ---------------------------------------------------------------------------
// Lines
// ---------------------------------------------------------------------------

/// Whatever is painted is there to be read.
pub proof fn law_paint_keeps_the_text(p: Palette, to: To, code: Seq<char>, s: Seq<char>)
    ensures
        text::has_text(ui::painted(p, to, code, s), s),
        text::has_text(ui::linked(p, s, code), s),
{
    reveal_strlit("");
    assert(""@ =~= Seq::<char>::empty());
    let none = Seq::<char>::empty();
    lemma_within(none, s, none);
    assert(none + s + none =~= s);
    lemma_within("\x1b["@ + code + "m"@, s, "\x1b[0m"@);
    lemma_within("\x1b]8;;"@ + code + "\x1b\\"@, s, "\x1b]8;;\x1b\\"@);
}

/// A part of a text occurs in it.
proof fn lemma_within(a: Seq<char>, s: Seq<char>, b: Seq<char>)
    ensures
        text::has_text(a + s + b, s),
{
    let whole = a + s + b;
    assert(whole.subrange(a.len() as int, (a.len() + s.len()) as int) =~= s);
    assert(text::occurs_at(whole, s, a.len() as int));
}

/// What occurs in a part of a text occurs in it.
proof fn lemma_within_part(a: Seq<char>, s: Seq<char>, b: Seq<char>, t: Seq<char>)
    requires
        text::has_text(s, t),
    ensures
        text::has_text(a + s + b, t),
{
    let i = choose|i: int| text::occurs_at(s, t, i);
    let whole = a + s + b;
    assert(whole.subrange(a.len() + i, a.len() + i + t.len()) =~= s.subrange(i, i + t.len()));
    assert(text::occurs_at(whole, t, a.len() + i));
}

/// The row of an item tells its name, its box, what its state is called, and of a
/// secret its mode.
pub proof fn law_a_row_tells_its_item(
    p: Palette,
    item: ItemView,
    home: Seq<char>,
    width: nat,
    indent: nat,
)
    ensures
        text::has_text(overview::row(p, item, home, width, indent), item.mapping.name),
        text::has_text(overview::row(p, item, home, width, indent), overview::mark_of(item.state)),
        text::has_text(
            overview::row(p, item, home, width, indent),
            overview::label_of(item, home).0,
        ),
        item.mapping.mode matches Some(m) ==> text::has_text(
            overview::row(p, item, home, width, indent),
            " secret "@ + m,
        ),
{
    let name = item.mapping.name;
    let label = overview::label_of(item, home);
    let secret = match item.mapping.mode {
        Some(mode) => ui::painted(p, To::Out, "2"@, " secret "@ + mode),
        None => ""@,
    };
    let note = if label.1.len() == 0 {
        ""@
    } else {
        "  "@ + ui::painted(p, To::Out, "2"@, label.1)
    };
    let mark = overview::mark_of(item.state);
    let told = " secret "@ + item.mapping.mode->0;
    let x1 = "  "@ + overview::blanks(indent);
    let x2 = x1 + overview::coloured(p, item.state, mark);
    let x3 = x2 + " "@;
    let x4 = x3 + ui::linked(p, name, "file://"@ + item.source);
    let x5 = x4 + overview::blanks(overview::gap(name.len(), width));
    let x6 = x5 + "  "@;
    let x7 = x6 + overview::coloured(p, item.state, label.0);
    let x8 = x7 + secret;
    let x9 = x8 + note;
    assert(overview::row(p, item, home, width, indent) == x9);
    law_paint_keeps_the_text(p, To::Out, overview::colour_code(item.state), mark);
    law_paint_keeps_the_text(p, To::Out, overview::colour_code(item.state), label.0);
    law_paint_keeps_the_text(p, To::Out, "file://"@ + item.source, name);
    lemma_added_has(x1, overview::coloured(p, item.state, mark), mark);
    lemma_added_has(x2, " "@, mark);
    lemma_added_has(x3, ui::linked(p, name, "file://"@ + item.source), mark);
    lemma_added_has(x3, ui::linked(p, name, "file://"@ + item.source), name);
    lemma_added_has(x4, overview::blanks(overview::gap(name.len(), width)), mark);
    lemma_added_has(x4, overview::blanks(overview::gap(name.len(), width)), name);
    lemma_added_has(x5, "  "@, mark);
    lemma_added_has(x5, "  "@, name);
    lemma_added_has(x6, overview::coloured(p, item.state, label.0), mark);
    lemma_added_has(x6, overview::coloured(p, item.state, label.0), name);
    lemma_added_has(x6, overview::coloured(p, item.state, label.0), label.0);
    lemma_added_has(x7, secret, mark);
    lemma_added_has(x7, secret, name);
    lemma_added_has(x7, secret, label.0);
    lemma_added_has(x8, note, mark);
    lemma_added_has(x8, note, name);
    lemma_added_has(x8, note, label.0);
    if item.mapping.mode is Some {
        law_paint_keeps_the_text(p, To::Out, "2"@, told);
        lemma_added_has(x7, secret, told);
        lemma_added_has(x8, note, told);
    }
}

/// What occurs in either part of a text occurs in the whole.
proof fn lemma_added_has(a: Seq<char>, b: Seq<char>, t: Seq<char>)
    ensures
        text::has_text(a, t) || text::has_text(b, t) ==> text::has_text(a + b, t),
{
    let none = Seq::<char>::empty();
    if text::has_text(a, t) {
        lemma_within_part(none, a, b, t);
        assert(none + a + b =~= a + b);
    }
    if text::has_text(b, t) {
        lemma_within_part(a, b, none, t);
        assert(a + b + none =~= a + b);
    }
}

/// The line of an outcome tells its name and what was done, and begins with a tick
/// exactly when it went well.
pub proof fn law_an_outcome_line_tells_how_it_went(
    p: Palette,
    o: OutcomeView,
    home: Seq<char>,
)
    ensures
        text::has_text(report::outcome_text(p, o, home), o.name),
        text::has_text(report::outcome_text(p, o, home), o.action),
        o.ok ==> text::starts_with(
            report::outcome_text(p, o, home),
            ui::painted(p, To::Stderr, "32"@, "✓"@),
        ),
        !o.ok ==> text::starts_with(
            report::outcome_text(p, o, home),
            ui::painted(p, To::Stderr, "31"@, "✗"@),
        ),
{
    let short = text::replace(o.detail, home, "~"@);
    let detail = if short.len() == 0 {
        ""@
    } else {
        " — "@ + ui::painted(p, To::Stderr, "2"@, short)
    };
    let glyph = if o.ok {
        ui::painted(p, To::Stderr, "32"@, "✓"@)
    } else {
        ui::painted(p, To::Stderr, "31"@, "✗"@)
    };
    let name = ui::painted(p, To::Stderr, "1"@, o.name);
    let line = report::outcome_text(p, o, home);
    law_paint_keeps_the_text(p, To::Stderr, "1"@, o.name);
    assert(line =~= (glyph + " "@) + name + ("  "@ + o.action + detail));
    lemma_within_part(glyph + " "@, name, "  "@ + o.action + detail, o.name);
    assert(line =~= (glyph + " "@ + name + "  "@) + o.action + detail);
    lemma_within(glyph + " "@ + name + "  "@, o.action, detail);
    assert(line.take(glyph.len() as int) =~= glyph);
}

/// In the summary each heading with items has its number, in the order of the
/// headings, and none without.
pub proof fn law_the_summary_names_what_there_is(p: Palette, items: Seq<ItemView>, bucket: Bucket)
    ensures
        overview::tally(items, bucket) > 0 ==> overview::summary_parts(p, items).contains(
            ui::painted(
                p,
                To::Out,
                bucket.look().1,
                number::decimal(overview::tally(items, bucket)) + " "@ + bucket.look().0,
            ),
        ),
        overview::summary_parts(p, items).len() == headed(items, Bucket::Linked) + headed(
            items,
            Bucket::Available,
        ) + headed(items, Bucket::Healable) + headed(items, Bucket::Conflict) + headed(
            items,
            Bucket::Dangling,
        ) + headed(items, Bucket::LocalOnly) + headed(items, Bucket::Skipped),
{
    let none = Seq::<Seq<char>>::empty();
    let a = overview::with_bucket(none, p, items, Bucket::Linked);
    let b = overview::with_bucket(a, p, items, Bucket::Available);
    let c = overview::with_bucket(b, p, items, Bucket::Healable);
    let d = overview::with_bucket(c, p, items, Bucket::Conflict);
    let e = overview::with_bucket(d, p, items, Bucket::Dangling);
    let f = overview::with_bucket(e, p, items, Bucket::LocalOnly);
    let g = overview::with_bucket(f, p, items, Bucket::Skipped);
    let line = ui::painted(
        p,
        To::Out,
        bucket.look().1,
        number::decimal(overview::tally(items, bucket)) + " "@ + bucket.look().0,
    );
    lemma_headed(none, p, items, Bucket::Linked, line);
    lemma_headed(a, p, items, Bucket::Available, line);
    lemma_headed(b, p, items, Bucket::Healable, line);
    lemma_headed(c, p, items, Bucket::Conflict, line);
    lemma_headed(d, p, items, Bucket::Dangling, line);
    lemma_headed(e, p, items, Bucket::LocalOnly, line);
    lemma_headed(f, p, items, Bucket::Skipped, line);
}

/// One for a heading with items, none for one without.
pub open spec fn headed(items: Seq<ItemView>, bucket: Bucket) -> int {
    if exists|i: int| 0 <= i < items.len() && bucket.takes((#[trigger] items[i]).state) {
        1
    } else {
        0
    }
}

proof fn lemma_headed(
    parts: Seq<Seq<char>>,
    p: Palette,
    items: Seq<ItemView>,
    bucket: Bucket,
    line: Seq<char>,
)
    ensures
        overview::with_bucket(parts, p, items, bucket).len() == parts.len() + headed(items, bucket),
        parts.contains(line) ==> overview::with_bucket(parts, p, items, bucket).contains(line),
        overview::tally(items, bucket) > 0 ==> overview::with_bucket(
            parts,
            p,
            items,
            bucket,
        ).contains(
            ui::painted(
                p,
                To::Out,
                bucket.look().1,
                number::decimal(overview::tally(items, bucket)) + " "@ + bucket.look().0,
            ),
        ),
{
    lemma_tallied(items, bucket);
    let now = overview::with_bucket(parts, p, items, bucket);
    if parts.contains(line) {
        let k = choose|k: int| 0 <= k < parts.len() && parts[k] == line;
        assert(now[k] == line);
    }
    if overview::tally(items, bucket) > 0 {
        assert(now[parts.len() as int] == now.last());
    }
}

proof fn lemma_tallied(items: Seq<ItemView>, bucket: Bucket)
    ensures
        overview::tally(items, bucket) > 0 <==> exists|i: int|
            0 <= i < items.len() && bucket.takes((#[trigger] items[i]).state),
    decreases items.len(),
{
    if items.len() > 0 {
        let front = items.drop_last();
        lemma_tallied(front, bucket);
        assert(items[items.len() - 1] == items.last());
        if overview::tally(front, bucket) > 0 {
            let i = choose|i: int| 0 <= i < front.len() && bucket.takes((#[trigger] front[i]).state);
            assert(items[i] == front[i]);
        } else {
            assert forall|i: int| 0 <= i < front.len() implies #[trigger] items[i] == front[i] by {}
        }
    }
}

// ---------------------------------------------------------------------------
// What programs are told of the rest
// ---------------------------------------------------------------------------

/// Outcomes are told in a list of results; adopting tells the group too, and whether
/// it was one already.
pub proof fn law_results_are_told(group: Seq<char>, merged: bool, outcomes: Seq<OutcomeView>)
    ensures
        report::sweep_view(outcomes).lists.len() == 1,
        report::sweep_view(outcomes).lists[0].key == "results"@,
        report::sweep_view(outcomes).lists[0].rows == report::outcome_rows(outcomes),
        report::adopt_view(group, merged, outcomes).lists == report::sweep_view(outcomes).lists,
        report::adopt_view(group, merged, outcomes).fields.contains(
            FieldView { key: "group"@, value: ValueView::Text(group) },
        ),
        report::adopt_view(group, merged, outcomes).fields.contains(
            FieldView { key: "merged"@, value: ValueView::Bool(merged) },
        ),
{
    let fields = report::adopt_view(group, merged, outcomes).fields;
    let (a, b) = (fields[0], fields[1]);
    assert(fields.contains(a) && fields.contains(b));
}

/// Runs and groups are told in a list, each with an entry, in order.
pub proof fn law_runs_and_groups_are_told(
    runs: Seq<RunView>,
    s: Seq<MappingView>,
    groups: Seq<Seq<char>>,
    i: int,
)
    ensures
        report::runs_view(runs).lists.len() == 1,
        report::runs_view(runs).lists[0].key == "runs"@,
        report::runs_view(runs).lists[0].rows.len() == runs.len(),
        0 <= i < runs.len() ==> report::runs_view(runs).lists[0].rows[i] == report::run_fields(
            runs[i],
        ),
        report::groups_view(s, groups).lists.len() == 1,
        report::groups_view(s, groups).lists[0].key == "groups"@,
        report::groups_view(s, groups).lists[0].rows.len() == groups.len(),
        0 <= i < groups.len() ==> report::groups_view(s, groups).lists[0].rows[i]
            == report::group_fields(s, groups[i]),
{
}

/// A group that was renamed is told with both names, how many members it has and
/// whether it was merged; a mapping that was moved with its group and whether that
/// is new; a configuration with where the sync folder and the home base are.
pub proof fn law_changes_are_told(
    old_name: Seq<char>,
    new_name: Seq<char>,
    members: nat,
    flag: bool,
    cfg: ConfigView,
)
    ensures
        ({
            let renamed = report::renamed_view(old_name, new_name, members, flag).fields;
            let moved = report::moved_view(old_name, new_name, flag).fields;
            let setup = report::setup_view(cfg).fields;
            &&& renamed.contains(FieldView { key: "renamed"@, value: ValueView::Text(old_name) })
            &&& renamed.contains(FieldView { key: "to"@, value: ValueView::Text(new_name) })
            &&& renamed.contains(FieldView { key: "members"@, value: ValueView::Count(members) })
            &&& renamed.contains(FieldView { key: "merged"@, value: ValueView::Bool(flag) })
            &&& moved.contains(FieldView { key: "moved"@, value: ValueView::Text(old_name) })
            &&& moved.contains(FieldView { key: "group"@, value: ValueView::Text(new_name) })
            &&& moved.contains(FieldView { key: "created"@, value: ValueView::Bool(flag) })
            &&& setup.contains(FieldView { key: "configured"@, value: ValueView::Bool(true) })
            &&& setup.contains(FieldView { key: "home"@, value: ValueView::Text(cfg.home) })
            &&& setup.contains(
                FieldView {
                    key: "sync_dir"@,
                    value: ValueView::Text(mapping::tilde_collapsed(cfg.sync_dir, cfg.home)),
                },
            )
        }),
{
    let renamed = report::renamed_view(old_name, new_name, members, flag).fields;
    let moved = report::moved_view(old_name, new_name, flag).fields;
    let setup = report::setup_view(cfg).fields;
    let (a, b, c, d) = (renamed[0], renamed[1], renamed[2], renamed[3]);
    let (e, f, g) = (moved[0], moved[1], moved[2]);
    let (h, i, j) = (setup[0], setup[1], setup[2]);
    assert(renamed.contains(a) && renamed.contains(b) && renamed.contains(c) && renamed.contains(d));
    assert(moved.contains(e) && moved.contains(f) && moved.contains(g));
    assert(setup.contains(h) && setup.contains(i) && setup.contains(j));
}

/// What a failed step is reported as names the path that it was to change, and a
/// copy or a link also what it was made from. Only making room and keeping
/// permissions alike fail under the plain error.
pub proof fn law_a_complaint_names_the_path(step: StepView)
    ensures
        step.complaint() is None <==> step is MakeParent || step is MirrorMode,
        step matches StepView::MakeDir { path } ==> text::has_text(step.complaint()->0, path),
        step matches StepView::MakeLink { original, link } ==> text::has_text(
            step.complaint()->0,
            original,
        ) && text::has_text(step.complaint()->0, link),
        step matches StepView::CopyLink { original: _, link } ==> text::has_text(
            step.complaint()->0,
            link,
        ),
        step matches StepView::CopyFile { from, to } ==> text::has_text(step.complaint()->0, from)
            && text::has_text(step.complaint()->0, to),
        step matches StepView::RemoveLink { path } ==> text::has_text(step.complaint()->0, path),
        step matches StepView::RemoveFile { path } ==> text::has_text(step.complaint()->0, path),
        step matches StepView::RemoveTree { path } ==> text::has_text(step.complaint()->0, path),
        step matches StepView::Finalize { from: _, to } ==> text::has_text(step.complaint()->0, to),
        step matches StepView::SetMode { path, mode } ==> text::has_text(step.complaint()->0, path)
            && text::has_text(step.complaint()->0, number::octal(mode as nat)),
{
    match step {
        StepView::MakeDir { path } => {
            lemma_ends("could not create "@, path);
        },
        StepView::MakeLink { original, link } => {
            lemma_ends("could not link "@, link);
            lemma_added_has("could not link "@ + link, " -> "@, link);
            lemma_added_has("could not link "@ + link + " -> "@, original, link);
            lemma_ends("could not link "@ + link + " -> "@, original);
        },
        StepView::CopyLink { original: _, link } => {
            lemma_ends("could not copy symlink to "@, link);
        },
        StepView::CopyFile { from, to } => {
            lemma_ends("could not copy "@, from);
            lemma_added_has("could not copy "@ + from, " to "@, from);
            lemma_added_has("could not copy "@ + from + " to "@, to, from);
            lemma_ends("could not copy "@ + from + " to "@, to);
        },
        StepView::RemoveLink { path } => {
            lemma_ends("could not remove symlink "@, path);
        },
        StepView::RemoveFile { path } => {
            lemma_ends("could not remove "@, path);
        },
        StepView::RemoveTree { path } => {
            lemma_ends("could not remove "@, path);
        },
        StepView::Finalize { from: _, to } => {
            lemma_ends("could not finalize move to "@, to);
        },
        StepView::SetMode { path, mode } => {
            let m = number::octal(mode as nat);
            lemma_ends("could not chmod "@, path);
            lemma_added_has("could not chmod "@ + path, " to "@, path);
            lemma_added_has("could not chmod "@ + path + " to "@, m, path);
            lemma_ends("could not chmod "@ + path + " to "@, m);
        },
        _ => {},
    }
}

/// A text occurs at the end of what it is added to.
proof fn lemma_ends(a: Seq<char>, t: Seq<char>)
    ensures
        text::has_text(a + t, t),
{
    assert((a + t).subrange(a.len() as int, (a + t).len() as int) =~= t);
    assert(text::occurs_at(a + t, t, a.len() as int));
}

/// The picker offers an item by its name, with what its state is called and what
/// there is to say of it; what is kept private is offered as such. A group is
/// offered by its name, with how many of its members are linked.
pub proof fn law_an_offer_tells_its_row(
    item: ItemView,
    name: Seq<char>,
    members: Seq<ItemView>,
    home: Seq<char>,
)
    ensures
        ({
            let offer = select::RowView::Single(item).offer(home);
            let (lab, note) = overview::label_of(item, home);
            &&& text::starts_with(offer, item.mapping.name)
            &&& text::has_text(offer, lab)
            &&& text::has_text(offer, note)
            &&& item.mapping.mode is Some ==> text::ends_with(offer, "  secret"@)
        }),
        ({
            let offer = select::RowView::Group(name, members).offer(home);
            &&& text::starts_with(offer, name)
            &&& text::has_text(offer, number::decimal(select::linked_in(members)))
            &&& text::has_text(offer, number::decimal(members.len()))
        }),
{
    let (lab, note) = overview::label_of(item, home);
    let secret = if item.mapping.mode is Some {
        "  secret"@
    } else {
        ""@
    };
    let start = select::filled(item.mapping.name, 28) + "  "@;
    lemma_ends(start, lab);
    if note.len() == 0 {
        let offer = start + lab + secret;
        lemma_added_has(start + lab, secret, lab);
        assert(offer.subrange(0, 0) =~= note);
        assert(text::occurs_at(offer, note, 0));
        assert(offer.take(item.mapping.name.len() as int) =~= item.mapping.name);
        assert(offer.skip(offer.len() - secret.len()) =~= secret);
    } else {
        let offer = start + lab + " — "@ + note + secret;
        lemma_added_has(start + lab, " — "@, lab);
        lemma_added_has(start + lab + " — "@, note, lab);
        lemma_added_has(start + lab + " — "@ + note, secret, lab);
        lemma_ends(start + lab + " — "@, note);
        lemma_added_has(start + lab + " — "@ + note, secret, note);
        assert(offer.take(item.mapping.name.len() as int) =~= item.mapping.name);
        assert(offer.skip(offer.len() - secret.len()) =~= secret);
    }
    let a = number::decimal(select::linked_in(members));
    let b = number::decimal(members.len());
    let head = select::filled(name, 26) + "  group · "@;
    let offer = head + a + "/"@ + b + " linked"@;
    lemma_ends(head, a);
    lemma_added_has(head + a, "/"@, a);
    lemma_added_has(head + a + "/"@, b, a);
    lemma_added_has(head + a + "/"@ + b, " linked"@, a);
    lemma_ends(head + a + "/"@, b);
    lemma_added_has(head + a + "/"@ + b, " linked"@, b);
    assert(offer.take(name.len() as int) =~= name);
}

/// Setting up tells where the sync folder and the home base are, and what was said
/// of completions; installed completions are told with their shell and their place.
pub proof fn law_setting_up_tells_where_things_are(
    p: Palette,
    cfg: ConfigView,
    note: Option<Seq<char>>,
    shell: Shell,
    xdg: Option<Seq<char>>,
    home: Seq<char>,
)
    ensures
        ({
            let told = report::setup_told(p, cfg, note);
            &&& told.len() == 4
            &&& text::ends_with(told[1], mapping::tilde_collapsed(cfg.sync_dir, cfg.home))
            &&& text::ends_with(told[2], cfg.home)
            &&& note matches Some(s) ==> text::ends_with(told[3], s)
        }),
        ({
            let said = shell::installed_note(shell, xdg, home);
            let place = mapping::tilde_collapsed(shell::script_path(shell, xdg, home), home);
            &&& text::has_text(said, shell.title())
            &&& text::has_text(said, place)
            &&& !(shell is Zsh) ==> text::ends_with(said, place)
        }),
{
    let told = report::setup_told(p, cfg, note);
    let dir = mapping::tilde_collapsed(cfg.sync_dir, cfg.home);
    assert(told[1].skip(told[1].len() - dir.len()) =~= dir);
    assert(told[2].skip(told[2].len() - cfg.home.len()) =~= cfg.home);
    match note {
        Some(s) => {
            assert(told[3].skip(told[3].len() - s.len()) =~= s);
        },
        None => {},
    }
    let place = mapping::tilde_collapsed(shell::script_path(shell, xdg, home), home);
    let a = "completions : installed for "@;
    let b = " → "@;
    let said = a + shell.title() + b + place;
    lemma_ends(a, shell.title());
    lemma_added_has(a + shell.title(), b, shell.title());
    lemma_added_has(a + shell.title() + b, place, shell.title());
    lemma_ends(a + shell.title() + b, place);
    assert(said.skip(said.len() - place.len()) =~= place);
    let c = "\n         if completions don't show, add to ~/.zshrc: fpath+=("@;
    let d = mapping::tilde_collapsed(shell::data_dir(xdg, home), home);
    let e = "/zsh/site-functions)"@;
    lemma_added_has(said, c, shell.title());
    lemma_added_has(said + c, d, shell.title());
    lemma_added_has(said + c + d, e, shell.title());
    lemma_added_has(said, c, place);
    lemma_added_has(said + c, d, place);
    lemma_added_has(said + c + d, e, place);
}

/// What is told after adopting names the group, and tells whether it was one before.
pub proof fn law_adopting_tells_the_group(p: Palette, group: Seq<char>, merged: bool)
    ensures
        ({
            let told = report::adopt_note(p, group, merged);
            &&& told.len() > 0
            &&& text::has_text(told[0], group)
            &&& merged ==> text::has_text(told[0], " (added to existing group)"@)
            &&& !merged && !p.colours(To::Stderr) ==> text::ends_with(told[0], "group: "@ + group)
        }),
{
    let extra = " (added to existing group)"@;
    let note = if merged {
        ui::painted(p, To::Stderr, "2"@, extra)
    } else {
        ""@
    };
    let name = ui::painted(p, To::Stderr, "1"@, group);
    let start = ui::painted(p, To::Stderr, "36"@, "▸"@) + " "@;
    let told = report::adopt_note(p, group, merged);
    law_paint_keeps_the_text(p, To::Stderr, "1"@, group);
    law_paint_keeps_the_text(p, To::Stderr, "2"@, extra);
    lemma_added_has("group: "@, name, group);
    lemma_added_has("group: "@ + name, note, group);
    lemma_added_has(start, "group: "@ + name + note, group);
    if merged {
        lemma_added_has("group: "@ + name, note, extra);
        lemma_added_has(start, "group: "@ + name + note, extra);
    } else {
        reveal_strlit("");
        let t = "group: "@ + group;
        if !p.colours(To::Stderr) {
            assert(told[0].skip(told[0].len() - t.len()) =~= t);
        }
    }
}

/// The headline of a sweep tells how many went well and, where some did not, how many
/// of how many failed.
pub proof fn law_the_headline_counts_what_failed(p: Palette, total: nat, ok: nat)
    ensures
        text::has_text(report::headline(p, total, ok), number::decimal(ok) + " ok"@),
        total > ok ==> text::has_text(
            report::headline(p, total, ok),
            number::decimal((total - ok) as nat) + " of "@ + number::decimal(total) + " failed"@,
        ),
{
    let good = number::decimal(ok) + " ok"@;
    if total > ok {
        let bad = number::decimal((total - ok) as nat) + " of "@ + number::decimal(total)
            + " failed"@;
        let told = "⚠ "@ + number::decimal((total - ok) as nat) + " of "@ + number::decimal(total)
            + " failed"@;
        assert(told =~= "⚠ "@ + bad);
        lemma_ends("⚠ "@, bad);
        law_paint_keeps_the_text(p, To::Stderr, "33"@, told);
        law_paint_keeps_the_text(p, To::Stderr, "32"@, good);
        let x1 = ui::painted(p, To::Stderr, "33"@, told);
        let x2 = x1 + " "@;
        let x3 = x2 + ui::painted(p, To::Stderr, "2"@, "·"@);
        let x4 = x3 + " "@;
        lemma_part_of_part(x1, told, bad);
        lemma_added_has(x1, " "@, bad);
        lemma_added_has(x2, ui::painted(p, To::Stderr, "2"@, "·"@), bad);
        lemma_added_has(x3, " "@, bad);
        lemma_added_has(x4, ui::painted(p, To::Stderr, "32"@, good), bad);
        lemma_added_has(x4, ui::painted(p, To::Stderr, "32"@, good), good);
    } else {
        let told = "✓ "@ + number::decimal(ok) + " ok"@;
        assert(told =~= "✓ "@ + good);
        lemma_ends("✓ "@, good);
        law_paint_keeps_the_text(p, To::Stderr, "32"@, told);
        lemma_part_of_part(ui::painted(p, To::Stderr, "32"@, told), told, good);
    }
}

/// What occurs in a text that occurs in another occurs in the other.
proof fn lemma_part_of_part(whole: Seq<char>, s: Seq<char>, t: Seq<char>)
    requires
        text::has_text(whole, s),
        text::has_text(s, t),
    ensures
        text::has_text(whole, t),
{
    let i = choose|i: int| text::occurs_at(whole, s, i);
    let j = choose|j: int| text::occurs_at(s, t, j);
    assert(whole.subrange(i + j, i + j + t.len()) =~= whole.subrange(i, i + s.len()).subrange(
        j,
        j + t.len(),
    ));
    assert(text::occurs_at(whole, t, i + j));
}

/// What occurs in a piece occurs in what the pieces are joined to.
proof fn lemma_join_has(pieces: Seq<Seq<char>>, sep: Seq<char>, i: int, t: Seq<char>)
    requires
        0 <= i < pieces.len(),
        text::has_text(pieces[i], t),
    ensures
        text::has_text(text::join(pieces, sep), t),
    decreases pieces.len(),
{
    if pieces.len() > 1 {
        let front = text::join(pieces.drop_last(), sep);
        if i < pieces.len() - 1 {
            lemma_join_has(pieces.drop_last(), sep, i, t);
        }
        lemma_added_has(front, sep, t);
        lemma_added_has(front + sep, pieces.last(), t);
    }
}

/// A health check closes by saying that all is well exactly where there is nothing to
/// tell; where there is, it tells how many problems, advisories and repairs.
pub proof fn law_the_verdict_counts_what_there_is(p: Palette, errors: nat, advice: nat, fixed: nat)
    ensures
        errors + advice + fixed == 0 ==> text::ends_with(
            report::verdict(p, errors, advice, fixed),
            " everything looks healthy"@,
        ),
        errors > 0 ==> text::has_text(
            report::verdict(p, errors, advice, fixed),
            number::decimal(errors) + " problem"@,
        ),
        advice > 0 ==> text::has_text(
            report::verdict(p, errors, advice, fixed),
            number::decimal(advice) + " advisor"@,
        ),
        fixed > 0 ==> text::has_text(
            report::verdict(p, errors, advice, fixed),
            number::decimal(fixed) + " fixed"@,
        ),
{
    let said = report::verdict(p, errors, advice, fixed);
    let fine = " everything looks healthy"@;
    let parts = report::tally_parts(p, errors, advice, fixed);
    let dot = ui::painted(p, To::Out, "2"@, " · "@);
    if errors + advice + fixed == 0 {
        assert(said.skip(said.len() - fine.len()) =~= fine);
    }
    if errors > 0 {
        let n = number::decimal(errors) + " problem"@;
        let told = n + overview::ending(errors);
        lemma_ends(Seq::<char>::empty(), n);
        assert(Seq::<char>::empty() + n =~= n);
        lemma_added_has(n, overview::ending(errors), n);
        law_paint_keeps_the_text(p, To::Out, "31"@, told);
        lemma_part_of_part(ui::painted(p, To::Out, "31"@, told), told, n);
        lemma_join_has(parts, dot, 0, n);
        lemma_added_has("  "@, text::join(parts, dot), n);
    }
    if advice > 0 {
        let n = number::decimal(advice) + " advisor"@;
        let end = if advice == 1 {
            "y"@
        } else {
            "ies"@
        };
        let told = n + end;
        lemma_ends(Seq::<char>::empty(), n);
        assert(Seq::<char>::empty() + n =~= n);
        lemma_added_has(n, end, n);
        law_paint_keeps_the_text(p, To::Out, "33"@, told);
        lemma_part_of_part(ui::painted(p, To::Out, "33"@, told), told, n);
        let i: int = if errors > 0 {
            1
        } else {
            0
        };
        lemma_join_has(parts, dot, i, n);
        lemma_added_has("  "@, text::join(parts, dot), n);
    }
    if fixed > 0 {
        let n = number::decimal(fixed) + " fixed"@;
        law_paint_keeps_the_text(p, To::Out, "32"@, n);
        lemma_join_has(parts, dot, parts.len() - 1, n);
        lemma_added_has("  "@, text::join(parts, dot), n);
    }
}

/// A sync folder is offered by its place and its provider, and says whether it is
/// configured already, and whether it would be made.
pub proof fn law_a_folder_is_offered_as_what_it_is(c: CandidateView, home: Seq<char>)
    ensures
        text::starts_with(discovery::offer(c, home), mapping::tilde_collapsed(c.path, home)),
        text::has_text(discovery::offer(c, home), c.provider),
        c.configured ==> text::ends_with(discovery::offer(c, home), ", configured)"@),
        !c.configured && !c.exists ==> text::ends_with(
            discovery::offer(c, home),
            " — create here)"@,
        ),
        !c.configured && c.exists ==> text::ends_with(
            discovery::offer(c, home),
            "("@ + c.provider + ")"@,
        ),
{
    reveal_strlit("  (");
    reveal_strlit("(");
    reveal_strlit(")");
    reveal_strlit("");
    reveal_strlit(", configured");
    reveal_strlit(", configured)");
    reveal_strlit(" — create here");
    reveal_strlit(" — create here)");
    let tag = if c.configured {
        ", configured"@
    } else if c.exists {
        ""@
    } else {
        " — create here"@
    };
    let at = mapping::tilde_collapsed(c.path, home);
    let said = at + "  ("@ + c.provider + tag + ")"@;
    assert(said.take(at.len() as int) =~= at);
    lemma_ends(at + "  ("@, c.provider);
    lemma_added_has(at + "  ("@ + c.provider, tag, c.provider);
    lemma_added_has(at + "  ("@ + c.provider + tag, ")"@, c.provider);
    let end = if c.configured {
        ", configured)"@
    } else if c.exists {
        "("@ + c.provider + ")"@
    } else {
        " — create here)"@
    };
    assert(said.skip(said.len() - end.len()) =~= end);
}

/// What the health check advises for a conflict is how a document writes that the
/// sync copy is to win, and the other way is written otherwise.
pub proof fn law_the_advice_is_what_a_document_writes(item: ItemView, fix: bool)
    requires
        item.state is Diverged,
    ensures
        doctor::state_issue(item, fix) matches Some(issue) && text::ends_with(
            issue.message,
            "on_conflict = \""@ + OnConflict::Adopt.word() + "\""@,
        ),
        OnConflict::Fail.word() != OnConflict::Adopt.word(),
{
    reveal_strlit(
        "local file differs from the cloud copy — resolve by hand, or set on_conflict = \"adopt\"",
    );
    reveal_strlit("on_conflict = \"");
    reveal_strlit("\"");
    reveal_strlit("adopt");
    reveal_strlit("fail");
    let message = doctor::state_issue(item, fix)->0.message;
    let end = "on_conflict = \""@ + "adopt"@ + "\""@;
    assert(message.skip(message.len() - end.len()) =~= end);
    assert("fail"@.len() == 4 && "adopt"@.len() == 5);
}

/// The line of an issue tells its name and its message, with the home base
/// abbreviated. How to have it repaired is said last, exactly where a repair would help
/// and was not asked for.
pub proof fn law_an_issue_line_says_how_to_repair(
    p: Palette,
    i: IssueView,
    home: Seq<char>,
    fix: bool,
)
    ensures
        text::has_text(report::issue_text(p, i, home, fix), text::replace(i.name, home, "~"@)),
        text::has_text(report::issue_text(p, i, home, fix), text::replace(i.message, home, "~"@)),
        i.level == Level::Warn && i.fixable && !fix ==> text::has_text(
            report::issue_text(p, i, home, fix),
            "  (dotsync doctor --fix)"@,
        ),
        !(i.level == Level::Warn && i.fixable && !fix) ==> text::ends_with(
            report::issue_text(p, i, home, fix),
            text::replace(i.message, home, "~"@),
        ),
{
    reveal_strlit("");
    let name = text::replace(i.name, home, "~"@);
    let message = text::replace(i.message, home, "~"@);
    let mark = match i.level {
        Level::Error => ui::painted(p, To::Out, "31"@, "✗"@),
        Level::Warn => ui::painted(p, To::Out, "33"@, "⚠"@),
    };
    let help = "  (dotsync doctor --fix)"@;
    let hint = if i.level == Level::Warn && i.fixable && !fix {
        ui::painted(p, To::Out, "2"@, help)
    } else {
        ""@
    };
    law_paint_keeps_the_text(p, To::Out, "1"@, name);
    law_paint_keeps_the_text(p, To::Out, "2"@, help);
    let x1 = "  "@ + mark + " "@;
    let x2 = x1 + ui::painted(p, To::Out, "1"@, name);
    let x3 = x2 + "  "@;
    let x4 = x3 + message;
    let said = x4 + hint;
    lemma_added_has(x1, ui::painted(p, To::Out, "1"@, name), name);
    lemma_added_has(x2, "  "@, name);
    lemma_added_has(x3, message, name);
    lemma_added_has(x4, hint, name);
    lemma_ends(x3, message);
    lemma_added_has(x4, hint, message);
    if i.level == Level::Warn && i.fixable && !fix {
        lemma_added_has(x4, hint, help);
    } else {
        assert(said =~= x4);
        assert(said.skip(said.len() - message.len()) =~= message);
    }
}

/// The line of a repair tells what was repaired, and how.
pub proof fn law_a_repair_line_tells_what_was_done(p: Palette, o: OutcomeView, home: Seq<char>)
    ensures
        text::has_text(report::fixed_text(p, o, home), o.name),
        text::has_text(report::fixed_text(p, o, home), o.action),
        text::ends_with(report::fixed_text(p, o, home), text::replace(o.detail, home, "~"@)),
{
    let detail = text::replace(o.detail, home, "~"@);
    law_paint_keeps_the_text(p, To::Out, "1"@, o.name);
    let x1 = ui::painted(p, To::Out, "32"@, "✓"@) + " fixed "@;
    let x2 = x1 + ui::painted(p, To::Out, "1"@, o.name);
    let x3 = x2 + "  "@;
    let x4 = x3 + o.action;
    let x5 = x4 + " "@;
    let said = x5 + detail;
    lemma_added_has(x1, ui::painted(p, To::Out, "1"@, o.name), o.name);
    lemma_added_has(x2, "  "@, o.name);
    lemma_added_has(x3, o.action, o.name);
    lemma_added_has(x4, " "@, o.name);
    lemma_added_has(x5, detail, o.name);
    lemma_ends(x3, o.action);
    lemma_added_has(x4, " "@, o.action);
    lemma_added_has(x5, detail, o.action);
    assert(said.skip(said.len() - detail.len()) =~= detail);
}

/// The dashboard opens with where the sync folder is and, where there is anything
/// mapped, how many mappings there are.
#[verifier::spinoff_prover]
pub proof fn law_the_heading_tells_where_and_how_many(
    p: Palette,
    items: Seq<ItemView>,
    cfg: ConfigView,
)
    ensures
        ({
            let top = overview::heading(p, items, cfg);
            &&& top.len() >= 2
            &&& text::has_text(top[1], mapping::tilde_collapsed(cfg.sync_dir, cfg.home))
            &&& items.len() > 0 ==> top.len() >= 3 && text::has_text(
                top[2],
                " "@ + number::decimal(items.len()) + " mapping"@,
            )
        }),
{
    reveal_strlit(" · ");
    reveal_strlit(" ");
    let dir = mapping::tilde_collapsed(cfg.sync_dir, cfg.home);
    law_paint_keeps_the_text(p, To::Out, "2"@, dir);
    let start = "  "@ + ui::painted(p, To::Out, "1"@, "dotsync"@) + "  "@;
    lemma_added_has(start, ui::painted(p, To::Out, "2"@, dir), dir);
    if items.len() > 0 {
        let n = number::decimal(items.len());
        let many = " "@ + n + " mapping"@;
        let base = "home "@ + mapping::tilde_collapsed(cfg.home, cfg.home);
        let told = base + " · "@ + n + " mapping"@ + overview::ending(items.len());
        let before = base + seq![' ', '·'];
        assert(" · "@ =~= seq![' ', '·'] + " "@);
        assert(base + " · "@ =~= before + " "@);
        assert(base + " · "@ + n =~= before + (" "@ + n));
        assert(base + " · "@ + n + " mapping"@ =~= before + many);
        lemma_ends(before, many);
        lemma_added_has(before + many, overview::ending(items.len()), many);
        law_paint_keeps_the_text(p, To::Out, "2"@, told);
        lemma_part_of_part(ui::painted(p, To::Out, "2"@, told), told, many);
        lemma_added_has("  "@, ui::painted(p, To::Out, "2"@, told), many);
    }
}

} // verus!
