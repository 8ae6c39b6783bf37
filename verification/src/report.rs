//! What the commands say: the lines for people and the documents for programs.
use vstd::prelude::*;
use vstd::string::*;

use crate::config::{Config, ConfigView};
use crate::doctor;
use crate::doctor::{Issue, IssueView, Level, Report, ReportView};
use crate::journal::{Run, RunView};
use crate::json;
use crate::json::{Document, DocumentView, Field, FieldView, Listing, ListingView, Value, ValueView};
use crate::manage;
use crate::manage::Renamed;
use crate::mapping;
use crate::mapping::{MappingView, MappingsFile};
use crate::number;
use crate::overview;
use crate::plan::{Item, ItemView};
use crate::script::{Outcome, OutcomeView};
use crate::text;
use crate::ui;
use crate::ui::{Palette, To};

verus! {

// ---------------------------------------------------------------------------
// Outcomes
// ---------------------------------------------------------------------------

/// The line for one outcome. The home base is shortened in the detail.
pub open spec fn outcome_text(p: Palette, o: OutcomeView, home: Seq<char>) -> Seq<char> {
    let short = text::replace(o.detail, home, "~"@);
    let detail = if short.len() == 0 {
        ""@
    } else {
        " — "@ + ui::painted(p, To::Stderr, "2"@, short)
    };
    let glyph = if o.ok {
        ui::painted(p, To::Stderr, "32"@, "✓"@)
    } else {
        ui::painted(p, To::Stderr, "31"@, "✗"@)
    };
    glyph + " "@ + ui::painted(p, To::Stderr, "1"@, o.name) + "  "@ + o.action + detail
}

/// The line for one outcome.
pub fn outcome_line(p: &Palette, o: &Outcome, home: &str) -> (r: String)
    ensures
        r@ == outcome_text(*p, o@, home@),
{
    let short = text::replace_text(o.detail.as_str(), home, "~");
    let detail = if text::chars(short.as_str()).len() == 0 {
        "".to_owned()
    } else {
        " — ".to_owned().concat(ui::paint(p, To::Stderr, "2", short.as_str()).as_str())
    };
    let glyph = if o.ok {
        ui::paint(p, To::Stderr, "32", "✓")
    } else {
        ui::paint(p, To::Stderr, "31", "✗")
    };
    glyph.concat(" ").concat(ui::paint(p, To::Stderr, "1", o.name.as_str()).as_str()).concat(
        "  ",
    ).concat(o.action.as_str()).concat(detail.as_str())
}

/// How many outcomes went well.
pub open spec fn well(outcomes: Seq<OutcomeView>) -> nat
    decreases outcomes.len(),
{
    if outcomes.len() == 0 {
        0
    } else {
        well(outcomes.drop_last()) + if outcomes.last().ok {
            1nat
        } else {
            0nat
        }
    }
}

/// The lines of the outcomes, in order.
pub open spec fn each_outcome(p: Palette, outcomes: Seq<OutcomeView>, home: Seq<char>) -> Seq<
    Seq<char>,
> {
    outcomes.map_values(|o: OutcomeView| outcome_text(p, o, home))
}

/// The closing line of a sweep: how many failed and how many went well.
pub open spec fn headline(p: Palette, total: nat, ok: nat) -> Seq<char> {
    if total > ok {
        ui::painted(
            p,
            To::Stderr,
            "33"@,
            "⚠ "@ + number::decimal((total - ok) as nat) + " of "@ + number::decimal(total)
                + " failed"@,
        ) + " "@ + ui::painted(p, To::Stderr, "2"@, "·"@) + " "@ + ui::painted(
            p,
            To::Stderr,
            "32"@,
            number::decimal(ok) + " ok"@,
        )
    } else {
        ui::painted(p, To::Stderr, "32"@, "✓ "@ + number::decimal(ok) + " ok"@)
    }
}

/// The lines that narrate a sweep. A headline closes one of several items.
pub open spec fn sweep_lines(p: Palette, outcomes: Seq<OutcomeView>, home: Seq<char>) -> Seq<
    Seq<char>,
> {
    if outcomes.len() == 0 {
        seq![ui::painted(p, To::Stderr, "2"@, "nothing to do"@)]
    } else if outcomes.len() == 1 {
        each_outcome(p, outcomes, home)
    } else {
        each_outcome(p, outcomes, home).push(headline(p, outcomes.len(), well(outcomes)))
    }
}

proof fn lemma_well(outcomes: Seq<OutcomeView>)
    ensures
        well(outcomes) <= outcomes.len(),
    decreases outcomes.len(),
{
    if outcomes.len() > 0 {
        lemma_well(outcomes.drop_last());
    }
}

fn count_well(outcomes: &Vec<Outcome>) -> (r: usize)
    ensures
        r == well(outcomes.deep_view()),
        r <= outcomes@.len(),
{
    let ghost all = outcomes.deep_view();
    let mut n: usize = 0;
    let mut i: usize = 0;
    assert(all.take(0) =~= Seq::<OutcomeView>::empty());
    while i < outcomes.len()
        invariant
            n <= i <= outcomes@.len(),
            all == outcomes.deep_view(),
            n == well(all.take(i as int)),
        decreases outcomes@.len() - i,
    {
        assert(all.take(i + 1).drop_last() =~= all.take(i as int));
        assert(all.take(i + 1).last() == outcomes@[i as int]@);
        if outcomes[i].ok {
            n += 1;
        }
        i += 1;
    }
    assert(all.take(i as int) =~= all);
    n
}

fn closing(p: &Palette, total: usize, ok: usize) -> (r: String)
    requires
        ok <= total,
    ensures
        r@ == headline(*p, total as nat, ok as nat),
{
    if total > ok {
        let failed = "⚠ ".to_owned().concat(
            number::decimal_text((total - ok) as u128).as_str(),
        ).concat(" of ").concat(number::decimal_text(total as u128).as_str()).concat(" failed");
        let fine = number::decimal_text(ok as u128).concat(" ok");
        ui::paint(p, To::Stderr, "33", failed.as_str()).concat(" ").concat(
            ui::paint(p, To::Stderr, "2", "·").as_str(),
        ).concat(" ").concat(ui::paint(p, To::Stderr, "32", fine.as_str()).as_str())
    } else {
        let fine = "✓ ".to_owned().concat(number::decimal_text(ok as u128).as_str()).concat(
            " ok",
        );
        ui::paint(p, To::Stderr, "32", fine.as_str())
    }
}

/// The lines that narrate a sweep, each outcome on its own. What failed is shown
/// here and in the document, never in the exit status.
pub fn report_outcomes(p: &Palette, outcomes: &Vec<Outcome>, home: &str) -> (r: Vec<String>)
    ensures
        r.deep_view() == sweep_lines(*p, outcomes.deep_view(), home@),
{
    let ghost all = outcomes.deep_view();
    let ghost want = each_outcome(*p, all, home@);
    let mut r: Vec<String> = Vec::new();
    if outcomes.len() == 0 {
        r.push(ui::paint(p, To::Stderr, "2", "nothing to do"));
        assert(r.deep_view() =~= sweep_lines(*p, all, home@));
        return r;
    }
    let mut i: usize = 0;
    assert(r.deep_view() =~= want.take(0));
    while i < outcomes.len()
        invariant
            i <= outcomes@.len(),
            all == outcomes.deep_view(),
            want == each_outcome(*p, all, home@),
            r.deep_view() == want.take(i as int),
        decreases outcomes@.len() - i,
    {
        let ghost before = r.deep_view();
        let line = outcome_line(p, &outcomes[i], home);
        r.push(line);
        assert(all[i as int] == outcomes@[i as int]@);
        assert(r.deep_view() =~= before.push(want[i as int]));
        assert(want.take(i + 1) =~= want.take(i as int).push(want[i as int]));
        i += 1;
    }
    assert(want.take(i as int) =~= want);
    if outcomes.len() > 1 {
        let ghost before = r.deep_view();
        let ok = count_well(outcomes);
        let line = closing(p, outcomes.len(), ok);
        r.push(line);
        assert(r.deep_view() =~= before.push(line@));
    }
    r
}

/// A failed item is told: the headline of a sweep of several items says how many
/// failed exactly when some did.
pub proof fn law_headline_counts_failures(outcomes: Seq<OutcomeView>)
    ensures
        well(outcomes) <= outcomes.len(),
        well(outcomes) == outcomes.len() <==> forall|i: int|
            0 <= i < outcomes.len() ==> (#[trigger] outcomes[i]).ok,
    decreases outcomes.len(),
{
    lemma_well(outcomes);
    if outcomes.len() > 0 {
        let front = outcomes.drop_last();
        law_headline_counts_failures(front);
        lemma_well(front);
        if well(outcomes) == outcomes.len() {
            assert forall|i: int| 0 <= i < outcomes.len() implies (#[trigger] outcomes[i]).ok by {
                if i < front.len() {
                    assert(front[i].ok);
                }
            }
        } else if outcomes.last().ok {
            let i = choose|i: int| 0 <= i < front.len() && !(#[trigger] front[i]).ok;
            assert(!outcomes[i].ok);
        } else {
            assert(!outcomes[outcomes.len() - 1].ok);
        }
    }
}

/// An outcome's row in a document.
pub open spec fn outcome_fields(o: OutcomeView) -> Seq<FieldView> {
    seq![
        json::text_view("name"@, o.name),
        json::text_view("action"@, o.action),
        json::bool_view("ok"@, o.ok),
        json::text_view("detail"@, o.detail),
    ]
}

/// An outcome's row in a document.
pub fn outcome_json(o: &Outcome) -> (r: Vec<Field>)
    ensures
        r.deep_view() == outcome_fields(o@),
{
    let mut r: Vec<Field> = Vec::new();
    r.push(json::text_field("name", o.name.as_str()));
    r.push(json::text_field("action", o.action.as_str()));
    r.push(json::bool_field("ok", o.ok));
    r.push(json::text_field("detail", o.detail.as_str()));
    assert(r.deep_view() =~= outcome_fields(o@));
    r
}

/// The rows of the outcomes.
pub open spec fn outcome_rows(outcomes: Seq<OutcomeView>) -> Seq<Seq<FieldView>> {
    outcomes.map_values(|o: OutcomeView| outcome_fields(o))
}

fn rows_for(outcomes: &Vec<Outcome>) -> (r: Vec<Vec<Field>>)
    ensures
        r.deep_view() == outcome_rows(outcomes.deep_view()),
{
    let ghost all = outcomes.deep_view();
    let ghost want = outcome_rows(all);
    let mut r: Vec<Vec<Field>> = Vec::new();
    let mut i: usize = 0;
    assert(r.deep_view() =~= want.take(0));
    while i < outcomes.len()
        invariant
            i <= outcomes@.len(),
            all == outcomes.deep_view(),
            want == outcome_rows(all),
            r.deep_view() == want.take(i as int),
        decreases outcomes@.len() - i,
    {
        let ghost before = r.deep_view();
        r.push(outcome_json(&outcomes[i]));
        assert(all[i as int] == outcomes@[i as int]@);
        assert(r.deep_view() =~= before.push(want[i as int]));
        assert(want.take(i + 1) =~= want.take(i as int).push(want[i as int]));
        i += 1;
    }
    assert(want.take(i as int) =~= want);
    r
}

/// What programs are told of outcomes.
pub open spec fn sweep_view(outcomes: Seq<OutcomeView>) -> DocumentView {
    json::with_list(seq![], "results"@, outcome_rows(outcomes))
}

/// The document of a sweep.
pub fn sweep_document(outcomes: &Vec<Outcome>) -> (r: Document)
    ensures
        r@ == sweep_view(outcomes.deep_view()),
{
    let none: Vec<Field> = Vec::new();
    assert(none.deep_view() =~= Seq::<FieldView>::empty());
    json::list_document(none, "results", rows_for(outcomes))
}

/// What programs are told of adopting paths into a group.
pub open spec fn adopt_view(group: Seq<char>, merged: bool, outcomes: Seq<OutcomeView>) -> DocumentView {
    json::with_list(
        seq![json::text_view("group"@, group), json::bool_view("merged"@, merged)],
        "results"@,
        outcome_rows(outcomes),
    )
}

/// The document of an adoption.
pub fn adopt_document(group: &str, merged: bool, outcomes: &Vec<Outcome>) -> (r: Document)
    ensures
        r@ == adopt_view(group@, merged, outcomes.deep_view()),
{
    let mut fields: Vec<Field> = Vec::new();
    fields.push(json::text_field("group", group));
    fields.push(json::bool_field("merged", merged));
    assert(fields.deep_view() =~= seq![
        json::text_view("group"@, group@),
        json::bool_view("merged"@, merged),
    ]);
    json::list_document(fields, "results", rows_for(outcomes))
}

/// The lines after an adoption that put something into a group.
pub open spec fn adopt_note(p: Palette, group: Seq<char>, merged: bool) -> Seq<Seq<char>> {
    let note = if merged {
        ui::painted(p, To::Stderr, "2"@, " (added to existing group)"@)
    } else {
        ""@
    };
    seq![
        ui::marked(
            p,
            "36"@,
            "▸"@,
            "group: "@ + ui::painted(p, To::Stderr, "1"@, group) + note,
        ),
        ui::marked(
            p,
            "36"@,
            "▸"@,
            ui::painted(
                p,
                To::Stderr,
                "2"@,
                "manage with `dotsync group list/rename/move/remove`"@,
            ),
        ),
    ]
}

/// The lines after an adoption; none when nothing went well.
pub fn adopt_notes(p: &Palette, group: &str, merged: bool, outcomes: &Vec<Outcome>) -> (r: Vec<
    String,
>)
    ensures
        r.deep_view() == (if well(outcomes.deep_view()) > 0 {
            adopt_note(*p, group@, merged)
        } else {
            seq![]
        }),
{
    let mut r: Vec<String> = Vec::new();
    if count_well(outcomes) > 0 {
        let note = if merged {
            ui::paint(p, To::Stderr, "2", " (added to existing group)")
        } else {
            "".to_owned()
        };
        r.push(
            ui::info(
                p,
                "group: ".to_owned().concat(
                    ui::paint(p, To::Stderr, "1", group).as_str(),
                ).concat(note.as_str()).as_str(),
            ),
        );
        r.push(
            ui::info(
                p,
                ui::paint(
                    p,
                    To::Stderr,
                    "2",
                    "manage with `dotsync group list/rename/move/remove`",
                ).as_str(),
            ),
        );
        assert(r.deep_view() =~= adopt_note(*p, group@, merged));
    } else {
        assert(r.deep_view() =~= Seq::<Seq<char>>::empty());
    }
    r
}

// ---------------------------------------------------------------------------
// The health check
// ---------------------------------------------------------------------------

/// The word for a level.
pub open spec fn level_text(level: Level) -> Seq<char> {
    match level {
        Level::Warn => "warn"@,
        Level::Error => "error"@,
    }
}

/// An issue's row in a document.
pub open spec fn issue_fields(i: IssueView) -> Seq<FieldView> {
    seq![
        json::text_view("name"@, i.name),
        json::text_view("level"@, level_text(i.level)),
        json::text_view("message"@, i.message),
        json::bool_view("fixable"@, i.fixable),
    ]
}

fn issue_row(i: &Issue) -> (r: Vec<Field>)
    ensures
        r.deep_view() == issue_fields(i@),
{
    let level = match i.level {
        Level::Warn => "warn",
        Level::Error => "error",
    };
    let mut r: Vec<Field> = Vec::new();
    r.push(json::text_field("name", i.name.as_str()));
    r.push(json::text_field("level", level));
    r.push(json::text_field("message", i.message.as_str()));
    r.push(json::bool_field("fixable", i.fixable));
    assert(r.deep_view() =~= issue_fields(i@));
    r
}

/// The document of a health check.
pub open spec fn doctor_view(report: ReportView) -> DocumentView {
    DocumentView {
        fields: seq![json::bool_view("healthy"@, report.is_healthy())],
        lists: seq![
            ListingView {
                key: "issues"@,
                rows: report.issues.map_values(|i: IssueView| issue_fields(i)),
            },
            ListingView { key: "fixed"@, rows: outcome_rows(report.fixed) },
        ],
    }
}

/// The document of a health check.
pub fn doctor_document(report: &Report) -> (r: Document)
    ensures
        r@ == doctor_view(report@),
{
    let ghost all = report.issues.deep_view();
    let ghost want = all.map_values(|i: IssueView| issue_fields(i));
    let mut rows: Vec<Vec<Field>> = Vec::new();
    let mut i: usize = 0;
    assert(rows.deep_view() =~= want.take(0));
    while i < report.issues.len()
        invariant
            i <= report.issues@.len(),
            all == report.issues.deep_view(),
            want == all.map_values(|i: IssueView| issue_fields(i)),
            rows.deep_view() == want.take(i as int),
        decreases report.issues@.len() - i,
    {
        let ghost before = rows.deep_view();
        rows.push(issue_row(&report.issues[i]));
        assert(all[i as int] == report.issues@[i as int]@);
        assert(rows.deep_view() =~= before.push(want[i as int]));
        assert(want.take(i + 1) =~= want.take(i as int).push(want[i as int]));
        i += 1;
    }
    assert(want.take(i as int) =~= want);
    let mut fields: Vec<Field> = Vec::new();
    fields.push(json::bool_field("healthy", report.healthy()));
    let mut lists: Vec<Listing> = Vec::new();
    lists.push(Listing { key: "issues".to_owned(), rows });
    lists.push(Listing { key: "fixed".to_owned(), rows: rows_for(&report.fixed) });
    let r = Document { fields, lists };
    assert(r@.fields =~= doctor_view(report@).fields);
    assert(r@.lists =~= doctor_view(report@).lists);
    r
}

/// The line for a repair.
pub open spec fn fixed_text(p: Palette, o: OutcomeView, home: Seq<char>) -> Seq<char> {
    ui::painted(p, To::Out, "32"@, "✓"@) + " fixed "@ + ui::painted(p, To::Out, "1"@, o.name)
        + "  "@ + o.action + " "@ + text::replace(o.detail, home, "~"@)
}

fn fixed_line(p: &Palette, o: &Outcome, home: &str) -> (r: String)
    ensures
        r@ == fixed_text(*p, o@, home@),
{
    ui::green(p, "✓").concat(" fixed ").concat(ui::bold(p, o.name.as_str()).as_str()).concat(
        "  ",
    ).concat(o.action.as_str()).concat(" ").concat(
        text::replace_text(o.detail.as_str(), home, "~").as_str(),
    )
}

/// The line for an issue: a mark, the name, and the message with the home base
/// shortened. One that can be repaired says how, unless repairs were made.
pub open spec fn issue_text(p: Palette, i: IssueView, home: Seq<char>, fix: bool) -> Seq<char> {
    let mark = match i.level {
        Level::Error => ui::painted(p, To::Out, "31"@, "✗"@),
        Level::Warn => ui::painted(p, To::Out, "33"@, "⚠"@),
    };
    let hint = if i.level == Level::Warn && i.fixable && !fix {
        ui::painted(p, To::Out, "2"@, "  (dotsync doctor --fix)"@)
    } else {
        ""@
    };
    "  "@ + mark + " "@ + ui::painted(p, To::Out, "1"@, text::replace(i.name, home, "~"@)) + "  "@
        + text::replace(i.message, home, "~"@) + hint
}

fn issue_line(p: &Palette, i: &Issue, home: &str, fix: bool) -> (r: String)
    ensures
        r@ == issue_text(*p, i@, home@, fix),
{
    let mark = match i.level {
        Level::Error => ui::red(p, "✗"),
        Level::Warn => ui::yellow(p, "⚠"),
    };
    let hint = if i.level == Level::Warn && i.fixable && !fix {
        ui::dim(p, "  (dotsync doctor --fix)")
    } else {
        "".to_owned()
    };
    "  ".to_owned().concat(mark.as_str()).concat(" ").concat(
        ui::bold(p, text::replace_text(i.name.as_str(), home, "~").as_str()).as_str(),
    ).concat("  ").concat(text::replace_text(i.message.as_str(), home, "~").as_str()).concat(
        hint.as_str(),
    )
}

/// A titled section of issues; none when there is no issue.
pub open spec fn section(
    p: Palette,
    title: Seq<char>,
    issues: Seq<IssueView>,
    home: Seq<char>,
    fix: bool,
) -> Seq<Seq<char>> {
    if issues.len() == 0 {
        seq![]
    } else {
        seq![""@, "  "@ + ui::painted(p, To::Out, "1"@, title)] + issues.map_values(
            |i: IssueView| issue_text(p, i, home, fix),
        )
    }
}

fn add_section(
    lines: &mut Vec<String>,
    p: &Palette,
    title: &str,
    issues: &Vec<Issue>,
    home: &str,
    fix: bool,
)
    ensures
        final(lines).deep_view() == old(lines).deep_view() + section(
            *p,
            title@,
            issues.deep_view(),
            home@,
            fix,
        ),
{
    let ghost before = lines.deep_view();
    let ghost all = issues.deep_view();
    let ghost want = all.map_values(|i: IssueView| issue_text(*p, i, home@, fix));
    if issues.len() == 0 {
        assert(before + Seq::<Seq<char>>::empty() =~= before);
        return ;
    }
    lines.push("".to_owned());
    lines.push("  ".to_owned().concat(ui::bold(p, title).as_str()));
    let ghost start = lines.deep_view();
    assert(start =~= before + seq![""@, "  "@ + ui::painted(*p, To::Out, "1"@, title@)]);
    let mut i: usize = 0;
    assert(start =~= start + want.take(0));
    while i < issues.len()
        invariant
            i <= issues@.len(),
            all == issues.deep_view(),
            want == all.map_values(|i: IssueView| issue_text(*p, i, home@, fix)),
            lines.deep_view() == start + want.take(i as int),
        decreases issues@.len() - i,
    {
        let ghost so_far = lines.deep_view();
        let line = issue_line(p, &issues[i], home, fix);
        lines.push(line);
        assert(all[i as int] == issues@[i as int]@);
        assert(want[i as int] == line@);
        assert(want.take(i + 1) =~= want.take(i as int).push(want[i as int]));
        assert(lines.deep_view() =~= so_far.push(line@));
        assert(lines.deep_view() =~= start + want.take(i + 1));
        i += 1;
    }
    assert(want.take(i as int) =~= want);
    assert(lines.deep_view() =~= before + section(*p, title@, all, home@, fix));
}

/// The parts of the closing line: problems, advisories and repairs, each unless
/// there are none.
pub open spec fn tally_parts(p: Palette, errors: nat, advice: nat, fixed: nat) -> Seq<Seq<char>> {
    let a = if errors > 0 {
        seq![
            ui::painted(
                p,
                To::Out,
                "31"@,
                number::decimal(errors) + " problem"@ + overview::ending(errors),
            ),
        ]
    } else {
        seq![]
    };
    let b = if advice > 0 {
        a.push(
            ui::painted(
                p,
                To::Out,
                "33"@,
                number::decimal(advice) + " advisor"@ + if advice == 1 {
                    "y"@
                } else {
                    "ies"@
                },
            ),
        )
    } else {
        a
    };
    if fixed > 0 {
        b.push(ui::painted(p, To::Out, "32"@, number::decimal(fixed) + " fixed"@))
    } else {
        b
    }
}

/// The closing line of a health check.
pub open spec fn verdict(p: Palette, errors: nat, advice: nat, fixed: nat) -> Seq<char> {
    if errors == 0 && advice == 0 && fixed == 0 {
        ui::painted(p, To::Out, "32"@, "✓"@) + " everything looks healthy"@
    } else {
        "  "@ + text::join(
            tally_parts(p, errors, advice, fixed),
            ui::painted(p, To::Out, "2"@, " · "@),
        )
    }
}

fn closing_line(p: &Palette, errors: usize, advice: usize, fixed: usize) -> (r: String)
    ensures
        r@ == verdict(*p, errors as nat, advice as nat, fixed as nat),
{
    if errors == 0 && advice == 0 && fixed == 0 {
        return ui::green(p, "✓").concat(" everything looks healthy");
    }
    let mut parts: Vec<String> = Vec::new();
    if errors > 0 {
        parts.push(
            ui::red(
                p,
                number::decimal_text(errors as u128).concat(" problem").concat(
                    overview::plural(errors),
                ).as_str(),
            ),
        );
    }
    if advice > 0 {
        let end = if advice == 1 {
            "y"
        } else {
            "ies"
        };
        parts.push(
            ui::yellow(
                p,
                number::decimal_text(advice as u128).concat(" advisor").concat(end).as_str(),
            ),
        );
    }
    if fixed > 0 {
        parts.push(
            ui::green(p, number::decimal_text(fixed as u128).concat(" fixed").as_str()),
        );
    }
    assert(text::texts(parts@) =~= tally_parts(
        *p,
        errors as nat,
        advice as nat,
        fixed as nat,
    ));
    "  ".to_owned().concat(
        text::join_text(parts.as_slice(), ui::dim(p, " · ").as_str()).as_str(),
    )
}

/// The lines of a health check: the repairs, the problems, the advisories, and
/// how many there are of each.
pub open spec fn doctor_text(p: Palette, report: ReportView, home: Seq<char>, fix: bool) -> Seq<
    Seq<char>,
> {
    let errors = doctor::of_level(report.issues, Level::Error);
    let advice = doctor::of_level(report.issues, Level::Warn);
    report.fixed.map_values(|o: OutcomeView| fixed_text(p, o, home)) + section(
        p,
        "Problems"@,
        errors,
        home,
        fix,
    ) + section(p, "Advisories"@, advice, home, fix) + seq![
        ""@,
        verdict(p, errors.len(), advice.len(), report.fixed.len()),
    ]
}

/// The lines of a health check.
pub fn doctor_lines(p: &Palette, report: &Report, home: &str, fix: bool) -> (r: Vec<String>)
    ensures
        r.deep_view() == doctor_text(*p, report@, home@, fix),
{
    let ghost all = report.fixed.deep_view();
    let ghost want = all.map_values(|o: OutcomeView| fixed_text(*p, o, home@));
    let mut lines: Vec<String> = Vec::new();
    let mut i: usize = 0;
    assert(lines.deep_view() =~= want.take(0));
    while i < report.fixed.len()
        invariant
            i <= report.fixed@.len(),
            all == report.fixed.deep_view(),
            want == all.map_values(|o: OutcomeView| fixed_text(*p, o, home@)),
            lines.deep_view() == want.take(i as int),
        decreases report.fixed@.len() - i,
    {
        let ghost before = lines.deep_view();
        let line = fixed_line(p, &report.fixed[i], home);
        lines.push(line);
        assert(all[i as int] == report.fixed@[i as int]@);
        assert(lines.deep_view() =~= before.push(want[i as int]));
        assert(want.take(i + 1) =~= want.take(i as int).push(want[i as int]));
        i += 1;
    }
    assert(want.take(i as int) =~= want);
    let errors = report.errors();
    let advice = report.advisories();
    assert(errors.deep_view().len() == errors@.len());
    assert(advice.deep_view().len() == advice@.len());
    add_section(&mut lines, p, "Problems", &errors, home, fix);
    add_section(&mut lines, p, "Advisories", &advice, home, fix);
    let ghost before = lines.deep_view();
    lines.push("".to_owned());
    let line = closing_line(p, errors.len(), advice.len(), report.fixed.len());
    lines.push(line);
    assert(lines.deep_view() =~= before + seq![""@, line@]);
    lines
}

/// Whether some item needs attention.
pub open spec fn any_problem(items: Seq<ItemView>) -> bool {
    exists|i: int| 0 <= i < items.len() && (#[trigger] items[i]).state.problem()
}

/// The hint to run a health check, when some item needs attention.
pub fn doctor_hint(p: &Palette, items: &Vec<Item>) -> (r: Option<String>)
    ensures
        r.deep_view() == (if any_problem(items.deep_view()) {
            Some(
                ui::painted(
                    *p,
                    To::Stderr,
                    "2"@,
                    "Other items need attention — run `dotsync doctor`."@,
                ),
            )
        } else {
            None
        }),
{
    let ghost all = items.deep_view();
    let mut i: usize = 0;
    while i < items.len()
        invariant
            i <= items@.len(),
            all == items.deep_view(),
            forall|j: int| 0 <= j < i ==> !(#[trigger] all[j]).state.problem(),
        decreases items@.len() - i,
    {
        if items[i].state.is_problem() {
            assert(all[i as int].state.problem());
            return Some(
                ui::paint(
                    p,
                    To::Stderr,
                    "2",
                    "Other items need attention — run `dotsync doctor`.",
                ),
            );
        }
        i += 1;
    }
    None
}

// ---------------------------------------------------------------------------
// Undo
// ---------------------------------------------------------------------------

/// A coarse age for a run, where both times are milliseconds since the epoch.
pub open spec fn age(id: nat, now: nat) -> Seq<char> {
    let secs: nat = if now > id {
        ((now - id) / 1000) as nat
    } else {
        0
    };
    if secs < 60 {
        number::decimal(secs) + "s ago"@
    } else if secs < 3600 {
        number::decimal(secs / 60) + "m ago"@
    } else if secs < 86400 {
        number::decimal(secs / 3600) + "h ago"@
    } else {
        number::decimal(secs / 86400) + "d ago"@
    }
}

/// A coarse age for a run.
pub fn undo_age(id: u128, now: u128) -> (r: String)
    ensures
        r@ == age(id as nat, now as nat),
{
    let secs: u128 = if now > id {
        (now - id) / 1000
    } else {
        0
    };
    if secs < 60 {
        number::decimal_text(secs).concat("s ago")
    } else if secs < 3600 {
        number::decimal_text(secs / 60).concat("m ago")
    } else if secs < 86400 {
        number::decimal_text(secs / 3600).concat("h ago")
    } else {
        number::decimal_text(secs / 86400).concat("d ago")
    }
}

/// The line for a recorded run.
pub open spec fn run_text(p: Palette, run: RunView, now: nat) -> Seq<char> {
    "  "@ + ui::painted(p, To::Out, "2"@, age(run.id, now)) + "  "@ + ui::painted(
        p,
        To::Out,
        "1"@,
        run.command,
    ) + "  "@ + ui::painted(
        p,
        To::Out,
        "2"@,
        number::decimal(run.actions.len()) + " item"@ + overview::ending(run.actions.len()),
    )
}

/// The lines for the recorded runs.
pub open spec fn runs_text(p: Palette, runs: Seq<RunView>, now: nat) -> Seq<Seq<char>> {
    if runs.len() == 0 {
        seq!["no undo history"@]
    } else {
        runs.map_values(|run: RunView| run_text(p, run, now))
    }
}

fn run_line(p: &Palette, run: &Run, now: u128) -> (r: String)
    ensures
        r@ == run_text(*p, run@, now as nat),
{
    let n = run.actions.len();
    assert(run@.actions.len() == n);
    "  ".to_owned().concat(ui::dim(p, undo_age(run.id, now).as_str()).as_str()).concat(
        "  ",
    ).concat(ui::bold(p, run.command.as_str()).as_str()).concat("  ").concat(
        ui::dim(
            p,
            number::decimal_text(n as u128).concat(" item").concat(overview::plural(n)).as_str(),
        ).as_str(),
    )
}

/// The lines for the recorded runs.
pub fn undo_lines(p: &Palette, runs: &Vec<Run>, now: u128) -> (r: Vec<String>)
    ensures
        r.deep_view() == runs_text(*p, runs.deep_view(), now as nat),
{
    let ghost all = runs.deep_view();
    let mut r: Vec<String> = Vec::new();
    if runs.len() == 0 {
        r.push("no undo history".to_owned());
        assert(r.deep_view() =~= runs_text(*p, all, now as nat));
        return r;
    }
    let ghost want = runs_text(*p, all, now as nat);
    let mut i: usize = 0;
    assert(r.deep_view() =~= want.take(0));
    while i < runs.len()
        invariant
            i <= runs@.len(),
            runs@.len() > 0,
            all == runs.deep_view(),
            want == runs_text(*p, all, now as nat),
            r.deep_view() == want.take(i as int),
        decreases runs@.len() - i,
    {
        let ghost before = r.deep_view();
        r.push(run_line(p, &runs[i], now));
        assert(all[i as int] == runs@[i as int]@);
        assert(r.deep_view() =~= before.push(want[i as int]));
        assert(want.take(i + 1) =~= want.take(i as int).push(want[i as int]));
        i += 1;
    }
    assert(want.take(i as int) =~= want);
    r
}

/// A run's row in a document.
pub open spec fn run_fields(run: RunView) -> Seq<FieldView> {
    seq![
        json::text_view("id"@, number::decimal(run.id)),
        json::text_view("command"@, run.command),
        json::count_view("items"@, run.actions.len()),
    ]
}

/// What programs are told of the recorded runs.
pub open spec fn runs_view(runs: Seq<RunView>) -> DocumentView {
    json::with_list(seq![], "runs"@, runs.map_values(|run: RunView| run_fields(run)))
}

/// The document of the recorded runs.
pub fn undo_document(runs: &Vec<Run>) -> (r: Document)
    ensures
        r@ == runs_view(runs.deep_view()),
{
    let ghost all = runs.deep_view();
    let ghost want = all.map_values(|run: RunView| run_fields(run));
    let mut rows: Vec<Vec<Field>> = Vec::new();
    let mut i: usize = 0;
    assert(rows.deep_view() =~= want.take(0));
    while i < runs.len()
        invariant
            i <= runs@.len(),
            all == runs.deep_view(),
            want == all.map_values(|run: RunView| run_fields(run)),
            rows.deep_view() == want.take(i as int),
        decreases runs@.len() - i,
    {
        let ghost before = rows.deep_view();
        let run = &runs[i];
        let mut row: Vec<Field> = Vec::new();
        row.push(json::text_field("id", number::decimal_text(run.id).as_str()));
        row.push(json::text_field("command", run.command.as_str()));
        row.push(json::count_field("items", run.actions.len()));
        assert(run@.actions.len() == run.actions@.len());
        assert(row.deep_view() =~= run_fields(run@));
        rows.push(row);
        assert(all[i as int] == run@);
        assert(rows.deep_view() =~= before.push(want[i as int]));
        assert(want.take(i + 1) =~= want.take(i as int).push(want[i as int]));
        i += 1;
    }
    assert(want.take(i as int) =~= want);
    let none: Vec<Field> = Vec::new();
    assert(none.deep_view() =~= Seq::<FieldView>::empty());
    json::list_document(none, "runs", rows)
}

// ---------------------------------------------------------------------------
// Groups
// ---------------------------------------------------------------------------

/// The lines for one group: its name, how many members it has, and each member.
pub open spec fn group_text(p: Palette, s: Seq<MappingView>, group: Seq<char>) -> Seq<Seq<char>> {
    let members = manage::member_names(s, group);
    seq![
        "  "@ + ui::painted(p, To::Out, "1"@, group) + "  "@ + ui::painted(
            p,
            To::Out,
            "2"@,
            number::decimal(members.len()) + " member"@ + overview::ending(members.len()),
        ),
    ] + members.map_values(|m: Seq<char>| "      "@ + m)
}

/// The lines for the groups, in order.
pub open spec fn groups_text(p: Palette, s: Seq<MappingView>, groups: Seq<Seq<char>>) -> Seq<
    Seq<char>,
>
    decreases groups.len(),
{
    if groups.len() == 0 {
        seq![]
    } else {
        groups_text(p, s, groups.drop_last()) + group_text(p, s, groups.last())
    }
}

fn add_group_lines(lines: &mut Vec<String>, p: &Palette, mappings: &MappingsFile, group: &str)
    ensures
        final(lines).deep_view() == old(lines).deep_view() + group_text(
            *p,
            mappings@.mappings,
            group@,
        ),
{
    let ghost before = lines.deep_view();
    let members = manage::members_of(mappings, group);
    let ghost all = members.deep_view();
    let n = members.len();
    assert(all.len() == n);
    let header = "  ".to_owned().concat(ui::bold(p, group).as_str()).concat("  ").concat(
        ui::dim(
            p,
            number::decimal_text(n as u128).concat(" member").concat(
                overview::plural(n),
            ).as_str(),
        ).as_str(),
    );
    lines.push(header);
    let ghost want = all.map_values(|m: Seq<char>| "      "@ + m);
    let ghost start = lines.deep_view();
    assert(start =~= before + seq![header@]);
    let mut i: usize = 0;
    assert(start =~= start + want.take(0));
    while i < members.len()
        invariant
            i <= members@.len(),
            all == members.deep_view(),
            want == all.map_values(|m: Seq<char>| "      "@ + m),
            lines.deep_view() == start + want.take(i as int),
        decreases members@.len() - i,
    {
        let ghost so_far = lines.deep_view();
        let line = "      ".to_owned().concat(members[i].as_str());
        lines.push(line);
        assert(all[i as int] == members@[i as int]@);
        assert(want[i as int] == line@);
        assert(want.take(i + 1) =~= want.take(i as int).push(want[i as int]));
        assert(lines.deep_view() =~= so_far.push(line@));
        assert(lines.deep_view() =~= start + want.take(i + 1));
        i += 1;
    }
    assert(want.take(i as int) =~= want);
    assert(lines.deep_view() =~= before + group_text(*p, mappings@.mappings, group@));
}

/// The lines that list the groups and their members.
pub fn group_lines(p: &Palette, mappings: &MappingsFile) -> (r: Vec<String>)
    ensures
        r.deep_view() == (if mappings@.group_names().len() == 0 {
            seq!["no groups yet — `dotsync adopt <path>` creates one"@]
        } else {
            groups_text(*p, mappings@.mappings, mappings@.group_names())
        }),
{
    let groups = mappings.groups();
    let ghost all = groups.deep_view();
    let ghost s = mappings@.mappings;
    let mut lines: Vec<String> = Vec::new();
    if groups.len() == 0 {
        lines.push("no groups yet — `dotsync adopt <path>` creates one".to_owned());
        assert(lines.deep_view() =~= seq!["no groups yet — `dotsync adopt <path>` creates one"@]);
        return lines;
    }
    let mut i: usize = 0;
    assert(lines.deep_view() =~= groups_text(*p, s, all.take(0)));
    while i < groups.len()
        invariant
            i <= groups@.len(),
            all == groups.deep_view(),
            s == mappings@.mappings,
            lines.deep_view() == groups_text(*p, s, all.take(i as int)),
        decreases groups@.len() - i,
    {
        assert(all.take(i + 1).drop_last() =~= all.take(i as int));
        assert(all.take(i + 1).last() == groups@[i as int]@);
        add_group_lines(&mut lines, p, mappings, groups[i].as_str());
        i += 1;
    }
    assert(all.take(i as int) =~= all);
    lines
}

/// A group's row in a document.
pub open spec fn group_fields(s: Seq<MappingView>, group: Seq<char>) -> Seq<FieldView> {
    seq![
        json::text_view("name"@, group),
        FieldView {
            key: "members"@,
            value: ValueView::Texts(manage::member_names(s, group)),
        },
    ]
}

/// What programs are told of the groups.
pub open spec fn groups_view(s: Seq<MappingView>, groups: Seq<Seq<char>>) -> DocumentView {
    json::with_list(
        seq![],
        "groups"@,
        groups.map_values(|g: Seq<char>| group_fields(s, g)),
    )
}

/// The document that lists the groups and their members.
pub fn group_document(mappings: &MappingsFile) -> (r: Document)
    ensures
        r@ == groups_view(mappings@.mappings, mappings@.group_names()),
{
    let groups = mappings.groups();
    let ghost all = groups.deep_view();
    let ghost s = mappings@.mappings;
    let ghost want = all.map_values(|g: Seq<char>| group_fields(s, g));
    let mut rows: Vec<Vec<Field>> = Vec::new();
    let mut i: usize = 0;
    assert(rows.deep_view() =~= want.take(0));
    while i < groups.len()
        invariant
            i <= groups@.len(),
            all == groups.deep_view(),
            s == mappings@.mappings,
            want == all.map_values(|g: Seq<char>| group_fields(s, g)),
            rows.deep_view() == want.take(i as int),
        decreases groups@.len() - i,
    {
        let ghost before = rows.deep_view();
        let g = groups[i].as_str();
        let mut row: Vec<Field> = Vec::new();
        row.push(json::text_field("name", g));
        row.push(
            Field {
                key: "members".to_owned(),
                value: Value::Texts(manage::members_of(mappings, g)),
            },
        );
        assert(row.deep_view() =~= group_fields(s, g@));
        rows.push(row);
        assert(all[i as int] == g@);
        assert(rows.deep_view() =~= before.push(want[i as int]));
        assert(want.take(i + 1) =~= want.take(i as int).push(want[i as int]));
        i += 1;
    }
    assert(want.take(i as int) =~= want);
    let none: Vec<Field> = Vec::new();
    assert(none.deep_view() =~= Seq::<FieldView>::empty());
    json::list_document(none, "groups", rows)
}

/// What programs are told of a group that was renamed.
pub open spec fn renamed_view(
    old_name: Seq<char>,
    new_name: Seq<char>,
    members: nat,
    merged: bool,
) -> DocumentView {
    json::plain(
        seq![
            json::text_view("renamed"@, old_name),
            json::text_view("to"@, new_name),
            json::count_view("members"@, members),
            json::bool_view("merged"@, merged),
        ],
    )
}

/// The document of a renamed group.
pub fn renamed_document(old_name: &str, new_name: &str, done: &Renamed) -> (r: Document)
    ensures
        r@ == renamed_view(old_name@, new_name@, done.members as nat, done.merged),
{
    let mut fields: Vec<Field> = Vec::new();
    fields.push(json::text_field("renamed", old_name));
    fields.push(json::text_field("to", new_name));
    fields.push(json::count_field("members", done.members));
    fields.push(json::bool_field("merged", done.merged));
    assert(fields.deep_view() =~= seq![
        json::text_view("renamed"@, old_name@),
        json::text_view("to"@, new_name@),
        json::count_view("members"@, done.members as nat),
        json::bool_view("merged"@, done.merged),
    ]);
    json::plain_document(fields)
}

/// The message for a renamed group.
pub fn renamed_message(old_name: &str, new_name: &str, done: &Renamed) -> (r: String)
    ensures
        r@ == "renamed group '"@ + old_name@ + "' → '"@ + new_name@ + "' — "@ + number::decimal(
            done.members as nat,
        ) + " member"@ + overview::ending(done.members as nat) + (if done.merged {
            " (merged into existing group)"@
        } else {
            ""@
        }),
{
    let note = if done.merged {
        " (merged into existing group)"
    } else {
        ""
    };
    "renamed group '".to_owned().concat(old_name).concat("' → '").concat(new_name).concat(
        "' — ",
    ).concat(number::decimal_text(done.members as u128).as_str()).concat(" member").concat(
        overview::plural(done.members),
    ).concat(note)
}

/// What programs are told of a mapping that was moved to a group.
pub open spec fn moved_view(name: Seq<char>, group: Seq<char>, created: bool) -> DocumentView {
    json::plain(
        seq![
            json::text_view("moved"@, name),
            json::text_view("group"@, group),
            json::bool_view("created"@, created),
        ],
    )
}

/// The document of a moved mapping.
pub fn moved_document(name: &str, group: &str, created: bool) -> (r: Document)
    ensures
        r@ == moved_view(name@, group@, created),
{
    let mut fields: Vec<Field> = Vec::new();
    fields.push(json::text_field("moved", name));
    fields.push(json::text_field("group", group));
    fields.push(json::bool_field("created", created));
    assert(fields.deep_view() =~= seq![
        json::text_view("moved"@, name@),
        json::text_view("group"@, group@),
        json::bool_view("created"@, created),
    ]);
    json::plain_document(fields)
}

/// The messages for a moved mapping; a new group is told of.
pub fn moved_messages(name: &str, group: &str, created: bool) -> (r: (String, Option<String>))
    ensures
        r.0@ == "moved "@ + name@ + " → group '"@ + group@ + "'"@,
        r.1.deep_view() == (if created {
            Some("created new group '"@ + group@ + "'"@)
        } else {
            None
        }),
{
    let first = "moved ".to_owned().concat(name).concat(" → group '").concat(group).concat("'");
    let second = if created {
        Some("created new group '".to_owned().concat(group).concat("'"))
    } else {
        None
    };
    (first, second)
}

// ---------------------------------------------------------------------------
// Configuration
// ---------------------------------------------------------------------------

/// The document of the resolved configuration.
pub fn config_document(cfg: &Config, config_path: &str, mappings: usize) -> (r: Document)
    ensures
        r@ == json::plain(
            seq![
                json::bool_view("configured"@, true),
                json::text_view("sync_dir"@, cfg@.sync_dir),
                json::text_view("home"@, cfg@.home),
                json::text_view("config"@, config_path@),
                json::count_view("mappings"@, mappings as nat),
            ],
        ),
{
    let mut fields: Vec<Field> = Vec::new();
    fields.push(json::bool_field("configured", true));
    fields.push(json::text_field("sync_dir", cfg.sync_dir.as_str()));
    fields.push(json::text_field("home", cfg.home.as_str()));
    fields.push(json::text_field("config", config_path));
    fields.push(json::count_field("mappings", mappings));
    assert(fields.deep_view() =~= seq![
        json::bool_view("configured"@, true),
        json::text_view("sync_dir"@, cfg@.sync_dir),
        json::text_view("home"@, cfg@.home),
        json::text_view("config"@, config_path@),
        json::count_view("mappings"@, mappings as nat),
    ]);
    json::plain_document(fields)
}

/// The lines of the resolved configuration.
pub fn config_lines(cfg: &Config, config_path: &str, mappings: usize) -> (r: Vec<String>)
    ensures
        r.deep_view() == seq![
            "sync folder : "@ + cfg@.sync_dir,
            "home base   : "@ + cfg@.home,
            "config      : "@ + config_path@,
            "mappings    : "@ + number::decimal(mappings as nat),
        ],
{
    let mut r: Vec<String> = Vec::new();
    r.push("sync folder : ".to_owned().concat(cfg.sync_dir.as_str()));
    r.push("home base   : ".to_owned().concat(cfg.home.as_str()));
    r.push("config      : ".to_owned().concat(config_path));
    r.push("mappings    : ".to_owned().concat(number::decimal_text(mappings as u128).as_str()));
    assert(r.deep_view() =~= seq![
        "sync folder : "@ + cfg@.sync_dir,
        "home base   : "@ + cfg@.home,
        "config      : "@ + config_path@,
        "mappings    : "@ + number::decimal(mappings as nat),
    ]);
    r
}

/// The lines that tell how a machine was set up; `note` is how its completions
/// were installed, if they were.
pub open spec fn setup_told(p: Palette, cfg: ConfigView, note: Option<Seq<char>>) -> Seq<Seq<char>> {
    seq![
        ui::marked(p, "32"@, "✓"@, "configured dotsync"@),
        ui::marked(
            p,
            "36"@,
            "▸"@,
            "sync folder : "@ + mapping::tilde_collapsed(cfg.sync_dir, cfg.home),
        ),
        ui::marked(p, "36"@, "▸"@, "home base   : "@ + cfg.home),
        ui::marked(
            p,
            "36"@,
            "▸"@,
            match note {
                Some(text) => text,
                None => "completions : run `dotsync completions <shell>` to install"@,
            },
        ),
    ]
}

/// The lines that tell how a machine was set up.
pub fn setup_lines(p: &Palette, cfg: &Config, note: &Option<String>) -> (r: Vec<String>)
    ensures
        r.deep_view() == setup_told(*p, cfg@, note.deep_view()),
{
    let mut r: Vec<String> = Vec::new();
    r.push(ui::ok(p, "configured dotsync"));
    let dir = mapping::collapse_tilde(cfg.sync_dir.as_str(), cfg.home.as_str());
    r.push(ui::info(p, "sync folder : ".to_owned().concat(dir.as_str()).as_str()));
    r.push(ui::info(p, "home base   : ".to_owned().concat(cfg.home.as_str()).as_str()));
    match note {
        Some(text) => r.push(ui::info(p, text.as_str())),
        None => r.push(
            ui::info(p, "completions : run `dotsync completions <shell>` to install"),
        ),
    }
    assert(r.deep_view() =~= setup_told(*p, cfg@, note.deep_view()));
    r
}

/// The line before the outcomes of undoing a run.
pub fn undo_heading(p: &Palette, command: &str, dry_run: bool) -> (r: String)
    ensures
        r@ == ui::marked(
            *p,
            "36"@,
            "▸"@,
            (if dry_run {
                "would undo"@
            } else {
                "undoing"@
            }) + " `"@ + command@ + "`"@,
        ),
{
    let verb = if dry_run {
        "would undo"
    } else {
        "undoing"
    };
    ui::info(p, verb.to_owned().concat(" `").concat(command).concat("`").as_str())
}

/// What programs are told of the configuration that was set up.
pub open spec fn setup_view(cfg: ConfigView) -> DocumentView {
    json::plain(
        seq![
            json::bool_view("configured"@, true),
            json::text_view("sync_dir"@, mapping::tilde_collapsed(cfg.sync_dir, cfg.home)),
            json::text_view("home"@, cfg.home),
        ],
    )
}

/// The document of a machine that was just set up.
pub fn setup_document(cfg: &Config) -> (r: Document)
    ensures
        r@ == setup_view(cfg@),
{
    let mut fields: Vec<Field> = Vec::new();
    fields.push(json::bool_field("configured", true));
    fields.push(
        json::text_field(
            "sync_dir",
            mapping::collapse_tilde(cfg.sync_dir.as_str(), cfg.home.as_str()).as_str(),
        ),
    );
    fields.push(json::text_field("home", cfg.home.as_str()));
    assert(fields.deep_view() =~= seq![
        json::bool_view("configured"@, true),
        json::text_view("sync_dir"@, mapping::tilde_collapsed(cfg@.sync_dir, cfg@.home)),
        json::text_view("home"@, cfg@.home),
    ]);
    json::plain_document(fields)
}

/// The warning when the document was written by a newer version than this one.
/// It only warns: it never prompts or blocks.
pub fn skew_warning(mappings: &MappingsFile) -> (r: Option<String>)
    ensures
        r.deep_view() == (match mapping::newer_stamp(mappings@.version) {
            Some(v) => Some(
                "dotsync.toml was written by a newer dotsync ("@ + v + "); this machine runs "@
                    + mapping::VERSION@
                    + ". Upgrade with `brew upgrade dotsync` so newer entries are understood."@,
            ),
            None => None,
        }),
{
    match mappings.newer_writer() {
        Some(v) => Some(
            "dotsync.toml was written by a newer dotsync (".to_owned().concat(v).concat(
                "); this machine runs ",
            ).concat(mapping::VERSION).concat(
                ". Upgrade with `brew upgrade dotsync` so newer entries are understood.",
            ),
        ),
        None => None,
    }
}

} // verus!
