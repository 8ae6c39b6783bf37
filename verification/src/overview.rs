//! The overview: the computed items as a dashboard for people and as a document
//! for programs.
use vstd::prelude::*;
use vstd::string::*;

use crate::config::{Config, ConfigView};
use crate::json;
use crate::json::{Document, DocumentView, Field, FieldView};
use crate::mapping;
use crate::number;
use crate::plan::{Item, ItemView, State, StateView};
use crate::text;
use crate::ui;
use crate::ui::{Palette, To};

verus! {

/// A short label and a note for an item's state. Paths in the note are
/// collapsed against the home base.
pub open spec fn label_of(item: ItemView, home: Seq<char>) -> (Seq<char>, Seq<char>) {
    match item.state {
        StateView::Skipped => ("skipped"@, item.mapping.systems() + " only"@),
        StateView::Linked => ("linked"@, ""@),
        StateView::Available => ("available"@, "in cloud, not linked here"@),
        StateView::LocalOnly => ("local-only"@, "adopt to start syncing"@),
        StateView::Healable => ("healable"@, "atomic-save clobber; content matches"@),
        StateView::Diverged => ("conflict"@, "local file differs from cloud"@),
        StateView::DanglingSelf => ("dangling"@, "cloud copy missing (not downloaded?)"@),
        StateView::ForeignSymlink(dest) => (
            "foreign"@,
            "-> "@ + mapping::tilde_collapsed(dest, home),
        ),
        StateView::Missing => ("missing"@, "neither local nor cloud"@),
    }
}

/// A short label and a note for an item's state.
pub fn label(item: &Item, home: &str) -> (r: (String, String))
    ensures
        (r.0@, r.1@) == label_of(item@, home@),
{
    match &item.state {
        State::Skipped => (
            "skipped".to_owned(),
            item.mapping.os_display().concat(" only"),
        ),
        State::Linked => ("linked".to_owned(), "".to_owned()),
        State::Available => ("available".to_owned(), "in cloud, not linked here".to_owned()),
        State::LocalOnly => ("local-only".to_owned(), "adopt to start syncing".to_owned()),
        State::Healable => (
            "healable".to_owned(),
            "atomic-save clobber; content matches".to_owned(),
        ),
        State::Diverged => ("conflict".to_owned(), "local file differs from cloud".to_owned()),
        State::DanglingSelf => (
            "dangling".to_owned(),
            "cloud copy missing (not downloaded?)".to_owned(),
        ),
        State::ForeignSymlink(dest) => (
            "foreign".to_owned(),
            "-> ".to_owned().concat(mapping::collapse_tilde(dest.as_str(), home).as_str()),
        ),
        State::Missing => ("missing".to_owned(), "neither local nor cloud".to_owned()),
    }
}

/// The colour of a state.
pub open spec fn colour_code(state: StateView) -> Seq<char> {
    match state {
        StateView::Linked => "32"@,
        StateView::Available => "36"@,
        StateView::LocalOnly => "36"@,
        StateView::Healable => "33"@,
        StateView::Diverged => "31"@,
        StateView::DanglingSelf => "31"@,
        StateView::ForeignSymlink(_) => "31"@,
        StateView::Skipped => "2"@,
        StateView::Missing => "2"@,
    }
}

/// A text in the colour of a state.
pub open spec fn coloured(p: Palette, state: StateView, s: Seq<char>) -> Seq<char> {
    ui::painted(p, To::Out, colour_code(state), s)
}

/// A text in the colour of a state.
pub fn colorize(p: &Palette, state: &State, s: &str) -> (r: String)
    ensures
        r@ == coloured(*p, state@, s@),
{
    match state {
        State::Linked => ui::green(p, s),
        State::Available | State::LocalOnly => ui::cyan(p, s),
        State::Healable => ui::yellow(p, s),
        State::Diverged | State::DanglingSelf | State::ForeignSymlink(_) => ui::red(p, s),
        State::Skipped | State::Missing => ui::dim(p, s),
    }
}

/// The mark shown next to a row, without its colour.
pub open spec fn mark_of(state: StateView) -> Seq<char> {
    match state {
        StateView::Linked => "[x]"@,
        StateView::Available => "[ ]"@,
        StateView::LocalOnly => "[ ]"@,
        StateView::Healable => "[~]"@,
        StateView::Diverged => "[!]"@,
        StateView::DanglingSelf => "[!]"@,
        StateView::ForeignSymlink(_) => "[!]"@,
        StateView::Skipped => "   "@,
        StateView::Missing => "   "@,
    }
}

/// The mark shown next to a row.
pub fn symbol(p: &Palette, state: &State) -> (r: String)
    ensures
        r@ == coloured(*p, state@, mark_of(state@)),
{
    let raw = match state {
        State::Linked => "[x]",
        State::Available | State::LocalOnly => "[ ]",
        State::Healable => "[~]",
        State::Diverged | State::DanglingSelf | State::ForeignSymlink(_) => "[!]",
        State::Skipped | State::Missing => "   ",
    };
    colorize(p, state, raw)
}

// ---------------------------------------------------------------------------
// The summary
// ---------------------------------------------------------------------------

/// The summary's buckets, in the order in which they are shown.
#[derive(Debug, Clone, Copy, PartialEq, Eq, Structural)]
pub enum Bucket {
    Linked,
    Available,
    Healable,
    Conflict,
    Dangling,
    LocalOnly,
    Skipped,
}

impl Bucket {
    /// Whether a state counts in the bucket.
    pub open spec fn takes(self, state: StateView) -> bool {
        match self {
            Bucket::Linked => state is Linked,
            Bucket::Available => state is Available,
            Bucket::Healable => state is Healable,
            Bucket::Conflict => state is Diverged || state is ForeignSymlink,
            Bucket::Dangling => state is DanglingSelf,
            Bucket::LocalOnly => state is LocalOnly,
            Bucket::Skipped => state is Skipped,
        }
    }

    /// The bucket's word and colour.
    pub open spec fn look(self) -> (Seq<char>, Seq<char>) {
        match self {
            Bucket::Linked => ("linked"@, "32"@),
            Bucket::Available => ("available"@, "36"@),
            Bucket::Healable => ("healable"@, "33"@),
            Bucket::Conflict => ("conflict"@, "31"@),
            Bucket::Dangling => ("dangling"@, "31"@),
            Bucket::LocalOnly => ("local-only"@, "36"@),
            Bucket::Skipped => ("skipped"@, "2"@),
        }
    }

    fn holds(&self, state: &State) -> (r: bool)
        ensures
            r == self.takes(state@),
    {
        match self {
            Bucket::Linked => matches!(state, State::Linked),
            Bucket::Available => matches!(state, State::Available),
            Bucket::Healable => matches!(state, State::Healable),
            Bucket::Conflict => matches!(state, State::Diverged | State::ForeignSymlink(_)),
            Bucket::Dangling => matches!(state, State::DanglingSelf),
            Bucket::LocalOnly => matches!(state, State::LocalOnly),
            Bucket::Skipped => matches!(state, State::Skipped),
        }
    }

    fn word(&self) -> (r: &'static str)
        ensures
            r@ == self.look().0,
    {
        match self {
            Bucket::Linked => "linked",
            Bucket::Available => "available",
            Bucket::Healable => "healable",
            Bucket::Conflict => "conflict",
            Bucket::Dangling => "dangling",
            Bucket::LocalOnly => "local-only",
            Bucket::Skipped => "skipped",
        }
    }

    fn code(&self) -> (r: &'static str)
        ensures
            r@ == self.look().1,
    {
        match self {
            Bucket::Linked => "32",
            Bucket::Available => "36",
            Bucket::Healable => "33",
            Bucket::Conflict => "31",
            Bucket::Dangling => "31",
            Bucket::LocalOnly => "36",
            Bucket::Skipped => "2",
        }
    }
}

/// How many items count in a bucket.
pub open spec fn tally(items: Seq<ItemView>, bucket: Bucket) -> nat
    decreases items.len(),
{
    if items.len() == 0 {
        0
    } else {
        tally(items.drop_last(), bucket) + if bucket.takes(items.last().state) {
            1nat
        } else {
            0nat
        }
    }
}

fn count(items: &Vec<Item>, bucket: Bucket) -> (r: usize)
    ensures
        r == tally(items.deep_view(), bucket),
{
    let ghost all = items.deep_view();
    let mut n: usize = 0;
    let mut i: usize = 0;
    assert(all.take(0) =~= Seq::<ItemView>::empty());
    while i < items.len()
        invariant
            n <= i <= items@.len(),
            all == items.deep_view(),
            n == tally(all.take(i as int), bucket),
        decreases items@.len() - i,
    {
        assert(all.take(i + 1).drop_last() =~= all.take(i as int));
        assert(all.take(i + 1).last() == items@[i as int]@);
        if bucket.holds(&items[i].state) {
            n += 1;
        }
        i += 1;
    }
    assert(all.take(i as int) =~= all);
    n
}

/// The parts of the summary, with another bucket's part after them unless the
/// bucket is empty.
pub open spec fn with_bucket(
    parts: Seq<Seq<char>>,
    p: Palette,
    items: Seq<ItemView>,
    bucket: Bucket,
) -> Seq<Seq<char>> {
    let n = tally(items, bucket);
    if n > 0 {
        parts.push(
            ui::painted(
                p,
                To::Out,
                bucket.look().1,
                number::decimal(n) + " "@ + bucket.look().0,
            ),
        )
    } else {
        parts
    }
}

fn add_bucket(parts: &mut Vec<String>, p: &Palette, items: &Vec<Item>, bucket: Bucket)
    ensures
        final(parts).deep_view() == with_bucket(
            old(parts).deep_view(),
            *p,
            items.deep_view(),
            bucket,
        ),
{
    let ghost before = parts.deep_view();
    let n = count(items, bucket);
    if n > 0 {
        let part = ui::paint(
            p,
            To::Out,
            bucket.code(),
            number::decimal_text(n as u128).concat(" ").concat(bucket.word()).as_str(),
        );
        parts.push(part);
        assert(parts.deep_view() =~= before.push(part@));
    }
}

/// The parts of the summary.
pub open spec fn summary_parts(p: Palette, items: Seq<ItemView>) -> Seq<Seq<char>> {
    let a = with_bucket(seq![], p, items, Bucket::Linked);
    let b = with_bucket(a, p, items, Bucket::Available);
    let c = with_bucket(b, p, items, Bucket::Healable);
    let d = with_bucket(c, p, items, Bucket::Conflict);
    let e = with_bucket(d, p, items, Bucket::Dangling);
    let f = with_bucket(e, p, items, Bucket::LocalOnly);
    with_bucket(f, p, items, Bucket::Skipped)
}

/// The summary: how many items are in each state, such as
/// `3 linked · 1 available`.
pub open spec fn summary(p: Palette, items: Seq<ItemView>) -> Seq<char> {
    text::join(summary_parts(p, items), ui::painted(p, To::Out, "2"@, " · "@))
}

/// A compact, coloured count of the states.
pub fn summarize(p: &Palette, items: &Vec<Item>) -> (r: String)
    ensures
        r@ == summary(*p, items.deep_view()),
{
    let mut parts: Vec<String> = Vec::new();
    assert(parts.deep_view() =~= Seq::<Seq<char>>::empty());
    add_bucket(&mut parts, p, items, Bucket::Linked);
    add_bucket(&mut parts, p, items, Bucket::Available);
    add_bucket(&mut parts, p, items, Bucket::Healable);
    add_bucket(&mut parts, p, items, Bucket::Conflict);
    add_bucket(&mut parts, p, items, Bucket::Dangling);
    add_bucket(&mut parts, p, items, Bucket::LocalOnly);
    add_bucket(&mut parts, p, items, Bucket::Skipped);
    assert(parts.deep_view() =~= text::texts(parts@));
    text::join_text(parts.as_slice(), ui::dim(p, " · ").as_str())
}

// ---------------------------------------------------------------------------
// The dashboard
// ---------------------------------------------------------------------------

/// So many blanks.
pub open spec fn blanks(n: nat) -> Seq<char> {
    Seq::new(n, |i: int| ' ')
}

/// So many blanks.
pub fn blank(n: usize) -> (r: String)
    ensures
        r@ == blanks(n as nat),
{
    let mut r = String::new();
    let mut i: usize = 0;
    assert(r@ =~= blanks(0));
    while i < n
        invariant
            i <= n,
            r@ == blanks(i as nat),
        decreases n - i,
    {
        r.push(' ');
        assert(r@ =~= blanks((i + 1) as nat));
        i += 1;
    }
    r
}

/// How many blanks fill a text up to a width.
pub open spec fn gap(len: nat, width: nat) -> nat {
    if width > len {
        (width - len) as nat
    } else {
        0
    }
}

/// The width of the name column: the longest name, and at least four.
pub open spec fn name_width(items: Seq<ItemView>) -> nat
    decreases items.len(),
{
    if items.len() == 0 {
        4
    } else {
        let w = name_width(items.drop_last());
        let n = items.last().mapping.name.len();
        if n > w {
            n
        } else {
            w
        }
    }
}

fn column(items: &Vec<Item>) -> (r: usize)
    ensures
        r == name_width(items.deep_view()),
{
    let ghost all = items.deep_view();
    let mut w: usize = 4;
    let mut i: usize = 0;
    assert(all.take(0) =~= Seq::<ItemView>::empty());
    while i < items.len()
        invariant
            i <= items@.len(),
            all == items.deep_view(),
            w == name_width(all.take(i as int)),
        decreases items@.len() - i,
    {
        assert(all.take(i + 1).drop_last() =~= all.take(i as int));
        assert(all.take(i + 1).last() == items@[i as int]@);
        let n = text::chars(items[i].name()).len();
        if n > w {
            w = n;
        }
        i += 1;
    }
    assert(all.take(i as int) =~= all);
    w
}

/// One row of the dashboard. The name links to the cloud copy and is filled up
/// to the column by its visible width.
pub open spec fn row(
    p: Palette,
    item: ItemView,
    home: Seq<char>,
    width: nat,
    indent: nat,
) -> Seq<char> {
    let name = item.mapping.name;
    let secret = match item.mapping.mode {
        Some(mode) => ui::painted(p, To::Out, "2"@, " secret "@ + mode),
        None => ""@,
    };
    let note = if label_of(item, home).1.len() == 0 {
        ""@
    } else {
        "  "@ + ui::painted(p, To::Out, "2"@, label_of(item, home).1)
    };
    "  "@ + blanks(indent) + coloured(p, item.state, mark_of(item.state)) + " "@ + ui::linked(
        p,
        name,
        "file://"@ + item.source,
    ) + blanks(gap(name.len(), width)) + "  "@ + coloured(p, item.state, label_of(item, home).0)
        + secret + note
}

/// One row of the dashboard.
pub fn print_row(p: &Palette, item: &Item, home: &str, width: usize, indent: usize) -> (r: String)
    ensures
        r@ == row(*p, item@, home@, width as nat, indent as nat),
{
    let (lab, plain_note) = label(item, home);
    let secret = match &item.mapping.mode {
        Some(mode) => ui::dim(p, " secret ".to_owned().concat(mode.as_str()).as_str()),
        None => "".to_owned(),
    };
    let note = if text::chars(plain_note.as_str()).len() == 0 {
        "".to_owned()
    } else {
        "  ".to_owned().concat(ui::dim(p, plain_note.as_str()).as_str())
    };
    let name = item.name();
    let linked = ui::hyperlink(
        p,
        name,
        "file://".to_owned().concat(item.source.as_str()).as_str(),
    );
    let n = text::chars(name).len();
    let fill: usize = if width > n {
        width - n
    } else {
        0
    };
    "  ".to_owned().concat(blank(indent).as_str()).concat(
        symbol(p, &item.state).as_str(),
    ).concat(" ").concat(linked.as_str()).concat(blank(fill).as_str()).concat("  ").concat(
        colorize(p, &item.state, lab.as_str()).as_str(),
    ).concat(secret.as_str()).concat(note.as_str())
}

/// The groups of the items, in the order in which they are first seen.
pub open spec fn groups_seen(items: Seq<ItemView>) -> Seq<Seq<char>>
    decreases items.len(),
{
    if items.len() == 0 {
        seq![]
    } else {
        let front = groups_seen(items.drop_last());
        match items.last().mapping.group {
            Some(g) => if front.contains(g) {
                front
            } else {
                front.push(g)
            },
            None => front,
        }
    }
}

/// The groups of the items, in the order in which they are first seen.
pub fn group_order(items: &Vec<Item>) -> (r: Vec<String>)
    ensures
        r.deep_view() == groups_seen(items.deep_view()),
{
    let ghost all = items.deep_view();
    let mut r: Vec<String> = Vec::new();
    let mut i: usize = 0;
    assert(r.deep_view() =~= groups_seen(all.take(0)));
    while i < items.len()
        invariant
            i <= items@.len(),
            all == items.deep_view(),
            r.deep_view() == groups_seen(all.take(i as int)),
        decreases items@.len() - i,
    {
        let ghost before = r.deep_view();
        assert(all.take(i + 1).drop_last() =~= all.take(i as int));
        assert(all.take(i + 1).last() == items@[i as int]@);
        if let Some(g) = &items[i].mapping.group {
            if !text::list_has(&r, g.as_str()) {
                r.push(g.clone());
                assert(r.deep_view() =~= before.push(g@));
            }
        }
        i += 1;
    }
    assert(all.take(i as int) =~= all);
    r
}

/// The rows of the items with that group (or with none), in order.
pub open spec fn rows_of(
    p: Palette,
    items: Seq<ItemView>,
    group: Option<Seq<char>>,
    home: Seq<char>,
    width: nat,
    indent: nat,
) -> Seq<Seq<char>>
    decreases items.len(),
{
    if items.len() == 0 {
        seq![]
    } else {
        let front = rows_of(p, items.drop_last(), group, home, width, indent);
        if items.last().mapping.group == group {
            front.push(row(p, items.last(), home, width, indent))
        } else {
            front
        }
    }
}

/// Whether two labels are the same.
pub fn same_label(a: &Option<String>, b: &Option<String>) -> (r: bool)
    ensures
        r == (a.deep_view() == b.deep_view()),
{
    match (a, b) {
        (Some(x), Some(y)) => text::same(x.as_str(), y.as_str()),
        (None, None) => true,
        _ => false,
    }
}

fn add_rows(
    lines: &mut Vec<String>,
    p: &Palette,
    items: &Vec<Item>,
    group: &Option<String>,
    home: &str,
    width: usize,
    indent: usize,
)
    ensures
        final(lines).deep_view() == old(lines).deep_view() + rows_of(
            *p,
            items.deep_view(),
            group.deep_view(),
            home@,
            width as nat,
            indent as nat,
        ),
{
    let ghost start = lines.deep_view();
    let ghost all = items.deep_view();
    let ghost g = group.deep_view();
    let mut i: usize = 0;
    assert(start =~= start + rows_of(*p, all.take(0), g, home@, width as nat, indent as nat));
    while i < items.len()
        invariant
            i <= items@.len(),
            all == items.deep_view(),
            g == group.deep_view(),
            lines.deep_view() == start + rows_of(
                *p,
                all.take(i as int),
                g,
                home@,
                width as nat,
                indent as nat,
            ),
        decreases items@.len() - i,
    {
        let ghost before = lines.deep_view();
        let item = &items[i];
        assert(all.take(i + 1).drop_last() =~= all.take(i as int));
        assert(all.take(i + 1).last() == item@);
        if same_label(&item.mapping.group, group) {
            let line = print_row(p, item, home, width, indent);
            lines.push(line);
            assert(lines.deep_view() =~= before.push(line@));
        }
        assert(lines.deep_view() =~= start + rows_of(
            *p,
            all.take(i + 1),
            g,
            home@,
            width as nat,
            indent as nat,
        ));
        i += 1;
    }
    assert(all.take(i as int) =~= all);
}

/// How many items a group has, and how many of them are linked.
pub open spec fn group_counts(items: Seq<ItemView>, group: Seq<char>) -> (nat, nat)
    decreases items.len(),
{
    if items.len() == 0 {
        (0, 0)
    } else {
        let (members, linked) = group_counts(items.drop_last(), group);
        if items.last().mapping.group == Some(group) {
            (
                members + 1,
                if items.last().state is Linked {
                    linked + 1
                } else {
                    linked
                },
            )
        } else {
            (members, linked)
        }
    }
}

/// How many items a group has, and how many of them are linked.
pub fn count_group(items: &Vec<Item>, group: &str) -> (r: (usize, usize))
    ensures
        (r.0 as nat, r.1 as nat) == group_counts(items.deep_view(), group@),
{
    let ghost all = items.deep_view();
    let mut members: usize = 0;
    let mut linked: usize = 0;
    let mut i: usize = 0;
    assert(all.take(0) =~= Seq::<ItemView>::empty());
    while i < items.len()
        invariant
            linked <= members <= i <= items@.len(),
            all == items.deep_view(),
            (members as nat, linked as nat) == group_counts(all.take(i as int), group@),
        decreases items@.len() - i,
    {
        assert(all.take(i + 1).drop_last() =~= all.take(i as int));
        assert(all.take(i + 1).last() == items@[i as int]@);
        if text::is_label(&items[i].mapping.group, group) {
            members += 1;
            if items[i].state.is_linked() {
                linked += 1;
            }
        }
        i += 1;
    }
    assert(all.take(i as int) =~= all);
    (members, linked)
}

/// A group's header and the rows of its members.
pub open spec fn group_block(
    p: Palette,
    items: Seq<ItemView>,
    group: Seq<char>,
    home: Seq<char>,
    width: nat,
) -> Seq<Seq<char>> {
    let (members, linked) = group_counts(items, group);
    seq![
        "  "@ + ui::painted(p, To::Out, "1"@, group) + "  "@ + ui::painted(
            p,
            To::Out,
            "2"@,
            "group · "@ + number::decimal(linked) + "/"@ + number::decimal(members) + " linked"@,
        ),
    ] + rows_of(p, items, Some(group), home, width, 4)
}

/// The blocks of the groups, in order.
pub open spec fn group_blocks(
    p: Palette,
    items: Seq<ItemView>,
    groups: Seq<Seq<char>>,
    home: Seq<char>,
    width: nat,
) -> Seq<Seq<char>>
    decreases groups.len(),
{
    if groups.len() == 0 {
        seq![]
    } else {
        group_blocks(p, items, groups.drop_last(), home, width) + group_block(
            p,
            items,
            groups.last(),
            home,
            width,
        )
    }
}

fn add_group(
    lines: &mut Vec<String>,
    p: &Palette,
    items: &Vec<Item>,
    group: &String,
    home: &str,
    width: usize,
)
    ensures
        final(lines).deep_view() == old(lines).deep_view() + group_block(
            *p,
            items.deep_view(),
            group@,
            home@,
            width as nat,
        ),
{
    let ghost before = lines.deep_view();
    let (members, linked) = count_group(items, group.as_str());
    let note = "group · ".to_owned().concat(number::decimal_text(linked as u128).as_str()).concat(
        "/",
    ).concat(number::decimal_text(members as u128).as_str()).concat(" linked");
    let header = "  ".to_owned().concat(ui::bold(p, group.as_str()).as_str()).concat("  ").concat(
        ui::dim(p, note.as_str()).as_str(),
    );
    lines.push(header);
    assert(lines.deep_view() =~= before.push(header@));
    let label: Option<String> = Some(group.clone());
    add_rows(lines, p, items, &label, home, width, 4);
    assert(lines.deep_view() =~= before + group_block(
        *p,
        items.deep_view(),
        group@,
        home@,
        width as nat,
    ));
}

/// The ending of a counted noun.
pub open spec fn ending(n: nat) -> Seq<char> {
    if n == 1 {
        ""@
    } else {
        "s"@
    }
}

/// The ending of a counted noun.
pub fn plural(n: usize) -> (r: &'static str)
    ensures
        r@ == ending(n as nat),
{
    if n == 1 {
        ""
    } else {
        "s"
    }
}

/// The lines above the rows.
pub open spec fn heading(p: Palette, items: Seq<ItemView>, cfg: ConfigView) -> Seq<Seq<char>> {
    let top = seq![
        ""@,
        "  "@ + ui::painted(p, To::Out, "1"@, "dotsync"@) + "  "@ + ui::painted(
            p,
            To::Out,
            "2"@,
            mapping::tilde_collapsed(cfg.sync_dir, cfg.home),
        ),
    ];
    if items.len() == 0 {
        top
    } else {
        let about = "  "@ + ui::painted(
            p,
            To::Out,
            "2"@,
            "home "@ + mapping::tilde_collapsed(cfg.home, cfg.home) + " · "@ + number::decimal(
                items.len(),
            ) + " mapping"@ + ending(items.len()),
        );
        let counts = if summary(p, items).len() == 0 {
            seq![]
        } else {
            seq!["  "@ + summary(p, items)]
        };
        top.push(about) + counts
    }
}

/// The lines of the dashboard.
pub open spec fn dashboard(p: Palette, items: Seq<ItemView>, cfg: ConfigView) -> Seq<Seq<char>> {
    if items.len() == 0 {
        heading(p, items, cfg) + seq![
            ""@,
            "  "@ + ui::painted(
                p,
                To::Out,
                "2"@,
                "no mappings yet — `dotsync adopt <path>` to add one"@,
            ),
            ""@,
        ]
    } else {
        let width = name_width(items);
        heading(p, items, cfg) + seq![""@] + group_blocks(
            p,
            items,
            groups_seen(items),
            cfg.home,
            width,
        ) + rows_of(p, items, None, cfg.home, width, 0) + seq![""@]
    }
}

fn add_heading(lines: &mut Vec<String>, p: &Palette, items: &Vec<Item>, cfg: &Config)
    ensures
        final(lines).deep_view() == old(lines).deep_view() + heading(*p, items.deep_view(), cfg@),
{
    let ghost before = lines.deep_view();
    let home = cfg.home.as_str();
    lines.push("".to_owned());
    lines.push(
        "  ".to_owned().concat(ui::bold(p, "dotsync").as_str()).concat("  ").concat(
            ui::dim(p, mapping::collapse_tilde(cfg.sync_dir.as_str(), home).as_str()).as_str(),
        ),
    );
    if items.len() > 0 {
        let note = "home ".to_owned().concat(
            mapping::collapse_tilde(home, home).as_str(),
        ).concat(" · ").concat(number::decimal_text(items.len() as u128).as_str()).concat(
            " mapping",
        ).concat(plural(items.len()));
        lines.push("  ".to_owned().concat(ui::dim(p, note.as_str()).as_str()));
        let counts = summarize(p, items);
        if text::chars(counts.as_str()).len() > 0 {
            lines.push("  ".to_owned().concat(counts.as_str()));
        }
    }
    assert(lines.deep_view() =~= before + heading(*p, items.deep_view(), cfg@));
}

/// The lines of the read-only dashboard: members of a group under its header, in
/// the order in which the groups are first seen, then what has no group.
pub fn render(p: &Palette, items: &Vec<Item>, cfg: &Config) -> (r: Vec<String>)
    ensures
        r.deep_view() == dashboard(*p, items.deep_view(), cfg@),
{
    let ghost seen = items.deep_view();
    let mut lines: Vec<String> = Vec::new();
    assert(lines.deep_view() =~= Seq::<Seq<char>>::empty());
    add_heading(&mut lines, p, items, cfg);
    let ghost top = lines.deep_view();
    assert(top =~= heading(*p, seen, cfg@));
    lines.push("".to_owned());
    if items.len() == 0 {
        lines.push(
            "  ".to_owned().concat(
                ui::dim(p, "no mappings yet — `dotsync adopt <path>` to add one").as_str(),
            ),
        );
        lines.push("".to_owned());
        assert(lines.deep_view() =~= dashboard(*p, seen, cfg@));
        return lines;
    }
    let home = cfg.home.as_str();
    let width = column(items);
    let groups = group_order(items);
    let ghost all = groups.deep_view();
    let ghost start = lines.deep_view();
    assert(start =~= top + seq![""@]);
    let mut i: usize = 0;
    assert(start =~= start + group_blocks(*p, seen, all.take(0), home@, width as nat));
    while i < groups.len()
        invariant
            i <= groups@.len(),
            all == groups.deep_view(),
            seen == items.deep_view(),
            lines.deep_view() == start + group_blocks(
                *p,
                seen,
                all.take(i as int),
                home@,
                width as nat,
            ),
        decreases groups@.len() - i,
    {
        assert(all.take(i + 1).drop_last() =~= all.take(i as int));
        assert(all.take(i + 1).last() == groups@[i as int]@);
        add_group(&mut lines, p, items, &groups[i], home, width);
        assert(lines.deep_view() =~= start + group_blocks(
            *p,
            seen,
            all.take(i + 1),
            home@,
            width as nat,
        ));
        i += 1;
    }
    assert(all.take(i as int) =~= all);
    let none: Option<String> = None;
    add_rows(&mut lines, p, items, &none, home, width, 0);
    lines.push("".to_owned());
    assert(lines.deep_view() =~= dashboard(*p, seen, cfg@));
    lines
}

// ---------------------------------------------------------------------------
// The document
// ---------------------------------------------------------------------------

/// An item's row in the document.
pub open spec fn item_fields(item: ItemView) -> Seq<FieldView> {
    seq![
        json::text_view("name"@, item.mapping.name),
        json::text_view("state"@, item.state.token()),
        json::option_view("target"@, item.target),
        json::text_view("source"@, item.source),
        json::bool_view("linked"@, item.state is Linked),
        json::bool_view("secret"@, item.mapping.mode is Some),
        json::option_view("mode"@, item.mapping.mode),
    ]
}

/// The document that stands for the items.
pub open spec fn status_document(items: Seq<ItemView>, cfg: ConfigView) -> DocumentView {
    json::with_list(
        seq![json::text_view("sync_dir"@, cfg.sync_dir), json::text_view("home"@, cfg.home)],
        "mappings"@,
        items.map_values(|item: ItemView| item_fields(item)),
    )
}

fn item_row(item: &Item) -> (r: Vec<Field>)
    ensures
        r.deep_view() == item_fields(item@),
{
    let mut r: Vec<Field> = Vec::new();
    r.push(json::text_field("name", item.name()));
    r.push(json::text_field("state", item.state.code()));
    r.push(json::option_field("target", &item.target));
    r.push(json::text_field("source", item.source.as_str()));
    r.push(json::bool_field("linked", item.state.is_linked()));
    r.push(json::bool_field("secret", item.is_secret()));
    r.push(json::option_field("mode", &item.mapping.mode));
    assert(r.deep_view() =~= item_fields(item@));
    r
}

/// The document that stands for the items.
pub fn to_json(items: &Vec<Item>, cfg: &Config) -> (r: Document)
    ensures
        r@ == status_document(items.deep_view(), cfg@),
{
    let ghost all = items.deep_view();
    let ghost want = all.map_values(|item: ItemView| item_fields(item));
    let mut rows: Vec<Vec<Field>> = Vec::new();
    let mut i: usize = 0;
    assert(rows.deep_view() =~= want.take(0));
    while i < items.len()
        invariant
            i <= items@.len(),
            all == items.deep_view(),
            want == all.map_values(|item: ItemView| item_fields(item)),
            rows.deep_view() == want.take(i as int),
        decreases items@.len() - i,
    {
        let ghost before = rows.deep_view();
        let row = item_row(&items[i]);
        rows.push(row);
        assert(all[i as int] == items@[i as int]@);
        assert(rows.deep_view() =~= before.push(want[i as int]));
        assert(want.take(i + 1) =~= want.take(i as int).push(want[i as int]));
        i += 1;
    }
    assert(want.take(i as int) =~= want);
    let mut fields: Vec<Field> = Vec::new();
    fields.push(json::text_field("sync_dir", cfg.sync_dir.as_str()));
    fields.push(json::text_field("home", cfg.home.as_str()));
    assert(fields.deep_view() =~= seq![
        json::text_view("sync_dir"@, cfg@.sync_dir),
        json::text_view("home"@, cfg@.home),
    ]);
    json::list_document(fields, "mappings", rows)
}

} // verus!
