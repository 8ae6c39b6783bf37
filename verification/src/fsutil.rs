//! Filesystem rules shared across planning and applying: sibling names, what
//! looks secret, secret permissions, and the primitive steps that linking,
//! removing, copying and moving are made of.
use vstd::prelude::*;
use vstd::string::*;

use crate::number;
use crate::path;
use crate::text;
use crate::tree;
use crate::tree::{Child, Entry, Node, Tree};

verus! {

// ---------------------------------------------------------------------------
// Sibling names
// ---------------------------------------------------------------------------

/// The temporary path next to `p`.
pub open spec fn temp_name(p: Seq<char>) -> Seq<char> {
    p + ".dotsync-tmp"@
}

/// A temporary path next to `p` (in the same directory, so that a rename into
/// place is atomic).
pub fn temp_sibling(p: &str) -> (r: String)
    ensures
        r@ == temp_name(p@),
{
    p.to_owned().concat(".dotsync-tmp")
}

/// The `n`th backup path of `p`: `p.bak`, then `p.bak.1`, `p.bak.2`, …
pub open spec fn backup_name(p: Seq<char>, n: nat) -> Seq<char> {
    if n == 0 {
        p + ".bak"@
    } else {
        p + ".bak."@ + number::decimal(n)
    }
}

/// Whether `r` is the first backup path of `p` that is not taken.
pub open spec fn first_free_backup(p: Seq<char>, taken: Seq<Seq<char>>, r: Seq<char>) -> bool {
    exists|n: nat|
        #![trigger backup_name(p, n)]
        r == backup_name(p, n) && !taken.contains(r) && forall|m: nat|
            m < n ==> taken.contains(#[trigger] backup_name(p, m))
}

/// The `n`th backup path of `p`.
pub fn backup_candidate(p: &str, n: u64) -> (r: String)
    ensures
        r@ == backup_name(p@, n as nat),
{
    if n == 0 {
        p.to_owned().concat(".bak")
    } else {
        p.to_owned().concat(".bak.").concat(number::decimal_text(n as u128).as_str())
    }
}

/// The backup paths of a path are all different, and none is the path itself.
pub proof fn law_backup_names_differ(p: Seq<char>, n: nat, m: nat)
    requires
        n != m,
    ensures
        backup_name(p, n) != backup_name(p, m),
        backup_name(p, n) != p,
{
    reveal_strlit(".bak");
    reveal_strlit(".bak.");
    number::lemma_decimal_digits(n);
    number::lemma_decimal_digits(m);
    assert(backup_name(p, n).len() > p.len());
    if backup_name(p, n) == backup_name(p, m) {
        let pre = p + ".bak."@;
        if n > 0 && m > 0 {
            assert(backup_name(p, n).skip(pre.len() as int) =~= number::decimal(n));
            assert(backup_name(p, m).skip(pre.len() as int) =~= number::decimal(m));
            number::law_decimal_injective(n, m);
        }
    }
}

/// Choose a backup path that clobbers nothing: the first of `p.bak`, `p.bak.1`,
/// … that is not among the taken ones.
pub fn backup_path(p: &str, taken: &Vec<String>) -> (r: String)
    ensures
        first_free_backup(p@, taken.deep_view(), r@),
{
    let ghost all = taken.deep_view();
    let size: usize = taken.len();
    let mut n: u64 = 0;
    loop
        invariant
            all == taken.deep_view(),
            size == all.len(),
            n <= size,
            forall|m: nat| m < n ==> all.contains(#[trigger] backup_name(p@, m)),
        decreases all.len() - n,
    {
        let candidate = backup_candidate(p, n);
        if !text::list_has(taken, candidate.as_str()) {
            assert(candidate@ == backup_name(p@, n as nat));
            return candidate;
        }
        proof {
            let found = Seq::new((n + 1) as nat, |i: int| backup_name(p@, i as nat));
            assert forall|i: int, j: int| 0 <= i < found.len() && 0 <= j < found.len() && i != j
                implies found[i] != found[j] by {
                law_backup_names_differ(p@, i as nat, j as nat);
            }
            assert forall|i: int| 0 <= i < found.len() implies all.contains(
                #[trigger] found[i],
            ) by {
                assert(all.contains(backup_name(p@, i as nat)));
            }
            text::lemma_distinct_fit(found, all);
        }
        n += 1;
    }
}

// ---------------------------------------------------------------------------
// Secrets
// ---------------------------------------------------------------------------

/// Whether a path is that directory or lies in it.
pub open spec fn in_dir(p: Seq<char>, dir: Seq<char>) -> bool {
    p == dir || text::starts_with(p, dir + "/"@)
}

/// Whether a lowercased path lies in a directory that holds secrets.
pub open spec fn in_secret_dir(lower: Seq<char>) -> bool {
    ||| in_dir(lower, ".ssh"@)
    ||| in_dir(lower, ".gnupg"@)
    ||| in_dir(lower, ".aws"@)
    ||| in_dir(lower, ".kube"@)
    ||| in_dir(lower, ".docker"@)
    ||| in_dir(lower, ".password-store"@)
    ||| in_dir(lower, ".config/gh"@)
    ||| in_dir(lower, ".config/gcloud"@)
    ||| in_dir(lower, ".config/op"@)
    ||| in_dir(lower, ".config/rclone"@)
}

/// Whether a lowercased file name is one that holds secrets.
pub open spec fn is_secret_file(base: Seq<char>) -> bool {
    ||| text::ends_with(base, ".pem"@)
    ||| text::ends_with(base, ".key"@)
    ||| text::starts_with(base, ".env"@)
    ||| text::has_text(base, "id_rsa"@)
    ||| text::has_text(base, "id_ed25519"@)
    ||| base == ".netrc"@
    ||| base == ".npmrc"@
    ||| base == ".pgpass"@
    ||| base == ".authinfo"@
    ||| base == ".git-credentials"@
    ||| base == ".terraformrc"@
    ||| base == ".msmtprc"@
    ||| base == "credentials"@
}

/// Whether a home-relative path looks like it holds secrets.
pub open spec fn secret_name(name: Seq<char>) -> bool {
    let lower = text::ascii_lower(name);
    ||| in_secret_dir(lower)
    ||| is_secret_file(text::segments(lower).last())
    ||| text::has_text(lower, "credential"@)
    ||| text::has_text(lower, "secret"@)
}

fn is_in_dir(p: &str, dir: &str) -> (r: bool)
    ensures
        r == in_dir(p@, dir@),
{
    text::same(p, dir) || text::has_prefix(p, dir.to_owned().concat("/").as_str())
}

fn lies_in_secret_dir(lower: &str) -> (r: bool)
    ensures
        r == in_secret_dir(lower@),
{
    is_in_dir(lower, ".ssh") || is_in_dir(lower, ".gnupg") || is_in_dir(lower, ".aws")
        || is_in_dir(lower, ".kube") || is_in_dir(lower, ".docker") || is_in_dir(
        lower,
        ".password-store",
    ) || is_in_dir(lower, ".config/gh") || is_in_dir(lower, ".config/gcloud") || is_in_dir(
        lower,
        ".config/op",
    ) || is_in_dir(lower, ".config/rclone")
}

fn names_secret_file(base: &str) -> (r: bool)
    ensures
        r == is_secret_file(base@),
{
    text::has_suffix(base, ".pem") || text::has_suffix(base, ".key") || text::has_prefix(
        base,
        ".env",
    ) || text::contains(base, "id_rsa") || text::contains(base, "id_ed25519") || text::same(
        base,
        ".netrc",
    ) || text::same(base, ".npmrc") || text::same(base, ".pgpass") || text::same(
        base,
        ".authinfo",
    ) || text::same(base, ".git-credentials") || text::same(base, ".terraformrc") || text::same(
        base,
        ".msmtprc",
    ) || text::same(base, "credentials")
}

/// Heuristic: does this home-relative path look like it holds secrets? It
/// matches whole path segments, so that the directory `~/.aws` itself is caught
/// too. Used to tag a restrictive mode at adopt time.
pub fn looks_secret(name: &str) -> (r: bool)
    ensures
        r == secret_name(name@),
{
    let lower = text::lower(name);
    let pieces = text::split_segments(lower.as_str());
    proof {
        text::lemma_split_nonempty(lower@, seq!['/']);
    }
    let base = &pieces[pieces.len() - 1];
    assert(base@ == text::segments(lower@).last());
    lies_in_secret_dir(lower.as_str()) || names_secret_file(base.as_str()) || text::contains(
        lower.as_str(),
        "credential",
    ) || text::contains(lower.as_str(), "secret")
}

/// The mode bits (the low twelve) of raw permissions.
pub fn mode_of(raw: u32) -> (r: u32)
    ensures
        r == raw & 0o7777,
        r < 4096,
{
    assert(raw & 0o7777 < 4096) by (bit_vector);
    raw & 0o7777
}

/// What kind of thing stands at a path.
#[derive(Debug, Clone, Copy, PartialEq, Eq, Structural)]
pub enum Found {
    Link,
    Dir,
    Other,
}

/// The mode to set on one path of a secret: `0700` on a directory, `0600` on
/// anything else, none on a symlink (its destination may lie outside the sync
/// folder).
pub open spec fn secret_mode(found: Found) -> Option<u32> {
    match found {
        Found::Link => None,
        Found::Dir => Some(0o700),
        Found::Other => Some(0o600),
    }
}

/// Setting the permissions of a secret on a whole tree: the paths that are
/// still to be visited. A directory is tightened before it is listed.
#[derive(Debug)]
pub struct Tightening {
    pub pending: Vec<String>,
}

impl View for Tightening {
    type V = Seq<Seq<char>>;

    open spec fn view(&self) -> Seq<Seq<char>> {
        self.pending.deep_view()
    }
}

impl Tightening {
    /// The path to visit next, if any is left.
    pub fn next(&mut self) -> (r: Option<String>)
        ensures
            match r {
                Some(p) => next_visit(old(self)@) == Some(p@) && final(self)@ == later_visits(
                    old(self)@,
                ),
                None => next_visit(old(self)@) is None && final(self)@ == old(self)@,
            },
    {
        let ghost before = self@;
        let r = self.pending.pop();
        proof {
            if before.len() > 0 {
                assert(self@ =~= before.drop_last());
            }
        }
        r
    }

    /// Take up the entries of a directory that was just tightened.
    pub fn listed(&mut self, dir: &str, names: &Vec<String>)
        ensures
            final(self)@ == old(self)@ + entry_paths(dir@, names.deep_view()),
    {
        let ghost before = self@;
        let mut i: usize = 0;
        assert(entry_paths(dir@, names.deep_view()).take(0) =~= Seq::<Seq<char>>::empty());
        assert(self@ =~= before + entry_paths(dir@, names.deep_view()).take(0));
        while i < names.len()
            invariant
                i <= names@.len(),
                self@ == before + entry_paths(dir@, names.deep_view()).take(i as int),
            decreases names@.len() - i,
        {
            let child = path::join_path(dir, names[i].as_str());
            let ghost so_far = self@;
            self.pending.push(child);
            proof {
                assert(self@ =~= so_far.push(child@));
                let all = entry_paths(dir@, names.deep_view());
                assert(all.take(i + 1) =~= all.take(i as int).push(all[i as int]));
                assert(self@ =~= before + all.take(i + 1));
            }
            i += 1;
        }
        assert(entry_paths(dir@, names.deep_view()).take(i as int) =~= entry_paths(
            dir@,
            names.deep_view(),
        ));
    }
}

/// The paths to visit to tighten the tree at a path, to begin with.
pub open spec fn first_visits(p: Seq<char>) -> Seq<Seq<char>> {
    seq![p]
}

/// The path to visit next.
pub open spec fn next_visit(pending: Seq<Seq<char>>) -> Option<Seq<char>> {
    if pending.len() > 0 {
        Some(pending.last())
    } else {
        None
    }
}

/// The paths that are left once the next was taken.
pub open spec fn later_visits(pending: Seq<Seq<char>>) -> Seq<Seq<char>> {
    pending.drop_last()
}

/// The paths of a directory's entries.
pub open spec fn entry_paths(dir: Seq<char>, names: Seq<Seq<char>>) -> Seq<Seq<char>> {
    names.map_values(|name: Seq<char>| path::joined(dir, name))
}

/// Begin setting the permissions of a secret on the tree at `p`.
pub fn enforce_secret_tree(p: &str) -> (r: Tightening)
    ensures
        r@ == first_visits(p@),
{
    let mut pending: Vec<String> = Vec::new();
    pending.push(p.to_owned());
    let r = Tightening { pending };
    assert(r@ =~= seq![p@]);
    r
}

/// The step that sets the permissions of a secret on one path, if one is due.
pub open spec fn tighten_step(p: Seq<char>, found: Found) -> Option<StepView> {
    match secret_mode(found) {
        None => None,
        Some(mode) => Some(StepView::SetMode { path: p, mode }),
    }
}

/// The step that sets the permissions of a secret on one path, if one is due.
pub fn secret_step(p: &str, found: Found) -> (r: Option<Step>)
    ensures
        match r {
            Some(step) => tighten_step(p@, found) == Some(step@),
            None => tighten_step(p@, found) is None,
        },
{
    match found {
        Found::Link => None,
        Found::Dir => Some(Step::SetMode { path: p.to_owned(), mode: 0o700 }),
        Found::Other => Some(Step::SetMode { path: p.to_owned(), mode: 0o600 }),
    }
}

// ---------------------------------------------------------------------------
// Primitive steps
// ---------------------------------------------------------------------------

/// One call into the filesystem.
#[derive(Debug)]
pub enum Step {
    /// Create a directory and its parents.
    MakeDir { path: String },
    /// Create the directory that a copied file goes into, and its parents.
    MakeParent { path: String },
    /// Create a symlink at `link` that points to `original`.
    MakeLink { original: String, link: String },
    /// Create the copy of a symlink.
    CopyLink { original: String, link: String },
    /// Copy the bytes and permissions of a file.
    CopyFile { from: String, to: String },
    /// Give `to` the permissions of `from`; a failure does not count.
    MirrorMode { from: String, to: String },
    /// Remove a symlink, not what it points to.
    RemoveLink { path: String },
    /// Remove anything but a directory.
    RemoveFile { path: String },
    /// Remove a directory and everything in it.
    RemoveTree { path: String },
    /// Rename a finished copy into place.
    Finalize { from: String, to: String },
    /// Set permission bits.
    SetMode { path: String, mode: u32 },
}

/// What a step holds.
pub enum StepView {
    MakeDir { path: Seq<char> },
    MakeParent { path: Seq<char> },
    MakeLink { original: Seq<char>, link: Seq<char> },
    CopyLink { original: Seq<char>, link: Seq<char> },
    CopyFile { from: Seq<char>, to: Seq<char> },
    MirrorMode { from: Seq<char>, to: Seq<char> },
    RemoveLink { path: Seq<char> },
    RemoveFile { path: Seq<char> },
    RemoveTree { path: Seq<char> },
    Finalize { from: Seq<char>, to: Seq<char> },
    SetMode { path: Seq<char>, mode: u32 },
}

impl View for Step {
    type V = StepView;

    open spec fn view(&self) -> StepView {
        match *self {
            Step::MakeDir { path } => StepView::MakeDir { path: path@ },
            Step::MakeParent { path } => StepView::MakeParent { path: path@ },
            Step::MakeLink { original, link } => StepView::MakeLink {
                original: original@,
                link: link@,
            },
            Step::CopyLink { original, link } => StepView::CopyLink {
                original: original@,
                link: link@,
            },
            Step::CopyFile { from, to } => StepView::CopyFile { from: from@, to: to@ },
            Step::MirrorMode { from, to } => StepView::MirrorMode { from: from@, to: to@ },
            Step::RemoveLink { path } => StepView::RemoveLink { path: path@ },
            Step::RemoveFile { path } => StepView::RemoveFile { path: path@ },
            Step::RemoveTree { path } => StepView::RemoveTree { path: path@ },
            Step::Finalize { from, to } => StepView::Finalize { from: from@, to: to@ },
            Step::SetMode { path, mode } => StepView::SetMode { path: path@, mode },
        }
    }
}

impl DeepView for Step {
    type V = StepView;

    open spec fn deep_view(&self) -> StepView {
        self@
    }
}

impl StepView {
    /// What a failed step is reported as; `None` when the plain error is.
    pub open spec fn complaint(self) -> Option<Seq<char>> {
        match self {
            StepView::MakeDir { path } => Some("could not create "@ + path),
            StepView::MakeParent { .. } => None,
            StepView::MakeLink { original, link } => Some(
                "could not link "@ + link + " -> "@ + original,
            ),
            StepView::CopyLink { original: _, link } => Some("could not copy symlink to "@ + link),
            StepView::CopyFile { from, to } => Some("could not copy "@ + from + " to "@ + to),
            StepView::MirrorMode { .. } => None,
            StepView::RemoveLink { path } => Some("could not remove symlink "@ + path),
            StepView::RemoveFile { path } => Some("could not remove "@ + path),
            StepView::RemoveTree { path } => Some("could not remove "@ + path),
            StepView::Finalize { from: _, to } => Some("could not finalize move to "@ + to),
            StepView::SetMode { path, mode } => Some(
                "could not chmod "@ + path + " to "@ + number::octal(mode as nat),
            ),
        }
    }
}

impl Step {
    /// What a failed step is reported as; `None` when the plain error is.
    pub fn blame(&self) -> (r: Option<String>)
        ensures
            r.deep_view() == self@.complaint(),
    {
        match self {
            Step::MakeDir { path } => Some("could not create ".to_owned().concat(path.as_str())),
            Step::MakeParent { .. } => None,
            Step::MakeLink { original, link } => Some(
                "could not link ".to_owned().concat(link.as_str()).concat(" -> ").concat(
                    original.as_str(),
                ),
            ),
            Step::CopyLink { original: _, link } => Some(
                "could not copy symlink to ".to_owned().concat(link.as_str()),
            ),
            Step::CopyFile { from, to } => Some(
                "could not copy ".to_owned().concat(from.as_str()).concat(" to ").concat(
                    to.as_str(),
                ),
            ),
            Step::MirrorMode { .. } => None,
            Step::RemoveLink { path } => Some(
                "could not remove symlink ".to_owned().concat(path.as_str()),
            ),
            Step::RemoveFile { path } => Some("could not remove ".to_owned().concat(path.as_str())),
            Step::RemoveTree { path } => Some("could not remove ".to_owned().concat(path.as_str())),
            Step::Finalize { from: _, to } => Some(
                "could not finalize move to ".to_owned().concat(to.as_str()),
            ),
            Step::SetMode { path, mode } => Some(
                "could not chmod ".to_owned().concat(path.as_str()).concat(" to ").concat(
                    number::octal_text(*mode).as_str(),
                ),
            ),
        }
    }
}

/// The step that makes the directory a path goes into, where it has one.
pub open spec fn parent_steps(p: Seq<char>) -> Seq<StepView> {
    match path::parent(p) {
        Some(dir) => seq![StepView::MakeDir { path: dir }],
        None => seq![],
    }
}

fn make_parent(p: &str) -> (r: Vec<Step>)
    ensures
        r.deep_view() == parent_steps(p@),
{
    let mut r: Vec<Step> = Vec::new();
    match path::parent_of(p) {
        Some(dir) => {
            r.push(Step::MakeDir { path: dir });
        },
        None => {},
    }
    assert(r.deep_view() =~= parent_steps(p@));
    r
}

/// Making a symlink: first the directory that it lies in.
pub open spec fn link_steps(original: Seq<char>, link: Seq<char>) -> Seq<StepView> {
    parent_steps(link).push(StepView::MakeLink { original, link })
}

/// The steps that create a symlink at `link` pointing to `original`, with the
/// directories that it goes into.
pub fn make_symlink(original: &str, link: &str) -> (r: Vec<Step>)
    ensures
        r.deep_view() == link_steps(original@, link@),
{
    let mut r = make_parent(link);
    let ghost before = r.deep_view();
    r.push(Step::MakeLink { original: original.to_owned(), link: link.to_owned() });
    assert(r.deep_view() =~= before.push(StepView::MakeLink { original: original@, link: link@ }));
    r
}

/// The step that removes a symlink, not what it points to.
pub fn remove_symlink(link: &str) -> (r: Step)
    ensures
        r@ == (StepView::RemoveLink { path: link@ }),
{
    Step::RemoveLink { path: link.to_owned() }
}

/// Removing what was found at a path.
pub open spec fn removal_of(p: Seq<char>, found: Found) -> StepView {
    if found == Found::Dir {
        StepView::RemoveTree { path: p }
    } else {
        StepView::RemoveFile { path: p }
    }
}

/// The step that removes whatever stands at a path.
pub fn remove_path(p: &str, found: Found) -> (r: Step)
    ensures
        r@ == removal_of(p@, found),
{
    match found {
        Found::Dir => Step::RemoveTree { path: p.to_owned() },
        _ => Step::RemoveFile { path: p.to_owned() },
    }
}

/// How to move a path. The rename fails across filesystems; what is left at the
/// temporary path is then cleared, and [`move_by_copy`] has the steps.
#[derive(Debug)]
pub struct Move {
    /// What comes before the rename.
    pub before: Vec<Step>,
    /// The rename; a failure does not count.
    pub rename: Step,
    /// The temporary path.
    pub tmp: String,
}

/// How to move `src` to `dst`.
pub fn move_path(src: &str, dst: &str) -> (r: Move)
    ensures
        r.before.deep_view() == parent_steps(dst@),
        r.rename@ == (StepView::Finalize { from: src@, to: dst@ }),
        r.tmp@ == temp_name(dst@),
{
    let rename = Step::Finalize { from: src.to_owned(), to: dst.to_owned() };
    Move { before: make_parent(dst), rename, tmp: temp_sibling(dst) }
}

// ---------------------------------------------------------------------------
// Copying
// ---------------------------------------------------------------------------

/// The steps that copy a tree from `src` to `dst`: symlinks as symlinks, a
/// directory before its entries and its permissions after them (so that a
/// read-only directory does not keep its own entries from being written), files
/// with their bytes and permissions.
pub open spec fn copy_steps(tree: Tree, src: Seq<char>, dst: Seq<char>) -> Seq<StepView>
    decreases tree, 1nat, 0nat,
{
    match tree {
        Tree::Link { dest: Some(original) } => seq![StepView::CopyLink { original, link: dst }],
        Tree::Link { dest: None } => seq![],
        Tree::Dir { mode: _, entries } => {
            let inner = match entries {
                Some(es) => copy_entries(es, src, dst, es.len()),
                None => seq![],
            };
            seq![StepView::MakeDir { path: dst }] + inner + seq![
                StepView::MirrorMode { from: src, to: dst },
            ]
        },
        _ => {
            let dir = match path::parent(dst) {
                Some(p) => seq![StepView::MakeParent { path: p }],
                None => seq![],
            };
            dir.push(StepView::CopyFile { from: src, to: dst })
        },
    }
}

/// The steps that copy the first `n` entries of a directory.
pub open spec fn copy_entries(
    entries: Seq<Child>,
    src: Seq<char>,
    dst: Seq<char>,
    n: nat,
) -> Seq<StepView>
    decreases entries, 0nat, n,
{
    if n == 0 || n > entries.len() {
        seq![]
    } else {
        let c = entries[n - 1];
        copy_entries(entries, src, dst, (n - 1) as nat) + copy_steps(
            c.tree,
            path::joined(src, c.name),
            path::joined(dst, c.name),
        )
    }
}

/// The steps that copy what was found at `src` to `dst`; `None` when a symlink in
/// it could not be read or a directory not listed, so that no copy passes for the
/// whole that is not.
pub fn copy_recursive(node: &Node, src: &str, dst: &str) -> (r: Option<Vec<Step>>)
    ensures
        match r {
            Some(steps) => tree::listed(node@) && steps.deep_view() == copy_steps(
                node@,
                src@,
                dst@,
            ),
            None => !tree::listed(node@),
        },
{
    if tree::is_listed(node) {
        Some(copy_node(node, src, dst))
    } else {
        None
    }
}

/// The step that removes a tree.
pub open spec fn removal(tree: Tree, p: Seq<char>) -> StepView {
    if tree is Dir {
        StepView::RemoveTree { path: p }
    } else {
        StepView::RemoveFile { path: p }
    }
}

/// Moving across filesystems: copy to the temporary path, rename that into
/// place, remove what was copied.
pub open spec fn move_steps(tree: Tree, src: Seq<char>, dst: Seq<char>) -> Seq<StepView> {
    copy_steps(tree, src, temp_name(dst)) + seq![
        StepView::Finalize { from: temp_name(dst), to: dst },
        removal(tree, src),
    ]
}

/// The steps that move what was found at `src` to `dst` where renaming it fails,
/// as it does across filesystems: it is copied to a temporary sibling of `dst`
/// and that is renamed into place, so that a crash never leaves half a file at
/// `dst`. `None` when a part could not be read.
pub fn move_by_copy(node: &Node, src: &str, dst: &str) -> (r: Option<Vec<Step>>)
    ensures
        match r {
            Some(steps) => tree::listed(node@) && steps.deep_view() == move_steps(
                node@,
                src@,
                dst@,
            ),
            None => !tree::listed(node@),
        },
{
    let tmp = temp_sibling(dst);
    let mut steps = match copy_recursive(node, src, tmp.as_str()) {
        Some(steps) => steps,
        None => return None,
    };
    let ghost copy = steps.deep_view();
    let found = match node {
        Node::Dir { .. } => Found::Dir,
        _ => Found::Other,
    };
    steps.push(Step::Finalize { from: tmp, to: dst.to_owned() });
    steps.push(remove_path(src, found));
    assert(steps.deep_view() =~= copy + seq![
        StepView::Finalize { from: temp_name(dst@), to: dst@ },
        removal(node@, src@),
    ]);
    Some(steps)
}

fn copy_node(node: &Node, src: &str, dst: &str) -> (r: Vec<Step>)
    ensures
        r.deep_view() == copy_steps(node@, src@, dst@),
    decreases *node, 1nat,
{
    let mut r: Vec<Step> = Vec::new();
    match node {
        Node::Link { dest: Some(original) } => {
            r.push(Step::CopyLink { original: original.clone(), link: dst.to_owned() });
            assert(r.deep_view() =~= copy_steps(node@, src@, dst@));
        },
        Node::Link { dest: None } => {
            assert(r.deep_view() =~= copy_steps(node@, src@, dst@));
        },
        Node::Dir { mode: _, entries } => {
            r.push(Step::MakeDir { path: dst.to_owned() });
            let ghost start = r.deep_view();
            assert(start =~= seq![StepView::MakeDir { path: dst@ }]);
            let ghost mut inner: Seq<StepView> = seq![];
            match entries {
                Some(es) => {
                    copy_each(es, node, src, dst, &mut r);
                    proof {
                        let all = (node@)->Dir_entries->0;
                        inner = copy_entries(all, src@, dst@, all.len());
                    }
                },
                None => {
                    assert(start =~= start + inner);
                },
            }
            let ghost before = r.deep_view();
            r.push(Step::MirrorMode { from: src.to_owned(), to: dst.to_owned() });
            assert(r.deep_view() =~= before + seq![
                StepView::MirrorMode { from: src@, to: dst@ },
            ]);
        },
        _ => {
            match path::parent_of(dst) {
                Some(dir) => {
                    r.push(Step::MakeParent { path: dir });
                },
                None => {},
            }
            let ghost before = r.deep_view();
            r.push(Step::CopyFile { from: src.to_owned(), to: dst.to_owned() });
            assert(before =~= match path::parent(dst@) {
                Some(p) => seq![StepView::MakeParent { path: p }],
                None => seq![],
            });
            assert(r.deep_view() =~= before.push(StepView::CopyFile { from: src@, to: dst@ }));
        },
    }
    r
}

fn copy_each(es: &Vec<Entry>, node: &Node, src: &str, dst: &str, out: &mut Vec<Step>)
    requires
        node matches Node::Dir { mode: _, entries: Some(all) } && all == *es,
    ensures
        final(out).deep_view() == old(out).deep_view() + copy_entries(
            (node@)->Dir_entries->0,
            src@,
            dst@,
            es@.len(),
        ),
    decreases *es, 0nat,
{
    let ghost all = (node@)->Dir_entries->0;
    let ghost start = out.deep_view();
    let mut i: usize = 0;
    assert(start =~= start + copy_entries(all, src@, dst@, 0));
    while i < es.len()
        invariant
            i <= es@.len(),
            node matches Node::Dir { mode: _, entries: Some(x) } && x == *es,
            all == (node@)->Dir_entries->0,
            out.deep_view() == start + copy_entries(all, src@, dst@, i as nat),
        decreases es@.len() - i,
    {
        let from = path::join_path(src, es[i].name.as_str());
        let to = path::join_path(dst, es[i].name.as_str());
        proof {
            assert(decreases_to!(*es => es@));
            assert(decreases_to!(es@ => es@[i as int]));
        }
        let mut inner = copy_node(&es[i].node, from.as_str(), to.as_str());
        let ghost before = out.deep_view();
        let ghost steps = inner.deep_view();
        out.append(&mut inner);
        proof {
            assert(out.deep_view() =~= before + steps);
            assert(out.deep_view() =~= start + copy_entries(all, src@, dst@, (i + 1) as nat));
        }
        i += 1;
    }
}

// ---------------------------------------------------------------------------
// Names
// ---------------------------------------------------------------------------

/// A backup goes to a path that is free, named after what it backs up; it is the
/// first such path, so there is only one answer.
pub proof fn law_backup_path_is_free_and_first(
    p: Seq<char>,
    taken: Seq<Seq<char>>,
    r: Seq<char>,
    other: Seq<char>,
)
    requires
        first_free_backup(p, taken, r),
    ensures
        !taken.contains(r),
        text::starts_with(r, p + ".bak"@),
        first_free_backup(p, taken, other) ==> other == r,
        !taken.contains(p + ".bak"@) ==> r == p + ".bak"@,
{
    reveal_strlit(".bak");
    reveal_strlit(".bak.");
    let n = choose|n: nat|
        #![trigger backup_name(p, n)]
        r == backup_name(p, n) && !taken.contains(r) && forall|m: nat|
            m < n ==> taken.contains(#[trigger] backup_name(p, m));
    assert(r.take((p + ".bak"@).len() as int) =~= p + ".bak"@);
    if first_free_backup(p, taken, other) {
        let k = choose|k: nat|
            #![trigger backup_name(p, k)]
            other == backup_name(p, k) && !taken.contains(other) && forall|m: nat|
                m < k ==> taken.contains(#[trigger] backup_name(p, m));
        if n < k {
            assert(taken.contains(backup_name(p, n)));
        } else if k < n {
            assert(taken.contains(backup_name(p, k)));
        }
    }
    assert(backup_name(p, 0) == p + ".bak"@);
    if n > 0 {
        assert(taken.contains(backup_name(p, 0)));
    }
}

/// The temporary beside a path is named after it and is not the path.
pub proof fn law_temporary_is_named_after_its_path(p: Seq<char>, q: Seq<char>)
    ensures
        temp_name(p) != p,
        text::starts_with(temp_name(p), p),
        temp_name(p) == temp_name(q) ==> p == q,
{
    reveal_strlit(".dotsync-tmp");
    let n = p.len() as int;
    assert(temp_name(p).take(n) =~= p);
    if temp_name(p) == temp_name(q) {
        assert(temp_name(q).take(q.len() as int) =~= q);
        assert(temp_name(p).len() == p.len() + ".dotsync-tmp"@.len());
        assert(temp_name(q).len() == q.len() + ".dotsync-tmp"@.len());
    }
}

/// Whether a name counts as a secret does not depend on the case of its letters.
pub proof fn law_secrets_are_known_in_any_case(a: Seq<char>, b: Seq<char>)
    requires
        text::ascii_lower(a) == text::ascii_lower(b),
    ensures
        secret_name(a) == secret_name(b),
{
}

/// Everything in a directory that holds keys or logins is a secret, at any depth,
/// and so is the directory.
pub proof fn law_all_in_a_secret_directory_is_secret(dir: Seq<char>, below: Seq<char>)
    requires
        dir == ".ssh"@ || dir == ".gnupg"@ || dir == ".aws"@ || dir == ".kube"@ || dir == ".docker"@
            || dir == ".password-store"@ || dir == ".config/gh"@ || dir == ".config/gcloud"@ || dir
            == ".config/op"@ || dir == ".config/rclone"@,
    ensures
        secret_name(dir),
        secret_name(dir + "/"@ + below),
{
    reveal_strlit(".ssh");
    reveal_strlit(".gnupg");
    reveal_strlit(".aws");
    reveal_strlit(".kube");
    reveal_strlit(".docker");
    reveal_strlit(".password-store");
    reveal_strlit(".config/gh");
    reveal_strlit(".config/gcloud");
    reveal_strlit(".config/op");
    reveal_strlit(".config/rclone");
    reveal_strlit("/");
    assert(text::ascii_lower(dir) =~= dir);
    let whole = dir + "/"@ + below;
    let lower = text::ascii_lower(whole);
    assert(lower.take((dir + "/"@).len() as int) =~= dir + "/"@) by {
        assert forall|i: int| 0 <= i < dir.len() implies lower[i] == dir[i] by {
            assert(whole[i] == dir[i]);
            assert(text::ascii_lower(dir)[i] == dir[i]);
        }
    }
    assert(in_dir(lower, dir));
}

/// A key, a certificate or an environment file is a secret wherever it lies, and so
/// is whatever speaks of credentials or secrets anywhere in its path.
pub proof fn law_secret_files_are_known_anywhere(name: Seq<char>, i: int)
    requires
        !exists|k: int| 0 <= k < name.len() && 'A' <= #[trigger] name[k] <= 'Z',
    ensures
        text::ends_with(name, ".pem"@) || text::ends_with(name, ".key"@) ==> secret_name(name),
        text::occurs_at(name, "credential"@, i) || text::occurs_at(name, "secret"@, i)
            ==> secret_name(name),
{
    assert(text::ascii_lower(name) =~= name);
    reveal_strlit(".pem");
    reveal_strlit(".key");
    if text::ends_with(name, ".pem"@) {
        lemma_last_segment_ends(name, ".pem"@);
    }
    if text::ends_with(name, ".key"@) {
        lemma_last_segment_ends(name, ".key"@);
    }
}

/// A name is a secret for no other reason than these: a directory that holds keys
/// or logins that it is or lies in, what the last segment is called, or a word
/// anywhere in it.
pub proof fn law_a_secret_has_a_reason(name: Seq<char>)
    requires
        secret_name(name),
    ensures
        ({
            let lower = text::ascii_lower(name);
            let last = text::segments(lower).last();
            let dirs = seq![
                ".ssh"@,
                ".gnupg"@,
                ".aws"@,
                ".kube"@,
                ".docker"@,
                ".password-store"@,
                ".config/gh"@,
                ".config/gcloud"@,
                ".config/op"@,
                ".config/rclone"@,
            ];
            let files = seq![
                ".netrc"@,
                ".npmrc"@,
                ".pgpass"@,
                ".authinfo"@,
                ".git-credentials"@,
                ".terraformrc"@,
                ".msmtprc"@,
                "credentials"@,
            ];
            ||| dirs.contains(lower)
            ||| exists|i: int|
                0 <= i < dirs.len() && lower.len() > dirs[i].len() && lower.take(
                    dirs[i].len() as int,
                ) == #[trigger] dirs[i] && lower[dirs[i].len() as int] == '/'
            ||| files.contains(last)
            ||| last.len() >= 4 && (last.skip(last.len() - 4) == ".pem"@ || last.skip(last.len() - 4)
                == ".key"@ || last.take(4) == ".env"@)
            ||| exists|i: int|
                0 <= i && i + 6 <= last.len() && #[trigger] last.subrange(i, i + 6) == "id_rsa"@
            ||| exists|i: int|
                0 <= i && i + 10 <= last.len() && #[trigger] last.subrange(i, i + 10)
                    == "id_ed25519"@
            ||| exists|i: int|
                0 <= i && i + 10 <= lower.len() && #[trigger] lower.subrange(i, i + 10)
                    == "credential"@
            ||| exists|i: int|
                0 <= i && i + 6 <= lower.len() && #[trigger] lower.subrange(i, i + 6) == "secret"@
        }),
{
    reveal_strlit("/");
    reveal_strlit(".pem");
    reveal_strlit(".key");
    reveal_strlit(".env");
    reveal_strlit("id_rsa");
    reveal_strlit("id_ed25519");
    reveal_strlit("credential");
    reveal_strlit("secret");
    let lower = text::ascii_lower(name);
    let last = text::segments(lower).last();
    let dirs = seq![
        ".ssh"@,
        ".gnupg"@,
        ".aws"@,
        ".kube"@,
        ".docker"@,
        ".password-store"@,
        ".config/gh"@,
        ".config/gcloud"@,
        ".config/op"@,
        ".config/rclone"@,
    ];
    let files = seq![
        ".netrc"@,
        ".npmrc"@,
        ".pgpass"@,
        ".authinfo"@,
        ".git-credentials"@,
        ".terraformrc"@,
        ".msmtprc"@,
        "credentials"@,
    ];
    assert forall|i: int| 0 <= i < dirs.len() && in_dir(lower, #[trigger] dirs[i]) implies dirs.contains(
        lower,
    ) || (lower.len() > dirs[i].len() && lower.take(dirs[i].len() as int) == dirs[i]
        && lower[dirs[i].len() as int] == '/') by {
        let d = dirs[i];
        let n = d.len() as int;
        if lower != d {
            assert(lower.take(n + 1)[n] == (d + "/"@)[n]);
            assert(lower.take(n) =~= d) by {
                assert forall|j: int| 0 <= j < n implies lower[j] == d[j] by {
                    assert(lower.take(n + 1)[j] == (d + "/"@)[j]);
                }
            }
        }
    }
    assert(dirs[0] == ".ssh"@ && dirs[1] == ".gnupg"@ && dirs[2] == ".aws"@ && dirs[3] == ".kube"@
        && dirs[4] == ".docker"@ && dirs[5] == ".password-store"@ && dirs[6] == ".config/gh"@
        && dirs[7] == ".config/gcloud"@ && dirs[8] == ".config/op"@ && dirs[9] == ".config/rclone"@);
    assert(files[0] == ".netrc"@ && files[1] == ".npmrc"@ && files[2] == ".pgpass"@ && files[3]
        == ".authinfo"@ && files[4] == ".git-credentials"@ && files[5] == ".terraformrc"@ && files[6]
        == ".msmtprc"@ && files[7] == "credentials"@);
    if text::has_text(last, "id_rsa"@) {
        let i = choose|i: int| text::occurs_at(last, "id_rsa"@, i);
        assert(last.subrange(i, i + 6) == "id_rsa"@);
    }
    if text::has_text(last, "id_ed25519"@) {
        let i = choose|i: int| text::occurs_at(last, "id_ed25519"@, i);
        assert(last.subrange(i, i + 10) == "id_ed25519"@);
    }
    if text::has_text(lower, "credential"@) {
        let i = choose|i: int| text::occurs_at(lower, "credential"@, i);
        assert(lower.subrange(i, i + 10) == "credential"@);
    }
    if text::has_text(lower, "secret"@) {
        let i = choose|i: int| text::occurs_at(lower, "secret"@, i);
        assert(lower.subrange(i, i + 6) == "secret"@);
    }
}

/// What makes the last segment of a name a secret makes the name one, wherever it
/// lies: a name of a file that holds logins, the beginning of an environment file,
/// or the name of a key anywhere in it.
pub proof fn law_the_last_segment_makes_a_secret(name: Seq<char>, i: int)
    ensures
        ({
            let last = text::segments(text::ascii_lower(name)).last();
            &&& last == ".netrc"@ || last == ".npmrc"@ || last == ".pgpass"@ || last == ".authinfo"@
                || last == ".git-credentials"@ || last == ".terraformrc"@ || last == ".msmtprc"@
                || last == "credentials"@ ==> secret_name(name)
            &&& text::starts_with(last, ".env"@) ==> secret_name(name)
            &&& text::occurs_at(last, "id_rsa"@, i) || text::occurs_at(last, "id_ed25519"@, i)
                ==> secret_name(name)
        }),
{
}

/// An ending without a slash is the ending of the last segment.
proof fn lemma_last_segment_ends(s: Seq<char>, end: Seq<char>)
    requires
        text::ends_with(s, end),
        !end.contains('/'),
    ensures
        text::ends_with(text::segments(s).last(), end),
    decreases end.len(),
{
    text::lemma_split_nonempty(s, seq!['/']);
    let last = text::segments(s).last();
    if end.len() == 0 {
        assert(last.skip(last.len() as int) =~= end);
    } else {
        let front = s.drop_last();
        let rest = end.drop_last();
        let n = s.len() - end.len();
        assert(front.skip(front.len() - rest.len()) =~= rest) by {
            assert forall|i: int| 0 <= i < rest.len() implies front[n + i] == rest[i] by {
                assert(s.skip(n)[i] == end[i]);
            }
        }
        assert forall|i: int| 0 <= i < rest.len() implies rest[i] != '/' by {
            assert(end[i] != '/');
        }
        lemma_last_segment_ends(front, rest);
        assert(s.last() == s.skip(n)[end.len() - 1]);
        assert(end[end.len() - 1] != '/');
        text::lemma_split_nonempty(front, seq!['/']);
        let before = text::segments(front).last();
        assert(!seq!['/'].contains(s.last()));
        assert(last == before.push(s.last()));
        assert(last.skip(last.len() - end.len()) =~= end) by {
            assert forall|i: int| 0 <= i < end.len() implies last[last.len() - end.len() + i]
                == end[i] by {
                if i < rest.len() {
                    assert(before.skip(before.len() - rest.len())[i] == rest[i]);
                }
            }
        }
    }
}

/// Before a symlink is made, the directory that it lies in is; it is made last, at
/// its path and to the original. At the root there is no directory to make.
pub proof fn law_the_directory_of_a_link_is_made_first(original: Seq<char>, link: Seq<char>)
    ensures
        link_steps(original, link).last() == (StepView::MakeLink { original, link }),
        path::components(link).len() > path::root(link).len() ==> link_steps(original, link).len()
            == 2 && (link_steps(original, link)[0] matches StepView::MakeDir { path: d }
            && path::components(d) == path::components(link).drop_last()),
        path::components(link).len() == path::root(link).len() ==> link_steps(original, link).len()
            == 1,
{
    path::lemma_parent_components(link);
}

/// What is removed is removed whole: a directory with all that is in it, anything
/// else as a file, a symlink itself and not what it leads to.
pub proof fn law_only_a_directory_is_removed_as_a_tree(p: Seq<char>, found: Found)
    ensures
        removal_of(p, found) is RemoveTree <==> found is Dir,
        removal_of(p, found) is RemoveFile <==> !(found is Dir),
        removal_of(p, found) matches StepView::RemoveTree { path: q } ==> q == p,
        removal_of(p, found) matches StepView::RemoveFile { path: q } ==> q == p,
{
}

/// The mode of a secret is for its owner alone: nothing for group and others, all
/// for the owner of a directory, and reading and writing for that of anything else.
/// A symlink gets none.
pub proof fn law_a_secret_mode_is_for_its_owner(found: Found)
    ensures
        secret_mode(found) is None <==> found is Link,
        secret_mode(found) matches Some(m) ==> m & 0o077 == 0 && m & 0o600 == 0o600 && (m & 0o100
            != 0 <==> found is Dir) && m < 0o1000,
{
    assert(0o700u32 & 0o077 == 0 && 0o700u32 & 0o600 == 0o600 && 0o700u32 & 0o100 != 0)
        by (bit_vector);
    assert(0o600u32 & 0o077 == 0 && 0o600u32 & 0o600 == 0o600 && 0o600u32 & 0o100 == 0)
        by (bit_vector);
}

} // verus!
