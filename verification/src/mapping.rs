//! The mapping model and the `dotsync.toml` document that lives inside the sync
//! folder (so the mapping list itself syncs across machines).
//!
//! The sync folder mirrors the home base. A mapping's `name` is its path
//! relative to the home base (such as `.config/zed`), which is also where it
//! lives inside the sync folder. For the common case that is all a mapping
//! needs: the target is derived from the name. Targets per system and an
//! explicit `target` cover the cases where the path differs.
use vstd::prelude::*;
use vstd::string::*;

use crate::number;
use crate::order;
use crate::path;
use crate::text;

verus! {

/// The version of this crate: the stamp that a saved document carries.
pub const VERSION: &'static str = "2.1.0";

// ---------------------------------------------------------------------------
// Mappings
// ---------------------------------------------------------------------------

/// What to do at link time when the target and the sync copy both exist as
/// real, differing content.
#[derive(Debug, Clone, Copy, PartialEq, Eq, Structural)]
pub enum OnConflict {
    /// Refuse and let the user resolve it by hand. The safe default.
    Fail,
    /// The sync copy wins: back the local target up, then link.
    Adopt,
}

impl Default for OnConflict {
    fn default() -> (r: Self)
        ensures
            r == OnConflict::Fail,
    {
        OnConflict::Fail
    }
}

impl OnConflict {
    /// The word that stands for the policy in the document.
    pub open spec fn word(self) -> Seq<char> {
        match self {
            OnConflict::Fail => "fail"@,
            OnConflict::Adopt => "adopt"@,
        }
    }

    /// The word that stands for the policy in the document.
    pub fn as_str(&self) -> (r: &'static str)
        ensures
            r@ == self.word(),
    {
        match self {
            OnConflict::Fail => "fail",
            OnConflict::Adopt => "adopt",
        }
    }
}

/// Whether the policy is the one that an absent entry stands for.
pub fn is_default_conflict(c: &OnConflict) -> (r: bool)
    ensures
        r == (*c == OnConflict::Fail),
{
    *c == OnConflict::Fail
}

/// One synced path.
#[derive(Debug)]
pub struct Mapping {
    /// Path relative to the home base, also its path inside the sync folder.
    pub name: String,
    /// Explicit target for all systems; a leading `~` stands for the home base.
    pub target: Option<String>,
    /// Target on macOS only (wins over `target` there).
    pub target_mac: Option<String>,
    /// Target on Linux only (wins over `target` there).
    pub target_linux: Option<String>,
    /// Octal mode to enforce on the sync copy, such as `0600` for secrets.
    pub mode: Option<String>,
    /// What to do on a conflict.
    pub on_conflict: OnConflict,
    /// Group label, so that several mappings can be managed as a unit.
    pub group: Option<String>,
}

/// What a mapping holds.
#[verifier::ext_equal]
pub struct MappingView {
    pub name: Seq<char>,
    pub target: Option<Seq<char>>,
    pub target_mac: Option<Seq<char>>,
    pub target_linux: Option<Seq<char>>,
    pub mode: Option<Seq<char>>,
    pub on_conflict: OnConflict,
    pub group: Option<Seq<char>>,
}

impl View for Mapping {
    type V = MappingView;

    open spec fn view(&self) -> MappingView {
        MappingView {
            name: self.name@,
            target: self.target.deep_view(),
            target_mac: self.target_mac.deep_view(),
            target_linux: self.target_linux.deep_view(),
            mode: self.mode.deep_view(),
            on_conflict: self.on_conflict,
            group: self.group.deep_view(),
        }
    }
}

impl DeepView for Mapping {
    type V = MappingView;

    open spec fn deep_view(&self) -> MappingView {
        self@
    }
}

impl Clone for Mapping {
    fn clone(&self) -> (r: Self)
        ensures
            r == *self,
    {
        Mapping {
            name: self.name.clone(),
            target: text::copy_option(&self.target),
            target_mac: text::copy_option(&self.target_mac),
            target_linux: text::copy_option(&self.target_linux),
            mode: text::copy_option(&self.mode),
            on_conflict: self.on_conflict,
            group: text::copy_option(&self.group),
        }
    }
}

impl MappingView {
    /// A mapping with only a name.
    pub open spec fn plain(name: Seq<char>) -> MappingView {
        MappingView {
            name,
            target: None,
            target_mac: None,
            target_linux: None,
            mode: None,
            on_conflict: OnConflict::Fail,
            group: None,
        }
    }

    /// The target that is written for the system `os` alone.
    pub open spec fn os_target(self, os: Seq<char>) -> Option<Seq<char>> {
        if os == "mac"@ {
            self.target_mac
        } else if os == "linux"@ {
            self.target_linux
        } else {
            None
        }
    }

    /// The target that is written for the system `os`: its own, else the general one.
    pub open spec fn written_target(self, os: Seq<char>) -> Option<Seq<char>> {
        match self.os_target(os) {
            Some(t) => Some(t),
            None => self.target,
        }
    }

    /// Whether some system has a target of its own.
    pub open spec fn os_specific(self) -> bool {
        self.target_mac is Some || self.target_linux is Some
    }

    /// Whether the mapping is for the system `os`: it has a target of its own
    /// or a general one, or no system has one of its own.
    pub open spec fn applies(self, os: Seq<char>) -> bool {
        self.os_target(os) is Some || self.target is Some || !self.os_specific()
    }

    /// Where the mapping's target is on the system `os`.
    pub open spec fn target_path(self, home: Seq<char>, os: Seq<char>) -> Option<Seq<char>> {
        match self.written_target(os) {
            Some(t) => Some(tilde_expanded(t, home)),
            None => if self.applies(os) {
                Some(path::joined(home, self.name))
            } else {
                None
            },
        }
    }

    /// Where the sync copy is.
    pub open spec fn source_path(self, sync_dir: Seq<char>) -> Seq<char> {
        path::joined(sync_dir, self.name)
    }

    /// The systems that the mapping is for, joined by commas.
    pub open spec fn systems(self) -> Seq<char> {
        if self.applies("mac"@) && self.applies("linux"@) {
            "mac,linux"@
        } else if self.applies("mac"@) {
            "mac"@
        } else if self.applies("linux"@) {
            "linux"@
        } else {
            ""@
        }
    }

    /// The target as it is written, for display.
    pub open spec fn shown_target(self, os: Seq<char>) -> Seq<char> {
        match self.written_target(os) {
            Some(t) => t,
            None => "~/"@ + self.name,
        }
    }

    /// The number that the octal mode spells.
    pub open spec fn mode_number(self) -> Option<nat> {
        match self.mode {
            Some(m) => number::parsed(text::trim_octal_mark(m), 8, u32::MAX as nat),
            None => None,
        }
    }
}

impl Mapping {
    /// A mapping with only a name; the target follows from the mirror layout.
    pub fn new(name: &str) -> (r: Self)
        ensures
            r@ == MappingView::plain(name@),
    {
        Mapping {
            name: name.to_owned(),
            target: None,
            target_mac: None,
            target_linux: None,
            mode: None,
            on_conflict: OnConflict::Fail,
            group: None,
        }
    }

    /// Whether some system has a target of its own.
    pub fn has_os_specific(&self) -> (r: bool)
        ensures
            r == self@.os_specific(),
    {
        self.target_mac.is_some() || self.target_linux.is_some()
    }

    /// Whether the mapping should be linked on the system `os` (`mac` or `linux`).
    pub fn applies_to(&self, os: &str) -> (r: bool)
        ensures
            r == self@.applies(os@),
    {
        let os_target = if text::same(os, "mac") {
            self.target_mac.is_some()
        } else if text::same(os, "linux") {
            self.target_linux.is_some()
        } else {
            false
        };
        os_target || self.target.is_some() || !self.has_os_specific()
    }

    /// The systems that the mapping is for, joined by commas.
    pub fn os_display(&self) -> (r: String)
        ensures
            r@ == self@.systems(),
    {
        let mac = self.applies_to("mac");
        let linux = self.applies_to("linux");
        if mac && linux {
            "mac,linux".to_owned()
        } else if mac {
            "mac".to_owned()
        } else if linux {
            "linux".to_owned()
        } else {
            "".to_owned()
        }
    }

    /// The path of the sync copy.
    pub fn source(&self, sync_dir: &str) -> (r: String)
        ensures
            r@ == self@.source_path(sync_dir@),
    {
        path::join_path(sync_dir, self.name.as_str())
    }

    /// The target that is written for the system `os`.
    fn written(&self, os: &str) -> (r: Option<&String>)
        ensures
            r.deep_view() == self@.written_target(os@),
    {
        let own = if text::same(os, "mac") {
            self.target_mac.as_ref()
        } else if text::same(os, "linux") {
            self.target_linux.as_ref()
        } else {
            None
        };
        match own {
            Some(t) => Some(t),
            None => self.target.as_ref(),
        }
    }

    /// The target for the system `os`, or `None` when the mapping does not
    /// apply there.
    pub fn target_for(&self, home: &str, os: &str) -> (r: Option<String>)
        ensures
            r.deep_view() == self@.target_path(home@, os@),
    {
        match self.written(os) {
            Some(s) => Some(expand_tilde(s.as_str(), home)),
            None => if self.applies_to(os) {
                Some(path::join_path(home, self.name.as_str()))
            } else {
                None
            },
        }
    }

    /// The target as it is written, for display.
    pub fn target_display(&self, os: &str) -> (r: String)
        ensures
            r@ == self@.shown_target(os@),
    {
        match self.written(os) {
            Some(s) => s.clone(),
            None => "~/".to_owned().concat(self.name.as_str()),
        }
    }

    /// The octal `mode` as a number, if it is set and spells one.
    pub fn mode_bits(&self) -> (r: Option<u32>)
        ensures
            match r {
                Some(bits) => self@.mode_number() == Some(bits as nat),
                None => self@.mode_number() is None,
            },
    {
        match &self.mode {
            Some(m) => {
                let digits = text::trim_octal(m.as_str());
                match number::parse_unsigned(digits.as_str(), 8, 0xffff_ffff) {
                    Some(v) => Some(v as u32),
                    None => None,
                }
            },
            None => None,
        }
    }
}

/// A mapping has a target on a system exactly when it applies there.
pub proof fn law_target_iff_applies(m: MappingView, home: Seq<char>, os: Seq<char>)
    ensures
        m.target_path(home, os) is Some <==> m.applies(os),
{
}

/// A mapping with a target for one system only, and no general one, applies
/// to no other system.
pub proof fn law_one_system_target_scopes(m: MappingView)
    requires
        m.target is None,
    ensures
        m.target_mac is Some && m.target_linux is None ==> m.applies("mac"@) && !m.applies(
            "linux"@,
        ),
        m.target_linux is Some && m.target_mac is None ==> m.applies("linux"@) && !m.applies(
            "mac"@,
        ),
{
    reveal_strlit("mac");
    reveal_strlit("linux");
    assert("mac"@.len() != "linux"@.len());
}

// ---------------------------------------------------------------------------
// Tilde paths
// ---------------------------------------------------------------------------

/// `path` with a leading `~` replaced by the home base.
pub open spec fn tilde_expanded(path: Seq<char>, home: Seq<char>) -> Seq<char> {
    if path == "~"@ {
        home
    } else if text::starts_with(path, "~/"@) {
        path::joined(home, path.skip(2))
    } else {
        path
    }
}

/// `path` with the home base it lies under replaced by `~`.
pub open spec fn tilde_collapsed(path: Seq<char>, home: Seq<char>) -> Seq<char> {
    if path::same_path(path, home) {
        "~"@
    } else {
        match path::stripped(path, home) {
            Some(rel) => "~/"@ + rel,
            None => path,
        }
    }
}

/// Expand a leading `~` or `~/` against `home`.
pub fn expand_tilde(path: &str, home: &str) -> (r: String)
    ensures
        r@ == tilde_expanded(path@, home@),
{
    if text::same(path, "~") {
        home.to_owned()
    } else if text::has_prefix(path, "~/") {
        proof {
            reveal_strlit("~/");
        }
        let cs = text::chars(path);
        let rest = text::slice_text(cs.as_slice(), 2, cs.len());
        assert(rest@ =~= path@.skip(2));
        path::join_path(home, rest.as_str())
    } else {
        path.to_owned()
    }
}

/// Render `path` as `~/…` when it lies under `home`, so that stored and shown
/// paths stay short and portable.
pub fn collapse_tilde(path: &str, home: &str) -> (r: String)
    ensures
        r@ == tilde_collapsed(path@, home@),
{
    if path::same(path, home) {
        return "~".to_owned();
    }
    match path::strip_prefix(path, home) {
        Some(rel) => "~/".to_owned().concat(rel.as_str()),
        None => path.to_owned(),
    }
}

/// Expanding undoes collapsing: the path is the same, whatever its text. (A
/// relative path that itself begins with `~` reads as one under the home base.)
pub proof fn law_expand_undoes_collapse(p: Seq<char>, home: Seq<char>)
    requires
        p != "~"@,
        !text::starts_with(p, "~/"@),
    ensures
        path::same_path(tilde_expanded(tilde_collapsed(p, home), home), p),
{
    reveal_strlit("~");
    reveal_strlit("~/");
    if !path::same_path(p, home) && path::within(p, home) {
        let rel = path::stripped(p, home)->0;
        let c = "~/"@ + rel;
        assert(c.take(2) =~= "~/"@);
        assert(c.skip(2) =~= rel);
        assert(c.len() >= 2);
        path::law_strip_then_join(p, home);
    }
}

// ---------------------------------------------------------------------------
// Versions
// ---------------------------------------------------------------------------

/// The `i`th number of a dotted version; `None` when it is missing or no number.
pub open spec fn version_piece(version: Seq<char>, i: int) -> Option<nat> {
    let pieces = text::split(version, seq!['.', '-', '+']);
    if 0 <= i < pieces.len() {
        number::parsed(pieces[i], 10, u64::MAX as nat)
    } else {
        None
    }
}

/// The `i`th number of a dotted version; a missing or unreadable one is zero.
pub open spec fn version_number(version: Seq<char>, i: int) -> nat {
    match version_piece(version, i) {
        Some(v) => v,
        None => 0,
    }
}

/// The stamp of a document that a newer version than the running one wrote.
pub open spec fn newer_stamp(stamp: Option<Seq<char>>) -> Option<Seq<char>> {
    match stamp {
        Some(v) => if newer(v, VERSION@) {
            Some(v)
        } else {
            None
        },
        None => None,
    }
}

/// Whether version `a` is newer than version `b`, by their first three numbers.
pub open spec fn newer(a: Seq<char>, b: Seq<char>) -> bool {
    let (a0, a1, a2) = (version_number(a, 0), version_number(a, 1), version_number(a, 2));
    let (b0, b1, b2) = (version_number(b, 0), version_number(b, 1), version_number(b, 2));
    a0 > b0 || (a0 == b0 && (a1 > b1 || (a1 == b1 && a2 > b2)))
}

/// The `i`th number of a dotted version.
fn version_component(pieces: &Vec<String>, i: usize, version: &str) -> (r: u64)
    requires
        pieces.deep_view() == text::split(version@, seq!['.', '-', '+']),
    ensures
        r == version_number(version@, i as int),
{
    if i < pieces.len() {
        match number::parse_unsigned(pieces[i].as_str(), 10, 0xffff_ffff_ffff_ffff) {
            Some(v) => v as u64,
            None => 0,
        }
    } else {
        0
    }
}

/// The first three numbers of a dotted version.
fn version_parts(version: &str) -> (r: (u64, u64, u64))
    ensures
        r.0 == version_number(version@, 0),
        r.1 == version_number(version@, 1),
        r.2 == version_number(version@, 2),
{
    let seps: [char; 3] = ['.', '-', '+'];
    assert(seps@ =~= seq!['.', '-', '+']);
    let pieces = text::split_text(version, seps.as_slice());
    (
        version_component(&pieces, 0, version),
        version_component(&pieces, 1, version),
        version_component(&pieces, 2, version),
    )
}

/// Whether the dotted version `a` is strictly newer than `b`, comparing the
/// first three components as numbers. A component that is no number counts as
/// zero: this only informs a warning, so a version that cannot be read never
/// triggers one.
pub fn version_gt(a: &str, b: &str) -> (r: bool)
    ensures
        r == newer(a@, b@),
{
    let x = version_parts(a);
    let y = version_parts(b);
    x.0 > y.0 || (x.0 == y.0 && (x.1 > y.1 || (x.1 == y.1 && x.2 > y.2)))
}

/// Being newer is a strict order: no version is newer than itself, and what is
/// newer than a newer version is newer.
pub proof fn law_newer_is_strict_order(a: Seq<char>, b: Seq<char>, c: Seq<char>)
    ensures
        !newer(a, a),
        newer(a, b) ==> !newer(b, a),
        newer(a, b) && newer(b, c) ==> newer(a, c),
{
}

/// A version none of whose first three components is a number is newer than no
/// other.
pub proof fn law_unreadable_is_never_newer(a: Seq<char>, b: Seq<char>)
    requires
        version_piece(a, 0) is None,
        version_piece(a, 1) is None,
        version_piece(a, 2) is None,
    ensures
        !newer(a, b),
{
}

// ---------------------------------------------------------------------------
// The document
// ---------------------------------------------------------------------------

/// The `dotsync.toml` document: a version stamp and the list of mappings.
#[derive(Debug)]
pub struct MappingsFile {
    /// The version that last wrote the document. Stamped on every save, and
    /// absent in documents from before the stamp existed.
    pub dotsync_version: Option<String>,
    /// The mappings.
    pub mappings: Vec<Mapping>,
}

/// What the document holds.
#[verifier::ext_equal]
pub struct MappingsView {
    pub version: Option<Seq<char>>,
    pub mappings: Seq<MappingView>,
}

impl View for MappingsFile {
    type V = MappingsView;

    open spec fn view(&self) -> MappingsView {
        MappingsView {
            version: self.dotsync_version.deep_view(),
            mappings: self.mappings.deep_view(),
        }
    }
}

impl Default for MappingsFile {
    fn default() -> (r: Self)
        ensures
            r@ == MappingsView::none(),
    {
        let r = MappingsFile { dotsync_version: None, mappings: Vec::new() };
        assert(r@ =~= MappingsView::none());
        r
    }
}

/// The comment that a saved document begins with.
pub const HEADER: &'static str =
    "# dotsync mappings — this file lives inside your cloud sync folder and syncs\n# across machines. It is managed by `dotsync adopt`; you can also edit it by hand.\n#\n# Each [[mapping]] mirrors a path from your home base into this folder.\n#   name          (required) path relative to the home base, e.g. \".config/zed\".\n#   target        (optional) explicit $HOME path; defaults to ~/<name>.\n#   target_mac    (optional) macOS-only path override.\n#   target_linux  (optional) Linux-only path override.\n#   mode          (optional) octal mode enforced on the sync copy, e.g. \"0600\".\n#   on_conflict   (optional) \"fail\" (default) or \"adopt\" (sync wins, local .bak).\n#\n# The `dotsync_version` line at the top is stamped automatically on save; it lets\n# another machine warn when this file was written by a newer dotsync than its own.\n\n";

/// The text of a saved document whose serialized body is `body`.
pub fn document_text(body: &str) -> (r: String)
    ensures
        r@ == HEADER@ + body@,
{
    HEADER.to_owned().concat(body)
}

/// The position of the first mapping called `name`, or the number of mappings
/// when there is none.
pub open spec fn position(s: Seq<MappingView>, name: Seq<char>) -> int
    decreases s.len(),
{
    if s.len() == 0 {
        0
    } else if s[0].name == name {
        0
    } else {
        1 + position(s.skip(1), name)
    }
}

/// Where the first mapping of a name is.
pub proof fn lemma_position(s: Seq<MappingView>, name: Seq<char>)
    ensures
        0 <= position(s, name) <= s.len(),
        position(s, name) < s.len() ==> s[position(s, name)].name == name,
        forall|i: int| 0 <= i < position(s, name) ==> (#[trigger] s[i]).name != name,
    decreases s.len(),
{
    if s.len() > 0 && s[0].name != name {
        lemma_position(s.skip(1), name);
        assert forall|i: int| 0 <= i < position(s, name) implies (#[trigger] s[i]).name
            != name by {
            if i > 0 {
                assert(s.skip(1)[i - 1] == s[i]);
            }
        }
    }
}

/// The position is determined by what it says.
pub proof fn lemma_position_is(s: Seq<MappingView>, name: Seq<char>, i: int)
    requires
        0 <= i <= s.len(),
        i < s.len() ==> s[i].name == name,
        forall|j: int| 0 <= j < i ==> (#[trigger] s[j]).name != name,
    ensures
        position(s, name) == i,
{
    lemma_position(s, name);
    let p = position(s, name);
    if p < i {
        assert(s[p].name != name);
    }
}

/// Whether some mapping is called `name`.
pub open spec fn has_name(s: Seq<MappingView>, name: Seq<char>) -> bool {
    exists|i: int| 0 <= i < s.len() && (#[trigger] s[i]).name == name
}

/// Whether some mapping is in the group `group`.
pub open spec fn has_group(s: Seq<MappingView>, group: Seq<char>) -> bool {
    exists|i: int| 0 <= i < s.len() && (#[trigger] s[i]).group == Some(group)
}

/// The mappings with `m` in the place of the first one of its name, or at the
/// end when there is none.
pub open spec fn upserted(s: Seq<MappingView>, m: MappingView) -> Seq<MappingView> {
    if position(s, m.name) < s.len() {
        s.update(position(s, m.name), m)
    } else {
        s.push(m)
    }
}

/// The mappings that are not called `name`.
pub open spec fn without(s: Seq<MappingView>, name: Seq<char>) -> Seq<MappingView>
    decreases s.len(),
{
    if s.len() == 0 {
        s
    } else if s.last().name == name {
        without(s.drop_last(), name)
    } else {
        without(s.drop_last(), name).push(s.last())
    }
}

/// The mappings whose name no earlier one has.
pub open spec fn first_of_each(s: Seq<MappingView>) -> Seq<MappingView>
    decreases s.len(),
{
    if s.len() == 0 {
        s
    } else if has_name(s.drop_last(), s.last().name) {
        first_of_each(s.drop_last())
    } else {
        first_of_each(s.drop_last()).push(s.last())
    }
}

/// `m` put into `s` behind the mappings that do not come after it.
pub open spec fn placed_by_name(s: Seq<MappingView>, m: MappingView) -> Seq<MappingView>
    decreases s.len(),
{
    if s.len() > 0 && order::before(m.name, s.last().name) {
        placed_by_name(s.drop_last(), m).push(s.last())
    } else {
        s.push(m)
    }
}

/// The mappings sorted by name, those of one name in the order they had.
pub open spec fn by_name(s: Seq<MappingView>) -> Seq<MappingView>
    decreases s.len(),
{
    if s.len() == 0 {
        s
    } else {
        placed_by_name(by_name(s.drop_last()), s.last())
    }
}

/// `label` put into a sorted list of different labels.
pub open spec fn label_added(s: Seq<Seq<char>>, label: Seq<char>) -> Seq<Seq<char>>
    decreases s.len(),
{
    if s.len() == 0 {
        s.push(label)
    } else if s.last() == label {
        s
    } else if order::before(label, s.last()) {
        label_added(s.drop_last(), label).push(s.last())
    } else {
        s.push(label)
    }
}

/// The different labels, sorted.
pub open spec fn labels(s: Seq<Option<Seq<char>>>) -> Seq<Seq<char>>
    decreases s.len(),
{
    if s.len() == 0 {
        Seq::<Seq<char>>::empty()
    } else {
        match s.last() {
            Some(label) => label_added(labels(s.drop_last()), label),
            None => labels(s.drop_last()),
        }
    }
}

/// Whether a list is sorted and holds no text twice.
pub open spec fn strictly_sorted(s: Seq<Seq<char>>) -> bool {
    forall|i: int, j: int| 0 <= i < j < s.len() ==> order::before(#[trigger] s[i], #[trigger] s[j])
}

/// The group labels of the mappings.
pub open spec fn group_labels(s: Seq<MappingView>) -> Seq<Option<Seq<char>>> {
    Seq::new(s.len(), |i: int| s[i].group)
}

impl MappingsView {
    /// The document without mappings and without a stamp.
    pub open spec fn none() -> MappingsView {
        MappingsView { version: None, mappings: Seq::<MappingView>::empty() }
    }

    /// The different groups, sorted.
    pub open spec fn group_names(self) -> Seq<Seq<char>> {
        labels(group_labels(self.mappings))
    }

    /// The document as it is written: sorted by name and stamped.
    pub open spec fn saved(self) -> MappingsView {
        MappingsView { version: Some(VERSION@), mappings: by_name(self.mappings) }
    }

    /// The document as it is used: without the later mappings of a name.
    pub open spec fn loaded(self) -> MappingsView {
        MappingsView { version: self.version, mappings: first_of_each(self.mappings) }
    }
}

/// Put `label` into a sorted list of different labels.
pub fn add_label(sorted: &mut Vec<String>, label: &str)
    ensures
        final(sorted).deep_view() == label_added(old(sorted).deep_view(), label@),
{
    let ghost s = sorted.deep_view();
    let mut k: usize = sorted.len();
    assert(s.take(k as int) =~= s);
    assert(s.skip(k as int) =~= Seq::<Seq<char>>::empty());
    assert(label_added(s, label@) =~= label_added(s.take(k as int), label@) + s.skip(k as int));
    while k > 0
        invariant
            k <= sorted@.len(),
            sorted.deep_view() == s,
            label_added(s, label@) == label_added(s.take(k as int), label@) + s.skip(k as int),
        ensures
            k > 0 ==> s[k - 1] != label@ && !order::before(label@, s[k - 1]),
        decreases k,
    {
        let ghost lead = s.take(k as int);
        assert(lead.last() == sorted@[k - 1]@);
        if text::same(sorted[k - 1].as_str(), label) {
            assert(lead + s.skip(k as int) =~= s);
            return;
        }
        if !order::comes_before(label, sorted[k - 1].as_str()) {
            break;
        }
        assert(lead.drop_last() =~= s.take(k - 1));
        assert(s.take(k - 1).len() == k - 1);
        assert(label_added(s.take(k - 1), label@).push(lead.last()) + s.skip(k as int)
            =~= label_added(s.take(k - 1), label@) + s.skip(k - 1));
        k -= 1;
    }
    assert(label_added(s.take(k as int), label@) == s.take(k as int).push(label@));
    sorted.insert(k, label.to_owned());
    assert(sorted.deep_view() =~= s.take(k as int).push(label@) + s.skip(k as int));
}

impl MappingsFile {
    /// The document's file name inside the sync folder.
    pub const FILE_NAME: &'static str = "dotsync.toml";

    /// The document as it is used: none when the file is missing, else what was
    /// parsed from it, with only the first mapping of each name. A merged
    /// conflict copy can hold a name twice; nothing may be acted on twice.
    pub fn load(parsed: Option<MappingsFile>) -> (r: Self)
        ensures
            match parsed {
                None => r@ == MappingsView::none(),
                Some(file) => r@ == file@.loaded(),
            },
    {
        let file = match parsed {
            None => return MappingsFile::default(),
            Some(file) => file,
        };
        let mut kept: Vec<Mapping> = Vec::new();
        let ghost all = file@.mappings;
        let mut i: usize = 0;
        assert(kept.deep_view() =~= first_of_each(all.take(0)));
        while i < file.mappings.len()
            invariant
                i <= file.mappings@.len(),
                all == file.mappings.deep_view(),
                kept.deep_view() == first_of_each(all.take(i as int)),
            decreases file.mappings@.len() - i,
        {
            let ghost now = all.take(i + 1);
            let ghost sofar = kept.deep_view();
            assert(now.drop_last() =~= all.take(i as int));
            assert(now.last() == file.mappings@[i as int]@);
            let seen = has_mapping(&kept, file.mappings[i].name.as_str());
            proof {
                lemma_first_has(all.take(i as int), file.mappings@[i as int].name@);
            }
            if !seen {
                kept.push(file.mappings[i].clone());
                assert(kept.deep_view() =~= sofar.push(now.last()));
            }
            i += 1;
        }
        assert(all.take(i as int) =~= all);
        MappingsFile { dotsync_version: file.dotsync_version, mappings: kept }
    }

    /// The document to write: sorted by name and stamped with this version, so
    /// that another machine can tell when it is behind.
    pub fn save(&self) -> (r: Self)
        ensures
            r@ == self@.saved(),
    {
        let mut sorted: Vec<Mapping> = Vec::new();
        let ghost all = self@.mappings;
        let mut i: usize = 0;
        assert(sorted.deep_view() =~= by_name(all.take(0)));
        while i < self.mappings.len()
            invariant
                i <= self.mappings@.len(),
                all == self.mappings.deep_view(),
                sorted.deep_view() == by_name(all.take(i as int)),
            decreases self.mappings@.len() - i,
        {
            assert(all.take(i + 1).drop_last() =~= all.take(i as int));
            assert(all.take(i + 1).last() == self.mappings@[i as int]@);
            place_by_name(&mut sorted, self.mappings[i].clone());
            i += 1;
        }
        assert(all.take(i as int) =~= all);
        let r = MappingsFile { dotsync_version: Some(VERSION.to_owned()), mappings: sorted };
        assert(r@ =~= self@.saved());
        r
    }

    /// The stamped version when this document was written by a newer version
    /// than the running one; `None` without a stamp, with one that cannot be
    /// read, or when the running version is as new. Only informs a warning.
    pub fn newer_writer(&self) -> (r: Option<&str>)
        ensures
            match r {
                Some(v) => newer_stamp(self@.version) == Some(v@),
                None => newer_stamp(self@.version) is None,
            },
    {
        match &self.dotsync_version {
            Some(written) => if version_gt(written.as_str(), VERSION) {
                Some(written.as_str())
            } else {
                None
            },
            None => None,
        }
    }

    /// The mapping called `name`.
    pub fn find(&self, name: &str) -> (r: Option<&Mapping>)
        ensures
            r.deep_view() == (if has_name(self@.mappings, name@) {
                Some(self@.mappings[position(self@.mappings, name@)])
            } else {
                None
            }),
    {
        let k = find_position(&self.mappings, name);
        proof {
            lemma_position(self@.mappings, name@);
        }
        if k < self.mappings.len() {
            assert(self@.mappings[k as int].name == name@);
            Some(&self.mappings[k])
        } else {
            None
        }
    }

    /// The different group labels, sorted.
    pub fn groups(&self) -> (r: Vec<String>)
        ensures
            r.deep_view() == self@.group_names(),
    {
        let ghost all = group_labels(self@.mappings);
        let mut r: Vec<String> = Vec::new();
        let mut i: usize = 0;
        assert(r.deep_view() =~= labels(all.take(0)));
        while i < self.mappings.len()
            invariant
                i <= self.mappings@.len(),
                all == group_labels(self@.mappings),
                r.deep_view() == labels(all.take(i as int)),
            decreases self.mappings@.len() - i,
        {
            assert(all.take(i + 1).drop_last() =~= all.take(i as int));
            assert(all.take(i + 1).last() == self.mappings@[i as int].group.deep_view());
            if let Some(g) = &self.mappings[i].group {
                add_label(&mut r, g.as_str());
            }
            i += 1;
        }
        assert(all.take(i as int) =~= all);
        r
    }

    /// Put a mapping in the place of the one of its name, or at the end.
    pub fn upsert(&mut self, mapping: Mapping)
        ensures
            final(self)@.mappings == upserted(old(self)@.mappings, mapping@),
            final(self)@.version == old(self)@.version,
    {
        let ghost all = self@.mappings;
        let k = find_position(&self.mappings, mapping.name.as_str());
        if k < self.mappings.len() {
            self.mappings.set(k, mapping);
        } else {
            self.mappings.push(mapping);
        }
        assert(self@.mappings =~= upserted(all, mapping@));
    }

    /// Drop the mappings called `name`.
    pub fn remove(&mut self, name: &str)
        ensures
            final(self)@.mappings == without(old(self)@.mappings, name@),
            final(self)@.version == old(self)@.version,
    {
        let ghost all = self@.mappings;
        let mut kept: Vec<Mapping> = Vec::new();
        let mut i: usize = 0;
        assert(kept.deep_view() =~= without(all.take(0), name@));
        while i < self.mappings.len()
            invariant
                i <= self.mappings@.len(),
                all == self.mappings.deep_view(),
                self@.version == old(self)@.version,
                kept.deep_view() == without(all.take(i as int), name@),
            decreases self.mappings@.len() - i,
        {
            let ghost sofar = kept.deep_view();
            assert(all.take(i + 1).drop_last() =~= all.take(i as int));
            assert(all.take(i + 1).last() == self.mappings@[i as int]@);
            if !text::same(self.mappings[i].name.as_str(), name) {
                kept.push(self.mappings[i].clone());
                assert(kept.deep_view() =~= sofar.push(all[i as int]));
            }
            i += 1;
        }
        assert(all.take(i as int) =~= all);
        self.mappings = kept;
    }
}

/// The position of the first mapping called `name`.
fn find_position(list: &Vec<Mapping>, name: &str) -> (r: usize)
    ensures
        r == position(list.deep_view(), name@),
{
    let ghost all = list.deep_view();
    let mut i: usize = 0;
    while i < list.len()
        invariant
            i <= list@.len(),
            all == list.deep_view(),
            forall|j: int| 0 <= j < i ==> (#[trigger] all[j]).name != name@,
        decreases list@.len() - i,
    {
        if text::same(list[i].name.as_str(), name) {
            proof {
                lemma_position_is(all, name@, i as int);
            }
            return i;
        }
        i += 1;
    }
    proof {
        lemma_position_is(all, name@, i as int);
    }
    i
}

/// Whether some mapping of the list is called `name`.
fn has_mapping(list: &Vec<Mapping>, name: &str) -> (r: bool)
    ensures
        r == has_name(list.deep_view(), name@),
{
    let k = find_position(list, name);
    proof {
        lemma_position(list.deep_view(), name@);
    }
    k < list.len()
}

/// The first mappings of each name have the same names.
proof fn lemma_first_has(s: Seq<MappingView>, name: Seq<char>)
    ensures
        has_name(first_of_each(s), name) == has_name(s, name),
    decreases s.len(),
{
    if s.len() > 0 {
        let front = s.drop_last();
        lemma_first_has(front, name);
        let f = first_of_each(front);
        if has_name(front, name) {
            let i = choose|i: int| 0 <= i < front.len() && (#[trigger] front[i]).name == name;
            assert(s[i].name == name);
            let j = choose|j: int| 0 <= j < f.len() && (#[trigger] f[j]).name == name;
            assert(first_of_each(s)[j].name == name);
        }
        if s.last().name == name {
            assert(s[s.len() - 1].name == name);
            if !has_name(front, name) {
                assert(first_of_each(s)[f.len() as int].name == name);
            }
        }
        if has_name(s, name) {
            let i = choose|i: int| 0 <= i < s.len() && (#[trigger] s[i]).name == name;
            if i < front.len() {
                assert(front[i].name == name);
            }
        }
        if has_name(first_of_each(s), name) {
            let r = first_of_each(s);
            let j = choose|j: int| 0 <= j < r.len() && (#[trigger] r[j]).name == name;
            if j < f.len() {
                assert(f[j].name == name);
            } else {
                assert(s[s.len() - 1].name == name);
            }
        }
    }
}

/// Put `m` behind the mappings that do not come after it.
fn place_by_name(sorted: &mut Vec<Mapping>, m: Mapping)
    ensures
        final(sorted).deep_view() == placed_by_name(old(sorted).deep_view(), m@),
{
    let ghost s = sorted.deep_view();
    let mut k: usize = sorted.len();
    assert(s.take(k as int) =~= s);
    assert(placed_by_name(s, m@) =~= placed_by_name(s.take(k as int), m@) + s.skip(k as int));
    while k > 0
        invariant
            k <= sorted@.len(),
            sorted.deep_view() == s,
            placed_by_name(s, m@) == placed_by_name(s.take(k as int), m@) + s.skip(k as int),
        ensures
            k > 0 ==> !order::before(m@.name, s[k - 1].name),
        decreases k,
    {
        let ghost lead = s.take(k as int);
        assert(lead.last() == sorted@[k - 1]@);
        if !order::comes_before(m.name.as_str(), sorted[k - 1].name.as_str()) {
            break;
        }
        assert(lead.drop_last() =~= s.take(k - 1));
        assert(placed_by_name(s.take(k - 1), m@).push(lead.last()) + s.skip(k as int)
            =~= placed_by_name(s.take(k - 1), m@) + s.skip(k - 1));
        k -= 1;
    }
    assert(placed_by_name(s.take(k as int), m@) == s.take(k as int).push(m@));
    sorted.insert(k, m);
    assert(sorted.deep_view() =~= s.take(k as int).push(m@) + s.skip(k as int));
}

/// The word for the system that the platform is, as `std::env::consts::OS` names
/// it.
pub fn current_os(platform: &str) -> (r: &'static str)
    ensures
        r@ == (if platform@ == "macos"@ {
            "mac"@
        } else if platform@ == "linux"@ {
            "linux"@
        } else {
            "other"@
        }),
{
    if text::same(platform, "macos") {
        "mac"
    } else if text::same(platform, "linux") {
        "linux"
    } else {
        "other"
    }
}

} // verus!
