//! Finding the cloud folder. The common cloud-provider roots of each platform
//! give two kinds of candidate: `dotsync` folders that exist, at a root or one
//! level down, and a `<provider>/Apps/dotsync` folder to create, so that the
//! root itself is never littered. Purely advisory: the user always confirms.
use vstd::prelude::*;
use vstd::string::*;

use crate::mapping;
use crate::path;
use crate::targets;
use crate::text;

verus! {

/// A candidate sync folder.
#[derive(Debug)]
pub struct Candidate {
    /// The cloud provider's label.
    pub provider: String,
    /// The folder, existing or proposed for creation.
    pub path: String,
    /// Whether the folder exists.
    pub exists: bool,
    /// Whether it holds a mapping document.
    pub configured: bool,
}

/// What a candidate holds.
#[verifier::ext_equal]
pub struct CandidateView {
    pub provider: Seq<char>,
    pub path: Seq<char>,
    pub exists: bool,
    pub configured: bool,
}

impl View for Candidate {
    type V = CandidateView;

    open spec fn view(&self) -> CandidateView {
        CandidateView {
            provider: self.provider@,
            path: self.path@,
            exists: self.exists,
            configured: self.configured,
        }
    }
}

impl DeepView for Candidate {
    type V = CandidateView;

    open spec fn deep_view(&self) -> CandidateView {
        self@
    }
}

impl Clone for Candidate {
    fn clone(&self) -> (r: Self)
        ensures
            r == *self,
    {
        Candidate {
            provider: self.provider.clone(),
            path: self.path.clone(),
            exists: self.exists,
            configured: self.configured,
        }
    }
}

/// The folder name that is looked for and proposed.
pub const MARKER: &'static str = "dotsync";

// ---------------------------------------------------------------------------
// Where to look
// ---------------------------------------------------------------------------

/// The roots among the unified cloud clients, where `names` are the entries of
/// that directory. The label is what comes before the first `-` or `_`.
pub open spec fn client_roots(dir: Seq<char>, names: Seq<Seq<char>>) -> Seq<(Seq<char>, Seq<char>)> {
    names.map_values(
        |name: Seq<char>| (text::split(name, seq!['-', '_'])[0], path::joined(dir, name)),
    )
}

/// The roots at fixed places in the home directory.
pub open spec fn fixed_roots(home: Seq<char>) -> Seq<(Seq<char>, Seq<char>)> {
    seq![
        ("iCloud"@, path::joined(home, "Library/Mobile Documents/com~apple~CloudDocs"@)),
        ("Nextcloud"@, path::joined(home, "Nextcloud"@)),
        ("Dropbox"@, path::joined(home, "Dropbox"@)),
        ("OneDrive"@, path::joined(home, "OneDrive"@)),
        ("ProtonDrive"@, path::joined(home, "ProtonDrive"@)),
        ("ProtonDrive"@, path::joined(home, "Proton Drive"@)),
        ("GoogleDrive"@, path::joined(home, "Google Drive"@)),
        ("Sync"@, path::joined(home, "Sync"@)),
    ]
}

/// Where the unified cloud clients of macOS have their directories.
pub fn client_dir(home: &str) -> (r: String)
    ensures
        r@ == path::joined(home@, "Library/CloudStorage"@),
{
    path::join_path(home, "Library/CloudStorage")
}

/// A provider root: its label and its path.
#[derive(Debug)]
pub struct Root {
    pub provider: String,
    pub path: String,
}

impl View for Root {
    type V = (Seq<char>, Seq<char>);

    open spec fn view(&self) -> (Seq<char>, Seq<char>) {
        (self.provider@, self.path@)
    }
}

impl DeepView for Root {
    type V = (Seq<char>, Seq<char>);

    open spec fn deep_view(&self) -> (Seq<char>, Seq<char>) {
        self@
    }
}

fn fixed_root(home: &str, label: &str, rel: &str) -> (r: Root)
    ensures
        r@ == (label@, path::joined(home@, rel@)),
{
    Root { provider: label.to_owned(), path: path::join_path(home, rel) }
}

/// The provider roots to probe, where `clients` are the entries of
/// [`client_dir`].
pub fn provider_roots(home: &str, clients: &Vec<String>) -> (r: Vec<Root>)
    ensures
        r.deep_view() == client_roots(
            path::joined(home@, "Library/CloudStorage"@),
            clients.deep_view(),
        ) + fixed_roots(home@),
{
    let dir = client_dir(home);
    let ghost names = clients.deep_view();
    let ghost all = client_roots(dir@, names);
    let mut r: Vec<Root> = Vec::new();
    let mut i: usize = 0;
    assert(r.deep_view() =~= all.take(0));
    while i < clients.len()
        invariant
            i <= clients@.len(),
            names == clients.deep_view(),
            all == client_roots(dir@, names),
            r.deep_view() == all.take(i as int),
        decreases clients@.len() - i,
    {
        let ghost before = r.deep_view();
        let name = clients[i].as_str();
        let seps: [char; 2] = ['-', '_'];
        let pieces = text::split_text(name, seps.as_slice());
        proof {
            assert(seps@ =~= seq!['-', '_']);
            text::lemma_split_nonempty(name@, seq!['-', '_']);
            assert(pieces@[0]@ == pieces.deep_view()[0]);
        }
        let root = Root { provider: pieces[0].clone(), path: path::join_path(dir.as_str(), name) };
        r.push(root);
        assert(names[i as int] == name@);
        assert(root@ == all[i as int]);
        assert(r.deep_view() =~= before.push(all[i as int]));
        assert(all.take(i + 1) =~= all.take(i as int).push(all[i as int]));
        i += 1;
    }
    assert(all.take(i as int) =~= all);
    r.push(fixed_root(home, "iCloud", "Library/Mobile Documents/com~apple~CloudDocs"));
    r.push(fixed_root(home, "Nextcloud", "Nextcloud"));
    r.push(fixed_root(home, "Dropbox", "Dropbox"));
    r.push(fixed_root(home, "OneDrive", "OneDrive"));
    r.push(fixed_root(home, "ProtonDrive", "ProtonDrive"));
    r.push(fixed_root(home, "ProtonDrive", "Proton Drive"));
    r.push(fixed_root(home, "GoogleDrive", "Google Drive"));
    r.push(fixed_root(home, "Sync", "Sync"));
    assert(r.deep_view() =~= all + fixed_roots(home@));
    r
}

/// The folder directly at a provider root.
pub fn direct_folder(root: &str) -> (r: String)
    ensures
        r@ == path::joined(root@, MARKER@),
{
    path::join_path(root, MARKER)
}

/// The folder in a directory of a provider root.
pub fn nested_folder(root: &str, dir: &str) -> (r: String)
    ensures
        r@ == path::joined(path::joined(root@, dir@), MARKER@),
{
    path::join_path(path::join_path(root, dir).as_str(), MARKER)
}

// ---------------------------------------------------------------------------
// What was found
// ---------------------------------------------------------------------------

/// A folder that exists.
#[derive(Debug)]
pub struct Folder {
    pub path: String,
    /// Where it is once every symlink is resolved.
    pub resolved: Option<String>,
    /// Whether it holds a mapping document.
    pub configured: bool,
}

/// What was found at a provider root.
#[derive(Debug)]
pub struct RootFacts {
    pub provider: String,
    pub path: String,
    /// Whether the root is a directory.
    pub is_dir: bool,
    /// The [`direct_folder`] and the [`nested_folder`]s that exist, in order.
    pub existing: Vec<Folder>,
    /// Whether the folder to propose is there already.
    pub proposed_exists: bool,
    /// Where the folder to propose is once every symlink is resolved.
    pub proposed_resolved: Option<String>,
}

/// What a folder's facts hold.
#[verifier::ext_equal]
pub struct FolderView {
    pub path: Seq<char>,
    pub resolved: Option<Seq<char>>,
    pub configured: bool,
}

impl View for Folder {
    type V = FolderView;

    open spec fn view(&self) -> FolderView {
        FolderView {
            path: self.path@,
            resolved: self.resolved.deep_view(),
            configured: self.configured,
        }
    }
}

impl DeepView for Folder {
    type V = FolderView;

    open spec fn deep_view(&self) -> FolderView {
        self@
    }
}

/// What a root's facts hold.
#[verifier::ext_equal]
pub struct RootView {
    pub provider: Seq<char>,
    pub path: Seq<char>,
    pub is_dir: bool,
    pub existing: Seq<FolderView>,
    pub proposed_exists: bool,
    pub proposed_resolved: Option<Seq<char>>,
}

impl View for RootFacts {
    type V = RootView;

    open spec fn view(&self) -> RootView {
        RootView {
            provider: self.provider@,
            path: self.path@,
            is_dir: self.is_dir,
            existing: self.existing.deep_view(),
            proposed_exists: self.proposed_exists,
            proposed_resolved: self.proposed_resolved.deep_view(),
        }
    }
}

impl DeepView for RootFacts {
    type V = RootView;

    open spec fn deep_view(&self) -> RootView {
        self@
    }
}

/// A candidate with the location that tells it from others.
#[verifier::ext_equal]
pub struct Sighting {
    pub candidate: CandidateView,
    pub key: Seq<char>,
}

/// A location where it could be resolved, else the path itself.
pub open spec fn key_of(path: Seq<char>, resolved: Option<Seq<char>>) -> Seq<char> {
    match resolved {
        Some(at) => at,
        None => path,
    }
}

/// The folder to propose at a provider root.
pub open spec fn proposal(root: Seq<char>) -> Seq<char> {
    path::joined(path::joined(root, "Apps"@), MARKER@)
}

/// The folder to propose at a provider root.
pub fn proposed_folder(root: &str) -> (r: String)
    ensures
        r@ == proposal(root@),
{
    path::join_path(path::join_path(root, "Apps").as_str(), MARKER)
}

/// What a root shows, before what was seen already is left out: the folders
/// that exist, then the one to propose unless it is there.
pub open spec fn shown(root: RootView) -> Seq<Sighting> {
    if !root.is_dir {
        seq![]
    } else {
        let existing = root.existing.map_values(
            |f: FolderView|
                Sighting {
                    candidate: CandidateView {
                        provider: root.provider,
                        path: f.path,
                        exists: true,
                        configured: f.configured,
                    },
                    key: key_of(f.path, f.resolved),
                },
        );
        if root.proposed_exists {
            existing
        } else {
            existing.push(
                Sighting {
                    candidate: CandidateView {
                        provider: root.provider,
                        path: proposal(root.path),
                        exists: false,
                        configured: false,
                    },
                    key: key_of(proposal(root.path), root.proposed_resolved),
                },
            )
        }
    }
}

/// Whether a location was seen.
pub open spec fn was_seen(seen: Seq<Sighting>, key: Seq<char>) -> bool {
    exists|i: int| 0 <= i < seen.len() && path::same_path((#[trigger] seen[i]).key, key)
}

/// The sightings with another one at the end, unless its location was seen.
pub open spec fn noticed(seen: Seq<Sighting>, s: Sighting) -> Seq<Sighting> {
    if was_seen(seen, s.key) {
        seen
    } else {
        seen.push(s)
    }
}

/// The sightings with others after them, each unless its location was seen.
pub open spec fn noticed_all(seen: Seq<Sighting>, more: Seq<Sighting>) -> Seq<Sighting>
    decreases more.len(),
{
    if more.len() == 0 {
        seen
    } else {
        noticed(noticed_all(seen, more.drop_last()), more.last())
    }
}

/// What all roots show, each location once.
pub open spec fn sightings(roots: Seq<RootView>) -> Seq<Sighting>
    decreases roots.len(),
{
    if roots.len() == 0 {
        seq![]
    } else {
        noticed_all(sightings(roots.drop_last()), shown(roots.last()))
    }
}

/// The candidates of that kind, in order.
pub open spec fn of_kind(seen: Seq<Sighting>, configured: bool, exists_already: bool) -> Seq<
    CandidateView,
>
    decreases seen.len(),
{
    if seen.len() == 0 {
        seq![]
    } else {
        let c = seen.last().candidate;
        let front = of_kind(seen.drop_last(), configured, exists_already);
        if c.configured == configured && c.exists == exists_already {
            front.push(c)
        } else {
            front
        }
    }
}

/// The candidates, configured ones first, then others that exist, then the
/// proposals.
pub open spec fn ranked(seen: Seq<Sighting>) -> Seq<CandidateView> {
    of_kind(seen, true, true) + of_kind(seen, true, false) + of_kind(seen, false, true) + of_kind(
        seen,
        false,
        false,
    )
}

/// The candidates and the locations that were seen, side by side.
struct Gathered {
    pub candidates: Vec<Candidate>,
    pub keys: Vec<String>,
}

impl Gathered {
    spec fn holds(&self, seen: Seq<Sighting>) -> bool {
        &&& self.candidates@.len() == seen.len()
        &&& self.keys@.len() == seen.len()
        &&& forall|i: int|
            0 <= i < seen.len() ==> #[trigger] seen[i] == (Sighting {
                candidate: self.candidates@[i]@,
                key: self.keys@[i]@,
            })
    }
}

fn seen_before(keys: &Vec<String>, key: &str) -> (r: bool)
    ensures
        r == exists|i: int| 0 <= i < keys@.len() && path::same_path((#[trigger] keys@[i])@, key@),
{
    let mut i: usize = 0;
    while i < keys.len()
        invariant
            i <= keys@.len(),
            forall|j: int| 0 <= j < i ==> !path::same_path((#[trigger] keys@[j])@, key@),
        decreases keys@.len() - i,
    {
        if path::same(keys[i].as_str(), key) {
            assert(path::same_path(keys@[i as int]@, key@));
            return true;
        }
        i += 1;
    }
    false
}

fn push_unique(
    out: &mut Gathered,
    candidate: Candidate,
    resolved: &Option<String>,
    Ghost(seen): Ghost<Seq<Sighting>>,
)
    requires
        old(out).holds(seen),
    ensures
        final(out).holds(
            noticed(
                seen,
                Sighting {
                    candidate: candidate@,
                    key: key_of(candidate@.path, resolved.deep_view()),
                },
            ),
        ),
{
    let key = match resolved {
        Some(at) => at.clone(),
        None => candidate.path.clone(),
    };
    proof {
        assert forall|i: int| 0 <= i < seen.len() implies (#[trigger] seen[i]).key
            == out.keys@[i]@ by {}
        if was_seen(seen, key@) {
            let i = choose|i: int|
                0 <= i < seen.len() && path::same_path((#[trigger] seen[i]).key, key@);
            assert(path::same_path(out.keys@[i]@, key@));
        }
        if exists|i: int|
            0 <= i < out.keys@.len() && path::same_path((#[trigger] out.keys@[i])@, key@) {
            let i = choose|i: int|
                0 <= i < out.keys@.len() && path::same_path((#[trigger] out.keys@[i])@, key@);
            assert(path::same_path(seen[i].key, key@));
        }
    }
    if seen_before(&out.keys, key.as_str()) {
        return ;
    }
    out.candidates.push(candidate);
    out.keys.push(key);
}

fn gather_root(out: &mut Gathered, root: &RootFacts, Ghost(seen): Ghost<Seq<Sighting>>)
    requires
        old(out).holds(seen),
    ensures
        final(out).holds(noticed_all(seen, shown(root@))),
{
    if !root.is_dir {
        return ;
    }
    let ghost all = shown(root@);
    let mut i: usize = 0;
    assert(noticed_all(seen, all.take(0)) == seen);
    while i < root.existing.len()
        invariant
            i <= root.existing@.len(),
            root.is_dir,
            all == shown(root@),
            out.holds(noticed_all(seen, all.take(i as int))),
        decreases root.existing@.len() - i,
    {
        let f = &root.existing[i];
        let candidate = Candidate {
            provider: root.provider.clone(),
            path: f.path.clone(),
            exists: true,
            configured: f.configured,
        };
        let ghost s = Sighting {
            candidate: candidate@,
            key: key_of(candidate@.path, f.resolved.deep_view()),
        };
        proof {
            assert(root@.existing[i as int] == f@);
            assert(all[i as int] == s);
            assert(all.take(i + 1).drop_last() =~= all.take(i as int));
            assert(all.take(i + 1).last() == s);
        }
        push_unique(out, candidate, &f.resolved, Ghost(noticed_all(seen, all.take(i as int))));
        i += 1;
    }
    if !root.proposed_exists {
        let path = proposed_folder(root.path.as_str());
        let candidate = Candidate {
            provider: root.provider.clone(),
            path,
            exists: false,
            configured: false,
        };
        proof {
            assert(all.drop_last() =~= all.take(i as int));
            assert(all.last() == (Sighting {
                candidate: candidate@,
                key: key_of(candidate@.path, root.proposed_resolved.deep_view()),
            }));
        }
        push_unique(
            out,
            candidate,
            &root.proposed_resolved,
            Ghost(noticed_all(seen, all.take(i as int))),
        );
    } else {
        assert(all.take(i as int) =~= all);
    }
}

fn take_kind(
    candidates: &Vec<Candidate>,
    configured: bool,
    exists_already: bool,
    out: &mut Vec<Candidate>,
    Ghost(seen): Ghost<Seq<Sighting>>,
)
    requires
        candidates@.len() == seen.len(),
        forall|i: int|
            0 <= i < seen.len() ==> (#[trigger] seen[i]).candidate == candidates@[i]@,
    ensures
        final(out).deep_view() == old(out).deep_view() + of_kind(seen, configured, exists_already),
{
    let ghost start = out.deep_view();
    let mut i: usize = 0;
    assert(start =~= start + of_kind(seen.take(0), configured, exists_already));
    while i < candidates.len()
        invariant
            i <= candidates@.len(),
            candidates@.len() == seen.len(),
            forall|j: int|
                0 <= j < seen.len() ==> (#[trigger] seen[j]).candidate == candidates@[j]@,
            out.deep_view() == start + of_kind(seen.take(i as int), configured, exists_already),
        decreases candidates@.len() - i,
    {
        let ghost before = out.deep_view();
        let c = &candidates[i];
        proof {
            assert(seen.take(i + 1).drop_last() =~= seen.take(i as int));
            assert(seen.take(i + 1).last() == seen[i as int]);
        }
        if c.configured == configured && c.exists == exists_already {
            out.push(c.clone());
            assert(out.deep_view() =~= before.push(c@));
        }
        assert(out.deep_view() =~= start + of_kind(seen.take(i + 1), configured, exists_already));
        i += 1;
    }
    assert(seen.take(i as int) =~= seen);
}

/// The existing and proposed cloud folders at all provider roots, each location
/// once: configured ones first, then others that exist, then the proposals.
pub fn discover(roots: &Vec<RootFacts>) -> (r: Vec<Candidate>)
    ensures
        r.deep_view() == ranked(sightings(roots.deep_view())),
{
    let ghost all = roots.deep_view();
    let mut out = Gathered { candidates: Vec::new(), keys: Vec::new() };
    let mut i: usize = 0;
    assert(all.take(0) =~= Seq::<RootView>::empty());
    while i < roots.len()
        invariant
            i <= roots@.len(),
            all == roots.deep_view(),
            out.holds(sightings(all.take(i as int))),
        decreases roots@.len() - i,
    {
        proof {
            assert(all.take(i + 1).drop_last() =~= all.take(i as int));
            assert(all.take(i + 1).last() == roots@[i as int]@);
        }
        gather_root(&mut out, &roots[i], Ghost(sightings(all.take(i as int))));
        i += 1;
    }
    assert(all.take(i as int) =~= all);
    let ghost seen = sightings(all);
    let mut r: Vec<Candidate> = Vec::new();
    assert(r.deep_view() =~= Seq::<CandidateView>::empty());
    take_kind(&out.candidates, true, true, &mut r, Ghost(seen));
    take_kind(&out.candidates, true, false, &mut r, Ghost(seen));
    take_kind(&out.candidates, false, true, &mut r, Ghost(seen));
    take_kind(&out.candidates, false, false, &mut r, Ghost(seen));
    assert(r.deep_view() =~= ranked(seen));
    r
}

/// No location is offered twice.
pub proof fn law_each_location_once(roots: Seq<RootView>)
    ensures
        forall|i: int, j: int|
            #![trigger sightings(roots)[i], sightings(roots)[j]]
            0 <= i < j < sightings(roots).len() ==> !path::same_path(
                sightings(roots)[i].key,
                sightings(roots)[j].key,
            ),
    decreases roots.len(),
{
    if roots.len() > 0 {
        law_each_location_once(roots.drop_last());
        lemma_noticed_all_distinct(sightings(roots.drop_last()), shown(roots.last()));
    }
}

spec fn distinct(s: Seq<Sighting>) -> bool {
    forall|i: int, j: int|
        #![trigger s[i], s[j]]
        0 <= i < j < s.len() ==> !path::same_path(s[i].key, s[j].key)
}

proof fn lemma_noticed_all_distinct(seen: Seq<Sighting>, more: Seq<Sighting>)
    requires
        distinct(seen),
    ensures
        distinct(noticed_all(seen, more)),
    decreases more.len(),
{
    if more.len() > 0 {
        lemma_noticed_all_distinct(seen, more.drop_last());
        let front = noticed_all(seen, more.drop_last());
        if !was_seen(front, more.last().key) {
            let all = front.push(more.last());
            assert forall|i: int, j: int|
                #![trigger all[i], all[j]]
                0 <= i < j < all.len() implies !path::same_path(all[i].key, all[j].key) by {
                assert(all[i] == front[i]);
                if j < front.len() {
                    assert(all[j] == front[j]);
                }
            }
        }
    }
}

// ---------------------------------------------------------------------------
// Choosing without asking
// ---------------------------------------------------------------------------

/// The paths of the candidates that exist, in order.
pub open spec fn existing_paths(candidates: Seq<CandidateView>) -> Seq<Seq<char>>
    decreases candidates.len(),
{
    if candidates.len() == 0 {
        seq![]
    } else if candidates.last().exists {
        existing_paths(candidates.drop_last()).push(candidates.last().path)
    } else {
        existing_paths(candidates.drop_last())
    }
}

/// The paths of the candidates that exist, in order.
pub fn list_existing(candidates: &Vec<Candidate>) -> (r: Vec<String>)
    ensures
        r.deep_view() == existing_paths(candidates.deep_view()),
{
    let ghost all = candidates.deep_view();
    let mut r: Vec<String> = Vec::new();
    let mut i: usize = 0;
    assert(r.deep_view() =~= existing_paths(all.take(0)));
    while i < candidates.len()
        invariant
            i <= candidates@.len(),
            all == candidates.deep_view(),
            r.deep_view() == existing_paths(all.take(i as int)),
        decreases candidates@.len() - i,
    {
        let ghost before = r.deep_view();
        let c = &candidates[i];
        assert(all.take(i + 1).drop_last() =~= all.take(i as int));
        assert(all.take(i + 1).last() == c@);
        if c.exists {
            r.push(c.path.clone());
            assert(r.deep_view() =~= before.push(c@.path));
        }
        i += 1;
    }
    assert(all.take(i as int) =~= all);
    r
}

/// How a candidate is offered for choosing.
pub open spec fn offer(c: CandidateView, home: Seq<char>) -> Seq<char> {
    let tag = if c.configured {
        ", configured"@
    } else if c.exists {
        ""@
    } else {
        " — create here"@
    };
    mapping::tilde_collapsed(c.path, home) + "  ("@ + c.provider + tag + ")"@
}

/// How a candidate is offered for choosing.
pub fn offer_label(c: &Candidate, home: &str) -> (r: String)
    ensures
        r@ == offer(c@, home@),
{
    let tag = if c.configured {
        ", configured"
    } else if c.exists {
        ""
    } else {
        " — create here"
    };
    mapping::collapse_tilde(c.path.as_str(), home).concat("  (").concat(c.provider.as_str()).concat(
        tag,
    ).concat(")")
}

// ---------------------------------------------------------------------------
// What is offered
// ---------------------------------------------------------------------------

/// A provider's root that is no directory offers nothing. One that is offers every
/// folder found in it, as one that is there, and where its own folder is not there
/// yet, that one, as one to create.
pub proof fn law_a_root_offers_what_is_in_it(root: RootView, i: int)
    ensures
        !root.is_dir ==> shown(root).len() == 0,
        root.is_dir ==> shown(root).len() == root.existing.len() + (if root.proposed_exists {
            0int
        } else {
            1int
        }),
        root.is_dir && 0 <= i < root.existing.len() ==> shown(root)[i].candidate == (CandidateView {
            provider: root.provider,
            path: root.existing[i].path,
            exists: true,
            configured: root.existing[i].configured,
        }) && shown(root)[i].key == (match root.existing[i].resolved {
            Some(at) => at,
            None => root.existing[i].path,
        }),
        root.is_dir && !root.proposed_exists ==> shown(root).last().candidate == (CandidateView {
            provider: root.provider,
            path: path::joined(path::joined(root.path, "Apps"@), "dotsync"@),
            exists: false,
            configured: false,
        }),
{
}

/// Nothing that is offered is lost: its location is among those seen. And nothing is
/// made up: what was seen is what some root offers.
pub proof fn law_every_location_is_seen(roots: Seq<RootView>, k: int, s: Sighting)
    requires
        0 <= k < roots.len(),
    ensures
        shown(roots[k]).contains(s) ==> was_seen(sightings(roots), s.key),
        sightings(roots).contains(s) ==> exists|j: int|
            0 <= j < roots.len() && shown(#[trigger] roots[j]).contains(s),
    decreases roots.len(),
{
    let front = roots.drop_last();
    let before = sightings(front);
    let more = shown(roots.last());
    lemma_noticed_all(before, more, s);
    assert(roots[roots.len() - 1] == roots.last());
    if front.len() > 0 {
        law_every_location_is_seen(
            front,
            if k < front.len() {
                k
            } else {
                0
            },
            s,
        );
        if k < front.len() {
            assert(front[k] == roots[k]);
        }
        if before.contains(s) {
            let j = choose|j: int| 0 <= j < front.len() && shown(#[trigger] front[j]).contains(s);
            assert(roots[j] == front[j]);
        }
    }
}

proof fn lemma_noticed_all(seen: Seq<Sighting>, more: Seq<Sighting>, s: Sighting)
    ensures
        was_seen(seen, s.key) || more.contains(s) ==> was_seen(noticed_all(seen, more), s.key),
        noticed_all(seen, more).contains(s) ==> seen.contains(s) || more.contains(s),
    decreases more.len(),
{
    if more.len() > 0 {
        let front = more.drop_last();
        lemma_noticed_all(seen, front, s);
        let before = noticed_all(seen, front);
        let now = noticed_all(seen, more);
        let last = more.last();
        assert(more[more.len() - 1] == last);
        if front.contains(s) {
            let i = choose|i: int| 0 <= i < front.len() && front[i] == s;
            assert(more[i] == s);
        }
        if was_seen(before, s.key) {
            let i = choose|i: int|
                0 <= i < before.len() && path::same_path((#[trigger] before[i]).key, s.key);
            assert(path::same_path(now[i].key, s.key));
        }
        if more.contains(s) {
            let i = choose|i: int| 0 <= i < more.len() && more[i] == s;
            if i < front.len() {
                assert(front[i] == s);
            } else if was_seen(before, last.key) {
                assert(was_seen(now, s.key));
            } else {
                assert(now[before.len() as int] == s);
                assert(path::same_path(now[before.len() as int].key, s.key));
            }
        }
        if now.contains(s) {
            let i = choose|i: int| 0 <= i < now.len() && now[i] == s;
            if i < before.len() {
                assert(before[i] == s);
            } else {
                assert(s == last);
            }
        }
    }
}

/// How early a candidate is offered: a configured one first, and of those alike one
/// that is there first.
pub open spec fn turn(c: CandidateView) -> int {
    (if c.configured {
        0int
    } else {
        2int
    }) + (if c.exists {
        0int
    } else {
        1int
    })
}

/// What was seen is offered, all of it and nothing else, those that are configured
/// before those that are not, and of those alike what is there before what is not.
pub proof fn law_candidates_are_offered_in_turn(seen: Seq<Sighting>, c: CandidateView)
    ensures
        ranked(seen).len() == seen.len(),
        ranked(seen).contains(c) <==> exists|i: int|
            0 <= i < seen.len() && (#[trigger] seen[i]).candidate == c,
        forall|i: int, j: int|
            0 <= i < j < ranked(seen).len() ==> turn(#[trigger] ranked(seen)[i]) <= turn(
                #[trigger] ranked(seen)[j],
            ),
{
    let a = of_kind(seen, true, true);
    let b = of_kind(seen, true, false);
    let d = of_kind(seen, false, true);
    let e = of_kind(seen, false, false);
    lemma_kinds_count(seen);
    lemma_of_kind(seen, true, true, c);
    lemma_of_kind(seen, true, false, c);
    lemma_of_kind(seen, false, true, c);
    lemma_of_kind(seen, false, false, c);
    lemma_candidate_in_sum(a, b, c);
    lemma_candidate_in_sum(a + b, d, c);
    lemma_candidate_in_sum(a + b + d, e, c);
    let r = ranked(seen);
    assert forall|i: int| 0 <= i < r.len() implies turn(#[trigger] r[i]) == (if i < a.len() {
        0int
    } else if i < a.len() + b.len() {
        1int
    } else if i < a.len() + b.len() + d.len() {
        2int
    } else {
        3int
    }) by {
        if i < a.len() {
            assert(r[i] == a[i]);
        } else if i < a.len() + b.len() {
            assert(r[i] == b[i - a.len()]);
        } else if i < a.len() + b.len() + d.len() {
            assert(r[i] == d[i - a.len() - b.len()]);
        } else {
            assert(r[i] == e[i - a.len() - b.len() - d.len()]);
        }
    }
}

proof fn lemma_kinds_count(seen: Seq<Sighting>)
    ensures
        of_kind(seen, true, true).len() + of_kind(seen, true, false).len() + of_kind(
            seen,
            false,
            true,
        ).len() + of_kind(seen, false, false).len() == seen.len(),
    decreases seen.len(),
{
    if seen.len() > 0 {
        lemma_kinds_count(seen.drop_last());
    }
}

proof fn lemma_of_kind(
    seen: Seq<Sighting>,
    configured: bool,
    exists_already: bool,
    c: CandidateView,
)
    ensures
        forall|i: int|
            0 <= i < of_kind(seen, configured, exists_already).len() ==> (#[trigger] of_kind(
                seen,
                configured,
                exists_already,
            )[i]).configured == configured && of_kind(seen, configured, exists_already)[i].exists
                == exists_already,
        of_kind(seen, configured, exists_already).contains(c) <==> c.configured == configured
            && c.exists == exists_already && exists|i: int|
            0 <= i < seen.len() && (#[trigger] seen[i]).candidate == c,
    decreases seen.len(),
{
    if seen.len() > 0 {
        let front = seen.drop_last();
        lemma_of_kind(front, configured, exists_already, c);
        let before = of_kind(front, configured, exists_already);
        let last = seen.last().candidate;
        let one = if last.configured == configured && last.exists == exists_already {
            seq![last]
        } else {
            seq![]
        };
        let now = of_kind(seen, configured, exists_already);
        assert(now =~= before + one);
        lemma_candidate_in_sum(before, one, c);
        assert(one.len() > 0 ==> one[0] == last);
        assert(seen[seen.len() - 1].candidate == last);
        if exists|i: int| 0 <= i < front.len() && (#[trigger] front[i]).candidate == c {
            let i = choose|i: int| 0 <= i < front.len() && (#[trigger] front[i]).candidate == c;
            assert(seen[i].candidate == c);
        }
        if exists|i: int| 0 <= i < seen.len() && (#[trigger] seen[i]).candidate == c {
            let i = choose|i: int| 0 <= i < seen.len() && (#[trigger] seen[i]).candidate == c;
            if i < front.len() {
                assert(front[i].candidate == c);
            }
        }
    }
}

proof fn lemma_candidate_in_sum(a: Seq<CandidateView>, b: Seq<CandidateView>, c: CandidateView)
    ensures
        (a + b).contains(c) <==> a.contains(c) || b.contains(c),
{
    if a.contains(c) {
        let i = choose|i: int| 0 <= i < a.len() && a[i] == c;
        assert((a + b)[i] == c);
    }
    if b.contains(c) {
        let i = choose|i: int| 0 <= i < b.len() && b[i] == c;
        assert((a + b)[a.len() + i] == c);
    }
    if (a + b).contains(c) {
        let i = choose|i: int| 0 <= i < (a + b).len() && (a + b)[i] == c;
        if i < a.len() {
            assert(a[i] == c);
        } else {
            assert(b[i - a.len()] == c);
        }
    }
}

/// A cloud client's folder is listed under the provider that its name begins with,
/// up to the first hyphen or underscore, and lies in the clients' directory.
pub proof fn law_a_client_is_named_by_its_beginning(
    dir: Seq<char>,
    provider: Seq<char>,
    mark: char,
    account: Seq<char>,
)
    requires
        !provider.contains('-'),
        !provider.contains('_'),
        mark == '-' || mark == '_',
    ensures
        client_roots(dir, seq![provider + seq![mark] + account]) == seq![
            (provider, path::joined(dir, provider + seq![mark] + account)),
        ],
        client_roots(dir, seq![provider]) == seq![(provider, path::joined(dir, provider))],
{
    let seps = seq!['-', '_'];
    assert(seps[0] == '-' && seps[1] == '_');
    assert(seps.contains(mark));
    lemma_unsplit(provider);
    targets::lemma_split_concat(provider, mark, account, seps);
    let name = provider + seq![mark] + account;
    assert(text::split(name, seps)[0] == provider);
    assert(client_roots(dir, seq![name]) =~= seq![(provider, path::joined(dir, name))]);
    assert(client_roots(dir, seq![provider]) =~= seq![(provider, path::joined(dir, provider))]);
}

proof fn lemma_unsplit(s: Seq<char>)
    requires
        !s.contains('-'),
        !s.contains('_'),
    ensures
        text::split(s, seq!['-', '_']) == seq![s],
    decreases s.len(),
{
    let seps = seq!['-', '_'];
    if s.len() > 0 {
        let front = s.drop_last();
        assert forall|i: int| 0 <= i < front.len() implies front[i] != '-' && front[i] != '_' by {
            assert(s[i] != '-' && s[i] != '_');
        }
        lemma_unsplit(front);
        assert(s[s.len() - 1] != '-' && s[s.len() - 1] != '_');
        assert(!seps.contains(s.last()));
        assert(front.push(s.last()) =~= s);
        assert(text::split(s, seps) =~= seq![s]);
    } else {
        assert(s =~= Seq::<char>::empty());
        assert(text::split(s, seps) =~= seq![s]);
    }
}

} // verus!
