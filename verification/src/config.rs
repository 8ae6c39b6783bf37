//! Per-machine configuration: where this machine's sync folder is, and the home
//! base that mapping targets are resolved against.
//!
//! This is the only per-machine state. Which mappings are active on a machine
//! is recorded by the symlinks themselves: the filesystem is the source of
//! truth.
use vstd::prelude::*;
use vstd::string::*;

use crate::error::{Error, ErrorView};
use crate::mapping;
use crate::path;
use crate::targets;
use crate::text;

verus! {

/// Resolved per-machine configuration.
#[derive(Debug)]
pub struct Config {
    /// The folder inside the cloud provider's synced directory.
    pub sync_dir: String,
    /// The base directory that mapping targets are relative to.
    pub home: String,
}

/// What a configuration holds.
#[verifier::ext_equal]
pub struct ConfigView {
    pub sync_dir: Seq<char>,
    pub home: Seq<char>,
}

impl View for Config {
    type V = ConfigView;

    open spec fn view(&self) -> ConfigView {
        ConfigView { sync_dir: self.sync_dir@, home: self.home@ }
    }
}

/// The configuration as it is stored, with paths under the home base collapsed.
#[derive(Debug)]
pub struct ConfigFile {
    pub sync_dir: Option<String>,
    pub home: Option<String>,
}

/// What a stored configuration holds.
#[verifier::ext_equal]
pub struct ConfigFileView {
    pub sync_dir: Option<Seq<char>>,
    pub home: Option<Seq<char>>,
}

impl View for ConfigFile {
    type V = ConfigFileView;

    open spec fn view(&self) -> ConfigFileView {
        ConfigFileView { sync_dir: self.sync_dir.deep_view(), home: self.home.deep_view() }
    }
}

/// An environment variable's value when it is set and not empty.
pub open spec fn filled(var: Option<Seq<char>>) -> Option<Seq<char>> {
    match var {
        Some(v) => if v.len() > 0 {
            Some(v)
        } else {
            None
        },
        None => None,
    }
}

/// An environment variable's value when it is set and not empty.
pub fn non_empty(var: &Option<String>) -> (r: Option<String>)
    ensures
        r.deep_view() == filled(var.deep_view()),
{
    match var {
        Some(v) => if text::chars(v.as_str()).len() > 0 {
            Some(v.clone())
        } else {
            None
        },
        None => None,
    }
}

/// The directory that holds user configuration.
pub open spec fn root_dir(xdg: Option<Seq<char>>, home: Option<Seq<char>>) -> Option<Seq<char>> {
    match filled(xdg) {
        Some(x) => Some(x),
        None => match filled(home) {
            Some(h) => Some(path::joined(h, ".config"@)),
            None => None,
        },
    }
}

/// The user's home directory, from the value of `$HOME`.
pub fn home_dir(home: &Option<String>) -> (r: Result<String, Error>)
    ensures
        match r {
            Ok(h) => filled(home.deep_view()) == Some(h@),
            Err(e) => filled(home.deep_view()) is None && e@ == ErrorView::HomeUnset,
        },
{
    match non_empty(home) {
        Some(h) => Ok(h),
        None => Err(Error::HomeUnset),
    }
}

/// The directory that holds user configuration, from the values of
/// `$XDG_CONFIG_HOME` and `$HOME`.
pub fn config_root(xdg: &Option<String>, home: &Option<String>) -> (r: Result<String, Error>)
    ensures
        match r {
            Ok(d) => root_dir(xdg.deep_view(), home.deep_view()) == Some(d@),
            Err(e) => root_dir(xdg.deep_view(), home.deep_view()) is None && e@
                == ErrorView::HomeUnset,
        },
{
    match non_empty(xdg) {
        Some(x) => Ok(x),
        None => match home_dir(home) {
            Ok(h) => Ok(path::join_path(h.as_str(), ".config")),
            Err(e) => Err(e),
        },
    }
}

/// Where the configuration is stored.
pub fn config_path(xdg: &Option<String>, home: &Option<String>) -> (r: Result<String, Error>)
    ensures
        match r {
            Ok(p) => root_dir(xdg.deep_view(), home.deep_view()) is Some && p@ == path::joined(
                path::joined(root_dir(xdg.deep_view(), home.deep_view())->0, "dotsync"@),
                "config.toml"@,
            ),
            Err(e) => root_dir(xdg.deep_view(), home.deep_view()) is None && e@
                == ErrorView::HomeUnset,
        },
{
    match config_root(xdg, home) {
        Ok(d) => Ok(
            path::join_path(path::join_path(d.as_str(), "dotsync").as_str(), "config.toml"),
        ),
        Err(e) => Err(e),
    }
}

/// The configuration that a stored one stands for; `None` when it names no
/// sync folder. The home base is resolved first, against the home directory
/// `home`, then the sync folder against the home base.
pub open spec fn resolved(file: ConfigFileView, home: Seq<char>) -> Option<ConfigView> {
    match file.sync_dir {
        None => None,
        Some(dir) => {
            let base = match file.home {
                Some(h) => mapping::tilde_expanded(h, home),
                None => home,
            };
            Some(ConfigView { sync_dir: mapping::tilde_expanded(dir, base), home: base })
        },
    }
}

/// What loading comes to: nothing without a file or without a sync folder in it,
/// else the configuration, for which the home directory has to be known.
pub open spec fn loading(parsed: Option<ConfigFileView>, home: Option<Seq<char>>) -> Result<
    Option<ConfigView>,
    ErrorView,
> {
    match parsed {
        None => Ok(None),
        Some(file) => if file.sync_dir is None {
            Ok(None)
        } else {
            match filled(home) {
                Some(h) => Ok(resolved(file, h)),
                None => Err(ErrorView::HomeUnset),
            }
        },
    }
}

/// The configuration of this machine, from what was parsed from its file
/// (`None` when there is no file) and the value of `$HOME`.
pub fn load(parsed: &Option<ConfigFile>, home: &Option<String>) -> (r: Result<
    Option<Config>,
    Error,
>)
    ensures
        loading(
            match *parsed {
                Some(file) => Some(file@),
                None => None,
            },
            home.deep_view(),
        ) == (match r {
            Ok(Some(cfg)) => Ok::<Option<ConfigView>, ErrorView>(Some(cfg@)),
            Ok(None) => Ok::<Option<ConfigView>, ErrorView>(None),
            Err(e) => Err::<Option<ConfigView>, ErrorView>(e@),
        }),
{
    let file = match parsed {
        None => return Ok(None),
        Some(file) => file,
    };
    let dir = match &file.sync_dir {
        None => return Ok(None),
        Some(dir) => dir,
    };
    let user_home = match home_dir(home) {
        Ok(h) => h,
        Err(e) => return Err(e),
    };
    let base = match &file.home {
        Some(h) => mapping::expand_tilde(h.as_str(), user_home.as_str()),
        None => user_home,
    };
    Ok(
        Some(
            Config { sync_dir: mapping::expand_tilde(dir.as_str(), base.as_str()), home: base },
        ),
    )
}

/// The loaded configuration, or the error that says how to make one.
pub fn require(loaded: Option<Config>) -> (r: Result<Config, Error>)
    ensures
        match loaded {
            Some(cfg) => r == Ok::<Config, Error>(cfg),
            None => r is Err && (r->Err_0)@ == ErrorView::NotInitialized,
        },
{
    match loaded {
        Some(cfg) => Ok(cfg),
        None => Err(Error::NotInitialized),
    }
}

/// What is stored for a configuration, where `home` is the home directory.
pub open spec fn stored(cfg: ConfigView, home: Option<Seq<char>>) -> ConfigFileView {
    let base = match filled(home) {
        Some(h) => h,
        None => cfg.home,
    };
    ConfigFileView {
        sync_dir: Some(mapping::tilde_collapsed(cfg.sync_dir, cfg.home)),
        home: Some(mapping::tilde_collapsed(cfg.home, base)),
    }
}

/// What to store for a configuration: paths are collapsed to `~/…` where
/// possible, so that the file stays short.
pub fn save(cfg: &Config, home: &Option<String>) -> (r: ConfigFile)
    ensures
        r@ == stored(cfg@, home.deep_view()),
{
    let base = match non_empty(home) {
        Some(h) => h,
        None => cfg.home.clone(),
    };
    ConfigFile {
        sync_dir: Some(
            mapping::collapse_tilde(cfg.sync_dir.as_str(), cfg.home.as_str()),
        ),
        home: Some(mapping::collapse_tilde(cfg.home.as_str(), base.as_str())),
    }
}

/// Whether a path does not itself begin with a tilde.
pub open spec fn plain(p: Seq<char>) -> bool {
    p != "~"@ && !text::starts_with(p, "~/"@)
}

/// Expanding a collapsed path against the same base in another spelling gives
/// the same path.
proof fn lemma_expand_alias(p: Seq<char>, home: Seq<char>, alias: Seq<char>)
    requires
        plain(p),
        path::same_path(home, alias),
    ensures
        path::same_path(
            mapping::tilde_expanded(mapping::tilde_collapsed(p, home), alias),
            p,
        ),
{
    reveal_strlit("~");
    reveal_strlit("~/");
    mapping::law_expand_undoes_collapse(p, home);
    if !path::same_path(p, home) && path::within(p, home) {
        let rel = path::stripped(p, home)->0;
        let c = "~/"@ + rel;
        assert(c.take(2) =~= "~/"@);
        assert(c.skip(2) =~= rel);
        assert(c.len() >= 2);
        assert(path::stripped(p, alias) == path::stripped(p, home));
        path::law_strip_then_join(p, alias);
    }
}

/// What is stored for a configuration loads as that configuration: the same
/// sync folder and the same home base.
pub proof fn law_config_reads_back(cfg: ConfigView, home: Seq<char>)
    requires
        home.len() > 0,
        plain(cfg.sync_dir),
        plain(cfg.home),
    ensures
        resolved(stored(cfg, Some(home)), home) matches Some(back) && path::same_path(
            back.sync_dir,
            cfg.sync_dir,
        ) && path::same_path(back.home, cfg.home),
{
    mapping::law_expand_undoes_collapse(cfg.home, home);
    let base = mapping::tilde_expanded(mapping::tilde_collapsed(cfg.home, home), home);
    lemma_expand_alias(cfg.sync_dir, cfg.home, base);
}

// ---------------------------------------------------------------------------
// Keeping out of git
// ---------------------------------------------------------------------------

/// The first of the paths that is among `repos`.
pub open spec fn first_marked(paths: Seq<Seq<char>>, repos: Seq<Seq<char>>) -> Option<Seq<char>>
    decreases paths.len(),
{
    if paths.len() == 0 {
        None
    } else if repos.contains(paths[0]) {
        Some(paths[0])
    } else {
        first_marked(paths.skip(1), repos)
    }
}

/// The nearest of a path and its ancestors that is a git working tree, where
/// `repos` are those of them that hold a `.git`.
pub open spec fn git_tree(p: Seq<char>, repos: Seq<Seq<char>>) -> Option<Seq<char>> {
    first_marked(path::ancestry(p), repos)
}

/// The nearest of a path and its ancestors that is a git working tree, if any.
/// `repos` are those of [`path::ancestors`] that hold a `.git`. Used to keep
/// synced content, secrets above all, out of git.
pub fn enclosing_git_tree(p: &str, repos: &Vec<String>) -> (r: Option<String>)
    ensures
        r.deep_view() == git_tree(p@, repos.deep_view()),
{
    let dirs = path::ancestors(p);
    let ghost all = dirs.deep_view();
    let mut i: usize = 0;
    assert(all.skip(0) =~= all);
    while i < dirs.len()
        invariant
            i <= dirs@.len(),
            all == dirs.deep_view(),
            all == path::ancestry(p@),
            first_marked(all, repos.deep_view()) == first_marked(
                all.skip(i as int),
                repos.deep_view(),
            ),
        decreases dirs@.len() - i,
    {
        assert(all.skip(i as int).skip(1) =~= all.skip(i + 1));
        assert(all.skip(i as int)[0] == dirs@[i as int]@);
        if text::list_has(repos, dirs[i].as_str()) {
            return Some(dirs[i].clone());
        }
        i += 1;
    }
    None
}

/// Refuse a sync folder that sits inside a git working tree, so that synced
/// content can never be committed to a repository by accident.
pub fn ensure_not_in_git(sync_dir: &str, repos: &Vec<String>) -> (r: Result<(), Error>)
    ensures
        match git_tree(sync_dir@, repos.deep_view()) {
            None => r is Ok,
            Some(repo) => r is Err && (r->Err_0)@ == (ErrorView::SyncDirInGit {
                dir: sync_dir@,
                repo,
            }),
        },
{
    match enclosing_git_tree(sync_dir, repos) {
        Some(repo) => Err(Error::SyncDirInGit { dir: sync_dir.to_owned(), repo }),
        None => Ok(()),
    }
}

/// A sync folder is refused exactly when it, or a directory that it lies in,
/// is a git working tree.
pub proof fn law_git_refused_iff_enclosed(p: Seq<char>, repos: Seq<Seq<char>>)
    ensures
        git_tree(p, repos) is Some <==> exists|i: int|
            0 <= i < path::ancestry(p).len() && repos.contains(#[trigger] path::ancestry(p)[i]),
{
    lemma_first_marked(path::ancestry(p), repos);
}

proof fn lemma_first_marked(paths: Seq<Seq<char>>, repos: Seq<Seq<char>>)
    ensures
        first_marked(paths, repos) is Some <==> exists|i: int|
            0 <= i < paths.len() && repos.contains(#[trigger] paths[i]),
    decreases paths.len(),
{
    if paths.len() > 0 {
        let rest = paths.skip(1);
        lemma_first_marked(rest, repos);
        if repos.contains(paths[0]) {
            assert(repos.contains(paths[0]));
        } else {
            if exists|i: int| 0 <= i < rest.len() && repos.contains(#[trigger] rest[i]) {
                let i = choose|i: int| 0 <= i < rest.len() && repos.contains(#[trigger] rest[i]);
                assert(repos.contains(paths[i + 1]));
            }
            if exists|i: int| 0 <= i < paths.len() && repos.contains(#[trigger] paths[i]) {
                let i = choose|i: int| 0 <= i < paths.len() && repos.contains(#[trigger] paths[i]);
                assert(repos.contains(rest[i - 1]));
            }
        }
    }
}

/// The git working tree that is named is the nearest one: the path itself or the
/// first of the directories that it lies in, from the inside out.
pub proof fn law_the_nearest_git_tree_is_named(p: Seq<char>, repos: Seq<Seq<char>>, k: int)
    requires
        0 <= k < path::ancestry(p).len(),
        repos.contains(path::ancestry(p)[k]),
        forall|j: int| 0 <= j < k ==> !repos.contains(#[trigger] path::ancestry(p)[j]),
    ensures
        git_tree(p, repos) == Some(path::ancestry(p)[k]),
{
    lemma_first_is(path::ancestry(p), repos, k);
}

proof fn lemma_first_is(paths: Seq<Seq<char>>, repos: Seq<Seq<char>>, k: int)
    requires
        0 <= k < paths.len(),
        repos.contains(paths[k]),
        forall|j: int| 0 <= j < k ==> !repos.contains(#[trigger] paths[j]),
    ensures
        first_marked(paths, repos) == Some(paths[k]),
    decreases k,
{
    if k > 0 {
        assert(!repos.contains(paths[0]));
        let rest = paths.skip(1);
        assert(rest[k - 1] == paths[k]);
        assert forall|j: int| 0 <= j < k - 1 implies !repos.contains(#[trigger] rest[j]) by {
            assert(rest[j] == paths[j + 1]);
        }
        lemma_first_is(rest, repos, k - 1);
    }
}

// ---------------------------------------------------------------------------
// What a configuration says
// ---------------------------------------------------------------------------

/// Nothing is configured exactly when there is no file or no sync folder in it.
/// Else the home base is the one that is written, or the home directory, and the
/// sync folder is seen from that home base.
pub proof fn law_a_sync_folder_is_what_configures(file: ConfigFileView, home: Option<Seq<char>>)
    ensures
        loading(None, home) == Ok::<Option<ConfigView>, ErrorView>(None),
        file.sync_dir is None ==> loading(Some(file), home) == Ok::<Option<ConfigView>, ErrorView>(
            None,
        ),
        file.sync_dir is Some && (home is None || home->0.len() == 0) ==> loading(Some(file), home)
            == Err::<Option<ConfigView>, ErrorView>(ErrorView::HomeUnset),
        file.sync_dir is Some && (home matches Some(h) && h.len() > 0) ==> (loading(
            Some(file),
            home,
        ) matches Ok(Some(cfg)) && cfg.home == (match file.home {
            Some(written) => mapping::tilde_expanded(written, home->0),
            None => home->0,
        }) && cfg.sync_dir == mapping::tilde_expanded(file.sync_dir->0, cfg.home)),
{
}

/// The first variable that is set and not empty decides where the configuration is;
/// the home directory serves where no other does.
pub proof fn law_the_first_filled_variable_decides(
    xdg: Option<Seq<char>>,
    home: Option<Seq<char>>,
)
    ensures
        xdg matches Some(x) ==> x.len() > 0 ==> root_dir(xdg, home) == Some(x),
        (xdg is None || xdg->0.len() == 0) && (home matches Some(h) && h.len() > 0) ==> root_dir(
            xdg,
            home,
        ) == Some(path::joined(home->0, ".config"@)),
        (xdg is None || xdg->0.len() == 0) && (home is None || home->0.len() == 0) ==> root_dir(
            xdg,
            home,
        ) is None,
{
}

/// What is stored of a configuration is short and portable: a sync folder under the
/// home base is stored seen from the home base, and so is a home base under the home
/// directory.
pub proof fn law_what_is_stored_is_seen_from_home(cfg: ConfigView, home: Seq<char>)
    requires
        home.len() > 0,
    ensures
        path::within(cfg.sync_dir, cfg.home) ==> (stored(cfg, Some(home)).sync_dir matches Some(d)
            && d.len() > 0 && d[0] == '~'),
        !path::within(cfg.sync_dir, cfg.home) ==> stored(cfg, Some(home)).sync_dir == Some(
            cfg.sync_dir,
        ),
        path::within(cfg.home, home) ==> (stored(cfg, Some(home)).home matches Some(d) && d.len() > 0
            && d[0] == '~'),
        !path::within(cfg.home, home) ==> stored(cfg, Some(home)).home == Some(cfg.home),
{
    targets::law_collapsed_iff_under_the_home_base(cfg.sync_dir, cfg.home);
    targets::law_collapsed_iff_under_the_home_base(cfg.home, home);
}

} // verus!
