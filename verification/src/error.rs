//! Why an operation was refused, and how it is told to the user.
use vstd::prelude::*;
use vstd::string::*;

use crate::number;
use crate::text;

verus! {

/// Why an operation was refused.
#[derive(Debug)]
pub enum Error {
    /// A group name is empty.
    GroupNameEmpty,
    /// A group name holds a slash.
    GroupNameSlash,
    /// A group name begins with a dot.
    GroupNameDot,
    /// A would-be group name is a mapping's name.
    NameIsMapping { name: String },
    /// A would-be mapping name is a group's name.
    NameIsGroup { name: String },
    /// A would-be mapping name is the name of the group that it would go into.
    NameIsOwnGroup { name: String },
    /// A path to adopt is not under the home base.
    NotUnderHome { path: String, home: String },
    /// The path to adopt is the home base.
    HomeItself,
    /// There is nothing to adopt at the path.
    NothingAt { path: String },
    /// The path to adopt lies in the sync folder.
    InsideSync { path: String },
    /// The path to adopt lies under a mapping.
    Covered { name: String, by: String },
    /// The path to adopt contains a mapping.
    WouldContain { name: String, other: String },
    /// The path to adopt resolves into the sync folder.
    ResolvesInsideSync { path: String },
    /// The path to adopt differs from its sync copy.
    CloudDiffers { name: String },
    /// The sync folder lies in a git working tree.
    SyncDirInGit { dir: String, repo: String },
    /// There is no home directory.
    HomeUnset,
    /// No sync folder is configured, where one is required.
    NotInitialized,
    /// No sync folder is configured, and there is no one to ask.
    NotConfigured,
    /// No sync folder is configured, so there is nothing to undo.
    NothingConfigured,
    /// No cloud folder was found, and there is no one to ask.
    NoCloudFolder,
    /// Several cloud folders were found, and there is no one to ask.
    SeveralCloudFolders { paths: String },
    /// No mapping is in the group.
    NoSuchGroup { name: String },
    /// No mapping has the name.
    NoSuchMapping { name: String },
    /// Neither a mapping nor a group has the name.
    NoSuchName { name: String },
    /// Nothing was selected to link.
    NothingToInstall,
    /// Nothing was selected to unlink.
    NothingToUninstall,
    /// Removing a group was not confirmed.
    RemovalUnconfirmed { name: String, local: usize, total: usize },
    /// Removing mappings was not confirmed.
    UnadoptUnconfirmed { count: usize },
    /// Undoing a run was not confirmed.
    UndoUnconfirmed { command: String, count: usize },
    /// The user declined.
    Aborted,
    /// There is no place for the undo journal.
    NoStateDir,
}

/// What an error holds.
pub enum ErrorView {
    GroupNameEmpty,
    GroupNameSlash,
    GroupNameDot,
    NameIsMapping { name: Seq<char> },
    NameIsGroup { name: Seq<char> },
    NameIsOwnGroup { name: Seq<char> },
    NotUnderHome { path: Seq<char>, home: Seq<char> },
    HomeItself,
    NothingAt { path: Seq<char> },
    InsideSync { path: Seq<char> },
    Covered { name: Seq<char>, by: Seq<char> },
    WouldContain { name: Seq<char>, other: Seq<char> },
    ResolvesInsideSync { path: Seq<char> },
    CloudDiffers { name: Seq<char> },
    SyncDirInGit { dir: Seq<char>, repo: Seq<char> },
    HomeUnset,
    NotInitialized,
    NotConfigured,
    NothingConfigured,
    NoCloudFolder,
    SeveralCloudFolders { paths: Seq<char> },
    NoSuchGroup { name: Seq<char> },
    NoSuchMapping { name: Seq<char> },
    NoSuchName { name: Seq<char> },
    NothingToInstall,
    NothingToUninstall,
    RemovalUnconfirmed { name: Seq<char>, local: usize, total: usize },
    UnadoptUnconfirmed { count: usize },
    UndoUnconfirmed { command: Seq<char>, count: usize },
    Aborted,
    NoStateDir,
}

impl View for Error {
    type V = ErrorView;

    open spec fn view(&self) -> ErrorView {
        match self {
            Error::GroupNameEmpty => ErrorView::GroupNameEmpty,
            Error::GroupNameSlash => ErrorView::GroupNameSlash,
            Error::GroupNameDot => ErrorView::GroupNameDot,
            Error::NameIsMapping { name } => ErrorView::NameIsMapping { name: name@ },
            Error::NameIsGroup { name } => ErrorView::NameIsGroup { name: name@ },
            Error::NameIsOwnGroup { name } => ErrorView::NameIsOwnGroup { name: name@ },
            Error::NotUnderHome { path, home } => ErrorView::NotUnderHome { path: path@, home: home@ },
            Error::HomeItself => ErrorView::HomeItself,
            Error::NothingAt { path } => ErrorView::NothingAt { path: path@ },
            Error::InsideSync { path } => ErrorView::InsideSync { path: path@ },
            Error::Covered { name, by } => ErrorView::Covered { name: name@, by: by@ },
            Error::WouldContain { name, other } => ErrorView::WouldContain { name: name@, other: other@ },
            Error::ResolvesInsideSync { path } => ErrorView::ResolvesInsideSync { path: path@ },
            Error::CloudDiffers { name } => ErrorView::CloudDiffers { name: name@ },
            Error::SyncDirInGit { dir, repo } => ErrorView::SyncDirInGit { dir: dir@, repo: repo@ },
            Error::HomeUnset => ErrorView::HomeUnset,
            Error::NotInitialized => ErrorView::NotInitialized,
            Error::NotConfigured => ErrorView::NotConfigured,
            Error::NothingConfigured => ErrorView::NothingConfigured,
            Error::NoCloudFolder => ErrorView::NoCloudFolder,
            Error::SeveralCloudFolders { paths } => ErrorView::SeveralCloudFolders { paths: paths@ },
            Error::NoSuchGroup { name } => ErrorView::NoSuchGroup { name: name@ },
            Error::NoSuchMapping { name } => ErrorView::NoSuchMapping { name: name@ },
            Error::NoSuchName { name } => ErrorView::NoSuchName { name: name@ },
            Error::NothingToInstall => ErrorView::NothingToInstall,
            Error::NothingToUninstall => ErrorView::NothingToUninstall,
            Error::RemovalUnconfirmed { name, local, total } => ErrorView::RemovalUnconfirmed { name: name@, local: *local, total: *total },
            Error::UnadoptUnconfirmed { count } => ErrorView::UnadoptUnconfirmed { count: *count },
            Error::UndoUnconfirmed { command, count } => ErrorView::UndoUnconfirmed { command: command@, count: *count },
            Error::Aborted => ErrorView::Aborted,
            Error::NoStateDir => ErrorView::NoStateDir,
        }
    }
}

impl ErrorView {
    /// The message for the user.
    pub open spec fn text(self) -> Seq<char> {
        match self {
            ErrorView::GroupNameEmpty => "group name cannot be empty"@,
            ErrorView::GroupNameSlash => "group name cannot contain '/' (that's for paths)"@,
            ErrorView::GroupNameDot => "group name cannot start with '.' (that's for paths)"@,
            ErrorView::NameIsMapping { name } => text::quoted(name) + " is already a mapping name — a name is either a group or a mapping, not both"@,
            ErrorView::NameIsGroup { name } => text::quoted(name) + " is already a group name — a name is either a group or a mapping, not both"@,
            ErrorView::NameIsOwnGroup { name } => text::quoted(name) + " would be both a mapping and its group — a name is either, not both; pass another group with --group"@,
            ErrorView::NotUnderHome { path, home } => path + " is not under the home base "@ + home + " — dotsync can only adopt paths inside it"@,
            ErrorView::HomeItself => "refusing to adopt the home base itself"@,
            ErrorView::NothingAt { path } => "nothing exists at "@ + path,
            ErrorView::InsideSync { path } => path + " is already inside the sync folder"@,
            ErrorView::Covered { name, by } => name + " is already covered by mapping "@ + by + " — nothing to adopt separately"@,
            ErrorView::WouldContain { name, other } => name + " would contain the existing mapping "@ + other + " — adopt specific items, not the whole directory"@,
            ErrorView::ResolvesInsideSync { path } => path + " already resolves inside the sync folder (it's under something already synced) — nothing to adopt; use `dotsync install` to link it here"@,
            ErrorView::CloudDiffers { name } => name + " already exists in the cloud folder and differs from the local copy — resolve by hand, or delete one side"@,
            ErrorView::SyncDirInGit { dir, repo } => "sync dir "@ + dir + " is inside a git repository ("@ + repo + ") — dotsync refuses this so synced files (and secrets) can never be committed. Point it at a plain cloud folder instead."@,
            ErrorView::HomeUnset => "$HOME is not set"@,
            ErrorView::NotInitialized => "dotsync is not configured on this machine — run `dotsync init` first"@,
            ErrorView::NotConfigured => "dotsync is not configured on this machine — run `dotsync setup`"@,
            ErrorView::NothingConfigured => "dotsync is not configured on this machine — nothing to undo"@,
            ErrorView::NoCloudFolder => "no cloud dotsync folder found — pass a path: `dotsync setup <dir>` (e.g. ~/Nextcloud/Apps/dotsync)"@,
            ErrorView::SeveralCloudFolders { paths } => "several cloud dotsync folders found — pass one: "@ + paths,
            ErrorView::NoSuchGroup { name } => "no group named "@ + text::quoted(name),
            ErrorView::NoSuchMapping { name } => "no mapping named "@ + text::quoted(name),
            ErrorView::NoSuchName { name } => "no mapping or group named "@ + text::quoted(name),
            ErrorView::NothingToInstall => "nothing selected — pass mapping names, --all, or run interactively"@,
            ErrorView::NothingToUninstall => "nothing selected — pass mapping names or --all"@,
            ErrorView::RemovalUnconfirmed { name, local, total } => "removing group "@ + text::quoted(name) + " restores "@ + number::decimal(local as nat) + " file(s) here and removes "@ + number::decimal(total as nat) + " mapping(s) from dotsync.toml on ALL machines — pass --yes to confirm"@,
            ErrorView::UnadoptUnconfirmed { count } => "un-adopting "@ + number::decimal(count as nat) + " mapping(s) restores them here and removes them from dotsync.toml on ALL machines — pass --yes to confirm"@,
            ErrorView::UndoUnconfirmed { command, count } => "undoing `"@ + command + "` ("@ + number::decimal(count as nat) + " item(s)) reverses changes and may re-add/drop mappings on ALL machines — pass --yes to confirm"@,
            ErrorView::Aborted => "aborted"@,
            ErrorView::NoStateDir => "cannot locate a state directory (is $HOME set?) — no undo journal"@,
        }
    }
}

impl Error {
    /// The message for the user.
    pub fn message(&self) -> (r: String)
        ensures
            r@ == self@.text(),
    {
        match self {
            Error::GroupNameEmpty => "group name cannot be empty".to_owned(),
            Error::GroupNameSlash => "group name cannot contain '/' (that's for paths)".to_owned(),
            Error::GroupNameDot => "group name cannot start with '.' (that's for paths)".to_owned(),
            Error::NameIsMapping { name } => text::quote(name.as_str()).concat(" is already a mapping name — a name is either a group or a mapping, not both"),
            Error::NameIsGroup { name } => text::quote(name.as_str()).concat(" is already a group name — a name is either a group or a mapping, not both"),
            Error::NameIsOwnGroup { name } => text::quote(name.as_str()).concat(" would be both a mapping and its group — a name is either, not both; pass another group with --group"),
            Error::NotUnderHome { path, home } => path.clone().concat(" is not under the home base ").concat(home.as_str()).concat(" — dotsync can only adopt paths inside it"),
            Error::HomeItself => "refusing to adopt the home base itself".to_owned(),
            Error::NothingAt { path } => "nothing exists at ".to_owned().concat(path.as_str()),
            Error::InsideSync { path } => path.clone().concat(" is already inside the sync folder"),
            Error::Covered { name, by } => name.clone().concat(" is already covered by mapping ").concat(by.as_str()).concat(" — nothing to adopt separately"),
            Error::WouldContain { name, other } => name.clone().concat(" would contain the existing mapping ").concat(other.as_str()).concat(" — adopt specific items, not the whole directory"),
            Error::ResolvesInsideSync { path } => path.clone().concat(" already resolves inside the sync folder (it's under something already synced) — nothing to adopt; use `dotsync install` to link it here"),
            Error::CloudDiffers { name } => name.clone().concat(" already exists in the cloud folder and differs from the local copy — resolve by hand, or delete one side"),
            Error::SyncDirInGit { dir, repo } => "sync dir ".to_owned().concat(dir.as_str()).concat(" is inside a git repository (").concat(repo.as_str()).concat(") — dotsync refuses this so synced files (and secrets) can never be committed. Point it at a plain cloud folder instead."),
            Error::HomeUnset => "$HOME is not set".to_owned(),
            Error::NotInitialized => "dotsync is not configured on this machine — run `dotsync init` first".to_owned(),
            Error::NotConfigured => "dotsync is not configured on this machine — run `dotsync setup`".to_owned(),
            Error::NothingConfigured => "dotsync is not configured on this machine — nothing to undo".to_owned(),
            Error::NoCloudFolder => "no cloud dotsync folder found — pass a path: `dotsync setup <dir>` (e.g. ~/Nextcloud/Apps/dotsync)".to_owned(),
            Error::SeveralCloudFolders { paths } => "several cloud dotsync folders found — pass one: ".to_owned().concat(paths.as_str()),
            Error::NoSuchGroup { name } => "no group named ".to_owned().concat(text::quote(name.as_str()).as_str()),
            Error::NoSuchMapping { name } => "no mapping named ".to_owned().concat(text::quote(name.as_str()).as_str()),
            Error::NoSuchName { name } => "no mapping or group named ".to_owned().concat(text::quote(name.as_str()).as_str()),
            Error::NothingToInstall => "nothing selected — pass mapping names, --all, or run interactively".to_owned(),
            Error::NothingToUninstall => "nothing selected — pass mapping names or --all".to_owned(),
            Error::RemovalUnconfirmed { name, local, total } => "removing group ".to_owned().concat(text::quote(name.as_str()).as_str()).concat(" restores ").concat(number::decimal_text(*local as u128).as_str()).concat(" file(s) here and removes ").concat(number::decimal_text(*total as u128).as_str()).concat(" mapping(s) from dotsync.toml on ALL machines — pass --yes to confirm"),
            Error::UnadoptUnconfirmed { count } => "un-adopting ".to_owned().concat(number::decimal_text(*count as u128).as_str()).concat(" mapping(s) restores them here and removes them from dotsync.toml on ALL machines — pass --yes to confirm"),
            Error::UndoUnconfirmed { command, count } => "undoing `".to_owned().concat(command.as_str()).concat("` (").concat(number::decimal_text(*count as u128).as_str()).concat(" item(s)) reverses changes and may re-add/drop mappings on ALL machines — pass --yes to confirm"),
            Error::Aborted => "aborted".to_owned(),
            Error::NoStateDir => "cannot locate a state directory (is $HOME set?) — no undo journal".to_owned(),
        }
    }
}

/// A message tells what it is about: the name or the path that was refused, and
/// what it clashes with.
pub proof fn law_a_message_tells_what_was_refused(e: ErrorView)
    ensures
        e matches ErrorView::NotUnderHome { path, home } ==> tells(e, path) && tells(e, home),
        e matches ErrorView::NothingAt { path } ==> tells(e, path),
        e matches ErrorView::InsideSync { path } ==> tells(e, path),
        e matches ErrorView::Covered { name, by } ==> tells(e, name) && tells(e, by),
        e matches ErrorView::WouldContain { name, other } ==> tells(e, name) && tells(e, other),
        e matches ErrorView::ResolvesInsideSync { path } ==> tells(e, path),
        e matches ErrorView::CloudDiffers { name } ==> tells(e, name),
        e matches ErrorView::SyncDirInGit { dir, repo } ==> tells(e, dir) && tells(e, repo),
        e matches ErrorView::SeveralCloudFolders { paths } ==> tells(e, paths),
        e matches ErrorView::NameIsMapping { name } ==> tells(e, text::quoted(name)),
        e matches ErrorView::NameIsGroup { name } ==> tells(e, text::quoted(name)),
        e matches ErrorView::NameIsOwnGroup { name } ==> tells(e, text::quoted(name)),
        e matches ErrorView::NoSuchGroup { name } ==> tells(e, text::quoted(name)),
        e matches ErrorView::NoSuchMapping { name } ==> tells(e, text::quoted(name)),
        e matches ErrorView::NoSuchName { name } ==> tells(e, text::quoted(name)),
        e matches ErrorView::UndoUnconfirmed { command, count } ==> tells(e, command),
{
    let none = Seq::<char>::empty();
    match e {
        ErrorView::NotUnderHome { path, home } => {
            let a = " is not under the home base "@;
            let b = " — dotsync can only adopt paths inside it"@;
            lemma_told(e, none, path, a + home + b);
            lemma_told(e, path + a, home, b);
        },
        ErrorView::NothingAt { path } => {
            lemma_told(e, "nothing exists at "@, path, none);
        },
        ErrorView::InsideSync { path } => {
            lemma_told(e, none, path, " is already inside the sync folder"@);
        },
        ErrorView::Covered { name, by } => {
            let a = " is already covered by mapping "@;
            let b = " — nothing to adopt separately"@;
            lemma_told(e, none, name, a + by + b);
            lemma_told(e, name + a, by, b);
        },
        ErrorView::WouldContain { name, other } => {
            let a = " would contain the existing mapping "@;
            let b = " — adopt specific items, not the whole directory"@;
            lemma_told(e, none, name, a + other + b);
            lemma_told(e, name + a, other, b);
        },
        ErrorView::ResolvesInsideSync { path } => {
            lemma_told(
                e,
                none,
                path,
                " already resolves inside the sync folder (it's under something already synced) — nothing to adopt; use `dotsync install` to link it here"@,
            );
        },
        ErrorView::CloudDiffers { name } => {
            lemma_told(
                e,
                none,
                name,
                " already exists in the cloud folder and differs from the local copy — resolve by hand, or delete one side"@,
            );
        },
        ErrorView::SyncDirInGit { dir, repo } => {
            let a = " is inside a git repository ("@;
            let b = ") — dotsync refuses this so synced files (and secrets) can never be committed. Point it at a plain cloud folder instead."@;
            lemma_told(e, "sync dir "@, dir, a + repo + b);
            lemma_told(e, "sync dir "@ + dir + a, repo, b);
        },
        ErrorView::SeveralCloudFolders { paths } => {
            lemma_told(e, "several cloud dotsync folders found — pass one: "@, paths, none);
        },
        ErrorView::NameIsMapping { name } => {
            lemma_told(
                e,
                none,
                text::quoted(name),
                " is already a mapping name — a name is either a group or a mapping, not both"@,
            );
        },
        ErrorView::NameIsGroup { name } => {
            lemma_told(
                e,
                none,
                text::quoted(name),
                " is already a group name — a name is either a group or a mapping, not both"@,
            );
        },
        ErrorView::NameIsOwnGroup { name } => {
            lemma_told(
                e,
                none,
                text::quoted(name),
                " would be both a mapping and its group — a name is either, not both; pass another group with --group"@,
            );
        },
        ErrorView::NoSuchGroup { name } => {
            lemma_told(e, "no group named "@, text::quoted(name), none);
        },
        ErrorView::NoSuchMapping { name } => {
            lemma_told(e, "no mapping named "@, text::quoted(name), none);
        },
        ErrorView::NoSuchName { name } => {
            lemma_told(e, "no mapping or group named "@, text::quoted(name), none);
        },
        ErrorView::UndoUnconfirmed { command, count } => {
            lemma_told(
                e,
                "undoing `"@,
                command,
                "` ("@ + number::decimal(count as nat)
                    + " item(s)) reverses changes and may re-add/drop mappings on ALL machines — pass --yes to confirm"@,
            );
        },
        _ => {},
    }
}

/// Whether the message of an error holds a text.
pub open spec fn tells(e: ErrorView, t: Seq<char>) -> bool {
    text::has_text(e.text(), t)
}

proof fn lemma_told(e: ErrorView, a: Seq<char>, t: Seq<char>, b: Seq<char>)
    requires
        e.text() =~= a + t + b,
    ensures
        tells(e, t),
{
    let whole = a + t + b;
    assert(whole.subrange(a.len() as int, (a.len() + t.len()) as int) =~= t);
    assert(text::occurs_at(whole, t, a.len() as int));
}

} // verus!
