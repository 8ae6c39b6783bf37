//! The rules on plain values: texts, numbers, paths, configuration, the document
//! and what is shown.

use dotsync::apply::AdoptFacts;
use dotsync::config;
use dotsync::config::{Config, ConfigFile};
use dotsync::discovery;
use dotsync::discovery::{Candidate, Folder, RootFacts};
use dotsync::doctor;
use dotsync::doctor::{Issue, Level, Report};
use dotsync::error::Error;
use dotsync::fsutil;
use dotsync::fsutil::Step;
use dotsync::group;
use dotsync::journal;
use dotsync::journal::{Run, UndoAction};
use dotsync::json;
use dotsync::manage;
use dotsync::manage::Consent;
use dotsync::mapping;
use dotsync::mapping::{Mapping, MappingsFile, OnConflict};
use dotsync::number;
use dotsync::order;
use dotsync::overview;
use dotsync::path;
use dotsync::plan::{Item, State};
use dotsync::report;
use dotsync::script::Outcome;
use dotsync::select;
use dotsync::select::{Row, Task};
use dotsync::shell;
use dotsync::shell::Shell;
use dotsync::text;
use dotsync::tree;
use dotsync::ui;
use dotsync::ui::{Palette, To};

fn strings(list: &[&str]) -> Vec<String> {
    list.iter().map(|s| s.to_string()).collect()
}

fn plain() -> Palette {
    Palette::new(false, false, false)
}

fn colour() -> Palette {
    Palette::new(false, true, true)
}

fn item(name: &str, group: Option<&str>, state: State) -> Item {
    let mut m = Mapping::new(name);
    m.group = group.map(|g| g.to_string());
    Item {
        mapping: m,
        target: Some(format!("/h/{name}")),
        source: format!("/c/{name}"),
        state,
    }
}

fn names(items: &[Item]) -> Vec<String> {
    items.iter().map(|i| i.name().to_string()).collect()
}

// -- texts, numbers, order ----------------------------------------------------

#[test]
fn text_operations() {
    assert_eq!(text::split_segments("a//b/"), strings(&["a", "", "b", ""]));
    assert_eq!(text::join_text(&strings(&["a", "b", "c"]), ", "), "a, b, c");
    assert_eq!(text::trim_text(" \t x y\u{a0}\n"), "x y");
    assert_eq!(text::replace_text("aXbXX", "X", "~"), "a~b~~");
    assert_eq!(text::replace_text("ab", "", "-"), "-a-b-");
    assert_eq!(text::replace_chars("a\\b", '\\', '/'), "a/b");
    assert_eq!(text::lower("ÄbC"), "Äbc");
    assert_eq!(text::stem("archive.tar.gz"), "archive.tar");
    assert!(text::contains("conflicted copy", "ted c"));
    assert!(text::contains("x", ""));
    assert!(!text::has_suffix("pem", ".pem"));
    assert!(text::has_prefix("abc", "ab"));
}

#[test]
fn numbers_read_and_write() {
    assert_eq!(number::decimal_text(0), "0");
    assert_eq!(number::decimal_text(340282366920938463463374607431768211455), "340282366920938463463374607431768211455");
    assert_eq!(number::octal4_text(0o755), "0755");
    assert_eq!(number::octal4_text(0o7777), "7777");
    assert_eq!(number::octal_text(0o600), "600");
    assert_eq!(number::octal_text(0), "0");
    assert_eq!(number::parse_unsigned("+12", 10, 100), Some(12));
    assert_eq!(number::parse_unsigned("", 10, 100), None);
    assert_eq!(number::parse_unsigned("+", 10, 100), None);
    assert_eq!(number::parse_unsigned("101", 10, 100), None);
    assert_eq!(number::parse_unsigned("8", 8, 100), None);
    assert_eq!(number::parse_unsigned("17", 8, 100), Some(15));
}

#[test]
fn order_is_lexicographic() {
    assert!(order::comes_before("", "a"));
    assert!(order::comes_before("a", "b"));
    assert!(order::comes_before("a", "ab"));
    assert!(!order::comes_before("a", "a"));
    assert!(order::comes_before("Z", "a"));
}

// -- paths ----------------------------------------------------------------------

#[test]
fn paths_are_compared_by_component() {
    assert!(path::same("/a/b/", "/a//./b"));
    assert!(!path::same("/a/b", "a/b"));
    assert!(!path::same("./a", "a"));
    assert!(path::is_within("/a/b/c", "/a/b"));
    assert!(!path::is_within("/a/bc", "/a/b"));
    assert_eq!(path::strip_prefix("/a/b/c/d", "/a/b"), Some("c/d".to_string()));
    assert_eq!(path::strip_prefix("/a/b", "/a/b"), Some("".to_string()));
    assert_eq!(path::strip_prefix("/a/b", "/x"), None);
    assert_eq!(path::join_path("/a", "b"), "/a/b");
    assert_eq!(path::join_path("/a/", "b"), "/a/b");
    assert_eq!(path::join_path("/a", "/b"), "/b");
    assert_eq!(path::join_path("", "b"), "b");
    assert_eq!(path::parent_of("/a/b"), Some("/a".to_string()));
    assert_eq!(path::parent_of("/a"), Some("/".to_string()));
    assert_eq!(path::parent_of("/"), None);
    assert_eq!(path::parent_of("a"), Some("".to_string()));
    assert_eq!(path::ancestors("/a/b"), strings(&["/a/b", "/a", "/"]));
}

#[test]
fn stripping_then_joining_gives_the_path_back() {
    for (p, base) in [("/h/j/.config/zed", "/h/j"), ("/h/j/x/", "/h/j/"), ("/x", "/")] {
        let rel = path::strip_prefix(p, base).unwrap();
        assert!(path::same(&path::join_path(base, &rel), p));
    }
}

// -- configuration ----------------------------------------------------------------

#[test]
fn configuration_paths_come_from_the_environment() {
    let home = Some("/h".to_string());
    let empty = Some("".to_string());
    assert_eq!(config::home_dir(&home).unwrap(), "/h");
    assert_eq!(config::home_dir(&empty).unwrap_err().message(), "$HOME is not set");
    assert!(config::home_dir(&None).is_err());
    assert_eq!(config::config_path(&None, &home).unwrap(), "/h/.config/dotsync/config.toml");
    assert_eq!(config::config_path(&empty, &home).unwrap(), "/h/.config/dotsync/config.toml");
    assert_eq!(
        config::config_path(&Some("/x".to_string()), &None).unwrap(),
        "/x/dotsync/config.toml"
    );
    assert!(config::config_path(&None, &None).is_err());
}

#[test]
fn configuration_loads_and_saves() {
    let home = Some("/h".to_string());
    assert!(config::load(&None, &home).unwrap().is_none());
    let none = ConfigFile { sync_dir: None, home: Some("~".to_string()) };
    assert!(config::load(&Some(none), &home).unwrap().is_none());
    let file = ConfigFile { sync_dir: Some("~/Cloud/dotsync".to_string()), home: Some("~/base".to_string()) };
    let cfg = config::load(&Some(file), &home).unwrap().unwrap();
    assert_eq!((cfg.home.as_str(), cfg.sync_dir.as_str()), ("/h/base", "/h/base/Cloud/dotsync"));
    let unset = ConfigFile { sync_dir: Some("/c".to_string()), home: None };
    assert_eq!(config::load(&Some(unset), &None).unwrap_err().message(), "$HOME is not set");

    let cfg = Config { sync_dir: "/h/Cloud/dotsync".to_string(), home: "/h".to_string() };
    let stored = config::save(&cfg, &home);
    assert_eq!(stored.sync_dir.as_deref(), Some("~/Cloud/dotsync"));
    assert_eq!(stored.home.as_deref(), Some("~"));
    let back = config::load(&Some(stored), &home).unwrap().unwrap();
    assert!(path::same(&back.sync_dir, &cfg.sync_dir) && path::same(&back.home, &cfg.home));

    assert_eq!(
        config::require(None).unwrap_err().message(),
        "dotsync is not configured on this machine — run `dotsync init` first"
    );
    assert_eq!(config::require(Some(back)).unwrap().home, "/h");
}

#[test]
fn a_sync_folder_inside_git_is_refused() {
    assert!(config::ensure_not_in_git("/a/b/c", &strings(&["/x"])).is_ok());
    assert_eq!(config::enclosing_git_tree("/a/b/c", &strings(&["/", "/a/b"])), Some("/a/b".to_string()));
    assert_eq!(
        config::ensure_not_in_git("/a/b", &strings(&["/a"])).unwrap_err().message(),
        "sync dir /a/b is inside a git repository (/a) — dotsync refuses this so synced files (and secrets) can never be committed. Point it at a plain cloud folder instead."
    );
}

// -- the document -------------------------------------------------------------------

#[test]
fn loading_keeps_the_first_of_a_name() {
    let mut a = Mapping::new(".a");
    a.group = Some("first".to_string());
    let mut b = Mapping::new(".a");
    b.group = Some("second".to_string());
    let file = MappingsFile { dotsync_version: None, mappings: vec![a, Mapping::new(".b"), b] };
    let loaded = MappingsFile::load(Some(file));
    assert_eq!(loaded.mappings.len(), 2);
    assert_eq!(loaded.find(".a").unwrap().group.as_deref(), Some("first"));
    assert!(MappingsFile::load(None).mappings.is_empty());
}

#[test]
fn saving_sorts_and_stamps() {
    let mut f = MappingsFile::default();
    for n in [".zshrc", ".Z", ".a/b", ".a"] {
        f.upsert(Mapping::new(n));
    }
    let saved = f.save();
    let order: Vec<&str> = saved.mappings.iter().map(|m| m.name.as_str()).collect();
    assert_eq!(order, vec![".Z", ".a", ".a/b", ".zshrc"]);
    assert_eq!(saved.dotsync_version.as_deref(), Some("2.1.0"));
    assert_eq!(mapping::VERSION, "2.1.0");
}

#[test]
fn a_name_that_is_there_twice_reads_back_as_its_first() {
    let mut first = Mapping::new(".b");
    first.group = Some("one".to_string());
    let mut second = Mapping::new(".b");
    second.group = Some("two".to_string());
    let file = MappingsFile {
        dotsync_version: None,
        mappings: vec![first, Mapping::new(".a"), second],
    };
    let back = MappingsFile::load(Some(file.save()));
    assert_eq!(manage::mapping_names(&back), strings(&[".a", ".b"]));
    assert_eq!(back.find(".b").unwrap().group.as_deref(), Some("one"));
}

#[test]
fn upserting_replaces_and_removing_drops() {
    let mut f = MappingsFile::default();
    f.upsert(Mapping::new(".a"));
    f.upsert(Mapping::new(".b"));
    let mut m = Mapping::new(".a");
    m.mode = Some("0600".to_string());
    f.upsert(m);
    assert_eq!(f.mappings.len(), 2);
    assert_eq!(f.find(".a").unwrap().mode.as_deref(), Some("0600"));
    f.remove(".a");
    assert!(f.find(".a").is_none());
    assert!(f.find(".b").is_some());
}

#[test]
fn mapping_targets_and_modes() {
    let mut m = Mapping::new(".config/zed");
    assert_eq!(m.source("/c"), "/c/.config/zed");
    assert_eq!(m.target_for("/h", "other"), Some("/h/.config/zed".to_string()));
    assert_eq!(m.target_display("mac"), "~/.config/zed");
    assert_eq!(m.os_display(), "mac,linux");
    m.target_linux = Some("~/z".to_string());
    assert_eq!(m.os_display(), "linux");
    assert_eq!(m.target_for("/h", "mac"), None);
    assert_eq!(m.target_for("/h", "linux"), Some("/h/z".to_string()));
    m.target = Some("/abs".to_string());
    assert_eq!(m.target_for("/h", "mac"), Some("/abs".to_string()));
    m.mode = Some("0o600".to_string());
    assert_eq!(m.mode_bits(), Some(0o600));
    m.mode = Some("9".to_string());
    assert_eq!(m.mode_bits(), None);
    assert_eq!(OnConflict::default().as_str(), "fail");
    assert_eq!(OnConflict::Adopt.as_str(), "adopt");
    assert!(mapping::is_default_conflict(&OnConflict::Fail));
    assert_eq!(mapping::current_os("macos"), "mac");
    assert_eq!(mapping::current_os("linux"), "linux");
    assert_eq!(mapping::current_os("freebsd"), "other");
}

#[test]
fn tilde_expands_and_collapses() {
    assert_eq!(mapping::expand_tilde("~", "/h"), "/h");
    assert_eq!(mapping::expand_tilde("~/x", "/h"), "/h/x");
    assert_eq!(mapping::expand_tilde("~x", "/h"), "~x");
    assert_eq!(mapping::collapse_tilde("/h", "/h"), "~");
    assert_eq!(mapping::collapse_tilde("/h/x/y", "/h"), "~/x/y");
    assert_eq!(mapping::collapse_tilde("/hx", "/h"), "/hx");
}

// -- groups --------------------------------------------------------------------------

#[test]
fn group_names_say_why_they_are_refused() {
    let why = |n: &str| group::validate_group_name(n).unwrap_err().message();
    assert_eq!(why("  "), "group name cannot be empty");
    assert_eq!(why("a/b"), "group name cannot contain '/' (that's for paths)");
    assert_eq!(why(" .x"), "group name cannot start with '.' (that's for paths)");
    let mut f = MappingsFile::default();
    let mut m = Mapping::new("Brew \"file\"");
    m.group = Some("p\tq".to_string());
    f.upsert(m);
    assert_eq!(
        group::ensure_free_of_mapping("Brew \"file\"", &f).unwrap_err().message(),
        "\"Brew \\\"file\\\"\" is already a mapping name — a name is either a group or a mapping, not both"
    );
    assert_eq!(
        group::ensure_free_of_group("p\tq", &f).unwrap_err().message(),
        "\"p\\tq\" is already a group name — a name is either a group or a mapping, not both"
    );
}

#[test]
fn group_suggestions() {
    let s = |paths: &[&str]| group::suggest_group_name(&strings(paths));
    assert_eq!(s(&[".config/Zed.Json"]), "zed");
    assert_eq!(s(&["ÄRGER"]), "ärger");
    assert_eq!(s(&[".a/b/c", ".a/b/d"]), "b");
    assert_eq!(s(&["x", "y"]), "x");
    assert_eq!(s(&[]), "");
    assert_eq!(group::common_parent(&strings(&[".a/b/c", ".a/d"])), Some(".a".to_string()));
    assert_eq!(group::common_parent(&strings(&["a", "b"])), None);
    assert_eq!(group::shared_dir_depth(".config/a/x", ".config/a/y"), 2);
}

#[test]
fn suggestions_are_empty_or_valid() {
    for paths in [
        strings(&[]),
        strings(&["..."]),
        strings(&[".config/zed"]),
        strings(&["a/.B.tar.gz"]),
        strings(&["x/y/a", "x/y/b"]),
        strings(&["/", "//"]),
        strings(&["Library/Application Support/a", "Library/Application Support/b"]),
    ] {
        let name = group::suggest_group_name(&paths);
        assert!(name.is_empty() || group::validate_group_name(&name).is_ok(), "{name}");
    }
    assert_eq!(group::suggest_group_name(&strings(&["My Notes.md"])), "my notes");
    assert!(group::validate_group_name(&group::suggest_group_name(&strings(&[" "]))).is_err());
}

fn grouped(list: &[(&str, &str)]) -> MappingsFile {
    let mut f = MappingsFile::default();
    for (name, group) in list {
        let mut m = Mapping::new(name);
        m.group = Some(group.to_string());
        f.upsert(m);
    }
    f
}

#[test]
fn renaming_and_moving_groups() {
    let mut f = grouped(&[(".a", "g"), (".b", "g"), (".c", "h")]);
    let done = manage::rename_group(&mut f, "g", " h ").unwrap();
    assert_eq!((done.members, done.merged), (2, true));
    assert_eq!(f.groups(), strings(&["h"]));
    assert_eq!(
        report::renamed_message("g", "h", &done),
        "renamed group 'g' → 'h' — 2 members (merged into existing group)"
    );
    assert_eq!(
        manage::rename_group(&mut f, "none", "k").unwrap_err().message(),
        "no group named \"none\""
    );
    assert_eq!(
        manage::rename_group(&mut f, "h", ".a").unwrap_err().message(),
        "group name cannot start with '.' (that's for paths)"
    );
    assert!(manage::move_to_group(&mut f, ".a", "new").unwrap());
    assert!(!manage::move_to_group(&mut f, ".b", "new").unwrap());
    assert_eq!(manage::members_of(&f, "new"), strings(&[".a", ".b"]));
    assert_eq!(
        manage::move_to_group(&mut f, ".none", "new").unwrap_err().message(),
        "no mapping named \".none\""
    );
    let (a, b) = report::moved_messages(".a", "new", true);
    assert_eq!((a.as_str(), b.as_deref()), ("moved .a → group 'new'", Some("created new group 'new'")));
    f.upsert(Mapping::new("Brewfile"));
    assert!(manage::rename_group(&mut f, "new", "Brewfile").is_err());
}

#[test]
fn a_mapping_may_not_take_the_name_of_its_group() {
    let f = grouped(&[(".a", "g")]);
    assert!(manage::check_mapping_name(".b", "g", &f).is_ok());
    assert!(matches!(manage::check_mapping_name("g", "k", &f), Err(Error::NameIsGroup { .. })));
    assert!(matches!(manage::check_mapping_name("Brewfile", "Brewfile", &f), Err(Error::NameIsOwnGroup { .. })));
    assert_eq!(manage::accept_group("  k ", &f).unwrap(), "k");
    assert!(manage::accept_group(".a", &f).is_err());
    assert!(manage::merges(&f, "g") && !manage::merges(&f, "k"));
    assert_eq!(manage::mapping_names(&f), strings(&[".a"]));
}

#[test]
fn the_group_is_given_asked_for_or_suggested() {
    let mappings = grouped(&[("Brewfile", "tools")]);
    let given = Some(" work ".to_string());
    let got = |r: Result<Option<String>, Error>| r.map_err(|e| e.message());
    assert_eq!(
        got(manage::resolve_group(&given, true, "zed", &mappings)),
        Ok(Some("work".to_string()))
    );
    assert_eq!(got(manage::resolve_group(&None, true, "zed", &mappings)), Ok(None));
    assert_eq!(
        got(manage::resolve_group(&None, false, "zed", &mappings)),
        Ok(Some("zed".to_string()))
    );
    assert_eq!(
        got(manage::resolve_group(&None, false, "", &mappings)),
        Err("group name cannot be empty".to_string())
    );
    assert_eq!(
        got(manage::resolve_group(&Some("Brewfile".to_string()), false, "zed", &mappings)),
        Err(
            "\"Brewfile\" is already a mapping name — a name is either a group or a mapping, not both"
                .to_string()
        )
    );
}

#[test]
fn paths_are_adopted_into_their_group() {
    let cfg = Config { sync_dir: "/c".to_string(), home: "/h".to_string() };
    let mappings = grouped(&[(".config/zed", "editors")]);
    let facts = AdoptFacts {
        present: true,
        is_dir: false,
        link: None,
        resolved: None,
        sync_resolved: None,
        source_present: false,
        target: None,
        source: None,
    };
    let adopt = |at: &str, group: &str| {
        manage::adopt_into(
            &cfg,
            &mappings,
            at,
            &None,
            group,
            &manage::mapping_names(&mappings),
            true,
            &facts,
        )
        .map(|(m, _)| (m.name, m.group.unwrap()))
        .map_err(|e| e.message())
    };
    assert_eq!(adopt("/h/.vimrc", "editors"), Ok((".vimrc".to_string(), "editors".to_string())));
    assert_eq!(
        adopt("/x/y", "editors"),
        Err("/x/y is not under the home base /h — dotsync can only adopt paths inside it".to_string())
    );
    assert_eq!(adopt("/h", "editors"), Err("refusing to adopt the home base itself".to_string()));
    let taken =
        "\"editors\" is already a group name — a name is either a group or a mapping, not both";
    assert_eq!(adopt("/h/editors", "x"), Err(taken.to_string()));
    let own = "\"notes\" would be both a mapping and its group — a name is either, not both; pass another group with --group";
    assert_eq!(adopt("/h/notes", "notes"), Err(own.to_string()));
    assert_eq!(
        adopt("/h/.config/zed/settings.json", "x"),
        Err(
            ".config/zed/settings.json is already covered by mapping .config/zed — nothing to adopt separately"
                .to_string()
        )
    );
}

#[test]
fn groups_are_ranked_by_shared_directory() {
    let f = grouped(&[(".x", "alpha"), (".config/zed/s", "beta"), (".config/k", "gamma")]);
    let choice = manage::rank_groups(&f, &strings(&[".config/zed/t"]));
    assert_eq!(choice.groups, strings(&["beta", "gamma", "alpha"]));
    assert_eq!(choice.default, 0);
    let choice = manage::rank_groups(&f, &strings(&["Brewfile"]));
    assert_eq!(choice.groups, strings(&["alpha", "beta", "gamma"]));
    assert_eq!(choice.default, 3);
}

#[test]
fn names_under_the_home_base() {
    let paths = strings(&["/h/.config/a", "/x/y", "/h/b\\c"]);
    let rel = manage::names_under(&paths, "/h");
    assert_eq!(rel, strings(&[".config/a", "b/c"]));
    assert_eq!(manage::suggestion(&rel, &paths), "a");
    assert_eq!(manage::suggestion(&Vec::new(), &strings(&["/x/Yes.txt"])), "yes");
    assert_eq!(manage::os_scope(true, false).as_deref(), Some("mac"));
    assert_eq!(manage::os_scope(false, true).as_deref(), Some("linux"));
    assert_eq!(manage::os_scope(false, false), None);
}

// -- consent and dropping --------------------------------------------------------------

#[test]
fn changes_everywhere_ask_first() {
    let ask = |dry: bool, yes: bool, json: bool, tty: bool| {
        manage::consent(dry, yes, json, tty, Error::UnadoptUnconfirmed { count: 2 }, manage::unadopt_question(2))
    };
    assert!(matches!(ask(true, false, false, false), Consent::Given));
    assert!(matches!(ask(false, true, true, false), Consent::Given));
    match ask(false, false, true, true) {
        Consent::Refused(e) => assert_eq!(
            e.message(),
            "un-adopting 2 mapping(s) restores them here and removes them from dotsync.toml on ALL machines — pass --yes to confirm"
        ),
        _ => panic!("must be refused"),
    }
    match ask(false, false, false, true) {
        Consent::Ask(q) => assert_eq!(
            q,
            "Un-adopt 2 mapping(s)? Restores them to $HOME here (cloud copies kept) and removes them from dotsync.toml on ALL machines."
        ),
        _ => panic!("must be asked"),
    }
    assert_eq!(
        manage::removal_question("g", 1, 3),
        "Remove group 'g'? Restores 1 file(s) to $HOME here (cloud copies kept) and removes 3 mapping(s) from dotsync.toml on ALL machines."
    );
    assert_eq!(
        manage::undo_question("adopt", 4),
        "Undo the last run (`adopt`, 4 item(s))? Reverses those changes here and may re-add/drop mappings on every machine."
    );
    assert_eq!(
        Error::RemovalUnconfirmed { name: "g".to_string(), local: 1, total: 3 }.message(),
        "removing group \"g\" restores 1 file(s) here and removes 3 mapping(s) from dotsync.toml on ALL machines — pass --yes to confirm"
    );
    assert_eq!(
        Error::UndoUnconfirmed { command: "adopt".to_string(), count: 4 }.message(),
        "undoing `adopt` (4 item(s)) reverses changes and may re-add/drop mappings on ALL machines — pass --yes to confirm"
    );
}

#[test]
fn a_missing_folder_is_created_after_asking() {
    let ask = manage::consent_to_create("/c/dotsync", false, false, true);
    assert!(matches!(ask, Consent::Ask(q) if q == "/c/dotsync doesn't exist — create it?"));
    for (exists, json, interactive) in [(true, false, true), (false, true, true), (false, false, false)] {
        let given = manage::consent_to_create("/c/dotsync", exists, json, interactive);
        assert!(matches!(given, Consent::Given));
    }
}

#[test]
fn setting_up_and_undoing_are_told() {
    let cfg = Config { sync_dir: "/h/c/dotsync".to_string(), home: "/h".to_string() };
    assert_eq!(
        report::setup_lines(&plain(), &cfg, &None),
        strings(&[
            "✓ configured dotsync",
            "▸ sync folder : ~/c/dotsync",
            "▸ home base   : /h",
            "▸ completions : run `dotsync completions <shell>` to install",
        ])
    );
    let note = Some("completions : installed".to_string());
    assert_eq!(report::setup_lines(&plain(), &cfg, &note)[3], "▸ completions : installed");
    assert_eq!(report::undo_heading(&plain(), "adopt", true), "▸ would undo `adopt`");
    assert_eq!(report::undo_heading(&plain(), "adopt", false), "▸ undoing `adopt`");
}

#[test]
fn other_refusals_are_told() {
    assert_eq!(Error::NotConfigured.message(), "dotsync is not configured on this machine — run `dotsync setup`");
    assert_eq!(Error::NothingConfigured.message(), "dotsync is not configured on this machine — nothing to undo");
    assert_eq!(Error::Aborted.message(), "aborted");
    assert_eq!(
        Error::NoStateDir.message(),
        "cannot locate a state directory (is $HOME set?) — no undo journal"
    );
    assert_eq!(
        Error::Covered { name: "a/b".to_string(), by: "a".to_string() }.message(),
        "a/b is already covered by mapping a — nothing to adopt separately"
    );
    assert_eq!(
        Error::ResolvesInsideSync { path: "/h/x".to_string() }.message(),
        "/h/x already resolves inside the sync folder (it's under something already synced) — nothing to adopt; use `dotsync install` to link it here"
    );
}

#[test]
fn only_what_was_restored_is_dropped() {
    let mut f = grouped(&[(".a", "g"), (".b", "g"), (".c", "g")]);
    let outcomes = vec![
        Outcome::new(".a", "restored", true, ""),
        Outcome::new(".b", "error", false, "no"),
    ];
    manage::drop_restored(&mut f, &outcomes);
    assert_eq!(manage::mapping_names(&f), strings(&[".b", ".c"]));
    let items = vec![
        item("a", None, State::Linked),
        item("b", None, State::DanglingSelf),
        item("c", None, State::Available),
    ];
    assert_eq!(manage::count_linked_here(&items), 2);
}

#[test]
fn overriding_conflicts_lets_the_cloud_win() {
    let mut f = grouped(&[(".a", "g")]);
    manage::override_conflicts(&mut f);
    assert_eq!(f.mappings[0].on_conflict, OnConflict::Adopt);
    assert_eq!(f.mappings[0].group.as_deref(), Some("g"));
}

#[test]
fn a_folder_is_picked_unasked_only_when_it_is_the_only_one() {
    let c = |p: &str, exists: bool| Candidate {
        provider: "X".to_string(),
        path: p.to_string(),
        exists,
        configured: false,
    };
    assert_eq!(manage::pick_unasked(&vec![c("/a", true), c("/b", false)]).unwrap(), "/a");
    assert_eq!(
        manage::pick_unasked(&vec![c("/b", false)]).unwrap_err().message(),
        "no cloud dotsync folder found — pass a path: `dotsync setup <dir>` (e.g. ~/Nextcloud/Apps/dotsync)"
    );
    assert_eq!(
        manage::pick_unasked(&vec![c("/a", true), c("/b", true)]).unwrap_err().message(),
        "several cloud dotsync folders found — pass one: /a, /b"
    );
}

// -- secrets and siblings ----------------------------------------------------------------

#[test]
fn secrets_are_recognised() {
    for name in [
        ".ssh", ".SSH/config", ".aws/credentials", ".config/gh/hosts.yml", "keys/server.PEM",
        "x.key", ".env.local", "old_id_rsa.pub", "id_ed25519", ".netrc", "a/.npmrc",
        ".git-credentials", "credentials", "my-secrets/x", ".config/credential-store",
    ] {
        assert!(fsutil::looks_secret(name), "{name}");
    }
    for name in [".sshx", ".config/ghx", ".zshrc", "key", "pem", ".config/zed"] {
        assert!(!fsutil::looks_secret(name), "{name}");
    }
}

#[test]
fn sibling_names() {
    assert_eq!(fsutil::temp_sibling("/h/x"), "/h/x.dotsync-tmp");
    assert_eq!(fsutil::backup_path("/h/x", &Vec::new()), "/h/x.bak");
    assert_eq!(
        fsutil::backup_path("/h/x", &strings(&["/h/x.bak", "/h/x.bak.1", "/h/x.bak.3"])),
        "/h/x.bak.2"
    );
    assert_eq!(fsutil::mode_of(0o100644), 0o644);
    assert_eq!(doctor::mode_string(Some(0o40700)), "0700");
    assert_eq!(doctor::mode_string(None), "????");
}

#[test]
fn failed_steps_say_what_failed() {
    let s = |p: &str| p.to_string();
    let blame = |step: Step| step.blame();
    assert_eq!(blame(Step::MakeDir { path: s("/d") }), Some(s("could not create /d")));
    assert_eq!(blame(Step::MakeParent { path: s("/d") }), None);
    assert_eq!(
        blame(Step::MakeLink { original: s("/o"), link: s("/l") }),
        Some(s("could not link /l -> /o"))
    );
    assert_eq!(
        blame(Step::CopyLink { original: s("/o"), link: s("/l") }),
        Some(s("could not copy symlink to /l"))
    );
    assert_eq!(
        blame(Step::CopyFile { from: s("/a"), to: s("/b") }),
        Some(s("could not copy /a to /b"))
    );
    assert_eq!(blame(Step::MirrorMode { from: s("/a"), to: s("/b") }), None);
    assert_eq!(blame(Step::RemoveLink { path: s("/l") }), Some(s("could not remove symlink /l")));
    assert_eq!(blame(Step::RemoveFile { path: s("/l") }), Some(s("could not remove /l")));
    assert_eq!(blame(Step::RemoveTree { path: s("/l") }), Some(s("could not remove /l")));
    assert_eq!(
        blame(Step::Finalize { from: s("/a"), to: s("/b") }),
        Some(s("could not finalize move to /b"))
    );
    assert_eq!(
        blame(Step::SetMode { path: s("/a"), mode: 0o700 }),
        Some(s("could not chmod /a to 700"))
    );
    assert!(tree::files_equal(&Some(vec![1, 2]), &Some(vec![1, 2])));
    assert!(!tree::files_equal(&Some(vec![1, 2]), &Some(vec![1, 3])));
    assert!(!tree::files_equal(&None, &None));
}

// -- the journal ----------------------------------------------------------------------------

fn undo(name: &str) -> UndoAction {
    UndoAction::Adopt { name: name.to_string(), target: "/t".to_string(), source: "/s".to_string() }
}

#[test]
fn the_journal_has_its_place() {
    let s = |p: &str| Some(p.to_string());
    assert_eq!(journal::default_dir(&s("/own"), &s("/x"), &s("/h")), s("/own"));
    assert_eq!(journal::default_dir(&s(""), &s("/x"), &s("/h")), s("/x/dotsync"));
    assert_eq!(journal::default_dir(&None, &None, &s("/h")), s("/h/.local/state/dotsync"));
    assert_eq!(journal::default_dir(&None, &None, &None), None);
}

#[test]
fn runs_are_recorded_listed_and_pruned() {
    let files = strings(&["5.json", "7.json", "x.json", "8.json.dotsync-tmp", "6.json"]);
    assert_eq!(journal::read_ids(&files), vec![5, 7, 6]);
    assert_eq!(journal::latest(&files), Some(7));
    assert_eq!(journal::latest(&strings(&["notes"])), None);
    assert_eq!(journal::fresh_id(5, &files), 8);
    assert_eq!(journal::manifest_name(12), "12.json");
    assert!(journal::record(5, "adopt", Vec::new(), &files).is_none());
    let run = journal::record(5, "adopt", vec![undo(".a")], &files).unwrap();
    assert_eq!((run.id, run.command.as_str(), run.dotsync_version.as_str()), (8, "adopt", "2.1.0"));

    let many: Vec<String> = (1..=13).map(|i| journal::manifest_name(i * 10)).rev().collect();
    assert_eq!(journal::prune(&many), vec![10, 20, 30]);
    assert!(journal::prune(&files).is_empty());

    let r = |id: u128, command: &str| Run {
        id,
        command: command.to_string(),
        dotsync_version: "2.1.0".to_string(),
        actions: vec![undo(".a")],
    };
    let listed = journal::list(vec![r(3, "a"), r(9, "b"), r(3, "c"), r(4, "d")]);
    let order: Vec<&str> = listed.iter().map(|r| r.command.as_str()).collect();
    assert_eq!(order, vec!["b", "d", "a", "c"]);
}

#[test]
fn a_forgotten_run_is_recorded_no_more() {
    let gone = journal::manifest_name(7);
    let left = |names: &[&str]| {
        let kept: Vec<&str> = names.iter().copied().filter(|n| *n != gone).collect();
        journal::latest(&strings(&kept))
    };
    assert_eq!(left(&["5.json", "7.json"]), Some(5));
    assert_eq!(left(&["7.json", "09.json", "notes"]), Some(9));
    assert_eq!(left(&["5.json", "7.json", "07.json"]), Some(7));
    assert_eq!(left(&["7.json"]), None);
}

#[test]
fn the_newest_ten_of_many_runs_are_listed() {
    let mut files: Vec<String> = Vec::new();
    let mut runs: Vec<Run> = Vec::new();
    for n in 1..=12u128 {
        let command = format!("run {n}");
        assert!(journal::record(100 * n, &command, Vec::new(), &files).is_none());
        let run = journal::record(100 * n, &command, vec![undo(".a")], &files).unwrap();
        files.push(journal::manifest_name(run.id));
        assert_eq!(journal::latest(&files), Some(run.id));
        runs.push(run);
        for id in journal::prune(&files) {
            let gone = journal::manifest_name(id);
            files.retain(|f| *f != gone);
            runs.retain(|r| r.id != id);
        }
    }
    let shown = journal::list(runs);
    assert_eq!(shown.len(), 10);
    let ids: Vec<u128> = shown.iter().map(|r| r.id).collect();
    assert_eq!(ids, (3..=12u128).rev().map(|n| 100 * n).collect::<Vec<u128>>());
    assert_eq!(shown[0].command, "run 12");
    assert_eq!(journal::latest(&files), Some(shown[0].id));
    // Two runs within one millisecond.
    let again = journal::record(1200, "more", vec![undo(".a")], &files).unwrap();
    assert_eq!(again.id, 1201);
    assert!(journal::revert(None, MappingsFile::default(), false).is_none());
}

#[test]
fn what_can_be_undone_is_collected() {
    let outcomes = vec![
        Outcome::new(".a", "adopted", true, "").with_undo(undo(".a")),
        Outcome::new(".b", "linked", true, ""),
        Outcome::new(".c", "adopted", true, "").with_undo(undo(".c")),
    ];
    let actions = manage::undo_actions(&outcomes);
    let concerned: Vec<&str> = actions.iter().map(|a| a.name()).collect();
    assert_eq!(concerned, vec![".a", ".c"]);
}

#[test]
fn ages_are_coarse() {
    assert_eq!(report::undo_age(1000, 1000), "0s ago");
    assert_eq!(report::undo_age(5000, 1000), "0s ago");
    assert_eq!(report::undo_age(0, 59_999), "59s ago");
    assert_eq!(report::undo_age(0, 60_000), "1m ago");
    assert_eq!(report::undo_age(0, 3_600_000), "1h ago");
    assert_eq!(report::undo_age(0, 172_800_000), "2d ago");
}

// -- selecting -----------------------------------------------------------------------------

fn sample() -> Vec<Item> {
    vec![
        item(".a", Some("g"), State::Linked),
        item(".b", None, State::Available),
        item(".c", Some("g"), State::Missing),
        item(".d", Some("g"), State::Diverged),
        item(".e", None, State::LocalOnly),
        item(".f", Some("h"), State::Skipped),
    ]
}

#[test]
fn names_select_groups_or_mappings() {
    let items = sample();
    let pick = |n: &[&str], all: bool| select::select_items(&items, &strings(n), all);
    assert_eq!(names(&pick(&["g"], false).unwrap()), strings(&[".a", ".d"]));
    assert_eq!(names(&pick(&[".e", ".a"], true).unwrap()), strings(&[".e", ".a"]));
    assert_eq!(names(&pick(&[], true).unwrap()), strings(&[".a", ".b", ".d"]));
    assert!(pick(&[], false).unwrap().is_empty());
    assert_eq!(pick(&[".a", "zz", "yy"], false).unwrap_err().message(), "no mapping or group named \"zz\"");
    // A group whose members cannot be acted on selects nothing, but is known.
    assert!(pick(&["h"], false).unwrap().is_empty());
    assert_eq!(
        select::select_install(&items, &Vec::new(), false).unwrap_err().message(),
        "nothing selected — pass mapping names, --all, or run interactively"
    );
    assert_eq!(names(&select::select_install(&items, &strings(&[".b"]), false).unwrap()), strings(&[".b"]));
    assert_eq!(select::select_uninstall(&items, &Vec::new(), true).unwrap().len(), 6);
    assert_eq!(
        select::select_uninstall(&items, &Vec::new(), false).unwrap_err().message(),
        "nothing selected — pass mapping names or --all"
    );
    assert_eq!(names(&select::select_unadopt(&items, &strings(&[".c"])).unwrap()), strings(&[".c"]));
    assert_eq!(
        select::select_unadopt(&items, &strings(&["g"])).unwrap_err().message(),
        "no mapping named \"g\""
    );
    assert!(select::wants_picker(&Vec::new(), false, false, false, false, true));
    assert!(!select::wants_picker(&Vec::new(), false, false, false, true, true));
}

#[test]
fn the_name_of_a_group_is_known_whatever_state_its_members_are_in() {
    let items = vec![
        item(".zshrc", Some("shell"), State::LocalOnly),
        item(".bashrc", Some("shell"), State::Missing),
        item(".vimrc", Some("editors"), State::Skipped),
        item(".config/zed", Some("editors"), State::Available),
    ];
    let pick = |name: &str| select::select_items(&items, &strings(&[name]), false);
    assert!(pick("shell").unwrap().is_empty());
    assert_eq!(names(&pick("editors").unwrap()), vec![".config/zed"]);
    assert_eq!(names(&pick(".zshrc").unwrap()), vec![".zshrc"]);
    assert!(matches!(pick("nobody"), Err(Error::NoSuchName { .. })));
    assert!(matches!(
        select::select_install(&items, &strings(&["shell"]), false),
        Err(Error::NothingToInstall)
    ));
    assert!(matches!(
        select::select_uninstall(&items, &strings(&["shell"]), false),
        Err(Error::NothingToUninstall)
    ));
}

#[test]
fn the_picker_reconciles_to_what_is_checked() {
    let items = select::actionable(&sample());
    assert_eq!(names(&items), strings(&[".a", ".b", ".d"]));
    let rows = select::rows(&items);
    assert_eq!(rows.len(), 2);
    assert!(matches!(&rows[0], Row::Group(g, m) if g == "g" && m.len() == 2));
    assert_eq!(rows[0].label("/h"), format!("{:<26}  group · 1/2 linked", "g"));
    assert_eq!(rows[1].label("/h"), format!("{:<28}  available — in cloud, not linked here", ".b"));
    assert!(!rows[0].default_checked() && !rows[1].default_checked());
    let tasks = select::tasks(&rows, &vec![1]);
    assert_eq!(tasks.len(), 2);
    assert!(matches!(&tasks[0], Task::Unlink(i) if i.name() == ".a"));
    assert!(matches!(&tasks[1], Task::Link(i) if i.name() == ".b"));
    let tasks = select::tasks(&rows, &vec![0]);
    assert_eq!(tasks.len(), 2);
    assert!(tasks.iter().all(|t| matches!(t, Task::Link(_))));
    assert!(!select::worth_reporting(&Outcome::new("x", "already-linked", true, "")));
    assert!(select::worth_reporting(&Outcome::new("x", "linked", true, "")));
}

// -- discovery --------------------------------------------------------------------------------

#[test]
fn provider_roots_are_known() {
    let roots = discovery::provider_roots("/h", &strings(&["OneDrive-Personal", "Box"]));
    let list: Vec<(String, String)> = roots.into_iter().map(|r| (r.provider, r.path)).collect();
    assert_eq!(list.len(), 10);
    assert_eq!(list[0], ("OneDrive".to_string(), "/h/Library/CloudStorage/OneDrive-Personal".to_string()));
    assert_eq!(list[1], ("Box".to_string(), "/h/Library/CloudStorage/Box".to_string()));
    assert_eq!(list[2], ("iCloud".to_string(), "/h/Library/Mobile Documents/com~apple~CloudDocs".to_string()));
    assert_eq!(list[7], ("ProtonDrive".to_string(), "/h/Proton Drive".to_string()));
}

#[test]
fn candidates_are_ranked_and_unique() {
    let root = |p: &str, existing: Vec<Folder>| RootFacts {
        provider: "P".to_string(),
        path: p.to_string(),
        is_dir: true,
        existing,
        proposed_exists: false,
        proposed_resolved: None,
    };
    let folder = |p: &str, at: &str, configured: bool| Folder {
        path: p.to_string(),
        resolved: Some(at.to_string()),
        configured,
    };
    let found = discovery::discover(&vec![
        root("/a", vec![folder("/a/dotsync", "/real", false)]),
        root("/b", vec![folder("/b/dotsync", "/real/", false), folder("/b/x/dotsync", "/b/x/dotsync", true)]),
    ]);
    let list: Vec<&str> = found.iter().map(|c| c.path.as_str()).collect();
    assert_eq!(list, vec!["/b/x/dotsync", "/a/dotsync", "/a/Apps/dotsync", "/b/Apps/dotsync"]);
    assert_eq!(discovery::offer_label(&found[0], "/b"), "~/x/dotsync  (P, configured)");
    assert_eq!(discovery::offer_label(&found[1], "/b"), "/a/dotsync  (P)");
    assert_eq!(discovery::offer_label(&found[3], "/b"), "~/Apps/dotsync  (P — create here)");
}

// -- what is shown ------------------------------------------------------------------------------

#[test]
fn colour_is_gated_by_stream() {
    let p = Palette::new(false, true, false);
    assert_eq!(ui::paint(&p, To::Out, "1", "x"), "\x1b[1mx\x1b[0m");
    assert_eq!(ui::paint(&p, To::Stderr, "1", "x"), "x");
    assert_eq!(ui::green(&Palette::new(true, true, true), "x"), "x");
    assert_eq!(ui::red(&p, "x"), "\x1b[31mx\x1b[0m");
    assert_eq!(ui::yellow(&p, "x"), "\x1b[33mx\x1b[0m");
    assert_eq!(ui::cyan(&p, "x"), "\x1b[36mx\x1b[0m");
    assert_eq!(ui::dim(&p, "x"), "\x1b[2mx\x1b[0m");
    assert_eq!(ui::bold(&p, "x"), "\x1b[1mx\x1b[0m");
    assert_eq!(ui::hyperlink(&p, "x", "file:///y"), "\x1b]8;;file:///y\x1b\\x\x1b]8;;\x1b\\");
    assert_eq!(ui::hyperlink(&plain(), "x", "file:///y"), "x");
    assert_eq!(ui::info(&p, "m"), "▸ m");
    assert_eq!(ui::ok(&p, "m"), "✓ m");
    assert_eq!(ui::warn(&p, "m"), "⚠ m");
    assert_eq!(ui::err(&colour(), "m"), "\x1b[31m✗\x1b[0m m");
}

#[test]
fn the_dashboard_groups_its_rows() {
    let cfg = Config { sync_dir: "/h/Cloud/dotsync".to_string(), home: "/h".to_string() };
    let mut items = vec![
        item(".zshrc", None, State::Linked),
        item("æøå", Some("g"), State::Available),
    ];
    items[0].mapping.mode = Some("0600".to_string());
    let lines = overview::render(&plain(), &items, &cfg);
    assert_eq!(
        lines,
        strings(&[
            "",
            "  dotsync  ~/Cloud/dotsync",
            "  home ~ · 2 mappings",
            "  1 linked · 1 available",
            "",
            "  g  group · 0/1 linked",
            "      [ ] æøå     available  in cloud, not linked here",
            "  [x] .zshrc  linked secret 0600",
            "",
        ])
    );
    assert_eq!(
        overview::render(&plain(), &Vec::new(), &cfg),
        strings(&[
            "",
            "  dotsync  ~/Cloud/dotsync",
            "",
            "  no mappings yet — `dotsync adopt <path>` to add one",
            "",
        ])
    );
}

#[test]
fn every_state_has_its_label_and_mark() {
    let all = [
        (State::Skipped, "skipped", "mac,linux only", "   ", "skipped"),
        (State::Linked, "linked", "", "[x]", "linked"),
        (State::Available, "available", "in cloud, not linked here", "[ ]", "available"),
        (State::LocalOnly, "local-only", "adopt to start syncing", "[ ]", "local-only"),
        (State::Healable, "healable", "atomic-save clobber; content matches", "[~]", "healable"),
        (State::Diverged, "conflict", "local file differs from cloud", "[!]", "diverged"),
        (State::DanglingSelf, "dangling", "cloud copy missing (not downloaded?)", "[!]", "dangling"),
        (State::ForeignSymlink("/h/x".to_string()), "foreign", "-> ~/x", "[!]", "foreign-symlink"),
        (State::Missing, "missing", "neither local nor cloud", "   ", "missing"),
    ];
    for (state, label, note, mark, code) in all {
        assert_eq!(state.code(), code);
        assert_eq!(overview::symbol(&plain(), &state), mark);
        let it = item(".a", None, state);
        assert_eq!(overview::label(&it, "/h"), (label.to_string(), note.to_string()));
    }
}

#[test]
fn the_summary_counts_states() {
    let items = vec![
        item("a", None, State::Diverged),
        item("b", None, State::ForeignSymlink("/x".to_string())),
        item("c", None, State::Missing),
        item("d", None, State::Linked),
    ];
    assert_eq!(overview::summarize(&plain(), &items), "1 linked · 2 conflict");
    assert_eq!(
        overview::summarize(&colour(), &items),
        "\x1b[32m1 linked\x1b[0m\x1b[2m · \x1b[0m\x1b[31m2 conflict\x1b[0m"
    );
    assert_eq!(overview::summarize(&plain(), &vec![item("c", None, State::Missing)]), "");
}

#[test]
fn sweeps_are_narrated() {
    let ok = Outcome::new(".a", "adopted", true, "/h/Cloud/.a");
    let bad = Outcome::new(".b", "error", false, "no");
    assert_eq!(report::report_outcomes(&plain(), &Vec::new(), "/h"), strings(&["nothing to do"]));
    let two = vec![ok, bad];
    assert_eq!(
        report::report_outcomes(&plain(), &two, "/h"),
        strings(&["✓ .a  adopted — ~/Cloud/.a", "✗ .b  error — no", "⚠ 1 of 2 failed · 1 ok"])
    );
    let fine = vec![Outcome::new(".a", "linked", true, ""), Outcome::new(".b", "linked", true, "")];
    assert_eq!(
        report::report_outcomes(&plain(), &fine, "/h"),
        strings(&["✓ .a  linked", "✓ .b  linked", "✓ 2 ok"])
    );
    assert_eq!(
        report::adopt_notes(&plain(), "g", true, &fine),
        strings(&[
            "▸ group: g (added to existing group)",
            "▸ manage with `dotsync group list/rename/move/remove`",
        ])
    );
    assert!(report::adopt_notes(&plain(), "g", true, &vec![Outcome::new("x", "e", false, "")]).is_empty());
}

#[test]
fn a_health_check_is_told() {
    let issue = |name: &str, level: Level, fixable: bool| Issue {
        name: name.to_string(),
        level,
        message: format!("about /h/{name}"),
        fixable,
    };
    let none = Report { issues: Vec::new(), fixed: Vec::new() };
    assert_eq!(
        report::doctor_lines(&plain(), &none, "/h", false),
        strings(&["", "✓ everything looks healthy"])
    );
    let some = Report {
        issues: vec![issue("w", Level::Warn, true), issue("e", Level::Error, false)],
        fixed: vec![Outcome::new("f", "chmod", true, "/h/x")],
    };
    assert!(!some.healthy());
    assert_eq!(
        report::doctor_lines(&plain(), &some, "/h", false),
        strings(&[
            "✓ fixed f  chmod ~/x",
            "",
            "  Problems",
            "  ✗ e  about ~/e",
            "",
            "  Advisories",
            "  ⚠ w  about ~/w  (dotsync doctor --fix)",
            "",
            "  1 problem · 1 advisory · 1 fixed",
        ])
    );
    assert_eq!(
        report::doctor_hint(&plain(), &vec![item("a", None, State::Diverged)]).as_deref(),
        Some("Other items need attention — run `dotsync doctor`.")
    );
    assert_eq!(report::doctor_hint(&plain(), &vec![item("a", None, State::Linked)]), None);
}

#[test]
fn groups_and_runs_are_listed() {
    let f = grouped(&[(".b", "g"), (".a", "f"), (".c", "g")]);
    assert_eq!(
        report::group_lines(&plain(), &f),
        strings(&["  f  1 member", "      .a", "  g  2 members", "      .b", "      .c"])
    );
    assert_eq!(
        report::group_lines(&plain(), &MappingsFile::default()),
        strings(&["no groups yet — `dotsync adopt <path>` creates one"])
    );
    let run = Run {
        id: 1000,
        command: "adopt".to_string(),
        dotsync_version: "2.1.0".to_string(),
        actions: vec![undo(".a")],
    };
    assert_eq!(
        report::undo_lines(&plain(), &vec![run], 61_000),
        strings(&["  1m ago  adopt  1 item"])
    );
    assert_eq!(report::undo_lines(&plain(), &Vec::new(), 0), strings(&["no undo history"]));
}

#[test]
fn skew_is_warned_about() {
    let mut f = MappingsFile::default();
    assert_eq!(report::skew_warning(&f), None);
    f.dotsync_version = Some("2.1.0".to_string());
    assert_eq!(report::skew_warning(&f), None);
    f.dotsync_version = Some("2.10.0".to_string());
    assert_eq!(
        report::skew_warning(&f).as_deref(),
        Some("dotsync.toml was written by a newer dotsync (2.10.0); this machine runs 2.1.0. Upgrade with `brew upgrade dotsync` so newer entries are understood.")
    );
}

#[test]
fn documents_have_their_text() {
    let cfg = Config { sync_dir: "/c".to_string(), home: "/h".to_string() };
    let mut it = item(".a", None, State::Linked);
    it.target = None;
    assert_eq!(
        json::pretty_text(&overview::to_json(&vec![it], &cfg)),
        "{\n  \"home\": \"/h\",\n  \"mappings\": [\n    {\n      \"linked\": true,\n      \"mode\": null,\n      \"name\": \".a\",\n      \"secret\": false,\n      \"source\": \"/c/.a\",\n      \"state\": \"linked\",\n      \"target\": null\n    }\n  ],\n  \"sync_dir\": \"/c\"\n}"
    );
    let outcomes = vec![Outcome::new(".a", "linked", true, "q\"")];
    assert_eq!(
        json::pretty_text(&report::sweep_document(&outcomes)),
        "{\n  \"results\": [\n    {\n      \"action\": \"linked\",\n      \"detail\": \"q\\\"\",\n      \"name\": \".a\",\n      \"ok\": true\n    }\n  ]\n}"
    );
    assert_eq!(
        json::pretty_text(&report::group_document(&grouped(&[(".a", "g")]))),
        "{\n  \"groups\": [\n    {\n      \"members\": [\n        \".a\"\n      ],\n      \"name\": \"g\"\n    }\n  ]\n}"
    );
    assert_eq!(
        json::pretty_text(&report::config_document(&cfg, "/k", 3)),
        "{\n  \"config\": \"/k\",\n  \"configured\": true,\n  \"home\": \"/h\",\n  \"mappings\": 3,\n  \"sync_dir\": \"/c\"\n}"
    );
    assert_eq!(
        json::pretty_text(&report::doctor_document(&Report { issues: Vec::new(), fixed: Vec::new() })),
        "{\n  \"fixed\": [],\n  \"healthy\": true,\n  \"issues\": []\n}"
    );
    assert_eq!(
        json::compact_text(&json::text_field("error", "a \"b\"\n")),
        "{\"error\":\"a \\\"b\\\"\\n\"}"
    );
    assert_eq!(json::compact_text(&json::bool_field("configured", false)), "{\"configured\":false}");
    assert_eq!(
        report::config_lines(&cfg, "/k", 3),
        strings(&["sync folder : /c", "home base   : /h", "config      : /k", "mappings    : 3"])
    );
}

#[test]
fn shells_are_detected_and_have_a_place() {
    assert_eq!(shell::detect_shell("/bin/zsh"), Some(Shell::Zsh));
    assert_eq!(shell::detect_shell("/usr/local/bin/fish/"), Some(Shell::Fish));
    assert_eq!(shell::detect_shell("bash"), Some(Shell::Bash));
    assert_eq!(shell::detect_shell("/bin/sh"), None);
    assert_eq!(shell::detect_shell(""), None);
    assert_eq!(shell::completion_path(Shell::Zsh, &None, "/h"), "/h/.local/share/zsh/site-functions/_dotsync");
    assert_eq!(
        shell::completion_path(Shell::Bash, &Some("/x".to_string()), "/h"),
        "/x/bash-completion/completions/dotsync"
    );
    assert_eq!(shell::completion_path(Shell::Fish, &None, "/h"), "/h/.config/fish/completions/dotsync.fish");
    assert_eq!(
        shell::completion_note(Shell::Zsh, &None, "/h"),
        "completions : installed for zsh → ~/.local/share/zsh/site-functions/_dotsync\n         if completions don't show, add to ~/.zshrc: fpath+=(~/.local/share/zsh/site-functions)"
    );
    assert_eq!(
        shell::completion_note(Shell::Fish, &None, "/h"),
        "completions : installed for fish → ~/.config/fish/completions/dotsync.fish"
    );
}
