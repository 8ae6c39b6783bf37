use dotsync::group::{
    ensure_free_of_group, ensure_free_of_mapping, suggest_group_name, validate_group_name,
};
use dotsync::mapping::{version_gt, Mapping, MappingsFile, VERSION};

#[test]
fn version_gt_compares_numerically_not_lexically() {
    assert!(version_gt("2.0.0", "1.9.9"));
    assert!(version_gt("1.10.0", "1.9.0")); // 10 > 9, not "10" < "9"
    assert!(!version_gt("1.0.0", "1.0.0"));
    assert!(!version_gt("1.0.0", "2.0.0"));
    assert!(!version_gt("garbage", "1.0.0")); // unparseable → 0.0.0, never warns
    assert!(version_gt("2.1.0-rc1", "2.0.0")); // pre-release suffix ignored
}

#[test]
fn newer_writer_flags_only_a_strictly_newer_stamp() {
    let running = VERSION;
    let mut file = MappingsFile::default();
    assert_eq!(file.newer_writer(), None); // no stamp at all
    file.dotsync_version = Some(running.to_string());
    assert_eq!(file.newer_writer(), None); // same version as the running build
    file.dotsync_version = Some("999.0.0".to_string());
    assert_eq!(file.newer_writer(), Some("999.0.0"));
}

#[test]
fn per_os_targets_scope_correctly() {
    let mut m = Mapping::new(".config/linearmouse");
    m.target_mac = Some("~/.config/linearmouse".into());
    assert!(m.applies_to("mac"));
    assert!(!m.applies_to("linux"));

    let mut both = Mapping::new(".config/code");
    both.target_mac = Some("~/Library/Application Support/Code".into());
    both.target_linux = Some("~/.config/Code".into());
    let home = "/home/j";
    assert_eq!(both.target_for(home, "linux").unwrap(), "/home/j/.config/Code");

    let plain = Mapping::new(".config/zed");
    assert!(plain.applies_to("mac") && plain.applies_to("linux"));
}

#[test]
fn group_name_validation_and_suggestion() {
    assert!(validate_group_name("Editor Tools").is_ok());
    assert!(validate_group_name(".hidden").is_err()); // path namespace
    assert!(validate_group_name("a/b").is_err());
    assert!(validate_group_name("").is_err());

    assert_eq!(suggest_group_name(&[".config/zed".into()]), "zed");
    assert_eq!(suggest_group_name(&[".gitconfig".into()]), "gitconfig");
    assert_eq!(
        suggest_group_name(&[".editor/EDITOR.md".into(), ".editor/settings.json".into()]),
        "editor"
    );
}

#[test]
fn group_and_mapping_names_cannot_collide() {
    let mut f = MappingsFile::default();
    let mut m = Mapping::new("Brewfile"); // a bare-named top-level mapping
    m.group = Some("packages".into());
    f.upsert(m);
    // A group name may not equal a mapping name (they share the `install <name>`
    // selector space) — the `/`-and-leading-`.` rule alone doesn't catch this.
    assert!(ensure_free_of_mapping("Brewfile", &f).is_err());
    assert!(ensure_free_of_mapping("editor", &f).is_ok());
    // A new mapping name may not equal an existing group name.
    assert!(ensure_free_of_group("packages", &f).is_err());
    assert!(ensure_free_of_group("Makefile", &f).is_ok());
}
