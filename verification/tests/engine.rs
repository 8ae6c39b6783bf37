//! End-to-end tests over a small filesystem that lives in memory: adopting,
//! state detection, healing, conflicts, restoring, undoing and health checks.

use std::collections::BTreeMap;

use dotsync::apply;
use dotsync::apply::AdoptFacts;
use dotsync::config::Config;
use dotsync::discovery;
use dotsync::doctor;
use dotsync::doctor::{Checkup, CloudEntry, Report, Surroundings};
use dotsync::error::Error;
use dotsync::fsutil;
use dotsync::fsutil::{Found, Step};
use dotsync::journal;
use dotsync::journal::{Run, UndoAction, UndoFacts};
use dotsync::manage;
use dotsync::mapping::{Mapping, MappingsFile, OnConflict};
use dotsync::path;
use dotsync::plan;
use dotsync::plan::{Item, Probe, Spot, State};
use dotsync::script::{Decision, Op, Outcome, Script};
use dotsync::tree::{Entry, Node};
use dotsync::tree;

#[derive(Clone, Debug)]
enum Thing {
    File(Vec<u8>, u32),
    Dir(u32),
    Link(String),
}

/// A filesystem: what stands at each absolute path, and whether a move has to
/// cross from one device to another.
struct World {
    at: BTreeMap<String, Thing>,
    crossing: bool,
}

impl World {
    fn new() -> World {
        World { at: BTreeMap::new(), crossing: false }
    }

    /// Where a path leads; the last component is followed only if asked for.
    fn walk(&self, p: &str, follow: bool, depth: usize) -> Option<String> {
        if depth > 20 {
            return None;
        }
        let parts: Vec<&str> = p.split('/').filter(|s| !s.is_empty()).collect();
        let mut here = String::new();
        for (i, part) in parts.iter().enumerate() {
            let next = format!("{here}/{part}");
            let last = i + 1 == parts.len();
            here = match self.at.get(&next) {
                Some(Thing::Link(dest)) if !last || follow => self.walk(dest, true, depth + 1)?,
                _ => next,
            };
        }
        Some(here)
    }

    fn lstat(&self, p: &str) -> Option<&Thing> {
        self.at.get(&self.walk(p, false, 0)?)
    }

    fn stat(&self, p: &str) -> Option<&Thing> {
        self.at.get(&self.walk(p, true, 0)?)
    }

    fn resolved(&self, p: &str) -> Option<String> {
        let at = self.walk(p, true, 0)?;
        if self.at.contains_key(&at) {
            Some(at)
        } else {
            None
        }
    }

    fn present(&self, p: &str) -> bool {
        self.lstat(p).is_some()
    }

    fn is_symlink(&self, p: &str) -> bool {
        matches!(self.lstat(p), Some(Thing::Link(_)))
    }

    fn read_link(&self, p: &str) -> Option<String> {
        match self.lstat(p) {
            Some(Thing::Link(dest)) => Some(dest.clone()),
            _ => None,
        }
    }

    fn read(&self, p: &str) -> Option<String> {
        match self.stat(p) {
            Some(Thing::File(bytes, _)) => Some(String::from_utf8(bytes.clone()).unwrap()),
            _ => None,
        }
    }

    fn mode(&self, p: &str) -> Option<u32> {
        match self.stat(p) {
            Some(Thing::File(_, m)) | Some(Thing::Dir(m)) => Some(fsutil::mode_of(*m)),
            _ => None,
        }
    }

    fn make_dirs(&mut self, p: &str) {
        let parts: Vec<&str> = p.split('/').filter(|s| !s.is_empty()).collect();
        let mut here = String::new();
        for part in parts {
            here = self.walk(&format!("{here}/{part}"), true, 0).unwrap();
            self.at.entry(here.clone()).or_insert(Thing::Dir(0o40755));
        }
    }

    fn write(&mut self, p: &str, contents: &str) {
        self.make_dirs(&path::parent_of(p).unwrap());
        let at = self.walk(p, true, 0).unwrap();
        self.at.insert(at, Thing::File(contents.as_bytes().to_vec(), 0o100644));
    }

    fn children(&self, p: &str) -> Vec<String> {
        let lead = format!("{}/", self.walk(p, true, 0).unwrap());
        self.at
            .keys()
            .filter_map(|k| k.strip_prefix(&lead))
            .filter(|rest| !rest.contains('/'))
            .map(|s| s.to_string())
            .collect()
    }

    fn remove(&mut self, p: &str) {
        let at = self.walk(p, false, 0).unwrap();
        let lead = format!("{at}/");
        self.at.retain(|k, _| *k != at && !k.starts_with(&lead));
    }

    fn rename(&mut self, from: &str, to: &str) -> bool {
        let (a, b) = (self.walk(from, false, 0).unwrap(), self.walk(to, false, 0).unwrap());
        if !self.at.contains_key(&a) {
            return false;
        }
        let lead = format!("{a}/");
        let moved: Vec<(String, Thing)> = self
            .at
            .iter()
            .filter(|(k, _)| **k == a || k.starts_with(&lead))
            .map(|(k, v)| (format!("{b}{}", &k[a.len()..]), v.clone()))
            .collect();
        self.remove(from);
        self.at.extend(moved);
        true
    }

    fn node(&self, p: &str) -> Option<Node> {
        Some(match self.lstat(p)? {
            Thing::Link(dest) => Node::Link { dest: Some(dest.clone()) },
            Thing::File(bytes, m) => Node::File {
                mode: Some(fsutil::mode_of(*m)),
                bytes: Some(bytes.clone()),
            },
            Thing::Dir(m) => Node::Dir {
                mode: Some(fsutil::mode_of(*m)),
                entries: Some(
                    self.children(p)
                        .into_iter()
                        .map(|name| Entry {
                            node: self.node(&path::join_path(p, &name)).unwrap(),
                            name,
                        })
                        .collect(),
                ),
            },
        })
    }

    fn found(&self, p: &str) -> Option<Found> {
        Some(match self.lstat(p)? {
            Thing::Link(_) => Found::Link,
            Thing::Dir(_) => Found::Dir,
            Thing::File(..) => Found::Other,
        })
    }

    fn step(&mut self, step: &Step) -> Result<(), String> {
        let blame = step.blame().unwrap_or_default();
        match step {
            Step::MakeDir { path } | Step::MakeParent { path } => self.make_dirs(path),
            Step::MakeLink { original, link } | Step::CopyLink { original, link } => {
                if self.present(link) {
                    return Err(blame);
                }
                let at = self.walk(link, false, 0).unwrap();
                self.at.insert(at, Thing::Link(original.clone()));
            }
            Step::CopyFile { from, to } => {
                let thing = self.stat(from).cloned().ok_or(blame)?;
                let at = self.walk(to, true, 0).unwrap();
                self.at.insert(at, thing);
            }
            Step::MirrorMode { from, to } => {
                let thing = self.stat(from).cloned().ok_or(blame)?;
                let at = self.walk(to, true, 0).unwrap();
                self.at.insert(at, thing);
            }
            Step::RemoveLink { path } | Step::RemoveFile { path } => {
                if matches!(self.lstat(path), None | Some(Thing::Dir(_))) {
                    return Err(blame);
                }
                self.remove(path);
            }
            Step::RemoveTree { path } => self.remove(path),
            Step::Finalize { from, to } => {
                if !self.rename(from, to) {
                    return Err(blame);
                }
            }
            Step::SetMode { path, mode } => {
                let at = self.walk(path, true, 0).unwrap();
                match self.at.get_mut(&at) {
                    Some(Thing::File(_, m)) => *m = 0o100000 | mode,
                    Some(Thing::Dir(m)) => *m = 0o40000 | mode,
                    _ => return Err(blame),
                }
            }
        }
        Ok(())
    }

    fn steps(&mut self, steps: &[Step]) -> Result<(), String> {
        for s in steps {
            self.step(s)?;
        }
        Ok(())
    }

    fn remove_path(&mut self, p: &str) -> Result<(), String> {
        let found = self.found(p).ok_or(format!("could not stat {p}"))?;
        self.step(&fsutil::remove_path(p, found))
    }

    fn copy(&mut self, from: &str, to: &str) -> Result<(), String> {
        let node = self.node(from).ok_or(format!("could not stat {from}"))?;
        self.steps(&fsutil::copy_recursive(&node, from, to).ok_or("unread".to_string())?)
    }

    fn tighten(&mut self, p: &str) -> Result<(), String> {
        let mut work = fsutil::enforce_secret_tree(p);
        while let Some(at) = work.next() {
            let found = self.found(&at).ok_or(format!("could not stat {at}"))?;
            if let Some(step) = fsutil::secret_step(&at, found) {
                self.step(&step)?;
            }
            if found == Found::Dir {
                work.listed(&at, &self.children(&at));
            }
        }
        Ok(())
    }

    fn op(&mut self, op: &Op) -> Result<(), String> {
        match op {
            Op::MakeSymlink { original, link } => self.steps(&fsutil::make_symlink(original, link)),
            Op::RemoveSymlink { path } => self.step(&fsutil::remove_symlink(path)),
            Op::RemovePath { path } => self.remove_path(path),
            Op::MovePath { from, to } => {
                let plan = fsutil::move_path(from, to);
                self.steps(&plan.before)?;
                if !self.crossing && self.step(&plan.rename).is_ok() {
                    return Ok(());
                }
                let _ = self.remove_path(&plan.tmp);
                let node = self.node(from).ok_or(format!("could not stat {from}"))?;
                self.steps(&fsutil::move_by_copy(&node, from, to).ok_or("unread".to_string())?)
            }
            Op::CopyTree { from, to } => self.copy(from, to),
            Op::Discard { path } => {
                let _ = self.remove_path(path);
                Ok(())
            }
            Op::KeepEqual { target, source } => {
                if tree::trees_equal(&self.node(target), &self.node(source)) {
                    Ok(())
                } else {
                    Err("changed".to_string())
                }
            }
            Op::KeepSymlink { path } => {
                if self.is_symlink(path) {
                    Ok(())
                } else {
                    Err("changed".to_string())
                }
            }
            Op::Tighten { path } => self.tighten(path),
        }
    }

    fn script(&mut self, script: Script) -> (Outcome, bool) {
        for i in 0..script.steps.len() {
            if let Err(e) = self.op(&script.steps[i]) {
                for c in &script.cleanup {
                    let _ = self.op(c);
                }
                return (script.failed(i, &e), false);
            }
        }
        let tight = match &script.tighten {
            Some(p) => self.tighten(&p.clone()).is_ok(),
            None => true,
        };
        (script.finished(tight), true)
    }

    fn carry_out(&mut self, decision: Decision) -> Outcome {
        match decision {
            Decision::Report(o) => o,
            Decision::Perform(s) => self.script(s).0,
        }
    }

    // -- the library's operations on this world --------------------------------

    fn adopt_facts(&self, cfg: &Config, target: &str) -> AdoptFacts {
        let source = match apply::mapping_name_for(cfg, target) {
            Ok(name) => path::join_path(&cfg.sync_dir, &name),
            Err(_) => String::new(),
        };
        AdoptFacts {
            present: self.present(target),
            is_dir: matches!(self.stat(target), Some(Thing::Dir(_))),
            link: self.read_link(target),
            resolved: self.resolved(target),
            sync_resolved: self.resolved(&cfg.sync_dir),
            source_present: self.present(&source),
            target: self.node(target),
            source: self.node(&source),
        }
    }

    fn adopt(
        &mut self,
        cfg: &Config,
        target: &str,
        group: Option<&str>,
        existing: &[&str],
        dry_run: bool,
    ) -> Result<(Mapping, Outcome), String> {
        let facts = self.adopt_facts(cfg, target);
        let existing: Vec<String> = existing.iter().map(|s| s.to_string()).collect();
        let group = group.map(|g| g.to_string());
        match apply::adopt(cfg, target, &None, &group, &existing, dry_run, &facts) {
            Ok((m, d)) => Ok((m, self.carry_out(d))),
            Err(e) => Err(e.message()),
        }
    }

    fn probe(&self, mapping: &Mapping, cfg: &Config, os: &str) -> Probe {
        let source = mapping.source(&cfg.sync_dir);
        let target = match mapping.target_for(&cfg.home, os) {
            None => Spot::Absent,
            Some(t) => match self.lstat(&t) {
                None => Spot::Absent,
                Some(Thing::Link(dest)) => Spot::Link {
                    dest: dest.clone(),
                    resolved: self.resolved(&t),
                },
                Some(_) => Spot::Real { node: self.node(&t).unwrap() },
            },
        };
        Probe {
            target,
            source_present: self.present(&source),
            source_real: self.resolved(&source),
            source: self.node(&source),
        }
    }

    fn state_of(&self, mapping: &Mapping, cfg: &Config, os: &str) -> Item {
        plan::state_of(mapping, cfg, os, &self.probe(mapping, cfg, os))
    }

    fn plan(&self, mappings: &MappingsFile, cfg: &Config, os: &str) -> Vec<Item> {
        let probes: Vec<Probe> =
            mappings.mappings.iter().map(|m| self.probe(m, cfg, os)).collect();
        plan::plan(mappings, cfg, os, &probes)
    }

    fn taken(&self, item: &Item) -> Vec<String> {
        let mut taken = Vec::new();
        if let Some(t) = &item.target {
            let mut n = 0;
            loop {
                let c = fsutil::backup_candidate(t, n);
                if !self.present(&c) {
                    return taken;
                }
                taken.push(c);
                n += 1;
            }
        }
        taken
    }

    fn link_item(&mut self, item: &Item, dry_run: bool) -> Outcome {
        let taken = self.taken(item);
        self.carry_out(apply::link_item(item, dry_run, &taken))
    }

    fn restore_item(&mut self, item: &Item, dry_run: bool) -> Outcome {
        let present = self.present(&item.source);
        self.carry_out(apply::restore_item(item, dry_run, present))
    }

    fn unlink_item(&mut self, item: &Item, dry_run: bool) -> Outcome {
        self.carry_out(apply::unlink_item(item, dry_run))
    }

    fn cloud(&self, cfg: &Config, dir: &str) -> Vec<CloudEntry> {
        let at = path::join_path(&cfg.sync_dir, dir);
        self.children(if dir.is_empty() { &cfg.sync_dir } else { &at })
            .into_iter()
            .map(|name| {
                let rel = doctor::entry_path(dir, &name);
                let is_dir = matches!(
                    self.lstat(&path::join_path(&cfg.sync_dir, &rel)),
                    Some(Thing::Dir(_))
                );
                CloudEntry {
                    is_dir,
                    entries: if is_dir { self.cloud(cfg, &rel) } else { Vec::new() },
                    home_link: self.read_link(&doctor::home_place(cfg, &rel)),
                    name,
                }
            })
            .collect()
    }

    fn repos(&self, p: &str) -> Vec<String> {
        path::ancestors(p)
            .into_iter()
            .filter(|d| self.stat(&path::join_path(d, ".git")).is_some())
            .collect()
    }

    fn doctor(&mut self, cfg: &Config, mappings: &MappingsFile, os: &str, fix: bool) -> Report {
        let items = self.plan(mappings, cfg, os);
        let mut fixed = Vec::new();
        let mut checks = Vec::new();
        for item in items {
            let mut found = self.node(&item.source);
            let mut repairs = doctor::repairs(fix);
            while let Some(d) = repairs.next(&item, &found) {
                fixed.push(self.carry_out(d));
                found = self.node(&item.source);
            }
            checks.push(Checkup {
                found,
                repos: item.target.as_ref().map(|t| self.repos(t)).unwrap_or_default(),
                item,
            });
        }
        let around = Surroundings {
            repos: self.repos(&cfg.sync_dir),
            mode: self.mode(&cfg.sync_dir),
            entries: self.cloud(cfg, ""),
        };
        doctor::run(cfg, mappings, &checks, fix, fixed, &around)
    }

    fn undo_facts(&self, action: &UndoAction) -> UndoFacts {
        let (target, source, backup) = match action {
            UndoAction::Adopt { target, source, .. } => (target, source, None),
            UndoAction::Backup { target, source, backup, .. } => (target, source, Some(backup)),
            UndoAction::Restore { target, source, .. } => (target, source, None),
        };
        UndoFacts {
            is_link: self.is_symlink(target),
            link: self.read_link(target),
            source_present: self.present(source),
            backup_present: backup.map(|b| self.present(b)).unwrap_or(false),
            target: self.node(target),
            source: self.node(source),
        }
    }

    fn revert(
        &mut self,
        actions: Vec<UndoAction>,
        mappings: MappingsFile,
        dry_run: bool,
    ) -> (Vec<Outcome>, Option<MappingsFile>) {
        let run = Run {
            id: 7,
            command: "adopt".to_string(),
            dotsync_version: "2.1.0".to_string(),
            actions,
        };
        let mut work = journal::revert(Some(run), mappings, dry_run).unwrap();
        while let Some(action) = work.next() {
            let facts = self.undo_facts(&action);
            let (outcome, done) = match journal::revert_one(&action, &facts, dry_run) {
                Decision::Report(o) => (o, false),
                Decision::Perform(s) => self.script(s),
            };
            work.settle(&action, done, outcome);
        }
        assert_eq!(work.consumed(), if dry_run { None } else { Some(7) });
        let doc = work.document();
        (work.outcomes, doc)
    }
}

fn sandbox() -> (World, Config) {
    let cfg = Config {
        sync_dir: "/t/cloud/dotsync".to_string(),
        home: "/t/home".to_string(),
    };
    let mut w = World::new();
    w.make_dirs(&cfg.home);
    w.make_dirs(&cfg.sync_dir);
    (w, cfg)
}

fn home(cfg: &Config, rel: &str) -> String {
    path::join_path(&cfg.home, rel)
}

#[test]
fn adopt_moves_into_cloud_and_links_back() {
    let (mut w, cfg) = sandbox();
    let target = home(&cfg, ".config/zed/settings.json");
    w.write(&target, "theme=dark");
    // Adopt the containing dir.
    let dir = home(&cfg, ".config/zed");

    let (mapping, out) = w.adopt(&cfg, &dir, None, &[], false).unwrap();
    assert!(out.ok);
    assert_eq!(mapping.name, ".config/zed");

    // The dir is now a symlink into the cloud, and the file survived the move.
    assert!(w.is_symlink(&dir));
    let source = path::join_path(&cfg.sync_dir, ".config/zed");
    assert_eq!(w.read_link(&dir).unwrap(), source);
    assert_eq!(w.read(&path::join_path(&source, "settings.json")).unwrap(), "theme=dark");

    let item = w.state_of(&mapping, &cfg, "mac");
    assert!(matches!(item.state, State::Linked));
}

#[test]
fn secret_paths_are_auto_moded() {
    let (mut w, cfg) = sandbox();
    let target = home(&cfg, ".ssh/config");
    w.write(&target, "Host x");
    let (mapping, _) = w.adopt(&cfg, &target, None, &[], false).unwrap();
    assert_eq!(mapping.mode.as_deref(), Some("0600"));
    let mode = w.mode(&path::join_path(&cfg.sync_dir, ".ssh/config")).unwrap();
    assert_eq!(mode, 0o600);
}

#[test]
fn atomic_save_clobber_is_healable_and_heals() {
    let (mut w, cfg) = sandbox();
    let target = home(&cfg, ".gitconfig");
    w.write(&target, "[user]\n");
    let (mapping, _) = w.adopt(&cfg, &target, None, &[], false).unwrap();

    // An atomic save: the symlink is replaced with a real, identical file.
    let source = mapping.source(&cfg.sync_dir);
    w.remove(&target);
    w.copy(&source, &target).unwrap();

    let item = w.state_of(&mapping, &cfg, "mac");
    assert!(matches!(item.state, State::Healable));

    let out = w.link_item(&item, false);
    assert!(out.ok);
    assert!(w.is_symlink(&target));
}

#[test]
fn matching_directory_heals_too() {
    let (mut w, cfg) = sandbox();
    let dir = home(&cfg, ".config/zed");
    w.write(&path::join_path(&dir, "a/settings.json"), "x");
    w.write(&path::join_path(&dir, "keymap.json"), "y");
    let (mapping, _) = w.adopt(&cfg, &dir, None, &[], false).unwrap();
    let source = mapping.source(&cfg.sync_dir);
    w.remove(&dir);
    w.copy(&source, &dir).unwrap();
    assert!(!w.is_symlink(&dir));

    let item = w.state_of(&mapping, &cfg, "mac");
    assert!(matches!(item.state, State::Healable));
    let out = w.link_item(&item, false);
    assert!(out.ok, "{}", out.detail);
    assert_eq!(out.action, "relinked");
    assert_eq!(out.detail, "healed atomic-save clobber");
    assert_eq!(w.read_link(&dir).unwrap(), source);
    assert_eq!(w.read(&path::join_path(&dir, "a/settings.json")).unwrap(), "x");
}

#[test]
fn real_divergence_is_a_conflict_and_fail_policy_refuses() {
    let (mut w, cfg) = sandbox();
    let target = home(&cfg, ".gitconfig");
    w.write(&target, "original");
    let (mapping, _) = w.adopt(&cfg, &target, None, &[], false).unwrap();

    // Diverge: local file now differs from the cloud copy.
    w.remove(&target);
    w.write(&target, "changed locally");

    let item = w.state_of(&mapping, &cfg, "mac");
    assert!(matches!(item.state, State::Diverged));

    // Default fail policy must not clobber.
    let out = w.link_item(&item, false);
    assert!(!out.ok);
    assert_eq!(w.read(&target).unwrap(), "changed locally");
}

#[test]
fn adopt_refuses_path_already_inside_sync() {
    let (mut w, cfg) = sandbox();
    // Adopt ~/.config as a dir: it becomes a symlink into the cloud.
    w.write(&home(&cfg, ".config/a.conf"), "a");
    w.adopt(&cfg, &home(&cfg, ".config"), None, &[], false).unwrap();

    // A file now created "in" ~/.config actually lives in the cloud (via the
    // symlink). Adopting it must be refused, not delete the cloud master.
    let inner = home(&cfg, ".config/foo.conf");
    w.write(&inner, "precious");
    let res = w.adopt(&cfg, &inner, None, &[], false);
    assert!(res.is_err(), "adopting a path inside the sync folder must be refused");
    assert_eq!(w.read(&inner).unwrap(), "precious", "must not be destroyed");
}

#[test]
fn whole_secret_dir_is_tagged_and_moded_recursively() {
    let (mut w, cfg) = sandbox();
    // The natural case: adopt the whole ~/.aws directory (no trailing slash).
    w.write(&home(&cfg, ".aws/credentials"), "key");
    let (m, _) = w.adopt(&cfg, &home(&cfg, ".aws"), None, &[], false).unwrap();
    assert_eq!(m.mode.as_deref(), Some("0700"), "whole secret dir must be tagged");

    // Perms are enforced recursively: dir 0700, inner file 0600.
    assert_eq!(w.mode(&path::join_path(&cfg.sync_dir, ".aws")).unwrap(), 0o700);
    assert_eq!(
        w.mode(&path::join_path(&cfg.sync_dir, ".aws/credentials")).unwrap(),
        0o600
    );
}

#[test]
fn adopt_with_group_tags_and_lists() {
    let (mut w, cfg) = sandbox();
    let mut file = MappingsFile::default();
    for name in [".editor/EDITOR.md", ".editor/settings.json"] {
        let target = home(&cfg, name);
        w.write(&target, "x");
        let (m, _) = w.adopt(&cfg, &target, Some("editor"), &[], false).unwrap();
        assert_eq!(m.group.as_deref(), Some("editor"));
        file.upsert(m);
    }
    assert_eq!(file.groups(), vec!["editor".to_string()]);
}

#[test]
fn adopt_refuses_overlapping_mappings() {
    let (mut w, cfg) = sandbox();
    w.write(&home(&cfg, ".config/zed/s"), "x");
    // Existing mapping ".config": adopting ".config/zed" is already covered.
    let r = w.adopt(&cfg, &home(&cfg, ".config/zed"), None, &[".config"], false);
    assert!(r.is_err());
    // Existing ".config/zed": adopting ".config" would contain it.
    let r2 = w.adopt(&cfg, &home(&cfg, ".config"), None, &[".config/zed"], false);
    assert!(r2.is_err());
}

fn discover(w: &World, home: &str) -> Vec<discovery::Candidate> {
    let clients = match w.stat(&discovery::client_dir(home)) {
        Some(_) => w.children(&discovery::client_dir(home)),
        None => Vec::new(),
    };
    let is_dir = |p: &str| matches!(w.stat(p), Some(Thing::Dir(_)));
    let facts: Vec<discovery::RootFacts> = discovery::provider_roots(home, &clients)
        .into_iter()
        .map(|root| {
            let mut folders = vec![discovery::direct_folder(&root.path)];
            if is_dir(&root.path) {
                for name in w.children(&root.path) {
                    folders.push(discovery::nested_folder(&root.path, &name));
                }
            }
            let proposed = discovery::proposed_folder(&root.path);
            discovery::RootFacts {
                is_dir: is_dir(&root.path),
                existing: folders
                    .into_iter()
                    .filter(|f| is_dir(f))
                    .map(|f| discovery::Folder {
                        resolved: w.resolved(&f),
                        configured: w.present(&path::join_path(&f, MappingsFile::FILE_NAME)),
                        path: f,
                    })
                    .collect(),
                proposed_exists: is_dir(&proposed),
                proposed_resolved: w.resolved(&proposed),
                provider: root.provider,
                path: root.path,
            }
        })
        .collect();
    discovery::discover(&facts)
}

#[test]
fn discovery_proposes_and_finds_folders() {
    let mut w = World::new();
    let home = "/t";
    w.make_dirs(&path::join_path(home, "Nextcloud"));

    // Provider root exists but no dotsync folder: propose <root>/Apps/dotsync.
    let cands = discover(&w, home);
    let nc = cands
        .iter()
        .find(|c| c.path == path::join_path(home, "Nextcloud/Apps/dotsync"))
        .expect("should propose ~/Nextcloud/Apps/dotsync");
    assert!(!nc.exists && !nc.configured);

    // An existing folder one level down (Apps/dotsync) is found and, with a
    // dotsync.toml, reported as configured.
    w.make_dirs(&path::join_path(home, "Nextcloud/Apps/dotsync"));
    w.write(&path::join_path(home, "Nextcloud/Apps/dotsync/dotsync.toml"), "");
    let cands = discover(&w, home);
    let nc = cands
        .iter()
        .find(|c| c.path == path::join_path(home, "Nextcloud/Apps/dotsync"))
        .unwrap();
    assert!(nc.exists && nc.configured);
}

#[test]
fn restore_item_swaps_symlink_for_real_copy_and_keeps_cloud() {
    // A linked member must be turned back into a real file while the cloud copy
    // is preserved, and a dry run must change nothing.
    let (mut w, cfg) = sandbox();
    let target = home(&cfg, ".gitconfig");
    w.write(&target, "[user]\n  name = j\n");
    let (mapping, _) = w.adopt(&cfg, &target, None, &[], false).unwrap();
    let item = w.state_of(&mapping, &cfg, "mac");
    assert!(matches!(item.state, State::Linked));

    // Dry-run leaves the symlink in place.
    let dry = w.restore_item(&item, true);
    assert!(dry.ok);
    assert!(w.is_symlink(&target), "dry-run must not touch the symlink");

    // Real restore: the symlink becomes a real file, the cloud copy survives.
    let out = w.restore_item(&item, false);
    assert!(out.ok, "restore failed: {}", out.detail);
    assert!(!w.is_symlink(&target), "target must be a real file after restore");
    assert_eq!(w.read(&target).unwrap(), "[user]\n  name = j\n");
    let source = mapping.source(&cfg.sync_dir);
    assert!(w.present(&source), "cloud copy must be kept");
    assert_eq!(w.read(&source).unwrap(), "[user]\n  name = j\n");
}

#[test]
fn restore_item_on_dangling_symlink_just_unlinks() {
    // If the cloud copy is already gone, there's nothing to restore: the
    // dangling symlink is simply removed (never leaving an empty file behind).
    let (mut w, cfg) = sandbox();
    let target = home(&cfg, ".vimrc");
    w.write(&target, "set nocompatible");
    let (mapping, _) = w.adopt(&cfg, &target, None, &[], false).unwrap();
    w.remove_path(&mapping.source(&cfg.sync_dir)).unwrap();
    let item = w.state_of(&mapping, &cfg, "mac");
    assert!(matches!(item.state, State::DanglingSelf));

    let out = w.restore_item(&item, false);
    assert!(out.ok, "unlink failed: {}", out.detail);
    assert!(!w.is_symlink(&target), "dangling symlink must be removed");
    assert!(!w.present(&target), "no empty file left behind");
}

#[test]
fn doctor_flags_orphan_symlink_drift() {
    // Adopt a file (creating the symlink and the cloud copy), then let its
    // mapping be removed on another machine: symlink and cloud copy remain, but
    // no mapping references them.
    let (mut w, cfg) = sandbox();
    let target = home(&cfg, ".gitconfig");
    w.write(&target, "[user]\n");
    w.adopt(&cfg, &target, None, &[], false).unwrap();
    assert!(w.is_symlink(&target));

    let mappings = MappingsFile::default();
    let report = w.doctor(&cfg, &mappings, "mac", false);

    assert!(
        report
            .advisories()
            .iter()
            .any(|i| i.name == ".gitconfig" && i.message.contains("no mapping covers it")),
        "orphan symlink drift should be surfaced as an advisory"
    );
    // Drift is read-only and non-blocking: it must not make the machine unhealthy.
    assert!(report.healthy());
}

#[test]
fn doctor_advises_partially_linked_group() {
    // A group with one member linked here and another only available (synced in
    // but never linked) is drift worth surfacing.
    let (mut w, cfg) = sandbox();
    let linked = home(&cfg, ".zshrc");
    w.write(&linked, "linked");
    let (ma, _) = w.adopt(&cfg, &linked, Some("shell"), &[], false).unwrap();

    let avail = home(&cfg, ".bashrc");
    w.write(&avail, "avail");
    let (mb, _) = w.adopt(&cfg, &avail, Some("shell"), &[], false).unwrap();
    w.remove(&avail); // cloud copy stays: available, not linked

    let mut mappings = MappingsFile::default();
    mappings.upsert(ma);
    mappings.upsert(mb);
    assert!(matches!(
        w.state_of(mappings.find(".bashrc").unwrap(), &cfg, "mac").state,
        State::Available
    ));

    let report = w.doctor(&cfg, &mappings, "mac", false);
    assert!(
        report
            .advisories()
            .iter()
            .any(|i| i.name == "shell" && i.message.contains("partially linked")),
        "a partially-linked group should be advised"
    );
}

#[test]
fn doctor_flags_a_conflicted_mappings_file() {
    // A cloud provider forked dotsync.toml (a host suffix, which the generic
    // conflicted-copy scan misses). It must be called out specifically.
    let (mut w, cfg) = sandbox();
    w.write(
        &path::join_path(&cfg.sync_dir, "dotsync-DESKTOP-AB12.toml"),
        "[[mapping]]\nname = \".vimrc\"\n",
    );
    let report = w.doctor(&cfg, &MappingsFile::default(), "mac", false);
    assert!(
        report.advisories().iter().any(|i| i.name == "dotsync-DESKTOP-AB12.toml"
            && i.message.contains("conflicted copy of dotsync.toml")),
        "a forked mappings file should be flagged specifically"
    );
    assert!(report.healthy(), "a conflicted copy is an advisory, not fatal");
}

#[test]
fn heal_refuses_when_target_changed_since_planning() {
    // An item planned as healable (real file matching cloud) must not be deleted
    // if it changed again before we act: that would lose unsynced edits.
    let (mut w, cfg) = sandbox();
    let target = home(&cfg, ".gitconfig");
    w.write(&target, "orig");
    let (mapping, _) = w.adopt(&cfg, &target, None, &[], false).unwrap();
    w.remove(&target);
    w.write(&target, "orig"); // matches cloud: healable
    let item = w.state_of(&mapping, &cfg, "mac");
    assert!(matches!(item.state, State::Healable));

    w.write(&target, "CHANGED after planning");
    let out = w.link_item(&item, false);
    assert!(!out.ok, "heal must refuse when content no longer matches the cloud copy");
    assert_eq!(out.action, "conflict");
    assert_eq!(
        w.read(&target).unwrap(),
        "CHANGED after planning",
        "must not delete unsynced content"
    );
}

#[test]
fn restore_keeps_what_became_a_real_file() {
    let (mut w, cfg) = sandbox();
    let target = home(&cfg, ".gitconfig");
    w.write(&target, "v1");
    let (mapping, _) = w.adopt(&cfg, &target, None, &[], false).unwrap();
    let linked = w.state_of(&mapping, &cfg, "mac");
    assert!(linked.state.is_linked());

    // After planning, a save replaces the symlink with new content.
    w.remove(&target);
    w.write(&target, "unsynced");
    let out = w.restore_item(&linked, false);
    assert_eq!((out.action.as_str(), out.ok), ("skipped", true));
    assert_eq!(out.detail, "no longer a symlink (changed since planning) — re-run to re-check");
    assert!(out.undo.is_none());
    assert_eq!(w.read(&target).unwrap(), "unsynced");
    assert_eq!(w.read(&mapping.source(&cfg.sync_dir)).unwrap(), "v1");
    assert!(!w.present(&fsutil::temp_sibling(&target)));

    // The same where the cloud copy is gone.
    let mut dangling = linked;
    dangling.state = State::DanglingSelf;
    let out = w.restore_item(&dangling, false);
    assert_eq!((out.action.as_str(), out.ok), ("skipped", true));
    assert_eq!(w.read(&target).unwrap(), "unsynced");
}

#[test]
fn unlink_refuses_when_target_became_a_real_file() {
    // An item planned as linked whose symlink an atomic save replaced with real,
    // unsynced content must not be deleted by unlink.
    let (mut w, cfg) = sandbox();
    let target = home(&cfg, ".vimrc");
    w.write(&target, "set nocompatible");
    let (mapping, _) = w.adopt(&cfg, &target, None, &[], false).unwrap();
    let item = w.state_of(&mapping, &cfg, "mac");
    assert!(matches!(item.state, State::Linked));

    w.remove(&target);
    w.write(&target, "unsynced local edit");
    let out = w.unlink_item(&item, false);
    assert!(out.ok);
    assert!(!w.is_symlink(&target));
    assert_eq!(
        w.read(&target).unwrap(),
        "unsynced local edit",
        "must not delete a real file"
    );
}

#[test]
fn dry_run_link_does_not_fail_on_dangling() {
    // A pure preview must not fail on a transient state.
    let (mut w, cfg) = sandbox();
    let target = home(&cfg, ".zshrc");
    w.write(&target, "z");
    let (mapping, _) = w.adopt(&cfg, &target, None, &[], false).unwrap();
    w.remove_path(&mapping.source(&cfg.sync_dir)).unwrap(); // cloud gone: dangling
    let item = w.state_of(&mapping, &cfg, "mac");
    assert!(matches!(item.state, State::DanglingSelf));
    let out = w.link_item(&item, true);
    assert!(out.ok, "a dry-run preview must not fail on a transient dangling state");
    assert_eq!(out.action, "would-skip");
}

#[test]
fn mappings_file_round_trips() {
    let mut f = MappingsFile::default();
    f.upsert(Mapping::new(".config/zed"));
    let mut secret = Mapping::new(".ssh/config");
    secret.mode = Some("0600".to_string());
    f.upsert(secret);
    let stored = f.save();

    let loaded = MappingsFile::load(Some(stored));
    assert_eq!(loaded.mappings.len(), 2);
    assert_eq!(loaded.find(".ssh/config").unwrap().mode.as_deref(), Some("0600"));
}

// ---------------------------------------------------------------------------
// More scenarios
// ---------------------------------------------------------------------------

#[test]
fn linking_an_available_item_links_it_and_linking_again_does_nothing() {
    let (mut w, cfg) = sandbox();
    w.write(&path::join_path(&cfg.sync_dir, ".config/zed/s"), "x");
    let mapping = Mapping::new(".config/zed");
    let item = w.state_of(&mapping, &cfg, "linux");
    assert!(matches!(item.state, State::Available));
    assert_eq!(w.link_item(&item, true).action, "would-link");
    assert!(!w.present(&home(&cfg, ".config/zed")));
    let out = w.link_item(&item, false);
    assert_eq!((out.action.as_str(), out.ok, out.detail.as_str()), ("linked", true, ""));
    assert!(out.undo.is_none());
    let again = w.state_of(&mapping, &cfg, "linux");
    assert!(again.state.is_linked());
    let out = w.link_item(&again, false);
    assert_eq!((out.action.as_str(), out.ok), ("already-linked", true));
    assert!(out.undo.is_none());
}

#[test]
fn linking_an_already_linked_secret_asserts_its_mode_again() {
    let (mut w, cfg) = sandbox();
    let target = home(&cfg, ".netrc");
    w.write(&target, "machine x");
    let (mapping, _) = w.adopt(&cfg, &target, None, &[], false).unwrap();
    let source = mapping.source(&cfg.sync_dir);
    w.step(&Step::SetMode { path: source.clone(), mode: 0o644 }).unwrap();
    let item = w.state_of(&mapping, &cfg, "mac");
    assert!(item.state.is_linked());
    let out = w.link_item(&item, false);
    assert_eq!((out.action.as_str(), out.detail.as_str()), ("already-linked", ""));
    assert_eq!(w.mode(&source), Some(0o600));
}

#[test]
fn adopt_policy_backs_up_and_undo_brings_back() {
    let (mut w, cfg) = sandbox();
    let target = home(&cfg, ".gitconfig");
    w.write(&path::join_path(&cfg.sync_dir, ".gitconfig"), "cloud");
    w.write(&target, "local");
    w.write(&home(&cfg, ".gitconfig.bak"), "older");
    let mut mapping = Mapping::new(".gitconfig");
    mapping.on_conflict = OnConflict::Adopt;
    let item = w.state_of(&mapping, &cfg, "mac");
    assert!(matches!(item.state, State::Diverged));
    let out = w.link_item(&item, false);
    assert_eq!(out.action, "backed-up-linked");
    assert_eq!(out.detail, "local → /t/home/.gitconfig.bak.1");
    assert_eq!(w.read(&target).unwrap(), "cloud");
    assert_eq!(w.read(&home(&cfg, ".gitconfig.bak.1")).unwrap(), "local");
    assert_eq!(w.read(&home(&cfg, ".gitconfig.bak")).unwrap(), "older");

    let undo = out.undo.unwrap();
    assert_eq!(undo.name(), ".gitconfig");
    let (outs, doc) = w.revert(vec![undo.clone()], MappingsFile::default(), true);
    assert_eq!(outs[0].action, "would-undo");
    assert_eq!(outs[0].detail, "restore /t/home/.gitconfig.bak.1");
    assert!(doc.is_none());
    let (outs, doc) = w.revert(vec![undo], MappingsFile::default(), false);
    assert_eq!(outs[0].action, "restored-backup");
    assert!(doc.is_none());
    assert_eq!(w.read(&target).unwrap(), "local");
    assert!(!w.is_symlink(&target));
    assert!(!w.present(&home(&cfg, ".gitconfig.bak.1")));
}

#[test]
fn foreign_symlink_is_a_conflict_unless_the_policy_adopts() {
    let (mut w, cfg) = sandbox();
    let target = home(&cfg, ".vimrc");
    w.write("/t/elsewhere", "e");
    w.write(&path::join_path(&cfg.sync_dir, ".vimrc"), "cloud");
    w.steps(&fsutil::make_symlink("/t/elsewhere", &target)).unwrap();
    let mut mapping = Mapping::new(".vimrc");
    let item = w.state_of(&mapping, &cfg, "mac");
    assert!(matches!(&item.state, State::ForeignSymlink(d) if d == "/t/elsewhere"));
    assert!(item.state.is_problem());
    let out = w.link_item(&item, false);
    assert_eq!(out.detail, "target is a symlink to /t/elsewhere — resolve by hand");
    assert!(!out.ok);
    mapping.on_conflict = OnConflict::Adopt;
    let item = w.state_of(&mapping, &cfg, "mac");
    let out = w.link_item(&item, false);
    assert_eq!(out.detail, "old link → /t/home/.vimrc.bak");
    assert_eq!(w.read_link(&home(&cfg, ".vimrc.bak")).unwrap(), "/t/elsewhere");
    assert_eq!(w.read(&target).unwrap(), "cloud");
}

#[test]
fn replacing_a_foreign_link_without_a_cloud_copy_leaves_it_dangling() {
    let (mut w, cfg) = sandbox();
    let target = home(&cfg, ".vimrc");
    w.write("/t/elsewhere", "e");
    w.steps(&fsutil::make_symlink("/t/elsewhere", &target)).unwrap();
    let mut mapping = Mapping::new(".vimrc");
    mapping.on_conflict = OnConflict::Adopt;
    let item = w.state_of(&mapping, &cfg, "mac");
    assert_eq!(w.link_item(&item, false).action, "backed-up-linked");
    let after = apply::refresh(&item, &cfg, "mac", &w.probe(&mapping, &cfg, "mac"));
    assert!(matches!(after.state, State::DanglingSelf));
}

#[test]
fn a_link_that_resolves_to_the_cloud_copy_counts_as_linked() {
    let (mut w, cfg) = sandbox();
    w.write(&path::join_path(&cfg.sync_dir, ".vimrc"), "cloud");
    w.steps(&fsutil::make_symlink("/t/cloud", "/t/alias")).unwrap();
    w.steps(&fsutil::make_symlink("/t/alias/dotsync/.vimrc", &home(&cfg, ".vimrc"))).unwrap();
    let item = w.state_of(&Mapping::new(".vimrc"), &cfg, "mac");
    assert!(matches!(item.state, State::Linked));
}

#[test]
fn undoing_an_adoption_moves_the_file_back_and_drops_the_mapping() {
    let (mut w, cfg) = sandbox();
    let target = home(&cfg, ".gitconfig");
    w.write(&target, "mine");
    let (mapping, out) = w.adopt(&cfg, &target, Some("git"), &[], false).unwrap();
    assert_eq!(out.action, "adopted");
    assert_eq!(out.detail, "/t/cloud/dotsync/.gitconfig");
    let mut mappings = MappingsFile::default();
    mappings.upsert(mapping.clone());
    mappings.upsert(Mapping::new(".zshrc"));
    let (outs, doc) = w.revert(vec![out.undo.unwrap()], mappings, false);
    assert_eq!(outs[0].action, "un-adopted");
    let doc = doc.unwrap();
    assert!(doc.find(".gitconfig").is_none());
    assert!(doc.find(".zshrc").is_some());
    assert_eq!(w.read(&target).unwrap(), "mine");
    assert!(!w.is_symlink(&target));
    assert!(!w.present(&mapping.source(&cfg.sync_dir)));
}

#[test]
fn undoing_a_restore_links_again_and_brings_the_mapping_back() {
    let (mut w, cfg) = sandbox();
    let target = home(&cfg, ".gitconfig");
    w.write(&target, "mine");
    let (mapping, _) = w.adopt(&cfg, &target, Some("git"), &[], false).unwrap();
    let item = w.state_of(&mapping, &cfg, "mac");
    let out = w.restore_item(&item, false);
    assert_eq!(out.action, "restored");
    let undo = out.undo.unwrap();
    let (outs, doc) = w.revert(vec![undo.clone()], MappingsFile::default(), false);
    assert_eq!(outs[0].action, "re-linked");
    assert_eq!(doc.unwrap().find(".gitconfig").unwrap().group.as_deref(), Some("git"));
    assert_eq!(w.read_link(&target).unwrap(), mapping.source(&cfg.sync_dir));
    // Once more: it is a symlink already.
    let (outs, doc) = w.revert(vec![undo], MappingsFile::default(), false);
    assert_eq!((outs[0].action.as_str(), outs[0].detail.as_str()), ("skipped", "already re-linked"));
    assert!(doc.is_none());
}

#[test]
fn undo_keeps_what_changed_since() {
    let (mut w, cfg) = sandbox();
    let target = home(&cfg, ".gitconfig");
    w.write(&target, "mine");
    let (mapping, adopted) = w.adopt(&cfg, &target, None, &[], false).unwrap();
    let item = w.state_of(&mapping, &cfg, "mac");
    let restored = w.restore_item(&item, false).undo.unwrap();
    w.write(&target, "edited");
    let (outs, _) = w.revert(vec![restored], MappingsFile::default(), false);
    assert_eq!(outs[0].detail, "changed since it was restored — kept your version");
    let (outs, _) = w.revert(vec![adopted.undo.unwrap()], MappingsFile::default(), false);
    assert_eq!(outs[0].detail, "target is no longer dotsync's symlink");
    assert_eq!(w.read(&target).unwrap(), "edited");
}

#[test]
fn a_run_is_reverted_from_its_last_action_to_its_first() {
    let (mut w, cfg) = sandbox();
    let mut actions = Vec::new();
    for name in [".a", ".b", ".c"] {
        w.write(&home(&cfg, name), name);
        let (_, out) = w.adopt(&cfg, &home(&cfg, name), None, &[], false).unwrap();
        actions.push(out.undo.unwrap());
    }
    let (outs, _) = w.revert(actions, MappingsFile::default(), false);
    let names: Vec<&str> = outs.iter().map(|o| o.name.as_str()).collect();
    assert_eq!(names, vec![".c", ".b", ".a"]);
}

#[test]
fn adopting_what_matches_the_cloud_relinks() {
    let (mut w, cfg) = sandbox();
    let target = home(&cfg, ".config/zed");
    w.write(&path::join_path(&target, "s"), "x");
    w.write(&path::join_path(&cfg.sync_dir, ".config/zed/s"), "x");
    let (_, out) = w.adopt(&cfg, &target, None, &[], true).unwrap();
    assert_eq!(out.action, "would-relink");
    let (_, out) = w.adopt(&cfg, &target, None, &[], false).unwrap();
    assert_eq!((out.action.as_str(), out.detail.as_str()), ("relinked", "matched existing cloud copy"));
    assert!(w.is_symlink(&target));
    // And once more, now that it is adopted.
    let (_, out) = w.adopt(&cfg, &target, None, &[".config/zed"], false).unwrap();
    assert_eq!(out.action, "already-adopted");
    let (m, out) = w.adopt(&cfg, &target, Some("editors"), &[".config/zed"], false).unwrap();
    assert_eq!(out.action, "grouped");
    assert_eq!(m.group.as_deref(), Some("editors"));
}

#[test]
fn adopt_says_why_it_refuses() {
    let (mut w, cfg) = sandbox();
    let refuse = |w: &mut World, p: &str| w.adopt(&cfg, p, None, &[], false).unwrap_err();
    assert_eq!(refuse(&mut w, "/t/home/none"), "nothing exists at /t/home/none");
    w.write("/t/cloud/dotsync/x", "x");
    assert_eq!(refuse(&mut w, "/t/cloud/dotsync/x"), "/t/cloud/dotsync/x is already inside the sync folder");
    w.write("/t/other/x", "x");
    assert_eq!(
        refuse(&mut w, "/t/other/x"),
        "/t/other/x is not under the home base /t/home — dotsync can only adopt paths inside it"
    );
    assert_eq!(refuse(&mut w, "/t/home"), "refusing to adopt the home base itself");
    w.write("/t/home/x", "differs");
    assert_eq!(
        refuse(&mut w, "/t/home/x"),
        "x already exists in the cloud folder and differs from the local copy — resolve by hand, or delete one side"
    );
    let covered = w.adopt(&cfg, "/t/home/x", None, &["y", "x/y"], false).unwrap_err();
    assert_eq!(
        covered,
        "x would contain the existing mapping x/y — adopt specific items, not the whole directory"
    );
}

#[test]
fn dry_run_of_adopting_touches_nothing() {
    let (mut w, cfg) = sandbox();
    let target = home(&cfg, ".gitconfig");
    w.write(&target, "mine");
    let (_, out) = w.adopt(&cfg, &target, None, &[], true).unwrap();
    assert_eq!((out.action.as_str(), out.detail.as_str()), ("would-adopt", "move into cloud, link back"));
    assert!(!w.is_symlink(&target));
    assert!(!w.present("/t/cloud/dotsync/.gitconfig"));
}

#[test]
fn doctor_reports_and_repairs() {
    let (mut w, cfg) = sandbox();
    let mut mappings = MappingsFile::default();
    // A replaced link, a diverged file, a dangling link, and a secret too open.
    for name in [".heal", ".diverge", ".dangle", ".netrc"] {
        w.write(&home(&cfg, name), name);
        let (m, _) = w.adopt(&cfg, &home(&cfg, name), None, &[], false).unwrap();
        mappings.upsert(m);
    }
    w.remove(&home(&cfg, ".heal"));
    w.write(&home(&cfg, ".heal"), ".heal");
    w.remove(&home(&cfg, ".diverge"));
    w.write(&home(&cfg, ".diverge"), "other");
    w.remove("/t/cloud/dotsync/.dangle");
    w.step(&Step::SetMode { path: "/t/cloud/dotsync/.netrc".to_string(), mode: 0o644 }).unwrap();
    w.write("/t/cloud/dotsync/notes (conflicted copy).txt", "c");

    let report = w.doctor(&cfg, &mappings, "mac", false);
    assert!(!report.healthy());
    let names: Vec<(String, bool)> =
        report.issues.iter().map(|i| (i.name.clone(), i.fixable)).collect();
    assert_eq!(
        names,
        vec![
            (".heal".to_string(), true),
            (".diverge".to_string(), false),
            (".dangle".to_string(), false),
            (".netrc".to_string(), true),
            ("/t/cloud/dotsync".to_string(), false),
            ("notes (conflicted copy).txt".to_string(), false),
        ]
    );
    assert_eq!(
        report.issues[4].message,
        "sync folder is group/world-accessible (0755) but holds secrets — consider `chmod 700`"
    );
    assert_eq!(report.errors().len(), 1);
    assert_eq!(report.advisories().len(), 5);

    let fixed = w.doctor(&cfg, &mappings, "mac", true);
    let done: Vec<(String, String)> =
        fixed.fixed.iter().map(|o| (o.name.clone(), o.action.clone())).collect();
    assert_eq!(
        done,
        vec![
            (".heal".to_string(), "relinked".to_string()),
            (".netrc".to_string(), "chmod".to_string()),
        ]
    );
    assert!(w.is_symlink(&home(&cfg, ".heal")));
    assert_eq!(w.mode("/t/cloud/dotsync/.netrc"), Some(0o600));
    assert!(!fixed.issues.iter().any(|i| i.fixable));

    // Looking again, there is nothing left to repair.
    let again = w.doctor(&cfg, &mappings, "mac", true);
    assert!(again.fixed.is_empty());
    assert!(!w.doctor(&cfg, &mappings, "mac", false).issues.iter().any(|i| i.fixable));
}

#[test]
fn doctor_keeps_secrets_out_of_git() {
    let (mut w, cfg) = sandbox();
    w.write(&home(&cfg, ".netrc"), "x");
    let (m, _) = w.adopt(&cfg, &home(&cfg, ".netrc"), None, &[], false).unwrap();
    let mut mappings = MappingsFile::default();
    mappings.upsert(m);
    w.make_dirs("/t/home/.git");
    w.make_dirs("/t/cloud/.git");
    let report = w.doctor(&cfg, &mappings, "mac", false);
    let errors: Vec<String> = report.errors().iter().map(|i| i.message.clone()).collect();
    assert_eq!(
        errors,
        vec![
            "secret's target is inside a git repository (/t/home) — git could commit it; move it out of the repo"
                .to_string(),
            "sync folder is inside a git repository (/t/cloud) — synced files and secrets could be committed"
                .to_string(),
        ]
    );
}

#[test]
fn copying_keeps_structure_and_modes() {
    let (mut w, _) = sandbox();
    w.write("/t/a/b/c", "deep");
    w.write("/t/a/d", "flat");
    w.steps(&fsutil::make_symlink("/t/a/d", "/t/a/l")).unwrap();
    w.step(&Step::SetMode { path: "/t/a/b".to_string(), mode: 0o700 }).unwrap();
    w.copy("/t/a", "/t/z").unwrap();
    assert!(tree::trees_equal(&w.node("/t/a"), &w.node("/t/z")));
    assert_eq!(w.mode("/t/z/b"), Some(0o700));
    assert_eq!(w.read_link("/t/z/l").unwrap(), "/t/a/d");
    w.write("/t/z/d", "changed");
    assert!(!tree::trees_equal(&w.node("/t/a"), &w.node("/t/z")));
    assert!(!tree::trees_equal(&w.node("/t/a"), &None));
}

#[test]
fn tightening_leaves_nothing_open_and_no_link_followed() {
    let (mut w, _) = sandbox();
    w.write("/t/s/k", "secret");
    w.write("/t/out", "public");
    w.steps(&fsutil::make_symlink("/t/out", "/t/s/l")).unwrap();
    assert!(tree::any_too_open(&w.node("/t/s")));
    w.tighten("/t/s").unwrap();
    assert!(!tree::any_too_open(&w.node("/t/s")));
    assert_eq!(w.mode("/t/s"), Some(0o700));
    assert_eq!(w.mode("/t/s/k"), Some(0o600));
    assert_eq!(w.mode("/t/out"), Some(0o644));
    assert!(!tree::any_too_open(&None));
}

#[test]
fn moving_across_devices_is_all_or_nothing() {
    let (mut w, cfg) = sandbox();
    w.write("/t/home/.config/zed/a", "one");
    w.write("/t/home/.config/zed/b/c", "two");
    w.steps(&fsutil::make_symlink("/elsewhere", "/t/home/.config/zed/l")).unwrap();
    w.step(&Step::SetMode { path: "/t/home/.config/zed/b".to_string(), mode: 0o500 }).unwrap();
    let before = w.node("/t/home/.config/zed");

    // However far the copy came, nothing stands at the new place before it is
    // complete, and the original is whole.
    let to = "/t/cloud/dotsync/.config/zed";
    let plan = fsutil::move_path("/t/home/.config/zed", to);
    assert_eq!(plan.tmp, "/t/cloud/dotsync/.config/zed.dotsync-tmp");
    w.steps(&plan.before).unwrap();
    let from = "/t/home/.config/zed";
    let steps = fsutil::move_by_copy(before.as_ref().unwrap(), from, to).unwrap();
    let copied = steps.len() - 2;
    for step in &steps[..copied] {
        w.step(step).unwrap();
        assert!(!w.present(to));
        assert!(tree::trees_equal(&before, &w.node(from)));
    }
    w.step(&steps[copied]).unwrap();
    assert!(tree::trees_equal(&before, &w.node(to)));
    assert!(tree::trees_equal(&before, &w.node(from)));
    assert!(!w.present(&plan.tmp));
    w.step(&steps[copied + 1]).unwrap();
    assert!(!w.present(from));
    assert!(w.rename(to, from));

    // A stale temporary copy is no hindrance.
    w.write(&path::join_path(&plan.tmp, "stale"), "x");
    w.crossing = true;
    let (_, out) = w.adopt(&cfg, "/t/home/.config/zed", None, &[], false).unwrap();
    assert_eq!(out.action, "adopted");
    assert!(tree::trees_equal(&before, &w.node(to)));
    assert_eq!(w.mode(&path::join_path(to, "b")), Some(0o500));
    assert_eq!(w.read_link(&path::join_path(to, "l")).unwrap(), "/elsewhere");
    assert_eq!(w.read_link("/t/home/.config/zed").unwrap(), to);
    assert!(!w.present(&plan.tmp));
}

#[test]
fn a_relative_link_to_the_cloud_copy_counts_as_linked() {
    let (mut w, cfg) = sandbox();
    w.write("/t/cloud/dotsync/.zshrc", "x");
    // What the link text is, and where the link leads.
    let probe = Probe {
        target: Spot::Link {
            dest: "../cloud/dotsync/.zshrc".to_string(),
            resolved: Some("/t/cloud/dotsync/.zshrc".to_string()),
        },
        source_present: true,
        source_real: w.resolved("/t/cloud/dotsync/.zshrc"),
        source: None,
    };
    let item = plan::state_of(&Mapping::new(".zshrc"), &cfg, "mac", &probe);
    assert!(item.state.is_linked());
}

#[test]
fn a_copy_of_what_could_not_be_read_is_refused() {
    let unlisted = Node::Dir { mode: Some(0o755), entries: None };
    assert!(fsutil::copy_recursive(&unlisted, "/a", "/b").is_none());
    assert!(fsutil::move_by_copy(&unlisted, "/a", "/b").is_none());
    let unread = Node::Dir {
        mode: Some(0o755),
        entries: Some(vec![Entry { name: "l".to_string(), node: Node::Link { dest: None } }]),
    };
    assert!(!tree::is_listed(&unread));
    assert!(fsutil::copy_recursive(&unread, "/a", "/b").is_none());
    let file = Node::File { mode: Some(0o644), bytes: None };
    assert_eq!(fsutil::copy_recursive(&file, "/a", "/b").unwrap().len(), 2);
}

#[test]
fn repairs_are_made_only_when_asked_for() {
    let (mut w, cfg) = sandbox();
    let target = home(&cfg, ".netrc");
    w.write(&target, "machine x");
    let (mapping, _) = w.adopt(&cfg, &target, None, &[], false).unwrap();
    let source = mapping.source(&cfg.sync_dir);
    // The link was replaced, and the secret drifted open.
    w.remove(&target);
    w.write(&target, "machine x");
    w.step(&Step::SetMode { path: source.clone(), mode: 0o644 }).unwrap();
    let mut mappings = MappingsFile::default();
    mappings.upsert(mapping);

    let report = w.doctor(&cfg, &mappings, "mac", false);
    assert!(report.fixed.is_empty());
    assert!(!w.is_symlink(&target));
    assert_eq!(report.issues.iter().filter(|i| i.fixable).count(), 2);

    // Healing tightens too, so there is one repair.
    let report = w.doctor(&cfg, &mappings, "mac", true);
    let done: Vec<String> = report.fixed.iter().map(|o| o.action.clone()).collect();
    assert_eq!(done, vec!["relinked".to_string()]);
    assert!(w.is_symlink(&target));
    assert_eq!(w.mode(&source), Some(0o600));
    assert!(!report.issues.iter().any(|i| i.fixable));

    // What was not asked for is not reported either.
    let around = Surroundings { repos: Vec::new(), mode: None, entries: Vec::new() };
    let stray = vec![Outcome::new("x", "relinked", true, "")];
    assert!(doctor::run(&cfg, &mappings, &Vec::new(), false, stray, &around).fixed.is_empty());
}

#[test]
fn an_adoption_goes_on_after_a_path_that_fails() {
    let (mut w, cfg) = sandbox();
    w.write(&home(&cfg, ".a"), "one");
    w.write(&home(&cfg, ".c"), "three");
    let mut sweep = manage::adopting(MappingsFile::default());
    for at in [home(&cfg, ".a"), home(&cfg, ".missing"), "/elsewhere".to_string(), home(&cfg, ".c")] {
        let facts = w.adopt_facts(&cfg, &at);
        match sweep.decide(&cfg, &at, &None, "g", false, &facts) {
            Ok((m, d)) => {
                let out = w.carry_out(d);
                sweep.settle(m, out);
            }
            Err(e) => sweep.refuse(&cfg, &at, e),
        }
    }
    assert_eq!(sweep.failure(), None);
    let told: Vec<(String, bool)> =
        sweep.outcomes.iter().map(|o| (o.name.clone(), o.ok)).collect();
    assert_eq!(
        told,
        vec![
            (".a".to_string(), true),
            (".missing".to_string(), false),
            ("/elsewhere".to_string(), false),
            (".c".to_string(), true),
        ]
    );
    assert_eq!(sweep.outcomes[1].action, "error");
    assert_eq!(sweep.outcomes[1].detail, "nothing exists at /t/home/.missing");
    assert!(sweep.document(true).is_none());
    let saved = sweep.document(false).unwrap();
    assert_eq!(manage::mapping_names(&saved), vec![".a".to_string(), ".c".to_string()]);
    assert_eq!(manage::undo_actions(&sweep.outcomes).len(), 2);

    // A path that was carried out badly is not recorded; that is no reason to
    // fail as a whole.
    let mut sweep = manage::adopting(MappingsFile::default());
    sweep.settle(Mapping::new(".x"), Outcome::new(".x", "error", false, "disk full"));
    assert_eq!(sweep.failure(), None);
    assert!(sweep.document(false).unwrap().mappings.is_empty());

    // Where every path is refused, the command could not run.
    let mut sweep = manage::adopting(MappingsFile::default());
    sweep.refuse(&cfg, &cfg.home, Error::HomeItself);
    sweep.refuse(&cfg, "/x", Error::NothingAt { path: "/x".to_string() });
    assert_eq!(sweep.failure().as_deref(), Some("refusing to adopt the home base itself"));
}

#[test]
fn undo_keeps_what_was_saved_at_the_last_moment() {
    let (mut w, cfg) = sandbox();
    let target = home(&cfg, ".gitconfig");
    w.write(&target, "v1");
    let (mapping, out) = w.adopt(&cfg, &target, None, &[], false).unwrap();
    let action = out.undo.unwrap();
    let facts = w.undo_facts(&action);
    let decision = journal::revert_one(&action, &facts, false);

    // A save after the look and before the act.
    w.remove(&target);
    w.write(&target, "unsynced");
    let out = w.carry_out(decision);
    assert_eq!((out.action.as_str(), out.ok), ("skipped", true));
    assert_eq!(w.read(&target).unwrap(), "unsynced");
    assert_eq!(w.read(&mapping.source(&cfg.sync_dir)).unwrap(), "v1");

    // The same for a restored copy and for an adoption that matched.
    w.write(&target, "v1");
    let action = UndoAction::Restore {
        name: ".gitconfig".to_string(),
        target: target.clone(),
        source: mapping.source(&cfg.sync_dir),
        mapping,
    };
    let decision = journal::revert_one(&action, &w.undo_facts(&action), false);
    let facts = w.adopt_facts(&cfg, &target);
    let (_, relink) = apply::adopt(&cfg, &target, &None, &None, &Vec::new(), false, &facts).unwrap();
    w.write(&target, "unsynced");
    for d in [decision, relink] {
        let out = w.carry_out(d);
        assert_eq!((out.action.as_str(), out.ok), ("conflict", false));
        assert_eq!(w.read(&target).unwrap(), "unsynced");
    }
}
