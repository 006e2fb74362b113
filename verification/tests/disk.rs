//! The runs of the library, carried out on a disk that is kept in memory.

use std::collections::BTreeMap;

use sync_engine::companion::CompanionRequest;
use sync_engine::copy::CopyRequest;
use sync_engine::current::CheckRequest;
use sync_engine::guard::{check_overlap, GuardRequest, Refusal};
use sync_engine::protocol::{EntryKind, Failure, FailureKind, FileKind, FsReply, Listed, Reply};
use sync_engine::removal::{Removal, RemovalRequest};
use sync_engine::sync::{SyncError, SyncRequest};
use sync_engine::{
    copy_dir_recursive, ensure_dst_not_inside_src, is_target_current, remove_target,
    sync_companion_files, sync_skill, written_path, Platform, SkillPath, SyncMode,
};

#[derive(Debug, Clone, PartialEq)]
enum Node {
    Dir,
    File(String),
    Link { to: String, directory: bool },
}

/// A disk, with the operations that were carried out on it and those that it refuses.
#[derive(Debug, Clone)]
struct Disk {
    nodes: BTreeMap<String, Node>,
    log: Vec<String>,
    refuses: Vec<&'static str>,
    /// Whether links to directories are told apart from links to files.
    windows: bool,
}

type Done<T> = Result<T, FailureKind>;

fn path(text: &str) -> SkillPath {
    SkillPath::from_unix(text.as_bytes())
}

fn parent_of(text: &str) -> String {
    match text.rfind('/') {
        Some(0) | None => "/".to_string(),
        Some(at) => text[..at].to_string(),
    }
}

fn above(text: &str, up: usize) -> String {
    (0..up).fold(text.to_string(), |at, _| parent_of(&at))
}

fn join(base: &str, name: &str) -> String {
    if base == "/" {
        format!("/{name}")
    } else {
        format!("{base}/{name}")
    }
}

fn below(base: &str, place: &[Vec<u8>]) -> String {
    place.iter().fold(base.to_string(), |at, name| {
        join(&at, std::str::from_utf8(name).unwrap())
    })
}

fn failure(kind: FailureKind) -> Failure {
    Failure { kind, ticket: 7 }
}

impl Disk {
    fn new() -> Disk {
        let mut disk = Disk {
            nodes: BTreeMap::new(),
            log: Vec::new(),
            refuses: Vec::new(),
            windows: false,
        };
        disk.nodes.insert("/".to_string(), Node::Dir);
        disk.dir("/tmp");
        disk
    }

    fn dir(&mut self, at: &str) {
        self.create_dir_all(at).unwrap();
    }

    fn file(&mut self, at: &str, text: &str) {
        let at = self.entry(at).unwrap();
        self.nodes.insert(at, Node::File(text.to_string()));
    }

    fn link(&mut self, to: &str, at: &str) {
        self.make_link(to, at, true).unwrap();
    }

    fn canonical(&self, text: &str) -> Done<String> {
        let mut todo: Vec<String> = text.split('/').rev().map(str::to_string).collect();
        let mut at = "/".to_string();
        let mut links = 0;
        while let Some(part) = todo.pop() {
            match part.as_str() {
                "" | "." => {}
                ".." => at = parent_of(&at),
                name => {
                    let next = join(&at, name);
                    match self.nodes.get(&next).ok_or(FailureKind::NotFound)? {
                        Node::Link { to, .. } => {
                            links += 1;
                            if links > 20 {
                                return Err(FailureKind::Other);
                            }
                            if to.starts_with('/') {
                                at = "/".to_string();
                            }
                            todo.extend(to.split('/').rev().map(str::to_string));
                        }
                        _ => at = next,
                    }
                }
            }
        }
        Ok(at)
    }

    /// Where an entry is, the entry itself not being followed.
    fn entry(&self, text: &str) -> Done<String> {
        let parent = self.canonical(&parent_of(text))?;
        Ok(join(&parent, &text[text.rfind('/').unwrap() + 1..]))
    }

    fn node(&self, text: &str) -> Done<Node> {
        let at = self.entry(text)?;
        self.nodes.get(&at).cloned().ok_or(FailureKind::NotFound)
    }

    fn present(&self, text: &str) -> bool {
        self.canonical(text).is_ok()
    }

    fn is_dir(&self, text: &str) -> bool {
        self.canonical(text)
            .map(|at| self.nodes[&at] == Node::Dir)
            .unwrap_or(false)
    }

    fn is_symlink(&self, text: &str) -> bool {
        matches!(self.node(text), Ok(Node::Link { .. }))
    }

    fn read(&self, text: &str) -> String {
        match &self.nodes[&self.canonical(text).unwrap()] {
            Node::File(text) => text.clone(),
            other => panic!("{text} is {other:?}"),
        }
    }

    fn kind(&self, text: &str) -> Done<FileKind> {
        Ok(match self.node(text)? {
            Node::Dir => FileKind::Directory,
            Node::File(_) => FileKind::Other,
            Node::Link { directory, .. } => FileKind::Link { directory },
        })
    }

    fn create_dir_all(&mut self, text: &str) -> Done<()> {
        self.may("create_dir_all")?;
        let mut at = "/".to_string();
        for name in text.split('/').filter(|name| !name.is_empty()) {
            at = join(&at, name);
            if self.canonical(&at).is_err() {
                self.nodes.insert(at.clone(), Node::Dir);
            }
            at = self.canonical(&at)?;
        }
        Ok(())
    }

    fn may(&self, operation: &str) -> Done<()> {
        if self.refuses.contains(&operation) {
            Err(FailureKind::Other)
        } else {
            Ok(())
        }
    }

    fn remove(&mut self, removal: Removal, text: &str) -> Done<()> {
        self.may("remove")?;
        let at = self.entry(text)?;
        match (removal, self.node(text)?) {
            (Removal::File, Node::Dir) => return Err(FailureKind::Other),
            (Removal::File, Node::Link { directory, .. }) if directory && self.windows => {
                return Err(FailureKind::Other);
            }
            (Removal::EmptyDir, Node::File(_)) => return Err(FailureKind::Other),
            (Removal::EmptyDir, Node::Link { directory, .. }) if !directory || !self.windows => {
                return Err(FailureKind::Other);
            }
            (Removal::Tree, Node::Link { .. }) => return Err(FailureKind::Other),
            _ => {}
        }
        let inside = format!("{at}/");
        self.nodes
            .retain(|place, _| *place != at && !place.starts_with(&inside));
        Ok(())
    }

    fn make_link(&mut self, to: &str, text: &str, directory: bool) -> Done<()> {
        self.may("link")?;
        let at = self.entry(text)?;
        if self.nodes.contains_key(&at) {
            return Err(FailureKind::Other);
        }
        let to = to.to_string();
        self.nodes.insert(at, Node::Link { to, directory });
        Ok(())
    }

    fn make_junction(&mut self, to: &str, text: &str) -> Done<()> {
        self.may("junction")?;
        let at = self.entry(text)?;
        let to = to.to_string();
        self.nodes.insert(at, Node::Link { to, directory: true });
        Ok(())
    }

    fn copy_file(&mut self, from: &str, text: &str) -> Done<()> {
        self.may("copy")?;
        let content = match &self.nodes[&self.canonical(from)?] {
            Node::File(content) => content.clone(),
            _ => return Err(FailureKind::Other),
        };
        let at = self.entry(text)?;
        self.nodes.insert(at, Node::File(content));
        Ok(())
    }

    fn list(&self, text: &str) -> Done<Vec<Listed<Vec<u8>>>> {
        self.may("list")?;
        let base = self.canonical(text)?;
        let mut entries = Vec::new();
        for (place, node) in &self.nodes {
            if place != "/" && parent_of(place) == base {
                let name = place[place.rfind('/').unwrap() + 1..].as_bytes().to_vec();
                let kind = match node {
                    Node::Dir => EntryKind::Directory,
                    Node::File(_) => EntryKind::File,
                    Node::Link { .. } => EntryKind::Other,
                };
                entries.push(Listed::Found { name, kind });
            }
        }
        if self.refuses.contains(&"entry") {
            entries.push(Listed::Failed(failure(FailureKind::Other)));
        }
        Ok(entries)
    }

    fn resolved(&self, text: &str) -> FsReply {
        Reply::Path(match self.canonical(text) {
            Ok(at) => Ok(path(&at)),
            Err(kind) => Err(failure(kind)),
        })
    }

    fn check(&self, request: CheckRequest, source: &str, target: &str) -> FsReply {
        match request {
            CheckRequest::Inspect => Reply::Kind(self.kind(target).map_err(failure)),
            CheckRequest::ReadLink => Reply::Path(match self.node(target) {
                Ok(Node::Link { to, .. }) => Ok(path(&to)),
                Ok(_) => Err(failure(FailureKind::Other)),
                Err(kind) => Err(failure(kind)),
            }),
            CheckRequest::ResolveLink { relative } => match self.node(target) {
                Ok(Node::Link { to, .. }) if relative => {
                    self.resolved(&join(&parent_of(target), &to))
                }
                Ok(Node::Link { to, .. }) => self.resolved(&to),
                _ => Reply::Path(Err(failure(FailureKind::Other))),
            },
            CheckRequest::ResolveSource => self.resolved(source),
        }
    }

    fn guard(&self, request: GuardRequest, source: &str, target: &str) -> FsReply {
        match request {
            GuardRequest::ResolveSource => self.resolved(source),
            GuardRequest::ResolveSourceAncestor { up } => self.resolved(&above(source, up)),
            GuardRequest::ResolveTarget => self.resolved(target),
            GuardRequest::ResolveTargetAncestor { up } => self.resolved(&above(target, up)),
        }
    }

    fn removal(&mut self, request: RemovalRequest, target: &str) -> FsReply {
        self.log.push(format!("{request:?} {target}"));
        match request {
            RemovalRequest::Inspect => Reply::Kind(self.kind(target).map_err(failure)),
            RemovalRequest::Mute => Reply::Muted,
            RemovalRequest::Remove(removal) => {
                Reply::Outcome(self.remove(removal, target).map_err(failure))
            }
        }
    }

    fn copying(
        &mut self,
        request: CopyRequest<Vec<Vec<u8>>>,
        source: &str,
        target: &str,
    ) -> FsReply {
        match request {
            CopyRequest::MakeDir(place) => {
                let at = below(target, &place);
                Reply::Outcome(self.create_dir_all(&at).map_err(failure))
            }
            CopyRequest::List(place) => {
                Reply::Listing(self.list(&below(source, &place)).map_err(failure))
            }
            CopyRequest::CopyFile(place) => {
                let from = below(source, &place);
                Reply::Outcome(self.copy_file(&from, &below(target, &place)).map_err(failure))
            }
        }
    }

    fn sync_on(
        &mut self,
        source: &str,
        target: &str,
        mode: SyncMode,
        platform: Platform,
    ) -> Result<SyncMode, SyncError> {
        self.windows = platform == Platform::Windows;
        let mut run = sync_skill(path(source), path(target), mode, platform);
        while let Some(request) = run.request() {
            self.log.push(format!("{request:?}"));
            let reply = match request {
                SyncRequest::Check(request) => self.check(request, source, target),
                SyncRequest::Mute => Reply::Muted,
                SyncRequest::CreateParent => {
                    Reply::Outcome(self.create_dir_all(&parent_of(target)).map_err(failure))
                }
                SyncRequest::Guard(request) | SyncRequest::GuardAgain(request) => {
                    self.guard(request, source, target)
                }
                SyncRequest::Remove(request) => self.removal(request, target),
                SyncRequest::CreateLink => {
                    Reply::Outcome(self.make_link(source, target, true).map_err(failure))
                }
                SyncRequest::CreateJunction => {
                    Reply::Outcome(self.make_junction(source, target).map_err(failure))
                }
                SyncRequest::Copy(request) => self.copying(request, source, target),
            };
            run = run.advance(reply);
        }
        run.result().unwrap()
    }

    fn sync(&mut self, source: &str, target: &str, mode: SyncMode) -> Result<SyncMode, String> {
        self.sync_on(source, target, mode, Platform::Unix)
            .map_err(|error| message(error, source, target))
    }

    fn remove_target_on(&mut self, target: &str, platform: Platform) -> Result<(), Failure> {
        self.windows = platform == Platform::Windows;
        let mut run = remove_target(platform);
        while let Some(request) = run.request() {
            let reply = self.removal(request, target);
            run = run.advance(reply);
        }
        run.result().unwrap()
    }

    fn is_current(
        &self,
        source: &str,
        target: &str,
        mode: SyncMode,
        stored: Option<&str>,
        current: Option<&str>,
    ) -> bool {
        let mut check = is_target_current(path(source), path(target), mode, stored, current);
        while let Some(request) = check.request() {
            check = check.advance(self.check(request, source, target));
        }
        check.result().unwrap()
    }

    fn ensure_apart(&self, source: &str, target: &str) -> Result<(), String> {
        let mut guard = ensure_dst_not_inside_src(path(source), path(target));
        while let Some(request) = guard.request() {
            guard = guard.advance(self.guard(request, source, target));
        }
        guard
            .result()
            .unwrap()
            .map_err(|refusal| message(SyncError::Refused(refusal), source, target))
    }

    fn copy_dir(&mut self, source: &str, target: &str) -> Result<(), Failure> {
        let mut run = copy_dir_recursive();
        while let Some(request) = run.request() {
            let reply = self.copying(request, source, target);
            run = run.advance(reply);
        }
        run.result().unwrap()
    }

    fn companions_on(
        &mut self,
        skill: &str,
        subdir: &str,
        skill_name: &str,
        target_dir: &str,
        mode: SyncMode,
        platform: Platform,
    ) -> Result<Vec<String>, String> {
        let source = join(skill, subdir);
        self.windows = platform == Platform::Windows;
        let mut run = sync_companion_files(skill_name, mode, platform);
        while let Some(request) = run.request() {
            self.log.push(format!("{request:?}"));
            let at = |name: &[u8]| join(&source, std::str::from_utf8(name).unwrap());
            let reply = match request {
                CompanionRequest::CheckSubdir => Reply::Flag(self.is_dir(&source)),
                CompanionRequest::Mute => Reply::Muted,
                CompanionRequest::CreateDir => {
                    Reply::Outcome(self.create_dir_all(target_dir).map_err(failure))
                }
                CompanionRequest::ListSubdir => {
                    Reply::Listing(self.list(&source).map_err(failure))
                }
                CompanionRequest::Remove { to, request, .. } => {
                    self.removal(request, &join(target_dir, &to))
                }
                CompanionRequest::LinkFile { from, to } => Reply::Outcome(
                    self.make_link(&at(&from), &join(target_dir, &to), false)
                        .map_err(failure),
                ),
                CompanionRequest::CopyFile { from, to } => Reply::Outcome(
                    self.copy_file(&at(&from), &join(target_dir, &to))
                        .map_err(failure),
                ),
            };
            run = run.advance(reply);
        }
        run.result().unwrap().map_err(|error| {
            error
                .message("<source>", "<target>")
                .unwrap_or_else(|| format!("ticket {}", error.failure().ticket))
        })
    }

    fn companions(
        &mut self,
        skill: &str,
        target_dir: &str,
        mode: SyncMode,
    ) -> Result<Vec<String>, String> {
        self.companions_on(skill, "commands", "my-skill", target_dir, mode, Platform::Unix)
    }

    fn logged(&self, text: &str) -> usize {
        self.log.iter().filter(|line| line.contains(text)).count()
    }
}

fn message(error: SyncError, source: &str, target: &str) -> String {
    let parent = parent_of(target);
    error
        .message(
            &format!("{source:?}"),
            &format!("{target:?}"),
            &format!("{parent:?}"),
        )
        .unwrap_or_else(|| format!("ticket {}", error.failure().unwrap().ticket))
}

const SRC: &str = "/tmp/source";
const TGT: &str = "/tmp/target";

fn disk_with_skill() -> Disk {
    let mut disk = Disk::new();
    disk.dir(SRC);
    disk.file("/tmp/source/SKILL.md", "# hello");
    disk
}

// sync_skill

#[test]
fn sync_skill_copy_creates_directory_with_files() {
    let mut disk = disk_with_skill();

    let mode = disk.sync(SRC, TGT, SyncMode::Copy).unwrap();
    assert!(matches!(mode, SyncMode::Copy));
    assert!(disk.present("/tmp/target/SKILL.md"));
    assert_eq!(disk.read("/tmp/target/SKILL.md"), "# hello");
}

#[test]
fn sync_skill_symlink_creates_symlink() {
    let mut disk = disk_with_skill();

    let mode = disk.sync(SRC, TGT, SyncMode::Symlink).unwrap();
    assert!(matches!(mode, SyncMode::Symlink));
    assert!(disk.is_symlink(TGT));
}

#[test]
fn sync_skill_symlink_creates_symlink_on_windows() {
    let mut disk = disk_with_skill();

    let mode = disk
        .sync_on(SRC, TGT, SyncMode::Symlink, Platform::Windows)
        .unwrap();
    assert!(matches!(mode, SyncMode::Symlink));
    assert!(disk.is_symlink(TGT));
}

#[test]
fn junction_target_is_recognized_and_removable() {
    let mut disk = disk_with_skill();
    disk.make_junction(SRC, TGT).unwrap();

    assert!(disk.is_current(SRC, TGT, SyncMode::Symlink, None, None));
    assert!(disk.present("/tmp/target/SKILL.md"));

    let mode = disk
        .sync_on(SRC, TGT, SyncMode::Symlink, Platform::Windows)
        .unwrap();
    assert!(matches!(mode, SyncMode::Symlink));
    assert_eq!(disk.logged("Junction"), 0);

    disk.remove_target_on(TGT, Platform::Windows).unwrap();
    assert!(disk.node(TGT).is_err());
    assert!(disk.present("/tmp/source/SKILL.md"));
}

#[test]
fn remove_target_removes_dangling_junction() {
    let mut disk = Disk::new();
    disk.dir(SRC);
    disk.make_junction(SRC, TGT).unwrap();
    disk.remove(Removal::Tree, SRC).unwrap();

    disk.remove_target_on(TGT, Platform::Windows).unwrap();
    assert!(disk.node(TGT).is_err());
    assert_eq!(disk.logged("Remove(EmptyDir)"), 1);
}

#[test]
fn sync_skill_replaces_existing_target() {
    let mut disk = Disk::new();
    disk.dir(SRC);
    disk.file("/tmp/source/new.md", "new");
    disk.dir(TGT);
    disk.file("/tmp/target/old.md", "old");

    disk.sync(SRC, TGT, SyncMode::Copy).unwrap();
    assert!(disk.present("/tmp/target/new.md"));
    assert!(!disk.present("/tmp/target/old.md"));
}

#[test]
fn sync_skill_symlink_skips_existing_correct_link() {
    let mut disk = disk_with_skill();
    disk.link(SRC, TGT);

    let before = disk.nodes.clone();
    let mode = disk.sync(SRC, TGT, SyncMode::Symlink).unwrap();

    assert!(matches!(mode, SyncMode::Symlink));
    assert!(matches!(disk.node(TGT), Ok(Node::Link { to, .. }) if to == SRC));
    assert_eq!(disk.nodes, before);
    assert_eq!(disk.log, ["Check(Inspect)", "Check(ReadLink)"]);
}

#[test]
fn second_link_sync_only_looks() {
    let mut disk = disk_with_skill();
    disk.sync(SRC, TGT, SyncMode::Symlink).unwrap();
    disk.log.clear();
    disk.sync(SRC, TGT, SyncMode::Symlink).unwrap();
    assert_eq!(disk.log, ["Check(Inspect)", "Check(ReadLink)"]);
}

#[test]
fn relative_links_are_followed_from_their_directory() {
    let mut disk = disk_with_skill();
    disk.link("source", TGT);
    assert!(disk.is_current(SRC, TGT, SyncMode::Symlink, None, None));

    disk.dir("/tmp/elsewhere");
    disk.link("../source", "/tmp/elsewhere/target");
    assert!(disk.is_current(SRC, "/tmp/elsewhere/target", SyncMode::Symlink, None, None));

    disk.dir("/tmp/other");
    disk.link("other", "/tmp/wrong");
    assert!(!disk.is_current(SRC, "/tmp/wrong", SyncMode::Symlink, None, None));

    disk.link("gone", "/tmp/dangling");
    assert!(!disk.is_current(SRC, "/tmp/dangling", SyncMode::Symlink, None, None));
}

#[test]
fn links_that_resolve_to_the_source_are_current() {
    let mut disk = disk_with_skill();
    disk.link(SRC, "/tmp/detour");
    disk.link("/tmp/detour", TGT);
    assert!(disk.is_current(SRC, TGT, SyncMode::Symlink, None, None));
}

#[test]
fn directories_and_files_are_no_current_links() {
    let mut disk = disk_with_skill();
    disk.dir(TGT);
    disk.file("/tmp/file", "");
    assert!(!disk.is_current(SRC, TGT, SyncMode::Symlink, None, None));
    assert!(!disk.is_current(SRC, "/tmp/file", SyncMode::Symlink, None, None));
    assert!(!disk.is_current(SRC, "/tmp/nothing", SyncMode::Symlink, None, None));
}

#[test]
fn sync_skill_creates_the_parent_directory() {
    let mut disk = disk_with_skill();
    disk.sync(SRC, "/tmp/a/b/target", SyncMode::Symlink).unwrap();
    assert!(disk.is_symlink("/tmp/a/b/target"));
}

#[test]
fn sync_skill_reports_a_parent_that_cannot_be_made() {
    let mut disk = disk_with_skill();
    disk.refuses = vec!["create_dir_all"];
    let err = disk.sync(SRC, "/tmp/a/target", SyncMode::Copy).unwrap_err();
    assert_eq!(err, "Failed to create parent dir \"/tmp/a\"");
    assert_eq!(disk.logged("GuardAgain"), 0);
    assert_eq!(disk.logged("Remove"), 0);
}

#[test]
fn sync_skill_reports_a_link_that_cannot_be_made() {
    let mut disk = disk_with_skill();
    disk.refuses = vec!["link"];
    let err = disk.sync(SRC, TGT, SyncMode::Symlink).unwrap_err();
    assert_eq!(err, "Failed to create symlink \"/tmp/target\" -> \"/tmp/source\"");
    assert_eq!(disk.logged("Junction"), 0);
    assert_eq!(disk.logged("Copy"), 0);
}

#[test]
fn sync_skill_reports_the_failure_of_a_copy() {
    for refused in ["copy", "list", "entry"] {
        let mut disk = disk_with_skill();
        disk.refuses = vec![refused];
        let err = disk
            .sync_on(SRC, TGT, SyncMode::Copy, Platform::Unix)
            .unwrap_err();
        assert_eq!(err, SyncError::CopyFailed(failure(FailureKind::Other)));
        assert_eq!(err.message("a", "b", "c"), None);
        assert_eq!(err.failure(), Some(failure(FailureKind::Other)));
    }
}

#[test]
fn refused_links_become_junctions_and_then_copies_on_windows() {
    let mut disk = disk_with_skill();
    disk.refuses = vec!["link"];
    let mode = disk
        .sync_on(SRC, TGT, SyncMode::Symlink, Platform::Windows)
        .unwrap();
    assert_eq!(mode, SyncMode::Symlink);
    assert!(disk.is_symlink(TGT));

    let mut disk = disk_with_skill();
    disk.refuses = vec!["link", "junction"];
    let mode = disk
        .sync_on(SRC, TGT, SyncMode::Symlink, Platform::Windows)
        .unwrap();
    assert_eq!(mode, SyncMode::Copy);
    assert_eq!(disk.read("/tmp/target/SKILL.md"), "# hello");
}

#[test]
fn systems_without_links_copy() {
    let mut disk = disk_with_skill();
    let mode = disk
        .sync_on(SRC, TGT, SyncMode::Symlink, Platform::Other)
        .unwrap();
    assert_eq!(mode, SyncMode::Copy);
    assert!(!disk.is_symlink(TGT));
    assert_eq!(disk.read("/tmp/target/SKILL.md"), "# hello");
}

#[test]
fn failed_removal_does_not_stop_a_copy() {
    let mut disk = disk_with_skill();
    disk.dir(TGT);
    disk.file("/tmp/target/old.md", "old");
    disk.refuses = vec!["remove"];
    assert_eq!(disk.sync(SRC, TGT, SyncMode::Copy), Ok(SyncMode::Copy));
    assert!(disk.present("/tmp/target/SKILL.md"));
    assert!(disk.present("/tmp/target/old.md"));
}

#[test]
fn changes_are_muted_and_guarded() {
    let mut disk = disk_with_skill();
    disk.dir(TGT);
    disk.sync(SRC, TGT, SyncMode::Copy).unwrap();
    assert_eq!(
        disk.log,
        [
            "Mute",
            "Guard(ResolveSource)",
            "Guard(ResolveSourceAncestor { up: 1 })",
            "Guard(ResolveTarget)",
            "Guard(ResolveTargetAncestor { up: 1 })",
            "CreateParent",
            "GuardAgain(ResolveSource)",
            "GuardAgain(ResolveSourceAncestor { up: 1 })",
            "GuardAgain(ResolveTarget)",
            "GuardAgain(ResolveTargetAncestor { up: 1 })",
            "Remove(Inspect)",
            "Inspect /tmp/target",
            "Remove(Mute)",
            "Mute /tmp/target",
            "Remove(Remove(Tree))",
            "Remove(Tree) /tmp/target",
            "Copy(MakeDir([]))",
            "Copy(List([]))",
            "Copy(CopyFile([[83, 75, 73, 76, 76, 46, 109, 100]]))",
        ]
    );
}

// copy_dir_recursive

#[test]
fn copy_dir_recursive_skips_dot_git() {
    let mut disk = Disk::new();
    let src = "/tmp/src";
    disk.dir("/tmp/src/.git");
    disk.file("/tmp/src/.git/config", "git config");
    disk.dir("/tmp/src/subdir");
    disk.file("/tmp/src/subdir/file.md", "content");
    disk.file("/tmp/src/root.md", "root");

    disk.copy_dir(src, "/tmp/dst").unwrap();

    assert!(!disk.present("/tmp/dst/.git"));
    assert!(disk.present("/tmp/dst/subdir/file.md"));
    assert!(disk.present("/tmp/dst/root.md"));
}

#[test]
fn copies_mirror_the_source_except_for_git_directories() {
    let mut disk = Disk::new();
    disk.dir("/tmp/source/a/b/.git/objects");
    disk.dir("/tmp/source/a/b/c");
    disk.dir("/tmp/source/empty");
    disk.file("/tmp/source/a/.git", "gitdir: elsewhere");
    disk.file("/tmp/source/a/b/c/deep.md", "deep");
    disk.file("/tmp/source/a/b/.git/objects/x", "");
    disk.file("/tmp/source/a/.github", "not left out");
    disk.sync(SRC, TGT, SyncMode::Copy).unwrap();

    let tree = |base: &str| -> BTreeMap<String, Node> {
        disk.nodes
            .iter()
            .filter(|(place, _)| place.starts_with(base))
            .map(|(place, node)| (place[base.len()..].to_string(), node.clone()))
            .collect()
    };
    let mut wanted = tree(SRC);
    wanted.retain(|place, _| !place.contains("b/.git"));
    assert_eq!(tree(TGT), wanted);
    assert_eq!(disk.read("/tmp/target/a/.git"), "gitdir: elsewhere");
}

#[test]
fn linked_files_are_copied_as_files() {
    let mut disk = disk_with_skill();
    disk.link("/tmp/source/SKILL.md", "/tmp/source/alias.md");
    disk.sync(SRC, TGT, SyncMode::Copy).unwrap();
    assert!(!disk.is_symlink("/tmp/target/alias.md"));
    assert_eq!(disk.read("/tmp/target/alias.md"), "# hello");
}

// ensure_dst_not_inside_src

#[test]
fn ensure_dst_not_inside_src_rejects_subdirectory() {
    let mut disk = Disk::new();
    disk.dir("/tmp/skills");

    let err = disk
        .ensure_apart("/tmp/skills", "/tmp/skills/skills")
        .unwrap_err();
    assert!(err.contains("infinite recursion"), "{err}");
}

#[test]
fn ensure_dst_not_inside_src_rejects_same_path() {
    let mut disk = Disk::new();
    disk.dir("/tmp/skills");

    let err = disk.ensure_apart("/tmp/skills", "/tmp/skills").unwrap_err();
    assert!(err.contains("infinite recursion"), "{err}");
    assert_eq!(
        err,
        "Destination \"/tmp/skills\" is inside source \"/tmp/skills\"; \
         refusing to copy to avoid infinite recursion"
    );
}

#[test]
fn ensure_dst_not_inside_src_allows_disjoint_paths() {
    let mut disk = Disk::new();
    disk.dir("/tmp/skills");
    disk.dir("/tmp/other");

    disk.ensure_apart("/tmp/skills", "/tmp/other/skills").unwrap();
}

#[test]
fn ensure_dst_not_inside_src_allows_sibling_dst() {
    let mut disk = Disk::new();
    disk.dir("/tmp/skills");

    disk.ensure_apart("/tmp/skills", "/tmp/skills-disabled").unwrap();
}

#[test]
fn ensure_dst_not_inside_src_rejects_missing_source() {
    let mut disk = Disk::new();
    disk.dir(TGT);

    let err = disk.ensure_apart("/tmp/does-not-exist", TGT).unwrap_err();
    assert!(err.contains("not accessible"), "{err}");
    assert_eq!(
        err,
        "Source \"/tmp/does-not-exist\" does not exist or is not accessible"
    );
}

#[test]
fn ensure_dst_not_inside_src_rejects_source_inside_destination() {
    let mut disk = Disk::new();
    disk.dir("/tmp/skills/nested");

    let err = disk
        .ensure_apart("/tmp/skills/nested", "/tmp/skills")
        .unwrap_err();
    assert!(err.contains("deleting the source"), "{err}");
    assert_eq!(
        err,
        "Source \"/tmp/skills/nested\" is inside destination \"/tmp/skills\"; \
         refusing to avoid deleting the source"
    );
}

#[test]
fn ensure_dst_not_inside_src_rejects_dangling_symlink_source() {
    let mut disk = Disk::new();
    disk.link("/tmp/gone", "/tmp/dangling");
    disk.dir(TGT);

    let err = disk.ensure_apart("/tmp/dangling", TGT).unwrap_err();
    assert!(err.contains("not accessible"), "{err}");
}

#[test]
fn guard_sees_through_links() {
    let mut disk = disk_with_skill();
    disk.dir("/tmp/source/inner");
    disk.link("/tmp/source/inner", "/tmp/alias");
    let err = disk.ensure_apart(SRC, "/tmp/alias").unwrap_err();
    assert!(err.contains("infinite recursion"), "{err}");
    let err = disk.ensure_apart(SRC, "/tmp/alias/new").unwrap_err();
    assert!(err.contains("infinite recursion"), "{err}");
}

#[test]
fn guard_passes_a_target_whose_place_cannot_be_told() {
    let disk = disk_with_skill();
    assert_eq!(disk.ensure_apart(SRC, "/tmp/missing/target"), Ok(()));
}

#[test]
fn guard_refuses_a_target_in_the_source_whose_parent_is_missing_too() {
    let mut disk = Disk::new();
    disk.dir("/t/skills");
    let err = disk
        .ensure_apart("/t/skills", "/t/skills/a/b")
        .unwrap_err();
    assert!(err.contains("infinite recursion"), "{err}");
    let err = disk
        .ensure_apart("/t/skills", "/t/skills/a/b/c/d")
        .unwrap_err();
    assert!(err.contains("infinite recursion"), "{err}");
    assert_eq!(disk.ensure_apart("/t/skills", "/t/other/a/b"), Ok(()));
    assert_eq!(disk.ensure_apart("/t/skills", "/t/skills-2/a/b"), Ok(()));
}

#[test]
fn guard_refuses_a_link_that_stands_in_the_source_and_leads_elsewhere() {
    let mut disk = Disk::new();
    disk.dir("/t/src");
    disk.dir("/t/other");
    disk.link("/t/other", "/t/src/link");
    let err = disk.ensure_apart("/t/src", "/t/src/link").unwrap_err();
    assert!(err.contains("infinite recursion"), "{err}");

    for mode in [SyncMode::Copy, SyncMode::Symlink] {
        let before = disk.nodes.clone();
        let err = disk.sync("/t/src", "/t/src/link", mode).unwrap_err();
        assert!(err.contains("infinite recursion"), "{err}");
        assert_eq!(disk.nodes, before);
    }
}

#[test]
fn guard_refuses_a_source_link_that_stands_in_the_target() {
    let mut disk = Disk::new();
    disk.dir("/t/src");
    disk.dir("/t/other");
    disk.file("/t/src/kept.md", "kept");
    disk.file("/t/other/SKILL.md", "# hello");
    disk.link("/t/other", "/t/src/link");
    let err = disk.ensure_apart("/t/src/link", "/t/src").unwrap_err();
    assert!(err.contains("deleting the source"), "{err}");

    let before = disk.nodes.clone();
    for mode in [SyncMode::Copy, SyncMode::Symlink] {
        for platform in [Platform::Unix, Platform::Windows, Platform::Other] {
            let err = disk
                .sync_on("/t/src/link", "/t/src", mode, platform)
                .unwrap_err();
            assert_eq!(err, SyncError::Refused(Refusal::SourceInsideTarget));
            assert_eq!(disk.nodes, before);
        }
    }
}

#[test]
fn guard_does_not_depend_on_the_direction() {
    let mut disk = Disk::new();
    disk.dir("/t/src/inner");
    disk.dir("/t/other");
    disk.link("/t/other", "/t/src/link");
    disk.link("/t/src", "/t/alias");
    let places = [
        "/t",
        "/t/src",
        "/t/src/inner",
        "/t/src/link",
        "/t/other",
        "/t/alias",
        "/t/alias/inner",
        "/",
    ];
    let mut passed = 0;
    for a in places {
        for b in places {
            let verdict = disk.ensure_apart(a, b).is_ok();
            assert_eq!(verdict, disk.ensure_apart(b, a).is_ok(), "{a} {b}");
            assert!(!verdict || a != b);
            passed += usize::from(verdict);
        }
    }
    // `/t/other` against `/t/src` and `/t/src/inner`, and the link against `/t/src/inner`,
    // all of them by way of the alias too, and in both directions.
    assert_eq!(passed, 12);
}

#[test]
fn guard_follows_dots_from_the_nearest_directory() {
    let missing = || Reply::Path(Err(failure(FailureKind::NotFound)));
    let verdict = |target: &str| {
        ensure_dst_not_inside_src(path(SRC), path(target))
            .advance(Reply::Path(Ok(path(SRC))))
            .advance(Reply::Path(Ok(path("/tmp"))))
            .advance(missing())
            .advance(missing())
            .advance(Reply::Path(Ok(path("/tmp/source/inner"))))
            .result()
    };
    assert_eq!(verdict("inner/new/er"), Some(Err(Refusal::TargetInsideSource)));
    assert_eq!(verdict("inner/new/.."), Some(Err(Refusal::TargetInsideSource)));
    assert_eq!(verdict("inner/../.."), Some(Err(Refusal::SourceInsideTarget)));
    assert_eq!(
        ensure_dst_not_inside_src(path(SRC), path("a/../../c"))
            .advance(Reply::Path(Ok(path(SRC))))
            .advance(Reply::Path(Ok(path("/tmp"))))
            .advance(missing())
            .advance(missing())
            .advance(missing())
            .advance(missing())
            .advance(Reply::Path(Ok(path(SRC))))
            .result(),
        Some(Ok(()))
    );
}

#[test]
fn guard_passes_a_target_without_directories_above_it_that_does_not_resolve() {
    let rootless = ensure_dst_not_inside_src(path(SRC), path("/"))
        .advance(Reply::Path(Ok(path(SRC))))
        .advance(Reply::Path(Ok(path("/tmp"))))
        .advance(Reply::Path(Err(failure(FailureKind::Other))));
    assert_eq!(rootless.request(), None);
    assert_eq!(rootless.result(), Some(Ok(())));
}

#[test]
fn refused_sync_makes_no_directory_in_the_source() {
    let mut disk = Disk::new();
    disk.dir("/t/skills");
    disk.file("/t/skills/SKILL.md", "# hello");
    let before = disk.nodes.clone();
    for mode in [SyncMode::Copy, SyncMode::Symlink] {
        let err = disk
            .sync("/t/skills", "/t/skills/a/skills", mode)
            .unwrap_err();
        assert!(err.contains("infinite recursion"), "{err}");
        assert_eq!(disk.nodes, before);
        assert_eq!(disk.logged("CreateParent"), 0);
    }
}

#[test]
fn guard_is_asked_again_once_the_parent_is_there() {
    let mut disk = Disk::new();
    disk.dir("/t/x");
    disk.file("/t/x/SKILL.md", "# hello");
    disk.link("/t", "/t/link");
    let err = disk
        .sync("/t/x", "/t/missing/../link/x", SyncMode::Copy)
        .unwrap_err();
    assert!(err.contains("infinite recursion"), "{err}");
    assert_eq!(disk.logged("CreateParent"), 1);
    assert_eq!(disk.logged("Remove"), 0);
    assert_eq!(disk.read("/t/x/SKILL.md"), "# hello");
}

#[test]
fn sync_then_remove_brings_back_what_was_before() {
    for mode in [SyncMode::Copy, SyncMode::Symlink] {
        for platform in [Platform::Unix, Platform::Windows, Platform::Other] {
            let mut disk = disk_with_skill();
            let before = disk.nodes.clone();
            disk.sync_on(SRC, TGT, mode, platform).unwrap();
            assert_ne!(disk.nodes, before);
            assert_eq!(disk.remove_target_on(TGT, platform), Ok(()));
            assert_eq!(disk.nodes, before);
            assert_eq!(disk.remove_target_on(TGT, platform), Ok(()));
            assert_eq!(disk.nodes, before);
        }
    }
}

#[test]
fn synced_target_is_current() {
    for platform in [Platform::Unix, Platform::Windows, Platform::Other] {
        for mode in [SyncMode::Copy, SyncMode::Symlink] {
            let mut disk = disk_with_skill();
            match disk.sync_on(SRC, TGT, mode, platform).unwrap() {
                SyncMode::Symlink => {
                    assert!(disk.is_current(SRC, TGT, SyncMode::Symlink, None, None));
                }
                SyncMode::Copy => {
                    let h = Some("hash-abc");
                    assert!(disk.is_current(SRC, TGT, SyncMode::Copy, h, h));
                    assert!(!disk.is_current(SRC, TGT, SyncMode::Copy, None, h));
                }
            }
        }
    }
}

#[test]
fn copies_keep_what_a_failed_removal_leaves() {
    let mut disk = disk_with_skill();
    disk.dir(TGT);
    disk.file("/tmp/target/SKILL.md", "old");
    disk.file("/tmp/target/kept.md", "kept");
    disk.refuses = vec!["remove"];
    disk.sync(SRC, TGT, SyncMode::Copy).unwrap();
    assert_eq!(disk.read("/tmp/target/SKILL.md"), "# hello");
    assert_eq!(disk.read("/tmp/target/kept.md"), "kept");
}

#[test]
fn overlap_does_not_depend_on_the_direction() {
    for (a, b, apart) in [
        ("/a", "/b", true),
        ("/a", "/ab", true),
        ("/a", "/a/b", false),
        ("/a", "/a", false),
        ("/", "/a/b/c", false),
    ] {
        assert_eq!(check_overlap(&path(a), &path(b)).is_ok(), apart);
        assert_eq!(check_overlap(&path(b), &path(a)).is_ok(), apart);
    }
}

#[test]
fn targets_without_a_parent_need_none_made() {
    let run = sync_skill(path(SRC), path("/"), SyncMode::Copy, Platform::Unix);
    assert_eq!(run.request(), Some(SyncRequest::Mute));
    let run = run.advance(Reply::Muted);
    assert_eq!(
        run.request(),
        Some(SyncRequest::Guard(GuardRequest::ResolveSource))
    );
}

#[test]
fn runs_go_one_way_on_one_disk() {
    for mode in [SyncMode::Symlink, SyncMode::Copy] {
        let mut first = disk_with_skill();
        first.dir("/tmp/source/a/b");
        let mut second = first.clone();
        assert_eq!(first.sync(SRC, TGT, mode), second.sync(SRC, TGT, mode));
        assert_eq!(first.log, second.log);
        assert_eq!(first.nodes, second.nodes);
    }
}

#[test]
fn sync_skill_refuses_target_inside_source() {
    let mut disk = Disk::new();
    disk.dir("/tmp/skills");
    disk.file("/tmp/skills/SKILL.md", "# hello");

    let before = disk.nodes.clone();
    let err = disk
        .sync("/tmp/skills", "/tmp/skills/skills", SyncMode::Copy)
        .unwrap_err();
    assert!(err.contains("infinite recursion"), "{err}");
    assert!(disk.present("/tmp/skills/SKILL.md"));
    assert_eq!(disk.nodes, before);
    assert_eq!(disk.logged("Remove"), 0);
}

#[test]
fn sync_skill_refuses_source_inside_target() {
    let mut disk = Disk::new();
    disk.dir("/tmp/skills/nested");
    disk.file("/tmp/skills/nested/SKILL.md", "# hello");

    let before = disk.nodes.clone();
    for mode in [SyncMode::Copy, SyncMode::Symlink] {
        let err = disk
            .sync("/tmp/skills/nested", "/tmp/skills", mode)
            .unwrap_err();
        assert!(err.contains("deleting the source"), "{err}");
        assert_eq!(disk.nodes, before);
    }
}

#[test]
fn sync_skill_keeps_the_target_of_a_missing_source() {
    let mut disk = Disk::new();
    disk.dir(TGT);
    disk.file("/tmp/target/old.md", "old");
    let err = disk.sync(SRC, TGT, SyncMode::Copy).unwrap_err();
    assert!(err.contains("not accessible"), "{err}");
    assert!(disk.present("/tmp/target/old.md"));
}

// remove_target

#[test]
fn remove_target_removes_directory() {
    let mut disk = Disk::new();
    disk.dir("/tmp/to_remove");
    disk.file("/tmp/to_remove/file.txt", "data");

    disk.remove_target_on("/tmp/to_remove", Platform::Unix).unwrap();
    assert!(!disk.present("/tmp/to_remove"));
}

#[test]
fn remove_target_removes_file() {
    let mut disk = Disk::new();
    disk.file("/tmp/file.txt", "data");

    disk.remove_target_on("/tmp/file.txt", Platform::Unix).unwrap();
    assert!(!disk.present("/tmp/file.txt"));
}

#[test]
fn remove_target_removes_symlink() {
    let mut disk = Disk::new();
    disk.dir("/tmp/real");
    disk.link("/tmp/real", "/tmp/link");

    disk.remove_target_on("/tmp/link", Platform::Unix).unwrap();
    assert!(!disk.present("/tmp/link"));
    assert!(disk.present("/tmp/real"));
}

#[test]
fn remove_target_removes_directory_symlink() {
    let mut disk = Disk::new();
    disk.dir("/tmp/real");
    disk.file("/tmp/real/SKILL.md", "# hello");
    disk.link("/tmp/real", "/tmp/link");

    disk.remove_target_on("/tmp/link", Platform::Windows).unwrap();
    assert!(!disk.present("/tmp/link"));
    assert!(disk.present("/tmp/real"));
    assert!(disk.present("/tmp/real/SKILL.md"));
}

#[test]
fn remove_target_nonexistent_is_ok() {
    let mut disk = Disk::new();
    assert!(disk
        .remove_target_on("/tmp/does_not_exist", Platform::Unix)
        .is_ok());
    assert_eq!(disk.log, ["Inspect /tmp/does_not_exist"]);
}

#[test]
fn remove_target_reports_other_failures() {
    let mut disk = disk_with_skill();
    disk.refuses = vec!["remove"];
    assert_eq!(
        disk.remove_target_on(SRC, Platform::Unix),
        Err(failure(FailureKind::Other))
    );

    let denied = Failure {
        kind: FailureKind::Other,
        ticket: 3,
    };
    let run = remove_target(Platform::Unix).advance(Reply::Kind(Err(denied)));
    assert_eq!(run.request(), None);
    assert_eq!(run.result(), Some(Err(denied)));
}

#[test]
fn replies_that_were_not_asked_for_change_nothing() {
    let run = remove_target(Platform::Unix);
    assert_eq!(run.advance(Reply::Muted), run);
    assert_eq!(run.advance(Reply::Outcome(Ok(()))), run);
    let sync = || sync_skill(path(SRC), path(TGT), SyncMode::Copy, Platform::Unix);
    assert_eq!(sync().advance(Reply::Flag(true)), sync());
}

// is_target_current

#[test]
fn is_target_current_copy_skips_when_hashes_match_and_target_exists() {
    let mut disk = Disk::new();
    disk.dir(TGT);
    assert!(disk.is_current(
        SRC,
        TGT,
        SyncMode::Copy,
        Some("hash-abc"),
        Some("hash-abc"),
    ));
}

#[test]
fn is_target_current_copy_resyncs_when_target_missing_even_if_hashes_match() {
    let disk = Disk::new();
    assert!(!disk.is_current(
        SRC,
        "/tmp/target-that-was-deleted",
        SyncMode::Copy,
        Some("hash-abc"),
        Some("hash-abc"),
    ));
}

#[test]
fn is_target_current_copy_resyncs_when_hashes_differ() {
    let mut disk = Disk::new();
    disk.dir(TGT);
    assert!(!disk.is_current(
        SRC,
        TGT,
        SyncMode::Copy,
        Some("hash-old"),
        Some("hash-new"),
    ));
}

#[test]
fn is_target_current_copy_resyncs_when_either_hash_missing() {
    let mut disk = Disk::new();
    disk.dir(TGT);
    assert!(!disk.is_current(SRC, TGT, SyncMode::Copy, None, Some("hash-abc")));
    assert!(!disk.is_current(SRC, TGT, SyncMode::Copy, Some("hash-abc"), None));
    assert!(!disk.is_current(SRC, TGT, SyncMode::Copy, None, None));
}

#[test]
fn unknown_versions_are_not_looked_up() {
    let check = is_target_current(path(SRC), path(TGT), SyncMode::Copy, None, None);
    assert_eq!(check.request(), None);
    assert_eq!(check.result(), Some(false));
}

// sync_companion_files

#[test]
fn companion_files_absent_subdir_returns_empty() {
    let mut disk = Disk::new();
    disk.dir("/tmp/my-skill");
    disk.file("/tmp/my-skill/SKILL.md", "# hello");

    let result = disk
        .companions("/tmp/my-skill", "/tmp/commands", SyncMode::Copy)
        .unwrap();
    assert!(result.is_empty());
    assert!(!disk.present("/tmp/commands"));
}

#[test]
fn companion_files_copy_mode_places_files_with_skill_prefix() {
    let mut disk = Disk::new();
    disk.dir("/tmp/my-skill/commands");
    disk.file("/tmp/my-skill/commands/debug.md", "# debug command");
    disk.file("/tmp/my-skill/commands/test.md", "# test command");

    let result = disk
        .companions("/tmp/my-skill", "/tmp/agent-commands", SyncMode::Copy)
        .unwrap();

    assert_eq!(result.len(), 2);
    assert!(result.contains(&"my-skill-debug.md".to_string()));
    assert!(result.contains(&"my-skill-test.md".to_string()));
    assert_eq!(disk.read("/tmp/agent-commands/my-skill-debug.md"), "# debug command");
    assert_eq!(disk.read("/tmp/agent-commands/my-skill-test.md"), "# test command");
}

#[test]
fn companion_files_symlink_mode_creates_per_file_symlinks() {
    let mut disk = Disk::new();
    disk.dir("/tmp/my-skill/commands");
    disk.file("/tmp/my-skill/commands/run.md", "# run command");

    let result = disk
        .companions("/tmp/my-skill", "/tmp/agent-commands", SyncMode::Symlink)
        .unwrap();

    assert_eq!(result.len(), 1);
    let link = "/tmp/agent-commands/my-skill-run.md";
    assert!(disk.is_symlink(link), "expected a symlink at {link:?}");
    assert_eq!(disk.read(link), "# run command");
}

#[test]
fn companion_files_skips_nested_subdirectories() {
    let mut disk = Disk::new();
    disk.dir("/tmp/my-skill/commands/nested");
    disk.file("/tmp/my-skill/commands/nested/ignored.md", "should be ignored");
    disk.file("/tmp/my-skill/commands/kept.md", "# kept");

    let result = disk
        .companions("/tmp/my-skill", "/tmp/agent-commands", SyncMode::Copy)
        .unwrap();

    assert_eq!(result.len(), 1, "only top-level files should be synced");
    assert!(disk.present("/tmp/agent-commands/my-skill-kept.md"));
    assert!(!disk.present("/tmp/agent-commands/my-skill-nested"));
}

#[test]
fn companion_files_replaces_existing_stale_file() {
    let mut disk = Disk::new();
    disk.dir("/tmp/my-skill/commands");
    disk.file("/tmp/my-skill/commands/cmd.md", "new content");
    disk.dir("/tmp/agent-commands");
    disk.file("/tmp/agent-commands/my-skill-cmd.md", "old content");

    disk.companions("/tmp/my-skill", "/tmp/agent-commands", SyncMode::Copy)
        .unwrap();

    assert_eq!(disk.read("/tmp/agent-commands/my-skill-cmd.md"), "new content");
}

fn disk_with_companions() -> Disk {
    let mut disk = Disk::new();
    disk.dir("/tmp/my-skill/commands");
    disk.file("/tmp/my-skill/commands/a.md", "a");
    disk.file("/tmp/my-skill/commands/b.md", "b");
    disk
}

#[test]
fn companions_are_written_in_the_order_of_the_listing() {
    let mut disk = disk_with_companions();
    disk.link("/tmp/my-skill/commands/a.md", "/tmp/my-skill/commands/link.md");
    let result = disk.companions("/tmp/my-skill", "/tmp/shared", SyncMode::Copy);
    assert_eq!(
        result,
        Ok(vec!["my-skill-a.md".to_string(), "my-skill-b.md".to_string()])
    );
}

#[test]
fn companions_are_announced_and_cleared_before_they_are_written() {
    let mut disk = Disk::new();
    disk.dir("/tmp/my-skill/commands/nested");
    disk.file("/tmp/my-skill/commands/a", "new");
    disk.dir("/tmp/shared");
    disk.file("/tmp/shared/my-skill-a", "old");
    disk.file("/tmp/shared/other-a", "of another skill");
    disk.companions("/tmp/my-skill", "/tmp/shared", SyncMode::Symlink)
        .unwrap();
    assert_eq!(
        disk.log,
        [
            "CheckSubdir",
            "Mute",
            "CreateDir",
            "ListSubdir",
            "Remove { from: [97], to: \"my-skill-a\", request: Inspect }",
            "Inspect /tmp/shared/my-skill-a",
            "Remove { from: [97], to: \"my-skill-a\", request: Mute }",
            "Mute /tmp/shared/my-skill-a",
            "Remove { from: [97], to: \"my-skill-a\", request: Remove(File) }",
            "Remove(File) /tmp/shared/my-skill-a",
            "LinkFile { from: [97], to: \"my-skill-a\" }",
        ]
    );
    assert_eq!(disk.read("/tmp/shared/my-skill-a"), "new");
    assert_eq!(disk.read("/tmp/shared/other-a"), "of another skill");
}

#[test]
fn companion_links_fall_back_to_copies_on_windows_only() {
    let mut disk = disk_with_companions();
    disk.refuses = vec!["link"];
    let result = disk.companions_on(
        "/tmp/my-skill",
        "commands",
        "my-skill",
        "/tmp/shared",
        SyncMode::Symlink,
        Platform::Windows,
    );
    assert_eq!(result.unwrap().len(), 2);
    assert_eq!(disk.read("/tmp/shared/my-skill-a.md"), "a");

    let mut disk = disk_with_companions();
    disk.refuses = vec!["link"];
    let err = disk
        .companions("/tmp/my-skill", "/tmp/shared", SyncMode::Symlink)
        .unwrap_err();
    assert_eq!(err, "Failed to create companion symlink <target> -> <source>");
    assert_eq!(disk.logged("CopyFile"), 0);

    let mut disk = disk_with_companions();
    let result = disk.companions_on(
        "/tmp/my-skill",
        "commands",
        "my-skill",
        "/tmp/shared",
        SyncMode::Symlink,
        Platform::Other,
    );
    assert_eq!(result.unwrap().len(), 2);
    assert_eq!(disk.logged("LinkFile"), 0);
}

#[test]
fn companion_failures_are_reported() {
    let cases = [
        ("create_dir_all", "Failed to create companion target dir <target>"),
        ("list", "Failed to read companion subdir <source>"),
        ("copy", "Failed to copy companion file <source> -> <target>"),
        ("entry", "ticket 7"),
    ];
    for (refused, wanted) in cases {
        let mut disk = disk_with_companions();
        disk.refuses = vec![refused];
        let err = disk
            .companions("/tmp/my-skill", "/tmp/shared", SyncMode::Copy)
            .unwrap_err();
        assert_eq!(err, wanted);
    }
}

#[test]
fn companion_names_with_broken_text_are_shown_lossily() {
    let mut run = sync_companion_files("s", SyncMode::Copy, Platform::Unix);
    run = run.advance(Reply::Flag(true));
    run = run.advance(Reply::Muted);
    run = run.advance(Reply::Outcome(Ok(())));
    run = run.advance(Reply::Listing(Ok(vec![
        Listed::Found {
            name: vec![0x61, 0xff, 0x62],
            kind: EntryKind::File,
        },
        Listed::Found {
            name: "h\u{e9}".as_bytes().to_vec(),
            kind: EntryKind::File,
        },
        Listed::Found {
            name: vec![0xf1, 0x9f, 0xbf, 0xf1, 0x80, 0x80, 0x62],
            kind: EntryKind::File,
        },
    ])));
    while let Some(request) = run.request() {
        run = run.advance(match request {
            CompanionRequest::Remove { .. } => {
                Reply::Kind(Err(failure(FailureKind::NotFound)))
            }
            _ => Reply::Outcome(Ok(())),
        });
    }
    assert_eq!(
        run.result(),
        Some(Ok(vec![
            "s-a\u{fffd}b".to_string(),
            "s-h\u{e9}".to_string(),
            "s-\u{fffd}\u{fffd}b".to_string(),
        ]))
    );
}

#[test]
fn companions_of_different_skills_can_clash() {
    let name = |skill: &str, file: &str| -> String {
        let run = sync_companion_files(skill, SyncMode::Copy, Platform::Unix)
            .advance(Reply::Flag(true))
            .advance(Reply::Muted)
            .advance(Reply::Outcome(Ok(())))
            .advance(Reply::Listing(Ok(vec![Listed::Found {
                name: file.as_bytes().to_vec(),
                kind: EntryKind::File,
            }])));
        match run.request() {
            Some(CompanionRequest::Remove { to, .. }) => to,
            other => panic!("{other:?}"),
        }
    };
    assert_eq!(name("a", "b-c.md"), name("a-b", "c.md"));
    assert_ne!(name("a", "c.md"), name("b", "c.md"));
    assert_ne!(name("a", "c.md"), name("a", "d.md"));
}

#[test]
fn last_companion_sync_counts() {
    for platform in [Platform::Unix, Platform::Windows] {
        for first in [SyncMode::Copy, SyncMode::Symlink] {
            for second in [SyncMode::Copy, SyncMode::Symlink] {
                let place = |disk: &mut Disk, mode: SyncMode| {
                    disk.companions_on(
                        "/tmp/my-skill",
                        "commands",
                        "my-skill",
                        "/tmp/shared",
                        mode,
                        platform,
                    )
                    .unwrap()
                };
                let mut twice = disk_with_companions();
                twice.dir("/tmp/shared");
                twice.file("/tmp/shared/other", "of another skill");
                let mut alone = twice.clone();
                let v1 = place(&mut twice, first);
                let v2 = place(&mut twice, second);
                place(&mut alone, second);
                assert_eq!(v1, v2);
                assert_eq!(twice.nodes, alone.nodes);
                assert_eq!(twice.read("/tmp/my-skill/commands/a.md"), "a");
            }
        }
    }
}

#[test]
fn written_paths_are_absolute() {
    let unix = |text: &str| path(text);
    let from = |current: &str, dir: &str, name: &str| written_path(&unix(current), &unix(dir), name);
    assert_eq!(from("/t", "out", "s-a.md"), path("/t/out/s-a.md"));
    assert_eq!(from("/t", "/out", "s-a.md"), path("/out/s-a.md"));
    assert_eq!(from("/t", "", "s-a.md"), path("/t/s-a.md"));
    assert_eq!(from("/t", "./out", "x/s-a.md"), path("/t/out/x/s-a.md"));
    assert!(from("/t", "out", "s-a.md").absolute);
}
