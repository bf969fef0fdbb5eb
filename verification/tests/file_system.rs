//! Whole operations, driven against a file system in memory.
use smfh::action::{hash_file, Action, Digest, Failure, Fault, Metadata, NodeType, Reply};
use smfh::batch::Run;
use smfh::diff::{Diff, DiffError, OldManifest};
use smfh::file_util::{mkdir, prefix_move, FileWithMetadata};
use smfh::manifest::{File, FileKind, Manifest};
use smfh::path::PathBuf;
use smfh::program::{Halt, Replies};
use smfh::temporary::pick_temporary;
use std::collections::BTreeMap;

#[derive(Clone, Debug, PartialEq)]
enum Kind {
    File(Vec<u8>),
    Dir,
    Link(String),
}

#[derive(Clone, Debug, PartialEq)]
struct Node {
    kind: Kind,
    mode: u32,
    uid: u32,
    gid: u32,
}

/// Absolute paths to nodes; relative ones start at `/d`. A link is followed only
/// at the end of a path.
#[derive(Clone)]
struct Disk {
    nodes: BTreeMap<String, Node>,
    changes: Vec<String>,
    broken_rename: bool,
    drawn: u32,
    hidden: Vec<String>,
}

fn text(path: &PathBuf) -> String {
    let mut text = String::from_utf8(path.bytes.clone()).unwrap();
    if !text.starts_with('/') {
        text = format!("/d/{text}");
    }
    while text.len() > 1 && text.ends_with('/') {
        text.pop();
    }
    text
}

fn above(path: &str) -> String {
    match path.rfind('/') {
        Some(0) | None => "/".to_string(),
        Some(at) => path[..at].to_string(),
    }
}

impl Disk {
    fn new() -> Disk {
        let mut disk = Disk {
            nodes: BTreeMap::new(),
            changes: Vec::new(),
            broken_rename: false,
            drawn: 0,
            hidden: Vec::new(),
        };
        disk.put("/", Kind::Dir, 0o755);
        disk.put("/d", Kind::Dir, 0o755);
        disk
    }

    fn put(&mut self, path: &str, kind: Kind, mode: u32) {
        self.nodes.insert(
            path.to_string(),
            Node {
                kind,
                mode,
                uid: 1000,
                gid: 100,
            },
        );
    }

    fn write(&mut self, path: &str, bytes: &[u8]) {
        self.put(path, Kind::File(bytes.to_vec()), 0o644);
    }

    fn link(&mut self, dest: &str, path: &str) {
        self.put(path, Kind::Link(dest.to_string()), 0o777);
    }

    fn has(&self, path: &str) -> bool {
        self.nodes.contains_key(path)
    }

    fn leads_somewhere(&self, path: &str) -> bool {
        self.resolve(path).is_some()
    }

    fn read(&self, path: &str) -> Option<Vec<u8>> {
        let end = self.resolve(path)?;
        match &self.nodes[&end].kind {
            Kind::File(bytes) => Some(bytes.clone()),
            _ => None,
        }
    }

    fn resolve(&self, path: &str) -> Option<String> {
        let mut at = path.to_string();
        for _ in 0..40 {
            match &self.nodes.get(&at)?.kind {
                Kind::Link(dest) if dest.starts_with('/') => at = dest.clone(),
                Kind::Link(dest) => at = format!("{}/{dest}", above(&at)),
                _ => return Some(at),
            }
        }
        None
    }

    fn below(&self, path: &str) -> Vec<String> {
        let front = format!("{path}/");
        self.nodes
            .keys()
            .filter(|k| k.starts_with(&front))
            .cloned()
            .collect()
    }

    fn is_dir(&self, path: &str) -> bool {
        matches!(self.nodes.get(path), Some(Node { kind: Kind::Dir, .. }))
    }

    fn see(&self, path: &str) -> Result<Metadata, Fault> {
        if self.hidden.iter().any(|p| p == path) {
            return Err(Fault::Os(13));
        }
        let node = self.nodes.get(path).ok_or(Fault::NotFound)?;
        let (kind, len) = match &node.kind {
            Kind::File(bytes) => (NodeType::File, bytes.len() as u64),
            Kind::Dir => (NodeType::Directory, 4096),
            Kind::Link(dest) => (NodeType::Symlink, dest.len() as u64),
        };
        Ok(Metadata {
            node: kind,
            mode: 0o100000 | node.mode,
            uid: node.uid,
            gid: node.gid,
            len,
        })
    }

    fn create_dir_all(&mut self, path: &str) -> Result<(), Fault> {
        if self.has(path) {
            return if self.is_dir(path) { Ok(()) } else { Err(Fault::Os(17)) };
        }
        self.create_dir_all(&above(path))?;
        self.put(path, Kind::Dir, 0o755);
        Ok(())
    }

    fn remove_file(&mut self, path: &str) -> Result<(), Fault> {
        if !self.has(path) {
            return Err(Fault::NotFound);
        }
        if self.is_dir(path) {
            return Err(Fault::Os(21));
        }
        self.nodes.remove(path);
        Ok(())
    }

    fn remove_dir(&mut self, path: &str) -> Result<(), Fault> {
        if !self.is_dir(path) {
            return Err(Fault::Os(20));
        }
        if !self.below(path).is_empty() {
            return Err(Fault::Os(39));
        }
        self.nodes.remove(path);
        Ok(())
    }

    fn remove_dir_all(&mut self, path: &str) -> Result<(), Fault> {
        if !self.is_dir(path) {
            return Err(Fault::Os(20));
        }
        for child in self.below(path) {
            self.nodes.remove(&child);
        }
        self.nodes.remove(path);
        Ok(())
    }

    fn rename(&mut self, from: &str, to: &str) -> Result<(), Fault> {
        if self.broken_rename {
            return Err(Fault::Os(5));
        }
        if !self.has(from) {
            return Err(Fault::NotFound);
        }
        if self.is_dir(to) != self.is_dir(from) && self.has(to) {
            return Err(Fault::Os(21));
        }
        for child in self.below(from) {
            let node = self.nodes.remove(&child).unwrap();
            self.nodes.insert(format!("{to}{}", &child[from.len()..]), node);
        }
        let node = self.nodes.remove(from).unwrap();
        self.nodes.insert(to.to_string(), node);
        Ok(())
    }

    fn copy(&mut self, from: &str, to: &str) -> Result<(), Fault> {
        let end = self.resolve(from).ok_or(Fault::NotFound)?;
        let node = self.nodes[&end].clone();
        match &node.kind {
            Kind::File(bytes) => {
                let bytes = bytes.clone();
                self.put(to, Kind::File(bytes), node.mode);
                Ok(())
            }
            _ => Err(Fault::Other),
        }
    }

    fn symlink(&mut self, dest: &str, path: &str) -> Result<(), Fault> {
        if self.has(path) {
            return Err(Fault::Os(17));
        }
        if !self.is_dir(&above(path)) {
            return Err(Fault::NotFound);
        }
        self.link(dest, path);
        Ok(())
    }

    fn chmod(&mut self, path: &str, mode: u32) -> Result<(), Fault> {
        let node = self.nodes.get_mut(path).ok_or(Fault::NotFound)?;
        node.mode = mode & 0o7777;
        Ok(())
    }

    fn chown(&mut self, path: &str, uid: Option<u32>, gid: Option<u32>) -> Result<(), Fault> {
        let node = self.nodes.get_mut(path).ok_or(Fault::NotFound)?;
        if let Some(id) = uid {
            node.uid = id;
        }
        if let Some(id) = gid {
            node.gid = id;
        }
        Ok(())
    }

    fn perform(&mut self, action: &Action<PathBuf>) -> Reply<PathBuf, Digest> {
        let found = |path: Option<String>| match path {
            Some(path) => Reply::Path(Ok(PathBuf::from(&path))),
            None => Reply::Path(Err(Fault::NotFound)),
        };
        match action {
            Action::SymlinkMetadata(p) => return Reply::Metadata(self.see(&text(p))),
            Action::Exists(p) => return Reply::Answer(Ok(self.resolve(&text(p)).is_some())),
            Action::IsPopulated(p) => {
                return Reply::Answer(Ok(!self.below(&text(p)).is_empty()));
            }
            Action::Canonicalize(p) => return found(self.resolve(&text(p))),
            Action::ReadLink(p) => {
                return match self.nodes.get(&text(p)) {
                    Some(Node {
                        kind: Kind::Link(dest),
                        ..
                    }) => found(Some(dest.clone())),
                    _ => Reply::Path(Err(Fault::Os(22))),
                };
            }
            Action::Digest(p) => return Reply::Digest(hash_file(self.read(&text(p)).as_deref())),
            Action::PickTemporary(p) => {
                self.drawn += 1;
                return Reply::Candidate(pick_temporary(p));
            }
            _ => {}
        }
        self.changes.push(format!("{action:?}"));
        let done = match action {
            Action::CreateDirAll(p) => self.create_dir_all(&text(p)),
            Action::RemoveFile(p) => self.remove_file(&text(p)),
            Action::RemoveDir(p) => self.remove_dir(&text(p)),
            Action::RemoveDirAll(p) => self.remove_dir_all(&text(p)),
            Action::Rename(a, b) => self.rename(&text(a), &text(b)),
            Action::Copy(a, b) => self.copy(&text(a), &text(b)),
            Action::Symlink(a, b) => {
                self.symlink(&String::from_utf8(a.bytes.clone()).unwrap(), &text(b))
            }
            Action::SetPermissions(p, mode) => match self.resolve(&text(p)) {
                Some(end) => self.chmod(&end, *mode),
                None => Err(Fault::NotFound),
            },
            Action::SetLinkPermissions(p, mode) => self.chmod(&text(p), *mode),
            Action::Chown(p, uid, gid) => match self.resolve(&text(p)) {
                Some(end) => self.chown(&end, *uid, *gid),
                None => Err(Fault::NotFound),
            },
            Action::Lchown(p, uid, gid) => self.chown(&text(p), *uid, *gid),
            _ => unreachable!(),
        };
        Reply::Done(done)
    }

    /// Drives one operation to its end.
    fn drive<T>(
        &mut self,
        mut operation: impl FnMut(&mut Replies<'_>) -> Result<T, Halt<PathBuf>>,
    ) -> Result<T, Failure> {
        let mut replies: Vec<Reply<PathBuf, Digest>> = Vec::new();
        loop {
            let mut reader = Replies::new(&replies);
            match operation(&mut reader) {
                Ok(value) => return Ok(value),
                Err(Halt::Fail(failure)) => return Err(failure),
                Err(Halt::Ask(action)) => replies.push(self.perform(&action)),
            }
        }
    }

    fn drive_run(&mut self, mut run: Run) -> Vec<(String, Failure)> {
        loop {
            let reply = match run.action() {
                Some(action) => self.perform(action),
                None => break,
            };
            run.reply(reply);
        }
        run.failures()
            .iter()
            .map(|(path, failure)| (text(path), *failure))
            .collect()
    }

    fn drive_diff(&mut self, mut diff: Diff) -> Result<(), DiffError> {
        loop {
            let reply = match diff.action() {
                Some(action) => self.perform(action),
                None => break,
            };
            diff.reply(reply);
        }
        diff.result().unwrap()
    }

    fn activate(&mut self, entry: &FileWithMetadata, prefix: &str) -> Result<(), Failure> {
        self.drive(|replies| entry.clone().activate(None, prefix, replies))
    }

    fn deactivate(&mut self, entry: &FileWithMetadata) -> Result<(), Failure> {
        self.drive(|replies| entry.clone().deactivate(replies))
    }
}

fn fwm(kind: FileKind, target: &str, source: Option<&str>) -> FileWithMetadata {
    FileWithMetadata {
        source: source.map(PathBuf::from),
        target: PathBuf::from(target),
        kind,
        clobber: None,
        permissions: None,
        uid: None,
        gid: None,
        deactivate: None,
        follow_symlinks: None,
        ignore_modification: None,
        metadata: None,
    }
}

fn entry(kind: FileKind, target: &str, source: Option<&str>, clobber: Option<bool>) -> File {
    File {
        source: source.map(PathBuf::from),
        target: PathBuf::from(target),
        kind,
        clobber,
        permissions: None,
        uid: None,
        gid: None,
        deactivate: None,
        follow_symlinks: None,
        ignore_modification: None,
    }
}

fn copy_file(source: &str, target: &str, clobber: Option<bool>) -> File {
    entry(FileKind::Copy, target, Some(source), clobber)
}

fn symlink_file(source: &str, target: &str, clobber: Option<bool>) -> File {
    entry(FileKind::Symlink, target, Some(source), clobber)
}

fn manifest_with(files: Vec<File>) -> Manifest {
    Manifest {
        files,
        clobber_by_default: None,
        version: 3,
        impure: false,
    }
}

#[test]
fn check_no_metadata_delete_returns_true() {
    let f = fwm(FileKind::Delete, "/x", None);
    assert!(Disk::new().drive(|r| f.check(r)).unwrap());
}

#[test]
fn check_no_metadata_non_delete_returns_false() {
    let f = fwm(FileKind::Copy, "/x", None);
    assert!(!Disk::new().drive(|r| f.check(r)).unwrap());
}

#[test]
fn check_metadata_present_delete_returns_false() {
    let mut disk = Disk::new();
    disk.write("/d/f", b"");
    let f = fwm(FileKind::Delete, "/d/f", None);
    let answer = disk.drive(|r| {
        let mut current = f.clone();
        current.set_metadata(r)?;
        current.check(r)
    });
    assert!(!answer.unwrap());
}

#[test]
fn mkdir_existing_directory_ok() {
    let mut disk = Disk::new();
    let path = PathBuf::from("/d");
    disk.drive(|r| mkdir(&path, r)).unwrap();
}

#[test]
fn mkdir_file_in_way_errors() {
    let mut disk = Disk::new();
    disk.write("/d/f", b"");
    let path = PathBuf::from("/d/f");
    assert!(disk.drive(|r| mkdir(&path, r)).is_err());
}

#[test]
fn prefix_move_renames_file() {
    let mut disk = Disk::new();
    disk.write("/d/file", b"");
    let path = PathBuf::from("/d/file");
    disk.drive(|r| prefix_move(&path, ".bak-", r)).unwrap();
    assert!(!disk.has("/d/file"));
    assert!(disk.has("/d/.bak-file"));
}

#[test]
fn prefix_move_nonexistent_is_ok() {
    let mut disk = Disk::new();
    let path = PathBuf::from("/d/nonexistent");
    disk.drive(|r| prefix_move(&path, ".bak-", r)).unwrap();
}

#[test]
fn activate_preserves_existing_copy_when_clobber_false() {
    let mut disk = Disk::new();
    disk.write("/d/source", b"managed");
    disk.write("/d/target", b"local");

    let mut manifest = manifest_with(vec![copy_file("/d/source", "/d/target", Some(false))]);

    let run = manifest.activate(".backup-");
    assert!(disk.drive_run(run).is_empty());
    assert_eq!(disk.read("/d/target").unwrap(), b"local");
    assert!(!disk.leads_somewhere("/d/.backup-target"));
}

#[test]
fn diff_updates_managed_copy_when_clobber_false() {
    let mut disk = Disk::new();
    disk.write("/d/old-source", b"old");
    disk.write("/d/new-source", b"new");
    disk.write("/d/target", b"old");

    let old = manifest_with(vec![copy_file("/d/old-source", "/d/target", Some(false))]);
    let new = manifest_with(vec![copy_file("/d/new-source", "/d/target", Some(false))]);

    disk.drive_diff(new.diff(OldManifest::Found(old), ".backup-", false))
        .unwrap();
    assert_eq!(disk.read("/d/target").unwrap(), b"new");
    assert!(!disk.leads_somewhere("/d/.backup-target"));
}

#[test]
fn diff_updates_managed_symlink_when_clobber_false() {
    let mut disk = Disk::new();
    disk.write("/d/old-source", b"old");
    disk.write("/d/new-source", b"new");
    disk.link("/d/old-source", "/d/target");

    let old = manifest_with(vec![symlink_file("/d/old-source", "/d/target", Some(false))]);
    let new = manifest_with(vec![symlink_file("/d/new-source", "/d/target", Some(false))]);

    disk.drive_diff(new.diff(OldManifest::Found(old), ".backup-", false))
        .unwrap();
    assert_eq!(disk.resolve("/d/target"), disk.resolve("/d/new-source"));
}

#[test]
fn diff_repairs_dangling_symlink_when_clobber_false() {
    let mut disk = Disk::new();
    disk.write("/d/source", b"managed");
    disk.link("/d/missing", "/d/target");

    let old = manifest_with(vec![symlink_file("/d/source", "/d/target", Some(false))]);
    let new = manifest_with(vec![symlink_file("/d/source", "/d/target", Some(false))]);

    disk.drive_diff(new.diff(OldManifest::Found(old), ".backup-", false))
        .unwrap();
    assert_eq!(disk.read("/d/target").unwrap(), b"managed");
    assert_eq!(
        disk.nodes["/d/target"].kind,
        Kind::Link("/d/source".to_string())
    );
    assert!(!disk.leads_somewhere("/d/.backup-target"));
}

#[test]
fn diff_repairs_dangling_symlink_when_source_changes() {
    let mut disk = Disk::new();
    disk.write("/d/new-source", b"new");
    disk.link("/d/old-source", "/d/target");

    let old = manifest_with(vec![symlink_file("/d/old-source", "/d/target", Some(false))]);
    let new = manifest_with(vec![symlink_file("/d/new-source", "/d/target", Some(false))]);

    disk.drive_diff(new.diff(OldManifest::Found(old), ".backup-", false))
        .unwrap();
    assert_eq!(
        disk.nodes["/d/target"].kind,
        Kind::Link("/d/new-source".to_string())
    );
}

#[test]
fn diff_rejects_modified_copy_when_clobber_false() {
    let mut disk = Disk::new();
    disk.write("/d/old-source", b"old");
    disk.write("/d/new-source", b"new");
    disk.write("/d/target", b"local");

    let old = manifest_with(vec![copy_file("/d/old-source", "/d/target", Some(false))]);
    let new = manifest_with(vec![copy_file("/d/new-source", "/d/target", Some(false))]);

    assert!(matches!(
        disk.drive_diff(new.diff(OldManifest::Found(old), ".backup-", false)),
        Err(DiffError::ProtectedTargets(targets)) if targets == vec![PathBuf::from("/d/target")]
    ));
    assert_eq!(disk.read("/d/target").unwrap(), b"local");
    assert!(disk.changes.is_empty());
}

#[test]
fn activation_backs_up_what_differs() {
    let mut disk = Disk::new();
    disk.write("/d/source", b"managed");
    disk.write("/d/target", b"local");
    disk.write("/d/.backup-target", b"older");
    let f = fwm(FileKind::Copy, "/d/target", Some("/d/source"));
    disk.activate(&f, ".backup-").unwrap();
    assert_eq!(disk.read("/d/target").unwrap(), b"managed");
    assert_eq!(disk.read("/d/.backup-target").unwrap(), b"local");
}

#[test]
fn activation_leaves_a_correct_target_alone() {
    let mut disk = Disk::new();
    disk.write("/d/source", b"same");
    disk.write("/d/target", b"same");
    let f = fwm(FileKind::Copy, "/d/target", Some("/d/source"));
    disk.activate(&f, ".backup-").unwrap();
    assert!(disk.changes.is_empty());
}

#[test]
fn activation_creates_missing_parents() {
    let mut disk = Disk::new();
    disk.write("/d/source", b"managed");
    let f = fwm(FileKind::Copy, "/d/a/b/target", Some("/d/source"));
    disk.activate(&f, ".backup-").unwrap();
    assert!(disk.is_dir("/d/a/b"));
    assert_eq!(disk.read("/d/a/b/target").unwrap(), b"managed");
}

#[test]
fn activation_with_clobber_replaces_in_one_step() {
    let mut disk = Disk::new();
    disk.write("/d/source", b"managed");
    disk.write("/d/target", b"local");
    let mut f = fwm(FileKind::Copy, "/d/target", Some("/d/source"));
    f.clobber = Some(true);
    disk.activate(&f, ".backup-").unwrap();
    assert_eq!(disk.read("/d/target").unwrap(), b"managed");
    assert_eq!(disk.drawn, 1);
    assert_eq!(disk.nodes.len(), 4);
    assert!(disk.changes.last().unwrap().starts_with("Rename"));
}

#[test]
fn a_failed_replacement_leaves_the_target_untouched() {
    let mut disk = Disk::new();
    disk.write("/d/source", b"managed");
    disk.write("/d/target", b"local");
    disk.broken_rename = true;
    let before = disk.nodes.clone();
    let mut f = fwm(FileKind::Copy, "/d/target", Some("/d/source"));
    f.clobber = Some(true);
    assert_eq!(
        disk.activate(&f, ".backup-"),
        Err(Failure::Io(Fault::Os(5)))
    );
    assert_eq!(disk.nodes, before);
}

#[test]
fn activation_with_clobber_removes_a_directory_in_the_way() {
    let mut disk = Disk::new();
    disk.write("/d/source", b"managed");
    disk.put("/d/target", Kind::Dir, 0o755);
    disk.write("/d/target/inside", b"x");
    let mut f = fwm(FileKind::Copy, "/d/target", Some("/d/source"));
    f.clobber = Some(true);
    disk.activate(&f, ".backup-").unwrap();
    assert_eq!(disk.read("/d/target").unwrap(), b"managed");
    assert!(!disk.has("/d/target/inside"));
}

#[test]
fn clobber_by_default_decides_where_the_entry_does_not() {
    let mut disk = Disk::new();
    disk.write("/d/source", b"managed");
    disk.write("/d/target", b"local");
    let mut manifest = manifest_with(vec![copy_file("/d/source", "/d/target", None)]);
    manifest.clobber_by_default = Some(true);
    let run = manifest.activate(".backup-");
    assert!(disk.drive_run(run).is_empty());
    assert_eq!(disk.read("/d/target").unwrap(), b"managed");
    assert!(!disk.has("/d/.backup-target"));
}

#[test]
fn permissions_and_owner_are_applied() {
    let mut disk = Disk::new();
    disk.write("/d/source", b"managed");
    let mut f = fwm(FileKind::Copy, "/d/target", Some("/d/source"));
    f.permissions = Some(0o600);
    f.uid = Some(7);
    disk.activate(&f, ".backup-").unwrap();
    let node = &disk.nodes["/d/target"];
    assert_eq!((node.mode, node.uid, node.gid), (0o600, 7, 100));
}

#[test]
fn owner_is_applied_where_the_mode_is_right_already() {
    let mut disk = Disk::new();
    disk.write("/d/target", b"x");
    let mut f = fwm(FileKind::Modify, "/d/target", None);
    f.permissions = Some(0o644);
    f.gid = Some(9);
    disk.activate(&f, ".backup-").unwrap();
    assert_eq!(disk.nodes["/d/target"].gid, 9);
}

#[test]
fn a_link_gets_mode_and_owner_of_its_own() {
    let mut disk = Disk::new();
    disk.write("/d/source", b"managed");
    let mut f = fwm(FileKind::Symlink, "/d/target", Some("/d/source"));
    f.permissions = Some(0o600);
    f.uid = Some(7);
    disk.activate(&f, ".backup-").unwrap();
    let link = &disk.nodes["/d/target"];
    assert_eq!((link.mode, link.uid, link.gid), (0o600, 7, 100));
    let source = &disk.nodes["/d/source"];
    assert_eq!((source.mode, source.uid), (0o644, 1000));
}

#[test]
fn the_mode_of_a_link_counts_in_a_check() {
    let mut disk = Disk::new();
    disk.write("/d/source", b"managed");
    disk.link("/d/source", "/d/target");
    let mut f = fwm(FileKind::Symlink, "/d/target", Some("/d/source"));
    assert!(disk.drive(|r| f.inspect(r)).unwrap());
    f.permissions = Some(0o777);
    assert!(disk.drive(|r| f.inspect(r)).unwrap());
    f.permissions = Some(0o755);
    assert!(!disk.drive(|r| f.inspect(r)).unwrap());
    assert_eq!(disk.deactivate(&f), Err(Failure::Modified));
}

#[test]
fn a_mode_that_cannot_be_set_fails() {
    let mut f = fwm(FileKind::Symlink, "/d/target", Some("/d/source"));
    f.permissions = Some(0o600);
    let link = Metadata {
        node: NodeType::Symlink,
        mode: 0o120777,
        uid: 0,
        gid: 0,
        len: 9,
    };
    let mut replies = vec![Reply::Metadata(Ok(link))];
    assert!(matches!(
        f.chmod_chown(&mut Replies::new(&replies)),
        Err(Halt::Ask(Action::SetLinkPermissions(path, 0o600)))
            if path == PathBuf::from("/d/target")
    ));
    replies.push(Reply::Done(Err(Fault::Os(95))));
    assert!(matches!(
        f.chmod_chown(&mut Replies::new(&replies)),
        Err(Halt::Fail(Failure::Io(Fault::Os(95))))
    ));
}

#[test]
fn a_followed_source_is_resolved_and_a_literal_one_is_not() {
    let mut disk = Disk::new();
    disk.write("/d/real", b"x");
    disk.link("/d/real", "/d/source");
    let mut f = fwm(FileKind::Symlink, "/d/target", Some("/d/source"));
    disk.activate(&f, ".backup-").unwrap();
    assert_eq!(disk.nodes["/d/target"].kind, Kind::Link("/d/real".into()));

    f.target = PathBuf::from("/d/literal");
    f.follow_symlinks = Some(false);
    disk.activate(&f, ".backup-").unwrap();
    assert_eq!(disk.nodes["/d/literal"].kind, Kind::Link("/d/source".into()));
    assert!(disk.drive(|r| f.inspect(r)).unwrap());
}

#[test]
fn a_literal_source_is_linked_as_it_is_written() {
    let mut disk = Disk::new();
    disk.write("/d/real", b"x");
    disk.link("/d/real", "/d/source");
    let mut f = fwm(FileKind::Symlink, "/d/target", Some("source"));
    f.follow_symlinks = Some(false);
    disk.activate(&f, ".backup-").unwrap();
    assert_eq!(disk.nodes["/d/target"].kind, Kind::Link("source".into()));
    assert!(disk.drive(|r| f.inspect(r)).unwrap());
    disk.changes.clear();
    disk.activate(&f, ".backup-").unwrap();
    assert!(disk.changes.is_empty());

    f.clobber = Some(true);
    disk.activate(&f, ".backup-").unwrap();
    assert_eq!(disk.nodes["/d/target"].kind, Kind::Link("source".into()));
    assert!(!disk.has("/d/.backup-target"));
    disk.deactivate(&f).unwrap();
    assert!(!disk.has("/d/target"));

    disk.link("/d/source", "/d/target");
    assert!(!disk.drive(|r| f.inspect(r)).unwrap());
}

#[test]
fn a_modify_sets_the_mode_of_what_a_link_leads_to() {
    let mut disk = Disk::new();
    disk.write("/d/source", b"x");
    disk.link("/d/source", "/d/target");
    let mut f = fwm(FileKind::Modify, "/d/target", None);
    f.permissions = Some(0o600);
    f.uid = Some(7);
    disk.activate(&f, ".backup-").unwrap();
    let source = &disk.nodes["/d/source"];
    assert_eq!((source.mode, source.uid), (0o600, 1000));
    let link = &disk.nodes["/d/target"];
    assert_eq!((link.mode, link.uid), (0o777, 7));
}

#[test]
fn skipped_entries_are_told() {
    let mut disk = Disk::new();
    disk.put("/d/dir", Kind::Dir, 0o755);
    disk.write("/d/source", b"x");
    let files = vec![
        copy_file("/d/missing", "/d/a", None),
        copy_file("/d/dir", "/d/b", None),
        entry(FileKind::Symlink, "/d/c", None, None),
        symlink_file("/d/source", "/d/e", None),
        entry(FileKind::Delete, "/d/f", None, None),
    ];
    let expected = vec![
        "copy with target '/d/a' source '/d/missing' does not exist",
        "copy with target '/d/b' source '/d/dir' is a directory, only files are permitted. Skipping...",
        "symlink with target '/d/c' missing source, skipping...",
    ];
    let mut run = manifest_with(files.clone()).activate(".backup-");
    while let Some(action) = run.action() {
        let reply = disk.perform(action);
        run.reply(reply);
    }
    assert_eq!(run.warnings(), expected);
    assert!(run.failures().is_empty());

    let mut diff = manifest_with(files).diff(OldManifest::Missing, ".backup-", true);
    assert!(diff.warnings().is_empty());
    while let Some(action) = diff.action() {
        let reply = disk.perform(action);
        diff.reply(reply);
    }
    assert_eq!(diff.warnings(), &expected);
    assert!(diff.result().unwrap().is_ok());
}

#[test]
fn a_backup_holds_all_that_was_there() {
    let mut disk = Disk::new();
    disk.write("/d/source", b"x");
    disk.put("/d/target", Kind::Dir, 0o755);
    disk.put("/d/target/deep", Kind::Dir, 0o755);
    disk.write("/d/target/deep/leaf", b"kept");
    let f = fwm(FileKind::Copy, "/d/target", Some("/d/source"));
    disk.activate(&f, ".backup-").unwrap();
    assert_eq!(disk.read("/d/target").unwrap(), b"x");
    assert_eq!(disk.read("/d/.backup-target/deep/leaf").unwrap(), b"kept");
}

#[test]
fn refusals_name_the_targets_in_order() {
    let mut disk = Disk::new();
    disk.write("/d/one", b"one");
    disk.write("/d/two", b"two");
    let names = ["/d/b", "/d/a", "/d/same", "/d/gone", "/d/dead", "/d/free"];
    for name in ["/d/b", "/d/a", "/d/free"] {
        disk.write(name, b"local");
    }
    disk.write("/d/same", b"one");
    disk.link("/d/nowhere", "/d/dead");
    let old = manifest_with(names.iter().map(|n| copy_file("/d/one", n, None)).collect());
    let new = names
        .iter()
        .map(|n| copy_file("/d/two", n, Some(*n == "/d/free")))
        .collect();
    match disk.drive_diff(manifest_with(new).diff(OldManifest::Found(old), ".backup-", false)) {
        Err(DiffError::ProtectedTargets(targets)) => {
            assert_eq!(targets, vec![PathBuf::from("/d/b"), PathBuf::from("/d/a")]);
        }
        other => panic!("{other:?}"),
    }
    assert!(disk.changes.is_empty());
}

#[test]
fn an_own_false_matters_only_to_what_differs() {
    for there in [None, Some(b"managed")] {
        let mut outcomes = Vec::new();
        for own in [None, Some(false)] {
            let mut disk = Disk::new();
            disk.write("/d/source", b"managed");
            if let Some(bytes) = there {
                disk.write("/d/target", bytes);
            }
            let mut f = fwm(FileKind::Copy, "/d/target", Some("/d/source"));
            f.clobber = own;
            disk.activate(&f, ".backup-").unwrap();
            outcomes.push(disk.nodes);
        }
        assert_eq!(outcomes[0], outcomes[1]);
    }
}

#[test]
fn a_link_with_clobber_false_backs_up_what_differs() {
    let mut disk = Disk::new();
    disk.write("/d/source", b"managed");
    disk.write("/d/target", b"local");
    let mut f = fwm(FileKind::Symlink, "/d/target", Some("/d/source"));
    f.clobber = Some(false);
    disk.activate(&f, ".backup-").unwrap();
    assert_eq!(disk.nodes["/d/target"].kind, Kind::Link("/d/source".into()));
    assert_eq!(disk.read("/d/.backup-target").unwrap(), b"local");
}

#[test]
fn an_own_clobber_counts_as_the_default_does() {
    for kind in [FileKind::Symlink, FileKind::Directory, FileKind::Copy] {
        for default in [None, Some(false), Some(true)] {
            if kind == FileKind::Copy && default != Some(true) {
                continue;
            }
            let mut outcomes = Vec::new();
            for (own, given) in [(None, default), (Some(default == Some(true)), None)] {
                let mut disk = Disk::new();
                disk.write("/d/source", b"managed");
                disk.write("/d/target", b"local");
                let source = match kind {
                    FileKind::Directory => None,
                    _ => Some("/d/source"),
                };
                let mut f = fwm(kind, "/d/target", source);
                f.clobber = own;
                disk.drive(|r| f.clone().activate(given, ".backup-", r)).unwrap();
                outcomes.push(disk.nodes);
            }
            assert_eq!(outcomes[0], outcomes[1]);
            assert_eq!(outcomes[0].contains_key("/d/.backup-target"), default != Some(true));
        }
    }
}

#[test]
fn a_copy_with_clobber_false_takes_the_place_of_a_dead_link() {
    let mut disk = Disk::new();
    disk.write("/d/source", b"managed");
    disk.link("/d/missing", "/d/target");
    let mut f = fwm(FileKind::Copy, "/d/target", Some("/d/source"));
    f.clobber = Some(false);
    disk.activate(&f, ".backup-").unwrap();
    assert_eq!(disk.nodes["/d/target"].kind, Kind::File(b"managed".to_vec()));
    assert!(!disk.has("/d/.backup-target"));
}

#[test]
fn diff_puts_a_directory_where_a_new_target_needs_one() {
    let mut disk = Disk::new();
    disk.write("/d/source", b"x");
    disk.write("/d/place", b"x");
    disk.write("/d/gone", b"x");
    let old = manifest_with(vec![
        copy_file("/d/source", "/d/place", None),
        copy_file("/d/source", "/d/gone", None),
    ]);
    let new = manifest_with(vec![copy_file("/d/source", "/d/place/below", Some(false))]);
    disk.drive_diff(new.diff(OldManifest::Found(old), ".backup-", false))
        .unwrap();
    assert!(disk.is_dir("/d/place"));
    assert_eq!(disk.read("/d/place/below").unwrap(), b"x");
    assert!(!disk.has("/d/gone"));
}

#[test]
fn a_missing_source_is_skipped() {
    let mut disk = Disk::new();
    disk.write("/d/target", b"local");
    let f = fwm(FileKind::Copy, "/d/target", Some("/d/source"));
    disk.activate(&f, ".backup-").unwrap();
    let g = fwm(FileKind::Symlink, "/d/target", None);
    disk.activate(&g, ".backup-").unwrap();
    assert!(disk.changes.is_empty());
}

#[test]
fn a_directory_is_no_source_of_a_copy() {
    let mut disk = Disk::new();
    disk.put("/d/source", Kind::Dir, 0o755);
    let f = fwm(FileKind::Copy, "/d/target", Some("/d/source"));
    disk.activate(&f, ".backup-").unwrap();
    assert!(!disk.has("/d/target"));
}

#[test]
fn a_directory_takes_the_place_of_a_file() {
    let mut disk = Disk::new();
    disk.write("/d/target", b"local");
    let f = fwm(FileKind::Directory, "/d/target", None);
    disk.activate(&f, ".backup-").unwrap();
    assert!(disk.is_dir("/d/target"));
    assert_eq!(disk.read("/d/.backup-target").unwrap(), b"local");
}

#[test]
fn a_directory_that_is_there_keeps_its_contents() {
    let mut disk = Disk::new();
    disk.put("/d/target", Kind::Dir, 0o755);
    disk.write("/d/target/inside", b"x");
    let mut f = fwm(FileKind::Directory, "/d/target", None);
    f.permissions = Some(0o700);
    disk.activate(&f, ".backup-").unwrap();
    assert_eq!(disk.nodes["/d/target"].mode, 0o700);
    assert_eq!(disk.read("/d/target/inside").unwrap(), b"x");
}

#[test]
fn nothing_to_modify_is_a_failure() {
    let mut disk = Disk::new();
    let f = fwm(FileKind::Modify, "/d/target", None);
    assert_eq!(disk.activate(&f, ".backup-"), Err(Failure::DoesNotExist));
    assert!(!disk.has("/d/target"));
}

#[test]
fn delete_removes_files_and_trees_and_accepts_nothing() {
    let mut disk = Disk::new();
    disk.put("/d/tree", Kind::Dir, 0o755);
    disk.write("/d/tree/leaf", b"x");
    disk.write("/d/file", b"x");
    for target in ["/d/tree", "/d/file", "/d/nothing"] {
        let f = fwm(FileKind::Delete, target, None);
        disk.activate(&f, ".backup-").unwrap();
        assert!(!disk.has(target));
    }
    assert_eq!(disk.nodes.len(), 2);
}

#[test]
fn the_root_has_no_file_name() {
    let mut disk = Disk::new();
    let path = PathBuf::from("/");
    assert_eq!(
        disk.drive(|r| prefix_move(&path, "x", r)),
        Err(Failure::NoFileName)
    );
}

#[test]
fn a_target_without_parent_fails() {
    let mut disk = Disk::new();
    disk.write("/d/source", b"x");
    let mut f = fwm(FileKind::Copy, "", Some("/d/source"));
    assert_eq!(disk.drive(|r| f.copy(r)), Err(Failure::NoParent));
}

#[test]
fn deactivation_undoes_activation() {
    let mut disk = Disk::new();
    disk.write("/d/source", b"managed");
    let before = disk.nodes.clone();
    let files = vec![
        entry(FileKind::Directory, "/d/dir", None, None),
        copy_file("/d/source", "/d/dir/copy", None),
        symlink_file("/d/source", "/d/dir/link", None),
    ];
    let mut manifest = manifest_with(files);
    let run = manifest.activate(".backup-");
    assert!(disk.drive_run(run).is_empty());
    assert!(disk.has("/d/dir/copy"));
    assert!(disk.has("/d/dir/link"));
    let run = manifest.deactivate();
    assert!(disk.drive_run(run).is_empty());
    assert_eq!(disk.nodes, before);
}

#[test]
fn deactivation_leaves_what_was_modified() {
    let mut disk = Disk::new();
    disk.write("/d/source", b"managed");
    disk.write("/d/target", b"changed");
    let mut f = fwm(FileKind::Copy, "/d/target", Some("/d/source"));
    assert_eq!(disk.deactivate(&f), Err(Failure::Modified));
    assert_eq!(disk.read("/d/target").unwrap(), b"changed");
    f.ignore_modification = Some(true);
    disk.deactivate(&f).unwrap();
    assert!(!disk.has("/d/target"));
}

#[test]
fn deactivation_of_a_populated_directory_fails() {
    let mut disk = Disk::new();
    disk.write("/d/file", b"x");
    let f = fwm(FileKind::Directory, "/d", None);
    assert_eq!(disk.deactivate(&f), Err(Failure::Io(Fault::Os(39))));
    assert!(disk.has("/d/file"));
}

#[test]
fn deactivation_skips_where_told_to() {
    let mut disk = Disk::new();
    disk.write("/d/source", b"managed");
    disk.write("/d/target", b"managed");
    let mut f = fwm(FileKind::Copy, "/d/target", Some("/d/source"));
    f.deactivate = Some(false);
    disk.deactivate(&f).unwrap();
    assert!(disk.has("/d/target"));
}

#[test]
fn deactivation_of_modify_and_delete_changes_nothing() {
    let mut disk = Disk::new();
    disk.write("/d/target", b"x");
    let f = fwm(FileKind::Modify, "/d/target", None);
    disk.deactivate(&f).unwrap();
    assert!(disk.changes.is_empty());
    let mut changed = fwm(FileKind::Modify, "/d/target", None);
    changed.permissions = Some(0o600);
    disk.deactivate(&changed).unwrap();
    let g = fwm(FileKind::Delete, "/d/target", None);
    disk.deactivate(&g).unwrap();
    assert!(disk.changes.is_empty());
    assert!(disk.has("/d/target"));
}

#[test]
fn deactivation_of_a_copy_without_source_fails() {
    let mut disk = Disk::new();
    disk.write("/d/target", b"x");
    let f = fwm(FileKind::Copy, "/d/target", None);
    assert_eq!(disk.deactivate(&f), Err(Failure::MissingSource));
}

#[test]
fn failures_name_their_targets_in_order() {
    let mut disk = Disk::new();
    let files = vec![
        entry(FileKind::Modify, "/d/x/deep", None, None),
        entry(FileKind::Modify, "/d/flat", None, None),
        entry(FileKind::Delete, "/d/gone", None, None),
    ];
    let run = manifest_with(files).activate(".backup-");
    assert_eq!(
        disk.drive_run(run),
        vec![
            ("/d/flat".to_string(), Failure::DoesNotExist),
            ("/d/x/deep".to_string(), Failure::DoesNotExist),
        ]
    );
}

#[test]
fn entries_of_every_kind_are_in_force_together() {
    let mut disk = Disk::new();
    disk.write("/d/source", b"managed");
    disk.write("/d/old", b"x");
    disk.write("/d/kept", b"mine");
    disk.write("/d/dir/copy", b"other");
    disk.write("/d/elsewhere", b"untouched");
    let mut modify = entry(FileKind::Modify, "/d/elsewhere", None, None);
    modify.permissions = Some(0o600);
    let files = vec![
        entry(FileKind::Delete, "/d/old", None, None),
        modify,
        symlink_file("/d/source", "/d/dir/link", None),
        copy_file("/d/source", "/d/dir/copy", None),
        copy_file("/d/source", "/d/kept", Some(false)),
        copy_file("/d/missing", "/d/skipped", None),
        entry(FileKind::Directory, "/d/dir", None, None),
        entry(FileKind::Directory, "/d/new/deep", None, None),
    ];
    let run = manifest_with(files).activate(".backup-");
    assert!(disk.drive_run(run).is_empty());
    assert!(!disk.has("/d/old"));
    assert!(disk.is_dir("/d/dir"));
    assert!(disk.is_dir("/d/new/deep"));
    assert_eq!(disk.read("/d/dir/copy").unwrap(), b"managed");
    assert_eq!(disk.read("/d/dir/.backup-copy").unwrap(), b"other");
    assert_eq!(disk.resolve("/d/dir/link").unwrap(), "/d/source");
    assert_eq!(disk.read("/d/kept").unwrap(), b"mine");
    assert!(!disk.has("/d/skipped"));
    assert_eq!(disk.nodes["/d/elsewhere"].mode, 0o600);
    assert_eq!(disk.read("/d/elsewhere").unwrap(), b"untouched");
}

#[test]
fn what_was_seen_is_kept() {
    let mut disk = Disk::new();
    disk.write("/d/source", b"managed");
    let mut f = fwm(FileKind::Copy, "/d/target", Some("/d/source"));
    assert!(!disk.drive(|r| f.check(r)).unwrap());
    disk.drive(|r| f.copy(r)).unwrap();
    assert_eq!(f.metadata.unwrap().len, 7);
    assert!(disk.drive(|r| f.check(r)).unwrap());

    let mut g = fwm(FileKind::Symlink, "/d/link", Some("/d/source"));
    disk.drive(|r| g.activate(None, "", r)).unwrap();
    assert_eq!(g.metadata.unwrap().node, NodeType::Symlink);
    assert!(disk.drive(|r| g.check(r)).unwrap());
    disk.drive(|r| g.deactivate(r)).unwrap();
    assert!(g.metadata.is_some());
    assert!(!disk.has("/d/link"));

    let mut h = fwm(FileKind::Copy, "/d/target", Some("/d/source"));
    h.permissions = Some(0o600);
    h.clobber = Some(true);
    disk.drive(|r| h.activate(None, "", r)).unwrap();
    assert_eq!(h.metadata.unwrap().bits(), 0o600);
    assert_eq!(h.target, PathBuf::from("/d/target"));

    let mut d = fwm(FileKind::Directory, "/d/dir", None);
    disk.drive(|r| d.directory(r)).unwrap();
    assert!(d.metadata.unwrap().is_dir());
    let mut m = fwm(FileKind::Modify, "/d/dir", None);
    m.gid = Some(4);
    disk.drive(|r| m.chmod_chown(r)).unwrap();
    assert!(m.metadata.unwrap().is_dir());
}

#[test]
fn waiting_for_a_reply_leaves_an_entry_as_it_was() {
    let mut f = fwm(FileKind::Delete, "/d/target", None);
    let replies = vec![Reply::Metadata(Ok(Metadata {
        node: NodeType::File,
        mode: 0o644,
        uid: 0,
        gid: 0,
        len: 0,
    }))];
    let mut reader = Replies::new(&replies);
    assert!(matches!(
        f.activate(None, "", &mut reader),
        Err(Halt::Ask(Action::RemoveFile(_)))
    ));
    assert!(f.metadata.is_none());
}

#[test]
fn diff_fails_where_a_changed_target_cannot_be_looked_at() {
    let mut disk = Disk::new();
    disk.write("/d/one", b"one");
    disk.write("/d/two", b"two");
    disk.write("/d/target", b"one");
    disk.hidden.push("/d/target".to_string());
    let old = manifest_with(vec![copy_file("/d/one", "/d/target", None)]);
    let new = manifest_with(vec![copy_file("/d/two", "/d/target", Some(true))]);
    match disk.drive_diff(new.diff(OldManifest::Found(old), ".backup-", false)) {
        Err(DiffError::ActivationFailed(failures)) => {
            assert_eq!(failures.len(), 1);
            assert_eq!(failures[0].0, PathBuf::from("/d/target"));
            assert!(failures[0].1.ends_with("(os error 13)"));
        }
        other => panic!("{other:?}"),
    }
    assert_eq!(disk.read("/d/target").unwrap(), b"one");
}

#[test]
fn diff_of_a_removed_delete_succeeds_where_the_file_is_back() {
    let mut disk = Disk::new();
    disk.write("/d/back", b"x");
    let old = manifest_with(vec![entry(FileKind::Delete, "/d/back", None, None)]);
    let new = manifest_with(Vec::new());
    disk.drive_diff(new.diff(OldManifest::Found(old), ".backup-", false))
        .unwrap();
    assert!(disk.has("/d/back"));
}

#[test]
fn diff_touches_only_what_it_is_about() {
    let mut disk = Disk::new();
    disk.write("/d/one", b"one");
    disk.write("/d/two", b"two");
    disk.write("/d/bystander", b"x");
    let old = manifest_with(vec![
        copy_file("/d/one", "/d/same", None),
        copy_file("/d/one", "/d/changed", None),
        copy_file("/d/one", "/d/removed", None),
        symlink_file("/d/one", "/d/dropped", None),
    ]);
    let run = old.clone().activate(".backup-");
    assert!(disk.drive_run(run).is_empty());
    let new = manifest_with(vec![
        copy_file("/d/one", "/d/same", None),
        copy_file("/d/two", "/d/changed", None),
        symlink_file("/d/two", "/d/fresh", None),
        entry(FileKind::Directory, "/d/dropped", None, None),
    ]);
    disk.changes.clear();
    disk.drive_diff(new.diff(OldManifest::Found(old), ".backup-", false))
        .unwrap();
    assert_eq!(disk.read("/d/same").unwrap(), b"one");
    assert_eq!(disk.read("/d/changed").unwrap(), b"two");
    assert_eq!(disk.resolve("/d/fresh").unwrap(), "/d/two");
    assert!(disk.is_dir("/d/dropped"));
    assert!(!disk.has("/d/removed"));
    assert_eq!(disk.read("/d/bystander").unwrap(), b"x");
    let names = |path: &str| format!("{:?}", PathBuf::from(path));
    let changed = |path: &str| disk.changes.iter().any(|c| c.contains(&names(path)));
    assert!(changed("/d/fresh"));
    assert!(!changed("/d/same"));
}

#[test]
fn diff_deactivates_what_is_gone_and_activates_what_is_new() {
    let mut disk = Disk::new();
    disk.write("/d/source", b"x");
    disk.write("/d/gone", b"x");
    let old = manifest_with(vec![copy_file("/d/source", "/d/gone", None)]);
    let new = manifest_with(vec![symlink_file("/d/source", "/d/fresh", None)]);
    disk.drive_diff(new.diff(OldManifest::Found(old), ".backup-", false))
        .unwrap();
    assert!(!disk.has("/d/gone"));
    assert!(disk.has("/d/fresh"));
}

#[test]
fn diff_of_a_manifest_with_itself_changes_nothing() {
    let mut disk = Disk::new();
    disk.write("/d/source", b"x");
    let manifest = manifest_with(vec![
        copy_file("/d/source", "/d/copy", None),
        symlink_file("/d/source", "/d/link", None),
    ]);
    let run = manifest.clone().activate(".backup-");
    assert!(disk.drive_run(run).is_empty());
    let before = disk.nodes.clone();
    disk.changes.clear();
    disk.drive_diff(
        manifest
            .clone()
            .diff(OldManifest::Found(manifest), ".backup-", false),
    )
    .unwrap();
    assert!(disk.changes.is_empty());
    assert_eq!(disk.nodes, before);
}

#[test]
fn diff_forces_what_cannot_be_replaced_in_one_step() {
    let mut disk = Disk::new();
    disk.write("/d/source", b"x");
    disk.put("/d/target", Kind::Dir, 0o755);
    let old = manifest_with(vec![entry(FileKind::Directory, "/d/target", None, None)]);
    let new = manifest_with(vec![copy_file("/d/source", "/d/target", None)]);
    disk.drive_diff(new.diff(OldManifest::Found(old), ".backup-", false))
        .unwrap();
    assert_eq!(disk.read("/d/target").unwrap(), b"x");
    assert!(!disk.has("/d/.backup-target"));
}

#[test]
fn diff_without_old_manifest() {
    let mut disk = Disk::new();
    disk.write("/d/source", b"x");
    let manifest = manifest_with(vec![copy_file("/d/source", "/d/target", None)]);
    assert!(matches!(
        disk.drive_diff(manifest.clone().diff(OldManifest::Missing, ".backup-", false)),
        Err(DiffError::OldManifestMissing)
    ));
    assert!(disk.changes.is_empty());
    disk.drive_diff(manifest.diff(OldManifest::Missing, ".backup-", true))
        .unwrap();
    assert_eq!(disk.read("/d/target").unwrap(), b"x");
}

#[test]
fn diff_reports_failures_in_words() {
    let mut disk = Disk::new();
    let old = manifest_with(vec![entry(FileKind::Directory, "/d/file", None, None)]);
    disk.write("/d/file", b"x");
    let new = manifest_with(vec![entry(FileKind::Modify, "/d/none", None, None)]);
    match disk.drive_diff(new.diff(OldManifest::Found(old), ".backup-", false)) {
        Err(DiffError::ActivationFailed(failures)) => {
            assert_eq!(failures.len(), 2);
            assert_eq!(failures[0].0, PathBuf::from("/d/file"));
            assert_eq!(failures[0].1, "File is not the same as expected");
            assert_eq!(failures[1].0, PathBuf::from("/d/none"));
            assert_eq!(
                failures[1].1,
                "Can't modify file '/d/none', file does not exist"
            );
        }
        other => panic!("{other:?}"),
    }
}

#[test]
fn a_reply_that_does_not_belong_is_a_fault() {
    let mut f = fwm(FileKind::Modify, "/d/target", None);
    let replies: Vec<Reply<PathBuf, Digest>> = vec![Reply::Answer(Ok(true))];
    let mut reader = Replies::new(&replies);
    assert!(matches!(
        f.activate(None, "", &mut reader),
        Err(Halt::Fail(Failure::Io(Fault::Mismatch)))
    ));
}

#[test]
fn a_taken_temporary_name_is_drawn_again() {
    let mut f = fwm(FileKind::Copy, "/d/target", Some("/d/source"));
    f.metadata = Some(Metadata {
        node: NodeType::File,
        mode: 0o644,
        uid: 0,
        gid: 0,
        len: 0,
    });
    let replies: Vec<Reply<PathBuf, Digest>> = vec![
        Reply::Metadata(Ok(f.metadata.unwrap())),
        Reply::Candidate(PathBuf::from("/d/one")),
        Reply::Answer(Ok(true)),
    ];
    let mut reader = Replies::new(&replies);
    assert!(matches!(
        f.atomic_activate(&mut reader),
        Err(Halt::Ask(Action::PickTemporary(_)))
    ));
}
