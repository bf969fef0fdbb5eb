//! What is done for one entry: activation, deactivation, and the check that a
//! target is as the entry says.
use vstd::prelude::*;
use vstd::utf8::encode_utf8;

use crate::action::{Action, Digest, Failure, Fault, Metadata, Reply, Response};
use crate::kept::{
    drawn, keeps, kept_by_activation, kept_by_atomic, kept_by_attributes, kept_by_bringing_about,
    kept_by_copy, kept_by_correction, kept_by_deactivation, kept_by_directory, kept_by_finish,
    kept_by_install, kept_by_link, kept_by_look, kept_by_place, kept_by_proceeding, kept_by_swap,
};
use crate::manifest::{clone_path, path_view, takes_source, File, FileKind, FileView};
use crate::path::{file_name, joined, parent, same_path, PathBuf};
use crate::program::{
    and_then, answer_in, bind, digest_in, done_in, group_play, metadata_in, must, must_find,
    must_see, play, plays, request, Halt, Program, Replies,
};

verus! {

/// Whether what is at the target may be thrown away: the entry's own setting,
/// or else the manifest's.
pub open spec fn clobbers(clobber: Option<bool>, clobber_by_default: Option<bool>) -> bool {
    match clobber {
        Some(choice) => choice,
        None => clobber_by_default == Some(true),
    }
}

/// Computes [`clobbers`].
pub fn effective_clobber(clobber: Option<bool>, clobber_by_default: Option<bool>) -> (choice: bool)
    ensures
        choice == clobbers(clobber, clobber_by_default),
{
    match clobber {
        Some(choice) => choice,
        None => match clobber_by_default {
            Some(choice) => choice,
            None => false,
        },
    }
}

/// Looks at the target; that there is nothing is no failure.
pub open spec fn look(target: Seq<u8>) -> Program<Result<Option<Metadata>, Failure>> {
    Program::Ask(
        Action::SymlinkMetadata(target),
        |r: Response|
            Program::Return(
                match metadata_in(r) {
                    Ok(metadata) => Ok(Some(metadata)),
                    Err(Fault::NotFound) => Ok(None),
                    Err(fault) => Err(Failure::Io(fault)),
                },
            ),
    )
}

/// Why an entry is skipped.
#[derive(Debug, Clone, Copy, PartialEq, Eq, Structural)]
pub enum Skip {
    /// It needs a source and has none.
    NoSource,
    /// Its source does not exist.
    SourceMissing,
    /// It is to be a copy, and its source is no regular file.
    SourceUnfit,
}

/// Finds out whether the entry has to be skipped, and why.
pub open spec fn skip_program(file: FileView) -> Program<Result<Option<Skip>, Failure>> {
    if !takes_source(file.kind) {
        Program::Return(Ok(None))
    } else {
        match file.source {
            None => Program::Return(Ok(Some(Skip::NoSource))),
            Some(source) => Program::Ask(
                Action::SymlinkMetadata(source),
                |r: Response|
                    Program::Return(
                        Ok(
                            match metadata_in(r) {
                                Ok(metadata) => if file.kind is Copy && !(metadata.node is File) {
                                    Some(Skip::SourceUnfit)
                                } else {
                                    None
                                },
                                Err(fault) => if fault is NotFound {
                                    Some(Skip::SourceMissing)
                                } else {
                                    None
                                },
                            },
                        ),
                    ),
            ),
        }
    }
}

/// Finds out whether the source is missing, or unfit to be copied.
pub open spec fn check_source_program(file: FileView) -> Program<Result<bool, Failure>> {
    if !takes_source(file.kind) {
        Program::Return(Ok(false))
    } else {
        match file.source {
            None => Program::Return(Ok(true)),
            Some(source) => Program::Ask(
                Action::SymlinkMetadata(source),
                |r: Response|
                    Program::Return(
                        match metadata_in(r) {
                            Ok(metadata) => Ok(file.kind is Copy && !(metadata.node is File)),
                            Err(fault) => Ok(fault is NotFound),
                        },
                    ),
            ),
        }
    }
}

/// Whether permissions and ownership are as the entry says, where it says
/// anything.
pub open spec fn attributes_match(file: FileView, metadata: Metadata) -> bool {
    &&& file.permissions is Some ==> file.permissions->0 == metadata.bits()
    &&& file.uid is Some ==> file.uid->0 == metadata.uid
    &&& file.gid is Some ==> file.gid->0 == metadata.gid
}

/// Compares two paths that the file system gives.
pub open spec fn compare_paths(
    left: Action<Seq<u8>>,
    right: Action<Seq<u8>>,
) -> Program<Result<bool, Failure>> {
    and_then(
        must_find(left),
        |a: Seq<u8>|
            and_then(must_find(right), |b: Seq<u8>| Program::Return(Ok(same_path(a, b)))),
    )
}

/// Compares where a link leads with its source: both with every link resolved,
/// or what stands in the link with the source as it is written.
pub open spec fn check_link(target: Seq<u8>, source: Seq<u8>, follow: bool) -> Program<
    Result<bool, Failure>,
> {
    if follow {
        compare_paths(Action::Canonicalize(target), Action::Canonicalize(source))
    } else {
        and_then(
            must_find(Action::ReadLink(target)),
            |dest: Seq<u8>| Program::Return(Ok(same_path(dest, source))),
        )
    }
}

pub open spec fn compare_digests(left: Seq<u8>, right: Seq<u8>) -> Program<Result<bool, Failure>> {
    Program::Ask(
        Action::Digest(left),
        |a: Response|
            Program::Ask(
                Action::Digest(right),
                |b: Response|
                    Program::Return(
                        Ok(
                            match (digest_in(a), digest_in(b)) {
                                (Some(x), Some(y)) => x == y,
                                _ => false,
                            },
                        ),
                    ),
            ),
    )
}

/// Compares two files by size, and if that is the same by hash.
pub open spec fn check_contents(target: Seq<u8>, source: Seq<u8>) -> Program<
    Result<bool, Failure>,
> {
    and_then(
        must_see(target),
        |t: Metadata|
            and_then(
                must_see(source),
                |s: Metadata|
                    if t.len != s.len {
                        Program::Return(Ok(false))
                    } else {
                        compare_digests(target, source)
                    },
            ),
    )
}

/// Finds out whether the target, last seen as `metadata`, is as the entry says.
pub open spec fn check_program(file: FileView, metadata: Option<Metadata>) -> Program<
    Result<bool, Failure>,
> {
    match metadata {
        None => Program::Return(Ok(file.kind is Delete)),
        Some(seen) => if file.kind is Delete {
            Program::Return(Ok(false))
        } else if takes_source(file.kind) && file.source is None {
            Program::Return(Err(Failure::MissingSource))
        } else if !attributes_match(file, seen) {
            Program::Return(Ok(false))
        } else {
            match file.kind {
                FileKind::Symlink => check_link(
                    file.target,
                    file.source->0,
                    file.follow_symlinks != Some(false),
                ),
                FileKind::Directory => Program::Return(Ok(seen.node is Directory)),
                FileKind::Copy => if !(seen.node is File) {
                    Program::Return(Ok(false))
                } else if file.ignore_modification == Some(true) {
                    Program::Return(Ok(true))
                } else {
                    check_contents(file.target, file.source->0)
                },
                _ => Program::Return(Ok(true)),
            }
        },
    }
}

/// Looks at the target and finds out whether it is as the entry says.
pub open spec fn inspect_program(file: FileView) -> Program<Result<bool, Failure>> {
    and_then(look(file.target), |metadata: Option<Metadata>| check_program(file, metadata))
}

/// An entry with what was last seen at its target.
#[derive(Debug)]
pub struct FileWithMetadata {
    pub source: Option<PathBuf>,
    pub target: PathBuf,
    pub kind: FileKind,
    pub clobber: Option<bool>,
    pub permissions: Option<u32>,
    pub uid: Option<u32>,
    pub gid: Option<u32>,
    pub deactivate: Option<bool>,
    pub follow_symlinks: Option<bool>,
    pub ignore_modification: Option<bool>,
    pub metadata: Option<Metadata>,
}

impl View for FileWithMetadata {
    type V = FileView;

    open spec fn view(&self) -> FileView {
        FileView {
            source: path_view(self.source),
            target: self.target@,
            kind: self.kind,
            clobber: self.clobber,
            permissions: self.permissions,
            uid: self.uid,
            gid: self.gid,
            deactivate: self.deactivate,
            follow_symlinks: self.follow_symlinks,
            ignore_modification: self.ignore_modification,
        }
    }
}

impl Clone for FileWithMetadata {
    fn clone(&self) -> (copy: Self)
        ensures
            copy@ == self@,
            copy.metadata == self.metadata,
    {
        FileWithMetadata {
            source: clone_path(&self.source),
            target: self.target.clone(),
            kind: self.kind,
            clobber: self.clobber,
            permissions: self.permissions,
            uid: self.uid,
            gid: self.gid,
            deactivate: self.deactivate,
            follow_symlinks: self.follow_symlinks,
            ignore_modification: self.ignore_modification,
            metadata: self.metadata,
        }
    }
}

impl FileWithMetadata {
    /// The entry, with nothing seen at its target yet.
    pub fn from(file: &File) -> (entry: FileWithMetadata)
        ensures
            entry@ == file@,
            entry.metadata is None,
    {
        FileWithMetadata {
            source: clone_path(&file.source),
            target: file.target.clone(),
            kind: file.kind,
            clobber: file.clobber,
            permissions: file.permissions,
            uid: file.uid,
            gid: file.gid,
            deactivate: file.deactivate,
            follow_symlinks: file.follow_symlinks,
            ignore_modification: file.ignore_modification,
            metadata: None,
        }
    }

    /// Looks at the target and keeps what is there; nothing, where the target
    /// does not exist. Fails on every other fault.
    pub fn set_metadata(&mut self, replies: &mut Replies<'_>) -> (done: Result<(), Halt<PathBuf>>)
        ensures
            final(self)@ == old(self)@,
            plays(
                look(old(self)@.target),
                old(replies).rest(),
                match done {
                    Ok(_) => Ok(final(self).metadata),
                    Err(halt) => Err(halt),
                },
                final(replies).rest(),
            ),
            done is Err ==> final(self).metadata == old(self).metadata,
    {
        broadcast use group_play;

        match replies.see(&self.target)? {
            Ok(metadata) => {
                self.metadata = Some(metadata);
                Ok(())
            },
            Err(Fault::NotFound) => {
                self.metadata = None;
                Ok(())
            },
            Err(fault) => Err(Halt::Fail(Failure::Io(fault))),
        }
    }

    /// Whether activation is to be skipped because the source is absent or, for
    /// a copy, no regular file.
    pub fn check_source(&self, replies: &mut Replies<'_>) -> (skip: Result<bool, Halt<PathBuf>>)
        ensures
            plays(
                check_source_program(self@),
                old(replies).rest(),
                skip,
                final(replies).rest(),
            ),
    {
        broadcast use group_play;

        Ok(self.reason_to_skip(replies)?.is_some())
    }

    /// Why activation is to be skipped; `None` if it is not.
    pub fn reason_to_skip(&self, replies: &mut Replies<'_>) -> (skip: Result<
        Option<Skip>,
        Halt<PathBuf>,
    >)
        ensures
            plays(skip_program(self@), old(replies).rest(), skip, final(replies).rest()),
    {
        broadcast use group_play;

        if !self.kind.takes_source() {
            return Ok(None);
        }
        match &self.source {
            None => Ok(Some(Skip::NoSource)),
            Some(source) => match replies.see(source)? {
                Ok(metadata) => {
                    if self.kind == FileKind::Copy && !metadata.is_file() {
                        Ok(Some(Skip::SourceUnfit))
                    } else {
                        Ok(None)
                    }
                },
                Err(Fault::NotFound) => Ok(Some(Skip::SourceMissing)),
                Err(_) => Ok(None),
            },
        }
    }

    /// Computes [`attributes_match`].
    fn attributes_match(&self, metadata: Metadata) -> (answer: bool)
        ensures
            answer == attributes_match(self@, metadata),
    {
        if let Some(permissions) = self.permissions {
            if permissions != metadata.bits() {
                return false;
            }
        }
        if let Some(uid) = self.uid {
            if uid != metadata.uid {
                return false;
            }
        }
        if let Some(gid) = self.gid {
            if gid != metadata.gid {
                return false;
            }
        }
        true
    }

    /// Whether the target, as it was last seen, is as the entry says: of the
    /// right kind, with the right permissions and owner, and with the contents
    /// of the source.
    ///
    /// Of a copy with `ignore_modification` the contents are not compared. A
    /// link has no contents but where it leads, which is always compared.
    ///
    /// Fails where a copy or a symlink has no source, and where the file system
    /// does.
    pub fn check(&self, replies: &mut Replies<'_>) -> (correct: Result<bool, Halt<PathBuf>>)
        ensures
            plays(
                check_program(self@, self.metadata),
                old(replies).rest(),
                correct,
                final(replies).rest(),
            ),
    {
        broadcast use group_play;

        let seen = match self.metadata {
            None => return Ok(self.kind == FileKind::Delete),
            Some(seen) => seen,
        };
        if self.kind == FileKind::Delete {
            return Ok(false);
        }
        if self.kind.takes_source() && self.source.is_none() {
            return Err(Halt::Fail(Failure::MissingSource));
        }
        if !self.attributes_match(seen) {
            return Ok(false);
        }
        match (self.kind, &self.source) {
            (FileKind::Symlink, Some(source)) => {
                let follow = match self.follow_symlinks {
                    Some(choice) => choice,
                    None => true,
                };
                check_link_target(replies, &self.target, source, follow)
            },
            (FileKind::Directory, _) => Ok(seen.is_dir()),
            (FileKind::Copy, Some(source)) => {
                if !seen.is_file() {
                    return Ok(false);
                }
                if let Some(true) = self.ignore_modification {
                    return Ok(true);
                }
                check_same_contents(replies, &self.target, source)
            },
            _ => Ok(true),
        }
    }
}

impl FileWithMetadata {
    /// Looks at the target and tells whether it is as the entry says.
    pub fn inspect(&self, replies: &mut Replies<'_>) -> (correct: Result<bool, Halt<PathBuf>>)
        ensures
            plays(inspect_program(self@), old(replies).rest(), correct, final(replies).rest()),
    {
        broadcast use group_play;

        let mut current = self.clone();
        current.set_metadata(replies)?;
        current.check(replies)
    }
}

fn compare_found(
    replies: &mut Replies<'_>,
    left: Action<PathBuf>,
    right: Action<PathBuf>,
) -> (same: Result<bool, Halt<PathBuf>>)
    ensures
        plays(compare_paths(left@, right@), old(replies).rest(), same, final(replies).rest()),
{
    broadcast use group_play;

    let a = replies.must_find(left)?;
    let b = replies.must_find(right)?;
    Ok(a == b)
}

fn check_link_target(
    replies: &mut Replies<'_>,
    target: &PathBuf,
    source: &PathBuf,
    follow: bool,
) -> (same: Result<bool, Halt<PathBuf>>)
    ensures
        plays(
            check_link(target@, source@, follow),
            old(replies).rest(),
            same,
            final(replies).rest(),
        ),
{
    broadcast use group_play;

    if follow {
        compare_found(
            replies,
            Action::Canonicalize(target.clone()),
            Action::Canonicalize(source.clone()),
        )
    } else {
        let dest = replies.must_find(Action::ReadLink(target.clone()))?;
        Ok(dest == *source)
    }
}

fn same_digests(replies: &mut Replies<'_>, left: &PathBuf, right: &PathBuf) -> (same: Result<
    bool,
    Halt<PathBuf>,
>)
    ensures
        plays(compare_digests(left@, right@), old(replies).rest(), same, final(replies).rest()),
{
    broadcast use group_play;

    let a = replies.ask(Action::Digest(left.clone()))?;
    let b = replies.ask(Action::Digest(right.clone()))?;
    match (a, b) {
        (Reply::Digest(Some(x)), Reply::Digest(Some(y))) => Ok(x.same(y)),
        _ => Ok(false),
    }
}

fn check_same_contents(
    replies: &mut Replies<'_>,
    target: &PathBuf,
    source: &PathBuf,
) -> (same: Result<bool, Halt<PathBuf>>)
    ensures
        plays(check_contents(target@, source@), old(replies).rest(), same, final(replies).rest()),
{
    broadcast use group_play;

    let t = replies.must_see(target)?;
    let s = replies.must_see(source)?;
    if t.len != s.len {
        return Ok(false);
    }
    same_digests(replies, target, source)
}

/// Sets the mode where the entry gives one that the target does not have; a
/// link's own where the entry is about a link.
pub open spec fn set_mode(file: FileView, seen: Metadata) -> Program<Result<(), Failure>> {
    if file.permissions is Some && file.permissions->0 != seen.bits() {
        if file.kind is Symlink {
            must(Action::SetLinkPermissions(file.target, file.permissions->0))
        } else {
            must(Action::SetPermissions(file.target, file.permissions->0))
        }
    } else {
        Program::Return(Ok(()))
    }
}

/// Sets the owner where the entry gives one; a link's own where the target is
/// a link.
pub open spec fn set_owner(file: FileView, seen: Metadata) -> Program<Result<(), Failure>> {
    if file.uid is None && file.gid is None {
        Program::Return(Ok(()))
    } else if file.uid == Some(seen.uid) && file.gid == Some(seen.gid) {
        Program::Return(Ok(()))
    } else if seen.node is Symlink {
        must(Action::Lchown(file.target, file.uid, file.gid))
    } else {
        must(Action::Chown(file.target, file.uid, file.gid))
    }
}

/// Brings mode and owner of what is at the target into the state that the entry
/// gives; nothing at the target is a failure.
pub open spec fn chmod_chown_program(file: FileView) -> Program<Result<(), Failure>> {
    and_then(
        look(file.target),
        |metadata: Option<Metadata>|
            match metadata {
                None => Program::Return(Err(Failure::DoesNotExist)),
                Some(seen) => and_then(
                    set_mode(file, seen),
                    |_done: ()|
                        and_then(
                            look(file.target),
                            |_again: Option<Metadata>| set_owner(file, seen),
                        ),
                ),
            },
    )
}

/// Creates a directory where there is nothing; anything but a directory is a
/// failure.
pub open spec fn mkdir_program(path: Seq<u8>) -> Program<Result<(), Failure>> {
    Program::Ask(
        Action::SymlinkMetadata(path),
        |r: Response|
            match metadata_in(r) {
                Err(_) => must(Action::CreateDirAll(path)),
                Ok(metadata) => Program::Return(
                    if metadata.node is Directory {
                        Ok(())
                    } else {
                        Err(Failure::FileInTheWay)
                    },
                ),
            },
    )
}

/// Creates the directory that the target lies in, if it can be created, and
/// goes on either way.
pub open spec fn with_parent(target: Seq<u8>, next: Program<Result<(), Failure>>) -> Program<
    Result<(), Failure>,
> {
    match parent(target) {
        None => Program::Return(Err(Failure::NoParent)),
        Some(directory) => bind(mkdir_program(directory), |_r: Result<(), Failure>| next),
    }
}

/// Looks at what was made and gives it mode and owner.
pub open spec fn finish(file: FileView) -> Program<Result<(), Failure>> {
    and_then(look(file.target), |_seen: Option<Metadata>| chmod_chown_program(file))
}

/// Makes a link to `source` at the target and gives it its mode and owner.
pub open spec fn link_to(file: FileView, source: Seq<u8>) -> Program<Result<(), Failure>> {
    and_then(must(Action::Symlink(source, file.target)), |_done: ()| finish(file))
}

/// Makes the link: to where the source leads with every link resolved, or to the
/// source as it is written, if links are not to be followed.
pub open spec fn make_link(file: FileView) -> Program<Result<(), Failure>> {
    if file.follow_symlinks != Some(false) {
        and_then(
            must_find(Action::Canonicalize(file.source->0)),
            |source: Seq<u8>| link_to(file, source),
        )
    } else {
        link_to(file, file.source->0)
    }
}

pub open spec fn symlink_program(file: FileView) -> Program<Result<(), Failure>> {
    with_parent(file.target, make_link(file))
}

/// Copies `source` to the target and gives the copy its mode and owner.
pub open spec fn copy_from(file: FileView, source: Seq<u8>) -> Program<Result<(), Failure>> {
    and_then(must(Action::Copy(source, file.target)), |_done: ()| finish(file))
}

/// Resolves the source and copies it.
pub open spec fn make_copy(file: FileView) -> Program<Result<(), Failure>> {
    and_then(
        must_find(Action::Canonicalize(file.source->0)),
        |source: Seq<u8>| copy_from(file, source),
    )
}

pub open spec fn copy_program(file: FileView) -> Program<Result<(), Failure>> {
    with_parent(file.target, make_copy(file))
}

pub open spec fn directory_program(file: FileView) -> Program<Result<(), Failure>> {
    and_then(mkdir_program(file.target), |_done: ()| finish(file))
}

/// Removes a node: a directory with all that is in it.
pub open spec fn delete_program(path: Seq<u8>, metadata: Metadata) -> Program<
    Result<(), Failure>,
> {
    if metadata.node is Directory {
        must(Action::RemoveDirAll(path))
    } else {
        must(Action::RemoveFile(path))
    }
}

/// Where the backup of `path` goes: beside it, with the prefix put in front of
/// the name.
pub open spec fn backup_path(path: Seq<u8>, prefix: Seq<u8>) -> Seq<u8> {
    joined(parent(path)->0, prefix + file_name(path)->0)
}

/// Removes what is at `path`, if anything.
pub open spec fn clear(path: Seq<u8>) -> Program<Result<(), Failure>> {
    Program::Ask(
        Action::SymlinkMetadata(path),
        |r: Response|
            match metadata_in(r) {
                Ok(metadata) => delete_program(path, metadata),
                Err(_) => Program::Return(Ok(())),
            },
    )
}

/// Moves what is at `path` to its backup path, over an earlier backup; nothing
/// at `path` is no failure.
pub open spec fn prefix_move_program(path: Seq<u8>, prefix: Seq<u8>) -> Program<
    Result<(), Failure>,
> {
    Program::Ask(
        Action::SymlinkMetadata(path),
        |r: Response|
            if metadata_in(r) is Err {
                Program::Return(Ok(()))
            } else if file_name(path) is None {
                Program::Return(Err(Failure::NoFileName))
            } else {
                and_then(
                    clear(backup_path(path, prefix)),
                    |_done: ()| must(Action::Rename(path, backup_path(path, prefix))),
                )
            },
    )
}

impl FileWithMetadata {
    fn set_mode(&self, replies: &mut Replies<'_>, seen: Metadata) -> (done: Result<
        (),
        Halt<PathBuf>,
    >)
        ensures
            plays(set_mode(self@, seen), old(replies).rest(), done, final(replies).rest()),
    {
        broadcast use group_play;

        if let Some(mode) = self.permissions {
            if mode != seen.bits() {
                if self.kind == FileKind::Symlink {
                    return replies.must(Action::SetLinkPermissions(self.target.clone(), mode));
                }
                return replies.must(Action::SetPermissions(self.target.clone(), mode));
            }
        }
        Ok(())
    }

    fn set_owner(&self, replies: &mut Replies<'_>, seen: Metadata) -> (done: Result<
        (),
        Halt<PathBuf>,
    >)
        ensures
            plays(set_owner(self@, seen), old(replies).rest(), done, final(replies).rest()),
    {
        broadcast use group_play;

        if self.uid.is_none() && self.gid.is_none() {
            return Ok(());
        }
        if let (Some(uid), Some(gid)) = (self.uid, self.gid) {
            if uid == seen.uid && gid == seen.gid {
                return Ok(());
            }
        }
        if seen.is_symlink() {
            replies.must(Action::Lchown(self.target.clone(), self.uid, self.gid))
        } else {
            replies.must(Action::Chown(self.target.clone(), self.uid, self.gid))
        }
    }

    /// Looks at the target and keeps what is there in `seen`.
    fn look(&self, seen: &mut Option<Metadata>, replies: &mut Replies<'_>) -> (found: Result<
        Option<Metadata>,
        Halt<PathBuf>,
    >)
        ensures
            plays(look(self@.target), old(replies).rest(), found, final(replies).rest()),
            *final(seen) == kept_by_look(self@.target, old(replies).rest(), *old(seen)),
            found matches Ok(metadata) ==> *final(seen) == metadata,
    {
        broadcast use group_play;

        match replies.see(&self.target)? {
            Ok(metadata) => {
                *seen = Some(metadata);
                Ok(Some(metadata))
            },
            Err(Fault::NotFound) => {
                *seen = None;
                Ok(None)
            },
            Err(fault) => Err(Halt::Fail(Failure::Io(fault))),
        }
    }

    /// Ends an operation: unless it waits for a reply, `seen` is kept.
    fn keep<T>(&mut self, done: &Result<T, Halt<PathBuf>>, seen: Option<Metadata>)
        ensures
            final(self)@ == old(self)@,
            keeps(*done, old(self).metadata, final(self).metadata, seen),
    {
        if let Err(Halt::Ask(_)) = done {
        } else {
            self.metadata = seen;
        }
    }

    fn apply_attributes(&self, seen: &mut Option<Metadata>, replies: &mut Replies<'_>) -> (done:
        Result<(), Halt<PathBuf>>)
        ensures
            plays(chmod_chown_program(self@), old(replies).rest(), done, final(replies).rest()),
            !(done matches Err(Halt::Ask(_))) ==> *final(seen) == kept_by_attributes(
                self@,
                old(replies).rest(),
                *old(seen),
            ),
    {
        broadcast use group_play;

        match self.look(seen, replies)? {
            None => Err(Halt::Fail(Failure::DoesNotExist)),
            Some(found) => {
                self.set_mode(replies, found)?;
                let _ = self.look(seen, replies)?;
                self.set_owner(replies, found)
            },
        }
    }

    fn finish(&self, seen: &mut Option<Metadata>, replies: &mut Replies<'_>) -> (done: Result<
        (),
        Halt<PathBuf>,
    >)
        ensures
            plays(finish(self@), old(replies).rest(), done, final(replies).rest()),
            !(done matches Err(Halt::Ask(_))) ==> *final(seen) == kept_by_finish(
                self@,
                old(replies).rest(),
                *old(seen),
            ),
    {
        broadcast use group_play;

        let _ = self.look(seen, replies)?;
        self.apply_attributes(seen, replies)
    }

    fn make_link(&self, seen: &mut Option<Metadata>, replies: &mut Replies<'_>) -> (done: Result<
        (),
        Halt<PathBuf>,
    >)
        requires
            self.source is Some,
        ensures
            plays(symlink_program(self@), old(replies).rest(), done, final(replies).rest()),
            !(done matches Err(Halt::Ask(_))) ==> *final(seen) == kept_by_link(
                self@,
                old(replies).rest(),
                *old(seen),
            ),
    {
        broadcast use group_play;

        if let Some(source) = &self.source {
            make_parent(replies, &self.target)?;
            let follow = match self.follow_symlinks {
                Some(choice) => choice,
                None => true,
            };
            let dest = if follow {
                replies.must_find(Action::Canonicalize(source.clone()))?
            } else {
                source.clone()
            };
            replies.must(Action::Symlink(dest, self.target.clone()))?;
        }
        self.finish(seen, replies)
    }

    fn make_copy(&self, seen: &mut Option<Metadata>, replies: &mut Replies<'_>) -> (done: Result<
        (),
        Halt<PathBuf>,
    >)
        requires
            self.source is Some,
        ensures
            plays(copy_program(self@), old(replies).rest(), done, final(replies).rest()),
            !(done matches Err(Halt::Ask(_))) ==> *final(seen) == kept_by_copy(
                self@,
                old(replies).rest(),
                *old(seen),
            ),
    {
        broadcast use group_play;

        if let Some(source) = &self.source {
            make_parent(replies, &self.target)?;
            let resolved = replies.must_find(Action::Canonicalize(source.clone()))?;
            replies.must(Action::Copy(resolved, self.target.clone()))?;
        }
        self.finish(seen, replies)
    }

    fn make_directory(&self, seen: &mut Option<Metadata>, replies: &mut Replies<'_>) -> (done:
        Result<(), Halt<PathBuf>>)
        ensures
            plays(directory_program(self@), old(replies).rest(), done, final(replies).rest()),
            !(done matches Err(Halt::Ask(_))) ==> *final(seen) == kept_by_directory(
                self@,
                old(replies).rest(),
                *old(seen),
            ),
    {
        broadcast use group_play;

        mkdir(&self.target, replies)?;
        self.finish(seen, replies)
    }

    /// Applies the permissions and the owner of the entry to the target, and
    /// keeps what is seen there. Where the target is a link, it gets the owner
    /// itself; it gets the permissions itself if the entry is about a link, and
    /// what it leads to gets them otherwise.
    pub fn chmod_chown(&mut self, replies: &mut Replies<'_>) -> (done: Result<(), Halt<PathBuf>>)
        ensures
            plays(
                chmod_chown_program(old(self)@),
                old(replies).rest(),
                done,
                final(replies).rest(),
            ),
            final(self)@ == old(self)@,
            keeps(
                done,
                old(self).metadata,
                final(self).metadata,
                kept_by_attributes(old(self)@, old(replies).rest(), old(self).metadata),
            ),
    {
        let mut seen = self.metadata;
        let done = self.apply_attributes(&mut seen, replies);
        self.keep(&done, seen);
        done
    }

    /// Makes a link at the target that points to the source, then applies
    /// permissions and owner. What is seen of the link is kept.
    ///
    /// With `follow_symlinks` set to `false` the source as it is written stands
    /// in the link; otherwise the source with every link resolved.
    pub fn symlink(&mut self, replies: &mut Replies<'_>) -> (done: Result<(), Halt<PathBuf>>)
        requires
            old(self).source is Some,
        ensures
            plays(symlink_program(old(self)@), old(replies).rest(), done, final(replies).rest()),
            final(self)@ == old(self)@,
            keeps(
                done,
                old(self).metadata,
                final(self).metadata,
                kept_by_link(old(self)@, old(replies).rest(), old(self).metadata),
            ),
    {
        let mut seen = self.metadata;
        let done = self.make_link(&mut seen, replies);
        self.keep(&done, seen);
        done
    }

    /// Copies the source to the target, then applies permissions and owner.
    /// What is seen of the copy is kept.
    pub fn copy(&mut self, replies: &mut Replies<'_>) -> (done: Result<(), Halt<PathBuf>>)
        requires
            old(self).source is Some,
        ensures
            plays(copy_program(old(self)@), old(replies).rest(), done, final(replies).rest()),
            final(self)@ == old(self)@,
            keeps(
                done,
                old(self).metadata,
                final(self).metadata,
                kept_by_copy(old(self)@, old(replies).rest(), old(self).metadata),
            ),
    {
        let mut seen = self.metadata;
        let done = self.make_copy(&mut seen, replies);
        self.keep(&done, seen);
        done
    }

    /// Creates the target as a directory, then applies permissions and owner.
    /// What is seen of the directory is kept.
    pub fn directory(&mut self, replies: &mut Replies<'_>) -> (done: Result<(), Halt<PathBuf>>)
        ensures
            plays(directory_program(old(self)@), old(replies).rest(), done, final(replies).rest()),
            final(self)@ == old(self)@,
            keeps(
                done,
                old(self).metadata,
                final(self).metadata,
                kept_by_directory(old(self)@, old(replies).rest(), old(self).metadata),
            ),
    {
        let mut seen = self.metadata;
        let done = self.make_directory(&mut seen, replies);
        self.keep(&done, seen);
        done
    }
}

/// Creates `path` as a directory, with any missing parents; a directory that
/// is there already is left alone.
pub fn mkdir(path: &PathBuf, replies: &mut Replies<'_>) -> (done: Result<(), Halt<PathBuf>>)
    ensures
        plays(mkdir_program(path@), old(replies).rest(), done, final(replies).rest()),
{
    broadcast use group_play;

    match replies.see(path)? {
        Err(_) => replies.must(Action::CreateDirAll(path.clone())),
        Ok(metadata) => {
            if metadata.is_dir() {
                Ok(())
            } else {
                Err(Halt::Fail(Failure::FileInTheWay))
            }
        },
    }
}

/// Creates the directory that `target` lies in; a failure to do so does not
/// count.
fn make_parent(replies: &mut Replies<'_>, target: &PathBuf) -> (done: Result<(), Halt<PathBuf>>)
    ensures
        match done {
            Ok(_) => forall|next: Program<Result<(), Failure>>|
                play(#[trigger] with_parent(target@, next), old(replies).rest()) == play(
                    next,
                    final(replies).rest(),
                ),
            Err(halt) => forall|next: Program<Result<(), Failure>>|
                plays(
                    #[trigger] with_parent(target@, next),
                    old(replies).rest(),
                    Err(halt),
                    final(replies).rest(),
                ),
        },
{
    broadcast use group_play;

    match target.parent() {
        None => Err(Halt::Fail(Failure::NoParent)),
        Some(directory) => match mkdir(&directory, replies) {
            Err(Halt::Ask(action)) => Err(Halt::Ask(action)),
            _ => Ok(()),
        },
    }
}

/// Removes the node at `path`, which was last seen as `metadata`: a directory
/// with all that is in it.
pub fn delete(path: &PathBuf, metadata: Metadata, replies: &mut Replies<'_>) -> (done: Result<
    (),
    Halt<PathBuf>,
>)
    ensures
        plays(delete_program(path@, metadata), old(replies).rest(), done, final(replies).rest()),
{
    if metadata.is_dir() {
        replies.must(Action::RemoveDirAll(path.clone()))
    } else {
        replies.must(Action::RemoveFile(path.clone()))
    }
}

fn clear_path(path: &PathBuf, replies: &mut Replies<'_>) -> (done: Result<(), Halt<PathBuf>>)
    ensures
        plays(clear(path@), old(replies).rest(), done, final(replies).rest()),
{
    broadcast use group_play;

    match replies.see(path)? {
        Ok(metadata) => delete(path, metadata, replies),
        Err(_) => Ok(()),
    }
}

/// Moves what is at `path` aside: to the same directory, under its name with
/// `prefix` in front. What was there under that name is removed.
pub fn prefix_move(path: &PathBuf, prefix: &str, replies: &mut Replies<'_>) -> (done: Result<
    (),
    Halt<PathBuf>,
>)
    ensures
        plays(
            prefix_move_program(path@, encode_utf8(prefix@)),
            old(replies).rest(),
            done,
            final(replies).rest(),
        ),
{
    broadcast use group_play;

    match replies.see(path)? {
        Err(_) => Ok(()),
        Ok(_) => match (path.file_name(), path.parent()) {
            (Some(name), Some(directory)) => {
                let mut appended = vstd::slice::slice_to_vec(prefix.as_bytes());
                appended.extend_from_slice(name.as_slice());
                proof {
                    assert(appended@ =~= encode_utf8(prefix@) + name@);
                }
                let backup = directory.join(&appended);
                clear_path(&backup, replies)?;
                replies.must(Action::Rename(path.clone(), backup))
            },
            _ => Err(Halt::Fail(Failure::NoFileName)),
        },
    }
}

/// Makes a copy or a link at the entry's target.
pub open spec fn place(file: FileView) -> Program<Result<(), Failure>> {
    match file.kind {
        FileKind::Symlink => symlink_program(file),
        _ => copy_program(file),
    }
}

/// The entry with another target.
pub open spec fn at(file: FileView, target: Seq<u8>) -> FileView {
    FileView { target, ..file }
}

/// Gives a temporary file up.
pub open spec fn discard(temporary: Seq<u8>, failure: Failure) -> Program<Result<bool, Failure>> {
    Program::Ask(
        Action::RemoveFile(temporary),
        |_r: Response| Program::Return(Err::<bool, Failure>(failure)),
    )
}

/// Makes the new file at `temporary`, then renames it over the target.
pub open spec fn swap_with(file: FileView, temporary: Seq<u8>) -> Program<Result<bool, Failure>> {
    bind(
        place(at(file, temporary)),
        |placed: Result<(), Failure>|
            match placed {
                Err(failure) => discard(temporary, failure),
                Ok(_) => Program::Ask(
                    Action::Rename(temporary, file.target),
                    |r: Response|
                        match done_in(r) {
                            Ok(_) => Program::Return(Ok(true)),
                            Err(fault) => discard(temporary, Failure::Io(fault)),
                        },
                ),
            },
    )
}

pub open spec fn swap(file: FileView) -> Program<Result<bool, Failure>> {
    Program::Fresh(file.target, None, |temporary: Seq<u8>| swap_with(file, temporary))
}

pub open spec fn is_populated(path: Seq<u8>) -> Program<Result<bool, Failure>> {
    Program::Ask(
        Action::IsPopulated(path),
        |r: Response|
            Program::Return(
                match answer_in(r) {
                    Ok(answer) => Ok(answer),
                    Err(fault) => Err(Failure::Io(fault)),
                },
            ),
    )
}

/// Replaces the target, last seen as `seen`, in one step; returns whether that
/// was done. It is not done where a directory and something else would take
/// each other's place, nor for a directory that is not empty.
pub open spec fn atomic_activate_program(file: FileView, seen: Metadata) -> Program<
    Result<bool, Failure>,
> {
    if !takes_source(file.kind) {
        Program::Return(Ok(false))
    } else {
        and_then(
            must_see(file.source->0),
            |source: Metadata|
                if (seen.node is Directory) != (source.node is Directory) {
                    Program::Return(Ok(false))
                } else if seen.node is Directory {
                    and_then(
                        is_populated(file.source->0),
                        |populated: bool|
                            if populated {
                                Program::Return(Ok(false))
                            } else {
                                swap(file)
                            },
                    )
                } else {
                    swap(file)
                },
        )
    }
}

/// Whether what is at the target has to go before the entry is put there.
/// Directories stay where directories are wanted.
pub open spec fn in_the_way(kind: FileKind, seen: Metadata) -> bool {
    match kind {
        FileKind::Copy => true,
        FileKind::Symlink => true,
        FileKind::Directory => !(seen.node is Directory),
        FileKind::Modify => false,
        FileKind::Delete => false,
    }
}

/// Whether the entry itself asks that what is at the target be kept, which only
/// a copy can.
pub open spec fn keeps_existing(file: FileView) -> bool {
    file.kind is Copy && file.clobber == Some(false)
}

/// Finds out whether the node at `path`, last seen as `seen`, is a link that
/// leads nowhere.
pub open spec fn dangling_program(path: Seq<u8>, seen: Metadata) -> Program<
    Result<bool, Failure>,
> {
    if seen.node is Symlink {
        Program::Ask(
            Action::Exists(path),
            |r: Response| Program::Return(Ok(answer_in(r) == Ok::<bool, Fault>(false))),
        )
    } else {
        Program::Return(Ok(false))
    }
}

/// Removes what is at the target and reports that the way is free.
pub open spec fn remove_existing(file: FileView, seen: Metadata) -> Program<
    Result<bool, Failure>,
> {
    and_then(delete_program(file.target, seen), |_done: ()| Program::Return(Ok(true)))
}

/// Moves what is at the target to its backup path and reports that the way is
/// free.
pub open spec fn move_aside(file: FileView, prefix: Seq<u8>) -> Program<Result<bool, Failure>> {
    and_then(prefix_move_program(file.target, prefix), |_done: ()| Program::Return(Ok(true)))
}

/// Frees the target, last seen as `metadata`, and returns whether it is free.
///
/// What is in the way is removed if it may be thrown away, and moved aside
/// otherwise. A copy with `clobber` set to `false` leaves what is there alone
/// instead, unless that is a link that leads nowhere: such a link is removed.
pub open spec fn make_way(
    file: FileView,
    metadata: Option<Metadata>,
    clobber: bool,
    prefix: Seq<u8>,
) -> Program<Result<bool, Failure>> {
    match metadata {
        None => Program::Return(Ok(true)),
        Some(seen) => if !in_the_way(file.kind, seen) {
            Program::Return(Ok(true))
        } else if clobber {
            remove_existing(file, seen)
        } else if !keeps_existing(file) {
            move_aside(file, prefix)
        } else {
            and_then(
                dangling_program(file.target, seen),
                |dangling: bool|
                    if dangling {
                        remove_existing(file, seen)
                    } else {
                        Program::Return(Ok(false))
                    },
            )
        },
    }
}

/// Puts the entry at its target.
pub open spec fn install(file: FileView, metadata: Option<Metadata>) -> Program<
    Result<(), Failure>,
> {
    match file.kind {
        FileKind::Directory => directory_program(file),
        FileKind::Copy => copy_program(file),
        FileKind::Symlink => symlink_program(file),
        FileKind::Modify => chmod_chown_program(file),
        FileKind::Delete => match metadata {
            Some(seen) => delete_program(file.target, seen),
            None => Program::Return(Ok(())),
        },
    }
}

/// Replaces what is at the target in one step, if it may be thrown away.
pub open spec fn try_swap(file: FileView, metadata: Option<Metadata>, clobber: bool) -> Program<
    Result<bool, Failure>,
> {
    match metadata {
        Some(seen) => if clobber {
            atomic_activate_program(file, seen)
        } else {
            Program::Return(Ok(false))
        },
        None => Program::Return(Ok(false)),
    }
}

/// Frees the target and puts the entry there.
pub open spec fn replace(
    file: FileView,
    metadata: Option<Metadata>,
    clobber: bool,
    prefix: Seq<u8>,
) -> Program<Result<(), Failure>> {
    and_then(
        make_way(file, metadata, clobber, prefix),
        |free: bool|
            if free {
                install(file, metadata)
            } else {
                Program::Return(Ok(()))
            },
    )
}

/// Puts the entry at its target unless the target is as the entry says.
pub open spec fn correct(
    file: FileView,
    metadata: Option<Metadata>,
    clobber: bool,
    prefix: Seq<u8>,
) -> Program<Result<(), Failure>> {
    bind(
        check_program(file, metadata),
        |checked: Result<bool, Failure>|
            if checked == Ok::<bool, Failure>(true) {
                Program::Return(Ok(()))
            } else {
                replace(file, metadata, clobber, prefix)
            },
    )
}

/// Brings the target, last seen as `metadata`, into the state that the entry
/// describes: in one step if that can be done, else step by step.
pub open spec fn bring_about(
    file: FileView,
    metadata: Option<Metadata>,
    clobber: bool,
    prefix: Seq<u8>,
) -> Program<Result<(), Failure>> {
    and_then(
        try_swap(file, metadata, clobber),
        |swapped: bool|
            if swapped {
                Program::Return(Ok(()))
            } else {
                correct(file, metadata, clobber, prefix)
            },
    )
}

/// Brings the target of an entry that is not skipped into the state that the
/// entry describes.
pub open spec fn proceed_program(
    file: FileView,
    clobber_by_default: Option<bool>,
    prefix: Seq<u8>,
) -> Program<Result<(), Failure>> {
    and_then(
        look(file.target),
        |metadata: Option<Metadata>|
            bring_about(file, metadata, clobbers(file.clobber, clobber_by_default), prefix),
    )
}

/// Brings the target into the state that the entry describes.
pub open spec fn activate_program(
    file: FileView,
    clobber_by_default: Option<bool>,
    prefix: Seq<u8>,
) -> Program<Result<(), Failure>> {
    and_then(
        check_source_program(file),
        |skip: bool|
            if skip {
                Program::Return(Ok(()))
            } else {
                proceed_program(file, clobber_by_default, prefix)
            },
    )
}

/// Takes away what the entry made.
pub open spec fn uninstall(file: FileView, seen: Metadata) -> Program<Result<(), Failure>> {
    match file.kind {
        FileKind::Delete => Program::Return(Ok(())),
        FileKind::Modify => Program::Return(Ok(())),
        FileKind::Directory => if seen.node is Directory {
            must(Action::RemoveDir(file.target))
        } else {
            Program::Return(Err(Failure::NotADirectory))
        },
        FileKind::Symlink => delete_program(file.target, seen),
        FileKind::Copy => delete_program(file.target, seen),
    }
}

/// Takes away what the entry made, if the target, last seen as `metadata`, is
/// still as it was made. Deletes and modifies make nothing that could be taken
/// away.
pub open spec fn withdraw(file: FileView, metadata: Option<Metadata>) -> Program<
    Result<(), Failure>,
> {
    match metadata {
        None => Program::Return(Ok(())),
        Some(seen) => if file.kind is Delete || file.kind is Modify {
            Program::Return(Ok(()))
        } else {
            and_then(
                check_program(file, metadata),
                |same: bool|
                    if same {
                        uninstall(file, seen)
                    } else {
                        Program::Return(Err(Failure::Modified))
                    },
            )
        },
    }
}

/// Takes away what the entry made, unless it is to be left alone.
pub open spec fn deactivate_program(file: FileView) -> Program<Result<(), Failure>> {
    if file.deactivate == Some(false) {
        Program::Return(Ok(()))
    } else {
        and_then(look(file.target), |metadata: Option<Metadata>| withdraw(file, metadata))
    }
}

/// Whether the node at `path`, which was last seen as `seen`, is a link that
/// leads nowhere.
pub fn is_dangling_symlink(path: &PathBuf, seen: Metadata, replies: &mut Replies<'_>) -> (answer:
    Result<bool, Halt<PathBuf>>)
    ensures
        plays(dangling_program(path@, seen), old(replies).rest(), answer, final(replies).rest()),
{
    broadcast use group_play;

    if !seen.is_symlink() {
        return Ok(false);
    }
    match replies.inquire(Action::Exists(path.clone()))? {
        Ok(exists) => Ok(!exists),
        Err(_) => Ok(false),
    }
}

/// Draws random paths beside `target` until one of them is free.
fn fresh_path(target: &PathBuf, replies: &mut Replies<'_>) -> (path: Result<
    PathBuf,
    Halt<PathBuf>,
>)
    ensures
        match path {
            Ok(found) => drawn(old(replies).rest()) == Some((found@, final(replies).rest()))
                && forall|go: spec_fn(Seq<u8>) -> Program<Result<bool, Failure>>|
                #[trigger] play(Program::Fresh(target@, None, go), old(replies).rest()) == play(
                    go(found@),
                    final(replies).rest(),
                ),
            Err(Halt::Ask(action)) => forall|
                go: spec_fn(Seq<u8>) -> Program<Result<bool, Failure>>,
            |
                {
                    let left = (#[trigger] play(
                        Program::Fresh(target@, None, go),
                        old(replies).rest(),
                    )).0;
                    !(left is Return) && request(left) == Some(action@)
                },
            Err(Halt::Fail(_)) => false,
        },
{
    loop
        invariant
            drawn(old(replies).rest()) == drawn(replies.rest()),
            forall|go: spec_fn(Seq<u8>) -> Program<Result<bool, Failure>>|
                #[trigger] play(Program::Fresh(target@, None, go), old(replies).rest()) == play(
                    Program::Fresh(target@, None, go),
                    replies.rest(),
                ),
        decreases replies.rest().len(),
    {
        broadcast use group_play;

        let drawn = replies.ask(Action::PickTemporary(target.clone()))?;
        if let Reply::Candidate(candidate) = drawn {
            match replies.ask(Action::Exists(candidate.clone()))? {
                Reply::Answer(Ok(true)) => {},
                Reply::Answer(_) => return Ok(candidate.clone()),
                _ => {},
            }
        }
    }
}

impl FileWithMetadata {
    fn give_up(temporary: PathBuf, failure: Failure, replies: &mut Replies<'_>) -> (done: Result<
        bool,
        Halt<PathBuf>,
    >)
        ensures
            plays(discard(temporary@, failure), old(replies).rest(), done, final(replies).rest()),
    {
        broadcast use group_play;

        let _ = replies.ask(Action::RemoveFile(temporary))?;
        Err(Halt::Fail(failure))
    }

    fn swap_with(
        &self,
        temporary: PathBuf,
        seen: &mut Option<Metadata>,
        replies: &mut Replies<'_>,
    ) -> (done: Result<bool, Halt<PathBuf>>)
        requires
            self.source is Some,
            takes_source(self.kind),
        ensures
            plays(
                swap_with(self@, temporary@),
                old(replies).rest(),
                done,
                final(replies).rest(),
            ),
            !(done matches Err(Halt::Ask(_))) ==> *final(seen) == if done == Ok::<
                bool,
                Halt<PathBuf>,
            >(true) {
                kept_by_place(at(self@, temporary@), old(replies).rest(), *old(seen))
            } else {
                *old(seen)
            },
    {
        broadcast use group_play;

        let mut aside = self.clone();
        aside.target = temporary.clone();
        proof {
            assert(aside@ == at(self@, temporary@));
        }
        let mut made = *seen;
        let placed = if aside.kind == FileKind::Symlink {
            aside.make_link(&mut made, replies)
        } else {
            aside.make_copy(&mut made, replies)
        };
        match placed {
            Err(Halt::Ask(action)) => Err(Halt::Ask(action)),
            Err(Halt::Fail(failure)) => Self::give_up(temporary, failure, replies),
            Ok(_) => match replies.ask(Action::Rename(temporary.clone(), self.target.clone()))? {
                Reply::Done(Ok(_)) => {
                    *seen = made;
                    Ok(true)
                },
                Reply::Done(Err(fault)) => Self::give_up(temporary, Failure::Io(*fault), replies),
                _ => Self::give_up(temporary, Failure::Io(Fault::Mismatch), replies),
            },
        }
    }

    fn swap(&self, seen: &mut Option<Metadata>, replies: &mut Replies<'_>) -> (done: Result<
        bool,
        Halt<PathBuf>,
    >)
        requires
            self.source is Some,
            takes_source(self.kind),
        ensures
            plays(swap(self@), old(replies).rest(), done, final(replies).rest()),
            !(done matches Err(Halt::Ask(_))) ==> *final(seen) == kept_by_swap(
                self@,
                old(replies).rest(),
                *old(seen),
            ),
    {
        broadcast use group_play;

        let temporary = fresh_path(&self.target, replies)?;
        self.swap_with(temporary, seen, replies)
    }

    /// Replaces the target, last seen as `found`, in one step if that can be done.
    fn try_atomic(
        &self,
        found: Metadata,
        seen: &mut Option<Metadata>,
        replies: &mut Replies<'_>,
    ) -> (done: Result<bool, Halt<PathBuf>>)
        requires
            takes_source(self.kind) ==> self.source is Some,
        ensures
            plays(
                atomic_activate_program(self@, found),
                old(replies).rest(),
                done,
                final(replies).rest(),
            ),
            !(done matches Err(Halt::Ask(_))) ==> *final(seen) == kept_by_atomic(
                self@,
                found,
                old(replies).rest(),
                *old(seen),
            ),
    {
        broadcast use group_play;

        if !self.kind.takes_source() {
            return Ok(false);
        }
        if let Some(path) = &self.source {
            let source = replies.must_see(path)?;
            if found.is_dir() != source.is_dir() {
                return Ok(false);
            }
            if found.is_dir() {
                match replies.inquire(Action::IsPopulated(path.clone()))? {
                    Err(fault) => return Err(Halt::Fail(Failure::Io(fault))),
                    Ok(populated) => {
                        if populated {
                            return Ok(false);
                        }
                    },
                }
            }
        }
        self.swap(seen, replies)
    }

    /// Replaces an existing target in one step: the new file is made under a
    /// random name in the same directory, then renamed over the target. Returns
    /// whether that was done; it is not done for kinds without a source, nor
    /// where a directory and something else would take each other's place.
    /// What is seen of the new file is kept when it is in place.
    ///
    /// The target must have been seen, and a copy or a symlink must have a
    /// source.
    pub fn atomic_activate(&mut self, replies: &mut Replies<'_>) -> (done: Result<
        bool,
        Halt<PathBuf>,
    >)
        requires
            takes_source(old(self).kind) ==> old(self).metadata is Some && old(self).source is Some,
        ensures
            plays(
                atomic_activate_program(old(self)@, old(self).metadata->0),
                old(replies).rest(),
                done,
                final(replies).rest(),
            ),
            final(self)@ == old(self)@,
            keeps(
                done,
                old(self).metadata,
                final(self).metadata,
                kept_by_atomic(
                    old(self)@,
                    old(self).metadata->0,
                    old(replies).rest(),
                    old(self).metadata,
                ),
            ),
    {
        broadcast use group_play;

        let found = match self.metadata {
            None => return Ok(false),
            Some(found) => found,
        };
        let mut seen = self.metadata;
        let done = self.try_atomic(found, &mut seen, replies);
        self.keep(&done, seen);
        done
    }

    fn remove_existing(&self, seen: Metadata, replies: &mut Replies<'_>) -> (done: Result<
        bool,
        Halt<PathBuf>,
    >)
        ensures
            plays(remove_existing(self@, seen), old(replies).rest(), done, final(replies).rest()),
    {
        broadcast use group_play;

        delete(&self.target, seen, replies)?;
        Ok(true)
    }

    fn make_way(&self, clobber: bool, prefix: &str, replies: &mut Replies<'_>) -> (free: Result<
        bool,
        Halt<PathBuf>,
    >)
        ensures
            plays(
                make_way(self@, self.metadata, clobber, encode_utf8(prefix@)),
                old(replies).rest(),
                free,
                final(replies).rest(),
            ),
    {
        broadcast use group_play;

        let seen = match self.metadata {
            None => return Ok(true),
            Some(seen) => seen,
        };
        let blocked = match self.kind {
            FileKind::Copy | FileKind::Symlink => true,
            FileKind::Directory => !seen.is_dir(),
            FileKind::Modify | FileKind::Delete => false,
        };
        if !blocked {
            return Ok(true);
        }
        if clobber {
            return self.remove_existing(seen, replies);
        }
        let keeps = match self.clobber {
            Some(choice) => self.kind == FileKind::Copy && !choice,
            None => false,
        };
        if !keeps {
            prefix_move(&self.target, prefix, replies)?;
            return Ok(true);
        }
        if is_dangling_symlink(&self.target, seen, replies)? {
            return self.remove_existing(seen, replies);
        }
        Ok(false)
    }

    fn install(
        &self,
        found: Option<Metadata>,
        seen: &mut Option<Metadata>,
        replies: &mut Replies<'_>,
    ) -> (done: Result<(), Halt<PathBuf>>)
        requires
            takes_source(self.kind) ==> self.source is Some,
        ensures
            plays(install(self@, found), old(replies).rest(), done, final(replies).rest()),
            !(done matches Err(Halt::Ask(_))) ==> *final(seen) == kept_by_install(
                self@,
                old(replies).rest(),
                *old(seen),
            ),
    {
        broadcast use group_play;

        match self.kind {
            FileKind::Directory => self.make_directory(seen, replies),
            FileKind::Copy => self.make_copy(seen, replies),
            FileKind::Symlink => self.make_link(seen, replies),
            FileKind::Modify => self.apply_attributes(seen, replies),
            FileKind::Delete => match found {
                Some(metadata) => delete(&self.target, metadata, replies),
                None => Ok(()),
            },
        }
    }

    /// Puts the entry, whose target was seen, in place unless it is there
    /// already.
    fn set_right(
        &self,
        clobber: bool,
        prefix: &str,
        seen: &mut Option<Metadata>,
        replies: &mut Replies<'_>,
    ) -> (done: Result<(), Halt<PathBuf>>)
        requires
            takes_source(self.kind) ==> self.source is Some,
            *old(seen) == self.metadata,
        ensures
            plays(
                correct(self@, self.metadata, clobber, encode_utf8(prefix@)),
                old(replies).rest(),
                done,
                final(replies).rest(),
            ),
            !(done matches Err(Halt::Ask(_))) ==> *final(seen) == kept_by_correction(
                self@,
                self.metadata,
                clobber,
                encode_utf8(prefix@),
                old(replies).rest(),
            ),
    {
        broadcast use group_play;

        match self.check(replies) {
            Err(Halt::Ask(action)) => return Err(Halt::Ask(action)),
            Ok(true) => return Ok(()),
            _ => {},
        }
        if self.make_way(clobber, prefix, replies)? {
            self.install(self.metadata, seen, replies)
        } else {
            Ok(())
        }
    }

    fn bring_about(
        &self,
        clobber: bool,
        prefix: &str,
        seen: &mut Option<Metadata>,
        replies: &mut Replies<'_>,
    ) -> (done: Result<(), Halt<PathBuf>>)
        requires
            takes_source(self.kind) ==> self.source is Some,
            *old(seen) == self.metadata,
        ensures
            plays(
                bring_about(self@, self.metadata, clobber, encode_utf8(prefix@)),
                old(replies).rest(),
                done,
                final(replies).rest(),
            ),
            !(done matches Err(Halt::Ask(_))) ==> *final(seen) == kept_by_bringing_about(
                self@,
                self.metadata,
                clobber,
                encode_utf8(prefix@),
                old(replies).rest(),
            ),
    {
        broadcast use group_play;

        let mut made = self.metadata;
        if let Some(found) = self.metadata {
            if clobber {
                if self.try_atomic(found, &mut made, replies)? {
                    *seen = made;
                    return Ok(());
                }
            }
        }
        self.set_right(clobber, prefix, seen, replies)
    }

    /// Brings the target into the state that the entry describes.
    ///
    /// An entry whose source is missing is skipped. Where what is at the target
    /// may be thrown away, it is replaced in one step if that is possible. A
    /// target that is as the entry says is left alone. Otherwise what is in the
    /// way is removed or moved aside, and the entry is put in its place. A copy
    /// with `clobber` set to `false` keeps what is there. What was last looked
    /// up of the target is kept.
    pub fn activate(
        &mut self,
        clobber_by_default: Option<bool>,
        prefix: &str,
        replies: &mut Replies<'_>,
    ) -> (done: Result<(), Halt<PathBuf>>)
        ensures
            plays(
                activate_program(old(self)@, clobber_by_default, encode_utf8(prefix@)),
                old(replies).rest(),
                done,
                final(replies).rest(),
            ),
            final(self)@ == old(self)@,
            keeps(
                done,
                old(self).metadata,
                final(self).metadata,
                kept_by_activation(
                    old(self)@,
                    clobber_by_default,
                    encode_utf8(prefix@),
                    old(replies).rest(),
                    old(self).metadata,
                ),
            ),
    {
        broadcast use group_play;

        if self.check_source(replies)? {
            return Ok(());
        }
        self.proceed(clobber_by_default, prefix, replies)
    }

    /// Brings the target of an entry that is not skipped into the state that the
    /// entry describes.
    pub(crate) fn proceed(
        &mut self,
        clobber_by_default: Option<bool>,
        prefix: &str,
        replies: &mut Replies<'_>,
    ) -> (done: Result<(), Halt<PathBuf>>)
        requires
            takes_source(old(self).kind) ==> old(self).source is Some,
        ensures
            plays(
                proceed_program(old(self)@, clobber_by_default, encode_utf8(prefix@)),
                old(replies).rest(),
                done,
                final(replies).rest(),
            ),
            final(self)@ == old(self)@,
            keeps(
                done,
                old(self).metadata,
                final(self).metadata,
                kept_by_proceeding(
                    old(self)@,
                    clobber_by_default,
                    encode_utf8(prefix@),
                    old(replies).rest(),
                    old(self).metadata,
                ),
            ),
    {
        broadcast use group_play;

        let mut current = self.clone();
        current.set_metadata(replies)?;
        let clobber = effective_clobber(self.clobber, clobber_by_default);
        let mut seen = current.metadata;
        let done = current.bring_about(clobber, prefix, &mut seen, replies);
        self.keep(&done, seen);
        done
    }

    /// Takes away what the entry made, if it is still as it was made. Modifies
    /// and deletes leave nothing to take away, and an entry with `deactivate`
    /// set to `false` is left alone. What is seen at the target is kept.
    ///
    /// Fails where the target has been modified.
    pub fn deactivate(&mut self, replies: &mut Replies<'_>) -> (done: Result<(), Halt<PathBuf>>)
        ensures
            plays(deactivate_program(old(self)@), old(replies).rest(), done, final(replies).rest()),
            final(self)@ == old(self)@,
            keeps(
                done,
                old(self).metadata,
                final(self).metadata,
                kept_by_deactivation(old(self)@, old(replies).rest(), old(self).metadata),
            ),
    {
        broadcast use group_play;

        if let Some(false) = self.deactivate {
            return Ok(());
        }
        let mut current = self.clone();
        current.set_metadata(replies)?;
        let done = current.take_away(replies);
        self.keep(&done, current.metadata);
        done
    }

    /// Takes away what the entry made, if it is still as it was seen.
    fn take_away(&self, replies: &mut Replies<'_>) -> (done: Result<(), Halt<PathBuf>>)
        ensures
            plays(
                withdraw(self@, self.metadata),
                old(replies).rest(),
                done,
                final(replies).rest(),
            ),
    {
        broadcast use group_play;

        let seen = match self.metadata {
            None => return Ok(()),
            Some(seen) => seen,
        };
        match self.kind {
            FileKind::Delete | FileKind::Modify => return Ok(()),
            _ => {},
        }
        if !self.check(replies)? {
            return Err(Halt::Fail(Failure::Modified));
        }
        match self.kind {
            FileKind::Delete | FileKind::Modify => Ok(()),
            FileKind::Directory => {
                if seen.is_dir() {
                    replies.must(Action::RemoveDir(self.target.clone()))
                } else {
                    Err(Halt::Fail(Failure::NotADirectory))
                }
            },
            FileKind::Symlink | FileKind::Copy => delete(&self.target, seen, replies),
        }
    }
}

} // verus!
