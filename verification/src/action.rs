//! What the library asks of the file system, and what it is told in reply.
//!
//! The library decides; the driver acts. Each decision is a function of the
//! entry and of the replies so far, so it can be made again at any time.
use vstd::prelude::*;

use crate::path::{bytes_equal, PathBuf};

verus! {

/// What kind of node a path names, symbolic links not followed.
#[derive(Debug, Clone, Copy, PartialEq, Eq, Structural)]
pub enum NodeType {
    File,
    Directory,
    Symlink,
    Other,
}

/// What is known of a node.
#[derive(Debug, Clone, Copy, PartialEq, Eq, Structural)]
pub struct Metadata {
    pub node: NodeType,
    pub mode: u32,
    pub uid: u32,
    pub gid: u32,
    pub len: u64,
}

/// The bits of a mode that `chmod` sets.
pub const MODE_BITS: u32 = 0o7777;

impl Metadata {
    pub open spec fn spec_bits(self) -> u32 {
        self.mode & MODE_BITS
    }

    /// The permission bits of the node.
    #[verifier::when_used_as_spec(spec_bits)]
    pub fn bits(self) -> (bits: u32)
        ensures
            bits == self.spec_bits(),
    {
        self.mode & MODE_BITS
    }

    pub fn is_dir(self) -> (answer: bool)
        ensures
            answer == (self.node is Directory),
    {
        self.node == NodeType::Directory
    }

    pub fn is_file(self) -> (answer: bool)
        ensures
            answer == (self.node is File),
    {
        self.node == NodeType::File
    }

    pub fn is_symlink(self) -> (answer: bool)
        ensures
            answer == (self.node is Symlink),
    {
        self.node == NodeType::Symlink
    }
}

/// Why an action failed.
#[derive(Debug, Clone, Copy, PartialEq, Eq, Structural)]
pub enum Fault {
    /// The path does not exist.
    NotFound,
    /// The system's error number.
    Os(i32),
    /// A failure without an error number.
    Other,
    /// The reply does not belong to the action.
    Mismatch,
}

/// Why an entry could not be brought into its state.
#[derive(Debug, Clone, Copy, PartialEq, Eq, Structural)]
pub enum Failure {
    /// An action failed.
    Io(Fault),
    /// The entry has no source, and its kind needs one.
    MissingSource,
    /// The target has no parent directory.
    NoParent,
    /// The target has no file name.
    NoFileName,
    /// Something that is no directory is in the way of a directory.
    FileInTheWay,
    /// There is nothing at the target to modify.
    DoesNotExist,
    /// The target is not what the entry made of it.
    Modified,
    /// The target is no directory.
    NotADirectory,
}

/// A step that the driver takes on the library's behalf.
#[derive(Debug)]
pub enum Action<P> {
    /// Look at a node without following a link: `Reply::Metadata`.
    SymlinkMetadata(P),
    /// Ask whether a path leads somewhere, following links: `Reply::Answer`.
    Exists(P),
    /// Ask whether a directory has entries: `Reply::Answer`.
    IsPopulated(P),
    /// Resolve every link of a path: `Reply::Path`.
    Canonicalize(P),
    /// Read where a link points: `Reply::Path`.
    ReadLink(P),
    /// Hash the contents of a file: `Reply::Digest`.
    Digest(P),
    /// Draw a random path beside the given one: `Reply::Candidate`.
    PickTemporary(P),
    /// Create a directory and its missing parents: `Reply::Done`.
    CreateDirAll(P),
    /// Remove what is no directory: `Reply::Done`.
    RemoveFile(P),
    /// Remove an empty directory: `Reply::Done`.
    RemoveDir(P),
    /// Remove a directory with all that is in it: `Reply::Done`.
    RemoveDirAll(P),
    /// Move the first path to the second: `Reply::Done`.
    Rename(P, P),
    /// Copy the first file to the second path: `Reply::Done`.
    Copy(P, P),
    /// Make a link that points to the first path, at the second: `Reply::Done`.
    Symlink(P, P),
    /// Set the mode of a path, following links: `Reply::Done`.
    SetPermissions(P, u32),
    /// Set the mode of a link itself: `Reply::Done`.
    SetLinkPermissions(P, u32),
    /// Set the owner of a path, following links: `Reply::Done`.
    Chown(P, Option<u32>, Option<u32>),
    /// Set the owner of a link itself: `Reply::Done`.
    Lchown(P, Option<u32>, Option<u32>),
}

/// What came of an action.
#[derive(Debug)]
pub enum Reply<P, D> {
    Metadata(Result<Metadata, Fault>),
    Answer(Result<bool, Fault>),
    Path(Result<P, Fault>),
    /// `None` where the file could not be read.
    Digest(Option<D>),
    Candidate(P),
    Done(Result<(), Fault>),
}

/// An action, as specifications speak of it.
pub type Request = Action<Seq<u8>>;

/// A reply, as specifications speak of it.
pub type Response = Reply<Seq<u8>, Seq<u8>>;

impl View for Action<PathBuf> {
    type V = Request;

    open spec fn view(&self) -> Request {
        match self {
            Action::SymlinkMetadata(path) => Action::SymlinkMetadata(path@),
            Action::Exists(path) => Action::Exists(path@),
            Action::IsPopulated(path) => Action::IsPopulated(path@),
            Action::Canonicalize(path) => Action::Canonicalize(path@),
            Action::ReadLink(path) => Action::ReadLink(path@),
            Action::Digest(path) => Action::Digest(path@),
            Action::PickTemporary(path) => Action::PickTemporary(path@),
            Action::CreateDirAll(path) => Action::CreateDirAll(path@),
            Action::RemoveFile(path) => Action::RemoveFile(path@),
            Action::RemoveDir(path) => Action::RemoveDir(path@),
            Action::RemoveDirAll(path) => Action::RemoveDirAll(path@),
            Action::Rename(from, to) => Action::Rename(from@, to@),
            Action::Copy(from, to) => Action::Copy(from@, to@),
            Action::Symlink(source, link) => Action::Symlink(source@, link@),
            Action::SetPermissions(path, mode) => Action::SetPermissions(path@, *mode),
            Action::SetLinkPermissions(path, mode) => Action::SetLinkPermissions(path@, *mode),
            Action::Chown(path, uid, gid) => Action::Chown(path@, *uid, *gid),
            Action::Lchown(path, uid, gid) => Action::Lchown(path@, *uid, *gid),
        }
    }
}

/// A BLAKE3 hash.
#[derive(Debug)]
pub struct Digest {
    pub bytes: Vec<u8>,
}

impl View for Digest {
    type V = Seq<u8>;

    open spec fn view(&self) -> Seq<u8> {
        self.bytes@
    }
}

impl Digest {
    /// Whether two hashes are the same.
    pub fn same(&self, other: &Digest) -> (answer: bool)
        ensures
            answer == (self@ == other@),
    {
        bytes_equal(self.bytes.as_slice(), other.bytes.as_slice())
    }
}

/// What `blake3::hash` makes of `contents`.
pub uninterp spec fn blake3_hash(contents: Seq<u8>) -> Seq<u8>;

/// Calls `blake3::hash`. The hash depends on the contents alone and is 32 bytes
/// long.
#[verifier::external_body]
fn blake3_digest(contents: &[u8]) -> (bytes: Vec<u8>)
    ensures
        bytes@ == blake3_hash(contents@),
        bytes@.len() == 32,
{
    blake3::hash(contents).as_bytes().to_vec()
}

/// The hash of a file's contents, or `None` where they could not be read.
pub fn hash_file(contents: Option<&[u8]>) -> (digest: Option<Digest>)
    ensures
        match contents {
            Some(bytes) => digest is Some && digest->0@ == blake3_hash(bytes@),
            None => digest is None,
        },
{
    match contents {
        Some(bytes) => Some(Digest { bytes: blake3_digest(bytes) }),
        None => None,
    }
}

impl View for Reply<PathBuf, Digest> {
    type V = Response;

    open spec fn view(&self) -> Response {
        match self {
            Reply::Metadata(result) => Reply::Metadata(*result),
            Reply::Answer(result) => Reply::Answer(*result),
            Reply::Path(Ok(path)) => Reply::Path(Ok(path@)),
            Reply::Path(Err(fault)) => Reply::Path(Err(*fault)),
            Reply::Digest(Some(digest)) => Reply::Digest(Some(digest@)),
            Reply::Digest(None) => Reply::Digest(None),
            Reply::Candidate(path) => Reply::Candidate(path@),
            Reply::Done(result) => Reply::Done(*result),
        }
    }
}

/// Whether an action changes the file system.
pub open spec fn changes(request: Request) -> bool {
    match request {
        Action::SymlinkMetadata(_) => false,
        Action::Exists(_) => false,
        Action::IsPopulated(_) => false,
        Action::Canonicalize(_) => false,
        Action::ReadLink(_) => false,
        Action::Digest(_) => false,
        Action::PickTemporary(_) => false,
        _ => true,
    }
}

/// Of a mode, the permissions count, with the bits that go with them: twelve in all.
/// A node shows one kind of node at a time.
pub proof fn law_metadata(metadata: Metadata)
    ensures
        metadata.bits() == metadata.mode & 0o7777,
        metadata.bits() <= 0o7777,
        MODE_BITS == 0o7777,
        metadata.mode <= 0o7777 ==> metadata.bits() == metadata.mode,
{
    let mode = metadata.mode;
    assert(mode & 0o7777 <= 0o7777) by (bit_vector);
    assert(mode <= 0o7777 ==> mode & 0o7777 == mode) by (bit_vector);
}

/// Which actions change the file system, and which only look.
pub proof fn law_changes(path: Seq<u8>, other: Seq<u8>, mode: u32, id: Option<u32>)
    ensures
        !changes(Action::SymlinkMetadata(path)),
        !changes(Action::Exists(path)),
        !changes(Action::IsPopulated(path)),
        !changes(Action::Canonicalize(path)),
        !changes(Action::ReadLink(path)),
        !changes(Action::Digest(path)),
        changes(Action::CreateDirAll(path)),
        changes(Action::RemoveFile(path)),
        changes(Action::RemoveDir(path)),
        changes(Action::RemoveDirAll(path)),
        changes(Action::Rename(path, other)),
        changes(Action::Copy(path, other)),
        changes(Action::Symlink(path, other)),
        changes(Action::SetPermissions(path, mode)),
        changes(Action::SetLinkPermissions(path, mode)),
        changes(Action::Chown(path, id, id)),
        changes(Action::Lchown(path, id, id)),
{
}

} // verus!
