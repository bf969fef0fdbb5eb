//! A model of the file system, and what programs do to it.
//!
//! A disk maps the components of a path to what is there. Paths are taken as
//! they are written, but for links: a path whose directory is reached through a
//! link, or that holds `..`, names a node of its own here. What can be looked at
//! is told truly, and a change that succeeds does what it says; but any change
//! may fail, the removal of a file only where the disk says so.
use vstd::prelude::*;

use crate::action::{
    blake3_hash, Action, Failure, Fault, Metadata, Reply, Request, Response, MODE_BITS,
};
use crate::path::{absolute, parts, Part};
use crate::program::{and_then, bind, Program};
use crate::temporary::is_candidate;

verus! {

/// The components by which a node is found.
pub type Key = Seq<Part>;

pub enum Content {
    File(Seq<u8>),
    Directory,
    /// A link, with the path that is written in it.
    Link(Seq<u8>),
    Other,
}

/// What is at a path. Of the mode, only the bits that can be set are kept.
pub struct Node {
    pub content: Content,
    pub mode: u32,
    pub uid: u32,
    pub gid: u32,
}

pub struct Disk {
    pub nodes: Map<Key, Node>,
    /// What cannot be looked at.
    pub hidden: Set<Key>,
    /// Where relative paths start.
    pub here: Key,
    /// What no random name is taken to hit.
    pub claimed: Set<Key>,
    /// Where removing a file may fail.
    pub pinned: Set<Key>,
}

/// Whether two disks differ at most in what is where.
pub open spec fn same_frame(a: Disk, b: Disk) -> bool {
    &&& b.hidden == a.hidden
    &&& b.here == a.here
    &&& b.claimed == a.claimed
    &&& b.pinned == a.pinned
}

/// The components of a relative path.
pub open spec fn relative_parts(path: Seq<u8>) -> Key {
    if parts(path).len() > 0 && parts(path)[0] is Current {
        parts(path).skip(1)
    } else {
        parts(path)
    }
}

/// What `path` names, seen from the directory `base`.
pub open spec fn key_from(base: Key, path: Seq<u8>) -> Key {
    if absolute(path) {
        parts(path)
    } else {
        base + relative_parts(path)
    }
}

/// Whether `key` is `top` or lies below it.
pub open spec fn below(key: Key, top: Key) -> bool {
    top.len() <= key.len() && key.take(top.len() as int) == top
}

/// Whether anything lies below `key`.
pub open spec fn holds_something(disk: Disk, key: Key) -> bool {
    exists|k: Key| #[trigger] disk.has(k) && below(k, key) && k != key
}

/// Whether everything on the way to `key` is there.
pub open spec fn is_reachable(disk: Disk, key: Key) -> bool {
    forall|k: Key| 0 < k.len() < key.len() && #[trigger] below(key, k) ==> disk.has(k)
}

/// How many links are followed in a row.
pub open spec fn link_limit() -> nat {
    40
}

impl Disk {
    pub open spec fn key(self, path: Seq<u8>) -> Key {
        key_from(self.here, path)
    }

    pub open spec fn has(self, key: Key) -> bool {
        self.nodes.contains_key(key)
    }

    pub open spec fn at(self, key: Key) -> Option<Node> {
        if self.has(key) {
            Some(self.nodes[key])
        } else {
            None
        }
    }

    pub open spec fn with(self, key: Key, node: Node) -> Disk {
        Disk { nodes: self.nodes.insert(key, node), ..self }
    }

    pub open spec fn without(self, key: Key) -> Disk {
        Disk { nodes: self.nodes.remove(key), ..self }
    }

    /// What is left at the end of the links that start at `key`.
    pub open spec fn resolve(self, key: Key, limit: nat) -> Option<Key>
        decreases limit,
    {
        if !self.has(key) {
            None
        } else {
            match self.nodes[key].content {
                Content::Link(dest) => if limit == 0 {
                    None
                } else {
                    self.resolve(key_from(key.drop_last(), dest), (limit - 1) as nat)
                },
                _ => Some(key),
            }
        }
    }

    pub open spec fn resolved(self, path: Seq<u8>) -> Option<Key> {
        self.resolve(self.key(path), link_limit())
    }

    /// The contents of the file that `path` leads to.
    pub open spec fn contents(self, path: Seq<u8>) -> Option<Seq<u8>> {
        match self.resolved(path) {
            Some(key) => match self.nodes[key].content {
                Content::File(bytes) => Some(bytes),
                _ => None,
            },
            None => None,
        }
    }
}

/// Whether `metadata` is what a look at `node` shows.
pub open spec fn shows(node: Node, metadata: Metadata) -> bool {
    &&& metadata.bits() == node.mode
    &&& metadata.uid == node.uid
    &&& metadata.gid == node.gid
    &&& match node.content {
        Content::File(bytes) => metadata.node is File && metadata.len == bytes.len(),
        Content::Directory => metadata.node is Directory,
        Content::Link(_) => metadata.node is Symlink,
        Content::Other => metadata.node is Other,
    }
}

/// Whether `seen` is what a look at `key` gives.
pub open spec fn sees(disk: Disk, key: Key, seen: Result<Metadata, Fault>) -> bool {
    match seen {
        Ok(metadata) => !disk.hidden.contains(key) && disk.has(key) && shows(
            disk.nodes[key],
            metadata,
        ),
        Err(Fault::NotFound) => !disk.hidden.contains(key) && !disk.has(key),
        Err(_) => disk.hidden.contains(key),
    }
}

/// Whether `after` is `disk` with directories created at `key` and above it,
/// where nothing was.
pub open spec fn grown(disk: Disk, after: Disk, key: Key) -> bool {
    &&& same_frame(disk, after)
    &&& forall|k: Key| disk.has(k) ==> #[trigger] after.at(k) == disk.at(k)
    &&& forall|k: Key|
        !disk.has(k) && #[trigger] after.has(k) ==> after.nodes[k].content is Directory && below(
            key,
            k,
        )
}

/// Whether `after` is `disk` but for what is at `key` and below it.
pub open spec fn same_outside(disk: Disk, after: Disk, key: Key) -> bool {
    &&& same_frame(disk, after)
    &&& forall|k: Key| !below(k, key) ==> #[trigger] after.at(k) == disk.at(k)
}

/// Where what is at `key`, at or below `from`, goes when `from` is moved to
/// `to`.
pub open spec fn relocated(key: Key, from: Key, to: Key) -> Key {
    to + key.skip(from.len() as int)
}

/// Whether `after` is `disk` with what is at `from` moved to `to`.
pub open spec fn moved(disk: Disk, after: Disk, from: Key, to: Key) -> bool {
    if from == to {
        after == disk
    } else if disk.nodes[from].content is Directory {
        &&& !below(to, from)
        &&& same_frame(disk, after)
        &&& forall|k: Key| #[trigger]
            below(k, from) ==> after.at(relocated(k, from, to)) == disk.at(k)
        &&& forall|k: Key| below(k, from) ==> #[trigger] after.at(k) is None
        &&& forall|k: Key|
            !below(k, from) && !below(k, to) ==> #[trigger] after.at(k) == disk.at(k)
    } else {
        &&& !(disk.has(to) && disk.nodes[to].content is Directory)
        &&& after == disk.without(from).with(to, disk.nodes[from])
    }
}

/// The node, after its owner has been set.
pub open spec fn owned(before: Node, after: Node, uid: Option<u32>, gid: Option<u32>) -> bool {
    &&& after.content == before.content
    &&& after.uid == (match uid {
        Some(id) => id,
        None => before.uid,
    })
    &&& after.gid == (match gid {
        Some(id) => id,
        None => before.gid,
    })
    &&& after.mode == before.mode || after.mode == before.mode & !0o6000u32
}

/// Whether a reply to a request, and the disk after it, can come of `disk`.
pub open spec fn allowed(disk: Disk, request: Request, reply: Response, after: Disk) -> bool {
    match request {
        Action::SymlinkMetadata(path) => {
            &&& after == disk
            &&& reply matches Reply::Metadata(seen)
            &&& sees(disk, disk.key(path), seen)
        },
        Action::Exists(path) => {
            &&& after == disk
            &&& reply matches Reply::Answer(answer)
            &&& !disk.hidden.contains(disk.key(path)) ==> answer == Ok::<bool, Fault>(
                disk.resolved(path) is Some,
            )
        },
        Action::IsPopulated(path) => {
            &&& after == disk
            &&& reply matches Reply::Answer(answer)
            &&& match disk.resolved(path) {
                Some(key) => !disk.hidden.contains(disk.key(path)) && disk.nodes[key].content
                    is Directory ==> answer == Ok::<bool, Fault>(holds_something(disk, key)),
                None => true,
            }
        },
        Action::Canonicalize(path) => {
            &&& after == disk
            &&& reply matches Reply::Path(found)
            &&& match disk.resolved(path) {
                Some(key) => found is Ok && absolute(found->Ok_0) && parts(found->Ok_0) == key,
                None => found is Err,
            }
        },
        Action::ReadLink(path) => {
            &&& after == disk
            &&& reply matches Reply::Path(found)
            &&& match disk.at(disk.key(path)) {
                Some(Node { content: Content::Link(dest), .. }) => found == Ok::<Seq<u8>, Fault>(
                    dest,
                ),
                _ => found is Err,
            }
        },
        Action::Digest(path) => {
            &&& after == disk
            &&& reply == Reply::<Seq<u8>, Seq<u8>>::Digest(
                match disk.contents(path) {
                    Some(bytes) => Some(blake3_hash(bytes)),
                    None => None,
                },
            )
        },
        Action::PickTemporary(_) => false,
        Action::CreateDirAll(path) => {
            &&& grown(disk, after, disk.key(path))
            &&& reply matches Reply::Done(done)
            &&& done is Ok ==> after.has(disk.key(path)) && is_reachable(after, disk.key(path))
        },
        Action::RemoveFile(path) => {
            let key = disk.key(path);
            match reply {
                Reply::Done(Ok(_)) => disk.has(key) && !(disk.nodes[key].content is Directory)
                    && after == disk.without(key),
                Reply::Done(Err(_)) => after == disk && (disk.has(key) && !(
                disk.nodes[key].content is Directory) ==> disk.pinned.contains(key)),
                _ => false,
            }
        },
        Action::RemoveDir(path) => {
            let key = disk.key(path);
            match reply {
                Reply::Done(Ok(_)) => {
                    &&& disk.has(key)
                    &&& disk.nodes[key].content is Directory
                    &&& forall|k: Key| #[trigger] disk.has(k) && below(k, key) ==> k == key
                    &&& after == disk.without(key)
                },
                Reply::Done(Err(_)) => after == disk,
                _ => false,
            }
        },
        Action::RemoveDirAll(path) => {
            let key = disk.key(path);
            &&& same_outside(disk, after, key)
            &&& forall|k: Key| after.has(k) ==> #[trigger] after.at(k) == disk.at(k)
            &&& reply matches Reply::Done(done)
            &&& done is Ok ==> disk.has(key) && forall|k: Key|
                below(k, key) ==> !#[trigger] after.has(k)
        },
        Action::Rename(from, to) => match reply {
            Reply::Done(Ok(_)) => disk.has(disk.key(from)) && is_reachable(disk, disk.key(to))
                && moved(disk, after, disk.key(from), disk.key(to)),
            Reply::Done(Err(_)) => after == disk,
            _ => false,
        },
        Action::Copy(from, to) => {
            let key = disk.key(to);
            match reply {
                Reply::Done(Ok(_)) => disk.contents(from) is Some && is_reachable(disk, key)
                    && exists|spot: Key, node: Node|
                    (!disk.has(key) ==> spot == key) && node.content == Content::File(
                        disk.contents(from)->0,
                    ) && after == #[trigger] disk.with(spot, node),
                Reply::Done(Err(_)) => after == disk || exists|spot: Key, node: Node|
                    (!disk.has(key) ==> spot == key) && node.content is File && after
                        == #[trigger] disk.with(spot, node),
                _ => false,
            }
        },
        Action::Symlink(source, link) => {
            let key = disk.key(link);
            match reply {
                Reply::Done(Ok(_)) => !disk.has(key) && is_reachable(disk, key) && exists|
                    node: Node,
                |
                    node.content == Content::Link(source) && after == #[trigger] disk.with(
                        key,
                        node,
                    ),
                Reply::Done(Err(_)) => after == disk,
                _ => false,
            }
        },
        Action::SetPermissions(path, mode) => match reply {
            Reply::Done(Ok(_)) => match disk.resolved(path) {
                Some(key) => after == disk.with(
                    key,
                    Node { mode: mode & MODE_BITS, ..disk.nodes[key] },
                ),
                None => false,
            },
            Reply::Done(Err(_)) => after == disk,
            _ => false,
        },
        Action::SetLinkPermissions(path, mode) => {
            let key = disk.key(path);
            match reply {
                Reply::Done(Ok(_)) => disk.has(key) && after == disk.with(
                    key,
                    Node { mode: mode & MODE_BITS, ..disk.nodes[key] },
                ),
                Reply::Done(Err(_)) => after == disk,
                _ => false,
            }
        },
        Action::Chown(path, uid, gid) => match reply {
            Reply::Done(Ok(_)) => match disk.resolved(path) {
                Some(key) => exists|node: Node|
                    owned(disk.nodes[key], node, uid, gid) && after == #[trigger] disk.with(
                        key,
                        node,
                    ),
                None => false,
            },
            Reply::Done(Err(_)) => after == disk,
            _ => false,
        },
        Action::Lchown(path, uid, gid) => {
            let key = disk.key(path);
            match reply {
                Reply::Done(Ok(_)) => disk.has(key) && exists|node: Node|
                    owned(disk.nodes[key], node, uid, gid) && after == #[trigger] disk.with(
                        key,
                        node,
                    ),
                Reply::Done(Err(_)) => after == disk,
                _ => false,
            }
        },
    }
}

/// Whether `path` can be drawn as a temporary path for `target`, and nothing is
/// there, leads there, or claims it. (That a random name is taken is left out of
/// account.)
pub open spec fn is_spare(disk: Disk, path: Seq<u8>, target: Seq<u8>) -> bool {
    let key = disk.key(path);
    &&& is_candidate(path, target)
    &&& !disk.hidden.contains(key)
    &&& !disk.claimed.contains(key)
    &&& forall|k: Key| #[trigger] disk.has(k) ==> !below(k, key) && match disk.nodes[k].content {
        Content::Link(dest) => !below(key_from(k.drop_last(), dest), key),
        _ => true,
    }
}

/// Whether `program`, started on `disk`, can only end in a value and a disk that
/// are as `post` says.
#[verifier::opaque]
pub open spec fn achieves<R>(
    program: Program<R>,
    disk: Disk,
    post: spec_fn(R, Disk) -> bool,
) -> bool
    decreases program,
{
    match program {
        Program::Return(value) => post(value, disk),
        Program::Ask(request, go) => forall|reply: Response, after: Disk| #[trigger]
            allowed(disk, request, reply, after) ==> achieves(go(reply), after, post),
        Program::Fresh(target, _, go) => forall|path: Seq<u8>|
            is_spare(disk, path, target) ==> achieves(#[trigger] go(path), disk, post),
    }
}

pub broadcast proof fn lemma_achieves_return<R>(
    value: R,
    disk: Disk,
    post: spec_fn(R, Disk) -> bool,
)
    ensures
        #[trigger] achieves(Program::Return(value), disk, post) == post(value, disk),
{
    reveal(achieves);
}

proof fn lemma_achieves_step<R>(
    request: Request,
    go: spec_fn(Response) -> Program<R>,
    disk: Disk,
    post: spec_fn(R, Disk) -> bool,
    reply: Response,
    after: Disk,
)
    requires
        achieves(Program::Ask(request, go), disk, post),
        allowed(disk, request, reply, after),
    ensures
        achieves(go(reply), after, post),
{
    reveal(achieves);
}

pub broadcast proof fn lemma_achieves_ask<R>(
    request: Request,
    go: spec_fn(Response) -> Program<R>,
    disk: Disk,
    post: spec_fn(R, Disk) -> bool,
)
    ensures
        #[trigger] achieves(Program::Ask(request, go), disk, post) == (forall|
            reply: Response,
            after: Disk,
        | #[trigger]
            allowed(disk, request, reply, after) ==> achieves(go(reply), after, post)),
{
    reveal(achieves);
    if achieves(Program::Ask(request, go), disk, post) {
        assert forall|reply: Response, after: Disk| #[trigger]
            allowed(disk, request, reply, after) implies achieves(go(reply), after, post) by {
            lemma_achieves_step(request, go, disk, post, reply, after);
        }
    }
    if forall|reply: Response, after: Disk| #[trigger]
        allowed(disk, request, reply, after) ==> achieves(go(reply), after, post) {
        assert(achieves(Program::Ask(request, go), disk, post));
    }
}

proof fn lemma_achieves_draw<R>(
    target: Seq<u8>,
    candidate: Option<Seq<u8>>,
    go: spec_fn(Seq<u8>) -> Program<R>,
    disk: Disk,
    post: spec_fn(R, Disk) -> bool,
    path: Seq<u8>,
)
    requires
        achieves(Program::Fresh(target, candidate, go), disk, post),
        is_spare(disk, path, target),
    ensures
        achieves(go(path), disk, post),
{
    reveal(achieves);
    let program = Program::Fresh(target, candidate, go);
    assert(program is Fresh && program->Fresh_0 == target && program->Fresh_2 == go);
    assert(is_spare(disk, path, program->Fresh_0));
    assert(achieves((program->Fresh_2)(path), disk, post));
}

pub broadcast proof fn lemma_achieves_fresh<R>(
    target: Seq<u8>,
    candidate: Option<Seq<u8>>,
    go: spec_fn(Seq<u8>) -> Program<R>,
    disk: Disk,
    post: spec_fn(R, Disk) -> bool,
)
    ensures
        #[trigger] achieves(Program::Fresh(target, candidate, go), disk, post) == (forall|
            path: Seq<u8>,
        |
            is_spare(disk, path, target) ==> achieves(#[trigger] go(path), disk, post)),
{
    reveal(achieves);
    if achieves(Program::Fresh(target, candidate, go), disk, post) {
        assert forall|path: Seq<u8>| is_spare(disk, path, target) implies achieves(
            #[trigger] go(path),
            disk,
            post,
        ) by {
            lemma_achieves_draw(target, candidate, go, disk, post, path);
        }
    }
    if forall|path: Seq<u8>|
        is_spare(disk, path, target) ==> achieves(#[trigger] go(path), disk, post) {
        assert(achieves(Program::Fresh(target, candidate, go), disk, post));
    }
}

/// Programs in sequence: what the first ends in is what the second starts from.
pub proof fn lemma_achieves_bind<A, B>(
    first: Program<A>,
    next: spec_fn(A) -> Program<B>,
    disk: Disk,
    mid: spec_fn(A, Disk) -> bool,
    post: spec_fn(B, Disk) -> bool,
)
    requires
        achieves(first, disk, mid),
        forall|value: A, after: Disk| #[trigger]
            mid(value, after) ==> achieves(next(value), after, post),
    ensures
        achieves(bind(first, next), disk, post),
    decreases first,
{
    broadcast use {lemma_achieves_return, lemma_achieves_ask, lemma_achieves_fresh};

    match first {
        Program::Return(_) => {},
        Program::Ask(request, go) => {
            let later = bind(first, next)->Ask_1;
            assert forall|reply: Response, after: Disk| #[trigger]
                allowed(disk, request, reply, after) implies achieves(
                later(reply),
                after,
                post,
            ) by {
                lemma_achieves_step(request, go, disk, mid, reply, after);
                lemma_achieves_bind(go(reply), next, after, mid, post);
            }
            assert(achieves(Program::Ask(request, later), disk, post));
        },
        Program::Fresh(target, candidate, go) => {
            let later = bind(first, next)->Fresh_2;
            assert forall|path: Seq<u8>| is_spare(disk, path, target) implies achieves(
                #[trigger] later(path),
                disk,
                post,
            ) by {
                lemma_achieves_draw(target, candidate, go, disk, mid, path);
                lemma_achieves_bind(go(path), next, disk, mid, post);
            }
            assert(achieves(Program::Fresh(target, candidate, later), disk, post));
        },
    }
}

pub broadcast proof fn lemma_achieves_sequence<A, B>(
    first: Program<A>,
    next: spec_fn(A) -> Program<B>,
    disk: Disk,
    post: spec_fn(B, Disk) -> bool,
)
    requires
        achieves(first, disk, |value: A, after: Disk| achieves(next(value), after, post)),
    ensures
        #[trigger] achieves(bind(first, next), disk, post),
{
    lemma_achieves_bind(
        first,
        next,
        disk,
        |value: A, after: Disk| achieves(next(value), after, post),
        post,
    );
}

pub proof fn lemma_achieves_then<A, B>(
    first: Program<Result<A, Failure>>,
    next: spec_fn(A) -> Program<Result<B, Failure>>,
    disk: Disk,
    mid: spec_fn(Result<A, Failure>, Disk) -> bool,
    post: spec_fn(Result<B, Failure>, Disk) -> bool,
)
    requires
        achieves(first, disk, mid),
        forall|value: A, after: Disk| #[trigger]
            mid(Ok(value), after) ==> achieves(next(value), after, post),
        forall|failure: Failure, after: Disk| #[trigger]
            mid(Err(failure), after) ==> post(Err(failure), after),
    ensures
        achieves(and_then(first, next), disk, post),
{
    broadcast use lemma_achieves_return;

    lemma_achieves_bind(
        first,
        |result: Result<A, Failure>|
            match result {
                Ok(value) => next(value),
                Err(failure) => Program::Return(Err(failure)),
            },
        disk,
        mid,
        post,
    );
}

pub broadcast proof fn lemma_achieves_and_then<A, B>(
    first: Program<Result<A, Failure>>,
    next: spec_fn(A) -> Program<Result<B, Failure>>,
    disk: Disk,
    post: spec_fn(Result<B, Failure>, Disk) -> bool,
)
    requires
        achieves(
            first,
            disk,
            |result: Result<A, Failure>, after: Disk|
                match result {
                    Ok(value) => achieves(next(value), after, post),
                    Err(failure) => post(Err(failure), after),
                },
        ),
    ensures
        #[trigger] achieves(and_then(first, next), disk, post),
{
    broadcast use lemma_achieves_return;

    lemma_achieves_bind(
        first,
        |result: Result<A, Failure>|
            match result {
                Ok(value) => next(value),
                Err(failure) => Program::Return(Err(failure)),
            },
        disk,
        |result: Result<A, Failure>, after: Disk|
            match result {
                Ok(value) => achieves(next(value), after, post),
                Err(failure) => post(Err(failure), after),
            },
        post,
    );
}

pub broadcast group group_achieves {
    lemma_achieves_return,
    lemma_achieves_ask,
    lemma_achieves_fresh,
    lemma_achieves_sequence,
    lemma_achieves_and_then,
}

/// Two programs that start in the same way achieve the same, if they do so from
/// wherever that start can lead.
pub proof fn lemma_achieves_alike<A, B>(
    first: Program<A>,
    one: spec_fn(A) -> Program<B>,
    other: spec_fn(A) -> Program<B>,
    disk: Disk,
    mid: spec_fn(A, Disk) -> bool,
    post: spec_fn(B, Disk) -> bool,
)
    requires
        achieves(first, disk, mid),
        forall|value: A, after: Disk| #[trigger]
            mid(value, after) ==> achieves(one(value), after, post) == achieves(
                other(value),
                after,
                post,
            ),
    ensures
        achieves(bind(first, one), disk, post) == achieves(bind(first, other), disk, post),
    decreases first,
{
    broadcast use {lemma_achieves_return, lemma_achieves_ask, lemma_achieves_fresh};

    match first {
        Program::Return(value) => {
            assert(first == Program::Return(value));
            assert(mid(value, disk));
        },
        Program::Ask(request, go) => {
            let left = bind(first, one)->Ask_1;
            let right = bind(first, other)->Ask_1;
            assert forall|reply: Response, after: Disk| #[trigger]
                allowed(disk, request, reply, after) implies achieves(left(reply), after, post)
                == achieves(right(reply), after, post) by {
                lemma_achieves_step(request, go, disk, mid, reply, after);
                lemma_achieves_alike(go(reply), one, other, after, mid, post);
            }
            assert(achieves(Program::Ask(request, left), disk, post) == achieves(
                Program::Ask(request, right),
                disk,
                post,
            ));
        },
        Program::Fresh(target, candidate, go) => {
            let left = bind(first, one)->Fresh_2;
            let right = bind(first, other)->Fresh_2;
            assert forall|path: Seq<u8>|
                #![trigger left(path)]
                #![trigger right(path)]
                is_spare(disk, path, target) implies achieves(left(path), disk, post) == achieves(
                right(path),
                disk,
                post,
            ) by {
                lemma_achieves_draw(target, candidate, go, disk, mid, path);
                lemma_achieves_alike(go(path), one, other, disk, mid, post);
            }
            assert(achieves(Program::Fresh(target, candidate, left), disk, post) == achieves(
                Program::Fresh(target, candidate, right),
                disk,
                post,
            ));
        },
    }
}

/// What is achieved is achieved for every weaker claim.
pub proof fn lemma_achieves_weaken<R>(
    program: Program<R>,
    disk: Disk,
    strict: spec_fn(R, Disk) -> bool,
    loose: spec_fn(R, Disk) -> bool,
)
    requires
        achieves(program, disk, strict),
        forall|value: R, after: Disk| strict(value, after) ==> #[trigger] loose(value, after),
    ensures
        achieves(program, disk, loose),
    decreases program,
{
    broadcast use {lemma_achieves_return, lemma_achieves_ask, lemma_achieves_fresh};

    match program {
        Program::Return(value) => {
            assert(program == Program::Return(value));
            assert(loose(value, disk));
        },
        Program::Ask(request, go) => {
            assert forall|reply: Response, after: Disk| #[trigger]
                allowed(disk, request, reply, after) implies achieves(go(reply), after, loose) by {
                lemma_achieves_step(request, go, disk, strict, reply, after);
                lemma_achieves_weaken(go(reply), after, strict, loose);
            }
            assert(achieves(Program::Ask(request, go), disk, loose));
        },
        Program::Fresh(target, candidate, go) => {
            assert forall|path: Seq<u8>| is_spare(disk, path, target) implies achieves(
                #[trigger] go(path),
                disk,
                loose,
            ) by {
                lemma_achieves_draw(target, candidate, go, disk, strict, path);
                lemma_achieves_weaken(go(path), disk, strict, loose);
            }
            assert(achieves(Program::Fresh(target, candidate, go), disk, loose));
        },
    }
}

} // verus!
