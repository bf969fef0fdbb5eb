//! What programs bring about where nothing stands in their way.
//!
//! A change may always fail, so nothing can be promised unconditionally. What
//! can be promised is said here: a program that asks only for what can be done,
//! and is not let down, ends as it should.
use vstd::prelude::*;

use crate::action::{changes, Action, Failure, Reply, Request, Response};
use crate::model::{
    achieves, allowed, below, is_reachable, is_spare, lemma_achieves_ask, lemma_achieves_fresh,
    lemma_achieves_return, Disk, Key,
};
use crate::program::{and_then, bind, Program};

verus! {

/// Whether a node can be on the way to others: a directory, or a link to one.
pub open spec fn is_passable(disk: Disk, key: Key) -> bool {
    disk.nodes[key].content is Directory || disk.nodes[key].content is Link
}

/// Whether an action can be done as the disk is. Looking always can.
pub open spec fn can_do(disk: Disk, request: Request) -> bool {
    match request {
        Action::PickTemporary(_) => false,
        Action::CreateDirAll(path) => {
            let key = disk.key(path);
            &&& disk.has(key) ==> disk.nodes[key].content is Directory
            &&& forall|k: Key|
                0 < k.len() < key.len() && #[trigger] below(key, k) && disk.has(k) ==> is_passable(
                    disk,
                    k,
                )
        },
        Action::RemoveFile(path) => {
            let key = disk.key(path);
            disk.has(key) && !(disk.nodes[key].content is Directory)
        },
        Action::RemoveDir(path) => {
            let key = disk.key(path);
            &&& disk.has(key)
            &&& disk.nodes[key].content is Directory
            &&& forall|k: Key| #[trigger] disk.has(k) && below(k, key) ==> k == key
        },
        Action::RemoveDirAll(path) => disk.has(disk.key(path)),
        Action::Rename(from, to) => {
            let start = disk.key(from);
            let end = disk.key(to);
            &&& disk.has(start)
            &&& is_reachable(disk, end)
            &&& if disk.nodes[start].content is Directory {
                !below(end, start) && !disk.has(end)
            } else {
                !(disk.has(end) && disk.nodes[end].content is Directory)
            }
        },
        Action::Copy(from, to) => {
            let key = disk.key(to);
            &&& disk.contents(from) is Some
            &&& is_reachable(disk, key)
            &&& !disk.has(key)
        },
        Action::Symlink(_, link) => {
            let key = disk.key(link);
            !disk.has(key) && is_reachable(disk, key)
        },
        Action::SetPermissions(path, _) => disk.resolved(path) is Some,
        Action::SetLinkPermissions(path, _) => disk.has(disk.key(path)),
        Action::Chown(path, _, _) => disk.resolved(path) is Some,
        Action::Lchown(path, _, _) => disk.has(disk.key(path)),
        _ => true,
    }
}

/// Whether a reply says that a change was made.
pub open spec fn is_granted(request: Request, reply: Response) -> bool {
    changes(request) ==> reply matches Reply::Done(Ok(_))
}

/// Whether `program`, started on `disk`, asks only for what can be done, and ends
/// in a value and a disk that are as `post` says if no change is denied.
#[verifier::opaque]
pub open spec fn completes<R>(
    program: Program<R>,
    disk: Disk,
    post: spec_fn(R, Disk) -> bool,
) -> bool
    decreases program,
{
    match program {
        Program::Return(value) => post(value, disk),
        Program::Ask(request, go) => can_do(disk, request) && forall|
            reply: Response,
            after: Disk,
        | #[trigger]
            allowed(disk, request, reply, after) && is_granted(request, reply) ==> completes(
                go(reply),
                after,
                post,
            ),
        Program::Fresh(target, _, go) => forall|path: Seq<u8>|
            is_spare(disk, path, target) ==> completes(#[trigger] go(path), disk, post),
    }
}

pub broadcast proof fn lemma_completes_return<R>(
    value: R,
    disk: Disk,
    post: spec_fn(R, Disk) -> bool,
)
    ensures
        #[trigger] completes(Program::Return(value), disk, post) == post(value, disk),
{
    reveal(completes);
}

proof fn lemma_completes_step<R>(
    request: Request,
    go: spec_fn(Response) -> Program<R>,
    disk: Disk,
    post: spec_fn(R, Disk) -> bool,
    reply: Response,
    after: Disk,
)
    requires
        completes(Program::Ask(request, go), disk, post),
        allowed(disk, request, reply, after),
        is_granted(request, reply),
    ensures
        completes(go(reply), after, post),
{
    reveal(completes);
}

pub broadcast proof fn lemma_completes_ask<R>(
    request: Request,
    go: spec_fn(Response) -> Program<R>,
    disk: Disk,
    post: spec_fn(R, Disk) -> bool,
)
    ensures
        #[trigger] completes(Program::Ask(request, go), disk, post) == (can_do(disk, request) && (
        forall|reply: Response, after: Disk| #[trigger]
            allowed(disk, request, reply, after) && is_granted(request, reply) ==> completes(
                go(reply),
                after,
                post,
            ))),
{
    reveal(completes);
    if completes(Program::Ask(request, go), disk, post) {
        assert forall|reply: Response, after: Disk| #[trigger]
            allowed(disk, request, reply, after) && is_granted(request, reply) implies completes(
            go(reply),
            after,
            post,
        ) by {
            lemma_completes_step(request, go, disk, post, reply, after);
        }
    }
    if can_do(disk, request) && forall|reply: Response, after: Disk| #[trigger]
        allowed(disk, request, reply, after) && is_granted(request, reply) ==> completes(
            go(reply),
            after,
            post,
        ) {
        assert(completes(Program::Ask(request, go), disk, post));
    }
}

proof fn lemma_completes_draw<R>(
    target: Seq<u8>,
    candidate: Option<Seq<u8>>,
    go: spec_fn(Seq<u8>) -> Program<R>,
    disk: Disk,
    post: spec_fn(R, Disk) -> bool,
    path: Seq<u8>,
)
    requires
        completes(Program::Fresh(target, candidate, go), disk, post),
        is_spare(disk, path, target),
    ensures
        completes(go(path), disk, post),
{
    reveal(completes);
    let program = Program::Fresh(target, candidate, go);
    assert(program is Fresh && program->Fresh_0 == target && program->Fresh_2 == go);
    assert(is_spare(disk, path, program->Fresh_0));
    assert(completes((program->Fresh_2)(path), disk, post));
}

pub broadcast proof fn lemma_completes_fresh<R>(
    target: Seq<u8>,
    candidate: Option<Seq<u8>>,
    go: spec_fn(Seq<u8>) -> Program<R>,
    disk: Disk,
    post: spec_fn(R, Disk) -> bool,
)
    ensures
        #[trigger] completes(Program::Fresh(target, candidate, go), disk, post) == (forall|
            path: Seq<u8>,
        |
            is_spare(disk, path, target) ==> completes(#[trigger] go(path), disk, post)),
{
    reveal(completes);
    if completes(Program::Fresh(target, candidate, go), disk, post) {
        assert forall|path: Seq<u8>| is_spare(disk, path, target) implies completes(
            #[trigger] go(path),
            disk,
            post,
        ) by {
            lemma_completes_draw(target, candidate, go, disk, post, path);
        }
    }
    if forall|path: Seq<u8>|
        is_spare(disk, path, target) ==> completes(#[trigger] go(path), disk, post) {
        assert(completes(Program::Fresh(target, candidate, go), disk, post));
    }
}

/// Programs in sequence: what the first comes to is what the second starts from.
pub proof fn lemma_completes_bind<A, B>(
    first: Program<A>,
    next: spec_fn(A) -> Program<B>,
    disk: Disk,
    mid: spec_fn(A, Disk) -> bool,
    post: spec_fn(B, Disk) -> bool,
)
    requires
        completes(first, disk, mid),
        forall|value: A, after: Disk| #[trigger]
            mid(value, after) ==> completes(next(value), after, post),
    ensures
        completes(bind(first, next), disk, post),
    decreases first,
{
    broadcast use {lemma_completes_return, lemma_completes_ask, lemma_completes_fresh};

    match first {
        Program::Return(_) => {},
        Program::Ask(request, go) => {
            let later = bind(first, next)->Ask_1;
            assert(completes(Program::Ask(request, go), disk, mid));
            assert forall|reply: Response, after: Disk| #[trigger]
                allowed(disk, request, reply, after) && is_granted(
                    request,
                    reply,
                ) implies completes(later(reply), after, post) by {
                lemma_completes_step(request, go, disk, mid, reply, after);
                lemma_completes_bind(go(reply), next, after, mid, post);
            }
            assert(completes(Program::Ask(request, later), disk, post));
        },
        Program::Fresh(target, candidate, go) => {
            let later = bind(first, next)->Fresh_2;
            assert forall|path: Seq<u8>| is_spare(disk, path, target) implies completes(
                #[trigger] later(path),
                disk,
                post,
            ) by {
                lemma_completes_draw(target, candidate, go, disk, mid, path);
                lemma_completes_bind(go(path), next, disk, mid, post);
            }
            assert(completes(Program::Fresh(target, candidate, later), disk, post));
        },
    }
}

pub broadcast proof fn lemma_completes_sequence<A, B>(
    first: Program<A>,
    next: spec_fn(A) -> Program<B>,
    disk: Disk,
    post: spec_fn(B, Disk) -> bool,
)
    requires
        completes(first, disk, |value: A, after: Disk| completes(next(value), after, post)),
    ensures
        #[trigger] completes(bind(first, next), disk, post),
{
    lemma_completes_bind(
        first,
        next,
        disk,
        |value: A, after: Disk| completes(next(value), after, post),
        post,
    );
}

pub proof fn lemma_completes_then<A, B>(
    first: Program<Result<A, Failure>>,
    next: spec_fn(A) -> Program<Result<B, Failure>>,
    disk: Disk,
    mid: spec_fn(Result<A, Failure>, Disk) -> bool,
    post: spec_fn(Result<B, Failure>, Disk) -> bool,
)
    requires
        completes(first, disk, mid),
        forall|value: A, after: Disk| #[trigger]
            mid(Ok(value), after) ==> completes(next(value), after, post),
        forall|failure: Failure, after: Disk| #[trigger]
            mid(Err(failure), after) ==> post(Err(failure), after),
    ensures
        completes(and_then(first, next), disk, post),
{
    broadcast use lemma_completes_return;

    lemma_completes_bind(
        first,
        |result: Result<A, Failure>|
            match result {
                Ok(value) => next(value),
                Err(failure) => Program::Return(Err(failure)),
            },
        disk,
        mid,
        post,
    );
}

pub broadcast proof fn lemma_completes_and_then<A, B>(
    first: Program<Result<A, Failure>>,
    next: spec_fn(A) -> Program<Result<B, Failure>>,
    disk: Disk,
    post: spec_fn(Result<B, Failure>, Disk) -> bool,
)
    requires
        completes(
            first,
            disk,
            |result: Result<A, Failure>, after: Disk|
                match result {
                    Ok(value) => completes(next(value), after, post),
                    Err(failure) => post(Err(failure), after),
                },
        ),
    ensures
        #[trigger] completes(and_then(first, next), disk, post),
{
    broadcast use lemma_completes_return;

    lemma_completes_bind(
        first,
        |result: Result<A, Failure>|
            match result {
                Ok(value) => next(value),
                Err(failure) => Program::Return(Err(failure)),
            },
        disk,
        |result: Result<A, Failure>, after: Disk|
            match result {
                Ok(value) => completes(next(value), after, post),
                Err(failure) => post(Err(failure), after),
            },
        post,
    );
}

pub broadcast group group_completes {
    lemma_completes_return,
    lemma_completes_ask,
    lemma_completes_fresh,
    lemma_completes_sequence,
    lemma_completes_and_then,
}

/// What always holds at the end holds too where nothing stands in the way.
pub proof fn lemma_completes_both<R>(
    program: Program<R>,
    disk: Disk,
    always: spec_fn(R, Disk) -> bool,
    granted: spec_fn(R, Disk) -> bool,
    post: spec_fn(R, Disk) -> bool,
)
    requires
        achieves(program, disk, always),
        completes(program, disk, granted),
        forall|value: R, after: Disk|
            always(value, after) && granted(value, after) ==> #[trigger] post(value, after),
    ensures
        completes(program, disk, post),
    decreases program,
{
    broadcast use {
        lemma_completes_return,
        lemma_completes_ask,
        lemma_completes_fresh,
        lemma_achieves_return,
        lemma_achieves_ask,
        lemma_achieves_fresh,
    };

    match program {
        Program::Return(value) => {
            assert(program == Program::Return(value));
            assert(post(value, disk));
        },
        Program::Ask(request, go) => {
            assert(program == Program::Ask(request, go));
            assert forall|reply: Response, after: Disk| #[trigger]
                allowed(disk, request, reply, after) && is_granted(
                    request,
                    reply,
                ) implies completes(go(reply), after, post) by {
                lemma_completes_both(go(reply), after, always, granted, post);
            }
            assert(completes(Program::Ask(request, go), disk, post));
        },
        Program::Fresh(target, candidate, go) => {
            assert(program == Program::Fresh(target, candidate, go));
            assert forall|path: Seq<u8>| is_spare(disk, path, target) implies completes(
                #[trigger] go(path),
                disk,
                post,
            ) by {
                lemma_completes_both(go(path), disk, always, granted, post);
            }
            assert(completes(Program::Fresh(target, candidate, go), disk, post));
        },
    }
}

/// What is brought about is brought about for every weaker claim.
pub proof fn lemma_completes_weaken<R>(
    program: Program<R>,
    disk: Disk,
    strict: spec_fn(R, Disk) -> bool,
    loose: spec_fn(R, Disk) -> bool,
)
    requires
        completes(program, disk, strict),
        forall|value: R, after: Disk| strict(value, after) ==> #[trigger] loose(value, after),
    ensures
        completes(program, disk, loose),
    decreases program,
{
    broadcast use {lemma_completes_return, lemma_completes_ask, lemma_completes_fresh};

    match program {
        Program::Return(value) => {
            assert(program == Program::Return(value));
            assert(loose(value, disk));
        },
        Program::Ask(request, go) => {
            assert(program == Program::Ask(request, go));
            assert forall|reply: Response, after: Disk| #[trigger]
                allowed(disk, request, reply, after) && is_granted(
                    request,
                    reply,
                ) implies completes(go(reply), after, loose) by {
                lemma_completes_step(request, go, disk, strict, reply, after);
                lemma_completes_weaken(go(reply), after, strict, loose);
            }
            assert(completes(Program::Ask(request, go), disk, loose));
        },
        Program::Fresh(target, candidate, go) => {
            assert(program == Program::Fresh(target, candidate, go));
            assert forall|path: Seq<u8>| is_spare(disk, path, target) implies completes(
                #[trigger] go(path),
                disk,
                loose,
            ) by {
                lemma_completes_draw(target, candidate, go, disk, strict, path);
                lemma_completes_weaken(go(path), disk, strict, loose);
            }
            assert(completes(Program::Fresh(target, candidate, go), disk, loose));
        },
    }
}

} // verus!
