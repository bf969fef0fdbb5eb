//! What operations may ask for, whatever the replies.
use vstd::prelude::*;

use crate::action::{changes, Action, Failure, Metadata, NodeType, Reply, Request, Response};
use crate::apply::{activations, deactivations, failures_of};
use crate::batch::{
    batch, guard_program, item_program, outcome_of, rest_of_batch, ItemView, Outcome,
};
use crate::diff::{
    after_activation, after_deactivation, after_guards, after_refreshes, diff_program, finale,
    guards, left_to_activate, protected_of, refreshes, DiffEnd, DiffFault, OldManifestView,
};
use crate::file_util::{
    activate_program, at, atomic_activate_program, backup_path, check_program, check_source_program,
    chmod_chown_program, clobbers, copy_program, correct, dangling_program, deactivate_program,
    finish, inspect_program, install, keeps_existing, look, make_way, place, swap, swap_with,
    symlink_program, try_swap,
};
use crate::manifest::{takes_source, FileKind, FileView, ManifestView};
use crate::path::parent;
use crate::program::{
    after_reply, and_then, bind, group_play, lemma_bind_reply, play, request, Program,
};
use crate::split::{split, SplitView};
use crate::temporary::is_candidate;

verus! {

/// Whether every action that `program` asks for is `ok` and every value that it
/// returns is as `post` says, whatever the replies. Of the temporary paths that
/// are drawn, only that they are candidates for their target is taken for
/// granted.
#[verifier::opaque]
pub open spec fn obeys<R>(
    program: Program<R>,
    ok: spec_fn(Request) -> bool,
    post: spec_fn(R) -> bool,
) -> bool
    decreases program,
{
    match program {
        Program::Return(value) => post(value),
        Program::Ask(request, go) => ok(request) && forall|r: Response|
            obeys(#[trigger] go(r), ok, post),
        Program::Fresh(target, candidate, go) => {
            &&& ok(Action::PickTemporary(target))
            &&& candidate is Some ==> is_candidate(candidate->0, target)
            &&& forall|path: Seq<u8>| #[trigger]
                is_candidate(path, target) ==> ok(Action::Exists(path))
            &&& forall|path: Seq<u8>|
                is_candidate(path, target) ==> obeys(#[trigger] go(path), ok, post)
        },
    }
}

/// Whether the paths that the replies offer as temporary are candidates for the
/// targets that they were drawn for.
pub open spec fn fair<R>(program: Program<R>, replies: Seq<Response>) -> bool
    decreases replies.len(),
{
    if program is Return || replies.len() == 0 {
        true
    } else {
        &&& match (program, replies[0]) {
            (Program::Fresh(target, None, _), Reply::Candidate(path)) => is_candidate(path, target),
            _ => true,
        }
        &&& fair(after_reply(program, replies[0]), replies.skip(1))
    }
}

/// The actions that `program` asks for as the replies come in, up to the one
/// that it waits for then.
pub open spec fn asked<R>(program: Program<R>, replies: Seq<Response>) -> Seq<Request>
    decreases replies.len(),
{
    match request(program) {
        None => Seq::<Request>::empty(),
        Some(first) => if replies.len() == 0 {
            seq![first]
        } else {
            seq![first] + asked(after_reply(program, replies[0]), replies.skip(1))
        },
    }
}

proof fn lemma_obeys_reply<R>(
    program: Program<R>,
    ok: spec_fn(Request) -> bool,
    post: spec_fn(R) -> bool,
    reply: Response,
)
    requires
        obeys(program, ok, post),
        !(program is Return),
        match (program, reply) {
            (Program::Fresh(target, None, _), Reply::Candidate(path)) => is_candidate(path, target),
            _ => true,
        },
    ensures
        ok(request(program)->0),
        obeys(after_reply(program, reply), ok, post),
{
    reveal(obeys);
    match program {
        Program::Return(_) => {},
        Program::Ask(_, go) => {
            assert(obeys(go(reply), ok, post));
        },
        Program::Fresh(target, candidate, go) => {
            if let Some(path) = candidate {
                assert(obeys(go(path), ok, post));
                assert(obeys(Program::Fresh(target, None, go), ok, post));
            } else if let Reply::Candidate(path) = reply {
                assert(obeys(Program::Fresh(target, Some(path), go), ok, post));
            }
        },
    }
}

/// A program that obeys asks only for what is allowed, on every sequence of
/// replies, and returns only what it is meant to return.
pub proof fn law_obeys<R>(
    program: Program<R>,
    ok: spec_fn(Request) -> bool,
    post: spec_fn(R) -> bool,
    replies: Seq<Response>,
)
    requires
        obeys(program, ok, post),
        fair(program, replies),
    ensures
        forall|i: int|
            0 <= i < asked(program, replies).len() ==> ok(#[trigger] asked(program, replies)[i]),
        play(program, replies).0 matches Program::Return(value) ==> post(value),
    decreases replies.len(),
{
    reveal(play);
    reveal(obeys);
    if !(program is Return) && replies.len() > 0 {
        lemma_obeys_reply(program, ok, post, replies[0]);
        let rest = after_reply(program, replies[0]);
        law_obeys(rest, ok, post, replies.skip(1));
        let later = asked(rest, replies.skip(1));
        assert forall|i: int| 0 <= i < asked(program, replies).len() implies ok(
            #[trigger] asked(program, replies)[i],
        ) by {
            if i > 0 {
                assert(asked(program, replies)[i] == later[i - 1]);
            }
        }
    } else if !(program is Return) {
        lemma_obeys_reply(program, ok, post, Reply::Digest(None));
    }
}

/// Programs in sequence obey if each of them does.
pub proof fn lemma_obeys_bind<A, B>(
    first: Program<A>,
    next: spec_fn(A) -> Program<B>,
    ok: spec_fn(Request) -> bool,
    mid: spec_fn(A) -> bool,
    post: spec_fn(B) -> bool,
)
    requires
        obeys(first, ok, mid),
        forall|value: A| mid(value) ==> obeys(#[trigger] next(value), ok, post),
    ensures
        obeys(bind(first, next), ok, post),
    decreases first,
{
    reveal(obeys);
    match first {
        Program::Return(_) => {},
        Program::Ask(_, go) => {
            let later = bind(first, next)->Ask_1;
            assert forall|r: Response| obeys(#[trigger] later(r), ok, post) by {
                assert(obeys(go(r), ok, mid));
                lemma_obeys_bind(go(r), next, ok, mid, post);
            }
        },
        Program::Fresh(target, _, go) => {
            let later = bind(first, next)->Fresh_2;
            assert forall|path: Seq<u8>| is_candidate(path, target) implies obeys(
                #[trigger] later(path),
                ok,
                post,
            ) by {
                assert(obeys(go(path), ok, mid));
                lemma_obeys_bind(go(path), next, ok, mid, post);
            }
        },
    }
}

pub broadcast proof fn lemma_obeys_return<R>(
    value: R,
    ok: spec_fn(Request) -> bool,
    post: spec_fn(R) -> bool,
)
    ensures
        #[trigger] obeys(Program::Return(value), ok, post) == post(value),
{
    reveal(obeys);
}

pub broadcast proof fn lemma_obeys_ask<R>(
    request: Request,
    go: spec_fn(Response) -> Program<R>,
    ok: spec_fn(Request) -> bool,
    post: spec_fn(R) -> bool,
)
    ensures
        #[trigger] obeys(Program::Ask(request, go), ok, post) == (ok(request) && forall|r: Response|
            obeys(#[trigger] go(r), ok, post)),
{
    reveal(obeys);
    if obeys(Program::Ask(request, go), ok, post) {
        assert forall|r: Response| obeys(#[trigger] go(r), ok, post) by {
            lemma_obeys_reply(Program::Ask(request, go), ok, post, r);
        }
    }
    if ok(request) && forall|r: Response| obeys(#[trigger] go(r), ok, post) {
        assert(obeys(Program::Ask(request, go), ok, post));
    }
}

pub broadcast proof fn lemma_obeys_fresh<R>(
    target: Seq<u8>,
    go: spec_fn(Seq<u8>) -> Program<R>,
    ok: spec_fn(Request) -> bool,
    post: spec_fn(R) -> bool,
)
    ensures
        #[trigger] obeys(Program::Fresh(target, None, go), ok, post) == (ok(
            Action::PickTemporary(target),
        ) && (forall|path: Seq<u8>| #[trigger]
            is_candidate(path, target) ==> ok(Action::Exists(path))) && (forall|path: Seq<u8>|
            is_candidate(path, target) ==> obeys(#[trigger] go(path), ok, post))),
{
    reveal(obeys);
    if obeys(Program::Fresh(target, None, go), ok, post) {
        assert forall|path: Seq<u8>| is_candidate(path, target) implies obeys(
            #[trigger] go(path),
            ok,
            post,
        ) by {
            lemma_obeys_reply(Program::Fresh(target, None, go), ok, post, Reply::Candidate(path));
            lemma_obeys_reply(
                Program::Fresh(target, Some(path), go),
                ok,
                post,
                Reply::Answer(Ok(false)),
            );
        }
    }
    if ok(Action::PickTemporary(target)) && (forall|path: Seq<u8>| #[trigger]
        is_candidate(path, target) ==> ok(Action::Exists(path))) && (forall|path: Seq<u8>|
        is_candidate(path, target) ==> obeys(#[trigger] go(path), ok, post)) {
        assert(obeys(Program::Fresh(target, None, go), ok, post));
    }
}

/// Nothing is said of what is returned.
pub open spec fn anything<R>() -> spec_fn(R) -> bool {
    |_value: R| true
}

pub broadcast proof fn lemma_obeys_sequence<A, B>(
    first: Program<A>,
    next: spec_fn(A) -> Program<B>,
    ok: spec_fn(Request) -> bool,
)
    requires
        obeys(first, ok, anything()),
        forall|value: A| obeys(#[trigger] next(value), ok, anything()),
    ensures
        #[trigger] obeys(bind(first, next), ok, anything()),
{
    lemma_obeys_bind(first, next, ok, anything(), anything());
}

pub broadcast proof fn lemma_obeys_and_then<A, B>(
    first: Program<Result<A, Failure>>,
    next: spec_fn(A) -> Program<Result<B, Failure>>,
    ok: spec_fn(Request) -> bool,
)
    requires
        obeys(first, ok, anything()),
        forall|value: A| obeys(#[trigger] next(value), ok, anything()),
    ensures
        #[trigger] obeys(and_then(first, next), ok, anything()),
{
    broadcast use {lemma_obeys_return, lemma_obeys_sequence};

}

pub broadcast group group_obeys {
    lemma_obeys_return,
    lemma_obeys_ask,
    lemma_obeys_fresh,
    lemma_obeys_sequence,
    lemma_obeys_and_then,
}

/// Whether every action that leaves the file system as it is, is ok.
pub open spec fn permits_looking(ok: spec_fn(Request) -> bool) -> bool {
    forall|r: Request| !changes(r) ==> #[trigger] ok(r)
}

proof fn lemma_check_conduct(
    file: FileView,
    metadata: Option<Metadata>,
    ok: spec_fn(Request) -> bool,
)
    requires
        permits_looking(ok),
    ensures
        obeys(check_program(file, metadata), ok, anything()),
{
    broadcast use group_obeys;

}

proof fn lemma_look_conduct(file: FileView, seen: Metadata, ok: spec_fn(Request) -> bool)
    requires
        permits_looking(ok),
    ensures
        obeys(look(file.target), ok, anything()),
        obeys(check_source_program(file), ok, anything()),
        obeys(dangling_program(file.target, seen), ok, anything()),
{
    broadcast use group_obeys;

}

/// Whether an action sets the mode or the owner of `path`.
pub open spec fn sets_attributes(r: Request, path: Seq<u8>) -> bool {
    match r {
        Action::SetPermissions(p, _) => p == path,
        Action::SetLinkPermissions(p, _) => p == path,
        Action::Chown(p, _, _) => p == path,
        Action::Lchown(p, _, _) => p == path,
        _ => false,
    }
}

/// Whether an action removes what is at `path`.
pub open spec fn removes(r: Request, path: Seq<u8>) -> bool {
    match r {
        Action::RemoveFile(p) => p == path,
        Action::RemoveDir(p) => p == path,
        Action::RemoveDirAll(p) => p == path,
        _ => false,
    }
}

/// Whether an action makes a copy or a link at `path`.
pub open spec fn makes(r: Request, path: Seq<u8>) -> bool {
    match r {
        Action::Copy(_, p) => p == path,
        Action::Symlink(_, p) => p == path,
        _ => false,
    }
}

/// Whether an action belongs to making a copy or a link at `path`.
pub open spec fn placing(r: Request, path: Seq<u8>) -> bool {
    ||| r == Action::CreateDirAll(parent(path)->0)
    ||| makes(r, path)
    ||| sets_attributes(r, path)
}

/// Whether an action belongs to replacing the target in one step by way of
/// `temporary`.
pub open spec fn swapping(r: Request, target: Seq<u8>, temporary: Seq<u8>) -> bool {
    ||| placing(r, temporary)
    ||| r == Action::Rename(temporary, target)
    ||| r == Action::RemoveFile(temporary)
}

/// Whether an action belongs to getting what is at the target out of the way.
pub open spec fn displacing(file: FileView, clobber: bool, prefix: Seq<u8>, r: Request) -> bool {
    if clobber || keeps_existing(file) {
        removes(r, file.target)
    } else {
        ||| removes(r, backup_path(file.target, prefix))
        ||| r == Action::Rename(file.target, backup_path(file.target, prefix))
    }
}

/// Whether an action is one of the changes that activating an entry is made of.
pub open spec fn activating(file: FileView, clobber: bool, prefix: Seq<u8>, r: Request) -> bool {
    match file.kind {
        FileKind::Modify => sets_attributes(r, file.target),
        FileKind::Delete => removes(r, file.target),
        FileKind::Directory => {
            ||| r == Action::CreateDirAll(file.target)
            ||| sets_attributes(r, file.target)
            ||| displacing(file, clobber, prefix, r)
        },
        _ => {
            ||| placing(r, file.target)
            ||| displacing(file, clobber, prefix, r)
            ||| clobber && exists|temporary: Seq<u8>| #[trigger]
                is_candidate(temporary, file.target) && swapping(r, file.target, temporary)
        },
    }
}

/// Nothing is changed but by what activating the entry is made of.
pub open spec fn only_activating(file: FileView, clobber: bool, prefix: Seq<u8>) -> spec_fn(
    Request,
) -> bool {
    |r: Request| changes(r) ==> activating(file, clobber, prefix, r)
}

proof fn lemma_attributes_conduct(file: FileView, ok: spec_fn(Request) -> bool)
    requires
        permits_looking(ok),
        forall|r: Request| sets_attributes(r, file.target) ==> #[trigger] ok(r),
    ensures
        obeys(chmod_chown_program(file), ok, anything()),
        obeys(finish(file), ok, anything()),
{
    broadcast use group_obeys;

}

proof fn lemma_place_conduct(file: FileView, ok: spec_fn(Request) -> bool)
    requires
        permits_looking(ok),
        forall|r: Request| placing(r, file.target) ==> #[trigger] ok(r),
    ensures
        obeys(copy_program(file), ok, anything()),
        obeys(symlink_program(file), ok, anything()),
        obeys(place(file), ok, anything()),
{
    broadcast use group_obeys;

    lemma_attributes_conduct(file, ok);
}

proof fn lemma_swap_conduct(file: FileView, ok: spec_fn(Request) -> bool)
    requires
        permits_looking(ok),
        forall|r: Request, temporary: Seq<u8>|
            is_candidate(temporary, file.target) && #[trigger] swapping(
                r,
                file.target,
                temporary,
            ) ==> ok(r),
    ensures
        obeys(swap(file), ok, anything()),
{
    broadcast use group_obeys;

    assert forall|temporary: Seq<u8>| is_candidate(temporary, file.target) implies obeys(
        #[trigger] swap_with(file, temporary),
        ok,
        anything(),
    ) by {
        let aside = at(file, temporary);
        assert forall|r: Request| placing(r, aside.target) implies #[trigger] ok(r) by {
            assert(swapping(r, file.target, temporary));
        }
        lemma_place_conduct(aside, ok);
        assert(swapping(Action::Rename(temporary, file.target), file.target, temporary));
        assert(swapping(Action::RemoveFile(temporary), file.target, temporary));
    }
}

proof fn lemma_atomic_conduct(file: FileView, seen: Metadata, ok: spec_fn(Request) -> bool)
    requires
        permits_looking(ok),
        takes_source(file.kind) ==> forall|r: Request, temporary: Seq<u8>|
            is_candidate(temporary, file.target) && #[trigger] swapping(
                r,
                file.target,
                temporary,
            ) ==> ok(r),
    ensures
        obeys(atomic_activate_program(file, seen), ok, anything()),
{
    broadcast use group_obeys;

    if takes_source(file.kind) {
        lemma_swap_conduct(file, ok);
    }
}

proof fn lemma_make_way_conduct(
    file: FileView,
    metadata: Option<Metadata>,
    clobber: bool,
    prefix: Seq<u8>,
    ok: spec_fn(Request) -> bool,
)
    requires
        permits_looking(ok),
        metadata is Some && (takes_source(file.kind) || file.kind is Directory) ==> forall|
            r: Request,
        |
            displacing(file, clobber, prefix, r) ==> #[trigger] ok(r),
    ensures
        obeys(make_way(file, metadata, clobber, prefix), ok, anything()),
{
    broadcast use group_obeys;

    if let Some(seen) = metadata {
        lemma_look_conduct(file, seen, ok);
    }
}

proof fn lemma_install_conduct(
    file: FileView,
    metadata: Option<Metadata>,
    clobber: bool,
    prefix: Seq<u8>,
)
    ensures
        obeys(
            install(file, metadata),
            only_activating(file, clobber, prefix),
            anything(),
        ),
{
    broadcast use group_obeys;

    let ok = only_activating(file, clobber, prefix);
    match file.kind {
        FileKind::Modify => {
            lemma_attributes_conduct(file, ok);
        },
        FileKind::Delete => {},
        FileKind::Directory => {
            lemma_attributes_conduct(file, ok);
        },
        _ => {
            lemma_place_conduct(file, ok);
        },
    }
}

/// Every change that activating an entry makes is one that it is made of: it is
/// at the target, or at a random name beside it on its way there; it is at the
/// backup path, where what is at the target may not be thrown away; or it
/// creates the directory of the target.
pub proof fn law_activation_conduct(
    file: FileView,
    clobber_by_default: Option<bool>,
    prefix: Seq<u8>,
)
    ensures
        obeys(
            activate_program(file, clobber_by_default, prefix),
            only_activating(file, clobbers(file.clobber, clobber_by_default), prefix),
            anything(),
        ),
{
    broadcast use group_obeys;

    let clobber = clobbers(file.clobber, clobber_by_default);
    let ok = only_activating(file, clobber, prefix);
    assert forall|metadata: Option<Metadata>| obeys(
        #[trigger] correct(file, metadata, clobber, prefix),
        ok,
        anything(),
    ) by {
        lemma_check_conduct(file, metadata, ok);
        lemma_make_way_conduct(file, metadata, clobber, prefix, ok);
        lemma_install_conduct(file, metadata, clobber, prefix);
    }
    assert forall|metadata: Option<Metadata>| obeys(
        #[trigger] try_swap(file, metadata, clobber),
        ok,
        anything(),
    ) by {
        if clobber {
            if let Some(seen) = metadata {
                lemma_atomic_conduct(file, seen, ok);
            }
        }
    }
    lemma_look_conduct(
        file,
        Metadata { node: NodeType::Other, mode: 0, uid: 0, gid: 0, len: 0 },
        ok,
    );
}

proof fn lemma_obeys_weaken<R>(
    program: Program<R>,
    strict: spec_fn(Request) -> bool,
    loose: spec_fn(Request) -> bool,
    post: spec_fn(R) -> bool,
)
    requires
        obeys(program, strict, post),
        forall|r: Request| strict(r) ==> #[trigger] loose(r),
    ensures
        obeys(program, loose, post),
    decreases program,
{
    reveal(obeys);
    match program {
        Program::Return(_) => {},
        Program::Ask(_, go) => {
            assert forall|r: Response| obeys(#[trigger] go(r), loose, post) by {
                lemma_obeys_weaken(go(r), strict, loose, post);
            }
        },
        Program::Fresh(target, _, go) => {
            assert forall|path: Seq<u8>| is_candidate(path, target) implies obeys(
                #[trigger] go(path),
                loose,
                post,
            ) by {
                lemma_obeys_weaken(go(path), strict, loose, post);
            }
        },
    }
}

/// Where what is at the target may not be thrown away, activating an entry that
/// is no delete never removes it; it is moved aside at most. A copy that has
/// `clobber` set to `false` is the exception that removes a link that leads
/// nowhere, and so is a prefix that moves a target onto itself.
pub proof fn law_activation_spares_target(
    file: FileView,
    clobber_by_default: Option<bool>,
    prefix: Seq<u8>,
)
    requires
        !clobbers(file.clobber, clobber_by_default),
        !keeps_existing(file),
        !(file.kind is Delete),
        backup_path(file.target, prefix) != file.target,
    ensures
        obeys(
            activate_program(file, clobber_by_default, prefix),
            |r: Request| !removes(r, file.target),
            anything(),
        ),
{
    law_activation_conduct(file, clobber_by_default, prefix);
    lemma_obeys_weaken(
        activate_program(file, clobber_by_default, prefix),
        only_activating(file, clobbers(file.clobber, clobber_by_default), prefix),
        |r: Request| !removes(r, file.target),
        anything(),
    );
}

/// Whether an action is one of the changes that deactivating an entry is made
/// of: the removal of the target; for a directory only if it is empty; and for
/// modifies and deletes nothing.
pub open spec fn deactivating(file: FileView, r: Request) -> bool {
    match file.kind {
        FileKind::Delete => false,
        FileKind::Modify => false,
        FileKind::Directory => r == Action::RemoveDir(file.target),
        _ => r == Action::RemoveFile(file.target) || r == Action::RemoveDirAll(file.target),
    }
}

/// Every change that deactivating an entry makes is the removal of its target,
/// and an entry with `deactivate` set to `false` is not even looked at.
pub proof fn law_deactivation_conduct(file: FileView)
    ensures
        obeys(
            deactivate_program(file),
            |r: Request| changes(r) ==> deactivating(file, r),
            anything(),
        ),
        file.deactivate == Some(false) ==> obeys(
            deactivate_program(file),
            |r: Request| false,
            |done: Result<(), Failure>| done is Ok,
        ),
{
    broadcast use group_obeys;

    let ok = |r: Request| changes(r) ==> deactivating(file, r);
    assert forall|metadata: Option<Metadata>| obeys(
        #[trigger] check_program(file, metadata),
        ok,
        anything(),
    ) by {
        lemma_check_conduct(file, metadata, ok);
    }
}

/// Nothing is changed.
pub open spec fn only_looking() -> spec_fn(Request) -> bool {
    |r: Request| !changes(r)
}

/// Finding out whether a target is as an entry says, and whether it has to be
/// protected, changes nothing.
pub proof fn law_looking_conduct(
    old_file: FileView,
    new_file: FileView,
    clobber_by_default: Option<bool>,
)
    ensures
        obeys(inspect_program(old_file), only_looking(), anything()),
        obeys(guard_program(old_file, new_file, clobber_by_default), only_looking(), anything()),
{
    broadcast use group_obeys;

    assert forall|metadata: Option<Metadata>| obeys(
        #[trigger] check_program(old_file, metadata),
        only_looking(),
        anything(),
    ) by {
        lemma_check_conduct(old_file, metadata, only_looking());
    }
    assert forall|seen: Metadata| obeys(
        #[trigger] dangling_program(new_file.target, seen),
        only_looking(),
        anything(),
    ) by {
        lemma_look_conduct(new_file, seen, only_looking());
    }
    assert(obeys(inspect_program(old_file), only_looking(), anything()));
}

pub(crate) proof fn lemma_batch_conduct(
    items: Seq<ItemView>,
    done: Seq<Outcome>,
    clobber_by_default: Option<bool>,
    prefix: Seq<u8>,
    ok: spec_fn(Request) -> bool,
)
    requires
        forall|i: int|
            0 <= i < items.len() ==> obeys(
                item_program(#[trigger] items[i], clobber_by_default, prefix),
                ok,
                anything(),
            ),
    ensures
        obeys(batch(items, done, clobber_by_default, prefix), ok, anything()),
    decreases items.len(),
{
    broadcast use group_obeys;

    if items.len() > 0 {
        let next = rest_of_batch(items, done, clobber_by_default, prefix);
        assert forall|result: Result<Outcome, Failure>| obeys(
            #[trigger] next(result),
            ok,
            anything(),
        ) by {
            assert forall|i: int| 0 <= i < items.skip(1).len() implies obeys(
                item_program(#[trigger] items.skip(1)[i], clobber_by_default, prefix),
                ok,
                anything(),
            ) by {
                assert(items.skip(1)[i] == items[i + 1]);
            }
            lemma_batch_conduct(
                items.skip(1),
                done.push(outcome_of(result)),
                clobber_by_default,
                prefix,
                ok,
            );
        }
    }
}

/// Whether every value that `program` returns is as `post` says, whatever the
/// replies.
pub open spec fn yields<R>(program: Program<R>, post: spec_fn(R) -> bool) -> bool
    decreases program,
{
    match program {
        Program::Return(value) => post(value),
        Program::Ask(_, go) => forall|r: Response| yields(#[trigger] go(r), post),
        Program::Fresh(_, _, go) => forall|path: Seq<u8>| yields(#[trigger] go(path), post),
    }
}

proof fn lemma_yields_bind<A, B>(
    first: Program<A>,
    next: spec_fn(A) -> Program<B>,
    post: spec_fn(B) -> bool,
)
    requires
        forall|value: A| yields(#[trigger] next(value), post),
    ensures
        yields(bind(first, next), post),
    decreases first,
{
    match first {
        Program::Return(_) => {},
        Program::Ask(_, go) => {
            let later = bind(first, next)->Ask_1;
            assert forall|r: Response| yields(#[trigger] later(r), post) by {
                lemma_yields_bind(go(r), next, post);
            }
        },
        Program::Fresh(_, _, go) => {
            let later = bind(first, next)->Fresh_2;
            assert forall|path: Seq<u8>| yields(#[trigger] later(path), post) by {
                lemma_yields_bind(go(path), next, post);
            }
        },
    }
}

proof fn lemma_yields_play<R>(
    program: Program<R>,
    post: spec_fn(R) -> bool,
    replies: Seq<Response>,
)
    requires
        yields(program, post),
    ensures
        play(program, replies).0 matches Program::Return(value) ==> post(value),
    decreases replies.len(),
{
    reveal(play);
    if !(program is Return) && replies.len() > 0 {
        let rest = after_reply(program, replies[0]);
        match program {
            Program::Return(_) => {},
            Program::Ask(_, go) => {
                assert(yields(go(replies[0]), post));
            },
            Program::Fresh(target, candidate, go) => {
                assert(yields(Program::Fresh(target, None, go), post));
                if let Some(path) = candidate {
                    assert(yields(go(path), post));
                } else if let Reply::Candidate(path) = replies[0] {
                    assert(yields(Program::Fresh(target, Some(path), go), post));
                }
            },
        }
        lemma_yields_play(rest, post, replies.skip(1));
    }
}

proof fn lemma_asked_bind<A, B>(
    first: Program<A>,
    next: spec_fn(A) -> Program<B>,
    replies: Seq<Response>,
)
    ensures
        fair(bind(first, next), replies) ==> fair(first, replies),
        play(first, replies).0 matches Program::Return(value) ==> asked(bind(first, next), replies)
            == asked(first, replies) + asked(next(value), play(first, replies).1),
    decreases replies.len(),
{
    reveal(play);
    if first is Return {
        assert(asked(first, replies) =~= Seq::<Request>::empty());
        assert(asked(first, replies) + asked(next(first->Return_0), replies) =~= asked(
            bind(first, next),
            replies,
        ));
    } else if replies.len() > 0 {
        lemma_bind_reply(first, next, replies[0]);
        let rest = after_reply(first, replies[0]);
        lemma_asked_bind(rest, next, replies.skip(1));
        if let Program::Return(value) = play(first, replies).0 {
            assert(asked(bind(first, next), replies) =~= asked(first, replies) + asked(
                next(value),
                play(first, replies).1,
            ));
        }
    }
}

/// The refusal for the sake of targets that have to be protected does not come.
pub open spec fn not_protected() -> spec_fn(DiffEnd) -> bool {
    |end: DiffEnd| !is_refusal(end)
}

/// Whether a delta was refused for the sake of targets that have to be protected.
pub open spec fn is_refusal(end: DiffEnd) -> bool {
    end.result matches Err(DiffFault::ProtectedTargets(_))
}

proof fn lemma_finale_not_protected(
    files: Seq<FileView>,
    failures: Seq<(Seq<u8>, Failure)>,
    clobber_by_default: Option<bool>,
    prefix: Seq<u8>,
)
    ensures
        yields(finale(files, failures, clobber_by_default, prefix), not_protected()),
{
    let next = after_activation(activations(files), failures);
    lemma_yields_bind(
        batch(activations(files), Seq::<Outcome>::empty(), clobber_by_default, prefix),
        next,
        not_protected(),
    );
}

proof fn lemma_after_deactivation_not_protected(
    parts: SplitView,
    clobber_by_default: Option<bool>,
    prefix: Seq<u8>,
    outcomes: Seq<Outcome>,
)
    ensures
        yields(
            after_deactivation(parts, clobber_by_default, prefix)(outcomes),
            not_protected(),
        ),
{
    let failures = failures_of(deactivations(parts.removed), outcomes);
    let next = after_refreshes(parts, failures, clobber_by_default, prefix);
    assert forall|later: Seq<Outcome>| yields(#[trigger] next(later), not_protected()) by {
        lemma_finale_not_protected(
            left_to_activate(parts, later, clobber_by_default),
            failures + failures_of(refreshes(parts.updated), later),
            clobber_by_default,
            prefix,
        );
    }
    lemma_yields_bind(
        batch(refreshes(parts.updated), Seq::<Outcome>::empty(), clobber_by_default, prefix),
        next,
        not_protected(),
    );
}

/// A delta that is refused because targets have to be protected has changed
/// nothing: every action up to the refusal only looked.
pub proof fn law_refused_diff_changes_nothing(
    new: ManifestView,
    old: OldManifestView,
    prefix: Seq<u8>,
    fallback: bool,
    replies: Seq<Response>,
)
    requires
        fair(diff_program(new, old, prefix, fallback), replies),
        play(diff_program(new, old, prefix, fallback), replies).0 matches Program::Return(end)
            && is_refusal(end),
    ensures
        forall|i: int|
            0 <= i < asked(diff_program(new, old, prefix, fallback), replies).len() ==> !changes(
                #[trigger] asked(diff_program(new, old, prefix, fallback), replies)[i],
            ),
{
    broadcast use group_play;

    let program = diff_program(new, old, prefix, fallback);
    let cbd = new.clobber_by_default;
    match old {
        OldManifestView::Found(manifest) => {
            let parts = split(manifest.files, new.files);
            let items = guards(parts.updated);
            let first = batch(items, Seq::<Outcome>::empty(), cbd, prefix);
            let next = after_guards(parts, cbd, prefix);
            assert forall|i: int| 0 <= i < items.len() implies obeys(
                item_program(#[trigger] items[i], cbd, prefix),
                only_looking(),
                anything(),
            ) by {
                law_looking_conduct(parts.updated[i].0, parts.updated[i].1, cbd);
            }
            lemma_batch_conduct(items, Seq::<Outcome>::empty(), cbd, prefix, only_looking());
            lemma_asked_bind(first, next, replies);
            law_obeys(first, only_looking(), anything(), replies);
            let outcomes = play(first, replies).0->Return_0;
            let rest = play(first, replies).1;
            assert(play(next(outcomes), rest).0 == play(program, replies).0);
            if protected_of(items, outcomes).len() == 0 {
                let taken = batch(
                    deactivations(parts.removed),
                    Seq::<Outcome>::empty(),
                    cbd,
                    prefix,
                );
                let last = after_deactivation(parts, cbd, prefix);
                assert forall|done: Seq<Outcome>| yields(
                    #[trigger] last(done),
                    not_protected(),
                ) by {
                    lemma_after_deactivation_not_protected(parts, cbd, prefix, done);
                }
                lemma_yields_bind(taken, last, not_protected());
                lemma_yields_play(next(outcomes), not_protected(), rest);
            }
            assert(asked(next(outcomes), rest) =~= Seq::<Request>::empty());
            assert(asked(program, replies) =~= asked(first, replies));
        },
        OldManifestView::Missing => {
            if fallback {
                lemma_finale_not_protected(
                    new.files,
                    Seq::<(Seq<u8>, Failure)>::empty(),
                    cbd,
                    prefix,
                );
                lemma_yields_play(program, not_protected(), replies);
            }
        },
        _ => {},
    }
}

} // verus!
