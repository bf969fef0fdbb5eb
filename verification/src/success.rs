//! What the operations on one entry bring about where nothing stands in their
//! way.
use vstd::prelude::*;

use crate::action::{Action, Failure, Metadata, Reply, Response};
use crate::attain::{
    activation_effect, effect_check_passes, effect_make_way, is_as_described, is_displaced,
    is_skipped, is_sound, law_activation_attains, law_replacement_is_whole, nothing_left,
    other_place, passes_check, plain_source, source_apart, way_made,
};
use crate::batch::{refresh_program, swap_program, Outcome, Refresh};
use crate::effect::{
    backed_up, clear_of, copied, effect_clear, effect_place_aside, effect_prefix_move, established,
    involves_directory, is_direct, lasting_mode, lemma_below_self, lemma_clear_of_spare,
    lemma_beside_preserves, lemma_grown_spares, lemma_parent_key, lemma_resolve_preserved,
    lemma_spare_key, linked, ready, same_beside, saw, shrunk,
};
use crate::file_util::{
    activate_program, at, atomic_activate_program, backup_path, bring_about, check_program,
    chmod_chown_program, clear, clobbers, copy_from, copy_program, correct, deactivate_program,
    delete_program, directory_program, discard, finish, in_the_way, install, keeps_existing,
    link_to, make_copy, make_link, make_way, mkdir_program, move_aside, place, prefix_move_program,
    remove_existing, replace, set_owner, swap, swap_with, symlink_program, try_swap, uninstall,
    withdraw, with_parent,
};
use crate::manifest::{takes_source, FileKind, FileView};
use crate::model::{
    achieves, below, group_achieves, grown, holds_something, is_reachable, is_spare, link_limit,
    relocated, same_frame, same_outside, shows, Disk, Key, Node,
};
use crate::path::{absolute, file_name, parent, parts};
use crate::program::{and_then, done_in, group_play, must, play, request, Program};
use crate::progress::{
    completes, group_completes, is_passable, lemma_completes_bind, lemma_completes_both,
    lemma_completes_then,
};

verus! {

/// Whether there is a way to a target, or can be made: it ends in a name, what is
/// on the way are directories, and where its directory is there the way is whole.
pub open spec fn way_open(disk: Disk, target: Seq<u8>) -> bool {
    let key = disk.key(target);
    &&& file_name(target) is Some
    &&& !disk.hidden.contains(key.drop_last())
    &&& forall|k: Key|
        0 < k.len() < key.len() && #[trigger] below(key, k) && disk.has(k) ==> is_passable(disk, k)
    &&& disk.has(key.drop_last()) ==> is_reachable(disk, key)
}

/// The way to a node leads through its directory.
proof fn lemma_reachable_below(disk: Disk, key: Key)
    requires
        key.len() > 0,
        disk.has(key.drop_last()),
        is_reachable(disk, key.drop_last()),
    ensures
        is_reachable(disk, key),
{
    let above = key.drop_last();
    assert forall|k: Key| 0 < k.len() < key.len() && #[trigger] below(key, k) implies disk.has(
        k,
    ) by {
        assert(key.take(k.len() as int) =~= above.take(k.len() as int));
        if k.len() == above.len() {
            assert(above.take(above.len() as int) =~= above);
            assert(k == above);
        } else {
            assert(below(above, k));
        }
    }
}

proof fn lemma_open_above(disk: Disk, key: Key)
    requires
        key.len() > 0,
        forall|k: Key|
            0 < k.len() < key.len() && #[trigger] below(key, k) && disk.has(k) ==> is_passable(
                disk,
                k,
            ),
    ensures
        forall|k: Key|
            0 < k.len() < key.drop_last().len() && #[trigger] below(key.drop_last(), k) && disk.has(
                k,
            ) ==> is_passable(disk, k),
{
    let above = key.drop_last();
    assert forall|k: Key|
        0 < k.len() < above.len() && #[trigger] below(above, k) && disk.has(k) implies is_passable(
        disk,
        k,
    ) by {
        assert(key.take(k.len() as int) =~= above.take(k.len() as int));
        assert(below(key, k));
    }
}

proof fn progress_with_parent(
    target: Seq<u8>,
    next: Program<Result<(), Failure>>,
    disk: Disk,
    post: spec_fn(Result<(), Failure>, Disk) -> bool,
)
    requires
        way_open(disk, target),
        forall|between: Disk|
            grown(disk, between, disk.key(target).drop_last()) && is_reachable(
                between,
                disk.key(target),
            ) ==> #[trigger] completes(next, between, post),
    ensures
        completes(with_parent(target, next), disk, post),
{
    broadcast use group_completes;

    lemma_parent_key(disk, target);
    let key = disk.key(target);
    let above = key.drop_last();
    let directory = parent(target)->0;
    lemma_open_above(disk, key);
    assert(grown(disk, disk, above));
    assert forall|between: Disk|
        grown(disk, between, above) && between.has(above) && is_reachable(
            between,
            above,
        ) implies #[trigger] completes(next, between, post) by {
        lemma_reachable_below(between, key);
    }
}

/// Mode and owner can be set on what is at the target.
proof fn progress_attributes(
    file: FileView,
    disk: Disk,
    post: spec_fn(Result<(), Failure>, Disk) -> bool,
)
    requires
        is_direct(disk, file),
        !disk.hidden.contains(disk.key(file.target)),
        forall|after: Disk| #[trigger] post(Ok(()), after),
    ensures
        completes(chmod_chown_program(file), disk, post),
{
    broadcast use group_completes;

    let key = disk.key(file.target);
    let node = disk.nodes[key];
    assert(!(node.content is Link) ==> disk.resolved(file.target) == Some(key));
    assert forall|seen: Metadata, found: Disk|
        shows(node, seen) && same_frame(disk, found) && found.has(key) && found.nodes[key].content
            == node.content implies #[trigger] completes(set_owner(file, seen), found, post) by {
        assert(found.key(file.target) == key);
        assert(!(node.content is Link) ==> found.resolved(file.target) == Some(key));
    }
}

proof fn progress_finish(
    file: FileView,
    disk: Disk,
    post: spec_fn(Result<(), Failure>, Disk) -> bool,
)
    requires
        is_direct(disk, file),
        !disk.hidden.contains(disk.key(file.target)),
        forall|after: Disk| #[trigger] post(Ok(()), after),
    ensures
        completes(finish(file), disk, post),
{
    broadcast use group_completes;

    progress_attributes(file, disk, post);
}

/// Whether the source of a copy or a link can be had: a link that is not to be
/// followed takes any source.
pub open spec fn source_open(disk: Disk, file: FileView) -> bool {
    &&& file.source is Some
    &&& clear_of(disk, disk.key(file.source->0), link_limit(), disk.key(file.target))
    &&& file.kind is Copy ==> disk.contents(file.source->0) is Some
    &&& file.kind is Symlink && file.follow_symlinks != Some(false) ==> disk.resolved(
        file.source->0,
    ) is Some
}

proof fn lemma_source_grown(disk: Disk, between: Disk, file: FileView)
    requires
        way_open(disk, file.target),
        source_open(disk, file),
        grown(disk, between, disk.key(file.target).drop_last()),
    ensures
        between.at(disk.key(file.target)) == disk.at(disk.key(file.target)),
        disk.resolved(file.source->0) matches Some(end) ==> between.resolved(file.source->0)
            == Some(end) && between.at(end) == disk.at(end) && between.has(end) && !(
        between.nodes[end].content is Link),
        same_frame(disk, between),
{
    let key = disk.key(file.target);
    lemma_parent_key(disk, file.target);
    lemma_grown_spares(disk, between, file.target);
    lemma_beside_preserves(disk, between, key);
    lemma_resolve_preserved(
        disk,
        between,
        disk.key(file.source->0),
        link_limit(),
        key,
        key,
    );
}

proof fn progress_link_to(
    file: FileView,
    dest: Seq<u8>,
    disk: Disk,
    post: spec_fn(Result<(), Failure>, Disk) -> bool,
)
    requires
        file.kind is Symlink,
        !disk.has(disk.key(file.target)),
        !disk.hidden.contains(disk.key(file.target)),
        is_reachable(disk, disk.key(file.target)),
        forall|after: Disk| #[trigger] post(Ok(()), after),
    ensures
        completes(link_to(file, dest), disk, post),
{
    broadcast use group_completes;

    let key = disk.key(file.target);
    assert forall|node: Node| node.content is Link implies completes(
        finish(file),
        #[trigger] disk.with(key, node),
        post,
    ) by {
        let made = disk.with(key, node);
        assert(made.key(file.target) == key);
        progress_finish(file, made, post);
    }
}

proof fn progress_symlink(
    file: FileView,
    disk: Disk,
    post: spec_fn(Result<(), Failure>, Disk) -> bool,
)
    requires
        file.kind is Symlink,
        way_open(disk, file.target),
        source_open(disk, file),
        !disk.has(disk.key(file.target)),
        !disk.hidden.contains(disk.key(file.target)),
        forall|after: Disk| #[trigger] post(Ok(()), after),
    ensures
        completes(symlink_program(file), disk, post),
{
    broadcast use group_completes;

    let key = disk.key(file.target);
    assert forall|between: Disk|
        grown(disk, between, key.drop_last()) && is_reachable(
            between,
            key,
        ) implies #[trigger] completes(make_link(file), between, post) by {
        lemma_source_grown(disk, between, file);
        assert(between.key(file.target) == key);
        assert forall|dest: Seq<u8>| completes(
            #[trigger] link_to(file, dest),
            between,
            post,
        ) by {
            progress_link_to(file, dest, between, post);
        }
    }
    progress_with_parent(file.target, make_link(file), disk, post);
}

proof fn progress_copy_from(
    file: FileView,
    found: Seq<u8>,
    disk: Disk,
    post: spec_fn(Result<(), Failure>, Disk) -> bool,
)
    requires
        file.kind is Copy,
        !disk.has(disk.key(file.target)),
        !disk.hidden.contains(disk.key(file.target)),
        is_reachable(disk, disk.key(file.target)),
        disk.contents(found) is Some,
        forall|after: Disk| #[trigger] post(Ok(()), after),
    ensures
        completes(copy_from(file, found), disk, post),
{
    broadcast use group_completes;

    let key = disk.key(file.target);
    assert forall|node: Node| node.content is File implies completes(
        finish(file),
        #[trigger] disk.with(key, node),
        post,
    ) by {
        let made = disk.with(key, node);
        assert(made.key(file.target) == key);
        progress_finish(file, made, post);
    }
}

proof fn progress_copy(
    file: FileView,
    disk: Disk,
    post: spec_fn(Result<(), Failure>, Disk) -> bool,
)
    requires
        file.kind is Copy,
        way_open(disk, file.target),
        source_open(disk, file),
        !disk.has(disk.key(file.target)),
        !disk.hidden.contains(disk.key(file.target)),
        forall|after: Disk| #[trigger] post(Ok(()), after),
    ensures
        completes(copy_program(file), disk, post),
{
    broadcast use group_completes;

    let key = disk.key(file.target);
    assert forall|between: Disk|
        grown(disk, between, key.drop_last()) && is_reachable(
            between,
            key,
        ) implies #[trigger] completes(make_copy(file), between, post) by {
        lemma_source_grown(disk, between, file);
        assert(between.key(file.target) == key);
        assert forall|found: Seq<u8>|
            absolute(found) && between.resolved(file.source->0) == Some(
                parts(found),
            ) implies completes(#[trigger] copy_from(file, found), between, post) by {
            assert(between.resolved(found) == Some(parts(found)));
            progress_copy_from(file, found, between, post);
        }
    }
    progress_with_parent(file.target, make_copy(file), disk, post);
}

/// Whether a directory is at a path, or can be made there.
pub open spec fn directory_open(disk: Disk, path: Seq<u8>) -> bool {
    let key = disk.key(path);
    &&& !disk.hidden.contains(key)
    &&& disk.has(key) ==> disk.nodes[key].content is Directory
    &&& forall|k: Key|
        0 < k.len() < key.len() && #[trigger] below(key, k) && disk.has(k) ==> is_passable(disk, k)
}

proof fn progress_directory(
    file: FileView,
    disk: Disk,
    post: spec_fn(Result<(), Failure>, Disk) -> bool,
)
    requires
        file.kind is Directory,
        directory_open(disk, file.target),
        forall|after: Disk| #[trigger] post(Ok(()), after),
    ensures
        completes(directory_program(file), disk, post),
{
    broadcast use group_completes;

    let key = disk.key(file.target);
    assert forall|between: Disk|
        grown(disk, between, key) && between.has(key) implies #[trigger] completes(
        finish(file),
        between,
        post,
    ) by {
        assert(between.key(file.target) == key);
        assert(between.nodes[key].content is Directory) by {
            if disk.has(key) {
                assert(between.at(key) == disk.at(key));
            }
        }
        progress_finish(file, between, post);
    }
    assert(grown(disk, disk, key));
}

proof fn progress_delete(
    path: Seq<u8>,
    seen: Metadata,
    disk: Disk,
    post: spec_fn(Result<(), Failure>, Disk) -> bool,
)
    requires
        disk.has(disk.key(path)),
        shows(disk.nodes[disk.key(path)], seen),
        forall|after: Disk| #[trigger] post(Ok(()), after),
    ensures
        completes(delete_program(path, seen), disk, post),
{
    broadcast use group_completes;

}

/// Whether what is at a target can be moved aside: the backup path can be looked
/// at, there is a way to it, and neither lies below the other.
pub open spec fn room_to_move(disk: Disk, target: Seq<u8>, prefix: Seq<u8>) -> bool {
    let key = disk.key(target);
    let backup = disk.key(backup_path(target, prefix));
    &&& file_name(target) is Some
    &&& !disk.hidden.contains(backup)
    &&& is_reachable(disk, backup)
    &&& !below(key, backup)
    &&& !below(backup, key)
}

proof fn lemma_not_below_prefix(long: Key, short: Key, top: Key)
    requires
        below(long, short),
        !below(long, top),
    ensures
        !below(short, top),
{
    if below(short, top) {
        assert(long.take(top.len() as int) =~= short.take(top.len() as int));
    }
}

proof fn progress_prefix_move(
    target: Seq<u8>,
    prefix: Seq<u8>,
    disk: Disk,
    post: spec_fn(Result<(), Failure>, Disk) -> bool,
)
    requires
        disk.has(disk.key(target)),
        !disk.hidden.contains(disk.key(target)),
        room_to_move(disk, target, prefix),
        forall|after: Disk| #[trigger] post(Ok(()), after),
    ensures
        completes(prefix_move_program(target, prefix), disk, post),
{
    broadcast use group_completes;

    let key = disk.key(target);
    let aside = backup_path(target, prefix);
    let backup = disk.key(aside);
    let always = |done: Result<(), Failure>, after: Disk|
        same_outside(disk, after, backup) && (done is Ok ==> shrunk(disk, after) && (!after.has(
            backup,
        ) || disk.hidden.contains(backup)));
    let fine = |done: Result<(), Failure>, after: Disk| done is Ok;
    let mid = |done: Result<(), Failure>, after: Disk|
        done is Ok && same_outside(disk, after, backup) && !after.has(backup);
    effect_clear(aside, disk, always);
    assert(completes(clear(aside), disk, fine)) by {
        assert forall|seen: Metadata|
            disk.has(backup) && shows(disk.nodes[backup], seen) implies completes(
            #[trigger] delete_program(aside, seen),
            disk,
            fine,
        ) by {
            progress_delete(aside, seen, disk, fine);
        }
    }
    lemma_completes_both(clear(aside), disk, always, fine, mid);
    assert forall|between: Disk| #[trigger] mid(Ok(()), between) implies completes(
        must(Action::Rename(target, aside)),
        between,
        post,
    ) by {
        assert(between.key(target) == key);
        assert(between.key(aside) == backup);
        assert(between.at(key) == disk.at(key));
        assert(is_reachable(between, backup)) by {
            assert forall|k: Key|
                0 < k.len() < backup.len() && #[trigger] below(backup, k) implies between.has(
                k,
            ) by {
                assert(disk.has(k));
                assert(!below(k, backup));
                assert(between.at(k) == disk.at(k));
            }
        }
    }
    lemma_completes_then(
        clear(aside),
        |_done: ()| must(Action::Rename(target, aside)),
        disk,
        mid,
        post,
    );
    assert(completes(
        and_then(clear(aside), |_done: ()| must(Action::Rename(target, aside))),
        disk,
        post,
    ));
}

/// Looking changes nothing, and can always be done.
pub(crate) proof fn progress_check(file: FileView, metadata: Option<Metadata>, disk: Disk)
    ensures
        completes(
            check_program(file, metadata),
            disk,
            |checked: Result<bool, Failure>, after: Disk| after == disk,
        ),
{
    broadcast use group_completes;

}

/// Whether what is at the target has to make way and may not be thrown away.
pub open spec fn must_move(disk: Disk, file: FileView, clobber: bool) -> bool {
    &&& !clobber
    &&& !keeps_existing(file)
    &&& disk.has(disk.key(file.target))
    &&& takes_source(file.kind) || (file.kind is Directory && !(disk.nodes[disk.key(
        file.target,
    )].content is Directory))
}

proof fn progress_make_way(
    file: FileView,
    metadata: Option<Metadata>,
    clobber: bool,
    prefix: Seq<u8>,
    disk: Disk,
    post: spec_fn(Result<bool, Failure>, Disk) -> bool,
)
    requires
        saw(disk, file.target, Ok(metadata)),
        must_move(disk, file, clobber) ==> room_to_move(disk, file.target, prefix),
        forall|free: bool, after: Disk| #[trigger] post(Ok(free), after),
    ensures
        completes(make_way(file, metadata, clobber, prefix), disk, post),
{
    broadcast use group_completes;

    if let Some(seen) = metadata {
        let fine = |done: Result<(), Failure>, after: Disk| done is Ok;
        progress_delete(file.target, seen, disk, fine);
        lemma_completes_then(
            delete_program(file.target, seen),
            |_done: ()| Program::Return(Ok::<bool, Failure>(true)),
            disk,
            fine,
            post,
        );
        assert(completes(remove_existing(file, seen), disk, post));
        if must_move(disk, file, clobber) {
            progress_prefix_move(file.target, prefix, disk, fine);
            lemma_completes_then(
                prefix_move_program(file.target, prefix),
                |_done: ()| Program::Return(Ok::<bool, Failure>(true)),
                disk,
                fine,
                post,
            );
            assert(completes(move_aside(file, prefix), disk, post));
        }
    }
}

/// Whether an entry can be put at its target: the way is open, or what has to be
/// there is; and where something is at the target, the way to it is whole.
pub open spec fn is_open(disk: Disk, file: FileView) -> bool {
    let key = disk.key(file.target);
    &&& !disk.hidden.contains(key)
    &&& takes_source(file.kind) ==> way_open(disk, file.target) && source_open(disk, file) && (
    disk.has(key) ==> is_reachable(disk, key))
    &&& file.kind is Directory ==> forall|k: Key|
        0 < k.len() < key.len() && #[trigger] below(key, k) && disk.has(k) ==> is_passable(disk, k)
    &&& file.kind is Modify ==> disk.has(key)
}

proof fn progress_install_free(
    file: FileView,
    metadata: Option<Metadata>,
    disk: Disk,
    post: spec_fn(Result<(), Failure>, Disk) -> bool,
)
    requires
        is_open(disk, file),
        lasting_mode(file),
        saw(disk, file.target, Ok(metadata)),
        takes_source(file.kind) ==> !disk.has(disk.key(file.target)),
        file.kind is Directory ==> directory_open(disk, file.target),
        file.kind is Modify ==> is_direct(disk, file),
        forall|after: Disk| #[trigger] post(Ok(()), after),
    ensures
        completes(install(file, metadata), disk, post),
{
    broadcast use group_completes;

    match file.kind {
        FileKind::Directory => {
            progress_directory(file, disk, post);
        },
        FileKind::Copy => {
            progress_copy(file, disk, post);
        },
        FileKind::Symlink => {
            progress_symlink(file, disk, post);
        },
        FileKind::Modify => {
            progress_attributes(file, disk, post);
        },
        FileKind::Delete => {
            if let Some(seen) = metadata {
                progress_delete(file.target, seen, disk, post);
            }
        },
    }
}

/// When what was in the way is gone, the entry can be put there.
proof fn lemma_still_open(
    disk: Disk,
    between: Disk,
    file: FileView,
    clobber: bool,
    prefix: Seq<u8>,
)
    requires
        is_open(disk, file),
        source_apart(disk, file, clobber, prefix),
        disk.has(disk.key(file.target)),
        must_move(disk, file, clobber) ==> room_to_move(disk, file.target, prefix),
        way_made(disk, between, file, clobber, prefix, true),
        takes_source(file.kind) || (file.kind is Directory && !(disk.nodes[disk.key(
            file.target,
        )].content is Directory)),
    ensures
        takes_source(file.kind) ==> is_open(between, file) && !between.has(disk.key(file.target)),
        file.kind is Directory ==> directory_open(between, file.target),
{
    let key = disk.key(file.target);
    let other = other_place(disk, file, clobber, prefix);
    assert(between.key(file.target) == key);
    assert forall|k: Key|
        0 < k.len() < key.len() && #[trigger] below(key, k) implies !below(k, key) && !below(
        k,
        other,
    ) by {
        if other != key {
            if must_move(disk, file, clobber) {
                lemma_not_below_prefix(key, k, other);
            }
        }
    }
    assert forall|k: Key|
        0 < k.len() < key.len() && #[trigger] below(key, k) && between.has(k) implies is_passable(
        between,
        k,
    ) by {
        assert(!below(k, key) && !below(k, other));
        if disk.has(k) {
            assert(between.at(k) == disk.at(k));
        }
    }
    if takes_source(file.kind) {
        lemma_parent_key(disk, file.target);
        assert(is_reachable(between, key)) by {
            assert forall|k: Key|
                0 < k.len() < key.len() && #[trigger] below(key, k) implies between.has(k) by {
                assert(disk.has(k));
                assert(between.at(k) == disk.at(k));
            }
        }
        lemma_resolve_preserved(
            disk,
            between,
            disk.key(file.source->0),
            link_limit(),
            key,
            other,
        );
    }
}

proof fn progress_replace(
    file: FileView,
    metadata: Option<Metadata>,
    clobber: bool,
    prefix: Seq<u8>,
    disk: Disk,
    post: spec_fn(Result<(), Failure>, Disk) -> bool,
)
    requires
        is_open(disk, file),
        is_sound(disk, file, clobber, prefix),
        saw(disk, file.target, Ok(metadata)),
        must_move(disk, file, clobber) ==> room_to_move(disk, file.target, prefix),
        clobber ==> !keeps_existing(file),
        forall|after: Disk| #[trigger] post(Ok(()), after),
    ensures
        completes(replace(file, metadata, clobber, prefix), disk, post),
{
    broadcast use group_completes;

    let key = disk.key(file.target);
    if metadata is None || !in_the_way(file.kind, metadata->0) {
        progress_install_free(file, metadata, disk, post);
    } else {
        let always = |free: Result<bool, Failure>, between: Disk|
            match free {
                Ok(answer) => way_made(disk, between, file, clobber, prefix, answer),
                Err(_) => true,
            };
        let fine = |free: Result<bool, Failure>, between: Disk| free is Ok;
        let mid = |free: Result<bool, Failure>, between: Disk|
            free is Ok && way_made(disk, between, file, clobber, prefix, free->Ok_0);
        effect_make_way(file, metadata, clobber, prefix, disk, always);
        progress_make_way(file, metadata, clobber, prefix, disk, fine);
        lemma_completes_both(
            make_way(file, metadata, clobber, prefix),
            disk,
            always,
            fine,
            mid,
        );
        assert forall|free: bool, between: Disk| #[trigger] mid(
            Ok(free),
            between,
        ) implies completes(
            if free {
                install(file, metadata)
            } else {
                Program::Return(Ok(()))
            },
            between,
            post,
        ) by {
            if free {
                lemma_still_open(disk, between, file, clobber, prefix);
                if file.kind is Directory {
                    progress_directory(file, between, post);
                } else if file.kind is Copy {
                    progress_copy(file, between, post);
                } else {
                    progress_symlink(file, between, post);
                }
            }
        }
        lemma_completes_then(
            make_way(file, metadata, clobber, prefix),
            |free: bool|
                if free {
                    install(file, metadata)
                } else {
                    Program::Return(Ok(()))
                },
            disk,
            mid,
            post,
        );
    }
}

proof fn progress_correct(
    file: FileView,
    metadata: Option<Metadata>,
    clobber: bool,
    prefix: Seq<u8>,
    disk: Disk,
    post: spec_fn(Result<(), Failure>, Disk) -> bool,
)
    requires
        is_open(disk, file),
        is_sound(disk, file, clobber, prefix),
        plain_source(disk, file),
        saw(disk, file.target, Ok(metadata)),
        must_move(disk, file, clobber) && !passes_check(disk, file) ==> room_to_move(
            disk,
            file.target,
            prefix,
        ),
        clobber ==> !keeps_existing(file),
        forall|after: Disk| #[trigger] post(Ok(()), after),
    ensures
        completes(correct(file, metadata, clobber, prefix), disk, post),
{
    broadcast use group_completes;

    let always = |checked: Result<bool, Failure>, after: Disk|
        after == disk && (checked == Ok::<bool, Failure>(true) <==> passes_check(disk, file));
    let same = |checked: Result<bool, Failure>, after: Disk| after == disk;
    effect_check_passes(file, metadata, disk);
    progress_check(file, metadata, disk);
    lemma_completes_both(check_program(file, metadata), disk, always, same, always);
    if !passes_check(disk, file) {
        progress_replace(file, metadata, clobber, prefix, disk, post);
    }
    lemma_completes_bind(
        check_program(file, metadata),
        |checked: Result<bool, Failure>|
            if checked == Ok::<bool, Failure>(true) {
                Program::Return(Ok(()))
            } else {
                replace(file, metadata, clobber, prefix)
            },
        disk,
        always,
        post,
    );
}

proof fn progress_place_aside(
    file: FileView,
    temporary: Seq<u8>,
    disk: Disk,
    post: spec_fn(Result<(), Failure>, Disk) -> bool,
)
    requires
        takes_source(file.kind),
        is_open(disk, file),
        disk.has(disk.key(file.target)),
        disk.has(disk.key(file.source->0)),
        is_spare(disk, temporary, file.target),
        forall|after: Disk| #[trigger] post(Ok(()), after),
    ensures
        completes(place(at(file, temporary)), disk, post),
{
    let aside = at(file, temporary);
    let key = disk.key(file.target);
    let spare = disk.key(temporary);
    lemma_spare_key(disk, temporary, file.target);
    lemma_clear_of_spare(disk, disk.key(file.source->0), link_limit(), temporary, file.target);
    assert forall|k: Key| 0 < k.len() < spare.len() && #[trigger] below(spare, k) implies below(
        key,
        k,
    ) && k.len() < key.len() by {
        assert(spare.drop_last().len() == key.drop_last().len());
        assert(spare.take(k.len() as int) =~= spare.drop_last().take(k.len() as int));
        assert(key.take(k.len() as int) =~= key.drop_last().take(k.len() as int));
    }
    assert(is_reachable(disk, spare)) by {
        assert forall|k: Key|
            0 < k.len() < spare.len() && #[trigger] below(spare, k) implies disk.has(k) by {
            assert(below(key, k));
        }
    }
    assert(way_open(disk, temporary));
    if file.kind is Symlink {
        progress_symlink(aside, disk, post);
    } else {
        progress_copy(aside, disk, post);
    }
}

proof fn progress_swap_with(
    file: FileView,
    temporary: Seq<u8>,
    disk: Disk,
    post: spec_fn(Result<bool, Failure>, Disk) -> bool,
)
    requires
        ready(disk, file),
        is_open(disk, file),
        disk.has(disk.key(file.target)),
        !(disk.nodes[disk.key(file.target)].content is Directory),
        disk.has(disk.key(file.source->0)),
        is_spare(disk, temporary, file.target),
        forall|after: Disk| #[trigger] post(Ok(true), after),
    ensures
        completes(swap_with(file, temporary), disk, post),
{
    broadcast use group_completes;

    let key = disk.key(file.target);
    let spare = disk.key(temporary);
    let aside = at(file, temporary);
    lemma_spare_key(disk, temporary, file.target);
    let always = |done: Result<(), Failure>, after: Disk|
        match file.kind {
            FileKind::Symlink => linked(disk, after, at(file, temporary), done),
            _ => copied(disk, after, at(file, temporary), done),
        };
    let fine = |done: Result<(), Failure>, after: Disk| done is Ok;
    let mid = |done: Result<(), Failure>, after: Disk|
        done is Ok && established(disk, after, at(file, temporary));
    effect_place_aside(file, temporary, disk, always);
    progress_place_aside(file, temporary, disk, fine);
    assert forall|done: Result<(), Failure>, after: Disk|
        always(done, after) && fine(done, after) implies #[trigger] mid(done, after) by {
        let unit = done->Ok_0;
        assert(done == Ok::<(), Failure>(unit));
    }
    lemma_completes_both(place(aside), disk, always, fine, mid);
    let next = |placed: Result<(), Failure>|
        match placed {
            Err(failure) => discard(temporary, failure),
            Ok(_) => Program::Ask(
                Action::Rename(temporary, file.target),
                |r: Response|
                    match done_in(r) {
                        Ok(_) => Program::Return(Ok(true)),
                        Err(fault) => discard(temporary, Failure::Io(fault)),
                    },
            ),
        };
    assert forall|placed: Result<(), Failure>, between: Disk| #[trigger] mid(
        placed,
        between,
    ) implies completes(next(placed), between, post) by {
        assert(between.key(temporary) == spare);
        assert(between.key(file.target) == key);
        assert(between.at(key) == disk.at(key));
        assert(is_reachable(between, key)) by {
            assert forall|k: Key|
                0 < k.len() < key.len() && #[trigger] below(key, k) implies between.has(k) by {
                assert(disk.has(k));
                assert(between.at(k) == disk.at(k));
            }
        }
    }
    lemma_completes_bind(place(aside), next, disk, mid, post);
}

/// A target can be replaced in one step; it is not where a directory and
/// something else would take each other's place.
proof fn progress_atomic(
    file: FileView,
    seen: Metadata,
    disk: Disk,
    post: spec_fn(Result<bool, Failure>, Disk) -> bool,
)
    requires
        takes_source(file.kind) ==> {
            &&& ready(disk, file)
            &&& is_open(disk, file)
            &&& disk.has(disk.key(file.source->0))
            &&& !disk.hidden.contains(disk.key(file.source->0))
            &&& seen.node is Directory && disk.nodes[disk.key(file.source->0)].content is Directory
                ==> holds_something(disk, disk.key(file.source->0))
        },
        saw(disk, file.target, Ok(Some(seen))),
        forall|after: Disk|
            (takes_source(file.kind) && !(seen.node is Directory) && !(disk.nodes[disk.key(
                file.source->0,
            )].content is Directory)) ==> #[trigger] post(Ok(true), after),
        !(takes_source(file.kind) && !(seen.node is Directory) && !(disk.nodes[disk.key(
            file.source->0,
        )].content is Directory)) ==> post(Ok(false), disk),
    ensures
        completes(atomic_activate_program(file, seen), disk, post),
{
    broadcast use group_completes;

    let source = disk.key(file.source->0);
    if takes_source(file.kind) && disk.nodes[source].content is Directory {
        assert(disk.resolved(file.source->0) == Some(source));
    }
    if takes_source(file.kind) && !(seen.node is Directory) && !(
    disk.nodes[source].content is Directory) {
        assert forall|temporary: Seq<u8>| is_spare(disk, temporary, file.target) implies completes(
            #[trigger] swap_with(file, temporary),
            disk,
            post,
        ) by {
            progress_swap_with(file, temporary, disk, post);
        }
        assert(completes(swap(file), disk, post));
    }
}

/// Whether nothing stands in the way of an activation. A target that is a directory
/// may not be thrown away for a link to an empty one: that is tried in one step, and
/// a link does not take the place of a directory so.
pub open spec fn can_activate(
    disk: Disk,
    file: FileView,
    clobber: bool,
    prefix: Seq<u8>,
) -> bool {
    let key = disk.key(file.target);
    let source = disk.key(file.source->0);
    &&& is_open(disk, file)
    &&& is_sound(disk, file, clobber, prefix)
    &&& takes_source(file.kind) ==> disk.has(source) && !disk.hidden.contains(source)
    &&& file.kind is Copy ==> disk.nodes[source].content is File
    &&& must_move(disk, file, clobber) && !passes_check(disk, file) ==> room_to_move(
        disk,
        file.target,
        prefix,
    )
    &&& clobber && takes_source(file.kind) && disk.has(key) && disk.nodes[key].content
        is Directory && disk.nodes[source].content is Directory ==> holds_something(disk, source)
}

proof fn progress_bring_about(
    file: FileView,
    metadata: Option<Metadata>,
    clobber: bool,
    prefix: Seq<u8>,
    disk: Disk,
    post: spec_fn(Result<(), Failure>, Disk) -> bool,
)
    requires
        can_activate(disk, file, clobber, prefix),
        saw(disk, file.target, Ok(metadata)),
        clobber ==> !keeps_existing(file),
        forall|after: Disk| #[trigger] post(Ok(()), after),
    ensures
        completes(bring_about(file, metadata, clobber, prefix), disk, post),
{
    broadcast use group_completes;

    let mid = |swapped: Result<bool, Failure>, after: Disk|
        swapped is Ok && (swapped->Ok_0 || after == disk);
    assert(completes(try_swap(file, metadata, clobber), disk, mid)) by {
        if clobber {
            if let Some(seen) = metadata {
                progress_atomic(file, seen, disk, mid);
            }
        }
    }
    progress_correct(file, metadata, clobber, prefix, disk, post);
    lemma_completes_then(
        try_swap(file, metadata, clobber),
        |swapped: bool|
            if swapped {
                Program::Return(Ok(()))
            } else {
                correct(file, metadata, clobber, prefix)
            },
        disk,
        mid,
        post,
    );
}

/// Activation succeeds where nothing stands in its way: the target and the source
/// can be looked at, the source is there and fit, there is a way to the target or
/// it can be made, and what has to make way can be moved aside. Everything that is
/// asked for can be done then, and if it is, the entry does not fail.
pub proof fn law_activation_succeeds(
    file: FileView,
    clobber_by_default: Option<bool>,
    prefix: Seq<u8>,
    disk: Disk,
)
    requires
        is_skipped(disk, file) || can_activate(
            disk,
            file,
            clobbers(file.clobber, clobber_by_default),
            prefix,
        ),
    ensures
        completes(
            activate_program(file, clobber_by_default, prefix),
            disk,
            |done: Result<(), Failure>, after: Disk| done is Ok,
        ),
{
    broadcast use group_completes;

    let clobber = clobbers(file.clobber, clobber_by_default);
    let post = |done: Result<(), Failure>, after: Disk| done is Ok;
    if !is_skipped(disk, file) {
        assert forall|metadata: Option<Metadata>|
            saw(disk, file.target, Ok(metadata)) implies completes(
            #[trigger] bring_about(file, metadata, clobber, prefix),
            disk,
            post,
        ) by {
            progress_bring_about(file, metadata, clobber, prefix, disk, post);
        }
    }
}

/// Where something else is at the target of a copy, a link or a directory and may
/// not be thrown away, activation ends with that at the backup path, with all that
/// is below it, and with the entry in its place.
pub proof fn law_activation_backs_up(
    file: FileView,
    clobber_by_default: Option<bool>,
    prefix: Seq<u8>,
    disk: Disk,
)
    requires
        file.kind is Copy || file.kind is Symlink || file.kind is Directory,
        file.clobber == Some(false) ==> !(file.kind is Copy),
        file.clobber != Some(true),
        file.clobber is None ==> clobber_by_default != Some(true),
        disk.has(disk.key(file.target)),
        file.kind is Directory ==> !(disk.nodes[disk.key(file.target)].content is Directory),
        !is_as_described(disk, file),
        !is_skipped(disk, file),
        can_activate(disk, file, false, prefix),
    ensures
        completes(
            activate_program(file, clobber_by_default, prefix),
            disk,
            |done: Result<(), Failure>, after: Disk|
                {
                    let key = disk.key(file.target);
                    let backup = disk.key(backup_path(file.target, prefix));
                    &&& done is Ok
                    &&& is_as_described(after, file)
                    &&& after.at(backup) == disk.at(key)
                    &&& disk.nodes[key].content is Directory && !below(key, backup) ==> forall|
                        k: Key,
                    |
                        disk.has(k) && #[trigger] below(k, key) ==> after.at(
                            relocated(k, key, backup),
                        ) == disk.at(k)
                },
        ),
{
    let clobber = clobbers(file.clobber, clobber_by_default);
    assert(!clobber);
    let post = |done: Result<(), Failure>, after: Disk|
        {
            let key = disk.key(file.target);
            let backup = disk.key(backup_path(file.target, prefix));
            &&& done is Ok
            &&& is_as_described(after, file)
            &&& after.at(backup) == disk.at(key)
            &&& disk.nodes[key].content is Directory && !below(key, backup) ==> forall|k: Key|
                disk.has(k) && #[trigger] below(k, key) ==> after.at(relocated(k, key, backup))
                    == disk.at(k)
        };
    let always = |done: Result<(), Failure>, after: Disk|
        activation_effect(
            disk,
            after,
            file,
            clobbers(file.clobber, clobber_by_default),
            prefix,
            done,
        );
    let fine = |done: Result<(), Failure>, after: Disk| done is Ok;
    law_activation_attains(file, clobber_by_default, prefix, disk);
    law_activation_succeeds(file, clobber_by_default, prefix, disk);
    assert(is_displaced(disk, file, clobber));
    lemma_completes_both(
        activate_program(file, clobber_by_default, prefix),
        disk,
        always,
        fine,
        post,
    );
}

/// An entry that nothing stands in the way of is in force when it has been
/// activated: what is at the target is as it describes, unless it is a copy that
/// keeps what it finds.
pub proof fn law_activation_brings_about(
    file: FileView,
    clobber_by_default: Option<bool>,
    prefix: Seq<u8>,
    disk: Disk,
)
    requires
        !is_skipped(disk, file),
        !(file.kind is Copy && file.clobber == Some(false) && disk.has(disk.key(file.target))),
        can_activate(disk, file, clobbers(file.clobber, clobber_by_default), prefix),
    ensures
        completes(
            activate_program(file, clobber_by_default, prefix),
            disk,
            |done: Result<(), Failure>, after: Disk|
                {
                    &&& done is Ok
                    &&& is_as_described(after, file)
                    &&& same_frame(disk, after)
                },
        ),
{
    let post = |done: Result<(), Failure>, after: Disk|
        {
            &&& done is Ok
            &&& is_as_described(after, file)
            &&& same_frame(disk, after)
        };
    let always = |done: Result<(), Failure>, after: Disk|
        activation_effect(
            disk,
            after,
            file,
            clobbers(file.clobber, clobber_by_default),
            prefix,
            done,
        );
    let fine = |done: Result<(), Failure>, after: Disk| done is Ok;
    law_activation_attains(file, clobber_by_default, prefix, disk);
    law_activation_succeeds(file, clobber_by_default, prefix, disk);
    lemma_completes_both(
        activate_program(file, clobber_by_default, prefix),
        disk,
        always,
        fine,
        post,
    );
}

/// Deactivation takes away what is as the entry says: for every copy and link, and
/// for every empty directory, that passes the check and is not told to be left
/// alone, it asks for what can be done, and if that is done it succeeds and the
/// target is gone, whatever else the entry says.
pub proof fn law_deactivation_removes(file: FileView, disk: Disk)
    requires
        file.kind is Copy || file.kind is Symlink || file.kind is Directory,
        file.deactivate != Some(false),
        disk.has(disk.key(file.target)),
        plain_source(disk, file),
        passes_check(disk, file),
        file.kind is Directory ==> forall|k: Key| #[trigger]
            disk.has(k) && below(k, disk.key(file.target)) ==> k == disk.key(file.target),
    ensures
        completes(
            deactivate_program(file),
            disk,
            |done: Result<(), Failure>, after: Disk|
                done is Ok && !after.has(disk.key(file.target)),
        ),
{
    broadcast use group_completes;

    let key = disk.key(file.target);
    let post = |done: Result<(), Failure>, after: Disk|
        done is Ok && !after.has(disk.key(file.target));
    assert forall|seen: Metadata|
        saw(disk, file.target, Ok(Some(seen))) implies completes(
        #[trigger] uninstall(file, seen),
        disk,
        post,
    ) by {
        lemma_below_self(key);
    }
    assert forall|seen: Metadata|
        saw(disk, file.target, Ok(Some(seen))) implies completes(
        #[trigger] withdraw(file, Some(seen)),
        disk,
        post,
    ) by {
        let always = |checked: Result<bool, Failure>, after: Disk|
            after == disk && (checked == Ok::<bool, Failure>(true) <==> passes_check(disk, file));
        let same = |checked: Result<bool, Failure>, after: Disk| after == disk;
        effect_check_passes(file, Some(seen), disk);
        progress_check(file, Some(seen), disk);
        lemma_completes_both(check_program(file, Some(seen)), disk, always, same, always);
        lemma_completes_then(
            check_program(file, Some(seen)),
            |same: bool|
                if same {
                    uninstall(file, seen)
                } else {
                    Program::Return(Err(Failure::Modified))
                },
            disk,
            always,
            post,
        );
    }
}

/// Deactivation has nothing to do where nothing is at the target, and where the
/// entry is told to be left alone, and for modifies and deletes: it succeeds, and
/// nothing changes.
pub proof fn law_deactivation_leaves(file: FileView, disk: Disk)
    requires
        !disk.hidden.contains(disk.key(file.target)),
        file.deactivate == Some(false) || file.kind is Modify || file.kind is Delete || !disk.has(
            disk.key(file.target),
        ),
    ensures
        achieves(
            deactivate_program(file),
            disk,
            |done: Result<(), Failure>, after: Disk| done is Ok && after == disk,
        ),
{
    broadcast use group_achieves;

}

/// Making a directory succeeds where there is one or a way to make one, and fails
/// where something else is there, which stays.
pub proof fn law_mkdir_succeeds(path: Seq<u8>, disk: Disk)
    requires
        !disk.hidden.contains(disk.key(path)),
    ensures
        directory_open(disk, path) ==> completes(
            mkdir_program(path),
            disk,
            |done: Result<(), Failure>, after: Disk|
                {
                    &&& done is Ok
                    &&& after.has(disk.key(path))
                    &&& disk.has(disk.key(path)) ==> after == disk
                },
        ),
        disk.has(disk.key(path)) && !(disk.nodes[disk.key(path)].content is Directory) ==> achieves(
            mkdir_program(path),
            disk,
            |done: Result<(), Failure>, after: Disk|
                done == Err::<(), Failure>(Failure::FileInTheWay) && after == disk,
        ),
{
    broadcast use {group_completes, group_achieves};

}

/// Making a copy, a link or a directory, and setting mode and owner, succeed where
/// nothing stands in their way: the target is free, or holds what it should.
pub proof fn law_making_succeeds(file: FileView, disk: Disk)
    requires
        !disk.hidden.contains(disk.key(file.target)),
    ensures
        file.kind is Copy && way_open(disk, file.target) && source_open(disk, file) && !disk.has(
            disk.key(file.target),
        ) ==> completes(
            copy_program(file),
            disk,
            |done: Result<(), Failure>, after: Disk| done is Ok,
        ),
        file.kind is Symlink && way_open(disk, file.target) && source_open(disk, file) && !disk.has(
            disk.key(file.target),
        ) ==> completes(
            symlink_program(file),
            disk,
            |done: Result<(), Failure>, after: Disk| done is Ok,
        ),
        file.kind is Directory && directory_open(disk, file.target) ==> completes(
            directory_program(file),
            disk,
            |done: Result<(), Failure>, after: Disk| done is Ok,
        ),
        disk.has(disk.key(file.target)) && (disk.nodes[disk.key(file.target)].content is Link
            ==> file.kind is Symlink || file.permissions is None) ==> completes(
            chmod_chown_program(file),
            disk,
            |done: Result<(), Failure>, after: Disk| done is Ok,
        ),
{
    let post = |done: Result<(), Failure>, after: Disk| done is Ok;
    if file.kind is Copy && way_open(disk, file.target) && source_open(disk, file) && !disk.has(
        disk.key(file.target),
    ) {
        progress_copy(file, disk, post);
    }
    if file.kind is Symlink && way_open(disk, file.target) && source_open(disk, file) && !disk.has(
        disk.key(file.target),
    ) {
        progress_symlink(file, disk, post);
    }
    if file.kind is Directory && directory_open(disk, file.target) {
        progress_directory(file, disk, post);
    }
    if is_direct(disk, file) {
        progress_attributes(file, disk, post);
    }
}

/// Moving something aside succeeds where there is room: it is at the backup path
/// then, with all that was below it, whatever was there before, and its old place
/// is free. Where there is nothing to move, nothing is done.
pub proof fn law_moving_aside_succeeds(target: Seq<u8>, prefix: Seq<u8>, disk: Disk)
    requires
        !disk.hidden.contains(disk.key(target)),
    ensures
        disk.has(disk.key(target)) && room_to_move(disk, target, prefix) ==> completes(
            prefix_move_program(target, prefix),
            disk,
            |done: Result<(), Failure>, after: Disk|
                {
                    let key = disk.key(target);
                    let backup = disk.key(backup_path(target, prefix));
                    &&& done is Ok
                    &&& !after.has(key)
                    &&& after.at(backup) == disk.at(key)
                    &&& disk.nodes[key].content is Directory ==> forall|k: Key|
                        disk.has(k) && #[trigger] below(k, key) ==> after.at(
                            relocated(k, key, backup),
                        ) == disk.at(k)
                },
        ),
        !disk.has(disk.key(target)) ==> achieves(
            prefix_move_program(target, prefix),
            disk,
            |done: Result<(), Failure>, after: Disk| done is Ok && after == disk,
        ),
{
    broadcast use group_achieves;

    if disk.has(disk.key(target)) && room_to_move(disk, target, prefix) {
        let always = |done: Result<(), Failure>, after: Disk|
            backed_up(disk, after, target, prefix, done);
        let fine = |done: Result<(), Failure>, after: Disk| done is Ok;
        let post = |done: Result<(), Failure>, after: Disk|
            {
                let key = disk.key(target);
                let backup = disk.key(backup_path(target, prefix));
                &&& done is Ok
                &&& !after.has(key)
                &&& after.at(backup) == disk.at(key)
                &&& disk.nodes[key].content is Directory ==> forall|k: Key|
                    disk.has(k) && #[trigger] below(k, key) ==> after.at(relocated(k, key, backup))
                        == disk.at(k)
            };
        effect_prefix_move(target, prefix, disk, always);
        progress_prefix_move(target, prefix, disk, fine);
        lemma_completes_both(
            prefix_move_program(target, prefix),
            disk,
            always,
            fine,
            post,
        );
    }
}

/// What was seen can be removed, a directory with all that is in it, and nothing
/// else is.
pub proof fn law_removal_succeeds(path: Seq<u8>, seen: Metadata, disk: Disk)
    requires
        disk.has(disk.key(path)),
        shows(disk.nodes[disk.key(path)], seen),
    ensures
        completes(
            delete_program(path, seen),
            disk,
            |done: Result<(), Failure>, after: Disk|
                {
                    let key = disk.key(path);
                    &&& done is Ok
                    &&& !after.has(key)
                    &&& seen.node is Directory ==> forall|k: Key|
                        below(k, key) ==> !#[trigger] after.has(k)
                    &&& forall|k: Key| !below(k, key) ==> #[trigger] after.at(k) == disk.at(k)
                },
        ),
{
    broadcast use group_completes;

    lemma_below_self(disk.key(path));
}

/// An existing target of a copy or a link is replaced in one step, unless it or the
/// source is a directory; it holds the new file then. (Nothing is said of a link to
/// an empty directory in the place of a directory.)
pub proof fn law_replacement_succeeds(file: FileView, seen: Metadata, disk: Disk)
    requires
        file.kind is Copy || file.kind is Symlink,
        lasting_mode(file),
        is_open(disk, file),
        disk.has(disk.key(file.target)),
        shows(disk.nodes[disk.key(file.target)], seen),
        disk.has(disk.key(file.source->0)),
        !disk.hidden.contains(disk.key(file.source->0)),
        seen.node is Directory && disk.nodes[disk.key(file.source->0)].content is Directory
            ==> holds_something(disk, disk.key(file.source->0)),
    ensures
        completes(
            atomic_activate_program(file, seen),
            disk,
            |done: Result<bool, Failure>, after: Disk|
                {
                    let directories = seen.node is Directory || disk.nodes[disk.key(
                        file.source->0,
                    )].content is Directory;
                    &&& done == Ok::<bool, Failure>(!directories)
                    &&& directories ==> after == disk
                    &&& !directories ==> is_as_described(after, file)
                },
        ),
{
    let directories = seen.node is Directory || disk.nodes[disk.key(file.source->0)].content
        is Directory;
    let fine = |done: Result<bool, Failure>, after: Disk|
        done == Ok::<bool, Failure>(!directories);
    let always = |done: Result<bool, Failure>, after: Disk|
        match done {
            Ok(true) => is_as_described(after, file) && same_beside(
                disk,
                after,
                disk.key(file.target),
            ),
            Ok(false) => after == disk && involves_directory(disk, file, seen),
            Err(_) => nothing_left(disk, after, file.target),
        };
    let post = |done: Result<bool, Failure>, after: Disk|
        {
            let directories = seen.node is Directory || disk.nodes[disk.key(
                file.source->0,
            )].content is Directory;
            &&& done == Ok::<bool, Failure>(!directories)
            &&& directories ==> after == disk
            &&& !directories ==> is_as_described(after, file)
        };
    law_replacement_is_whole(file, seen, disk);
    progress_atomic(file, seen, disk, fine);
    lemma_completes_both(atomic_activate_program(file, seen), disk, always, fine, post);
}

/// The target of a changed copy or link is replaced in one step where it can be.
pub proof fn law_refresh_replaces(file: FileView, disk: Disk)
    requires
        file.kind is Copy || file.kind is Symlink,
        lasting_mode(file),
        is_open(disk, file),
        disk.has(disk.key(file.target)),
        !(disk.nodes[disk.key(file.target)].content is Directory),
        disk.has(disk.key(file.source->0)),
        !disk.hidden.contains(disk.key(file.source->0)),
        !(disk.nodes[disk.key(file.source->0)].content is Directory),
        file.kind is Copy ==> disk.nodes[disk.key(file.source->0)].content is File,
    ensures
        completes(
            refresh_program(file),
            disk,
            |result: Result<Outcome, Failure>, after: Disk|
                {
                    &&& result == Ok::<Outcome, Failure>(Outcome::Refreshed(Refresh::Swapped))
                    &&& is_as_described(after, file)
                },
        ),
{
    broadcast use group_completes;

    let post = |result: Result<Outcome, Failure>, after: Disk|
        {
            &&& result == Ok::<Outcome, Failure>(Outcome::Refreshed(Refresh::Swapped))
            &&& is_as_described(after, file)
        };
    assert forall|seen: Metadata|
        saw(disk, file.target, Ok(Some(seen))) implies completes(
        #[trigger] swap_program(file, seen),
        disk,
        post,
    ) by {
        let mid = |done: Result<bool, Failure>, after: Disk|
            {
                let directories = seen.node is Directory || disk.nodes[disk.key(
                    file.source->0,
                )].content is Directory;
                &&& done == Ok::<bool, Failure>(!directories)
                &&& directories ==> after == disk
                &&& !directories ==> is_as_described(after, file)
            };
        law_replacement_succeeds(file, seen, disk);
        lemma_completes_bind(
            atomic_activate_program(file, seen),
            |swapped: Result<bool, Failure>|
                Program::Return(
                    Ok(
                        Outcome::Refreshed(
                            if swapped == Ok::<bool, Failure>(true) {
                                Refresh::Swapped
                            } else {
                                Refresh::Force
                            },
                        ),
                    ),
                ),
            disk,
            mid,
            post,
        );
    }
}

/// Where both the target and the source are directories, it depends on what is in
/// the source whether the target is replaced in one step: it is not if anything is.
/// Kinds without a source are never replaced so, and nothing is asked for them.
pub proof fn law_replacement_of_directories(
    file: FileView,
    seen: Metadata,
    source: Metadata,
    replies: Seq<Response>,
)
    requires
        replies.len() >= 2,
        replies[0] == Reply::<Seq<u8>, Seq<u8>>::Metadata(Ok(source)),
    ensures
        !(file.kind is Copy || file.kind is Symlink) ==> atomic_activate_program(file, seen)
            == Program::Return(Ok::<bool, Failure>(false)),
        (file.kind is Copy || file.kind is Symlink) && (seen.node is Directory) != (source.node
            is Directory) ==> play(atomic_activate_program(file, seen), replies).0
            == Program::Return(Ok::<bool, Failure>(false)),
        (file.kind is Copy || file.kind is Symlink) && seen.node is Directory && source.node
            is Directory && replies[1] == Reply::<Seq<u8>, Seq<u8>>::Answer(Ok(true)) ==> play(
            atomic_activate_program(file, seen),
            replies,
        ).0 == Program::Return(Ok::<bool, Failure>(false)),
        (file.kind is Copy || file.kind is Symlink) && seen.node is Directory && source.node
            is Directory && replies.len() == 2 && replies[1] == Reply::<Seq<u8>, Seq<u8>>::Answer(
            Ok(false),
        ) ==> request(play(atomic_activate_program(file, seen), replies).0) == Some(
            Action::PickTemporary(file.target),
        ),
{
    broadcast use group_play;

    assert(replies.skip(1)[0] == replies[1]);
}

} // verus!
