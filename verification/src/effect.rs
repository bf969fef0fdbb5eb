//! What operations make of the file system.
use vstd::prelude::*;

use crate::action::{Action, Failure, Metadata, Response, MODE_BITS};
use crate::file_util::{
    at, atomic_activate_program, backup_path, chmod_chown_program, clear, copy_from, copy_program,
    delete_program, discard, finish, link_to, make_copy, make_link, mkdir_program, place,
    prefix_move_program, set_owner, swap, swap_with, symlink_program, with_parent,
};
use crate::manifest::{takes_source, FileKind, FileView};
use crate::model::{
    achieves, below, group_achieves, grown, is_reachable, is_spare, key_from, lemma_achieves_bind,
    link_limit, moved, relocated, same_frame, same_outside, shows, Content, Disk, Key, Node,
};
use crate::path::{absolute, file_name, law_parent_parts, parent, parts};
use crate::program::{and_then, done_in, must, Program};
use crate::temporary::law_candidate_beside;

verus! {

/// Whether `found` is what a look at `target` gives.
pub open spec fn saw(
    disk: Disk,
    target: Seq<u8>,
    found: Result<Option<Metadata>, Failure>,
) -> bool {
    let key = disk.key(target);
    match found {
        Ok(None) => !disk.hidden.contains(key) && !disk.has(key),
        Ok(Some(seen)) => !disk.hidden.contains(key) && disk.has(key) && shows(
            disk.nodes[key],
            seen,
        ),
        Err(_) => disk.hidden.contains(key),
    }
}

/// Whether a node has the attributes that an entry gives.
pub open spec fn fits(file: FileView, node: Node) -> bool {
    &&& file.permissions is Some ==> file.permissions->0 == node.mode
    &&& file.uid is Some ==> file.uid->0 == node.uid
    &&& file.gid is Some ==> file.gid->0 == node.gid
}

/// Whether `after` is `disk` but for the attributes of what is at `key`.
pub open spec fn retouched(disk: Disk, after: Disk, key: Key) -> bool {
    after == disk || exists|node: Node|
        node.content == disk.nodes[key].content && after == #[trigger] disk.with(key, node)
}

/// Whether the mode that an entry gives is one that can be set, and stays set
/// when the owner is set after it.
pub open spec fn mode_lasts(file: FileView) -> bool {
    file.permissions is Some ==> {
        &&& file.permissions->0 & MODE_BITS == file.permissions->0
        &&& (file.uid is Some || file.gid is Some) ==> file.permissions->0 & 0o6000 == 0
    }
}

/// Whether the mode that an entry gives lasts, if it is to be set at all.
pub open spec fn lasting_mode(file: FileView) -> bool {
    file.kind is Delete || mode_lasts(file)
}

/// Whether something is at the target, and no link that a mode would be set
/// through.
pub open spec fn is_direct(disk: Disk, file: FileView) -> bool {
    let key = disk.key(file.target);
    disk.has(key) && (disk.nodes[key].content is Link ==> file.kind is Symlink
        || file.permissions is None)
}

/// Setting the owner leaves all but the owner as it is, but for bits that do
/// not last.
pub(crate) proof fn effect_set_owner(
    file: FileView,
    seen: Metadata,
    disk: Disk,
    post: spec_fn(Result<(), Failure>, Disk) -> bool,
)
    requires
        is_direct(disk, file),
        !(file.kind is Delete),
        ({
            let node = disk.nodes[disk.key(file.target)];
            &&& seen.node is Symlink <==> node.content is Link
            &&& seen.uid == node.uid
            &&& seen.gid == node.gid
            &&& file.permissions is Some ==> file.permissions->0 == node.mode
        }),
        lasting_mode(file),
        forall|done: Result<(), Failure>, after: Disk|
            retouched(disk, after, disk.key(file.target)) && (done is Ok ==> fits(
                file,
                after.nodes[disk.key(file.target)],
            )) ==> #[trigger] post(done, after),
    ensures
        achieves(set_owner(file, seen), disk, post),
{
    broadcast use group_achieves;

    let key = disk.key(file.target);
    let node = disk.nodes[key];
    assert(!(node.content is Link) ==> disk.resolved(file.target) == Some(key));
    assert(node.mode & 0o6000 == 0 ==> node.mode & !0o6000u32 == node.mode) by {
        let mode = node.mode;
        assert(mode & 0o6000 == 0 ==> mode & !0o6000u32 == mode) by (bit_vector);
    }
}

pub(crate) proof fn lemma_retouched_twice(first: Disk, second: Disk, third: Disk, key: Key)
    requires
        retouched(first, second, key),
        retouched(second, third, key),
        first.has(key),
    ensures
        retouched(first, third, key),
{
    if third != second && second != first {
        let node = choose|node: Node|
            node.content == second.nodes[key].content && third == #[trigger] second.with(key, node);
        assert(third.nodes =~= first.with(key, node).nodes);
        assert(third == first.with(key, node));
    }
}

/// Mode and owner come out as the entry gives them; all else stays.
pub(crate) proof fn effect_attributes(
    file: FileView,
    disk: Disk,
    post: spec_fn(Result<(), Failure>, Disk) -> bool,
)
    requires
        is_direct(disk, file),
        !(file.kind is Delete),
        lasting_mode(file),
        forall|done: Result<(), Failure>, after: Disk|
            retouched(disk, after, disk.key(file.target)) && (done is Ok ==> fits(
                file,
                after.nodes[disk.key(file.target)],
            )) ==> #[trigger] post(done, after),
    ensures
        achieves(chmod_chown_program(file), disk, post),
{
    broadcast use group_achieves;

    let key = disk.key(file.target);
    let node = disk.nodes[key];
    assert(!(node.content is Link) ==> disk.resolved(file.target) == Some(key));
    assert forall|seen: Metadata, found: Disk|
        shows(node, seen) && retouched(disk, found, key) && found.nodes[key].uid == node.uid
            && found.nodes[key].gid == node.gid && (file.permissions is Some
            ==> file.permissions->0 == found.nodes[key].mode) implies #[trigger] achieves(
        set_owner(file, seen),
        found,
        post,
    ) by {
        assert(found.key(file.target) == key);
        assert forall|done: Result<(), Failure>, after: Disk|
            retouched(found, after, key) && (done is Ok ==> fits(
                file,
                after.nodes[key],
            )) implies #[trigger] post(done, after) by {
            lemma_retouched_twice(disk, found, after, key);
        }
        effect_set_owner(file, seen, found, post);
    }
}

pub(crate) proof fn effect_finish(
    file: FileView,
    disk: Disk,
    post: spec_fn(Result<(), Failure>, Disk) -> bool,
)
    requires
        is_direct(disk, file),
        !(file.kind is Delete),
        lasting_mode(file),
        forall|done: Result<(), Failure>, after: Disk|
            retouched(disk, after, disk.key(file.target)) && (done is Ok ==> fits(
                file,
                after.nodes[disk.key(file.target)],
            )) ==> #[trigger] post(done, after),
    ensures
        achieves(finish(file), disk, post),
{
    broadcast use group_achieves;

    effect_attributes(file, disk, post);
    assert(post(Err(Failure::NoParent), disk));
}

/// A directory is created where nothing was, and directories above it.
pub(crate) proof fn effect_mkdir(
    path: Seq<u8>,
    disk: Disk,
    post: spec_fn(Result<(), Failure>, Disk) -> bool,
)
    requires
        forall|done: Result<(), Failure>, after: Disk|
            grown(disk, after, disk.key(path)) && (done is Ok && !disk.hidden.contains(
                disk.key(path),
            ) ==> after.has(disk.key(path)) && after.nodes[disk.key(path)].content is Directory && (
            !disk.has(disk.key(path)) ==> is_reachable(after, disk.key(path)))) ==> #[trigger] post(
                done,
                after,
            ),
    ensures
        achieves(mkdir_program(path), disk, post),
{
    broadcast use group_achieves;

    assert(grown(disk, disk, disk.key(path)));
}

pub(crate) proof fn lemma_absolute_parts(path: Seq<u8>)
    ensures
        absolute(path) <==> parts(path).len() > 0 && parts(path)[0] is Root,
{
}

/// The directory of a path that ends in a name is the node above it.
pub(crate) proof fn lemma_parent_key(disk: Disk, path: Seq<u8>)
    requires
        file_name(path) is Some,
    ensures
        parent(path) is Some,
        disk.key(path).len() > 0,
        disk.key(parent(path)->0) == disk.key(path).drop_last(),
{
    law_parent_parts(path);
    lemma_absolute_parts(path);
    lemma_absolute_parts(parent(path)->0);
    let list = parts(path);
    let front = parts(parent(path)->0);
    if front.len() > 0 {
        assert(front[0] == list[0]);
    }
    assert(disk.key(parent(path)->0) =~= disk.key(path).drop_last());
}

/// Whether `after` is `disk` but for what is at `key`, and for directories above
/// it that were not there.
pub open spec fn same_beside(disk: Disk, after: Disk, key: Key) -> bool {
    &&& same_frame(disk, after)
    &&& forall|k: Key| k != key && disk.has(k) ==> #[trigger] after.at(k) == disk.at(k)
    &&& forall|k: Key|
        k != key && !disk.has(k) && #[trigger] after.has(k) ==> after.nodes[k].content is Directory
            && below(key, k)
}

/// What a copy made of `disk`: at the target, which was free, is a file with the
/// contents of the source and the attributes of the entry, and the directories
/// above it are there.
pub open spec fn copied(
    disk: Disk,
    after: Disk,
    file: FileView,
    done: Result<(), Failure>,
) -> bool {
    let key = disk.key(file.target);
    &&& same_beside(disk, after, key)
    &&& after.has(key) ==> after.nodes[key].content is File
    &&& done is Ok ==> {
        &&& is_reachable(after, key)
        &&& after.has(key)
        &&& after.contents(file.source->0) == Some(after.nodes[key].content->File_0)
        &&& fits(file, after.nodes[key])
    }
}

pub(crate) proof fn lemma_grown_then(disk: Disk, between: Disk, after: Disk, target: Seq<u8>)
    requires
        file_name(target) is Some,
        grown(disk, between, disk.key(parent(target)->0)),
        same_beside(between, after, disk.key(target)),
    ensures
        same_beside(disk, after, disk.key(target)),
{
    lemma_parent_key(disk, target);
    let key = disk.key(target);
    let above = key.drop_last();
    assert forall|k: Key| k != key && disk.has(k) implies #[trigger] after.at(k) == disk.at(k) by {
        assert(between.at(k) == disk.at(k));
    }
    assert forall|k: Key|
        k != key && !disk.has(k) && #[trigger] after.has(
            k,
        ) implies after.nodes[k].content is Directory && below(key, k) by {
        if between.has(k) {
            assert(after.at(k) == between.at(k));
            assert(below(above, k));
            assert(key.take(k.len() as int) =~= above.take(k.len() as int));
        }
    }
}

pub(crate) proof fn lemma_grown_spares(disk: Disk, between: Disk, target: Seq<u8>)
    requires
        file_name(target) is Some,
        grown(disk, between, disk.key(parent(target)->0)),
    ensures
        between.at(disk.key(target)) == disk.at(disk.key(target)),
        same_beside(disk, between, disk.key(target)),
{
    lemma_parent_key(disk, target);
    let key = disk.key(target);
    assert(same_beside(between, between, key));
    lemma_grown_then(disk, between, between, target);
    if !disk.has(key) && between.has(key) {
        assert(below(key.drop_last(), key));
    }
}

/// What is done in a directory starts when the directory has been created, or
/// could not be.
pub(crate) proof fn effect_with_parent(
    target: Seq<u8>,
    next: Program<Result<(), Failure>>,
    disk: Disk,
    post: spec_fn(Result<(), Failure>, Disk) -> bool,
)
    requires
        file_name(target) is Some,
        forall|between: Disk|
            grown(disk, between, disk.key(parent(target)->0)) ==> #[trigger] achieves(
                next,
                between,
                post,
            ),
    ensures
        achieves(with_parent(target, next), disk, post),
{
    broadcast use group_achieves;

    lemma_parent_key(disk, target);
    let above = parent(target)->0;
    effect_mkdir(above, disk, |_r: Result<(), Failure>, after: Disk| achieves(next, after, post));
}

/// The same entry at the target, with other attributes.
pub(crate) proof fn lemma_retouched_beside(disk: Disk, between: Disk, after: Disk, key: Key)
    requires
        same_beside(disk, between, key),
        retouched(between, after, key),
        between.has(key),
    ensures
        same_beside(disk, after, key),
        after.has(key),
        after.nodes[key].content == between.nodes[key].content,
{
    assert forall|k: Key| k != key implies #[trigger] after.at(k) == between.at(k) by {}
    assert forall|k: Key| k != key && disk.has(k) implies #[trigger] after.at(k) == disk.at(k) by {
        assert(between.at(k) == disk.at(k));
    }
    assert forall|k: Key|
        k != key && !disk.has(k) && #[trigger] after.has(
            k,
        ) implies after.nodes[k].content is Directory && below(key, k) by {
        assert(after.at(k) == between.at(k));
        assert(between.has(k));
    }
}

pub(crate) proof fn lemma_with_beside(disk: Disk, between: Disk, key: Key, node: Node)
    requires
        same_beside(disk, between, key),
    ensures
        same_beside(disk, between.with(key, node), key),
{
    let after = between.with(key, node);
    assert forall|k: Key| k != key implies #[trigger] after.at(k) == between.at(k) by {}
    assert forall|k: Key| k != key && disk.has(k) implies #[trigger] after.at(k) == disk.at(k) by {
        assert(between.at(k) == disk.at(k));
    }
    assert forall|k: Key|
        k != key && !disk.has(k) && #[trigger] after.has(
            k,
        ) implies after.nodes[k].content is Directory && below(key, k) by {
        assert(after.at(k) == between.at(k));
        assert(between.has(k));
    }
}

/// Whether the links that start at `key` lead through nothing that is at `top`
/// or below it.
pub open spec fn clear_of(disk: Disk, key: Key, limit: nat, top: Key) -> bool
    decreases limit,
{
    &&& !below(key, top)
    &&& disk.has(key) && disk.nodes[key].content is Link && limit > 0 ==> clear_of(
        disk,
        key_from(key.drop_last(), disk.nodes[key].content->Link_0),
        (limit - 1) as nat,
        top,
    )
}

/// Whether `after` is `disk` but for what is at `one` and `other` and below
/// them, and for new directories.
pub open spec fn preserved(disk: Disk, after: Disk, one: Key, other: Key) -> bool {
    &&& same_frame(disk, after)
    &&& forall|k: Key|
        !below(k, one) && !below(k, other) && disk.has(k) ==> #[trigger] after.at(k) == disk.at(k)
    &&& forall|k: Key|
        !below(k, one) && !below(k, other) && !disk.has(k) && #[trigger] after.has(k)
            ==> after.nodes[k].content is Directory
}

pub(crate) proof fn lemma_below_self(key: Key)
    ensures
        below(key, key),
{
    assert(key.take(key.len() as int) =~= key);
}

pub(crate) proof fn lemma_beside_preserves(disk: Disk, after: Disk, key: Key)
    requires
        same_beside(disk, after, key),
    ensures
        preserved(disk, after, key, key),
{
    lemma_below_self(key);
}

/// Links that lead clear of what changed lead where they led.
pub(crate) proof fn lemma_resolve_preserved(
    disk: Disk,
    after: Disk,
    key: Key,
    limit: nat,
    one: Key,
    other: Key,
)
    requires
        preserved(disk, after, one, other),
        clear_of(disk, key, limit, one),
        clear_of(disk, key, limit, other),
    ensures
        clear_of(after, key, limit, one),
        clear_of(after, key, limit, other),
        disk.resolve(key, limit) matches Some(end) ==> after.resolve(key, limit) == Some(end)
            && after.at(end) == disk.at(end) && disk.has(end) && !below(end, one) && !below(
            end,
            other,
        ) && !(disk.nodes[end].content is Link),
    decreases limit,
{
    if disk.has(key) {
        assert(after.at(key) == disk.at(key));
        if disk.nodes[key].content is Link && limit > 0 {
            lemma_resolve_preserved(
                disk,
                after,
                key_from(key.drop_last(), disk.nodes[key].content->Link_0),
                (limit - 1) as nat,
                one,
                other,
            );
        }
    } else if after.has(key) {
        assert(after.nodes[key].content is Directory);
    }
}

/// What resolving a link ends in is no link.
pub(crate) proof fn lemma_resolve_end(disk: Disk, key: Key, limit: nat)
    ensures
        disk.resolve(key, limit) matches Some(end) ==> disk.has(end) && !(
        disk.nodes[end].content is Link),
    decreases limit,
{
    if disk.has(key) && disk.nodes[key].content is Link && limit > 0 {
        lemma_resolve_end(
            disk,
            key_from(key.drop_last(), disk.nodes[key].content->Link_0),
            (limit - 1) as nat,
        );
    }
}

/// What is on the way to `key` stays there when only what is at `key` changes.
pub(crate) proof fn lemma_still_reachable(disk: Disk, after: Disk, key: Key)
    requires
        is_reachable(disk, key),
        same_beside(disk, after, key),
    ensures
        is_reachable(after, key),
{
    assert forall|k: Key| 0 < k.len() < key.len() && #[trigger] below(key, k) implies after.has(
        k,
    ) by {
        assert(disk.has(k));
        assert(after.at(k) == disk.at(k));
    }
}

pub(crate) proof fn effect_copy_from(
    file: FileView,
    disk: Disk,
    between: Disk,
    found: Seq<u8>,
    post: spec_fn(Result<(), Failure>, Disk) -> bool,
)
    requires
        file.kind is Copy,
        lasting_mode(file),
        same_beside(disk, between, disk.key(file.target)),
        !between.has(disk.key(file.target)),
        clear_of(between, disk.key(file.source->0), link_limit(), disk.key(file.target)),
        absolute(found),
        between.resolved(file.source->0) == Some(parts(found)),
        forall|done: Result<(), Failure>, after: Disk|
            copied(disk, after, file, done) ==> #[trigger] post(done, after),
    ensures
        achieves(copy_from(file, found), between, post),
{
    broadcast use group_achieves;

    let key = disk.key(file.target);
    assert(between.key(file.target) == key);
    lemma_resolve_end(between, between.key(file.source->0), link_limit());
    assert(between.contents(found) == between.contents(file.source->0));
    assert forall|failure: Failure, node: Node|
        node.content is File implies #[trigger] post(Err(failure), between.with(key, node)) by {
        lemma_with_beside(disk, between, key, node);
        assert(copied(disk, between.with(key, node), file, Err(failure)));
    }
    assert forall|failure: Failure| #[trigger] post(Err(failure), between) by {
        assert(copied(disk, between, file, Err(failure)));
    }
    assert forall|node: Node|
        is_reachable(between, key) && node.content is File && between.contents(file.source->0)
            == Some(node.content->File_0) implies achieves(
        finish(file),
        #[trigger] between.with(key, node),
        post,
    ) by {
        let made = between.with(key, node);
        lemma_with_beside(disk, between, key, node);
        assert(made.key(file.target) == key);
        assert forall|done: Result<(), Failure>, after: Disk|
            retouched(made, after, key) && (done is Ok ==> fits(
                file,
                after.nodes[key],
            )) implies #[trigger] post(done, after) by {
            lemma_retouched_beside(disk, made, after, key);
            assert(same_beside(between, between, key));
            lemma_with_beside(between, between, key, node);
            lemma_retouched_beside(between, made, after, key);
            lemma_beside_preserves(between, after, key);
            lemma_resolve_preserved(
                between,
                after,
                disk.key(file.source->0),
                link_limit(),
                key,
                key,
            );
            lemma_still_reachable(between, after, key);
            assert(copied(disk, after, file, done));
        }
        effect_finish(file, made, post);
    }
}

/// Copying the source makes a file with its contents, where nothing was.
pub(crate) proof fn effect_copy(
    file: FileView,
    disk: Disk,
    post: spec_fn(Result<(), Failure>, Disk) -> bool,
)
    requires
        file.kind is Copy,
        file.source is Some,
        file_name(file.target) is Some,
        lasting_mode(file),
        !disk.has(disk.key(file.target)),
        clear_of(disk, disk.key(file.source->0), link_limit(), disk.key(file.target)),
        forall|done: Result<(), Failure>, after: Disk|
            copied(disk, after, file, done) ==> #[trigger] post(done, after),
    ensures
        achieves(copy_program(file), disk, post),
{
    broadcast use group_achieves;

    let key = disk.key(file.target);
    let source = disk.key(file.source->0);
    lemma_parent_key(disk, file.target);
    assert forall|between: Disk|
        grown(disk, between, disk.key(parent(file.target)->0)) implies #[trigger] achieves(
        make_copy(file),
        between,
        post,
    ) by {
        lemma_grown_spares(disk, between, file.target);
        lemma_beside_preserves(disk, between, key);
        lemma_resolve_preserved(disk, between, source, link_limit(), key, key);
        assert forall|failure: Failure| #[trigger] post(Err(failure), between) by {
            assert(copied(disk, between, file, Err(failure)));
        }
        assert forall|found: Seq<u8>|
            absolute(found) && between.resolved(file.source->0) == Some(
                parts(found),
            ) implies achieves(#[trigger] copy_from(file, found), between, post) by {
            effect_copy_from(file, disk, between, found, post);
        }
    }
    effect_with_parent(file.target, make_copy(file), disk, post);
}

/// Whether a link that `dest` is written in leads where the entry says: to the
/// end of the links that start at the source, or to the source as it is written.
pub open spec fn leads_right(disk: Disk, file: FileView, dest: Seq<u8>) -> bool {
    if file.follow_symlinks != Some(false) {
        absolute(dest) && disk.resolved(file.source->0) == Some(parts(dest))
    } else {
        dest == file.source->0
    }
}

/// What making a link made of `disk`: at the target, which was free, is a link
/// that leads where the entry says, with the attributes that the entry gives, and
/// the directories above it are there.
pub open spec fn linked(
    disk: Disk,
    after: Disk,
    file: FileView,
    done: Result<(), Failure>,
) -> bool {
    let key = disk.key(file.target);
    &&& same_beside(disk, after, key)
    &&& after.has(key) ==> after.nodes[key].content is Link
    &&& done is Ok ==> {
        &&& is_reachable(after, key)
        &&& after.has(key)
        &&& leads_right(after, file, after.nodes[key].content->Link_0)
        &&& fits(file, after.nodes[key])
    }
}

pub(crate) proof fn effect_link_to(
    file: FileView,
    disk: Disk,
    between: Disk,
    dest: Seq<u8>,
    post: spec_fn(Result<(), Failure>, Disk) -> bool,
)
    requires
        file.kind is Symlink,
        file.source is Some,
        lasting_mode(file),
        same_beside(disk, between, disk.key(file.target)),
        !between.has(disk.key(file.target)),
        clear_of(between, disk.key(file.source->0), link_limit(), disk.key(file.target)),
        leads_right(between, file, dest),
        forall|done: Result<(), Failure>, after: Disk|
            linked(disk, after, file, done) ==> #[trigger] post(done, after),
    ensures
        achieves(link_to(file, dest), between, post),
{
    broadcast use group_achieves;

    let key = disk.key(file.target);
    assert(between.key(file.target) == key);
    assert forall|failure: Failure| #[trigger] post(Err(failure), between) by {
        assert(linked(disk, between, file, Err(failure)));
    }
    assert forall|node: Node|
        is_reachable(between, key) && node.content == Content::Link(dest) implies achieves(
        finish(file),
        #[trigger] between.with(key, node),
        post,
    ) by {
        let made = between.with(key, node);
        lemma_with_beside(disk, between, key, node);
        assert(made.key(file.target) == key);
        assert forall|done: Result<(), Failure>, after: Disk|
            retouched(made, after, key) && (done is Ok ==> fits(
                file,
                after.nodes[key],
            )) implies #[trigger] post(done, after) by {
            lemma_retouched_beside(disk, made, after, key);
            assert(same_beside(between, between, key));
            lemma_with_beside(between, between, key, node);
            lemma_retouched_beside(between, made, after, key);
            lemma_beside_preserves(between, after, key);
            lemma_resolve_preserved(
                between,
                after,
                disk.key(file.source->0),
                link_limit(),
                key,
                key,
            );
            lemma_still_reachable(between, after, key);
            assert(linked(disk, after, file, done));
        }
        effect_finish(file, made, post);
    }
}

/// Making a link makes one that leads to the source, where nothing was.
pub(crate) proof fn effect_symlink(
    file: FileView,
    disk: Disk,
    post: spec_fn(Result<(), Failure>, Disk) -> bool,
)
    requires
        file.kind is Symlink,
        file.source is Some,
        file_name(file.target) is Some,
        lasting_mode(file),
        !disk.has(disk.key(file.target)),
        clear_of(disk, disk.key(file.source->0), link_limit(), disk.key(file.target)),
        forall|done: Result<(), Failure>, after: Disk|
            linked(disk, after, file, done) ==> #[trigger] post(done, after),
    ensures
        achieves(symlink_program(file), disk, post),
{
    broadcast use group_achieves;

    let key = disk.key(file.target);
    let source = disk.key(file.source->0);
    lemma_parent_key(disk, file.target);
    assert forall|between: Disk|
        grown(disk, between, disk.key(parent(file.target)->0)) implies #[trigger] achieves(
        make_link(file),
        between,
        post,
    ) by {
        lemma_grown_spares(disk, between, file.target);
        lemma_beside_preserves(disk, between, key);
        lemma_resolve_preserved(disk, between, source, link_limit(), key, key);
        assert forall|failure: Failure| #[trigger] post(Err(failure), between) by {
            assert(linked(disk, between, file, Err(failure)));
        }
        assert forall|dest: Seq<u8>| leads_right(between, file, dest) implies achieves(
            #[trigger] link_to(file, dest),
            between,
            post,
        ) by {
            effect_link_to(file, disk, between, dest, post);
        }
    }
    effect_with_parent(file.target, make_link(file), disk, post);
}

/// What is at the target after an entry with a source has been put there.
pub open spec fn established(disk: Disk, after: Disk, file: FileView) -> bool {
    match file.kind {
        FileKind::Symlink => linked(disk, after, file, Ok(())),
        _ => copied(disk, after, file, Ok(())),
    }
}

/// Whether `after` is `disk` but for a temporary file beside the target, which is
/// left behind only where it cannot be removed, and for directories above it.
pub open spec fn target_untouched(disk: Disk, after: Disk, target: Seq<u8>) -> bool {
    exists|temporary: Seq<u8>| #[trigger]
        is_spare(disk, temporary, target) && same_beside(disk, after, disk.key(temporary)) && (
        after.has(disk.key(temporary)) ==> disk.pinned.contains(disk.key(temporary)))
}

/// Whether an entry has a source that leads clear of the target, and a mode that
/// lasts.
pub open spec fn ready(disk: Disk, file: FileView) -> bool {
    &&& takes_source(file.kind)
    &&& file.source is Some
    &&& file_name(file.target) is Some
    &&& lasting_mode(file)
    &&& clear_of(disk, disk.key(file.source->0), link_limit(), disk.key(file.target))
}

pub(crate) proof fn lemma_clear_of_spare(
    disk: Disk,
    key: Key,
    limit: nat,
    path: Seq<u8>,
    target: Seq<u8>,
)
    requires
        is_spare(disk, path, target),
        !below(key, disk.key(path)),
    ensures
        clear_of(disk, key, limit, disk.key(path)),
    decreases limit,
{
    if disk.has(key) && disk.nodes[key].content is Link && limit > 0 {
        lemma_clear_of_spare(
            disk,
            key_from(key.drop_last(), disk.nodes[key].content->Link_0),
            (limit - 1) as nat,
            path,
            target,
        );
    }
}

/// A temporary path lies beside its target.
pub(crate) proof fn lemma_spare_key(disk: Disk, path: Seq<u8>, target: Seq<u8>)
    requires
        is_spare(disk, path, target),
        file_name(target) is Some,
    ensures
        file_name(path) is Some,
        !disk.has(disk.key(path)),
        disk.key(path).len() > 0,
        disk.key(target).len() > 0,
        disk.key(path).drop_last() == disk.key(target).drop_last(),
        disk.has(disk.key(target)) ==> disk.key(path) != disk.key(target),
{
    law_candidate_beside(path, target);
    lemma_parent_key(disk, path);
    lemma_parent_key(disk, target);
    lemma_below_self(disk.key(path));
}

pub(crate) proof fn effect_place_aside(
    file: FileView,
    temporary: Seq<u8>,
    disk: Disk,
    post: spec_fn(Result<(), Failure>, Disk) -> bool,
)
    requires
        ready(disk, file),
        disk.has(disk.key(file.source->0)),
        is_spare(disk, temporary, file.target),
        forall|done: Result<(), Failure>, after: Disk|
            (match file.kind {
                FileKind::Symlink => linked(disk, after, at(file, temporary), done),
                _ => copied(disk, after, at(file, temporary), done),
            }) ==> #[trigger] post(done, after),
    ensures
        achieves(place(at(file, temporary)), disk, post),
{
    let aside = at(file, temporary);
    lemma_spare_key(disk, temporary, file.target);
    lemma_clear_of_spare(disk, disk.key(file.source->0), link_limit(), temporary, file.target);
    if file.kind is Symlink {
        effect_symlink(aside, disk, post);
    } else {
        effect_copy(aside, disk, post);
    }
}

/// A file that was made aside is in its place after the rename.
pub(crate) proof fn lemma_renamed(
    file: FileView,
    temporary: Seq<u8>,
    disk: Disk,
    between: Disk,
    after: Disk,
)
    requires
        ready(disk, file),
        disk.has(disk.key(file.source->0)),
        disk.has(disk.key(file.target)),
        is_spare(disk, temporary, file.target),
        established(disk, between, at(file, temporary)),
        is_reachable(between, disk.key(file.target)),
        moved(between, after, disk.key(temporary), disk.key(file.target)),
    ensures
        established(disk, after, file),
{
    let key = disk.key(file.target);
    let spare = disk.key(temporary);
    let source = disk.key(file.source->0);
    lemma_spare_key(disk, temporary, file.target);
    let node = between.nodes[spare];
    assert(key.drop_last().len() == spare.drop_last().len());
    assert(after == between.without(spare).with(key, node));
    assert forall|k: Key| k != key && disk.has(k) implies #[trigger] after.at(k) == disk.at(k) by {
        assert(between.at(k) == disk.at(k));
    }
    assert forall|k: Key|
        k != key && !disk.has(k) && #[trigger] after.has(
            k,
        ) implies after.nodes[k].content is Directory && below(key, k) by {
        assert(between.has(k));
        assert(below(spare, k));
        assert(k.len() < spare.len()) by {
            if k.len() == spare.len() {
                assert(spare.take(spare.len() as int) =~= spare);
            }
        }
        assert(spare.take(k.len() as int) =~= spare.drop_last().take(k.len() as int));
        assert(key.take(k.len() as int) =~= key.drop_last().take(k.len() as int));
    }
    assert(same_beside(disk, after, key));
    assert forall|k: Key| 0 < k.len() < key.len() && #[trigger] below(key, k) implies after.has(
        k,
    ) by {
        assert(between.has(k));
        assert(k != spare);
    }
    lemma_clear_of_spare(disk, source, link_limit(), temporary, file.target);
    lemma_beside_preserves(disk, between, spare);
    assert(preserved(disk, between, spare, key));
    lemma_resolve_preserved(disk, between, source, link_limit(), spare, key);
    assert(preserved(between, after, spare, key)) by {
        lemma_below_self(spare);
        lemma_below_self(key);
    }
    lemma_resolve_preserved(between, after, source, link_limit(), spare, key);
}

pub(crate) proof fn lemma_discarded(disk: Disk, between: Disk, after: Disk, spare: Key)
    requires
        !disk.has(spare),
        same_beside(disk, between, spare),
        after == between || after == between.without(spare),
    ensures
        same_beside(disk, after, spare),
{
    assert forall|k: Key| k != spare implies #[trigger] after.at(k) == between.at(k) by {}
    assert forall|k: Key|
        k != spare && disk.has(k) implies #[trigger] after.at(k) == disk.at(k) by {
        assert(between.at(k) == disk.at(k));
    }
    assert forall|k: Key|
        k != spare && !disk.has(k) && #[trigger] after.has(
            k,
        ) implies after.nodes[k].content is Directory && below(spare, k) by {
        assert(after.at(k) == between.at(k));
        assert(between.has(k));
    }
}

pub(crate) proof fn effect_swap_with(
    file: FileView,
    temporary: Seq<u8>,
    disk: Disk,
    post: spec_fn(Result<bool, Failure>, Disk) -> bool,
)
    requires
        ready(disk, file),
        disk.has(disk.key(file.source->0)),
        disk.has(disk.key(file.target)),
        is_spare(disk, temporary, file.target),
        forall|after: Disk|
            established(disk, after, file) ==> #[trigger] post(Ok(true), after),
        forall|failure: Failure, after: Disk|
            target_untouched(disk, after, file.target) ==> #[trigger] post(Err(failure), after),
    ensures
        achieves(swap_with(file, temporary), disk, post),
{
    broadcast use group_achieves;

    let key = disk.key(file.target);
    let spare = disk.key(temporary);
    lemma_spare_key(disk, temporary, file.target);
    assert forall|failure: Failure, between: Disk|
        same_beside(disk, between, spare) && (between.has(spare) ==> !(
        between.nodes[spare].content is Directory)) implies #[trigger] achieves(
        discard(temporary, failure),
        between,
        post,
    ) by {
        assert(between.key(temporary) == spare);
        assert forall|after: Disk|
            (after == between && (between.has(spare) ==> between.pinned.contains(spare))) || after
                == between.without(spare) implies #[trigger] post(Err(failure), after) by {
            lemma_discarded(disk, between, after, spare);
            assert(target_untouched(disk, after, file.target));
        }
    }
    let mid = |done: Result<(), Failure>, between: Disk|
        {
            &&& same_beside(disk, between, spare)
            &&& between.has(spare) ==> !(between.nodes[spare].content is Directory)
            &&& done is Ok ==> established(disk, between, at(file, temporary)) && between.has(spare)
        };
    effect_place_aside(file, temporary, disk, mid);
    assert forall|between: Disk|
        same_beside(disk, between, spare) && established(disk, between, at(file, temporary))
            && between.has(spare) && !(between.nodes[spare].content is Directory) && is_reachable(
            between,
            key,
        ) implies {
        forall|after: Disk| #[trigger]
            moved(between, after, spare, key) ==> post(Ok(true), after)
    } by {
        assert forall|after: Disk| #[trigger] moved(between, after, spare, key) implies post(
            Ok(true),
            after,
        ) by {
            lemma_renamed(file, temporary, disk, between, after);
        }
    }
    let next = |placed: Result<(), Failure>|
        match placed {
            Err(failure) => discard(temporary, failure),
            Ok(_) => Program::Ask(
                Action::Rename(temporary, file.target),
                |r: Response|
                    match done_in(r) {
                        Ok(_) => Program::Return(Ok(true)),
                        Err(fault) => discard(temporary, Failure::Io(fault)),
                    },
            ),
        };
    lemma_achieves_bind(place(at(file, temporary)), next, disk, mid, post);
}

pub(crate) proof fn effect_swap(
    file: FileView,
    disk: Disk,
    post: spec_fn(Result<bool, Failure>, Disk) -> bool,
)
    requires
        ready(disk, file),
        disk.has(disk.key(file.source->0)),
        disk.has(disk.key(file.target)),
        forall|after: Disk|
            established(disk, after, file) ==> #[trigger] post(Ok(true), after),
        forall|failure: Failure, after: Disk|
            target_untouched(disk, after, file.target) ==> #[trigger] post(Err(failure), after),
    ensures
        achieves(swap(file), disk, post),
{
    broadcast use group_achieves;

    assert forall|temporary: Seq<u8>| is_spare(disk, temporary, file.target) implies achieves(
        #[trigger] swap_with(file, temporary),
        disk,
        post,
    ) by {
        effect_swap_with(file, temporary, disk, post);
    }
}

/// Whether the target, last seen as `seen`, or the source is a directory.
pub open spec fn involves_directory(disk: Disk, file: FileView, seen: Metadata) -> bool {
    let source = disk.key(file.source->0);
    seen.node is Directory || (disk.has(source) && disk.nodes[source].content is Directory)
}

/// Replacing a target in one step either puts the entry there or leaves the
/// target untouched.
pub(crate) proof fn effect_atomic(
    file: FileView,
    seen: Metadata,
    disk: Disk,
    post: spec_fn(Result<bool, Failure>, Disk) -> bool,
)
    requires
        takes_source(file.kind) ==> ready(disk, file),
        disk.has(disk.key(file.target)),
        forall|after: Disk|
            takes_source(file.kind) && established(disk, after, file) ==> #[trigger] post(
                Ok(true),
                after,
            ),
        !takes_source(file.kind) || involves_directory(disk, file, seen) ==> post(Ok(false), disk),
        forall|failure: Failure, after: Disk|
            after == disk || (takes_source(file.kind) && target_untouched(
                disk,
                after,
                file.target,
            )) ==> #[trigger] post(Err(failure), after),
    ensures
        achieves(atomic_activate_program(file, seen), disk, post),
{
    broadcast use group_achieves;

    if takes_source(file.kind) {
        if disk.has(disk.key(file.source->0)) {
            effect_swap(file, disk, post);
        }
        assert forall|failure: Failure| #[trigger] post(Err(failure), disk) by {}
    }
}

/// Whether nothing is in `after` that was not in `disk`.
pub open spec fn shrunk(disk: Disk, after: Disk) -> bool {
    forall|k: Key| after.has(k) ==> #[trigger] after.at(k) == disk.at(k)
}

pub(crate) proof fn effect_delete(
    path: Seq<u8>,
    seen: Metadata,
    disk: Disk,
    post: spec_fn(Result<(), Failure>, Disk) -> bool,
)
    requires
        disk.has(disk.key(path)),
        shows(disk.nodes[disk.key(path)], seen),
        forall|done: Result<(), Failure>, after: Disk|
            same_outside(disk, after, disk.key(path)) && shrunk(disk, after) && (done is Ok
                ==> !after.has(disk.key(path))) && (!(seen.node is Directory) ==> after == disk
                || after == disk.without(disk.key(path))) ==> #[trigger] post(done, after),
    ensures
        achieves(delete_program(path, seen), disk, post),
{
    broadcast use group_achieves;

    let key = disk.key(path);
    lemma_below_self(key);
    assert(same_outside(disk, disk, key));
    assert(same_outside(disk, disk.without(key), key));
    assert(shrunk(disk, disk.without(key)));
    assert(shrunk(disk, disk));
}

pub(crate) proof fn effect_clear(
    path: Seq<u8>,
    disk: Disk,
    post: spec_fn(Result<(), Failure>, Disk) -> bool,
)
    requires
        forall|done: Result<(), Failure>, after: Disk|
            same_outside(disk, after, disk.key(path)) && (done is Ok ==> shrunk(disk, after) && (
            !after.has(disk.key(path)) || disk.hidden.contains(disk.key(path))))
                ==> #[trigger] post(done, after),
    ensures
        achieves(clear(path), disk, post),
{
    broadcast use group_achieves;

    let key = disk.key(path);
    assert(same_outside(disk, disk, key));
    assert(shrunk(disk, disk));
    assert forall|seen: Metadata|
        disk.has(key) && shows(disk.nodes[key], seen) implies achieves(
        #[trigger] delete_program(path, seen),
        disk,
        post,
    ) by {
        effect_delete(path, seen, disk, post);
    }
}

/// What moving the target aside made of `disk`: the target is free, and what was
/// there is at the backup path, with all that was below it.
pub open spec fn backed_up(
    disk: Disk,
    after: Disk,
    target: Seq<u8>,
    prefix: Seq<u8>,
    done: Result<(), Failure>,
) -> bool {
    let key = disk.key(target);
    let backup = disk.key(backup_path(target, prefix));
    &&& preserved(disk, after, key, backup)
    &&& forall|k: Key|
        !below(k, key) && !below(k, backup) ==> #[trigger] after.at(k) == disk.at(k)
    &&& !(disk.nodes[key].content is Directory) ==> forall|k: Key|
        k != key && !below(k, backup) ==> #[trigger] after.at(k) == disk.at(k)
    &&& done is Ok ==> !after.has(key) && is_moved_to(disk, after, key, backup)
}

/// Whether what was at `from` is at `to`, and if that is a directory, all that
/// was below it too. (A prefix can make `to` a place above `from`; then only the
/// node itself is spoken of.)
pub open spec fn is_moved_to(disk: Disk, after: Disk, from: Key, to: Key) -> bool {
    &&& after.at(to) == disk.at(from)
    &&& disk.nodes[from].content is Directory && !below(from, to) ==> forall|k: Key|
        disk.has(k) && #[trigger] below(k, from) ==> after.at(relocated(k, from, to)) == disk.at(k)
}

pub(crate) proof fn lemma_moved_aside(
    disk: Disk,
    between: Disk,
    after: Disk,
    target: Seq<u8>,
    prefix: Seq<u8>,
)
    requires
        disk.has(disk.key(target)),
        !disk.hidden.contains(disk.key(target)),
        same_outside(disk, between, disk.key(backup_path(target, prefix))),
        shrunk(disk, between),
        !between.has(disk.key(backup_path(target, prefix))) || disk.hidden.contains(
            disk.key(backup_path(target, prefix)),
        ),
        between.has(disk.key(target)),
        moved(
            between,
            after,
            disk.key(target),
            disk.key(backup_path(target, prefix)),
        ),
    ensures
        backed_up(disk, after, target, prefix, Ok(())),
{
    let key = disk.key(target);
    let backup = disk.key(backup_path(target, prefix));
    lemma_below_self(key);
    lemma_below_self(backup);
    assert(between.at(key) == disk.at(key));
    assert(key != backup);
    assert(relocated(key, key, backup) =~= backup);
    if between.nodes[key].content is Directory {
        assert(below(key, key));
        assert(after.at(relocated(key, key, backup)) == between.at(key));
        assert(after.at(key) is None);
        if !below(key, backup) {
            assert forall|k: Key| disk.has(k) && #[trigger] below(k, key) implies after.at(
                relocated(k, key, backup),
            ) == disk.at(k) by {
                assert(after.at(relocated(k, key, backup)) == between.at(k));
                assert(!below(k, backup)) by {
                    if below(k, backup) && backup.len() <= key.len() {
                        assert(key.take(backup.len() as int) =~= k.take(backup.len() as int));
                    }
                    if below(k, backup) && backup.len() > key.len() {
                        assert(backup.take(key.len() as int) =~= k.take(key.len() as int));
                    }
                }
                assert(between.at(k) == disk.at(k));
            }
        }
    }
    assert forall|k: Key|
        !below(k, key) && !below(k, backup) implies #[trigger] after.at(k) == disk.at(k) by {
        assert(between.at(k) == disk.at(k));
        assert(after.at(k) == between.at(k));
    }
    if !(disk.nodes[key].content is Directory) {
        assert forall|k: Key| k != key && !below(k, backup) implies #[trigger] after.at(k)
            == disk.at(k) by {
            assert(between.at(k) == disk.at(k));
        }
    }
    assert forall|k: Key|
        !below(k, key) && !below(k, backup) && !disk.has(k) && #[trigger] after.has(
            k,
        ) implies after.nodes[k].content is Directory by {
        assert(after.at(k) == disk.at(k));
    }
}

pub(crate) proof fn effect_prefix_move(
    target: Seq<u8>,
    prefix: Seq<u8>,
    disk: Disk,
    post: spec_fn(Result<(), Failure>, Disk) -> bool,
)
    requires
        disk.has(disk.key(target)),
        !disk.hidden.contains(disk.key(target)),
        file_name(target) is Some,
        forall|done: Result<(), Failure>, after: Disk|
            backed_up(disk, after, target, prefix, done) ==> #[trigger] post(done, after),
    ensures
        achieves(prefix_move_program(target, prefix), disk, post),
{
    broadcast use group_achieves;

    let key = disk.key(target);
    let backup = disk.key(backup_path(target, prefix));
    let aside = backup_path(target, prefix);
    assert forall|failure: Failure, between: Disk|
        same_outside(disk, between, backup) implies #[trigger] post(Err(failure), between) by {
        assert forall|k: Key|
            !below(k, key) && !below(k, backup) && !disk.has(k) && #[trigger] between.has(
                k,
            ) implies between.nodes[k].content is Directory by {
            assert(between.at(k) == disk.at(k));
        }
        assert(backed_up(disk, between, target, prefix, Err(failure)));
    }
    assert forall|between: Disk|
        same_outside(disk, between, backup) && shrunk(disk, between) && (!between.has(backup)
            || disk.hidden.contains(backup)) implies #[trigger] achieves(
        must(Action::Rename(target, aside)),
        between,
        post,
    ) by {
        assert(between.key(target) == key);
        assert(between.key(aside) == backup);
        assert forall|after: Disk|
            between.has(key) && #[trigger] moved(between, after, key, backup) implies post(
            Ok(()),
            after,
        ) by {
            lemma_moved_aside(disk, between, after, target, prefix);
        }
    }
    effect_clear(
        aside,
        disk,
        |done: Result<(), Failure>, between: Disk|
            match done {
                Ok(_) => achieves(must(Action::Rename(target, aside)), between, post),
                Err(failure) => post(Err(failure), between),
            },
    );
    assert(achieves(
        and_then(clear(aside), |_done: ()| must(Action::Rename(target, aside))),
        disk,
        post,
    ));
}

} // verus!
