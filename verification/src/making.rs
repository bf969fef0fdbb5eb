//! What making a directory, a copy or a link, and setting mode and owner, make of
//! the file system.
use vstd::prelude::*;

use crate::action::{Failure, Metadata};
use crate::attain::{effect_directory, is_as_described};
use crate::effect::{
    clear_of, copied, effect_copy, effect_mkdir, effect_symlink, is_direct, lasting_mode,
    lemma_resolve_end, lemma_retouched_twice, linked, mode_lasts, retouched, same_beside,
};
use crate::file_util::{
    chmod_chown_program, copy_program, directory_program, mkdir_program, set_owner, symlink_program,
};
use crate::manifest::FileView;
use crate::model::{
    achieves, below, group_achieves, grown, is_reachable, link_limit, same_frame, shows, Disk, Key,
    Node,
};
use crate::path::file_name;

verus! {

/// Whether everything on the way to `key` is there in `after`, and what was
/// missing in `disk` is a directory now.
pub open spec fn way_made_to(disk: Disk, after: Disk, key: Key) -> bool {
    forall|k: Key|
        0 < k.len() < key.len() && #[trigger] below(key, k) ==> after.has(k) && (!disk.has(k)
            ==> after.nodes[k].content is Directory)
}

/// Creating a directory, with its missing parents, changes nothing that is there;
/// and if it succeeds on a path that is missing, that path and everything
/// missing on the way to it are directories.
pub proof fn law_mkdir_makes(path: Seq<u8>, disk: Disk)
    ensures
        achieves(
            mkdir_program(path),
            disk,
            |done: Result<(), Failure>, after: Disk|
                {
                    let key = disk.key(path);
                    &&& grown(disk, after, key)
                    &&& done is Ok && !disk.hidden.contains(key) ==> after.has(key)
                        && after.nodes[key].content is Directory
                    &&& done is Ok && !disk.hidden.contains(key) && !disk.has(key) ==> way_made_to(
                        disk,
                        after,
                        key,
                    )
                },
        ),
{
    let key = disk.key(path);
    let post = |done: Result<(), Failure>, after: Disk|
        {
            let key = disk.key(path);
            &&& grown(disk, after, key)
            &&& done is Ok && !disk.hidden.contains(key) ==> after.has(key)
                && after.nodes[key].content is Directory
            &&& done is Ok && !disk.hidden.contains(key) && !disk.has(key) ==> way_made_to(
                disk,
                after,
                key,
            )
        };
    assert forall|done: Result<(), Failure>, after: Disk|
        grown(disk, after, key) && (done is Ok && !disk.hidden.contains(key) ==> after.has(key)
            && after.nodes[key].content is Directory && (!disk.has(key) ==> is_reachable(
            after,
            key,
        ))) implies #[trigger] post(done, after) by {
        if done is Ok && !disk.hidden.contains(key) && !disk.has(key) {
            assert(way_made_to(disk, after, key));
        }
    }
    effect_mkdir(path, disk, post);
}

/// Copying to a target where nothing is makes a file with the contents of the
/// source and the attributes of the entry, and the missing directories above it,
/// and changes nothing else.
pub proof fn law_copy_makes(file: FileView, disk: Disk)
    requires
        file.kind is Copy,
        file.source is Some,
        file_name(file.target) is Some,
        lasting_mode(file),
        !disk.has(disk.key(file.target)),
        clear_of(disk, disk.key(file.source->0), link_limit(), disk.key(file.target)),
    ensures
        achieves(
            copy_program(file),
            disk,
            |done: Result<(), Failure>, after: Disk|
                {
                    &&& copied(disk, after, file, done)
                    &&& done is Ok ==> way_made_to(disk, after, disk.key(file.target))
                },
        ),
{
    let post = |done: Result<(), Failure>, after: Disk|
        {
            &&& copied(disk, after, file, done)
            &&& done is Ok ==> way_made_to(disk, after, disk.key(file.target))
        };
    effect_copy(file, disk, post);
}

/// Making a link where nothing is makes one that leads where the entry says, and
/// the missing directories above it, and changes nothing else.
pub proof fn law_link_makes(file: FileView, disk: Disk)
    requires
        file.kind is Symlink,
        file.source is Some,
        file_name(file.target) is Some,
        lasting_mode(file),
        !disk.has(disk.key(file.target)),
        clear_of(disk, disk.key(file.source->0), link_limit(), disk.key(file.target)),
    ensures
        achieves(
            symlink_program(file),
            disk,
            |done: Result<(), Failure>, after: Disk|
                {
                    &&& linked(disk, after, file, done)
                    &&& done is Ok ==> way_made_to(disk, after, disk.key(file.target))
                },
        ),
{
    let post = |done: Result<(), Failure>, after: Disk|
        {
            &&& linked(disk, after, file, done)
            &&& done is Ok ==> way_made_to(disk, after, disk.key(file.target))
        };
    effect_symlink(file, disk, post);
}

/// Making the directory that an entry describes changes nothing but at its
/// target, apart from new directories; and if it succeeds, the target is as the
/// entry describes, and everything missing on the way to a new one is a
/// directory.
pub proof fn law_directory_makes(file: FileView, disk: Disk)
    requires
        file.kind is Directory,
        !disk.hidden.contains(disk.key(file.target)),
        lasting_mode(file),
    ensures
        achieves(
            directory_program(file),
            disk,
            |done: Result<(), Failure>, after: Disk|
                {
                    let key = disk.key(file.target);
                    &&& same_beside(disk, after, key)
                    &&& done is Ok ==> is_as_described(after, file)
                    &&& done is Ok && !disk.has(key) ==> way_made_to(disk, after, key)
                },
        ),
{
    let key = disk.key(file.target);
    let post = |done: Result<(), Failure>, after: Disk|
        {
            let key = disk.key(file.target);
            &&& same_beside(disk, after, key)
            &&& done is Ok ==> is_as_described(after, file)
            &&& done is Ok && !disk.has(key) ==> way_made_to(disk, after, key)
        };
    assert forall|done: Result<(), Failure>, after: Disk|
        same_beside(disk, after, key) && (done is Ok ==> is_as_described(after, file) && (!disk.has(
            key,
        ) ==> is_reachable(after, key))) implies #[trigger] post(done, after) by {
        if done is Ok && !disk.has(key) {
            assert(way_made_to(disk, after, key));
        }
    }
    effect_directory(file, disk, post);
}

/// Whether `after` is `before` with the mode and the owner that an entry gives.
/// What it does not give is as it was, but for bits of the mode that are lost
/// when the owner is set.
pub open spec fn is_dressed(file: FileView, before: Node, after: Node) -> bool {
    &&& after.content == before.content
    &&& after.uid == (match file.uid {
        Some(id) => id,
        None => before.uid,
    })
    &&& after.gid == (match file.gid {
        Some(id) => id,
        None => before.gid,
    })
    &&& match file.permissions {
        Some(mode) => after.mode == mode,
        None => after.mode == before.mode || ((file.uid is Some || file.gid is Some) && after.mode
            == before.mode & !0o6000u32),
    }
}

/// Applying mode and owner changes nothing but what is at the target, and there
/// only what the entry gives; and it fails where nothing is there. What comes of
/// a mode that is set through a link is said by [`law_mode_follows_link`].
pub proof fn law_attributes_apply(file: FileView, disk: Disk)
    requires
        mode_lasts(file),
        disk.has(disk.key(file.target)) ==> is_direct(disk, file),
    ensures
        achieves(
            chmod_chown_program(file),
            disk,
            |done: Result<(), Failure>, after: Disk|
                {
                    let key = disk.key(file.target);
                    &&& retouched(disk, after, key)
                    &&& !disk.has(key) ==> after == disk && done is Err
                    &&& done is Ok ==> is_dressed(file, disk.nodes[key], after.nodes[key])
                },
        ),
{
    broadcast use group_achieves;

    let key = disk.key(file.target);
    let node = disk.nodes[key];
    let post = |done: Result<(), Failure>, after: Disk|
        {
            let key = disk.key(file.target);
            &&& retouched(disk, after, key)
            &&& !disk.has(key) ==> after == disk && done is Err
            &&& done is Ok ==> is_dressed(file, disk.nodes[key], after.nodes[key])
        };
    assert(!(node.content is Link) && disk.has(key) ==> disk.resolved(file.target) == Some(key));
    assert forall|seen: Metadata, found: Disk|
        disk.has(key) && shows(node, seen) && retouched(disk, found, key) && found.nodes[key].uid
            == node.uid && found.nodes[key].gid == node.gid && (match file.permissions {
            Some(mode) => found.nodes[key].mode == mode,
            None => found.nodes[key].mode == node.mode,
        }) implies #[trigger] achieves(set_owner(file, seen), found, post) by {
        let mode = found.nodes[key].mode;
        assert(mode & 0o6000 == 0 ==> mode & !0o6000u32 == mode) by (bit_vector);
        assert(!(node.content is Link) ==> found.resolved(file.target) == Some(key));
        assert forall|done: Result<(), Failure>, last: Node|
            last.content == node.content && (done is Ok ==> is_dressed(
                file,
                node,
                last,
            )) implies #[trigger] post(done, #[trigger] found.with(key, last)) by {
            assert(retouched(found, found.with(key, last), key));
            lemma_retouched_twice(disk, found, found.with(key, last), key);
        }
    }
}

/// The entry, as if it gave no mode.
pub open spec fn without_mode(file: FileView) -> FileView {
    FileView { permissions: None, ..file }
}

/// Whether `after` is `disk` but for the owner of the link at the target, and the
/// mode of what that leads to.
pub open spec fn set_through(disk: Disk, after: Disk, file: FileView) -> bool {
    let key = disk.key(file.target);
    &&& same_frame(disk, after)
    &&& forall|k: Key| #[trigger] after.has(k) == disk.has(k)
    &&& forall|k: Key|
        k != key && Some(k) != disk.resolved(file.target) ==> #[trigger] after.at(k) == disk.at(k)
    &&& after.nodes[key].content == disk.nodes[key].content
    &&& disk.resolved(file.target) matches Some(end) ==> after.nodes[end] == (Node {
        mode: after.nodes[end].mode,
        ..disk.nodes[end]
    })
}

/// Whether what the link at the target leads to has the mode that the entry gives,
/// unless the link itself had it already.
pub open spec fn got_mode(disk: Disk, after: Disk, file: FileView) -> bool {
    ||| file.permissions->0 == disk.nodes[disk.key(file.target)].mode
    ||| match disk.resolved(file.target) {
        Some(end) => after.nodes[end].mode == file.permissions->0,
        None => false,
    }
}

/// An entry that is not about a link, with a link at its target: the link gets
/// the owner, and what it leads to gets the mode, unless the mode is that of the
/// link already. Nothing else changes.
pub proof fn law_mode_follows_link(file: FileView, disk: Disk)
    requires
        mode_lasts(file),
        !(file.kind is Symlink),
        file.permissions is Some,
        disk.has(disk.key(file.target)),
        disk.nodes[disk.key(file.target)].content is Link,
    ensures
        achieves(
            chmod_chown_program(file),
            disk,
            |done: Result<(), Failure>, after: Disk|
                {
                    let key = disk.key(file.target);
                    &&& set_through(disk, after, file)
                    &&& done is Ok ==> is_dressed(
                        without_mode(file),
                        disk.nodes[key],
                        after.nodes[key],
                    )
                    &&& done is Ok ==> got_mode(disk, after, file)
                },
        ),
{
    broadcast use group_achieves;

    let key = disk.key(file.target);
    let node = disk.nodes[key];
    let post = |done: Result<(), Failure>, after: Disk|
        {
            let key = disk.key(file.target);
            &&& set_through(disk, after, file)
            &&& done is Ok ==> is_dressed(without_mode(file), disk.nodes[key], after.nodes[key])
            &&& done is Ok ==> got_mode(disk, after, file)
        };
    lemma_resolve_end(disk, key, link_limit());
    assert forall|seen: Metadata, found: Disk|
        shows(node, seen) && set_through(disk, found, file) && found.nodes[key] == node && got_mode(
            disk,
            found,
            file,
        ) implies #[trigger] achieves(set_owner(file, seen), found, post) by {
        assert forall|done: Result<(), Failure>, last: Node|
            last.content == node.content && (done is Ok ==> is_dressed(
                without_mode(file),
                node,
                last,
            )) implies #[trigger] post(done, #[trigger] found.with(key, last)) by {
            let after = found.with(key, last);
            assert forall|k: Key| #[trigger] after.has(k) == disk.has(k) by {
                assert(found.has(k) == disk.has(k));
            }
            assert forall|k: Key|
                k != key && Some(k) != disk.resolved(file.target) implies #[trigger] after.at(k)
                == disk.at(k) by {
                assert(found.at(k) == disk.at(k));
            }
        }
        assert(post(Err(Failure::DoesNotExist), found));
    }
}

} // verus!
