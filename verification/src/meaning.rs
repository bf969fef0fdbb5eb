//! What entries mean, said of nodes and settings directly.
use vstd::prelude::*;

use crate::action::{blake3_hash, Failure};
use crate::attain::{
    cannot_tell, is_as_described, is_skipped, law_inspection, passes_check, plain_source,
    takes_away,
};
use crate::batch::{item_program, ItemView, Outcome};
use crate::diff::forced;
use crate::effect::lemma_parent_key;
use crate::file_util::{
    backup_path, check_source_program, clobbers, inspect_program, keeps_existing, skip_program,
    Skip,
};
use crate::manifest::FileView;
use crate::model::{achieves, group_achieves, lemma_achieves_weaken, Disk};
use crate::path::{
    file_name, is_name, law_parts_well_formed, law_sibling, parts, with_file_name, Part, DOT,
    SEPARATOR,
};
use crate::protect::{effect_guard, is_protected};

verus! {

/// An inspection changes nothing, and says that an entry is in force exactly where
/// it is. A directory has to be there, or for a modify anything, with the mode and
/// the owner that the entry gives; for a delete nothing may be there. A copy needs
/// a regular file with as many bytes as the source and the same hash, or just a
/// regular file if its contents do not count. A link has to lead where its source
/// leads, or to hold the source as it is written if that is not to be followed.
/// What cannot be looked at is not in force.
pub proof fn law_inspection_tells(file: FileView, disk: Disk)
    requires
        plain_source(disk, file),
    ensures
        achieves(
            inspect_program(file),
            disk,
            |found: Result<bool, Failure>, after: Disk|
                {
                    let key = disk.key(file.target);
                    let node = disk.nodes[key];
                    let right = !disk.hidden.contains(key) && if file.kind is Delete {
                        !disk.has(key)
                    } else {
                        &&& disk.has(key)
                        &&& file.permissions is Some ==> node.mode == file.permissions->0
                        &&& file.uid is Some ==> node.uid == file.uid->0
                        &&& file.gid is Some ==> node.gid == file.gid->0
                        &&& file.kind is Directory ==> node.content is Directory
                        &&& file.kind is Copy ==> {
                            &&& file.source is Some
                            &&& node.content is File
                            &&& file.ignore_modification != Some(true) ==> {
                                let own = node.content->File_0;
                                &&& !disk.hidden.contains(disk.key(file.source->0))
                                &&& disk.contents(file.source->0) is Some
                                &&& disk.contents(file.source->0)->0.len() == own.len()
                                &&& blake3_hash(disk.contents(file.source->0)->0) == blake3_hash(
                                    own,
                                )
                            }
                        }
                        &&& file.kind is Symlink ==> {
                            &&& file.source is Some
                            &&& if file.follow_symlinks == Some(false) {
                                node.content is Link && parts(node.content->Link_0) == parts(
                                    file.source->0,
                                )
                            } else {
                                disk.resolved(file.target) is Some && disk.resolved(
                                    file.source->0,
                                ) == disk.resolved(file.target)
                            }
                        }
                    };
                    &&& after == disk
                    &&& found == Ok::<bool, Failure>(true) <==> right
                },
        ),
{
    let strict = |correct: Result<bool, Failure>, after: Disk|
        {
            &&& after == disk
            &&& match correct {
                Ok(answer) => answer == is_as_described(disk, file),
                Err(_) => cannot_tell(disk, file) || disk.hidden.contains(
                    disk.key(file.target),
                ),
            }
            &&& correct == Ok::<bool, Failure>(true) <==> passes_check(disk, file)
        };
    let loose = |found: Result<bool, Failure>, after: Disk|
        {
            let key = disk.key(file.target);
            let node = disk.nodes[key];
            let right = !disk.hidden.contains(key) && if file.kind is Delete {
                !disk.has(key)
            } else {
                &&& disk.has(key)
                &&& file.permissions is Some ==> node.mode == file.permissions->0
                &&& file.uid is Some ==> node.uid == file.uid->0
                &&& file.gid is Some ==> node.gid == file.gid->0
                &&& file.kind is Directory ==> node.content is Directory
                &&& file.kind is Copy ==> {
                    &&& file.source is Some
                    &&& node.content is File
                    &&& file.ignore_modification != Some(true) ==> {
                        let own = node.content->File_0;
                        &&& !disk.hidden.contains(disk.key(file.source->0))
                        &&& disk.contents(file.source->0) is Some
                        &&& disk.contents(file.source->0)->0.len() == own.len()
                        &&& blake3_hash(disk.contents(file.source->0)->0) == blake3_hash(own)
                    }
                }
                &&& file.kind is Symlink ==> {
                    &&& file.source is Some
                    &&& if file.follow_symlinks == Some(false) {
                        node.content is Link && parts(node.content->Link_0) == parts(
                            file.source->0,
                        )
                    } else {
                        disk.resolved(file.target) is Some && disk.resolved(file.source->0)
                            == disk.resolved(file.target)
                    }
                }
            };
            &&& after == disk
            &&& found == Ok::<bool, Failure>(true) <==> right
        };
    law_inspection(file, disk);
    lemma_achieves_weaken(inspect_program(file), disk, strict, loose);
}

/// An entry is skipped only for its source: a copy or a link without one, or whose
/// source is not there, and a copy whose source is no regular file. That is found
/// out by a look at the source alone, and the reason is told.
pub proof fn law_skipping(file: FileView, disk: Disk)
    ensures
        is_skipped(disk, file) <==> (file.kind is Copy || file.kind is Symlink) && (
        file.source is None || (!disk.hidden.contains(disk.key(file.source->0)) && (!disk.has(
            disk.key(file.source->0),
        ) || (file.kind is Copy && !(disk.nodes[disk.key(file.source->0)].content is File))))),
        achieves(
            check_source_program(file),
            disk,
            |skip: Result<bool, Failure>, after: Disk|
                after == disk && skip == Ok::<bool, Failure>(is_skipped(disk, file)),
        ),
        achieves(
            skip_program(file),
            disk,
            |skip: Result<Option<Skip>, Failure>, after: Disk|
                {
                    let source = disk.key(file.source->0);
                    &&& after == disk
                    &&& skip is Ok
                    &&& skip->Ok_0 is Some <==> is_skipped(disk, file)
                    &&& skip->Ok_0 == Some(Skip::NoSource) ==> file.source is None
                    &&& skip->Ok_0 == Some(Skip::SourceMissing) ==> file.source is Some
                        && !disk.has(source)
                    &&& skip->Ok_0 == Some(Skip::SourceUnfit) ==> file.source is Some && disk.has(
                        source,
                    ) && file.kind is Copy && !(disk.nodes[source].content is File)
                },
        ),
{
    broadcast use group_achieves;

}

/// What `clobber` decides: an entry's own setting counts, and where it has none
/// the default does, which is `false` if it is not given. Only a copy can ask that
/// what is at its target be kept. An entry that is forced throws away what is at
/// its target, and is the same otherwise.
pub proof fn law_clobber_decides(file: FileView, clobber_by_default: Option<bool>)
    ensures
        file.clobber == Some(true) ==> clobbers(file.clobber, clobber_by_default),
        file.clobber == Some(false) ==> !clobbers(file.clobber, clobber_by_default),
        file.clobber is None ==> (clobbers(file.clobber, clobber_by_default) <==> clobber_by_default
            == Some(true)),
        keeps_existing(file) <==> file.kind is Copy && file.clobber == Some(false),
        clobbers(forced(file, clobber_by_default).clobber, clobber_by_default),
        !keeps_existing(forced(file, clobber_by_default)),
        forced(file, clobber_by_default).kind == file.kind,
        forced(file, clobber_by_default).source == file.source,
        forced(file, clobber_by_default).target == file.target,
        forced(file, clobber_by_default).permissions == file.permissions,
        forced(file, clobber_by_default).uid == file.uid,
        forced(file, clobber_by_default).gid == file.gid,
        forced(file, clobber_by_default).deactivate == file.deactivate,
        forced(file, clobber_by_default).follow_symlinks == file.follow_symlinks,
        forced(file, clobber_by_default).ignore_modification == file.ignore_modification,
{
}

/// What deactivation is for: copies, links and directories are taken away unless
/// they are told to be left alone, and nothing else is.
pub proof fn law_deactivation_is_for(file: FileView)
    ensures
        takes_away(file) <==> (file.kind is Copy || file.kind is Symlink || file.kind is Directory)
            && (file.deactivate is None || file.deactivate == Some(true)),
{
    if let Some(choice) = file.deactivate {
        assert(file.deactivate == Some(true) || file.deactivate == Some(false)) by {
            if choice {
            }
        }
    }
}

/// Which targets are protected from a delta: those that are there and can be
/// looked at, that are no links that lead nowhere, that may not be thrown away, and
/// that an inspection does not find to be as the old entry says. The guard of a
/// changed entry finds that out, and changes nothing.
pub proof fn law_guard_tells(
    old_file: FileView,
    new_file: FileView,
    clobber_by_default: Option<bool>,
    prefix: Seq<u8>,
    disk: Disk,
)
    requires
        plain_source(disk, old_file),
    ensures
        achieves(
            item_program(ItemView::Guard(old_file, new_file), clobber_by_default, prefix),
            disk,
            |result: Result<Outcome, Failure>, after: Disk|
                {
                    let key = disk.key(new_file.target);
                    let dead = disk.nodes[key].content is Link && disk.resolved(new_file.target)
                        is None;
                    let protected = {
                        &&& new_file.clobber != Some(true)
                        &&& new_file.clobber is None ==> clobber_by_default != Some(true)
                        &&& disk.has(key)
                        &&& !disk.hidden.contains(key)
                        &&& !dead
                        &&& !passes_check(disk, old_file)
                    };
                    &&& after == disk
                    &&& result == Ok::<Outcome, Failure>(Outcome::Guarded(protected))
                },
        ),
{
    let strict = |result: Result<Outcome, Failure>, after: Disk|
        after == disk && result == Ok::<Outcome, Failure>(
            Outcome::Guarded(is_protected(disk, old_file, new_file, clobber_by_default)),
        );
    let loose = |result: Result<Outcome, Failure>, after: Disk|
        {
            let key = disk.key(new_file.target);
            let dead = disk.nodes[key].content is Link && disk.resolved(new_file.target) is None;
            let protected = {
                &&& new_file.clobber != Some(true)
                &&& new_file.clobber is None ==> clobber_by_default != Some(true)
                &&& disk.has(key)
                &&& !disk.hidden.contains(key)
                &&& !dead
                &&& !passes_check(disk, old_file)
            };
            &&& after == disk
            &&& result == Ok::<Outcome, Failure>(Outcome::Guarded(protected))
        };
    effect_guard((old_file, new_file), clobber_by_default, disk);
    lemma_achieves_weaken(
        item_program(ItemView::Guard(old_file, new_file), clobber_by_default, prefix),
        disk,
        strict,
        loose,
    );
}

/// A backup lies beside what it is a backup of, under the same name with the prefix
/// in front, as long as the prefix holds no separator and the name stays a name.
pub proof fn law_backup_lies_beside(path: Seq<u8>, prefix: Seq<u8>, disk: Disk)
    requires
        file_name(path) is Some,
        !(prefix + file_name(path)->0).contains(SEPARATOR),
        prefix + file_name(path)->0 != seq![DOT],
        prefix + file_name(path)->0 != seq![DOT, DOT],
    ensures
        parts(backup_path(path, prefix)) == parts(path).drop_last().push(
            Part::Name(prefix + file_name(path)->0),
        ),
        disk.key(backup_path(path, prefix)).len() == disk.key(path).len(),
        disk.key(backup_path(path, prefix)).drop_last() == disk.key(path).drop_last(),
        prefix.len() > 0 ==> disk.key(backup_path(path, prefix)) != disk.key(path),
{
    let name = prefix + file_name(path)->0;
    law_parts_well_formed(path);
    assert(is_name(file_name(path)->0)) by {
        assert(parts(path)[parts(path).len() - 1] == parts(path).last());
    }
    assert(is_name(name)) by {
        if name.len() == 1 {
            assert(name =~= seq![name[0]]);
        }
        if name.len() == 2 {
            assert(name =~= seq![name[0], name[1]]);
        }
    }
    law_sibling(path, name);
    let aside = backup_path(path, prefix);
    assert(aside == with_file_name(path, name));
    assert(file_name(aside) == Some(name)) by {
        assert(parts(aside).last() == Part::Name(name));
    }
    lemma_parent_key(disk, path);
    lemma_parent_key(disk, aside);
    assert(disk.key(path).last() == parts(path).last()) by {
        lemma_key_end(disk, path);
    }
    assert(disk.key(aside).last() == parts(aside).last()) by {
        lemma_key_end(disk, aside);
    }
    assert(disk.key(aside).drop_last() == disk.key(path).drop_last());
}

/// A path that ends in a name names a node of that name.
proof fn lemma_key_end(disk: Disk, path: Seq<u8>)
    requires
        file_name(path) is Some,
    ensures
        disk.key(path).len() > 0,
        disk.key(path).last() == parts(path).last(),
{
    lemma_parent_key(disk, path);
}

} // verus!
