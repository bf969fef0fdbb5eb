//! What activation and deactivation attain: the state that an entry describes.
use vstd::prelude::*;

use crate::action::{blake3_hash, Failure, Metadata};
use crate::effect::{
    backed_up, clear_of, copied, effect_atomic, effect_attributes, effect_copy, effect_delete,
    effect_finish, effect_mkdir, effect_prefix_move, effect_symlink, established, fits,
    involves_directory, is_moved_to, lasting_mode, leads_right, lemma_below_self, lemma_resolve_end,
    lemma_resolve_preserved, lemma_spare_key, linked, preserved, ready, retouched, same_beside, saw,
    shrunk, target_untouched,
};
use crate::file_util::{
    activate_program, atomic_activate_program, attributes_match, backup_path, bring_about,
    check_contents, check_program, clobbers, correct, deactivate_program, delete_program,
    directory_program, finish, in_the_way, inspect_program, install, keeps_existing, make_way,
    mkdir_program, move_aside, prefix_move_program, remove_existing, replace, try_swap, uninstall,
};
use crate::manifest::{takes_source, FileKind, FileView};
use crate::model::{
    achieves, below, group_achieves, grown, is_reachable, is_spare, key_from, lemma_achieves_bind,
    lemma_achieves_then, lemma_achieves_weaken, link_limit, relocated, same_frame, same_outside,
    Content, Disk, Key,
};
use crate::path::{file_name, parts, same_path};
use crate::program::Program;

verus! {

/// Whether the file that `path` leads to has as many bytes as `bytes`, and the
/// same hash.
pub open spec fn same_contents(disk: Disk, bytes: Seq<u8>, path: Seq<u8>) -> bool {
    match disk.contents(path) {
        Some(other) => bytes.len() == other.len() && blake3_hash(bytes) == blake3_hash(other),
        None => false,
    }
}

/// Whether what is at the target is what the entry describes.
pub open spec fn is_as_described(disk: Disk, file: FileView) -> bool {
    let key = disk.key(file.target);
    if file.kind is Delete {
        !disk.has(key)
    } else {
        &&& disk.has(key)
        &&& fits(file, disk.nodes[key])
        &&& match file.kind {
            FileKind::Directory => disk.nodes[key].content is Directory,
            FileKind::Copy => match disk.nodes[key].content {
                Content::File(bytes) => file.ignore_modification == Some(true) || same_contents(
                    disk,
                    bytes,
                    file.source->0,
                ),
                _ => false,
            },
            FileKind::Symlink => if file.follow_symlinks != Some(false) {
                disk.resolved(file.target) is Some && disk.resolved(file.target) == disk.resolved(
                    file.source->0,
                )
            } else {
                match disk.nodes[key].content {
                    Content::Link(dest) => same_path(dest, file.source->0),
                    _ => false,
                }
            },
            _ => true,
        }
    }
}

/// Whether the source of a copy is no link, as far as it can be looked at.
pub open spec fn plain_source(disk: Disk, file: FileView) -> bool {
    file.kind is Copy && file.source is Some ==> {
        let source = disk.key(file.source->0);
        disk.hidden.contains(source) || !(disk.has(source) && disk.nodes[source].content is Link)
    }
}

/// Whether the check cannot tell what is at the target: there is no source to
/// hold it against, the source is missing or cannot be looked at, or a link that has to be
/// followed leads nowhere.
pub open spec fn cannot_tell(disk: Disk, file: FileView) -> bool {
    &&& takes_source(file.kind)
    &&& file.source is Some ==> if file.kind is Copy {
        disk.hidden.contains(disk.key(file.source->0)) || !disk.has(disk.key(file.source->0))
    } else if file.follow_symlinks != Some(false) {
        disk.resolved(file.target) is None || disk.resolved(file.source->0) is None
    } else {
        !(disk.at(disk.key(file.target)) matches Some(node) && node.content is Link)
    }
}

proof fn effect_check_contents(
    file: FileView,
    disk: Disk,
    post: spec_fn(Result<bool, Failure>, Disk) -> bool,
)
    requires
        file.kind is Copy,
        file.source is Some,
        plain_source(disk, file),
        !disk.hidden.contains(disk.key(file.target)),
        disk.has(disk.key(file.target)),
        disk.nodes[disk.key(file.target)].content is File,
        forall|failure: Failure| cannot_tell(disk, file) ==> #[trigger] post(Err(failure), disk),
        post(
            Ok(
                same_contents(
                    disk,
                    disk.nodes[disk.key(file.target)].content->File_0,
                    file.source->0,
                ),
            ),
            disk,
        ),
    ensures
        achieves(check_contents(file.target, file.source->0), disk, post),
{
    broadcast use group_achieves;

    let key = disk.key(file.target);
    let source = disk.key(file.source->0);
    assert(disk.resolved(file.target) == Some(key));
    assert(disk.contents(file.target) == Some(disk.nodes[key].content->File_0));
    if !disk.hidden.contains(source) && disk.has(source) {
        assert(disk.resolved(file.source->0) == Some(source));
    }
}

/// The check tells whether the target is what the entry describes.
pub(crate) proof fn effect_check(
    file: FileView,
    metadata: Option<Metadata>,
    disk: Disk,
    post: spec_fn(Result<bool, Failure>, Disk) -> bool,
)
    requires
        saw(disk, file.target, Ok(metadata)),
        plain_source(disk, file),
        post(Ok(is_as_described(disk, file)), disk),
        forall|failure: Failure| cannot_tell(disk, file) ==> #[trigger] post(Err(failure), disk),
    ensures
        achieves(check_program(file, metadata), disk, post),
{
    broadcast use group_achieves;

    let key = disk.key(file.target);
    if let Some(seen) = metadata {
        assert(attributes_match(file, seen) == fits(file, disk.nodes[key]));
        if file.kind is Copy && file.source is Some && seen.node is File && attributes_match(
            file,
            seen,
        ) && file.ignore_modification != Some(true) {
            effect_check_contents(file, disk, post);
        }
    }
}

/// Whether a look into whether the target is what the entry describes finds that
/// it is: it can be looked at, and so can what it is held against.
pub open spec fn passes_check(disk: Disk, file: FileView) -> bool {
    &&& is_as_described(disk, file)
    &&& !disk.hidden.contains(disk.key(file.target))
    &&& takes_source(file.kind) && disk.has(disk.key(file.target)) ==> file.source is Some
    &&& file.kind is Copy && file.ignore_modification != Some(true) ==> !disk.hidden.contains(
        disk.key(file.source->0),
    )
}

/// The check finds that the target is what the entry describes exactly where it
/// can be told.
pub(crate) proof fn effect_check_passes(file: FileView, metadata: Option<Metadata>, disk: Disk)
    requires
        saw(disk, file.target, Ok(metadata)),
        plain_source(disk, file),
    ensures
        achieves(
            check_program(file, metadata),
            disk,
            |correct: Result<bool, Failure>, after: Disk|
                after == disk && (correct == Ok::<bool, Failure>(true) <==> passes_check(
                    disk,
                    file,
                )),
        ),
{
    broadcast use group_achieves;

    let key = disk.key(file.target);
    let source = disk.key(file.source->0);
    if let Some(seen) = metadata {
        assert(attributes_match(file, seen) == fits(file, disk.nodes[key]));
        if file.kind is Copy && file.source is Some && seen.node is File {
            assert(disk.resolved(file.target) == Some(key));
            assert(disk.contents(file.target) == Some(disk.nodes[key].content->File_0));
            if !disk.hidden.contains(source) && disk.has(source) {
                assert(disk.resolved(file.source->0) == Some(source));
            } else if !disk.hidden.contains(source) {
                assert(disk.resolved(file.source->0) is None);
            }
        }
    }
}

/// Looking into whether a target is what an entry describes changes nothing and
/// finds out. A copy needs a source that can be looked at.
pub proof fn law_inspection(file: FileView, disk: Disk)
    requires
        plain_source(disk, file),
    ensures
        achieves(
            inspect_program(file),
            disk,
            |correct: Result<bool, Failure>, after: Disk|
                {
                    &&& after == disk
                    &&& match correct {
                        Ok(answer) => answer == is_as_described(disk, file),
                        Err(_) => cannot_tell(disk, file) || disk.hidden.contains(
                            disk.key(file.target),
                        ),
                    }
                    &&& correct == Ok::<bool, Failure>(true) <==> passes_check(disk, file)
                },
        ),
{
    broadcast use group_achieves;

    let post = |correct: Result<bool, Failure>, after: Disk|
        {
            &&& after == disk
            &&& match correct {
                Ok(answer) => answer == is_as_described(disk, file),
                Err(_) => cannot_tell(disk, file) || disk.hidden.contains(disk.key(file.target)),
            }
        };
    assert forall|metadata: Option<Metadata>|
        saw(disk, file.target, Ok(metadata)) implies achieves(
        #[trigger] check_program(file, metadata),
        disk,
        post,
    ) by {
        effect_check(file, metadata, disk, post);
    }
}

/// Whether the links that start at the source lead clear of the target, and of
/// the backup path if the target is moved there.
pub open spec fn source_apart(disk: Disk, file: FileView, clobber: bool, prefix: Seq<u8>) -> bool {
    takes_source(file.kind) && file.source is Some ==> {
        let source = disk.key(file.source->0);
        &&& clear_of(disk, source, link_limit(), disk.key(file.target))
        &&& clobber || keeps_existing(file) || clear_of(
            disk,
            source,
            link_limit(),
            disk.key(backup_path(file.target, prefix)),
        )
    }
}

pub open spec fn is_dangling(disk: Disk, path: Seq<u8>) -> bool {
    &&& disk.has(disk.key(path))
    &&& disk.nodes[disk.key(path)].content is Link
    &&& disk.resolved(path) is None
}

/// Whether everything that was in `disk` is in `after` as it was, but for what
/// was at `one` and `other` and below them.
pub open spec fn spared(disk: Disk, after: Disk, one: Key, other: Key) -> bool {
    &&& same_frame(disk, after)
    &&& forall|k: Key|
        !below(k, one) && !below(k, other) && disk.has(k) ==> #[trigger] after.at(k) == disk.at(k)
}

/// Whether what is in the way of an entry is moved aside.
pub open spec fn moves_aside(file: FileView, clobber: bool) -> bool {
    !clobber && !keeps_existing(file)
}

/// Where, besides the target, activation may change what was there: the backup
/// path, where what is at the target may not be thrown away.
pub open spec fn other_place(
    disk: Disk,
    file: FileView,
    clobber: bool,
    prefix: Seq<u8>,
) -> Key {
    if moves_aside(file, clobber) {
        disk.key(backup_path(file.target, prefix))
    } else {
        disk.key(file.target)
    }
}

/// Whether activation may change what is at `key`: the target; what is below it,
/// where that may have to make way; and the backup path.
pub open spec fn touches(
    disk: Disk,
    file: FileView,
    clobber: bool,
    prefix: Seq<u8>,
    key: Key,
) -> bool {
    let target = disk.key(file.target);
    ||| if file.kind is Directory || file.kind is Modify {
        key == target
    } else {
        below(key, target)
    }
    ||| moves_aside(file, clobber) && below(key, disk.key(backup_path(file.target, prefix)))
}

/// Whether a temporary file may be left behind at `key`: nothing claims it, and
/// no link leads there.
pub open spec fn is_stray(disk: Disk, key: Key) -> bool {
    &&& !disk.claimed.contains(key)
    &&& forall|k: Key| #[trigger]
        disk.has(k) && disk.nodes[k].content is Link ==> !below(
            key_from(k.drop_last(), disk.nodes[k].content->Link_0),
            key,
        )
}

/// Whether activation has changed nothing but what it may change: all else is as
/// it was, and new are only directories above the target, and temporary files at
/// worst.
pub open spec fn confined(
    disk: Disk,
    after: Disk,
    file: FileView,
    clobber: bool,
    prefix: Seq<u8>,
) -> bool {
    &&& same_frame(disk, after)
    &&& forall|k: Key|
        !touches(disk, file, clobber, prefix, k) && disk.has(k) ==> #[trigger] after.at(k)
            == disk.at(k)
    &&& forall|k: Key|
        !touches(disk, file, clobber, prefix, k) && !disk.has(k) && #[trigger] after.has(k)
            ==> is_stray(disk, k) || (after.nodes[k].content is Directory && below(
            disk.key(file.target),
            k,
        ))
}

proof fn lemma_confined_spares(
    disk: Disk,
    after: Disk,
    file: FileView,
    clobber: bool,
    prefix: Seq<u8>,
)
    requires
        confined(disk, after, file, clobber, prefix),
    ensures
        spared(disk, after, disk.key(file.target), other_place(disk, file, clobber, prefix)),
{
    lemma_below_self(disk.key(file.target));
}

/// What freeing the target made of `disk`.
pub open spec fn way_made(
    disk: Disk,
    after: Disk,
    file: FileView,
    clobber: bool,
    prefix: Seq<u8>,
    free: bool,
) -> bool {
    let key = disk.key(file.target);
    let backup = disk.key(backup_path(file.target, prefix));
    if free {
        &&& confined(disk, after, file, clobber, prefix)
        &&& preserved(disk, after, key, other_place(disk, file, clobber, prefix))
        &&& takes_source(file.kind) ==> !after.has(key)
        &&& file.kind is Directory ==> !after.has(key) || after == disk
            && disk.nodes[key].content is Directory
        &&& file.kind is Modify || file.kind is Delete ==> after == disk
        &&& after == disk || clobber || keeps_existing(file) || is_moved_to(
            disk,
            after,
            key,
            backup,
        )
        &&& keeps_existing(file) && !clobber && disk.has(key) ==> is_dangling(disk, file.target)
    } else {
        &&& after == disk
        &&& keeps_existing(file)
        &&& !clobber
        &&& disk.has(key)
        &&& !is_dangling(disk, file.target)
    }
}

proof fn lemma_outside_preserves(disk: Disk, after: Disk, key: Key, other: Key)
    requires
        same_outside(disk, after, key),
    ensures
        preserved(disk, after, key, other),
{
    assert forall|k: Key|
        !below(k, key) && !below(k, other) && !disk.has(k) && #[trigger] after.has(
            k,
        ) implies after.nodes[k].content is Directory by {
        assert(after.at(k) == disk.at(k));
    }
}

proof fn lemma_confined_then(
    disk: Disk,
    between: Disk,
    after: Disk,
    file: FileView,
    clobber: bool,
    prefix: Seq<u8>,
)
    requires
        confined(disk, between, file, clobber, prefix),
        same_beside(between, after, disk.key(file.target)),
    ensures
        confined(disk, after, file, clobber, prefix),
{
    let key = disk.key(file.target);
    lemma_below_self(key);
    assert forall|k: Key|
        !touches(disk, file, clobber, prefix, k) && disk.has(k) implies #[trigger] after.at(k)
        == disk.at(k) by {
        assert(between.at(k) == disk.at(k));
    }
    assert forall|k: Key|
        !touches(disk, file, clobber, prefix, k) && !disk.has(k) && #[trigger] after.has(
            k,
        ) implies is_stray(disk, k) || (after.nodes[k].content is Directory && below(key, k)) by {
        if between.has(k) {
            assert(after.at(k) == between.at(k));
        }
    }
}

proof fn lemma_backup_confined(
    disk: Disk,
    after: Disk,
    file: FileView,
    clobber: bool,
    prefix: Seq<u8>,
    done: Result<(), Failure>,
)
    requires
        backed_up(disk, after, file.target, prefix, done),
        !clobber,
        !keeps_existing(file),
        takes_source(file.kind) || (file.kind is Directory && !(disk.nodes[disk.key(
            file.target,
        )].content is Directory)),
    ensures
        confined(disk, after, file, clobber, prefix),
{
    let key = disk.key(file.target);
    let backup = disk.key(backup_path(file.target, prefix));
    lemma_below_self(key);
    assert forall|k: Key|
        !touches(disk, file, clobber, prefix, k) && disk.has(k) implies #[trigger] after.at(k)
        == disk.at(k) by {
        assert(!below(k, backup));
    }
    assert forall|k: Key|
        !touches(disk, file, clobber, prefix, k) && !disk.has(k) && #[trigger] after.has(
            k,
        ) implies false by {
        assert(!below(k, backup));
        assert(after.at(k) == disk.at(k));
    }
}

proof fn lemma_shrunk_confined(
    disk: Disk,
    after: Disk,
    file: FileView,
    clobber: bool,
    prefix: Seq<u8>,
)
    requires
        same_outside(disk, after, disk.key(file.target)),
        shrunk(disk, after),
        file.kind is Directory || file.kind is Modify ==> after == disk || after == disk.without(
            disk.key(file.target),
        ),
    ensures
        confined(disk, after, file, clobber, prefix),
{
    assert forall|k: Key|
        !touches(disk, file, clobber, prefix, k) && !disk.has(k) implies !#[trigger] after.has(
        k,
    ) by {
        if after.has(k) {
            assert(after.at(k) == disk.at(k));
        }
    }
}

pub(crate) proof fn effect_make_way(
    file: FileView,
    metadata: Option<Metadata>,
    clobber: bool,
    prefix: Seq<u8>,
    disk: Disk,
    post: spec_fn(Result<bool, Failure>, Disk) -> bool,
)
    requires
        saw(disk, file.target, Ok(metadata)),
        forall|free: bool, after: Disk|
            way_made(disk, after, file, clobber, prefix, free) ==> #[trigger] post(Ok(free), after),
        forall|failure: Failure, after: Disk|
            !(file.kind is Delete) && confined(disk, after, file, clobber, prefix)
                ==> #[trigger] post(Err(failure), after),
    ensures
        achieves(make_way(file, metadata, clobber, prefix), disk, post),
{
    broadcast use group_achieves;

    let key = disk.key(file.target);
    let backup = disk.key(backup_path(file.target, prefix));
    assert(same_outside(disk, disk, key));
    lemma_outside_preserves(disk, disk, key, backup);
    lemma_outside_preserves(disk, disk, key, key);
    match metadata {
        None => {
            assert(way_made(disk, disk, file, clobber, prefix, true));
        },
        Some(seen) => {
            if !in_the_way(file.kind, seen) {
                assert(way_made(disk, disk, file, clobber, prefix, true));
            } else if clobber || keeps_existing(file) {
                if clobber || is_dangling(disk, file.target) {
                    let mid = |done: Result<(), Failure>, after: Disk|
                        {
                            &&& same_outside(disk, after, key)
                            &&& shrunk(disk, after)
                            &&& done is Ok ==> !after.has(key)
                            &&& !(seen.node is Directory) ==> after == disk || after
                                == disk.without(key)
                        };
                    effect_delete(file.target, seen, disk, mid);
                    assert forall|after: Disk| #[trigger] mid(Ok(()), after) implies post(
                        Ok(true),
                        after,
                    ) by {
                        lemma_outside_preserves(disk, after, key, key);
                        lemma_shrunk_confined(disk, after, file, clobber, prefix);
                        assert(way_made(disk, after, file, clobber, prefix, true));
                    }
                    assert forall|failure: Failure, after: Disk| #[trigger]
                        mid(Err(failure), after) implies post(Err(failure), after) by {
                        lemma_shrunk_confined(disk, after, file, clobber, prefix);
                    }
                    lemma_achieves_then(
                        delete_program(file.target, seen),
                        |_done: ()| Program::Return(Ok::<bool, Failure>(true)),
                        disk,
                        mid,
                        post,
                    );
                    assert(achieves(remove_existing(file, seen), disk, post));
                }
                if !clobber && !is_dangling(disk, file.target) {
                    assert(way_made(disk, disk, file, clobber, prefix, false));
                }
            } else {
                let mid = |done: Result<(), Failure>, after: Disk|
                    {
                        &&& confined(disk, after, file, clobber, prefix)
                        &&& done is Ok ==> backed_up(disk, after, file.target, prefix, done)
                    };
                assert forall|after: Disk| #[trigger] mid(Ok(()), after) implies post(
                    Ok(true),
                    after,
                ) by {
                    assert(way_made(disk, after, file, clobber, prefix, true));
                }
                assert(confined(disk, disk, file, clobber, prefix));
                assert(achieves(prefix_move_program(file.target, prefix), disk, mid)) by {
                    if file_name(file.target) is Some {
                        assert forall|done: Result<(), Failure>, after: Disk|
                            backed_up(
                                disk,
                                after,
                                file.target,
                                prefix,
                                done,
                            ) implies #[trigger] mid(done, after) by {
                            lemma_backup_confined(disk, after, file, clobber, prefix, done);
                        }
                        effect_prefix_move(file.target, prefix, disk, mid);
                    }
                }
                lemma_achieves_then(
                    prefix_move_program(file.target, prefix),
                    |_done: ()| Program::Return(Ok::<bool, Failure>(true)),
                    disk,
                    mid,
                    post,
                );
                assert(achieves(move_aside(file, prefix), disk, post));
            }
        },
    }
}

pub(crate) proof fn effect_directory(
    file: FileView,
    disk: Disk,
    post: spec_fn(Result<(), Failure>, Disk) -> bool,
)
    requires
        file.kind is Directory,
        !disk.hidden.contains(disk.key(file.target)),
        lasting_mode(file),
        forall|done: Result<(), Failure>, after: Disk|
            same_beside(disk, after, disk.key(file.target)) && (done is Ok ==> is_as_described(
                after,
                file,
            ) && (!disk.has(disk.key(file.target)) ==> is_reachable(
                after,
                disk.key(file.target),
            ))) ==> #[trigger] post(done, after),
    ensures
        achieves(directory_program(file), disk, post),
{
    broadcast use group_achieves;

    let key = disk.key(file.target);
    let mid = |done: Result<(), Failure>, after: Disk|
        {
            &&& grown(disk, after, key)
            &&& done is Ok ==> after.has(key) && after.nodes[key].content is Directory && (
            !disk.has(key) ==> is_reachable(after, key))
        };
    effect_mkdir(file.target, disk, mid);
    assert forall|between: Disk| #[trigger] mid(Ok(()), between) implies achieves(
        finish(file),
        between,
        post,
    ) by {
        assert(between.key(file.target) == key);
        assert forall|done: Result<(), Failure>, after: Disk|
            retouched(between, after, key) && (done is Ok ==> fits(
                file,
                after.nodes[key],
            )) implies #[trigger] post(done, after) by {
            assert(after.key(file.target) == key);
            assert(done is Ok ==> is_as_described(after, file));
            assert(!disk.has(key) ==> is_reachable(after, key));
            assert forall|k: Key| k != key && disk.has(k) implies #[trigger] after.at(k)
                == disk.at(k) by {
                assert(between.at(k) == disk.at(k));
            }
            assert forall|k: Key|
                k != key && !disk.has(k) && #[trigger] after.has(
                    k,
                ) implies after.nodes[k].content is Directory && below(key, k) by {
                assert(between.has(k));
                assert(after.at(k) == between.at(k));
            }
        }
        effect_finish(file, between, post);
    }
    lemma_achieves_then(
        mkdir_program(file.target),
        |_done: ()| finish(file),
        disk,
        mid,
        post,
    );
}

/// An entry that has been put at its target is in place.
pub(crate) proof fn lemma_established_in_place(disk: Disk, after: Disk, file: FileView)
    requires
        ready(disk, file),
        established(disk, after, file),
    ensures
        is_as_described(after, file),
{
    let key = disk.key(file.target);
    let source = disk.key(file.source->0);
    assert(after.key(file.target) == key);
    if file.kind is Symlink {
        let dest = after.nodes[key].content->Link_0;
        if file.follow_symlinks != Some(false) {
            lemma_resolve_end(after, source, link_limit());
            let end = parts(dest);
            assert(key_from(key.drop_last(), dest) == end);
            assert(after.resolve(end, (link_limit() - 1) as nat) == Some(end));
            assert(after.resolve(key, link_limit()) == Some(end));
        }
    }
}

/// Whether an entry is passed over because its source is missing or unfit.
pub open spec fn is_skipped(disk: Disk, file: FileView) -> bool {
    &&& takes_source(file.kind)
    &&& match file.source {
        None => true,
        Some(path) => {
            let source = disk.key(path);
            !disk.hidden.contains(source) && (!disk.has(source) || (file.kind is Copy && !(
            disk.nodes[source].content is File)))
        },
    }
}

/// Whether an entry leaves what is at its target alone because it says so.
pub open spec fn is_kept(disk: Disk, file: FileView) -> bool {
    &&& keeps_existing(file)
    &&& disk.has(disk.key(file.target))
    &&& !is_dangling(disk, file.target)
}

/// What an activation that succeeds leaves behind.
pub open spec fn activated(disk: Disk, after: Disk, file: FileView) -> bool {
    if is_skipped(disk, file) || is_kept(disk, file) {
        after == disk
    } else {
        is_as_described(after, file)
    }
}

/// Whether a link is at the target, and what is written in it is where the entry
/// wants it to lead.
pub open spec fn links_directly(disk: Disk, file: FileView) -> bool {
    let key = disk.key(file.target);
    &&& disk.has(key)
    &&& disk.nodes[key].content is Link
    &&& leads_right(disk, file, disk.nodes[key].content->Link_0)
}

/// Whether what is at the target has to make way and may not be thrown away.
pub open spec fn is_displaced(disk: Disk, file: FileView, clobber: bool) -> bool {
    let key = disk.key(file.target);
    &&& !clobber
    &&& !keeps_existing(file)
    &&& !is_skipped(disk, file)
    &&& disk.has(key)
    &&& takes_source(file.kind) || (file.kind is Directory && !(
    disk.nodes[key].content is Directory))
    &&& !is_as_described(disk, file)
}

/// What comes of an activation: whatever happens, nothing changes but what it may
/// change, and a delete adds nothing; and if it succeeds, the entry is in place,
/// everything on the way to a new target is there, a link that
/// was made leads there directly, and what had to make way is at the backup path.
pub open spec fn activation_effect(
    disk: Disk,
    after: Disk,
    file: FileView,
    clobber: bool,
    prefix: Seq<u8>,
    done: Result<(), Failure>,
) -> bool {
    let key = disk.key(file.target);
    &&& confined(disk, after, file, clobber, prefix)
    &&& file.kind is Delete ==> shrunk(disk, after)
    &&& done is Ok ==> {
        &&& activated(disk, after, file)
        &&& !disk.has(key) && after.has(key) ==> is_reachable(after, key)
        &&& file.kind is Symlink && after != disk ==> links_directly(after, file)
        &&& is_displaced(disk, file, clobber) ==> is_moved_to(
            disk,
            after,
            key,
            disk.key(backup_path(file.target, prefix)),
        )
    }
}

/// Whether an entry can be brought about: the target of a copy or a link ends
/// in a name, and its source lies apart from it; the mode lasts; and a modify is
/// not to set the mode of what a link leads to.
pub open spec fn is_sound(disk: Disk, file: FileView, clobber: bool, prefix: Seq<u8>) -> bool {
    &&& takes_source(file.kind) ==> file_name(file.target) is Some
    &&& lasting_mode(file)
    &&& source_apart(disk, file, clobber, prefix)
    &&& file.kind is Modify && file.permissions is Some ==> !(disk.at(
        disk.key(file.target),
    ) matches Some(node) && node.content is Link)
}

proof fn effect_install(
    file: FileView,
    metadata: Option<Metadata>,
    disk: Disk,
    between: Disk,
    clobber: bool,
    prefix: Seq<u8>,
    post: spec_fn(Result<(), Failure>, Disk) -> bool,
)
    requires
        is_sound(disk, file, clobber, prefix),
        !is_skipped(disk, file),
        saw(disk, file.target, Ok(metadata)),
        way_made(disk, between, file, clobber, prefix, true),
        forall|done: Result<(), Failure>, after: Disk|
            (if file.kind is Delete {
                same_outside(disk, after, disk.key(file.target)) && shrunk(disk, after)
            } else {
                same_beside(between, after, disk.key(file.target))
            }) && (done is Ok ==> is_as_described(after, file) && (file.kind is Symlink
                ==> links_directly(after, file)) && (!(file.kind is Delete) && !between.has(
                disk.key(file.target),
            ) ==> is_reachable(after, disk.key(file.target)))) ==> #[trigger] post(done, after),
    ensures
        achieves(install(file, metadata), between, post),
{
    broadcast use group_achieves;

    let key = disk.key(file.target);
    assert(between.key(file.target) == key);
    match file.kind {
        FileKind::Directory => {
            effect_directory(file, between, post);
        },
        FileKind::Modify => {
            assert(same_beside(disk, disk, key));
            if disk.has(key) {
                assert forall|done: Result<(), Failure>, after: Disk|
                    retouched(disk, after, key) && (done is Ok ==> fits(
                        file,
                        after.nodes[key],
                    )) implies #[trigger] post(done, after) by {
                    assert(after.key(file.target) == key);
                    assert(same_beside(disk, after, key));
                    assert(done is Ok ==> is_as_described(after, file));
                }
                effect_attributes(file, disk, post);
            }
        },
        FileKind::Delete => {
            assert(same_outside(disk, disk, key));
            match metadata {
                Some(seen) => {
                    assert forall|done: Result<(), Failure>, after: Disk|
                        same_outside(disk, after, key) && shrunk(disk, after) && (done is Ok
                            ==> !after.has(key)) implies #[trigger] post(done, after) by {
                        assert(after.key(file.target) == key);
                        assert(done is Ok ==> is_as_described(after, file));
                    }
                    effect_delete(file.target, seen, disk, post);
                },
                None => {
                    assert(is_as_described(disk, file));
                },
            }
        },
        _ => {
            let source = disk.key(file.source->0);
            lemma_resolve_preserved(
                disk,
                between,
                source,
                link_limit(),
                key,
                other_place(disk, file, clobber, prefix),
            );
            assert(ready(between, file));
            assert forall|done: Result<(), Failure>, after: Disk|
                (match file.kind {
                    FileKind::Symlink => linked(between, after, file, done),
                    _ => copied(between, after, file, done),
                }) implies #[trigger] post(done, after) by {
                if done is Ok {
                    lemma_established_in_place(between, after, file);
                }
            }
            if file.kind is Symlink {
                effect_symlink(file, between, post);
            } else {
                effect_copy(file, between, post);
            }
        },
    }
}

/// What was moved stays where it is when only what is at its old place changes.
proof fn lemma_still_moved(disk: Disk, between: Disk, after: Disk, from: Key, to: Key)
    requires
        disk.has(from),
        !between.has(from),
        is_moved_to(disk, between, from, to),
        same_beside(between, after, from),
    ensures
        is_moved_to(disk, after, from, to),
{
    assert(between.has(to));
    assert(after.at(to) == between.at(to));
    if disk.nodes[from].content is Directory && !below(from, to) {
        assert forall|k: Key| disk.has(k) && #[trigger] below(k, from) implies after.at(
            relocated(k, from, to),
        ) == disk.at(k) by {
            let place = relocated(k, from, to);
            assert(between.at(place) == disk.at(k));
            assert(between.has(place));
            assert(after.at(place) == between.at(place));
        }
    }
}

proof fn effect_replace(
    file: FileView,
    metadata: Option<Metadata>,
    clobber: bool,
    prefix: Seq<u8>,
    disk: Disk,
    post: spec_fn(Result<(), Failure>, Disk) -> bool,
)
    requires
        is_sound(disk, file, clobber, prefix),
        !is_skipped(disk, file),
        saw(disk, file.target, Ok(metadata)),
        clobber ==> !keeps_existing(file),
        forall|done: Result<(), Failure>, after: Disk|
            activation_effect(disk, after, file, clobber, prefix, done) ==> #[trigger] post(
                done,
                after,
            ),
    ensures
        achieves(replace(file, metadata, clobber, prefix), disk, post),
{
    broadcast use group_achieves;

    let key = disk.key(file.target);
    let backup = disk.key(backup_path(file.target, prefix));
    let way = |free: Result<bool, Failure>, between: Disk|
        match free {
            Ok(answer) => way_made(disk, between, file, clobber, prefix, answer),
            Err(_) => !(file.kind is Delete) && confined(disk, between, file, clobber, prefix),
        };
    effect_make_way(file, metadata, clobber, prefix, disk, way);
    assert forall|free: bool, between: Disk| #[trigger] way(Ok(free), between) implies achieves(
        if free {
            install(file, metadata)
        } else {
            Program::Return(Ok(()))
        },
        between,
        post,
    ) by {
        if free {
            assert forall|done: Result<(), Failure>, after: Disk|
                (if file.kind is Delete {
                    same_outside(disk, after, key) && shrunk(disk, after)
                } else {
                    same_beside(between, after, key)
                }) && (done is Ok ==> is_as_described(after, file) && (file.kind is Symlink
                    ==> links_directly(after, file)) && (!(file.kind is Delete) && !between.has(key)
                    ==> is_reachable(after, key))) implies #[trigger] post(done, after) by {
                if file.kind is Delete {
                    lemma_shrunk_confined(disk, after, file, clobber, prefix);
                } else {
                    lemma_confined_then(disk, between, after, file, clobber, prefix);
                }
                if is_displaced(disk, file, clobber) {
                    lemma_still_moved(disk, between, after, key, backup);
                }
                assert(activation_effect(disk, after, file, clobber, prefix, done));
            }
            effect_install(file, metadata, disk, between, clobber, prefix, post);
        } else {
            assert(activation_effect(disk, between, file, clobber, prefix, Ok(())));
        }
    }
    assert forall|failure: Failure, after: Disk| #[trigger]
        way(Err(failure), after) implies post(Err(failure), after) by {
        assert(activation_effect(disk, after, file, clobber, prefix, Err(failure)));
    }
    lemma_achieves_then(
        make_way(file, metadata, clobber, prefix),
        |free: bool|
            if free {
                install(file, metadata)
            } else {
                Program::Return(Ok(()))
            },
        disk,
        way,
        post,
    );
}

proof fn effect_correct(
    file: FileView,
    metadata: Option<Metadata>,
    clobber: bool,
    prefix: Seq<u8>,
    disk: Disk,
    post: spec_fn(Result<(), Failure>, Disk) -> bool,
)
    requires
        is_sound(disk, file, clobber, prefix),
        !is_skipped(disk, file),
        saw(disk, file.target, Ok(metadata)),
        clobber ==> !keeps_existing(file),
        forall|done: Result<(), Failure>, after: Disk|
            activation_effect(disk, after, file, clobber, prefix, done) ==> #[trigger] post(
                done,
                after,
            ),
    ensures
        achieves(correct(file, metadata, clobber, prefix), disk, post),
{
    broadcast use group_achieves;

    assert(plain_source(disk, file));
    effect_replace(file, metadata, clobber, prefix, disk, post);
    assert(is_as_described(disk, file) ==> activation_effect(
        disk,
        disk,
        file,
        clobber,
        prefix,
        Ok(()),
    ));
    effect_check(
        file,
        metadata,
        disk,
        |checked: Result<bool, Failure>, after: Disk|
            achieves(
                if checked == Ok::<bool, Failure>(true) {
                    Program::Return(Ok(()))
                } else {
                    replace(file, metadata, clobber, prefix)
                },
                after,
                post,
            ),
    );
}

proof fn effect_bring_about(
    file: FileView,
    metadata: Option<Metadata>,
    clobber: bool,
    prefix: Seq<u8>,
    disk: Disk,
    post: spec_fn(Result<(), Failure>, Disk) -> bool,
)
    requires
        is_sound(disk, file, clobber, prefix),
        !is_skipped(disk, file),
        saw(disk, file.target, Ok(metadata)),
        clobber ==> !keeps_existing(file),
        forall|done: Result<(), Failure>, after: Disk|
            activation_effect(disk, after, file, clobber, prefix, done) ==> #[trigger] post(
                done,
                after,
            ),
    ensures
        achieves(bring_about(file, metadata, clobber, prefix), disk, post),
{
    broadcast use group_achieves;

    let key = disk.key(file.target);
    let mid = |swapped: Result<bool, Failure>, after: Disk|
        match swapped {
            Ok(true) => activation_effect(disk, after, file, clobber, prefix, Ok(())),
            Ok(false) => after == disk,
            Err(_) => after == disk || (takes_source(file.kind) && confined(
                disk,
                after,
                file,
                clobber,
                prefix,
            )),
        };
    assert(achieves(try_swap(file, metadata, clobber), disk, mid)) by {
        if clobber {
            if let Some(seen) = metadata {
                if takes_source(file.kind) {
                    assert(ready(disk, file));
                    assert forall|after: Disk|
                        established(disk, after, file) implies #[trigger] mid(Ok(true), after) by {
                        lemma_established_in_place(disk, after, file);
                        lemma_below_self(key);
                    }
                }
                assert forall|failure: Failure, after: Disk|
                    after == disk || (takes_source(file.kind) && target_untouched(
                        disk,
                        after,
                        file.target,
                    )) implies #[trigger] mid(Err(failure), after) by {
                    if after != disk {
                        lemma_untouched_confined(disk, after, file, clobber, prefix);
                    }
                }
                effect_atomic(file, seen, disk, mid);
            }
        }
    }
    effect_correct(file, metadata, clobber, prefix, disk, post);
    assert forall|failure: Failure, after: Disk| #[trigger]
        mid(Err(failure), after) implies post(Err(failure), after) by {
        assert(activation_effect(disk, after, file, clobber, prefix, Err(failure)));
    }
    lemma_achieves_then(
        try_swap(file, metadata, clobber),
        |swapped: bool|
            if swapped {
                Program::Return(Ok(()))
            } else {
                correct(file, metadata, clobber, prefix)
            },
        disk,
        mid,
        post,
    );
}

pub(crate) proof fn lemma_untouched_spares(disk: Disk, after: Disk, target: Seq<u8>)
    requires
        target_untouched(disk, after, target),
    ensures
        same_frame(disk, after),
        forall|k: Key| disk.has(k) ==> #[trigger] after.at(k) == disk.at(k),
{
    let temporary = choose|temporary: Seq<u8>| #[trigger]
        is_spare(disk, temporary, target) && same_beside(disk, after, disk.key(temporary));
    lemma_below_self(disk.key(temporary));
    assert(!disk.has(disk.key(temporary)));
}

pub(crate) proof fn lemma_untouched_confined(
    disk: Disk,
    after: Disk,
    file: FileView,
    clobber: bool,
    prefix: Seq<u8>,
)
    requires
        target_untouched(disk, after, file.target),
        file_name(file.target) is Some,
    ensures
        confined(disk, after, file, clobber, prefix),
{
    let temporary = choose|temporary: Seq<u8>| #[trigger]
        is_spare(disk, temporary, file.target) && same_beside(
            disk,
            after,
            disk.key(temporary),
        );
    let spare = disk.key(temporary);
    let key = disk.key(file.target);
    lemma_below_self(spare);
    lemma_spare_key(disk, temporary, file.target);
    assert(is_stray(disk, spare));
    lemma_above_spare(disk, temporary, file.target);
}

/// What lies above a temporary path lies above its target.
proof fn lemma_above_spare(disk: Disk, temporary: Seq<u8>, target: Seq<u8>)
    requires
        is_spare(disk, temporary, target),
        file_name(target) is Some,
    ensures
        !disk.has(disk.key(temporary)),
        forall|k: Key|
            k != disk.key(temporary) && #[trigger] below(disk.key(temporary), k) ==> below(
                disk.key(target),
                k,
            ),
{
    let spare = disk.key(temporary);
    let key = disk.key(target);
    lemma_spare_key(disk, temporary, target);
    assert forall|k: Key| k != spare && #[trigger] below(spare, k) implies below(key, k) by {
        if k.len() == spare.len() {
            assert(spare.take(spare.len() as int) =~= spare);
        }
        assert(spare.drop_last().len() == key.drop_last().len());
        assert(spare.take(k.len() as int) =~= spare.drop_last().take(k.len() as int));
        assert(key.take(k.len() as int) =~= key.drop_last().take(k.len() as int));
    }
}

/// Activation that succeeds puts the entry in place, and what had to make way
/// and may not be thrown away is at the backup path. An entry whose source is
/// missing is passed over, and a copy that has `clobber` set to `false` leaves a
/// target that is there alone: then nothing has changed. Whether it succeeds or
/// not, what was elsewhere is as it was.
pub proof fn law_activation_attains(
    file: FileView,
    clobber_by_default: Option<bool>,
    prefix: Seq<u8>,
    disk: Disk,
)
    requires
        is_sound(disk, file, clobbers(file.clobber, clobber_by_default), prefix),
    ensures
        achieves(
            activate_program(file, clobber_by_default, prefix),
            disk,
            |done: Result<(), Failure>, after: Disk|
                activation_effect(
                    disk,
                    after,
                    file,
                    clobbers(file.clobber, clobber_by_default),
                    prefix,
                    done,
                ),
        ),
{
    broadcast use group_achieves;

    let clobber = clobbers(file.clobber, clobber_by_default);
    let post = |done: Result<(), Failure>, after: Disk|
        activation_effect(
            disk,
            after,
            file,
            clobbers(file.clobber, clobber_by_default),
            prefix,
            done,
        );
    assert forall|failure: Failure| #[trigger] post(Err(failure), disk) by {}
    if !is_skipped(disk, file) {
        assert forall|metadata: Option<Metadata>|
            saw(disk, file.target, Ok(metadata)) implies achieves(
            #[trigger] bring_about(file, metadata, clobber, prefix),
            disk,
            post,
        ) by {
            effect_bring_about(file, metadata, clobber, prefix, disk, post);
        }
    }
}

/// An entry that its target is described by already changes nothing, as long as
/// what is at the target may not be thrown away.
pub proof fn law_activation_settled(
    file: FileView,
    clobber_by_default: Option<bool>,
    prefix: Seq<u8>,
    disk: Disk,
)
    requires
        !clobbers(file.clobber, clobber_by_default),
        is_as_described(disk, file),
        plain_source(disk, file),
        takes_source(file.kind) && file.source is Some ==> !disk.hidden.contains(
            disk.key(file.source->0),
        ),
    ensures
        achieves(
            activate_program(file, clobber_by_default, prefix),
            disk,
            |done: Result<(), Failure>, after: Disk|
                {
                    &&& after == disk
                    &&& done is Err ==> disk.hidden.contains(disk.key(file.target))
                },
        ),
{
    broadcast use group_achieves;

    let post = |done: Result<(), Failure>, after: Disk|
        {
            &&& after == disk
            &&& done is Err ==> disk.hidden.contains(disk.key(file.target))
        };
    if !is_skipped(disk, file) {
        assert forall|metadata: Option<Metadata>|
            saw(disk, file.target, Ok(metadata)) implies achieves(
            #[trigger] bring_about(file, metadata, false, prefix),
            disk,
            post,
        ) by {
            let checked = |answer: Result<bool, Failure>, after: Disk|
                after == disk && answer == Ok::<bool, Failure>(true);
            effect_check(file, metadata, disk, checked);
            lemma_achieves_bind(
                check_program(file, metadata),
                |answer: Result<bool, Failure>|
                    if answer == Ok::<bool, Failure>(true) {
                        Program::Return(Ok(()))
                    } else {
                        replace(file, metadata, false, prefix)
                    },
                disk,
                checked,
                post,
            );
            assert(achieves(correct(file, metadata, false, prefix), disk, post));
        }
    }
}

/// Whether deactivating an entry takes its target away.
pub open spec fn takes_away(file: FileView) -> bool {
    file.deactivate != Some(false) && !(file.kind is Modify) && !(file.kind is Delete)
}

/// What comes of a deactivation: whatever happens, nothing changes but at the
/// target, where nothing is added; a modify or a delete changes nothing, and
/// succeeds where the target can be looked at; what is not as the entry describes
/// is left alone; and if it succeeds, the target of a copy, a link or a directory
/// is gone.
pub open spec fn deactivation_effect(
    disk: Disk,
    after: Disk,
    file: FileView,
    done: Result<(), Failure>,
) -> bool {
    let key = disk.key(file.target);
    &&& same_outside(disk, after, key)
    &&& shrunk(disk, after)
    &&& file.deactivate == Some(false) ==> after == disk && done is Ok
    &&& file.kind is Modify || file.kind is Delete ==> after == disk && (done is Err
        ==> disk.hidden.contains(key))
    &&& takes_away(file) && disk.has(key) && !is_as_described(disk, file) ==> after == disk
        && done is Err
    &&& done is Ok && takes_away(file) ==> !after.has(key)
}

/// Deactivation takes away what the entry made, and nothing else; and it does so
/// only if that is still as the entry describes.
pub proof fn law_deactivation_attains(file: FileView, disk: Disk)
    requires
        plain_source(disk, file),
    ensures
        achieves(
            deactivate_program(file),
            disk,
            |done: Result<(), Failure>, after: Disk| deactivation_effect(disk, after, file, done),
        ),
{
    broadcast use group_achieves;

    let key = disk.key(file.target);
    let post = |done: Result<(), Failure>, after: Disk|
        deactivation_effect(disk, after, file, done);
    assert(same_outside(disk, disk, key));
    if file.deactivate != Some(false) {
        assert forall|seen: Metadata|
            saw(disk, file.target, Ok(Some(seen))) && is_as_described(
                disk,
                file,
            ) implies achieves(#[trigger] uninstall(file, seen), disk, post) by {
            lemma_below_self(key);
            if takes_source(file.kind) {
                effect_delete(file.target, seen, disk, post);
            } else if file.kind is Directory {
                assert(same_outside(disk, disk.without(key), key));
            }
        }
        assert forall|seen: Metadata|
            saw(disk, file.target, Ok(Some(seen))) && takes_away(file) implies achieves(
            #[trigger] check_program(file, Some(seen)),
            disk,
            |same: Result<bool, Failure>, after: Disk|
                match same {
                    Ok(value) => achieves(
                        if value {
                            uninstall(file, seen)
                        } else {
                            Program::Return(Err(Failure::Modified))
                        },
                        after,
                        post,
                    ),
                    Err(failure) => post(Err(failure), after),
                },
        ) by {
            effect_check(
                file,
                Some(seen),
                disk,
                |same: Result<bool, Failure>, after: Disk|
                    match same {
                        Ok(value) => achieves(
                            if value {
                                uninstall(file, seen)
                            } else {
                                Program::Return(Err(Failure::Modified))
                            },
                            after,
                            post,
                        ),
                        Err(failure) => post(Err(failure), after),
                    },
            );
        }
    }
}

/// Whether all that was there is as it was, and nothing is new but directories
/// above the target, and files that cannot be removed.
pub open spec fn nothing_left(disk: Disk, after: Disk, target: Seq<u8>) -> bool {
    &&& forall|k: Key| disk.has(k) ==> #[trigger] after.at(k) == disk.at(k)
    &&& forall|k: Key|
        !disk.has(k) && #[trigger] after.has(k) ==> disk.pinned.contains(k) || (
        after.nodes[k].content is Directory && below(disk.key(target), k))
}

proof fn lemma_untouched_leaves(disk: Disk, after: Disk, target: Seq<u8>)
    requires
        target_untouched(disk, after, target),
        file_name(target) is Some,
    ensures
        nothing_left(disk, after, target),
{
    let temporary = choose|temporary: Seq<u8>| #[trigger]
        is_spare(disk, temporary, target) && same_beside(disk, after, disk.key(temporary)) && (
        after.has(disk.key(temporary)) ==> disk.pinned.contains(disk.key(temporary)));
    lemma_below_self(disk.key(temporary));
    lemma_above_spare(disk, temporary, target);
}

/// Replacing a target in one step either puts the entry there, or leaves what is
/// there untouched: there is no state in between that an outcome could leave
/// behind. It is not done only where a directory is involved. Where it fails, the
/// temporary file is gone too, unless it cannot be removed.
pub proof fn law_replacement_is_whole(file: FileView, seen: Metadata, disk: Disk)
    requires
        ready(disk, file),
        disk.has(disk.key(file.target)),
    ensures
        achieves(
            atomic_activate_program(file, seen),
            disk,
            |done: Result<bool, Failure>, after: Disk|
                match done {
                    Ok(true) => is_as_described(after, file) && same_beside(
                        disk,
                        after,
                        disk.key(file.target),
                    ),
                    Ok(false) => after == disk && involves_directory(disk, file, seen),
                    Err(_) => nothing_left(disk, after, file.target),
                },
        ),
{
    let post = |done: Result<bool, Failure>, after: Disk|
        match done {
            Ok(true) => is_as_described(after, file) && same_beside(
                disk,
                after,
                disk.key(file.target),
            ),
            Ok(false) => after == disk && involves_directory(disk, file, seen),
            Err(_) => nothing_left(disk, after, file.target),
        };
    assert forall|after: Disk| established(disk, after, file) implies #[trigger] post(
        Ok(true),
        after,
    ) by {
        lemma_established_in_place(disk, after, file);
    }
    assert forall|failure: Failure, after: Disk|
        after == disk || (takes_source(file.kind) && target_untouched(
            disk,
            after,
            file.target,
        )) implies #[trigger] post(Err(failure), after) by {
        if after != disk {
            lemma_untouched_spares(disk, after, file.target);
            lemma_untouched_leaves(disk, after, file.target);
        }
    }
    effect_atomic(file, seen, disk, post);
}

/// Links that lead clear of what changed lead where they led.
proof fn lemma_resolve_spared(
    disk: Disk,
    after: Disk,
    key: Key,
    limit: nat,
    one: Key,
    other: Key,
)
    requires
        spared(disk, after, one, other),
        clear_of(disk, key, limit, one),
        clear_of(disk, key, limit, other),
    ensures
        disk.resolve(key, limit) matches Some(end) ==> after.resolve(key, limit) == Some(end)
            && after.at(end) == disk.at(end),
    decreases limit,
{
    if disk.has(key) {
        assert(after.at(key) == disk.at(key));
        if disk.nodes[key].content is Link && limit > 0 {
            lemma_resolve_spared(
                disk,
                after,
                key_from(key.drop_last(), disk.nodes[key].content->Link_0),
                (limit - 1) as nat,
                one,
                other,
            );
        }
    }
}

/// Whether an entry lies apart from `top`: neither its target nor its source
/// leads through what is there or below.
pub open spec fn lies_apart(disk: Disk, file: FileView, top: Key) -> bool {
    &&& clear_of(disk, disk.key(file.target), link_limit(), top)
    &&& takes_source(file.kind) && file.source is Some ==> clear_of(
        disk,
        disk.key(file.source->0),
        link_limit(),
        top,
    )
}

proof fn lemma_in_place_spared(disk: Disk, after: Disk, file: FileView, one: Key, other: Key)
    requires
        is_as_described(disk, file),
        takes_source(file.kind) ==> file.source is Some,
        spared(disk, after, one, other),
        lies_apart(disk, file, one),
        lies_apart(disk, file, other),
        file.kind is Delete ==> shrunk(disk, after),
    ensures
        is_as_described(after, file),
{
    let key = disk.key(file.target);
    assert(after.key(file.target) == key);
    if file.kind is Delete {
        if after.has(key) {
            assert(after.at(key) == disk.at(key));
        }
    } else {
        assert(after.at(key) == disk.at(key));
        if takes_source(file.kind) {
            lemma_resolve_spared(disk, after, key, link_limit(), one, other);
            lemma_resolve_spared(
                disk,
                after,
                disk.key(file.source->0),
                link_limit(),
                one,
                other,
            );
            lemma_resolve_end(disk, disk.key(file.source->0), link_limit());
        }
    }
}

/// Activating one entry leaves another that is in place there, as long as the
/// other lies apart from the target of the first and from where that is
/// moved aside. Of a delete this is said only where another delete follows it:
/// other kinds come before all deletes.
pub proof fn law_activation_spares_others(
    file: FileView,
    other: FileView,
    clobber_by_default: Option<bool>,
    prefix: Seq<u8>,
    disk: Disk,
)
    requires
        is_sound(disk, file, clobbers(file.clobber, clobber_by_default), prefix),
        is_as_described(disk, other),
        takes_source(other.kind) ==> other.source is Some,
        lies_apart(disk, other, disk.key(file.target)),
        lies_apart(
            disk,
            other,
            other_place(disk, file, clobbers(file.clobber, clobber_by_default), prefix),
        ),
        other.kind is Delete ==> file.kind is Delete,
    ensures
        achieves(
            activate_program(file, clobber_by_default, prefix),
            disk,
            |_done: Result<(), Failure>, after: Disk| is_as_described(after, other),
        ),
{
    let clobber = clobbers(file.clobber, clobber_by_default);
    law_activation_attains(file, clobber_by_default, prefix, disk);
    let strict = |done: Result<(), Failure>, after: Disk|
        activation_effect(
            disk,
            after,
            file,
            clobbers(file.clobber, clobber_by_default),
            prefix,
            done,
        );
    let loose = |_done: Result<(), Failure>, after: Disk| is_as_described(after, other);
    assert forall|done: Result<(), Failure>, after: Disk| strict(
        done,
        after,
    ) implies #[trigger] loose(done, after) by {
        lemma_confined_spares(disk, after, file, clobber, prefix);
        lemma_in_place_spared(
            disk,
            after,
            other,
            disk.key(file.target),
            other_place(disk, file, clobber, prefix),
        );
    }
    lemma_achieves_weaken(
        activate_program(file, clobber_by_default, prefix),
        disk,
        strict,
        loose,
    );
}

/// Deactivating one entry leaves another that is in place there, as long as the
/// other lies apart from the target of the first.
pub proof fn law_deactivation_spares_others(file: FileView, other: FileView, disk: Disk)
    requires
        plain_source(disk, file),
        is_as_described(disk, other),
        takes_source(other.kind) ==> other.source is Some,
        lies_apart(disk, other, disk.key(file.target)),
    ensures
        achieves(
            deactivate_program(file),
            disk,
            |_done: Result<(), Failure>, after: Disk| is_as_described(after, other),
        ),
{
    let key = disk.key(file.target);
    law_deactivation_attains(file, disk);
    let strict = |done: Result<(), Failure>, after: Disk|
        deactivation_effect(disk, after, file, done);
    let loose = |_done: Result<(), Failure>, after: Disk| is_as_described(after, other);
    assert forall|done: Result<(), Failure>, after: Disk| strict(
        done,
        after,
    ) implies #[trigger] loose(done, after) by {
        if other.kind is Delete {
            assert(after.at(disk.key(other.target)) == disk.at(disk.key(other.target)));
        } else {
            lemma_in_place_spared(disk, after, other, key, key);
        }
    }
    lemma_achieves_weaken(deactivate_program(file), disk, strict, loose);
}

} // verus!
