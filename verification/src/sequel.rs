//! What one operation finds of what another has done.
use vstd::prelude::*;

use crate::action::{Failure, Metadata};
use crate::attain::{
    activation_effect, cannot_tell, confined, effect_check, is_as_described, is_skipped,
    law_activation_attains, law_inspection, law_replacement_is_whole, nothing_left, passes_check,
    plain_source,
};
use crate::batch::{refresh_program, Outcome, Refresh};
use crate::effect::{involves_directory, ready, same_beside, saw};
use crate::file_util::{
    activate_program, backup_path, bring_about, check_program, clobbers, correct,
    deactivate_program, inspect_program, try_swap, uninstall, withdraw,
};
use crate::manifest::FileView;
use crate::model::{
    achieves, below, group_achieves, holds_something, lemma_achieves_then, Disk, Key,
};
use crate::program::{bind, Program};
use crate::progress::{
    completes, group_completes, lemma_completes_bind, lemma_completes_both, lemma_completes_weaken,
};
use crate::success::{
    can_activate, law_activation_succeeds, law_deactivation_removes, progress_check,
};

verus! {

/// What holds when an entry has been activated: it passes the check.
spec fn activated_well(
    disk: Disk,
    after: Disk,
    file: FileView,
    clobber: bool,
    prefix: Seq<u8>,
) -> bool {
    &&& confined(disk, after, file, clobber, prefix)
    &&& passes_check(after, file)
    &&& plain_source(after, file)
    &&& is_as_described(after, file)
}

proof fn lemma_activated_well(
    file: FileView,
    clobber_by_default: Option<bool>,
    prefix: Seq<u8>,
    disk: Disk,
)
    requires
        !is_skipped(disk, file),
        !(file.kind is Copy && file.clobber == Some(false) && disk.has(disk.key(file.target))),
        can_activate(disk, file, clobbers(file.clobber, clobber_by_default), prefix),
    ensures
        completes(
            activate_program(file, clobber_by_default, prefix),
            disk,
            |done: Result<(), Failure>, after: Disk|
                done is Ok && activated_well(
                    disk,
                    after,
                    file,
                    clobbers(file.clobber, clobber_by_default),
                    prefix,
                ),
        ),
{
    let clobber = clobbers(file.clobber, clobber_by_default);
    let always = |done: Result<(), Failure>, after: Disk|
        activation_effect(
            disk,
            after,
            file,
            clobbers(file.clobber, clobber_by_default),
            prefix,
            done,
        );
    let fine = |done: Result<(), Failure>, after: Disk| done is Ok;
    let post = |done: Result<(), Failure>, after: Disk|
        done is Ok && activated_well(
            disk,
            after,
            file,
            clobbers(file.clobber, clobber_by_default),
            prefix,
        );
    law_activation_attains(file, clobber_by_default, prefix, disk);
    law_activation_succeeds(file, clobber_by_default, prefix, disk);
    assert forall|done: Result<(), Failure>, after: Disk|
        always(done, after) && fine(done, after) implies #[trigger] post(done, after) by {
        assert(is_as_described(after, file));
        if file.kind is Copy {
            let source = disk.key(file.source->0);
            assert(after.at(source) == disk.at(source));
        }
    }
    lemma_completes_both(
        activate_program(file, clobber_by_default, prefix),
        disk,
        always,
        fine,
        post,
    );
}

/// An inspection finds that an entry that passes the check does.
proof fn lemma_inspection_passes(
    file: FileView,
    disk: Disk,
    post: spec_fn(Result<bool, Failure>, Disk) -> bool,
)
    requires
        plain_source(disk, file),
        passes_check(disk, file),
        post(Ok(true), disk),
    ensures
        completes(inspect_program(file), disk, post),
{
    broadcast use group_completes;

    let always = |correct: Result<bool, Failure>, after: Disk|
        {
            &&& after == disk
            &&& match correct {
                Ok(answer) => answer == is_as_described(disk, file),
                Err(_) => cannot_tell(disk, file) || disk.hidden.contains(disk.key(file.target)),
            }
            &&& correct == Ok::<bool, Failure>(true) <==> passes_check(disk, file)
        };
    let same = |checked: Result<bool, Failure>, after: Disk| after == disk;
    law_inspection(file, disk);
    assert(completes(inspect_program(file), disk, same)) by {
        assert forall|metadata: Option<Metadata>|
            saw(disk, file.target, Ok(metadata)) implies completes(
            #[trigger] check_program(file, metadata),
            disk,
            same,
        ) by {
            progress_check(file, metadata, disk);
        }
    }
    lemma_completes_both(inspect_program(file), disk, always, same, post);
}

/// An entry that was activated, and that nothing stood in the way of, is found to
/// be as it says. (A copy that keeps what it finds is another matter.)
pub proof fn law_activated_is_found_right(
    file: FileView,
    clobber_by_default: Option<bool>,
    prefix: Seq<u8>,
    disk: Disk,
)
    requires
        !is_skipped(disk, file),
        !(file.kind is Copy && file.clobber == Some(false) && disk.has(disk.key(file.target))),
        can_activate(disk, file, clobbers(file.clobber, clobber_by_default), prefix),
    ensures
        completes(
            bind(
                activate_program(file, clobber_by_default, prefix),
                |done: Result<(), Failure>| inspect_program(file),
            ),
            disk,
            |checked: Result<bool, Failure>, after: Disk| checked == Ok::<bool, Failure>(true),
        ),
{
    let mid = |done: Result<(), Failure>, after: Disk|
        done is Ok && activated_well(
            disk,
            after,
            file,
            clobbers(file.clobber, clobber_by_default),
            prefix,
        );
    let post = |checked: Result<bool, Failure>, after: Disk| checked == Ok::<bool, Failure>(true);
    let next = |done: Result<(), Failure>| inspect_program(file);
    lemma_activated_well(file, clobber_by_default, prefix, disk);
    assert forall|done: Result<(), Failure>, after: Disk| #[trigger] mid(
        done,
        after,
    ) implies completes(next(done), after, post) by {
        lemma_inspection_passes(file, after, post);
    }
    lemma_completes_bind(
        activate_program(file, clobber_by_default, prefix),
        next,
        disk,
        mid,
        post,
    );
}

/// Deactivation takes back what activation made where nothing was: both succeed
/// where nothing stands in the way, and the target is gone again.
pub proof fn law_deactivation_undoes(
    file: FileView,
    clobber_by_default: Option<bool>,
    prefix: Seq<u8>,
    disk: Disk,
)
    requires
        file.kind is Copy || file.kind is Symlink || file.kind is Directory,
        file.deactivate != Some(false),
        !is_skipped(disk, file),
        can_activate(disk, file, clobbers(file.clobber, clobber_by_default), prefix),
        !disk.has(disk.key(file.target)),
        file.kind is Directory ==> forall|k: Key| #[trigger]
            below(k, disk.key(file.target)) && k != disk.key(file.target) ==> !disk.has(k)
                && disk.claimed.contains(k) && !below(
                k,
                disk.key(backup_path(file.target, prefix)),
            ),
    ensures
        completes(
            bind(
                activate_program(file, clobber_by_default, prefix),
                |done: Result<(), Failure>| deactivate_program(file),
            ),
            disk,
            |done: Result<(), Failure>, after: Disk|
                done is Ok && !after.has(disk.key(file.target)),
        ),
{
    let key = disk.key(file.target);
    let clobber = clobbers(file.clobber, clobber_by_default);
    let mid = |done: Result<(), Failure>, after: Disk|
        done is Ok && activated_well(
            disk,
            after,
            file,
            clobbers(file.clobber, clobber_by_default),
            prefix,
        );
    let post = |done: Result<(), Failure>, after: Disk|
        done is Ok && !after.has(disk.key(file.target));
    let next = |done: Result<(), Failure>| deactivate_program(file);
    lemma_activated_well(file, clobber_by_default, prefix, disk);
    assert forall|done: Result<(), Failure>, after: Disk| #[trigger] mid(
        done,
        after,
    ) implies completes(next(done), after, post) by {
        assert(after.key(file.target) == key);
        if file.kind is Directory {
            assert forall|k: Key| #[trigger] after.has(k) && below(k, key) implies k == key by {
                if k != key {
                    assert(!disk.has(k));
                    if below(key, k) {
                        assert(key.take(k.len() as int) =~= key);
                        assert(k.take(key.len() as int) =~= k);
                    }
                }
            }
        }
        law_deactivation_removes(file, after);
        let strict = |over: Result<(), Failure>, end: Disk|
            over is Ok && !end.has(after.key(file.target));
        lemma_completes_weaken(deactivate_program(file), after, strict, post);
    }
    lemma_completes_bind(
        activate_program(file, clobber_by_default, prefix),
        next,
        disk,
        mid,
        post,
    );
}

/// Deactivation leaves alone what is not as the entry says, and tells so; it leaves
/// alone a directory that anything is in; and it fails where the target cannot be
/// looked at. Nothing changes in any of these.
pub proof fn law_deactivation_refuses(file: FileView, disk: Disk)
    requires
        file.kind is Copy || file.kind is Symlink || file.kind is Directory,
        file.deactivate != Some(false),
        plain_source(disk, file),
    ensures
        disk.hidden.contains(disk.key(file.target)) ==> achieves(
            deactivate_program(file),
            disk,
            |done: Result<(), Failure>, after: Disk| done is Err && after == disk,
        ),
        !disk.hidden.contains(disk.key(file.target)) && disk.has(disk.key(file.target))
            && !is_as_described(disk, file) && !cannot_tell(disk, file) ==> achieves(
            deactivate_program(file),
            disk,
            |done: Result<(), Failure>, after: Disk|
                done == Err::<(), Failure>(Failure::Modified) && after == disk,
        ),
        !disk.hidden.contains(disk.key(file.target)) && disk.has(disk.key(file.target))
            && file.kind is Directory && holds_something(disk, disk.key(file.target)) ==> achieves(
            deactivate_program(file),
            disk,
            |done: Result<(), Failure>, after: Disk| done is Err && after == disk,
        ),
{
    broadcast use group_achieves;

    let key = disk.key(file.target);
    if !disk.hidden.contains(key) && disk.has(key) && !is_as_described(disk, file) && !cannot_tell(
        disk,
        file,
    ) {
        let post = |done: Result<(), Failure>, after: Disk|
            done == Err::<(), Failure>(Failure::Modified) && after == disk;
        assert forall|seen: Metadata|
            saw(disk, file.target, Ok(Some(seen))) implies achieves(
            #[trigger] withdraw(file, Some(seen)),
            disk,
            post,
        ) by {
            let mid = |same: Result<bool, Failure>, after: Disk|
                after == disk && same == Ok::<bool, Failure>(false);
            effect_check(file, Some(seen), disk, mid);
            lemma_achieves_then(
                check_program(file, Some(seen)),
                |same: bool|
                    if same {
                        uninstall(file, seen)
                    } else {
                        Program::Return(Err(Failure::Modified))
                    },
                disk,
                mid,
                post,
            );
        }
    }
    if !disk.hidden.contains(key) && disk.has(key) && file.kind is Directory && holds_something(
        disk,
        key,
    ) {
        let inside = choose|k: Key| #[trigger] disk.has(k) && below(k, key) && k != key;
        assert(disk.has(inside) && below(inside, key));
    }
}

/// Activation fails where the target of an entry that is not skipped cannot be
/// looked at, and where there is nothing to modify; nothing changes then.
pub proof fn law_activation_refuses(
    file: FileView,
    clobber_by_default: Option<bool>,
    prefix: Seq<u8>,
    disk: Disk,
)
    requires
        !is_skipped(disk, file),
    ensures
        disk.hidden.contains(disk.key(file.target)) ==> achieves(
            activate_program(file, clobber_by_default, prefix),
            disk,
            |done: Result<(), Failure>, after: Disk| done is Err && after == disk,
        ),
        file.kind is Modify && !disk.hidden.contains(disk.key(file.target)) && !disk.has(
            disk.key(file.target),
        ) ==> achieves(
            activate_program(file, clobber_by_default, prefix),
            disk,
            |done: Result<(), Failure>, after: Disk|
                done == Err::<(), Failure>(Failure::DoesNotExist) && after == disk,
        ),
{
    broadcast use group_achieves;

}

/// What is not there to be replaced is left for later, and so is an entry that is
/// skipped; a target that cannot be looked at is a failure. Nothing changes then.
pub proof fn law_refresh_leaves(file: FileView, disk: Disk)
    ensures
        disk.hidden.contains(disk.key(file.target)) ==> achieves(
            refresh_program(file),
            disk,
            |result: Result<Outcome, Failure>, after: Disk|
                after == disk && (result matches Ok(Outcome::Refreshed(Refresh::Failed(_)))),
        ),
        !disk.hidden.contains(disk.key(file.target)) && (!disk.has(disk.key(file.target))
            || is_skipped(disk, file)) ==> achieves(
            refresh_program(file),
            disk,
            |result: Result<Outcome, Failure>, after: Disk|
                after == disk && result == Ok::<Outcome, Failure>(
                    Outcome::Refreshed(Refresh::Retry),
                ),
        ),
        !(file.kind is Copy || file.kind is Symlink) && !disk.hidden.contains(
            disk.key(file.target),
        ) && disk.has(disk.key(file.target)) ==> achieves(
            refresh_program(file),
            disk,
            |result: Result<Outcome, Failure>, after: Disk|
                after == disk && result == Ok::<Outcome, Failure>(
                    Outcome::Refreshed(Refresh::Force),
                ),
        ),
{
    broadcast use group_achieves;

}

/// Where what is at the target may be thrown away and no directory is involved, an
/// activation that fails leaves what is there as it was: the new file takes its place
/// in one step or not at all.
pub proof fn law_throwing_away_is_safe(
    file: FileView,
    clobber_by_default: Option<bool>,
    prefix: Seq<u8>,
    disk: Disk,
)
    requires
        file.clobber == Some(true) || (file.clobber is None && clobber_by_default == Some(true)),
        file.kind is Copy || file.kind is Symlink,
        ready(disk, file),
        disk.has(disk.key(file.target)),
        !(disk.nodes[disk.key(file.target)].content is Directory),
        file.source is Some && disk.has(disk.key(file.source->0)) ==> !(disk.nodes[disk.key(
            file.source->0,
        )].content is Directory),
    ensures
        achieves(
            activate_program(file, clobber_by_default, prefix),
            disk,
            |done: Result<(), Failure>, after: Disk|
                match done {
                    Ok(_) => if is_skipped(disk, file) {
                        after == disk
                    } else {
                        is_as_described(after, file)
                    },
                    Err(_) => nothing_left(disk, after, file.target),
                },
        ),
{
    broadcast use group_achieves;

    let post = |done: Result<(), Failure>, after: Disk|
        match done {
            Ok(_) => if is_skipped(disk, file) {
                after == disk
            } else {
                is_as_described(after, file)
            },
            Err(_) => nothing_left(disk, after, file.target),
        };
    assert forall|failure: Failure| #[trigger] post(Err(failure), disk) by {}
    if !is_skipped(disk, file) {
        assert forall|metadata: Option<Metadata>|
            saw(disk, file.target, Ok(metadata)) implies achieves(
            #[trigger] bring_about(file, metadata, true, prefix),
            disk,
            post,
        ) by {
            let seen = metadata->0;
            let mid = |done: Result<bool, Failure>, after: Disk|
                match done {
                    Ok(true) => is_as_described(after, file) && same_beside(
                        disk,
                        after,
                        disk.key(file.target),
                    ),
                    Ok(false) => after == disk && involves_directory(disk, file, seen),
                    Err(_) => nothing_left(disk, after, file.target),
                };
            law_replacement_is_whole(file, seen, disk);
            lemma_achieves_then(
                try_swap(file, metadata, true),
                |swapped: bool|
                    if swapped {
                        Program::Return(Ok(()))
                    } else {
                        correct(file, metadata, true, prefix)
                    },
                disk,
                mid,
                post,
            );
        }
    }
}

} // verus!
