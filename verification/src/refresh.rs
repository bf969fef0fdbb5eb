//! What replacing targets in one step, and only looking, make of a plan.
use vstd::prelude::*;

use crate::action::{Failure, Metadata, Request, Response};
use crate::attain::{
    confined, is_as_described, is_skipped, lemma_established_in_place, lemma_untouched_confined,
    lemma_untouched_spares, links_directly,
};
use crate::batch::{
    batch, item_program, outcome_of, refresh_program, rest_of_batch, swap_program, ItemView,
    Outcome, Refresh,
};
use crate::conduct::{group_obeys, obeys, only_looking};
use crate::diff::refreshes;
use crate::effect::{effect_atomic, established, lemma_below_self, ready, target_untouched};
use crate::file_util::atomic_activate_program;
use crate::manifest::{takes_source, FileView};
use crate::model::{
    achieves, allowed, group_achieves, is_spare, key_from, lemma_achieves_bind, link_limit,
    same_frame, Disk,
};
use crate::program::Program;
use crate::temporary::is_candidate;
use crate::whole::{
    lemma_elsewhere_step, lemma_link_settled, lemma_settled_clear, lemma_settled_step,
    lemma_stays_in_place, lemma_target_step, same_elsewhere, Plan,
};

verus! {

proof fn lemma_obeys_draw<R>(
    target: Seq<u8>,
    candidate: Option<Seq<u8>>,
    go: spec_fn(Seq<u8>) -> Program<R>,
    ok: spec_fn(Request) -> bool,
    post: spec_fn(R) -> bool,
    path: Seq<u8>,
)
    requires
        obeys(Program::Fresh(target, candidate, go), ok, post),
        is_candidate(path, target),
    ensures
        obeys(go(path), ok, post),
{
    reveal(obeys);
    let program = Program::Fresh(target, candidate, go);
    assert(program->Fresh_0 == target && program->Fresh_2 == go);
    assert(obeys((program->Fresh_2)(path), ok, post));
}

/// A program that only looks leaves the file system as it is.
pub proof fn law_looking_changes_nothing<R>(
    program: Program<R>,
    post: spec_fn(R) -> bool,
    disk: Disk,
)
    requires
        obeys(program, only_looking(), post),
    ensures
        achieves(program, disk, |value: R, after: Disk| after == disk && post(value)),
    decreases program,
{
    broadcast use {group_achieves, group_obeys};

    let same = |value: R, after: Disk| after == disk && post(value);
    match program {
        Program::Return(value) => {
            assert(program == Program::Return(value));
            assert(same(value, disk));
        },
        Program::Ask(request, go) => {
            assert(obeys(Program::Ask(request, go), only_looking(), post));
            assert(only_looking()(request));
            assert forall|reply: Response, after: Disk| #[trigger]
                allowed(disk, request, reply, after) implies achieves(go(reply), after, same) by {
                assert(after == disk);
                assert(obeys(go(reply), only_looking(), post));
                law_looking_changes_nothing(go(reply), post, disk);
            }
            assert(achieves(Program::Ask(request, go), disk, same));
        },
        Program::Fresh(target, candidate, go) => {
            assert(obeys(Program::Fresh(target, candidate, go), only_looking(), post));
            assert forall|path: Seq<u8>| is_spare(disk, path, target) implies achieves(
                #[trigger] go(path),
                disk,
                same,
            ) by {
                lemma_obeys_draw(target, candidate, go, only_looking(), post, path);
                law_looking_changes_nothing(go(path), post, disk);
            }
            assert(achieves(Program::Fresh(target, candidate, go), disk, same));
        },
    }
}

/// What comes of the attempt to replace a target in one step: it fails exactly
/// where the target cannot be looked at.
pub open spec fn refresh_effect(
    disk: Disk,
    after: Disk,
    file: FileView,
    clobber: bool,
    prefix: Seq<u8>,
    outcome: Refresh,
) -> bool {
    let key = disk.key(file.target);
    &&& outcome is Failed <==> disk.hidden.contains(key)
    &&& match outcome {
        Refresh::Swapped => {
            &&& takes_source(file.kind)
            &&& file.source is Some
            &&& confined(disk, after, file, clobber, prefix)
            &&& is_as_described(after, file)
            &&& file.kind is Symlink ==> links_directly(after, file)
        },
        Refresh::Force => {
            &&& confined(disk, after, file, clobber, prefix)
            &&& disk.has(key)
            &&& after.at(key) == disk.at(key)
        },
        Refresh::Retry => after == disk && (!disk.has(key) || is_skipped(disk, file)),
        Refresh::Failed(_) => after == disk,
    }
}

proof fn effect_swap_attempt(
    file: FileView,
    seen: Metadata,
    clobber: bool,
    prefix: Seq<u8>,
    disk: Disk,
    post: spec_fn(Result<Outcome, Failure>, Disk) -> bool,
)
    requires
        takes_source(file.kind) ==> ready(disk, file),
        disk.has(disk.key(file.target)),
        !disk.hidden.contains(disk.key(file.target)),
        forall|outcome: Refresh, after: Disk|
            refresh_effect(disk, after, file, clobber, prefix, outcome) ==> #[trigger] post(
                Ok(Outcome::Refreshed(outcome)),
                after,
            ),
    ensures
        achieves(swap_program(file, seen), disk, post),
{
    broadcast use group_achieves;

    let mid = |swapped: Result<bool, Failure>, after: Disk|
        refresh_effect(
            disk,
            after,
            file,
            clobber,
            prefix,
            if swapped == Ok::<bool, Failure>(true) {
                Refresh::Swapped
            } else {
                Refresh::Force
            },
        );
    assert forall|after: Disk|
        takes_source(file.kind) && established(disk, after, file) implies #[trigger] mid(
        Ok(true),
        after,
    ) by {
        lemma_established_in_place(disk, after, file);
        lemma_below_self(disk.key(file.target));
    }
    assert forall|failure: Failure, after: Disk|
        after == disk || (takes_source(file.kind) && target_untouched(
            disk,
            after,
            file.target,
        )) implies #[trigger] mid(Err(failure), after) by {
        if after != disk {
            lemma_untouched_confined(disk, after, file, clobber, prefix);
            lemma_untouched_spares(disk, after, file.target);
        }
    }
    effect_atomic(file, seen, disk, mid);
    lemma_achieves_bind(
        atomic_activate_program(file, seen),
        |swapped: Result<bool, Failure>|
            Program::Return(
                Ok(
                    Outcome::Refreshed(
                        if swapped == Ok::<bool, Failure>(true) {
                            Refresh::Swapped
                        } else {
                            Refresh::Force
                        },
                    ),
                ),
            ),
        disk,
        mid,
        post,
    );
}

proof fn effect_refresh(
    file: FileView,
    clobber: bool,
    prefix: Seq<u8>,
    disk: Disk,
    post: spec_fn(Result<Outcome, Failure>, Disk) -> bool,
)
    requires
        takes_source(file.kind) && file.source is Some ==> ready(disk, file),
        forall|outcome: Refresh, after: Disk|
            refresh_effect(disk, after, file, clobber, prefix, outcome) ==> #[trigger] post(
                Ok(Outcome::Refreshed(outcome)),
                after,
            ),
    ensures
        achieves(refresh_program(file), disk, post),
{
    broadcast use group_achieves;

    let key = disk.key(file.target);
    if disk.hidden.contains(key) {
        assert forall|failure: Failure| #[trigger]
            post(Ok(Outcome::Refreshed(Refresh::Failed(failure))), disk) by {}
    } else if !disk.has(key) || is_skipped(disk, file) {
        assert(post(Ok(Outcome::Refreshed(Refresh::Retry)), disk));
    }
    if !disk.hidden.contains(key) && disk.has(key) && (takes_source(file.kind)
        ==> file.source is Some) {
        assert forall|seen: Metadata| achieves(
            #[trigger] swap_program(file, seen),
            disk,
            post,
        ) by {
            effect_swap_attempt(file, seen, clobber, prefix, disk, post);
        }
    }
}

/// What stays true of a plan whatever is done for it.
pub open spec fn is_steady(plan: Plan, start: Disk, disk: Disk) -> bool {
    &&& same_frame(start, disk)
    &&& same_elsewhere(plan, start, disk)
    &&& forall|j: int| 0 <= j < plan.files.len() ==> #[trigger] plan.source_settled(disk, j)
    &&& forall|j: int| 0 <= j < plan.files.len() ==> #[trigger] plan.target_settled(disk, j)
    &&& forall|j: int|
        0 <= j < plan.files.len() && !is_skipped(start, #[trigger] plan.files[j]) ==> !is_skipped(
            disk,
            plan.files[j],
        )
}

proof fn lemma_steady_step(plan: Plan, start: Disk, disk: Disk, after: Disk, i: int)
    requires
        plan.is_coherent(start),
        is_steady(plan, start, disk),
        0 <= i < plan.files.len(),
        confined(disk, after, plan.files[i], plan.clobber(i), plan.prefix),
        plan.target_settled(after, i),
    ensures
        is_steady(plan, start, after),
{
    lemma_elsewhere_step(plan, start, disk, after, i);
    assert forall|j: int| 0 <= j < plan.files.len() implies #[trigger] plan.source_settled(
        after,
        j,
    ) && (!is_skipped(start, plan.files[j]) ==> !is_skipped(after, plan.files[j])) by {
        let file = plan.files[j];
        assert(plan.source_settled(disk, j));
        if takes_source(file.kind) && file.source is Some {
            lemma_settled_step(plan, disk, after, i, disk.key(file.source->0), link_limit());
        }
    }
    assert forall|j: int| 0 <= j < plan.files.len() && !is_skipped(
        start,
        #[trigger] plan.files[j],
    ) implies !is_skipped(after, plan.files[j]) by {
        assert(plan.source_settled(after, j));
    }
    assert forall|j: int| 0 <= j < plan.files.len() implies #[trigger] plan.target_settled(
        after,
        j,
    ) by {
        assert(plan.target_settled(disk, j));
        if j != i && !(plan.files[j].kind is Delete) {
            lemma_target_step(plan, start, disk, after, i, j);
        }
    }
}

/// What holds of an entry whose target was to be replaced in one step: it has
/// failed exactly where the target cannot be looked at; if that was done it is in
/// place; and if it is left for later, its source was missing at the start or
/// there is nothing that a copy or a link could replace.
pub open spec fn was_attempted(
    start: Disk,
    disk: Disk,
    file: FileView,
    outcome: Outcome,
) -> bool {
    let key = start.key(file.target);
    match outcome {
        Outcome::Refreshed(refresh) => {
            &&& refresh is Failed <==> start.hidden.contains(key)
            &&& refresh is Swapped ==> takes_source(file.kind) && file.source is Some
                && is_as_described(disk, file)
            &&& refresh is Retry && takes_source(file.kind) ==> !disk.has(key) || is_skipped(
                start,
                file,
            )
        },
        _ => false,
    }
}

/// What holds after the first `done.len()` of the entries of `plan` from `first`
/// on have been attempted: those whose target was replaced in one step are in
/// place, those whose target cannot be looked at have failed, and the targets of
/// the other copies and links are as they were.
pub open spec fn refreshed(
    plan: Plan,
    first: int,
    start: Disk,
    disk: Disk,
    done: Seq<Outcome>,
) -> bool {
    &&& is_steady(plan, start, disk)
    &&& forall|i: int|
        0 <= i < done.len() ==> was_attempted(
            start,
            disk,
            plan.files[first + i],
            #[trigger] done[i],
        )
    &&& forall|j: int|
        #![trigger plan.files[j]]
        0 <= j < plan.files.len() && !(first <= j < first + done.len()) && takes_source(
            plan.files[j].kind,
        ) ==> disk.at(start.key(plan.files[j].target)) == start.at(start.key(plan.files[j].target))
}

proof fn lemma_refreshed_turn(
    plan: Plan,
    first: int,
    start: Disk,
    disk: Disk,
    after: Disk,
    done: Seq<Outcome>,
    last: Refresh,
)
    requires
        plan.is_coherent(start),
        refreshed(plan, first, start, disk, done),
        0 <= first,
        first + done.len() < plan.files.len(),
        refresh_effect(
            disk,
            after,
            plan.files[first + done.len()],
            plan.clobber(first + done.len()),
            plan.prefix,
            last,
        ),
    ensures
        refreshed(plan, first, start, after, done.push(Outcome::Refreshed(last))),
{
    let n = first + done.len();
    let file = plan.files[n];
    let key = disk.key(file.target);
    let longer = done.push(Outcome::Refreshed(last));
    assert(plan.source_settled(disk, n));
    assert(plan.target_settled(disk, n));
    assert(confined(disk, after, file, plan.clobber(n), plan.prefix));
    assert(plan.target_settled(after, n)) by {
        if last is Swapped && file.kind is Symlink {
            lemma_link_settled(plan, disk, after, n);
        } else if last is Force && disk.nodes[key].content is Link && file.kind is Symlink
            && file.follow_symlinks != Some(false) {
            lemma_settled_step(
                plan,
                disk,
                after,
                n,
                key_from(key.drop_last(), disk.nodes[key].content->Link_0),
                (link_limit() - 1) as nat,
            );
        }
    }
    lemma_steady_step(plan, start, disk, after, n);
    assert forall|j: int|
        #![trigger plan.files[j]]
        0 <= j < plan.files.len() && !(first <= j < first + longer.len()) && takes_source(
            plan.files[j].kind,
        ) implies after.at(start.key(plan.files[j].target)) == start.at(
        start.key(plan.files[j].target),
    ) by {
        lemma_target_step(plan, start, disk, after, n, j);
    }
    assert forall|i: int| 0 <= i < longer.len() implies was_attempted(
        start,
        after,
        plan.files[first + i],
        #[trigger] longer[i],
    ) by {
        if i < done.len() {
            assert(longer[i] == done[i]);
            if takes_source(plan.files[first + i].kind) {
                lemma_target_step(plan, start, disk, after, n, first + i);
            }
            if done[i] == Outcome::Refreshed(Refresh::Swapped) {
                assert(plan.source_settled(disk, first + i));
                assert(plan.target_settled(disk, first + i));
                lemma_stays_in_place(plan, start, disk, after, n, first + i);
            }
        }
    }
}

pub(crate) proof fn lemma_refreshes(
    plan: Plan,
    first: int,
    updated: Seq<(FileView, FileView)>,
    start: Disk,
    disk: Disk,
    done: Seq<Outcome>,
    post: spec_fn(Seq<Outcome>, Disk) -> bool,
)
    requires
        plan.is_coherent(start),
        0 <= first,
        first + updated.len() <= plan.files.len(),
        forall|i: int|
            0 <= i < updated.len() ==> plan.files[first + i] == (#[trigger] updated[i]).1,
        done.len() <= updated.len(),
        refreshed(plan, first, start, disk, done),
        forall|all: Seq<Outcome>, after: Disk|
            all.len() == updated.len() && refreshed(plan, first, start, after, all)
                ==> #[trigger] post(all, after),
    ensures
        achieves(
            batch(
                refreshes(updated).skip(done.len() as int),
                done,
                plan.clobber_by_default,
                plan.prefix,
            ),
            disk,
            post,
        ),
    decreases updated.len() - done.len(),
{
    broadcast use group_achieves;

    let n = done.len() as int;
    let items = refreshes(updated).skip(n);
    if n < updated.len() {
        let file = updated[n].1;
        assert(items[0] == ItemView::Refresh(file));
        assert(plan.files[first + n] == file);
        assert(plan.entry_fits(start, first + n));
        assert(plan.source_settled(disk, first + n));
        if takes_source(file.kind) && file.source is Some {
            lemma_settled_clear(plan, disk, first + n, disk.key(file.source->0), link_limit());
        }
        let mid = |result: Result<Outcome, Failure>, after: Disk|
            {
                &&& result matches Ok(Outcome::Refreshed(last))
                &&& refresh_effect(
                    disk,
                    after,
                    file,
                    plan.clobber(first + n),
                    plan.prefix,
                    last,
                )
            };
        effect_refresh(file, plan.clobber(first + n), plan.prefix, disk, mid);
        let next = rest_of_batch(items, done, plan.clobber_by_default, plan.prefix);
        assert forall|result: Result<Outcome, Failure>, after: Disk| #[trigger]
            mid(result, after) implies achieves(next(result), after, post) by {
            let last = result->Ok_0->Refreshed_0;
            lemma_refreshed_turn(plan, first, start, disk, after, done, last);
            let longer = done.push(Outcome::Refreshed(last));
            assert(outcome_of(result) == Outcome::Refreshed(last));
            assert(items.skip(1) =~= refreshes(updated).skip(n + 1));
            lemma_refreshes(plan, first, updated, start, after, longer, post);
        }
        lemma_achieves_bind(
            item_program(items[0], plan.clobber_by_default, plan.prefix),
            next,
            disk,
            mid,
            post,
        );
    } else {
        assert(items.len() == 0);
    }
}

} // verus!
