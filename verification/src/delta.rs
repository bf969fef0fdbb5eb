//! What deltas attain: the state that the new manifest describes, with what the
//! old one described and the new one does not taken away.
use vstd::prelude::*;

use crate::action::Failure;
use crate::apply::{activations, deactivations, failures_of};
use crate::attain::{is_as_described, is_skipped, plain_source, takes_away};
use crate::batch::{batch, item_program, item_target, succeeded, ItemView, Outcome, Refresh};
use crate::conduct::{anything, law_looking_conduct, lemma_batch_conduct, obeys, only_looking};
use crate::diff::{
    after_activation, after_deactivation, after_guards, after_refreshes, delta_program,
    diff_program, finale, forced, guards, kept_of, left_to_activate, protected_of, refreshes,
    refused, verdict, DiffEnd, DiffFault, OldManifestView,
};
use crate::file_util::keeps_existing;
use crate::leftover::{
    are_apart, cleared, delta_plan, final_plan, is_share, is_some_share, lemma_coherent_apart,
    lemma_coherent_steady, lemma_final_coherent, lemma_final_reach, lemma_in_order_members,
    lemma_shares, lemma_withdrawn_coherent, lemma_withdrawn_elsewhere, stems_from, swapped_of,
};
use crate::manifest::{takes_source, FileView, ManifestView};
use crate::model::{
    achieves, below, group_achieves, lemma_achieves_bind, lemma_achieves_weaken, same_frame, Disk,
    Key,
};
use crate::order::{in_order, law_order_sorted};

use crate::path::same_path;
use crate::program::Program;
use crate::protect::{is_rightly_refused, lemma_guards, protected_targets};
use crate::refresh::{law_looking_changes_nothing, lemma_refreshes, refreshed};
use crate::split::{
    distinct_targets, law_split_classifies, law_split_keeps_new, news_of, split, SplitView,
};
use crate::whole::{
    deletes_last, holds, in_force, law_manifest_withdraws, lemma_plan, lemma_same_reach, plan_items,
    same_elsewhere, withdrawn, Plan,
};

verus! {

/// Whether an entry is in place after a delta. Nothing is said of one whose
/// source was missing at the start.
pub open spec fn took_effect(start: Disk, disk: Disk, file: FileView) -> bool {
    is_skipped(start, file) || is_as_described(disk, file)
}

/// Whether an entry of the new manifest is in force after a delta: it is in
/// place, or it keeps what was at its target at the start.
pub open spec fn stands(start: Disk, disk: Disk, file: FileView) -> bool {
    let key = start.key(file.target);
    ||| took_effect(start, disk, file)
    ||| keeps_existing(file) && start.has(key) && disk.at(key) == start.at(key)
}

/// What comes of a delta. Whatever happens, nothing changes but what it sets out
/// to change; it is refused exactly if a changed target has to be protected, and
/// then nothing changes at all; and a changed entry whose target cannot be looked
/// at makes it fail. If it succeeds, every new entry is
/// in force, every changed one is in place even if it keeps what it finds, and
/// what the removed entries made is gone, unless a new entry touches the same
/// place or a directory has been made there to hold one.
pub open spec fn delta_effect(
    disk: Disk,
    after: Disk,
    parts: SplitView,
    clobber_by_default: Option<bool>,
    prefix: Seq<u8>,
    result: Result<(), DiffFault>,
) -> bool {
    let plan = delta_plan(disk, parts, clobber_by_default, prefix);
    &&& forall|k: Key|
        !plan.reaches(disk, k) && disk.has(k) ==> #[trigger] after.at(k) == disk.at(k)
    &&& forall|k: Key|
        !plan.reaches(disk, k) && !disk.has(k) && #[trigger] after.has(k)
            ==> !disk.claimed.contains(k) || (after.nodes[k].content is Directory
            && plan.leads_through(disk, k))
    &&& is_rightly_refused(disk, parts.updated, clobber_by_default, result)
    &&& result matches Err(DiffFault::ProtectedTargets(_)) ==> after == disk
    &&& forall|i: int|
        0 <= i < parts.updated.len() && disk.hidden.contains(
            disk.key((#[trigger] parts.updated[i]).1.target),
        ) ==> (result matches Err(DiffFault::ProtectedTargets(_))) || reports(
            result,
            parts.updated[i].1.target,
        )
    &&& result is Ok ==> {
        &&& forall|i: int|
            0 <= i < plan.files.len() ==> stands(disk, after, #[trigger] plan.files[i])
        &&& forall|i: int|
            0 <= i < parts.updated.len() ==> took_effect(
                disk,
                after,
                (#[trigger] parts.updated[i]).1,
            )
        &&& forall|i: int|
            0 <= i < parts.removed.len() ==> is_gone(
                plan,
                disk,
                after,
                #[trigger] parts.removed[i],
            )
    }
}

/// Whether a delta has failed, and names that target among those that did.
pub open spec fn reports(result: Result<(), DiffFault>, target: Seq<u8>) -> bool {
    &&& result matches Err(DiffFault::ActivationFailed(failures))
    &&& names_target(failures, target)
}

pub open spec fn names_target(failures: Seq<(Seq<u8>, Failure)>, target: Seq<u8>) -> bool {
    exists|i: int| 0 <= i < failures.len() && (#[trigger] failures[i]).0 == target
}

/// Whether what a removed entry made is gone, as far as its target is its own. A
/// directory may be there instead where the target of a new entry lies below.
pub open spec fn is_gone(plan: Plan, start: Disk, disk: Disk, file: FileView) -> bool {
    let key = start.key(file.target);
    takes_away(file) && start.claimed.contains(key) && !plan.entries_touch(start, key)
        ==> !disk.has(key) || (disk.nodes[key].content is Directory && plan.leads_through(
        start,
        key,
    ))
}

proof fn lemma_no_failures(items: Seq<ItemView>, outcomes: Seq<Outcome>, i: int)
    requires
        failures_of(items, outcomes).len() == 0,
        0 <= i < outcomes.len(),
        outcomes[i] is Finished || outcomes[i] is Skipped,
    ensures
        succeeded(outcomes[i]),
    decreases outcomes.len(),
{
    let front = outcomes.drop_last();
    if i < outcomes.len() - 1 {
        assert(front[i] == outcomes[i]);
        lemma_no_failures(items, front, i);
    } else if let Outcome::Finished(Err(failure)) = outcomes[i] {
        assert(failures_of(items, outcomes).len() > 0);
    } else if outcomes[i] is Finished {
        let unit = outcomes[i]->Finished_0->Ok_0;
        assert(unit == ());
    }
}

/// A target that could not be looked at is named among the failures.
proof fn lemma_named(items: Seq<ItemView>, outcomes: Seq<Outcome>, i: int)
    requires
        0 <= i < outcomes.len(),
        outcomes[i] matches Outcome::Refreshed(Refresh::Failed(_)),
    ensures
        names_target(failures_of(items, outcomes), item_target(items[i])),
    decreases outcomes.len(),
{
    let all = failures_of(items, outcomes);
    let n = outcomes.len() - 1;
    if i < n {
        let front = outcomes.drop_last();
        let before = failures_of(items, front);
        assert(front[i] == outcomes[i]);
        lemma_named(items, front, i);
        let j = choose|j: int| 0 <= j < before.len() && (#[trigger] before[j]).0 == item_target(
            items[i],
        );
        assert(all[j] == before[j]);
    } else {
        assert(all[all.len() - 1].0 == item_target(items[i]));
    }
}

/// What is elsewhere is as it was after two stretches of work if it is after
/// each.
proof fn lemma_elsewhere_twice(plan: Plan, first: Disk, second: Disk, third: Disk)
    requires
        same_frame(first, second),
        same_elsewhere(plan, first, second),
        same_elsewhere(plan, second, third),
    ensures
        same_elsewhere(plan, first, third),
{
    assert forall|k: Key| #[trigger]
        plan.entries_touch(second, k) == plan.entries_touch(first, k) by {
        lemma_same_reach(plan, first, second, k);
    }
    assert forall|k: Key| #[trigger]
        plan.leads_through(second, k) == plan.leads_through(first, k) by {
        lemma_same_way(plan, first, second, k);
    }
    assert forall|k: Key|
        !plan.entries_touch(first, k) && first.has(k) implies #[trigger] third.at(k) == first.at(
        k,
    ) by {
        assert(!plan.entries_touch(second, k));
        assert(second.at(k) == first.at(k));
    }
    assert forall|k: Key|
        !plan.entries_touch(first, k) && !first.has(k) && #[trigger] third.has(
            k,
        ) implies !first.claimed.contains(k) || (third.nodes[k].content is Directory
        && plan.leads_through(first, k)) by {
        assert(!plan.entries_touch(second, k));
        if second.has(k) {
            assert(third.at(k) == second.at(k));
        }
    }
}

/// Where a delta stands when the targets of changed entries have been replaced:
/// `disk` is the start, `between` what it was when the removed entries had been
/// taken away, and `now` what it is.
spec fn under_way(
    plan: Plan,
    parts: SplitView,
    disk: Disk,
    between: Disk,
    now: Disk,
    gone: Seq<Outcome>,
    outcomes: Seq<Outcome>,
) -> bool {
    &&& plan.files == parts.fresh + news_of(parts.updated) + parts.same
    &&& plan.others == cleared(disk, parts.removed)
    &&& plan.is_coherent(disk)
    &&& withdrawn(disk, between, in_order(parts.removed).reverse(), gone)
    &&& gone.len() == in_order(parts.removed).len()
    &&& refreshed(plan, parts.fresh.len() as int, between, now, outcomes)
    &&& outcomes.len() == parts.updated.len()
}

proof fn lemma_start_of_finale(
    plan: Plan,
    parts: SplitView,
    disk: Disk,
    between: Disk,
    now: Disk,
    gone: Seq<Outcome>,
    outcomes: Seq<Outcome>,
)
    requires
        under_way(plan, parts, disk, between, now, gone, outcomes),
    ensures
        ({
            let narrow = final_plan(between, plan, parts, outcomes);
            let given = Seq::new(
                swapped_of(parts.updated, outcomes, plan.clobber_by_default).len(),
                |i: int| Outcome::Finished(Ok(())),
            );
            &&& narrow.is_coherent(now)
            &&& deletes_last(narrow)
            &&& holds(narrow, now, now, given)
        }),
{
    let narrow = final_plan(between, plan, parts, outcomes);
    let swapped = swapped_of(parts.updated, outcomes, plan.clobber_by_default);
    let left = left_to_activate(parts, outcomes, plan.clobber_by_default);
    let first = parts.fresh.len() as int;
    let given = Seq::new(swapped.len(), |i: int| Outcome::Finished(Ok(())));
    lemma_withdrawn_elsewhere(disk, between, parts.removed, gone);
    lemma_withdrawn_coherent(plan, disk, between);
    lemma_final_coherent(plan, between, now, parts, outcomes);
    lemma_coherent_steady(narrow, now);
    lemma_coherent_apart(plan, between);
    assert forall|i: int| 0 <= i < parts.updated.len() implies plan.files[first + i] == (
    #[trigger] parts.updated[i]).1 by {}
    assert forall|i: int, j: int|
        0 <= i < parts.updated.len() && 0 <= j < parts.updated.len() && i != j implies are_apart(
        plan,
        between,
        (#[trigger] parts.updated[i]).1,
        (#[trigger] parts.updated[j]).1,
    ) by {
        assert(are_apart(plan, between, plan.files[first + i], plan.files[first + j]));
    }
    lemma_shares(plan, between, parts.updated, outcomes);
    assert forall|b: int| 0 <= b < swapped.len() implies takes_source(
        (#[trigger] swapped[b]).kind,
    ) && is_as_described(now, swapped[b]) by {
        assert(is_some_share(
            plan,
            parts.updated,
            outcomes,
            swapped[b],
            outcomes.len() as int,
            true,
        ));
        let i = choose|i: int|
            i < outcomes.len() && #[trigger] is_share(
                plan,
                parts.updated,
                outcomes,
                swapped[b],
                i,
                true,
            );
        assert(outcomes[i] == Outcome::Refreshed(Refresh::Swapped));
        assert(plan.files[first + i] == parts.updated[i].1);
    }
    assert(deletes_last(narrow)) by {
        law_order_sorted(left);
        assert forall|i: int, j: int|
            0 <= j < i < narrow.files.len() && #[trigger] narrow.files[j].kind
                is Delete implies #[trigger] narrow.files[i].kind is Delete by {
            if j < swapped.len() {
                assert(narrow.files[j] == swapped[j]);
            } else {
                assert(narrow.files[j] == in_order(left)[j - swapped.len()]);
                assert(narrow.files[i] == in_order(left)[i - swapped.len()]);
            }
        }
    }
    assert forall|j: int|
        0 <= j < given.len() && succeeded(#[trigger] given[j]) implies in_force(
        now,
        now,
        narrow.files[j],
    ) && (narrow.files[j].kind is Symlink ==> narrow.target_settled(now, j)) by {
        assert(narrow.files[j] == swapped[j]);
        assert(narrow.target_settled(now, j));
    }
}

/// A new entry is in force if it is in force from some point on, and what it
/// keeps was there at the start.
proof fn lemma_stands(start: Disk, now: Disk, after: Disk, file: FileView)
    requires
        in_force(now, after, file),
        same_frame(start, now),
        !is_skipped(start, file) ==> !is_skipped(now, file),
        now.has(start.key(file.target)) && keeps_existing(file) ==> now.at(start.key(file.target))
            == start.at(start.key(file.target)),
    ensures
        stands(start, after, file),
{
}

/// A changed entry is in place if what became of it is in force and found
/// nothing to keep.
proof fn lemma_took_effect(
    plan: Plan,
    start: Disk,
    now: Disk,
    after: Disk,
    file: FileView,
    whole: FileView,
)
    requires
        stems_from(plan, file, whole),
        in_force(now, after, file),
        !is_skipped(start, whole) ==> !is_skipped(now, whole),
        keeps_existing(file) ==> is_skipped(start, whole) || !now.has(now.key(file.target)),
    ensures
        took_effect(start, after, whole),
{
}

/// Which keys the targets lie below is the same all along.
proof fn lemma_same_way(plan: Plan, disk: Disk, after: Disk, key: Key)
    requires
        same_frame(disk, after),
    ensures
        plan.leads_through(after, key) == plan.leads_through(disk, key),
{
    if plan.leads_through(disk, key) {
        let i = choose|i: int|
            0 <= i < plan.files.len() && below(disk.key((#[trigger] plan.files[i]).target), key);
        assert(below(after.key(plan.files[i].target), key));
    }
    if plan.leads_through(after, key) {
        let i = choose|i: int|
            0 <= i < plan.files.len() && below(after.key((#[trigger] plan.files[i]).target), key);
        assert(below(disk.key(plan.files[i].target), key));
    }
}

#[verifier::rlimit(30)]
proof fn lemma_end_of_finale(
    plan: Plan,
    parts: SplitView,
    disk: Disk,
    between: Disk,
    now: Disk,
    gone: Seq<Outcome>,
    outcomes: Seq<Outcome>,
    after: Disk,
    given: Seq<Outcome>,
    last: Seq<Outcome>,
    i: int,
)
    requires
        under_way(plan, parts, disk, between, now, gone, outcomes),
        given.len() == swapped_of(parts.updated, outcomes, plan.clobber_by_default).len(),
        forall|j: int| 0 <= j < given.len() ==> succeeded(#[trigger] given[j]),
        given.len() + last.len() == final_plan(between, plan, parts, outcomes).files.len(),
        holds(final_plan(between, plan, parts, outcomes), now, after, given + last),
        forall|j: int| 0 <= j < last.len() ==> succeeded(#[trigger] last[j]),
        0 <= i < plan.files.len(),
        failures_of(refreshes(parts.updated), outcomes).len() == 0,
    ensures
        stands(disk, after, plan.files[i]),
        parts.fresh.len() <= i < parts.fresh.len() + parts.updated.len() ==> took_effect(
            disk,
            after,
            plan.files[i],
        ),
{
    let narrow = final_plan(between, plan, parts, outcomes);
    let swapped = swapped_of(parts.updated, outcomes, plan.clobber_by_default);
    let left = left_to_activate(parts, outcomes, plan.clobber_by_default);
    let kept = kept_of(parts.updated, outcomes, plan.clobber_by_default);
    let order = in_order(left);
    let first = parts.fresh.len() as int;
    let n = swapped.len() as int;
    let whole = plan.files[i];
    let all = given + last;
    lemma_withdrawn_elsewhere(disk, between, parts.removed, gone);
    lemma_withdrawn_coherent(plan, disk, between);
    lemma_coherent_apart(plan, between);
    lemma_in_order_members(left);
    assert forall|j: int, k: int|
        0 <= j < parts.updated.len() && 0 <= k < parts.updated.len() && j != k implies are_apart(
        plan,
        between,
        (#[trigger] parts.updated[j]).1,
        (#[trigger] parts.updated[k]).1,
    ) by {
        assert(plan.files[first + j] == parts.updated[j].1);
        assert(plan.files[first + k] == parts.updated[k].1);
        assert(are_apart(plan, between, plan.files[first + j], plan.files[first + k]));
    }
    lemma_shares(plan, between, parts.updated, outcomes);
    assert forall|file: FileView| left.contains(file) implies in_force(
        now,
        after,
        file,
    ) by {
        let at = choose|at: int| 0 <= at < left.len() && left[at] == file;
        assert(order.contains(left[at]));
        let m = choose|m: int| 0 <= m < order.len() && order[m] == file;
        assert(narrow.files[n + m] == file);
        assert(all[n + m] == last[m]);
    }
    assert forall|file: FileView| kept.contains(file) implies left.contains(file) by {
        let at = choose|at: int| 0 <= at < kept.len() && kept[at] == file;
        assert(left[first + at] == file);
    }
    if now.has(disk.key(whole.target)) && keeps_existing(whole) && !(first <= i < first
        + parts.updated.len()) {
        let key = disk.key(whole.target);
        assert(now.at(key) == between.at(key));
        assert(between.at(key) == disk.at(key));
    }
    if i < first {
        assert(left[i] == whole);
        assert(left.contains(whole));
        lemma_stands(disk, now, after, whole);
    } else if i < first + parts.updated.len() {
        let at = i - first;
        assert(parts.updated[at].1 == whole);
        match outcomes[at] {
            Outcome::Refreshed(Refresh::Swapped) => {
                let file = forced(whole, plan.clobber_by_default);
                assert(swapped.contains(file));
                let b = choose|b: int| 0 <= b < swapped.len() && swapped[b] == file;
                assert(narrow.files[b] == file);
                assert(all[b] == given[b]);
                lemma_took_effect(plan, disk, now, after, file, whole);
            },
            Outcome::Refreshed(Refresh::Retry) => {
                assert(kept.contains(whole));
                assert(is_skipped(between, whole) ==> is_skipped(disk, whole));
                lemma_took_effect(plan, disk, now, after, whole, whole);
            },
            Outcome::Refreshed(Refresh::Force) => {
                let file = forced(whole, plan.clobber_by_default);
                assert(kept.contains(file));
                lemma_took_effect(plan, disk, now, after, file, whole);
            },
            Outcome::Refreshed(Refresh::Failed(_)) => {
                lemma_named(refreshes(parts.updated), outcomes, at);
            },
            _ => {},
        }
    } else {
        let at = i - first - parts.updated.len();
        assert(parts.same[at] == whole);
        assert(left[first + kept.len() + at] == whole);
        assert(left.contains(whole));
        lemma_stands(disk, now, after, whole);
    }
}

/// The part of what comes of a delta that holds whatever happens.
proof fn lemma_delta_elsewhere(
    plan: Plan,
    parts: SplitView,
    disk: Disk,
    between: Disk,
    after: Disk,
    gone: Seq<Outcome>,
)
    requires
        plan.others == cleared(disk, parts.removed),
        withdrawn(disk, between, in_order(parts.removed).reverse(), gone),
        same_elsewhere(plan, between, after),
    ensures
        forall|k: Key|
            !plan.reaches(disk, k) && disk.has(k) ==> #[trigger] after.at(k) == disk.at(k),
        forall|k: Key|
            !plan.reaches(disk, k) && !disk.has(k) && #[trigger] after.has(k)
                ==> !disk.claimed.contains(k) || (after.nodes[k].content is Directory
                && plan.leads_through(disk, k)),
{
    lemma_withdrawn_elsewhere(disk, between, parts.removed, gone);
    assert forall|k: Key| #[trigger]
        plan.entries_touch(between, k) == plan.entries_touch(disk, k) by {
        lemma_same_reach(plan, disk, between, k);
    }
    assert forall|k: Key|
        !plan.reaches(disk, k) && disk.has(k) implies #[trigger] after.at(k) == disk.at(k) by {
        assert(between.at(k) == disk.at(k));
        assert(!plan.entries_touch(between, k));
    }
    assert forall|k: Key|
        !plan.reaches(disk, k) && !disk.has(k) && #[trigger] after.has(
            k,
        ) implies !disk.claimed.contains(k) || (after.nodes[k].content is Directory
        && plan.leads_through(disk, k)) by {
        assert(between.at(k) == disk.at(k));
        assert(!plan.entries_touch(between, k));
        lemma_same_way(plan, disk, between, k);
    }
}

/// What a removed entry made is gone when its deactivation did not fail.
proof fn lemma_delta_gone(
    plan: Plan,
    parts: SplitView,
    disk: Disk,
    between: Disk,
    after: Disk,
    gone: Seq<Outcome>,
    i: int,
)
    requires
        withdrawn(disk, between, in_order(parts.removed).reverse(), gone),
        gone.len() == in_order(parts.removed).len(),
        failures_of(deactivations(parts.removed), gone).len() == 0,
        same_elsewhere(plan, between, after),
        0 <= i < parts.removed.len(),
    ensures
        is_gone(plan, disk, after, parts.removed[i]),
{
    let file = parts.removed[i];
    let key = disk.key(file.target);
    let order = in_order(parts.removed).reverse();
    lemma_in_order_members(parts.removed);
    assert(in_order(parts.removed).contains(file));
    let at = choose|at: int|
        0 <= at < in_order(parts.removed).len() && in_order(parts.removed)[at] == file;
    let m = order.len() - 1 - at;
    assert(order[m] == file);
    assert(gone[m] is Finished);
    lemma_no_failures(deactivations(parts.removed), gone, m);
    lemma_same_reach(plan, disk, between, key);
    lemma_same_way(plan, disk, between, key);
    if takes_away(file) && after.has(key) {
        assert(!between.has(key));
    }
}

proof fn lemma_verdict(
    first: Seq<(Seq<u8>, Failure)>,
    second: Seq<(Seq<u8>, Failure)>,
    third: Seq<(Seq<u8>, Failure)>,
)
    ensures
        ({
            let result = verdict(first + second + third);
            &&& !(result matches Err(DiffFault::ProtectedTargets(_)))
            &&& result is Ok ==> first.len() == 0 && second.len() == 0 && third.len() == 0
            &&& forall|target: Seq<u8>| #[trigger]
                names_target(second, target) ==> reports(result, target)
        }),
{
    let all = first + second + third;
    let result = verdict(all);
    assert forall|target: Seq<u8>| #[trigger] names_target(second, target) implies reports(
        result,
        target,
    ) by {
        let i = choose|i: int| 0 <= i < second.len() && (#[trigger] second[i]).0 == target;
        assert(all[first.len() + i] == second[i]);
    }
}

proof fn effect_finale(
    plan: Plan,
    parts: SplitView,
    disk: Disk,
    between: Disk,
    now: Disk,
    gone: Seq<Outcome>,
    outcomes: Seq<Outcome>,
    post: spec_fn(DiffEnd, Disk) -> bool,
)
    requires
        under_way(plan, parts, disk, between, now, gone, outcomes),
        plan == delta_plan(disk, parts, plan.clobber_by_default, plan.prefix),
        is_rightly_refused(disk, parts.updated, plan.clobber_by_default, Ok(())),
        forall|end: DiffEnd, after: Disk|
            delta_effect(disk, after, parts, plan.clobber_by_default, plan.prefix, end.result)
                ==> #[trigger] post(end, after),
    ensures
        achieves(
            finale(
                left_to_activate(parts, outcomes, plan.clobber_by_default),
                failures_of(deactivations(parts.removed), gone) + failures_of(
                    refreshes(parts.updated),
                    outcomes,
                ),
                plan.clobber_by_default,
                plan.prefix,
            ),
            now,
            post,
        ),
{
    broadcast use group_achieves;

    let narrow = final_plan(between, plan, parts, outcomes);
    let swapped = swapped_of(parts.updated, outcomes, plan.clobber_by_default);
    let left = left_to_activate(parts, outcomes, plan.clobber_by_default);
    let given = Seq::new(swapped.len(), |i: int| Outcome::Finished(Ok(())));
    let none = Seq::<Outcome>::empty();
    let failed = failures_of(deactivations(parts.removed), gone);
    let dropped = failures_of(refreshes(parts.updated), outcomes);
    let next = after_activation(activations(left), failed + dropped);
    lemma_start_of_finale(plan, parts, disk, between, now, gone, outcomes);
    assert(given + none =~= given);
    assert(plan_items(narrow).skip(given.len() as int) =~= activations(left));
    let mid = |last: Seq<Outcome>, after: Disk|
        {
            &&& given.len() + last.len() == narrow.files.len()
            &&& holds(narrow, now, after, given + last)
        };
    lemma_plan(narrow, now, now, given, none, mid);
    assert forall|last: Seq<Outcome>, after: Disk| #[trigger] mid(last, after) implies achieves(
        next(last),
        after,
        post,
    ) by {
        let again = failures_of(activations(left), last);
        let result = verdict(failed + dropped + again);
        lemma_verdict(failed, dropped, again);
        assert forall|i: int|
            0 <= i < parts.updated.len() && disk.hidden.contains(
                disk.key((#[trigger] parts.updated[i]).1.target),
            ) implies reports(result, parts.updated[i].1.target) by {
            assert(plan.files[parts.fresh.len() + i] == parts.updated[i].1);
            assert(outcomes[i] matches Outcome::Refreshed(Refresh::Failed(_)));
            lemma_named(refreshes(parts.updated), outcomes, i);
        }
        lemma_withdrawn_elsewhere(disk, between, parts.removed, gone);
        lemma_withdrawn_coherent(plan, disk, between);
        lemma_coherent_apart(plan, between);
        lemma_final_reach(plan, between, now, parts, outcomes);
        assert(same_elsewhere(plan, now, after)) by {
            assert forall|k: Key|
                !plan.entries_touch(now, k) && now.has(k) implies #[trigger] after.at(k) == now.at(
                k,
            ) by {
                assert(!narrow.entries_touch(now, k));
            }
            assert forall|k: Key|
                !plan.entries_touch(now, k) && !now.has(k) && #[trigger] after.has(
                    k,
                ) implies !now.claimed.contains(k) || (after.nodes[k].content is Directory
                && plan.leads_through(now, k)) by {
                assert(!narrow.entries_touch(now, k));
            }
        }
        lemma_elsewhere_twice(plan, between, now, after);
        lemma_delta_elsewhere(plan, parts, disk, between, after, gone);
        if result is Ok {
            assert forall|j: int| 0 <= j < last.len() implies succeeded(#[trigger] last[j]) by {
                let here = (given + last)[given.len() + j];
                assert(here is Finished || here is Skipped);
                lemma_no_failures(activations(left), last, j);
            }
            assert forall|i: int|
                0 <= i < plan.files.len() implies stands(
                disk,
                after,
                #[trigger] plan.files[i],
            ) by {
                lemma_end_of_finale(
                    plan,
                    parts,
                    disk,
                    between,
                    now,
                    gone,
                    outcomes,
                    after,
                    given,
                    last,
                    i,
                );
            }
            assert forall|i: int| 0 <= i < parts.updated.len() implies took_effect(
                disk,
                after,
                (#[trigger] parts.updated[i]).1,
            ) by {
                let at = parts.fresh.len() + i;
                assert(plan.files[at] == parts.updated[i].1);
                lemma_end_of_finale(
                    plan,
                    parts,
                    disk,
                    between,
                    now,
                    gone,
                    outcomes,
                    after,
                    given,
                    last,
                    at,
                );
            }
            assert forall|i: int| 0 <= i < parts.removed.len() implies is_gone(
                plan,
                disk,
                after,
                #[trigger] parts.removed[i],
            ) by {
                lemma_delta_gone(plan, parts, disk, between, after, gone, i);
            }
        }
        assert(delta_effect(
            disk,
            after,
            parts,
            plan.clobber_by_default,
            plan.prefix,
            result,
        ));
        let end = next(last)->Return_0;
        assert(next(last) == Program::Return(end));
        assert(end.result == result);
        assert(post(end, after));
    }
    lemma_achieves_bind(
        batch(activations(left), none, plan.clobber_by_default, plan.prefix),
        next,
        now,
        mid,
        post,
    );
}

/// What comes of a delta when the removed entries have been taken away.
proof fn effect_after_deactivation(
    plan: Plan,
    parts: SplitView,
    disk: Disk,
    between: Disk,
    gone: Seq<Outcome>,
    post: spec_fn(DiffEnd, Disk) -> bool,
)
    requires
        plan == delta_plan(disk, parts, plan.clobber_by_default, plan.prefix),
        is_rightly_refused(disk, parts.updated, plan.clobber_by_default, Ok(())),
        plan.is_coherent(disk),
        withdrawn(disk, between, in_order(parts.removed).reverse(), gone),
        gone.len() == in_order(parts.removed).len(),
        forall|end: DiffEnd, after: Disk|
            delta_effect(disk, after, parts, plan.clobber_by_default, plan.prefix, end.result)
                ==> #[trigger] post(end, after),
    ensures
        achieves(
            after_deactivation(parts, plan.clobber_by_default, plan.prefix)(gone),
            between,
            post,
        ),
{
    let none = Seq::<Outcome>::empty();
    let first = parts.fresh.len() as int;
    let updated = parts.updated;
    let failed = failures_of(deactivations(parts.removed), gone);
    let next = after_refreshes(parts, failed, plan.clobber_by_default, plan.prefix);
    lemma_withdrawn_elsewhere(disk, between, parts.removed, gone);
    lemma_withdrawn_coherent(plan, disk, between);
    lemma_coherent_steady(plan, between);
    assert(refreshed(plan, first, between, between, none));
    assert(refreshes(updated).skip(0) =~= refreshes(updated));
    assert forall|i: int| 0 <= i < updated.len() implies plan.files[first + i] == (
    #[trigger] updated[i]).1 by {}
    let mid = |outcomes: Seq<Outcome>, now: Disk|
        {
            &&& outcomes.len() == updated.len()
            &&& refreshed(plan, first, between, now, outcomes)
        };
    lemma_refreshes(plan, first, updated, between, between, none, mid);
    assert forall|outcomes: Seq<Outcome>, now: Disk| #[trigger] mid(outcomes, now) implies achieves(
        next(outcomes),
        now,
        post,
    ) by {
        effect_finale(plan, parts, disk, between, now, gone, outcomes, post);
    }
    lemma_achieves_bind(
        batch(refreshes(updated), none, plan.clobber_by_default, plan.prefix),
        next,
        between,
        mid,
        post,
    );
}

/// Whether the outcomes of the guards of a delta tell which targets have to be
/// protected. Nothing is said where an old copy has a link for a source.
spec fn are_told(
    parts: SplitView,
    clobber_by_default: Option<bool>,
    disk: Disk,
    outcomes: Seq<Outcome>,
) -> bool {
    (forall|i: int|
        0 <= i < parts.updated.len() ==> plain_source(disk, (#[trigger] parts.updated[i]).0))
        ==> protected_of(guards(parts.updated), outcomes) == protected_targets(
        disk,
        parts.updated,
        clobber_by_default,
    )
}

/// The guards of a delta change nothing, and tell what has to be protected.
proof fn effect_guards(
    parts: SplitView,
    clobber_by_default: Option<bool>,
    prefix: Seq<u8>,
    disk: Disk,
)
    ensures
        achieves(
            batch(guards(parts.updated), Seq::<Outcome>::empty(), clobber_by_default, prefix),
            disk,
            |outcomes: Seq<Outcome>, after: Disk|
                after == disk && are_told(parts, clobber_by_default, disk, outcomes),
        ),
{
    let none = Seq::<Outcome>::empty();
    let items = guards(parts.updated);
    let same = |outcomes: Seq<Outcome>, after: Disk|
        after == disk && are_told(parts, clobber_by_default, disk, outcomes);
    assert forall|i: int| 0 <= i < items.len() implies obeys(
        item_program(#[trigger] items[i], clobber_by_default, prefix),
        only_looking(),
        anything(),
    ) by {
        law_looking_conduct(parts.updated[i].0, parts.updated[i].1, clobber_by_default);
    }
    let looking = batch(items, none, clobber_by_default, prefix);
    lemma_batch_conduct(items, none, clobber_by_default, prefix, only_looking());
    if forall|i: int|
        0 <= i < parts.updated.len() ==> plain_source(disk, (#[trigger] parts.updated[i]).0) {
        let told = |outcomes: Seq<Outcome>, after: Disk|
            {
                &&& after == disk
                &&& protected_of(guards(parts.updated), outcomes) == protected_targets(
                    disk,
                    parts.updated,
                    clobber_by_default,
                )
            };
        assert(items.skip(0) =~= items);
        lemma_guards(parts.updated, none, clobber_by_default, prefix, disk);
        lemma_achieves_weaken(looking, disk, told, same);
    } else {
        let unchanged = |outcomes: Seq<Outcome>, after: Disk|
            after == disk && anything()(outcomes);
        law_looking_changes_nothing(looking, anything(), disk);
        lemma_achieves_weaken(looking, disk, unchanged, same);
    }
}

/// A delta that succeeds puts the new entries in force and takes away what the
/// removed ones made; one that is refused changes nothing; and whatever happens,
/// nothing changes but what the delta is about. The new entries must not get in
/// each other's way, nor lead through what is taken away.
pub proof fn law_delta_attains(
    parts: SplitView,
    clobber_by_default: Option<bool>,
    prefix: Seq<u8>,
    disk: Disk,
)
    requires
        delta_plan(disk, parts, clobber_by_default, prefix).is_coherent(disk),
        forall|i: int|
            0 <= i < parts.removed.len() ==> plain_source(disk, #[trigger] parts.removed[i]),
    ensures
        achieves(
            delta_program(parts, clobber_by_default, prefix),
            disk,
            |end: DiffEnd, after: Disk|
                delta_effect(disk, after, parts, clobber_by_default, prefix, end.result),
        ),
{
    broadcast use group_achieves;

    let plan = delta_plan(disk, parts, clobber_by_default, prefix);
    let none = Seq::<Outcome>::empty();
    let post = |end: DiffEnd, after: Disk|
        delta_effect(disk, after, parts, clobber_by_default, prefix, end.result);
    let items = guards(parts.updated);
    let looking = batch(items, none, clobber_by_default, prefix);
    lemma_in_order_members(parts.removed);
    assert forall|i: int| 0 <= i < in_order(parts.removed).len() implies plain_source(
        disk,
        #[trigger] in_order(parts.removed)[i],
    ) by {
        let file = in_order(parts.removed)[i];
        assert(parts.removed.contains(file));
        let at = choose|at: int| 0 <= at < parts.removed.len() && parts.removed[at] == file;
        assert(plain_source(disk, parts.removed[at]));
    }
    law_manifest_withdraws(parts.removed, clobber_by_default, prefix, disk);
    let taken = |gone: Seq<Outcome>, between: Disk|
        {
            &&& gone.len() == in_order(parts.removed).len()
            &&& withdrawn(disk, between, in_order(parts.removed).reverse(), gone)
        };
    let next = after_deactivation(parts, clobber_by_default, prefix);
    if is_rightly_refused(disk, parts.updated, clobber_by_default, Ok(())) {
        assert forall|gone: Seq<Outcome>, between: Disk| #[trigger] taken(
            gone,
            between,
        ) implies achieves(next(gone), between, post) by {
            effect_after_deactivation(plan, parts, disk, between, gone, post);
        }
        lemma_achieves_bind(
            batch(deactivations(parts.removed), none, clobber_by_default, prefix),
            next,
            disk,
            taken,
            post,
        );
    }
    let same = |outcomes: Seq<Outcome>, after: Disk|
        after == disk && are_told(parts, clobber_by_default, disk, outcomes);
    effect_guards(parts, clobber_by_default, prefix, disk);
    assert forall|outcomes: Seq<Outcome>, after: Disk| #[trigger] same(
        outcomes,
        after,
    ) implies achieves(
        after_guards(parts, clobber_by_default, prefix)(outcomes),
        after,
        post,
    ) by {
        let protected = protected_of(items, outcomes);
        if protected.len() > 0 {
            assert(post(refused(DiffFault::ProtectedTargets(protected)), disk));
        } else {
            assert(is_rightly_refused(disk, parts.updated, clobber_by_default, Ok(())));
        }
    }
    lemma_achieves_bind(
        looking,
        after_guards(parts, clobber_by_default, prefix),
        disk,
        same,
        post,
    );
}

/// Going from one manifest to the next and succeeding puts every entry of the
/// new manifest in force.
pub proof fn law_diff_attains(
    new: ManifestView,
    old: ManifestView,
    prefix: Seq<u8>,
    fallback: bool,
    disk: Disk,
)
    requires
        delta_plan(
            disk,
            split(old.files, new.files),
            new.clobber_by_default,
            prefix,
        ).is_coherent(disk),
        forall|i: int|
            0 <= i < split(old.files, new.files).removed.len() ==> plain_source(
                disk,
                #[trigger] split(old.files, new.files).removed[i],
            ),
    ensures
        achieves(
            diff_program(new, OldManifestView::Found(old), prefix, fallback),
            disk,
            |end: DiffEnd, after: Disk|
                {
                    &&& delta_effect(
                        disk,
                        after,
                        split(old.files, new.files),
                        new.clobber_by_default,
                        prefix,
                        end.result,
                    )
                    &&& end.result is Ok ==> forall|i: int|
                        0 <= i < new.files.len() ==> stands(disk, after, #[trigger] new.files[i])
                },
        ),
{
    broadcast use vstd::seq_lib::group_to_multiset_ensures;

    let parts = split(old.files, new.files);
    let plan = delta_plan(disk, parts, new.clobber_by_default, prefix);
    let strict = |end: DiffEnd, after: Disk|
        delta_effect(disk, after, parts, new.clobber_by_default, prefix, end.result);
    let loose = |end: DiffEnd, after: Disk|
        {
            &&& delta_effect(
                disk,
                after,
                split(old.files, new.files),
                new.clobber_by_default,
                prefix,
                end.result,
            )
            &&& end.result is Ok ==> forall|i: int|
                0 <= i < new.files.len() ==> stands(disk, after, #[trigger] new.files[i])
        };
    law_delta_attains(parts, new.clobber_by_default, prefix, disk);
    assert forall|end: DiffEnd, after: Disk|
        strict(end, after) implies #[trigger] loose(end, after) by {
        if end.result is Ok {
            assert forall|i: int|
                0 <= i < new.files.len() implies stands(disk, after, #[trigger] new.files[i]) by {
                let file = new.files[i];
                lemma_split_member(old.files, new.files, file);
                let at = choose|at: int| 0 <= at < plan.files.len() && plan.files[at] == file;
                assert(stands(disk, after, plan.files[at]));
            }
        }
    }
    lemma_achieves_weaken(
        delta_program(parts, new.clobber_by_default, prefix),
        disk,
        strict,
        loose,
    );
}

/// A new entry is in one of the parts of a split.
proof fn lemma_split_member(olds: Seq<FileView>, news: Seq<FileView>, file: FileView)
    requires
        news.contains(file),
    ensures
        ({
            let parts = split(olds, news);
            (parts.fresh + news_of(parts.updated) + parts.same).contains(file)
        }),
{
    broadcast use vstd::seq_lib::group_to_multiset_ensures;

    let parts = split(olds, news);
    let all = parts.fresh + news_of(parts.updated) + parts.same;
    law_split_keeps_new(olds, news);
    assert(news.to_multiset().count(file) > 0);
    let changed = news_of(parts.updated);
    if parts.fresh.to_multiset().count(file) > 0 {
        assert(parts.fresh.contains(file));
        let at = choose|at: int| 0 <= at < parts.fresh.len() && parts.fresh[at] == file;
        assert(all[at] == file);
    } else if changed.to_multiset().count(file) > 0 {
        assert(changed.contains(file));
        let at = choose|at: int| 0 <= at < changed.len() && changed[at] == file;
        assert(all[parts.fresh.len() + at] == file);
    } else {
        assert(parts.same.to_multiset().count(file) > 0);
        assert(parts.same.contains(file));
        let at = choose|at: int| 0 <= at < parts.same.len() && parts.same[at] == file;
        assert(all[parts.fresh.len() + changed.len() + at] == file);
    }
}

/// Where the settings of a copy or a link have changed, a delta that succeeds
/// leaves its target as the new entry says, whatever setting it is that changed,
/// and also if the entry keeps what it finds otherwise. No two entries of a
/// manifest may have the same target.
pub proof fn law_changed_settings_take_effect(
    new: ManifestView,
    old: ManifestView,
    prefix: Seq<u8>,
    fallback: bool,
    disk: Disk,
    i: int,
    j: int,
)
    requires
        delta_plan(
            disk,
            split(old.files, new.files),
            new.clobber_by_default,
            prefix,
        ).is_coherent(disk),
        forall|k: int|
            0 <= k < split(old.files, new.files).removed.len() ==> plain_source(
                disk,
                #[trigger] split(old.files, new.files).removed[k],
            ),
        distinct_targets(old.files),
        distinct_targets(new.files),
        0 <= i < old.files.len(),
        0 <= j < new.files.len(),
        same_path(old.files[i].target, new.files[j].target),
        new.files[j].kind is Copy || new.files[j].kind is Symlink,
        !is_skipped(disk, new.files[j]),
        old.files[i].kind != new.files[j].kind || old.files[i].permissions
            != new.files[j].permissions || old.files[i].uid != new.files[j].uid || old.files[i].gid
            != new.files[j].gid || old.files[i].clobber != new.files[j].clobber
            || old.files[i].deactivate != new.files[j].deactivate || old.files[i].follow_symlinks
            != new.files[j].follow_symlinks || old.files[i].ignore_modification
            != new.files[j].ignore_modification || old.files[i].source is None || !same_path(
            old.files[i].source->0,
            new.files[j].source->0,
        ),
    ensures
        achieves(
            diff_program(new, OldManifestView::Found(old), prefix, fallback),
            disk,
            |end: DiffEnd, after: Disk|
                end.result is Ok ==> is_as_described(after, new.files[j]),
        ),
{
    let all = split(old.files, new.files);
    let strict = |end: DiffEnd, after: Disk|
        {
            &&& delta_effect(
                disk,
                after,
                split(old.files, new.files),
                new.clobber_by_default,
                prefix,
                end.result,
            )
            &&& end.result is Ok ==> forall|i: int|
                0 <= i < new.files.len() ==> stands(disk, after, #[trigger] new.files[i])
        };
    let loose = |end: DiffEnd, after: Disk|
        end.result is Ok ==> is_as_described(after, new.files[j]);
    law_diff_attains(new, old, prefix, fallback, disk);
    law_split_classifies(old.files, new.files, i, j);
    assert(all.updated.contains((old.files[i], new.files[j])));
    let u = choose|u: int|
        0 <= u < all.updated.len() && all.updated[u] == (old.files[i], new.files[j]);
    assert forall|end: DiffEnd, after: Disk|
        strict(end, after) implies #[trigger] loose(end, after) by {
        if end.result is Ok {
            assert(took_effect(disk, after, all.updated[u].1));
        }
    }
    lemma_achieves_weaken(
        diff_program(new, OldManifestView::Found(old), prefix, fallback),
        disk,
        strict,
        loose,
    );
}

} // verus!
