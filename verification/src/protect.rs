//! Which deltas are refused, and over which targets.
use vstd::prelude::*;

use crate::action::{Failure, Response};
use crate::apply::{activations, deactivations, failures_of};
use crate::attain::{is_dangling, law_inspection, passes_check, plain_source};
use crate::batch::{
    batch, guard_program, item_program, outcome_of, rest_of_batch, ItemView, Outcome,
};
use crate::diff::{
    after_activation, after_deactivation, after_guards, after_refreshes, delta_program, guards,
    left_to_activate, protected_of, refreshes, refused, verdict, DiffEnd, DiffFault,
};
use crate::file_util::clobbers;
use crate::manifest::FileView;
use crate::model::{
    achieves, allowed, group_achieves, is_spare, lemma_achieves_ask, lemma_achieves_bind,
    lemma_achieves_fresh, lemma_achieves_return, Disk,
};
use crate::program::{bind, Program};
use crate::split::SplitView;

verus! {

/// Whether the target of a changed entry has to be protected: something is there
/// that can be looked at, that is no link that leads nowhere, that may not be
/// thrown away, and that is not found to be as the old entry says.
pub open spec fn is_protected(
    disk: Disk,
    old_file: FileView,
    new_file: FileView,
    clobber_by_default: Option<bool>,
) -> bool {
    let key = disk.key(new_file.target);
    &&& !clobbers(new_file.clobber, clobber_by_default)
    &&& disk.has(key)
    &&& !disk.hidden.contains(key)
    &&& !is_dangling(disk, new_file.target)
    &&& !passes_check(disk, old_file)
}

/// The targets of the changed entries that have to be protected, in the order of
/// the entries.
pub open spec fn protected_targets(
    disk: Disk,
    updated: Seq<(FileView, FileView)>,
    clobber_by_default: Option<bool>,
) -> Seq<Seq<u8>>
    decreases updated.len(),
{
    if updated.len() == 0 {
        Seq::<Seq<u8>>::empty()
    } else {
        let before = protected_targets(disk, updated.drop_last(), clobber_by_default);
        let pair = updated.last();
        if is_protected(disk, pair.0, pair.1, clobber_by_default) {
            before.push(pair.1.target)
        } else {
            before
        }
    }
}

/// Whether the outcome says whether the target has to be protected.
pub open spec fn is_told(
    disk: Disk,
    pair: (FileView, FileView),
    clobber_by_default: Option<bool>,
    outcome: Outcome,
) -> bool {
    outcome == Outcome::Guarded(is_protected(disk, pair.0, pair.1, clobber_by_default))
}

/// Whether a delta was refused exactly if there are targets to protect, and over
/// just those. Nothing is said where an old copy has a link for a source: the
/// check compares with the length of the link itself.
pub open spec fn is_rightly_refused(
    disk: Disk,
    updated: Seq<(FileView, FileView)>,
    clobber_by_default: Option<bool>,
    result: Result<(), DiffFault>,
) -> bool {
    let protected = protected_targets(disk, updated, clobber_by_default);
    (forall|i: int| 0 <= i < updated.len() ==> plain_source(disk, (#[trigger] updated[i]).0))
        ==> match result {
        Err(DiffFault::ProtectedTargets(targets)) => protected.len() > 0 && targets == protected,
        _ => protected.len() == 0,
    }
}

pub(crate) proof fn effect_guard(
    pair: (FileView, FileView),
    clobber_by_default: Option<bool>,
    disk: Disk,
)
    requires
        plain_source(disk, pair.0),
    ensures
        achieves(
            guard_program(pair.0, pair.1, clobber_by_default),
            disk,
            |result: Result<Outcome, Failure>, after: Disk|
                after == disk && result == Ok::<Outcome, Failure>(
                    Outcome::Guarded(is_protected(disk, pair.0, pair.1, clobber_by_default)),
                ),
        ),
{
    broadcast use group_achieves;

    let post = |result: Result<Outcome, Failure>, after: Disk|
        after == disk && result == Ok::<Outcome, Failure>(
            Outcome::Guarded(is_protected(disk, pair.0, pair.1, clobber_by_default)),
        );
    law_inspection(pair.0, disk);
}

/// Every guard tells whether its target has to be protected, and nothing changes.
pub(crate) proof fn lemma_guards(
    updated: Seq<(FileView, FileView)>,
    done: Seq<Outcome>,
    clobber_by_default: Option<bool>,
    prefix: Seq<u8>,
    disk: Disk,
)
    requires
        done.len() <= updated.len(),
        forall|i: int| 0 <= i < updated.len() ==> plain_source(disk, (#[trigger] updated[i]).0),
        forall|i: int|
            0 <= i < done.len() ==> is_told(
                disk,
                updated[i],
                clobber_by_default,
                #[trigger] done[i],
            ),
    ensures
        achieves(
            batch(guards(updated).skip(done.len() as int), done, clobber_by_default, prefix),
            disk,
            |outcomes: Seq<Outcome>, after: Disk|
                {
                    &&& after == disk
                    &&& protected_of(guards(updated), outcomes) == protected_targets(
                        disk,
                        updated,
                        clobber_by_default,
                    )
                },
        ),
    decreases updated.len() - done.len(),
{
    broadcast use group_achieves;

    let n = done.len() as int;
    let items = guards(updated).skip(n);
    let post = |outcomes: Seq<Outcome>, after: Disk|
        {
            &&& after == disk
            &&& protected_of(guards(updated), outcomes) == protected_targets(
                disk,
                updated,
                clobber_by_default,
            )
        };
    if n < updated.len() {
        let pair = updated[n];
        let told = Outcome::Guarded(is_protected(disk, pair.0, pair.1, clobber_by_default));
        assert(items[0] == ItemView::Guard(pair.0, pair.1));
        let mid = |result: Result<Outcome, Failure>, after: Disk|
            after == disk && result == Ok::<Outcome, Failure>(
                Outcome::Guarded(is_protected(disk, pair.0, pair.1, clobber_by_default)),
            );
        effect_guard(pair, clobber_by_default, disk);
        let next = rest_of_batch(items, done, clobber_by_default, prefix);
        assert forall|result: Result<Outcome, Failure>, after: Disk| #[trigger]
            mid(result, after) implies achieves(next(result), after, post) by {
            assert(outcome_of(result) == told);
            assert(items.skip(1) =~= guards(updated).skip(n + 1));
            lemma_guards(updated, done.push(told), clobber_by_default, prefix, disk);
        }
        lemma_achieves_bind(
            item_program(items[0], clobber_by_default, prefix),
            next,
            disk,
            mid,
            post,
        );
    } else {
        assert(items.len() == 0);
        lemma_protected(updated, done, clobber_by_default, disk, n);
        assert(updated.take(n) =~= updated);
        assert(done.take(n) =~= done);
    }
}

/// The targets that the guards tell of are those that have to be protected.
proof fn lemma_protected(
    updated: Seq<(FileView, FileView)>,
    outcomes: Seq<Outcome>,
    clobber_by_default: Option<bool>,
    disk: Disk,
    count: int,
)
    requires
        0 <= count <= outcomes.len() <= updated.len(),
        forall|i: int| 0 <= i < updated.len() ==> plain_source(disk, (#[trigger] updated[i]).0),
        forall|i: int|
            0 <= i < outcomes.len() ==> is_told(
                disk,
                updated[i],
                clobber_by_default,
                #[trigger] outcomes[i],
            ),
    ensures
        protected_of(guards(updated), outcomes.take(count)) == protected_targets(
            disk,
            updated.take(count),
            clobber_by_default,
        ),
    decreases count,
{
    if count > 0 {
        lemma_protected(updated, outcomes, clobber_by_default, disk, count - 1);
        assert(outcomes.take(count).drop_last() =~= outcomes.take(count - 1));
        assert(updated.take(count).drop_last() =~= updated.take(count - 1));
        assert(outcomes.take(count).last() == outcomes[count - 1]);
        assert(updated.take(count).last() == updated[count - 1]);
    }
}

/// Which targets have to be protected, in words that speak of each: a target is
/// among them exactly if it is that of a changed entry that has to be protected.
pub proof fn law_protected_targets(
    disk: Disk,
    updated: Seq<(FileView, FileView)>,
    clobber_by_default: Option<bool>,
    target: Seq<u8>,
)
    ensures
        protected_targets(disk, updated, clobber_by_default).contains(target) <==> exists|i: int|
            0 <= i < updated.len() && (#[trigger] updated[i]).1.target == target && is_protected(
                disk,
                updated[i].0,
                updated[i].1,
                clobber_by_default,
            ),
    decreases updated.len(),
{
    let all = protected_targets(disk, updated, clobber_by_default);
    if updated.len() > 0 {
        let front = updated.drop_last();
        let before = protected_targets(disk, front, clobber_by_default);
        law_protected_targets(disk, front, clobber_by_default, target);
        if before.contains(target) {
            let at = choose|at: int| 0 <= at < before.len() && before[at] == target;
            assert(all[at] == target);
            let i = choose|i: int|
                0 <= i < front.len() && (#[trigger] front[i]).1.target == target && is_protected(
                    disk,
                    front[i].0,
                    front[i].1,
                    clobber_by_default,
                );
            assert(updated[i] == front[i]);
        }
        let pair = updated.last();
        if is_protected(disk, pair.0, pair.1, clobber_by_default) {
            assert(all[all.len() - 1] == pair.1.target);
        }
        if all.contains(target) && !before.contains(target) {
            let at = choose|at: int| 0 <= at < all.len() && all[at] == target;
            assert(at < before.len() ==> before[at] == target);
            assert(updated[updated.len() - 1] == pair);
        }
        if exists|i: int|
            0 <= i < updated.len() && (#[trigger] updated[i]).1.target == target && is_protected(
                disk,
                updated[i].0,
                updated[i].1,
                clobber_by_default,
            ) {
            let i = choose|i: int|
                0 <= i < updated.len() && (#[trigger] updated[i]).1.target == target
                    && is_protected(disk, updated[i].0, updated[i].1, clobber_by_default);
            if i < front.len() {
                assert(front[i] == updated[i]);
            }
        }
    }
}

/// Something always comes of a program.
proof fn lemma_achieves_anything<R>(
    program: Program<R>,
    disk: Disk,
    post: spec_fn(R, Disk) -> bool,
)
    requires
        forall|value: R, after: Disk| #[trigger] post(value, after),
    ensures
        achieves(program, disk, post),
    decreases program,
{
    broadcast use {lemma_achieves_return, lemma_achieves_ask, lemma_achieves_fresh};

    match program {
        Program::Return(value) => {
            assert(program == Program::Return(value));
            assert(post(value, disk));
        },
        Program::Ask(request, go) => {
            assert forall|reply: Response, after: Disk| #[trigger]
                allowed(disk, request, reply, after) implies achieves(go(reply), after, post) by {
                lemma_achieves_anything(go(reply), after, post);
            }
            assert(achieves(Program::Ask(request, go), disk, post));
        },
        Program::Fresh(target, candidate, go) => {
            assert forall|path: Seq<u8>| is_spare(disk, path, target) implies achieves(
                #[trigger] go(path),
                disk,
                post,
            ) by {
                lemma_achieves_anything(go(path), disk, post);
            }
            assert(achieves(Program::Fresh(target, candidate, go), disk, post));
        },
    }
}

/// Whatever a program comes to, its continuation can only end as `post` says, if
/// it does so from everywhere.
pub(crate) proof fn lemma_from_everywhere<A, B>(
    first: Program<A>,
    next: spec_fn(A) -> Program<B>,
    disk: Disk,
    post: spec_fn(B, Disk) -> bool,
)
    requires
        forall|value: A, after: Disk| #[trigger] achieves(next(value), after, post),
    ensures
        achieves(bind(first, next), disk, post),
{
    let any = |value: A, after: Disk| true;
    lemma_achieves_anything(first, disk, any);
    assert forall|value: A, after: Disk| #[trigger] any(value, after) implies achieves(
        next(value),
        after,
        post,
    ) by {}
    lemma_achieves_bind(first, next, disk, any, post);
}

/// Once the guards are past, a delta is not refused any more.
proof fn lemma_not_refused(
    parts: SplitView,
    clobber_by_default: Option<bool>,
    prefix: Seq<u8>,
    disk: Disk,
    post: spec_fn(DiffEnd, Disk) -> bool,
)
    requires
        forall|end: DiffEnd, after: Disk|
            !(end.result matches Err(DiffFault::ProtectedTargets(_))) ==> #[trigger] post(
                end,
                after,
            ),
    ensures
        achieves(
            bind(
                batch(
                    deactivations(parts.removed),
                    Seq::<Outcome>::empty(),
                    clobber_by_default,
                    prefix,
                ),
                after_deactivation(parts, clobber_by_default, prefix),
            ),
            disk,
            post,
        ),
{
    broadcast use lemma_achieves_return;

    let none = Seq::<Outcome>::empty();
    let taken = after_deactivation(parts, clobber_by_default, prefix);
    assert forall|gone: Seq<Outcome>, between: Disk| #[trigger] achieves(
        taken(gone),
        between,
        post,
    ) by {
        let failed = failures_of(deactivations(parts.removed), gone);
        let replaced = after_refreshes(parts, failed, clobber_by_default, prefix);
        assert forall|outcomes: Seq<Outcome>, now: Disk| #[trigger] achieves(
            replaced(outcomes),
            now,
            post,
        ) by {
            let left = left_to_activate(parts, outcomes, clobber_by_default);
            let failures = failed + failures_of(refreshes(parts.updated), outcomes);
            let last = after_activation(activations(left), failures);
            assert forall|end: Seq<Outcome>, after: Disk| #[trigger] achieves(
                last(end),
                after,
                post,
            ) by {
                let over = last(end)->Return_0;
                assert(last(end) == Program::Return(over));
                assert(over.result == verdict(failures + failures_of(activations(left), end)));
                assert(post(over, after));
            }
            lemma_from_everywhere(
                batch(activations(left), none, clobber_by_default, prefix),
                last,
                now,
                post,
            );
        }
        lemma_from_everywhere(
            batch(refreshes(parts.updated), none, clobber_by_default, prefix),
            replaced,
            between,
            post,
        );
    }
    lemma_from_everywhere(
        batch(deactivations(parts.removed), none, clobber_by_default, prefix),
        taken,
        disk,
        post,
    );
}

/// A delta is refused exactly if the target of a changed entry has to be
/// protected; it names those targets in the order of the entries, and has changed
/// nothing then. The sources of the old copies must be no links.
pub proof fn law_delta_refused(
    parts: SplitView,
    clobber_by_default: Option<bool>,
    prefix: Seq<u8>,
    disk: Disk,
)
    requires
        forall|i: int|
            0 <= i < parts.updated.len() ==> plain_source(disk, (#[trigger] parts.updated[i]).0),
    ensures
        achieves(
            delta_program(parts, clobber_by_default, prefix),
            disk,
            |end: DiffEnd, after: Disk|
                {
                    &&& is_rightly_refused(disk, parts.updated, clobber_by_default, end.result)
                    &&& end.result matches Err(DiffFault::ProtectedTargets(_)) ==> after == disk
                },
        ),
{
    broadcast use lemma_achieves_return;

    let none = Seq::<Outcome>::empty();
    let items = guards(parts.updated);
    let post = |end: DiffEnd, after: Disk|
        {
            &&& is_rightly_refused(disk, parts.updated, clobber_by_default, end.result)
            &&& end.result matches Err(DiffFault::ProtectedTargets(_)) ==> after == disk
        };
    let told = |outcomes: Seq<Outcome>, after: Disk|
        {
            &&& after == disk
            &&& protected_of(guards(parts.updated), outcomes) == protected_targets(
                disk,
                parts.updated,
                clobber_by_default,
            )
        };
    assert(items.skip(0) =~= items);
    lemma_guards(parts.updated, none, clobber_by_default, prefix, disk);
    let next = after_guards(parts, clobber_by_default, prefix);
    assert forall|outcomes: Seq<Outcome>, after: Disk| #[trigger] told(
        outcomes,
        after,
    ) implies achieves(next(outcomes), after, post) by {
        let protected = protected_of(items, outcomes);
        if protected.len() > 0 {
            assert(next(outcomes) == Program::Return(
                refused(DiffFault::ProtectedTargets(protected)),
            ));
        } else {
            lemma_not_refused(parts, clobber_by_default, prefix, after, post);
        }
    }
    lemma_achieves_bind(
        batch(items, none, clobber_by_default, prefix),
        next,
        disk,
        told,
        post,
    );
}

} // verus!
