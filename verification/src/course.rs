//! How the course of many pieces of work follows from that of each.
use vstd::prelude::*;

use crate::action::{Action, Failure, Fault, Response};
use crate::apply::{activations, deactivations, failures_of};
use crate::attain::is_skipped;
use crate::batch::{
    activation_program, batch, finished, item_program, outcome_of, rest_of_batch, ItemView, Outcome,
    Refresh,
};
use crate::diff::{
    after_activation, after_deactivation, after_guards, after_refreshes, delta_program,
    diff_program, finale, forced, guards, kept_of, left_to_activate, protected_of, refreshes,
    DiffEnd, DiffFault, OldManifestView,
};
use crate::file_util::{activate_program, clobbers, proceed_program};
use crate::leftover::lemma_in_order_members;
use crate::manifest::{takes_source, FileView, ManifestView};
use crate::model::{
    achieves, allowed, group_achieves, is_spare, lemma_achieves_ask, lemma_achieves_bind,
    lemma_achieves_fresh, lemma_achieves_return, lemma_achieves_weaken, Disk,
};
use crate::order::{in_order, law_order_permutes};
use crate::program::{bind, metadata_in, Program};
use crate::protect::lemma_from_everywhere;
use crate::progress::{
    completes, group_completes, is_granted, lemma_completes_bind, lemma_completes_return,
    lemma_completes_weaken,
};
use crate::read::ReadErrorView;
use crate::split::SplitView;
use crate::success::{can_activate, law_activation_succeeds};

verus! {

/// Whether a piece of work, started on any disk of a family, asks only for what
/// can be done, stays in the family, and comes to a good outcome.
pub open spec fn goes_well(
    item: ItemView,
    clobber_by_default: Option<bool>,
    prefix: Seq<u8>,
    family: spec_fn(Disk) -> bool,
    good: spec_fn(ItemView, Outcome) -> bool,
) -> bool {
    forall|disk: Disk| #[trigger]
        family(disk) ==> completes(
            item_program(item, clobber_by_default, prefix),
            disk,
            |result: Result<Outcome, Failure>, after: Disk|
                family(after) && good(item, outcome_of(result)),
        )
}

/// A batch whose pieces of work each go well goes well as a whole: each piece gets
/// its outcome, in order, behind those that were there before, and it is good for
/// that piece.
pub proof fn law_batch_goes_well(
    items: Seq<ItemView>,
    done: Seq<Outcome>,
    clobber_by_default: Option<bool>,
    prefix: Seq<u8>,
    family: spec_fn(Disk) -> bool,
    good: spec_fn(ItemView, Outcome) -> bool,
    disk: Disk,
)
    requires
        family(disk),
        forall|i: int|
            0 <= i < items.len() ==> goes_well(
                #[trigger] items[i],
                clobber_by_default,
                prefix,
                family,
                good,
            ),
    ensures
        completes(
            batch(items, done, clobber_by_default, prefix),
            disk,
            |outcomes: Seq<Outcome>, after: Disk|
                {
                    &&& family(after)
                    &&& outcomes.len() == done.len() + items.len()
                    &&& forall|i: int|
                        0 <= i < done.len() ==> #[trigger] outcomes[i] == done[i]
                    &&& forall|i: int|
                        0 <= i < items.len() ==> good(
                            #[trigger] items[i],
                            outcomes[done.len() + i],
                        )
                },
        ),
    decreases items.len(),
{
    broadcast use group_completes;

    let post = |outcomes: Seq<Outcome>, after: Disk|
        {
            &&& family(after)
            &&& outcomes.len() == done.len() + items.len()
            &&& forall|i: int| 0 <= i < done.len() ==> #[trigger] outcomes[i] == done[i]
            &&& forall|i: int|
                0 <= i < items.len() ==> good(#[trigger] items[i], outcomes[done.len() + i])
        };
    if items.len() > 0 {
        let mid = |result: Result<Outcome, Failure>, after: Disk|
            family(after) && good(items[0], outcome_of(result));
        let next = rest_of_batch(items, done, clobber_by_default, prefix);
        assert(goes_well(items[0], clobber_by_default, prefix, family, good));
        assert forall|result: Result<Outcome, Failure>, after: Disk| #[trigger] mid(
            result,
            after,
        ) implies completes(next(result), after, post) by {
            let longer = done.push(outcome_of(result));
            let rest = items.skip(1);
            assert forall|i: int| 0 <= i < rest.len() implies goes_well(
                #[trigger] rest[i],
                clobber_by_default,
                prefix,
                family,
                good,
            ) by {
                assert(rest[i] == items[i + 1]);
            }
            law_batch_goes_well(rest, longer, clobber_by_default, prefix, family, good, after);
            let strict = |outcomes: Seq<Outcome>, end: Disk|
                {
                    &&& family(end)
                    &&& outcomes.len() == longer.len() + rest.len()
                    &&& forall|i: int|
                        0 <= i < longer.len() ==> #[trigger] outcomes[i] == longer[i]
                    &&& forall|i: int|
                        0 <= i < rest.len() ==> good(
                            #[trigger] rest[i],
                            outcomes[longer.len() + i],
                        )
                };
            assert forall|outcomes: Seq<Outcome>, end: Disk|
                strict(outcomes, end) implies #[trigger] post(outcomes, end) by {
                assert(outcomes[done.len() as int] == longer[done.len() as int]);
                assert forall|i: int| 0 <= i < done.len() implies #[trigger] outcomes[i]
                    == done[i] by {
                    assert(outcomes[i] == longer[i]);
                }
                assert forall|i: int| 0 <= i < items.len() implies good(
                    #[trigger] items[i],
                    outcomes[done.len() + i],
                ) by {
                    if i > 0 {
                        assert(rest[i - 1] == items[i]);
                        assert(good(rest[i - 1], outcomes[longer.len() + i - 1]));
                    }
                }
            }
            lemma_completes_weaken(
                batch(rest, longer, clobber_by_default, prefix),
                after,
                strict,
                post,
            );
        }
        lemma_completes_bind(
            item_program(items[0], clobber_by_default, prefix),
            next,
            disk,
            mid,
            post,
        );
    }
}

/// Work that goes well is work without failures.
proof fn lemma_no_failures(items: Seq<ItemView>, outcomes: Seq<Outcome>)
    requires
        forall|i: int|
            0 <= i < outcomes.len() ==> !(#[trigger] outcomes[i] matches Outcome::Finished(Err(_)))
                && !(outcomes[i] matches Outcome::Refreshed(Refresh::Failed(_))),
    ensures
        failures_of(items, outcomes).len() == 0,
    decreases outcomes.len(),
{
    if outcomes.len() > 0 {
        let front = outcomes.drop_last();
        assert forall|i: int| 0 <= i < front.len() implies !(
        #[trigger] front[i] matches Outcome::Finished(Err(_))) && !(
        front[i] matches Outcome::Refreshed(Refresh::Failed(_))) by {
            assert(front[i] == outcomes[i]);
        }
        lemma_no_failures(items, front);
        assert(outcomes.last() == outcomes[outcomes.len() - 1]);
    }
}

/// Whether a piece of work, started on any disk of a family, stays in the family
/// and comes to a fitting outcome, whether what it asks for is done or not.
pub open spec fn ends_well(
    item: ItemView,
    clobber_by_default: Option<bool>,
    prefix: Seq<u8>,
    family: spec_fn(Disk) -> bool,
    fitting: spec_fn(ItemView, Outcome) -> bool,
) -> bool {
    forall|disk: Disk| #[trigger]
        family(disk) ==> achieves(
            item_program(item, clobber_by_default, prefix),
            disk,
            |result: Result<Outcome, Failure>, after: Disk|
                family(after) && fitting(item, outcome_of(result)),
        )
}

/// Each piece of work of a batch comes to an outcome of its own, whatever became
/// of the others: what is a fitting outcome of a piece alone is one in the batch.
pub proof fn law_batch_works_off_each(
    items: Seq<ItemView>,
    done: Seq<Outcome>,
    clobber_by_default: Option<bool>,
    prefix: Seq<u8>,
    family: spec_fn(Disk) -> bool,
    fitting: spec_fn(ItemView, Outcome) -> bool,
    disk: Disk,
)
    requires
        family(disk),
        forall|i: int|
            0 <= i < items.len() ==> ends_well(
                #[trigger] items[i],
                clobber_by_default,
                prefix,
                family,
                fitting,
            ),
    ensures
        achieves(
            batch(items, done, clobber_by_default, prefix),
            disk,
            |outcomes: Seq<Outcome>, after: Disk|
                {
                    &&& family(after)
                    &&& outcomes.len() == done.len() + items.len()
                    &&& forall|i: int|
                        0 <= i < done.len() ==> #[trigger] outcomes[i] == done[i]
                    &&& forall|i: int|
                        0 <= i < items.len() ==> fitting(
                            #[trigger] items[i],
                            outcomes[done.len() + i],
                        )
                },
        ),
    decreases items.len(),
{
    broadcast use group_achieves;

    let post = |outcomes: Seq<Outcome>, after: Disk|
        {
            &&& family(after)
            &&& outcomes.len() == done.len() + items.len()
            &&& forall|i: int| 0 <= i < done.len() ==> #[trigger] outcomes[i] == done[i]
            &&& forall|i: int|
                0 <= i < items.len() ==> fitting(#[trigger] items[i], outcomes[done.len() + i])
        };
    if items.len() > 0 {
        let mid = |result: Result<Outcome, Failure>, after: Disk|
            family(after) && fitting(items[0], outcome_of(result));
        let next = rest_of_batch(items, done, clobber_by_default, prefix);
        assert(ends_well(items[0], clobber_by_default, prefix, family, fitting));
        assert forall|result: Result<Outcome, Failure>, after: Disk| #[trigger] mid(
            result,
            after,
        ) implies achieves(next(result), after, post) by {
            let longer = done.push(outcome_of(result));
            let rest = items.skip(1);
            assert forall|i: int| 0 <= i < rest.len() implies ends_well(
                #[trigger] rest[i],
                clobber_by_default,
                prefix,
                family,
                fitting,
            ) by {
                assert(rest[i] == items[i + 1]);
            }
            law_batch_works_off_each(
                rest,
                longer,
                clobber_by_default,
                prefix,
                family,
                fitting,
                after,
            );
            let strict = |outcomes: Seq<Outcome>, end: Disk|
                {
                    &&& family(end)
                    &&& outcomes.len() == longer.len() + rest.len()
                    &&& forall|i: int|
                        0 <= i < longer.len() ==> #[trigger] outcomes[i] == longer[i]
                    &&& forall|i: int|
                        0 <= i < rest.len() ==> fitting(
                            #[trigger] rest[i],
                            outcomes[longer.len() + i],
                        )
                };
            assert forall|outcomes: Seq<Outcome>, end: Disk|
                strict(outcomes, end) implies #[trigger] post(outcomes, end) by {
                assert(outcomes[done.len() as int] == longer[done.len() as int]);
                assert forall|i: int| 0 <= i < done.len() implies #[trigger] outcomes[i]
                    == done[i] by {
                    assert(outcomes[i] == longer[i]);
                }
                assert forall|i: int| 0 <= i < items.len() implies fitting(
                    #[trigger] items[i],
                    outcomes[done.len() + i],
                ) by {
                    if i > 0 {
                        assert(rest[i - 1] == items[i]);
                        assert(fitting(rest[i - 1], outcomes[longer.len() + i - 1]));
                    }
                }
            }
            lemma_achieves_weaken(
                batch(rest, longer, clobber_by_default, prefix),
                after,
                strict,
                post,
            );
        }
        lemma_achieves_bind(
            item_program(items[0], clobber_by_default, prefix),
            next,
            disk,
            mid,
            post,
        );
    }
}

/// The piece of work that activates an entry goes well where nothing stands in the
/// way of its activation.
pub proof fn law_entry_goes_well(
    file: FileView,
    clobber_by_default: Option<bool>,
    prefix: Seq<u8>,
    disk: Disk,
)
    requires
        is_skipped(disk, file) || can_activate(
            disk,
            file,
            clobbers(file.clobber, clobber_by_default),
            prefix,
        ),
    ensures
        completes(
            item_program(ItemView::Activate(file), clobber_by_default, prefix),
            disk,
            |result: Result<Outcome, Failure>, after: Disk|
                {
                    &&& result matches Ok(outcome)
                    &&& outcome == Outcome::Finished(Ok(())) || outcome is Skipped
                    &&& outcome is Skipped <==> is_skipped(disk, file)
                },
        ),
{
    broadcast use group_completes;

    reveal_with_fuel(bind, 2);
    let effect = |done: Result<(), Failure>, after: Disk| done is Ok;
    let post = |result: Result<Outcome, Failure>, after: Disk|
        {
            &&& result matches Ok(outcome)
            &&& outcome == Outcome::Finished(Ok(())) || outcome is Skipped
            &&& outcome is Skipped <==> is_skipped(disk, file)
        };
    let go = proceed_program(file, clobber_by_default, prefix);
    let whole = activate_program(file, clobber_by_default, prefix);
    law_activation_succeeds(file, clobber_by_default, prefix, disk);
    if !is_skipped(disk, file) {
        assert forall|after: Disk| #[trigger] completes(
            go,
            after,
            effect,
        ) implies completes(finished(go), after, post) by {
            assert forall|done: Result<(), Failure>, end: Disk| #[trigger] effect(
                done,
                end,
            ) implies post(Ok(Outcome::Finished(done)), end) by {
                let unit = done->Ok_0;
                assert(done == Ok::<(), Failure>(unit));
                assert(unit == ());
            }
            lemma_completes_bind(
                go,
                |done: Result<(), Failure>|
                    Program::Return(Ok::<Outcome, Failure>(Outcome::Finished(done))),
                after,
                effect,
                post,
            );
        }
    }
    if takes_source(file.kind) && file.source is Some {
        let item = activation_program(file, clobber_by_default, prefix);
        let request = Action::SymlinkMetadata(file.source->0);
        let one = whole->Ask_1;
        let other = item->Ask_1;
        assert(whole == Program::Ask(request, one));
        assert(item == Program::Ask(request, other));
        assert forall|reply: Response, after: Disk| #[trigger]
            allowed(disk, request, reply, after) && is_granted(request, reply) implies completes(
            other(reply),
            after,
            post,
        ) by {
            assert(completes(one(reply), after, effect));
            assert(after == disk);
            let skips = match metadata_in(reply) {
                Ok(metadata) => file.kind is Copy && !(metadata.node is File),
                Err(fault) => fault is NotFound,
            };
            if skips {
                assert(is_skipped(disk, file));
            } else {
                assert(!is_skipped(disk, file));
                assert(one(reply) == go);
                assert(other(reply) == finished(go));
            }
        }
    }
}

/// Whether an outcome is none of the failures.
pub open spec fn no_failure() -> spec_fn(ItemView, Outcome) -> bool {
    |item: ItemView, outcome: Outcome|
        {
            &&& !(outcome matches Outcome::Finished(Err(_)))
            &&& !(outcome matches Outcome::Refreshed(Refresh::Failed(_)))
        }
}

/// Whether an outcome says that nothing has to be protected.
pub open spec fn no_protection() -> spec_fn(ItemView, Outcome) -> bool {
    |item: ItemView, outcome: Outcome| outcome != Outcome::Guarded(true)
}

proof fn lemma_nothing_protected(items: Seq<ItemView>, outcomes: Seq<Outcome>)
    requires
        forall|i: int| 0 <= i < outcomes.len() ==> #[trigger] outcomes[i] != Outcome::Guarded(true),
    ensures
        protected_of(items, outcomes).len() == 0,
    decreases outcomes.len(),
{
    if outcomes.len() > 0 {
        let front = outcomes.drop_last();
        assert forall|i: int| 0 <= i < front.len() implies #[trigger] front[i] != Outcome::Guarded(
            true,
        ) by {
            assert(front[i] == outcomes[i]);
        }
        lemma_nothing_protected(items, front);
        assert(outcomes.last() == outcomes[outcomes.len() - 1]);
    }
}

/// What is left of a changed entry is the entry, or the entry made to throw away
/// what is at its target.
proof fn lemma_kept_of(
    updated: Seq<(FileView, FileView)>,
    outcomes: Seq<Outcome>,
    clobber_by_default: Option<bool>,
)
    requires
        outcomes.len() <= updated.len(),
    ensures
        forall|a: int|
            0 <= a < kept_of(updated, outcomes, clobber_by_default).len() ==> stems(
                updated,
                clobber_by_default,
                #[trigger] kept_of(updated, outcomes, clobber_by_default)[a],
            ),
    decreases outcomes.len(),
{
    if outcomes.len() > 0 {
        let n = outcomes.len() - 1;
        lemma_kept_of(updated, outcomes.drop_last(), clobber_by_default);
        assert(updated[n].1 == updated[n].1);
        let before = kept_of(updated, outcomes.drop_last(), clobber_by_default);
        let all = kept_of(updated, outcomes, clobber_by_default);
        assert forall|a: int| 0 <= a < all.len() implies stems(
            updated,
            clobber_by_default,
            #[trigger] all[a],
        ) by {
            if a < before.len() {
                assert(all[a] == before[a]);
            } else {
                assert(all[a] == updated[n].1 || all[a] == forced(
                    updated[n].1,
                    clobber_by_default,
                ));
            }
        }
    }
}

spec fn stems(
    updated: Seq<(FileView, FileView)>,
    clobber_by_default: Option<bool>,
    file: FileView,
) -> bool {
    exists|i: int|
        0 <= i < updated.len() && ((#[trigger] updated[i]).1 == file || forced(
            updated[i].1,
            clobber_by_default,
        ) == file)
}

proof fn lemma_activations_go_well(
    files: Seq<FileView>,
    clobber_by_default: Option<bool>,
    prefix: Seq<u8>,
    family: spec_fn(Disk) -> bool,
    good: spec_fn(ItemView, Outcome) -> bool,
)
    requires
        forall|i: int|
            0 <= i < files.len() ==> goes_well(
                ItemView::Activate(#[trigger] files[i]),
                clobber_by_default,
                prefix,
                family,
                good,
            ),
    ensures
        forall|i: int|
            0 <= i < activations(files).len() ==> goes_well(
                #[trigger] activations(files)[i],
                clobber_by_default,
                prefix,
                family,
                good,
            ),
{
    lemma_in_order_members(files);
    law_order_permutes(files);
    assert forall|i: int| 0 <= i < activations(files).len() implies goes_well(
        #[trigger] activations(files)[i],
        clobber_by_default,
        prefix,
        family,
        good,
    ) by {
        let file = in_order(files)[i];
        assert(files.contains(file));
        let at = choose|at: int| 0 <= at < files.len() && files[at] == file;
        assert(goes_well(
            ItemView::Activate(files[at]),
            clobber_by_default,
            prefix,
            family,
            good,
        ));
    }
}

/// When every entry of a manifest goes well, whatever the others have done before,
/// activating the manifest brings no failures.
pub proof fn law_manifest_goes_well(
    files: Seq<FileView>,
    clobber_by_default: Option<bool>,
    prefix: Seq<u8>,
    family: spec_fn(Disk) -> bool,
    disk: Disk,
)
    requires
        family(disk),
        forall|i: int|
            0 <= i < files.len() ==> goes_well(
                ItemView::Activate(#[trigger] files[i]),
                clobber_by_default,
                prefix,
                family,
                no_failure(),
            ),
    ensures
        completes(
            batch(activations(files), Seq::<Outcome>::empty(), clobber_by_default, prefix),
            disk,
            |outcomes: Seq<Outcome>, after: Disk|
                {
                    &&& outcomes.len() == files.len()
                    &&& failures_of(activations(files), outcomes).len() == 0
                    &&& family(after)
                },
        ),
{
    let none = Seq::<Outcome>::empty();
    let items = activations(files);
    lemma_activations_go_well(files, clobber_by_default, prefix, family, no_failure());
    law_order_permutes(files);
    law_batch_goes_well(items, none, clobber_by_default, prefix, family, no_failure(), disk);
    let strict = |outcomes: Seq<Outcome>, after: Disk|
        {
            &&& family(after)
            &&& outcomes.len() == none.len() + items.len()
            &&& forall|i: int| 0 <= i < none.len() ==> #[trigger] outcomes[i] == none[i]
            &&& forall|i: int|
                0 <= i < items.len() ==> no_failure()(#[trigger] items[i], outcomes[none.len() + i])
        };
    let loose = |outcomes: Seq<Outcome>, after: Disk|
        {
            &&& outcomes.len() == files.len()
            &&& failures_of(activations(files), outcomes).len() == 0
            &&& family(after)
        };
    assert forall|outcomes: Seq<Outcome>, after: Disk|
        strict(outcomes, after) implies #[trigger] loose(outcomes, after) by {
        assert forall|i: int| 0 <= i < outcomes.len() implies !(
        #[trigger] outcomes[i] matches Outcome::Finished(Err(_))) && !(
        outcomes[i] matches Outcome::Refreshed(Refresh::Failed(_))) by {
            assert(no_failure()(items[i], outcomes[none.len() + i]));
        }
        lemma_no_failures(items, outcomes);
    }
    lemma_completes_weaken(
        batch(items, none, clobber_by_default, prefix),
        disk,
        strict,
        loose,
    );
}

/// Whether what a delta is made of goes well: no target has to be protected, what
/// was removed can be taken away, what was changed can be looked at, and what is
/// new, changed or unchanged can be activated.
pub open spec fn delta_parts_go_well(
    parts: SplitView,
    clobber_by_default: Option<bool>,
    prefix: Seq<u8>,
    family: spec_fn(Disk) -> bool,
) -> bool {
    &&& forall|i: int|
        0 <= i < parts.updated.len() ==> {
            let pair = #[trigger] parts.updated[i];
            let good = no_failure();
            &&& goes_well(
                ItemView::Guard(pair.0, pair.1),
                clobber_by_default,
                prefix,
                family,
                no_protection(),
            )
            &&& goes_well(ItemView::Refresh(pair.1), clobber_by_default, prefix, family, good)
            &&& goes_well(ItemView::Activate(pair.1), clobber_by_default, prefix, family, good)
            &&& goes_well(
                ItemView::Activate(forced(pair.1, clobber_by_default)),
                clobber_by_default,
                prefix,
                family,
                good,
            )
        }
    &&& forall|i: int|
        0 <= i < parts.removed.len() ==> goes_well(
            ItemView::Deactivate(#[trigger] parts.removed[i]),
            clobber_by_default,
            prefix,
            family,
            no_failure(),
        )
    &&& forall|i: int|
        0 <= i < parts.fresh.len() ==> goes_well(
            ItemView::Activate(#[trigger] parts.fresh[i]),
            clobber_by_default,
            prefix,
            family,
            no_failure(),
        )
    &&& forall|i: int|
        0 <= i < parts.same.len() ==> goes_well(
            ItemView::Activate(#[trigger] parts.same[i]),
            clobber_by_default,
            prefix,
            family,
            no_failure(),
        )
}

proof fn lemma_run_without_failures(
    items: Seq<ItemView>,
    clobber_by_default: Option<bool>,
    prefix: Seq<u8>,
    family: spec_fn(Disk) -> bool,
    disk: Disk,
)
    requires
        family(disk),
        forall|i: int|
            0 <= i < items.len() ==> goes_well(
                #[trigger] items[i],
                clobber_by_default,
                prefix,
                family,
                no_failure(),
            ),
    ensures
        completes(
            batch(items, Seq::<Outcome>::empty(), clobber_by_default, prefix),
            disk,
            |outcomes: Seq<Outcome>, after: Disk|
                {
                    &&& family(after)
                    &&& outcomes.len() == items.len()
                    &&& failures_of(items, outcomes).len() == 0
                },
        ),
{
    let none = Seq::<Outcome>::empty();
    law_batch_goes_well(items, none, clobber_by_default, prefix, family, no_failure(), disk);
    let strict = |outcomes: Seq<Outcome>, after: Disk|
        {
            &&& family(after)
            &&& outcomes.len() == none.len() + items.len()
            &&& forall|i: int| 0 <= i < none.len() ==> #[trigger] outcomes[i] == none[i]
            &&& forall|i: int|
                0 <= i < items.len() ==> no_failure()(#[trigger] items[i], outcomes[none.len() + i])
        };
    let loose = |outcomes: Seq<Outcome>, after: Disk|
        {
            &&& family(after)
            &&& outcomes.len() == items.len()
            &&& failures_of(items, outcomes).len() == 0
        };
    assert forall|outcomes: Seq<Outcome>, after: Disk|
        strict(outcomes, after) implies #[trigger] loose(outcomes, after) by {
        assert forall|i: int| 0 <= i < outcomes.len() implies !(
        #[trigger] outcomes[i] matches Outcome::Finished(Err(_))) && !(
        outcomes[i] matches Outcome::Refreshed(Refresh::Failed(_))) by {
            assert(no_failure()(items[i], outcomes[none.len() + i]));
        }
        lemma_no_failures(items, outcomes);
    }
    lemma_completes_weaken(
        batch(items, none, clobber_by_default, prefix),
        disk,
        strict,
        loose,
    );
}

proof fn lemma_finale_goes_well(
    files: Seq<FileView>,
    failures: Seq<(Seq<u8>, Failure)>,
    clobber_by_default: Option<bool>,
    prefix: Seq<u8>,
    family: spec_fn(Disk) -> bool,
    disk: Disk,
    post: spec_fn(DiffEnd, Disk) -> bool,
)
    requires
        family(disk),
        failures.len() == 0,
        forall|i: int|
            0 <= i < files.len() ==> goes_well(
                ItemView::Activate(#[trigger] files[i]),
                clobber_by_default,
                prefix,
                family,
                no_failure(),
            ),
        forall|end: DiffEnd, after: Disk|
            end.result == Ok::<(), DiffFault>(()) ==> #[trigger] post(end, after),
    ensures
        completes(finale(files, failures, clobber_by_default, prefix), disk, post),
{
    broadcast use lemma_completes_return;

    let items = activations(files);
    let none = Seq::<Outcome>::empty();
    let mid = |outcomes: Seq<Outcome>, after: Disk|
        {
            &&& family(after)
            &&& outcomes.len() == items.len()
            &&& failures_of(items, outcomes).len() == 0
        };
    let next = after_activation(items, failures);
    lemma_activations_go_well(files, clobber_by_default, prefix, family, no_failure());
    lemma_run_without_failures(items, clobber_by_default, prefix, family, disk);
    assert forall|outcomes: Seq<Outcome>, after: Disk| #[trigger] mid(
        outcomes,
        after,
    ) implies completes(next(outcomes), after, post) by {
        let end = next(outcomes)->Return_0;
        assert(next(outcomes) == Program::Return(end));
        assert(post(end, after));
    }
    lemma_completes_bind(
        batch(items, none, clobber_by_default, prefix),
        next,
        disk,
        mid,
        post,
    );
}

/// A delta whose parts go well succeeds.
pub proof fn law_delta_goes_well(
    parts: SplitView,
    clobber_by_default: Option<bool>,
    prefix: Seq<u8>,
    family: spec_fn(Disk) -> bool,
    disk: Disk,
)
    requires
        family(disk),
        delta_parts_go_well(parts, clobber_by_default, prefix, family),
    ensures
        completes(
            delta_program(parts, clobber_by_default, prefix),
            disk,
            |end: DiffEnd, after: Disk| end.result == Ok::<(), DiffFault>(()),
        ),
{
    let none = Seq::<Outcome>::empty();
    let post = |end: DiffEnd, after: Disk| end.result == Ok::<(), DiffFault>(());
    let guarding = guards(parts.updated);
    let removing = deactivations(parts.removed);
    let replacing = refreshes(parts.updated);
    lemma_in_order_members(parts.removed);
    assert forall|i: int| 0 <= i < removing.len() implies goes_well(
        #[trigger] removing[i],
        clobber_by_default,
        prefix,
        family,
        no_failure(),
    ) by {
        let order = in_order(parts.removed);
        let file = order[order.len() - 1 - i];
        assert(parts.removed.contains(file));
        let at = choose|at: int| 0 <= at < parts.removed.len() && parts.removed[at] == file;
        assert(removing[i] == ItemView::Deactivate(parts.removed[at]));
    }
    assert forall|i: int| 0 <= i < replacing.len() implies goes_well(
        #[trigger] replacing[i],
        clobber_by_default,
        prefix,
        family,
        no_failure(),
    ) by {
        assert(replacing[i] == ItemView::Refresh(parts.updated[i].1));
    }
    assert forall|i: int| 0 <= i < guarding.len() implies goes_well(
        #[trigger] guarding[i],
        clobber_by_default,
        prefix,
        family,
        no_protection(),
    ) by {
        assert(guarding[i] == ItemView::Guard(parts.updated[i].0, parts.updated[i].1));
    }
    let smooth = |items: Seq<ItemView>|
        |outcomes: Seq<Outcome>, after: Disk|
            {
                &&& family(after)
                &&& outcomes.len() == items.len()
                &&& failures_of(items, outcomes).len() == 0
            };
    let taken = after_deactivation(parts, clobber_by_default, prefix);
    assert forall|between: Disk| #[trigger] family(between) implies completes(
        bind(batch(removing, none, clobber_by_default, prefix), taken),
        between,
        post,
    ) by {
        lemma_run_without_failures(removing, clobber_by_default, prefix, family, between);
        let gone_well = smooth(removing);
        assert forall|gone: Seq<Outcome>, now: Disk| #[trigger] gone_well(
            gone,
            now,
        ) implies completes(taken(gone), now, post) by {
            let failed = failures_of(removing, gone);
            let replaced = after_refreshes(parts, failed, clobber_by_default, prefix);
            lemma_run_without_failures(replacing, clobber_by_default, prefix, family, now);
            let replaced_well = smooth(replacing);
            assert forall|outcomes: Seq<Outcome>, later: Disk| #[trigger] replaced_well(
                outcomes,
                later,
            ) implies completes(replaced(outcomes), later, post) by {
                let left = left_to_activate(parts, outcomes, clobber_by_default);
                let kept = kept_of(parts.updated, outcomes, clobber_by_default);
                lemma_kept_of(parts.updated, outcomes, clobber_by_default);
                assert forall|i: int| 0 <= i < left.len() implies goes_well(
                    ItemView::Activate(#[trigger] left[i]),
                    clobber_by_default,
                    prefix,
                    family,
                    no_failure(),
                ) by {
                    let first = parts.fresh.len() as int;
                    if i < first {
                        assert(left[i] == parts.fresh[i]);
                    } else if i < first + kept.len() {
                        assert(left[i] == kept[i - first]);
                        assert(stems(parts.updated, clobber_by_default, kept[i - first]));
                        let at = choose|at: int|
                            0 <= at < parts.updated.len() && ((#[trigger] parts.updated[at]).1
                                == kept[i - first] || forced(
                                parts.updated[at].1,
                                clobber_by_default,
                            ) == kept[i - first]);
                        assert(parts.updated[at].1 == parts.updated[at].1);
                    } else {
                        assert(left[i] == parts.same[i - first - kept.len()]);
                    }
                }
                lemma_finale_goes_well(
                    left,
                    failed + failures_of(replacing, outcomes),
                    clobber_by_default,
                    prefix,
                    family,
                    later,
                    post,
                );
            }
            lemma_completes_bind(
                batch(replacing, none, clobber_by_default, prefix),
                replaced,
                now,
                replaced_well,
                post,
            );
        }
        lemma_completes_bind(
            batch(removing, none, clobber_by_default, prefix),
            taken,
            between,
            gone_well,
            post,
        );
    }
    law_batch_goes_well(
        guarding,
        none,
        clobber_by_default,
        prefix,
        family,
        no_protection(),
        disk,
    );
    let unprotected = |outcomes: Seq<Outcome>, after: Disk|
        {
            &&& family(after)
            &&& outcomes.len() == none.len() + guarding.len()
            &&& forall|i: int| 0 <= i < none.len() ==> #[trigger] outcomes[i] == none[i]
            &&& forall|i: int|
                0 <= i < guarding.len() ==> no_protection()(
                    #[trigger] guarding[i],
                    outcomes[none.len() + i],
                )
        };
    let next = after_guards(parts, clobber_by_default, prefix);
    assert forall|outcomes: Seq<Outcome>, after: Disk| #[trigger] unprotected(
        outcomes,
        after,
    ) implies completes(next(outcomes), after, post) by {
        assert forall|i: int| 0 <= i < outcomes.len() implies #[trigger] outcomes[i]
            != Outcome::Guarded(true) by {
            assert(no_protection()(guarding[i], outcomes[none.len() + i]));
        }
        lemma_nothing_protected(guarding, outcomes);
    }
    lemma_completes_bind(
        batch(guarding, none, clobber_by_default, prefix),
        next,
        disk,
        unprotected,
        post,
    );
}

/// Without an old manifest a delta is an activation of the whole manifest, if that
/// was asked for: it fails with what failed in that, and only if something did;
/// otherwise it is refused at once. An old manifest that cannot be had is the end
/// too.
pub proof fn law_diff_without_old(
    new: ManifestView,
    prefix: Seq<u8>,
    error: ReadErrorView,
    fault: Fault,
    fallback: bool,
    disk: Disk,
    post: spec_fn(Result<(), DiffFault>, Disk) -> bool,
)
    ensures
        achieves(
            diff_program(new, OldManifestView::Missing, prefix, true),
            disk,
            |end: DiffEnd, after: Disk| post(end.result, after),
        ) == achieves(
            batch(
                activations(new.files),
                Seq::<Outcome>::empty(),
                new.clobber_by_default,
                prefix,
            ),
            disk,
            |outcomes: Seq<Outcome>, after: Disk|
                {
                    let failed = failures_of(activations(new.files), outcomes);
                    if failed.len() == 0 {
                        post(Ok(()), after)
                    } else {
                        post(Err(DiffFault::ActivationFailed(failed)), after)
                    }
                },
        ),
        diff_program(new, OldManifestView::Missing, prefix, false) matches Program::Return(end)
            && end.result == Err::<(), DiffFault>(DiffFault::OldManifestMissing)
            && end.warnings.len() == 0,
        diff_program(new, OldManifestView::Unreadable(error), prefix, fallback)
            matches Program::Return(end) && end.result == Err::<(), DiffFault>(
            DiffFault::OldManifestRead(error),
        ) && end.warnings.len() == 0,
        diff_program(new, OldManifestView::Unprobed(fault), prefix, fallback)
            matches Program::Return(end) && end.result == Err::<(), DiffFault>(
            DiffFault::Other(fault),
        ) && end.warnings.len() == 0,
{
    broadcast use lemma_achieves_return;

    let items = activations(new.files);
    let none = Seq::<Outcome>::empty();
    let first = batch(items, none, new.clobber_by_default, prefix);
    let failures = Seq::<(Seq<u8>, Failure)>::empty();
    let next = after_activation(items, failures);
    let over = |end: DiffEnd, after: Disk| post(end.result, after);
    let plain = |outcomes: Seq<Outcome>, after: Disk|
        {
            let failed = failures_of(activations(new.files), outcomes);
            if failed.len() == 0 {
                post(Ok(()), after)
            } else {
                post(Err(DiffFault::ActivationFailed(failed)), after)
            }
        };
    assert forall|outcomes: Seq<Outcome>, after: Disk| #[trigger] achieves(
        next(outcomes),
        after,
        over,
    ) == plain(outcomes, after) by {
        let failed = failures_of(items, outcomes);
        assert(failures + failed =~= failed);
        let end = next(outcomes)->Return_0;
        assert(next(outcomes) == Program::Return(end));
    }
    lemma_achieves_continued(first, next, disk, plain, over);
}

/// A continuation that ends as `plain` says of what the first program comes to.
proof fn lemma_achieves_continued<A, B>(
    first: Program<A>,
    next: spec_fn(A) -> Program<B>,
    disk: Disk,
    plain: spec_fn(A, Disk) -> bool,
    over: spec_fn(B, Disk) -> bool,
)
    requires
        forall|value: A, after: Disk| #[trigger]
            achieves(next(value), after, over) == plain(value, after),
    ensures
        achieves(bind(first, next), disk, over) == achieves(first, disk, plain),
    decreases first,
{
    broadcast use {lemma_achieves_return, lemma_achieves_ask, lemma_achieves_fresh};

    match first {
        Program::Return(value) => {
            assert(first == Program::Return(value));
            assert(achieves(next(value), disk, over) == plain(value, disk));
        },
        Program::Ask(request, go) => {
            let later = bind(first, next)->Ask_1;
            assert(first == Program::Ask(request, go));
            assert(bind(first, next) == Program::Ask(request, later));
            assert forall|reply: Response, after: Disk| #[trigger]
                allowed(disk, request, reply, after) implies achieves(later(reply), after, over)
                == achieves(go(reply), after, plain) by {
                lemma_achieves_continued(go(reply), next, after, plain, over);
            }
            assert(achieves(Program::Ask(request, later), disk, over) == achieves(
                Program::Ask(request, go),
                disk,
                plain,
            ));
        },
        Program::Fresh(target, candidate, go) => {
            let later = bind(first, next)->Fresh_2;
            assert(first == Program::Fresh(target, candidate, go));
            assert(bind(first, next) == Program::Fresh(target, candidate, later));
            assert forall|path: Seq<u8>|
                #![trigger later(path)]
                #![trigger go(path)]
                is_spare(disk, path, target) implies achieves(later(path), disk, over) == achieves(
                go(path),
                disk,
                plain,
            ) by {
                lemma_achieves_continued(go(path), next, disk, plain, over);
            }
            assert(achieves(Program::Fresh(target, candidate, later), disk, over) == achieves(
                Program::Fresh(target, candidate, go),
                disk,
                plain,
            ));
        },
    }
}

/// Whether a delta ended with these failures in front of all others: it did not
/// succeed if there are any.
pub open spec fn tells_first(end: DiffEnd, failures: Seq<(Seq<u8>, Failure)>) -> bool {
    match end.result {
        Ok(_) => failures.len() == 0,
        Err(DiffFault::ActivationFailed(all)) => all.len() > 0 && failures.is_prefix_of(all),
        Err(_) => false,
    }
}

proof fn lemma_refresh_failures_told(
    parts: SplitView,
    clobber_by_default: Option<bool>,
    prefix: Seq<u8>,
    outcomes: Seq<Outcome>,
    failures: Seq<(Seq<u8>, Failure)>,
    disk: Disk,
)
    ensures
        achieves(
            after_refreshes(parts, failures, clobber_by_default, prefix)(outcomes),
            disk,
            |end: DiffEnd, after: Disk|
                tells_first(end, failures + failures_of(refreshes(parts.updated), outcomes)),
        ),
{
    broadcast use lemma_achieves_return;

    let none = Seq::<Outcome>::empty();
    let told = failures + failures_of(refreshes(parts.updated), outcomes);
    let post = |end: DiffEnd, after: Disk|
        tells_first(end, failures + failures_of(refreshes(parts.updated), outcomes));
    let left = left_to_activate(parts, outcomes, clobber_by_default);
    let next = after_activation(activations(left), told);
    assert forall|done: Seq<Outcome>, after: Disk| #[trigger] achieves(
        next(done),
        after,
        post,
    ) by {
        let all = told + failures_of(activations(left), done);
        let end = next(done)->Return_0;
        assert(next(done) == Program::Return(end));
        assert(told.is_prefix_of(all)) by {
            assert(all.subrange(0, told.len() as int) =~= told);
        }
        assert(post(end, after));
    }
    lemma_from_everywhere(
        batch(activations(left), none, clobber_by_default, prefix),
        next,
        disk,
        post,
    );
}

/// No failure is lost on the way to the end of a delta: what failed when entries
/// were taken away comes first, then what failed when targets were replaced, then
/// what failed when entries were activated; and the delta succeeds only if nothing
/// failed.
pub proof fn law_failures_reach_the_end(
    parts: SplitView,
    clobber_by_default: Option<bool>,
    prefix: Seq<u8>,
    gone: Seq<Outcome>,
    replaced: Seq<Outcome>,
    last: Seq<Outcome>,
    failures: Seq<(Seq<u8>, Failure)>,
    files: Seq<FileView>,
    disk: Disk,
)
    ensures
        achieves(
            after_deactivation(parts, clobber_by_default, prefix)(gone),
            disk,
            |end: DiffEnd, after: Disk|
                tells_first(end, failures_of(deactivations(parts.removed), gone)),
        ),
        achieves(
            after_refreshes(parts, failures, clobber_by_default, prefix)(replaced),
            disk,
            |end: DiffEnd, after: Disk|
                tells_first(end, failures + failures_of(refreshes(parts.updated), replaced)),
        ),
        ({
            let all = failures + failures_of(activations(files), last);
            let end = after_activation(activations(files), failures)(last)->Return_0;
            &&& after_activation(activations(files), failures)(last) is Return
            &&& all.len() == 0 ==> end.result == Ok::<(), DiffFault>(())
            &&& all.len() > 0 ==> end.result == Err::<(), DiffFault>(
                DiffFault::ActivationFailed(all),
            )
        }),
{
    broadcast use lemma_achieves_return;

    let none = Seq::<Outcome>::empty();
    lemma_refresh_failures_told(
        parts,
        clobber_by_default,
        prefix,
        replaced,
        failures,
        disk,
    );
    let failed = failures_of(deactivations(parts.removed), gone);
    let post = |end: DiffEnd, after: Disk|
        tells_first(end, failures_of(deactivations(parts.removed), gone));
    let next = after_refreshes(parts, failed, clobber_by_default, prefix);
    assert forall|outcomes: Seq<Outcome>, now: Disk| #[trigger] achieves(
        next(outcomes),
        now,
        post,
    ) by {
        let strict = |end: DiffEnd, after: Disk|
            tells_first(end, failed + failures_of(refreshes(parts.updated), outcomes));
        lemma_refresh_failures_told(
            parts,
            clobber_by_default,
            prefix,
            outcomes,
            failed,
            now,
        );
        assert forall|end: DiffEnd, after: Disk|
            strict(end, after) implies #[trigger] post(end, after) by {
            let longer = failed + failures_of(refreshes(parts.updated), outcomes);
            if let Err(DiffFault::ActivationFailed(all)) = end.result {
                assert(longer.is_prefix_of(all));
                assert(failed =~= longer.subrange(0, failed.len() as int));
                assert(all.subrange(0, failed.len() as int) =~= failed);
            }
        }
        lemma_achieves_weaken(next(outcomes), now, strict, post);
    }
    lemma_from_everywhere(
        batch(refreshes(parts.updated), none, clobber_by_default, prefix),
        next,
        disk,
        post,
    );
}

} // verus!
