//! Whole manifests applied and taken back.
use vstd::prelude::*;
use vstd::utf8::encode_utf8;

use crate::action::Failure;
use crate::batch::{batch, item_target, items_view, Item, ItemView, Outcome, Refresh, Run};
use crate::file_util::FileWithMetadata;
use crate::manifest::{files_view, File, FileView, Manifest};
use crate::message::{messages_view, skip_text};
use crate::order::in_order;
use crate::path::PathBuf;

verus! {

/// The work of activating `files`, in the order in which entries are applied.
pub open spec fn activations(files: Seq<FileView>) -> Seq<ItemView> {
    in_order(files).map_values(|f: FileView| ItemView::Activate(f))
}

/// The work of deactivating `files`, in the reverse of the order in which
/// entries are applied.
pub open spec fn deactivations(files: Seq<FileView>) -> Seq<ItemView> {
    in_order(files).reverse().map_values(|f: FileView| ItemView::Deactivate(f))
}

/// The targets of the items that failed, each with its failure, in the order in
/// which they were worked off.
pub open spec fn failures_of(items: Seq<ItemView>, outcomes: Seq<Outcome>) -> Seq<
    (Seq<u8>, Failure),
>
    decreases outcomes.len(),
{
    if outcomes.len() == 0 {
        Seq::<(Seq<u8>, Failure)>::empty()
    } else {
        let before = failures_of(items, outcomes.drop_last());
        match outcomes.last() {
            Outcome::Finished(Err(failure)) => before.push(
                (item_target(items[outcomes.len() - 1]), failure),
            ),
            Outcome::Refreshed(Refresh::Failed(failure)) => before.push(
                (item_target(items[outcomes.len() - 1]), failure),
            ),
            _ => before,
        }
    }
}

/// What is said of the entries that were skipped, in the order in which they were
/// worked off.
pub open spec fn warnings_of(items: Seq<ItemView>, outcomes: Seq<Outcome>) -> Seq<Seq<char>>
    decreases outcomes.len(),
{
    if outcomes.len() == 0 {
        Seq::<Seq<char>>::empty()
    } else {
        let before = warnings_of(items, outcomes.drop_last());
        match (items[outcomes.len() - 1], outcomes.last()) {
            (ItemView::Activate(file), Outcome::Skipped(reason)) => before.push(
                skip_text(file, reason),
            ),
            _ => before,
        }
    }
}

pub open spec fn failures_view(failures: Seq<(PathBuf, Failure)>) -> Seq<(Seq<u8>, Failure)> {
    failures.map_values(|f: (PathBuf, Failure)| (f.0@, f.1))
}

/// The work of activating entries that are in order.
pub(crate) fn activation_items(files: &Vec<File>) -> (items: Vec<Item>)
    ensures
        items_view(items@) == files_view(files@).map_values(|f: FileView| ItemView::Activate(f)),
{
    let mut items: Vec<Item> = Vec::new();
    let mut i: usize = 0;
    while i < files.len()
        invariant
            i <= files.len(),
            items.len() == i,
            forall|j: int|
                0 <= j < i ==> (#[trigger] items@[j])@ == ItemView::Activate(files@[j]@),
        decreases files.len() - i,
    {
        items.push(Item::Activate(FileWithMetadata::from(&files[i])));
        i = i + 1;
    }
    proof {
        assert(items_view(items@) =~= files_view(files@).map_values(
            |f: FileView| ItemView::Activate(f),
        ));
    }
    items
}

/// The work of deactivating entries that are in order, from the last to the
/// first.
pub(crate) fn deactivation_items(files: &Vec<File>) -> (items: Vec<Item>)
    ensures
        items_view(items@) == files_view(files@).reverse().map_values(
            |f: FileView| ItemView::Deactivate(f),
        ),
{
    let mut items: Vec<Item> = Vec::new();
    let mut left: usize = files.len();
    while left > 0
        invariant
            left <= files.len(),
            items.len() == files.len() - left,
            forall|j: int|
                0 <= j < items.len() ==> (#[trigger] items@[j])@ == ItemView::Deactivate(
                    files@[files.len() - 1 - j]@,
                ),
        decreases left,
    {
        left = left - 1;
        items.push(Item::Deactivate(FileWithMetadata::from(&files[left])));
    }
    proof {
        assert(items_view(items@) =~= files_view(files@).reverse().map_values(
            |f: FileView| ItemView::Deactivate(f),
        ));
    }
    items
}

impl Manifest {
    /// Starts bringing the file system into the state that the manifest
    /// describes, entry by entry in the order of application. `prefix` is put in
    /// front of the names of files that are moved aside.
    pub fn activate(&mut self, prefix: &str) -> (run: Run)
        ensures
            final(self)@.files == in_order(old(self)@.files),
            final(self)@.clobber_by_default == old(self)@.clobber_by_default,
            final(self)@.version == old(self)@.version,
            final(self)@.impure == old(self)@.impure,
            run.settled(),
            run.items() == activations(old(self)@.files),
            run.program() == batch(
                activations(old(self)@.files),
                Seq::<Outcome>::empty(),
                old(self)@.clobber_by_default,
                encode_utf8(prefix@),
            ),
    {
        self.sort();
        Run::new(activation_items(&self.files), self.clobber_by_default, prefix)
    }

    /// Starts taking away what the manifest describes, entry by entry in the
    /// reverse of the order of application.
    pub fn deactivate(&mut self) -> (run: Run)
        ensures
            final(self)@.files == in_order(old(self)@.files),
            final(self)@.clobber_by_default == old(self)@.clobber_by_default,
            final(self)@.version == old(self)@.version,
            final(self)@.impure == old(self)@.impure,
            run.settled(),
            run.items() == deactivations(old(self)@.files),
            run.program() == batch(
                deactivations(old(self)@.files),
                Seq::<Outcome>::empty(),
                old(self)@.clobber_by_default,
                encode_utf8(""@),
            ),
    {
        self.sort();
        Run::new(deactivation_items(&self.files), self.clobber_by_default, "")
    }
}

impl Run {
    /// What is to be said of the entries that were skipped in a run that is over.
    pub fn warnings(&self) -> (warnings: Vec<String>)
        requires
            self.settled(),
            self.program() is Return,
        ensures
            messages_view(warnings@) == warnings_of(self.items(), self.program()->Return_0),
    {
        let outcomes = self.outcomes();
        let mut warnings: Vec<String> = Vec::new();
        let mut i: usize = 0;
        proof {
            assert(outcomes@.take(0) =~= Seq::<Outcome>::empty());
            assert(messages_view(warnings@) =~= Seq::<Seq<char>>::empty());
        }
        while i < outcomes.len()
            invariant
                i <= outcomes.len(),
                outcomes.len() == self.items().len(),
                messages_view(warnings@) == warnings_of(self.items(), outcomes@.take(i as int)),
            decreases outcomes.len() - i,
        {
            let ghost before = warnings@;
            proof {
                let longer = outcomes@.take(i + 1);
                assert(longer.drop_last() =~= outcomes@.take(i as int));
                assert(longer.last() == outcomes@[i as int]);
            }
            if let Outcome::Skipped(reason) = outcomes[i] {
                if let Some(text) = self.skip_message(i, reason) {
                    warnings.push(text);
                    proof {
                        assert(messages_view(warnings@) =~= messages_view(before).push(text@));
                    }
                }
            }
            i = i + 1;
        }
        proof {
            assert(outcomes@.take(outcomes.len() as int) =~= outcomes@);
        }
        warnings
    }

    /// The targets of the entries that failed in a run that is over, each with
    /// its failure.
    pub fn failures(&self) -> (failures: Vec<(PathBuf, Failure)>)
        requires
            self.settled(),
            self.program() is Return,
        ensures
            failures_view(failures@) == failures_of(self.items(), self.program()->Return_0),
    {
        let outcomes = self.outcomes();
        let mut failures: Vec<(PathBuf, Failure)> = Vec::new();
        let mut i: usize = 0;
        proof {
            assert(outcomes@.take(0) =~= Seq::<Outcome>::empty());
            assert(failures_view(failures@) =~= Seq::<(Seq<u8>, Failure)>::empty());
        }
        while i < outcomes.len()
            invariant
                i <= outcomes.len(),
                outcomes.len() == self.items().len(),
                failures_view(failures@) == failures_of(self.items(), outcomes@.take(i as int)),
            decreases outcomes.len() - i,
        {
            let ghost before = failures@;
            proof {
                let longer = outcomes@.take(i + 1);
                assert(longer.drop_last() =~= outcomes@.take(i as int));
                assert(longer.last() == outcomes@[i as int]);
            }
            let failed = match outcomes[i] {
                Outcome::Finished(Err(failure)) => Some(failure),
                Outcome::Refreshed(Refresh::Failed(failure)) => Some(failure),
                _ => None,
            };
            if let Some(failure) = failed {
                let target = self.target(i);
                failures.push((target, failure));
                proof {
                    assert(failures_view(failures@) =~= failures_view(before).push(
                        (target@, failure),
                    ));
                }
            }
            i = i + 1;
        }
        proof {
            assert(outcomes@.take(outcomes.len() as int) =~= outcomes@);
        }
        failures
    }
}

/// What an outcome fails with, if it fails.
pub open spec fn failure_in(outcome: Outcome) -> Option<Failure> {
    match outcome {
        Outcome::Finished(Err(failure)) => Some(failure),
        Outcome::Refreshed(Refresh::Failed(failure)) => Some(failure),
        _ => None,
    }
}

/// Every failure is told, with the target of the entry that failed and with what
/// it failed with, and nothing else is; one more outcome leaves those before it as
/// they are, so they are told in the order in which they came.
pub proof fn law_failures_are_told(items: Seq<ItemView>, outcomes: Seq<Outcome>, last: Outcome)
    ensures
        forall|i: int|
            0 <= i < outcomes.len() && failure_in(#[trigger] outcomes[i]) is Some ==> failures_of(
                items,
                outcomes,
            ).contains((item_target(items[i]), failure_in(outcomes[i])->0)),
        forall|k: int|
            0 <= k < failures_of(items, outcomes).len() ==> is_failure_of(
                items,
                outcomes,
                #[trigger] failures_of(items, outcomes)[k],
            ),
        failures_of(items, outcomes).len() <= outcomes.len(),
        failure_in(last) is None ==> failures_of(items, outcomes.push(last)) == failures_of(
            items,
            outcomes,
        ),
        failure_in(last) is Some ==> failures_of(items, outcomes.push(last)) == failures_of(
            items,
            outcomes,
        ).push((item_target(items[outcomes.len() as int]), failure_in(last)->0)),
    decreases outcomes.len(),
{
    let all = failures_of(items, outcomes);
    assert(outcomes.push(last).drop_last() =~= outcomes);
    if outcomes.len() > 0 {
        let front = outcomes.drop_last();
        let before = failures_of(items, front);
        law_failures_are_told(items, front, outcomes.last());
        assert(front.push(outcomes.last()) =~= outcomes);
        assert forall|i: int|
            0 <= i < outcomes.len() && failure_in(#[trigger] outcomes[i])
                is Some implies all.contains(
            (item_target(items[i]), failure_in(outcomes[i])->0),
        ) by {
            let one = (item_target(items[i]), failure_in(outcomes[i])->0);
            if i < front.len() {
                assert(front[i] == outcomes[i]);
                assert(before.contains(one));
                let k = choose|k: int| 0 <= k < before.len() && before[k] == one;
                assert(all[k] == one);
            } else {
                assert(all[all.len() - 1] == one);
            }
        }
        assert forall|k: int| 0 <= k < all.len() implies is_failure_of(
            items,
            outcomes,
            #[trigger] all[k],
        ) by {
            if k < before.len() {
                assert(all[k] == before[k]);
                assert(is_failure_of(items, front, before[k]));
                let i = choose|i: int|
                    0 <= i < front.len() && failure_in(#[trigger] front[i]) == Some(before[k].1)
                        && item_target(items[i]) == before[k].0;
                assert(outcomes[i] == front[i]);
            } else {
                assert(outcomes[outcomes.len() - 1] == outcomes.last());
            }
        }
    }
}

/// Whether a failure is that of one of the pieces of work.
pub open spec fn is_failure_of(
    items: Seq<ItemView>,
    outcomes: Seq<Outcome>,
    failed: (Seq<u8>, Failure),
) -> bool {
    exists|i: int|
        0 <= i < outcomes.len() && failure_in(#[trigger] outcomes[i]) == Some(failed.1)
            && item_target(items[i]) == failed.0
}

/// Every skipped entry is told of, in the order in which they came, and nothing
/// else is.
pub proof fn law_skips_are_told(items: Seq<ItemView>, outcomes: Seq<Outcome>, last: Outcome)
    requires
        items.len() > outcomes.len(),
    ensures
        ({
            let item = items[outcomes.len() as int];
            let before = warnings_of(items, outcomes);
            let after = warnings_of(items, outcomes.push(last));
            &&& item is Activate && last is Skipped ==> after == before.push(
                skip_text(item->Activate_0, last->Skipped_0),
            )
            &&& !(item is Activate && last is Skipped) ==> after == before
        }),
{
    assert(outcomes.push(last).drop_last() =~= outcomes);
}

/// The target of a piece of work is that of the entry that it is about.
pub proof fn law_targets_of_work(file: FileView, old_file: FileView)
    ensures
        item_target(ItemView::Activate(file)) == file.target,
        item_target(ItemView::Deactivate(file)) == file.target,
        item_target(ItemView::Refresh(file)) == file.target,
        item_target(ItemView::Guard(old_file, file)) == file.target,
{
}

} // verus!
