//! What is left of a plan from one stage of a delta to the next.
use vstd::prelude::*;

use crate::attain::{is_skipped, takes_away, touches};
use crate::batch::{Outcome, Refresh};
use crate::diff::{forced, kept_of, left_to_activate};
use crate::effect::shrunk;
use crate::file_util::clobbers;
use crate::manifest::{precedes, takes_source, FileView};
use crate::model::{below, key_from, link_limit, same_frame, Disk, Key};
use crate::order::{in_order, inserted, law_order_permutes};
use crate::refresh::is_steady;
use crate::split::{news_of, SplitView};
use crate::whole::{lemma_same_reach, withdrawn, Plan};

verus! {

/// Where taking away the entries `removed` may change what is there.
pub open spec fn cleared(disk: Disk, removed: Seq<FileView>) -> Set<Key> {
    Set::new(
        |k: Key|
            exists|i: int|
                0 <= i < removed.len() && takes_away(#[trigger] removed[i]) && below(
                    k,
                    disk.key(removed[i].target),
                ),
    )
}

pub(crate) proof fn lemma_in_order_members(files: Seq<FileView>)
    ensures
        forall|i: int|
            0 <= i < in_order(files).len() ==> files.contains(#[trigger] in_order(files)[i]),
        forall|i: int|
            0 <= i < files.len() ==> in_order(files).contains(#[trigger] files[i]),
{
    broadcast use vstd::seq_lib::group_to_multiset_ensures;

    law_order_permutes(files);
    assert forall|i: int| 0 <= i < in_order(files).len() implies files.contains(
        #[trigger] in_order(files)[i],
    ) by {
        assert(in_order(files).contains(in_order(files)[i]));
        assert(in_order(files).to_multiset().count(in_order(files)[i]) > 0);
        assert(files.to_multiset().count(in_order(files)[i]) > 0);
    }
    assert forall|i: int| 0 <= i < files.len() implies in_order(files).contains(
        #[trigger] files[i],
    ) by {
        assert(files.contains(files[i]));
        assert(files.to_multiset().count(files[i]) > 0);
        assert(in_order(files).to_multiset().count(files[i]) > 0);
    }
}

pub(crate) proof fn lemma_withdrawn_elsewhere(
    disk: Disk,
    after: Disk,
    removed: Seq<FileView>,
    done: Seq<Outcome>,
)
    requires
        withdrawn(disk, after, in_order(removed).reverse(), done),
    ensures
        forall|k: Key|
            !cleared(disk, removed).contains(k) ==> #[trigger] after.at(k) == disk.at(k),
{
    let order = in_order(removed).reverse();
    lemma_in_order_members(removed);
    assert forall|k: Key| !cleared(disk, removed).contains(k) implies #[trigger] after.at(k)
        == disk.at(k) by {
        assert forall|i: int|
            0 <= i < order.len() && takes_away(#[trigger] order[i]) implies !below(
            k,
            disk.key(order[i].target),
        ) by {
            let same = in_order(removed)[order.len() - 1 - i];
            assert(order[i] == same);
            assert(removed.contains(same));
            let at = choose|at: int| 0 <= at < removed.len() && removed[at] == same;
            assert(takes_away(removed[at]));
        }
    }
}

proof fn lemma_settled_withdrawn(plan: Plan, disk: Disk, after: Disk, key: Key, limit: nat)
    requires
        same_frame(disk, after),
        forall|k: Key| !plan.others.contains(k) ==> #[trigger] after.at(k) == disk.at(k),
        plan.is_settled(disk, key, limit),
    ensures
        plan.is_settled(after, key, limit),
        after.at(key) == disk.at(key),
    decreases limit,
{
    lemma_same_reach(plan, disk, after, key);
    assert(after.at(key) == disk.at(key));
    if disk.has(key) && disk.nodes[key].content is Link && limit > 0 {
        lemma_settled_withdrawn(
            plan,
            disk,
            after,
            key_from(key.drop_last(), disk.nodes[key].content->Link_0),
            (limit - 1) as nat,
        );
    }
}

/// A plan stays coherent when what it allows to be taken away is.
pub(crate) proof fn lemma_withdrawn_coherent(plan: Plan, disk: Disk, after: Disk)
    requires
        plan.is_coherent(disk),
        same_frame(disk, after),
        shrunk(disk, after),
        forall|k: Key| !plan.others.contains(k) ==> #[trigger] after.at(k) == disk.at(k),
    ensures
        plan.is_coherent(after),
        forall|j: int|
            0 <= j < plan.files.len() && !is_skipped(disk, #[trigger] plan.files[j])
                ==> !is_skipped(after, plan.files[j]),
{
    assert forall|j: int| 0 <= j < plan.files.len() implies #[trigger] plan.entry_fits(after, j)
        && (!is_skipped(disk, plan.files[j]) ==> !is_skipped(after, plan.files[j])) by {
        let file = plan.files[j];
        let key = disk.key(file.target);
        assert(plan.entry_fits(disk, j));
        if takes_source(file.kind) && file.source is Some {
            lemma_settled_withdrawn(
                plan,
                disk,
                after,
                disk.key(file.source->0),
                link_limit(),
            );
        }
        if after.has(key) {
            assert(after.at(key) == disk.at(key));
            if disk.nodes[key].content is Link && file.kind is Symlink && file.follow_symlinks
                != Some(false) {
                lemma_settled_withdrawn(
                    plan,
                    disk,
                    after,
                    key_from(key.drop_last(), disk.nodes[key].content->Link_0),
                    (link_limit() - 1) as nat,
                );
            }
        }
        assert(plan.target_settled(after, j));
    }
    assert forall|j: int| 0 <= j < plan.files.len() && !is_skipped(
        disk,
        #[trigger] plan.files[j],
    ) implies !is_skipped(after, plan.files[j]) by {
        assert(plan.entry_fits(after, j));
    }
    assert forall|i: int, j: int|
        0 <= i < plan.files.len() && 0 <= j < plan.files.len() && i
            != j implies #[trigger] plan.spares(after, i, j) by {
        assert(plan.spares(disk, i, j));
        lemma_same_reach(plan, disk, after, disk.key(plan.files[j].target));
    }
}

pub(crate) proof fn lemma_coherent_steady(plan: Plan, disk: Disk)
    requires
        plan.is_coherent(disk),
    ensures
        is_steady(plan, disk, disk),
{
    assert forall|j: int| 0 <= j < plan.files.len() implies #[trigger] plan.source_settled(
        disk,
        j,
    ) by {
        assert(plan.entry_fits(disk, j));
    }
    assert forall|j: int| 0 <= j < plan.files.len() implies #[trigger] plan.target_settled(
        disk,
        j,
    ) by {
        assert(plan.entry_fits(disk, j));
    }
}

/// Whether neither of two entries touches the target of the other. Of two
/// deletes, one may take away what the other is about.
pub open spec fn are_apart(plan: Plan, disk: Disk, a: FileView, b: FileView) -> bool {
    (a.kind is Delete && b.kind is Delete) || (!touches(
        disk,
        a,
        clobbers(a.clobber, plan.clobber_by_default),
        plan.prefix,
        disk.key(b.target),
    ) && !touches(
        disk,
        b,
        clobbers(b.clobber, plan.clobber_by_default),
        plan.prefix,
        disk.key(a.target),
    ))
}

pub open spec fn all_apart(plan: Plan, disk: Disk, files: Seq<FileView>) -> bool {
    forall|i: int, j: int|
        0 <= i < files.len() && 0 <= j < files.len() && i != j ==> are_apart(
            plan,
            disk,
            #[trigger] files[i],
            #[trigger] files[j],
        )
}

/// Whether `file` is `whole`, or made from it by forcing.
pub open spec fn stems_from(plan: Plan, file: FileView, whole: FileView) -> bool {
    file == whole || file == forced(whole, plan.clobber_by_default)
}

/// Whether `file` is an entry of the plan, or made from one by forcing.
pub open spec fn belongs(plan: Plan, file: FileView) -> bool {
    exists|i: int| 0 <= i < plan.files.len() && #[trigger] stems_from(plan, file, plan.files[i])
}

pub(crate) proof fn lemma_coherent_apart(plan: Plan, disk: Disk)
    requires
        plan.is_coherent(disk),
    ensures
        all_apart(plan, disk, plan.files),
{
    assert forall|i: int, j: int|
        0 <= i < plan.files.len() && 0 <= j < plan.files.len() && i != j implies are_apart(
        plan,
        disk,
        #[trigger] plan.files[i],
        #[trigger] plan.files[j],
    ) by {
        assert(plan.spares(disk, i, j));
        assert(plan.spares(disk, j, i));
    }
}

/// Forcing an entry makes it touch no more than before.
proof fn lemma_stems(plan: Plan, disk: Disk, file: FileView, whole: FileView)
    requires
        stems_from(plan, file, whole),
    ensures
        file.target == whole.target,
        file.kind == whole.kind,
        file.source == whole.source,
        forall|k: Key|
            touches(
                disk,
                file,
                clobbers(file.clobber, plan.clobber_by_default),
                plan.prefix,
                k,
            ) ==> #[trigger] touches(
                disk,
                whole,
                clobbers(whole.clobber, plan.clobber_by_default),
                plan.prefix,
                k,
            ),
{
}

proof fn lemma_stems_apart(
    plan: Plan,
    disk: Disk,
    a: FileView,
    whole_a: FileView,
    b: FileView,
    whole_b: FileView,
)
    requires
        stems_from(plan, a, whole_a),
        stems_from(plan, b, whole_b),
        are_apart(plan, disk, whole_a, whole_b),
    ensures
        are_apart(plan, disk, a, b),
        are_apart(plan, disk, b, a),
{
    lemma_stems(plan, disk, a, whole_a);
    lemma_stems(plan, disk, b, whole_b);
}

proof fn lemma_inserted_apart(plan: Plan, disk: Disk, sorted: Seq<FileView>, file: FileView)
    requires
        all_apart(plan, disk, sorted),
        forall|i: int|
            0 <= i < sorted.len() ==> are_apart(plan, disk, file, #[trigger] sorted[i]),
    ensures
        all_apart(plan, disk, inserted(sorted, file)),
        forall|i: int|
            0 <= i < inserted(sorted, file).len() ==> (#[trigger] inserted(sorted, file)[i] == file
                || sorted.contains(inserted(sorted, file)[i])),
    decreases sorted.len(),
{
    let list = inserted(sorted, file);
    if sorted.len() > 0 && precedes(file, sorted.last()) {
        let front = sorted.drop_last();
        let before = inserted(front, file);
        assert forall|i: int| 0 <= i < front.len() implies are_apart(
            plan,
            disk,
            file,
            #[trigger] front[i],
        ) by {
            assert(front[i] == sorted[i]);
        }
        assert(all_apart(plan, disk, front)) by {
            assert forall|i: int, j: int|
                0 <= i < front.len() && 0 <= j < front.len() && i != j implies are_apart(
                plan,
                disk,
                #[trigger] front[i],
                #[trigger] front[j],
            ) by {
                assert(front[i] == sorted[i] && front[j] == sorted[j]);
            }
        }
        lemma_inserted_apart(plan, disk, front, file);
        let n = sorted.len() - 1;
        assert forall|i: int| 0 <= i < before.len() implies are_apart(
            plan,
            disk,
            #[trigger] before[i],
            sorted[n],
        ) && (before[i] == file || sorted.contains(before[i])) by {
            if before[i] != file {
                let at = choose|at: int| 0 <= at < front.len() && front[at] == before[i];
                assert(sorted[at] == before[i]);
            } else {
                assert(are_apart(plan, disk, file, sorted[n]));
            }
        }
        assert(list =~= before.push(sorted[n]));
        assert forall|i: int, j: int|
            0 <= i < list.len() && 0 <= j < list.len() && i != j implies are_apart(
            plan,
            disk,
            #[trigger] list[i],
            #[trigger] list[j],
        ) by {
            if i < before.len() {
                assert(list[i] == before[i]);
            }
            if j < before.len() {
                assert(list[j] == before[j]);
            }
        }
        assert forall|i: int| 0 <= i < list.len() implies (#[trigger] list[i] == file
            || sorted.contains(list[i])) by {
            if i < before.len() {
                assert(list[i] == before[i]);
            } else {
                assert(list[i] == sorted[n]);
            }
        }
    } else {
        assert(list =~= sorted.push(file));
        assert forall|i: int| 0 <= i < list.len() implies (#[trigger] list[i] == file
            || sorted.contains(list[i])) by {
            if i < sorted.len() {
                assert(list[i] == sorted[i]);
            }
        }
        assert forall|i: int, j: int|
            0 <= i < list.len() && 0 <= j < list.len() && i != j implies are_apart(
            plan,
            disk,
            #[trigger] list[i],
            #[trigger] list[j],
        ) by {
            if i < sorted.len() {
                assert(list[i] == sorted[i]);
            }
            if j < sorted.len() {
                assert(list[j] == sorted[j]);
            }
        }
    }
}

proof fn lemma_in_order_apart(plan: Plan, disk: Disk, files: Seq<FileView>)
    requires
        all_apart(plan, disk, files),
    ensures
        all_apart(plan, disk, in_order(files)),
    decreases files.len(),
{
    if files.len() > 0 {
        let front = files.drop_last();
        assert(all_apart(plan, disk, front)) by {
            assert forall|i: int, j: int|
                0 <= i < front.len() && 0 <= j < front.len() && i != j implies are_apart(
                plan,
                disk,
                #[trigger] front[i],
                #[trigger] front[j],
            ) by {
                assert(front[i] == files[i] && front[j] == files[j]);
            }
        }
        lemma_in_order_apart(plan, disk, front);
        lemma_in_order_members(front);
        assert forall|i: int| 0 <= i < in_order(front).len() implies are_apart(
            plan,
            disk,
            files.last(),
            #[trigger] in_order(front)[i],
        ) by {
            assert(front.contains(in_order(front)[i]));
            let at = choose|at: int| 0 <= at < front.len() && front[at] == in_order(front)[i];
            assert(files[at] == in_order(front)[i]);
            assert(are_apart(plan, disk, files[files.len() - 1], files[at]));
        }
        lemma_inserted_apart(plan, disk, in_order(front), files.last());
    }
}

/// The changed entries whose targets were replaced in one step, forced as they
/// were.
pub open spec fn swapped_of(
    updated: Seq<(FileView, FileView)>,
    outcomes: Seq<Outcome>,
    clobber_by_default: Option<bool>,
) -> Seq<FileView>
    decreases outcomes.len(),
{
    if outcomes.len() == 0 {
        Seq::<FileView>::empty()
    } else {
        let before = swapped_of(updated, outcomes.drop_last(), clobber_by_default);
        match outcomes.last() {
            Outcome::Refreshed(Refresh::Swapped) => before.push(
                forced(updated[outcomes.len() - 1].1, clobber_by_default),
            ),
            _ => before,
        }
    }
}

/// Whether `file` is what became of the changed entry `i`: what was put in place
/// in one step, or what is left to activate.
pub open spec fn is_share(
    plan: Plan,
    updated: Seq<(FileView, FileView)>,
    outcomes: Seq<Outcome>,
    file: FileView,
    i: int,
    swapped: bool,
) -> bool {
    &&& 0 <= i < outcomes.len()
    &&& stems_from(plan, file, updated[i].1)
    &&& (outcomes[i] == Outcome::Refreshed(Refresh::Swapped)) == swapped
    &&& swapped ==> file == forced(updated[i].1, plan.clobber_by_default)
}

/// Whether `file` is what became of one of the first `count` changed entries.
pub open spec fn is_some_share(
    plan: Plan,
    updated: Seq<(FileView, FileView)>,
    outcomes: Seq<Outcome>,
    file: FileView,
    count: int,
    swapped: bool,
) -> bool {
    exists|i: int| i < count && #[trigger] is_share(plan, updated, outcomes, file, i, swapped)
}

/// Where the changed entries went after the attempt to replace their targets.
pub(crate) proof fn lemma_shares(
    plan: Plan,
    disk: Disk,
    updated: Seq<(FileView, FileView)>,
    outcomes: Seq<Outcome>,
)
    requires
        outcomes.len() <= updated.len(),
        forall|i: int, j: int|
            0 <= i < updated.len() && 0 <= j < updated.len() && i != j ==> are_apart(
                plan,
                disk,
                (#[trigger] updated[i]).1,
                (#[trigger] updated[j]).1,
            ),
    ensures
        ({
            let kept = kept_of(updated, outcomes, plan.clobber_by_default);
            let swapped = swapped_of(updated, outcomes, plan.clobber_by_default);
            &&& all_apart(plan, disk, kept)
            &&& all_apart(plan, disk, swapped)
            &&& forall|a: int|
                0 <= a < kept.len() ==> is_some_share(
                    plan,
                    updated,
                    outcomes,
                    #[trigger] kept[a],
                    outcomes.len() as int,
                    false,
                )
            &&& forall|a: int|
                0 <= a < swapped.len() ==> is_some_share(
                    plan,
                    updated,
                    outcomes,
                    #[trigger] swapped[a],
                    outcomes.len() as int,
                    true,
                )
            &&& forall|i: int|
                0 <= i < outcomes.len() ==> match #[trigger] outcomes[i] {
                    Outcome::Refreshed(Refresh::Swapped) => swapped.contains(
                        forced(updated[i].1, plan.clobber_by_default),
                    ),
                    Outcome::Refreshed(Refresh::Retry) => kept.contains(updated[i].1),
                    Outcome::Refreshed(Refresh::Force) => kept.contains(
                        forced(updated[i].1, plan.clobber_by_default),
                    ),
                    _ => true,
                }
        }),
    decreases outcomes.len(),
{
    let kept = kept_of(updated, outcomes, plan.clobber_by_default);
    let swapped = swapped_of(updated, outcomes, plan.clobber_by_default);
    if outcomes.len() > 0 {
        let front = outcomes.drop_last();
        let n = outcomes.len() - 1;
        lemma_shares(plan, disk, updated, front);
        let kept_before = kept_of(updated, front, plan.clobber_by_default);
        let swapped_before = swapped_of(updated, front, plan.clobber_by_default);
        assert forall|a: int| 0 <= a < kept_before.len() implies is_some_share(
            plan,
            updated,
            outcomes,
            #[trigger] kept_before[a],
            n,
            false,
        ) by {
            lemma_share_kept(plan, updated, outcomes, kept_before[a], false);
        }
        assert forall|a: int| 0 <= a < swapped_before.len() implies is_some_share(
            plan,
            updated,
            outcomes,
            #[trigger] swapped_before[a],
            n,
            true,
        ) by {
            lemma_share_kept(plan, updated, outcomes, swapped_before[a], true);
        }
        assert forall|f: FileView, all: bool|
            is_some_share(plan, updated, outcomes, f, n, all) implies #[trigger] is_some_share(
            plan,
            updated,
            outcomes,
            f,
            n + 1,
            all,
        ) by {
            let i = choose|i: int| i < n && #[trigger] is_share(plan, updated, outcomes, f, i, all);
            assert(is_share(plan, updated, outcomes, f, i, all));
        }
        let file = updated[n].1;
        match outcomes[n] {
            Outcome::Refreshed(Refresh::Swapped) => {
                lemma_share_pushed(
                    plan,
                    disk,
                    updated,
                    outcomes,
                    swapped_before,
                    forced(file, plan.clobber_by_default),
                    true,
                );
            },
            Outcome::Refreshed(Refresh::Retry) => {
                lemma_share_pushed(plan, disk, updated, outcomes, kept_before, file, false);
            },
            Outcome::Refreshed(Refresh::Force) => {
                lemma_share_pushed(
                    plan,
                    disk,
                    updated,
                    outcomes,
                    kept_before,
                    forced(file, plan.clobber_by_default),
                    false,
                );
            },
            _ => {},
        }
        assert forall|i: int| 0 <= i < outcomes.len() implies match #[trigger] outcomes[i] {
            Outcome::Refreshed(Refresh::Swapped) => swapped.contains(
                forced(updated[i].1, plan.clobber_by_default),
            ),
            Outcome::Refreshed(Refresh::Retry) => kept.contains(updated[i].1),
            Outcome::Refreshed(Refresh::Force) => kept.contains(
                forced(updated[i].1, plan.clobber_by_default),
            ),
            _ => true,
        } by {
            if i < n {
                assert(front[i] == outcomes[i]);
                assert forall|f: FileView| kept_before.contains(f) implies #[trigger] kept.contains(
                    f,
                ) by {
                    let at = choose|at: int| 0 <= at < kept_before.len() && kept_before[at] == f;
                    assert(kept[at] == f);
                }
                assert forall|f: FileView|
                    swapped_before.contains(f) implies #[trigger] swapped.contains(f) by {
                    let at = choose|at: int|
                        0 <= at < swapped_before.len() && swapped_before[at] == f;
                    assert(swapped[at] == f);
                }
            } else {
                if outcomes[n] == Outcome::Refreshed(Refresh::Swapped) {
                    assert(swapped[swapped.len() - 1] == forced(file, plan.clobber_by_default));
                } else if outcomes[n] == Outcome::Refreshed(Refresh::Retry) {
                    assert(kept[kept.len() - 1] == file);
                } else if outcomes[n] == Outcome::Refreshed(Refresh::Force) {
                    assert(kept[kept.len() - 1] == forced(file, plan.clobber_by_default));
                }
            }
        }
    }
}

/// What became of an entry stays the same when another outcome comes in.
proof fn lemma_share_kept(
    plan: Plan,
    updated: Seq<(FileView, FileView)>,
    outcomes: Seq<Outcome>,
    file: FileView,
    swapped: bool,
)
    requires
        outcomes.len() > 0,
        is_some_share(
            plan,
            updated,
            outcomes.drop_last(),
            file,
            outcomes.len() - 1,
            swapped,
        ),
    ensures
        is_some_share(plan, updated, outcomes, file, outcomes.len() - 1, swapped),
{
    let front = outcomes.drop_last();
    let i = choose|i: int|
        i < outcomes.len() - 1 && #[trigger] is_share(plan, updated, front, file, i, swapped);
    assert(front[i] == outcomes[i]);
    assert(is_share(plan, updated, outcomes, file, i, swapped));
}

/// One more share of the last changed entry.
proof fn lemma_share_pushed(
    plan: Plan,
    disk: Disk,
    updated: Seq<(FileView, FileView)>,
    outcomes: Seq<Outcome>,
    before: Seq<FileView>,
    file: FileView,
    swapped: bool,
)
    requires
        0 < outcomes.len() <= updated.len(),
        forall|i: int, j: int|
            0 <= i < updated.len() && 0 <= j < updated.len() && i != j ==> are_apart(
                plan,
                disk,
                (#[trigger] updated[i]).1,
                (#[trigger] updated[j]).1,
            ),
        all_apart(plan, disk, before),
        forall|a: int|
            0 <= a < before.len() ==> is_some_share(
                plan,
                updated,
                outcomes,
                #[trigger] before[a],
                outcomes.len() - 1,
                swapped,
            ),
        is_share(plan, updated, outcomes, file, outcomes.len() - 1, swapped),
    ensures
        all_apart(plan, disk, before.push(file)),
        forall|a: int|
            0 <= a < before.push(file).len() ==> is_some_share(
                plan,
                updated,
                outcomes,
                #[trigger] before.push(file)[a],
                outcomes.len() as int,
                swapped,
            ),
{
    let n = outcomes.len() - 1;
    let list = before.push(file);
    assert forall|a: int| 0 <= a < before.len() implies are_apart(
        plan,
        disk,
        #[trigger] before[a],
        file,
    ) && are_apart(plan, disk, file, before[a]) by {
        let i = choose|i: int|
            i < n && #[trigger] is_share(plan, updated, outcomes, before[a], i, swapped);
        assert(are_apart(plan, disk, updated[i].1, updated[n].1));
        lemma_stems_apart(plan, disk, before[a], updated[i].1, file, updated[n].1);
    }
    assert forall|a: int, b: int|
        0 <= a < list.len() && 0 <= b < list.len() && a != b implies are_apart(
        plan,
        disk,
        #[trigger] list[a],
        #[trigger] list[b],
    ) by {
        if a < before.len() {
            assert(list[a] == before[a]);
        }
        if b < before.len() {
            assert(list[b] == before[b]);
        }
    }
    assert forall|a: int| 0 <= a < list.len() implies is_some_share(
        plan,
        updated,
        outcomes,
        #[trigger] list[a],
        n + 1,
        swapped,
    ) by {
        if a < before.len() {
            assert(list[a] == before[a]);
            let i = choose|i: int|
                i < n && #[trigger] is_share(plan, updated, outcomes, before[a], i, swapped);
            assert(is_share(plan, updated, outcomes, list[a], i, swapped));
        } else {
            assert(is_share(plan, updated, outcomes, list[a], n, swapped));
        }
    }
}

/// What a delta sets out to do: the new entries are activated, and the entries
/// that were removed are taken away.
pub open spec fn delta_plan(
    disk: Disk,
    parts: SplitView,
    clobber_by_default: Option<bool>,
    prefix: Seq<u8>,
) -> Plan {
    Plan {
        files: parts.fresh + news_of(parts.updated) + parts.same,
        clobber_by_default,
        prefix,
        others: cleared(disk, parts.removed),
    }
}

/// What is left of a plan when the targets of changed entries have been
/// replaced, as far as that went: those that were come first and are done.
pub open spec fn final_plan(
    disk: Disk,
    plan: Plan,
    parts: SplitView,
    outcomes: Seq<Outcome>,
) -> Plan {
    Plan {
        files: swapped_of(parts.updated, outcomes, plan.clobber_by_default) + in_order(
            left_to_activate(parts, outcomes, plan.clobber_by_default),
        ),
        others: Set::new(|k: Key| plan.reaches(disk, k)),
        ..plan
    }
}

/// The entry of the plan that an entry left to activate was made from.
spec fn origin(plan: Plan, parts: SplitView, outcomes: Seq<Outcome>, a: int) -> int {
    let kept = kept_of(parts.updated, outcomes, plan.clobber_by_default);
    if a < parts.fresh.len() {
        a
    } else if a < parts.fresh.len() + kept.len() {
        parts.fresh.len() + (choose|i: int|
            i < outcomes.len() && #[trigger] is_share(
                plan,
                parts.updated,
                outcomes,
                kept[a - parts.fresh.len()],
                i,
                false,
            ))
    } else {
        a - kept.len() + parts.updated.len()
    }
}

/// Whether an entry left to activate was made from one of the plan that is not
/// done.
spec fn comes_from(plan: Plan, parts: SplitView, outcomes: Seq<Outcome>, a: int) -> bool {
    let left = left_to_activate(parts, outcomes, plan.clobber_by_default);
    let kept = kept_of(parts.updated, outcomes, plan.clobber_by_default);
    let first = parts.fresh.len() as int;
    let o = origin(plan, parts, outcomes, a);
    let changed = first <= o < first + parts.updated.len();
    &&& 0 <= o < plan.files.len()
    &&& stems_from(plan, left[a], plan.files[o])
    &&& changed ==> outcomes[o - first] != Outcome::Refreshed(Refresh::Swapped)
    &&& changed <==> first <= a < first + kept.len()
}

/// Every entry that is left was made from one of the plan, and none that is left
/// was made from one that is done.
proof fn lemma_left(plan: Plan, disk: Disk, parts: SplitView, outcomes: Seq<Outcome>)
    requires
        plan.files == parts.fresh + news_of(parts.updated) + parts.same,
        outcomes.len() == parts.updated.len(),
        all_apart(plan, disk, plan.files),
    ensures
        ({
            let left = left_to_activate(parts, outcomes, plan.clobber_by_default);
            let swapped = swapped_of(parts.updated, outcomes, plan.clobber_by_default);
            &&& all_apart(plan, disk, left)
            &&& all_apart(plan, disk, swapped)
            &&& forall|a: int| 0 <= a < left.len() ==> belongs(plan, #[trigger] left[a])
            &&& forall|b: int| 0 <= b < swapped.len() ==> belongs(plan, #[trigger] swapped[b])
            &&& forall|a: int, b: int|
                0 <= a < left.len() && 0 <= b < swapped.len() ==> are_apart(
                    plan,
                    disk,
                    #[trigger] left[a],
                    #[trigger] swapped[b],
                )
        }),
{
    let left = left_to_activate(parts, outcomes, plan.clobber_by_default);
    let swapped = swapped_of(parts.updated, outcomes, plan.clobber_by_default);
    let kept = kept_of(parts.updated, outcomes, plan.clobber_by_default);
    let updated = parts.updated;
    let first = parts.fresh.len() as int;
    assert forall|i: int| 0 <= i < updated.len() implies plan.files[first + i]
        == (#[trigger] updated[i]).1 by {}
    assert forall|i: int, j: int|
        0 <= i < updated.len() && 0 <= j < updated.len() && i != j implies are_apart(
        plan,
        disk,
        (#[trigger] updated[i]).1,
        (#[trigger] updated[j]).1,
    ) by {
        assert(are_apart(plan, disk, plan.files[first + i], plan.files[first + j]));
    }
    lemma_shares(plan, disk, updated, outcomes);
    assert forall|a: int| 0 <= a < left.len() implies #[trigger] comes_from(
        plan,
        parts,
        outcomes,
        a,
    ) by {
        if a < first {
            assert(left[a] == plan.files[a]);
        } else if a < first + kept.len() {
            assert(left[a] == kept[a - first]);
            let i = choose|i: int|
                i < outcomes.len() && #[trigger] is_share(
                    plan,
                    updated,
                    outcomes,
                    kept[a - first],
                    i,
                    false,
                );
            assert(is_share(plan, updated, outcomes, kept[a - first], i, false));
        } else {
            assert(left[a] == parts.same[a - first - kept.len()]);
            assert(plan.files[a - kept.len() + updated.len()] == left[a]);
        }
    }
    assert forall|a: int| 0 <= a < left.len() implies belongs(plan, #[trigger] left[a]) by {
        assert(comes_from(plan, parts, outcomes, a));
    }
    assert forall|b: int| 0 <= b < swapped.len() implies belongs(plan, #[trigger] swapped[b]) by {
        let i = choose|i: int|
            i < outcomes.len() && #[trigger] is_share(
                plan,
                updated,
                outcomes,
                swapped[b],
                i,
                true,
            );
        assert(stems_from(plan, swapped[b], plan.files[first + i]));
    }
    assert forall|a: int, b: int|
        0 <= a < left.len() && 0 <= b < left.len() && a != b implies are_apart(
        plan,
        disk,
        #[trigger] left[a],
        #[trigger] left[b],
    ) by {
        let x = origin(plan, parts, outcomes, a);
        let y = origin(plan, parts, outcomes, b);
        assert(comes_from(plan, parts, outcomes, a));
        assert(comes_from(plan, parts, outcomes, b));
        if first <= a < first + kept.len() && first <= b < first + kept.len() {
            assert(left[a] == kept[a - first]);
            assert(left[b] == kept[b - first]);
        } else {
            assert(x != y);
            assert(are_apart(plan, disk, plan.files[x], plan.files[y]));
            lemma_stems_apart(plan, disk, left[a], plan.files[x], left[b], plan.files[y]);
        }
    }
    assert forall|a: int, b: int|
        0 <= a < left.len() && 0 <= b < swapped.len() implies are_apart(
        plan,
        disk,
        #[trigger] left[a],
        #[trigger] swapped[b],
    ) by {
        let x = origin(plan, parts, outcomes, a);
        assert(comes_from(plan, parts, outcomes, a));
        assert(is_some_share(
            plan,
            updated,
            outcomes,
            swapped[b],
            outcomes.len() as int,
            true,
        ));
        let i = choose|i: int|
            i < outcomes.len() && #[trigger] is_share(
                plan,
                updated,
                outcomes,
                swapped[b],
                i,
                true,
            );
        let y = first + i;
        assert(plan.files[y] == updated[i].1);
        assert(x != y);
        assert(are_apart(plan, disk, plan.files[x], plan.files[y]));
        lemma_stems_apart(plan, disk, left[a], plan.files[x], swapped[b], plan.files[y]);
    }
}

/// The entries of the final plan belong to the plan and lie apart.
proof fn lemma_final_apart(plan: Plan, disk: Disk, parts: SplitView, outcomes: Seq<Outcome>)
    requires
        plan.files == parts.fresh + news_of(parts.updated) + parts.same,
        outcomes.len() == parts.updated.len(),
        all_apart(plan, disk, plan.files),
    ensures
        all_apart(plan, disk, final_plan(disk, plan, parts, outcomes).files),
        forall|a: int|
            0 <= a < final_plan(disk, plan, parts, outcomes).files.len() ==> belongs(
                plan,
                #[trigger] final_plan(disk, plan, parts, outcomes).files[a],
            ),
{
    let left = left_to_activate(parts, outcomes, plan.clobber_by_default);
    let swapped = swapped_of(parts.updated, outcomes, plan.clobber_by_default);
    let order = in_order(left);
    let files = swapped + order;
    let n = swapped.len() as int;
    lemma_left(plan, disk, parts, outcomes);
    lemma_in_order_apart(plan, disk, left);
    lemma_in_order_members(left);
    assert forall|a: int| 0 <= a < files.len() implies belongs(plan, #[trigger] files[a]) by {
        if a < n {
            assert(files[a] == swapped[a]);
        } else {
            assert(files[a] == order[a - n]);
            let at = choose|at: int| 0 <= at < left.len() && left[at] == order[a - n];
            assert(belongs(plan, left[at]));
        }
    }
    assert forall|a: int, b: int| 0 <= a < n && 0 <= b < order.len() implies are_apart(
        plan,
        disk,
        #[trigger] swapped[a],
        #[trigger] order[b],
    ) by {
        let at = choose|at: int| 0 <= at < left.len() && left[at] == order[b];
        assert(are_apart(plan, disk, left[at], swapped[a]));
    }
    assert forall|a: int, b: int|
        0 <= a < files.len() && 0 <= b < files.len() && a != b implies are_apart(
        plan,
        disk,
        #[trigger] files[a],
        #[trigger] files[b],
    ) by {
        if a < n {
            assert(files[a] == swapped[a]);
        } else {
            assert(files[a] == order[a - n]);
        }
        if b < n {
            assert(files[b] == swapped[b]);
        } else {
            assert(files[b] == order[b - n]);
        }
    }
}

proof fn lemma_settled_wide(plan: Plan, narrow: Plan, disk: Disk, key: Key, limit: nat)
    requires
        forall|k: Key| #[trigger] narrow.reaches(disk, k) ==> plan.reaches(disk, k),
        plan.is_settled(disk, key, limit),
    ensures
        narrow.is_settled(disk, key, limit),
    decreases limit,
{
    if disk.has(key) && disk.nodes[key].content is Link && limit > 0 {
        lemma_settled_wide(
            plan,
            narrow,
            disk,
            key_from(key.drop_last(), disk.nodes[key].content->Link_0),
            (limit - 1) as nat,
        );
    }
}

/// The final plan touches nothing that the plan does not.
pub(crate) proof fn lemma_final_reach(
    plan: Plan,
    start: Disk,
    disk: Disk,
    parts: SplitView,
    outcomes: Seq<Outcome>,
)
    requires
        plan.files == parts.fresh + news_of(parts.updated) + parts.same,
        outcomes.len() == parts.updated.len(),
        all_apart(plan, start, plan.files),
        same_frame(start, disk),
    ensures
        forall|k: Key| #[trigger]
            final_plan(start, plan, parts, outcomes).entries_touch(disk, k)
                ==> plan.entries_touch(disk, k),
        forall|k: Key| #[trigger]
            final_plan(start, plan, parts, outcomes).reaches(disk, k) ==> plan.reaches(disk, k),
        forall|k: Key| #[trigger]
            final_plan(start, plan, parts, outcomes).leads_through(disk, k)
                ==> plan.leads_through(disk, k),
{
    let narrow = final_plan(start, plan, parts, outcomes);
    lemma_final_apart(plan, start, parts, outcomes);
    assert forall|k: Key| #[trigger]
        narrow.leads_through(disk, k) implies plan.leads_through(disk, k) by {
        let a = choose|a: int|
            0 <= a < narrow.files.len() && below(disk.key((#[trigger] narrow.files[a]).target), k);
        assert(belongs(plan, narrow.files[a]));
        let i = choose|i: int|
            0 <= i < plan.files.len() && #[trigger] stems_from(
                plan,
                narrow.files[a],
                plan.files[i],
            );
        assert(below(disk.key(plan.files[i].target), k));
    }
    assert forall|k: Key| #[trigger]
        narrow.entries_touch(disk, k) implies plan.entries_touch(disk, k) by {
        let a = choose|a: int|
            0 <= a < narrow.files.len() && #[trigger] narrow.entry_touches(disk, a, k);
        let file = narrow.files[a];
        assert(belongs(plan, file));
        let i = choose|i: int|
            0 <= i < plan.files.len() && #[trigger] stems_from(plan, file, plan.files[i]);
        lemma_stems(plan, disk, file, plan.files[i]);
        assert(plan.entry_touches(disk, i, k));
    }
    assert forall|k: Key| #[trigger] narrow.reaches(disk, k) implies plan.reaches(disk, k) by {
        if narrow.others.contains(k) {
            lemma_same_reach(plan, start, disk, k);
        }
    }
}

/// The final plan is coherent where the plan has been steady.
pub(crate) proof fn lemma_final_coherent(
    plan: Plan,
    start: Disk,
    disk: Disk,
    parts: SplitView,
    outcomes: Seq<Outcome>,
)
    requires
        plan.files == parts.fresh + news_of(parts.updated) + parts.same,
        outcomes.len() == parts.updated.len(),
        plan.is_coherent(start),
        is_steady(plan, start, disk),
    ensures
        final_plan(start, plan, parts, outcomes).is_coherent(disk),
{
    let narrow = final_plan(start, plan, parts, outcomes);
    lemma_coherent_apart(plan, start);
    lemma_final_apart(plan, start, parts, outcomes);
    lemma_final_reach(plan, start, disk, parts, outcomes);
    assert forall|a: int| 0 <= a < narrow.files.len() implies #[trigger] narrow.entry_fits(
        disk,
        a,
    ) by {
        let file = narrow.files[a];
        let key = disk.key(file.target);
        assert(belongs(plan, file));
        let i = choose|i: int|
            0 <= i < plan.files.len() && #[trigger] stems_from(plan, file, plan.files[i]);
        assert(plan.entry_fits(start, i));
        assert(plan.source_settled(disk, i));
        assert(plan.target_settled(disk, i));
        if takes_source(file.kind) && file.source is Some {
            lemma_settled_wide(
                plan,
                narrow,
                disk,
                disk.key(file.source->0),
                link_limit(),
            );
        }
        if disk.has(key) && disk.nodes[key].content is Link && file.kind is Symlink
            && file.follow_symlinks != Some(false) {
            lemma_settled_wide(
                plan,
                narrow,
                disk,
                key_from(key.drop_last(), disk.nodes[key].content->Link_0),
                (link_limit() - 1) as nat,
            );
        }
        assert(narrow.source_settled(disk, a));
        assert(narrow.target_settled(disk, a));
    }
    assert forall|a: int, b: int|
        0 <= a < narrow.files.len() && 0 <= b < narrow.files.len() && a
            != b implies #[trigger] narrow.spares(disk, a, b) by {
        assert(are_apart(plan, start, narrow.files[a], narrow.files[b]));
        assert(narrow.clobber(a) == clobbers(narrow.files[a].clobber, plan.clobber_by_default));
        assert(disk.key(narrow.files[b].target) == start.key(narrow.files[b].target));
    }
}

} // verus!
