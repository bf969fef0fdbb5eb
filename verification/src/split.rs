//! Two manifests held against each other, entry by entry.
use vstd::prelude::*;

use crate::manifest::{files_view, same_entry, takes_source, File, FileView};
use crate::path::{parts, same_path};

verus! {

/// Whether the entry `new` takes the place of the entry `old`: it asks for the
/// same, or it puts a copy or a link where `old` was.
pub open spec fn takes_over(new: FileView, old: FileView) -> bool {
    same_entry(new, old) || (takes_source(new.kind) && same_path(new.target, old.target))
}

/// The first of `files` that takes the place of `old`.
pub open spec fn successor(files: Seq<FileView>, old: FileView) -> Option<int>
    decreases files.len(),
{
    if files.len() == 0 {
        None
    } else {
        match successor(files.drop_last(), old) {
            Some(at) => Some(at),
            None => if takes_over(files.last(), old) {
                Some(files.len() - 1)
            } else {
                None
            },
        }
    }
}

/// `list` without the element at `at`, whose place the last one takes.
pub open spec fn swap_removed<T>(list: Seq<T>, at: int) -> Seq<T> {
    list.update(at, list.last()).drop_last()
}

/// What becomes of the entries of two manifests.
pub struct SplitView {
    /// Old entries whose place no new entry takes.
    pub removed: Seq<FileView>,
    /// Old entries with the new entries that take their place.
    pub updated: Seq<(FileView, FileView)>,
    /// New entries that ask for what an old entry asked for.
    pub same: Seq<FileView>,
    /// New entries that take the place of no old one.
    pub fresh: Seq<FileView>,
}

/// What one more old entry makes of a split.
pub open spec fn split_step(so_far: SplitView, old: FileView) -> SplitView {
    match successor(so_far.fresh, old) {
        None => SplitView { removed: so_far.removed.push(old), ..so_far },
        Some(at) => {
            let new = so_far.fresh[at];
            let fresh = swap_removed(so_far.fresh, at);
            if same_entry(new, old) {
                SplitView { same: so_far.same.push(new), fresh, ..so_far }
            } else {
                SplitView { updated: so_far.updated.push((old, new)), fresh, ..so_far }
            }
        },
    }
}

/// Holds the entries `olds` against `news`: each old entry, from the first to
/// the last, is paired with the first entry that takes its place among those
/// that are left.
pub open spec fn split(olds: Seq<FileView>, news: Seq<FileView>) -> SplitView
    decreases olds.len(),
{
    if olds.len() == 0 {
        SplitView {
            removed: Seq::<FileView>::empty(),
            updated: Seq::<(FileView, FileView)>::empty(),
            same: Seq::<FileView>::empty(),
            fresh: news,
        }
    } else {
        split_step(split(olds.drop_last(), news), olds.last())
    }
}

proof fn lemma_successor(files: Seq<FileView>, old: FileView)
    ensures
        match successor(files, old) {
            Some(at) => 0 <= at < files.len() && takes_over(files[at], old) && forall|i: int|
                0 <= i < at ==> !takes_over(#[trigger] files[i], old),
            None => forall|i: int| 0 <= i < files.len() ==> !takes_over(#[trigger] files[i], old),
        },
    decreases files.len(),
{
    if files.len() > 0 {
        let front = files.drop_last();
        lemma_successor(front, old);
        match successor(front, old) {
            Some(at) => {
                assert(front[at] == files[at]);
                assert forall|i: int| 0 <= i < at implies !takes_over(#[trigger] files[i], old) by {
                    assert(front[i] == files[i]);
                }
            },
            None => {
                assert forall|i: int| 0 <= i < files.len() - 1 implies !takes_over(
                    #[trigger] files[i],
                    old,
                ) by {
                    assert(front[i] == files[i]);
                }
            },
        }
    }
}

/// The new entries of the pairs.
pub open spec fn news_of(updated: Seq<(FileView, FileView)>) -> Seq<FileView> {
    updated.map_values(|pair: (FileView, FileView)| pair.1)
}

proof fn lemma_swap_removed<T>(list: Seq<T>, at: int)
    requires
        0 <= at < list.len(),
    ensures
        swap_removed(list, at).to_multiset().insert(list[at]) =~= list.to_multiset(),
        swap_removed(list, at).len() == list.len() - 1,
{
    broadcast use vstd::seq_lib::group_to_multiset_ensures;

    let moved = list.update(at, list.last());
    assert(moved.to_multiset() =~= list.to_multiset().insert(list.last()).remove(list[at]));
    let short = swap_removed(list, at);
    assert(moved =~= short.push(moved.last()));
    assert(moved.to_multiset() =~= short.to_multiset().insert(moved.last()));
    if at == list.len() - 1 {
        assert(moved =~= list);
        assert(moved.last() == list[at]);
    } else {
        assert(moved.last() == list.last());
        assert(short.to_multiset().insert(list.last()) =~= list.to_multiset().insert(
            list.last(),
        ).remove(list[at]));
        assert(list.to_multiset().contains(list[at]));
        assert forall|x: T|
            short.to_multiset().insert(list[at]).count(x) == list.to_multiset().count(x) by {
            assert(short.to_multiset().insert(list.last()).count(x)
                == list.to_multiset().insert(list.last()).remove(list[at]).count(x));
        }
    }
}

/// Every new entry ends up in exactly one place: as fresh, as the new half of a
/// pair, or as unchanged.
pub proof fn law_split_keeps_new(olds: Seq<FileView>, news: Seq<FileView>)
    ensures
        ({
            let parts = split(olds, news);
            parts.fresh.to_multiset().add(news_of(parts.updated).to_multiset()).add(
                parts.same.to_multiset(),
            ) =~= news.to_multiset()
        }),
    decreases olds.len(),
{
    broadcast use vstd::seq_lib::group_to_multiset_ensures;

    let parts = split(olds, news);
    if olds.len() == 0 {
        assert(news_of(parts.updated) =~= Seq::<FileView>::empty());
    } else {
        let before = split(olds.drop_last(), news);
        let old = olds.last();
        law_split_keeps_new(olds.drop_last(), news);
        lemma_successor(before.fresh, old);
        match successor(before.fresh, old) {
            None => {},
            Some(at) => {
                lemma_swap_removed(before.fresh, at);
                let new = before.fresh[at];
                if !same_entry(new, old) {
                    assert(news_of(parts.updated) =~= news_of(before.updated).push(new));
                }
            },
        }
    }
}

/// Where an old entry went.
pub open spec fn is_accounted_for(parts: SplitView, old: FileView) -> bool {
    ||| parts.removed.contains(old)
    ||| exists|i: int|
        0 <= i < parts.updated.len() && (#[trigger] parts.updated[i]).0 == old && takes_over(
            parts.updated[i].1,
            old,
        ) && !same_entry(parts.updated[i].1, old)
    ||| exists|i: int| 0 <= i < parts.same.len() && same_entry(#[trigger] parts.same[i], old)
}

/// Every old entry ends up removed, paired with a changed entry that takes its
/// place, or unchanged; and the three have as many members as there are old
/// entries.
pub proof fn law_split_keeps_old(olds: Seq<FileView>, news: Seq<FileView>)
    ensures
        ({
            let parts = split(olds, news);
            &&& olds.len() == parts.removed.len() + parts.updated.len() + parts.same.len()
            &&& forall|k: int|
                0 <= k < olds.len() ==> is_accounted_for(parts, #[trigger] olds[k])
        }),
    decreases olds.len(),
{
    if olds.len() > 0 {
        let parts = split(olds, news);
        let front = olds.drop_last();
        let before = split(front, news);
        let old = olds.last();
        law_split_keeps_old(front, news);
        lemma_successor(before.fresh, old);
        assert forall|k: int| 0 <= k < olds.len() implies is_accounted_for(
            parts,
            #[trigger] olds[k],
        ) by {
            if k < front.len() {
                assert(is_accounted_for(before, front[k]));
                let one = front[k];
                if before.removed.contains(one) {
                    let i = choose|i: int|
                        0 <= i < before.removed.len() && before.removed[i] == one;
                    assert(parts.removed[i] == one);
                } else if exists|i: int|
                    0 <= i < before.updated.len() && (#[trigger] before.updated[i]).0 == one
                        && takes_over(before.updated[i].1, one) && !same_entry(
                        before.updated[i].1,
                        one,
                    ) {
                    let i = choose|i: int|
                        0 <= i < before.updated.len() && (#[trigger] before.updated[i]).0 == one
                            && takes_over(before.updated[i].1, one) && !same_entry(
                            before.updated[i].1,
                            one,
                        );
                    assert(parts.updated[i] == before.updated[i]);
                } else {
                    let i = choose|i: int|
                        0 <= i < before.same.len() && same_entry(#[trigger] before.same[i], one);
                    assert(parts.same[i] == before.same[i]);
                }
            } else {
                match successor(before.fresh, old) {
                    None => {
                        assert(parts.removed[before.removed.len() as int] == old);
                    },
                    Some(at) => {
                        if same_entry(before.fresh[at], old) {
                            assert(parts.same[before.same.len() as int] == before.fresh[at]);
                        } else {
                            assert(parts.updated[before.updated.len() as int] == (
                                old,
                                before.fresh[at],
                            ));
                        }
                    },
                }
            }
        }
    }
}

proof fn lemma_fresh_shrinks(olds: Seq<FileView>, news: Seq<FileView>)
    ensures
        forall|i: int|
            0 <= i < split(olds, news).fresh.len() ==> news.contains(
                #[trigger] split(olds, news).fresh[i],
            ),
    decreases olds.len(),
{
    if olds.len() > 0 {
        let before = split(olds.drop_last(), news);
        lemma_fresh_shrinks(olds.drop_last(), news);
        lemma_successor(before.fresh, olds.last());
    } else {
        assert forall|i: int| 0 <= i < news.len() implies news.contains(#[trigger] news[i]) by {}
    }
}

/// An old entry whose place no new entry takes is removed; and what is removed
/// is an old entry whose place nothing takes that is left.
pub proof fn law_split_removes(olds: Seq<FileView>, news: Seq<FileView>)
    ensures
        forall|k: int|
            0 <= k < olds.len() && (forall|j: int|
                0 <= j < news.len() ==> !takes_over(#[trigger] news[j], olds[k])) ==> split(
                olds,
                news,
            ).removed.contains(#[trigger] olds[k]),
        forall|r: int, f: int|
            0 <= r < split(olds, news).removed.len() && 0 <= f < split(olds, news).fresh.len()
                ==> !takes_over(
                #[trigger] split(olds, news).fresh[f],
                #[trigger] split(olds, news).removed[r],
            ),
        forall|r: int|
            0 <= r < split(olds, news).removed.len() ==> olds.contains(
                #[trigger] split(olds, news).removed[r],
            ),
    decreases olds.len(),
{
    if olds.len() > 0 {
        let front = olds.drop_last();
        let old = olds.last();
        let before = split(front, news);
        let parts = split(olds, news);
        law_split_removes(front, news);
        lemma_successor(before.fresh, old);
        lemma_fresh_shrinks(front, news);
        assert(olds[olds.len() - 1] == old);
        assert forall|k: int|
            0 <= k < olds.len() && (forall|j: int|
                0 <= j < news.len() ==> !takes_over(
                    #[trigger] news[j],
                    olds[k],
                )) implies parts.removed.contains(#[trigger] olds[k]) by {
            if k < front.len() {
                assert(front[k] == olds[k]);
                assert(before.removed.contains(front[k]));
                let i = choose|i: int|
                    0 <= i < before.removed.len() && before.removed[i] == olds[k];
                assert(parts.removed[i] == olds[k]);
            } else {
                if let Some(at) = successor(before.fresh, old) {
                    let new = before.fresh[at];
                    assert(news.contains(new));
                    let j = choose|j: int| 0 <= j < news.len() && news[j] == new;
                    assert(!takes_over(news[j], olds[k]));
                }
                assert(parts.removed[before.removed.len() as int] == old);
            }
        }
        assert forall|r: int, f: int|
            0 <= r < parts.removed.len() && 0 <= f < parts.fresh.len() implies !takes_over(
            #[trigger] parts.fresh[f],
            #[trigger] parts.removed[r],
        ) by {
            match successor(before.fresh, old) {
                None => {
                    if r < before.removed.len() {
                        assert(!takes_over(before.fresh[f], before.removed[r]));
                    } else {
                        assert(!takes_over(before.fresh[f], old));
                    }
                },
                Some(at) => {
                    let from = if f == at {
                        before.fresh.len() - 1
                    } else {
                        f
                    };
                    assert(parts.fresh[f] == before.fresh[from]);
                    assert(!takes_over(before.fresh[from], before.removed[r]));
                },
            }
        }
        assert forall|r: int| 0 <= r < parts.removed.len() implies olds.contains(
            #[trigger] parts.removed[r],
        ) by {
            if r < before.removed.len() {
                assert(front.contains(before.removed[r]));
                let k = choose|k: int| 0 <= k < front.len() && front[k] == before.removed[r];
                assert(olds[k] == parts.removed[r]);
            }
        }
    }
}

/// Whether no two entries have the same target.
pub open spec fn distinct_targets(files: Seq<FileView>) -> bool {
    forall|i: int, j: int|
        0 <= i < j < files.len() ==> !same_path(
            (#[trigger] files[i]).target,
            (#[trigger] files[j]).target,
        )
}

proof fn lemma_split_self(files: Seq<FileView>, n: int)
    requires
        distinct_targets(files),
        0 <= n <= files.len(),
    ensures
        ({
            let parts = split(files.take(n), files);
            &&& parts.removed.len() == 0
            &&& parts.updated.len() == 0
            &&& parts.same =~= files.take(n)
            &&& parts.fresh.len() == files.len() - n
            &&& forall|k: int| n <= k < files.len() ==> parts.fresh.contains(#[trigger] files[k])
            &&& forall|f: int|
                0 <= f < parts.fresh.len() ==> files.skip(n).contains(#[trigger] parts.fresh[f])
            &&& distinct_targets(parts.fresh)
        }),
    decreases n,
{
    let parts = split(files.take(n), files);
    if n == 0 {
        assert(parts.same =~= files.take(0));
        assert forall|k: int| 0 <= k < files.len() implies parts.fresh.contains(
            #[trigger] files[k],
        ) by {
            assert(parts.fresh[k] == files[k]);
        }
        assert forall|f: int| 0 <= f < parts.fresh.len() implies files.skip(n).contains(
            #[trigger] parts.fresh[f],
        ) by {
            assert(files.skip(n)[f] == parts.fresh[f]);
        }
    } else {
        let before = split(files.take(n - 1), files);
        let old = files[n - 1];
        lemma_split_self(files, n - 1);
        assert(files.take(n).drop_last() =~= files.take(n - 1));
        assert(files.take(n).last() == old);
        lemma_successor(before.fresh, old);
        assert(before.fresh.contains(old));
        let spot = choose|i: int| 0 <= i < before.fresh.len() && before.fresh[i] == old;
        assert(takes_over(before.fresh[spot], old));
        let at = successor(before.fresh, old)->0;
        assert(at == spot) by {
            let a = before.fresh[at];
            if at < spot {
                assert(!same_path(before.fresh[at].target, before.fresh[spot].target));
            }
            if spot < at {
                assert(!takes_over(before.fresh[spot], old));
            }
        }
        assert(parts.same =~= files.take(n));
        assert forall|k: int| n <= k < files.len() implies parts.fresh.contains(
            #[trigger] files[k],
        ) by {
            assert(before.fresh.contains(files[k]));
            let i = choose|i: int| 0 <= i < before.fresh.len() && before.fresh[i] == files[k];
            assert(!same_path(files[n - 1].target, files[k].target));
            assert(i != at);
            if i == before.fresh.len() - 1 {
                assert(parts.fresh[at] == files[k]);
            } else {
                assert(parts.fresh[i] == files[k]);
            }
        }
        assert forall|f: int| 0 <= f < parts.fresh.len() implies files.skip(n).contains(
            #[trigger] parts.fresh[f],
        ) by {
            let from = if f == at {
                before.fresh.len() - 1
            } else {
                f
            };
            assert(parts.fresh[f] == before.fresh[from]);
            let rest = files.skip(n - 1);
            assert(rest.contains(before.fresh[from]));
            let m = choose|m: int| 0 <= m < rest.len() && rest[m] == before.fresh[from];
            let k = m + n - 1;
            assert(files[k] == before.fresh[from]);
            assert(k != n - 1) by {
                if k == n - 1 {
                    if from < at {
                        assert(!same_path(before.fresh[from].target, before.fresh[at].target));
                    } else {
                        assert(!same_path(before.fresh[at].target, before.fresh[from].target));
                    }
                }
            }
            assert(files.skip(n)[k - n] == parts.fresh[f]);
        }
        assert forall|i: int, j: int| 0 <= i < j < parts.fresh.len() implies !same_path(
            (#[trigger] parts.fresh[i]).target,
            (#[trigger] parts.fresh[j]).target,
        ) by {
            let a = if i == at {
                before.fresh.len() - 1
            } else {
                i
            };
            let b = if j == at {
                before.fresh.len() - 1
            } else {
                j
            };
            assert(parts.fresh[i] == before.fresh[a] && parts.fresh[j] == before.fresh[b]);
            if a < b {
                assert(!same_path(before.fresh[a].target, before.fresh[b].target));
            } else {
                assert(!same_path(before.fresh[b].target, before.fresh[a].target));
            }
        }
    }
}

/// A manifest held against itself has no delta: nothing is removed, changed or
/// added, as long as no two entries have the same target.
pub proof fn law_split_self(files: Seq<FileView>)
    requires
        distinct_targets(files),
    ensures
        split(files, files).removed.len() == 0,
        split(files, files).updated.len() == 0,
        split(files, files).fresh.len() == 0,
        split(files, files).same == files,
{
    lemma_split_self(files, files.len() as int);
    assert(files.take(files.len() as int) =~= files);
}

/// What is unchanged asks for what an old entry asked for, setting by setting; and
/// what is changed is a copy or a link at the target of an old entry, and differs
/// from that in some setting.
pub proof fn law_split_pairs(olds: Seq<FileView>, news: Seq<FileView>)
    ensures
        forall|s: int|
            0 <= s < split(olds, news).same.len() ==> has_equal(
                olds,
                #[trigger] split(olds, news).same[s],
            ),
        forall|u: int|
            0 <= u < split(olds, news).updated.len() ==> {
                let pair = #[trigger] split(olds, news).updated[u];
                &&& olds.contains(pair.0)
                &&& news.contains(pair.1)
                &&& pair.1.kind is Copy || pair.1.kind is Symlink
                &&& parts(pair.1.target) == parts(pair.0.target)
                &&& !settings_agree(pair.0, pair.1)
            },
    decreases olds.len(),
{
    if olds.len() > 0 {
        let front = olds.drop_last();
        let old = olds.last();
        let before = split(front, news);
        let all = split(olds, news);
        law_split_pairs(front, news);
        lemma_successor(before.fresh, old);
        lemma_fresh_shrinks(front, news);
        assert(olds[olds.len() - 1] == old);
        assert forall|s: int| 0 <= s < all.same.len() implies has_equal(
            olds,
            #[trigger] all.same[s],
        ) by {
            if s < before.same.len() {
                assert(all.same[s] == before.same[s]);
                assert(has_equal(front, before.same[s]));
                let k = choose|k: int|
                    0 <= k < front.len() && settings_agree(#[trigger] front[k], before.same[s]);
                assert(olds[k] == front[k]);
            } else {
                assert(settings_agree(olds[olds.len() - 1], all.same[s]));
            }
        }
        assert forall|u: int| 0 <= u < all.updated.len() implies {
            let pair = #[trigger] all.updated[u];
            &&& olds.contains(pair.0)
            &&& news.contains(pair.1)
            &&& pair.1.kind is Copy || pair.1.kind is Symlink
            &&& parts(pair.1.target) == parts(pair.0.target)
            &&& !settings_agree(pair.0, pair.1)
        } by {
            if u < before.updated.len() {
                assert(all.updated[u] == before.updated[u]);
                assert(front.contains(before.updated[u].0));
                let k = choose|k: int| 0 <= k < front.len() && front[k] == before.updated[u].0;
                assert(olds[k] == front[k]);
            }
        }
    }
}

/// Whether two entries agree in every setting, paths by components.
pub open spec fn settings_agree(a: FileView, b: FileView) -> bool {
    &&& a.kind == b.kind
    &&& a.clobber == b.clobber
    &&& a.permissions == b.permissions
    &&& a.uid == b.uid
    &&& a.gid == b.gid
    &&& a.deactivate == b.deactivate
    &&& a.follow_symlinks == b.follow_symlinks
    &&& a.ignore_modification == b.ignore_modification
    &&& parts(a.target) == parts(b.target)
    &&& a.source is Some <==> b.source is Some
    &&& a.source is Some ==> parts(a.source->0) == parts(b.source->0)
}

/// Whether an entry agrees in every setting with one of the old entries.
pub open spec fn has_equal(olds: Seq<FileView>, new: FileView) -> bool {
    exists|k: int| 0 <= k < olds.len() && settings_agree(#[trigger] olds[k], new)
}

/// What holds of the first `n` old entries when no two entries of a manifest have
/// the same target: every new entry is paired with the one that it takes the place
/// of, and is left exactly if there is none.
spec fn are_classified(olds: Seq<FileView>, news: Seq<FileView>, n: int) -> bool {
    let all = split(olds.take(n), news);
    &&& distinct_targets(all.fresh)
    &&& forall|j: int|
        0 <= j < news.len() ==> (all.fresh.contains(#[trigger] news[j]) <==> forall|i: int|
            0 <= i < n ==> !takes_over(news[j], #[trigger] olds[i]))
    &&& forall|i: int, j: int|
        0 <= i < n && 0 <= j < news.len() && #[trigger] takes_over(news[j], olds[i])
            ==> if settings_agree(news[j], olds[i]) {
            all.same.contains(news[j])
        } else {
            all.updated.contains((olds[i], news[j]))
        }
}

proof fn lemma_classified(olds: Seq<FileView>, news: Seq<FileView>, n: int)
    requires
        distinct_targets(olds),
        distinct_targets(news),
        0 <= n <= olds.len(),
    ensures
        are_classified(olds, news, n),
    decreases n,
{
    let all = split(olds.take(n), news);
    if n == 0 {
        assert forall|j: int| 0 <= j < news.len() implies all.fresh.contains(
            #[trigger] news[j],
        ) by {
            assert(all.fresh[j] == news[j]);
        }
    } else {
        let before = split(olds.take(n - 1), news);
        let old = olds[n - 1];
        lemma_classified(olds, news, n - 1);
        assert(olds.take(n).drop_last() =~= olds.take(n - 1));
        assert(olds.take(n).last() == old);
        lemma_successor(before.fresh, old);
        lemma_fresh_shrinks(olds.take(n - 1), news);
        assert forall|j: int, i: int|
            0 <= j < news.len() && 0 <= i < n - 1 && takes_over(news[j], old) implies !takes_over(
            #[trigger] news[j],
            #[trigger] olds[i],
        ) by {
            if takes_over(news[j], olds[i]) {
                assert(!same_path(olds[i].target, olds[n - 1].target));
            }
        }
        match successor(before.fresh, old) {
            None => {
                assert forall|j: int| 0 <= j < news.len() implies !takes_over(
                    #[trigger] news[j],
                    old,
                ) by {
                    if takes_over(news[j], old) {
                        assert(before.fresh.contains(news[j]));
                        let f = choose|f: int|
                            0 <= f < before.fresh.len() && before.fresh[f] == news[j];
                        assert(!takes_over(before.fresh[f], old));
                    }
                }
                assert forall|j: int| 0 <= j < news.len() implies (all.fresh.contains(
                    #[trigger] news[j],
                ) <==> forall|i: int| 0 <= i < n ==> !takes_over(news[j], #[trigger] olds[i])) by {
                    assert(all.fresh == before.fresh);
                    assert(!takes_over(news[j], olds[n - 1]));
                    if all.fresh.contains(news[j]) {
                        assert forall|i: int| 0 <= i < n implies !takes_over(
                            news[j],
                            #[trigger] olds[i],
                        ) by {
                            if i < n - 1 {
                                assert(!takes_over(news[j], olds[i]));
                            }
                        }
                    }
                }
            },
            Some(at) => {
                let new = before.fresh[at];
                assert(news.contains(new));
                let chosen = choose|j: int| 0 <= j < news.len() && news[j] == new;
                assert forall|j: int|
                    0 <= j < news.len() && #[trigger] takes_over(news[j], old) implies j
                    == chosen by {
                    if j < chosen {
                        assert(!same_path(news[j].target, news[chosen].target));
                    } else if chosen < j {
                        assert(!same_path(news[chosen].target, news[j].target));
                    }
                }
                assert forall|f: int| 0 <= f < all.fresh.len() implies before.fresh.contains(
                    #[trigger] all.fresh[f],
                ) && all.fresh[f] != new by {
                    let from = if f == at {
                        before.fresh.len() - 1
                    } else {
                        f
                    };
                    assert(all.fresh[f] == before.fresh[from]);
                    if from < at {
                        assert(!same_path(before.fresh[from].target, before.fresh[at].target));
                    } else {
                        assert(at < from);
                        assert(!same_path(before.fresh[at].target, before.fresh[from].target));
                    }
                }
                assert forall|j: int| 0 <= j < news.len() implies (all.fresh.contains(
                    #[trigger] news[j],
                ) <==> forall|i: int| 0 <= i < n ==> !takes_over(news[j], #[trigger] olds[i])) by {
                    if all.fresh.contains(news[j]) {
                        let f = choose|f: int| 0 <= f < all.fresh.len() && all.fresh[f] == news[j];
                        assert(before.fresh.contains(all.fresh[f]));
                        assert(j != chosen);
                        assert forall|i: int| 0 <= i < n implies !takes_over(
                            news[j],
                            #[trigger] olds[i],
                        ) by {
                            if i < n - 1 {
                                assert(!takes_over(news[j], olds[i]));
                            } else {
                                assert(!takes_over(news[j], old));
                            }
                        }
                    }
                    if forall|i: int| 0 <= i < n ==> !takes_over(news[j], #[trigger] olds[i]) {
                        assert(before.fresh.contains(news[j])) by {
                            assert forall|i: int| 0 <= i < n - 1 implies !takes_over(
                                news[j],
                                #[trigger] olds[i],
                            ) by {}
                        }
                        assert(!takes_over(news[j], olds[n - 1]));
                        let f = choose|f: int|
                            0 <= f < before.fresh.len() && before.fresh[f] == news[j];
                        assert(f != at);
                        if f == before.fresh.len() - 1 {
                            assert(all.fresh[at] == news[j]);
                        } else {
                            assert(all.fresh[f] == news[j]);
                        }
                    }
                }
                assert forall|i: int, j: int| 0 <= i < j < all.fresh.len() implies !same_path(
                    (#[trigger] all.fresh[i]).target,
                    (#[trigger] all.fresh[j]).target,
                ) by {
                    let a = if i == at {
                        before.fresh.len() - 1
                    } else {
                        i
                    };
                    let b = if j == at {
                        before.fresh.len() - 1
                    } else {
                        j
                    };
                    assert(all.fresh[i] == before.fresh[a] && all.fresh[j] == before.fresh[b]);
                    if a < b {
                        assert(!same_path(before.fresh[a].target, before.fresh[b].target));
                    } else {
                        assert(!same_path(before.fresh[b].target, before.fresh[a].target));
                    }
                }
            },
        }
        assert forall|i: int, j: int|
            0 <= i < n && 0 <= j < news.len() && #[trigger] takes_over(news[j], olds[i]) implies (
        if settings_agree(news[j], olds[i]) {
            all.same.contains(news[j])
        } else {
            all.updated.contains((olds[i], news[j]))
        }) by {
            if i < n - 1 {
                if settings_agree(news[j], olds[i]) {
                    assert(before.same.contains(news[j]));
                    let s = choose|s: int| 0 <= s < before.same.len() && before.same[s] == news[j];
                    assert(all.same[s] == news[j]);
                } else {
                    assert(before.updated.contains((olds[i], news[j])));
                    let u = choose|u: int|
                        0 <= u < before.updated.len() && before.updated[u] == (olds[i], news[j]);
                    assert(all.updated[u] == (olds[i], news[j]));
                }
            } else {
                let at = successor(before.fresh, old)->0;
                assert(successor(before.fresh, old) is Some) by {
                    assert(before.fresh.contains(news[j]));
                    let f = choose|f: int| 0 <= f < before.fresh.len() && before.fresh[f]
                        == news[j];
                    assert(takes_over(before.fresh[f], old));
                }
                assert(before.fresh[at] == news[j]);
                if settings_agree(news[j], olds[i]) {
                    assert(all.same[before.same.len() as int] == news[j]);
                } else {
                    assert(all.updated[before.updated.len() as int] == (old, news[j]));
                }
            }
        }
    }
}

/// What became of an old and a new entry at one target.
pub open spec fn is_classified(all: SplitView, old: FileView, new: FileView) -> bool {
    let takes = new.kind is Copy || new.kind is Symlink;
    let agree = settings_agree(new, old);
    &&& agree ==> all.same.contains(new)
    &&& !agree && takes ==> all.updated.contains((old, new))
    &&& !agree && !takes ==> all.removed.contains(old) && all.fresh.contains(new)
}

/// Of an old and a new entry at one target: if they agree in every setting, the new
/// one is unchanged; if not, and the new one is a copy or a link, the two are a
/// change; otherwise the old one is removed and the new one is new. No two entries
/// of a manifest may have the same target.
pub proof fn law_split_classifies(olds: Seq<FileView>, news: Seq<FileView>, i: int, j: int)
    requires
        distinct_targets(olds),
        distinct_targets(news),
        0 <= i < olds.len(),
        0 <= j < news.len(),
        parts(olds[i].target) == parts(news[j].target),
    ensures
        is_classified(split(olds, news), olds[i], news[j]),
{
    let n = olds.len() as int;
    let takes = news[j].kind is Copy || news[j].kind is Symlink;
    let agree = settings_agree(news[j], olds[i]);
    lemma_classified(olds, news, n);
    assert(olds.take(n) =~= olds);
    if agree || takes {
        assert(takes_over(news[j], olds[i]));
    } else {
        assert forall|k: int| 0 <= k < news.len() implies !takes_over(
            #[trigger] news[k],
            olds[i],
        ) by {
            if k < j {
                assert(!same_path(news[k].target, news[j].target));
            } else if j < k {
                assert(!same_path(news[j].target, news[k].target));
            }
        }
        assert forall|k: int| 0 <= k < n implies !takes_over(news[j], #[trigger] olds[k]) by {
            if k < i {
                assert(!same_path(olds[k].target, olds[i].target));
            } else if i < k {
                assert(!same_path(olds[i].target, olds[k].target));
            }
        }
        law_split_removes(olds, news);
    }
}

/// A new entry whose target no old one has is new, and an old one whose target no
/// new one has is removed, as long as no two entries of a manifest have the same
/// target.
pub proof fn law_split_alone(olds: Seq<FileView>, news: Seq<FileView>, i: int, j: int)
    requires
        distinct_targets(olds),
        distinct_targets(news),
    ensures
        0 <= j < news.len() && (forall|k: int|
            0 <= k < olds.len() ==> parts((#[trigger] olds[k]).target) != parts(news[j].target))
            ==> split(olds, news).fresh.contains(news[j]),
        0 <= i < olds.len() && (forall|k: int|
            0 <= k < news.len() ==> parts((#[trigger] news[k]).target) != parts(olds[i].target))
            ==> split(olds, news).removed.contains(olds[i]),
{
    let n = olds.len() as int;
    if 0 <= j < news.len() && forall|k: int|
        0 <= k < olds.len() ==> parts((#[trigger] olds[k]).target) != parts(news[j].target) {
        lemma_classified(olds, news, n);
        assert(olds.take(n) =~= olds);
        assert forall|k: int| 0 <= k < n implies !takes_over(news[j], #[trigger] olds[k]) by {}
    }
    if 0 <= i < olds.len() && forall|k: int|
        0 <= k < news.len() ==> parts((#[trigger] news[k]).target) != parts(olds[i].target) {
        law_split_removes(olds, news);
        assert forall|k: int| 0 <= k < news.len() implies !takes_over(
            #[trigger] news[k],
            olds[i],
        ) by {}
    }
}

/// What becomes of the entries of two manifests.
#[derive(Debug)]
pub struct Split {
    pub removed: Vec<File>,
    pub updated: Vec<(File, File)>,
    pub same: Vec<File>,
    pub fresh: Vec<File>,
}

pub open spec fn pairs_view(pairs: Seq<(File, File)>) -> Seq<(FileView, FileView)> {
    pairs.map_values(|pair: (File, File)| (pair.0@, pair.1@))
}

impl View for Split {
    type V = SplitView;

    open spec fn view(&self) -> SplitView {
        SplitView {
            removed: files_view(self.removed@),
            updated: pairs_view(self.updated@),
            same: files_view(self.same@),
            fresh: files_view(self.fresh@),
        }
    }
}

fn find_successor(files: &Vec<File>, old: &File) -> (at: Option<usize>)
    ensures
        match at {
            Some(found) => successor(files_view(files@), old@) == Some(found as int) && found
                < files.len(),
            None => successor(files_view(files@), old@) is None,
        },
{
    let ghost entries = files_view(files@);
    let mut i: usize = 0;
    while i < files.len()
        invariant
            i <= files.len(),
            entries == files_view(files@),
            successor(entries.take(i as int), old@) is None,
        decreases files.len() - i,
    {
        proof {
            let longer = entries.take(i + 1);
            assert(longer.drop_last() =~= entries.take(i as int));
            assert(longer.last() == files@[i as int]@);
        }
        let file = &files[i];
        if *file == *old || (file.kind.takes_source() && file.target == old.target) {
            proof {
                lemma_successor_stays(entries, old@, i + 1);
            }
            return Some(i);
        }
        i = i + 1;
    }
    proof {
        assert(entries.take(files.len() as int) =~= entries);
    }
    None
}

proof fn lemma_successor_stays(files: Seq<FileView>, old: FileView, n: int)
    requires
        0 <= n <= files.len(),
        successor(files.take(n), old) is Some,
    ensures
        successor(files, old) == successor(files.take(n), old),
    decreases files.len() - n,
{
    if n < files.len() {
        let longer = files.take(n + 1);
        assert(longer.drop_last() =~= files.take(n));
        lemma_successor_stays(files, old, n + 1);
    } else {
        assert(files.take(n) =~= files);
    }
}

/// Holds two lists of entries against each other.
pub fn split_files(olds: &Vec<File>, news: Vec<File>) -> (parts: Split)
    ensures
        parts@ == split(files_view(olds@), files_view(news@)),
{
    let ghost before = files_view(olds@);
    let ghost after = files_view(news@);
    let mut parts = Split {
        removed: Vec::new(),
        updated: Vec::new(),
        same: Vec::new(),
        fresh: news,
    };
    proof {
        assert(before.take(0) =~= Seq::<FileView>::empty());
        assert(parts@.removed =~= Seq::<FileView>::empty());
        assert(parts@.updated =~= Seq::<(FileView, FileView)>::empty());
        assert(parts@.same =~= Seq::<FileView>::empty());
    }
    let mut i: usize = 0;
    while i < olds.len()
        invariant
            i <= olds.len(),
            before == files_view(olds@),
            parts@ == split(before.take(i as int), after),
        decreases olds.len() - i,
    {
        let old_file = &olds[i];
        let ghost so_far = parts@;
        proof {
            let longer = before.take(i + 1);
            assert(longer.drop_last() =~= before.take(i as int));
            assert(longer.last() == old_file@);
        }
        match find_successor(&parts.fresh, old_file) {
            None => {
                let kept = old_file.clone();
                parts.removed.push(kept);
                proof {
                    assert(parts@.removed =~= so_far.removed.push(old_file@));
                }
            },
            Some(at) => {
                let new_file = parts.fresh.swap_remove(at);
                proof {
                    assert(parts@.fresh =~= swap_removed(so_far.fresh, at as int));
                    assert(new_file@ == so_far.fresh[at as int]);
                }
                if new_file == *old_file {
                    parts.same.push(new_file);
                    proof {
                        assert(parts@.same =~= so_far.same.push(new_file@));
                    }
                } else {
                    let kept = old_file.clone();
                    parts.updated.push((kept, new_file));
                    proof {
                        assert(parts@.updated =~= so_far.updated.push((old_file@, new_file@)));
                    }
                }
            },
        }
        i = i + 1;
    }
    proof {
        assert(before.take(olds.len() as int) =~= before);
    }
    parts
}

} // verus!
