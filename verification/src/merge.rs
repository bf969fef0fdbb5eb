//! Manifests merged into one.
use vstd::prelude::*;

use crate::manifest::{files_view, File, FileView, Manifest, ManifestView};
use crate::text::{display, lossy_text};

verus! {

/// There was no manifest to merge.
#[derive(Debug, Clone, Copy, PartialEq, Eq, Structural)]
pub struct NoManifests;

/// Whether two entries are about the same thing: the same kind, at the same
/// target as it is shown.
pub open spec fn same_key(a: FileView, b: FileView) -> bool {
    a.kind == b.kind && lossy_text(a.target) == lossy_text(b.target)
}

/// Where in `list` the entry with the key of `file` stands.
pub open spec fn key_position(list: Seq<FileView>, file: FileView) -> Option<int>
    decreases list.len(),
{
    if list.len() == 0 {
        None
    } else {
        match key_position(list.drop_last(), file) {
            Some(at) => Some(at),
            None => if same_key(list.last(), file) {
                Some(list.len() - 1)
            } else {
                None
            },
        }
    }
}

/// `list` with `file` in the place of the entry with its key, or behind all
/// others where there is none.
pub open spec fn put(list: Seq<FileView>, file: FileView) -> Seq<FileView> {
    match key_position(list, file) {
        Some(at) => list.update(at, file),
        None => list.push(file),
    }
}

/// The entries of `files`, each of which overrides those before it that have
/// its key.
pub open spec fn overridden(files: Seq<FileView>) -> Seq<FileView>
    decreases files.len(),
{
    if files.len() == 0 {
        files
    } else {
        put(overridden(files.drop_last()), files.last())
    }
}

pub open spec fn manifests_view(manifests: Seq<Manifest>) -> Seq<ManifestView> {
    manifests.map_values(|m: Manifest| m@)
}

/// The entries of all manifests, from left to right.
pub open spec fn all_files(manifests: Seq<ManifestView>) -> Seq<FileView>
    decreases manifests.len(),
{
    if manifests.len() == 0 {
        Seq::<FileView>::empty()
    } else {
        all_files(manifests.drop_last()) + manifests.last().files
    }
}

proof fn lemma_key_position(list: Seq<FileView>, file: FileView)
    ensures
        match key_position(list, file) {
            Some(at) => 0 <= at < list.len() && same_key(list[at], file),
            None => forall|i: int| 0 <= i < list.len() ==> !same_key(#[trigger] list[i], file),
        },
    decreases list.len(),
{
    if list.len() > 0 {
        let front = list.drop_last();
        lemma_key_position(front, file);
        match key_position(front, file) {
            Some(at) => {
                assert(front[at] == list[at]);
            },
            None => {
                assert forall|i: int| 0 <= i < list.len() - 1 implies !same_key(
                    #[trigger] list[i],
                    file,
                ) by {
                    assert(front[i] == list[i]);
                }
            },
        }
    }
}

/// Whether no two entries have the same key.
pub open spec fn distinct_keys(list: Seq<FileView>) -> bool {
    forall|i: int, j: int| 0 <= i < j < list.len() ==> !same_key(list[i], list[j])
}

/// Merging leaves one entry for each key.
pub proof fn law_merge_distinct(files: Seq<FileView>)
    ensures
        distinct_keys(overridden(files)),
    decreases files.len(),
{
    if files.len() > 0 {
        let front = overridden(files.drop_last());
        let last = files.last();
        law_merge_distinct(files.drop_last());
        lemma_key_position(front, last);
        let whole = overridden(files);
        assert forall|i: int, j: int| 0 <= i < j < whole.len() implies !same_key(
            whole[i],
            whole[j],
        ) by {
            match key_position(front, last) {
                Some(at) => {
                    assert(!same_key(front[i], front[j]));
                },
                None => {
                    if j < front.len() {
                        assert(!same_key(front[i], front[j]));
                    } else {
                        assert(!same_key(front[i], last));
                    }
                },
            }
        }
    }
}

/// Whether no entry behind `index` has the key of the one that stands there.
pub open spec fn is_last_of_key(files: Seq<FileView>, index: int) -> bool {
    forall|j: int| index < j < files.len() ==> !same_key(#[trigger] files[j], files[index])
}

/// The right hand side overrides the left: what merging keeps of each key is
/// the last entry that has it, as it stands.
pub proof fn law_merge_last_wins(files: Seq<FileView>)
    ensures
        forall|i: int|
            0 <= i < files.len() && is_last_of_key(files, i) ==> overridden(files).contains(
                #[trigger] files[i],
            ),
        forall|k: int|
            0 <= k < overridden(files).len() ==> exists|i: int|
                0 <= i < files.len() && #[trigger] is_last_of_key(files, i) && files[i]
                    == #[trigger] overridden(files)[k],
    decreases files.len(),
{
    if files.len() > 0 {
        let short = files.drop_last();
        let last = files.last();
        let front = overridden(short);
        let whole = overridden(files);
        law_merge_last_wins(short);
        law_merge_distinct(short);
        lemma_key_position(front, last);
        let place = match key_position(front, last) {
            Some(at) => at,
            None => front.len() as int,
        };
        assert(whole[place] == last);
        assert forall|i: int|
            0 <= i < files.len() && is_last_of_key(files, i) implies whole.contains(
            #[trigger] files[i],
        ) by {
            if i == files.len() - 1 {
                assert(whole[place] == files[i]);
            } else {
                assert(short[i] == files[i]);
                assert(is_last_of_key(short, i)) by {
                    assert forall|j: int| i < j < short.len() implies !same_key(
                        #[trigger] short[j],
                        short[i],
                    ) by {
                        assert(!same_key(files[j], files[i]));
                    }
                }
                assert(!same_key(files[files.len() - 1], files[i]));
                assert(front.contains(short[i]));
                let k = choose|k: int| 0 <= k < front.len() && front[k] == files[i];
                assert(k != place);
                assert(whole[k] == front[k]);
            }
        }
        assert forall|k: int| 0 <= k < whole.len() implies exists|i: int|
            0 <= i < files.len() && #[trigger] is_last_of_key(files, i) && files[i]
                == #[trigger] whole[k] by {
            if k == place {
                assert(is_last_of_key(files, files.len() - 1));
                assert(files[files.len() - 1] == whole[k]);
            } else {
                assert(whole[k] == front[k]);
                let i = choose|i: int|
                    0 <= i < short.len() && #[trigger] is_last_of_key(short, i) && short[i]
                        == front[k];
                assert(!same_key(front[k], last)) by {
                    match key_position(front, last) {
                        Some(at) => {
                            if k < at {
                                assert(!same_key(front[k], front[at]));
                            } else {
                                assert(!same_key(front[at], front[k]));
                            }
                        },
                        None => {},
                    }
                }
                assert(is_last_of_key(files, i)) by {
                    assert forall|j: int| i < j < files.len() implies !same_key(
                        #[trigger] files[j],
                        files[i],
                    ) by {
                        if j < short.len() {
                            assert(!same_key(short[j], short[i]));
                        }
                    }
                }
                assert(files[i] == whole[k]);
            }
        }
    }
}

/// Puts `file` in the place of the entry with its key. `names` holds the targets
/// of `list` as they are shown.
fn put_file(list: &mut Vec<File>, names: &mut Vec<String>, file: File)
    requires
        names_match(old(list)@, old(names)@),
    ensures
        names_match(final(list)@, final(names)@),
        files_view(final(list)@) == put(files_view(old(list)@), file@),
{
    let name = display(&file.target);
    let ghost entries = files_view(list@);
    let mut i: usize = 0;
    while i < list.len()
        invariant
            i <= list.len(),
            names_match(list@, names@),
            entries == files_view(list@),
            list@ == old(list)@,
            names@ == old(names)@,
            name@ == lossy_text(file@.target),
            key_position(entries.take(i as int), file@) is None,
        decreases list.len() - i,
    {
        proof {
            let longer = entries.take(i + 1);
            assert(longer.drop_last() =~= entries.take(i as int));
            assert(longer.last() == list@[i as int]@);
        }
        if list[i].kind == file.kind && names[i] == name {
            proof {
                lemma_position_stays(entries, file@, i + 1);
            }
            let ghost whole = list@;
            let ghost text = names@;
            list.set(i, file);
            names.set(i, name);
            proof {
                assert(files_view(list@) =~= entries.update(i as int, file@));
                assert forall|j: int| 0 <= j < list@.len() implies (#[trigger] names@[j])@
                    == lossy_text(list@[j]@.target) by {
                    if j != i {
                        assert(names@[j] == text[j] && list@[j] == whole[j]);
                    }
                }
            }
            return;
        }
        i = i + 1;
    }
    proof {
        assert(entries.take(list.len() as int) =~= entries);
    }
    list.push(file);
    names.push(name);
    proof {
        assert(files_view(list@) =~= entries.push(file@));
    }
}

proof fn lemma_position_stays(list: Seq<FileView>, file: FileView, n: int)
    requires
        0 <= n <= list.len(),
        key_position(list.take(n), file) is Some,
    ensures
        key_position(list, file) == key_position(list.take(n), file),
    decreases list.len() - n,
{
    if n < list.len() {
        let longer = list.take(n + 1);
        assert(longer.drop_last() =~= list.take(n));
        lemma_position_stays(list, file, n + 1);
    } else {
        assert(list.take(n) =~= list);
    }
}

spec fn names_match(list: Seq<File>, names: Seq<String>) -> bool {
    &&& list.len() == names.len()
    &&& forall|i: int|
        0 <= i < list.len() ==> (#[trigger] names[i])@ == lossy_text(list[i]@.target)
}

/// Merges manifests into one: the settings are those of the last, and the
/// entries are those of all, where an entry overrides every earlier entry of
/// its kind and target as a whole.
///
/// Fails where there is no manifest.
pub fn merge_files_from_manifests(manifests: Vec<Manifest>) -> (merged: Result<
    Manifest,
    NoManifests,
>)
    ensures
        manifests@.len() == 0 <==> merged is Err,
        merged matches Ok(found) ==> found@ == (ManifestView {
            files: overridden(all_files(manifests_view(manifests@))),
            ..manifests@.last()@
        }),
{
    if manifests.len() == 0 {
        return Err(NoManifests);
    }
    let mut list: Vec<File> = Vec::new();
    let mut names: Vec<String> = Vec::new();
    let ghost views = manifests_view(manifests@);
    let mut m: usize = 0;
    proof {
        assert(views.take(0) =~= Seq::<ManifestView>::empty());
        assert(files_view(list@) =~= overridden(all_files(views.take(0))));
    }
    while m < manifests.len()
        invariant
            m <= manifests.len(),
            views == manifests_view(manifests@),
            names_match(list@, names@),
            files_view(list@) == overridden(all_files(views.take(m as int))),
        decreases manifests.len() - m,
    {
        let files = &manifests[m].files;
        let ghost before = all_files(views.take(m as int));
        let ghost added = files_view(files@);
        proof {
            let longer = views.take(m + 1);
            assert(longer.drop_last() =~= views.take(m as int));
            assert(longer.last() == manifests@[m as int]@);
            assert(before + added.take(0) =~= before);
        }
        let mut i: usize = 0;
        while i < files.len()
            invariant
                i <= files.len(),
                added == files_view(files@),
                names_match(list@, names@),
                files_view(list@) == overridden(before + added.take(i as int)),
            decreases files.len() - i,
        {
            proof {
                let longer = before + added.take(i + 1);
                assert(longer.drop_last() =~= before + added.take(i as int));
                assert(longer.last() == files@[i as int]@);
            }
            put_file(&mut list, &mut names, files[i].clone());
            i = i + 1;
        }
        proof {
            assert(before + added.take(files.len() as int) =~= before + added);
        }
        m = m + 1;
    }
    proof {
        assert(views.take(manifests.len() as int) =~= views);
    }
    let last = &manifests[manifests.len() - 1];
    Ok(
        Manifest {
            files: list,
            clobber_by_default: last.clobber_by_default,
            version: last.version,
            impure: last.impure,
        },
    )
}

/// The entries of all manifests are those of the first, then those of the second,
/// and so on, each manifest's in their order.
pub proof fn law_all_files(manifests: Seq<ManifestView>, last: ManifestView)
    ensures
        all_files(Seq::<ManifestView>::empty()) == Seq::<FileView>::empty(),
        all_files(manifests.push(last)) == all_files(manifests) + last.files,
{
    assert(manifests.push(last).drop_last() =~= manifests);
}

/// Of two entries about the same thing the later one is kept and the earlier one is
/// not; entries about other things do not matter to that.
pub proof fn law_merge_overrides(files: Seq<FileView>, i: int, j: int)
    requires
        0 <= i < j < files.len(),
        files[i].kind == files[j].kind,
        lossy_text(files[i].target) == lossy_text(files[j].target),
        files[i] != files[j],
        forall|k: int| j < k < files.len() ==> (#[trigger] files[k]).kind != files[j].kind
            || lossy_text(files[k].target) != lossy_text(files[j].target),
    ensures
        overridden(files).contains(files[j]),
        !overridden(files).contains(files[i]),
{
    law_merge_last_wins(files);
    law_merge_distinct(files);
    assert(is_last_of_key(files, j)) by {
        assert forall|k: int| j < k < files.len() implies !same_key(
            #[trigger] files[k],
            files[j],
        ) by {}
    }
    let all = overridden(files);
    if all.contains(files[i]) {
        let a = choose|a: int| 0 <= a < all.len() && all[a] == files[i];
        let b = choose|b: int| 0 <= b < all.len() && all[b] == files[j];
        if a < b {
            assert(!same_key(all[a], all[b]));
        } else {
            assert(!same_key(all[b], all[a]));
        }
    }
}

} // verus!
