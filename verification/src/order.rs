//! The order in which the entries of a manifest are applied.
use vstd::prelude::*;

use crate::manifest::{files_view, precedes, rank, File, FileKind, FileView, Manifest};
use crate::path::{absolute, depth, parts};

verus! {

/// `sorted` with `file` put in behind everything that `file` does not precede.
pub open spec fn inserted(sorted: Seq<FileView>, file: FileView) -> Seq<FileView>
    decreases sorted.len(),
{
    if sorted.len() == 0 {
        seq![file]
    } else if precedes(file, sorted.last()) {
        inserted(sorted.drop_last(), file).push(sorted.last())
    } else {
        sorted.push(file)
    }
}

/// The entries in the order in which they are applied; entries of one rank and
/// depth keep the order that they have in `files`.
pub open spec fn in_order(files: Seq<FileView>) -> Seq<FileView>
    decreases files.len(),
{
    if files.len() == 0 {
        files
    } else {
        inserted(in_order(files.drop_last()), files.last())
    }
}

pub open spec fn is_sorted(files: Seq<FileView>) -> bool {
    forall|i: int, j: int| 0 <= i < j < files.len() ==> !precedes(files[j], files[i])
}

proof fn lemma_inserted_sorted(sorted: Seq<FileView>, file: FileView)
    requires
        is_sorted(sorted),
    ensures
        is_sorted(inserted(sorted, file)),
        inserted(sorted, file).len() == sorted.len() + 1,
        forall|i: int|
            0 <= i < inserted(sorted, file).len() ==> (#[trigger] inserted(sorted, file)[i] == file
                || sorted.contains(inserted(sorted, file)[i])),
    decreases sorted.len(),
{
    if sorted.len() > 0 && precedes(file, sorted.last()) {
        let front = sorted.drop_last();
        assert forall|i: int, j: int| 0 <= i < j < front.len() implies !precedes(
            front[j],
            front[i],
        ) by {
            assert(!precedes(sorted[j], sorted[i]));
        }
        lemma_inserted_sorted(front, file);
        let inner = inserted(front, file);
        let whole = inserted(sorted, file);
        assert forall|i: int| 0 <= i < whole.len() implies (#[trigger] whole[i] == file
            || sorted.contains(whole[i])) by {
            if i < inner.len() {
                assert(whole[i] == inner[i]);
                if inner[i] != file {
                    let k = choose|k: int| 0 <= k < front.len() && front[k] == inner[i];
                    assert(sorted[k] == inner[i]);
                }
            } else {
                assert(whole[i] == sorted[sorted.len() - 1]);
            }
        }
        assert forall|i: int, j: int| 0 <= i < j < whole.len() implies !precedes(
            whole[j],
            whole[i],
        ) by {
            if j == whole.len() - 1 {
                assert(whole[i] == inner[i]);
                if inner[i] != file {
                    let k = choose|k: int| 0 <= k < front.len() && front[k] == inner[i];
                    assert(sorted[k] == inner[i]);
                    assert(!precedes(sorted[sorted.len() - 1], sorted[k]));
                }
            } else {
                assert(whole[i] == inner[i] && whole[j] == inner[j]);
            }
        }
    } else if sorted.len() > 0 {
        let whole = inserted(sorted, file);
        assert forall|i: int| 0 <= i < whole.len() implies (#[trigger] whole[i] == file
            || sorted.contains(whole[i])) by {
            if i < sorted.len() {
                assert(sorted[i] == whole[i]);
            }
        }
        assert forall|i: int, j: int| 0 <= i < j < whole.len() implies !precedes(
            whole[j],
            whole[i],
        ) by {
            if j == whole.len() - 1 && i < sorted.len() - 1 {
                assert(!precedes(sorted[sorted.len() - 1], sorted[i]));
            }
        }
    }
}

/// No entry stands behind one that it precedes: directories come first, then
/// copies, symlinks, modifies and deletes, and within a kind the shallower
/// target comes first.
pub proof fn law_order_sorted(files: Seq<FileView>)
    ensures
        is_sorted(in_order(files)),
        forall|i: int, j: int|
            #![trigger in_order(files)[i], in_order(files)[j]]
            0 <= i < j < in_order(files).len() ==> {
                let a = in_order(files)[i];
                let b = in_order(files)[j];
                rank(a.kind) < rank(b.kind) || (a.kind == b.kind && depth(a.target) <= depth(
                    b.target,
                ))
            },
    decreases files.len(),
{
    if files.len() > 0 {
        law_order_sorted(files.drop_last());
        lemma_inserted_sorted(in_order(files.drop_last()), files.last());
    }
    assert forall|i: int, j: int|
        #![trigger in_order(files)[i], in_order(files)[j]]
        0 <= i < j < in_order(files).len() implies {
        let a = in_order(files)[i];
        let b = in_order(files)[j];
        rank(a.kind) < rank(b.kind) || (a.kind == b.kind && depth(a.target) <= depth(b.target))
    } by {
        assert(!precedes(in_order(files)[j], in_order(files)[i]));
    }
}

proof fn lemma_inserted_multiset(sorted: Seq<FileView>, file: FileView)
    ensures
        inserted(sorted, file).to_multiset() == sorted.to_multiset().insert(file),
    decreases sorted.len(),
{
    broadcast use vstd::seq_lib::group_to_multiset_ensures;

    if sorted.len() == 0 {
        assert(sorted.push(file) =~= seq![file]);
    } else if precedes(file, sorted.last()) {
        let front = sorted.drop_last();
        lemma_inserted_multiset(front, file);
        assert(front.push(sorted.last()) =~= sorted);
        assert(inserted(sorted, file).to_multiset() =~= sorted.to_multiset().insert(file));
    }
}

/// Every entry is applied exactly as often as it stands in the manifest.
pub proof fn law_order_permutes(files: Seq<FileView>)
    ensures
        in_order(files).to_multiset() == files.to_multiset(),
        in_order(files).len() == files.len(),
    decreases files.len(),
{
    broadcast use vstd::seq_lib::group_to_multiset_ensures;

    if files.len() > 0 {
        let front = files.drop_last();
        law_order_permutes(front);
        lemma_inserted_multiset(in_order(front), files.last());
        law_order_sorted(front);
        lemma_inserted_sorted(in_order(front), files.last());
        assert(front.push(files.last()) =~= files);
    }
}

/// Whether the target of `a` is a directory that the target of `b` lies in, as
/// the paths are written.
pub open spec fn is_above(a: FileView, b: FileView) -> bool {
    let top = parts(a.target);
    let path = parts(b.target);
    top.len() < path.len() && path.take(top.len() as int) == top && absolute(a.target) == absolute(
        b.target,
    )
}

/// A directory comes before everything that lies in it, and a deletion after
/// every entry of another kind.
pub proof fn law_order_sound(files: Seq<FileView>, i: int, j: int)
    requires
        0 <= i < in_order(files).len(),
        0 <= j < in_order(files).len(),
    ensures
        in_order(files)[i].kind is Directory && is_above(in_order(files)[i], in_order(files)[j])
            ==> i < j,
        !(in_order(files)[i].kind is Delete) && in_order(files)[j].kind is Delete ==> i < j,
{
    law_order_sorted(files);
}

/// Whether an entry has the given kind and depth.
pub open spec fn has_key(file: FileView, kind: FileKind, level: nat) -> bool {
    file.kind == kind && depth(file.target) == level
}

proof fn lemma_inserted_stable(sorted: Seq<FileView>, file: FileView, kind: FileKind, level: nat)
    ensures
        inserted(sorted, file).filter(|f: FileView| has_key(f, kind, level)) == sorted.push(
            file,
        ).filter(|f: FileView| has_key(f, kind, level)),
    decreases sorted.len(),
{
    reveal(Seq::filter);
    let pred = |f: FileView| has_key(f, kind, level);
    if sorted.len() == 0 {
        assert(sorted.push(file) =~= seq![file]);
    } else if precedes(file, sorted.last()) {
        let front = sorted.drop_last();
        lemma_inserted_stable(front, file, kind, level);
        let inner = inserted(front, file);
        assert(inner.push(sorted.last()).drop_last() =~= inner);
        assert(sorted.push(file).drop_last() =~= sorted);
        assert(front.push(file).drop_last() =~= front);
        assert(!(pred(file) && pred(sorted.last())));
        assert(inner.filter(pred) == front.push(file).filter(pred));
        assert(inserted(sorted, file).filter(pred) == if pred(sorted.last()) {
            inner.filter(pred).push(sorted.last())
        } else {
            inner.filter(pred)
        });
        assert(front.push(file).filter(pred) == if pred(file) {
            front.filter(pred).push(file)
        } else {
            front.filter(pred)
        });
        assert(sorted.filter(pred) == if pred(sorted.last()) {
            front.filter(pred).push(sorted.last())
        } else {
            front.filter(pred)
        });
        assert(sorted.push(file).filter(pred) == if pred(file) {
            sorted.filter(pred).push(file)
        } else {
            sorted.filter(pred)
        });
    }
}

/// Entries of one kind and depth keep the order that the manifest gives them.
pub proof fn law_order_stable(files: Seq<FileView>, kind: FileKind, level: nat)
    ensures
        in_order(files).filter(|f: FileView| has_key(f, kind, level)) == files.filter(
            |f: FileView| has_key(f, kind, level),
        ),
    decreases files.len(),
{
    reveal(Seq::filter);
    let pred = |f: FileView| has_key(f, kind, level);
    if files.len() > 0 {
        let front = files.drop_last();
        law_order_stable(front, kind, level);
        lemma_inserted_stable(in_order(front), files.last(), kind, level);
        assert(in_order(front).push(files.last()).drop_last() =~= in_order(front));
        assert(in_order(files).filter(pred) =~= files.filter(pred));
    }
}

/// Puts `file` into `sorted`, whose keys stand in `keys`.
fn insert_file(sorted: &mut Vec<File>, keys: &mut Vec<(u8, u128)>, file: File)
    requires
        keys_match(old(sorted)@, old(keys)@),
    ensures
        keys_match(final(sorted)@, final(keys)@),
        files_view(final(sorted)@) == inserted(files_view(old(sorted)@), file@),
{
    let key: (u8, u128) = (file.kind.rank(), file.target.depth());
    let ghost list = files_view(sorted@);
    let ghost whole = inserted(list, file@);
    let mut at: usize = sorted.len();
    proof {
        assert(list.take(at as int) =~= list);
        assert(list.skip(at as int) =~= Seq::<FileView>::empty());
        assert(whole =~= inserted(list.take(at as int), file@) + list.skip(at as int));
    }
    while at > 0 && (key.0 < keys[at - 1].0 || (key.0 == keys[at - 1].0 && key.1 < keys[at - 1].1))
        invariant
            at <= sorted.len(),
            keys_match(sorted@, keys@),
            key.0 == rank(file@.kind),
            key.1 == depth(file@.target),
            list == files_view(sorted@),
            whole == inserted(list, file@),
            whole == inserted(list.take(at as int), file@) + list.skip(at as int),
        decreases at,
    {
        proof {
            let shorter = list.take(at as int);
            assert(shorter.last() == sorted@[at - 1]@);
            assert(shorter.drop_last() =~= list.take(at - 1));
            assert(precedes(file@, shorter.last()));
            assert(whole =~= inserted(list.take(at - 1), file@) + list.skip(at - 1));
        }
        at = at - 1;
    }
    proof {
        let shorter = list.take(at as int);
        if at > 0 {
            assert(shorter.last() == sorted@[at - 1]@);
            assert(!precedes(file@, shorter.last()));
        }
        assert(inserted(shorter, file@) =~= shorter.push(file@));
        assert(whole =~= list.insert(at as int, file@));
    }
    let ghost before = sorted@;
    let ghost old_keys = keys@;
    sorted.insert(at, file);
    keys.insert(at, key);
    proof {
        assert(files_view(sorted@) =~= list.insert(at as int, file@));
        assert forall|i: int| 0 <= i < sorted@.len() implies {
            &&& #[trigger] keys@[i].0 == rank(sorted@[i]@.kind)
            &&& keys@[i].1 == depth(sorted@[i]@.target)
        } by {
            if i < at {
                assert(keys@[i] == old_keys[i]);
                assert(sorted@[i] == before[i]);
            } else if i > at {
                assert(keys@[i] == old_keys[i - 1]);
                assert(sorted@[i] == before[i - 1]);
            }
        }
    }
}

spec fn keys_match(files: Seq<File>, keys: Seq<(u8, u128)>) -> bool {
    &&& files.len() == keys.len()
    &&& forall|i: int|
        0 <= i < files.len() ==> {
            &&& #[trigger] keys[i].0 == rank(files[i]@.kind)
            &&& keys[i].1 == depth(files[i]@.target)
        }
}

/// The entries in the order in which they are applied.
pub fn sort_files(files: Vec<File>) -> (sorted: Vec<File>)
    ensures
        files_view(sorted@) == in_order(files_view(files@)),
{
    let ghost whole = files_view(files@);
    let mut rest = files;
    let mut waiting: Vec<File> = Vec::new();
    let ghost total = rest@;
    while rest.len() > 0
        invariant
            rest@ + waiting@.reverse() =~= total,
        decreases rest.len(),
    {
        if let Some(file) = rest.pop() {
            waiting.push(file);
        }
    }
    let mut sorted: Vec<File> = Vec::new();
    let mut keys: Vec<(u8, u128)> = Vec::new();
    proof {
        assert(waiting@.reverse() =~= total);
        assert(files_view(sorted@) =~= in_order(whole.take(0)));
    }
    while waiting.len() > 0
        invariant
            whole == files_view(total),
            waiting.len() <= total.len(),
            waiting@.reverse() =~= total.skip(total.len() - waiting.len()),
            keys_match(sorted@, keys@),
            files_view(sorted@) == in_order(whole.take(total.len() - waiting.len())),
        decreases waiting.len(),
    {
        let ghost done = total.len() - waiting.len();
        proof {
            assert(waiting@.reverse()[0] == waiting@.last());
            assert(total.skip(done)[0] == total[done]);
            let longer = whole.take(done + 1);
            assert(longer.drop_last() =~= whole.take(done));
            assert(longer.last() == total[done]@);
        }
        let ghost before = waiting@;
        if let Some(file) = waiting.pop() {
            proof {
                assert forall|i: int| 0 <= i < waiting@.len() implies waiting@.reverse()[i]
                    == #[trigger] total.skip(done + 1)[i] by {
                    assert(waiting@.reverse()[i] == before.reverse()[i + 1]);
                    assert(before.reverse()[i + 1] == total.skip(done)[i + 1]);
                }
            }
            insert_file(&mut sorted, &mut keys, file);
        }
    }
    proof {
        assert(whole.take(total.len() as int) =~= whole);
    }
    sorted
}

impl Manifest {
    /// Puts the entries in the order in which they are applied.
    pub fn sort(&mut self)
        ensures
            final(self)@.files == in_order(old(self)@.files),
            final(self)@.clobber_by_default == old(self)@.clobber_by_default,
            final(self)@.version == old(self)@.version,
            final(self)@.impure == old(self)@.impure,
    {
        let mut files: Vec<File> = Vec::new();
        files.append(&mut self.files);
        self.files = sort_files(files);
    }
}

} // verus!
