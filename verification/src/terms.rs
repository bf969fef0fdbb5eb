//! What manifests mean, said of their settings directly.
use vstd::prelude::*;
use vstd::std_specs::cmp::PartialEqSpec;

use crate::apply::{activations, deactivations};
use crate::batch::ItemView;
use crate::file_util::FileWithMetadata;
use crate::manifest::{
    all_errors, entry_order, error_for, file_errors, law_verify_complete, rank, takes_source,
    violates, File, FileKind, FileView, Manifest, VerifyErrorView, Violation,
};
use crate::merge::same_key;
use crate::order::{in_order, is_above, law_order_permutes, law_order_sorted};
use crate::path::{depth, parts, PathBuf};

use crate::text::lossy_text;

verus! {

/// Two entries compare equal exactly if every setting of theirs is equal. Paths
/// are compared by components, and all else as it stands.
pub proof fn law_equal_entries_agree(a: File, b: File)
    ensures
        a.eq_spec(&b) <==> ({
            &&& a.kind == b.kind
            &&& a.clobber == b.clobber
            &&& a.permissions == b.permissions
            &&& a.uid == b.uid
            &&& a.gid == b.gid
            &&& a.deactivate == b.deactivate
            &&& a.follow_symlinks == b.follow_symlinks
            &&& a.ignore_modification == b.ignore_modification
            &&& parts(a.target@) == parts(b.target@)
            &&& a.source is Some <==> b.source is Some
            &&& a.source is Some ==> parts(a.source->0@) == parts(b.source->0@)
        }),
{
}

/// What specifications speak of is all that an entry says: entries with the same
/// view have the same settings, and paths of the same bytes.
pub proof fn law_views_tell_all(a: File, b: File, c: FileWithMetadata)
    ensures
        a@ == b@ ==> ({
            &&& a.kind == b.kind
            &&& a.clobber == b.clobber
            &&& a.permissions == b.permissions
            &&& a.uid == b.uid
            &&& a.gid == b.gid
            &&& a.deactivate == b.deactivate
            &&& a.follow_symlinks == b.follow_symlinks
            &&& a.ignore_modification == b.ignore_modification
            &&& a.target.bytes@ == b.target.bytes@
            &&& a.source is Some <==> b.source is Some
            &&& a.source is Some ==> a.source->0.bytes@ == b.source->0.bytes@
        }),
        a@ == c@ ==> ({
            &&& a.kind == c.kind
            &&& a.clobber == c.clobber
            &&& a.permissions == c.permissions
            &&& a.uid == c.uid
            &&& a.gid == c.gid
            &&& a.deactivate == c.deactivate
            &&& a.follow_symlinks == c.follow_symlinks
            &&& a.ignore_modification == c.ignore_modification
            &&& a.target.bytes@ == c.target.bytes@
            &&& a.source is Some <==> c.source is Some
            &&& a.source is Some ==> a.source->0.bytes@ == c.source->0.bytes@
        }),
{
}

/// The same holds of whole manifests.
pub proof fn law_manifest_views_tell_all(a: Manifest, b: Manifest, i: int)
    ensures
        a@ == b@ ==> ({
            &&& a.clobber_by_default == b.clobber_by_default
            &&& a.version == b.version
            &&& a.impure == b.impure
            &&& a.files@.len() == b.files@.len()
            &&& 0 <= i < a.files@.len() ==> a.files@[i]@ == b.files@[i]@
        }),
{
    if a@ == b@ {
        assert(a@.files.len() == a.files@.len());
        assert(b@.files.len() == b.files@.len());
        if 0 <= i < a.files@.len() {
            assert(a@.files[i] == a.files@[i]@);
            assert(b@.files[i] == b.files@[i]@);
        }
    }
}

/// A manifest complies exactly if every copy and link has a source and nothing else
/// has one, only links say whether they are followed, and only copies and links
/// say whether modifications count.
pub proof fn law_compliance(files: Seq<FileView>)
    ensures
        all_errors(files).len() == 0 <==> forall|i: int|
            0 <= i < files.len() ==> {
                let file = #[trigger] files[i];
                let sourced = file.kind is Copy || file.kind is Symlink;
                &&& sourced <==> file.source is Some
                &&& file.follow_symlinks is Some ==> file.kind is Symlink
                &&& file.ignore_modification is Some ==> sourced
            },
{
    law_verify_complete(files);
    if all_errors(files).len() == 0 {
        assert forall|i: int| 0 <= i < files.len() implies {
            let file = #[trigger] files[i];
            let sourced = file.kind is Copy || file.kind is Symlink;
            &&& sourced <==> file.source is Some
            &&& file.follow_symlinks is Some ==> file.kind is Symlink
            &&& file.ignore_modification is Some ==> sourced
        } by {
            assert(!violates(files[i], Violation::MissingSource));
            assert(!violates(files[i], Violation::UnexpectedSource));
            assert(!violates(files[i], Violation::UnexpectedFollowSymlinks));
            assert(!violates(files[i], Violation::UnexpectedIgnoreModification));
        }
    }
    if forall|i: int|
        0 <= i < files.len() ==> {
            let file = #[trigger] files[i];
            let sourced = file.kind is Copy || file.kind is Symlink;
            &&& sourced <==> file.source is Some
            &&& file.follow_symlinks is Some ==> file.kind is Symlink
            &&& file.ignore_modification is Some ==> sourced
        } {
        assert forall|i: int, v: Violation| 0 <= i < files.len() implies !#[trigger] violates(
            files[i],
            v,
        ) by {
            let file = files[i];
        }
    }
}

/// Which rule is broken by which entries.
pub proof fn law_rules(file: FileView)
    ensures
        violates(file, Violation::MissingSource) <==> (file.kind is Copy || file.kind is Symlink)
            && file.source is None,
        violates(file, Violation::UnexpectedSource) <==> (file.kind is Directory
            || file.kind is Modify || file.kind is Delete) && file.source is Some,
        violates(file, Violation::UnexpectedFollowSymlinks) <==> !(file.kind is Symlink)
            && file.follow_symlinks is Some,
        violates(file, Violation::UnexpectedIgnoreModification) <==> (file.kind is Directory
            || file.kind is Modify || file.kind is Delete) && file.ignore_modification is Some,
{
}

/// An error names the target and the kind of an entry and a rule that it breaks,
/// and every rule that an entry breaks is among the errors.
pub proof fn law_errors_are_right(files: Seq<FileView>)
    ensures
        forall|e: int|
            0 <= e < all_errors(files).len() ==> is_error_of(
                files,
                #[trigger] all_errors(files)[e],
            ),
        forall|i: int, v: Violation|
            0 <= i < files.len() && #[trigger] violates(files[i], v) ==> all_errors(files).contains(
                (VerifyErrorView { target: files[i].target, kind: files[i].kind, violation: v }),
            ),
    decreases files.len(),
{
    if files.len() > 0 {
        let front = files.drop_last();
        let last = files.last();
        let all = all_errors(files);
        let before = all_errors(front);
        let own = file_errors(last);
        law_errors_are_right(front);
        assert forall|e: int| 0 <= e < all.len() implies is_error_of(
            files,
            #[trigger] all[e],
        ) by {
            if e < before.len() {
                assert(all[e] == before[e]);
                assert(is_error_of(front, before[e]));
                let i = choose|i: int|
                    0 <= i < front.len() && (#[trigger] front[i]).target == before[e].target
                        && front[i].kind == before[e].kind && violates(
                        front[i],
                        before[e].violation,
                    );
                assert(files[i] == front[i]);
            } else {
                assert(all[e] == own[e - before.len()]);
                assert(files[files.len() - 1] == last);
            }
        }
        assert forall|i: int, v: Violation|
            0 <= i < files.len() && #[trigger] violates(files[i], v) implies all.contains(
            (VerifyErrorView { target: files[i].target, kind: files[i].kind, violation: v }),
        ) by {
            let error = VerifyErrorView {
                target: files[i].target,
                kind: files[i].kind,
                violation: v,
            };
            if i < front.len() {
                assert(front[i] == files[i]);
                assert(violates(front[i], v));
                assert(before.contains(error));
                let at = choose|at: int| 0 <= at < before.len() && before[at] == error;
                assert(all[at] == error);
            } else {
                lemma_own_error(last, v);
                let at = choose|at: int| 0 <= at < own.len() && own[at] == error;
                assert(all[before.len() + at] == error);
            }
        }
    }
}

/// Whether an error is about a rule that one of the entries breaks.
pub open spec fn is_error_of(files: Seq<FileView>, error: VerifyErrorView) -> bool {
    exists|i: int|
        0 <= i < files.len() && (#[trigger] files[i]).target == error.target && files[i].kind
            == error.kind && violates(files[i], error.violation)
}

proof fn lemma_own_error(file: FileView, v: Violation)
    requires
        violates(file, v),
    ensures
        file_errors(file).contains(
            (VerifyErrorView { target: file.target, kind: file.kind, violation: v }),
        ),
{
    let all = file_errors(file);
    let error = VerifyErrorView { target: file.target, kind: file.kind, violation: v };
    let a = error_for(file, Violation::MissingSource);
    let b = error_for(file, Violation::UnexpectedSource);
    let c = error_for(file, Violation::UnexpectedFollowSymlinks);
    match v {
        Violation::MissingSource => {
            assert(all[0] == error);
        },
        Violation::UnexpectedSource => {
            assert(all[a.len() as int] == error);
        },
        Violation::UnexpectedFollowSymlinks => {
            assert(all[(a + b).len() as int] == error);
        },
        Violation::UnexpectedIgnoreModification => {
            assert(all[(a + b + c).len() as int] == error);
        },
    }
}

/// Entries are applied by kind: directories, copies, links, modifies, deletes; and
/// within a kind no target comes before one that it lies below.
pub proof fn law_order_of_kinds(files: Seq<FileView>, i: int, j: int)
    requires
        0 <= i < j < in_order(files).len(),
    ensures
        ({
            let a = in_order(files)[i];
            let b = in_order(files)[j];
            &&& b.kind is Directory ==> a.kind is Directory
            &&& b.kind is Copy ==> a.kind is Directory || a.kind is Copy
            &&& b.kind is Symlink ==> a.kind is Directory || a.kind is Copy || a.kind is Symlink
            &&& b.kind is Modify ==> !(a.kind is Delete)
            &&& a.kind == b.kind ==> !is_above(b, a)
        }),
{
    law_order_sorted(files);
    let a = in_order(files)[i];
    let b = in_order(files)[j];
    assert(rank(a.kind) < rank(b.kind) || (a.kind == b.kind && depth(a.target) <= depth(
        b.target,
    )));
}

/// The work of a manifest is one piece for each of its entries: in order when it is
/// activated, and in the reverse of that order when it is deactivated.
pub proof fn law_work_of_a_manifest(files: Seq<FileView>, i: int)
    requires
        0 <= i < files.len(),
    ensures
        activations(files).len() == files.len(),
        deactivations(files).len() == files.len(),
        activations(files)[i] == ItemView::Activate(in_order(files)[i]),
        deactivations(files)[files.len() - 1 - i] == ItemView::Deactivate(in_order(files)[i]),
        in_order(files).to_multiset() == files.to_multiset(),
{
    law_order_permutes(files);
}

/// Merged entries are about the same thing exactly if they have the same kind and
/// their targets look the same.
pub proof fn law_merge_keys(a: FileView, b: FileView)
    ensures
        same_key(a, b) <==> a.kind == b.kind && lossy_text(a.target) == lossy_text(b.target),
{
}

/// Paths compare equal exactly if they have the same components.
pub proof fn law_equal_paths(a: PathBuf, b: PathBuf)
    ensures
        a.eq_spec(&b) <==> parts(a.bytes@) == parts(b.bytes@),
{
}

/// Copies and links are made from a source, and nothing else is. Kinds come in the
/// order of directories, copies, links, modifies, deletes.
pub proof fn law_kinds(kind: FileKind)
    ensures
        takes_source(kind) <==> kind is Copy || kind is Symlink,
        rank(FileKind::Directory) < rank(FileKind::Copy),
        rank(FileKind::Copy) < rank(FileKind::Symlink),
        rank(FileKind::Symlink) < rank(FileKind::Modify),
        rank(FileKind::Modify) < rank(FileKind::Delete),
{
}

/// How entries are ordered: one is less than another exactly if its kind comes
/// first, or its kind is the same and its target has fewer components above it; and
/// if neither is less, they count as equal.
pub proof fn law_order_of_entries(a: FileView, b: FileView)
    ensures
        entry_order(a, b) is Less <==> rank(a.kind) < rank(b.kind) || (a.kind == b.kind && depth(
            a.target,
        ) < depth(b.target)),
        entry_order(a, b) is Greater <==> entry_order(b, a) is Less,
        entry_order(a, b) is Equal <==> a.kind == b.kind && depth(a.target) == depth(b.target),
{
}

} // verus!
