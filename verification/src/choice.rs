//! How an entry's own choices and those of the manifest go together.
use vstd::prelude::*;

use crate::action::{Failure, Metadata};
use crate::attain::{effect_check_passes, is_as_described, is_skipped, passes_check, plain_source};
use crate::effect::saw;
use crate::file_util::{
    activate_program, at, atomic_activate_program, bring_about, check_program, check_source_program,
    chmod_chown_program, clobbers, copy_from, copy_program, correct, directory_program, finish,
    install, keeps_existing, link_to, look, make_copy, make_link, make_way, replace, swap,
    swap_with, symlink_program, try_swap,
};
use crate::manifest::FileView;
use crate::model::{achieves, group_achieves, lemma_achieves_alike, Disk};
use crate::program::{and_then, bind, Program};

verus! {

/// The entry with another `clobber`.
pub open spec fn with_clobber(file: FileView, clobber: Option<bool>) -> FileView {
    FileView { clobber, ..file }
}

/// Whether two entries say the same but for `clobber`.
pub open spec fn alike(one: FileView, other: FileView) -> bool {
    other == with_clobber(one, other.clobber)
}

broadcast proof fn lemma_same_bind<A, B>(
    first: Program<A>,
    one: spec_fn(A) -> Program<B>,
    other: spec_fn(A) -> Program<B>,
)
    requires
        forall|value: A| #[trigger] one(value) == other(value),
    ensures
        #[trigger] bind(first, one) == #[trigger] bind(first, other),
{
    assert(one =~= other);
}

broadcast proof fn lemma_same_then<A, B>(
    first: Program<Result<A, Failure>>,
    one: spec_fn(A) -> Program<Result<B, Failure>>,
    other: spec_fn(A) -> Program<Result<B, Failure>>,
)
    requires
        forall|value: A| #[trigger] one(value) == other(value),
    ensures
        #[trigger] and_then(first, one) == #[trigger] and_then(first, other),
{
    assert(one =~= other);
}

broadcast proof fn lemma_same_attributes(one: FileView, other: FileView)
    requires
        alike(one, other),
    ensures
        #[trigger] chmod_chown_program(one) == #[trigger] chmod_chown_program(other),
{
    broadcast use lemma_same_then;

}

broadcast proof fn lemma_same_finish(one: FileView, other: FileView)
    requires
        alike(one, other),
    ensures
        #[trigger] finish(one) == #[trigger] finish(other),
{
    broadcast use {lemma_same_then, lemma_same_attributes};

}

broadcast proof fn lemma_same_making(one: FileView, other: FileView)
    requires
        alike(one, other),
    ensures
        #[trigger] copy_program(one) == #[trigger] copy_program(other),
        symlink_program(one) == symlink_program(other),
        directory_program(one) == directory_program(other),
{
    broadcast use {lemma_same_then, lemma_same_finish};

    assert forall|source: Seq<u8>| #[trigger] copy_from(one, source) == copy_from(
        other,
        source,
    ) by {}
    assert forall|source: Seq<u8>| #[trigger] link_to(one, source) == link_to(other, source) by {}
    assert(make_copy(one) == make_copy(other));
    assert(make_link(one) == make_link(other));
}

proof fn lemma_same_swap(one: FileView, other: FileView)
    requires
        alike(one, other),
    ensures
        swap(one) == swap(other),
{
    broadcast use lemma_same_bind;

    assert forall|temporary: Seq<u8>| #[trigger] swap_with(one, temporary) == swap_with(
        other,
        temporary,
    ) by {
        lemma_same_making(at(one, temporary), at(other, temporary));
    }
    let first = |temporary: Seq<u8>| swap_with(one, temporary);
    let second = |temporary: Seq<u8>| swap_with(other, temporary);
    assert(first =~= second);
}

proof fn lemma_same_atomic(one: FileView, other: FileView, seen: Metadata)
    requires
        alike(one, other),
    ensures
        atomic_activate_program(one, seen) == atomic_activate_program(other, seen),
{
    broadcast use lemma_same_then;

    lemma_same_swap(one, other);
}

proof fn lemma_same_replace(
    one: FileView,
    other: FileView,
    metadata: Option<Metadata>,
    clobber: bool,
    prefix: Seq<u8>,
)
    requires
        alike(one, other),
        metadata is Some ==> keeps_existing(one) == keeps_existing(other),
    ensures
        replace(one, metadata, clobber, prefix) == replace(other, metadata, clobber, prefix),
{
    broadcast use lemma_same_then;

    lemma_same_making(one, other);
    lemma_same_attributes(one, other);
    assert(make_way(one, metadata, clobber, prefix) == make_way(other, metadata, clobber, prefix));
    assert(install(one, metadata) == install(other, metadata));
}

proof fn lemma_same_bringing_about(
    one: FileView,
    other: FileView,
    metadata: Option<Metadata>,
    clobber: bool,
    prefix: Seq<u8>,
)
    requires
        alike(one, other),
        metadata is Some ==> keeps_existing(one) == keeps_existing(other),
    ensures
        bring_about(one, metadata, clobber, prefix) == bring_about(
            other,
            metadata,
            clobber,
            prefix,
        ),
{
    broadcast use {lemma_same_then, lemma_same_bind};

    lemma_same_replace(one, other, metadata, clobber, prefix);
    if let Some(seen) = metadata {
        lemma_same_atomic(one, other, seen);
    }
    assert(try_swap(one, metadata, clobber) == try_swap(other, metadata, clobber));
    assert(check_program(one, metadata) == check_program(other, metadata));
    assert(correct(one, metadata, clobber, prefix) == correct(other, metadata, clobber, prefix));
}

/// Activation depends on `clobber` only through what comes of it and the
/// default, and through whether a copy is to keep what it finds.
pub proof fn law_clobber_counts_with_default(
    one: FileView,
    other: FileView,
    one_default: Option<bool>,
    other_default: Option<bool>,
    prefix: Seq<u8>,
)
    requires
        alike(one, other),
        clobbers(one.clobber, one_default) == clobbers(other.clobber, other_default),
        keeps_existing(one) == keeps_existing(other),
    ensures
        activate_program(one, one_default, prefix) == activate_program(
            other,
            other_default,
            prefix,
        ),
{
    broadcast use lemma_same_then;

    let clobber = clobbers(one.clobber, one_default);
    assert forall|metadata: Option<Metadata>| #[trigger]
        bring_about(one, metadata, clobber, prefix) == bring_about(
            other,
            metadata,
            clobber,
            prefix,
        ) by {
        lemma_same_bringing_about(one, other, metadata, clobber, prefix);
    }
}

/// An entry without a `clobber` of its own is activated as one that says what
/// the manifest says by default, where no default counts as `false`; and the
/// default does not matter to one that has its own. Only a copy with its own
/// `false` is another matter: it keeps what it finds.
pub proof fn law_clobber_overrides(
    file: FileView,
    clobber_by_default: Option<bool>,
    any_default: Option<bool>,
    prefix: Seq<u8>,
)
    requires
        file.kind is Copy ==> clobber_by_default == Some(true),
    ensures
        activate_program(with_clobber(file, None), clobber_by_default, prefix) == activate_program(
            with_clobber(file, Some(clobber_by_default == Some(true))),
            any_default,
            prefix,
        ),
{
    law_clobber_counts_with_default(
        with_clobber(file, None),
        with_clobber(file, Some(clobber_by_default == Some(true))),
        clobber_by_default,
        any_default,
        prefix,
    );
}

/// Where the target is as a copy says, nothing is done for it, whether it keeps
/// what it finds or not.
proof fn lemma_nothing_to_do(
    one: FileView,
    other: FileView,
    seen: Metadata,
    prefix: Seq<u8>,
    disk: Disk,
    post: spec_fn(Result<(), Failure>, Disk) -> bool,
)
    requires
        alike(one, other),
        saw(disk, one.target, Ok(Some(seen))),
        plain_source(disk, one),
        passes_check(disk, one),
    ensures
        achieves(bring_about(one, Some(seen), false, prefix), disk, post) == achieves(
            bring_about(other, Some(seen), false, prefix),
            disk,
            post,
        ),
{
    broadcast use group_achieves;

    let metadata = Some(seen);
    let mid = |checked: Result<bool, Failure>, after: Disk|
        after == disk && (checked == Ok::<bool, Failure>(true) <==> passes_check(disk, one));
    effect_check_passes(one, metadata, disk);
    assert(check_program(one, metadata) == check_program(other, metadata)) by {
        broadcast use lemma_same_then;

    }
    lemma_achieves_alike(
        check_program(one, metadata),
        |checked: Result<bool, Failure>|
            if checked == Ok::<bool, Failure>(true) {
                Program::Return(Ok(()))
            } else {
                replace(one, metadata, false, prefix)
            },
        |checked: Result<bool, Failure>|
            if checked == Ok::<bool, Failure>(true) {
                Program::Return(Ok(()))
            } else {
                replace(other, metadata, false, prefix)
            },
        disk,
        mid,
        post,
    );
    assert(bring_about(one, metadata, false, prefix) == correct(one, metadata, false, prefix));
    assert(bring_about(other, metadata, false, prefix) == correct(other, metadata, false, prefix));
}

/// A copy with its own `false` differs from one that leaves `clobber` to the
/// manifest only where it keeps something: where it is skipped, where nothing is
/// at its target, where that cannot be looked at, and where what is there is as
/// the copy says, the two achieve the same.
pub proof fn law_own_false_matters_to_what_differs(
    file: FileView,
    clobber_by_default: Option<bool>,
    any_default: Option<bool>,
    prefix: Seq<u8>,
    disk: Disk,
    post: spec_fn(Result<(), Failure>, Disk) -> bool,
)
    requires
        file.kind is Copy,
        clobber_by_default != Some(true),
        is_skipped(disk, file) || !disk.has(disk.key(file.target)) || disk.hidden.contains(
            disk.key(file.target),
        ) || passes_check(disk, file),
    ensures
        achieves(
            activate_program(with_clobber(file, None), clobber_by_default, prefix),
            disk,
            post,
        ) == achieves(
            activate_program(with_clobber(file, Some(false)), any_default, prefix),
            disk,
            post,
        ),
{
    broadcast use group_achieves;

    let one = with_clobber(file, None);
    let other = with_clobber(file, Some(false));
    let look_at = look(file.target);
    let found_one = |found: Result<Option<Metadata>, Failure>|
        match found {
            Ok(metadata) => bring_about(one, metadata, false, prefix),
            Err(failure) => Program::Return(Err(failure)),
        };
    let found_other = |found: Result<Option<Metadata>, Failure>|
        match found {
            Ok(metadata) => bring_about(other, metadata, false, prefix),
            Err(failure) => Program::Return(Err(failure)),
        };
    let seen = |found: Result<Option<Metadata>, Failure>, after: Disk|
        after == disk && saw(disk, file.target, found);
    if !is_skipped(disk, file) {
        assert forall|found: Result<Option<Metadata>, Failure>, after: Disk| #[trigger]
            seen(found, after) implies achieves(found_one(found), after, post) == achieves(
            found_other(found),
            after,
            post,
        ) by {
            if let Ok(metadata) = found {
                match metadata {
                    None => {
                        lemma_same_bringing_about(one, other, metadata, false, prefix);
                    },
                    Some(data) => {
                        assert(is_as_described(disk, one) == is_as_described(disk, file));
                        lemma_nothing_to_do(one, other, data, prefix, disk, post);
                    },
                }
            }
        }
        lemma_achieves_alike(look_at, found_one, found_other, disk, seen, post);
    }
    let source_one = |skip: Result<bool, Failure>|
        match skip {
            Ok(value) => if value {
                Program::Return(Ok(()))
            } else {
                bind(look_at, found_one)
            },
            Err(failure) => Program::Return(Err(failure)),
        };
    let source_other = |skip: Result<bool, Failure>|
        match skip {
            Ok(value) => if value {
                Program::Return(Ok(()))
            } else {
                bind(look_at, found_other)
            },
            Err(failure) => Program::Return(Err(failure)),
        };
    let looked = |skip: Result<bool, Failure>, after: Disk|
        after == disk && skip == Ok::<bool, Failure>(is_skipped(disk, file));
    assert(achieves(check_source_program(file), disk, looked));
    lemma_achieves_alike(
        check_source_program(file),
        source_one,
        source_other,
        disk,
        looked,
        post,
    );
    assert(activate_program(one, clobber_by_default, prefix) == bind(
        check_source_program(file),
        source_one,
    )) by {
        broadcast use {lemma_same_bind, lemma_same_then};

    }
    assert(activate_program(other, any_default, prefix) == bind(
        check_source_program(file),
        source_other,
    )) by {
        broadcast use {lemma_same_bind, lemma_same_then};

    }
}

} // verus!
