//! What entries keep of what they see: the metadata that operations leave in
//! an entry, as it follows from the replies.
use vstd::prelude::*;

use crate::action::{Action, Failure, Fault, Metadata, Reply, Response};
use crate::file_util::{
    at, atomic_activate_program, check_program, check_source_program, clobbers, copy_program,
    directory_program, finish, install, is_populated, look, make_way, mkdir_program, place,
    set_mode, swap_with, symlink_program, try_swap, with_parent,
};
use crate::manifest::{takes_source, FileKind, FileView};
use crate::program::{
    and_then, group_play, metadata_in, must, must_find, must_see, play, Halt, Program,
};

verus! {

/// A look at the target: what is there, or nothing; a look that fails leaves
/// what was kept before.
pub open spec fn kept_by_look(
    target: Seq<u8>,
    replies: Seq<Response>,
    before: Option<Metadata>,
) -> Option<Metadata> {
    match play(look(target), replies).0 {
        Program::Return(Ok(found)) => found,
        _ => before,
    }
}

/// Applying mode and owner: a first look, and a second one when the mode has
/// been set.
pub open spec fn kept_by_attributes(
    file: FileView,
    replies: Seq<Response>,
    before: Option<Metadata>,
) -> Option<Metadata> {
    let found = kept_by_look(file.target, replies, before);
    match play(look(file.target), replies) {
        (Program::Return(Ok(Some(seen))), rest) => match play(set_mode(file, seen), rest) {
            (Program::Return(Ok(_)), later) => kept_by_look(file.target, later, found),
            _ => found,
        },
        _ => found,
    }
}

/// Finishing what was made: a look, then mode and owner.
pub open spec fn kept_by_finish(
    file: FileView,
    replies: Seq<Response>,
    before: Option<Metadata>,
) -> Option<Metadata> {
    match play(look(file.target), replies) {
        (Program::Return(Ok(found)), rest) => kept_by_attributes(file, rest, found),
        _ => before,
    }
}

/// Making a link at the target, without finishing it.
pub open spec fn put_link(file: FileView) -> Program<Result<(), Failure>> {
    with_parent(
        file.target,
        if file.follow_symlinks != Some(false) {
            and_then(
                must_find(Action::Canonicalize(file.source->0)),
                |source: Seq<u8>| must(Action::Symlink(source, file.target)),
            )
        } else {
            must(Action::Symlink(file.source->0, file.target))
        },
    )
}

/// Making a copy at the target, without finishing it.
pub open spec fn put_copy(file: FileView) -> Program<Result<(), Failure>> {
    with_parent(
        file.target,
        and_then(
            must_find(Action::Canonicalize(file.source->0)),
            |source: Seq<u8>| must(Action::Copy(source, file.target)),
        ),
    )
}

/// Making something, then finishing it: nothing is kept before it is made.
pub open spec fn kept_by_making(
    first: Program<Result<(), Failure>>,
    file: FileView,
    replies: Seq<Response>,
    before: Option<Metadata>,
) -> Option<Metadata> {
    match play(first, replies) {
        (Program::Return(Ok(_)), rest) => kept_by_finish(file, rest, before),
        _ => before,
    }
}

pub open spec fn kept_by_link(
    file: FileView,
    replies: Seq<Response>,
    before: Option<Metadata>,
) -> Option<Metadata> {
    kept_by_making(put_link(file), file, replies, before)
}

pub open spec fn kept_by_copy(
    file: FileView,
    replies: Seq<Response>,
    before: Option<Metadata>,
) -> Option<Metadata> {
    kept_by_making(put_copy(file), file, replies, before)
}

pub open spec fn kept_by_directory(
    file: FileView,
    replies: Seq<Response>,
    before: Option<Metadata>,
) -> Option<Metadata> {
    kept_by_making(mkdir_program(file.target), file, replies, before)
}

/// Making a copy or a link, as the entry asks.
pub open spec fn kept_by_place(
    file: FileView,
    replies: Seq<Response>,
    before: Option<Metadata>,
) -> Option<Metadata> {
    match file.kind {
        FileKind::Symlink => kept_by_link(file, replies, before),
        _ => kept_by_copy(file, replies, before),
    }
}

/// Finishing that succeeds keeps something, as long as nothing says that what
/// was made is gone.
pub proof fn law_finish_keeps(file: FileView, replies: Seq<Response>, before: Option<Metadata>)
    requires
        play(finish(file), replies).0 == Program::Return(Ok::<(), Failure>(())),
        nothing_missing(replies),
    ensures
        kept_by_finish(file, replies, before) is Some,
{
    broadcast use group_play;

    if replies.len() > 0 {
        let rest = replies.skip(1);
        assert(metadata_in(replies[0]) != Err::<Metadata, Fault>(Fault::NotFound));
        if rest.len() > 0 {
            assert(rest[0] == replies[1]);
            assert(metadata_in(rest[0]) != Err::<Metadata, Fault>(Fault::NotFound));
            let later = rest.skip(1);
            if later.len() > 0 {
                assert(later[0] == replies[2]);
                assert(metadata_in(later[0]) != Err::<Metadata, Fault>(Fault::NotFound));
                if later.len() > 1 {
                    assert(later.skip(1)[0] == replies[3]);
                    assert(metadata_in(later.skip(1)[0]) != Err::<Metadata, Fault>(
                        Fault::NotFound,
                    ));
                }
            }
        }
    }
}

/// Whether none of the replies says that something is missing.
pub open spec fn nothing_missing(replies: Seq<Response>) -> bool {
    forall|i: int|
        0 <= i < replies.len() ==> metadata_in(#[trigger] replies[i]) != Err::<Metadata, Fault>(
            Fault::NotFound,
        )
}

/// A copy, a link or a directory that was made is kept sight of: what is kept is
/// something, as long as no later reply says that it is gone.
pub proof fn law_making_keeps(file: FileView, replies: Seq<Response>, before: Option<Metadata>)
    ensures
        play(copy_program(file), replies).0 == Program::Return(Ok::<(), Failure>(()))
            && nothing_missing(play(put_copy(file), replies).1) ==> kept_by_copy(
            file,
            replies,
            before,
        ) is Some,
        play(symlink_program(file), replies).0 == Program::Return(Ok::<(), Failure>(()))
            && nothing_missing(play(put_link(file), replies).1) ==> kept_by_link(
            file,
            replies,
            before,
        ) is Some,
        play(directory_program(file), replies).0 == Program::Return(Ok::<(), Failure>(()))
            && nothing_missing(play(mkdir_program(file.target), replies).1) ==> kept_by_directory(
            file,
            replies,
            before,
        ) is Some,
{
    broadcast use group_play;

    let copied = play(put_copy(file), replies).1;
    let linked = play(put_link(file), replies).1;
    let made = play(mkdir_program(file.target), replies).1;
    if play(finish(file), copied).0 == Program::Return(Ok::<(), Failure>(())) && nothing_missing(
        copied,
    ) {
        law_finish_keeps(file, copied, before);
    }
    if play(finish(file), linked).0 == Program::Return(Ok::<(), Failure>(())) && nothing_missing(
        linked,
    ) {
        law_finish_keeps(file, linked, before);
    }
    if play(finish(file), made).0 == Program::Return(Ok::<(), Failure>(())) && nothing_missing(
        made,
    ) {
        law_finish_keeps(file, made, before);
    }
}

/// The temporary path that the replies settle on, and the replies behind it.
pub open spec fn drawn(replies: Seq<Response>) -> Option<(Seq<u8>, Seq<Response>)>
    decreases replies.len(),
{
    if replies.len() == 0 {
        None
    } else {
        match replies[0] {
            Reply::Candidate(path) => if replies.len() == 1 {
                None
            } else {
                match replies[1] {
                    Reply::Answer(Ok(true)) => drawn(replies.skip(1).skip(1)),
                    Reply::Answer(_) => Some((path, replies.skip(1).skip(1))),
                    _ => drawn(replies.skip(1).skip(1)),
                }
            },
            _ => drawn(replies.skip(1)),
        }
    }
}

/// A replacement in one step: what was seen of the new file before it was
/// renamed over the target, if it was.
pub open spec fn kept_by_swap(
    file: FileView,
    replies: Seq<Response>,
    before: Option<Metadata>,
) -> Option<Metadata> {
    match drawn(replies) {
        Some((temporary, rest)) => if play(swap_with(file, temporary), rest).0 == Program::Return(
            Ok::<bool, Failure>(true),
        ) {
            kept_by_place(at(file, temporary), rest, before)
        } else {
            before
        },
        None => before,
    }
}

/// Whether a target, last seen as `seen`, can be replaced in one step.
pub open spec fn may_swap(file: FileView, seen: Metadata) -> Program<Result<bool, Failure>> {
    and_then(
        must_see(file.source->0),
        |source: Metadata|
            if (seen.node is Directory) != (source.node is Directory) {
                Program::Return(Ok(false))
            } else if seen.node is Directory {
                and_then(
                    is_populated(file.source->0),
                    |populated: bool| Program::Return(Ok(!populated)),
                )
            } else {
                Program::Return(Ok(true))
            },
    )
}

/// The attempt to replace the target in one step.
pub open spec fn kept_by_atomic(
    file: FileView,
    seen: Metadata,
    replies: Seq<Response>,
    before: Option<Metadata>,
) -> Option<Metadata> {
    if !takes_source(file.kind) {
        before
    } else {
        match play(may_swap(file, seen), replies) {
            (Program::Return(Ok(true)), rest) => kept_by_swap(file, rest, before),
            _ => before,
        }
    }
}

/// Putting the entry at its target, which is free.
pub open spec fn kept_by_install(
    file: FileView,
    replies: Seq<Response>,
    before: Option<Metadata>,
) -> Option<Metadata> {
    match file.kind {
        FileKind::Directory => kept_by_directory(file, replies, before),
        FileKind::Modify => kept_by_attributes(file, replies, before),
        FileKind::Delete => before,
        _ => kept_by_place(file, replies, before),
    }
}

/// Correcting a target, last seen as `seen`: what was seen stays kept unless the
/// entry is put in place anew.
pub open spec fn kept_by_correction(
    file: FileView,
    seen: Option<Metadata>,
    clobber: bool,
    prefix: Seq<u8>,
    replies: Seq<Response>,
) -> Option<Metadata> {
    match play(check_program(file, seen), replies) {
        (Program::Return(Ok(true)), _) => seen,
        (Program::Return(_), rest) => match play(make_way(file, seen, clobber, prefix), rest) {
            (Program::Return(Ok(true)), later) => kept_by_install(file, later, seen),
            _ => seen,
        },
        _ => seen,
    }
}

/// Bringing about the state of a target, last seen as `seen`.
pub open spec fn kept_by_bringing_about(
    file: FileView,
    seen: Option<Metadata>,
    clobber: bool,
    prefix: Seq<u8>,
    replies: Seq<Response>,
) -> Option<Metadata> {
    match play(try_swap(file, seen, clobber), replies) {
        (Program::Return(Ok(true)), _) => kept_by_atomic(file, seen->0, replies, seen),
        (Program::Return(Ok(false)), rest) => kept_by_correction(
            file,
            seen,
            clobber,
            prefix,
            rest,
        ),
        _ => seen,
    }
}

/// The activation of an entry that is not skipped: the look that comes first,
/// and what is seen when its target is brought into its state.
pub open spec fn kept_by_proceeding(
    file: FileView,
    clobber_by_default: Option<bool>,
    prefix: Seq<u8>,
    replies: Seq<Response>,
    before: Option<Metadata>,
) -> Option<Metadata> {
    match play(look(file.target), replies) {
        (Program::Return(Ok(seen)), rest) => kept_by_bringing_about(
            file,
            seen,
            clobbers(file.clobber, clobber_by_default),
            prefix,
            rest,
        ),
        _ => before,
    }
}

/// A whole activation; an entry that is skipped sees nothing.
pub open spec fn kept_by_activation(
    file: FileView,
    clobber_by_default: Option<bool>,
    prefix: Seq<u8>,
    replies: Seq<Response>,
    before: Option<Metadata>,
) -> Option<Metadata> {
    match play(check_source_program(file), replies) {
        (Program::Return(Ok(false)), rest) => kept_by_proceeding(
            file,
            clobber_by_default,
            prefix,
            rest,
            before,
        ),
        _ => before,
    }
}

/// A deactivation: the look that comes first, unless the entry is left alone.
pub open spec fn kept_by_deactivation(
    file: FileView,
    replies: Seq<Response>,
    before: Option<Metadata>,
) -> Option<Metadata> {
    if file.deactivate == Some(false) {
        before
    } else {
        kept_by_look(file.target, replies, before)
    }
}

/// What an operation leaves in an entry: `kept` when it is over, and what was
/// there before as long as it waits for a reply.
pub open spec fn keeps<T, H>(
    done: Result<T, Halt<H>>,
    before: Option<Metadata>,
    after: Option<Metadata>,
    kept: Option<Metadata>,
) -> bool {
    after == (if done matches Err(Halt::Ask(_)) {
        before
    } else {
        kept
    })
}

/// What a look leaves: what is there, nothing if nothing is, and what was kept
/// before if it fails.
pub proof fn law_look_keeps(
    target: Seq<u8>,
    replies: Seq<Response>,
    before: Option<Metadata>,
    seen: Metadata,
)
    requires
        replies.len() > 0,
    ensures
        metadata_in(replies[0]) == Ok::<Metadata, Fault>(seen) ==> kept_by_look(
            target,
            replies,
            before,
        ) == Some(seen),
        metadata_in(replies[0]) == Err::<Metadata, Fault>(Fault::NotFound) ==> kept_by_look(
            target,
            replies,
            before,
        ) is None,
        metadata_in(replies[0]) is Err && metadata_in(replies[0]) != Err::<Metadata, Fault>(
            Fault::NotFound,
        ) ==> kept_by_look(target, replies, before) == before,
{
    broadcast use group_play;

}

/// A deactivation keeps what its look finds, unless the entry is left alone.
pub proof fn law_deactivation_keeps(
    file: FileView,
    replies: Seq<Response>,
    before: Option<Metadata>,
    seen: Metadata,
)
    requires
        replies.len() > 0,
    ensures
        file.deactivate == Some(false) ==> kept_by_deactivation(file, replies, before) == before,
        file.deactivate != Some(false) && metadata_in(replies[0]) == Ok::<Metadata, Fault>(seen)
            ==> kept_by_deactivation(file, replies, before) == Some(seen),
{
    broadcast use group_play;

}

/// Applying mode and owner keeps what the second look finds, which comes after the
/// mode has been set, if it has to be.
pub proof fn law_attributes_keep(
    file: FileView,
    replies: Seq<Response>,
    before: Option<Metadata>,
    first: Metadata,
    second: Metadata,
)
    requires
        replies.len() > 2,
        replies[0] == Reply::<Seq<u8>, Seq<u8>>::Metadata(Ok(first)),
    ensures
        file.permissions is None && replies[1] == Reply::<Seq<u8>, Seq<u8>>::Metadata(Ok(second))
            ==> kept_by_attributes(file, replies, before) == Some(second),
        file.permissions is Some && file.permissions->0 != first.bits() && replies[1] == Reply::<
            Seq<u8>,
            Seq<u8>,
        >::Done(Ok(())) && replies[2] == Reply::<Seq<u8>, Seq<u8>>::Metadata(Ok(second))
            ==> kept_by_attributes(file, replies, before) == Some(second),
{
    broadcast use group_play;

    assert(replies.skip(1)[0] == replies[1]);
    assert(replies.skip(1).skip(1)[0] == replies[2]);
}

/// What is kept when something has been made and finished comes from looks at what
/// was made: it does not hang on what was kept before.
pub proof fn law_made_is_seen_anew(
    file: FileView,
    seen: Option<Metadata>,
    replies: Seq<Response>,
    one: Option<Metadata>,
    other: Option<Metadata>,
)
    requires
        !(file.kind is Delete),
        play(install(file, seen), replies).0 == Program::Return(Ok::<(), Failure>(())),
    ensures
        kept_by_install(file, replies, one) == kept_by_install(file, replies, other),
{
    broadcast use group_play;

}

/// The search for a temporary path is over when the replies settle on one.
proof fn lemma_drawn(
    target: Seq<u8>,
    go: spec_fn(Seq<u8>) -> Program<Result<bool, Failure>>,
    replies: Seq<Response>,
)
    ensures
        match drawn(replies) {
            Some((path, rest)) => play(Program::Fresh(target, None, go), replies) == play(
                go(path),
                rest,
            ),
            None => !(play(Program::Fresh(target, None, go), replies).0 is Return),
        },
    decreases replies.len(),
{
    broadcast use group_play;

    if replies.len() > 0 {
        if replies[0] is Candidate {
            if replies.len() > 1 {
                assert(replies.skip(1)[0] == replies[1]);
                lemma_drawn(target, go, replies.skip(1).skip(1));
            }
        } else {
            lemma_drawn(target, go, replies.skip(1));
        }
    }
}

/// A copy or a link that was made elsewhere is seen anew.
proof fn lemma_swapped_is_seen_anew(
    file: FileView,
    temporary: Seq<u8>,
    replies: Seq<Response>,
    one: Option<Metadata>,
    other: Option<Metadata>,
)
    requires
        takes_source(file.kind),
        play(swap_with(file, temporary), replies).0 == Program::Return(Ok::<bool, Failure>(true)),
    ensures
        kept_by_place(at(file, temporary), replies, one) == kept_by_place(
            at(file, temporary),
            replies,
            other,
        ),
{
    broadcast use group_play;

    let aside = at(file, temporary);
    let placed = play(place(aside), replies);
    assert(place(aside) == install(aside, None));
    if placed.0 == Program::Return(Ok::<(), Failure>(())) {
        law_made_is_seen_anew(aside, None, replies, one, other);
    }
}

/// What is kept when a target has been replaced in one step comes from looks at what
/// took its place: it hangs neither on what was kept before nor on what was seen of
/// the old target but whether that was a directory.
pub proof fn law_replaced_is_seen_anew(
    file: FileView,
    replies: Seq<Response>,
    one: Metadata,
    other: Metadata,
    clobber: bool,
    prefix: Seq<u8>,
)
    requires
        play(atomic_activate_program(file, one), replies).0 == Program::Return(
            Ok::<bool, Failure>(true),
        ),
        one.node is Directory <==> other.node is Directory,
    ensures
        kept_by_atomic(file, one, replies, Some(one)) == kept_by_atomic(
            file,
            other,
            replies,
            Some(other),
        ),
        clobber ==> kept_by_bringing_about(file, Some(one), clobber, prefix, replies)
            == kept_by_bringing_about(file, Some(other), clobber, prefix, replies),
{
    broadcast use group_play;

    let go = |temporary: Seq<u8>| swap_with(file, temporary);
    assert(atomic_activate_program(file, one) == atomic_activate_program(file, other)) by {
        assert(atomic_activate_program(file, one) =~~= atomic_activate_program(file, other));
    }
    assert(may_swap(file, one) =~~= may_swap(file, other));
    let rest = play(may_swap(file, one), replies).1;
    lemma_drawn(file.target, go, rest);
    if let Some((temporary, later)) = drawn(rest) {
        if play(swap_with(file, temporary), later).0 == Program::Return(Ok::<bool, Failure>(true)) {
            lemma_swapped_is_seen_anew(file, temporary, later, Some(one), Some(other));
        }
    }
}

/// An activation that is skipped keeps what was kept before; any other keeps nothing
/// of that once its look at the target has succeeded. A target that is found as the
/// entry says is kept as that look found it.
pub proof fn law_activation_sees(
    file: FileView,
    clobber_by_default: Option<bool>,
    prefix: Seq<u8>,
    replies: Seq<Response>,
    one: Option<Metadata>,
    other: Option<Metadata>,
)
    ensures
        play(check_source_program(file), replies).0 == Program::Return(Ok::<bool, Failure>(true))
            ==> kept_by_activation(file, clobber_by_default, prefix, replies, one) == one,
        !takes_source(file.kind) && replies.len() > 0 && metadata_in(replies[0]) is Ok
            ==> kept_by_activation(file, clobber_by_default, prefix, replies, one)
            == kept_by_activation(file, clobber_by_default, prefix, replies, other),
        file.kind is Directory && replies.len() > 0 && metadata_in(replies[0]) is Ok && (
        metadata_in(replies[0])->Ok_0).node is Directory && file.permissions is None && file.uid
            is None && file.gid is None ==> kept_by_activation(
            file,
            clobber_by_default,
            prefix,
            replies,
            one,
        ) == Some(metadata_in(replies[0])->Ok_0),
        takes_source(file.kind) && file.source is Some && replies.len() > 1 && metadata_in(
            replies[0],
        ) is Ok && (file.kind is Copy ==> (metadata_in(replies[0])->Ok_0).node is File)
            && metadata_in(replies[1]) is Ok ==> kept_by_activation(
            file,
            clobber_by_default,
            prefix,
            replies,
            one,
        ) == kept_by_activation(file, clobber_by_default, prefix, replies, other),
{
    broadcast use group_play;

    if replies.len() > 1 {
        assert(replies.skip(1)[0] == replies[1]);
    }
}

/// Where nothing is at the target, an activation keeps what putting the entry there
/// keeps; where something in the way has been freed, it keeps nothing of that.
pub proof fn law_put_is_kept(
    file: FileView,
    seen: Option<Metadata>,
    clobber: bool,
    prefix: Seq<u8>,
    replies: Seq<Response>,
)
    requires
        !(file.kind is Delete),
    ensures
        kept_by_bringing_about(file, None, clobber, prefix, replies) == kept_by_install(
            file,
            replies,
            None,
        ),
        ({
            let checked = play(check_program(file, seen), replies);
            let freed = play(make_way(file, seen, clobber, prefix), checked.1);
            checked.0 == Program::Return(Ok::<bool, Failure>(false)) && freed.0 == Program::Return(
                Ok::<bool, Failure>(true),
            ) && play(install(file, seen), freed.1).0 == Program::Return(Ok::<(), Failure>(()))
                ==> kept_by_correction(file, seen, clobber, prefix, replies) == kept_by_install(
                file,
                freed.1,
                None,
            )
        }),
{
    broadcast use group_play;

    let checked = play(check_program(file, seen), replies);
    let freed = play(make_way(file, seen, clobber, prefix), checked.1);
    if play(install(file, seen), freed.1).0 == Program::Return(Ok::<(), Failure>(())) {
        law_made_is_seen_anew(file, seen, freed.1, seen, None);
    }
}

/// What is not seen anew stays as it was kept: where nothing is made, where nothing
/// is replaced, where the target is removed, where it is left alone or does not get
/// free, and where it cannot be looked at.
pub proof fn law_unseen_stays(
    file: FileView,
    seen: Metadata,
    clobber: bool,
    prefix: Seq<u8>,
    replies: Seq<Response>,
    before: Option<Metadata>,
)
    ensures
        file.kind is Delete ==> kept_by_install(file, replies, before) == before,
        ({
            let first = match file.kind {
                FileKind::Directory => mkdir_program(file.target),
                FileKind::Symlink => put_link(file),
                _ => put_copy(file),
            };
            play(first, replies).0 matches Program::Return(Err(_)) ==> file.kind is Modify
                || kept_by_install(file, replies, before) == before
        }),
        ({
            let left = play(atomic_activate_program(file, seen), replies).0;
            left is Return && left != Program::Return(Ok::<bool, Failure>(true)) ==> kept_by_atomic(
                file,
                seen,
                replies,
                before,
            ) == before
        }),
        ({
            let checked = play(check_program(file, Some(seen)), replies);
            let freed = play(make_way(file, Some(seen), clobber, prefix), checked.1).0;
            checked.0 is Return && freed is Return && freed != Program::Return(
                Ok::<bool, Failure>(true),
            ) ==> kept_by_correction(file, Some(seen), clobber, prefix, replies) == Some(seen)
        }),
        play(look(file.target), replies).0 matches Program::Return(Err(_)) ==> kept_by_proceeding(
            file,
            Some(clobber),
            prefix,
            replies,
            before,
        ) == before,
{
    broadcast use group_play;

    let go = |temporary: Seq<u8>| swap_with(file, temporary);
    lemma_drawn(file.target, go, play(may_swap(file, seen), replies).1);
}

/// Finishing what was made keeps what the last of its looks finds.
pub proof fn law_finish_sees_last(
    file: FileView,
    replies: Seq<Response>,
    before: Option<Metadata>,
    first: Metadata,
    second: Metadata,
    third: Metadata,
)
    requires
        replies.len() > 3,
        replies[0] == Reply::<Seq<u8>, Seq<u8>>::Metadata(Ok(first)),
        replies[1] == Reply::<Seq<u8>, Seq<u8>>::Metadata(Ok(second)),
    ensures
        file.permissions is None && replies[2] == Reply::<Seq<u8>, Seq<u8>>::Metadata(Ok(third))
            ==> kept_by_finish(file, replies, before) == Some(third),
        file.permissions is Some && file.permissions->0 != second.bits() && replies[2] == Reply::<
            Seq<u8>,
            Seq<u8>,
        >::Done(Ok(())) && replies[3] == Reply::<Seq<u8>, Seq<u8>>::Metadata(Ok(third))
            ==> kept_by_finish(file, replies, before) == Some(third),
{
    broadcast use group_play;

    let rest = replies.skip(1);
    assert(rest[0] == replies[1] && rest[1] == replies[2] && rest[2] == replies[3]);
    law_attributes_keep(file, rest, Some(first), second, third);
}

} // verus!
