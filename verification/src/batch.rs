//! Entries worked off one after the other.
use vstd::prelude::*;
use vstd::utf8::encode_utf8;

use crate::action::{Action, Digest, Failure, Metadata, Reply, Response};
use crate::file_util::{
    activate_program, atomic_activate_program, check_source_program, clobbers, dangling_program,
    deactivate_program, effective_clobber, inspect_program, is_dangling_symlink, look,
    proceed_program, skip_program, FileWithMetadata, Skip,
};
use crate::manifest::FileView;
use crate::message::skip_text;
use crate::path::PathBuf;
use crate::program::{
    after_reply, and_then, bind, group_play, lemma_bind_reply, lemma_play_empty, lemma_play_push,
    metadata_in, play, plays, replies_view, request, Halt, Program, Replies,
};

verus! {

/// A piece of work on one entry.
#[derive(Debug)]
pub enum Item {
    Activate(FileWithMetadata),
    Deactivate(FileWithMetadata),
    /// Find out whether the target of a changed entry, given as it was and as
    /// it is to be, has to be protected.
    Guard(FileWithMetadata, FileWithMetadata),
    /// Replace the target of a changed entry in one step.
    Refresh(FileWithMetadata),
}

/// A piece of work, as specifications speak of it.
pub enum ItemView {
    Activate(FileView),
    Deactivate(FileView),
    Guard(FileView, FileView),
    Refresh(FileView),
}

impl View for Item {
    type V = ItemView;

    open spec fn view(&self) -> ItemView {
        match self {
            Item::Activate(file) => ItemView::Activate(file@),
            Item::Deactivate(file) => ItemView::Deactivate(file@),
            Item::Guard(old, new) => ItemView::Guard(old@, new@),
            Item::Refresh(file) => ItemView::Refresh(file@),
        }
    }
}

/// What came of the attempt to replace a target in one step.
#[derive(Debug, Clone, Copy, PartialEq, Eq, Structural)]
pub enum Refresh {
    /// It was replaced.
    Swapped,
    /// There is nothing to replace: activate the entry as it is.
    Retry,
    /// It could not be replaced: activate the entry over what is there.
    Force,
    /// The target cannot be looked at: the entry has failed.
    Failed(Failure),
}

/// What came of a piece of work.
#[derive(Debug, Clone, Copy, PartialEq, Eq)]
pub enum Outcome {
    Finished(Result<(), Failure>),
    /// Nothing was done for the entry.
    Skipped(Skip),
    Guarded(bool),
    Refreshed(Refresh),
}

/// Finds out whether the target of a changed entry has to be protected: it is
/// there, it may not be thrown away, it is no link that leads nowhere, and it
/// is not as the old entry says.
pub open spec fn guard_program(
    old_file: FileView,
    new_file: FileView,
    clobber_by_default: Option<bool>,
) -> Program<Result<Outcome, Failure>> {
    if clobbers(new_file.clobber, clobber_by_default) {
        Program::Return(Ok(Outcome::Guarded(false)))
    } else {
        Program::Ask(
            Action::SymlinkMetadata(new_file.target),
            |r: Response|
                match metadata_in(r) {
                    Err(_) => Program::Return(Ok(Outcome::Guarded(false))),
                    Ok(seen) => and_then(
                        dangling_program(new_file.target, seen),
                        |dangling: bool|
                            if dangling {
                                Program::Return(Ok(Outcome::Guarded(false)))
                            } else {
                                bind(
                                    inspect_program(old_file),
                                    |checked: Result<bool, Failure>|
                                        Program::Return(
                                            Ok(
                                                Outcome::Guarded(
                                                    checked != Ok::<bool, Failure>(true),
                                                ),
                                            ),
                                        ),
                                )
                            },
                    ),
                },
        )
    }
}

/// Tries to replace the target of an entry in one step.
pub open spec fn swap_program(file: FileView, seen: Metadata) -> Program<Result<Outcome, Failure>> {
    bind(
        atomic_activate_program(file, seen),
        |swapped: Result<bool, Failure>|
            Program::Return(
                Ok(
                    Outcome::Refreshed(
                        if swapped == Ok::<bool, Failure>(true) {
                            Refresh::Swapped
                        } else {
                            Refresh::Force
                        },
                    ),
                ),
            ),
    )
}

/// Replaces the target of a changed entry in one step, if there is anything to
/// replace.
pub open spec fn refresh_program(file: FileView) -> Program<Result<Outcome, Failure>> {
    bind(
        look(file.target),
        |looked: Result<Option<Metadata>, Failure>|
            match looked {
                Err(failure) => Program::Return(
                    Ok(Outcome::Refreshed(Refresh::Failed(failure))),
                ),
                Ok(None) => Program::Return(Ok(Outcome::Refreshed(Refresh::Retry))),
                Ok(Some(seen)) => and_then(
                    check_source_program(file),
                    |skip: bool|
                        if skip {
                            Program::Return(Ok(Outcome::Refreshed(Refresh::Retry)))
                        } else {
                            swap_program(file, seen)
                        },
                ),
            },
    )
}

/// A program's result as the outcome of a piece of work.
pub open spec fn finished(program: Program<Result<(), Failure>>) -> Program<
    Result<Outcome, Failure>,
> {
    bind(
        program,
        |done: Result<(), Failure>|
            Program::Return(Ok::<Outcome, Failure>(Outcome::Finished(done))),
    )
}

/// Activates an entry, or tells why it is skipped.
pub open spec fn activation_program(
    file: FileView,
    clobber_by_default: Option<bool>,
    prefix: Seq<u8>,
) -> Program<Result<Outcome, Failure>> {
    and_then(
        skip_program(file),
        |skip: Option<Skip>|
            match skip {
                Some(reason) => Program::Return(Ok(Outcome::Skipped(reason))),
                None => finished(proceed_program(file, clobber_by_default, prefix)),
            },
    )
}

/// Whether an outcome is that of an activation that did not fail.
pub open spec fn succeeded(outcome: Outcome) -> bool {
    outcome is Skipped || outcome == Outcome::Finished(Ok(()))
}

/// What became of an activation, whether it was skipped or not.
pub open spec fn ending(outcome: Outcome) -> Result<(), Failure> {
    match outcome {
        Outcome::Finished(done) => done,
        _ => Ok(()),
    }
}

/// The piece of work that activates an entry goes as its activation does, and ends
/// as that does, whether it skips the entry or not.
pub proof fn law_item_activates(
    file: FileView,
    clobber_by_default: Option<bool>,
    prefix: Seq<u8>,
    replies: Seq<Response>,
)
    ensures
        ({
            let item = play(activation_program(file, clobber_by_default, prefix), replies);
            let whole = play(activate_program(file, clobber_by_default, prefix), replies);
            &&& item.1 == whole.1
            &&& match item.0 {
                Program::Return(result) => result is Ok && whole.0 == Program::Return(
                    ending(result->Ok_0),
                ),
                _ => !(whole.0 is Return) && request(item.0) == request(whole.0),
            }
        }),
{
    broadcast use group_play;

}

pub open spec fn item_program(
    item: ItemView,
    clobber_by_default: Option<bool>,
    prefix: Seq<u8>,
) -> Program<Result<Outcome, Failure>> {
    match item {
        ItemView::Activate(file) => activation_program(file, clobber_by_default, prefix),
        ItemView::Deactivate(file) => finished(deactivate_program(file)),
        ItemView::Guard(old_file, new_file) => guard_program(
            old_file,
            new_file,
            clobber_by_default,
        ),
        ItemView::Refresh(file) => refresh_program(file),
    }
}

fn finish(done: Result<(), Halt<PathBuf>>) -> (outcome: Result<Outcome, Halt<PathBuf>>)
    ensures
        match done {
            Ok(_) => outcome == Ok::<Outcome, Halt<PathBuf>>(Outcome::Finished(Ok(()))),
            Err(Halt::Fail(failure)) => outcome == Ok::<Outcome, Halt<PathBuf>>(
                Outcome::Finished(Err(failure)),
            ),
            Err(halt) => outcome == Err::<Outcome, Halt<PathBuf>>(halt),
        },
{
    match done {
        Ok(_) => Ok(Outcome::Finished(Ok(()))),
        Err(Halt::Fail(failure)) => Ok(Outcome::Finished(Err(failure))),
        Err(halt) => Err(halt),
    }
}

fn guard(
    old_file: &FileWithMetadata,
    new_file: &FileWithMetadata,
    clobber_by_default: Option<bool>,
    replies: &mut Replies<'_>,
) -> (outcome: Result<Outcome, Halt<PathBuf>>)
    ensures
        plays(
            guard_program(old_file@, new_file@, clobber_by_default),
            old(replies).rest(),
            outcome,
            final(replies).rest(),
        ),
{
    broadcast use group_play;

    if effective_clobber(new_file.clobber, clobber_by_default) {
        return Ok(Outcome::Guarded(false));
    }
    let seen = match replies.see(&new_file.target)? {
        Err(_) => return Ok(Outcome::Guarded(false)),
        Ok(seen) => seen,
    };
    if is_dangling_symlink(&new_file.target, seen, replies)? {
        return Ok(Outcome::Guarded(false));
    }
    match old_file.inspect(replies) {
        Err(Halt::Ask(action)) => Err(Halt::Ask(action)),
        Ok(true) => Ok(Outcome::Guarded(false)),
        _ => Ok(Outcome::Guarded(true)),
    }
}

fn refresh(file: &FileWithMetadata, replies: &mut Replies<'_>) -> (outcome: Result<
    Outcome,
    Halt<PathBuf>,
>)
    ensures
        plays(refresh_program(file@), old(replies).rest(), outcome, final(replies).rest()),
{
    broadcast use group_play;

    let mut current = file.clone();
    match current.set_metadata(replies) {
        Err(Halt::Ask(action)) => return Err(Halt::Ask(action)),
        Err(Halt::Fail(failure)) => return Ok(Outcome::Refreshed(Refresh::Failed(failure))),
        Ok(_) => {},
    }
    if current.metadata.is_none() {
        return Ok(Outcome::Refreshed(Refresh::Retry));
    }
    if current.check_source(replies)? {
        return Ok(Outcome::Refreshed(Refresh::Retry));
    }
    match current.atomic_activate(replies) {
        Err(Halt::Ask(action)) => Err(Halt::Ask(action)),
        Ok(true) => Ok(Outcome::Refreshed(Refresh::Swapped)),
        _ => Ok(Outcome::Refreshed(Refresh::Force)),
    }
}

impl Item {
    /// Goes on with the piece of work as far as the replies lead.
    pub fn work(
        &self,
        clobber_by_default: Option<bool>,
        prefix: &str,
        replies: &mut Replies<'_>,
    ) -> (outcome: Result<Outcome, Halt<PathBuf>>)
        ensures
            plays(
                item_program(self@, clobber_by_default, encode_utf8(prefix@)),
                old(replies).rest(),
                outcome,
                final(replies).rest(),
            ),
    {
        broadcast use group_play;

        match self {
            Item::Activate(file) => match file.reason_to_skip(replies)? {
                Some(reason) => Ok(Outcome::Skipped(reason)),
                None => {
                    let mut current = file.clone();
                    finish(current.proceed(clobber_by_default, prefix, replies))
                },
            },
            Item::Deactivate(file) => {
                let mut current = file.clone();
                finish(current.deactivate(replies))
            },
            Item::Guard(old_file, new_file) => guard(
                old_file,
                new_file,
                clobber_by_default,
                replies,
            ),
            Item::Refresh(file) => refresh(file, replies),
        }
    }
}

pub open spec fn item_target(item: ItemView) -> Seq<u8> {
    match item {
        ItemView::Activate(file) => file.target,
        ItemView::Deactivate(file) => file.target,
        ItemView::Guard(_, new_file) => new_file.target,
        ItemView::Refresh(file) => file.target,
    }
}

pub open spec fn items_view(items: Seq<Item>) -> Seq<ItemView> {
    items.map_values(|i: Item| i@)
}

pub open spec fn outcome_of(result: Result<Outcome, Failure>) -> Outcome {
    match result {
        Ok(outcome) => outcome,
        Err(failure) => Outcome::Finished(Err(failure)),
    }
}

/// Works off `items` from the first to the last and returns what came of each,
/// behind what is already `done`.
pub open spec fn batch(
    items: Seq<ItemView>,
    done: Seq<Outcome>,
    clobber_by_default: Option<bool>,
    prefix: Seq<u8>,
) -> Program<Seq<Outcome>>
    decreases items.len(), 1nat,
{
    if items.len() == 0 {
        Program::Return(done)
    } else {
        bind(
            item_program(items[0], clobber_by_default, prefix),
            rest_of_batch(items, done, clobber_by_default, prefix),
        )
    }
}

/// How a batch goes on after the work on its first item.
pub open spec fn rest_of_batch(
    items: Seq<ItemView>,
    done: Seq<Outcome>,
    clobber_by_default: Option<bool>,
    prefix: Seq<u8>,
) -> spec_fn(Result<Outcome, Failure>) -> Program<Seq<Outcome>>
    decreases items.len(), 0nat,
{
    |result: Result<Outcome, Failure>|
        if items.len() == 0 {
            Program::Return(done)
        } else {
            batch(items.skip(1), done.push(outcome_of(result)), clobber_by_default, prefix)
        }
}

/// What is left of a batch when the replies to the work on its first item have
/// come in.
pub open spec fn remaining(
    items: Seq<ItemView>,
    replies: Seq<Response>,
    done: Seq<Outcome>,
    clobber_by_default: Option<bool>,
    prefix: Seq<u8>,
) -> Program<Seq<Outcome>> {
    if items.len() == 0 {
        Program::Return(done)
    } else {
        bind(
            play(item_program(items[0], clobber_by_default, prefix), replies).0,
            rest_of_batch(items, done, clobber_by_default, prefix),
        )
    }
}

proof fn lemma_remaining_start(
    items: Seq<ItemView>,
    done: Seq<Outcome>,
    clobber_by_default: Option<bool>,
    prefix: Seq<u8>,
)
    ensures
        remaining(items, Seq::<Response>::empty(), done, clobber_by_default, prefix) == batch(
            items,
            done,
            clobber_by_default,
            prefix,
        ),
{
    if items.len() > 0 {
        lemma_play_empty(
            item_program(items[0], clobber_by_default, prefix),
            Seq::<Response>::empty(),
        );
    }
}

proof fn lemma_remaining_done(
    items: Seq<ItemView>,
    replies: Seq<Response>,
    done: Seq<Outcome>,
    clobber_by_default: Option<bool>,
    prefix: Seq<u8>,
    result: Result<Outcome, Failure>,
)
    requires
        items.len() > 0,
        play(item_program(items[0], clobber_by_default, prefix), replies).0 == Program::Return(
            result,
        ),
    ensures
        remaining(items, replies, done, clobber_by_default, prefix) == remaining(
            items.skip(1),
            Seq::<Response>::empty(),
            done.push(outcome_of(result)),
            clobber_by_default,
            prefix,
        ),
{
    lemma_remaining_start(
        items.skip(1),
        done.push(outcome_of(result)),
        clobber_by_default,
        prefix,
    );
}

/// Entries being worked off.
#[derive(Debug)]
pub struct Run {
    items: Vec<Item>,
    at: usize,
    replies: Vec<Reply<PathBuf, Digest>>,
    outcomes: Vec<Outcome>,
    clobber_by_default: Option<bool>,
    prefix: String,
    waiting: Option<Action<PathBuf>>,
}

impl Run {
    /// What has been asked for.
    pub closed spec fn items(&self) -> Seq<ItemView> {
        items_view(self.items@)
    }

    /// What is left of the current piece of work.
    closed spec fn current(&self) -> Program<Result<Outcome, Failure>> {
        play(
            item_program(self.items().skip(self.at as int)[0], self.clobber_by_default, encode_utf8(
                self.prefix@,
            )),
            replies_view(self.replies@),
        ).0
    }

    /// What is left to do.
    pub closed spec fn program(&self) -> Program<Seq<Outcome>> {
        remaining(
            self.items().skip(self.at as int),
            replies_view(self.replies@),
            self.outcomes@,
            self.clobber_by_default,
            encode_utf8(self.prefix@),
        )
    }

    /// Whether the run waits for a reply or is over.
    pub closed spec fn settled(&self) -> bool {
        &&& self.outcomes@.len() == self.at
        &&& if self.at < self.items@.len() {
            &&& !(self.current() is Return)
            &&& self.waiting is Some
            &&& request(self.current()) == Some(self.waiting->0@)
        } else {
            &&& self.at == self.items@.len()
            &&& self.waiting is None
        }
    }

    /// Goes on until a reply is needed.
    fn settle(&mut self)
        requires
            old(self).at <= old(self).items@.len(),
            old(self).outcomes@.len() == old(self).at,
        ensures
            final(self).settled(),
            final(self).program() == old(self).program(),
            final(self).items() == old(self).items(),
    {
        self.waiting = None;
        while self.at < self.items.len()
            invariant_except_break
                self.at <= self.items@.len(),
                self.outcomes@.len() == self.at,
                self.program() == old(self).program(),
                self.items@ == old(self).items@,
                self.waiting is None,
            ensures
                self.settled(),
                self.program() == old(self).program(),
                self.items@ == old(self).items@,
            decreases self.items.len() - self.at,
        {
            proof {
                assert(self.items().skip(self.at as int)[0] == self.items@[self.at as int]@);
            }
            let mut reader = Replies::new(&self.replies);
            let result = self.items[self.at].work(
                self.clobber_by_default,
                self.prefix.as_str(),
                &mut reader,
            );
            let outcome = match result {
                Err(Halt::Ask(action)) => {
                    self.waiting = Some(action);
                    break;
                },
                Err(Halt::Fail(failure)) => Outcome::Finished(Err(failure)),
                Ok(outcome) => outcome,
            };
            proof {
                let ended = match result {
                    Ok(found) => Ok::<Outcome, Failure>(found),
                    Err(halt) => Err::<Outcome, Failure>(halt->Fail_0),
                };
                lemma_remaining_done(
                    self.items().skip(self.at as int),
                    replies_view(self.replies@),
                    self.outcomes@,
                    self.clobber_by_default,
                    encode_utf8(self.prefix@),
                    ended,
                );
                assert(self.items().skip(self.at as int).skip(1) =~= self.items().skip(
                    self.at + 1,
                ));
            }
            self.outcomes.push(outcome);
            self.replies = Vec::new();
            self.at = self.at + 1;
            proof {
                assert(replies_view(self.replies@) =~= Seq::<Response>::empty());
            }
        }
    }

    /// A run that works off `items`.
    pub fn new(items: Vec<Item>, clobber_by_default: Option<bool>, prefix: &str) -> (run: Run)
        ensures
            run.settled(),
            run.items() == items_view(items@),
            run.program() == batch(
                items_view(items@),
                Seq::<Outcome>::empty(),
                clobber_by_default,
                encode_utf8(prefix@),
            ),
    {
        let mut run = Run {
            items,
            at: 0,
            replies: Vec::new(),
            outcomes: Vec::new(),
            clobber_by_default,
            prefix: prefix.to_owned(),
            waiting: None,
        };
        proof {
            assert(replies_view(run.replies@) =~= Seq::<Response>::empty());
            assert(run.items().skip(0) =~= run.items());
            lemma_remaining_start(
                run.items(),
                Seq::<Outcome>::empty(),
                clobber_by_default,
                encode_utf8(prefix@),
            );
        }
        run.settle();
        run
    }

    proof fn lemma_waits(&self, reply: Response)
        requires
            self.at < self.items@.len(),
            !(self.current() is Return),
        ensures
            !(self.program() is Return),
            request(self.program()) == request(self.current()),
            after_reply(self.program(), reply) == bind(
                after_reply(self.current(), reply),
                rest_of_batch(
                    self.items().skip(self.at as int),
                    self.outcomes@,
                    self.clobber_by_default,
                    encode_utf8(self.prefix@),
                ),
            ),
    {
        lemma_bind_reply(
            self.current(),
            rest_of_batch(
                self.items().skip(self.at as int),
                self.outcomes@,
                self.clobber_by_default,
                encode_utf8(self.prefix@),
            ),
            reply,
        );
    }

    /// The action that the run waits for; `None` when it is over.
    pub fn action(&self) -> (action: Option<&Action<PathBuf>>)
        requires
            self.settled(),
        ensures
            match action {
                Some(found) => request(self.program()) == Some(found@),
                None => self.program() is Return,
            },
    {
        proof {
            if self.at < self.items@.len() {
                self.lemma_waits(Reply::Digest(None));
            }
        }
        self.waiting.as_ref()
    }

    /// Goes on with the reply to the action that the run waits for. A run that
    /// is over stays as it is.
    pub fn reply(&mut self, reply: Reply<PathBuf, Digest>)
        requires
            old(self).settled(),
        ensures
            final(self).settled(),
            final(self).items() == old(self).items(),
            final(self).program() == after_reply(old(self).program(), reply@),
    {
        if self.at < self.items.len() {
            let ghost before = *self;
            self.replies.push(reply);
            proof {
                before.lemma_waits(reply@);
                assert(replies_view(self.replies@) =~= replies_view(before.replies@).push(reply@));
                lemma_play_push(
                    item_program(
                        self.items().skip(self.at as int)[0],
                        self.clobber_by_default,
                        encode_utf8(self.prefix@),
                    ),
                    replies_view(before.replies@),
                    reply@,
                );
            }
            self.settle();
        }
    }

    /// The target of an item.
    pub fn target(&self, index: usize) -> (target: PathBuf)
        requires
            index < self.items().len(),
        ensures
            target@ == item_target(self.items()[index as int]),
    {
        match &self.items[index] {
            Item::Activate(file) => file.target.clone(),
            Item::Deactivate(file) => file.target.clone(),
            Item::Guard(_, new_file) => new_file.target.clone(),
            Item::Refresh(file) => file.target.clone(),
        }
    }

    /// Why an entry that was to be activated is skipped, in words.
    pub(crate) fn skip_message(&self, index: usize, reason: Skip) -> (text: Option<String>)
        requires
            index < self.items().len(),
        ensures
            match self.items()[index as int] {
                ItemView::Activate(file) => text is Some && text->0@ == skip_text(file, reason),
                _ => text is None,
            },
    {
        match &self.items[index] {
            Item::Activate(file) => Some(file.skip_message(reason)),
            _ => None,
        }
    }

    /// What came of each piece of work of a run that is over.
    pub fn outcomes(&self) -> (outcomes: &Vec<Outcome>)
        requires
            self.settled(),
            self.program() is Return,
        ensures
            self.program() == Program::Return(outcomes@),
            outcomes@.len() == self.items().len(),
    {
        proof {
            if self.at < self.items@.len() {
                self.lemma_waits(Reply::Digest(None));
            }
        }
        &self.outcomes
    }
}

} // verus!
