//! Programs that act through requests.
//!
//! A program either returns, or asks for an action and goes on according to the
//! reply. It is what the specifications of the library's operations are written
//! in; the operations themselves replay the replies so far and come up with the
//! next action or with the result.
use vstd::prelude::*;

use crate::action::{Action, Digest, Failure, Fault, Metadata, Reply, Request, Response};
use crate::path::PathBuf;

verus! {

#[verifier::reject_recursive_types(R)]
pub enum Program<R> {
    /// The program is over.
    Return(R),
    /// The program asks for an action and goes on with the reply.
    Ask(Request, spec_fn(Response) -> Program<R>),
    /// The program draws random paths beside the given one until one of them is
    /// free, and goes on with that. The candidate that is being looked at is
    /// kept, if there is one.
    Fresh(Seq<u8>, Option<Seq<u8>>, spec_fn(Seq<u8>) -> Program<R>),
}

/// The program that goes on with what `first` returns.
pub open spec fn bind<A, B>(first: Program<A>, next: spec_fn(A) -> Program<B>) -> Program<B>
    decreases first,
{
    match first {
        Program::Return(value) => next(value),
        Program::Ask(request, go) => Program::Ask(request, |r: Response| bind(go(r), next)),
        Program::Fresh(target, candidate, go) => Program::Fresh(
            target,
            candidate,
            |path: Seq<u8>| bind(go(path), next),
        ),
    }
}

/// The program that goes on with what `first` returns unless that is a failure.
pub open spec fn and_then<A, B>(
    first: Program<Result<A, Failure>>,
    next: spec_fn(A) -> Program<Result<B, Failure>>,
) -> Program<Result<B, Failure>> {
    bind(
        first,
        |result: Result<A, Failure>|
            match result {
                Ok(value) => next(value),
                Err(failure) => Program::Return(Err(failure)),
            },
    )
}

/// The action that the program waits for.
pub open spec fn request<R>(program: Program<R>) -> Option<Request> {
    match program {
        Program::Return(_) => None,
        Program::Ask(request, _) => Some(request),
        Program::Fresh(target, None, _) => Some(Action::PickTemporary(target)),
        Program::Fresh(_, Some(candidate), _) => Some(Action::Exists(candidate)),
    }
}

/// What is left of the program after a reply.
pub open spec fn after_reply<R>(program: Program<R>, reply: Response) -> Program<R> {
    match program {
        Program::Return(_) => program,
        Program::Ask(_, go) => go(reply),
        Program::Fresh(target, None, go) => match reply {
            Reply::Candidate(path) => Program::Fresh(target, Some(path), go),
            _ => program,
        },
        Program::Fresh(target, Some(candidate), go) => match reply {
            Reply::Answer(Ok(true)) => Program::Fresh(target, None, go),
            Reply::Answer(_) => go(candidate),
            _ => Program::Fresh(target, None, go),
        },
    }
}

/// What is left of the program after the replies, and the replies that it has
/// no use for because it is over.
#[verifier::opaque]
pub open spec fn play<R>(program: Program<R>, replies: Seq<Response>) -> (
    Program<R>,
    Seq<Response>,
)
    decreases replies.len(),
{
    if program is Return || replies.len() == 0 {
        (program, replies)
    } else {
        play(after_reply(program, replies[0]), replies.skip(1))
    }
}

pub broadcast proof fn lemma_play_return<R>(value: R, replies: Seq<Response>)
    ensures
        #[trigger] play(Program::Return(value), replies) == (Program::Return(value), replies),
{
    reveal(play);
}

pub broadcast proof fn lemma_play_empty<R>(program: Program<R>, replies: Seq<Response>)
    requires
        replies.len() == 0,
    ensures
        #[trigger] play(program, replies) == (program, replies),
{
    reveal(play);
}

pub broadcast proof fn lemma_play_ask<R>(
    request: Request,
    go: spec_fn(Response) -> Program<R>,
    replies: Seq<Response>,
)
    requires
        replies.len() > 0,
    ensures
        #[trigger] play(Program::Ask(request, go), replies) == play(
            go(replies[0]),
            replies.skip(1),
        ),
{
    reveal(play);
}

pub broadcast proof fn lemma_play_fresh<R>(
    target: Seq<u8>,
    candidate: Option<Seq<u8>>,
    go: spec_fn(Seq<u8>) -> Program<R>,
    replies: Seq<Response>,
)
    requires
        replies.len() > 0,
    ensures
        #[trigger] play(Program::Fresh(target, candidate, go), replies) == play(
            after_reply(Program::Fresh(target, candidate, go), replies[0]),
            replies.skip(1),
        ),
{
    reveal(play);
}

pub proof fn lemma_bind_reply<A, B>(
    first: Program<A>,
    next: spec_fn(A) -> Program<B>,
    reply: Response,
)
    requires
        !(first is Return),
    ensures
        after_reply(bind(first, next), reply) == bind(after_reply(first, reply), next),
        request(bind(first, next)) == request(first),
        !(bind(first, next) is Return),
{
}

/// A sequence of programs plays one after the other.
pub broadcast proof fn lemma_play_bind<A, B>(
    first: Program<A>,
    next: spec_fn(A) -> Program<B>,
    replies: Seq<Response>,
)
    ensures
        #[trigger] play(bind(first, next), replies) == match play(first, replies).0 {
            Program::Return(value) => play(next(value), play(first, replies).1),
            rest => (bind(rest, next), play(first, replies).1),
        },
        !(play(first, replies).0 is Return) ==> request(play(bind(first, next), replies).0)
            == request(play(first, replies).0) && !(play(bind(first, next), replies).0 is Return),
    decreases replies.len(),
{
    reveal(play);
    if first is Return {
    } else if replies.len() == 0 {
        lemma_bind_reply(first, next, Reply::Digest(None));
    } else {
        lemma_bind_reply(first, next, replies[0]);
        lemma_play_bind(after_reply(first, replies[0]), next, replies.skip(1));
    }
}

pub broadcast group group_play {
    lemma_play_return,
    lemma_play_empty,
    lemma_play_ask,
    lemma_play_fresh,
    lemma_play_bind,
}

/// After one more reply, what is left of the program is what was left before,
/// gone on by that reply.
pub proof fn lemma_play_push<R>(program: Program<R>, replies: Seq<Response>, reply: Response)
    requires
        !(play(program, replies).0 is Return),
    ensures
        play(program, replies.push(reply)).0 == after_reply(play(program, replies).0, reply),
    decreases replies.len(),
{
    reveal(play);
    if replies.len() == 0 {
        assert(replies.push(reply).skip(1) =~= Seq::<Response>::empty());
        assert(replies.push(reply)[0] == reply);
        lemma_play_empty(after_reply(program, reply), replies.push(reply).skip(1));
    } else {
        assert(replies.push(reply).skip(1) =~= replies.skip(1).push(reply));
        assert(replies.push(reply)[0] == replies[0]);
        lemma_play_push(after_reply(program, replies[0]), replies.skip(1), reply);
    }
}

pub open spec fn metadata_in(reply: Response) -> Result<Metadata, Fault> {
    match reply {
        Reply::Metadata(result) => result,
        _ => Err(Fault::Mismatch),
    }
}

pub open spec fn answer_in(reply: Response) -> Result<bool, Fault> {
    match reply {
        Reply::Answer(result) => result,
        _ => Err(Fault::Mismatch),
    }
}

pub open spec fn path_in(reply: Response) -> Result<Seq<u8>, Fault> {
    match reply {
        Reply::Path(result) => result,
        _ => Err(Fault::Mismatch),
    }
}

pub open spec fn digest_in(reply: Response) -> Option<Seq<u8>> {
    match reply {
        Reply::Digest(digest) => digest,
        _ => None,
    }
}

pub open spec fn done_in(reply: Response) -> Result<(), Fault> {
    match reply {
        Reply::Done(result) => result,
        _ => Err(Fault::Mismatch),
    }
}

/// An action that has to succeed.
pub open spec fn must(request: Request) -> Program<Result<(), Failure>> {
    Program::Ask(
        request,
        |r: Response|
            Program::Return(
                match done_in(r) {
                    Ok(_) => Ok(()),
                    Err(fault) => Err(Failure::Io(fault)),
                },
            ),
    )
}

/// A look at a node that has to succeed.
pub open spec fn must_see(path: Seq<u8>) -> Program<Result<Metadata, Failure>> {
    Program::Ask(
        Action::SymlinkMetadata(path),
        |r: Response|
            Program::Return(
                match metadata_in(r) {
                    Ok(metadata) => Ok(metadata),
                    Err(fault) => Err(Failure::Io(fault)),
                },
            ),
    )
}

/// A question about a path that has to be answered with a path.
pub open spec fn must_find(request: Request) -> Program<Result<Seq<u8>, Failure>> {
    Program::Ask(
        request,
        |r: Response|
            Program::Return(
                match path_in(r) {
                    Ok(path) => Ok(path),
                    Err(fault) => Err(Failure::Io(fault)),
                },
            ),
    )
}

/// Why an operation stopped before its end.
#[derive(Debug)]
pub enum Halt<P> {
    /// It needs a reply to this action.
    Ask(Action<P>),
    /// It failed.
    Fail(Failure),
}

/// Whether `outcome` and `after` are what becomes of `program` on the replies
/// `before`: the value that it returns with the replies that are left, or the
/// action that it waits for.
pub open spec fn plays<T>(
    program: Program<Result<T, Failure>>,
    before: Seq<Response>,
    outcome: Result<T, Halt<PathBuf>>,
    after: Seq<Response>,
) -> bool {
    match outcome {
        Ok(value) => play(program, before) == (Program::Return(Ok::<T, Failure>(value)), after),
        Err(Halt::Fail(failure)) => play(program, before) == (
            Program::Return(Err::<T, Failure>(failure)),
            after,
        ),
        Err(Halt::Ask(action)) => !(play(program, before).0 is Return) && request(
            play(program, before).0,
        ) == Some(action@),
    }
}

pub open spec fn replies_view(replies: Seq<Reply<PathBuf, Digest>>) -> Seq<Response> {
    replies.map_values(|r: Reply<PathBuf, Digest>| r@)
}

/// The replies so far, read from the first to the last.
pub struct Replies<'a> {
    all: &'a Vec<Reply<PathBuf, Digest>>,
    next: usize,
}

impl<'a> Replies<'a> {
    /// The replies that have not been read.
    pub closed spec fn rest(&self) -> Seq<Response> {
        if self.next <= self.all@.len() {
            replies_view(self.all@).skip(self.next as int)
        } else {
            Seq::<Response>::empty()
        }
    }

    /// Starts reading at the first reply.
    pub fn new(all: &'a Vec<Reply<PathBuf, Digest>>) -> (replies: Replies<'a>)
        ensures
            replies.rest() == replies_view(all@),
    {
        proof {
            assert(replies_view(all@).skip(0) =~= replies_view(all@));
        }
        Replies { all, next: 0 }
    }

    /// The next reply, or a halt that asks for it.
    pub fn ask(&mut self, action: Action<PathBuf>) -> (reply: Result<
        &'a Reply<PathBuf, Digest>,
        Halt<PathBuf>,
    >)
        ensures
            old(self).rest().len() == 0 ==> reply == Err::<&Reply<PathBuf, Digest>, Halt<PathBuf>>(
                Halt::Ask(action),
            ) && final(self).rest() == old(self).rest(),
            old(self).rest().len() > 0 ==> reply is Ok && reply->Ok_0@ == old(self).rest()[0]
                && final(self).rest() == old(self).rest().skip(1),
    {
        if self.next < self.all.len() {
            let reply = &self.all[self.next];
            self.next = self.next + 1;
            proof {
                assert(self.rest() =~= old(self).rest().skip(1));
            }
            Ok(reply)
        } else {
            Err(Halt::Ask(action))
        }
    }

    /// Looks at a node; the outer result is a halt, the inner one the reply.
    pub fn see(&mut self, path: &PathBuf) -> (found: Result<
        Result<Metadata, Fault>,
        Halt<PathBuf>,
    >)
        ensures
            old(self).rest().len() == 0 ==> (found matches Err(Halt::Ask(action)) && action@
                == Action::<Seq<u8>>::SymlinkMetadata(path@)) && final(self).rest() == old(
                self,
            ).rest(),
            old(self).rest().len() > 0 ==> found == Ok::<Result<Metadata, Fault>, Halt<PathBuf>>(
                metadata_in(old(self).rest()[0]),
            ) && final(self).rest() == old(self).rest().skip(1),
    {
        let reply = self.ask(Action::SymlinkMetadata(path.clone()))?;
        match reply {
            Reply::Metadata(result) => Ok(*result),
            _ => Ok(Err(Fault::Mismatch)),
        }
    }

    /// Asks a question that is answered with yes or no.
    pub fn inquire(&mut self, action: Action<PathBuf>) -> (answer: Result<
        Result<bool, Fault>,
        Halt<PathBuf>,
    >)
        ensures
            old(self).rest().len() == 0 ==> answer == Err::<Result<bool, Fault>, Halt<PathBuf>>(
                Halt::Ask(action),
            ) && final(self).rest() == old(self).rest(),
            old(self).rest().len() > 0 ==> answer == Ok::<Result<bool, Fault>, Halt<PathBuf>>(
                answer_in(old(self).rest()[0]),
            ) && final(self).rest() == old(self).rest().skip(1),
    {
        let reply = self.ask(action)?;
        match reply {
            Reply::Answer(result) => Ok(*result),
            _ => Ok(Err(Fault::Mismatch)),
        }
    }

    /// Looks at a node that has to be there.
    pub fn must_see(&mut self, path: &PathBuf) -> (found: Result<Metadata, Halt<PathBuf>>)
        ensures
            plays(must_see(path@), old(self).rest(), found, final(self).rest()),
    {
        broadcast use group_play;

        match self.see(path)? {
            Ok(metadata) => Ok(metadata),
            Err(fault) => Err(Halt::Fail(Failure::Io(fault))),
        }
    }

    /// Takes an action that has to succeed.
    pub fn must(&mut self, action: Action<PathBuf>) -> (done: Result<(), Halt<PathBuf>>)
        ensures
            plays(must(action@), old(self).rest(), done, final(self).rest()),
    {
        broadcast use group_play;

        match self.ask(action)? {
            Reply::Done(Ok(_)) => Ok(()),
            Reply::Done(Err(fault)) => Err(Halt::Fail(Failure::Io(*fault))),
            _ => Err(Halt::Fail(Failure::Io(Fault::Mismatch))),
        }
    }

    /// Asks a question that has to be answered with a path.
    pub fn must_find(&mut self, action: Action<PathBuf>) -> (found: Result<
        PathBuf,
        Halt<PathBuf>,
    >)
        ensures
            match found {
                Ok(path) => play(must_find(action@), old(self).rest()) == (
                    Program::Return(Ok::<Seq<u8>, Failure>(path@)),
                    final(self).rest(),
                ),
                Err(halt) => plays(
                    must_find(action@),
                    old(self).rest(),
                    Err(halt),
                    final(self).rest(),
                ),
            },
    {
        broadcast use group_play;

        match self.ask(action)? {
            Reply::Path(Ok(path)) => Ok(path.clone()),
            Reply::Path(Err(fault)) => Err(Halt::Fail(Failure::Io(*fault))),
            _ => Err(Halt::Fail(Failure::Io(Fault::Mismatch))),
        }
    }
}

/// What a reply tells: what it says, where it belongs to the action, and otherwise
/// that it does not. A fault is handed on as it is.
pub proof fn law_replies_tell(
    request: Request,
    path: Seq<u8>,
    metadata: Metadata,
    answer: bool,
    fault: Fault,
    rest: Seq<Response>,
)
    ensures
        play(must(request), seq![Reply::Done(Ok(()))] + rest) == (
            Program::Return(Ok::<(), Failure>(())),
            rest,
        ),
        play(must(request), seq![Reply::Done(Err(fault))] + rest) == (
            Program::Return(Err::<(), Failure>(Failure::Io(fault))),
            rest,
        ),
        play(must(request), seq![Reply::Answer(Ok(answer))] + rest) == (
            Program::Return(Err::<(), Failure>(Failure::Io(Fault::Mismatch))),
            rest,
        ),
        play(must_see(path), seq![Reply::Metadata(Ok(metadata))] + rest) == (
            Program::Return(Ok::<Metadata, Failure>(metadata)),
            rest,
        ),
        play(must_see(path), seq![Reply::Metadata(Err(fault))] + rest) == (
            Program::Return(Err::<Metadata, Failure>(Failure::Io(fault))),
            rest,
        ),
        play(must_see(path), seq![Reply::Answer(Ok(answer))] + rest) == (
            Program::Return(Err::<Metadata, Failure>(Failure::Io(Fault::Mismatch))),
            rest,
        ),
        play(must_find(request), seq![Reply::Path(Ok(path))] + rest) == (
            Program::Return(Ok::<Seq<u8>, Failure>(path)),
            rest,
        ),
        play(must_find(request), seq![Reply::Path(Err(fault))] + rest) == (
            Program::Return(Err::<Seq<u8>, Failure>(Failure::Io(fault))),
            rest,
        ),
        play(must_find(request), seq![Reply::Answer(Ok(answer))] + rest) == (
            Program::Return(Err::<Seq<u8>, Failure>(Failure::Io(Fault::Mismatch))),
            rest,
        ),
        answer_in(Reply::Answer(Ok(answer))) == Ok::<bool, Fault>(answer),
        answer_in(Reply::Answer(Err(fault))) == Err::<bool, Fault>(fault),
        answer_in(Reply::Done(Ok(()))) == Err::<bool, Fault>(Fault::Mismatch),
        digest_in(Reply::Digest(Some(path))) == Some(path),
        digest_in(Reply::Digest(None)) is None,
        digest_in(Reply::Done(Ok(()))) is None,
{
    broadcast use group_play;

    assert forall|head: Response|
        #![trigger seq![head]]
        (seq![head] + rest)[0] == head && (seq![head] + rest).skip(1) == rest by {
        assert((seq![head] + rest).skip(1) =~= rest);
    }
}

/// Random paths are drawn until one is free: a path that is taken is drawn again,
/// and the first that is not is gone on with.
pub proof fn law_drawing<R>(
    target: Seq<u8>,
    candidate: Seq<u8>,
    go: spec_fn(Seq<u8>) -> Program<R>,
)
    ensures
        request(Program::Fresh(target, None, go)) == Some(Action::PickTemporary(target)),
        request(
            after_reply(Program::Fresh(target, None, go), Reply::Candidate(candidate)),
        ) == Some(Action::Exists(candidate)),
        request(
            after_reply(Program::Fresh(target, Some(candidate), go), Reply::Answer(Ok(true))),
        ) == Some(Action::PickTemporary(target)),
        after_reply(Program::Fresh(target, Some(candidate), go), Reply::Answer(Ok(false))) == go(
            candidate,
        ),
{
}

} // verus!
