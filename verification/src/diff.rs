//! The step from the state that one manifest describes to that of another.
use vstd::prelude::*;
use vstd::string::StringExecFns;
use vstd::utf8::encode_utf8;

use crate::action::{Action, Digest, Failure, Fault, Reply};
use crate::apply::{
    activation_items, activations, deactivation_items, deactivations, failures_of, failures_view,
    warnings_of,
};
use crate::batch::{batch, item_target, items_view, Item, ItemView, Outcome, Refresh, Run};
use crate::file_util::{clobbers, effective_clobber, FileWithMetadata};
use crate::manifest::{clone_files, files_view, File, FileView, Manifest, ManifestView};
use crate::message::{are_words, fault_text, is_failure_text, messages_view};
use crate::order::sort_files;
use crate::path::PathBuf;
use crate::program::{after_reply, bind, lemma_bind_reply, request, Program};
use crate::read::{read_error_text, ReadError, ReadErrorView};
use crate::split::{pairs_view, split, split_files, Split, SplitView};
use crate::text::{decimal, decimal_text, display, lossy_text};

verus! {

/// What was found where the old manifest should be.
#[derive(Debug)]
pub enum OldManifest {
    Found(Manifest),
    Missing,
    /// It is there, but it cannot be read.
    Unreadable(ReadError),
    /// It is not known whether it is there.
    Unprobed(Fault),
}

/// What was found where the old manifest should be, as specifications speak of
/// it.
pub enum OldManifestView {
    Found(ManifestView),
    Missing,
    Unreadable(ReadErrorView),
    Unprobed(Fault),
}

impl View for OldManifest {
    type V = OldManifestView;

    open spec fn view(&self) -> OldManifestView {
        match self {
            OldManifest::Found(manifest) => OldManifestView::Found(manifest@),
            OldManifest::Missing => OldManifestView::Missing,
            OldManifest::Unreadable(error) => OldManifestView::Unreadable(error@),
            OldManifest::Unprobed(fault) => OldManifestView::Unprobed(*fault),
        }
    }
}

/// Why a delta was not applied, or not wholly.
#[derive(Debug)]
pub enum DiffError {
    /// There is no old manifest.
    OldManifestMissing,
    /// The old manifest cannot be read.
    OldManifestRead(ReadError),
    /// Targets that differ from what the old manifest says and may not be
    /// thrown away. Nothing was changed.
    ProtectedTargets(Vec<PathBuf>),
    /// The targets of the entries that failed, each with its failure in words.
    ActivationFailed(Vec<(PathBuf, String)>),
    /// It could not be found out whether there is an old manifest.
    Other(Fault),
}

/// Why a delta was not applied, as specifications speak of it.
pub enum DiffErrorView {
    OldManifestMissing,
    OldManifestRead(ReadErrorView),
    ProtectedTargets(Seq<Seq<u8>>),
    ActivationFailed(Seq<(Seq<u8>, Seq<char>)>),
    Other(Fault),
}

pub open spec fn paths_view(paths: Seq<PathBuf>) -> Seq<Seq<u8>> {
    paths.map_values(|p: PathBuf| p@)
}

pub open spec fn texts_view(texts: Seq<(PathBuf, String)>) -> Seq<(Seq<u8>, Seq<char>)> {
    texts.map_values(|t: (PathBuf, String)| (t.0@, t.1@))
}

impl View for DiffError {
    type V = DiffErrorView;

    open spec fn view(&self) -> DiffErrorView {
        match self {
            DiffError::OldManifestMissing => DiffErrorView::OldManifestMissing,
            DiffError::OldManifestRead(error) => DiffErrorView::OldManifestRead(error@),
            DiffError::ProtectedTargets(targets) => DiffErrorView::ProtectedTargets(
                paths_view(targets@),
            ),
            DiffError::ActivationFailed(failures) => DiffErrorView::ActivationFailed(
                texts_view(failures@),
            ),
            DiffError::Other(fault) => DiffErrorView::Other(*fault),
        }
    }
}

/// Why a delta was not applied, before failures are put in words.
pub enum DiffFault {
    OldManifestMissing,
    OldManifestRead(ReadErrorView),
    ProtectedTargets(Seq<Seq<u8>>),
    /// The targets of the entries that failed, each with its failure.
    ActivationFailed(Seq<(Seq<u8>, Failure)>),
    Other(Fault),
}

/// How a delta ends: what came of it, and what is to be said of the entries that
/// were skipped.
pub struct DiffEnd {
    pub result: Result<(), DiffFault>,
    pub warnings: Seq<Seq<char>>,
}

/// The end of a delta that was not applied.
pub open spec fn refused(fault: DiffFault) -> DiffEnd {
    DiffEnd { result: Err(fault), warnings: Seq::<Seq<char>>::empty() }
}

/// Whether `texts` are `failures` in words.
pub open spec fn tells_failures(
    texts: Seq<(Seq<u8>, Seq<char>)>,
    failures: Seq<(Seq<u8>, Failure)>,
) -> bool {
    &&& texts.len() == failures.len()
    &&& forall|i: int|
        0 <= i < texts.len() ==> (#[trigger] texts[i]).0 == failures[i].0 && is_failure_text(
            texts[i].1,
            failures[i].1,
            failures[i].0,
        )
}

/// Whether `error` is `fault` with its failures in words.
pub open spec fn tells_fault(error: DiffErrorView, fault: DiffFault) -> bool {
    match (error, fault) {
        (DiffErrorView::OldManifestMissing, DiffFault::OldManifestMissing) => true,
        (DiffErrorView::OldManifestRead(a), DiffFault::OldManifestRead(b)) => a == b,
        (DiffErrorView::ProtectedTargets(a), DiffFault::ProtectedTargets(b)) => a == b,
        (
            DiffErrorView::ActivationFailed(texts),
            DiffFault::ActivationFailed(failures),
        ) => tells_failures(texts, failures),
        (DiffErrorView::Other(a), DiffFault::Other(b)) => a == b,
        _ => false,
    }
}

/// Whether `found` is `result` with its failures in words.
pub open spec fn tells_result(
    found: Result<(), DiffError>,
    result: Result<(), DiffFault>,
) -> bool {
    match (found, result) {
        (Ok(_), Ok(_)) => true,
        (Err(error), Err(fault)) => tells_fault(error@, fault),
        _ => false,
    }
}

/// One line for each target.
pub open spec fn target_lines(targets: Seq<Seq<u8>>) -> Seq<char>
    decreases targets.len(),
{
    if targets.len() == 0 {
        Seq::<char>::empty()
    } else {
        target_lines(targets.drop_last()) + "\n  "@ + lossy_text(targets.last())
    }
}

/// One line for each failure.
pub open spec fn failure_lines(failures: Seq<(Seq<u8>, Seq<char>)>) -> Seq<char>
    decreases failures.len(),
{
    if failures.len() == 0 {
        Seq::<char>::empty()
    } else {
        failure_lines(failures.drop_last()) + "\n  "@ + lossy_text(failures.last().0) + ": "@
            + failures.last().1
    }
}

/// The error in words; `words` are those of the system for a fault.
pub open spec fn diff_error_text(error: DiffErrorView, words: Seq<char>) -> Seq<char> {
    match error {
        DiffErrorView::OldManifestMissing => "old manifest does not exist"@,
        DiffErrorView::OldManifestRead(inner) => read_error_text(inner),
        DiffErrorView::ProtectedTargets(targets) => decimal(targets.len())
            + " target(s) differ from the old manifest while clobber is disabled:"@ + target_lines(
            targets,
        ),
        DiffErrorView::ActivationFailed(failures) => decimal(failures.len())
            + " file(s) failed to activate/deactivate:"@ + failure_lines(failures),
        DiffErrorView::Other(fault) => fault_text(fault, words),
    }
}

fn protected_message(targets: &Vec<PathBuf>) -> (text: String)
    ensures
        forall|words: Seq<char>|
            text@ == #[trigger] diff_error_text(
                DiffErrorView::ProtectedTargets(paths_view(targets@)),
                words,
            ),
{
    let mut text = decimal_text(targets.len() as u64);
    text.append(" target(s) differ from the old manifest while clobber is disabled:");
    let ghost head = text@;
    let ghost paths = paths_view(targets@);
    let mut i: usize = 0;
    proof {
        assert(paths.take(0) =~= Seq::<Seq<u8>>::empty());
        assert(head + target_lines(paths.take(0)) =~= head);
    }
    while i < targets.len()
        invariant
            i <= targets.len(),
            paths == paths_view(targets@),
            text@ == head + target_lines(paths.take(i as int)),
        decreases targets.len() - i,
    {
        proof {
            let longer = paths.take(i + 1);
            assert(longer.drop_last() =~= paths.take(i as int));
            assert(longer.last() == targets@[i as int]@);
        }
        text.append("\n  ");
        text.append(display(&targets[i]).as_str());
        proof {
            assert(text@ =~= head + target_lines(paths.take(i + 1)));
        }
        i = i + 1;
    }
    proof {
        assert(paths.take(targets.len() as int) =~= paths);
    }
    text
}

fn failed_message(failures: &Vec<(PathBuf, String)>) -> (text: String)
    ensures
        forall|words: Seq<char>|
            text@ == #[trigger] diff_error_text(
                DiffErrorView::ActivationFailed(texts_view(failures@)),
                words,
            ),
{
    let mut text = decimal_text(failures.len() as u64);
    text.append(" file(s) failed to activate/deactivate:");
    let ghost head = text@;
    let ghost texts = texts_view(failures@);
    let mut i: usize = 0;
    proof {
        assert(texts.take(0) =~= Seq::<(Seq<u8>, Seq<char>)>::empty());
        assert(head + failure_lines(texts.take(0)) =~= head);
    }
    while i < failures.len()
        invariant
            i <= failures.len(),
            texts == texts_view(failures@),
            text@ == head + failure_lines(texts.take(i as int)),
        decreases failures.len() - i,
    {
        proof {
            let longer = texts.take(i + 1);
            assert(longer.drop_last() =~= texts.take(i as int));
            assert(longer.last() == (failures@[i as int].0@, failures@[i as int].1@));
        }
        text.append("\n  ");
        text.append(display(&failures[i].0).as_str());
        text.append(": ");
        text.append(failures[i].1.as_str());
        proof {
            assert(text@ =~= head + failure_lines(texts.take(i + 1)));
        }
        i = i + 1;
    }
    proof {
        assert(texts.take(failures.len() as int) =~= texts);
    }
    text
}

/// Whether `words` are those of the system for the fault that the error is about,
/// if it is about one.
pub open spec fn are_diff_words(error: DiffErrorView, words: Seq<char>) -> bool {
    match error {
        DiffErrorView::Other(fault) => are_words(fault, words),
        _ => words == ""@,
    }
}

impl DiffError {
    /// The error in words, with those of the system for a fault.
    pub fn message(&self) -> (text: String)
        ensures
            exists|words: Seq<char>|
                are_diff_words(self@, words) && text@ == #[trigger] diff_error_text(self@, words),
    {
        let text = match self {
            DiffError::OldManifestMissing => "old manifest does not exist".to_owned(),
            DiffError::OldManifestRead(error) => error.message(),
            DiffError::ProtectedTargets(targets) => protected_message(targets),
            DiffError::ActivationFailed(failures) => failed_message(failures),
            DiffError::Other(fault) => fault.message(),
        };
        proof {
            if let DiffError::Other(fault) = self {
                let words = choose|words: Seq<char>|
                    are_words(*fault, words) && text@ == #[trigger] fault_text(*fault, words);
                assert(text@ == diff_error_text(self@, words));
            } else {
                assert(text@ == diff_error_text(self@, ""@));
            }
        }
        text
    }
}

/// The work of finding out which targets of changed entries have to be
/// protected.
pub open spec fn guards(updated: Seq<(FileView, FileView)>) -> Seq<ItemView> {
    updated.map_values(|pair: (FileView, FileView)| ItemView::Guard(pair.0, pair.1))
}

/// The work of replacing the targets of changed entries in one step.
pub open spec fn refreshes(updated: Seq<(FileView, FileView)>) -> Seq<ItemView> {
    updated.map_values(|pair: (FileView, FileView)| ItemView::Refresh(pair.1))
}

/// The targets that were found to need protection.
pub open spec fn protected_of(items: Seq<ItemView>, outcomes: Seq<Outcome>) -> Seq<Seq<u8>>
    decreases outcomes.len(),
{
    if outcomes.len() == 0 {
        Seq::<Seq<u8>>::empty()
    } else {
        let before = protected_of(items, outcomes.drop_last());
        match outcomes.last() {
            Outcome::Guarded(true) => before.push(item_target(items[outcomes.len() - 1])),
            _ => before,
        }
    }
}

/// The entry, made to throw away what is at its target.
pub open spec fn forced(file: FileView, clobber_by_default: Option<bool>) -> FileView {
    if clobbers(file.clobber, clobber_by_default) {
        file
    } else {
        FileView { clobber: Some(true), ..file }
    }
}

/// What is left of changed entries to activate after the attempt to replace
/// their targets in one step.
pub open spec fn kept_of(
    updated: Seq<(FileView, FileView)>,
    outcomes: Seq<Outcome>,
    clobber_by_default: Option<bool>,
) -> Seq<FileView>
    decreases outcomes.len(),
{
    if outcomes.len() == 0 {
        Seq::<FileView>::empty()
    } else {
        let before = kept_of(updated, outcomes.drop_last(), clobber_by_default);
        let file = updated[outcomes.len() - 1].1;
        match outcomes.last() {
            Outcome::Refreshed(Refresh::Retry) => before.push(file),
            Outcome::Refreshed(Refresh::Force) => before.push(forced(file, clobber_by_default)),
            _ => before,
        }
    }
}

pub open spec fn verdict(failures: Seq<(Seq<u8>, Failure)>) -> Result<(), DiffFault> {
    if failures.len() == 0 {
        Ok(())
    } else {
        Err(DiffFault::ActivationFailed(failures))
    }
}

/// What comes of a delta when its last entries have been activated.
pub open spec fn after_activation(
    items: Seq<ItemView>,
    failures: Seq<(Seq<u8>, Failure)>,
) -> spec_fn(Seq<Outcome>) -> Program<DiffEnd> {
    |outcomes: Seq<Outcome>|
        Program::Return(
            DiffEnd {
                result: verdict(failures + failures_of(items, outcomes)),
                warnings: warnings_of(items, outcomes),
            },
        )
}

/// Activates `files`; `failures` have occurred before.
pub open spec fn finale(
    files: Seq<FileView>,
    failures: Seq<(Seq<u8>, Failure)>,
    clobber_by_default: Option<bool>,
    prefix: Seq<u8>,
) -> Program<DiffEnd> {
    bind(
        batch(activations(files), Seq::<Outcome>::empty(), clobber_by_default, prefix),
        after_activation(activations(files), failures),
    )
}

/// The entries to activate at the end of a delta.
pub open spec fn left_to_activate(
    parts: SplitView,
    outcomes: Seq<Outcome>,
    clobber_by_default: Option<bool>,
) -> Seq<FileView> {
    parts.fresh + kept_of(parts.updated, outcomes, clobber_by_default) + parts.same
}

/// How a delta goes on after the targets of changed entries have been replaced.
pub open spec fn after_refreshes(
    parts: SplitView,
    failures: Seq<(Seq<u8>, Failure)>,
    clobber_by_default: Option<bool>,
    prefix: Seq<u8>,
) -> spec_fn(Seq<Outcome>) -> Program<DiffEnd> {
    |outcomes: Seq<Outcome>|
        finale(
            left_to_activate(parts, outcomes, clobber_by_default),
            failures + failures_of(refreshes(parts.updated), outcomes),
            clobber_by_default,
            prefix,
        )
}

/// How a delta goes on after the old entries have been taken away.
pub open spec fn after_deactivation(
    parts: SplitView,
    clobber_by_default: Option<bool>,
    prefix: Seq<u8>,
) -> spec_fn(Seq<Outcome>) -> Program<DiffEnd> {
    |outcomes: Seq<Outcome>|
        bind(
            batch(refreshes(parts.updated), Seq::<Outcome>::empty(), clobber_by_default, prefix),
            after_refreshes(
                parts,
                failures_of(deactivations(parts.removed), outcomes),
                clobber_by_default,
                prefix,
            ),
        )
}

/// How a delta goes on when it is known which targets need protection.
pub open spec fn after_guards(
    parts: SplitView,
    clobber_by_default: Option<bool>,
    prefix: Seq<u8>,
) -> spec_fn(Seq<Outcome>) -> Program<DiffEnd> {
    |outcomes: Seq<Outcome>|
        {
            let protected = protected_of(guards(parts.updated), outcomes);
            if protected.len() > 0 {
                Program::Return(refused(DiffFault::ProtectedTargets(protected)))
            } else {
                bind(
                    batch(
                        deactivations(parts.removed),
                        Seq::<Outcome>::empty(),
                        clobber_by_default,
                        prefix,
                    ),
                    after_deactivation(parts, clobber_by_default, prefix),
                )
            }
        }
}

/// Brings the file system from the state of one split half to the other: looks
/// for targets that need protection, takes away what was removed, replaces what
/// was changed, and activates what is left.
pub open spec fn delta_program(
    parts: SplitView,
    clobber_by_default: Option<bool>,
    prefix: Seq<u8>,
) -> Program<DiffEnd> {
    bind(
        batch(guards(parts.updated), Seq::<Outcome>::empty(), clobber_by_default, prefix),
        after_guards(parts, clobber_by_default, prefix),
    )
}

/// Brings the file system from the state that the old manifest describes to the
/// state that the new one describes. Where there is no old manifest, the new
/// one is activated as a whole if `fallback` is set.
pub open spec fn diff_program(
    new: ManifestView,
    old: OldManifestView,
    prefix: Seq<u8>,
    fallback: bool,
) -> Program<DiffEnd> {
    match old {
        OldManifestView::Found(manifest) => delta_program(
            split(manifest.files, new.files),
            new.clobber_by_default,
            prefix,
        ),
        OldManifestView::Missing => if fallback {
            finale(
                new.files,
                Seq::<(Seq<u8>, Failure)>::empty(),
                new.clobber_by_default,
                prefix,
            )
        } else {
            Program::Return(refused(DiffFault::OldManifestMissing))
        },
        OldManifestView::Unreadable(error) => Program::Return(
            refused(DiffFault::OldManifestRead(error)),
        ),
        OldManifestView::Unprobed(fault) => Program::Return(refused(DiffFault::Other(fault))),
    }
}

fn guard_items(updated: &Vec<(File, File)>) -> (items: Vec<Item>)
    ensures
        items_view(items@) == guards(pairs_view(updated@)),
{
    let mut items: Vec<Item> = Vec::new();
    let mut i: usize = 0;
    while i < updated.len()
        invariant
            i <= updated.len(),
            items.len() == i,
            forall|j: int|
                0 <= j < i ==> (#[trigger] items@[j])@ == ItemView::Guard(
                    updated@[j].0@,
                    updated@[j].1@,
                ),
        decreases updated.len() - i,
    {
        items.push(
            Item::Guard(
                FileWithMetadata::from(&updated[i].0),
                FileWithMetadata::from(&updated[i].1),
            ),
        );
        i = i + 1;
    }
    proof {
        assert(items_view(items@) =~= guards(pairs_view(updated@)));
    }
    items
}

fn refresh_items(updated: &Vec<(File, File)>) -> (items: Vec<Item>)
    ensures
        items_view(items@) == refreshes(pairs_view(updated@)),
{
    let mut items: Vec<Item> = Vec::new();
    let mut i: usize = 0;
    while i < updated.len()
        invariant
            i <= updated.len(),
            items.len() == i,
            forall|j: int|
                0 <= j < i ==> (#[trigger] items@[j])@ == ItemView::Refresh(updated@[j].1@),
        decreases updated.len() - i,
    {
        items.push(Item::Refresh(FileWithMetadata::from(&updated[i].1)));
        i = i + 1;
    }
    proof {
        assert(items_view(items@) =~= refreshes(pairs_view(updated@)));
    }
    items
}

impl Run {
    /// The targets that were found to need protection in a run that is over.
    fn protected(&self) -> (targets: Vec<PathBuf>)
        requires
            self.settled(),
            self.program() is Return,
        ensures
            paths_view(targets@) == protected_of(self.items(), self.program()->Return_0),
    {
        let outcomes = self.outcomes();
        let mut targets: Vec<PathBuf> = Vec::new();
        let mut i: usize = 0;
        proof {
            assert(outcomes@.take(0) =~= Seq::<Outcome>::empty());
            assert(paths_view(targets@) =~= Seq::<Seq<u8>>::empty());
        }
        while i < outcomes.len()
            invariant
                i <= outcomes.len(),
                outcomes.len() == self.items().len(),
                paths_view(targets@) == protected_of(self.items(), outcomes@.take(i as int)),
            decreases outcomes.len() - i,
        {
            let ghost before = targets@;
            proof {
                let longer = outcomes@.take(i + 1);
                assert(longer.drop_last() =~= outcomes@.take(i as int));
                assert(longer.last() == outcomes@[i as int]);
            }
            if let Outcome::Guarded(true) = outcomes[i] {
                let target = self.target(i);
                targets.push(target);
                proof {
                    assert(paths_view(targets@) =~= paths_view(before).push(target@));
                }
            }
            i = i + 1;
        }
        proof {
            assert(outcomes@.take(outcomes.len() as int) =~= outcomes@);
        }
        targets
    }
}

/// What is left of changed entries to activate.
fn kept_files(
    updated: &Vec<(File, File)>,
    outcomes: &Vec<Outcome>,
    clobber_by_default: Option<bool>,
) -> (files: Vec<File>)
    requires
        outcomes@.len() <= updated@.len(),
    ensures
        files_view(files@) == kept_of(pairs_view(updated@), outcomes@, clobber_by_default),
{
    let ghost pairs = pairs_view(updated@);
    let mut files: Vec<File> = Vec::new();
    let mut i: usize = 0;
    proof {
        assert(outcomes@.take(0) =~= Seq::<Outcome>::empty());
        assert(files_view(files@) =~= Seq::<FileView>::empty());
    }
    while i < outcomes.len()
        invariant
            i <= outcomes.len(),
            outcomes@.len() <= updated@.len(),
            pairs == pairs_view(updated@),
            files_view(files@) == kept_of(pairs, outcomes@.take(i as int), clobber_by_default),
        decreases outcomes.len() - i,
    {
        let ghost before = files@;
        proof {
            let longer = outcomes@.take(i + 1);
            assert(longer.drop_last() =~= outcomes@.take(i as int));
            assert(longer.last() == outcomes@[i as int]);
            assert(pairs[i as int].1 == updated@[i as int].1@);
        }
        match outcomes[i] {
            Outcome::Refreshed(Refresh::Retry) => {
                let file = updated[i].1.clone();
                files.push(file);
                proof {
                    assert(files_view(files@) =~= files_view(before).push(file@));
                }
            },
            Outcome::Refreshed(Refresh::Force) => {
                let mut file = updated[i].1.clone();
                if !effective_clobber(file.clobber, clobber_by_default) {
                    file.clobber = Some(true);
                }
                proof {
                    assert(file@ == forced(updated@[i as int].1@, clobber_by_default));
                }
                files.push(file);
                proof {
                    assert(files_view(files@) =~= files_view(before).push(file@));
                }
            },
            _ => {},
        }
        i = i + 1;
    }
    proof {
        assert(outcomes@.take(outcomes.len() as int) =~= outcomes@);
    }
    files
}

/// Puts failures in words.
fn tell_failures(failures: &Vec<(PathBuf, Failure)>) -> (texts: Vec<(PathBuf, String)>)
    ensures
        tells_failures(texts_view(texts@), failures_view(failures@)),
{
    let mut texts: Vec<(PathBuf, String)> = Vec::new();
    let mut i: usize = 0;
    while i < failures.len()
        invariant
            i <= failures.len(),
            texts.len() == i,
            forall|j: int|
                0 <= j < i ==> (#[trigger] texts@[j]).0@ == failures@[j].0@ && is_failure_text(
                    texts@[j].1@,
                    failures@[j].1,
                    failures@[j].0@,
                ),
        decreases failures.len() - i,
    {
        let target = failures[i].0.clone();
        let text = failures[i].1.message(&failures[i].0);
        texts.push((target, text));
        i = i + 1;
    }
    texts
}

/// The failures of `more` behind those of `failures`.
fn add_failures(failures: &mut Vec<(PathBuf, Failure)>, more: Vec<(PathBuf, Failure)>)
    ensures
        failures_view(final(failures)@) == failures_view(old(failures)@) + failures_view(more@),
{
    let mut rest = more;
    failures.append(&mut rest);
    proof {
        assert(failures_view(failures@) =~= failures_view(old(failures)@) + failures_view(more@));
    }
}

/// The files of `more` behind those of `files`.
fn add_files(files: &mut Vec<File>, more: &Vec<File>)
    ensures
        files_view(final(files)@) == files_view(old(files)@) + files_view(more@),
{
    let mut copies = clone_files(more);
    files.append(&mut copies);
    proof {
        assert(files_view(files@) =~= files_view(old(files)@) + files_view(more@));
    }
}

/// How far a delta has come.
#[derive(Debug, Clone, Copy, PartialEq, Eq, Structural)]
enum Stage {
    Guarding,
    Deactivating,
    Refreshing,
    Activating,
}

/// Why a delta was not applied, before failures are put in words.
#[derive(Debug)]
enum Trouble {
    OldManifestMissing,
    OldManifestRead(ReadError),
    ProtectedTargets(Vec<PathBuf>),
    ActivationFailed(Vec<(PathBuf, Failure)>),
    Other(Fault),
}

impl View for Trouble {
    type V = DiffFault;

    closed spec fn view(&self) -> DiffFault {
        match self {
            Trouble::OldManifestMissing => DiffFault::OldManifestMissing,
            Trouble::OldManifestRead(error) => DiffFault::OldManifestRead(error@),
            Trouble::ProtectedTargets(targets) => DiffFault::ProtectedTargets(
                paths_view(targets@),
            ),
            Trouble::ActivationFailed(failures) => DiffFault::ActivationFailed(
                failures_view(failures@),
            ),
            Trouble::Other(fault) => DiffFault::Other(*fault),
        }
    }
}

impl Trouble {
    fn tell(self) -> (error: DiffError)
        ensures
            tells_fault(error@, self@),
    {
        match self {
            Trouble::OldManifestMissing => DiffError::OldManifestMissing,
            Trouble::OldManifestRead(error) => DiffError::OldManifestRead(error),
            Trouble::ProtectedTargets(targets) => DiffError::ProtectedTargets(targets),
            Trouble::ActivationFailed(failures) => DiffError::ActivationFailed(
                tell_failures(&failures),
            ),
            Trouble::Other(fault) => DiffError::Other(fault),
        }
    }
}

spec fn trouble_view(result: Result<(), Trouble>) -> Result<(), DiffFault> {
    match result {
        Ok(_) => Ok(()),
        Err(trouble) => Err(trouble@),
    }
}

/// A delta being applied.
#[derive(Debug)]
pub struct Diff {
    stage: Stage,
    run: Run,
    parts: Split,
    failures: Vec<(PathBuf, Failure)>,
    clobber_by_default: Option<bool>,
    prefix: String,
    warnings: Vec<String>,
    result: Option<Result<(), Trouble>>,
}

impl Diff {
    /// How the delta goes on after the current stage.
    closed spec fn next(&self) -> spec_fn(Seq<Outcome>) -> Program<DiffEnd> {
        let prefix = encode_utf8(self.prefix@);
        match self.stage {
            Stage::Guarding => after_guards(self.parts@, self.clobber_by_default, prefix),
            Stage::Deactivating => after_deactivation(
                self.parts@,
                self.clobber_by_default,
                prefix,
            ),
            Stage::Refreshing => after_refreshes(
                self.parts@,
                failures_view(self.failures@),
                self.clobber_by_default,
                prefix,
            ),
            Stage::Activating => after_activation(self.run.items(), failures_view(self.failures@)),
        }
    }

    /// What is left to do.
    pub closed spec fn program(&self) -> Program<DiffEnd> {
        match self.result {
            Some(result) => Program::Return(
                DiffEnd {
                    result: trouble_view(result),
                    warnings: messages_view(self.warnings@),
                },
            ),
            None => bind(self.run.program(), self.next()),
        }
    }

    closed spec fn consistent(&self) -> bool {
        &&& self.run.settled()
        &&& self.result is None ==> self.warnings@.len() == 0
        &&& self.result is None ==> match self.stage {
            Stage::Guarding => self.run.items() == guards(self.parts@.updated)
                && self.failures@.len() == 0,
            Stage::Deactivating => self.run.items() == deactivations(self.parts@.removed)
                && self.failures@.len() == 0,
            Stage::Refreshing => self.run.items() == refreshes(self.parts@.updated),
            Stage::Activating => true,
        }
    }

    /// Whether the delta waits for a reply or is over.
    pub closed spec fn settled(&self) -> bool {
        &&& self.consistent()
        &&& self.result is None ==> !(self.run.program() is Return)
    }

    closed spec fn stages_left(&self) -> int {
        if self.result is Some {
            0
        } else {
            match self.stage {
                Stage::Guarding => 4,
                Stage::Deactivating => 3,
                Stage::Refreshing => 2,
                Stage::Activating => 1,
            }
        }
    }

    fn start_activation(&mut self, files: Vec<File>)
        requires
            old(self).result is None,
            old(self).warnings@.len() == 0,
        ensures
            final(self).consistent(),
            final(self).result is None,
            final(self).stage is Activating,
            final(self).program() == finale(
                files_view(files@),
                failures_view(old(self).failures@),
                old(self).clobber_by_default,
                encode_utf8(old(self).prefix@),
            ),
    {
        let sorted = sort_files(files);
        self.run =
        Run::new(activation_items(&sorted), self.clobber_by_default, self.prefix.as_str());
        self.stage = Stage::Activating;
    }

    fn finish_guarding(&mut self)
        requires
            old(self).consistent(),
            old(self).result is None,
            old(self).stage is Guarding,
            old(self).run.program() is Return,
        ensures
            final(self).consistent(),
            final(self).program() == old(self).program(),
            final(self).result is Some || final(self).stage is Deactivating,
    {
        let targets = self.run.protected();
        if targets.len() > 0 {
            self.result = Some(Err(Trouble::ProtectedTargets(targets)));
            proof {
                assert(messages_view(self.warnings@) =~= Seq::<Seq<char>>::empty());
            }
        } else {
            let sorted = sort_files(clone_files(&self.parts.removed));
            self.run =
            Run::new(deactivation_items(&sorted), self.clobber_by_default, self.prefix.as_str());
            self.stage = Stage::Deactivating;
        }
    }

    fn finish_deactivating(&mut self)
        requires
            old(self).consistent(),
            old(self).result is None,
            old(self).stage is Deactivating,
            old(self).run.program() is Return,
        ensures
            final(self).consistent(),
            final(self).program() == old(self).program(),
            final(self).result is None,
            final(self).stage is Refreshing,
    {
        let failed = self.run.failures();
        self.failures = failed;
        self.run =
        Run::new(
            refresh_items(&self.parts.updated),
            self.clobber_by_default,
            self.prefix.as_str(),
        );
        self.stage = Stage::Refreshing;
    }

    fn finish_refreshing(&mut self)
        requires
            old(self).consistent(),
            old(self).result is None,
            old(self).stage is Refreshing,
            old(self).run.program() is Return,
        ensures
            final(self).consistent(),
            final(self).program() == old(self).program(),
            final(self).result is None,
            final(self).stage is Activating,
    {
        let failed = self.run.failures();
        let kept = kept_files(
            &self.parts.updated,
            self.run.outcomes(),
            self.clobber_by_default,
        );
        let mut files = clone_files(&self.parts.fresh);
        add_files(&mut files, &kept);
        add_files(&mut files, &self.parts.same);
        let mut failures: Vec<(PathBuf, Failure)> = Vec::new();
        failures.append(&mut self.failures);
        add_failures(&mut failures, failed);
        self.failures = failures;
        self.start_activation(files);
    }

    fn finish_activating(&mut self)
        requires
            old(self).consistent(),
            old(self).result is None,
            old(self).stage is Activating,
            old(self).run.program() is Return,
        ensures
            final(self).consistent(),
            final(self).program() == old(self).program(),
            final(self).result is Some,
    {
        let failed = self.run.failures();
        let mut failures: Vec<(PathBuf, Failure)> = Vec::new();
        failures.append(&mut self.failures);
        add_failures(&mut failures, failed);
        self.warnings = self.run.warnings();
        self.result =
        if failures.len() == 0 {
            Some(Ok(()))
        } else {
            Some(Err(Trouble::ActivationFailed(failures)))
        };
    }

    /// Goes on until a reply is needed.
    fn settle(&mut self)
        requires
            old(self).consistent(),
        ensures
            final(self).settled(),
            final(self).program() == old(self).program(),
    {
        while self.result.is_none() && self.run.action().is_none()
            invariant
                self.consistent(),
                self.program() == old(self).program(),
            decreases self.stages_left(),
        {
            match self.stage {
                Stage::Guarding => self.finish_guarding(),
                Stage::Deactivating => self.finish_deactivating(),
                Stage::Refreshing => self.finish_refreshing(),
                Stage::Activating => self.finish_activating(),
            }
        }
    }

    /// The action that the delta waits for; `None` when it is over.
    pub fn action(&self) -> (action: Option<&Action<PathBuf>>)
        requires
            self.settled(),
        ensures
            match action {
                Some(found) => request(self.program()) == Some(found@),
                None => self.program() is Return,
            },
    {
        proof {
            if self.result is None {
                lemma_bind_reply(self.run.program(), self.next(), Reply::Digest(None));
            }
        }
        if self.result.is_some() {
            None
        } else {
            self.run.action()
        }
    }

    /// Goes on with the reply to the action that the delta waits for. A delta
    /// that is over stays as it is.
    pub fn reply(&mut self, reply: Reply<PathBuf, Digest>)
        requires
            old(self).settled(),
        ensures
            final(self).settled(),
            final(self).program() == after_reply(old(self).program(), reply@),
    {
        if self.result.is_none() {
            proof {
                lemma_bind_reply(self.run.program(), self.next(), reply@);
            }
            self.run.reply(reply);
            self.settle();
        }
    }

    /// What is to be said of the entries that were skipped; nothing as long as the
    /// delta waits for a reply.
    pub fn warnings(&self) -> (warnings: &Vec<String>)
        requires
            self.settled(),
        ensures
            messages_view(warnings@) == (match self.program() {
                Program::Return(end) => end.warnings,
                _ => Seq::<Seq<char>>::empty(),
            }),
    {
        proof {
            if self.result is None {
                lemma_bind_reply(self.run.program(), self.next(), Reply::Digest(None));
                assert(messages_view(self.warnings@) =~= Seq::<Seq<char>>::empty());
            }
        }
        &self.warnings
    }

    /// What came of the delta; `None` as long as it waits for a reply.
    pub fn result(self) -> (result: Option<Result<(), DiffError>>)
        requires
            self.settled(),
        ensures
            match result {
                Some(found) => self.program() matches Program::Return(end) && tells_result(
                    found,
                    end.result,
                ),
                None => !(self.program() is Return),
            },
    {
        proof {
            if self.result is None {
                lemma_bind_reply(self.run.program(), self.next(), Reply::Digest(None));
            }
        }
        match self.result {
            None => None,
            Some(Ok(_)) => Some(Ok(())),
            Some(Err(trouble)) => Some(Err(trouble.tell())),
        }
    }
}

/// A delta without any stages, with this result.
fn immediate(result: Result<(), Trouble>) -> (diff: Diff)
    ensures
        diff.settled(),
        diff.program() == Program::Return(
            DiffEnd { result: trouble_view(result), warnings: Seq::<Seq<char>>::empty() },
        ),
{
    let diff = Diff {
        stage: Stage::Activating,
        run: Run::new(Vec::new(), None, ""),
        parts: Split {
            removed: Vec::new(),
            updated: Vec::new(),
            same: Vec::new(),
            fresh: Vec::new(),
        },
        failures: Vec::new(),
        clobber_by_default: None,
        prefix: String::new(),
        warnings: Vec::new(),
        result: Some(result),
    };
    proof {
        assert(messages_view(diff.warnings@) =~= Seq::<Seq<char>>::empty());
    }
    diff
}

/// A delta that activates `files`.
fn full_activation(files: Vec<File>, clobber_by_default: Option<bool>, prefix: &str) -> (diff: Diff)
    ensures
        diff.settled(),
        diff.program() == finale(
            files_view(files@),
            Seq::<(Seq<u8>, Failure)>::empty(),
            clobber_by_default,
            encode_utf8(prefix@),
        ),
{
    let mut diff = Diff {
        stage: Stage::Activating,
        run: Run::new(Vec::new(), None, ""),
        parts: Split {
            removed: Vec::new(),
            updated: Vec::new(),
            same: Vec::new(),
            fresh: Vec::new(),
        },
        failures: Vec::new(),
        clobber_by_default,
        prefix: prefix.to_owned(),
        warnings: Vec::new(),
        result: None,
    };
    proof {
        assert(failures_view(diff.failures@) =~= Seq::<(Seq<u8>, Failure)>::empty());
    }
    diff.start_activation(files);
    diff.settle();
    diff
}

/// A delta that works off `parts`.
fn delta(parts: Split, clobber_by_default: Option<bool>, prefix: &str) -> (diff: Diff)
    ensures
        diff.settled(),
        diff.program() == delta_program(parts@, clobber_by_default, encode_utf8(prefix@)),
{
    let run = Run::new(guard_items(&parts.updated), clobber_by_default, prefix);
    let mut diff = Diff {
        stage: Stage::Guarding,
        run,
        parts,
        failures: Vec::new(),
        clobber_by_default,
        prefix: prefix.to_owned(),
        warnings: Vec::new(),
        result: None,
    };
    diff.settle();
    diff
}

impl Manifest {
    /// Starts bringing the file system from the state that `old_manifest`
    /// describes to the state that this manifest describes. Entries that were
    /// removed are deactivated; entries that were added or changed are
    /// activated. Where there is no old manifest and `fallback` is set, the
    /// whole manifest is activated.
    ///
    /// Fails where there is no old manifest and `fallback` is not set, where
    /// the old manifest cannot be read or probed for, where a target differs
    /// from what the old manifest says and may not be thrown away, and where
    /// an entry fails.
    pub fn diff(self, old_manifest: OldManifest, prefix: &str, fallback: bool) -> (diff: Diff)
        ensures
            diff.settled(),
            diff.program() == diff_program(self@, old_manifest@, encode_utf8(prefix@), fallback),
    {
        match old_manifest {
            OldManifest::Unprobed(fault) => immediate(Err(Trouble::Other(fault))),
            OldManifest::Unreadable(error) => immediate(Err(Trouble::OldManifestRead(error))),
            OldManifest::Missing => if fallback {
                full_activation(self.files, self.clobber_by_default, prefix)
            } else {
                immediate(Err(Trouble::OldManifestMissing))
            },
            OldManifest::Found(manifest) => {
                let parts = split_files(&manifest.files, self.files);
                delta(parts, self.clobber_by_default, prefix)
            },
        }
    }
}

} // verus!
