//! The command line: what can be asked for, and how it ends.
use vstd::prelude::*;
use vstd::string::StringExecFns;

use crate::action::{Failure, Fault};
use crate::apply::failures_view;
use crate::diff::{
    are_diff_words, diff_error_text, failure_lines, target_lines, DiffError, DiffErrorView,
};
use crate::manifest::{all_errors, kind_name, violation_text, Manifest, VerifyErrorView, Violation};
use crate::message::{are_words, fault_text, is_failure_text, messages_view};
use crate::path::PathBuf;
use crate::read::{
    are_read_words, parsed_view, read_error_text, read_report, read_view, reads, ReadError,
    ReadErrorView, ReadFault, ReadFaultView,
};
use crate::text::{decimal, decimal_text, display, lossy_text};
use crate::VERSION;

verus! {

/// What the program was started with.
#[derive(Debug)]
pub struct Args {
    /// Tell what is done, not only what goes wrong.
    pub verbose: bool,
    /// Allow relative paths and expand variables in paths.
    pub impure: bool,
    pub sub_command: Subcommands,
}

/// What the program was asked to do.
#[derive(Debug)]
pub enum Subcommands {
    Activate { manifest: PathBuf, prefix: String },
    Deactivate { manifest: PathBuf },
    Diff { prefix: String, fallback: bool, manifest: PathBuf, old_manifest: PathBuf },
    Verify { manifest: PathBuf },
    Clean { manifest: PathBuf },
}

impl Subcommands {
    /// Whether the manifest has to comply before anything is done with it.
    pub fn verifies(&self) -> (answer: bool)
        ensures
            answer == (self is Activate || self is Verify || self is Clean),
    {
        match self {
            Subcommands::Activate { .. } => true,
            Subcommands::Deactivate { .. } => false,
            Subcommands::Diff { .. } => false,
            Subcommands::Verify { .. } => true,
            Subcommands::Clean { .. } => true,
        }
    }

    /// The manifest that the command is about.
    pub fn manifest(&self) -> (path: &PathBuf)
        ensures
            match self {
                Subcommands::Activate { manifest, .. } => *path == *manifest,
                Subcommands::Deactivate { manifest } => *path == *manifest,
                Subcommands::Diff { manifest, .. } => *path == *manifest,
                Subcommands::Verify { manifest } => *path == *manifest,
                Subcommands::Clean { manifest } => *path == *manifest,
            },
    {
        match self {
            Subcommands::Activate { manifest, .. } => manifest,
            Subcommands::Deactivate { manifest } => manifest,
            Subcommands::Diff { manifest, .. } => manifest,
            Subcommands::Verify { manifest } => manifest,
            Subcommands::Clean { manifest } => manifest,
        }
    }
}

/// An entry could not be activated or deactivated.
pub const FAILURE: i32 = 1;

/// The manifest is newer than the program.
pub const TOO_NEW: i32 = 2;

/// The manifest cannot be read or does not comply.
pub const INVALID: i32 = 3;

/// A path of the manifest cannot be expanded.
pub const NOT_EXPANDED: i32 = 4;

/// An end other than success: the messages to show and the code to exit with.
#[derive(Debug)]
pub struct Exit {
    pub messages: Vec<String>,
    pub code: i32,
}

/// An end other than success, as specifications speak of it.
pub struct ExitView {
    pub messages: Seq<Seq<char>>,
    pub code: i32,
}

impl View for Exit {
    type V = ExitView;

    open spec fn view(&self) -> ExitView {
        ExitView { messages: messages_view(self.messages@), code: self.code }
    }
}

/// The end with one message.
fn exit_with(message: String, code: i32) -> (exit: Exit)
    ensures
        exit@ == (ExitView { messages: seq![message@], code }),
{
    let mut messages: Vec<String> = Vec::new();
    messages.push(message);
    proof {
        assert(messages_view(messages@) =~= seq![message@]);
    }
    Exit { messages, code }
}

/// How the program ends where a manifest was not read. `words` are those of the
/// system for a fault.
pub open spec fn read_exit(error: ReadErrorView, words: Seq<char>) -> ExitView {
    match error {
        ReadErrorView::VersionTooNew { manifest } => ExitView {
            messages: seq![
                "Program version: '"@ + decimal(VERSION as nat) + "' Manifest version: '"@
                    + decimal(manifest as nat) + "'\n Manifest version is newer, exiting!"@,
            ],
            code: TOO_NEW,
        },
        ReadErrorView::Io(_) => ExitView {
            messages: seq![read_report(error, words)],
            code: INVALID,
        },
        ReadErrorView::ExpandFailed { .. } => ExitView {
            messages: seq![read_error_text(error)],
            code: NOT_EXPANDED,
        },
    }
}

/// How the program ends where a manifest was not read: with a code of its own
/// for a manifest that is too new, for one that cannot be read, and for one
/// whose paths cannot be expanded.
pub fn handle_read_error(error: ReadError) -> (exit: Exit)
    ensures
        exists|words: Seq<char>|
            are_read_words(error@, words) && exit@ == #[trigger] read_exit(error@, words),
{
    tell_read_error(&error)
}

fn tell_read_error(error: &ReadError) -> (exit: Exit)
    ensures
        exists|words: Seq<char>|
            are_read_words(error@, words) && exit@ == #[trigger] read_exit(error@, words),
{
    let exit = match error {
        ReadError::VersionTooNew { manifest } => {
            let mut text = "Program version: '".to_owned();
            text.append(decimal_text(VERSION).as_str());
            text.append("' Manifest version: '");
            text.append(decimal_text(*manifest).as_str());
            text.append("'\n Manifest version is newer, exiting!");
            exit_with(text, TOO_NEW)
        },
        ReadError::Io(_) => exit_with(error.report(), INVALID),
        ReadError::ExpandFailed { .. } => exit_with(error.message(), NOT_EXPANDED),
    };
    proof {
        if error is Io {
            let words = choose|words: Seq<char>|
                are_read_words(error@, words) && exit@.messages[0] == #[trigger] read_report(
                    error@,
                    words,
                );
            assert(exit@ == read_exit(error@, words));
        } else {
            assert(exit@ == read_exit(error@, ""@));
        }
    }
    exit
}

/// Reads a manifest. `contents` is the text of the file, or why it could not be
/// read; `parsed` is what the text says, or why it has not the shape of a
/// manifest.
pub fn read_contents(
    contents: Result<&[u8], Fault>,
    parsed: Result<Manifest, String>,
    impure: bool,
) -> (manifest: Result<Manifest, ReadError>)
    ensures
        match contents {
            Err(fault) => manifest is Err && manifest->Err_0@ == ReadErrorView::Io(
                ReadFaultView::Open(fault),
            ),
            Ok(text) => reads(text@, parsed_view(parsed), impure, read_view(manifest)),
        },
{
    match contents {
        Err(fault) => Err(ReadError::Io(ReadFault::Open(fault))),
        Ok(text) => Manifest::read(text, parsed, impure),
    }
}

/// Reads a manifest, or tells how the program ends because that failed.
pub fn read_or_exit(
    contents: Result<&[u8], Fault>,
    parsed: Result<Manifest, String>,
    impure: bool,
) -> (manifest: Result<Manifest, Exit>)
    ensures
        match contents {
            Err(fault) => manifest matches Err(exit) && exists|words: Seq<char>|
                are_words(fault, words) && exit@ == #[trigger] read_exit(
                    ReadErrorView::Io(ReadFaultView::Open(fault)),
                    words,
                ),
            Ok(text) => match manifest {
                Ok(found) => reads(text@, parsed_view(parsed), impure, Ok(found@)),
                Err(exit) => exists|error: ReadErrorView, words: Seq<char>|
                    are_read_words(error, words) && exit@ == #[trigger] read_exit(error, words)
                        && reads(
                        text@,
                        parsed_view(parsed),
                        impure,
                        Err(error),
                    ),
            },
        },
{
    match read_contents(contents, parsed, impure) {
        Ok(found) => Ok(found),
        Err(error) => Err(handle_read_error(error)),
    }
}

pub open spec fn verify_error_text(error: VerifyErrorView) -> Seq<char> {
    "file '"@ + lossy_text(error.target) + "' of type '"@ + kind_name(error.kind) + "' "@
        + violation_text(error.violation)
}

/// How the program ends where a manifest does not comply: with a message for
/// each error.
pub open spec fn verify_exit(errors: Seq<VerifyErrorView>) -> ExitView {
    ExitView {
        messages: errors.map_values(|e: VerifyErrorView| verify_error_text(e)),
        code: INVALID,
    }
}

/// The manifest, if it complies; else how the program ends.
pub fn verify(manifest: Manifest) -> (verified: Result<Manifest, Exit>)
    ensures
        match verified {
            Ok(found) => found == manifest && all_errors(manifest@.files).len() == 0,
            Err(exit) => exit@ == verify_exit(all_errors(manifest@.files)) && all_errors(
                manifest@.files,
            ).len() > 0,
        },
{
    let errors = manifest.verify();
    if errors.len() == 0 {
        return Ok(manifest);
    }
    let mut messages: Vec<String> = Vec::new();
    let mut i: usize = 0;
    while i < errors.len()
        invariant
            i <= errors.len(),
            messages.len() == i,
            forall|j: int|
                0 <= j < i ==> (#[trigger] messages@[j])@ == verify_error_text(errors@[j]@),
        decreases errors.len() - i,
    {
        messages.push(errors[i].message());
        i = i + 1;
    }
    let exit = Exit { messages, code: INVALID };
    proof {
        assert(exit@.messages =~= verify_exit(all_errors(manifest@.files)).messages);
    }
    Err(exit)
}

/// `verb`, the target, and what went wrong with it.
pub open spec fn failure_message(verb: Seq<char>, target: Seq<u8>, text: Seq<char>) -> Seq<char> {
    "Failed to "@ + verb + " "@ + lossy_text(target) + ": "@ + text
}

fn failure_line(verb: &str, target: &PathBuf, text: &str) -> (line: String)
    ensures
        line@ == failure_message(verb@, target@, text@),
{
    let mut line = "Failed to ".to_owned();
    line.append(verb);
    line.append(" ");
    line.append(display(target).as_str());
    line.append(": ");
    line.append(text);
    line
}

/// Whether the program ends that way where entries failed: with a message for
/// each.
pub open spec fn is_failure_exit(
    exit: ExitView,
    verb: Seq<char>,
    failures: Seq<(Seq<u8>, Failure)>,
) -> bool {
    &&& exit.code == FAILURE
    &&& exit.messages.len() == failures.len()
    &&& forall|i: int|
        0 <= i < failures.len() ==> is_failure_line(
            #[trigger] exit.messages[i],
            verb,
            failures[i].0,
            failures[i].1,
        )
}

/// Whether `line` tells of a failure, whatever the system says of a fault.
pub open spec fn is_failure_line(
    line: Seq<char>,
    verb: Seq<char>,
    target: Seq<u8>,
    failure: Failure,
) -> bool {
    exists|text: Seq<char>|
        is_failure_text(text, failure, target) && line == #[trigger] failure_message(
            verb,
            target,
            text,
        )
}

fn failures_exit(verb: &str, failures: &Vec<(PathBuf, Failure)>) -> (exit: Option<Exit>)
    ensures
        match exit {
            None => failures@.len() == 0,
            Some(found) => failures@.len() > 0 && is_failure_exit(
                found@,
                verb@,
                failures_view(failures@),
            ),
        },
{
    if failures.len() == 0 {
        return None;
    }
    let mut messages: Vec<String> = Vec::new();
    let mut i: usize = 0;
    while i < failures.len()
        invariant
            i <= failures.len(),
            messages.len() == i,
            forall|j: int|
                0 <= j < i ==> is_failure_line(
                    (#[trigger] messages@[j])@,
                    verb@,
                    failures@[j].0@,
                    failures@[j].1,
                ),
        decreases failures.len() - i,
    {
        let text = failures[i].1.message(&failures[i].0);
        let line = failure_line(verb, &failures[i].0, text.as_str());
        proof {
            assert(line@ == failure_message(verb@, failures@[i as int].0@, text@));
        }
        messages.push(line);
        i = i + 1;
    }
    Some(Exit { messages, code: FAILURE })
}

/// How the program ends after an activation; `None` for success.
pub fn activation_exit(failures: &Vec<(PathBuf, Failure)>) -> (exit: Option<Exit>)
    ensures
        match exit {
            None => failures@.len() == 0,
            Some(found) => failures@.len() > 0 && is_failure_exit(
                found@,
                "activate"@,
                failures_view(failures@),
            ),
        },
{
    failures_exit("activate", failures)
}

/// How the program ends after a deactivation; `None` for success.
pub fn deactivation_exit(failures: &Vec<(PathBuf, Failure)>) -> (exit: Option<Exit>)
    ensures
        match exit {
            None => failures@.len() == 0,
            Some(found) => failures@.len() > 0 && is_failure_exit(
                found@,
                "deactivate"@,
                failures_view(failures@),
            ),
        },
{
    failures_exit("deactivate", failures)
}

/// How the program ends where a delta was not applied, or not wholly.
/// `words` are those of the system for a fault.
pub open spec fn diff_exit_view(
    error: DiffErrorView,
    old_manifest: Seq<u8>,
    words: Seq<char>,
) -> ExitView {
    match error {
        DiffErrorView::OldManifestMissing => ExitView {
            messages: seq![
                "Old manifest "@ + lossy_text(old_manifest)
                    + " does not exist and `--fallback` is not set"@,
            ],
            code: INVALID,
        },
        DiffErrorView::OldManifestRead(inner) => read_exit(inner, words),
        DiffErrorView::ProtectedTargets(_) => ExitView {
            messages: seq![diff_error_text(error, words)],
            code: FAILURE,
        },
        DiffErrorView::ActivationFailed(failures) => ExitView {
            messages: failures.map_values(
                |f: (Seq<u8>, Seq<char>)| failure_message("activate"@, f.0, f.1),
            ),
            code: FAILURE,
        },
        DiffErrorView::Other(fault) => ExitView {
            messages: seq![fault_text(fault, words)],
            code: FAILURE,
        },
    }
}

/// Whether `words` are those of the system for the fault that the end of a delta
/// is about, if it is about one.
pub open spec fn are_exit_words(error: DiffErrorView, words: Seq<char>) -> bool {
    match error {
        DiffErrorView::OldManifestRead(inner) => are_read_words(inner, words),
        _ => are_diff_words(error, words),
    }
}

fn failed_diff_exit(failures: &Vec<(PathBuf, String)>) -> (exit: Exit)
    ensures
        forall|old_manifest: Seq<u8>, words: Seq<char>|
            exit@ == #[trigger] diff_exit_view(
                DiffError::ActivationFailed(*failures)@,
                old_manifest,
                words,
            ),
{
    let mut messages: Vec<String> = Vec::new();
    let mut i: usize = 0;
    while i < failures.len()
        invariant
            i <= failures.len(),
            messages.len() == i,
            forall|j: int|
                0 <= j < i ==> (#[trigger] messages@[j])@ == failure_message(
                    "activate"@,
                    failures@[j].0@,
                    failures@[j].1@,
                ),
        decreases failures.len() - i,
    {
        messages.push(failure_line("activate", &failures[i].0, failures[i].1.as_str()));
        i = i + 1;
    }
    let exit = Exit { messages, code: FAILURE };
    proof {
        assert(exit@.messages =~= diff_exit_view(
            DiffError::ActivationFailed(*failures)@,
            Seq::<u8>::empty(),
            Seq::<char>::empty(),
        ).messages);
    }
    exit
}

/// How the program ends where a delta was not applied, or not wholly.
/// `old_manifest` is where the old manifest was looked for.
pub fn diff_exit(error: &DiffError, old_manifest: &PathBuf) -> (exit: Exit)
    ensures
        exists|words: Seq<char>|
            are_exit_words(error@, words) && exit@ == #[trigger] diff_exit_view(
                error@,
                old_manifest@,
                words,
            ),
{
    let exit = match error {
        DiffError::OldManifestMissing => {
            let mut text = "Old manifest ".to_owned();
            text.append(display(old_manifest).as_str());
            text.append(" does not exist and `--fallback` is not set");
            exit_with(text, INVALID)
        },
        DiffError::OldManifestRead(inner) => tell_read_error(inner),
        DiffError::ProtectedTargets(_) => exit_with(error.message(), FAILURE),
        DiffError::ActivationFailed(failures) => failed_diff_exit(failures),
        DiffError::Other(_) => exit_with(error.message(), FAILURE),
    };
    proof {
        if error is ProtectedTargets || error is Other {
            let words = choose|words: Seq<char>|
                are_diff_words(error@, words) && exit@.messages[0] == #[trigger] diff_error_text(
                    error@,
                    words,
                );
            assert(exit@.messages =~= seq![diff_error_text(error@, words)]);
            assert(exit@ == diff_exit_view(error@, old_manifest@, words));
        } else if let DiffError::OldManifestRead(inner) = error {
            let words = choose|words: Seq<char>|
                are_read_words(inner@, words) && exit@ == #[trigger] read_exit(inner@, words);
            assert(exit@ == diff_exit_view(error@, old_manifest@, words));
        } else {
            assert(exit@ == diff_exit_view(error@, old_manifest@, ""@));
        }
    }
    exit
}

/// The codes that the program ends with: 1 where entries fail, 2 where a manifest is
/// too new, 3 where one cannot be read or does not comply, or an old one is missing,
/// and 4 where a path cannot be expanded. There is always something to say.
pub proof fn law_exit_codes(
    error: ReadErrorView,
    words: Seq<char>,
    errors: Seq<VerifyErrorView>,
    failed: DiffErrorView,
    old_manifest: Seq<u8>,
)
    ensures
        error is VersionTooNew ==> read_exit(error, words).code == 2,
        error is Io ==> read_exit(error, words).code == 3,
        error is ExpandFailed ==> read_exit(error, words).code == 4,
        read_exit(error, words).messages.len() == 1,
        verify_exit(errors).code == 3,
        verify_exit(errors).messages.len() == errors.len(),
        failed is OldManifestMissing ==> diff_exit_view(failed, old_manifest, words).code == 3,
        failed is ProtectedTargets ==> diff_exit_view(failed, old_manifest, words).code == 1,
        failed is ActivationFailed ==> diff_exit_view(failed, old_manifest, words).code == 1,
        failed is Other ==> diff_exit_view(failed, old_manifest, words).code == 1,
        failed is OldManifestRead ==> diff_exit_view(failed, old_manifest, words) == read_exit(
            failed->OldManifestRead_0,
            words,
        ),
        failed is ActivationFailed ==> diff_exit_view(failed, old_manifest, words).messages.len()
            == failed->ActivationFailed_0.len(),
        FAILURE == 1,
        INVALID == 3,
{
}

/// How the program's messages read.
pub proof fn law_messages(
    error: VerifyErrorView,
    read: ReadErrorView,
    verb: Seq<char>,
    target: Seq<u8>,
    text: Seq<char>,
    words: Seq<char>,
    failed: DiffErrorView,
    old_manifest: Seq<u8>,
)
    ensures
        verify_error_text(error) == "file '"@ + lossy_text(error.target) + "' of type '"@
            + kind_name(error.kind) + "' "@ + (match error.violation {
            Violation::MissingSource => "requires a source"@,
            Violation::UnexpectedSource => "should not have a source"@,
            Violation::UnexpectedFollowSymlinks => "should not have follow_symlinks"@,
            Violation::UnexpectedIgnoreModification => "should not have ignore_modification"@,
        }),
        failure_message(verb, target, text) == "Failed to "@ + verb + " "@ + lossy_text(target)
            + ": "@ + text,
        read matches ReadErrorView::VersionTooNew { manifest } ==> read_exit(
            read,
            words,
        ).messages[0] == "Program version: '"@ + decimal(3) + "' Manifest version: '"@ + decimal(
            manifest as nat,
        ) + "'\n Manifest version is newer, exiting!"@,
        read matches ReadErrorView::Io(ReadFaultView::Open(fault)) ==> read_exit(
            read,
            words,
        ).messages[0] == "Failed to open manifest"@ + ": "@ + fault_text(fault, words),
        read matches ReadErrorView::Io(ReadFaultView::Syntax(reason)) ==> read_exit(
            read,
            words,
        ).messages[0] == "Failed to deserialize manifest"@ + ": "@ + reason,
        read matches ReadErrorView::Io(ReadFaultView::Shape(reason)) ==> read_exit(
            read,
            words,
        ).messages[0] == "Failed to deserialize manifest"@ + ": "@ + reason,
        read matches ReadErrorView::Io(ReadFaultView::NoVersion) ==> read_exit(
            read,
            words,
        ).messages[0] == "Failed to get version from manifest"@,
        read matches ReadErrorView::Io(ReadFaultView::BadVersion) ==> read_exit(
            read,
            words,
        ).messages[0] == "manifest version is not a valid integer"@,
        read matches ReadErrorView::ExpandFailed { reason, .. } ==> read_exit(
            read,
            words,
        ).messages[0] == reason,
        failed is OldManifestMissing ==> diff_exit_view(failed, old_manifest, words).messages[0]
            == "Old manifest "@ + lossy_text(old_manifest)
            + " does not exist and `--fallback` is not set"@,
        failed matches DiffErrorView::Other(fault) ==> diff_exit_view(
            failed,
            old_manifest,
            words,
        ).messages[0] == fault_text(fault, words),
        failed matches DiffErrorView::ProtectedTargets(targets) ==> diff_exit_view(
            failed,
            old_manifest,
            words,
        ).messages[0] == decimal(targets.len())
            + " target(s) differ from the old manifest while clobber is disabled:"@ + target_lines(
            targets,
        ),
        failed matches DiffErrorView::ActivationFailed(failures) ==> diff_error_text(failed, words)
            == decimal(failures.len()) + " file(s) failed to activate/deactivate:"@ + failure_lines(
            failures,
        ),
        target_lines(seq![target]) == "\n  "@ + lossy_text(target),
        failure_lines(seq![(target, text)]) == "\n  "@ + lossy_text(target) + ": "@ + text,
{
    let none = Seq::<Seq<u8>>::empty();
    let one = seq![target];
    assert(one.drop_last() =~= none);
    assert(target_lines(none) =~= Seq::<char>::empty());
    assert(target_lines(one) =~= "\n  "@ + lossy_text(target));
    let empty = Seq::<(Seq<u8>, Seq<char>)>::empty();
    let single = seq![(target, text)];
    assert(single.drop_last() =~= empty);
    assert(failure_lines(empty) =~= Seq::<char>::empty());
    assert(failure_lines(single) =~= "\n  "@ + lossy_text(target) + ": "@ + text);
}

} // verus!
