//! Failures in words.
use vstd::prelude::*;
use vstd::string::StringExecFns;

use crate::action::{Failure, Fault};
use crate::file_util::{FileWithMetadata, Skip};
use crate::manifest::{kind_name, File, FileKind, FileView};
use crate::path::PathBuf;
use crate::text::{display, lossy_text};

verus! {

/// Formats `std::io::Error::from_raw_os_error`: what the system says of an error
/// number. The words are the system's own, and nothing is said of them.
#[verifier::external_body]
fn system_words(number: i32) -> (words: String) {
    format!("{}", std::io::Error::from_raw_os_error(number))
}

/// The fault in words; `words` are those of the system.
pub open spec fn fault_text(fault: Fault, words: Seq<char>) -> Seq<char> {
    match fault {
        Fault::NotFound => "No such file or directory (os error 2)"@,
        Fault::Os(_) => words,
        Fault::Other => "input/output error"@,
        Fault::Mismatch => "the reply does not belong to the action"@,
    }
}

/// Whether `words` are what the system says of an error number.
pub closed spec fn is_said_of(number: i32, words: Seq<char>) -> bool {
    exists|text: String| #[trigger] call_ensures(system_words, (number,), text) && text@ == words
}

/// Whether `words` are those of the system for the fault; there are none where
/// the fault is not one of the system.
pub open spec fn are_words(fault: Fault, words: Seq<char>) -> bool {
    match fault {
        Fault::Os(number) => is_said_of(number, words),
        _ => words == ""@,
    }
}

/// Whether `words` are those of the system for the fault that a failure is about,
/// if it is about one.
pub open spec fn are_failure_words(failure: Failure, words: Seq<char>) -> bool {
    match failure {
        Failure::Io(fault) => are_words(fault, words),
        _ => words == ""@,
    }
}

impl Fault {
    /// What the system says of the fault; nothing where it says nothing.
    pub fn words(&self) -> (words: String)
        ensures
            are_words(*self, words@),
    {
        match self {
            Fault::Os(number) => {
                let words = system_words(*number);
                proof {
                    assert(call_ensures(system_words, (*number,), words));
                }
                words
            },
            _ => "".to_owned(),
        }
    }

    /// The fault in words; `words` are those of the system.
    pub fn told(&self, words: &str) -> (text: String)
        ensures
            text@ == fault_text(*self, words@),
    {
        match self {
            Fault::NotFound => "No such file or directory (os error 2)".to_owned(),
            Fault::Os(_) => words.to_owned(),
            Fault::Other => "input/output error".to_owned(),
            Fault::Mismatch => "the reply does not belong to the action".to_owned(),
        }
    }

    /// The fault in words, with those of the system.
    pub fn message(&self) -> (text: String)
        ensures
            exists|words: Seq<char>|
                are_words(*self, words) && text@ == #[trigger] fault_text(*self, words),
    {
        let words = self.words();
        let text = self.told(words.as_str());
        proof {
            assert(text@ == fault_text(*self, words@));
        }
        text
    }
}

/// A failure on the way to bringing `target` into its state; `words` are those
/// of the system for a fault.
pub open spec fn failure_text(failure: Failure, target: Seq<u8>, words: Seq<char>) -> Seq<char> {
    match failure {
        Failure::Io(fault) => fault_text(fault, words),
        Failure::MissingSource => "File '"@ + lossy_text(target) + "' missing_source"@,
        Failure::NoParent => "Failed to get parent directory"@,
        Failure::NoFileName => "Failed to get file name of file '"@ + lossy_text(target) + "'"@,
        Failure::FileInTheWay => "File in way of '"@ + lossy_text(target) + "'"@,
        Failure::DoesNotExist => "Can't modify file '"@ + lossy_text(target)
            + "', file does not exist"@,
        Failure::Modified => "File is not the same as expected"@,
        Failure::NotADirectory => "File is not directory"@,
    }
}

/// `before`, the path, and `after`.
fn around(before: &str, path: &PathBuf, after: &str) -> (text: String)
    ensures
        text@ == before@ + lossy_text(path@) + after@,
{
    let mut text = before.to_owned();
    text.append(display(path).as_str());
    text.append(after);
    text
}

/// Whether `text` is the failure in words, with those of the system for a fault.
pub open spec fn is_failure_text(text: Seq<char>, failure: Failure, target: Seq<u8>) -> bool {
    exists|words: Seq<char>|
        are_failure_words(failure, words) && text == #[trigger] failure_text(
            failure,
            target,
            words,
        )
}

impl Failure {
    /// The failure in words, as one of bringing `target` into its state; `words`
    /// are those of the system for a fault.
    pub fn told(&self, target: &PathBuf, words: &str) -> (text: String)
        ensures
            text@ == failure_text(*self, target@, words@),
    {
        match self {
            Failure::Io(fault) => fault.told(words),
            Failure::MissingSource => around("File '", target, "' missing_source"),
            Failure::NoParent => "Failed to get parent directory".to_owned(),
            Failure::NoFileName => around("Failed to get file name of file '", target, "'"),
            Failure::FileInTheWay => around("File in way of '", target, "'"),
            Failure::DoesNotExist => around(
                "Can't modify file '",
                target,
                "', file does not exist",
            ),
            Failure::Modified => "File is not the same as expected".to_owned(),
            Failure::NotADirectory => "File is not directory".to_owned(),
        }
    }

    /// The failure in words, as one of bringing `target` into its state, with
    /// those of the system for a fault.
    pub fn message(&self, target: &PathBuf) -> (text: String)
        ensures
            is_failure_text(text@, *self, target@),
    {
        let words = match self {
            Failure::Io(fault) => fault.words(),
            _ => "".to_owned(),
        };
        let text = self.told(target, words.as_str());
        proof {
            assert(text@ == failure_text(*self, target@, words@));
        }
        text
    }
}

pub open spec fn messages_view(messages: Seq<String>) -> Seq<Seq<char>> {
    messages.map_values(|m: String| m@)
}

/// Why an entry is skipped, in words.
pub open spec fn skip_text(file: FileView, reason: Skip) -> Seq<char> {
    let head = kind_name(file.kind) + " with target '"@ + lossy_text(file.target) + "'"@;
    match (reason, file.source) {
        (Skip::SourceMissing, Some(source)) => head + " source '"@ + lossy_text(source)
            + "' does not exist"@,
        (Skip::SourceUnfit, Some(source)) => head + " source '"@ + lossy_text(source)
            + "' is a directory, only files are permitted. Skipping..."@,
        _ => head + " missing source, skipping..."@,
    }
}

/// The kind of an entry and its target, as messages begin.
fn entry_head(kind: FileKind, target: &PathBuf) -> (text: String)
    ensures
        text@ == kind_name(kind) + " with target '"@ + lossy_text(target@) + "'"@,
{
    let mut text = kind.name().to_owned();
    text.append(" with target '");
    text.append(display(target).as_str());
    text.append("'");
    text
}

impl FileWithMetadata {
    /// Why the entry is skipped, in words.
    pub fn skip_message(&self, reason: Skip) -> (text: String)
        ensures
            text@ == skip_text(self@, reason),
    {
        let mut text = entry_head(self.kind, &self.target);
        match (reason, &self.source) {
            (Skip::SourceMissing, Some(source)) => {
                text.append(" source '");
                text.append(display(source).as_str());
                text.append("' does not exist");
            },
            (Skip::SourceUnfit, Some(source)) => {
                text.append(" source '");
                text.append(display(source).as_str());
                text.append("' is a directory, only files are permitted. Skipping...");
            },
            _ => {
                text.append(" missing source, skipping...");
            },
        }
        text
    }
}

/// What is said of an entry that is left out because a path of it is relative or
/// climbs.
pub open spec fn ignored_text(file: FileView) -> Seq<char> {
    kind_name(file.kind) + " with target '"@ + lossy_text(file.target) + "'"@
        + " is not absolute, ignoring."@
}

impl File {
    /// What is said of the entry where it is left out because a path of it is
    /// relative or climbs.
    pub fn ignored_message(&self) -> (text: String)
        ensures
            text@ == ignored_text(self@),
    {
        let mut text = entry_head(self.kind, &self.target);
        text.append(" is not absolute, ignoring.");
        text
    }
}

/// How failures read.
pub proof fn law_failure_texts(target: Seq<u8>, words: Seq<char>, number: i32)
    ensures
        failure_text(Failure::Io(Fault::Os(number)), target, words) == words,
        failure_text(Failure::Io(Fault::NotFound), target, words)
            == "No such file or directory (os error 2)"@,
        failure_text(Failure::MissingSource, target, words) == "File '"@ + lossy_text(target)
            + "' missing_source"@,
        failure_text(Failure::NoParent, target, words) == "Failed to get parent directory"@,
        failure_text(Failure::NoFileName, target, words) == "Failed to get file name of file '"@
            + lossy_text(target) + "'"@,
        failure_text(Failure::FileInTheWay, target, words) == "File in way of '"@ + lossy_text(
            target,
        ) + "'"@,
        failure_text(Failure::DoesNotExist, target, words) == "Can't modify file '"@ + lossy_text(
            target,
        ) + "', file does not exist"@,
        failure_text(Failure::Modified, target, words) == "File is not the same as expected"@,
        failure_text(Failure::NotADirectory, target, words) == "File is not directory"@,
{
}

/// How warnings read.
pub proof fn law_warning_texts(file: FileView)
    ensures
        ({
            let head = kind_name(file.kind) + " with target '"@ + lossy_text(file.target) + "'"@;
            &&& skip_text(file, Skip::NoSource) == head + " missing source, skipping..."@
            &&& file.source is Some ==> skip_text(file, Skip::SourceMissing) == head + " source '"@
                + lossy_text(file.source->0) + "' does not exist"@
            &&& file.source is Some ==> skip_text(file, Skip::SourceUnfit) == head + " source '"@
                + lossy_text(file.source->0)
                + "' is a directory, only files are permitted. Skipping..."@
            &&& ignored_text(file) == head + " is not absolute, ignoring."@
        }),
        kind_name(FileKind::Copy) == "copy"@,
        kind_name(FileKind::Delete) == "delete"@,
        kind_name(FileKind::Directory) == "directory"@,
        kind_name(FileKind::Modify) == "modify"@,
        kind_name(FileKind::Symlink) == "symlink"@,
{
}

/// The words for a fault of the system are those that the system has given for its
/// number.
proof fn law_words_are_the_systems(number: i32, words: Seq<char>)
    requires
        are_failure_words(Failure::Io(Fault::Os(number)), words),
    ensures
        exists|text: String| #[trigger]
            call_ensures(system_words, (number,), text) && text@ == words,
{
}

} // verus!
