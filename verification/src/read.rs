//! Manifests taken in: the version gate, and the paths that are accepted.
use vstd::prelude::*;
use vstd::string::StringExecFns;
use vstd::utf8::{encode_utf8, valid_utf8};

use crate::action::Fault;
use crate::manifest::{files_view, File, FileView, Manifest, ManifestView};
use crate::message::{are_words, fault_text, ignored_text, messages_view};
use crate::path::{absolute, climbs, parts, Part, PathBuf, SEPARATOR};
use crate::text::{decimal, decimal_text};
use crate::VERSION;

verus! {

/// Why the text of a manifest was not accepted.
#[derive(Debug, PartialEq, Eq)]
pub enum ReadFault {
    /// The file could not be read.
    Open(Fault),
    /// The text is not JSON, for this reason.
    Syntax(String),
    /// There is no version.
    NoVersion,
    /// The version is no unsigned integer.
    BadVersion,
    /// The text is JSON, but not that of a manifest, for this reason.
    Shape(String),
}

/// Why the text of a manifest was not accepted, as specifications speak of it.
pub enum ReadFaultView {
    Open(Fault),
    Syntax(Seq<char>),
    NoVersion,
    BadVersion,
    Shape(Seq<char>),
}

impl View for ReadFault {
    type V = ReadFaultView;

    open spec fn view(&self) -> ReadFaultView {
        match self {
            ReadFault::Open(fault) => ReadFaultView::Open(*fault),
            ReadFault::Syntax(reason) => ReadFaultView::Syntax(reason@),
            ReadFault::NoVersion => ReadFaultView::NoVersion,
            ReadFault::BadVersion => ReadFaultView::BadVersion,
            ReadFault::Shape(reason) => ReadFaultView::Shape(reason@),
        }
    }
}

/// Why a manifest was not read.
#[derive(Debug, PartialEq, Eq)]
pub enum ReadError {
    /// A path of this entry could not be expanded, for this reason.
    ExpandFailed { entry: usize, reason: String },
    Io(ReadFault),
    /// The manifest is newer than the library.
    VersionTooNew { manifest: u64 },
}

/// Why a manifest was not read, as specifications speak of it.
pub enum ReadErrorView {
    ExpandFailed { entry: int, reason: Seq<char> },
    Io(ReadFaultView),
    VersionTooNew { manifest: u64 },
}

impl View for ReadError {
    type V = ReadErrorView;

    open spec fn view(&self) -> ReadErrorView {
        match self {
            ReadError::ExpandFailed { entry, reason } => ReadErrorView::ExpandFailed {
                entry: *entry as int,
                reason: reason@,
            },
            ReadError::Io(fault) => ReadErrorView::Io(fault@),
            ReadError::VersionTooNew { manifest } => ReadErrorView::VersionTooNew {
                manifest: *manifest,
            },
        }
    }
}

pub open spec fn read_fault_text(fault: ReadFaultView) -> Seq<char> {
    match fault {
        ReadFaultView::Open(_) => "Failed to open manifest"@,
        ReadFaultView::Syntax(_) => "Failed to deserialize manifest"@,
        ReadFaultView::NoVersion => "Failed to get version from manifest"@,
        ReadFaultView::BadVersion => "manifest version is not a valid integer"@,
        ReadFaultView::Shape(_) => "Failed to deserialize manifest"@,
    }
}

pub open spec fn read_error_text(error: ReadErrorView) -> Seq<char> {
    match error {
        ReadErrorView::ExpandFailed { reason, .. } => reason,
        ReadErrorView::Io(fault) => read_fault_text(fault),
        ReadErrorView::VersionTooNew { manifest } => "manifest version too new: program "@
            + decimal(VERSION as nat) + ", manifest "@ + decimal(manifest as nat),
    }
}

/// The error in words, followed by what caused it if something did; `words` are
/// those of the system for a fault.
pub open spec fn read_report(error: ReadErrorView, words: Seq<char>) -> Seq<char> {
    match error {
        ReadErrorView::Io(ReadFaultView::Open(fault)) => read_error_text(error) + ": "@
            + fault_text(fault, words),
        ReadErrorView::Io(ReadFaultView::Syntax(reason)) => read_error_text(error) + ": "@ + reason,
        ReadErrorView::Io(ReadFaultView::Shape(reason)) => read_error_text(error) + ": "@ + reason,
        _ => read_error_text(error),
    }
}

/// Whether `words` are those of the system for the fault that the error is about,
/// if it is about one.
pub open spec fn are_read_words(error: ReadErrorView, words: Seq<char>) -> bool {
    match error {
        ReadErrorView::Io(ReadFaultView::Open(fault)) => are_words(fault, words),
        _ => words == ""@,
    }
}

impl ReadError {
    /// The error in words.
    pub fn message(&self) -> (text: String)
        ensures
            text@ == read_error_text(self@),
    {
        match self {
            ReadError::ExpandFailed { reason, .. } => reason.as_str().to_owned(),
            ReadError::Io(fault) => {
                let text = match fault {
                    ReadFault::Open(_) => "Failed to open manifest",
                    ReadFault::Syntax(_) => "Failed to deserialize manifest",
                    ReadFault::NoVersion => "Failed to get version from manifest",
                    ReadFault::BadVersion => "manifest version is not a valid integer",
                    ReadFault::Shape(_) => "Failed to deserialize manifest",
                };
                text.to_owned()
            },
            ReadError::VersionTooNew { manifest } => {
                let mut text = "manifest version too new: program ".to_owned();
                text.append(decimal_text(VERSION).as_str());
                text.append(", manifest ");
                text.append(decimal_text(*manifest).as_str());
                text
            },
        }
    }

    /// The error in words, followed by what caused it; `words` are those of the
    /// system for a fault.
    pub fn told(&self, words: &str) -> (text: String)
        ensures
            text@ == read_report(self@, words@),
    {
        let mut text = self.message();
        match self {
            ReadError::Io(ReadFault::Open(fault)) => {
                text.append(": ");
                text.append(fault.told(words).as_str());
            },
            ReadError::Io(ReadFault::Syntax(reason)) => {
                text.append(": ");
                text.append(reason.as_str());
            },
            ReadError::Io(ReadFault::Shape(reason)) => {
                text.append(": ");
                text.append(reason.as_str());
            },
            _ => {},
        }
        text
    }

    /// The error in words, followed by what caused it, with the words of the
    /// system for a fault.
    pub fn report(&self) -> (text: String)
        ensures
            exists|words: Seq<char>|
                are_read_words(self@, words) && text@ == #[trigger] read_report(self@, words),
    {
        let words = match self {
            ReadError::Io(ReadFault::Open(fault)) => fault.words(),
            _ => "".to_owned(),
        };
        let text = self.told(words.as_str());
        proof {
            assert(text@ == read_report(self@, words@));
        }
        text
    }
}

/// What the text of a manifest says of its version.
#[derive(Debug, PartialEq, Eq)]
pub enum VersionField {
    /// The text is not JSON, for this reason.
    NotJson(String),
    /// The text has no such field.
    Missing,
    /// The field is no unsigned integer.
    NotANumber,
    Number(u64),
}

/// What the text of a manifest says of its version, as specifications speak of
/// it.
pub enum VersionFieldView {
    NotJson(Seq<char>),
    Missing,
    NotANumber,
    Number(u64),
}

impl View for VersionField {
    type V = VersionFieldView;

    open spec fn view(&self) -> VersionFieldView {
        match self {
            VersionField::NotJson(reason) => VersionFieldView::NotJson(reason@),
            VersionField::Missing => VersionFieldView::Missing,
            VersionField::NotANumber => VersionFieldView::NotANumber,
            VersionField::Number(number) => VersionFieldView::Number(*number),
        }
    }
}

/// What `serde_json` finds under `key` in `text`: the field if it is there, and
/// its value if that is an unsigned integer of 64 bits; where `text` is not JSON,
/// what it says of that.
pub uninterp spec fn json_u64_field(text: Seq<u8>, key: Seq<char>) -> Result<
    Option<Option<u64>>,
    Seq<char>,
>;

/// Parses `text` with `serde_json::from_slice`, looks `key` up with
/// `Value::get` and reads what is there with `Value::as_u64`; an error is given
/// in its own words. The result, and what an error says, depends on the text and
/// the key alone; what JSON is, is not spelled out.
#[verifier::external_body]
fn read_u64_field(text: &[u8], key: &str) -> (field: Result<Option<Option<u64>>, String>)
    ensures
        match field {
            Ok(found) => json_u64_field(text@, key@) == Ok::<Option<Option<u64>>, Seq<char>>(found),
            Err(reason) => json_u64_field(text@, key@) == Err::<Option<Option<u64>>, Seq<char>>(
                reason@,
            ),
        },
{
    match serde_json::from_slice::<serde_json::Value>(text) {
        Ok(root) => Ok(root.get(key).map(|value| value.as_u64())),
        Err(error) => Err(format!("{error}")),
    }
}

/// What `text` says of the version of the manifest.
pub open spec fn version_field(text: Seq<u8>) -> VersionFieldView {
    match json_u64_field(text, "version"@) {
        Err(reason) => VersionFieldView::NotJson(reason),
        Ok(None) => VersionFieldView::Missing,
        Ok(Some(None)) => VersionFieldView::NotANumber,
        Ok(Some(Some(number))) => VersionFieldView::Number(number),
    }
}

/// Reads the version of a manifest off its text.
pub fn find_version(text: &[u8]) -> (field: VersionField)
    ensures
        field@ == version_field(text@),
{
    match read_u64_field(text, "version") {
        Err(reason) => VersionField::NotJson(reason),
        Ok(None) => VersionField::Missing,
        Ok(Some(None)) => VersionField::NotANumber,
        Ok(Some(Some(number))) => VersionField::Number(number),
    }
}

/// Whether a manifest of that version is read: any version up to the library's
/// own.
pub open spec fn gate(field: VersionFieldView) -> Result<u64, ReadErrorView> {
    match field {
        VersionFieldView::NotJson(reason) => Err(ReadErrorView::Io(ReadFaultView::Syntax(reason))),
        VersionFieldView::Missing => Err(ReadErrorView::Io(ReadFaultView::NoVersion)),
        VersionFieldView::NotANumber => Err(ReadErrorView::Io(ReadFaultView::BadVersion)),
        VersionFieldView::Number(number) => if number > VERSION {
            Err(ReadErrorView::VersionTooNew { manifest: number })
        } else {
            Ok(number)
        },
    }
}

/// Accepts or rejects a manifest by its version.
pub fn check_version(field: VersionField) -> (version: Result<u64, ReadError>)
    ensures
        match version {
            Ok(number) => gate(field@) == Ok::<u64, ReadErrorView>(number),
            Err(error) => gate(field@) == Err::<u64, ReadErrorView>(error@),
        },
{
    match field {
        VersionField::NotJson(reason) => Err(ReadError::Io(ReadFault::Syntax(reason))),
        VersionField::Missing => Err(ReadError::Io(ReadFault::NoVersion)),
        VersionField::NotANumber => Err(ReadError::Io(ReadFault::BadVersion)),
        VersionField::Number(number) => {
            if number > VERSION {
                Err(ReadError::VersionTooNew { manifest: number })
            } else {
                Ok(number)
            }
        },
    }
}

/// Whether a path is accepted as it stands: absolute and without `..`.
pub open spec fn pure_path(path: Seq<u8>) -> bool {
    absolute(path) && !climbs(path)
}

/// Whether an entry is accepted where neither relative paths nor expansion are
/// allowed.
pub open spec fn pure_entry(file: FileView) -> bool {
    &&& pure_path(file.target)
    &&& file.source is Some ==> pure_path(file.source->0)
}

fn is_pure_entry(file: &File) -> (answer: bool)
    ensures
        answer == pure_entry(file@),
{
    let target = file.target.is_absolute() && !file.target.has_parent_dir();
    match &file.source {
        Some(source) => target && source.is_absolute() && !source.has_parent_dir(),
        None => target,
    }
}

/// The entries that are accepted where neither relative paths nor expansion are
/// allowed.
pub fn retain_pure(files: &Vec<File>) -> (kept: Vec<File>)
    ensures
        files_view(kept@) == files_view(files@).filter(|f: FileView| pure_entry(f)),
{
    let mut kept: Vec<File> = Vec::new();
    let mut i: usize = 0;
    let ghost pred = |f: FileView| pure_entry(f);
    proof {
        reveal(Seq::filter);
        assert(files_view(files@).take(0) =~= Seq::<FileView>::empty());
        assert(files_view(kept@) =~= Seq::<FileView>::empty());
    }
    while i < files.len()
        invariant
            i <= files.len(),
            pred == (|f: FileView| pure_entry(f)),
            files_view(kept@) == files_view(files@).take(i as int).filter(pred),
        decreases files.len() - i,
    {
        let ghost before = kept@;
        proof {
            reveal(Seq::filter);
            let longer = files_view(files@).take(i + 1);
            assert(longer.drop_last() =~= files_view(files@).take(i as int));
            assert(longer.last() == files@[i as int]@);
        }
        if is_pure_entry(&files[i]) {
            let copy = files[i].clone();
            kept.push(copy);
            proof {
                assert(files_view(kept@) =~= files_view(before).push(copy@));
            }
        }
        i = i + 1;
    }
    proof {
        assert(files_view(files@).take(files.len() as int) =~= files_view(files@));
    }
    kept
}

/// What is said of the entries that are left out where neither relative paths nor
/// expansion are allowed.
pub open spec fn ignored_texts(files: Seq<FileView>) -> Seq<Seq<char>>
    decreases files.len(),
{
    if files.len() == 0 {
        Seq::<Seq<char>>::empty()
    } else {
        let before = ignored_texts(files.drop_last());
        if pure_entry(files.last()) {
            before
        } else {
            before.push(ignored_text(files.last()))
        }
    }
}

impl Manifest {
    /// What is said of the entries that are left out of the manifest where
    /// neither relative paths nor expansion are allowed.
    pub fn ignored_messages(&self) -> (messages: Vec<String>)
        ensures
            messages_view(messages@) == ignored_texts(self@.files),
    {
        let mut messages: Vec<String> = Vec::new();
        let mut i: usize = 0;
        let ghost files = files_view(self.files@);
        proof {
            assert(files.take(0) =~= Seq::<FileView>::empty());
            assert(messages_view(messages@) =~= Seq::<Seq<char>>::empty());
        }
        while i < self.files.len()
            invariant
                i <= self.files.len(),
                files == files_view(self.files@),
                messages_view(messages@) == ignored_texts(files.take(i as int)),
            decreases self.files.len() - i,
        {
            let ghost before = messages@;
            proof {
                let longer = files.take(i + 1);
                assert(longer.drop_last() =~= files.take(i as int));
                assert(longer.last() == self.files@[i as int]@);
            }
            if !is_pure_entry(&self.files[i]) {
                let text = self.files[i].ignored_message();
                messages.push(text);
                proof {
                    assert(messages_view(messages@) =~= messages_view(before).push(text@));
                }
            }
            i = i + 1;
        }
        proof {
            assert(files.take(self.files.len() as int) =~= files);
        }
        messages
    }
}

/// An entry is either read or spoken of: as many messages as entries that are
/// left out.
pub proof fn law_ignored_are_told(manifest: ManifestView)
    ensures
        ignored_texts(manifest.files).len() + purified(manifest).files.len()
            == manifest.files.len(),
    decreases manifest.files.len(),
{
    reveal(Seq::filter);
    if manifest.files.len() > 0 {
        law_ignored_are_told(ManifestView { files: manifest.files.drop_last(), ..manifest });
    }
}

/// The byte `$`.
pub const DOLLAR: u8 = 36;

/// The byte `~`.
pub const TILDE: u8 = 126;

/// Whether a path holds nothing to expand: no `$`, and no `~` that stands alone
/// in front.
pub open spec fn plain(path: Seq<u8>) -> bool {
    &&& !path.contains(DOLLAR)
    &&& !(path.len() > 0 && path[0] == TILDE && (path.len() == 1 || path[1] == SEPARATOR))
}

/// The byte `}`.
pub const CLOSING_BRACE: u8 = 125;

/// Whether a path can name a variable: a `$` stands before something that is
/// neither a `$` nor a separator.
pub open spec fn names_variable(path: Seq<u8>) -> bool {
    exists|i: int|
        0 <= i < path.len() - 1 && #[trigger] path[i] == DOLLAR && path[i + 1] != DOLLAR && path[i
            + 1] != SEPARATOR
}

/// Whether the end of a path, from `at` on, stays when the rest is expanded: it
/// begins with a separator, which is no part of a name, and holds nothing that
/// begins or closes a variable.
pub open spec fn is_fixed_end(path: Seq<u8>, at: int) -> bool {
    &&& 0 <= at < path.len()
    &&& path[at] == SEPARATOR
    &&& !path.skip(at).contains(DOLLAR)
    &&& !path.skip(at).contains(CLOSING_BRACE)
}

/// What holds of a path and what it expands to, whatever the environment says: a
/// path that names no variable expands; one without `$` comes back as it is, or
/// with something else in the place of a `~` in front; one that does not begin
/// with `~` keeps all that stands before its first `$`; and a fixed end is kept.
pub open spec fn comes_through(path: Seq<u8>, expanded: Option<Seq<u8>>) -> bool {
    &&& !names_variable(path) ==> expanded is Some
    &&& expanded matches Some(found) ==> {
        &&& !path.contains(DOLLAR) && found != path ==> path.len() > 0 && path[0] == TILDE
            && path.skip(1).is_suffix_of(found)
        &&& !(path.len() > 0 && path[0] == TILDE) ==> forall|n: int|
            0 <= n <= path.len() && !(#[trigger] path.take(n)).contains(DOLLAR) ==> path.take(
                n,
            ).is_prefix_of(found)
        &&& forall|at: int| #[trigger]
            is_fixed_end(path, at) ==> path.skip(at).is_suffix_of(found)
    }
}

/// Calls `std::str::from_utf8`: gives the bytes back as text where they are
/// valid UTF-8, and nothing otherwise.
#[verifier::external_body]
fn utf8_text(bytes: &[u8]) -> (text: Option<&str>)
    ensures
        match text {
            Some(found) => encode_utf8(found@) == bytes@,
            None => !valid_utf8(bytes@),
        },
{
    std::str::from_utf8(bytes).ok()
}

/// Calls `shellexpand::path::full`, which puts the home directory in the place
/// of a `~` in front, and the values of environment variables in the place of
/// their names behind a `$`. A text that holds neither comes back as it is. Of
/// any other text only that is said which holds in every environment: without a
/// variable there is no error; without a `$` nothing but the `~` in front is
/// replaced; and what stands before the first `$`, or behind the last variable
/// from a separator on, is kept. What the home directory is and what variables
/// hold, and so whether one is set, is left to the environment, and nothing is
/// said of the words of an error.
#[verifier::external_body]
fn expand_text(text: &str) -> (path: Result<Vec<u8>, String>)
    ensures
        plain(encode_utf8(text@)) ==> path is Ok && path->Ok_0@ == encode_utf8(text@),
        comes_through(
            encode_utf8(text@),
            match path {
                Ok(found) => Some(found@),
                Err(_) => None,
            },
        ),
{
    match shellexpand::path::full(text) {
        Ok(path) => Ok(path.as_os_str().as_encoded_bytes().to_vec()),
        Err(error) => Err(format!("{error:?}")),
    }
}

/// What a path expands to, or why it does not.
pub type Expanded = Result<Seq<u8>, Seq<char>>;

pub open spec fn expanded_view(path: Result<PathBuf, String>) -> Expanded {
    match path {
        Ok(found) => Ok(found@),
        Err(reason) => Err(reason@),
    }
}

pub open spec fn bytes_expanded(result: Result<Vec<u8>, String>) -> Expanded {
    match result {
        Ok(bytes) => Ok(bytes@),
        Err(reason) => Err(reason@),
    }
}

/// Whether `expanded` is something that `shellexpand` gives for the text of
/// `path`.
pub closed spec fn is_expansion(path: Seq<u8>, expanded: Expanded) -> bool {
    exists|text: &str, result: Result<Vec<u8>, String>|
        encode_utf8(text@) == path && #[trigger] call_ensures(expand_text, (text,), result)
            && expanded == bytes_expanded(result)
}

/// Whether expansion is known to leave a path as it is.
pub open spec fn stays(path: Seq<u8>) -> bool {
    plain(path) && valid_utf8(path)
}

/// Whether a path can come to that by expansion: it is what `shellexpand` gives
/// for the text of the path; a path that holds nothing to expand stays as it is,
/// any other text comes through as far as the environment has no say in it, and
/// what is not text cannot be expanded.
pub open spec fn may_expand(path: Seq<u8>, expanded: Expanded) -> bool {
    &&& valid_utf8(path) ==> is_expansion(path, expanded)
    &&& stays(path) ==> expanded == Ok::<Seq<u8>, Seq<char>>(path)
    &&& valid_utf8(path) ==> comes_through(
        path,
        match expanded {
            Ok(found) => Some(found),
            Err(_) => None,
        },
    )
    &&& !valid_utf8(path) ==> expanded is Err
}

/// Expands a path as a shell would; the reason, where a variable is not set or
/// the path is not text.
pub fn expand(path: &PathBuf) -> (expanded: Result<PathBuf, String>)
    ensures
        may_expand(path@, expanded_view(expanded)),
{
    broadcast use vstd::utf8::encode_utf8_valid_utf8;

    match utf8_text(path.bytes.as_slice()) {
        None => Err("the path is not text".to_owned()),
        Some(text) => {
            let result = expand_text(text);
            proof {
                assert(call_ensures(expand_text, (text,), result));
            }
            match result {
                Err(reason) => Err(reason),
                Ok(bytes) => Ok(PathBuf { bytes }),
            }
        },
    }
}

/// What the paths of an entry expand to. The source is there if the entry has
/// one.
#[derive(Debug)]
pub struct Expansion {
    pub source: Option<Result<PathBuf, String>>,
    pub target: Result<PathBuf, String>,
}

/// What the paths of an entry expand to, as specifications speak of it.
pub struct ExpansionView {
    pub source: Option<Expanded>,
    pub target: Expanded,
}

impl View for Expansion {
    type V = ExpansionView;

    open spec fn view(&self) -> ExpansionView {
        ExpansionView {
            source: match self.source {
                Some(path) => Some(expanded_view(path)),
                None => None,
            },
            target: expanded_view(self.target),
        }
    }
}

pub open spec fn expansions_view(expansions: Seq<Expansion>) -> Seq<ExpansionView> {
    expansions.map_values(|e: Expansion| e@)
}

/// An entry with what its paths expand to in their place; the reason why one of
/// them does not expand, the source first.
pub open spec fn with_expansions(file: FileView, expansion: ExpansionView) -> Result<
    FileView,
    Seq<char>,
> {
    match (expansion.source, expansion.target) {
        (Some(Err(reason)), _) => Err(reason),
        (_, Err(reason)) => Err(reason),
        (None, Ok(path)) => Ok(FileView { source: None, target: path, ..file }),
        (Some(Ok(from)), Ok(path)) => Ok(FileView { source: Some(from), target: path, ..file }),
    }
}

/// Puts what the paths of an entry expand to in their place.
pub fn apply_expansions(file: &File, expansion: &Expansion) -> (expanded: Result<File, String>)
    ensures
        match expanded {
            Ok(found) => with_expansions(file@, expansion@) == Ok::<FileView, Seq<char>>(found@),
            Err(reason) => with_expansions(file@, expansion@) == Err::<FileView, Seq<char>>(
                reason@,
            ),
        },
{
    let from = match &expansion.source {
        Some(Err(reason)) => return Err(reason.as_str().to_owned()),
        Some(Ok(path)) => Some(path.clone()),
        None => None,
    };
    match &expansion.target {
        Err(reason) => Err(reason.as_str().to_owned()),
        Ok(path) => {
            let mut expanded = file.clone();
            expanded.source = from;
            expanded.target = path.clone();
            Ok(expanded)
        },
    }
}

/// Whether `result` is what becomes of `files` whose paths expand to
/// `expansions`: all of them expanded, or the first that does not expand, with
/// the reason.
pub open spec fn expands_to(
    files: Seq<FileView>,
    expansions: Seq<ExpansionView>,
    result: Result<Seq<FileView>, (int, Seq<char>)>,
) -> bool {
    match result {
        Ok(found) => {
            &&& found.len() == files.len()
            &&& forall|i: int|
                0 <= i < files.len() ==> #[trigger] with_expansions(files[i], expansions[i])
                    == Ok::<FileView, Seq<char>>(found[i])
        },
        Err((entry, reason)) => {
            &&& 0 <= entry < files.len()
            &&& with_expansions(files[entry], expansions[entry]) == Err::<FileView, Seq<char>>(
                reason,
            )
            &&& forall|i: int|
                0 <= i < entry ==> #[trigger] with_expansions(files[i], expansions[i]) is Ok
        },
    }
}

pub open spec fn expanded_files_view(result: Result<Vec<File>, (usize, String)>) -> Result<
    Seq<FileView>,
    (int, Seq<char>),
> {
    match result {
        Ok(files) => Ok(files_view(files@)),
        Err((entry, reason)) => Err((entry as int, reason@)),
    }
}

/// Puts what the paths of all entries expand to in their place; the first entry
/// with a path that does not expand, and the reason, otherwise.
pub fn apply_all_expansions(files: &Vec<File>, expansions: &Vec<Expansion>) -> (expanded: Result<
    Vec<File>,
    (usize, String),
>)
    requires
        expansions@.len() == files@.len(),
    ensures
        expands_to(
            files_view(files@),
            expansions_view(expansions@),
            expanded_files_view(expanded),
        ),
{
    let ghost all = expansions_view(expansions@);
    let ghost before = files_view(files@);
    let mut found: Vec<File> = Vec::new();
    let mut i: usize = 0;
    while i < files.len()
        invariant
            i <= files.len(),
            found.len() == i,
            before == files_view(files@),
            all == expansions_view(expansions@),
            expansions@.len() == files@.len(),
            forall|j: int|
                0 <= j < i ==> #[trigger] with_expansions(before[j], all[j]) == Ok::<
                    FileView,
                    Seq<char>,
                >(found@[j]@),
        decreases files.len() - i,
    {
        proof {
            assert(all[i as int] == expansions@[i as int]@);
            assert(before[i as int] == files@[i as int]@);
        }
        match apply_expansions(&files[i], &expansions[i]) {
            Ok(file) => found.push(file),
            Err(reason) => return Err((i, reason)),
        }
        i = i + 1;
    }
    Ok(found)
}

/// Whether the paths of an entry can come to that by expansion.
pub open spec fn may_expand_entry(file: FileView, expansion: ExpansionView) -> bool {
    &&& may_expand(file.target, expansion.target)
    &&& match (file.source, expansion.source) {
        (Some(path), Some(expanded)) => may_expand(path, expanded),
        (None, None) => true,
        _ => false,
    }
}

/// Whether the paths of the entries can come to that by expansion.
pub open spec fn may_expand_all(files: Seq<FileView>, expansions: Seq<ExpansionView>) -> bool {
    &&& expansions.len() == files.len()
    &&& forall|i: int|
        0 <= i < files.len() ==> #[trigger] may_expand_entry(files[i], expansions[i])
}

/// Expands the paths of an entry.
fn expand_entry(file: &File) -> (expansion: Expansion)
    ensures
        may_expand_entry(file@, expansion@),
{
    let source = match &file.source {
        Some(path) => Some(expand(path)),
        None => None,
    };
    Expansion { source, target: expand(&file.target) }
}

/// Expands the paths of all entries and puts what comes of them in their place;
/// the first entry with a path that does not expand, and the reason, otherwise.
pub fn expand_files(files: &Vec<File>) -> (expanded: Result<Vec<File>, (usize, String)>)
    ensures
        exists|expansions: Seq<ExpansionView>| #[trigger]
            may_expand_all(files_view(files@), expansions) && expands_to(
                files_view(files@),
                expansions,
                expanded_files_view(expanded),
            ),
{
    let mut expansions: Vec<Expansion> = Vec::new();
    let mut i: usize = 0;
    while i < files.len()
        invariant
            i <= files.len(),
            expansions.len() == i,
            forall|j: int|
                0 <= j < i ==> may_expand_entry(files@[j]@, (#[trigger] expansions@[j])@),
        decreases files.len() - i,
    {
        expansions.push(expand_entry(&files[i]));
        i = i + 1;
    }
    let ghost all = expansions_view(expansions@);
    proof {
        assert forall|j: int| 0 <= j < files@.len() implies #[trigger] may_expand_entry(
            files_view(files@)[j],
            all[j],
        ) by {
            assert(all[j] == expansions@[j]@);
        }
        assert(may_expand_all(files_view(files@), all));
    }
    apply_all_expansions(files, &expansions)
}

/// Paths that hold nothing to expand come through as they are.
pub proof fn law_plain_paths_stay(file: FileView, expansion: ExpansionView)
    requires
        may_expand_entry(file, expansion),
        stays(file.target),
        file.source is Some ==> stays(file.source->0),
    ensures
        with_expansions(file, expansion) == Ok::<FileView, Seq<char>>(file),
{
}

/// What is read from a manifest whose version was accepted, where expansion is
/// not allowed.
pub open spec fn purified(manifest: ManifestView) -> ManifestView {
    ManifestView {
        files: manifest.files.filter(|f: FileView| pure_entry(f)),
        impure: false,
        ..manifest
    }
}

pub open spec fn parsed_view(parsed: Result<Manifest, String>) -> Result<ManifestView, Seq<char>> {
    match parsed {
        Ok(manifest) => Ok(manifest@),
        Err(reason) => Err(reason@),
    }
}

pub open spec fn read_view(manifest: Result<Manifest, ReadError>) -> Result<
    ManifestView,
    ReadErrorView,
> {
    match manifest {
        Ok(found) => Ok(found@),
        Err(error) => Err(error@),
    }
}

/// Whether `manifest` is what is read from a manifest that says `said` and whose
/// paths expand to `expansions`.
pub open spec fn is_expanded(
    said: ManifestView,
    expansions: Seq<ExpansionView>,
    manifest: Result<ManifestView, ReadErrorView>,
) -> bool {
    match manifest {
        Ok(found) => {
            &&& found == (ManifestView { files: found.files, impure: true, ..said })
            &&& expands_to(said.files, expansions, Ok(found.files))
        },
        Err(ReadErrorView::ExpandFailed { entry, reason }) => expands_to(
            said.files,
            expansions,
            Err((entry, reason)),
        ),
        Err(_) => false,
    }
}

/// Whether `manifest` is what can be read from `text`, which says `parsed`.
pub open spec fn reads(
    text: Seq<u8>,
    parsed: Result<ManifestView, Seq<char>>,
    impure: bool,
    manifest: Result<ManifestView, ReadErrorView>,
) -> bool {
    match (gate(version_field(text)), parsed) {
        (Err(error), _) => manifest == Err::<ManifestView, ReadErrorView>(error),
        (Ok(_), Err(reason)) => manifest == Err::<ManifestView, ReadErrorView>(
            ReadErrorView::Io(ReadFaultView::Shape(reason)),
        ),
        (Ok(_), Ok(said)) => if !impure {
            manifest == Ok::<ManifestView, ReadErrorView>(purified(said))
        } else {
            exists|expansions: Seq<ExpansionView>| #[trigger]
                may_expand_all(said.files, expansions) && is_expanded(said, expansions, manifest)
        },
    }
}

impl Manifest {
    /// Takes a manifest in. `text` is the manifest as it was written, and
    /// `parsed` what it says, or why it has not the shape of a manifest.
    ///
    /// The version is looked at first. Where `impure` is set, every path is
    /// expanded as a shell would; otherwise an entry is left out unless its
    /// paths are absolute and without `..`.
    pub fn read(text: &[u8], parsed: Result<Manifest, String>, impure: bool) -> (manifest: Result<
        Manifest,
        ReadError,
    >)
        ensures
            reads(text@, parsed_view(parsed), impure, read_view(manifest)),
    {
        check_version(find_version(text))?;
        let found = match parsed {
            Err(reason) => return Err(ReadError::Io(ReadFault::Shape(reason))),
            Ok(found) => found,
        };
        let files = if impure {
            match expand_files(&found.files) {
                Ok(files) => files,
                Err((entry, reason)) => return Err(ReadError::ExpandFailed { entry, reason }),
            }
        } else {
            retain_pure(&found.files)
        };
        Ok(
            Manifest {
                files,
                clobber_by_default: found.clobber_by_default,
                version: found.version,
                impure,
            },
        )
    }
}

/// Where expansion is not allowed, every entry that is read has absolute paths
/// without `..`, and every entry of the manifest that has such paths is read.
pub proof fn law_pure_read(manifest: ManifestView)
    ensures
        forall|i: int|
            0 <= i < purified(manifest).files.len() ==> pure_entry(
                #[trigger] purified(manifest).files[i],
            ),
        forall|i: int|
            0 <= i < manifest.files.len() && pure_entry(manifest.files[i])
                ==> purified(manifest).files.contains(#[trigger] manifest.files[i]),
{
    broadcast use vstd::seq_lib::group_filter_ensures;

}

/// A manifest of version 3 or older is read, and a newer one is not, whatever else
/// it says; nor is one without a version, one whose version is no number, and a
/// text that is not JSON.
pub proof fn law_version_gate(field: VersionFieldView)
    ensures
        gate(field) is Ok <==> field is Number && field->Number_0 <= 3,
        field is Number && field->Number_0 <= 3 ==> gate(field) == Ok::<
            u64,
            ReadErrorView,
        >(field->Number_0),
        field is Number && field->Number_0 > 3 ==> gate(field) == Err::<
            u64,
            ReadErrorView,
        >(ReadErrorView::VersionTooNew { manifest: field->Number_0 }),
        field is Missing ==> gate(field) == Err::<u64, ReadErrorView>(
            ReadErrorView::Io(ReadFaultView::NoVersion),
        ),
        field is NotANumber ==> gate(field) == Err::<u64, ReadErrorView>(
            ReadErrorView::Io(ReadFaultView::BadVersion),
        ),
        field is NotJson ==> gate(field) == Err::<u64, ReadErrorView>(
            ReadErrorView::Io(ReadFaultView::Syntax(field->NotJson_0)),
        ),
{
}

/// Without expansion an entry is read exactly if its paths begin with a separator
/// and none of their components is `..`.
pub proof fn law_pure_entries(file: FileView)
    ensures
        pure_entry(file) <==> ({
            &&& file.target.len() > 0
            &&& file.target[0] == SEPARATOR
            &&& !parts(file.target).contains(Part::Parent)
            &&& file.source is Some ==> {
                &&& file.source->0.len() > 0
                &&& file.source->0[0] == SEPARATOR
                &&& !parts(file.source->0).contains(Part::Parent)
            }
        }),
{
}

/// What is read keeps the settings of the manifest. Without expansion the entries
/// are those with pure paths, as they stand and in their order. With it every entry
/// is read, in its order and with its settings, and each of its paths is what that
/// path expands to; or nothing is, because of the first entry with a path that does
/// not expand.
pub proof fn law_reading(
    text: Seq<u8>,
    said: ManifestView,
    impure: bool,
    manifest: Result<ManifestView, ReadErrorView>,
    i: int,
)
    requires
        gate(version_field(text)) is Ok,
        reads(text, Ok(said), impure, manifest),
    ensures
        !impure ==> manifest is Ok,
        manifest matches Ok(found) ==> {
            &&& found.clobber_by_default == said.clobber_by_default
            &&& found.version == said.version
            &&& found.impure == impure
            &&& !impure ==> found.files == said.files.filter(|f: FileView| pure_entry(f))
            &&& impure ==> found.files.len() == said.files.len()
            &&& impure && 0 <= i < said.files.len() ==> {
                let before = said.files[i];
                let after = found.files[i];
                &&& after.kind == before.kind
                &&& after.clobber == before.clobber
                &&& after.permissions == before.permissions
                &&& after.uid == before.uid
                &&& after.gid == before.gid
                &&& after.deactivate == before.deactivate
                &&& after.follow_symlinks == before.follow_symlinks
                &&& after.ignore_modification == before.ignore_modification
                &&& may_expand(before.target, Ok(after.target))
                &&& before.source is Some <==> after.source is Some
                &&& before.source is Some ==> may_expand(before.source->0, Ok(after.source->0))
            }
        },
        manifest matches Err(error) ==> ({
            &&& impure
            &&& error is ExpandFailed
            &&& 0 <= error->entry < said.files.len()
            &&& may_expand(said.files[error->entry].target, Err(error->reason)) || (
            said.files[error->entry].source is Some && may_expand(
                said.files[error->entry].source->0,
                Err(error->reason),
            ))
        }),
{
    if impure {
        let expansions = choose|expansions: Seq<ExpansionView>| #[trigger]
            may_expand_all(said.files, expansions) && is_expanded(said, expansions, manifest);
        if let Ok(found) = manifest {
            if 0 <= i < said.files.len() {
                assert(may_expand_entry(said.files[i], expansions[i]));
                assert(with_expansions(said.files[i], expansions[i]) == Ok::<FileView, Seq<char>>(
                    found.files[i],
                ));
            }
        }
        if let Err(error) = manifest {
            let entry = error->entry;
            assert(may_expand_entry(said.files[entry], expansions[entry]));
        }
    }
}

/// A version that is not read is the reason, whatever else there is; and after that
/// it is the shape of the text, where it is not that of a manifest.
pub proof fn law_reading_fails(
    text: Seq<u8>,
    parsed: Result<ManifestView, Seq<char>>,
    impure: bool,
    manifest: Result<ManifestView, ReadErrorView>,
)
    requires
        reads(text, parsed, impure, manifest),
    ensures
        gate(version_field(text)) matches Err(error) ==> manifest == Err::<
            ManifestView,
            ReadErrorView,
        >(error),
        gate(version_field(text)) is Ok && parsed is Err ==> manifest == Err::<
            ManifestView,
            ReadErrorView,
        >(ReadErrorView::Io(ReadFaultView::Shape(parsed->Err_0))),
{
}

/// What the paths of an entry expand to is put in their place, each in its own, and
/// nothing else of the entry changes. It fails exactly if one of them does not
/// expand, for the reason that it does not, the source first.
pub proof fn law_expansions_are_put_in_place(file: FileView, expansion: ExpansionView)
    ensures
        with_expansions(file, expansion) is Ok <==> expansion.target is Ok && (
        expansion.source is Some ==> expansion.source->0 is Ok),
        with_expansions(file, expansion) matches Ok(found) ==> {
            &&& found.target == expansion.target->Ok_0
            &&& expansion.source is Some ==> found.source == Some(expansion.source->0->Ok_0)
            &&& expansion.source is None ==> found.source is None
            &&& found.kind == file.kind
            &&& found.clobber == file.clobber
            &&& found.permissions == file.permissions
            &&& found.uid == file.uid
            &&& found.gid == file.gid
            &&& found.deactivate == file.deactivate
            &&& found.follow_symlinks == file.follow_symlinks
            &&& found.ignore_modification == file.ignore_modification
        },
        with_expansions(file, expansion) matches Err(reason) ==> if expansion.source is Some
            && expansion.source->0 is Err {
            reason == expansion.source->0->Err_0
        } else {
            reason == expansion.target->Err_0
        },
{
}

/// What comes of expanding the paths of many entries: all of them with their
/// expansions in place, in their order; or the first that does not expand.
pub proof fn law_expansion_of_all(
    files: Seq<FileView>,
    expansions: Seq<ExpansionView>,
    result: Result<Seq<FileView>, (int, Seq<char>)>,
    i: int,
)
    requires
        expands_to(files, expansions, result),
        0 <= i < files.len(),
    ensures
        result matches Ok(found) ==> found.len() == files.len() && found[i].target
            == expansions[i].target->Ok_0 && expansions[i].target is Ok,
        result matches Err((entry, _)) ==> {
            &&& 0 <= entry < files.len()
            &&& expansions[entry].target is Err || (expansions[entry].source is Some
                && expansions[entry].source->0 is Err)
            &&& i < entry ==> expansions[i].target is Ok
        },
{
    match result {
        Ok(found) => {
            assert(with_expansions(files[i], expansions[i]) == Ok::<FileView, Seq<char>>(found[i]));
        },
        Err((entry, reason)) => {
            assert(with_expansions(files[entry], expansions[entry]) is Err);
            if i < entry {
                assert(with_expansions(files[i], expansions[i]) is Ok);
            }
        },
    }
}

/// What is known of an expansion whatever the environment says: it is what
/// `shellexpand` gives for the text of the path, and nothing else; a path without
/// anything to expand stays as it is; where there is nothing but a `~` in front to
/// expand, all behind that stays; and what is not text does not expand.
pub proof fn law_expansion(path: Seq<u8>, expanded: Expanded)
    requires
        may_expand(path, expanded),
    ensures
        valid_utf8(path) ==> is_expansion(path, expanded),
        !valid_utf8(path) ==> expanded is Err,
        valid_utf8(path) && !path.contains(DOLLAR) ==> expanded is Ok,
        valid_utf8(path) && !path.contains(DOLLAR) && !(path.len() > 0 && path[0] == TILDE)
            ==> expanded == Ok::<Seq<u8>, Seq<char>>(path),
        valid_utf8(path) && !path.contains(DOLLAR) && expanded != Ok::<Seq<u8>, Seq<char>>(path)
            ==> path[0] == TILDE && (path.len() == 1 || path[1] == SEPARATOR) && path.skip(
            1,
        ).is_suffix_of(expanded->Ok_0),
{
    if !path.contains(DOLLAR) {
        assert(!names_variable(path)) by {
            if names_variable(path) {
                let i = choose|i: int|
                    0 <= i < path.len() - 1 && #[trigger] path[i] == DOLLAR && path[i + 1] != DOLLAR
                        && path[i + 1] != SEPARATOR;
                assert(path.contains(path[i]));
            }
        }
    }
}

/// Every text expands to what a call of `shellexpand` has given for it.
proof fn law_expansion_is_called(path: Seq<u8>, expanded: Expanded)
    requires
        may_expand(path, expanded),
        valid_utf8(path),
    ensures
        exists|text: &str, result: Result<Vec<u8>, String>|
            encode_utf8(text@) == path && #[trigger] call_ensures(expand_text, (text,), result) && (
            match (result, expanded) {
                (Ok(bytes), Ok(found)) => found == bytes@,
                (Err(words), Err(reason)) => reason == words@,
                _ => false,
            }),
{
}

} // verus!
