//! The manifest: a list of entries, each saying what is to be at a path.
use core::cmp::Ordering;

use vstd::prelude::*;
use vstd::string::StringExecFns;

use crate::path::{depth, same_path, PathBuf};
use crate::text::{display, lossy_text};

verus! {

/// What is done for an entry.
#[derive(Debug, Clone, Copy, PartialEq, Eq, Structural)]
pub enum FileKind {
    Copy,
    Delete,
    Directory,
    Modify,
    Symlink,
}

pub open spec fn kind_name(kind: FileKind) -> Seq<char> {
    match kind {
        FileKind::Copy => "copy"@,
        FileKind::Delete => "delete"@,
        FileKind::Directory => "directory"@,
        FileKind::Modify => "modify"@,
        FileKind::Symlink => "symlink"@,
    }
}

/// The place of a kind in the order in which entries are applied.
pub open spec fn rank(kind: FileKind) -> int {
    match kind {
        FileKind::Directory => 1,
        FileKind::Copy => 2,
        FileKind::Symlink => 3,
        FileKind::Modify => 4,
        FileKind::Delete => 5,
    }
}

/// Whether entries of this kind are made from a source.
pub open spec fn takes_source(kind: FileKind) -> bool {
    kind is Copy || kind is Symlink
}

impl FileKind {
    /// The name that manifests use.
    pub fn name(self) -> (name: &'static str)
        ensures
            name@ == kind_name(self),
    {
        match self {
            FileKind::Copy => "copy",
            FileKind::Delete => "delete",
            FileKind::Directory => "directory",
            FileKind::Modify => "modify",
            FileKind::Symlink => "symlink",
        }
    }

    /// The place of the kind in the order in which entries are applied.
    pub fn rank(self) -> (place: u8)
        ensures
            place == rank(self),
    {
        match self {
            FileKind::Directory => 1,
            FileKind::Copy => 2,
            FileKind::Symlink => 3,
            FileKind::Modify => 4,
            FileKind::Delete => 5,
        }
    }

    /// Whether entries of this kind are made from a source.
    pub fn takes_source(self) -> (answer: bool)
        ensures
            answer == takes_source(self),
    {
        match self {
            FileKind::Copy | FileKind::Symlink => true,
            _ => false,
        }
    }
}

/// An entry of a manifest.
#[derive(Debug)]
pub struct File {
    pub source: Option<PathBuf>,
    pub target: PathBuf,
    pub kind: FileKind,
    pub clobber: Option<bool>,
    pub permissions: Option<u32>,
    pub uid: Option<u32>,
    pub gid: Option<u32>,
    pub deactivate: Option<bool>,
    pub follow_symlinks: Option<bool>,
    pub ignore_modification: Option<bool>,
}

/// An entry, as specifications speak of it.
pub struct FileView {
    pub source: Option<Seq<u8>>,
    pub target: Seq<u8>,
    pub kind: FileKind,
    pub clobber: Option<bool>,
    pub permissions: Option<u32>,
    pub uid: Option<u32>,
    pub gid: Option<u32>,
    pub deactivate: Option<bool>,
    pub follow_symlinks: Option<bool>,
    pub ignore_modification: Option<bool>,
}

pub open spec fn path_view(path: Option<PathBuf>) -> Option<Seq<u8>> {
    match path {
        Some(found) => Some(found@),
        None => None,
    }
}

pub(crate) fn clone_path(path: &Option<PathBuf>) -> (copy: Option<PathBuf>)
    ensures
        path_view(copy) == path_view(*path),
{
    match path {
        Some(found) => Some(found.clone()),
        None => None,
    }
}

impl View for File {
    type V = FileView;

    open spec fn view(&self) -> FileView {
        FileView {
            source: path_view(self.source),
            target: self.target@,
            kind: self.kind,
            clobber: self.clobber,
            permissions: self.permissions,
            uid: self.uid,
            gid: self.gid,
            deactivate: self.deactivate,
            follow_symlinks: self.follow_symlinks,
            ignore_modification: self.ignore_modification,
        }
    }
}

impl Clone for File {
    fn clone(&self) -> (copy: Self)
        ensures
            copy@ == self@,
    {
        File {
            source: clone_path(&self.source),
            target: self.target.clone(),
            kind: self.kind,
            clobber: self.clobber,
            permissions: self.permissions,
            uid: self.uid,
            gid: self.gid,
            deactivate: self.deactivate,
            follow_symlinks: self.follow_symlinks,
            ignore_modification: self.ignore_modification,
        }
    }
}

pub open spec fn files_view(files: Seq<File>) -> Seq<FileView> {
    files.map_values(|f: File| f@)
}

/// Whether two optional sources are the same path, or both absent.
pub open spec fn same_source(a: Option<Seq<u8>>, b: Option<Seq<u8>>) -> bool {
    match (a, b) {
        (Some(x), Some(y)) => same_path(x, y),
        (None, None) => true,
        _ => false,
    }
}

/// Whether two entries ask for the same: paths are compared by components, all
/// else as it stands.
pub open spec fn same_entry(a: FileView, b: FileView) -> bool {
    &&& same_source(a.source, b.source)
    &&& same_path(a.target, b.target)
    &&& a.kind == b.kind
    &&& a.clobber == b.clobber
    &&& a.permissions == b.permissions
    &&& a.uid == b.uid
    &&& a.gid == b.gid
    &&& a.deactivate == b.deactivate
    &&& a.follow_symlinks == b.follow_symlinks
    &&& a.ignore_modification == b.ignore_modification
}

fn same_flag(a: Option<bool>, b: Option<bool>) -> (same: bool)
    ensures
        same == (a == b),
{
    match (a, b) {
        (Some(x), Some(y)) => x == y,
        (None, None) => true,
        _ => false,
    }
}

fn same_number(a: Option<u32>, b: Option<u32>) -> (same: bool)
    ensures
        same == (a == b),
{
    match (a, b) {
        (Some(x), Some(y)) => x == y,
        (None, None) => true,
        _ => false,
    }
}

impl PartialEq for File {
    fn eq(&self, other: &Self) -> (equal: bool) {
        let sources = match (&self.source, &other.source) {
            (Some(x), Some(y)) => x == y,
            (None, None) => true,
            _ => false,
        };
        sources && self.target == other.target && self.kind == other.kind && same_flag(
            self.clobber,
            other.clobber,
        ) && same_number(self.permissions, other.permissions) && same_number(self.uid, other.uid)
            && same_number(self.gid, other.gid) && same_flag(self.deactivate, other.deactivate)
            && same_flag(self.follow_symlinks, other.follow_symlinks) && same_flag(
            self.ignore_modification,
            other.ignore_modification,
        )
    }
}

impl Eq for File {

}

impl vstd::std_specs::cmp::PartialEqSpecImpl for File {
    open spec fn obeys_eq_spec() -> bool {
        true
    }

    open spec fn eq_spec(&self, other: &Self) -> bool {
        same_entry(self@, other@)
    }
}

/// Whether `a` is applied strictly before `b`: by the rank of the kind, then by
/// the depth of the target.
pub open spec fn precedes(a: FileView, b: FileView) -> bool {
    rank(a.kind) < rank(b.kind) || (rank(a.kind) == rank(b.kind) && depth(a.target) < depth(
        b.target,
    ))
}

pub open spec fn entry_order(a: FileView, b: FileView) -> Ordering {
    if precedes(a, b) {
        Ordering::Less
    } else if precedes(b, a) {
        Ordering::Greater
    } else {
        Ordering::Equal
    }
}

impl PartialOrd for File {
    fn partial_cmp(&self, other: &Self) -> (order: Option<Ordering>) {
        Some(self.cmp(other))
    }
}

impl vstd::std_specs::cmp::PartialOrdSpecImpl for File {
    open spec fn obeys_partial_cmp_spec() -> bool {
        true
    }

    open spec fn partial_cmp_spec(&self, other: &Self) -> Option<Ordering> {
        Some(entry_order(self@, other@))
    }
}

impl File {
    /// The order in which two entries are applied: directories, copies,
    /// symlinks, modifies, deletes; within a kind the shallower target first.
    pub fn cmp(&self, other: &File) -> (order: Ordering)
        ensures
            order == entry_order(self@, other@),
    {
        let left = self.kind.rank();
        let right = other.kind.rank();
        if left < right {
            return Ordering::Less;
        }
        if right < left {
            return Ordering::Greater;
        }
        let shallow = self.target.depth();
        let deep = other.target.depth();
        if shallow < deep {
            Ordering::Less
        } else if deep < shallow {
            Ordering::Greater
        } else {
            Ordering::Equal
        }
    }
}

/// A list of entries, with the settings that hold for all of them.
#[derive(Debug)]
pub struct Manifest {
    pub files: Vec<File>,
    pub clobber_by_default: Option<bool>,
    pub version: u64,
    /// Whether relative paths and shell expansion are allowed.
    pub impure: bool,
}

/// A manifest, as specifications speak of it.
pub struct ManifestView {
    pub files: Seq<FileView>,
    pub clobber_by_default: Option<bool>,
    pub version: u64,
    pub impure: bool,
}

impl View for Manifest {
    type V = ManifestView;

    open spec fn view(&self) -> ManifestView {
        ManifestView {
            files: files_view(self.files@),
            clobber_by_default: self.clobber_by_default,
            version: self.version,
            impure: self.impure,
        }
    }
}

pub(crate) fn clone_files(files: &Vec<File>) -> (copy: Vec<File>)
    ensures
        files_view(copy@) == files_view(files@),
{
    let mut copy: Vec<File> = Vec::new();
    let mut i: usize = 0;
    while i < files.len()
        invariant
            i <= files.len(),
            copy.len() == i,
            forall|j: int| 0 <= j < i ==> (#[trigger] copy@[j])@ == files@[j]@,
        decreases files.len() - i,
    {
        copy.push(files[i].clone());
        i = i + 1;
    }
    proof {
        assert(files_view(copy@) =~= files_view(files@));
    }
    copy
}

impl Clone for Manifest {
    fn clone(&self) -> (copy: Self)
        ensures
            copy@ == self@,
    {
        Manifest {
            files: clone_files(&self.files),
            clobber_by_default: self.clobber_by_default,
            version: self.version,
            impure: self.impure,
        }
    }
}

/// Whether an absent setting, or one that is `false`, is left out of a written
/// manifest.
pub fn is_false(setting: &Option<bool>) -> (answer: bool)
    ensures
        answer == (*setting != Some(true)),
{
    match setting {
        Some(value) => !*value,
        None => true,
    }
}

/// Whether an absent setting, or one that is `true`, is left out of a written
/// manifest.
pub fn is_true(setting: &Option<bool>) -> (answer: bool)
    ensures
        answer == (*setting != Some(false)),
{
    match setting {
        Some(value) => *value,
        None => true,
    }
}

/// What is wrong with an entry.
#[derive(Debug, Clone, Copy, PartialEq, Eq, Structural)]
pub enum Violation {
    MissingSource,
    UnexpectedSource,
    UnexpectedFollowSymlinks,
    UnexpectedIgnoreModification,
}

/// An entry that does not comply.
#[derive(Debug, PartialEq, Eq)]
pub struct VerifyError {
    pub target: PathBuf,
    pub kind: FileKind,
    pub violation: Violation,
}

/// An entry that does not comply, as specifications speak of it.
pub struct VerifyErrorView {
    pub target: Seq<u8>,
    pub kind: FileKind,
    pub violation: Violation,
}

impl Clone for VerifyError {
    fn clone(&self) -> (copy: Self)
        ensures
            copy@ == self@,
    {
        VerifyError {
            target: self.target.clone(),
            kind: self.kind,
            violation: self.violation,
        }
    }
}

impl View for VerifyError {
    type V = VerifyErrorView;

    open spec fn view(&self) -> VerifyErrorView {
        VerifyErrorView { target: self.target@, kind: self.kind, violation: self.violation }
    }
}

pub open spec fn errors_view(errors: Seq<VerifyError>) -> Seq<VerifyErrorView> {
    errors.map_values(|e: VerifyError| e@)
}

/// Whether `file` breaks the rule that `violation` names.
pub open spec fn violates(file: FileView, violation: Violation) -> bool {
    match violation {
        Violation::MissingSource => takes_source(file.kind) && file.source is None,
        Violation::UnexpectedSource => !takes_source(file.kind) && file.source is Some,
        Violation::UnexpectedFollowSymlinks => !(file.kind is Symlink)
            && file.follow_symlinks is Some,
        Violation::UnexpectedIgnoreModification => !takes_source(file.kind)
            && file.ignore_modification is Some,
    }
}

/// The error for `violation`, if `file` has it.
pub open spec fn error_for(file: FileView, violation: Violation) -> Seq<VerifyErrorView> {
    if violates(file, violation) {
        seq![VerifyErrorView { target: file.target, kind: file.kind, violation }]
    } else {
        Seq::<VerifyErrorView>::empty()
    }
}

pub open spec fn file_errors(file: FileView) -> Seq<VerifyErrorView> {
    error_for(file, Violation::MissingSource) + error_for(file, Violation::UnexpectedSource)
        + error_for(file, Violation::UnexpectedFollowSymlinks) + error_for(
        file,
        Violation::UnexpectedIgnoreModification,
    )
}

/// The errors of all entries, entry by entry.
pub open spec fn all_errors(files: Seq<FileView>) -> Seq<VerifyErrorView>
    decreases files.len(),
{
    if files.len() == 0 {
        Seq::<VerifyErrorView>::empty()
    } else {
        all_errors(files.drop_last()) + file_errors(files.last())
    }
}

/// A manifest has no errors exactly when no entry breaks any rule.
pub proof fn law_verify_complete(files: Seq<FileView>)
    ensures
        all_errors(files).len() == 0 <==> forall|i: int, v: Violation|
            0 <= i < files.len() ==> !#[trigger] violates(files[i], v),
    decreases files.len(),
{
    if files.len() > 0 {
        let front = files.drop_last();
        let last = files.last();
        law_verify_complete(front);
        if all_errors(files).len() == 0 {
            assert(file_errors(last).len() == 0);
            assert forall|i: int, v: Violation| 0 <= i < files.len() implies !#[trigger] violates(
                files[i],
                v,
            ) by {
                if i < files.len() - 1 {
                    assert(!violates(front[i], v));
                }
            }
        }
        if forall|i: int, v: Violation|
            0 <= i < files.len() ==> !#[trigger] violates(files[i], v) {
            assert forall|i: int, v: Violation| 0 <= i < front.len() implies !#[trigger] violates(
                front[i],
                v,
            ) by {
                assert(!violates(files[i], v));
            }
            let n = files.len() - 1;
            assert(!violates(files[n], Violation::MissingSource));
            assert(!violates(files[n], Violation::UnexpectedSource));
            assert(!violates(files[n], Violation::UnexpectedFollowSymlinks));
            assert(!violates(files[n], Violation::UnexpectedIgnoreModification));
        }
    }
}

/// Adds the error for `violation` where `present` says that the entry has it.
fn report(errors: &mut Vec<VerifyError>, file: &File, violation: Violation, present: bool)
    requires
        present == violates(file@, violation),
    ensures
        errors_view(final(errors)@) == errors_view(old(errors)@) + error_for(file@, violation),
{
    if present {
        errors.push(VerifyError { target: file.target.clone(), kind: file.kind, violation });
    }
    proof {
        assert(errors_view(errors@) =~= errors_view(old(errors)@) + error_for(file@, violation));
    }
}

impl Manifest {
    /// The rules that the entries break.
    ///
    /// A copy or a symlink has a source, and no other entry has one; only a
    /// symlink has `follow_symlinks`; only a copy or a symlink has
    /// `ignore_modification`.
    pub fn verify(&self) -> (errors: Vec<VerifyError>)
        ensures
            errors_view(errors@) == all_errors(self@.files),
    {
        let mut errors: Vec<VerifyError> = Vec::new();
        let mut i: usize = 0;
        proof {
            assert(self@.files.take(0) =~= Seq::<FileView>::empty());
            assert(errors_view(errors@) =~= Seq::<VerifyErrorView>::empty());
        }
        while i < self.files.len()
            invariant
                i <= self.files.len(),
                errors_view(errors@) == all_errors(self@.files.take(i as int)),
            decreases self.files.len() - i,
        {
            let file = &self.files[i];
            let ghost before = errors_view(errors@);
            let sourced = file.kind.takes_source();
            let has_source = file.source.is_some();
            report(&mut errors, file, Violation::MissingSource, sourced && !has_source);
            report(&mut errors, file, Violation::UnexpectedSource, !sourced && has_source);
            report(
                &mut errors,
                file,
                Violation::UnexpectedFollowSymlinks,
                file.follow_symlinks.is_some() && file.kind != FileKind::Symlink,
            );
            report(
                &mut errors,
                file,
                Violation::UnexpectedIgnoreModification,
                file.ignore_modification.is_some() && !sourced,
            );
            proof {
                let longer = self@.files.take(i + 1);
                assert(longer.drop_last() =~= self@.files.take(i as int));
                assert(longer.last() == file@);
                assert(errors_view(errors@) =~= before + file_errors(file@));
            }
            i = i + 1;
        }
        proof {
            assert(self@.files.take(self.files.len() as int) =~= self@.files);
        }
        errors
    }
}

pub open spec fn violation_text(violation: Violation) -> Seq<char> {
    match violation {
        Violation::MissingSource => "requires a source"@,
        Violation::UnexpectedSource => "should not have a source"@,
        Violation::UnexpectedFollowSymlinks => "should not have follow_symlinks"@,
        Violation::UnexpectedIgnoreModification => "should not have ignore_modification"@,
    }
}

impl VerifyError {
    /// The error in words.
    pub fn message(&self) -> (text: String)
        ensures
            text@ == "file '"@ + lossy_text(self.target@) + "' of type '"@ + kind_name(self.kind)
                + "' "@ + violation_text(self.violation),
    {
        let mut text = String::new();
        text.append("file '");
        text.append(display(&self.target).as_str());
        text.append("' of type '");
        text.append(self.kind.name());
        text.append("' ");
        let rule = match self.violation {
            Violation::MissingSource => "requires a source",
            Violation::UnexpectedSource => "should not have a source",
            Violation::UnexpectedFollowSymlinks => "should not have follow_symlinks",
            Violation::UnexpectedIgnoreModification => "should not have ignore_modification",
        };
        text.append(rule);
        proof {
            assert(Seq::<char>::empty() + "file '"@ =~= "file '"@);
        }
        text
    }
}

} // verus!
