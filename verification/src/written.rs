//! Manifests as they are written: what a field holds, or that it is left out.
use vstd::prelude::*;
use vstd::utf8::encode_utf8;

use crate::manifest::{
    clone_path, is_false, is_true, path_view, File, FileKind, FileView, Manifest, ManifestView,
};
use crate::path::PathBuf;
use crate::read::{gate, law_pure_read, pure_entry, purified, reads, version_field};
use crate::text::{deserialize_octal, law_octal_round_trip, octal, octal_text, octal_value};

verus! {

/// An entry as it is written: the mode in octal, and `None` for a field that is
/// left out.
#[derive(Debug)]
pub struct WrittenFile {
    pub source: Option<PathBuf>,
    pub target: PathBuf,
    pub kind: FileKind,
    pub clobber: Option<bool>,
    pub permissions: Option<String>,
    pub uid: Option<u32>,
    pub gid: Option<u32>,
    pub deactivate: Option<bool>,
    pub follow_symlinks: Option<bool>,
    pub ignore_modification: Option<bool>,
}

/// An entry as it is written, as specifications speak of it.
pub struct WrittenFileView {
    pub source: Option<Seq<u8>>,
    pub target: Seq<u8>,
    pub kind: FileKind,
    pub clobber: Option<bool>,
    pub permissions: Option<Seq<char>>,
    pub uid: Option<u32>,
    pub gid: Option<u32>,
    pub deactivate: Option<bool>,
    pub follow_symlinks: Option<bool>,
    pub ignore_modification: Option<bool>,
}

pub open spec fn text_view(text: Option<String>) -> Option<Seq<char>> {
    match text {
        Some(found) => Some(found@),
        None => None,
    }
}

impl View for WrittenFile {
    type V = WrittenFileView;

    open spec fn view(&self) -> WrittenFileView {
        WrittenFileView {
            source: path_view(self.source),
            target: self.target@,
            kind: self.kind,
            clobber: self.clobber,
            permissions: text_view(self.permissions),
            uid: self.uid,
            gid: self.gid,
            deactivate: self.deactivate,
            follow_symlinks: self.follow_symlinks,
            ignore_modification: self.ignore_modification,
        }
    }
}

/// A manifest as it is written.
#[derive(Debug)]
pub struct WrittenManifest {
    pub files: Vec<WrittenFile>,
    pub clobber_by_default: Option<bool>,
    pub version: u64,
}

/// A manifest as it is written, as specifications speak of it.
pub struct WrittenManifestView {
    pub files: Seq<WrittenFileView>,
    pub clobber_by_default: Option<bool>,
    pub version: u64,
}

pub open spec fn written_files_view(files: Seq<WrittenFile>) -> Seq<WrittenFileView> {
    files.map_values(|f: WrittenFile| f@)
}

impl View for WrittenManifest {
    type V = WrittenManifestView;

    open spec fn view(&self) -> WrittenManifestView {
        WrittenManifestView {
            files: written_files_view(self.files@),
            clobber_by_default: self.clobber_by_default,
            version: self.version,
        }
    }
}

/// A setting that is left out where it is what is taken for granted.
pub open spec fn unless(setting: Option<bool>, granted: bool) -> Option<bool> {
    if setting == Some(granted) {
        None
    } else {
        setting
    }
}

/// What is written of an entry.
pub open spec fn written_entry(file: FileView) -> WrittenFileView {
    WrittenFileView {
        source: file.source,
        target: file.target,
        kind: file.kind,
        clobber: file.clobber,
        permissions: match file.permissions {
            Some(mode) => Some(octal(mode as nat)),
            None => None,
        },
        uid: file.uid,
        gid: file.gid,
        deactivate: unless(file.deactivate, true),
        follow_symlinks: unless(file.follow_symlinks, true),
        ignore_modification: unless(file.ignore_modification, false),
    }
}

/// What is written of a manifest.
pub open spec fn written_manifest(manifest: ManifestView) -> WrittenManifestView {
    WrittenManifestView {
        files: manifest.files.map_values(|f: FileView| written_entry(f)),
        clobber_by_default: unless(manifest.clobber_by_default, false),
        version: manifest.version,
    }
}

/// What a written entry says; nothing, where its mode is no octal number.
pub open spec fn said_of_entry(written: WrittenFileView) -> Option<FileView> {
    let file = FileView {
        source: written.source,
        target: written.target,
        kind: written.kind,
        clobber: written.clobber,
        permissions: None,
        uid: written.uid,
        gid: written.gid,
        deactivate: written.deactivate,
        follow_symlinks: written.follow_symlinks,
        ignore_modification: written.ignore_modification,
    };
    match written.permissions {
        None => Some(file),
        Some(text) => match octal_value(encode_utf8(text)) {
            Some(mode) => Some(FileView { permissions: Some(mode), ..file }),
            None => None,
        },
    }
}

/// Whether a written manifest says `said`: nothing, where one of its entries
/// says nothing.
pub open spec fn says(written: WrittenManifestView, said: Option<ManifestView>) -> bool {
    match said {
        Some(manifest) => {
            &&& manifest.clobber_by_default == written.clobber_by_default
            &&& manifest.version == written.version
            &&& !manifest.impure
            &&& manifest.files.len() == written.files.len()
            &&& forall|i: int|
                0 <= i < written.files.len() ==> #[trigger] said_of_entry(written.files[i])
                    == Some(manifest.files[i])
        },
        None => exists|i: int|
            0 <= i < written.files.len() && #[trigger] said_of_entry(written.files[i]) is None,
    }
}

fn left_out_if_true(setting: Option<bool>) -> (written: Option<bool>)
    ensures
        written == unless(setting, true),
{
    if is_true(&setting) {
        proof {
            if let Some(value) = setting {
                assert(value == true || setting == Some(!true));
            }
        }
        None
    } else {
        setting
    }
}

fn left_out_if_false(setting: Option<bool>) -> (written: Option<bool>)
    ensures
        written == unless(setting, false),
{
    if is_false(&setting) {
        proof {
            if let Some(value) = setting {
                assert(value == false || setting == Some(!false));
            }
        }
        None
    } else {
        setting
    }
}

impl File {
    /// The entry as it is written.
    pub fn written(&self) -> (written: WrittenFile)
        ensures
            written@ == written_entry(self@),
    {
        WrittenFile {
            source: clone_path(&self.source),
            target: self.target.clone(),
            kind: self.kind,
            clobber: self.clobber,
            permissions: match self.permissions {
                Some(mode) => Some(octal_text(mode)),
                None => None,
            },
            uid: self.uid,
            gid: self.gid,
            deactivate: left_out_if_true(self.deactivate),
            follow_symlinks: left_out_if_true(self.follow_symlinks),
            ignore_modification: left_out_if_false(self.ignore_modification),
        }
    }
}

impl WrittenFile {
    /// What the entry says; nothing, where its mode is no octal number.
    pub fn said(&self) -> (file: Option<File>)
        ensures
            match file {
                Some(found) => said_of_entry(self@) == Some(found@),
                None => said_of_entry(self@) is None,
            },
    {
        let mode = match &self.permissions {
            Some(text) => deserialize_octal(Some(text.as_str())),
            None => deserialize_octal(None),
        };
        match mode {
            Err(_) => None,
            Ok(permissions) => Some(
                File {
                    source: clone_path(&self.source),
                    target: self.target.clone(),
                    kind: self.kind,
                    clobber: self.clobber,
                    permissions,
                    uid: self.uid,
                    gid: self.gid,
                    deactivate: self.deactivate,
                    follow_symlinks: self.follow_symlinks,
                    ignore_modification: self.ignore_modification,
                },
            ),
        }
    }
}

impl Manifest {
    /// The manifest as it is written.
    pub fn written(&self) -> (written: WrittenManifest)
        ensures
            written@ == written_manifest(self@),
    {
        let mut files: Vec<WrittenFile> = Vec::new();
        let mut i: usize = 0;
        while i < self.files.len()
            invariant
                i <= self.files.len(),
                files.len() == i,
                forall|j: int|
                    0 <= j < i ==> (#[trigger] files@[j])@ == written_entry(self.files@[j]@),
            decreases self.files.len() - i,
        {
            files.push(self.files[i].written());
            i = i + 1;
        }
        let written = WrittenManifest {
            files,
            clobber_by_default: left_out_if_false(self.clobber_by_default),
            version: self.version,
        };
        proof {
            assert(written@.files =~= written_manifest(self@).files);
        }
        written
    }
}

impl WrittenManifest {
    /// What the manifest says; the reason, where the mode of an entry is no octal
    /// number.
    pub fn said(&self) -> (manifest: Result<Manifest, String>)
        ensures
            match manifest {
                Ok(found) => says(self@, Some(found@)),
                Err(reason) => says(self@, None) && reason@ == "permissions are no octal number"@,
            },
    {
        let mut files: Vec<File> = Vec::new();
        let mut i: usize = 0;
        while i < self.files.len()
            invariant
                i <= self.files.len(),
                files.len() == i,
                forall|j: int|
                    0 <= j < i ==> said_of_entry(self.files@[j]@) == Some(
                        (#[trigger] files@[j])@,
                    ),
            decreases self.files.len() - i,
        {
            match self.files[i].said() {
                Some(file) => files.push(file),
                None => {
                    proof {
                        assert(self@.files[i as int] == self.files@[i as int]@);
                        assert(said_of_entry(self@.files[i as int]) is None);
                    }
                    return Err("permissions are no octal number".to_owned());
                },
            }
            i = i + 1;
        }
        let manifest = Manifest {
            files,
            clobber_by_default: self.clobber_by_default,
            version: self.version,
            impure: false,
        };
        proof {
            assert forall|j: int| 0 <= j < self@.files.len() implies #[trigger] said_of_entry(
                self@.files[j],
            ) == Some(manifest@.files[j]) by {
                assert(self@.files[j] == self.files@[j]@);
                assert(manifest@.files[j] == files@[j]@);
            }
        }
        Ok(manifest)
    }
}

/// An entry without the settings that are taken for granted anyway.
pub open spec fn normal_entry(file: FileView) -> FileView {
    FileView {
        deactivate: unless(file.deactivate, true),
        follow_symlinks: unless(file.follow_symlinks, true),
        ignore_modification: unless(file.ignore_modification, false),
        ..file
    }
}

/// A manifest without the settings that are taken for granted anyway.
pub open spec fn normal_manifest(manifest: ManifestView) -> ManifestView {
    ManifestView {
        files: manifest.files.map_values(|f: FileView| normal_entry(f)),
        clobber_by_default: unless(manifest.clobber_by_default, false),
        ..manifest
    }
}

/// An entry that was written says what it said, but for settings that are taken
/// for granted anyway.
pub proof fn law_entry_reads_back(file: FileView)
    ensures
        said_of_entry(written_entry(file)) == Some(normal_entry(file)),
{
    if let Some(mode) = file.permissions {
        law_octal_round_trip(mode);
    }
}

/// A manifest that was read where expansion is not allowed, and written, is read
/// back as it was, but for settings that are taken for granted anyway. `text` is
/// what was written; its version is one that is read.
pub proof fn law_manifest_reads_back(
    text: Seq<u8>,
    first: ManifestView,
    said: Option<ManifestView>,
)
    requires
        gate(version_field(text)) is Ok,
        says(written_manifest(purified(first)), said),
    ensures
        said is Some,
        reads(text, Ok(said->0), false, Ok(normal_manifest(purified(first)))),
{
    let manifest = purified(first);
    let written = written_manifest(manifest);
    let normal = normal_manifest(manifest);
    law_pure_read(first);
    assert forall|i: int| 0 <= i < written.files.len() implies #[trigger] said_of_entry(
        written.files[i],
    ) == Some(normal.files[i]) by {
        law_entry_reads_back(manifest.files[i]);
    }
    assert(said is Some);
    let back = said->0;
    assert forall|i: int| 0 <= i < back.files.len() implies #[trigger] back.files[i]
        == normal.files[i] by {
        assert(said_of_entry(written.files[i]) == Some(back.files[i]));
    }
    assert(back.files =~= normal.files);
    assert forall|i: int| 0 <= i < back.files.len() implies pure_entry(
        #[trigger] back.files[i],
    ) by {
        assert(pure_entry(manifest.files[i]));
    }
    lemma_all_kept(back.files);
}

/// A filter that everything passes keeps everything.
proof fn lemma_all_kept(files: Seq<FileView>)
    requires
        forall|i: int| 0 <= i < files.len() ==> pure_entry(#[trigger] files[i]),
    ensures
        files.filter(|f: FileView| pure_entry(f)) == files,
    decreases files.len(),
{
    reveal(Seq::filter);
    if files.len() > 0 {
        let front = files.drop_last();
        assert forall|i: int| 0 <= i < front.len() implies pure_entry(#[trigger] front[i]) by {
            assert(front[i] == files[i]);
        }
        lemma_all_kept(front);
        assert(pure_entry(files[files.len() - 1]));
        assert(front.push(files.last()) =~= files);
    } else {
        assert(files.filter(|f: FileView| pure_entry(f)) =~= files);
    }
}

/// A written entry says what stands in it, also where that is taken for granted
/// anyway: every setting is the one that was written, and the mode is the number
/// that was written in octal. It says nothing exactly if a mode is written that is
/// none.
pub proof fn law_written_says_what_stands(written: WrittenFileView)
    ensures
        said_of_entry(written) is None <==> written.permissions is Some && octal_value(
            encode_utf8(written.permissions->0),
        ) is None,
        said_of_entry(written) is Some ==> ({
            let file = said_of_entry(written)->0;
            &&& file.source == written.source
            &&& file.target == written.target
            &&& file.kind == written.kind
            &&& file.clobber == written.clobber
            &&& file.uid == written.uid
            &&& file.gid == written.gid
            &&& file.deactivate == written.deactivate
            &&& file.follow_symlinks == written.follow_symlinks
            &&& file.ignore_modification == written.ignore_modification
            &&& written.permissions is None ==> file.permissions is None
            &&& written.permissions is Some ==> file.permissions == octal_value(
                encode_utf8(written.permissions->0),
            )
        }),
{
}

/// What is written of an entry: every setting as it stands, but for those that are
/// left out because they are taken for granted, to be deactivated, to follow links
/// and to heed modifications; and the mode in octal.
pub proof fn law_entry_is_written(file: FileView)
    ensures
        ({
            let written = written_entry(file);
            &&& written.source == file.source
            &&& written.target == file.target
            &&& written.kind == file.kind
            &&& written.clobber == file.clobber
            &&& written.uid == file.uid
            &&& written.gid == file.gid
            &&& file.deactivate == Some(false) ==> written.deactivate == Some(false)
            &&& file.deactivate != Some(false) ==> written.deactivate is None
            &&& file.follow_symlinks == Some(false) ==> written.follow_symlinks == Some(false)
            &&& file.follow_symlinks != Some(false) ==> written.follow_symlinks is None
            &&& file.ignore_modification == Some(true) ==> written.ignore_modification == Some(
                true,
            )
            &&& file.ignore_modification != Some(true) ==> written.ignore_modification is None
            &&& file.permissions is None ==> written.permissions is None
            &&& file.permissions is Some ==> written.permissions is Some && octal_value(
                encode_utf8(written.permissions->0),
            ) == file.permissions
        }),
{
    if let Some(mode) = file.permissions {
        law_octal_round_trip(mode);
    }
    if let Some(choice) = file.deactivate {
        assert(choice || file.deactivate == Some(false));
    }
    if let Some(choice) = file.follow_symlinks {
        assert(choice || file.follow_symlinks == Some(false));
    }
    if let Some(choice) = file.ignore_modification {
        assert(!choice || file.ignore_modification == Some(true));
    }
}

/// Reading and writing again only drops settings that are taken for granted: what
/// is written of what an entry says is what was written, without those; and the
/// mode stands for the same number.
pub proof fn law_written_again(written: WrittenFileView)
    requires
        said_of_entry(written) is Some,
    ensures
        ({
            let again = written_entry(said_of_entry(written)->0);
            &&& again.source == written.source
            &&& again.target == written.target
            &&& again.kind == written.kind
            &&& again.clobber == written.clobber
            &&& again.uid == written.uid
            &&& again.gid == written.gid
            &&& again.deactivate == (if written.deactivate == Some(true) {
                None
            } else {
                written.deactivate
            })
            &&& again.follow_symlinks == (if written.follow_symlinks == Some(true) {
                None
            } else {
                written.follow_symlinks
            })
            &&& again.ignore_modification == (if written.ignore_modification == Some(false) {
                None
            } else {
                written.ignore_modification
            })
            &&& written.permissions is Some <==> again.permissions is Some
            &&& written.permissions is Some ==> octal_value(encode_utf8(again.permissions->0))
                == octal_value(encode_utf8(written.permissions->0))
        }),
{
    law_written_says_what_stands(written);
    if let Some(mode) = said_of_entry(written)->0.permissions {
        law_octal_round_trip(mode);
    }
}

/// What is written of a manifest: its entries in their order, its version, and the
/// default only if that is to throw away.
pub proof fn law_manifest_is_written(manifest: ManifestView, i: int)
    ensures
        written_manifest(manifest).version == manifest.version,
        written_manifest(manifest).files.len() == manifest.files.len(),
        0 <= i < manifest.files.len() ==> written_manifest(manifest).files[i] == written_entry(
            manifest.files[i],
        ),
        manifest.clobber_by_default == Some(true) ==> written_manifest(manifest).clobber_by_default
            == Some(true),
        manifest.clobber_by_default != Some(true) ==> written_manifest(manifest).clobber_by_default
            is None,
{
    if let Some(choice) = manifest.clobber_by_default {
        assert(!choice || manifest.clobber_by_default == Some(true));
    }
}

/// A written manifest says what stands in it: its entries in their order, its
/// version and its default.
pub proof fn law_manifest_says_what_stands(
    written: WrittenManifestView,
    said: ManifestView,
    i: int,
)
    requires
        says(written, Some(said)),
    ensures
        said.version == written.version,
        said.clobber_by_default == written.clobber_by_default,
        said.files.len() == written.files.len(),
        0 <= i < written.files.len() ==> said_of_entry(written.files[i]) == Some(said.files[i]),
{
}

/// What specifications speak of is all that stands in a written entry.
pub proof fn law_written_views_tell_all(a: WrittenFile, b: WrittenFile)
    ensures
        a@ == b@ ==> ({
            &&& a.kind == b.kind
            &&& a.clobber == b.clobber
            &&& a.uid == b.uid
            &&& a.gid == b.gid
            &&& a.deactivate == b.deactivate
            &&& a.follow_symlinks == b.follow_symlinks
            &&& a.ignore_modification == b.ignore_modification
            &&& a.target.bytes@ == b.target.bytes@
            &&& a.source is Some <==> b.source is Some
            &&& a.source is Some ==> a.source->0.bytes@ == b.source->0.bytes@
            &&& a.permissions is Some <==> b.permissions is Some
            &&& a.permissions is Some ==> a.permissions->0@ == b.permissions->0@
        }),
{
}

} // verus!
