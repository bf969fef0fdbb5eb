//! Manifests: order, validation, reading, merging.
use smfh::manifest::{
    is_false, is_true, File, FileKind, Manifest, VerifyError, Violation,
};
use smfh::merge::merge_files_from_manifests;
use smfh::path::PathBuf;
use smfh::read::{
    apply_all_expansions, check_version, expand, find_version, Expansion, ReadError, ReadFault,
    VersionField,
};
use smfh::split::split_files;
use smfh::text::{deserialize_octal, octal_text};

fn file(kind: FileKind, target: &str) -> File {
    File {
        source: None,
        target: PathBuf::from(target),
        kind,
        clobber: None,
        permissions: None,
        uid: None,
        gid: None,
        deactivate: None,
        follow_symlinks: None,
        ignore_modification: None,
    }
}

fn manifest_with(files: Vec<File>) -> Manifest {
    Manifest {
        files,
        clobber_by_default: None,
        version: 3,
        impure: false,
    }
}

fn path_in(value: &serde_json::Value, key: &str) -> Option<PathBuf> {
    value.get(key).and_then(|v| v.as_str()).map(PathBuf::from)
}

fn parse_file(value: &serde_json::Value) -> Option<File> {
    let kind = match value.get("type")?.as_str()? {
        "copy" => FileKind::Copy,
        "delete" => FileKind::Delete,
        "directory" => FileKind::Directory,
        "modify" => FileKind::Modify,
        "symlink" => FileKind::Symlink,
        _ => return None,
    };
    let mut parsed = file(kind, "");
    parsed.target = path_in(value, "target")?;
    parsed.source = path_in(value, "source");
    parsed.permissions =
        deserialize_octal(value.get("permissions").and_then(|v| v.as_str())).ok()?;
    Some(parsed)
}

fn parse(text: &str) -> Option<Manifest> {
    let root: serde_json::Value = serde_json::from_str(text).ok()?;
    let mut files = Vec::new();
    for value in root.get("files")?.as_array()? {
        files.push(parse_file(value)?);
    }
    Some(Manifest {
        files,
        clobber_by_default: root.get("clobber_by_default").and_then(|v| v.as_bool()),
        version: root.get("version")?.as_u64()?,
        impure: false,
    })
}

fn read(text: &str, impure: bool) -> Result<Manifest, ReadError> {
    let parsed = parse(text).ok_or("no manifest".to_string());
    Manifest::read(text.as_bytes(), parsed, impure)
}

#[test]
fn read_rejects_future_version() {
    assert!(matches!(
        read(r#"{"files":[],"version":9999}"#, false),
        Err(ReadError::VersionTooNew { manifest: 9999 })
    ));
}

#[test]
fn read_valid_empty_manifest() {
    let m = read(r#"{"files":[],"version":3}"#, false).unwrap();
    assert!(m.files.is_empty());
    assert_eq!(m.version, 3);
}

#[test]
fn read_parses_octal_permissions() {
    let m = read(
        r#"{"files":[{"type":"directory","target":"/tmp/x","permissions":"755"}],"version":3}"#,
        false,
    )
    .unwrap();
    assert_eq!(m.files[0].permissions, Some(0o755));
}

#[test]
fn read_null_permissions_is_none() {
    let m = read(
        r#"{"files":[{"type":"directory","target":"/tmp/x","permissions":null}],"version":3}"#,
        false,
    )
    .unwrap();
    assert_eq!(m.files[0].permissions, None);
}

#[test]
fn file_ordering_by_kind() {
    let dir = file(FileKind::Directory, "/a");
    let copy = file(FileKind::Copy, "/a");
    let sym = file(FileKind::Symlink, "/a");
    let modify = file(FileKind::Modify, "/a");
    let del = file(FileKind::Delete, "/a");

    assert!(dir < copy);
    assert!(copy < sym);
    assert!(sym < modify);
    assert!(modify < del);
}

#[test]
fn file_ordering_same_kind_by_depth() {
    let shallow = file(FileKind::Copy, "/a/b");
    let deep = file(FileKind::Copy, "/a/b/c");
    assert!(shallow < deep);
}

#[test]
fn verify_rejects_missing_source_for_copy() {
    let errors = manifest_with(vec![file(FileKind::Copy, "/a")]).verify();
    assert_eq!(
        errors,
        vec![VerifyError {
            target: PathBuf::from("/a"),
            kind: FileKind::Copy,
            violation: Violation::MissingSource,
        }]
    );
}

#[test]
fn verify_rejects_missing_source_for_symlink() {
    let errors = manifest_with(vec![file(FileKind::Symlink, "/a")]).verify();
    assert_eq!(
        errors,
        vec![VerifyError {
            target: PathBuf::from("/a"),
            kind: FileKind::Symlink,
            violation: Violation::MissingSource,
        }]
    );
}

#[test]
fn verify_rejects_unexpected_source_for_delete() {
    let mut f = file(FileKind::Delete, "/a");
    f.source = Some(PathBuf::from("/b"));
    let errors = manifest_with(vec![f]).verify();
    assert_eq!(
        errors,
        vec![VerifyError {
            target: PathBuf::from("/a"),
            kind: FileKind::Delete,
            violation: Violation::UnexpectedSource,
        }]
    );
}

#[test]
fn verify_rejects_unexpected_follow_symlinks_for_copy() {
    let mut f = file(FileKind::Copy, "/a");
    f.source = Some(PathBuf::from("/b"));
    f.follow_symlinks = Some(true);
    let errors = manifest_with(vec![f]).verify();
    assert_eq!(
        errors,
        vec![VerifyError {
            target: PathBuf::from("/a"),
            kind: FileKind::Copy,
            violation: Violation::UnexpectedFollowSymlinks,
        }]
    );
}

#[test]
fn verify_rejects_unexpected_ignore_modification_for_directoy() {
    let mut f = file(FileKind::Directory, "/a");
    f.ignore_modification = Some(true);
    let errors = manifest_with(vec![f]).verify();
    assert_eq!(
        errors,
        vec![VerifyError {
            target: PathBuf::from("/a"),
            kind: FileKind::Directory,
            violation: Violation::UnexpectedIgnoreModification,
        }]
    );
}

#[test]
fn verify_accepts_valid_manifest() {
    let mut copy = file(FileKind::Copy, "/a");
    copy.source = Some(PathBuf::from("/b"));
    let mut symlink = file(FileKind::Symlink, "/c");
    symlink.source = Some(PathBuf::from("/d"));
    assert!(manifest_with(vec![copy, symlink, file(FileKind::Delete, "/e")])
        .verify()
        .is_empty());
}

#[test]
fn verify_reports_all_errors() {
    let mut copy = file(FileKind::Copy, "/a");
    copy.follow_symlinks = Some(true);
    let symlink = file(FileKind::Symlink, "/b");
    let mut delete = file(FileKind::Delete, "/c");
    delete.source = Some(PathBuf::from("/d"));
    let errors = manifest_with(vec![copy, symlink, delete]).verify();
    assert_eq!(errors.len(), 4);
    assert!(errors.contains(&VerifyError {
        target: PathBuf::from("/a"),
        kind: FileKind::Copy,
        violation: Violation::MissingSource,
    }));
    assert!(errors.contains(&VerifyError {
        target: PathBuf::from("/a"),
        kind: FileKind::Copy,
        violation: Violation::UnexpectedFollowSymlinks,
    }));
    assert!(errors.contains(&VerifyError {
        target: PathBuf::from("/b"),
        kind: FileKind::Symlink,
        violation: Violation::MissingSource,
    }));
    assert!(errors.contains(&VerifyError {
        target: PathBuf::from("/c"),
        kind: FileKind::Delete,
        violation: Violation::UnexpectedSource,
    }));
}

#[test]
fn a_symlink_may_ignore_modification() {
    let mut symlink = file(FileKind::Symlink, "/a");
    symlink.source = Some(PathBuf::from("/b"));
    symlink.ignore_modification = Some(true);
    symlink.follow_symlinks = Some(false);
    assert!(manifest_with(vec![symlink]).verify().is_empty());
}

#[test]
fn verify_errors_in_words() {
    let errors = manifest_with(vec![file(FileKind::Copy, "/a")]).verify();
    assert_eq!(
        errors[0].message(),
        "file '/a' of type 'copy' requires a source"
    );
}

#[test]
fn versions_up_to_the_current_one_are_read() {
    for version in 0..4 {
        let text = format!("{{\"files\":[],\"version\":{version}}}");
        assert!(read(&text, false).is_ok());
    }
    assert_eq!(
        check_version(VersionField::Number(4)),
        Err(ReadError::VersionTooNew { manifest: 4 })
    );
}

#[test]
fn versions_that_are_none() {
    assert_eq!(find_version(br#"{"version": 3}"#), VersionField::Number(3));
    assert_eq!(find_version(br#"{"versions": 3}"#), VersionField::Missing);
    assert_eq!(find_version(br#"{"version": -1}"#), VersionField::NotANumber);
    assert_eq!(find_version(br#"{"version": "3"}"#), VersionField::NotANumber);
    assert_eq!(find_version(b"[3]"), VersionField::Missing);
    let words = serde_json::from_str::<serde_json::Value>("{").unwrap_err().to_string();
    assert_eq!(find_version(b"{"), VersionField::NotJson(words.clone()));
    assert_eq!(
        read("{", false).unwrap_err(),
        ReadError::Io(ReadFault::Syntax(words))
    );
    assert!(matches!(
        read("{}", false),
        Err(ReadError::Io(ReadFault::NoVersion))
    ));
    assert!(matches!(
        read(r#"{"version": null}"#, false),
        Err(ReadError::Io(ReadFault::BadVersion))
    ));
    assert!(matches!(
        read(r#"{"version": 3}"#, false),
        Err(ReadError::Io(ReadFault::Shape(reason))) if reason == "no manifest"
    ));
}

#[test]
fn a_newer_manifest_is_too_new_whatever_its_shape() {
    assert!(matches!(
        read(r#"{"version": 17, "entries": 1}"#, true),
        Err(ReadError::VersionTooNew { manifest: 17 })
    ));
}

#[test]
fn impure_paths_are_left_out() {
    let text = r#"{"version": 3, "files": [
        {"type": "delete", "target": "/a"},
        {"type": "delete", "target": "relative"},
        {"type": "delete", "target": "/a/../b"},
        {"type": "copy", "target": "/c", "source": "./d"},
        {"type": "copy", "target": "/c", "source": "/e/../d"},
        {"type": "copy", "target": "/c", "source": "/d"}]}"#;
    let m = read(text, false).unwrap();
    let targets: Vec<&PathBuf> = m.files.iter().map(|f| &f.target).collect();
    assert_eq!(targets, vec![&PathBuf::from("/a"), &PathBuf::from("/c")]);
    assert!(!m.impure);
    assert_eq!(
        parse(text).unwrap().ignored_messages(),
        vec![
            "delete with target 'relative' is not absolute, ignoring.",
            "delete with target '/a/../b' is not absolute, ignoring.",
            "copy with target '/c' is not absolute, ignoring.",
            "copy with target '/c' is not absolute, ignoring.",
        ]
    );
    assert!(m.ignored_messages().is_empty());
}

#[test]
fn impure_mode_keeps_relative_paths() {
    let text = r#"{"version": 3, "files": [
        {"type": "copy", "target": "./a", "source": "../b"}]}"#;
    let m = read(text, true).unwrap();
    assert_eq!(m.files[0].target, PathBuf::from("./a"));
    assert_eq!(m.files[0].source, Some(PathBuf::from("../b")));
    assert!(m.impure);
}

#[test]
fn expansion_that_fails_names_the_entry() {
    let text = r#"{"version": 3, "files": [
        {"type": "delete", "target": "/a"},
        {"type": "delete", "target": "/$SMFH_NO_SUCH_VARIABLE/b"}]}"#;
    match read(text, true) {
        Err(ReadError::ExpandFailed { entry, reason }) => {
            assert_eq!(entry, 1);
            assert!(reason.contains("SMFH_NO_SUCH_VARIABLE"));
        }
        _ => panic!("the path was expanded"),
    }
}

#[test]
fn expansion() {
    assert_eq!(expand(&PathBuf::from("/a/b")), Ok(PathBuf::from("/a/b")));
    assert_eq!(expand(&PathBuf::from("/a/~")), Ok(PathBuf::from("/a/~")));
    assert!(expand(&PathBuf::from("/$SMFH_NO_SUCH_VARIABLE")).is_err());
    assert_eq!(
        expand(&PathBuf::from("/$$/x")).map(|p| p.bytes),
        Ok(b"/$/x".to_vec())
    );
    assert!(expand(&PathBuf { bytes: vec![0xff] }).is_err());
}

#[test]
fn what_is_not_expanded_is_kept() {
    let home = expand(&PathBuf::from("~/x/y")).unwrap();
    assert!(home.bytes.ends_with(b"/x/y"));
    assert!(expand(&PathBuf::from("~")).is_ok());
    assert_eq!(
        expand(&PathBuf::from("~other/x")),
        Ok(PathBuf::from("~other/x"))
    );
    assert_eq!(
        expand(&PathBuf::from("/a/${SMFH_NO_SUCH_VARIABLE:-b}c/d")),
        Ok(PathBuf::from("/a/bc/d"))
    );
    assert_eq!(
        expand(&PathBuf::from("/a$/${b/c")),
        Ok(PathBuf::from("/a$/${b/c"))
    );
    let text = r#"{"version": 3, "files": [
        {"type": "copy", "target": "~/t", "source": "${SMFH_NO_SUCH_VARIABLE:-/s}/u"}]}"#;
    let m = read(text, true).unwrap();
    assert!(m.files[0].target.bytes.ends_with(b"/t"));
    assert_eq!(m.files[0].source, Some(PathBuf::from("/s/u")));
}

#[test]
fn every_path_is_replaced_by_its_own_expansion() {
    let mut copy = file(FileKind::Copy, "$A");
    copy.source = Some(PathBuf::from("$B"));
    let files = vec![copy, file(FileKind::Delete, "$C")];
    let expansions = vec![
        Expansion {
            source: Some(Ok(PathBuf::from("/b"))),
            target: Ok(PathBuf::from("/a")),
        },
        Expansion {
            source: None,
            target: Ok(PathBuf::from("/c")),
        },
    ];
    let expanded = apply_all_expansions(&files, &expansions).unwrap();
    assert_eq!(expanded[0].target, PathBuf::from("/a"));
    assert_eq!(expanded[0].source, Some(PathBuf::from("/b")));
    assert_eq!(expanded[1].target, PathBuf::from("/c"));
    assert_eq!(expanded[1].source, None);
    let failing = vec![
        Expansion {
            source: Some(Err("source".to_string())),
            target: Err("target".to_string()),
        },
        Expansion {
            source: None,
            target: Err("second".to_string()),
        },
    ];
    assert_eq!(
        apply_all_expansions(&files, &failing).unwrap_err(),
        (0, "source".to_string())
    );
}

#[test]
fn read_errors_in_words() {
    assert_eq!(
        ReadError::VersionTooNew { manifest: 12 }.message(),
        "manifest version too new: program 3, manifest 12"
    );
    assert_eq!(
        ReadError::Io(ReadFault::NoVersion).message(),
        "Failed to get version from manifest"
    );
    assert_eq!(
        ReadError::ExpandFailed {
            entry: 10,
            reason: "why".to_string()
        }
        .message(),
        "why"
    );
}

#[test]
fn octal_modes() {
    assert_eq!(deserialize_octal(None), Ok(None));
    assert_eq!(deserialize_octal(Some("644")), Ok(Some(0o644)));
    assert_eq!(deserialize_octal(Some("+0755")), Ok(Some(0o755)));
    assert_eq!(deserialize_octal(Some("37777777777")), Ok(Some(u32::MAX)));
    for mode in [0, 7, 8, 0o644, 0o7777, u32::MAX] {
        assert_eq!(octal_text(mode), format!("{mode:o}"));
        assert_eq!(deserialize_octal(Some(&octal_text(mode))), Ok(Some(mode)));
    }
    for wrong in ["", "+", "8", "-1", "0o7", " 7", "40000000000"] {
        assert!(deserialize_octal(Some(wrong)).is_err());
        assert!(u32::from_str_radix(wrong, 8).is_err());
    }
}

#[test]
fn settings_left_out_of_a_written_manifest() {
    assert!(is_false(&None) && is_false(&Some(false)) && !is_false(&Some(true)));
    assert!(is_true(&None) && is_true(&Some(true)) && !is_true(&Some(false)));
}

#[test]
fn a_written_manifest_reads_back() {
    let mut copy = file(FileKind::Copy, "/a");
    copy.source = Some(PathBuf::from("/b"));
    copy.permissions = Some(0o4755);
    copy.deactivate = Some(true);
    copy.ignore_modification = Some(false);
    let mut link = file(FileKind::Symlink, "/c");
    link.source = Some(PathBuf::from("/d"));
    link.follow_symlinks = Some(false);
    let mut manifest = manifest_with(vec![copy, link]);
    manifest.clobber_by_default = Some(true);
    let written = manifest.written();
    assert_eq!(written.files[0].permissions.as_deref(), Some("4755"));
    assert_eq!(written.files[0].deactivate, None);
    let said = written.said();
    let back = Manifest::read(br#"{"version": 3}"#, said, false).unwrap();
    assert_eq!(back.files.len(), 2);
    assert_eq!(back.files[0].permissions, Some(0o4755));
    assert_eq!(back.files[0].source, Some(PathBuf::from("/b")));
    assert_eq!(back.files[0].ignore_modification, None);
    assert_eq!(back.files[1].target, PathBuf::from("/c"));
    assert_eq!(back.files[1].follow_symlinks, Some(false));
    assert_eq!(back.clobber_by_default, Some(true));
    assert_eq!(back.version, 3);
    let mut wrong = manifest.written();
    wrong.files[1].permissions = Some("9".to_string());
    assert_eq!(wrong.said().err().unwrap(), "permissions are no octal number");
}

#[test]
fn sorting_is_stable_and_puts_parents_first() {
    let mut m = manifest_with(vec![
        file(FileKind::Delete, "/z"),
        file(FileKind::Directory, "/a/b/c"),
        file(FileKind::Copy, "/two"),
        file(FileKind::Copy, "/one"),
        file(FileKind::Directory, "/a"),
        file(FileKind::Symlink, "/s"),
        file(FileKind::Directory, "/a/b"),
        file(FileKind::Modify, "/m"),
    ]);
    m.sort();
    let order: Vec<PathBuf> = m.files.iter().map(|f| f.target.clone()).collect();
    let expected: Vec<PathBuf> = ["/a", "/a/b", "/a/b/c", "/two", "/one", "/s", "/m", "/z"]
        .iter()
        .map(|t| PathBuf::from(t))
        .collect();
    assert_eq!(order, expected);
}

#[test]
fn entries_are_compared_by_what_they_ask_for() {
    let a = file(FileKind::Copy, "/a//b/");
    let b = file(FileKind::Copy, "/a/./b");
    assert!(a == b);
    let mut c = b.clone();
    c.uid = Some(1);
    assert!(a != c);
    assert!(file(FileKind::Copy, "/x") != file(FileKind::Symlink, "/x"));
}

#[test]
fn merging_nothing_fails() {
    assert!(merge_files_from_manifests(Vec::new()).is_err());
}

#[test]
fn merging_overrides_whole_entries() {
    let mut left = file(FileKind::Copy, "/a");
    left.source = Some(PathBuf::from("/left"));
    left.uid = Some(1);
    let mut right = file(FileKind::Copy, "/a");
    right.source = Some(PathBuf::from("/right"));
    let other = file(FileKind::Delete, "/a");
    let mut first = manifest_with(vec![left, other.clone()]);
    first.version = 1;
    let mut second = manifest_with(vec![right.clone()]);
    second.clobber_by_default = Some(true);
    let merged = merge_files_from_manifests(vec![first, second]).unwrap();
    assert_eq!(merged.files, vec![right, other]);
    assert_eq!(merged.version, 3);
    assert_eq!(merged.clobber_by_default, Some(true));
}

#[test]
fn splitting_two_manifests() {
    let kept = file(FileKind::Delete, "/kept");
    let gone = file(FileKind::Delete, "/gone");
    let was = file(FileKind::Directory, "/changed");
    let mut is = file(FileKind::Copy, "/changed/");
    is.source = Some(PathBuf::from("/s"));
    let fresh = file(FileKind::Modify, "/fresh");
    let parts = split_files(
        &vec![kept.clone(), gone.clone(), was.clone()],
        vec![is.clone(), kept.clone(), fresh.clone()],
    );
    assert_eq!(parts.removed, vec![gone]);
    assert_eq!(parts.updated, vec![(was, is)]);
    assert_eq!(parts.same, vec![kept]);
    assert_eq!(parts.fresh, vec![fresh]);
}
