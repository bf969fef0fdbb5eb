//! Paths, hashes, names, messages, and how the program ends.
use smfh::action::{hash_file, Failure, Fault};
use smfh::cli::{
    activation_exit, deactivation_exit, diff_exit, handle_read_error, read_or_exit, verify,
    Subcommands,
};
use smfh::diff::{DiffError, OldManifest};
use smfh::manifest::{File, FileKind, Manifest};
use smfh::path::{Component, PathBuf};
use smfh::read::{ReadError, ReadFault};
use smfh::temporary::pick_temporary;
use smfh::text::{decimal_text, display};
use smfh::VERSION;

const PATHS: [&str; 22] = [
    "", "/", "//", ".", "..", "./", "./a", "a", "a/", "a/.", "a/./b", "a//b", "/a", "/a/", "/a/b",
    "/a/../b", "../a", "/..", ".a", "...", "./..", "/a/b//c/.",
];

fn text(path: &PathBuf) -> String {
    String::from_utf8(path.bytes.clone()).unwrap()
}

#[test]
fn components_are_those_of_the_standard_library() {
    for path in PATHS {
        let ours: Vec<String> = PathBuf::from(path)
            .components()
            .iter()
            .map(|c| match c {
                Component::Root => "/".to_string(),
                Component::Current => ".".to_string(),
                Component::Parent => "..".to_string(),
                Component::Name(name) => String::from_utf8(name.clone()).unwrap(),
            })
            .collect();
        let theirs: Vec<String> = std::path::Path::new(path)
            .components()
            .map(|c| c.as_os_str().to_str().unwrap().to_string())
            .collect();
        assert_eq!(ours, theirs, "{path}");
    }
}

#[test]
fn path_parts_are_those_of_the_standard_library() {
    for path in PATHS {
        let ours = PathBuf::from(path);
        let theirs = std::path::Path::new(path);
        assert_eq!(ours.is_absolute(), theirs.is_absolute(), "{path}");
        assert_eq!(ours.depth(), theirs.ancestors().count() as u128, "{path}");
        assert_eq!(
            ours.file_name().map(|n| String::from_utf8(n).unwrap()),
            theirs.file_name().map(|n| n.to_str().unwrap().to_string()),
            "{path}"
        );
        assert_eq!(ours.parent().is_some(), theirs.parent().is_some(), "{path}");
        if let (Some(a), Some(b)) = (ours.parent(), theirs.parent()) {
            assert_eq!(std::path::Path::new(&text(&a)), b, "{path}");
        }
        for name in ["x", "/x", "x/y"] {
            assert_eq!(
                std::path::Path::new(&text(&ours.join(&name.as_bytes().to_vec()))),
                theirs.join(name),
                "{path}"
            );
        }
        assert_eq!(
            std::path::Path::new(&text(&ours.with_file_name(&b"x".to_vec()))),
            theirs.with_file_name("x"),
            "{path}"
        );
        for other in PATHS {
            assert_eq!(
                ours == PathBuf::from(other),
                theirs == std::path::Path::new(other),
                "{path} {other}"
            );
        }
    }
}

#[test]
fn hashes_are_blake3() {
    let digest = hash_file(Some(b"")).unwrap();
    let hex: String = digest.bytes.iter().map(|b| format!("{b:02x}")).collect();
    assert_eq!(
        hex,
        "af1349b9f5f9a1a6a0404dea36dcc9499bcb25c9adc112b7cc9a93cae41f3262"
    );
    let same = hash_file(Some(b"")).unwrap();
    let other = hash_file(Some(b"x")).unwrap();
    assert!(digest.same(&same));
    assert!(!digest.same(&other));
    assert!(hash_file(None).is_none());
}

#[test]
fn temporary_paths_are_random_names_beside_the_target() {
    let target = PathBuf::from("/a/b");
    let one = pick_temporary(&target);
    let other = pick_temporary(&target);
    assert!(one != other);
    for path in [one, other] {
        let name = path.file_name().unwrap();
        assert_eq!(name.len(), 16);
        assert!(name.iter().all(|b| b.is_ascii_alphanumeric()));
        assert_eq!(path.parent(), target.parent());
    }
}

#[test]
fn paths_that_are_not_text_are_shown_all_the_same() {
    assert_eq!(
        display(&PathBuf {
            bytes: vec![b'a', 0xff]
        }),
        "a\u{fffd}"
    );
    assert_eq!(display(&PathBuf::from("/\u{e4}")), "/\u{e4}");
}

#[test]
fn numbers_in_decimal() {
    for number in [0, 7, 10, 99, 100, 12345, u64::MAX] {
        assert_eq!(decimal_text(number), number.to_string());
    }
}

#[test]
fn failures_in_words() {
    let target = PathBuf::from("/t");
    let all = [
        (
            Failure::Io(Fault::NotFound),
            "No such file or directory (os error 2)",
        ),
        (Failure::Io(Fault::Other), "input/output error"),
        (
            Failure::Io(Fault::Mismatch),
            "the reply does not belong to the action",
        ),
        (Failure::MissingSource, "File '/t' missing_source"),
        (Failure::NoParent, "Failed to get parent directory"),
        (Failure::NoFileName, "Failed to get file name of file '/t'"),
        (Failure::FileInTheWay, "File in way of '/t'"),
        (
            Failure::DoesNotExist,
            "Can't modify file '/t', file does not exist",
        ),
        (Failure::Modified, "File is not the same as expected"),
        (Failure::NotADirectory, "File is not directory"),
    ];
    for (failure, words) in all {
        assert_eq!(failure.message(&target), words);
    }
    let system = std::io::Error::from_raw_os_error(13).to_string();
    assert_eq!(Failure::Io(Fault::Os(13)).message(&target), system);
    assert_eq!(Fault::Os(13).words(), system);
    assert_eq!(Failure::Io(Fault::Os(13)).told(&target, "no"), "no");
}

#[test]
fn diff_errors_in_words() {
    assert_eq!(
        DiffError::OldManifestMissing.message(),
        "old manifest does not exist"
    );
    assert_eq!(
        DiffError::ProtectedTargets(vec![PathBuf::from("/a"), PathBuf::from("/b")]).message(),
        "2 target(s) differ from the old manifest while clobber is disabled:\n  /a\n  /b"
    );
    assert_eq!(
        DiffError::ActivationFailed(vec![(PathBuf::from("/a"), "why".to_string())]).message(),
        "1 file(s) failed to activate/deactivate:\n  /a: why"
    );
    assert_eq!(
        DiffError::OldManifestRead(ReadError::Io(ReadFault::Shape("why".to_string()))).message(),
        "Failed to deserialize manifest"
    );
    assert_eq!(
        DiffError::Other(Fault::Os(5)).message(),
        std::io::Error::from_raw_os_error(5).to_string()
    );
}

#[test]
fn exit_codes_of_reading() {
    let too_new = handle_read_error(ReadError::VersionTooNew { manifest: 9 });
    assert_eq!(too_new.code, 2);
    assert_eq!(
        too_new.messages,
        vec!["Program version: '3' Manifest version: '9'\n Manifest version is newer, exiting!"]
    );
    let no_json = handle_read_error(ReadError::Io(ReadFault::Syntax("why".to_string())));
    assert_eq!(no_json.code, 3);
    assert_eq!(
        no_json.messages,
        vec!["Failed to deserialize manifest: why"]
    );
    let shape = ReadError::Io(ReadFault::Shape("why not".to_string()));
    assert_eq!(shape.report(), "Failed to deserialize manifest: why not");
    let open = ReadError::Io(ReadFault::Open(Fault::Os(13)));
    assert_eq!(open.told("no"), "Failed to open manifest: no");
    assert_eq!(
        handle_read_error(open).messages,
        vec![format!(
            "Failed to open manifest: {}",
            std::io::Error::from_raw_os_error(13)
        )]
    );
    assert_eq!(
        ReadError::Io(ReadFault::NoVersion).report(),
        "Failed to get version from manifest"
    );
    assert_eq!(
        handle_read_error(ReadError::ExpandFailed {
            entry: 0,
            reason: "why".to_string()
        })
        .code,
        4
    );
    assert_eq!(
        read_or_exit(Err(Fault::NotFound), Err(String::new()), false)
            .unwrap_err()
            .messages,
        vec!["Failed to open manifest: No such file or directory (os error 2)"]
    );
    assert_eq!(
        read_or_exit(Ok(br#"{"version": 9}"#), Err(String::new()), false)
            .unwrap_err()
            .code,
        2
    );
    assert_eq!(VERSION, 3);
}

fn empty(files: Vec<File>) -> Manifest {
    Manifest {
        files,
        clobber_by_default: None,
        version: 3,
        impure: false,
    }
}

#[test]
fn a_manifest_that_does_not_comply_ends_the_program() {
    assert!(verify(empty(Vec::new())).is_ok());
    let file = File {
        source: None,
        target: PathBuf::from("/a"),
        kind: FileKind::Symlink,
        clobber: None,
        permissions: None,
        uid: None,
        gid: None,
        deactivate: None,
        follow_symlinks: None,
        ignore_modification: None,
    };
    let exit = verify(empty(vec![file])).unwrap_err();
    assert_eq!(exit.code, 3);
    assert_eq!(
        exit.messages,
        vec!["file '/a' of type 'symlink' requires a source"]
    );
}

#[test]
fn exit_codes_of_failures() {
    assert!(activation_exit(&Vec::new()).is_none());
    let failures = vec![(PathBuf::from("/a"), Failure::Modified)];
    let exit = deactivation_exit(&failures).unwrap();
    assert_eq!(exit.code, 1);
    assert_eq!(
        exit.messages,
        vec!["Failed to deactivate /a: File is not the same as expected"]
    );
    let exit = activation_exit(&failures).unwrap();
    assert_eq!(
        exit.messages,
        vec!["Failed to activate /a: File is not the same as expected"]
    );
}

#[test]
fn exit_codes_of_diff() {
    let old = PathBuf::from("/old.json");
    let missing = diff_exit(&DiffError::OldManifestMissing, &old);
    assert_eq!(missing.code, 3);
    assert_eq!(
        missing.messages,
        vec!["Old manifest /old.json does not exist and `--fallback` is not set"]
    );
    let newer = DiffError::OldManifestRead(ReadError::VersionTooNew { manifest: 4 });
    assert_eq!(diff_exit(&newer, &old).code, 2);
    let refused = DiffError::ProtectedTargets(vec![PathBuf::from("/a")]);
    assert_eq!(diff_exit(&refused, &old).code, 1);
    let failed = DiffError::ActivationFailed(vec![(PathBuf::from("/a"), "why".to_string())]);
    assert_eq!(diff_exit(&failed, &old).code, 1);
    assert_eq!(
        diff_exit(&failed, &old).messages,
        vec!["Failed to activate /a: why"]
    );
    assert_eq!(diff_exit(&DiffError::Other(Fault::Other), &old).code, 1);
}

#[test]
fn an_old_manifest_that_cannot_be_had() {
    let unreadable = OldManifest::Unreadable(ReadError::Io(ReadFault::NoVersion));
    let diff = empty(Vec::new()).diff(unreadable, "", true);
    assert!(diff.action().is_none());
    assert!(diff.warnings().is_empty());
    assert!(matches!(
        diff.result(),
        Some(Err(DiffError::OldManifestRead(ReadError::Io(
            ReadFault::NoVersion
        ))))
    ));
    let diff = empty(Vec::new()).diff(OldManifest::Unprobed(Fault::Os(13)), "", true);
    assert!(matches!(
        diff.result(),
        Some(Err(DiffError::Other(Fault::Os(13))))
    ));
}

#[test]
fn commands_that_verify_first() {
    let manifest = || PathBuf::from("/m");
    let activate = Subcommands::Activate {
        manifest: manifest(),
        prefix: ".backup-".to_string(),
    };
    let diff = Subcommands::Diff {
        prefix: String::new(),
        fallback: false,
        manifest: manifest(),
        old_manifest: manifest(),
    };
    assert!(activate.verifies());
    assert_eq!(activate.manifest(), &PathBuf::from("/m"));
    assert!(Subcommands::Verify {
        manifest: manifest()
    }
    .verifies());
    assert!(Subcommands::Clean {
        manifest: manifest()
    }
    .verifies());
    assert!(!Subcommands::Deactivate {
        manifest: manifest()
    }
    .verifies());
    assert!(!diff.verifies());
}
