use emuman::db::{DirEntry, Game, GamesMap, PartsMap};
use emuman::failures::VerifyFailure;
use emuman::part::Part;
use emuman::reconcile::{
    cleanup_apply, cleanup_plan, reconcile_decide, reconcile_update, CleanupAction, EntryState,
    Extracted, StepDecision,
};
use emuman::sources::{RomSource, RomSources, ZipPart};
use emuman::{IoError, Status};

fn rom(tag: u8) -> Part {
    Part::Rom { sha1: [tag; 20] }
}

fn game(name: &str, parts: Vec<(&str, Part)>) -> Game {
    let mut map = PartsMap::new();
    for (n, p) in parts {
        map.insert(n.to_string(), p);
    }
    Game {
        name: name.to_string(),
        description: String::new(),
        creator: String::new(),
        year: String::new(),
        status: Status::Working,
        is_device: false,
        parts: map,
        devices: Vec::new(),
    }
}

#[test]
fn missing_when_directory_empty() {
    let g = game("g", vec![("foo.bin", rom(1))]);
    let listing: Vec<DirEntry> = Vec::new();
    let failures = g.verify("root/g", Some(&listing));
    assert_eq!(failures.len(), 1);
    match &failures[0] {
        VerifyFailure::Missing { path, part } => {
            assert_eq!(path, "root/g/foo.bin");
            assert!(*part == rom(1));
        }
        _ => panic!("expected a missing failure"),
    }
}

#[test]
fn absent_directory_with_empty_manifest_is_clean() {
    let g = game("g", vec![]);
    let failures = g.verify("root/g", None);
    assert!(failures.is_empty());
}

#[test]
fn absent_directory_with_manifest_is_all_missing() {
    let g = game("g", vec![("a", rom(1)), ("b", rom(2))]);
    let failures = g.verify("root/g", None);
    assert_eq!(failures.len(), 2);
    assert!(failures.iter().all(|f| matches!(f, VerifyFailure::Missing { .. })));
}

#[test]
fn correct_file_passes_and_extra_is_flagged() {
    let g = game("g", vec![("a", rom(1))]);
    let listing = vec![
        DirEntry { name: "a".to_string(), path: "root/g/a".to_string(), ident: Ok(rom(1)) },
        DirEntry { name: "b".to_string(), path: "root/g/b".to_string(), ident: Ok(rom(9)) },
    ];
    let failures = g.verify("root/g", Some(&listing));
    assert_eq!(failures.len(), 1);
    match &failures[0] {
        VerifyFailure::Extra { path, part } => {
            assert_eq!(path, "root/g/b");
            assert!(matches!(part, Ok(p) if *p == rom(9)));
        }
        _ => panic!("expected an extra failure"),
    }
}

#[test]
fn wrong_identity_is_bad_and_unreadable_is_error() {
    let g = game("g", vec![("a", rom(1)), ("b", rom(2))]);
    let listing = vec![
        DirEntry { name: "a".to_string(), path: "root/g/a".to_string(), ident: Ok(rom(7)) },
        DirEntry {
            name: "b".to_string(),
            path: "root/g/b".to_string(),
            ident: Err(IoError::PermissionDenied),
        },
    ];
    let failures = g.verify("root/g", Some(&listing));
    assert_eq!(failures.len(), 2);
    assert!(matches!(
        &failures[0],
        VerifyFailure::Bad { expected, actual, .. } if *expected == rom(1) && *actual == rom(7)
    ));
    assert!(matches!(
        &failures[1],
        VerifyFailure::Error { err: IoError::PermissionDenied, .. }
    ));
}

#[test]
fn decide_keeps_correct_files() {
    let sources = RomSources::new();
    let d = reconcile_decide(&sources, &rom(1), &"t".to_string(), EntryState::Correct);
    assert!(matches!(d, StepDecision::Keep));
}

#[test]
fn decide_records_missing_without_source() {
    let sources = RomSources::new();
    let d = reconcile_decide(&sources, &rom(1), &"root/g/a".to_string(), EntryState::Absent);
    match d {
        StepDecision::Record { failure: VerifyFailure::Missing { path, part } } => {
            assert_eq!(path, "root/g/a");
            assert!(part == rom(1));
        }
        _ => panic!("expected a recorded missing failure"),
    }
}

#[test]
fn bad_with_source_available_is_replaced() {
    // The reconciler deletes the wrong file first and extracts the source.
    let mut sources = RomSources::new();
    sources.insert(
        rom(1),
        RomSource::File { file: "elsewhere/good.bin".to_string(), has_xattr: false },
    );
    let bad = VerifyFailure::Bad {
        path: "root/g/foo.bin".to_string(),
        expected: rom(1),
        actual: rom(2),
    };
    let d = reconcile_decide(
        &sources,
        &rom(1),
        &"root/g/foo.bin".to_string(),
        EntryState::Incorrect { failure: bad },
    );
    match d {
        StepDecision::Extract { source, remove_first } => {
            assert!(remove_first);
            assert!(matches!(source, RomSource::File { ref file, .. } if file == "elsewhere/good.bin"));
        }
        _ => panic!("expected an extraction"),
    }
}

#[test]
fn bad_without_source_keeps_the_file() {
    // No spurious deletion: the failure is recorded, nothing is extracted.
    let sources = RomSources::new();
    let bad = VerifyFailure::Bad {
        path: "root/g/foo.bin".to_string(),
        expected: rom(1),
        actual: rom(2),
    };
    let d = reconcile_decide(
        &sources,
        &rom(1),
        &"root/g/foo.bin".to_string(),
        EntryState::Incorrect { failure: bad },
    );
    match d {
        StepDecision::Record { failure: VerifyFailure::Bad { path, .. } } => {
            assert_eq!(path, "root/g/foo.bin");
        }
        _ => panic!("expected the bad failure to be recorded"),
    }
}

#[test]
fn archive_source_is_extracted_by_copy() {
    // A part located inside an archive is materialized by decompression.
    let mut sources = RomSources::new();
    sources.insert(
        rom(3),
        RomSource::ZipFile { file: "archive.zip".to_string(), zip_part: ZipPart::Zip { index: 2 } },
    );
    let d = reconcile_decide(&sources, &rom(3), &"root/g/m".to_string(), EntryState::Absent);
    match d {
        StepDecision::Extract { source, remove_first } => {
            assert!(!remove_first);
            assert!(matches!(
                source,
                RomSource::ZipFile { zip_part: ZipPart::Zip { index: 2 }, .. }
            ));
        }
        _ => panic!("expected an extraction"),
    }
}

#[test]
fn update_after_copy_switches_source_to_target() {
    let mut sources = RomSources::new();
    sources.insert(rom(1), RomSource::File { file: "old".to_string(), has_xattr: false });
    let write_xattr = reconcile_update(&mut sources, &rom(1), &"new".to_string(), Extracted::Copied);
    assert!(write_xattr);
    match sources.get(&rom(1)) {
        Some(RomSource::File { file, has_xattr }) => {
            assert_eq!(file, "new");
            assert!(*has_xattr);
        }
        _ => panic!("expected the source to point at the new file"),
    }
}

#[test]
fn update_after_link_keeps_source_and_shares_attribute() {
    let mut sources = RomSources::new();
    sources.insert(rom(1), RomSource::File { file: "old".to_string(), has_xattr: true });
    let write_xattr =
        reconcile_update(&mut sources, &rom(1), &"new".to_string(), Extracted::Linked {
            has_xattr: true,
        });
    assert!(!write_xattr);
    match sources.get(&rom(1)) {
        Some(RomSource::File { file, .. }) => assert_eq!(file, "old"),
        _ => panic!("expected the source to stay"),
    }
    let write_xattr2 =
        reconcile_update(&mut sources, &rom(1), &"new".to_string(), Extracted::Linked {
            has_xattr: false,
        });
    assert!(write_xattr2);
}

#[test]
fn extra_promoted_to_rename() {
    // Extra/Missing annihilation: the cleanup pass plans one rename.
    let failures = vec![
        VerifyFailure::Missing { path: "root/g/a".to_string(), part: rom(5) },
        VerifyFailure::Extra { path: "root/g/b".to_string(), part: Ok(rom(5)) },
    ];
    let plan = cleanup_plan(&failures);
    assert!(plan.kept.is_empty());
    assert_eq!(plan.actions.len(), 1);
    match &plan.actions[0] {
        CleanupAction::RenameToMissing { from, to, part } => {
            assert_eq!(from, "root/g/b");
            assert_eq!(to, "root/g/a");
            assert!(*part == rom(5));
        }
        _ => panic!("expected a rename"),
    }
    let out = cleanup_apply(plan.kept, &plan.actions, &vec![true]);
    assert!(out.is_empty());
}

#[test]
fn bad_claims_extra_with_unlink_first() {
    let failures = vec![
        VerifyFailure::Bad { path: "g/a".to_string(), expected: rom(5), actual: rom(6) },
        VerifyFailure::Extra { path: "g/b".to_string(), part: Ok(rom(5)) },
    ];
    let plan = cleanup_plan(&failures);
    assert!(plan.kept.is_empty());
    assert_eq!(plan.actions.len(), 1);
    assert!(matches!(
        &plan.actions[0],
        CleanupAction::ReplaceBad { from, to, .. } if from == "g/b" && to == "g/a"
    ));
}

#[test]
fn unclaimed_extras_are_deleted() {
    let failures = vec![VerifyFailure::Extra { path: "g/x".to_string(), part: Ok(rom(9)) }];
    let plan = cleanup_plan(&failures);
    assert!(plan.kept.is_empty());
    assert_eq!(plan.actions.len(), 1);
    assert!(matches!(
        &plan.actions[0],
        CleanupAction::Delete { path, part } if path == "g/x" && *part == rom(9)
    ));
}

#[test]
fn bad_with_no_matching_extra_never_touches_the_file() {
    // No spurious deletion at the cleanup level.
    let failures = vec![
        VerifyFailure::Bad { path: "g/a".to_string(), expected: rom(5), actual: rom(6) },
        VerifyFailure::Extra { path: "g/b".to_string(), part: Ok(rom(7)) },
    ];
    let plan = cleanup_plan(&failures);
    assert_eq!(plan.kept.len(), 1);
    assert!(matches!(&plan.kept[0], VerifyFailure::Bad { path, .. } if path == "g/a"));
    for action in &plan.actions {
        match action {
            CleanupAction::ReplaceBad { to, .. } => assert_ne!(to, "g/a"),
            CleanupAction::Delete { path, .. } => assert_ne!(path, "g/a"),
            CleanupAction::RenameToMissing { .. } => panic!("nothing was missing"),
        }
    }
}

#[test]
fn failed_actions_fall_back_to_the_original_failures() {
    let failures = vec![
        VerifyFailure::Missing { path: "g/a".to_string(), part: rom(5) },
        VerifyFailure::Extra { path: "g/b".to_string(), part: Ok(rom(5)) },
        VerifyFailure::Extra { path: "g/c".to_string(), part: Ok(rom(8)) },
    ];
    let plan = cleanup_plan(&failures);
    assert_eq!(plan.actions.len(), 2);
    let out = cleanup_apply(plan.kept, &plan.actions, &vec![false, false]);
    assert_eq!(out.len(), 2);
    assert!(matches!(&out[0], VerifyFailure::Missing { path, .. } if path == "g/a"));
    assert!(matches!(&out[1], VerifyFailure::Extra { path, part: Ok(p) } if path == "g/c" && *p == rom(8)));
}

#[test]
fn error_failures_pass_through_cleanup() {
    let failures = vec![
        VerifyFailure::Error { path: "g/e".to_string(), err: IoError::Other },
        VerifyFailure::Extra { path: "g/b".to_string(), part: Err(IoError::Other) },
    ];
    let plan = cleanup_plan(&failures);
    assert!(plan.actions.is_empty());
    assert_eq!(plan.kept.len(), 2);
}

#[test]
fn reconcile_of_consistent_directory_does_nothing() {
    // Idempotence: a second run over a repaired directory plans no work.
    let g = game("g", vec![("a", rom(1)), ("b", rom(2))]);
    let listing = vec![
        DirEntry { name: "a".to_string(), path: "r/g/a".to_string(), ident: Ok(rom(1)) },
        DirEntry { name: "b".to_string(), path: "r/g/b".to_string(), ident: Ok(rom(2)) },
    ];
    let failures = g.verify("r/g", Some(&listing));
    assert!(failures.is_empty());
    let sources = RomSources::new();
    for (name, part) in [("a", rom(1)), ("b", rom(2))] {
        let d = reconcile_decide(
            &sources,
            &part,
            &format!("r/g/{}", name),
            EntryState::Correct,
        );
        assert!(matches!(d, StepDecision::Keep));
    }
    let plan = cleanup_plan(&failures);
    assert!(plan.actions.is_empty());
    assert!(plan.kept.is_empty());
}

#[test]
fn games_map_queries() {
    let mut games = GamesMap::new();
    games.insert("pac".to_string(), game("pac", vec![("a", rom(1))]));
    assert!(games.get("pac").is_some());
    assert!(games.get("other").is_none());
}

#[test]
fn rename_plan_moves_misfiled_parts() {
    let g = game("g", vec![("right.bin", rom(1))]);
    let entries = vec![
        ("t/g/wrong.bin".to_string(), Ok(rom(1))),
        ("t/g/other.bin".to_string(), Ok(rom(9))),
        ("t/g/broken.bin".to_string(), Err(emuman::IoError::Other)),
    ];
    let moves = g.rename_plan("t/g", &entries);
    assert_eq!(moves.len(), 1);
    assert_eq!(moves[0].0, "t/g/wrong.bin");
    assert_eq!(moves[0].1, "t/g/right.bin");
}

#[test]
fn rename_plan_prefers_the_last_expectation() {
    let g = game("g", vec![("a.bin", rom(1)), ("b.bin", rom(1))]);
    let entries = vec![("t/g/x.bin".to_string(), Ok(rom(1)))];
    let moves = g.rename_plan("t/g", &entries);
    assert_eq!(moves.len(), 1);
    assert_eq!(moves[0].1, "t/g/b.bin");
}

#[test]
fn with_path_changes_only_the_path() {
    let f: VerifyFailure<String> = VerifyFailure::Bad {
        path: "old".to_string(),
        expected: rom(1),
        actual: rom(2),
    };
    match f.with_path(7u32) {
        VerifyFailure::Bad { path, expected, actual } => {
            assert_eq!(path, 7);
            assert!(expected == rom(1));
            assert!(actual == rom(2));
        }
        _ => panic!("expected the variant to be kept"),
    }
}

#[test]
fn extra_constructor_carries_the_identity() {
    let f = VerifyFailure::extra("p".to_string(), Ok(rom(3)));
    assert!(matches!(f, VerifyFailure::Extra { ref path, part: Ok(p) } if path == "p" && p == rom(3)));
}

#[test]
fn manifest_lookup_by_name() {
    let g = game("g", vec![("a", rom(1)), ("b", rom(2))]);
    assert!(*g.parts.get("a").unwrap() == rom(1));
    assert!(*g.parts.get("b").unwrap() == rom(2));
    assert!(g.parts.get("c").is_none());
    assert_eq!(g.parts.len(), 2);
}

#[test]
fn disk_header_recognition() {
    let mut data = Vec::new();
    data.extend_from_slice(b"MComprHD");
    data.extend_from_slice(&[0, 0, 0, 0]);
    data.extend_from_slice(&[0, 0, 0, 4]);
    data.extend_from_slice(&[0u8; 32]);
    data.extend_from_slice(&[9u8; 20]);
    match Part::disk_from_slice(&data) {
        Ok(Some(p)) => assert!(p == Part::Disk { sha1: [9u8; 20] }),
        _ => panic!("expected a disk identity"),
    }
    assert!(matches!(Part::disk_from_slice(b"not a disk image"), Ok(None)));
}
