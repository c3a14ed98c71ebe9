use dsopt::listing::sort_candidates;
use dsopt::safety::Location;
use dsopt::scan::{
    combine, info_for_path, FileFacts, Inspection, ScanEvent, ScanRun, ScannedRoot,
};
use dsopt::tree::{collect_candidates, DirTree};
use dsopt::{
    deduplicate_candidates, format_size, scan, should_skip, Candidate, CandidateKind, FileIdentity,
    ScanResult, ScanState,
};

fn tree(name: &str, size_bytes: u64, children: Vec<DirTree>) -> DirTree {
    DirTree { name: name.as_bytes().to_vec(), size_bytes, children }
}

fn candidate(kind: CandidateKind, path: &str, size_bytes: u64) -> Candidate {
    Candidate { kind, path: path.as_bytes().to_vec(), size_bytes }
}

fn directory(path: &str, identity: Option<FileIdentity>) -> Inspection {
    Inspection {
        location: Some(Location { path: path.as_bytes().to_vec(), is_dir: true }),
        identity,
    }
}

/// Runs a scan over a given tree, in which every candidate is a directory of
/// its own at its own path.
fn scan_tree(root: &str, whole: DirTree) -> ScanResult {
    let mut state = ScanState::default();
    let facts = Some(FileFacts { length: 5, is_dir: true, is_file: false, is_symlink: false });
    info_for_path(root.as_bytes(), &facts, &mut state);
    let request = scan(root.as_bytes().to_vec(), 2).unwrap();
    let walk = request.resolved(Ok(root.as_bytes().to_vec())).unwrap();
    assert_eq!(walk.threads, 2);
    let inspection = walk.walked(Ok(whole)).unwrap();
    let mut inspections = Vec::new();
    for (index, found) in inspection.candidates.iter().enumerate() {
        inspections.push(Inspection {
            location: Some(Location { path: found.path.clone(), is_dir: true }),
            identity: Some(FileIdentity { device: 1, inode: index as u64 }),
        });
    }
    inspection.inspected(inspections, &state)
}

#[test]
fn finds_node_modules_and_target_with_recursive_sizes() {
    let whole = tree(
        "/fixture",
        32,
        vec![
            tree(
                "web",
                12,
                vec![tree(
                    "node_modules",
                    11,
                    vec![tree("pkg", 6, vec![tree("index.js", 5, vec![])])],
                )],
            ),
            tree(
                "rust",
                16,
                vec![tree("target", 14, vec![tree("debug", 8, vec![tree("app", 7, vec![])])])],
            ),
        ],
    );
    let result = scan_tree("/fixture", whole);
    assert!(result.candidates.iter().any(|candidate| {
        candidate.kind == CandidateKind::NodeModules
            && candidate.path == b"/fixture/web/node_modules".to_vec()
            && candidate.size_bytes >= 5
    }));
    assert!(result.candidates.iter().any(|candidate| {
        candidate.kind == CandidateKind::RustTarget
            && candidate.path == b"/fixture/rust/target".to_vec()
            && candidate.size_bytes >= 7
    }));
    assert_eq!(result.directories_scanned, 1);
    assert_eq!(result.files_scanned, 0);
    assert_eq!(result.bytes_scanned, 5);
}

#[test]
fn folds_nested_candidates_into_their_outermost_parent() {
    let whole = tree(
        "/fixture",
        60,
        vec![tree(
            "app",
            50,
            vec![tree(
                "node_modules",
                40,
                vec![tree(
                    "dep",
                    30,
                    vec![tree(
                        "node_modules",
                        20,
                        vec![tree("inner", 15, vec![tree("index.js", 10, vec![])])],
                    )],
                )],
            )],
        )],
    );
    let result = scan_tree("/fixture", whole);
    assert_eq!(result.candidates.len(), 1);
    assert_eq!(result.candidates[0].path, b"/fixture/app/node_modules".to_vec());
    assert_eq!(result.candidates[0].size_bytes, 40);
}

#[test]
fn results_are_sorted_largest_first() {
    let whole = tree(
        "/fixture",
        30,
        vec![
            tree("small", 3, vec![tree("node_modules", 2, vec![tree("a", 1, vec![])])]),
            tree("large", 23, vec![tree("target", 21, vec![tree("a", 20, vec![])])]),
        ],
    );
    let result = scan_tree("/fixture", whole);
    assert!(result.candidates.len() >= 2);
    assert!(result.candidates[0].size_bytes >= result.candidates[1].size_bytes);
    assert_eq!(result.candidates[0].path, b"/fixture/large/target".to_vec());
}

#[test]
fn rejects_thread_counts_outside_the_supported_range() {
    assert!(scan(b"/tmp".to_vec(), 0).is_err());
    assert!(scan(b"/tmp".to_vec(), 9).is_err());
}

#[test]
fn says_which_thread_counts_are_supported() {
    assert_eq!(scan(b"/tmp".to_vec(), 0).err().unwrap(), "threads must be between 1 and 8");
    assert!(scan(b"/tmp".to_vec(), 1).is_ok());
    assert!(scan(b"/tmp".to_vec(), 8).is_ok());
}

#[test]
fn reports_missing_roots_as_errors() {
    let request = scan(b"/definitely/not/a/real/path".to_vec(), 2).unwrap();
    let outcome = request.resolved(Err("No such file or directory".to_owned()));
    assert!(outcome.is_err());
    assert_eq!(
        outcome.err().unwrap(),
        "cannot access /definitely/not/a/real/path: No such file or directory"
    );
}

#[test]
fn reports_a_walk_that_did_not_take_place() {
    let walk = scan(b"/a".to_vec(), 2).unwrap().resolved(Ok(b"/b".to_vec())).unwrap();
    assert_eq!(walk.root, b"/b".to_vec());
    assert_eq!(walk.walked(Err("no threads".to_owned())).err().unwrap(), "no threads");
}

#[test]
fn skips_macos_data_volume_alias_when_scanning_root() {
    assert!(should_skip(b"/System/Volumes/Data"));
}

#[test]
fn deduplicates_candidates_that_share_a_filesystem_identity() {
    let candidates = vec![
        (
            Candidate {
                kind: CandidateKind::RustTarget,
                path: b"/Users/musichen/project/target".to_vec(),
                size_bytes: 42,
            },
            Some(FileIdentity { device: 7, inode: 99 }),
        ),
        (
            Candidate {
                kind: CandidateKind::RustTarget,
                path: b"/System/Volumes/Data/Users/musichen/project/target".to_vec(),
                size_bytes: 42,
            },
            Some(FileIdentity { device: 7, inode: 99 }),
        ),
    ];

    let unique = deduplicate_candidates(candidates);

    assert_eq!(unique.len(), 1);
    assert_eq!(unique[0].path, b"/Users/musichen/project/target".to_vec());
}

#[test]
fn keeps_candidates_that_have_no_filesystem_identity() {
    let candidates = vec![(
        Candidate {
            kind: CandidateKind::NodeModules,
            path: b"/somewhere/node_modules".to_vec(),
            size_bytes: 7,
        },
        None,
    )];

    let unique = deduplicate_candidates(candidates);

    assert_eq!(unique.len(), 1);
    assert_eq!(unique[0].size_bytes, 7);
    assert_eq!(unique[0].kind, CandidateKind::NodeModules);
}

#[test]
fn formats_human_readable_sizes() {
    assert_eq!(format_size(0), "0 B");
    assert_eq!(format_size(1024), "1.0 KB");
    assert_eq!(format_size(5 * 1024 * 1024 * 1024), "5.0 GB");
}

#[test]
fn keeps_every_candidate_without_identity_among_repetitions() {
    let same = Some(FileIdentity { device: 1, inode: 2 });
    let other_device = Some(FileIdentity { device: 2, inode: 2 });
    let unique = deduplicate_candidates(vec![
        (candidate(CandidateKind::RustTarget, "/a/target", 1), None),
        (candidate(CandidateKind::RustTarget, "/b/target", 2), same),
        (candidate(CandidateKind::RustTarget, "/c/target", 3), None),
        (candidate(CandidateKind::RustTarget, "/d/target", 4), same),
        (candidate(CandidateKind::RustTarget, "/e/target", 5), other_device),
    ]);
    let sizes: Vec<u64> = unique.iter().map(|found| found.size_bytes).collect();
    assert_eq!(sizes, vec![1, 2, 3, 5]);
}

#[test]
fn a_root_that_is_an_artifact_is_its_only_candidate() {
    let whole = tree("/code/target", 9, vec![tree("node_modules", 4, vec![])]);
    let mut candidates = Vec::new();
    collect_candidates(&whole, b"", &mut candidates);
    assert_eq!(candidates, vec![candidate(CandidateKind::RustTarget, "/code/target", 9)]);
}

#[test]
fn collecting_appends_in_the_order_of_the_tree() {
    let whole = tree(
        "/",
        9,
        vec![tree("target", 4, vec![]), tree("targets", 1, vec![]), tree("node_modules", 5, vec![])],
    );
    let mut candidates = vec![candidate(CandidateKind::NodeModules, "/x/node_modules", 1)];
    collect_candidates(&whole, b"", &mut candidates);
    assert_eq!(
        candidates,
        vec![
            candidate(CandidateKind::NodeModules, "/x/node_modules", 1),
            candidate(CandidateKind::RustTarget, "/target", 4),
            candidate(CandidateKind::NodeModules, "/node_modules", 5),
        ]
    );
}

#[test]
fn a_scan_offers_only_what_is_safe_to_delete() {
    let whole = tree(
        "/r",
        100,
        vec![
            tree("a", 1, vec![tree("target", 1, vec![])]),
            tree("b", 2, vec![tree("target", 2, vec![])]),
            tree("c", 3, vec![tree("target", 3, vec![])]),
            tree("d", 4, vec![tree("target", 4, vec![])]),
            tree("e", 5, vec![tree("target", 5, vec![])]),
            tree("f", 6, vec![tree("target", 6, vec![])]),
        ],
    );
    let walk = scan(b"/r".to_vec(), 1).unwrap().resolved(Ok(b"/r".to_vec())).unwrap();
    let inspection = walk.walked(Ok(whole)).unwrap();
    assert_eq!(inspection.candidates.len(), 6);
    let same = Some(FileIdentity { device: 1, inode: 1 });
    let result = inspection.inspected(
        vec![
            directory("/r/a/target", None),
            // A link that leads out of the root.
            directory("/elsewhere/target", None),
            // A path that leads nowhere.
            Inspection { location: None, identity: None },
            // A file.
            Inspection {
                location: Some(Location { path: b"/r/d/target".to_vec(), is_dir: false }),
                identity: None,
            },
            directory("/r/e/target", same),
            // Another name of the directory before.
            directory("/r/e/target", same),
        ],
        &ScanState::default(),
    );
    assert_eq!(
        result.candidates,
        vec![
            candidate(CandidateKind::RustTarget, "/r/e/target", 5),
            candidate(CandidateKind::RustTarget, "/r/a/target", 1),
        ]
    );
}

#[test]
fn equal_sizes_are_listed_by_path() {
    let sorted = sort_candidates(&vec![
        candidate(CandidateKind::RustTarget, "/b/target", 5),
        candidate(CandidateKind::RustTarget, "/a-b/target", 5),
        candidate(CandidateKind::RustTarget, "/a/target", 5),
        candidate(CandidateKind::RustTarget, "/z/target", 6),
    ]);
    let paths: Vec<Vec<u8>> = sorted.into_iter().map(|found| found.path).collect();
    assert_eq!(
        paths,
        vec![
            b"/z/target".to_vec(),
            b"/a/target".to_vec(),
            b"/a-b/target".to_vec(),
            b"/b/target".to_vec(),
        ]
    );
}

#[test]
fn sorts_as_the_standard_library_does() {
    let mut candidates = Vec::new();
    let mut seed: u64 = 7;
    for _ in 0..200 {
        seed = seed.wrapping_mul(6364136223846793005).wrapping_add(1442695040888963407);
        let path = format!("/{}/{}/target", (seed >> 33) % 5, (seed >> 40) % 7);
        candidates.push(candidate(CandidateKind::RustTarget, &path, (seed >> 50) % 9));
    }
    let sorted = sort_candidates(&candidates);
    let mut expected = candidates.clone();
    expected.sort_by(|left, right| {
        let l = std::str::from_utf8(&left.path).unwrap();
        let r = std::str::from_utf8(&right.path).unwrap();
        right
            .size_bytes
            .cmp(&left.size_bytes)
            .then_with(|| std::path::Path::new(l).cmp(std::path::Path::new(r)))
    });
    assert_eq!(sorted, expected);
}

#[test]
fn roots_that_overlap_show_a_path_once() {
    let listed = combine(&vec![
        candidate(CandidateKind::RustTarget, "/a/target", 5),
        candidate(CandidateKind::NodeModules, "/b/node_modules", 9),
        candidate(CandidateKind::RustTarget, "/a/target", 5),
        candidate(CandidateKind::RustTarget, "/a//target", 5),
    ]);
    assert_eq!(
        listed,
        vec![
            candidate(CandidateKind::NodeModules, "/b/node_modules", 9),
            candidate(CandidateKind::RustTarget, "/a/target", 5),
        ]
    );
}

#[test]
fn a_run_goes_through_its_roots_in_order() {
    let mut run = ScanRun::new(vec![b"/a".to_vec(), b"/b".to_vec()]);
    assert_eq!(run.next_root(false), Some(&b"/a".to_vec()));
    assert_eq!(run.next_root(true), None);
    run.absorb(Ok(ScannedRoot {
        root: b"/real/a".to_vec(),
        candidates: vec![candidate(CandidateKind::RustTarget, "/a/target", 1)],
    }));
    assert_eq!(run.next_root(false), Some(&b"/b".to_vec()));
    run.absorb(Ok(ScannedRoot {
        root: b"/b".to_vec(),
        candidates: vec![candidate(CandidateKind::RustTarget, "/b/target", 2)],
    }));
    assert_eq!(run.next_root(false), None);
    match run.finish() {
        ScanEvent::Finished { candidates, roots } => {
            assert_eq!(
                candidates,
                vec![
                    candidate(CandidateKind::RustTarget, "/b/target", 2),
                    candidate(CandidateKind::RustTarget, "/a/target", 1),
                ]
            );
            assert_eq!(roots, vec![b"/real/a".to_vec(), b"/b".to_vec()]);
        }
        _ => panic!("the run did not finish"),
    }
}

#[test]
fn a_run_stops_at_the_first_failure() {
    let mut run = ScanRun::new(vec![b"/a".to_vec(), b"/b".to_vec()]);
    run.absorb(Err("cannot access /a: denied".to_owned()));
    assert_eq!(run.next_root(false), None);
    match run.finish() {
        ScanEvent::Failed(message) => assert_eq!(message, "cannot access /a: denied"),
        _ => panic!("the run did not fail"),
    }
}

#[test]
fn counters_follow_the_walk() {
    let mut state = ScanState::new();
    let directory = Some(FileFacts { length: 4096, is_dir: true, is_file: false, is_symlink: false });
    let info = info_for_path(b"/home", &directory, &mut state);
    assert_eq!((info.size, info.descend), (4096, true));
    let file = Some(FileFacts { length: 10, is_dir: false, is_file: true, is_symlink: false });
    let info = info_for_path(b"/home/a", &file, &mut state);
    assert_eq!((info.size, info.descend), (10, false));
    let link = Some(FileFacts { length: 7, is_dir: false, is_file: false, is_symlink: true });
    let info = info_for_path(b"/home/l", &link, &mut state);
    assert_eq!((info.size, info.descend), (7, false));
    let skipped = Some(FileFacts { length: 3, is_dir: true, is_file: false, is_symlink: false });
    let info = info_for_path(b"/proc/self", &skipped, &mut state);
    assert_eq!((info.size, info.descend), (3, false));
    let info = info_for_path(b"/gone", &None, &mut state);
    assert_eq!((info.size, info.descend), (0, false));
    let snapshot = state.snapshot();
    assert_eq!(snapshot.current_path, "/proc/self");
    assert_eq!(snapshot.files_scanned, 1);
    assert_eq!(snapshot.directories_scanned, 2);
    assert_eq!(snapshot.bytes_scanned, 4096 + 10 + 7 + 3);
}

#[test]
fn counters_wrap_around() {
    let mut state = ScanState::new();
    let huge = FileFacts { length: u64::MAX, is_dir: false, is_file: true, is_symlink: false };
    state.record(b"/a", &huge);
    let more = FileFacts { length: 3, is_dir: false, is_file: true, is_symlink: false };
    state.record(b"/b", &more);
    assert_eq!(state.snapshot().bytes_scanned, 2);
    assert_eq!(state.snapshot().files_scanned, 2);
}

#[test]
fn names_that_are_not_text_are_shown_with_replacements() {
    let mut state = ScanState::new();
    let facts = FileFacts { length: 1, is_dir: false, is_file: true, is_symlink: false };
    state.record(b"/a\xff/b", &facts);
    assert_eq!(state.snapshot().current_path, "/a\u{fffd}/b");
    assert_eq!(
        scan(b"/\xf0\x9f\x8d".to_vec(), 1).unwrap().resolved(Err("gone".to_owned())).err().unwrap(),
        "cannot access /\u{fffd}: gone"
    );
}

#[test]
fn an_empty_result_has_counted_nothing() {
    let result = ScanResult::default();
    assert!(result.candidates.is_empty());
    assert_eq!(
        (result.files_scanned, result.directories_scanned, result.bytes_scanned),
        (0, 0, 0)
    );
}

#[test]
fn a_scan_counts_no_byte_twice() {
    let whole = tree(
        "/r",
        50,
        vec![
            tree("a", 20, vec![tree("target", 19, vec![tree("node_modules", 18, vec![])])]),
            tree("node_modules", 29, vec![tree("b", 28, vec![tree("target", 27, vec![])])]),
        ],
    );
    let result = scan_tree("/r", whole);
    let sizes: Vec<u64> = result.candidates.iter().map(|found| found.size_bytes).collect();
    assert_eq!(sizes, vec![29, 19]);
    assert!(sizes.iter().sum::<u64>() <= 50);
}

#[test]
fn a_root_named_like_an_artifact_still_shows_what_is_inside() {
    let whole = tree(
        "/code/target",
        20,
        vec![
            tree("a", 9, vec![tree("node_modules", 8, vec![tree("target", 7, vec![])])]),
            tree("target", 5, vec![]),
        ],
    );
    let result = scan_tree("/code/target", whole);
    assert_eq!(
        result.candidates,
        vec![
            candidate(CandidateKind::NodeModules, "/code/target/a/node_modules", 8),
            candidate(CandidateKind::RustTarget, "/code/target/target", 5),
        ]
    );
}

#[test]
fn a_scan_does_not_depend_on_the_order_of_the_walk() {
    let part = |name: &str, size: u64| tree(name, size, vec![tree("target", size - 1, vec![])]);
    let forth = scan_tree("/r", tree("/r", 40, vec![part("a", 9), part("b", 9), part("c", 12)]));
    let back = scan_tree("/r", tree("/r", 40, vec![part("c", 12), part("b", 9), part("a", 9)]));
    assert_eq!(forth.candidates, back.candidates);
    assert_eq!(forth.candidates.len(), 3);
    assert_eq!(forth.candidates[1].path, b"/r/a/target".to_vec());
    for window in forth.candidates.windows(2) {
        assert!(window[0].path != window[1].path);
    }

    let facts = [
        FileFacts { length: 3, is_dir: true, is_file: false, is_symlink: false },
        FileFacts { length: 5, is_dir: false, is_file: true, is_symlink: false },
        FileFacts { length: 7, is_dir: false, is_file: false, is_symlink: true },
    ];
    let mut forwards = ScanState::new();
    let mut backwards = ScanState::new();
    for fact in facts.iter() {
        forwards.record(b"/a", fact);
    }
    for fact in facts.iter().rev() {
        backwards.record(b"/b", fact);
    }
    let (one, other) = (forwards.snapshot(), backwards.snapshot());
    assert_eq!(one.files_scanned, other.files_scanned);
    assert_eq!(one.directories_scanned, other.directories_scanned);
    assert_eq!(one.bytes_scanned, other.bytes_scanned);
    assert_eq!((one.files_scanned, one.directories_scanned, one.bytes_scanned), (1, 1, 15));
}

#[test]
fn deduplicates_many_identities() {
    let mut candidates = Vec::new();
    for i in 0..300u64 {
        let identity = FileIdentity { device: i * 7 % 5, inode: i * 13 % 17 };
        candidates.push((candidate(CandidateKind::RustTarget, "/a/target", i), Some(identity)));
    }
    let unique = deduplicate_candidates(candidates);
    let sizes: Vec<u64> = unique.iter().map(|found| found.size_bytes).collect();
    assert_eq!(sizes, (0..85u64).collect::<Vec<u64>>());
}
