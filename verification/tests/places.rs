use dsopt::app::candidate_is_safe;
use dsopt::candidate::{candidate_kind, total_size};
use dsopt::cli::{candidate_line, list_lines, plan, total_line, Options, Plan};
use dsopt::path::{beneath, components, file_name, join, order_paths, same_path, Relation};
use dsopt::pathset::PathSet;
use dsopt::removal::{RemovalEvent, RemovalRun};
use dsopt::safety::{permit_removal, Location};
use dsopt::{
    cache_path, is_safe_candidate, record_scan, should_skip, Candidate, CandidateKind,
};

fn at(path: &str) -> Option<Location> {
    Some(Location { path: path.as_bytes().to_vec(), is_dir: true })
}

fn root(path: &str) -> Option<Vec<u8>> {
    Some(path.as_bytes().to_vec())
}

fn target_at(path: &str, size_bytes: u64) -> Candidate {
    Candidate { kind: CandidateKind::RustTarget, path: path.as_bytes().to_vec(), size_bytes }
}

#[test]
fn skips_volume_aliases_and_virtual_filesystems() {
    assert!(should_skip(b"/System/Volumes/Data"));
    assert!(should_skip(b"/proc/1/fd"));
    assert!(!should_skip(b"/Users/musichen/project"));
}

#[test]
fn skips_every_listed_place_and_no_lookalike() {
    for place in [
        "/dev",
        "/proc",
        "/sys",
        "/System/Volumes/Data",
        "/System/Volumes/VM",
        "/System/Volumes/Preboot",
        "/System/Volumes/Update",
        "/private/var/vm",
        "/private/var/db/dyld",
    ] {
        assert!(should_skip(place.as_bytes()));
        assert!(should_skip(format!("{place}/inside").as_bytes()));
        assert!(!should_skip(format!("{place}x").as_bytes()));
        assert!(!should_skip(format!("/home{place}").as_bytes()));
    }
    assert!(!should_skip(b""));
    assert!(!should_skip(b"/"));
    assert!(!should_skip(b"/System/Volumes"));
    assert!(should_skip(b"/dev/\xff"));
}

#[test]
fn refuses_to_delete_protected_and_root_directories() {
    assert!(!is_safe_candidate(&at("/"), &root("/")));
    assert!(!is_safe_candidate(&at("/Users"), &root("/")));
    // `/definitely/not/here` leads nowhere.
    assert!(!is_safe_candidate(&None, &root("/")));
    assert!(is_safe_candidate(&at("/tmp"), &root("/")));
}

#[test]
fn refuses_whatever_breaks_one_of_the_rules() {
    assert!(is_safe_candidate(&at("/a/b/target"), &root("/a/b")));
    assert!(!is_safe_candidate(&at("/a/b"), &root("/a/b")));
    assert!(!is_safe_candidate(&at("/a/bc/target"), &root("/a/b")));
    assert!(!is_safe_candidate(&at("/a/b/target"), &None));
    assert!(!is_safe_candidate(&at("/System"), &root("/")));
    assert!(!is_safe_candidate(&at("/Applications"), &root("/")));
    assert!(!is_safe_candidate(&at("/proc/1/target"), &root("/")));
    let file = Some(Location { path: b"/a/target".to_vec(), is_dir: false });
    assert!(!is_safe_candidate(&file, &root("/")));
}

#[test]
fn checks_a_path_against_the_whole_file_system() {
    assert!(candidate_is_safe(&at("/a/target"), &root("/")));
    assert!(!candidate_is_safe(&at("/"), &root("/")));
    assert!(!candidate_is_safe(&None, &root("/")));
    assert!(!candidate_is_safe(&at("/a/target"), &None));
    // Where `/` leads to a drive.
    assert!(candidate_is_safe(&at("C:/a/target"), &root("C:/")));
}

#[test]
fn a_removal_is_held_to_the_roots_of_its_scan() {
    let refused = Err("unsafe or missing path".to_owned());
    let roots = vec![root("/w")];
    assert_eq!(permit_removal(b"/w/a/target", &at("/w/a/target"), &roots), Ok(()));
    assert_eq!(permit_removal(b"/w/a/target", &at("/w/elsewhere"), &roots), Ok(()));
    // The path leads to the root itself, out of it, or nowhere by now.
    assert_eq!(permit_removal(b"/w/a/target", &at("/w"), &roots), refused);
    assert_eq!(permit_removal(b"/w/a/target", &at("/x"), &roots), refused);
    assert_eq!(permit_removal(b"/w/a/target", &None, &roots), refused);
    let file = Some(Location { path: b"/w/a/target".to_vec(), is_dir: false });
    assert_eq!(permit_removal(b"/w/a/target", &file, &roots), refused);
    assert_eq!(permit_removal(b"/dev/target", &at("/dev/target"), &vec![root("/")]), refused);
    // The root is gone, or there is none.
    assert_eq!(permit_removal(b"/w/a/target", &at("/w/a/target"), &vec![None]), refused);
    assert_eq!(permit_removal(b"/w/a/target", &at("/w/a/target"), &vec![]), refused);
}

#[test]
fn one_of_several_roots_has_to_hold_both_ends_of_a_path() {
    let refused = Err("unsafe or missing path".to_owned());
    let roots = vec![None, root("/x"), root("/w")];
    assert_eq!(permit_removal(b"/w/target", &at("/w/target"), &roots), Ok(()));
    assert_eq!(permit_removal(b"/w/target", &at("/x/target"), &roots), refused);
    assert_eq!(permit_removal(b"/v/target", &at("/w/target"), &roots), refused);
}

#[test]
fn what_is_permitted_is_safe_in_the_whole_file_system() {
    let roots = vec![root("/w"), root("/")];
    for place in ["/", "/w", "/w/target", "/x/target", "/proc/target", "/Users", "/System"] {
        let permitted = permit_removal(place.as_bytes(), &at(place), &roots).is_ok();
        assert_eq!(permitted, candidate_is_safe(&at(place), &root("/")), "{}", place);
    }
    // A path that has just been deleted leads nowhere.
    assert!(permit_removal(b"/w/target", &at("/w/target"), &roots).is_ok());
    assert!(permit_removal(b"/w/target", &None, &roots).is_err());
}

#[test]
fn candidates_are_equal_when_their_paths_are() {
    assert_eq!(target_at("/a//target", 5), target_at("/a/target/", 5));
    assert_ne!(target_at("/a/target", 5), target_at("/b/target", 5));
    assert_ne!(target_at("/a/target", 5), target_at("/a/target", 6));
    let other = Candidate {
        kind: CandidateKind::NodeModules,
        path: b"/a/target".to_vec(),
        size_bytes: 5,
    };
    assert_ne!(other, target_at("/a/target", 5));
}

#[test]
fn a_narrower_root_makes_nothing_safe() {
    for place in ["/w/a/target", "/w/target", "/w", "/w/a", "/x"] {
        if is_safe_candidate(&at(place), &root("/w/a")) {
            assert!(is_safe_candidate(&at(place), &root("/w")));
        }
    }
    assert!(!is_safe_candidate(&at("/w/target"), &root("/w/a")));
    assert!(is_safe_candidate(&at("/w/target"), &root("/w")));
}

#[test]
fn windows_paths_come_with_slashes() {
    assert_eq!(candidate_kind(b"C:/a/target"), Some(CandidateKind::RustTarget));
    assert!(is_safe_candidate(&at("C:/a/target"), &root("C:/a")));
    assert!(is_safe_candidate(&at("C:/target"), &root("C:/")));
    assert!(!is_safe_candidate(&at("D:/a/target"), &root("C:/")));
    assert_eq!(join(b"C:/", b"a"), b"C:/a".to_vec());
}

#[test]
fn a_removal_run_counts_every_attempt() {
    let roots = vec![root("/")];
    let mut run = RemovalRun::new(vec![
        target_at("/a/target", 10),
        target_at("/b/target", 20),
        target_at("/proc/target", 40),
    ]);
    assert_eq!(run.next_target(), Some(&target_at("/a/target", 10)));
    assert!(run.check(&at("/a/target"), &roots).is_none());
    match run.record(Ok(())) {
        RemovalEvent::Step { index, total, candidate, error } => {
            assert_eq!((index, total, error), (1, 3, None));
            assert_eq!(candidate, target_at("/a/target", 10));
        }
        _ => panic!("a step was to be reported"),
    }
    assert!(run.check(&at("/b/target"), &roots).is_none());
    match run.record(Err("denied".to_owned())) {
        RemovalEvent::Step { index, total, candidate, error } => {
            assert_eq!((index, total, error), (2, 3, Some("denied".to_owned())));
            assert_eq!(candidate, target_at("/b/target", 20));
        }
        _ => panic!("a step was to be reported"),
    }
    match run.check(&at("/proc/target"), &roots) {
        Some(RemovalEvent::Step { index, total, candidate, error }) => {
            assert_eq!((index, total), (3, 3));
            assert_eq!(error, Some("unsafe or missing path".to_owned()));
            assert_eq!(candidate, target_at("/proc/target", 40));
        }
        _ => panic!("the directory was to be refused"),
    }
    assert_eq!(run.next_target(), None);
    match run.finish() {
        RemovalEvent::Finished { deleted, reclaimed, errors } => {
            assert_eq!((deleted, reclaimed, errors), (1, 10, 2));
        }
        _ => panic!("the end was to be reported"),
    }
}

#[test]
fn an_empty_removal_run_is_over_at_once() {
    let run = RemovalRun::new(vec![]);
    assert_eq!(run.next_target(), None);
    match run.finish() {
        RemovalEvent::Finished { deleted, reclaimed, errors } => {
            assert_eq!((deleted, reclaimed, errors), (0, 0, 0));
        }
        _ => panic!("the end was to be reported"),
    }
}

#[test]
fn tells_artifacts_by_the_last_component() {
    assert_eq!(candidate_kind(b"/a/node_modules"), Some(CandidateKind::NodeModules));
    assert_eq!(candidate_kind(b"/a/target/"), Some(CandidateKind::RustTarget));
    assert_eq!(candidate_kind(b"target"), Some(CandidateKind::RustTarget));
    assert_eq!(candidate_kind(b"/a/target/debug"), None);
    assert_eq!(candidate_kind(b"/a/Target"), None);
    assert_eq!(candidate_kind(b"/target/.."), None);
    assert_eq!(candidate_kind(b"/"), None);
    assert_eq!(candidate_kind(b""), None);
}

#[test]
fn labels_name_the_kinds() {
    assert_eq!(CandidateKind::NodeModules.label(), "JavaScript dependencies");
    assert_eq!(CandidateKind::RustTarget.label(), "Rust build output");
}

#[test]
fn reads_paths_as_the_standard_library_does() {
    let samples = [
        "", "/", "//", ".", "..", "./a", "a/./b", "a//b", "/a/b/", "a/..", "../a", "/..", "a", "b",
        "/a", "/a/b", "/a-b", "/a/b/c", "a/b/.", "target", "/target",
    ];
    for left in samples {
        let path = std::path::Path::new(left);
        let expected = path.file_name().map(|name| name.to_str().unwrap().as_bytes().to_vec());
        assert_eq!(file_name(left.as_bytes()), expected, "{:?}", left);
        for right in samples {
            let other = std::path::Path::new(right);
            assert_eq!(same_path(left.as_bytes(), right.as_bytes()), path == other);
            assert_eq!(
                beneath(left.as_bytes(), right.as_bytes()),
                path.starts_with(other),
                "{:?} {:?}",
                left,
                right
            );
            assert_eq!(
                join(left.as_bytes(), right.as_bytes()),
                path.join(other).to_str().unwrap().as_bytes().to_vec(),
                "{:?} {:?}",
                left,
                right
            );
            let order = match path.cmp(other) {
                std::cmp::Ordering::Less => Relation::Before,
                std::cmp::Ordering::Equal => Relation::Same,
                std::cmp::Ordering::Greater => Relation::After,
            };
            assert_eq!(
                order_paths(&components(left.as_bytes()), &components(right.as_bytes())),
                order,
                "{:?} {:?}",
                left,
                right
            );
        }
    }
}

#[test]
fn a_set_of_paths_holds_each_path_once() {
    let mut set = PathSet::new();
    set.insert(b"/a/b");
    set.insert(b"/a//b/");
    set.insert(b"/c");
    assert_eq!(set.len(), 2);
    assert!(set.contains(b"/a/./b"));
    assert!(!set.contains(b"/a"));
    set.toggle(b"/a/b");
    assert!(!set.contains(b"/a/b"));
    set.toggle(b"/a/b");
    assert!(set.contains(b"/a/b"));
    set.clear();
    assert_eq!(set.len(), 0);
}

#[test]
fn a_set_finds_what_was_put_in_any_order() {
    let mut set = PathSet::new();
    let name = |i: u64| format!("/{}/{}", i * 7 % 31, i * 11 % 13).into_bytes();
    for i in 0..200u64 {
        set.insert(&name(i));
    }
    for i in 0..200u64 {
        assert!(set.contains(&name(i)));
    }
    assert!(!set.contains(b"/31/0"));
    let before = set.len();
    for i in 0..10u64 {
        set.toggle(&name(i));
        assert!(!set.contains(&name(i)));
    }
    assert_eq!(set.len(), before - 10);
}

#[test]
fn sums_sizes_that_fit() {
    assert_eq!(total_size(&vec![]), Some(0));
    assert_eq!(total_size(&vec![target_at("/a", 2), target_at("/b", 3)]), Some(5));
    assert_eq!(total_size(&vec![target_at("/a", u64::MAX), target_at("/b", 1)]), None);
}

#[test]
fn finds_where_the_last_scan_is_recorded() {
    let place = |cache: Option<&str>, home: Option<&str>| {
        let bytes = |text: &str| text.as_bytes().to_vec();
        cache_path(cache.map(bytes), home.map(bytes), b"/tmp".to_vec())
    };
    assert_eq!(place(Some("/cache"), Some("/home/u")), b"/cache/dsopt/last_scan.json".to_vec());
    assert_eq!(place(None, Some("/home/u")), b"/home/u/.cache/dsopt/last_scan.json".to_vec());
    assert_eq!(place(None, None), b"/tmp/dsopt/last_scan.json".to_vec());
    assert_eq!(place(Some(""), None), b"dsopt/last_scan.json".to_vec());
}

#[test]
fn records_a_scan() {
    let found = vec![target_at("/a/target", 5)];
    let given = vec![b".".to_vec(), b"/\xff".to_vec()];
    let resolved = vec![b"/home/u".to_vec(), b"/\xff".to_vec()];
    let record = record_scan(&found, &given, &resolved, 4, 1_000_000_000);
    assert_eq!(record.version, "0.1.0");
    assert_eq!(record.scanned_at, "2001-09-09 01:46 UTC");
    assert_eq!(record.roots, vec![".".to_owned(), "/\u{fffd}".to_owned()]);
    assert_eq!(record.resolved_roots, resolved);
    assert_eq!(record.threads, 4);
    assert_eq!(record.candidates, found);
}

fn options(roots: &[&str], threads: usize) -> Options {
    Options {
        roots: roots.iter().map(|root| root.as_bytes().to_vec()).collect(),
        threads,
        list: false,
        json: false,
        update: false,
        force: false,
    }
}

#[test]
fn opens_the_session_on_the_whole_file_system() {
    let (decided, warnings) = plan(options(&[], 4));
    assert!(warnings.is_empty());
    match decided {
        Plan::Interactive { roots, threads } => assert_eq!((roots, threads), (vec![b"/".to_vec()], 4)),
        _ => panic!("the session was to be opened"),
    }
}

#[test]
fn warns_about_protected_roots() {
    let mut given = options(&["/proc/1", "/code", "/dev"], 1);
    given.list = true;
    given.json = true;
    let (decided, warnings) = plan(given);
    assert_eq!(
        warnings,
        vec![
            "warning: skipping /proc/1, a protected location".to_owned(),
            "warning: skipping /dev, a protected location".to_owned(),
        ]
    );
    match decided {
        Plan::List { roots, threads, json } => {
            assert_eq!((roots, threads, json), (vec![b"/code".to_vec()], 1, true));
        }
        _ => panic!("a listing was to be printed"),
    }
}

#[test]
fn refuses_options_that_leave_nothing_to_scan() {
    match plan(options(&["/sys"], 2)).0 {
        Plan::Refuse(message) => assert_eq!(message, "error: no scannable roots given"),
        _ => panic!("the options were to be refused"),
    }
    for threads in [0, 9] {
        let (decided, warnings) = plan(options(&["/sys"], threads));
        assert!(warnings.is_empty());
        match decided {
            Plan::Refuse(message) => {
                assert_eq!(message, "error: --threads must be between 1 and 8");
            }
            _ => panic!("the options were to be refused"),
        }
    }
}

#[test]
fn an_update_goes_before_everything_else() {
    let mut given = options(&["/sys"], 0);
    given.update = true;
    given.force = true;
    match plan(given).0 {
        Plan::Update { force } => assert!(force),
        _ => panic!("an update was to be made"),
    }
}

#[test]
fn prints_a_table_and_its_total() {
    let found = vec![
        Candidate {
            kind: CandidateKind::NodeModules,
            path: b"/web/node_modules".to_vec(),
            size_bytes: 1536,
        },
        target_at("/rust/target", 512),
    ];
    assert_eq!(
        candidate_line(&found[0]),
        format!("{:>10}  {:<24}  {}", "1.5 KB", "JavaScript dependencies", "/web/node_modules")
    );
    assert_eq!(
        total_line(&found, b"/c/last_scan.json"),
        "\n2 candidates · 2.0 KB reclaimable · cache /c/last_scan.json"
    );
    assert_eq!(
        list_lines(&found, b"/c"),
        vec![
            "    1.5 KB  JavaScript dependencies   /web/node_modules".to_owned(),
            "     512 B  Rust build output         /rust/target".to_owned(),
            "\n2 candidates · 2.0 KB reclaimable · cache /c".to_owned(),
        ]
    );
}
