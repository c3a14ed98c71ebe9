use dsopt::app::App;
use dsopt::removal::RemovalEvent;
use dsopt::scan::ScanEvent;
use dsopt::screen::{
    confirm_question, intro_title, removal_headline_text, removal_line, removal_prompt, removal_warning,
    scanner_word, selection_hint_text, selection_summary_text, settings_label, table_title, Tone,
};
use dsopt::session::{Action, Focus, Key, KeyPress, Modal};
use dsopt::{record_scan, Candidate, CandidateKind, ProgressSnapshot};
use ratatui::widgets::TableState;

fn found_at(path: &str, size_bytes: u64) -> Candidate {
    Candidate { kind: CandidateKind::RustTarget, path: path.as_bytes().to_vec(), size_bytes }
}

fn key(key: Key) -> KeyPress {
    KeyPress { key, ctrl: false }
}

fn typed(c: char) -> KeyPress {
    key(Key::Char(c))
}

fn control(c: char) -> KeyPress {
    KeyPress { key: Key::Char(c), ctrl: true }
}

fn many(count: u64) -> Vec<Candidate> {
    (0..count).map(|i| found_at(&format!("/{i}/target"), 100 - i)).collect()
}

/// A session that lists `found`.
fn listing_of(found: Vec<Candidate>) -> App {
    let mut app = App::new(vec![b"/code".to_vec()], 4);
    let record = record_scan(&found, app.roots(), app.roots(), 4, 0);
    assert!(matches!(app.restore_or_start_scan(Some(record)), Action::Nothing));
    app
}

fn finished(candidates: Vec<Candidate>) -> ScanEvent {
    ScanEvent::Finished { candidates, roots: vec![b"/real/code".to_vec()] }
}

fn summary(app: &App) -> String {
    app.selection_bar().0
}

#[test]
fn starts_with_an_empty_list() {
    let app = App::new(vec![b"/code".to_vec()], 4);
    assert_eq!(app.status_line(), "Starting scan...");
    assert_eq!(app.threads_input(), "4");
    assert_eq!(app.progress(), (0, 1));
    assert_eq!(app.cursor(), None);
    assert!(app.candidates().is_empty());
    assert!(!app.is_scanning());
    assert!(!app.should_quit());
    assert!(app.modal().is_none());
}

#[test]
fn scans_where_no_scan_is_recorded() {
    let mut app = App::new(vec![b"/code".to_vec()], 3);
    assert!(matches!(app.restore_or_start_scan(None), Action::Scan));
    assert!(app.is_scanning());
    assert_eq!(app.status_line(), "Scanning with 3 threads...");
}

#[test]
fn shows_the_recorded_scan() {
    let app = listing_of(vec![found_at("/a/target", 1024), found_at("/b/target", 512)]);
    assert_eq!(
        app.status_line(),
        "Loaded 2 candidates totaling 1.5 KB from the last scan (1970-01-01 00:00 UTC) · press R to rescan"
    );
    assert_eq!(app.cursor(), Some(0));
    assert_eq!(app.progress(), (1, 1));
    let row = app.row(1);
    assert_eq!((row.marker, row.label), (" ", "Rust build output"));
    assert_eq!((row.size, row.path), ("512 B".to_owned(), "/b/target".to_owned()));
}

#[test]
fn moves_through_the_list_and_stays_on_it() {
    let mut app = listing_of(many(30));
    app.table_drawn(8, app.cursor(), app.offset());
    app.on_key(key(Key::Up));
    assert_eq!((app.cursor(), app.offset()), (Some(0), 0));
    app.on_key(key(Key::PageDown));
    assert_eq!((app.cursor(), app.offset()), (Some(5), 1));
    app.on_key(typed('j'));
    assert_eq!((app.cursor(), app.offset()), (Some(6), 2));
    app.on_key(key(Key::End));
    assert_eq!((app.cursor(), app.offset()), (Some(29), 25));
    app.on_key(key(Key::Down));
    assert_eq!((app.cursor(), app.offset()), (Some(29), 25));
    app.on_key(typed('k'));
    assert_eq!((app.cursor(), app.offset()), (Some(28), 25));
    app.on_key(key(Key::PageUp));
    app.on_key(key(Key::PageUp));
    assert_eq!((app.cursor(), app.offset()), (Some(18), 18));
    app.on_key(key(Key::Home));
    assert_eq!((app.cursor(), app.offset()), (Some(0), 0));
}

#[test]
fn a_tiny_area_still_shows_one_row() {
    let mut app = listing_of(many(3));
    app.table_drawn(2, Some(0), 0);
    app.on_key(key(Key::PageDown));
    assert_eq!((app.cursor(), app.offset()), (Some(1), 1));
}

#[test]
fn clearing_the_highlight_scrolls_to_the_top() {
    let mut widget = TableState::default().with_offset(7).with_selected(9);
    widget.select(None);
    assert_eq!((widget.selected(), widget.offset()), (None, 0));
    let mut app = listing_of(many(30));
    app.table_drawn(8, Some(9), 7);
    assert!(matches!(app.on_key(typed('r')), Action::Scan));
    assert_eq!((app.cursor(), app.offset()), (widget.selected(), widget.offset()));
}

#[test]
fn space_selects_and_unselects() {
    let mut app = listing_of(many(3));
    app.on_key(key(Key::Down));
    app.on_key(typed(' '));
    assert!(app.is_selected(b"/1/target"));
    assert!(!app.is_selected(b"/0/target"));
    assert_eq!(app.row(1).marker, "✓");
    assert_eq!(summary(&app), "Selected: 1 directories · 99 B reclaimable · D to remove");
    assert_eq!(app.selection_bar().1, "  remove: 1 · 99 B");
    app.on_key(typed(' '));
    assert!(!app.is_selected(b"/1/target"));
    assert_eq!(summary(&app), "Selected: none · Space toggle · A all · N none");
}

#[test]
fn selects_all_and_none() {
    let mut app = listing_of(many(3));
    app.on_key(typed('A'));
    assert_eq!(summary(&app), "Selected: 3 directories · 297 B reclaimable · D to remove");
    app.on_key(typed('N'));
    assert_eq!(summary(&app), "Selected: none · Space toggle · A all · N none");
    app.on_key(control('a'));
    assert!(app.is_selected(b"/2/target"));
    app.on_key(control('n'));
    assert!(!app.is_selected(b"/2/target"));
}

#[test]
fn removes_only_after_confirmation() {
    let mut app = listing_of(many(3));
    assert!(matches!(app.on_key(typed('d')), Action::Nothing));
    assert_eq!(app.status_line(), "Nothing selected. Use space or A to select directories.");
    assert!(app.modal().is_none());
    app.on_key(typed(' '));
    app.on_key(key(Key::End));
    app.on_key(typed(' '));
    app.on_key(typed('D'));
    match app.modal() {
        Some(Modal::Confirm { count, bytes }) => assert_eq!((*count, *bytes), (2, 198)),
        _ => panic!("a confirmation was to be asked for"),
    }
    app.on_key(typed('x'));
    assert!(app.modal().is_some());
    app.on_key(key(Key::Esc));
    assert!(app.modal().is_none());
    app.on_key(typed('d'));
    match app.on_key(key(Key::Enter)) {
        Action::Remove { targets, roots } => {
            assert_eq!(targets, vec![found_at("/0/target", 100), found_at("/2/target", 98)]);
            assert_eq!(roots, vec![b"/code".to_vec()]);
        }
        _ => panic!("the removal was to begin"),
    }
    assert_eq!(app.status_line(), "Removing 2 directories...");
    match app.modal() {
        Some(Modal::Removal(panel)) => {
            assert_eq!((panel.done, panel.total, panel.finished), (0, 2, false));
        }
        _ => panic!("the removal was to be shown"),
    }
}

#[test]
fn follows_a_removal_to_its_end() {
    let mut app = listing_of(many(3));
    app.on_key(typed('a'));
    app.on_key(typed('d'));
    app.on_key(typed('y'));
    let step = RemovalEvent::Step {
        index: 1,
        total: 3,
        candidate: found_at("/0/target", 100),
        error: Some("denied".to_owned()),
    };
    assert!(!app.on_removal_event(&step, &vec![]));
    app.on_key(key(Key::Esc));
    match app.modal() {
        Some(Modal::Removal(panel)) => {
            assert_eq!((panel.done, panel.total), (1, 3));
            let texts: Vec<&str> = panel.lines[0].iter().map(|span| span.text.as_str()).collect();
            assert_eq!(texts, vec!["✗  ", "1/3  ", "/0/target", "  denied"]);
        }
        _ => panic!("the removal was to stay on screen"),
    }
    let end = RemovalEvent::Finished { deleted: 2, reclaimed: 197, errors: 1 };
    assert!(app.on_removal_event(&end, &vec![true, false, false]));
    assert_eq!(app.candidates(), &vec![found_at("/0/target", 100)]);
    assert_eq!(app.status_line(), "Removed 2 directories and reclaimed 197 B. Errors: 1");
    assert_eq!(summary(&app), "Selected: none · Space toggle · A all · N none");
    match app.modal() {
        Some(Modal::Removal(panel)) => {
            assert_eq!((panel.reclaimed, panel.errors, panel.finished), (197, 1, true));
        }
        _ => panic!("the removal was to stay on screen"),
    }
    app.on_key(typed('x'));
    assert!(app.modal().is_some());
    app.on_key(typed(' '));
    assert!(app.modal().is_none());
}

#[test]
fn a_removal_without_errors_mentions_none() {
    let mut app = listing_of(many(1));
    let end = RemovalEvent::Finished { deleted: 1, reclaimed: 2048, errors: 0 };
    assert!(app.on_removal_event(&end, &vec![false]));
    assert_eq!(app.status_line(), "Removed 1 directories and reclaimed 2.0 KB.");
    assert!(app.candidates().is_empty());
    assert_eq!(app.cursor(), None);
}

#[test]
fn lists_what_a_scan_found() {
    let mut app = App::new(vec![b"/code".to_vec()], 4);
    assert!(matches!(app.start_scan(), Action::Scan));
    assert!(matches!(app.start_scan(), Action::Nothing));
    let snapshot = ProgressSnapshot {
        current_path: "/code/a".to_owned(),
        files_scanned: 12_345,
        directories_scanned: 678,
        bytes_scanned: 2048,
    };
    assert!(!app.on_scan_events(vec![ScanEvent::Progress(snapshot)]));
    assert_eq!(app.status_line(), "4 threads | 678 folders | 12,345 files | 2.0 KB | /code/a");
    assert_eq!(app.progress(), (0, 1));
    assert!(app.on_scan_events(vec![finished(many(2))]));
    assert_eq!(app.status_line(), "Found 2 candidates totaling 199 B. Saved as last scan.");
    assert_eq!(app.progress(), (1, 1));
    assert_eq!(app.cursor(), Some(0));
    assert!(!app.is_scanning());
}

#[test]
fn a_list_stays_with_the_roots_that_it_was_found_in() {
    let mut app = App::new(vec![b"/code".to_vec()], 4);
    assert!(app.listed_roots().is_empty());
    let record = record_scan(&many(1), &vec![b".".to_vec()], &vec![b"/old".to_vec()], 4, 0);
    app.restore_or_start_scan(Some(record));
    assert_eq!(app.listed_roots(), &vec![b"/old".to_vec()]);
    app.on_key(typed('a'));
    app.on_key(typed('d'));
    match app.on_key(typed('y')) {
        Action::Remove { targets, roots } => {
            assert_eq!(targets, many(1));
            assert_eq!(roots, vec![b"/old".to_vec()]);
        }
        _ => panic!("the removal was to begin"),
    }
    let end = RemovalEvent::Finished { deleted: 0, reclaimed: 0, errors: 1 };
    app.on_removal_event(&end, &vec![true]);
    assert_eq!(app.listed_roots(), &vec![b"/old".to_vec()]);
    app.on_key(key(Key::Esc));
    app.on_key(typed('r'));
    app.on_scan_events(vec![finished(many(2))]);
    assert_eq!(app.listed_roots(), &vec![b"/real/code".to_vec()]);
    assert_eq!(app.roots(), &vec![b"/code".to_vec()]);
}

#[test]
fn reports_a_scan_that_failed() {
    let mut app = App::new(vec![b"/code".to_vec()], 4);
    app.start_scan();
    assert!(!app.on_scan_events(vec![ScanEvent::Failed("cannot access /code: gone".to_owned())]));
    assert_eq!(app.status_line(), "Scan failed: cannot access /code: gone");
    assert!(!app.is_scanning());
    assert_eq!(app.progress(), (1, 1));
    assert!(!app.on_scan_events(vec![]));
}

#[test]
fn settings_set_the_number_of_threads() {
    let mut app = listing_of(many(2));
    app.on_key(typed('t'));
    assert!(app.shows_settings());
    assert!(app.focus() == Focus::ThreadsInput);
    app.on_key(typed('7'));
    assert_eq!(app.threads_input(), "7");
    app.on_key(typed('a'));
    assert_eq!(summary(&app), "Selected: none · Space toggle · A all · N none");
    assert!(matches!(app.on_key(control('r')), Action::Scan));
    assert_eq!(app.threads(), 7);
    assert_eq!(app.status_line(), "Scanning with 7 threads...");
}

#[test]
fn settings_refuse_what_is_no_thread_count() {
    let mut app = listing_of(many(2));
    app.on_key(control('t'));
    app.on_key(typed('9'));
    assert!(matches!(app.on_key(control('r')), Action::Nothing));
    assert_eq!(app.status_line(), "Thread count must be between 1 and 8.");
    app.on_key(key(Key::Backspace));
    assert_eq!(app.threads_input(), "");
    app.on_key(key(Key::Backspace));
    assert!(matches!(app.on_key(control('r')), Action::Nothing));
    assert_eq!(app.status_line(), "Thread count must be a number from 1 through 8.");
    assert_eq!(app.threads(), 4);
    app.on_key(key(Key::Enter));
    assert!(!app.shows_settings());
    assert!(app.focus() == Focus::Table);
    app.on_key(typed('T'));
    assert_eq!(app.threads_input(), "4");
    app.on_key(key(Key::Esc));
    assert!(!app.shows_settings());
}

#[test]
fn a_rescan_starts_from_an_empty_list() {
    let mut app = listing_of(many(2));
    app.on_key(typed('a'));
    assert!(matches!(app.on_key(typed('R')), Action::Scan));
    assert!(app.candidates().is_empty());
    assert!(!app.is_selected(b"/0/target"));
    assert!(matches!(app.on_key(typed('r')), Action::Nothing));
}

#[test]
fn help_opens_and_any_key_closes_it() {
    let mut app = listing_of(many(2));
    app.on_key(typed('?'));
    assert!(matches!(app.modal(), Some(Modal::Help)));
    app.on_key(typed('q'));
    assert!(app.modal().is_none());
    assert!(!app.should_quit());
}

#[test]
fn quits_on_the_quit_keys() {
    for press in [typed('q'), typed('Q'), control('q'), control('c')] {
        let mut app = listing_of(many(1));
        app.on_key(press);
        assert!(app.should_quit());
    }
    for press in [typed('c'), key(Key::Esc), key(Key::Other), key(Key::Tab)] {
        let mut app = listing_of(many(1));
        app.on_key(press);
        assert!(!app.should_quit());
    }
}

#[test]
fn removal_lines_say_what_happened() {
    let line = removal_line(2, 9, &found_at("/a\u{e9}/target", 1), None);
    let texts: Vec<(String, Tone)> = line.into_iter().map(|span| (span.text, span.tone)).collect();
    assert_eq!(
        texts,
        vec![
            ("✓  ".to_owned(), Tone::Success),
            ("2/9  ".to_owned(), Tone::Plain),
            ("Rust build output  ".to_owned(), Tone::Muted),
            ("/a\u{e9}/target".to_owned(), Tone::Plain),
        ]
    );
}

#[test]
fn screen_texts_are_spelled_out() {
    assert_eq!(intro_title(), "dsopt v0.1.0");
    assert_eq!(settings_label(true), "T  Hide settings");
    assert_eq!(settings_label(false), "T  Scan settings");
    assert_eq!(scanner_word(true), "scanning…");
    assert_eq!(scanner_word(false), "idle");
    assert_eq!(table_title(12), " Candidates (12) ");
    assert_eq!(
        confirm_question(2, 1024),
        "Remove 2 selected directories and free 1.0 KB?"
    );
    assert_eq!(
        removal_warning(),
        "This permanently deletes them. There is no Trash and no undo."
    );
    assert_eq!(removal_headline_text(3, 0, 0, false), "Removing 3 directories · 0 B selected");
    assert_eq!(removal_headline_text(3, 512, 0, true), "Removal complete · 512 B reclaimed");
    assert_eq!(
        removal_headline_text(3, 512, 2, true),
        "Removal complete · 512 B reclaimed · 2 errors"
    );
    assert_eq!(removal_prompt(true), " Press Esc or Enter to close ");
    assert_eq!(removal_prompt(false), " working… ");
    assert_eq!(
        selection_summary_text(2, 1024),
        "Selected: 2 directories · 1.0 KB reclaimable · D to remove"
    );
    assert_eq!(selection_hint_text(0, 0), "  remove: 0 · 0 B");
}
