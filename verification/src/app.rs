//! The interactive session: scan, select and reclaim.
//!
//! [`App`] is the state of a session. It takes keys and background events and
//! says what to start; drawing it, reading keys and running threads is the
//! caller's part.

use vstd::prelude::*;
use vstd::string::*;

use crate::cache::ScanCache;
use crate::candidate;
use crate::candidate::Candidate;
use crate::path;
use crate::pathset::PathSet;
use crate::removal::RemovalEvent;
use crate::scan;
use crate::scan::{ProgressSnapshot, ScanEvent};
use crate::screen;
use crate::screen::{Span, TableRow};
use crate::session;
use crate::session::{
    Action, AppView, Focus, Key, KeyPress, Modal, RemovalPanel, Request,
};
use crate::size;
use crate::text;

pub use crate::safety::candidate_is_safe;

verus! {

/// The state of an interactive session.
pub struct App {
    roots: Vec<Vec<u8>>,
    listed_roots: Vec<Vec<u8>>,
    threads: usize,
    threads_input: String,
    candidates: Vec<Candidate>,
    selected: PathSet,
    cursor: Option<usize>,
    offset: usize,
    table_height: usize,
    status: String,
    scanning: bool,
    show_settings: bool,
    focus: Focus,
    progress_done: u64,
    progress_total: u64,
    stats: Option<ProgressSnapshot>,
    modal: Option<Modal>,
    should_quit: bool,
}

impl View for App {
    type V = AppView;

    closed spec fn view(&self) -> AppView {
        AppView {
            roots: path::all_bytes(self.roots@),
            listed_roots: path::all_bytes(self.listed_roots@),
            threads: self.threads as nat,
            threads_input: self.threads_input@,
            candidates: candidate::entries(self.candidates@),
            selected: self.selected@,
            cursor: session::optional_row(self.cursor),
            offset: self.offset as nat,
            height: self.table_height as nat,
            status: self.status@,
            scanning: self.scanning,
            show_settings: self.show_settings,
            focus: self.focus,
            progress_done: self.progress_done as nat,
            progress_total: self.progress_total as nat,
            stats: session::optional_counters(self.stats),
            modal: session::optional_modal(self.modal),
            should_quit: self.should_quit,
        }
    }
}

impl App {
    /// What holds between calls: no path is selected twice, and the sizes of
    /// all candidates add up within 64 bits.
    pub closed spec fn wf(&self) -> bool {
        &&& self.selected.wf()
        &&& candidate::total_bytes(candidate::entries(self.candidates@)) <= u64::MAX
    }

    /// A session that has not begun to scan.
    pub fn new(roots: Vec<Vec<u8>>, threads: usize) -> (app: App)
        ensures
            app.wf(),
            app@ == (AppView {
                roots: path::all_bytes(roots@),
                listed_roots: Seq::empty(),
                threads: threads as nat,
                threads_input: text::decimal(threads as nat),
                candidates: Seq::empty(),
                selected: Set::empty(),
                cursor: None,
                offset: 0,
                height: 10,
                status: "Starting scan..."@,
                scanning: false,
                show_settings: false,
                focus: Focus::Table,
                progress_done: 0,
                progress_total: 1,
                stats: None,
                modal: None,
                should_quit: false,
            }),
    {
        let app: App = App {
            roots,
            listed_roots: Vec::new(),
            threads,
            threads_input: text::decimal_text(threads as u64),
            candidates: Vec::new(),
            selected: PathSet::new(),
            cursor: None,
            offset: 0,
            table_height: 10,
            status: "Starting scan...".to_owned(),
            scanning: false,
            show_settings: false,
            focus: Focus::Table,
            progress_done: 0,
            progress_total: 1,
            stats: None,
            modal: None,
            should_quit: false,
        };
        assert(app@.candidates =~= Seq::empty());
        assert(app@.listed_roots =~= Seq::empty());
        app
    }

    // ---------------------------------------------------------- table

    /// Keeps the highlighted row inside the rows on screen.
    fn clamp_offset(&mut self)
        requires
            old(self).wf(),
        ensures
            final(self).wf(),
            final(self)@ == old(self)@.in_view(),
    {
        let height: usize = if self.table_height == 0 {
            1
        } else {
            self.table_height
        };
        let row: usize = match self.cursor {
            Some(index) => index,
            None => 0,
        };
        if row < self.offset {
            self.offset = row;
        } else if row - self.offset >= height {
            self.offset = row - (height - 1);
        }
        assert(self@ =~= old(self)@.in_view());
    }

    /// Highlights a row, or the last one where there are fewer.
    fn select_row(&mut self, index: usize)
        requires
            old(self).wf(),
        ensures
            final(self).wf(),
            final(self)@ == old(self)@.at_row(index as int),
    {
        let count: usize = self.candidates.len();
        if count == 0 {
            return;
        }
        self.cursor = Some(
            if index < count {
                index
            } else {
                count - 1
            },
        );
        self.clamp_offset();
    }

    /// Moves the highlighted row onto the list.
    fn sync_table(&mut self)
        requires
            old(self).wf(),
        ensures
            final(self).wf(),
            final(self)@ == old(self)@.synced(),
    {
        if self.candidates.len() == 0 {
            self.cursor = None;
            self.offset = 0;
            self.clamp_offset();
        } else {
            let row: usize = match self.cursor {
                Some(index) => index,
                None => 0,
            };
            self.select_row(row);
        }
    }

    /// Moves the highlighted row up by `rows`.
    fn move_up(&mut self, rows: usize)
        requires
            old(self).wf(),
        ensures
            final(self).wf(),
            final(self)@ == old(self)@.moved(-(rows as int)),
    {
        let row: usize = match self.cursor {
            Some(index) => index,
            None => 0,
        };
        self.select_row(row.saturating_sub(rows));
    }

    /// Moves the highlighted row down by `rows`.
    fn move_down(&mut self, rows: usize)
        requires
            old(self).wf(),
        ensures
            final(self).wf(),
            final(self)@ == old(self)@.moved(rows as int),
    {
        let row: usize = match self.cursor {
            Some(index) => index,
            None => 0,
        };
        assert(self.candidates.len() <= usize::MAX);
        self.select_row(row.saturating_add(rows));
    }

    // ------------------------------------------------------ selection

    /// Selects or unselects the highlighted candidate.
    fn toggle_selected(&mut self)
        requires
            old(self).wf(),
        ensures
            final(self).wf(),
            final(self)@ == old(self)@.toggled(),
    {
        if let Some(index) = self.cursor {
            if index < self.candidates.len() {
                self.selected.toggle(&self.candidates[index].path);
            }
        }
        assert(self@ =~= old(self)@.toggled());
    }

    /// Selects every candidate.
    fn select_all(&mut self)
        requires
            old(self).wf(),
        ensures
            final(self).wf(),
            final(self)@ == old(self)@.all_selected(),
    {
        let ghost all = candidate::entries(self.candidates@);
        let mut selected: PathSet = PathSet::new();
        assert(selected@ =~= session::paths_of(all.take(0)));
        for i in 0..self.candidates.len()
            invariant
                selected.wf(),
                all == candidate::entries(self.candidates@),
                selected@ == session::paths_of(all.take(i as int)),
        {
            let ghost before = selected@;
            selected.insert(&self.candidates[i].path);
            proof {
                let added = path::parts(all[i as int].path);
                assert forall|parts: Seq<path::Part>|
                    before.insert(added).contains(parts) <==> session::paths_of(all.take(i + 1)).contains(
                        parts,
                    ) by {
                    if before.contains(parts) {
                        let k = choose|k: int|
                            0 <= k < i && path::parts((#[trigger] all.take(i as int)[k]).path)
                                == parts;
                        assert(all.take(i + 1)[k] == all[k]);
                    }
                    if parts == added {
                        assert(all.take(i + 1)[i as int] == all[i as int]);
                    }
                    if session::paths_of(all.take(i + 1)).contains(parts) {
                        let k = choose|k: int|
                            0 <= k < i + 1 && path::parts((#[trigger] all.take(i + 1)[k]).path)
                                == parts;
                        if k < i {
                            assert(all.take(i as int)[k] == all[k]);
                        }
                    }
                }
                assert(selected@ =~= session::paths_of(all.take(i + 1)));
            }
        }
        assert(all.take(all.len() as int) =~= all);
        self.selected = selected;
    }

    /// Copies the candidates that are selected.
    fn chosen_candidates(&self) -> (targets: Vec<Candidate>)
        requires
            self.wf(),
        ensures
            candidate::entries(targets@) == self@.chosen(),
            candidate::total_bytes(self@.chosen()) <= u64::MAX,
    {
        let ghost all = candidate::entries(self.candidates@);
        let mut targets: Vec<Candidate> = Vec::new();
        assert(candidate::entries(targets@) =~= session::marked(all.take(0), self@.selected));
        for i in 0..self.candidates.len()
            invariant
                self.wf(),
                all == candidate::entries(self.candidates@),
                candidate::entries(targets@) == session::marked(all.take(i as int), self@.selected),
        {
            let ghost before = targets@;
            assert(all.take(i + 1).drop_last() =~= all.take(i as int));
            if self.selected.contains(&self.candidates[i].path) {
                targets.push(self.candidates[i].clone());
                assert(candidate::entries(targets@) =~= candidate::entries(before).push(
                    all[i as int],
                ));
            }
        }
        assert(all.take(all.len() as int) =~= all);
        proof {
            session::lemma_marked_total(all, self@.selected);
        }
        targets
    }

    /// Asks to confirm the removal of what is selected.
    fn confirm_removal(&mut self)
        requires
            old(self).wf(),
        ensures
            final(self).wf(),
            final(self)@ == old(self)@.removal_asked(),
    {
        let targets: Vec<Candidate> = self.chosen_candidates();
        assert(targets@.len() == self@.chosen().len());
        if targets.len() == 0 {
            self.status = "Nothing selected. Use space or A to select directories.".to_owned();
        } else {
            let bytes: u64 = match candidate::total_size(&targets) {
                Some(sum) => sum,
                None => 0,
            };
            self.modal = Some(Modal::Confirm { count: targets.len(), bytes });
        }
        assert(self@ =~= old(self)@.removal_asked());
    }

    /// Begins the removal of what is selected.
    fn begin_removal(&mut self) -> (action: Action)
        requires
            old(self).wf(),
        ensures
            final(self).wf(),
            (final(self)@, action@) == old(self)@.removal_begun(),
    {
        let targets: Vec<Candidate> = self.chosen_candidates();
        assert(targets@.len() == self@.chosen().len());
        let count: usize = targets.len();
        if count == 0 {
            self.status = "Nothing selected. Use space or A to select directories.".to_owned();
            assert(self@ =~= old(self)@.removal_begun().0);
            return Action::Nothing;
        }
        let panel: RemovalPanel = RemovalPanel {
            lines: Vec::new(),
            done: 0,
            total: count,
            reclaimed: 0,
            errors: 0,
            finished: false,
        };
        assert(panel@.lines =~= Seq::empty());
        self.modal = Some(Modal::Removal(panel));
        let mut status: String = "Removing ".to_owned();
        status.append(text::decimal_text(count as u64).as_str());
        status.append(" directories...");
        self.status = status;
        assert(self@ =~= old(self)@.removal_begun().0);
        Action::Remove { targets, roots: path::copy_all(&self.listed_roots) }
    }

    // ------------------------------------------------------- settings

    /// Opens or closes the settings.
    fn toggle_settings(&mut self)
        requires
            old(self).wf(),
        ensures
            final(self).wf(),
            final(self)@ == old(self)@.settings_toggled(),
    {
        if self.show_settings {
            self.show_settings = false;
            self.focus = Focus::Table;
        } else {
            self.show_settings = true;
            self.threads_input = text::decimal_text(self.threads as u64);
            self.focus = Focus::ThreadsInput;
        }
        assert(self@ =~= old(self)@.settings_toggled());
    }

    /// Takes a key in the input field.
    fn on_input_key(&mut self, key: Key)
        requires
            old(self).wf(),
        ensures
            final(self).wf(),
            final(self)@ == old(self)@.input_typed(key),
    {
        match key {
            Key::Char(c) => {
                if '0' <= c && c <= '9' {
                    let digit: u64 = (c as u32 - 48) as u64;
                    self.threads_input = text::decimal_text(digit);
                    assert(self.threads_input@ =~= seq![c]);
                }
            },
            Key::Backspace => {
                let length: usize = self.threads_input.as_str().unicode_len();
                if length > 0 {
                    let rest: String = self.threads_input.as_str().substring_char(
                        0,
                        length - 1,
                    ).to_owned();
                    assert(rest@ =~= self.threads_input@.drop_last());
                    self.threads_input = rest;
                }
            },
            Key::Enter => {
                self.toggle_settings();
            },
            Key::Tab => {
                self.toggle_settings();
            },
            _ => {},
        }
        assert(self@ =~= old(self)@.input_typed(key));
    }

    // ------------------------------------------------------- scanning

    /// Begins a scan, unless one runs or the settings do not allow it.
    pub fn start_scan(&mut self) -> (action: Action)
        requires
            old(self).wf(),
        ensures
            final(self).wf(),
            (final(self)@, action@) == old(self)@.scan_requested(),
    {
        if self.scanning {
            return Action::Nothing;
        }
        if self.show_settings {
            let typed: Vec<char> = text::trim(&text::chars_of(self.threads_input.as_str()));
            match text::parse_number(&typed, usize::MAX as u64) {
                Some(value) => {
                    let threads: usize = value as usize;
                    if !scan::supports_threads(threads) {
                        let mut status: String = "Thread count must be between ".to_owned();
                        status.append(text::decimal_text(scan::MIN_THREADS as u64).as_str());
                        status.append(" and ");
                        status.append(text::decimal_text(scan::MAX_THREADS as u64).as_str());
                        status.append(".");
                        self.status = status;
                        assert(self@ =~= old(self)@.scan_requested().0);
                        return Action::Nothing;
                    }
                    self.threads = threads;
                },
                None => {
                    self.status = "Thread count must be a number from 1 through 8.".to_owned();
                    assert(self@ =~= old(self)@.scan_requested().0);
                    return Action::Nothing;
                },
            }
        }
        let ghost threads = self.threads as nat;
        self.scanning = true;
        self.selected.clear();
        self.candidates.clear();
        self.stats = None;
        self.progress_done = 0;
        self.progress_total = 1;
        proof {
            assert(candidate::entries(self.candidates@) =~= Seq::empty());
            assert(self@ =~= (AppView {
                threads,
                scanning: true,
                selected: Set::empty(),
                candidates: Seq::empty(),
                stats: None,
                progress_done: 0,
                progress_total: 1,
                ..old(self)@
            }));
        }
        self.sync_table();
        let mut status: String = "Scanning with ".to_owned();
        status.append(text::decimal_text(self.threads as u64).as_str());
        status.append(" threads...");
        self.status = status;
        assert(self@ =~= old(self)@.scan_begun(threads));
        Action::Scan
    }

    // ----------------------------------------------------------- keys

    /// Takes a key while an overlay is on screen.
    fn on_modal_key(&mut self, key: Key) -> (action: Action)
        requires
            old(self).wf(),
        ensures
            final(self).wf(),
            (final(self)@, action@) == old(self)@.modal_pressed(key),
    {
        let mut action: Action = Action::Nothing;
        match &self.modal {
            Some(Modal::Confirm { count: _, bytes: _ }) => {
                if key == Key::Char('y') || key == Key::Char('Y') || key == Key::Enter {
                    self.modal = None;
                    assert(self@ =~= (AppView { modal: None, ..old(self)@ }));
                    action = self.begin_removal();
                } else if key == Key::Esc || key == Key::Char('n') || key == Key::Char('N') || key
                    == Key::Char('q') {
                    self.modal = None;
                }
            },
            Some(Modal::Removal(panel)) => {
                if panel.finished && (key == Key::Esc || key == Key::Enter || key == Key::Char(' ')
                    || key == Key::Char('q')) {
                    self.modal = None;
                }
            },
            Some(Modal::Help) => {
                self.modal = None;
            },
            None => {},
        }
        assert(self@ =~= old(self)@.modal_pressed(key).0);
        action
    }

    /// Takes a control-key shortcut; `None` where the key is not one.
    fn on_control_key(&mut self, key: Key) -> (action: Option<Action>)
        requires
            old(self).wf(),
        ensures
            final(self).wf(),
            match action {
                Some(asked) => old(self)@.control_pressed(key) == Some((final(self)@, asked@)),
                None => old(self)@.control_pressed(key) is None && final(self)@ == old(self)@,
            },
    {
        match key {
            Key::Char('q') => {
                self.should_quit = true;
                Some(Action::Nothing)
            },
            Key::Char('c') => {
                self.should_quit = true;
                Some(Action::Nothing)
            },
            Key::Char('r') => Some(self.start_scan()),
            Key::Char('t') => {
                self.toggle_settings();
                Some(Action::Nothing)
            },
            Key::Char('a') => {
                self.select_all();
                Some(Action::Nothing)
            },
            Key::Char('n') => {
                self.selected.clear();
                Some(Action::Nothing)
            },
            Key::Char('d') => {
                self.confirm_removal();
                Some(Action::Nothing)
            },
            _ => None,
        }
    }

    /// Takes a key that goes to the table.
    fn on_table_key(&mut self, key: Key) -> (action: Action)
        requires
            old(self).wf(),
        ensures
            final(self).wf(),
            (final(self)@, action@) == old(self)@.table_pressed(key),
    {
        match key {
            Key::Up | Key::Char('k') => self.move_up(1),
            Key::Down | Key::Char('j') => self.move_down(1),
            Key::PageUp => self.move_up(self.table_height),
            Key::PageDown => self.move_down(self.table_height),
            Key::Home => self.select_row(0),
            Key::End => self.select_row(self.candidates.len().saturating_sub(1)),
            Key::Char(' ') => self.toggle_selected(),
            Key::Char('a') | Key::Char('A') => self.select_all(),
            Key::Char('n') | Key::Char('N') => self.selected.clear(),
            Key::Char('r') | Key::Char('R') => {
                return self.start_scan();
            },
            Key::Char('t') | Key::Char('T') => self.toggle_settings(),
            Key::Char('d') | Key::Char('D') => self.confirm_removal(),
            Key::Char('q') | Key::Char('Q') => {
                self.should_quit = true;
            },
            _ => {},
        }
        Action::Nothing
    }

    /// Takes a key press, and says what it asks the caller to start.
    pub fn on_key(&mut self, press: KeyPress) -> (action: Action)
        requires
            old(self).wf(),
        ensures
            final(self).wf(),
            (final(self)@, action@) == old(self)@.pressed(press),
    {
        if self.modal.is_some() {
            return self.on_modal_key(press.key);
        }
        if press.ctrl {
            if let Some(action) = self.on_control_key(press.key) {
                return action;
            }
        }
        match press.key {
            Key::Char('?') => {
                self.modal = Some(Modal::Help);
            },
            Key::Esc if self.show_settings => {
                self.toggle_settings();
            },
            _ => {
                if self.focus == Focus::ThreadsInput {
                    self.on_input_key(press.key);
                } else {
                    return self.on_table_key(press.key);
                }
            },
        }
        Action::Nothing
    }

    // ----------------------------------------------------- background

    /// Shows the record of the last scan if there is one, and otherwise begins
    /// to scan.
    pub fn restore_or_start_scan(&mut self, cache: Option<ScanCache>) -> (action: Action)
        requires
            old(self).wf(),
            cache matches Some(record) ==> candidate::total_bytes(
                candidate::entries(record.candidates@),
            ) <= u64::MAX,
        ensures
            final(self).wf(),
            (final(self)@, action@) == match cache {
                Some(record) => (
                    old(self)@.restored(
                        candidate::entries(record.candidates@),
                        path::all_bytes(record.resolved_roots@),
                        record.scanned_at@,
                    ),
                    Request::Nothing,
                ),
                None => old(self)@.scan_requested(),
            },
    {
        match cache {
            None => self.start_scan(),
            Some(record) => {
                let mut status: String = "Loaded ".to_owned();
                status.append(text::decimal_text(record.candidates.len() as u64).as_str());
                status.append(" candidates totaling ");
                let total: u64 = match candidate::total_size(&record.candidates) {
                    Some(sum) => sum,
                    None => 0,
                };
                status.append(size::format_size(total).as_str());
                status.append(" from the last scan (");
                status.append(record.scanned_at.as_str());
                status.append(") · press R to rescan");
                self.listed_roots = record.resolved_roots;
                self.candidates = record.candidates;
                self.selected.clear();
                self.progress_done = 1;
                self.progress_total = 1;
                self.status = status;
                self.sync_table();
                Action::Nothing
            },
        }
    }

    /// Takes the reports of the scan in the background that have come in. The
    /// result says whether a scan has completed and is to be recorded.
    pub fn on_scan_events(&mut self, events: Vec<ScanEvent>) -> (completed: bool)
        requires
            old(self).wf(),
            forall|i: int|
                0 <= i < events@.len() ==> ((#[trigger] events@[i])@ matches scan::ScanReport::Finished { all, roots: _ }
                    ==> candidate::total_bytes(all) <= u64::MAX),
        ensures
            final(self).wf(),
            final(self)@ == old(self)@.reports_drained(events@),
            completed == (session::ends_scan(events@) && old(self)@.reports_seen(events@).scanning),
    {
        let mut finished: bool = false;
        assert(events@.take(0) =~= Seq::empty());
        for event in it: events
            invariant
                it.seq() == events@,
                self.wf(),
                forall|i: int|
                    0 <= i < events@.len() ==> ((#[trigger] events@[i])@ matches scan::ScanReport::Finished { all, roots: _ }
                        ==> candidate::total_bytes(all) <= u64::MAX),
                self@ == old(self)@.reports_seen(events@.take(it.index() as int)),
                finished == session::ends_scan(events@.take(it.index() as int)),
        {
            let ghost at = it.index() as int;
            let ghost before = self@;
            let ghost seen = events@.take(at);
            let ghost now = events@.take(at + 1);
            proof {
                assert(event == events@[at]);
                assert(now.drop_last() =~= seen);
                assert(now.last() == event);
                assert(session::ends_scan(now) == (session::ends_scan(seen) || !(event@ is Progress))) by {
                    if session::ends_scan(seen) {
                        let i = choose|i: int|
                            0 <= i < seen.len() && !((#[trigger] seen[i])@ is Progress);
                        assert(now[i] == seen[i]);
                    }
                    if !(event@ is Progress) {
                        assert(now[at] == event);
                    }
                    if session::ends_scan(now) {
                        let i = choose|i: int|
                            0 <= i < now.len() && !((#[trigger] now[i])@ is Progress);
                        if i < at {
                            assert(seen[i] == now[i]);
                        }
                    }
                }
            }
            match event {
                ScanEvent::Progress(snapshot) => {
                    self.stats = Some(snapshot);
                },
                ScanEvent::Finished { candidates, roots } => {
                    self.candidates = candidates;
                    self.listed_roots = roots;
                    finished = true;
                },
                ScanEvent::Failed(error) => {
                    self.scanning = false;
                    let mut status: String = "Scan failed: ".to_owned();
                    status.append(error.as_str());
                    self.status = status;
                    finished = true;
                },
            }
            assert(self@ =~= before.report_seen(event@));
        }
        assert(events@.take(events@.len() as int) =~= events@);
        if !finished {
            return false;
        }
        let completed: bool = self.scanning;
        let ghost seen = self@;
        if completed {
            self.scanning = false;
            assert(self@ =~= (AppView { scanning: false, ..seen }));
            self.sync_table();
            let total: u64 = match candidate::total_size(&self.candidates) {
                Some(sum) => sum,
                None => 0,
            };
            let mut status: String = "Found ".to_owned();
            status.append(text::decimal_text(self.candidates.len() as u64).as_str());
            status.append(" candidates totaling ");
            status.append(size::format_size(total).as_str());
            status.append(". Saved as last scan.");
            self.status = status;
        }
        self.progress_done = 1;
        self.progress_total = 1;
        assert(self@ =~= seen.scan_ended());
        completed
    }

    /// Takes one step of the removal in the background.
    fn on_removal_step(
        &mut self,
        index: usize,
        total: usize,
        candidate: &Candidate,
        error: Option<&str>,
    )
        requires
            old(self).wf(),
        ensures
            final(self).wf(),
            final(self)@ == old(self)@.removal_stepped(
                index as nat,
                total as nat,
                candidate@,
                text::optional_text(error),
            ),
    {
        let line: Vec<Span> = screen::removal_line(index, total, candidate, error);
        match self.modal.take() {
            Some(Modal::Removal(panel)) => {
                let mut panel: RemovalPanel = panel;
                let ghost before = panel@;
                panel.done = index;
                panel.total = total;
                panel.lines.push(line);
                assert(panel@.lines =~= before.lines.push(screen::line_view(line@)));
                self.modal = Some(Modal::Removal(panel));
            },
            other => {
                self.modal = other;
            },
        }
        assert(self@ =~= old(self)@.removal_stepped(
            index as nat,
            total as nat,
            candidate@,
            text::optional_text(error),
        ));
    }

    /// Takes the end of the removal in the background. `exists` says which
    /// candidates are still there.
    fn on_removal_finished(
        &mut self,
        deleted: usize,
        reclaimed: u64,
        errors: usize,
        exists: &Vec<bool>,
    )
        requires
            old(self).wf(),
            exists@.len() == old(self)@.candidates.len(),
        ensures
            final(self).wf(),
            final(self)@ == old(self)@.removal_ended(
                deleted as nat,
                reclaimed as nat,
                errors as nat,
                exists@,
            ),
    {
        let ghost all = candidate::entries(self.candidates@);
        let mut left: Vec<Candidate> = Vec::new();
        assert(candidate::entries(left@) =~= session::kept(all.take(0), exists@));
        for i in 0..self.candidates.len()
            invariant
                all == candidate::entries(self.candidates@),
                exists@.len() == all.len(),
                candidate::entries(left@) == session::kept(all.take(i as int), exists@),
        {
            let ghost before = left@;
            assert(all.take(i + 1).drop_last() =~= all.take(i as int));
            if exists[i] {
                left.push(self.candidates[i].clone());
                assert(candidate::entries(left@) =~= candidate::entries(before).push(all[i as int]));
            }
        }
        assert(all.take(all.len() as int) =~= all);
        proof {
            session::lemma_kept_total(all, exists@);
        }
        self.candidates = left;
        self.selected.clear();
        assert(self@ =~= (AppView {
            candidates: session::kept(all, exists@),
            selected: Set::empty(),
            ..old(self)@
        }));
        self.sync_table();
        let mut status: String = "Removed ".to_owned();
        status.append(text::decimal_text(deleted as u64).as_str());
        status.append(" directories and reclaimed ");
        status.append(size::format_size(reclaimed).as_str());
        status.append(".");
        let ghost start = status@;
        if errors != 0 {
            status.append(" Errors: ");
            status.append(text::decimal_text(errors as u64).as_str());
            assert(status@ =~= start + (" Errors: "@ + text::decimal(errors as nat)));
        } else {
            assert(start + Seq::<char>::empty() =~= start);
        }
        self.status = status;
        match self.modal.take() {
            Some(Modal::Removal(panel)) => {
                let mut panel: RemovalPanel = panel;
                panel.reclaimed = reclaimed;
                panel.errors = errors;
                panel.finished = true;
                self.modal = Some(Modal::Removal(panel));
            },
            other => {
                self.modal = other;
            },
        }
        assert(self@ =~= old(self)@.removal_ended(
            deleted as nat,
            reclaimed as nat,
            errors as nat,
            exists@,
        ));
    }

    /// Takes a report of the removal in the background; `exists` says which
    /// candidates are still there, which matters at the end only. The result
    /// says whether the removal is over and what is left is to be recorded.
    pub fn on_removal_event(&mut self, event: &RemovalEvent, exists: &Vec<bool>) -> (finished: bool)
        requires
            old(self).wf(),
            event is Finished ==> exists@.len() == old(self)@.candidates.len(),
        ensures
            final(self).wf(),
            final(self)@ == old(self)@.removal_reported(*event, exists@),
            finished == (event is Finished),
    {
        match event {
            RemovalEvent::Step { index, total, candidate, error } => {
                let message: Option<&str> = match error {
                    Some(text) => Some(text.as_str()),
                    None => None,
                };
                self.on_removal_step(*index, *total, candidate, message);
                false
            },
            RemovalEvent::Finished { deleted, reclaimed, errors } => {
                self.on_removal_finished(*deleted, *reclaimed, *errors, exists);
                true
            },
        }
    }

    // -------------------------------------------------------- drawing

    /// Takes note of how the table was drawn: the height of its area, borders
    /// and header included, and the row and offset that the widget settled on.
    pub fn table_drawn(&mut self, height: u16, cursor: Option<usize>, offset: usize)
        requires
            old(self).wf(),
        ensures
            final(self).wf(),
            final(self)@ == old(self)@.table_drawn(
                height as int,
                session::optional_row(cursor),
                offset as nat,
            ),
    {
        self.cursor = cursor;
        self.offset = offset;
        let rows: u16 = height.saturating_sub(3);
        self.table_height = if rows == 0 {
            1
        } else {
            rows as usize
        };
    }

    /// Writes the status line.
    pub fn status_line(&self) -> (line: String)
        ensures
            line@ == self@.status_line(),
    {
        match &self.stats {
            Some(stats) if self.scanning => screen::walk_status_text(self.threads, stats),
            _ => self.status.clone(),
        }
    }

    /// Writes the summary of the selection, and the hint of what removing it
    /// frees.
    pub fn selection_bar(&self) -> (texts: (String, String))
        requires
            self.wf(),
        ensures
            texts.0@ == screen::selection_summary(
                self@.selected.len(),
                candidate::total_bytes(self@.chosen()),
            ),
            texts.1@ == screen::selection_hint(
                self@.selected.len(),
                candidate::total_bytes(self@.chosen()),
            ),
    {
        let count: usize = self.selected.len();
        let bytes: u64 = match candidate::total_size(&self.chosen_candidates()) {
            Some(sum) => sum,
            None => 0,
        };
        (screen::selection_summary_text(count, bytes), screen::selection_hint_text(count, bytes))
    }

    /// Fills a row of the table.
    pub fn row(&self, index: usize) -> (row: TableRow)
        requires
            self.wf(),
            index < self@.candidates.len(),
        ensures
            screen::is_row_of(
                row,
                self@.candidates[index as int],
                self@.selected.contains(path::parts(self@.candidates[index as int].path)),
            ),
    {
        let candidate: &Candidate = &self.candidates[index];
        screen::table_row(candidate, self.selected.contains(&candidate.path))
    }

    // -------------------------------------------------------- getters

    /// The roots to scan.
    pub fn roots(&self) -> (roots: &Vec<Vec<u8>>)
        ensures
            path::all_bytes(roots@) == self@.roots,
    {
        &self.roots
    }

    /// The resolved roots of the scan that found the candidates.
    pub fn listed_roots(&self) -> (roots: &Vec<Vec<u8>>)
        ensures
            path::all_bytes(roots@) == self@.listed_roots,
    {
        &self.listed_roots
    }

    /// The number of scanner threads.
    pub fn threads(&self) -> (threads: usize)
        ensures
            threads == self@.threads,
    {
        self.threads
    }

    /// What stands in the input field for the number of threads.
    pub fn threads_input(&self) -> (input: &str)
        ensures
            input@ == self@.threads_input,
    {
        self.threads_input.as_str()
    }

    /// The candidates on the list.
    pub fn candidates(&self) -> (candidates: &Vec<Candidate>)
        ensures
            candidate::entries(candidates@) == self@.candidates,
    {
        &self.candidates
    }

    /// Whether a path is selected.
    pub fn is_selected(&self, path: &[u8]) -> (selected: bool)
        requires
            self.wf(),
        ensures
            selected == self@.selected.contains(path::parts(path@)),
    {
        self.selected.contains(path)
    }

    /// The highlighted row.
    pub fn cursor(&self) -> (cursor: Option<usize>)
        ensures
            session::optional_row(cursor) == self@.cursor,
    {
        self.cursor
    }

    /// The first row on screen.
    pub fn offset(&self) -> (offset: usize)
        ensures
            offset == self@.offset,
    {
        self.offset
    }

    /// Whether a scan runs.
    pub fn is_scanning(&self) -> (scanning: bool)
        ensures
            scanning == self@.scanning,
    {
        self.scanning
    }

    /// Whether the settings are on screen.
    pub fn shows_settings(&self) -> (shown: bool)
        ensures
            shown == self@.show_settings,
    {
        self.show_settings
    }

    /// Which widget receives plain character keys.
    pub fn focus(&self) -> (focus: Focus)
        ensures
            focus == self@.focus,
    {
        self.focus
    }

    /// The steps of the scan that are done, and all of them.
    pub fn progress(&self) -> (progress: (u64, u64))
        ensures
            progress.0 == self@.progress_done,
            progress.1 == self@.progress_total,
    {
        (self.progress_done, self.progress_total)
    }

    /// The overlay on screen.
    pub fn modal(&self) -> (modal: &Option<Modal>)
        ensures
            session::optional_modal(*modal) == self@.modal,
    {
        &self.modal
    }

    /// Whether the session is over.
    pub fn should_quit(&self) -> (quit: bool)
        ensures
            quit == self@.should_quit,
    {
        self.should_quit
    }
}

} // verus!
