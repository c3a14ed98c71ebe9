//! What an interactive session is, and how keys and background events change
//! it.
//!
//! [`AppView`] is a session as the contracts speak of it; its methods are the
//! steps that a session takes. The laws at the end hold of every session.

use vstd::prelude::*;

use crate::candidate;
use crate::candidate::Candidate;
use crate::path;
use crate::removal::RemovalEvent;
use crate::scan;
use crate::scan::{ProgressSnapshot, ScanEvent};
use crate::screen;
use crate::screen::Span;
use crate::size;
use crate::text;

verus! {

// -------------------------------------------------------------------- input

/// A key on the keyboard.
#[derive(Clone, Copy, Debug, PartialEq, Eq, Structural)]
pub enum Key {
    Char(char),
    Enter,
    Esc,
    Backspace,
    Tab,
    Up,
    Down,
    PageUp,
    PageDown,
    Home,
    End,
    Other,
}

/// A key press.
#[derive(Clone, Copy, Debug, PartialEq, Eq, Structural)]
pub struct KeyPress {
    pub key: Key,
    /// Whether the control key is held.
    pub ctrl: bool,
}

/// Which widget receives plain character keys.
#[derive(Clone, Copy, Debug, PartialEq, Eq, Structural)]
pub enum Focus {
    Table,
    ThreadsInput,
}

/// What the caller has to start.
pub enum Action {
    Nothing,
    /// Scan the roots with the current number of threads.
    Scan,
    /// Remove these directories, which a scan of these roots has found.
    Remove { targets: Vec<Candidate>, roots: Vec<Vec<u8>> },
}

// ------------------------------------------------------------------- modals

/// The state of the removal dialog.
pub struct RemovalPanel {
    pub lines: Vec<Vec<Span>>,
    pub done: usize,
    pub total: usize,
    pub reclaimed: u64,
    pub errors: usize,
    pub finished: bool,
}

/// The single overlay that can be on screen at a time.
pub enum Modal {
    Confirm { count: usize, bytes: u64 },
    Removal(RemovalPanel),
    Help,
}

// -------------------------------------------------------------------- model

/// What the caller has to start, as the contracts speak of it.
pub enum Request {
    Nothing,
    Scan,
    Remove { targets: Seq<candidate::Entry>, roots: Seq<Seq<u8>> },
}

impl View for Action {
    type V = Request;

    open spec fn view(&self) -> Request {
        match self {
            Action::Nothing => Request::Nothing,
            Action::Scan => Request::Scan,
            Action::Remove { targets, roots } => Request::Remove {
                targets: candidate::entries(targets@),
                roots: path::all_bytes(roots@),
            },
        }
    }
}

/// The removal dialog as the contracts speak of it.
pub struct PanelView {
    pub lines: Seq<Seq<screen::SpanView>>,
    pub done: nat,
    pub total: nat,
    pub reclaimed: nat,
    pub errors: nat,
    pub finished: bool,
}

/// An overlay as the contracts speak of it.
pub enum ModalView {
    Confirm { count: nat, bytes: nat },
    Removal(PanelView),
    Help,
}

impl View for RemovalPanel {
    type V = PanelView;

    open spec fn view(&self) -> PanelView {
        PanelView {
            lines: self.lines@.map_values(|line: Vec<Span>| screen::line_view(line@)),
            done: self.done as nat,
            total: self.total as nat,
            reclaimed: self.reclaimed as nat,
            errors: self.errors as nat,
            finished: self.finished,
        }
    }
}

impl View for Modal {
    type V = ModalView;

    open spec fn view(&self) -> ModalView {
        match self {
            Modal::Confirm { count, bytes } => ModalView::Confirm {
                count: *count as nat,
                bytes: *bytes as nat,
            },
            Modal::Removal(panel) => ModalView::Removal(panel@),
            Modal::Help => ModalView::Help,
        }
    }
}

/// A session as the contracts speak of it.
#[verifier::ext_equal]
pub struct AppView {
    /// The roots to scan.
    pub roots: Seq<Seq<u8>>,
    /// The resolved roots of the scan that found the candidates.
    pub listed_roots: Seq<Seq<u8>>,
    /// The number of scanner threads.
    pub threads: nat,
    /// What stands in the input field for the number of threads.
    pub threads_input: Seq<char>,
    pub candidates: Seq<candidate::Entry>,
    /// The selected paths.
    pub selected: Set<Seq<path::Part>>,
    /// The highlighted row.
    pub cursor: Option<nat>,
    /// The first row on screen.
    pub offset: nat,
    /// The rows that fit on screen.
    pub height: nat,
    pub status: Seq<char>,
    pub scanning: bool,
    pub show_settings: bool,
    pub focus: Focus,
    pub progress_done: nat,
    pub progress_total: nat,
    pub stats: Option<scan::Counters>,
    pub modal: Option<ModalView>,
    pub should_quit: bool,
}

/// The entries of `all` whose paths are in `selected`.
pub open spec fn marked(all: Seq<candidate::Entry>, selected: Set<Seq<path::Part>>) -> Seq<
    candidate::Entry,
>
    decreases all.len(),
{
    if all.len() == 0 {
        Seq::empty()
    } else {
        let before = marked(all.drop_last(), selected);
        if selected.contains(path::parts(all.last().path)) {
            before.push(all.last())
        } else {
            before
        }
    }
}

/// The entries of `all` at the positions where `keep` holds.
pub open spec fn kept(all: Seq<candidate::Entry>, keep: Seq<bool>) -> Seq<candidate::Entry>
    decreases all.len(),
{
    if all.len() == 0 {
        Seq::empty()
    } else {
        let before = kept(all.drop_last(), keep);
        if keep[all.len() - 1] {
            before.push(all.last())
        } else {
            before
        }
    }
}

/// The paths of `all`.
pub open spec fn paths_of(all: Seq<candidate::Entry>) -> Set<Seq<path::Part>> {
    Set::new(|parts: Seq<path::Part>| exists|i: int|
        0 <= i < all.len() && path::parts((#[trigger] all[i]).path) == parts)
}

/// The message for a request that needs a selection.
pub open spec fn nothing_selected() -> Seq<char> {
    "Nothing selected. Use space or A to select directories."@
}

impl AppView {
    /// The candidates that are selected.
    pub open spec fn chosen(self) -> Seq<candidate::Entry> {
        marked(self.candidates, self.selected)
    }

    /// The highlighted row, or the first one.
    pub open spec fn row(self) -> int {
        match self.cursor {
            Some(index) => index as int,
            None => 0,
        }
    }

    /// The rows that fit on screen, at least one.
    pub open spec fn rows(self) -> int {
        if self.height == 0 {
            1
        } else {
            self.height as int
        }
    }

    /// The session scrolled just as far as the highlighted row needs it.
    pub open spec fn in_view(self) -> AppView {
        AppView {
            offset: if self.row() < self.offset {
                self.row() as nat
            } else if self.row() >= self.offset + self.rows() {
                (self.row() + 1 - self.rows()) as nat
            } else {
                self.offset
            },
            ..self
        }
    }

    /// The session with the highlighted row moved onto the list.
    pub open spec fn synced(self) -> AppView {
        if self.candidates.len() == 0 {
            AppView { cursor: None, offset: 0, ..self }.in_view()
        } else {
            self.at_row(self.row())
        }
    }

    /// The session with the given row highlighted, or the last one where there
    /// are fewer rows.
    pub open spec fn at_row(self, index: int) -> AppView {
        if self.candidates.len() == 0 {
            self
        } else {
            AppView {
                cursor: Some(
                    if index < self.candidates.len() {
                        index as nat
                    } else {
                        (self.candidates.len() - 1) as nat
                    },
                ),
                ..self
            }.in_view()
        }
    }

    /// The session with the highlighted row moved by `delta`, within the list.
    pub open spec fn moved(self, delta: int) -> AppView {
        if self.row() + delta < 0 {
            self.at_row(0)
        } else {
            self.at_row(self.row() + delta)
        }
    }

    /// The session with the highlighted candidate selected or unselected.
    pub open spec fn toggled(self) -> AppView {
        if self.cursor is Some && self.cursor->0 < self.candidates.len() {
            let parts = path::parts(self.candidates[self.cursor->0 as int].path);
            AppView {
                selected: if self.selected.contains(parts) {
                    self.selected.remove(parts)
                } else {
                    self.selected.insert(parts)
                },
                ..self
            }
        } else {
            self
        }
    }

    /// The session with every candidate selected.
    pub open spec fn all_selected(self) -> AppView {
        AppView { selected: paths_of(self.candidates), ..self }
    }

    /// The session with nothing selected.
    pub open spec fn none_selected(self) -> AppView {
        AppView { selected: Set::empty(), ..self }
    }

    /// The session with the settings opened or closed.
    pub open spec fn settings_toggled(self) -> AppView {
        if self.show_settings {
            AppView { show_settings: false, focus: Focus::Table, ..self }
        } else {
            AppView {
                show_settings: true,
                focus: Focus::ThreadsInput,
                threads_input: text::decimal(self.threads),
                ..self
            }
        }
    }

    /// The session asking to confirm a removal.
    pub open spec fn removal_asked(self) -> AppView {
        if self.chosen().len() == 0 {
            AppView { status: nothing_selected(), ..self }
        } else {
            AppView {
                modal: Some(
                    ModalView::Confirm {
                        count: self.chosen().len(),
                        bytes: candidate::total_bytes(self.chosen()),
                    },
                ),
                ..self
            }
        }
    }

    /// The session with a removal begun, and what is to be removed.
    pub open spec fn removal_begun(self) -> (AppView, Request) {
        if self.chosen().len() == 0 {
            (AppView { status: nothing_selected(), ..self }, Request::Nothing)
        } else {
            (
                AppView {
                    modal: Some(
                        ModalView::Removal(
                            PanelView {
                                lines: Seq::empty(),
                                done: 0,
                                total: self.chosen().len(),
                                reclaimed: 0,
                                errors: 0,
                                finished: false,
                            },
                        ),
                    ),
                    status: "Removing "@ + text::decimal(self.chosen().len()) + " directories..."@,
                    ..self
                },
                Request::Remove { targets: self.chosen(), roots: self.listed_roots },
            )
        }
    }

    /// The session with a scan on `threads` threads begun.
    pub open spec fn scan_begun(self, threads: nat) -> AppView {
        AppView {
            status: "Scanning with "@ + text::decimal(threads) + " threads..."@,
            ..AppView {
                threads,
                scanning: true,
                selected: Set::empty(),
                candidates: Seq::empty(),
                stats: None,
                progress_done: 0,
                progress_total: 1,
                ..self
            }.synced()
        }
    }

    /// The session after a request to scan. While a scan runs, or while the
    /// settings show no supported number of threads, none is begun.
    pub open spec fn scan_requested(self) -> (AppView, Request) {
        if self.scanning {
            (self, Request::Nothing)
        } else if self.show_settings {
            match text::number(text::trimmed(self.threads_input), usize::MAX as nat) {
                Some(threads) => if scan::is_thread_count(threads as int) {
                    (self.scan_begun(threads), Request::Scan)
                } else {
                    (
                        AppView {
                            status: "Thread count must be between "@ + text::decimal(
                                scan::MIN_THREADS as nat,
                            ) + " and "@ + text::decimal(scan::MAX_THREADS as nat) + "."@,
                            ..self
                        },
                        Request::Nothing,
                    )
                },
                None => (
                    AppView {
                        status: "Thread count must be a number from 1 through 8."@,
                        ..self
                    },
                    Request::Nothing,
                ),
            }
        } else {
            (self.scan_begun(self.threads), Request::Scan)
        }
    }

    /// The session after a key in the input field.
    pub open spec fn input_typed(self, key: Key) -> AppView {
        match key {
            Key::Char(c) => if text::is_digit(c) {
                AppView { threads_input: seq![c], ..self }
            } else {
                self
            },
            Key::Backspace => if self.threads_input.len() == 0 {
                self
            } else {
                AppView { threads_input: self.threads_input.drop_last(), ..self }
            },
            Key::Enter => self.settings_toggled(),
            Key::Tab => self.settings_toggled(),
            _ => self,
        }
    }

    /// The session after a key while an overlay is on screen.
    pub open spec fn modal_pressed(self, key: Key) -> (AppView, Request) {
        let closed = AppView { modal: None, ..self };
        match self.modal {
            Some(ModalView::Confirm { .. }) => {
                if key == Key::Char('y') || key == Key::Char('Y') || key == Key::Enter {
                    closed.removal_begun()
                } else if key == Key::Esc || key == Key::Char('n') || key == Key::Char('N') || key
                    == Key::Char('q') {
                    (closed, Request::Nothing)
                } else {
                    (self, Request::Nothing)
                }
            },
            Some(ModalView::Removal(panel)) => {
                if panel.finished && (key == Key::Esc || key == Key::Enter || key == Key::Char(' ')
                    || key == Key::Char('q')) {
                    (closed, Request::Nothing)
                } else {
                    (self, Request::Nothing)
                }
            },
            Some(ModalView::Help) => (closed, Request::Nothing),
            None => (self, Request::Nothing),
        }
    }

    /// The session after a control-key shortcut, if the press is one.
    pub open spec fn control_pressed(self, key: Key) -> Option<(AppView, Request)> {
        if key == Key::Char('q') || key == Key::Char('c') {
            Some((AppView { should_quit: true, ..self }, Request::Nothing))
        } else if key == Key::Char('r') {
            Some(self.scan_requested())
        } else if key == Key::Char('t') {
            Some((self.settings_toggled(), Request::Nothing))
        } else if key == Key::Char('a') {
            Some((self.all_selected(), Request::Nothing))
        } else if key == Key::Char('n') {
            Some((self.none_selected(), Request::Nothing))
        } else if key == Key::Char('d') {
            Some((self.removal_asked(), Request::Nothing))
        } else {
            None
        }
    }

    /// The session after a key that goes to the table.
    pub open spec fn table_pressed(self, key: Key) -> (AppView, Request) {
        match key {
            Key::Up => (self.moved(-1), Request::Nothing),
            Key::Down => (self.moved(1), Request::Nothing),
            Key::PageUp => (self.moved(-(self.height as int)), Request::Nothing),
            Key::PageDown => (self.moved(self.height as int), Request::Nothing),
            Key::Home => (self.at_row(0), Request::Nothing),
            Key::End => (self.at_row(self.candidates.len() - 1), Request::Nothing),
            Key::Char(c) => if c == 'k' {
                (self.moved(-1), Request::Nothing)
            } else if c == 'j' {
                (self.moved(1), Request::Nothing)
            } else if c == ' ' {
                (self.toggled(), Request::Nothing)
            } else if c == 'a' || c == 'A' {
                (self.all_selected(), Request::Nothing)
            } else if c == 'n' || c == 'N' {
                (self.none_selected(), Request::Nothing)
            } else if c == 'r' || c == 'R' {
                self.scan_requested()
            } else if c == 't' || c == 'T' {
                (self.settings_toggled(), Request::Nothing)
            } else if c == 'd' || c == 'D' {
                (self.removal_asked(), Request::Nothing)
            } else if c == 'q' || c == 'Q' {
                (AppView { should_quit: true, ..self }, Request::Nothing)
            } else {
                (self, Request::Nothing)
            },
            _ => (self, Request::Nothing),
        }
    }

    /// The session after a key press, and what it asks the caller to start.
    pub open spec fn pressed(self, press: KeyPress) -> (AppView, Request) {
        if self.modal is Some {
            self.modal_pressed(press.key)
        } else if press.ctrl && self.control_pressed(press.key) is Some {
            self.control_pressed(press.key)->0
        } else if press.key == Key::Char('?') {
            (AppView { modal: Some(ModalView::Help), ..self }, Request::Nothing)
        } else if press.key == Key::Esc && self.show_settings {
            (self.settings_toggled(), Request::Nothing)
        } else if self.focus == Focus::ThreadsInput {
            (self.input_typed(press.key), Request::Nothing)
        } else {
            self.table_pressed(press.key)
        }
    }

    /// The session after a report of the scan in the background.
    pub open spec fn report_seen(self, report: scan::ScanReport) -> AppView {
        match report {
            scan::ScanReport::Progress(counters) => AppView { stats: Some(counters), ..self },
            scan::ScanReport::Finished { all, roots } => AppView {
                candidates: all,
                listed_roots: roots,
                ..self
            },
            scan::ScanReport::Failed(message) => AppView {
                scanning: false,
                status: "Scan failed: "@ + message,
                ..self
            },
        }
    }

    /// The session after several reports, in order.
    pub open spec fn reports_seen(self, events: Seq<ScanEvent>) -> AppView
        decreases events.len(),
    {
        if events.len() == 0 {
            self
        } else {
            self.reports_seen(events.drop_last()).report_seen(events.last()@)
        }
    }

    /// The session once the scan that ran has ended.
    pub open spec fn scan_ended(self) -> AppView {
        let idle = if self.scanning {
            AppView {
                status: "Found "@ + text::decimal(self.candidates.len())
                    + " candidates totaling "@ + size::size_text(
                    candidate::total_bytes(self.candidates),
                ) + ". Saved as last scan."@,
                ..AppView { scanning: false, ..self }.synced()
            }
        } else {
            self
        };
        AppView { progress_done: 1, progress_total: 1, ..idle }
    }

    /// The session after the reports that have come in.
    pub open spec fn reports_drained(self, events: Seq<ScanEvent>) -> AppView {
        if ends_scan(events) {
            self.reports_seen(events).scan_ended()
        } else {
            self.reports_seen(events)
        }
    }

    /// The session after one step of a removal.
    pub open spec fn removal_stepped(
        self,
        index: nat,
        total: nat,
        entry: candidate::Entry,
        error: Option<Seq<char>>,
    ) -> AppView {
        match self.modal {
            Some(ModalView::Removal(panel)) => AppView {
                modal: Some(
                    ModalView::Removal(
                        PanelView {
                            lines: panel.lines.push(
                                screen::removal_step_line(index, total, entry, error),
                            ),
                            done: index,
                            total,
                            ..panel
                        },
                    ),
                ),
                ..self
            },
            _ => self,
        }
    }

    /// The session after a removal, where `exists` says which candidates are
    /// still there.
    pub open spec fn removal_ended(
        self,
        deleted: nat,
        reclaimed: nat,
        errors: nat,
        exists: Seq<bool>,
    ) -> AppView {
        let left = AppView {
            candidates: kept(self.candidates, exists),
            selected: Set::empty(),
            ..self
        }.synced();
        AppView {
            status: "Removed "@ + text::decimal(deleted) + " directories and reclaimed "@
                + size::size_text(reclaimed) + "."@ + (if errors == 0 {
                Seq::empty()
            } else {
                " Errors: "@ + text::decimal(errors)
            }),
            modal: match self.modal {
                Some(ModalView::Removal(panel)) => Some(
                    ModalView::Removal(PanelView { reclaimed, errors, finished: true, ..panel }),
                ),
                _ => self.modal,
            },
            ..left
        }
    }

    /// The session after a report of the removal in the background.
    pub open spec fn removal_reported(self, event: RemovalEvent, exists: Seq<bool>) -> AppView {
        match event {
            RemovalEvent::Step { index, total, candidate, error } => self.removal_stepped(
                index as nat,
                total as nat,
                candidate@,
                match error {
                    Some(message) => Some(message@),
                    None => None,
                },
            ),
            RemovalEvent::Finished { deleted, reclaimed, errors } => self.removal_ended(
                deleted as nat,
                reclaimed as nat,
                errors as nat,
                exists,
            ),
        }
    }

    /// The session after the table was drawn in an area of the given height,
    /// with the row and the offset that the table widget settled on.
    pub open spec fn table_drawn(self, height: int, cursor: Option<nat>, offset: nat) -> AppView {
        AppView {
            cursor,
            offset,
            height: if height > 3 {
                (height - 3) as nat
            } else {
                1
            },
            ..self
        }
    }

    /// The text of the status line.
    pub open spec fn status_line(self) -> Seq<char> {
        if self.stats is Some && self.scanning {
            screen::walk_status(self.threads, self.stats->0)
        } else {
            self.status
        }
    }

    /// The session showing the record of the last scan, which was one of
    /// `roots`.
    pub open spec fn restored(
        self,
        all: Seq<candidate::Entry>,
        roots: Seq<Seq<u8>>,
        scanned_at: Seq<char>,
    ) -> AppView {
        AppView {
            candidates: all,
            listed_roots: roots,
            selected: Set::empty(),
            progress_done: 1,
            progress_total: 1,
            status: "Loaded "@ + text::decimal(all.len()) + " candidates totaling "@
                + size::size_text(candidate::total_bytes(all)) + " from the last scan ("@
                + scanned_at + ") · press R to rescan"@,
            ..self
        }.synced()
    }
}

/// Whether one of the reports says that the scan is over.
pub open spec fn ends_scan(events: Seq<ScanEvent>) -> bool {
    exists|i: int| 0 <= i < events.len() && !((#[trigger] events[i])@ is Progress)
}

/// An optional row as the contracts speak of it.
pub open spec fn optional_row(row: Option<usize>) -> Option<nat> {
    match row {
        Some(index) => Some(index as nat),
        None => None,
    }
}

/// Optional counters as the contracts speak of them.
pub open spec fn optional_counters(stats: Option<ProgressSnapshot>) -> Option<scan::Counters> {
    match stats {
        Some(snapshot) => Some(snapshot@),
        None => None,
    }
}

/// An optional overlay as the contracts speak of it.
pub open spec fn optional_modal(modal: Option<Modal>) -> Option<ModalView> {
    match modal {
        Some(overlay) => Some(overlay@),
        None => None,
    }
}

/// The entries that are marked take no more than all of them.
pub proof fn lemma_marked_total(all: Seq<candidate::Entry>, selected: Set<Seq<path::Part>>)
    ensures
        candidate::total_bytes(marked(all, selected)) <= candidate::total_bytes(all),
        marked(all, selected).len() <= all.len(),
    decreases all.len(),
{
    if all.len() > 0 {
        lemma_marked_total(all.drop_last(), selected);
        let before = marked(all.drop_last(), selected);
        if selected.contains(path::parts(all.last().path)) {
            assert(before.push(all.last()).drop_last() =~= before);
        }
    }
}

/// The entries that are kept take no more than all of them.
pub proof fn lemma_kept_total(all: Seq<candidate::Entry>, keep: Seq<bool>)
    ensures
        candidate::total_bytes(kept(all, keep)) <= candidate::total_bytes(all),
    decreases all.len(),
{
    if all.len() > 0 {
        lemma_kept_total(all.drop_last(), keep);
        let before = kept(all.drop_last(), keep);
        assert(before.push(all.last()).drop_last() =~= before);
    }
}

// --------------------------------------------------------------------- laws

impl AppView {
    /// Whether everything selected is on the list; a running scan starts from
    /// an empty list.
    pub open spec fn selects_what_it_lists(self) -> bool {
        &&& self.selected.subset_of(paths_of(self.candidates))
        &&& self.scanning ==> self.candidates.len() == 0
    }

    /// Whether the highlighted row is on the list and among the rows on screen.
    pub open spec fn shows_its_cursor(self) -> bool {
        self.cursor matches Some(row) ==> row < self.candidates.len() && self.offset <= row
            < self.offset + self.rows()
    }
}

/// A marked entry is one of all entries, and its path is selected.
proof fn lemma_marked_entries(all: Seq<candidate::Entry>, selected: Set<Seq<path::Part>>)
    ensures
        forall|i: int|
            0 <= i < marked(all, selected).len() ==> all.contains(
                #[trigger] marked(all, selected)[i],
            ) && selected.contains(path::parts(marked(all, selected)[i].path)),
    decreases all.len(),
{
    if all.len() > 0 {
        lemma_marked_entries(all.drop_last(), selected);
        let before = marked(all.drop_last(), selected);
        let after = marked(all, selected);
        assert forall|i: int| 0 <= i < after.len() implies all.contains(#[trigger] after[i])
            && selected.contains(path::parts(after[i].path)) by {
            if i < before.len() {
                assert(after[i] == before[i]);
                let k = choose|k: int| 0 <= k < all.len() - 1 && all.drop_last()[k] == before[i];
                assert(all[k] == after[i]);
            } else {
                assert(all[all.len() - 1] == after[i]);
            }
        }
    }
}

/// A removal starts only from the dialog that asks for confirmation, on `Y` or
/// Enter. It takes exactly the selected candidates of the list, and there is
/// at least one. It is held to the roots of the scan that found the list.
pub proof fn law_removal_is_confirmed(app: AppView, press: KeyPress)
    ensures
        app.pressed(press).1 matches Request::Remove { targets, roots } ==> {
            &&& app.modal matches Some(ModalView::Confirm { .. })
            &&& press.key == Key::Char('y') || press.key == Key::Char('Y') || press.key
                == Key::Enter
            &&& targets == app.chosen()
            &&& targets.len() > 0
            &&& roots == app.listed_roots
            &&& forall|i: int|
                0 <= i < targets.len() ==> app.candidates.contains(#[trigger] targets[i])
                    && app.selected.contains(path::parts(targets[i].path))
        },
{
    lemma_marked_entries(app.candidates, app.selected);
}

/// What a confirmed removal takes is what its dialog asked about: as many
/// directories, and as many bytes.
pub proof fn law_confirmation_says_what_is_removed(app: AppView, press: KeyPress)
    requires
        app.modal is None,
        app.chosen().len() > 0,
        press.key == Key::Char('y') || press.key == Key::Char('Y') || press.key == Key::Enter,
    ensures
        app.removal_asked().modal == Some(
            ModalView::Confirm {
                count: app.chosen().len(),
                bytes: candidate::total_bytes(app.chosen()),
            },
        ),
        app.removal_asked().pressed(press).1 == (Request::Remove {
            targets: app.chosen(),
            roots: app.listed_roots,
        }),
{
}

/// Nothing leaves the confirmation dialog but the keys that confirm and the
/// keys that cancel, and cancelling changes nothing else.
pub proof fn law_cancelling_changes_nothing(app: AppView, press: KeyPress)
    requires
        app.modal matches Some(ModalView::Confirm { .. }),
        !(press.key == Key::Char('y') || press.key == Key::Char('Y') || press.key == Key::Enter),
    ensures
        app.pressed(press).1 == Request::Nothing,
        app.pressed(press).0 == app || app.pressed(press).0 == (AppView { modal: None, ..app }),
        app.pressed(press).0 == app <==> !(press.key == Key::Esc || press.key == Key::Char('n')
            || press.key == Key::Char('N') || press.key == Key::Char('q')),
{
}

/// Keys never select what is not on the list.
pub proof fn law_keys_select_what_is_listed(app: AppView, press: KeyPress)
    requires
        app.selects_what_it_lists(),
    ensures
        app.pressed(press).0.selects_what_it_lists(),
{
    if app.cursor is Some && app.cursor->0 < app.candidates.len() {
        let entry = app.candidates[app.cursor->0 as int];
        assert(paths_of(app.candidates).contains(path::parts(entry.path)));
    }
}

/// A scan whose reports come in lists what it found with nothing selected.
pub proof fn law_reports_select_nothing(app: AppView, events: Seq<ScanEvent>)
    requires
        app.selects_what_it_lists(),
        app.scanning,
    ensures
        app.reports_drained(events).selects_what_it_lists(),
        app.reports_drained(events).selected == Set::<Seq<path::Part>>::empty(),
        app.reports_drained(events).scanning == !ends_scan(events),
{
    lemma_reports_seen(app, events);
    assert(app.selected =~= Set::<Seq<path::Part>>::empty());
}

/// Reports leave the selection alone; only an end changes the list or stops
/// the scan.
proof fn lemma_reports_seen(app: AppView, events: Seq<ScanEvent>)
    ensures
        app.reports_seen(events).selected == app.selected,
        !ends_scan(events) ==> app.reports_seen(events).candidates == app.candidates
            && app.reports_seen(events).scanning == app.scanning,
    decreases events.len(),
{
    if events.len() > 0 {
        let before = events.drop_last();
        lemma_reports_seen(app, before);
        if ends_scan(before) {
            let i = choose|i: int| 0 <= i < before.len() && !((#[trigger] before[i])@ is Progress);
            assert(events[i] == before[i]);
        }
        if !(events.last()@ is Progress) {
            assert(ends_scan(events));
        }
    }
}

/// Keys, and what a removal reports, leave the list with the roots that it was
/// found in; the end of a scan and a record bring a list with its own.
pub proof fn law_list_stays_with_its_roots(
    app: AppView,
    press: KeyPress,
    event: RemovalEvent,
    exists: Seq<bool>,
    all: Seq<candidate::Entry>,
    roots: Seq<Seq<u8>>,
    scanned_at: Seq<char>,
)
    ensures
        app.pressed(press).0.roots == app.roots,
        app.pressed(press).0.listed_roots == app.listed_roots,
        app.removal_reported(event, exists).listed_roots == app.listed_roots,
        app.report_seen(scan::ScanReport::Finished { all, roots }).candidates == all,
        app.report_seen(scan::ScanReport::Finished { all, roots }).listed_roots == roots,
        app.restored(all, roots, scanned_at).candidates == all,
        app.restored(all, roots, scanned_at).listed_roots == roots,
{
}

/// A removal in the background never leaves anything selected that is not on
/// the list.
pub proof fn law_removal_selects_what_is_listed(
    app: AppView,
    event: RemovalEvent,
    exists: Seq<bool>,
)
    requires
        app.selects_what_it_lists(),
    ensures
        app.removal_reported(event, exists).selects_what_it_lists(),
{
}

/// Selecting a candidate and then unselecting it changes nothing, nor does
/// the reverse.
pub proof fn law_toggling_twice_changes_nothing(app: AppView)
    ensures
        app.toggled().toggled() == app,
{
    assert(app.toggled().toggled() =~= app);
}

/// With everything selected a removal takes the whole list, and with nothing
/// selected it takes nothing.
pub proof fn law_select_all_and_none(app: AppView)
    ensures
        app.all_selected().chosen() == app.candidates,
        app.none_selected().chosen() == Seq::<candidate::Entry>::empty(),
{
    lemma_all_marked(app.candidates, paths_of(app.candidates));
    lemma_none_marked(app.candidates);
}

proof fn lemma_all_marked(all: Seq<candidate::Entry>, selected: Set<Seq<path::Part>>)
    requires
        paths_of(all).subset_of(selected),
    ensures
        marked(all, selected) == all,
    decreases all.len(),
{
    if all.len() > 0 {
        let before = all.drop_last();
        assert forall|parts: Seq<path::Part>| paths_of(before).contains(parts) implies paths_of(
            all,
        ).contains(parts) by {
            let k = choose|k: int|
                0 <= k < before.len() && path::parts((#[trigger] before[k]).path) == parts;
            assert(all[k] == before[k]);
        }
        lemma_all_marked(before, selected);
        assert(all[all.len() - 1] == all.last());
        assert(paths_of(all).contains(path::parts(all.last().path)));
        assert(before.push(all.last()) =~= all);
    } else {
        assert(all =~= Seq::empty());
    }
}

proof fn lemma_none_marked(all: Seq<candidate::Entry>)
    ensures
        marked(all, Set::empty()) == Seq::<candidate::Entry>::empty(),
    decreases all.len(),
{
    if all.len() > 0 {
        lemma_none_marked(all.drop_last());
    }
}

proof fn lemma_row_shows(app: AppView, index: int)
    requires
        app.shows_its_cursor(),
        0 <= index || app.candidates.len() == 0,
    ensures
        app.at_row(index).shows_its_cursor(),
{
}

proof fn lemma_scan_shows(app: AppView)
    requires
        app.shows_its_cursor(),
    ensures
        app.scan_requested().0.shows_its_cursor(),
{
}

proof fn lemma_table_shows(app: AppView, key: Key)
    requires
        app.shows_its_cursor(),
    ensures
        app.table_pressed(key).0.shows_its_cursor(),
{
    let row = app.row();
    let page = app.height as int;
    lemma_row_shows(app, 0);
    lemma_row_shows(app, app.candidates.len() - 1);
    lemma_row_shows(app, row + 1);
    lemma_row_shows(app, row + page);
    if row >= 1 {
        lemma_row_shows(app, row - 1);
    }
    if row >= page {
        lemma_row_shows(app, row - page);
    }
    lemma_scan_shows(app);
}

/// Keys keep the highlighted row on the list and on screen.
pub proof fn law_highlight_stays_on_screen(app: AppView, press: KeyPress)
    requires
        app.shows_its_cursor(),
    ensures
        app.pressed(press).0.shows_its_cursor(),
{
    let after = app.pressed(press).0;
    lemma_scan_shows(app);
    lemma_table_shows(app, press.key);
    if after != app.scan_requested().0 && after != app.table_pressed(press.key).0 {
        assert(after.cursor == app.cursor);
        assert(after.offset == app.offset);
    }
}

/// Moving the highlight, to a row or by some rows, leaves it on the list and
/// on screen, and changes nothing but the highlight and the scrolling.
pub proof fn law_moving_shows_the_highlight(app: AppView, index: int, delta: int)
    requires
        0 <= index,
        app.candidates.len() > 0,
    ensures
        app.at_row(index).cursor is Some,
        app.at_row(index).shows_its_cursor(),
        app.moved(delta).cursor is Some,
        app.moved(delta).shows_its_cursor(),
        app.synced().cursor is Some,
        app.synced().shows_its_cursor(),
        app.moved(delta) == (AppView {
            cursor: app.moved(delta).cursor,
            offset: app.moved(delta).offset,
            ..app
        }),
{
}

/// The end of a scan or of a removal leaves the highlight on the list and on
/// screen.
pub proof fn law_new_lists_show_the_highlight(
    app: AppView,
    deleted: nat,
    reclaimed: nat,
    errors: nat,
    exists: Seq<bool>,
    all: Seq<candidate::Entry>,
    roots: Seq<Seq<u8>>,
    scanned_at: Seq<char>,
)
    ensures
        app.scanning ==> app.scan_ended().shows_its_cursor(),
        app.removal_ended(deleted, reclaimed, errors, exists).shows_its_cursor(),
        app.restored(all, roots, scanned_at).shows_its_cursor(),
{
}

/// While a scan runs no other is begun, and a scan that is begun runs on a
/// supported number of threads. The number changes only when a scan is begun.
pub proof fn law_one_scan_at_a_time(app: AppView, press: KeyPress)
    requires
        scan::is_thread_count(app.threads as int),
    ensures
        app.scanning ==> app.pressed(press).1 != Request::Scan,
        app.pressed(press).1 == Request::Scan ==> app.pressed(press).0.scanning,
        scan::is_thread_count(app.pressed(press).0.threads as int),
        app.pressed(press).0.threads != app.threads ==> app.pressed(press).1 == Request::Scan,
{
}

/// `Q` on the list, or control and `Q` or `C`, ends the session; nothing else
/// does, and nothing does while an overlay is on screen.
pub proof fn law_quitting(app: AppView, press: KeyPress)
    requires
        !app.should_quit,
    ensures
        app.pressed(press).0.should_quit <==> app.modal is None && {
            ||| press.ctrl && (press.key == Key::Char('q') || press.key == Key::Char('c'))
            ||| app.focus == Focus::Table && (press.key == Key::Char('q') || press.key
                == Key::Char('Q'))
        },
{
}

/// The help overlay opens on `?` where no overlay is on screen, and any key
/// closes it again; nothing else has changed then.
pub proof fn law_help_opens_and_closes(app: AppView, press: KeyPress, next: KeyPress)
    requires
        app.modal is None,
        press.key == Key::Char('?'),
    ensures
        app.pressed(press).0.modal == Some(ModalView::Help),
        app.pressed(press).0.pressed(next) == (app, Request::Nothing),
{
}

/// A removal dialog stays on screen until the removal is over.
pub proof fn law_removal_dialog_stays(app: AppView, press: KeyPress)
    requires
        app.modal matches Some(ModalView::Removal(panel)) && !panel.finished,
    ensures
        app.pressed(press) == (app, Request::Nothing),
{
}

// ------------------------------------------------------- laws on single steps

proof fn lemma_marked_selection(
    all: Seq<candidate::Entry>,
    selected: Set<Seq<path::Part>>,
) -> (at: Seq<int>)
    ensures
        candidate::is_selection(all, marked(all, selected), at),
        forall|i: int| #[trigger]
            at.contains(i) <==> 0 <= i < all.len() && selected.contains(path::parts(all[i].path)),
    decreases all.len(),
{
    if all.len() == 0 {
        Seq::empty()
    } else {
        let shorter = all.drop_last();
        let at = lemma_marked_selection(shorter, selected);
        let taken = selected.contains(path::parts(all.last().path));
        candidate::lemma_selection_grows(all, marked(shorter, selected), at, taken)
    }
}

proof fn lemma_kept_selection(all: Seq<candidate::Entry>, keep: Seq<bool>) -> (at: Seq<int>)
    ensures
        candidate::is_selection(all, kept(all, keep), at),
        forall|i: int| #[trigger] at.contains(i) <==> 0 <= i < all.len() && keep[i],
    decreases all.len(),
{
    if all.len() == 0 {
        Seq::empty()
    } else {
        let shorter = all.drop_last();
        let at = lemma_kept_selection(shorter, keep);
        candidate::lemma_selection_grows(all, kept(shorter, keep), at, keep[all.len() - 1])
    }
}

impl AppView {
    /// Whether `after` has scrolled no further than its highlighted row needs
    /// it: not at all where the row was among the rows on screen, else until
    /// the row is the first or the last of them.
    pub open spec fn scrolls_just_enough(self, after: AppView) -> bool {
        let rows: int = if self.height > 0 {
            self.height as int
        } else {
            1
        };
        let row: int = if after.cursor is Some {
            after.cursor->0 as int
        } else {
            0
        };
        &&& self.offset <= row < self.offset + rows ==> after.offset == self.offset
        &&& row < self.offset ==> after.offset == row
        &&& row >= self.offset + rows ==> after.offset + rows == row + 1
    }

    /// Whether `after` is this session with a list of its own: the highlighted
    /// row stays where it is, or goes to the last row of a shorter list.
    pub open spec fn keeps_its_row(self, after: AppView) -> bool {
        let row: int = if self.cursor is Some {
            self.cursor->0 as int
        } else {
            0
        };
        let count: int = after.candidates.len() as int;
        &&& count == 0 ==> after.cursor is None && after.offset == 0
        &&& 0 < count <= row ==> after.cursor == Some((count - 1) as nat)
        &&& row < count ==> after.cursor == Some(row as nat)
        &&& count > 0 ==> self.scrolls_just_enough(after)
    }
}

/// Space on the list flips the highlighted candidate and nothing else: a path
/// is selected then just when it was before, but for the path in the
/// highlighted row, which is selected just when it was not.
pub proof fn law_space_flips_the_highlighted_row(
    app: AppView,
    press: KeyPress,
    row: int,
    parts: Seq<path::Part>,
)
    requires
        app.modal is None,
        app.focus == Focus::Table,
        press.key == Key::Char(' '),
        app.cursor == Some(row as nat),
        0 <= row < app.candidates.len(),
    ensures
        app.pressed(press).0.selected.contains(parts) == (app.selected.contains(parts) != (parts
            == path::parts(app.candidates[row].path))),
        app.pressed(press).0 == (AppView { selected: app.pressed(press).0.selected, ..app }),
        app.pressed(press).1 == Request::Nothing,
        app.pressed(press).0 == app.toggled(),
{
}

/// Flipping the highlighted candidate concerns its path alone, whatever has
/// been scrolled; without a highlighted row on the list nothing changes.
pub proof fn law_toggling_flips_the_highlighted_row(app: AppView, parts: Seq<path::Part>)
    ensures
        app.cursor matches Some(row) && row < app.candidates.len() ==> app.toggled().selected.contains(
            parts,
        ) == (app.selected.contains(parts) != (parts == path::parts(
            app.candidates[app.cursor->0 as int].path,
        ))),
        app.cursor is None ==> app.toggled() == app,
        app.cursor matches Some(row) && row >= app.candidates.len() ==> app.toggled() == app,
        app.toggled() == (AppView { selected: app.toggled().selected, ..app }),
{
}

/// What is chosen are just the candidates with a selected path, in the order
/// of the list.
pub proof fn law_chosen_is_what_is_selected(app: AppView)
    ensures
        exists|at: Seq<int>| #[trigger]
            candidate::is_selection(app.candidates, app.chosen(), at) && forall|i: int|
                0 <= i < app.candidates.len() ==> (#[trigger] at.contains(i)
                    <==> app.selected.contains(path::parts(app.candidates[i].path))),
{
    let at = lemma_marked_selection(app.candidates, app.selected);
    assert(candidate::is_selection(app.candidates, app.chosen(), at));
}

/// `A` on the list, or control and `A`, selects just the paths on the list;
/// `N` in the same way selects nothing. Neither changes anything else.
pub proof fn law_selecting_all_or_none(app: AppView, press: KeyPress, parts: Seq<path::Part>)
    requires
        app.modal is None,
    ensures
        (app.focus == Focus::Table && (press.key == Key::Char('a') || press.key == Key::Char('A')))
            || (press.ctrl && press.key == Key::Char('a')) ==> {
            &&& app.pressed(press).0.selected.contains(parts) <==> exists|i: int|
                0 <= i < app.candidates.len() && path::parts((#[trigger] app.candidates[i]).path)
                    == parts
            &&& app.pressed(press) == (
                AppView { selected: app.pressed(press).0.selected, ..app },
                Request::Nothing,
            )
        },
        (app.focus == Focus::Table && (press.key == Key::Char('n') || press.key == Key::Char('N')))
            || (press.ctrl && press.key == Key::Char('n')) ==> {
            &&& !app.pressed(press).0.selected.contains(parts)
            &&& app.pressed(press) == (
                AppView { selected: app.pressed(press).0.selected, ..app },
                Request::Nothing,
            )
        },
{
}

/// Selecting everything selects just the paths on the list, and selecting
/// nothing no path.
pub proof fn law_what_is_selected_at_once(app: AppView, parts: Seq<path::Part>)
    ensures
        app.all_selected().selected.contains(parts) <==> exists|i: int|
            0 <= i < app.candidates.len() && path::parts((#[trigger] app.candidates[i]).path)
                == parts,
        app.all_selected() == (AppView { selected: app.all_selected().selected, ..app }),
        !app.none_selected().selected.contains(parts),
        app.none_selected() == (AppView { selected: app.none_selected().selected, ..app }),
{
}

/// Where the keys that move the highlight take it: by one row, by as many as
/// fit on screen, or to an end of the list, and never off the list. The screen
/// scrolls no further than needed, and nothing else changes.
pub proof fn law_keys_that_move(app: AppView, press: KeyPress, row: int, count: int, page: int)
    requires
        app.modal is None,
        app.focus == Focus::Table,
        !press.ctrl,
        count == app.candidates.len(),
        count > 0,
        row == (if app.cursor is Some {
            app.cursor->0 as int
        } else {
            0
        }),
        row < count,
        page == app.height,
    ensures
        ({
            let after = app.pressed(press).0;
            let up = press.key == Key::Up || press.key == Key::Char('k');
            let down = press.key == Key::Down || press.key == Key::Char('j');
            &&& up && row > 0 ==> after.cursor == Some((row - 1) as nat)
            &&& up && row == 0 ==> after.cursor == Some(0nat)
            &&& down && row + 1 < count ==> after.cursor == Some((row + 1) as nat)
            &&& down && row + 1 == count ==> after.cursor == Some(row as nat)
            &&& press.key == Key::PageUp && row >= page ==> after.cursor == Some(
                (row - page) as nat,
            )
            &&& press.key == Key::PageUp && row < page ==> after.cursor == Some(0nat)
            &&& press.key == Key::PageDown && row + page < count ==> after.cursor == Some(
                (row + page) as nat,
            )
            &&& press.key == Key::PageDown && row + page >= count ==> after.cursor == Some(
                (count - 1) as nat,
            )
            &&& press.key == Key::Home ==> after.cursor == Some(0nat)
            &&& press.key == Key::End ==> after.cursor == Some((count - 1) as nat)
            &&& (up || down || press.key == Key::PageUp || press.key == Key::PageDown || press.key
                == Key::Home || press.key == Key::End) ==> {
                &&& app.scrolls_just_enough(after)
                &&& after == (AppView { cursor: after.cursor, offset: after.offset, ..app })
                &&& app.pressed(press).1 == Request::Nothing
            }
        }),
{
}

/// On an empty list the keys that move the highlight change nothing.
pub proof fn law_nothing_moves_on_an_empty_list(app: AppView, press: KeyPress)
    requires
        app.modal is None,
        app.focus == Focus::Table,
        !press.ctrl,
        app.candidates.len() == 0,
        press.key == Key::Up || press.key == Key::Down || press.key == Key::PageUp || press.key
            == Key::PageDown || press.key == Key::Home || press.key == Key::End || press.key
            == Key::Char('j') || press.key == Key::Char('k'),
    ensures
        app.pressed(press) == (app, Request::Nothing),
{
}

/// Moving by some rows ends that many rows away, or at the end of the list in
/// that direction; moving to a row ends there, or at the last row.
pub proof fn law_moves_end_where_they_should(app: AppView, delta: int, index: int)
    requires
        app.candidates.len() > 0,
        0 <= index,
    ensures
        ({
            let row: int = if app.cursor is Some {
                app.cursor->0 as int
            } else {
                0
            };
            let last: int = app.candidates.len() - 1;
            &&& 0 <= row + delta <= last ==> app.moved(delta).cursor == Some((row + delta) as nat)
            &&& row + delta < 0 ==> app.moved(delta).cursor == Some(0nat)
            &&& row + delta > last ==> app.moved(delta).cursor == Some(last as nat)
            &&& index <= last ==> app.at_row(index).cursor == Some(index as nat)
            &&& index > last ==> app.at_row(index).cursor == Some(last as nat)
        }),
        app.scrolls_just_enough(app.moved(delta)),
        app.scrolls_just_enough(app.at_row(index)),
        app.at_row(index) == (AppView {
            cursor: app.at_row(index).cursor,
            offset: app.at_row(index).offset,
            ..app
        }),
{
}

/// Putting the highlight back on the list leaves it in its row where there is
/// one, and changes nothing but the highlight and the scrolling.
pub proof fn law_highlight_goes_back_on_the_list(app: AppView)
    ensures
        app.keeps_its_row(app.synced()),
        app.synced() == (AppView {
            cursor: app.synced().cursor,
            offset: app.synced().offset,
            ..app
        }),
{
}

/// `T` on the list, control and `T`, Escape with the settings open, and Enter
/// or Tab in the input field open or close the settings. They open with the
/// number of threads in the input field, which then has the focus; closed, the
/// list has it. Nothing else changes.
pub proof fn law_settings_open_and_close(app: AppView, press: KeyPress)
    requires
        app.modal is None,
        (app.focus == Focus::Table && (press.key == Key::Char('t') || press.key == Key::Char('T')))
            || (press.ctrl && press.key == Key::Char('t')) || (press.key == Key::Esc
            && app.show_settings) || (app.focus == Focus::ThreadsInput && (press.key == Key::Enter
            || press.key == Key::Tab)),
    ensures
        app.pressed(press).1 == Request::Nothing,
        app.pressed(press).0 == app.settings_toggled(),
        app.settings_toggled().show_settings == !app.show_settings,
        app.settings_toggled().show_settings ==> app.settings_toggled().focus
            == Focus::ThreadsInput && app.settings_toggled().threads_input == text::decimal(
            app.threads,
        ),
        !app.settings_toggled().show_settings ==> app.settings_toggled().focus == Focus::Table
            && app.settings_toggled().threads_input == app.threads_input,
        app.settings_toggled() == (AppView {
            show_settings: app.settings_toggled().show_settings,
            focus: app.settings_toggled().focus,
            threads_input: app.settings_toggled().threads_input,
            ..app
        }),
{
}

/// A digit takes the place of what stands in the input field, Backspace takes
/// its last character away, and any other character changes nothing.
pub proof fn law_typing_in_the_input_field(app: AppView, press: KeyPress, c: char)
    requires
        app.modal is None,
        app.focus == Focus::ThreadsInput,
        !press.ctrl,
    ensures
        app.pressed(press).1 == Request::Nothing,
        press.key == Key::Char(c) && '0' <= c <= '9' ==> app.pressed(press).0 == (AppView {
            threads_input: seq![c],
            ..app
        }),
        press.key == Key::Char(c) && !('0' <= c <= '9') && c != '?' ==> app.pressed(press).0 == app,
        press.key == Key::Backspace && app.threads_input.len() > 0 ==> app.pressed(press).0 == (
        AppView {
            threads_input: app.threads_input.subrange(0, app.threads_input.len() - 1),
            ..app
        }),
        press.key == Key::Backspace && app.threads_input.len() == 0 ==> app.pressed(press).0 == app,
        press.key == Key::Up || press.key == Key::Down || press.key == Key::PageUp || press.key
            == Key::PageDown || press.key == Key::Home || press.key == Key::End || press.key
            == Key::Other ==> app.pressed(press).0 == app,
{
    assert(app.threads_input.len() > 0 ==> app.threads_input.drop_last()
        =~= app.threads_input.subrange(0, app.threads_input.len() - 1));
}

/// Keys that the list has no use for change nothing.
pub proof fn law_other_keys_do_nothing(app: AppView, press: KeyPress, c: char)
    requires
        app.modal is None,
        app.focus == Focus::Table,
        !press.ctrl,
        press.key == Key::Enter || (press.key == Key::Esc && !app.show_settings) || press.key
            == Key::Backspace || press.key == Key::Tab || press.key == Key::Other || (press.key == Key::Char(c) && c != '?' && c
            != ' ' && c != 'k' && c != 'j' && c != 'a' && c != 'A' && c != 'n' && c != 'N' && c
            != 'r' && c != 'R' && c != 't' && c != 'T' && c != 'd' && c != 'D' && c != 'q' && c
            != 'Q'),
    ensures
        app.pressed(press) == (app, Request::Nothing),
{
}

/// The control key matters only with the letters that are shortcuts; with any
/// other key, and while an overlay is on screen, it changes nothing.
pub proof fn law_control_matters_only_in_shortcuts(app: AppView, key: Key)
    requires
        app.modal is Some || !(key == Key::Char('q') || key == Key::Char('c') || key == Key::Char(
            'r',
        ) || key == Key::Char('t') || key == Key::Char('a') || key == Key::Char('n') || key
            == Key::Char('d')),
    ensures
        app.pressed(KeyPress { key, ctrl: true }) == app.pressed(KeyPress { key, ctrl: false }),
{
}

/// `D` on the list, or control and `D`, asks about the removal of what is
/// chosen; where nothing is, only the status line says so.
pub proof fn law_asking_for_a_removal(app: AppView, press: KeyPress)
    requires
        app.modal is None,
        (app.focus == Focus::Table && (press.key == Key::Char('d') || press.key == Key::Char('D')))
            || (press.ctrl && press.key == Key::Char('d')),
    ensures
        app.pressed(press).1 == Request::Nothing,
        app.pressed(press).0 == app.removal_asked(),
        app.chosen().len() > 0 ==> app.removal_asked() == (AppView {
            modal: Some(
                ModalView::Confirm {
                    count: app.chosen().len(),
                    bytes: candidate::total_bytes(app.chosen()),
                },
            ),
            ..app
        }),
        app.chosen().len() == 0 ==> app.removal_asked() == (AppView {
            status: "Nothing selected. Use space or A to select directories."@,
            ..app
        }),
{
}

/// A confirmed removal takes what is chosen, held to the roots of the list,
/// and opens a dialog that has seen none of it done. It leaves the list and
/// the selection as they are.
pub proof fn law_confirmed_removal_begins(app: AppView, press: KeyPress)
    requires
        app.modal matches Some(ModalView::Confirm { .. }),
        press.key == Key::Char('y') || press.key == Key::Char('Y') || press.key == Key::Enter,
    ensures
        app.chosen().len() > 0 ==> app.pressed(press) == (
            AppView {
                modal: Some(
                    ModalView::Removal(
                        PanelView {
                            lines: Seq::empty(),
                            done: 0,
                            total: app.chosen().len(),
                            reclaimed: 0,
                            errors: 0,
                            finished: false,
                        },
                    ),
                ),
                status: "Removing "@ + text::decimal(app.chosen().len()) + " directories..."@,
                ..app
            },
            Request::Remove { targets: app.chosen(), roots: app.listed_roots },
        ),
        app.chosen().len() == 0 ==> app.pressed(press) == (
            AppView {
                modal: None,
                status: "Nothing selected. Use space or A to select directories."@,
                ..app
            },
            Request::Nothing,
        ),
{
}

/// The dialog of a removal that is over closes on Escape, Enter, Space or `Q`
/// and on no other key; nothing else changes.
pub proof fn law_finished_dialog_closes(app: AppView, press: KeyPress)
    requires
        app.modal matches Some(ModalView::Removal(panel)) && panel.finished,
    ensures
        press.key == Key::Esc || press.key == Key::Enter || press.key == Key::Char(' ')
            || press.key == Key::Char('q') ==> app.pressed(press) == (
            AppView { modal: None, ..app },
            Request::Nothing,
        ),
        !(press.key == Key::Esc || press.key == Key::Enter || press.key == Key::Char(' ')
            || press.key == Key::Char('q')) ==> app.pressed(press) == (app, Request::Nothing),
{
}

impl AppView {
    /// Whether `after` is this session with a scan on `threads` threads begun:
    /// the list, the selection and the counters start empty, and nothing else
    /// has changed.
    pub open spec fn scans_afresh(self, threads: nat, after: AppView) -> bool {
        after == (AppView {
            threads,
            scanning: true,
            candidates: Seq::empty(),
            selected: Set::empty(),
            cursor: None,
            offset: 0,
            stats: None,
            progress_done: 0,
            progress_total: 1,
            status: "Scanning with "@ + text::decimal(threads) + " threads..."@,
            ..self
        })
    }
}

/// `R` on the list, or control and `R`, begins a scan unless one is running.
/// With the settings closed it runs on as many threads as before. With them
/// open it runs on the number in the input field, white space around it aside,
/// if that is one to eight; else only the status line changes.
pub proof fn law_scans_take_the_number_of_the_settings(app: AppView, press: KeyPress, threads: nat)
    requires
        app.modal is None,
        (app.focus == Focus::Table && (press.key == Key::Char('r') || press.key == Key::Char('R')))
            || (press.ctrl && press.key == Key::Char('r')),
    ensures
        app.pressed(press) == app.scan_requested(),
        app.scanning ==> app.scan_requested() == (app, Request::Nothing),
        !app.scanning && !app.show_settings ==> app.scan_requested().1 == Request::Scan
            && app.scans_afresh(app.threads, app.scan_requested().0),
        !app.scanning && app.show_settings ==> {
            let typed = text::number(text::trimmed(app.threads_input), usize::MAX as nat);
            &&& typed == Some(threads) && 1 <= threads <= 8 ==> app.scan_requested().1
                == Request::Scan && app.scans_afresh(threads, app.scan_requested().0)
            &&& typed == Some(threads) && !(1 <= threads <= 8) ==> app.scan_requested() == (
                AppView {
                    status: "Thread count must be between "@ + text::decimal(1) + " and "@
                        + text::decimal(8) + "."@,
                    ..app
                },
                Request::Nothing,
            )
            &&& typed is None ==> app.scan_requested() == (
                AppView { status: "Thread count must be a number from 1 through 8."@, ..app },
                Request::Nothing,
            )
        },
{
    law_scans_begin_afresh(app, app.threads);
    law_scans_begin_afresh(app, threads);
}

/// What the input field shows as a number is read as that number: it begins a
/// scan on one to eight threads, and none where it is another number or where
/// nothing was typed.
pub proof fn law_typed_numbers_are_taken(app: AppView, threads: nat)
    requires
        !app.scanning,
        app.show_settings,
    ensures
        app.threads_input == text::decimal(threads) && 1 <= threads <= 8
            ==> app.scan_requested().1 == Request::Scan && app.scan_requested().0.threads
            == threads,
        app.threads_input == text::decimal(threads) && !(1 <= threads <= 8)
            ==> app.scan_requested().1 == Request::Nothing && app.scan_requested().0.threads
            == app.threads,
        app.threads_input.len() == 0 ==> app.scan_requested().1 == Request::Nothing,
{
    text::law_numbers_read_back(threads, usize::MAX as nat);
    lemma_number_is_trimmed(threads);
    if app.threads_input.len() == 0 {
        lemma_nothing_is_trimmed(app.threads_input);
    }
}

/// A scan that is begun starts from an empty list.
pub proof fn law_scans_begin_afresh(app: AppView, threads: nat)
    ensures
        app.scans_afresh(threads, app.scan_begun(threads)),
{
}

proof fn lemma_number_is_trimmed(n: nat)
    ensures
        text::trimmed(text::decimal(n)) == text::decimal(n),
{
    let digits = text::decimal(n);
    text::law_numbers_are_digits(digits, n);
    text::law_trimming(digits);
    text::law_numbers_read_back(n, n);
    let (start, end) = choose|start: int, end: int|
        0 <= start <= end <= digits.len() && text::trimmed(digits) == #[trigger] digits.subrange(
            start,
            end,
        ) && (forall|i: int|
            (0 <= i < start || end <= i < digits.len()) ==> text::is_white_space(
                #[trigger] digits[i],
            ));
    if start > 0 {
        assert(text::is_white_space(digits[0]));
    }
    if end < digits.len() {
        assert(text::is_white_space(digits[digits.len() - 1]));
    }
    assert(digits.subrange(0, digits.len() as int) =~= digits);
}

proof fn lemma_nothing_is_trimmed(nothing: Seq<char>)
    requires
        nothing.len() == 0,
    ensures
        text::number(text::trimmed(nothing), usize::MAX as nat) is None,
{
    text::law_trimming(nothing);
    assert(text::trimmed(nothing).len() == 0);
}

/// Progress changes the counters, the end of a scan the list with its roots,
/// and a failure the status line and that a scan is running. None of them
/// changes anything else.
pub proof fn law_what_a_report_changes(
    app: AppView,
    counters: scan::Counters,
    all: Seq<candidate::Entry>,
    roots: Seq<Seq<u8>>,
    message: Seq<char>,
)
    ensures
        app.report_seen(scan::ScanReport::Progress(counters)) == (AppView {
            stats: Some(counters),
            ..app
        }),
        app.report_seen(scan::ScanReport::Finished { all, roots }) == (AppView {
            candidates: all,
            listed_roots: roots,
            ..app
        }),
        app.report_seen(scan::ScanReport::Failed(message)) == (AppView {
            scanning: false,
            status: "Scan failed: "@ + message,
            ..app
        }),
{
}

/// Reports are seen one after the other: those that come in together change
/// what they change when they come in by and by.
pub proof fn law_reports_are_seen_in_order(
    app: AppView,
    first: Seq<ScanEvent>,
    then: Seq<ScanEvent>,
    event: ScanEvent,
)
    ensures
        app.reports_seen(Seq::empty()) == app,
        app.reports_seen(seq![event]) == app.report_seen(event@),
        app.reports_seen(first + then) == app.reports_seen(first).reports_seen(then),
    decreases then.len(),
{
    let one = seq![event];
    assert(one.drop_last() =~= Seq::<ScanEvent>::empty());
    assert(app.reports_seen(one.drop_last()) == app);
    if then.len() == 0 {
        assert(first + then =~= first);
    } else {
        law_reports_are_seen_in_order(app, first, then.drop_last(), event);
        assert((first + then).drop_last() =~= first + then.drop_last());
    }
}

/// A scan is over as soon as one of its reports is an end or a failure.
pub proof fn law_when_a_scan_is_over(
    first: Seq<ScanEvent>,
    then: Seq<ScanEvent>,
    event: ScanEvent,
)
    ensures
        !ends_scan(Seq::empty()),
        ends_scan(seq![event]) <==> event@ is Finished || event@ is Failed,
        ends_scan(first + then) <==> ends_scan(first) || ends_scan(then),
{
    assert(seq![event][0] == event);
    let both = first + then;
    if ends_scan(first) {
        let i = choose|i: int| 0 <= i < first.len() && !((#[trigger] first[i])@ is Progress);
        assert(both[i] == first[i]);
    }
    if ends_scan(then) {
        let i = choose|i: int| 0 <= i < then.len() && !((#[trigger] then[i])@ is Progress);
        assert(both[first.len() + i] == then[i]);
    }
    if ends_scan(both) {
        let i = choose|i: int| 0 <= i < both.len() && !((#[trigger] both[i])@ is Progress);
        if i < first.len() {
            assert(both[i] == first[i]);
        } else {
            assert(both[i] == then[i - first.len()]);
        }
    }
}

/// Once a scan is over its progress is complete. If it did not fail, it is no
/// longer running, the status line sums the list up, and the highlight is on
/// the list. Until it is over, nothing follows its reports.
pub proof fn law_what_the_end_of_a_scan_changes(app: AppView, events: Seq<ScanEvent>)
    ensures
        ends_scan(events) ==> app.reports_drained(events) == app.reports_seen(events).scan_ended(),
        !ends_scan(events) ==> app.reports_drained(events) == app.reports_seen(events),
        app.scanning ==> {
            &&& app.keeps_its_row(app.scan_ended())
            &&& app.scan_ended() == (AppView {
                scanning: false,
                status: "Found "@ + text::decimal(app.candidates.len()) + " candidates totaling "@
                    + size::size_text(candidate::total_bytes(app.candidates))
                    + ". Saved as last scan."@,
                progress_done: 1,
                progress_total: 1,
                cursor: app.scan_ended().cursor,
                offset: app.scan_ended().offset,
                ..app
            })
        },
        !app.scanning ==> app.scan_ended() == (AppView {
            progress_done: 1,
            progress_total: 1,
            ..app
        }),
{
}

/// A step of a removal adds its line to the dialog and moves its progress on;
/// nothing else changes, and without a removal dialog nothing at all.
pub proof fn law_what_a_removal_step_changes(
    app: AppView,
    panel: PanelView,
    index: nat,
    total: nat,
    entry: candidate::Entry,
    error: Option<Seq<char>>,
)
    ensures
        app.modal == Some(ModalView::Removal(panel)) ==> app.removal_stepped(
            index,
            total,
            entry,
            error,
        ) == (AppView {
            modal: Some(
                ModalView::Removal(
                    PanelView {
                        lines: panel.lines + seq![
                            screen::removal_step_line(index, total, entry, error),
                        ],
                        done: index,
                        total,
                        reclaimed: panel.reclaimed,
                        errors: panel.errors,
                        finished: panel.finished,
                    },
                ),
            ),
            ..app
        }),
        !(app.modal matches Some(ModalView::Removal(_))) ==> app.removal_stepped(
            index,
            total,
            entry,
            error,
        ) == app,
{
    let line = screen::removal_step_line(index, total, entry, error);
    assert(panel.lines.push(line) =~= panel.lines + seq![line]);
}

/// After a removal the list holds just the candidates that are still there, in
/// the order that they had, wherever among them the deleted ones stood.
pub proof fn law_removal_keeps_what_is_left(
    app: AppView,
    deleted: nat,
    reclaimed: nat,
    errors: nat,
    exists: Seq<bool>,
)
    requires
        exists.len() == app.candidates.len(),
    ensures
        exists|at: Seq<int>| #[trigger]
            candidate::is_selection(
                app.candidates,
                app.removal_ended(deleted, reclaimed, errors, exists).candidates,
                at,
            ) && forall|i: int|
                0 <= i < app.candidates.len() ==> (#[trigger] at.contains(i) <==> exists[i]),
{
    let at = lemma_kept_selection(app.candidates, exists);
    assert(candidate::is_selection(
        app.candidates,
        app.removal_ended(deleted, reclaimed, errors, exists).candidates,
        at,
    ));
}

/// The end of a removal clears the selection, puts the highlight back on the
/// list, and reports what was done in the status line and in the dialog.
/// Besides the list nothing else changes.
pub proof fn law_what_the_end_of_a_removal_changes(
    app: AppView,
    deleted: nat,
    reclaimed: nat,
    errors: nat,
    exists: Seq<bool>,
    panel: PanelView,
)
    ensures
        ({
            let after = app.removal_ended(deleted, reclaimed, errors, exists);
            let done = "Removed "@ + text::decimal(deleted) + " directories and reclaimed "@
                + size::size_text(reclaimed) + "."@;
            &&& errors == 0 ==> after.status == done
            &&& errors > 0 ==> after.status == done + " Errors: "@ + text::decimal(errors)
            &&& after.selected == Set::<Seq<path::Part>>::empty()
            &&& app.keeps_its_row(after)
            &&& app.modal == Some(ModalView::Removal(panel)) ==> after.modal == Some(
                ModalView::Removal(
                    PanelView {
                        lines: panel.lines,
                        done: panel.done,
                        total: panel.total,
                        reclaimed,
                        errors,
                        finished: true,
                    },
                ),
            )
            &&& !(app.modal matches Some(ModalView::Removal(_))) ==> after.modal == app.modal
            &&& after == (AppView {
                candidates: after.candidates,
                selected: after.selected,
                cursor: after.cursor,
                offset: after.offset,
                status: after.status,
                modal: after.modal,
                ..app
            })
        }),
{
    let done = "Removed "@ + text::decimal(deleted) + " directories and reclaimed "@
        + size::size_text(reclaimed) + "."@;
    assert(done + Seq::<char>::empty() =~= done);
    assert(done + (" Errors: "@ + text::decimal(errors)) =~= done + " Errors: "@ + text::decimal(
        errors,
    ));
}

/// A removal reports to the session just what happened: a step as it is, with
/// its message if it failed, and the end with its sums.
pub proof fn law_removal_reports_arrive(
    app: AppView,
    index: usize,
    total: usize,
    candidate: Candidate,
    error: Option<String>,
    deleted: usize,
    reclaimed: u64,
    errors: usize,
    exists: Seq<bool>,
)
    ensures
        error is None ==> app.removal_reported(
            RemovalEvent::Step { index, total, candidate, error },
            exists,
        ) == app.removal_stepped(index as nat, total as nat, candidate@, None),
        error is Some ==> app.removal_reported(
            RemovalEvent::Step { index, total, candidate, error },
            exists,
        ) == app.removal_stepped(index as nat, total as nat, candidate@, Some(error->0@)),
        app.removal_reported(RemovalEvent::Finished { deleted, reclaimed, errors }, exists)
            == app.removal_ended(deleted as nat, reclaimed as nat, errors as nat, exists),
{
}

/// A table that is drawn has the height of its area less three rows, for its
/// borders and its heading, and at least one; nothing changes but that and
/// what the widget settled on.
pub proof fn law_drawing_measures_the_table(
    app: AppView,
    height: int,
    cursor: Option<nat>,
    offset: nat,
)
    ensures
        app.table_drawn(height, cursor, offset) == (AppView {
            cursor,
            offset,
            height: app.table_drawn(height, cursor, offset).height,
            ..app
        }),
        height >= 4 ==> app.table_drawn(height, cursor, offset).height + 3 == height,
        height < 4 ==> app.table_drawn(height, cursor, offset).height == 1,
{
}

/// The status line follows a running scan as soon as there are counters, and
/// shows the status else.
pub proof fn law_what_the_status_line_shows(app: AppView, counters: scan::Counters)
    ensures
        app.scanning && app.stats == Some(counters) ==> app.status_line() == screen::walk_status(
            app.threads,
            counters,
        ),
        !app.scanning ==> app.status_line() == app.status,
        app.stats is None ==> app.status_line() == app.status,
{
}

/// A record of the last scan is shown with its list and its roots, nothing
/// selected and the highlight on the list; besides the progress and the status
/// line nothing else changes.
pub proof fn law_what_a_record_changes(
    app: AppView,
    all: Seq<candidate::Entry>,
    roots: Seq<Seq<u8>>,
    scanned_at: Seq<char>,
)
    ensures
        app.keeps_its_row(app.restored(all, roots, scanned_at)),
        app.restored(all, roots, scanned_at) == (AppView {
            candidates: all,
            listed_roots: roots,
            selected: Set::empty(),
            progress_done: 1,
            progress_total: 1,
            status: "Loaded "@ + text::decimal(all.len()) + " candidates totaling "@
                + size::size_text(candidate::total_bytes(all)) + " from the last scan ("@
                + scanned_at + ") · press R to rescan"@,
            cursor: app.restored(all, roots, scanned_at).cursor,
            offset: app.restored(all, roots, scanned_at).offset,
            ..app
        }),
{
}

/// Requests and overlays are seen as they are.
pub proof fn law_overlays_are_seen_as_they_are(
    targets: Vec<Candidate>,
    roots: Vec<Vec<u8>>,
    count: usize,
    bytes: u64,
    panel: RemovalPanel,
    i: int,
)
    ensures
        Action::Nothing@ == Request::Nothing,
        Action::Scan@ == Request::Scan,
        (Action::Remove { targets, roots })@ == (Request::Remove {
            targets: candidate::entries(targets@),
            roots: path::all_bytes(roots@),
        }),
        (Modal::Confirm { count, bytes })@ == (ModalView::Confirm {
            count: count as nat,
            bytes: bytes as nat,
        }),
        Modal::Removal(panel)@ == ModalView::Removal(panel@),
        Modal::Help@ == ModalView::Help,
        panel@.lines.len() == panel.lines@.len(),
        0 <= i < panel.lines@.len() ==> panel@.lines[i] == screen::line_view(panel.lines@[i]@),
        panel@.done == panel.done,
        panel@.total == panel.total,
        panel@.reclaimed == panel.reclaimed,
        panel@.errors == panel.errors,
        panel@.finished == panel.finished,
{
}

/// What may be missing is seen as missing, and as it is else.
pub proof fn law_optional_parts_are_seen_as_they_are(
    row: usize,
    snapshot: ProgressSnapshot,
    modal: Modal,
)
    ensures
        optional_row(Some(row)) == Some(row as nat),
        optional_row(None) is None,
        optional_counters(Some(snapshot)) == Some(snapshot@),
        optional_counters(None) is None,
        optional_modal(Some(modal)) == Some(modal@),
        optional_modal(None) is None,
{
}

} // verus!
