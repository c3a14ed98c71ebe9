//! What the screen shows: its texts, its table rows and where dialogs go.
//!
//! Colours and widgets are the caller's part; it gets plain texts with a tone.

use vstd::prelude::*;
use vstd::string::*;

use crate::candidate;
use crate::candidate::Candidate;
use crate::path;
use crate::scan;
use crate::scan::ProgressSnapshot;
use crate::size;
use crate::text;
use crate::update;

verus! {

// ------------------------------------------------------------------ numbers

/// `n` in decimal with commas between groups of three digits.
pub open spec fn grouped(n: nat) -> Seq<char>
    decreases n,
{
    if n < 1000 {
        text::decimal(n)
    } else {
        grouped(n / 1000) + ","@ + text::zero_padded(n % 1000, 3)
    }
}

/// Groups digits with commas, e.g. `1234567` as `1,234,567`.
pub fn thousands(value: u64) -> (text: String)
    ensures
        text@ == grouped(value as nat),
    decreases value,
{
    if value < 1000 {
        text::decimal_text(value)
    } else {
        let mut text: String = thousands(value / 1000);
        text.append(",");
        text.append(text::zero_padded_text(value % 1000, 3).as_str());
        text
    }
}

/// `text` without its commas.
pub open spec fn without_commas(text: Seq<char>) -> Seq<char>
    decreases text.len(),
{
    if text.len() == 0 {
        text
    } else if text.last() == ',' {
        without_commas(text.drop_last())
    } else {
        without_commas(text.drop_last()).push(text.last())
    }
}

proof fn lemma_without_commas_adds(left: Seq<char>, right: Seq<char>)
    ensures
        without_commas(left + right) == without_commas(left) + without_commas(right),
    decreases right.len(),
{
    if right.len() == 0 {
        assert(left + right =~= left);
        assert(without_commas(left) + without_commas(right) =~= without_commas(left));
    } else {
        lemma_without_commas_adds(left, right.drop_last());
        assert((left + right).drop_last() =~= left + right.drop_last());
        assert(without_commas(left + right) =~= without_commas(left) + without_commas(right));
    }
}

proof fn lemma_no_commas(digits: Seq<char>)
    requires
        text::all_digits(digits),
    ensures
        without_commas(digits) == digits,
    decreases digits.len(),
{
    if digits.len() > 0 {
        assert(text::is_digit(digits[digits.len() - 1]));
        assert(text::all_digits(digits.drop_last()));
        lemma_no_commas(digits.drop_last());
        assert(digits =~= digits.drop_last().push(digits.last()));
    }
}

proof fn lemma_decimal_digits(n: nat)
    ensures
        text::all_digits(text::decimal(n)),
        text::decimal(n).len() >= 1,
    decreases n,
{
    if n >= 10 {
        lemma_decimal_digits(n / 10);
    }
}

/// The last three digits of a number are written behind the others.
proof fn lemma_decimal_splits(n: nat)
    requires
        n >= 1000,
    ensures
        text::decimal(n) == text::decimal(n / 1000) + text::zero_padded(n % 1000, 3),
{
    let high = text::decimal(n / 1000);
    let low = n % 1000;
    let (a, b, c) = (
        text::digit_char(low / 100),
        text::digit_char(low / 10 % 10),
        text::digit_char(low % 10),
    );
    reveal_with_fuel(text::decimal, 4);
    assert(n / 10 / 10 / 10 == n / 1000);
    assert(n / 10 / 10 % 10 == low / 100);
    assert(n / 10 % 10 == low / 10 % 10);
    assert(n % 10 == low % 10);
    assert(text::decimal(n) == high.push(a).push(b).push(c));
    let digits = text::decimal(low);
    if low < 10 {
        assert(digits =~= seq![c]);
    } else if low < 100 {
        assert(text::decimal(low / 10) =~= seq![b]);
        assert(digits =~= seq![b, c]);
    } else {
        assert(text::decimal(low / 10 / 10) =~= seq![a]);
        assert(digits =~= seq![a, b, c]);
    }
    assert(text::zero_padded(low, 3) =~= seq![a, b, c]);
    assert(text::decimal(n) =~= high + text::zero_padded(low, 3));
}

/// Grouping only adds commas: without them the digits are those of the number.
pub proof fn law_grouping_only_adds_commas(n: nat)
    ensures
        without_commas(grouped(n)) == text::decimal(n),
    decreases n,
{
    lemma_decimal_digits(n);
    if n < 1000 {
        lemma_no_commas(text::decimal(n));
    } else {
        law_grouping_only_adds_commas(n / 1000);
        lemma_decimal_splits(n);
        let low = text::zero_padded(n % 1000, 3);
        reveal_strlit(",");
        assert(without_commas(","@) =~= Seq::<char>::empty()) by {
            assert(","@[0] == ',');
            assert(","@.drop_last() =~= Seq::<char>::empty());
            assert(without_commas(","@.drop_last()) =~= Seq::<char>::empty());
        }
        lemma_three_digits(n % 1000);
        lemma_no_commas(low);
        lemma_without_commas_adds(grouped(n / 1000), ","@);
        lemma_without_commas_adds(grouped(n / 1000) + ","@, low);
        assert(without_commas(grouped(n)) =~= text::decimal(n));
    }
}

/// Numbers below 1000 in three digits.
proof fn lemma_three_digits(n: nat)
    requires
        n < 1000,
    ensures
        text::decimal(n).len() <= 3,
        text::zero_padded(n, 3).len() == 3,
        text::all_digits(text::zero_padded(n, 3)),
{
    reveal_with_fuel(text::decimal, 3);
    lemma_decimal_digits(n);
    let digits = text::decimal(n);
    let low = text::zero_padded(n, 3);
    let zeros = low.len() - digits.len();
    assert forall|i: int| 0 <= i < low.len() implies text::is_digit(#[trigger] low[i]) by {
        if i >= zeros {
            assert(low[i] == digits[i - zeros]);
        }
    }
}

/// Commas stand before each group of three digits, counted from the right, and
/// nowhere else; everything else is a digit, and a digit comes first.
pub proof fn law_groups_have_three_digits(n: nat)
    ensures
        grouped(n).len() >= 1,
        grouped(n).len() % 4 != 0,
        forall|i: int|
            0 <= i < grouped(n).len() ==> if (grouped(n).len() - i) % 4 == 0 {
                #[trigger] grouped(n)[i] == ','
            } else {
                text::is_digit(grouped(n)[i])
            },
    decreases n,
{
    if n < 1000 {
        lemma_decimal_digits(n);
        lemma_three_digits(n);
    } else {
        law_groups_have_three_digits(n / 1000);
        lemma_three_digits(n % 1000);
        reveal_strlit(",");
        let high = grouped(n / 1000);
        let low = text::zero_padded(n % 1000, 3);
        let whole = grouped(n);
        assert(whole == high + ","@ + low);
        assert forall|i: int| 0 <= i < whole.len() implies if (whole.len() - i) % 4 == 0 {
            #[trigger] whole[i] == ','
        } else {
            text::is_digit(whole[i])
        } by {
            if i < high.len() {
                assert(whole[i] == high[i]);
                assert((whole.len() - i) % 4 == (high.len() - i) % 4);
            } else if i > high.len() {
                assert(whole[i] == low[i - high.len() - 1]);
            }
        }
    }
}

// ------------------------------------------------------------------ dialogs

/// A rectangle of screen cells.
#[derive(Clone, Copy, Debug, PartialEq, Eq, Structural)]
pub struct Area {
    pub x: u16,
    pub y: u16,
    pub width: u16,
    pub height: u16,
}

/// The smaller of two lengths.
pub open spec fn smaller(a: int, b: int) -> int {
    if a < b {
        a
    } else {
        b
    }
}

/// A `width` x `height` area centred inside `area`, clamped to fit.
pub fn centered_rect(width: u16, height: u16, area: Area) -> (dialog: Area)
    requires
        area.x + (area.width - smaller(width as int, area.width as int)) / 2 <= u16::MAX,
        area.y + (area.height - smaller(height as int, area.height as int)) / 2 <= u16::MAX,
    ensures
        dialog.width == smaller(width as int, area.width as int),
        dialog.height == smaller(height as int, area.height as int),
        dialog.x == area.x + (area.width - dialog.width) / 2,
        dialog.y == area.y + (area.height - dialog.height) / 2,
{
    let inner_width: u16 = if width < area.width {
        width
    } else {
        area.width
    };
    let inner_height: u16 = if height < area.height {
        height
    } else {
        area.height
    };
    Area {
        x: area.x + (area.width - inner_width) / 2,
        y: area.y + (area.height - inner_height) / 2,
        width: inner_width,
        height: inner_height,
    }
}

/// A centred dialog lies inside its area, and the margins on opposite sides
/// differ by at most one cell.
pub proof fn law_dialog_is_centred(width: int, height: int, area: Area, dialog: Area)
    requires
        0 <= width,
        0 <= height,
        dialog.width == smaller(width, area.width as int),
        dialog.height == smaller(height, area.height as int),
        dialog.x == area.x + (area.width - dialog.width) / 2,
        dialog.y == area.y + (area.height - dialog.height) / 2,
    ensures
        area.x <= dialog.x && dialog.x + dialog.width <= area.x + area.width,
        area.y <= dialog.y && dialog.y + dialog.height <= area.y + area.height,
        0 <= (area.x + area.width - dialog.x - dialog.width) - (dialog.x - area.x) <= 1,
        0 <= (area.y + area.height - dialog.y - dialog.height) - (dialog.y - area.y) <= 1,
{
}

// -------------------------------------------------------------------- lines

/// How a piece of text is set off.
#[derive(Clone, Copy, Debug, PartialEq, Eq, Structural)]
pub enum Tone {
    Plain,
    Failure,
    Success,
    Muted,
}

/// A piece of text in one tone.
#[derive(Debug, PartialEq, Eq)]
pub struct Span {
    pub text: String,
    pub tone: Tone,
}

/// A piece of text as the contracts speak of it.
pub struct SpanView {
    pub text: Seq<char>,
    pub tone: Tone,
}

impl View for Span {
    type V = SpanView;

    open spec fn view(&self) -> SpanView {
        SpanView { text: self.text@, tone: self.tone }
    }
}

/// The spans of a line as the contracts speak of them.
pub open spec fn line_view(line: Seq<Span>) -> Seq<SpanView> {
    line.map_values(|span: Span| span@)
}

/// The line that reports one step of a removal.
pub open spec fn removal_step_line(
    index: nat,
    total: nat,
    entry: candidate::Entry,
    error: Option<Seq<char>>,
) -> Seq<SpanView> {
    let position = SpanView {
        text: text::decimal(index) + "/"@ + text::decimal(total) + "  "@,
        tone: Tone::Plain,
    };
    let place = SpanView { text: path::lossy_text(entry.path), tone: Tone::Plain };
    match error {
        Some(message) => seq![
            SpanView { text: "✗  "@, tone: Tone::Failure },
            position,
            place,
            SpanView { text: "  "@ + message, tone: Tone::Failure },
        ],
        None => seq![
            SpanView { text: "✓  "@, tone: Tone::Success },
            position,
            SpanView { text: candidate::kind_label(entry.kind) + "  "@, tone: Tone::Muted },
            place,
        ],
    }
}

/// Builds the line that reports one step of a removal.
pub fn removal_line(index: usize, total: usize, candidate: &Candidate, error: Option<&str>) -> (line:
    Vec<Span>)
    ensures
        line_view(line@) == removal_step_line(
            index as nat,
            total as nat,
            candidate@,
            text::optional_text(error),
        ),
{
    let mut position: String = text::decimal_text(index as u64);
    position.append("/");
    position.append(text::decimal_text(total as u64).as_str());
    position.append("  ");
    let place: String = path::display(&candidate.path);
    let mut line: Vec<Span> = Vec::new();
    match error {
        Some(message) => {
            let mut reason: String = "  ".to_owned();
            reason.append(message);
            line.push(Span { text: "✗  ".to_owned(), tone: Tone::Failure });
            line.push(Span { text: position, tone: Tone::Plain });
            line.push(Span { text: place, tone: Tone::Plain });
            line.push(Span { text: reason, tone: Tone::Failure });
        },
        None => {
            let mut label: String = candidate.kind.label().to_owned();
            label.append("  ");
            line.push(Span { text: "✓  ".to_owned(), tone: Tone::Success });
            line.push(Span { text: position, tone: Tone::Plain });
            line.push(Span { text: label, tone: Tone::Muted });
            line.push(Span { text: place, tone: Tone::Plain });
        },
    }
    assert(line_view(line@) =~= removal_step_line(
        index as nat,
        total as nat,
        candidate@,
        text::optional_text(error),
    ));
    line
}

/// The first of `count` lines that fit on the last `visible` rows; at least
/// one line is shown.
pub fn first_visible(count: usize, visible: usize) -> (first: usize)
    ensures
        first == (if visible == 0 {
            if count == 0 {
                0
            } else {
                count - 1
            }
        } else if count <= visible {
            0
        } else {
            count - visible
        }),
{
    let rows: usize = if visible == 0 {
        1
    } else {
        visible
    };
    if count <= rows {
        0
    } else {
        count - rows
    }
}

// -------------------------------------------------------------------- texts

/// The title of the introduction.
pub fn intro_title() -> (title: String)
    ensures
        title@ == "dsopt v"@ + update::VERSION@,
{
    let mut title: String = "dsopt v".to_owned();
    title.append(update::current_version());
    title
}

/// The label of the settings button.
pub fn settings_label(shown: bool) -> (label: &'static str)
    ensures
        label@ == (if shown {
            "T  Hide settings"@
        } else {
            "T  Scan settings"@
        }),
{
    if shown {
        "T  Hide settings"
    } else {
        "T  Scan settings"
    }
}

/// The word for what the scanner does.
pub fn scanner_word(scanning: bool) -> (word: &'static str)
    ensures
        word@ == (if scanning {
            "scanning…"@
        } else {
            "idle"@
        }),
{
    if scanning {
        "scanning…"
    } else {
        "idle"
    }
}

/// The status line while a walk runs.
pub open spec fn walk_status(threads: nat, counters: scan::Counters) -> Seq<char> {
    text::decimal(threads) + " threads | "@ + grouped(counters.directories) + " folders | "@
        + grouped(counters.files) + " files | "@ + size::size_text(counters.bytes) + " | "@
        + counters.current_path
}

/// Writes the status line while a walk runs.
pub fn walk_status_text(threads: usize, stats: &ProgressSnapshot) -> (line: String)
    ensures
        line@ == walk_status(threads as nat, stats@),
{
    let mut line: String = text::decimal_text(threads as u64);
    line.append(" threads | ");
    line.append(thousands(stats.directories_scanned).as_str());
    line.append(" folders | ");
    line.append(thousands(stats.files_scanned).as_str());
    line.append(" files | ");
    line.append(size::format_size(stats.bytes_scanned).as_str());
    line.append(" | ");
    line.append(stats.current_path.as_str());
    line
}

/// The summary of a selection.
pub open spec fn selection_summary(count: nat, bytes: nat) -> Seq<char> {
    if count == 0 {
        "Selected: none · Space toggle · A all · N none"@
    } else {
        "Selected: "@ + text::decimal(count) + " directories · "@ + size::size_text(bytes)
            + " reclaimable · D to remove"@
    }
}

/// The removal hint of a selection.
pub open spec fn selection_hint(count: nat, bytes: nat) -> Seq<char> {
    "  remove: "@ + text::decimal(count) + " · "@ + size::size_text(bytes)
}

/// Writes the summary of a selection.
pub fn selection_summary_text(count: usize, bytes: u64) -> (summary: String)
    ensures
        summary@ == selection_summary(count as nat, bytes as nat),
{
    if count == 0 {
        "Selected: none · Space toggle · A all · N none".to_owned()
    } else {
        let mut summary: String = "Selected: ".to_owned();
        summary.append(text::decimal_text(count as u64).as_str());
        summary.append(" directories · ");
        summary.append(size::format_size(bytes).as_str());
        summary.append(" reclaimable · D to remove");
        summary
    }
}

/// Writes the removal hint of a selection.
pub fn selection_hint_text(count: usize, bytes: u64) -> (hint: String)
    ensures
        hint@ == selection_hint(count as nat, bytes as nat),
{
    let mut hint: String = "  remove: ".to_owned();
    hint.append(text::decimal_text(count as u64).as_str());
    hint.append(" · ");
    hint.append(size::format_size(bytes).as_str());
    hint
}

/// Writes the question that a removal is confirmed with.
pub fn confirm_question(count: usize, bytes: u64) -> (question: String)
    ensures
        question@ == "Remove "@ + text::decimal(count as nat) + " selected directories and free "@
            + size::size_text(bytes as nat) + "?"@,
{
    let mut question: String = "Remove ".to_owned();
    question.append(text::decimal_text(count as u64).as_str());
    question.append(" selected directories and free ");
    question.append(size::format_size(bytes).as_str());
    question.append("?");
    question
}

/// The warning that a removal is confirmed under.
pub fn removal_warning() -> (warning: &'static str)
    ensures
        warning@ == "This permanently deletes them. There is no Trash and no undo."@,
{
    "This permanently deletes them. There is no Trash and no undo."
}

/// The headline of the removal dialog.
pub open spec fn removal_headline(total: nat, reclaimed: nat, errors: nat, finished: bool) -> Seq<
    char,
> {
    if finished {
        "Removal complete · "@ + size::size_text(reclaimed) + " reclaimed"@ + (if errors == 0 {
            Seq::empty()
        } else {
            " · "@ + text::decimal(errors) + " errors"@
        })
    } else {
        "Removing "@ + text::decimal(total) + " directories · "@ + size::size_text(reclaimed)
            + " selected"@
    }
}

/// Writes the headline of the removal dialog.
pub fn removal_headline_text(total: usize, reclaimed: u64, errors: usize, finished: bool) -> (headline:
    String)
    ensures
        headline@ == removal_headline(total as nat, reclaimed as nat, errors as nat, finished),
{
    if finished {
        let mut headline: String = "Removal complete · ".to_owned();
        headline.append(size::format_size(reclaimed).as_str());
        headline.append(" reclaimed");
        let ghost start = headline@;
        if errors != 0 {
            headline.append(" · ");
            headline.append(text::decimal_text(errors as u64).as_str());
            headline.append(" errors");
            assert(headline@ =~= start + (" · "@ + text::decimal(errors as nat) + " errors"@));
        } else {
            assert(start + Seq::<char>::empty() =~= start);
        }
        headline
    } else {
        let mut headline: String = "Removing ".to_owned();
        headline.append(text::decimal_text(total as u64).as_str());
        headline.append(" directories · ");
        headline.append(size::format_size(reclaimed).as_str());
        headline.append(" selected");
        headline
    }
}

/// The prompt at the foot of the removal dialog.
pub fn removal_prompt(finished: bool) -> (prompt: &'static str)
    ensures
        prompt@ == (if finished {
            " Press Esc or Enter to close "@
        } else {
            " working… "@
        }),
{
    if finished {
        " Press Esc or Enter to close "
    } else {
        " working… "
    }
}

/// Writes the title of the table.
pub fn table_title(count: usize) -> (title: String)
    ensures
        title@ == " Candidates ("@ + text::decimal(count as nat) + ") "@,
{
    let mut title: String = " Candidates (".to_owned();
    title.append(text::decimal_text(count as u64).as_str());
    title.append(") ");
    title
}

/// One row of the table of candidates.
#[derive(Debug, PartialEq, Eq)]
pub struct TableRow {
    pub marker: &'static str,
    pub label: &'static str,
    pub size: String,
    pub path: String,
}

/// Whether a row shows a candidate.
pub open spec fn is_row_of(row: TableRow, entry: candidate::Entry, selected: bool) -> bool {
    &&& row.marker@ == (if selected {
        "✓"@
    } else {
        " "@
    })
    &&& row.label@ == candidate::kind_label(entry.kind)
    &&& row.size@ == size::size_text(entry.size)
    &&& row.path@ == path::lossy_text(entry.path)
}

/// Fills the table row of a candidate.
pub fn table_row(candidate: &Candidate, selected: bool) -> (row: TableRow)
    ensures
        is_row_of(row, candidate@, selected),
{
    TableRow {
        marker: if selected {
            "✓"
        } else {
            " "
        },
        label: candidate.kind.label(),
        size: size::format_size(candidate.size_bytes),
        path: path::display(&candidate.path),
    }
}

// --------------------------------------------------------------------- laws

/// The smaller of two lengths is one of them and exceeds neither.
pub proof fn law_smaller_exceeds_neither(a: int, b: int)
    ensures
        smaller(a, b) <= a,
        smaller(a, b) <= b,
        smaller(a, b) == a || smaller(a, b) == b,
{
}

/// The line of a removal step has four spans: a mark, how far the removal is,
/// and then the kind and the path of what was removed, or the path and the
/// reason of what was not. Marks and reasons stand out, and the kind does not.
pub proof fn law_spans_of_a_removal_step(
    index: nat,
    total: nat,
    entry: candidate::Entry,
    message: Seq<char>,
)
    ensures
        ({
            let done = removal_step_line(index, total, entry, None);
            let failed = removal_step_line(index, total, entry, Some(message));
            let position = text::decimal(index) + "/"@ + text::decimal(total) + "  "@;
            &&& done.len() == 4 && failed.len() == 4
            &&& done[0].text == "✓  "@ && done[0].tone == Tone::Success
            &&& failed[0].text == "✗  "@ && failed[0].tone == Tone::Failure
            &&& done[1].text == position && failed[1].text == position
            &&& done[1].tone == Tone::Plain && failed[1].tone == Tone::Plain
            &&& done[2].text == candidate::kind_label(entry.kind) + "  "@ && done[2].tone
                == Tone::Muted
            &&& done[3].text == path::lossy_text(entry.path) && done[3].tone == Tone::Plain
            &&& failed[2].text == path::lossy_text(entry.path) && failed[2].tone == Tone::Plain
            &&& failed[3].text == "  "@ + message && failed[3].tone == Tone::Failure
        }),
{
}

/// The status line of a walk tells the threads, the folders, the files and the
/// bytes, in this order, and ends with the path that was visited last.
pub proof fn law_what_a_walk_tells(threads: nat, counters: scan::Counters)
    ensures
        walk_status(threads, counters) == text::decimal(threads) + (" threads | "@ + (grouped(
            counters.directories,
        ) + (" folders | "@ + (grouped(counters.files) + (" files | "@ + (size::size_text(
            counters.bytes,
        ) + (" | "@ + counters.current_path))))))),
{
    assert(walk_status(threads, counters) =~= text::decimal(threads) + (" threads | "@ + (grouped(
        counters.directories,
    ) + (" folders | "@ + (grouped(counters.files) + (" files | "@ + (size::size_text(
        counters.bytes,
    ) + (" | "@ + counters.current_path))))))));
}

/// A selection is summed up by its count and its size, unless it is empty; the
/// hint gives both in any case.
pub proof fn law_what_a_selection_tells(count: nat, bytes: nat)
    ensures
        count > 0 ==> selection_summary(count, bytes) == "Selected: "@ + text::decimal(count)
            + " directories · "@ + size::size_text(bytes) + " reclaimable · D to remove"@,
        selection_summary(0, bytes) == "Selected: none · Space toggle · A all · N none"@,
        selection_hint(count, bytes) == "  remove: "@ + text::decimal(count) + " · "@
            + size::size_text(bytes),
{
}

/// A removal dialog is headed by what is going on; once the removal is over,
/// by what it reclaimed and by the number of errors if there were any.
pub proof fn law_what_a_headline_tells(total: nat, reclaimed: nat, errors: nat)
    ensures
        removal_headline(total, reclaimed, errors, false) == "Removing "@ + text::decimal(total)
            + " directories · "@ + size::size_text(reclaimed) + " selected"@,
        removal_headline(total, reclaimed, 0, true) == "Removal complete · "@ + size::size_text(
            reclaimed,
        ) + " reclaimed"@,
        errors > 0 ==> removal_headline(total, reclaimed, errors, true) == removal_headline(
            total,
            reclaimed,
            0,
            true,
        ) + " · "@ + text::decimal(errors) + " errors"@,
{
    let done = "Removal complete · "@ + size::size_text(reclaimed) + " reclaimed"@;
    assert(done + Seq::<char>::empty() =~= done);
    assert(done + (" · "@ + text::decimal(errors) + " errors"@) =~= done + " · "@ + text::decimal(
        errors,
    ) + " errors"@);
}

/// The row of a candidate is marked just when the candidate is selected, and
/// tells its kind, its size and its path.
pub proof fn law_what_a_row_tells(row: TableRow, entry: candidate::Entry, selected: bool)
    requires
        is_row_of(row, entry, selected),
    ensures
        selected <==> row.marker@ == "✓"@,
        !selected <==> row.marker@ == " "@,
        row.label@ == candidate::kind_label(entry.kind),
        row.size@ == size::size_text(entry.size),
        row.path@ == path::lossy_text(entry.path),
{
    reveal_strlit("✓");
    reveal_strlit(" ");
    assert("✓"@[0] != " "@[0]);
}

/// The spans of a line are seen as they are.
pub proof fn law_spans_are_seen_as_they_are(line: Seq<Span>, i: int)
    ensures
        line_view(line).len() == line.len(),
        0 <= i < line.len() ==> line_view(line)[i].text == line[i].text@ && line_view(line)[i].tone
            == line[i].tone,
{
}

} // verus!
