//! The command line: what its options ask for, and what is printed.

use vstd::prelude::*;
use vstd::string::*;

use crate::candidate;
use crate::candidate::Candidate;
use crate::path;
use crate::safety;
use crate::scan;
use crate::size;
use crate::text;
use crate::update;
use crate::update::UpdateOutcome;

verus! {

// ------------------------------------------------------------------ options

/// The options of the command line.
pub struct Options {
    /// The roots to scan.
    pub roots: Vec<Vec<u8>>,
    /// The number of scanner threads.
    pub threads: usize,
    /// Print candidates instead of opening the interactive session.
    pub list: bool,
    /// With `list`, print JSON.
    pub json: bool,
    /// Install the newest published release.
    pub update: bool,
    /// With `update`, reinstall even when already current.
    pub force: bool,
}

/// What the options ask for.
pub enum Plan {
    Update { force: bool },
    /// Give up with this message.
    Refuse(String),
    List { roots: Vec<Vec<u8>>, threads: usize, json: bool },
    Interactive { roots: Vec<Vec<u8>>, threads: usize },
}

/// What the options ask for, as the contracts speak of it.
pub enum PlanView {
    Update { force: bool },
    Refuse(Seq<char>),
    List { roots: Seq<Seq<u8>>, threads: nat, json: bool },
    Interactive { roots: Seq<Seq<u8>>, threads: nat },
}

impl View for Plan {
    type V = PlanView;

    open spec fn view(&self) -> PlanView {
        match self {
            Plan::Update { force } => PlanView::Update { force: *force },
            Plan::Refuse(message) => PlanView::Refuse(message@),
            Plan::List { roots, threads, json } => PlanView::List {
                roots: path::all_bytes(roots@),
                threads: *threads as nat,
                json: *json,
            },
            Plan::Interactive { roots, threads } => PlanView::Interactive {
                roots: path::all_bytes(roots@),
                threads: *threads as nat,
            },
        }
    }
}

/// The roots that may be scanned.
pub open spec fn scannable(roots: Seq<Seq<u8>>) -> Seq<Seq<u8>>
    decreases roots.len(),
{
    if roots.len() == 0 {
        Seq::empty()
    } else if safety::is_skipped(roots.last()) {
        scannable(roots.drop_last())
    } else {
        scannable(roots.drop_last()).push(roots.last())
    }
}

/// The warning about a root that is not scanned.
pub open spec fn skip_warning(root: Seq<u8>) -> Seq<char> {
    "warning: skipping "@ + path::lossy_text(root) + ", a protected location"@
}

/// The warnings about the roots that are not scanned.
pub open spec fn skip_warnings(roots: Seq<Seq<u8>>) -> Seq<Seq<char>>
    decreases roots.len(),
{
    if roots.len() == 0 {
        Seq::empty()
    } else if safety::is_skipped(roots.last()) {
        skip_warnings(roots.drop_last()).push(skip_warning(roots.last()))
    } else {
        skip_warnings(roots.drop_last())
    }
}

/// The roots that are asked for; the whole file system where none is given.
pub open spec fn wanted_roots(roots: Seq<Seq<u8>>) -> Seq<Seq<u8>> {
    if roots.len() == 0 {
        seq!["/".spec_bytes()]
    } else {
        roots
    }
}

/// What the options ask for.
pub open spec fn planned(options: Options) -> PlanView {
    let roots = scannable(wanted_roots(path::all_bytes(options.roots@)));
    if options.update {
        PlanView::Update { force: options.force }
    } else if !scan::is_thread_count(options.threads as int) {
        PlanView::Refuse(
            "error: --threads must be between "@ + text::decimal(scan::MIN_THREADS as nat)
                + " and "@ + text::decimal(scan::MAX_THREADS as nat),
        )
    } else if roots.len() == 0 {
        PlanView::Refuse("error: no scannable roots given"@)
    } else if options.list {
        PlanView::List { roots, threads: options.threads as nat, json: options.json }
    } else {
        PlanView::Interactive { roots, threads: options.threads as nat }
    }
}

/// The warnings that the options give rise to.
pub open spec fn warned(options: Options) -> Seq<Seq<char>> {
    if options.update || !scan::is_thread_count(options.threads as int) {
        Seq::empty()
    } else {
        skip_warnings(wanted_roots(path::all_bytes(options.roots@)))
    }
}

/// The characters of each text.
pub open spec fn texts_of(texts: Seq<String>) -> Seq<Seq<char>> {
    texts.map_values(|text: String| text@)
}

/// Parts the roots that may be scanned from those that are warned about.
fn part_roots(roots: Vec<Vec<u8>>) -> (parted: (Vec<Vec<u8>>, Vec<String>))
    ensures
        path::all_bytes(parted.0@) == scannable(path::all_bytes(roots@)),
        texts_of(parted.1@) == skip_warnings(path::all_bytes(roots@)),
{
    let ghost all = path::all_bytes(roots@);
    let mut kept: Vec<Vec<u8>> = Vec::new();
    let mut warnings: Vec<String> = Vec::new();
    proof {
        assert(path::all_bytes(kept@) =~= scannable(all.take(0)));
        assert(texts_of(warnings@) =~= skip_warnings(all.take(0)));
    }
    for i in 0..roots.len()
        invariant
            all == path::all_bytes(roots@),
            path::all_bytes(kept@) == scannable(all.take(i as int)),
            texts_of(warnings@) == skip_warnings(all.take(i as int)),
    {
        let ghost kept_before = kept@;
        let ghost warnings_before = warnings@;
        proof {
            assert(all.take(i + 1).drop_last() =~= all.take(i as int));
            assert(all.take(i + 1).last() == roots@[i as int]@);
        }
        if safety::should_skip(&roots[i]) {
            let mut warning: String = "warning: skipping ".to_owned();
            warning.append(path::display(&roots[i]).as_str());
            warning.append(", a protected location");
            warnings.push(warning);
            assert(texts_of(warnings@) =~= texts_of(warnings_before).push(warning@));
        } else {
            let root: Vec<u8> = path::copy_bytes(&roots[i]);
            kept.push(root);
            assert(path::all_bytes(kept@) =~= path::all_bytes(kept_before).push(root@));
        }
    }
    assert(all.take(all.len() as int) =~= all);
    (kept, warnings)
}

/// Decides what the options ask for, and what to warn about first.
pub fn plan(options: Options) -> (decided: (Plan, Vec<String>))
    ensures
        decided.0@ == planned(options),
        texts_of(decided.1@) == warned(options),
{
    if options.update {
        let none: Vec<String> = Vec::new();
        assert(texts_of(none@) =~= Seq::empty());
        return (Plan::Update { force: options.force }, none);
    }
    if !scan::supports_threads(options.threads) {
        let none: Vec<String> = Vec::new();
        assert(texts_of(none@) =~= Seq::empty());
        let mut message: String = "error: --threads must be between ".to_owned();
        message.append(text::decimal_text(scan::MIN_THREADS as u64).as_str());
        message.append(" and ");
        message.append(text::decimal_text(scan::MAX_THREADS as u64).as_str());
        return (Plan::Refuse(message), none);
    }
    let ghost given = path::all_bytes(options.roots@);
    let mut roots: Vec<Vec<u8>> = options.roots;
    if roots.len() == 0 {
        roots.push(path::copy_bytes("/".as_bytes()));
    }
    assert(path::all_bytes(roots@) =~= wanted_roots(given));
    let (kept, warnings) = part_roots(roots);
    assert(kept@.len() == path::all_bytes(kept@).len());
    let decided: Plan = if kept.len() == 0 {
        Plan::Refuse("error: no scannable roots given".to_owned())
    } else if options.list {
        Plan::List { roots: kept, threads: options.threads, json: options.json }
    } else {
        Plan::Interactive { roots: kept, threads: options.threads }
    };
    (decided, warnings)
}

proof fn lemma_scannable(roots: Seq<Seq<u8>>)
    ensures
        forall|i: int|
            0 <= i < scannable(roots).len() ==> !safety::is_skipped(#[trigger] scannable(roots)[i])
                && roots.contains(scannable(roots)[i]),
        scannable(roots).len() + skip_warnings(roots).len() == roots.len(),
    decreases roots.len(),
{
    if roots.len() > 0 {
        let before = roots.drop_last();
        lemma_scannable(before);
        assert forall|i: int| 0 <= i < scannable(roots).len() implies !safety::is_skipped(
            #[trigger] scannable(roots)[i],
        ) && roots.contains(scannable(roots)[i]) by {
            if i < scannable(before).len() {
                assert(scannable(roots)[i] == scannable(before)[i]);
                let k = choose|k: int| 0 <= k < before.len() && before[k] == scannable(before)[i];
                assert(roots[k] == scannable(roots)[i]);
            } else {
                assert(roots[roots.len() - 1] == scannable(roots)[i]);
            }
        }
    }
}

/// A scan that the command line starts, printed or interactive, has a
/// supported number of threads and at least one root, and none of its roots is
/// in a protected location. Every root that was asked for is scanned or warned
/// about.
pub proof fn law_plans_are_scannable(options: Options, roots: Seq<Seq<u8>>, threads: nat)
    requires
        planned(options) == (PlanView::Interactive { roots, threads }) || planned(options) == (
        PlanView::List { roots, threads, json: options.json }),
    ensures
        scan::is_thread_count(threads as int),
        roots.len() > 0,
        forall|i: int| 0 <= i < roots.len() ==> !safety::is_skipped(#[trigger] roots[i]),
        forall|i: int|
            0 <= i < roots.len() ==> wanted_roots(path::all_bytes(options.roots@)).contains(
                #[trigger] roots[i],
            ),
        roots.len() + warned(options).len() == wanted_roots(path::all_bytes(options.roots@)).len(),
{
    lemma_scannable(wanted_roots(path::all_bytes(options.roots@)));
}

// ------------------------------------------------------------------ listing

/// The line that is printed for a candidate.
pub open spec fn list_line(entry: candidate::Entry) -> Seq<char> {
    text::right_aligned(size::size_text(entry.size), ' ', 10) + "  "@ + text::left_aligned(
        candidate::kind_label(entry.kind),
        24,
    ) + "  "@ + path::lossy_text(entry.path)
}

/// The line that sums a listing up.
pub open spec fn list_total(all: Seq<candidate::Entry>, cache: Seq<u8>) -> Seq<char> {
    "\n"@ + text::decimal(all.len()) + " candidates · "@ + size::size_text(
        candidate::total_bytes(all),
    ) + " reclaimable · cache "@ + path::lossy_text(cache)
}

/// Writes the line of a candidate.
pub fn candidate_line(candidate: &Candidate) -> (line: String)
    ensures
        line@ == list_line(candidate@),
{
    let mut line: String = text::right_aligned_text(
        size::format_size(candidate.size_bytes).as_str(),
        10,
    );
    line.append("  ");
    line.append(text::left_aligned_text(candidate.kind.label(), 24).as_str());
    line.append("  ");
    line.append(path::display(&candidate.path).as_str());
    line
}

/// Writes the line that sums a listing up; `cache` is where the last scan is
/// recorded.
pub fn total_line(candidates: &Vec<Candidate>, cache: &[u8]) -> (line: String)
    requires
        candidate::total_bytes(candidate::entries(candidates@)) <= u64::MAX,
    ensures
        line@ == list_total(candidate::entries(candidates@), cache@),
{
    let total: u64 = match candidate::total_size(candidates) {
        Some(sum) => sum,
        None => 0,
    };
    let mut line: String = "\n".to_owned();
    line.append(text::decimal_text(candidates.len() as u64).as_str());
    line.append(" candidates · ");
    line.append(size::format_size(total).as_str());
    line.append(" reclaimable · cache ");
    line.append(path::display(cache).as_str());
    line
}

/// Writes the listing, one line for each candidate and one that sums it up.
pub fn list_lines(candidates: &Vec<Candidate>, cache: &[u8]) -> (lines: Vec<String>)
    requires
        candidate::total_bytes(candidate::entries(candidates@)) <= u64::MAX,
    ensures
        lines@.len() == candidates@.len() + 1,
        forall|i: int|
            0 <= i < candidates@.len() ==> (#[trigger] lines@[i])@ == list_line(candidates@[i]@),
        lines@.last()@ == list_total(candidate::entries(candidates@), cache@),
{
    let mut lines: Vec<String> = Vec::new();
    for i in 0..candidates.len()
        invariant
            lines@.len() == i,
            forall|k: int| 0 <= k < i ==> (#[trigger] lines@[k])@ == list_line(candidates@[k]@),
    {
        lines.push(candidate_line(&candidates[i]));
    }
    lines.push(total_line(candidates, cache));
    lines
}

// ----------------------------------------------------------------- updating

/// Writes the line that an update starts with.
pub fn update_greeting() -> (line: String)
    ensures
        line@ == "dsopt "@ + update::VERSION@ + " · checking crates.io for updates..."@,
{
    let mut line: String = "dsopt ".to_owned();
    line.append(update::current_version());
    line.append(" · checking crates.io for updates...");
    line
}

/// What is printed at the end of an update.
pub open spec fn update_report(outcome: Result<UpdateOutcome, String>) -> Seq<char> {
    match outcome {
        Ok(UpdateOutcome::AlreadyLatest { current, latest }) => "dsopt "@ + current@
            + " is already the newest release (latest: "@ + latest@ + ")."@,
        Ok(UpdateOutcome::Updated { from, to }) => "Updated dsopt "@ + from@ + " -> "@ + to@
            + ". Run `dsopt --version` to confirm."@,
        Err(error) => "error: "@ + error@,
    }
}

/// Writes what is printed at the end of an update.
pub fn update_report_text(outcome: &Result<UpdateOutcome, String>) -> (line: String)
    ensures
        line@ == update_report(*outcome),
{
    match outcome {
        Ok(UpdateOutcome::AlreadyLatest { current, latest }) => {
            let mut line: String = "dsopt ".to_owned();
            line.append(current.as_str());
            line.append(" is already the newest release (latest: ");
            line.append(latest.as_str());
            line.append(").");
            line
        },
        Ok(UpdateOutcome::Updated { from, to }) => {
            let mut line: String = "Updated dsopt ".to_owned();
            line.append(from.as_str());
            line.append(" -> ");
            line.append(to.as_str());
            line.append(". Run `dsopt --version` to confirm.");
            line
        },
        Err(error) => {
            let mut line: String = "error: ".to_owned();
            line.append(error.as_str());
            line
        },
    }
}

// --------------------------------------------------------------------- laws

proof fn lemma_scannable_selection(roots: Seq<Seq<u8>>) -> (at: Seq<int>)
    ensures
        candidate::is_selection(roots, scannable(roots), at),
        forall|i: int| #[trigger]
            at.contains(i) <==> 0 <= i < roots.len() && !safety::is_skipped(roots[i]),
    decreases roots.len(),
{
    if roots.len() == 0 {
        Seq::empty()
    } else {
        let shorter = roots.drop_last();
        let at = lemma_scannable_selection(shorter);
        candidate::lemma_selection_grows(
            roots,
            scannable(shorter),
            at,
            !safety::is_skipped(roots.last()),
        )
    }
}

/// A warning for each of the roots, skipped or not.
spec fn warnings_for(roots: Seq<Seq<u8>>) -> Seq<Seq<char>> {
    Seq::new(
        roots.len(),
        |i: int| "warning: skipping "@ + path::lossy_text(roots[i]) + ", a protected location"@,
    )
}

proof fn lemma_warnings_selection(roots: Seq<Seq<u8>>) -> (at: Seq<int>)
    ensures
        candidate::is_selection(warnings_for(roots), skip_warnings(roots), at),
        forall|i: int| #[trigger]
            at.contains(i) <==> 0 <= i < roots.len() && safety::is_skipped(roots[i]),
    decreases roots.len(),
{
    if roots.len() == 0 {
        Seq::empty()
    } else {
        let shorter = roots.drop_last();
        let at = lemma_warnings_selection(shorter);
        assert(warnings_for(roots).drop_last() =~= warnings_for(shorter));
        candidate::lemma_selection_grows(
            warnings_for(roots),
            skip_warnings(shorter),
            at,
            safety::is_skipped(roots.last()),
        )
    }
}

/// The roots that may be scanned are just those outside the places that are
/// skipped, each as it was given and all in the order that they were given.
pub proof fn law_parting_loses_no_root(roots: Seq<Seq<u8>>)
    ensures
        exists|at: Seq<int>| #[trigger]
            candidate::is_selection(roots, scannable(roots), at) && forall|i: int|
                0 <= i < roots.len() ==> (#[trigger] at.contains(i) <==> !safety::is_skipped(
                    roots[i],
                )),
{
    let at = lemma_scannable_selection(roots);
    assert(candidate::is_selection(roots, scannable(roots), at));
}

/// There is a warning for each root that is skipped and for no other, in the
/// order of the roots, and it names the root.
pub proof fn law_parting_warns_of_each_skipped_root(roots: Seq<Seq<u8>>)
    ensures
        exists|at: Seq<int>|
            {
                &&& #[trigger] at.len() == skip_warnings(roots).len()
                &&& forall|k: int|
                    0 <= k < at.len() ==> 0 <= #[trigger] at[k] < roots.len() && skip_warnings(
                        roots,
                    )[k] == "warning: skipping "@ + path::lossy_text(roots[at[k]])
                        + ", a protected location"@
                &&& forall|j: int, k: int|
                    0 <= j < k < at.len() ==> #[trigger] at[j] < #[trigger] at[k]
                &&& forall|i: int|
                    0 <= i < roots.len() ==> (#[trigger] at.contains(i) <==> safety::is_skipped(
                        roots[i],
                    ))
            },
{
    let at = lemma_warnings_selection(roots);
    assert(at.len() == skip_warnings(roots).len());
}

/// A scan that the command line starts takes every root that was asked for and
/// is not skipped, in the order that they were given, and no other.
pub proof fn law_every_wanted_root_is_scanned(options: Options, roots: Seq<Seq<u8>>, threads: nat)
    requires
        planned(options) == (PlanView::Interactive { roots, threads }) || planned(options) == (
        PlanView::List { roots, threads, json: options.json }),
    ensures
        exists|at: Seq<int>| #[trigger]
            candidate::is_selection(
                wanted_roots(path::all_bytes(options.roots@)),
                roots,
                at,
            ) && forall|i: int|
                0 <= i < wanted_roots(path::all_bytes(options.roots@)).len() ==> (
                #[trigger] at.contains(i) <==> !safety::is_skipped(
                    wanted_roots(path::all_bytes(options.roots@))[i],
                )),
        threads == options.threads,
{
    let wanted = wanted_roots(path::all_bytes(options.roots@));
    let at = lemma_scannable_selection(wanted);
    assert(candidate::is_selection(wanted, roots, at));
}

/// Every root that was asked for is a root of the scan, or is skipped.
pub proof fn law_wanted_roots_are_scanned_or_skipped(
    options: Options,
    roots: Seq<Seq<u8>>,
    threads: nat,
    i: int,
)
    requires
        planned(options) == (PlanView::Interactive { roots, threads }) || planned(options) == (
        PlanView::List { roots, threads, json: options.json }),
        0 <= i < options.roots@.len(),
    ensures
        roots.contains(options.roots@[i]@) <==> !safety::is_skipped(options.roots@[i]@),
{
    let wanted = wanted_roots(path::all_bytes(options.roots@));
    let at = lemma_scannable_selection(wanted);
    assert(wanted[i] == options.roots@[i]@);
    if at.contains(i) {
        let k = choose|k: int| 0 <= k < at.len() && at[k] == i;
        assert(roots[k] == wanted[i]);
    }
    if roots.contains(wanted[i]) {
        let k = choose|k: int| 0 <= k < roots.len() && roots[k] == wanted[i];
        assert(at.contains(at[k]));
        assert(roots[k] == wanted[at[k]]);
    }
}

/// Without a root the whole file system is wanted, else just the roots that
/// were given.
pub proof fn law_what_is_wanted(roots: Seq<Seq<u8>>)
    ensures
        roots.len() == 0 ==> wanted_roots(roots).len() == 1 && path::parts(wanted_roots(roots)[0])
            == seq![path::Part::Root],
        roots.len() > 0 ==> wanted_roots(roots) == roots,
{
    reveal_strlit("/");
    is_ascii_spec_bytes("/");
    assert("/".spec_bytes() =~= seq![47u8]);
    path::law_dots_and_slashes(Seq::empty());
}

/// An update goes before everything else. A scan needs one to eight threads
/// and a root that is not skipped, and is refused without them. It is printed
/// where a list was asked for, as JSON where that was, and interactive else.
/// Only a scan with a supported number of threads warns of roots.
pub proof fn law_what_the_options_lead_to(options: Options, i: int)
    ensures
        options.update ==> planned(options) == (PlanView::Update { force: options.force })
            && warned(options).len() == 0,
        !options.update && !(1 <= options.threads <= 8) ==> planned(options) == PlanView::Refuse(
            "error: --threads must be between "@ + text::decimal(1) + " and "@ + text::decimal(8),
        ) && warned(options).len() == 0,
        !options.update && 1 <= options.threads <= 8 ==> warned(options) == skip_warnings(
            wanted_roots(path::all_bytes(options.roots@)),
        ),
        !options.update && 1 <= options.threads <= 8 && warned(options).len() == wanted_roots(
            path::all_bytes(options.roots@),
        ).len() ==> planned(options) == PlanView::Refuse("error: no scannable roots given"@),
        !options.update && 1 <= options.threads <= 8 && 0 <= i < wanted_roots(
            path::all_bytes(options.roots@),
        ).len() && !safety::is_skipped(wanted_roots(path::all_bytes(options.roots@))[i]) ==> {
            &&& options.list <==> planned(options) is List
            &&& !options.list <==> planned(options) is Interactive
            &&& planned(options) matches PlanView::List { roots, threads, json } ==> json
                == options.json && threads == options.threads
            &&& planned(options) matches PlanView::Interactive { roots, threads } ==> threads
                == options.threads
        },
{
    let wanted = wanted_roots(path::all_bytes(options.roots@));
    lemma_scannable(wanted);
    let at = lemma_scannable_selection(wanted);
    if 0 <= i < wanted.len() && !safety::is_skipped(wanted[i]) {
        assert(at.contains(i));
        assert(at.len() > 0);
    }
}

/// The line of a candidate holds its size at the right of ten columns, or of
/// more where it needs them, its kind at the left of twenty-four, and its path
/// behind them, with two spaces between each two.
pub proof fn law_columns_of_a_line(entry: candidate::Entry, width: int, i: int)
    requires
        width == (if size::size_text(entry.size).len() > 10 {
            size::size_text(entry.size).len() as int
        } else {
            10
        }),
    ensures
        ({
            let line = list_line(entry);
            let size = size::size_text(entry.size);
            let label = candidate::kind_label(entry.kind);
            &&& line.len() == width + 28 + path::lossy_text(entry.path).len()
            &&& line.subrange(width - size.len(), width) == size
            &&& line.subrange(width + 2, width + 2 + label.len()) == label
            &&& line.skip(width + 28) == path::lossy_text(entry.path)
            &&& 0 <= i < width - size.len() ==> line[i] == ' '
            &&& width <= i < width + 2 ==> line[i] == ' '
            &&& width + 2 + label.len() <= i < width + 28 ==> line[i] == ' '
        }),
{
    let size = size::size_text(entry.size);
    let label = candidate::kind_label(entry.kind);
    let left = text::right_aligned(size, ' ', 10);
    let middle = text::left_aligned(label, 24);
    let line = list_line(entry);
    text::law_alignment(size, ' ', 10);
    text::law_alignment(label, ' ', 24);
    reveal_strlit("  ");
    reveal_strlit("JavaScript dependencies");
    reveal_strlit("Rust build output");
    assert(label.len() <= 24);
    assert(left.len() == width);
    assert(middle.len() == 24);
    assert("  "@.len() == 2);
    assert(line.subrange(width - size.len(), width) =~= left.skip(width - size.len()));
    assert(line.subrange(width + 2, width + 2 + label.len()) =~= middle.take(label.len() as int));
    assert(line.skip(width + 28) =~= path::lossy_text(entry.path));
    if 0 <= i < width - size.len() {
        assert(line[i] == left[i]);
    }
    if width <= i < width + 2 {
        assert(line[i] == "  "@[i - width]);
    }
    if width + 2 + label.len() <= i < width + 26 {
        assert(line[i] == middle[i - width - 2]);
    }
    if width + 26 <= i < width + 28 {
        assert(line[i] == "  "@[i - width - 26]);
    }
}

/// The line below a listing tells how many candidates there are, what they
/// take together, and where the scan is recorded.
pub proof fn law_what_the_total_tells(all: Seq<candidate::Entry>, cache: Seq<u8>)
    ensures
        list_total(all, cache) == "\n"@ + (text::decimal(all.len()) + (" candidates · "@ + (
        size::size_text(candidate::total_bytes(all)) + (" reclaimable · cache "@
            + path::lossy_text(cache))))),
{
    let total = size::size_text(candidate::total_bytes(all));
    assert(list_total(all, cache) =~= "\n"@ + (text::decimal(all.len()) + (" candidates · "@ + (total
        + (" reclaimable · cache "@ + path::lossy_text(cache))))));
}

/// An update reports both versions where none was installed, which one took
/// the place of which where one was, and the error else.
pub proof fn law_what_an_update_reports(first: String, second: String)
    ensures
        update_report(Ok(UpdateOutcome::AlreadyLatest { current: first, latest: second }))
            == "dsopt "@ + first@ + " is already the newest release (latest: "@ + second@ + ")."@,
        update_report(Ok(UpdateOutcome::Updated { from: first, to: second })) == "Updated dsopt "@
            + first@ + " -> "@ + second@ + ". Run `dsopt --version` to confirm."@,
        update_report(Err(first)) == "error: "@ + first@,
{
}

/// A plan is seen as it is, and so are the warnings before it.
pub proof fn law_plans_are_seen_as_they_are(
    roots: Vec<Vec<u8>>,
    threads: usize,
    json: bool,
    force: bool,
    message: String,
    warnings: Seq<String>,
    i: int,
)
    ensures
        texts_of(warnings).len() == warnings.len(),
        0 <= i < warnings.len() ==> texts_of(warnings)[i] == warnings[i]@,
        (Plan::Update { force })@ == (PlanView::Update { force }),
        Plan::Refuse(message)@ == PlanView::Refuse(message@),
        (Plan::List { roots, threads, json })@ == (PlanView::List {
            roots: path::all_bytes(roots@),
            threads: threads as nat,
            json,
        }),
        (Plan::Interactive { roots, threads })@ == (PlanView::Interactive {
            roots: path::all_bytes(roots@),
            threads: threads as nat,
        }),
{
}

} // verus!
