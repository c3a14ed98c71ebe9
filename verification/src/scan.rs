//! Scans: live counters, the walk's decisions, and the listing that a scan
//! ends in.
//!
//! Reading the file system is the caller's part. A scan of one root goes
//! through [`ScanRequest`], [`ScanWalk`] and [`ScanInspection`]; at each stage
//! the caller reports what it read. [`ScanRun`] goes through several roots.

use vstd::prelude::*;
use vstd::string::*;

use crate::candidate;
use crate::candidate::{Candidate, FileIdentity};
use crate::listing;
use crate::path;
use crate::safety;
use crate::safety::Location;
use crate::text;
use crate::tree;
use crate::tree::DirTree;

verus! {

/// The smallest number of scanner threads.
pub const MIN_THREADS: usize = 1;

/// The largest number of scanner threads.
pub const MAX_THREADS: usize = 8;

/// Whether a number of scanner threads is supported.
pub open spec fn is_thread_count(threads: int) -> bool {
    MIN_THREADS <= threads <= MAX_THREADS
}

/// Whether a number of scanner threads is supported.
pub fn supports_threads(threads: usize) -> (supported: bool)
    ensures
        supported == is_thread_count(threads as int),
{
    MIN_THREADS <= threads && threads <= MAX_THREADS
}

// ------------------------------------------------------------------ counters

/// Live counters of a walk.
pub struct ScanState {
    files: u64,
    directories: u64,
    bytes: u64,
    current_path: String,
}

/// Point-in-time copy of [`ScanState`].
#[derive(Clone, Debug)]
pub struct ProgressSnapshot {
    pub current_path: String,
    pub files_scanned: u64,
    pub directories_scanned: u64,
    pub bytes_scanned: u64,
}

/// Counters as the contracts speak of them.
pub struct Counters {
    pub current_path: Seq<char>,
    pub files: nat,
    pub directories: nat,
    pub bytes: nat,
}

impl View for ScanState {
    type V = Counters;

    closed spec fn view(&self) -> Counters {
        Counters {
            current_path: self.current_path@,
            files: self.files as nat,
            directories: self.directories as nat,
            bytes: self.bytes as nat,
        }
    }
}

impl View for ProgressSnapshot {
    type V = Counters;

    open spec fn view(&self) -> Counters {
        Counters {
            current_path: self.current_path@,
            files: self.files_scanned as nat,
            directories: self.directories_scanned as nat,
            bytes: self.bytes_scanned as nat,
        }
    }
}

/// What the file system says of one path, links not followed.
pub struct FileFacts {
    pub length: u64,
    pub is_dir: bool,
    pub is_file: bool,
    pub is_symlink: bool,
}

/// `count + more` in a 64-bit counter, which wraps around.
pub open spec fn counted(count: nat, more: nat) -> nat {
    (count + more) % 0x1_0000_0000_0000_0000
}

/// The counters after one more path.
pub open spec fn recorded(counters: Counters, path: Seq<u8>, facts: FileFacts) -> Counters {
    Counters {
        current_path: path::lossy_text(path),
        files: if !facts.is_dir && facts.is_file {
            counted(counters.files, 1)
        } else {
            counters.files
        },
        directories: if facts.is_dir {
            counted(counters.directories, 1)
        } else {
            counters.directories
        },
        bytes: counted(counters.bytes, facts.length as nat),
    }
}

impl ScanState {
    /// Counters at zero.
    pub fn new() -> (state: ScanState)
        ensures
            state@ == (Counters {
                current_path: Seq::empty(),
                files: 0,
                directories: 0,
                bytes: 0,
            }),
    {
        ScanState { files: 0, directories: 0, bytes: 0, current_path: String::new() }
    }

    /// Copies the counters.
    pub fn snapshot(&self) -> (snapshot: ProgressSnapshot)
        ensures
            snapshot@ == self@,
    {
        ProgressSnapshot {
            current_path: self.current_path.clone(),
            files_scanned: self.files,
            directories_scanned: self.directories,
            bytes_scanned: self.bytes,
        }
    }

    /// Counts one path.
    pub fn record(&mut self, path: &[u8], facts: &FileFacts)
        ensures
            final(self)@ == recorded(old(self)@, path@, *facts),
    {
        self.current_path = path::display(path);
        self.bytes = self.bytes.wrapping_add(facts.length);
        if facts.is_dir {
            self.directories = self.directories.wrapping_add(1);
        } else if facts.is_file {
            self.files = self.files.wrapping_add(1);
        }
    }
}

impl Default for ScanState {
    fn default() -> (state: ScanState)
        ensures
            state@ == (Counters {
                current_path: Seq::empty(),
                files: 0,
                directories: 0,
                bytes: 0,
            }),
    {
        ScanState::new()
    }
}

/// What a walk takes from one path.
pub struct PathInfo {
    /// The bytes of the entry itself.
    pub size: u64,
    /// Whether to go on to the entry's children.
    pub descend: bool,
}

/// Counts one path and decides whether the walk goes into it. A path that
/// cannot be read counts for nothing.
pub fn info_for_path(path: &[u8], facts: &Option<FileFacts>, state: &mut ScanState) -> (info:
    PathInfo)
    ensures
        match facts {
            Some(known) => {
                &&& final(state)@ == recorded(old(state)@, path@, *known)
                &&& info.size == known.length
                &&& info.descend == (known.is_dir && !known.is_symlink && !safety::is_skipped(path@))
            },
            None => final(state)@ == old(state)@ && info.size == 0 && !info.descend,
        },
{
    match facts {
        Some(known) => {
            state.record(path, known);
            if !known.is_dir || known.is_symlink || safety::should_skip(path) {
                PathInfo { size: known.length, descend: false }
            } else {
                PathInfo { size: known.length, descend: true }
            }
        },
        None => PathInfo { size: 0, descend: false },
    }
}

/// The counts of counters, without the path that was counted last.
pub open spec fn counts(counters: Counters) -> (nat, nat, nat) {
    (counters.files, counters.directories, counters.bytes)
}

/// The counters after several paths, in order.
pub open spec fn all_recorded(counters: Counters, visits: Seq<(Seq<u8>, FileFacts)>) -> Counters
    decreases visits.len(),
{
    if visits.len() == 0 {
        counters
    } else {
        recorded(
            all_recorded(counters, visits.drop_last()),
            visits.last().0,
            visits.last().1,
        )
    }
}

/// Two paths count the same in either order.
pub proof fn law_counting_commutes(
    counters: Counters,
    left: (Seq<u8>, FileFacts),
    right: (Seq<u8>, FileFacts),
)
    ensures
        counts(recorded(recorded(counters, left.0, left.1), right.0, right.1)) == counts(
            recorded(recorded(counters, right.0, right.1), left.0, left.1),
        ),
{
}

/// The counts after one more path, from the counts before it.
spec fn counted_on(before: (nat, nat, nat), visit: (Seq<u8>, FileFacts)) -> (nat, nat, nat) {
    counts(
        recorded(
            Counters {
                current_path: Seq::empty(),
                files: before.0,
                directories: before.1,
                bytes: before.2,
            },
            visit.0,
            visit.1,
        ),
    )
}

proof fn lemma_counts_fold(counters: Counters, visits: Seq<(Seq<u8>, FileFacts)>)
    ensures
        counts(all_recorded(counters, visits)) == visits.fold_left(
            counts(counters),
            |before: (nat, nat, nat), visit: (Seq<u8>, FileFacts)| counted_on(before, visit),
        ),
    decreases visits.len(),
{
    if visits.len() > 0 {
        lemma_counts_fold(counters, visits.drop_last());
    }
}

/// What a walk counts does not depend on the order in which it comes to the
/// paths, and so neither on the number of threads that walk.
pub proof fn law_counts_do_not_depend_on_the_order(
    counters: Counters,
    visits: Seq<(Seq<u8>, FileFacts)>,
    reordered: Seq<(Seq<u8>, FileFacts)>,
)
    requires
        visits.to_multiset() == reordered.to_multiset(),
    ensures
        counts(all_recorded(counters, visits)) == counts(all_recorded(counters, reordered)),
{
    let step = |before: (nat, nat, nat), visit: (Seq<u8>, FileFacts)| counted_on(before, visit);
    lemma_counts_fold(counters, visits);
    lemma_counts_fold(counters, reordered);
    assert(vstd::seq_lib::commutative_foldl(step)) by {
        assert forall|x: (Seq<u8>, FileFacts), y: (Seq<u8>, FileFacts), v: (nat, nat, nat)|
            #[trigger] step(step(v, x), y) == step(step(v, y), x) by {
            let start = Counters {
                current_path: Seq::empty(),
                files: v.0,
                directories: v.1,
                bytes: v.2,
            };
            law_counting_commutes(start, x, y);
        }
    }
    vstd::seq_lib::lemma_fold_left_permutation(visits, reordered, step, counts(counters));
}

// ----------------------------------------------------------------- one root

/// Outcome of a completed scan.
#[derive(Clone, Debug)]
pub struct ScanResult {
    pub candidates: Vec<Candidate>,
    pub files_scanned: u64,
    pub directories_scanned: u64,
    pub bytes_scanned: u64,
}

impl Default for ScanResult {
    fn default() -> (result: ScanResult)
        ensures
            result.candidates@ == Seq::<Candidate>::empty(),
            result.files_scanned == 0,
            result.directories_scanned == 0,
            result.bytes_scanned == 0,
    {
        ScanResult {
            candidates: Vec::new(),
            files_scanned: 0,
            directories_scanned: 0,
            bytes_scanned: 0,
        }
    }
}

/// A scan whose root is to be resolved.
pub struct ScanRequest {
    pub root: Vec<u8>,
    pub threads: usize,
}

/// A scan whose resolved root is to be walked.
pub struct ScanWalk {
    pub root: Vec<u8>,
    pub threads: usize,
}

/// A scan whose candidates are to be looked at.
pub struct ScanInspection {
    pub root: Vec<u8>,
    pub candidates: Vec<Candidate>,
}

/// What the file system says of a candidate.
pub struct Inspection {
    /// Where the candidate's path leads, if it leads anywhere.
    pub location: Option<Location>,
    /// The identity of what is there, where the file system has one.
    pub identity: Option<FileIdentity>,
}

/// The message for an unsupported number of threads.
pub open spec fn thread_count_message() -> Seq<char> {
    "threads must be between "@ + text::decimal(MIN_THREADS as nat) + " and "@ + text::decimal(
        MAX_THREADS as nat,
    )
}

/// Starts a scan of `root`.
pub fn scan(root: Vec<u8>, threads: usize) -> (request: Result<ScanRequest, String>)
    ensures
        request is Ok <==> is_thread_count(threads as int),
        request matches Ok(accepted) ==> accepted.root@ == root@ && accepted.threads == threads,
        request matches Err(message) ==> message@ == thread_count_message(),
{
    if !supports_threads(threads) {
        let mut message: String = "threads must be between ".to_owned();
        message.append(text::decimal_text(MIN_THREADS as u64).as_str());
        message.append(" and ");
        message.append(text::decimal_text(MAX_THREADS as u64).as_str());
        return Err(message);
    }
    Ok(ScanRequest { root, threads })
}

impl ScanRequest {
    /// Takes the resolved root, or why it cannot be resolved.
    pub fn resolved(self, root: Result<Vec<u8>, String>) -> (walk: Result<ScanWalk, String>)
        ensures
            match (root, walk) {
                (Ok(found), Ok(next)) => next.root@ == found@ && next.threads == self.threads,
                (Err(error), Err(message)) => message@ == "cannot access "@ + path::lossy_text(
                    self.root@,
                ) + ": "@ + error@,
                _ => false,
            },
    {
        match root {
            Ok(found) => Ok(ScanWalk { root: found, threads: self.threads }),
            Err(error) => {
                let mut message: String = "cannot access ".to_owned();
                message.append(path::display(&self.root).as_str());
                message.append(": ");
                message.append(error.as_str());
                Err(message)
            },
        }
    }
}

impl ScanWalk {
    /// Takes the size tree of the root, or why no walk took place. The root
    /// itself is no candidate, whatever its name.
    pub fn walked(self, walk: Result<DirTree, String>) -> (inspection: Result<
        ScanInspection,
        String,
    >)
        ensures
            match (walk, inspection) {
                (Ok(whole), Ok(next)) => next.root@ == self.root@ && candidate::entries(
                    next.candidates@,
                ) == tree::found_below(whole, Seq::empty()),
                (Err(error), Err(message)) => message@ == error@,
                _ => false,
            },
    {
        match walk {
            Ok(whole) => {
                let base: Vec<u8> = Vec::new();
                let mut candidates: Vec<Candidate> = Vec::new();
                tree::collect_below(&whole, &base, &mut candidates);
                assert(candidate::entries(candidates@) =~= tree::found_below(whole, Seq::empty()));
                Ok(ScanInspection { root: self.root, candidates })
            },
            Err(error) => Err(error),
        }
    }
}

/// Whether a candidate may be offered for removal in a scan of `root`.
pub open spec fn is_offered(inspection: Inspection, root: Seq<u8>) -> bool {
    inspection.location is Some && safety::is_safe(
        inspection.location->0.path@,
        inspection.location->0.is_dir,
        root,
    )
}

/// The positions below `count` whose candidates may be offered.
pub open spec fn offered_positions(
    inspections: Seq<Inspection>,
    root: Seq<u8>,
    count: int,
) -> Seq<int>
    decreases count,
{
    if count <= 0 {
        Seq::empty()
    } else if is_offered(inspections[count - 1], root) {
        offered_positions(inspections, root, count - 1).push(count - 1)
    } else {
        offered_positions(inspections, root, count - 1)
    }
}

/// The identities that inspections report.
pub open spec fn reported_identities(inspections: Seq<Inspection>) -> Seq<Option<FileIdentity>> {
    inspections.map_values(|inspection: Inspection| inspection.identity)
}

/// What a scan of `root` lists: the candidates that are safe to delete, each
/// directory once, in the order of the listing.
pub open spec fn scan_listing(
    all: Seq<candidate::Entry>,
    inspections: Seq<Inspection>,
    root: Seq<u8>,
) -> Seq<candidate::Entry> {
    let offered = offered_positions(inspections, root, inspections.len() as int);
    listing::listing(
        candidate::deduplicated(
            candidate::picked(all, offered),
            candidate::picked(reported_identities(inspections), offered),
        ),
    )
}

impl ScanInspection {
    /// Takes what the file system says of each candidate, and ends the scan.
    pub fn inspected(self, inspections: Vec<Inspection>, state: &ScanState) -> (result: ScanResult)
        requires
            inspections@.len() == self.candidates@.len(),
        ensures
            candidate::entries(result.candidates@) == scan_listing(
                candidate::entries(self.candidates@),
                inspections@,
                self.root@,
            ),
            result.files_scanned == state@.files,
            result.directories_scanned == state@.directories,
            result.bytes_scanned == state@.bytes,
    {
        let ghost all = candidate::entries(self.candidates@);
        let ghost identities = reported_identities(inspections@);
        let root: Option<Vec<u8>> = Some(path::copy_bytes(&self.root));
        let mut offered: Vec<(Candidate, Option<FileIdentity>)> = Vec::new();
        let ghost mut positions: Seq<int> = Seq::empty();
        assert(candidate::entries_of(offered@) =~= candidate::picked(all, positions));
        assert(candidate::identities_of(offered@) =~= candidate::picked(identities, positions));
        for i in 0..inspections.len()
            invariant
                inspections@.len() == self.candidates@.len(),
                all == candidate::entries(self.candidates@),
                identities == reported_identities(inspections@),
                root matches Some(bytes) && bytes@ == self.root@,
                positions == offered_positions(inspections@, self.root@, i as int),
                candidate::entries_of(offered@) == candidate::picked(all, positions),
                candidate::identities_of(offered@) == candidate::picked(identities, positions),
        {
            let ghost before = offered@;
            let ghost before_positions = positions;
            proof {
                positions = offered_positions(inspections@, self.root@, i + 1);
            }
            if safety::is_safe_candidate(&inspections[i].location, &root) {
                let candidate: Candidate = self.candidates[i].clone();
                let identity: Option<FileIdentity> = inspections[i].identity;
                offered.push((candidate, identity));
                assert(all[i as int] == candidate@);
                assert(identities[i as int] == identity);
                assert(candidate::entries_of(offered@) =~= candidate::entries_of(before).push(
                    candidate@,
                ));
                assert(candidate::identities_of(offered@) =~= candidate::identities_of(before).push(
                    identity,
                ));
                assert(candidate::picked(all, positions) =~= candidate::picked(
                    all,
                    before_positions,
                ).push(all[i as int]));
                assert(candidate::picked(identities, positions) =~= candidate::picked(
                    identities,
                    before_positions,
                ).push(identities[i as int]));
            }
        }
        let unique: Vec<Candidate> = candidate::deduplicate_candidates(offered);
        let snapshot: ProgressSnapshot = state.snapshot();
        ScanResult {
            candidates: listing::sort_candidates(&unique),
            files_scanned: snapshot.files_scanned,
            directories_scanned: snapshot.directories_scanned,
            bytes_scanned: snapshot.bytes_scanned,
        }
    }
}

proof fn lemma_offered_positions(inspections: Seq<Inspection>, root: Seq<u8>, count: int)
    requires
        0 <= count <= inspections.len(),
    ensures
        forall|k: int|
            0 <= k < offered_positions(inspections, root, count).len() ==> {
                let position = #[trigger] offered_positions(inspections, root, count)[k];
                0 <= position < count && is_offered(inspections[position], root)
            },
        forall|i: int, j: int|
            0 <= i < j < offered_positions(inspections, root, count).len()
                ==> #[trigger] offered_positions(inspections, root, count)[i]
                < #[trigger] offered_positions(inspections, root, count)[j],
    decreases count,
{
    if count > 0 {
        lemma_offered_positions(inspections, root, count - 1);
        let before = offered_positions(inspections, root, count - 1);
        let after = offered_positions(inspections, root, count);
        assert forall|k: int| 0 <= k < after.len() implies 0 <= #[trigger] after[k] < count
            && is_offered(inspections[after[k]], root) by {
            if k < before.len() {
                assert(after[k] == before[k]);
            }
        }
    }
}

/// A scan lists only candidates that were found and that are safe to delete
/// in a scan of its root, and it lists them from the largest to the smallest.
pub proof fn law_scan_lists_only_safe_candidates(
    all: Seq<candidate::Entry>,
    inspections: Seq<Inspection>,
    root: Seq<u8>,
)
    requires
        all.len() == inspections.len(),
    ensures
        forall|k: int|
            0 <= k < scan_listing(all, inspections, root).len() ==> exists|i: int|
                0 <= i < all.len() && #[trigger] all[i] == #[trigger] scan_listing(
                    all,
                    inspections,
                    root,
                )[k] && is_offered(inspections[i], root),
        forall|i: int, j: int|
            0 <= i < j < scan_listing(all, inspections, root).len() ==> (#[trigger] scan_listing(
                all,
                inspections,
                root,
            )[i]).size >= (#[trigger] scan_listing(all, inspections, root)[j]).size,
{
    let offered = offered_positions(inspections, root, inspections.len() as int);
    let entries = candidate::picked(all, offered);
    let identities = candidate::picked(reported_identities(inspections), offered);
    let firsts = candidate::first_positions(identities, identities.len() as int);
    let unique = candidate::picked(entries, firsts);
    let result = scan_listing(all, inspections, root);
    assert(result == listing::listing(unique));
    lemma_offered_positions(inspections, root, inspections.len() as int);
    candidate::law_deduplication(identities, firsts);
    listing::law_listing_is_sorted(unique);
    listing::law_listing_keeps_every_entry(unique);
    assert forall|k: int| 0 <= k < result.len() implies exists|i: int|
        0 <= i < all.len() && #[trigger] all[i] == #[trigger] result[k] && is_offered(
            inspections[i],
            root,
        ) by {
        broadcast use vstd::seq_lib::group_to_multiset_ensures;

        assert(result.contains(result[k]));
        assert(result.to_multiset().count(result[k]) > 0);
        assert(unique.contains(result[k]));
        let m = choose|m: int| 0 <= m < unique.len() && unique[m] == result[k];
        assert(firsts[m] < identities.len());
        if m + 1 < firsts.len() {
            assert(0 <= firsts[m] < firsts[m + 1]);
        } else {
            candidate::lemma_first_positions(identities, identities.len() as int);
        }
        let i = offered[firsts[m]];
        assert(all[i] == result[k]);
    }
}

/// Every offered position is among the offered ones.
proof fn lemma_offered_complete(
    inspections: Seq<Inspection>,
    root: Seq<u8>,
    count: int,
    position: int,
) -> (k: int)
    requires
        0 <= position < count <= inspections.len(),
        is_offered(inspections[position], root),
    ensures
        0 <= k < offered_positions(inspections, root, count).len(),
        offered_positions(inspections, root, count)[k] == position,
    decreases count,
{
    let before = offered_positions(inspections, root, count - 1);
    if position == count - 1 {
        before.len() as int
    } else {
        lemma_offered_complete(inspections, root, count - 1, position)
    }
}

/// No directory that is safe to delete is lost: a scan lists it, or lists one
/// with the same identity in its place. One without an identity is always
/// listed.
pub proof fn law_scan_lists_every_safe_candidate(
    all: Seq<candidate::Entry>,
    inspections: Seq<Inspection>,
    root: Seq<u8>,
    i: int,
)
    requires
        all.len() == inspections.len(),
        0 <= i < all.len(),
        is_offered(inspections[i], root),
    ensures
        scan_listing(all, inspections, root).contains(all[i]) || exists|j: int|
            0 <= j < all.len() && scan_listing(all, inspections, root).contains(#[trigger] all[j])
                && is_offered(inspections[j], root) && inspections[i].identity is Some
                && inspections[j].identity == inspections[i].identity,
        inspections[i].identity is None ==> scan_listing(all, inspections, root).contains(all[i]),
{
    let offered = offered_positions(inspections, root, inspections.len() as int);
    let entries = candidate::picked(all, offered);
    let identities = candidate::picked(reported_identities(inspections), offered);
    let firsts = candidate::first_positions(identities, identities.len() as int);
    let unique = candidate::picked(entries, firsts);
    let result = scan_listing(all, inspections, root);
    assert(result == listing::listing(unique));
    lemma_offered_positions(inspections, root, inspections.len() as int);
    candidate::law_deduplication(identities, firsts);
    candidate::lemma_first_positions(identities, identities.len() as int);
    listing::law_listing_keeps_every_entry(unique);
    let at = lemma_offered_complete(inspections, root, inspections.len() as int, i);
    assert(identities[at] == inspections[i].identity);
    let m = if firsts.contains(at) {
        choose|m: int| 0 <= m < firsts.len() && firsts[m] == at
    } else {
        choose|m: int|
            0 <= m < firsts.len() && #[trigger] firsts[m] < at && identities[firsts[m]]
                == identities[at]
    };
    assert(0 <= firsts[m] < identities.len());
    let j = offered[firsts[m]];
    assert(identities[firsts[m]] == inspections[j].identity);
    assert(unique[m] == all[j]);
    assert(result.contains(all[j])) by {
        broadcast use vstd::seq_lib::group_to_multiset_ensures;

        assert(unique.contains(all[j]));
        assert(unique.to_multiset().count(all[j]) > 0);
    }
}

/// Nested candidates fold into their outermost parent: no directory that a
/// scan lists lies inside another one that it lists.
pub proof fn law_scan_folds_nested_candidates(
    whole: DirTree,
    inspections: Seq<Inspection>,
    root: Seq<u8>,
    i: int,
    j: int,
)
    requires
        tree::has_plain_names(whole),
        inspections.len() == tree::found_below(whole, Seq::empty()).len(),
        0 <= i < scan_listing(tree::found_below(whole, Seq::empty()), inspections, root).len(),
        0 <= j < scan_listing(tree::found_below(whole, Seq::empty()), inspections, root).len(),
        path::is_beneath(
            scan_listing(tree::found_below(whole, Seq::empty()), inspections, root)[j].path,
            scan_listing(tree::found_below(whole, Seq::empty()), inspections, root)[i].path,
        ),
    ensures
        path::parts(scan_listing(tree::found_below(whole, Seq::empty()), inspections, root)[j].path)
            == path::parts(
            scan_listing(tree::found_below(whole, Seq::empty()), inspections, root)[i].path,
        ),
{
    let all = tree::found_below(whole, Seq::empty());
    let result = scan_listing(all, inspections, root);
    law_scan_lists_only_safe_candidates(all, inspections, root);
    let outer = choose|k: int|
        0 <= k < all.len() && #[trigger] all[k] == result[i] && is_offered(inspections[k], root);
    let inner = choose|k: int|
        0 <= k < all.len() && #[trigger] all[k] == result[j] && is_offered(inspections[k], root);
    tree::law_no_inner_candidate_inside_another(whole, Seq::empty(), outer, inner);
}

proof fn lemma_offered_total(
    all: Seq<candidate::Entry>,
    inspections: Seq<Inspection>,
    root: Seq<u8>,
    count: int,
)
    requires
        0 <= count <= all.len(),
    ensures
        candidate::total_bytes(
            candidate::picked(all, offered_positions(inspections, root, count)),
        ) <= candidate::total_bytes(all.take(count)),
    decreases count,
{
    if count > 0 {
        let before = offered_positions(inspections, root, count - 1);
        lemma_offered_total(all, inspections, root, count - 1);
        assert(all.take(count).drop_last() =~= all.take(count - 1));
        assert(candidate::picked(all, before.push(count - 1)).drop_last() =~= candidate::picked(
            all,
            before,
        ));
    }
}

/// No byte is counted twice: what a scan lists takes no more than the whole
/// tree that was walked.
pub proof fn law_scan_counts_nothing_twice(
    whole: DirTree,
    inspections: Seq<Inspection>,
    root: Seq<u8>,
)
    requires
        tree::has_sound_sizes(whole),
        inspections.len() == tree::found_below(whole, Seq::empty()).len(),
    ensures
        candidate::total_bytes(
            scan_listing(tree::found_below(whole, Seq::empty()), inspections, root),
        ) <= whole.size_bytes,
{
    let all = tree::found_below(whole, Seq::empty());
    let offered = offered_positions(inspections, root, inspections.len() as int);
    let entries = candidate::picked(all, offered);
    let identities = candidate::picked(reported_identities(inspections), offered);
    tree::law_nothing_inside_is_counted_twice(whole, Seq::empty());
    lemma_offered_total(all, inspections, root, all.len() as int);
    assert(all.take(all.len() as int) =~= all);
    candidate::law_deduplication_adds_no_bytes(entries, identities);
    listing::law_listing_keeps_the_total(candidate::deduplicated(entries, identities));
}

/// A scan lists each entry before all that follow it, and each path once.
pub proof fn law_scan_listing_is_strict(
    all: Seq<candidate::Entry>,
    inspections: Seq<Inspection>,
    root: Seq<u8>,
)
    requires
        all.len() == inspections.len(),
        candidate::has_distinct_paths(all),
    ensures
        listing::is_strictly_listed(scan_listing(all, inspections, root)),
        candidate::has_distinct_paths(scan_listing(all, inspections, root)),
{
    let offered = offered_positions(inspections, root, inspections.len() as int);
    let entries = candidate::picked(all, offered);
    let identities = candidate::picked(reported_identities(inspections), offered);
    let firsts = candidate::first_positions(identities, identities.len() as int);
    let unique = candidate::picked(entries, firsts);
    lemma_offered_positions(inspections, root, inspections.len() as int);
    candidate::lemma_first_positions(identities, identities.len() as int);
    assert forall|i: int, j: int| 0 <= i < j < unique.len() implies path::parts(
        (#[trigger] unique[i]).path,
    ) != path::parts((#[trigger] unique[j]).path) by {
        assert(firsts[i] < firsts[j]);
        assert(offered[firsts[i]] < offered[firsts[j]]);
        assert(unique[i] == all[offered[firsts[i]]]);
        assert(unique[j] == all[offered[firsts[j]]]);
    }
    listing::law_listing_is_strict(unique);
}

/// Whether no two inspections report the same identity.
pub open spec fn has_distinct_identities(inspections: Seq<Inspection>) -> bool {
    forall|i: int, j: int|
        0 <= i < j < inspections.len() && inspections[i].identity is Some ==> (
        #[trigger] inspections[i]).identity != (#[trigger] inspections[j]).identity
}

/// Whether `order` holds each of the positions below `count` once.
pub open spec fn is_rearrangement(order: Seq<int>, count: nat) -> bool {
    &&& order.len() == count
    &&& order.no_duplicates()
    &&& forall|k: int| 0 <= k < order.len() ==> 0 <= #[trigger] order[k] < count
    &&& forall|i: int| 0 <= i < count ==> #[trigger] order.contains(i)
}

/// What a scan lists are the safe candidates, where identities differ.
proof fn lemma_listed_are_offered(
    all: Seq<candidate::Entry>,
    inspections: Seq<Inspection>,
    root: Seq<u8>,
    entry: candidate::Entry,
)
    requires
        all.len() == inspections.len(),
        has_distinct_identities(inspections),
    ensures
        scan_listing(all, inspections, root).contains(entry) <==> exists|i: int|
            0 <= i < all.len() && #[trigger] all[i] == entry && is_offered(inspections[i], root),
{
    let result = scan_listing(all, inspections, root);
    if result.contains(entry) {
        law_scan_lists_only_safe_candidates(all, inspections, root);
        let k = choose|k: int| 0 <= k < result.len() && result[k] == entry;
        let i = choose|i: int|
            0 <= i < all.len() && #[trigger] all[i] == result[k] && is_offered(
                inspections[i],
                root,
            );
        assert(all[i] == entry);
    }
    if exists|i: int|
        0 <= i < all.len() && #[trigger] all[i] == entry && is_offered(inspections[i], root) {
        let i = choose|i: int|
            0 <= i < all.len() && #[trigger] all[i] == entry && is_offered(inspections[i], root);
        law_scan_lists_every_safe_candidate(all, inspections, root, i);
        if !result.contains(all[i]) {
            let j = choose|j: int|
                0 <= j < all.len() && result.contains(#[trigger] all[j]) && is_offered(
                    inspections[j],
                    root,
                ) && inspections[i].identity is Some && inspections[j].identity
                    == inspections[i].identity;
            assert(i != j);
            assert(inspections[i].identity != inspections[j].identity);
        }
    }
}

/// What a scan lists does not depend on the order in which the walk came to
/// the candidates, and so neither on the number of threads that walked: where
/// paths and identities differ, candidates that are rearranged together with
/// what the file system says of them give the same listing.
pub proof fn law_listing_does_not_depend_on_the_order(
    all: Seq<candidate::Entry>,
    inspections: Seq<Inspection>,
    root: Seq<u8>,
    order: Seq<int>,
)
    requires
        all.len() == inspections.len(),
        candidate::has_distinct_paths(all),
        has_distinct_identities(inspections),
        is_rearrangement(order, all.len()),
    ensures
        scan_listing(
            candidate::picked(all, order),
            candidate::picked(inspections, order),
            root,
        ) == scan_listing(all, inspections, root),
{
    let entries = candidate::picked(all, order);
    let reports = candidate::picked(inspections, order);
    assert forall|i: int, j: int| 0 <= i < j < entries.len() implies path::parts(
        (#[trigger] entries[i]).path,
    ) != path::parts((#[trigger] entries[j]).path) by {
        assert(order[i] != order[j]);
        if order[i] < order[j] {
            assert(path::parts(all[order[i]].path) != path::parts(all[order[j]].path));
        } else {
            assert(path::parts(all[order[j]].path) != path::parts(all[order[i]].path));
        }
    }
    assert forall|i: int, j: int|
        0 <= i < j < reports.len() && reports[i].identity is Some implies (
    #[trigger] reports[i]).identity != (#[trigger] reports[j]).identity by {
        assert(order[i] != order[j]);
        if order[i] < order[j] {
            assert(inspections[order[i]].identity != inspections[order[j]].identity);
        } else if reports[j].identity is Some {
            assert(inspections[order[j]].identity != inspections[order[i]].identity);
        }
    }
    law_scan_listing_is_strict(all, inspections, root);
    law_scan_listing_is_strict(entries, reports, root);
    let left = scan_listing(entries, reports, root);
    let right = scan_listing(all, inspections, root);
    assert forall|entry: candidate::Entry| left.contains(entry) <==> right.contains(entry) by {
        lemma_listed_are_offered(all, inspections, root, entry);
        lemma_listed_are_offered(entries, reports, root, entry);
        if left.contains(entry) {
            let k = choose|k: int|
                0 <= k < entries.len() && #[trigger] entries[k] == entry && is_offered(
                    reports[k],
                    root,
                );
            assert(all[order[k]] == entry);
        }
        if right.contains(entry) {
            let i = choose|i: int|
                0 <= i < all.len() && #[trigger] all[i] == entry && is_offered(
                    inspections[i],
                    root,
                );
            assert(order.contains(i));
            let k = choose|k: int| 0 <= k < order.len() && order[k] == i;
            assert(entries[k] == entry);
        }
    }
    listing::law_strict_order_determines_the_listing(left, right);
}

// --------------------------------------------------------------- many roots

/// What a scan in the background reports.
pub enum ScanEvent {
    Progress(ProgressSnapshot),
    /// What was found, and the resolved roots that it was found in.
    Finished { candidates: Vec<Candidate>, roots: Vec<Vec<u8>> },
    Failed(String),
}

/// A report as the contracts speak of it.
pub enum ScanReport {
    Progress(Counters),
    Finished { all: Seq<candidate::Entry>, roots: Seq<Seq<u8>> },
    Failed(Seq<char>),
}

impl View for ScanEvent {
    type V = ScanReport;

    open spec fn view(&self) -> ScanReport {
        match self {
            ScanEvent::Progress(snapshot) => ScanReport::Progress(snapshot@),
            ScanEvent::Finished { candidates, roots } => ScanReport::Finished {
                all: candidate::entries(candidates@),
                roots: path::all_bytes(roots@),
            },
            ScanEvent::Failed(message) => ScanReport::Failed(message@),
        }
    }
}

/// The candidates of several roots as they are shown together.
pub open spec fn combined(all: Seq<candidate::Entry>) -> Seq<candidate::Entry> {
    listing::without_repeats(listing::listing(all))
}

/// Puts the candidates of several roots together: in the order of the listing,
/// and without repetitions of a path.
pub fn combine(candidates: &Vec<Candidate>) -> (listed: Vec<Candidate>)
    ensures
        candidate::entries(listed@) == combined(candidate::entries(candidates@)),
{
    listing::drop_repeats(listing::sort_candidates(candidates))
}

/// What several roots show together comes from one of them, and runs from the
/// largest to the smallest.
pub proof fn law_combining_adds_nothing(all: Seq<candidate::Entry>, i: int, j: int)
    requires
        0 <= i <= j < combined(all).len(),
    ensures
        all.contains(combined(all)[i]),
        all.contains(combined(all)[j]),
        combined(all)[i].size >= combined(all)[j].size,
{
    broadcast use vstd::seq_lib::group_to_multiset_ensures;

    let sorted = listing::listing(all);
    listing::law_listing_keeps_every_entry(all);
    listing::law_listing_is_sorted(all);
    listing::law_what_is_left_was_there(sorted, i);
    listing::law_what_is_left_was_there(sorted, j);
    if i < j {
        listing::law_what_is_left_is_in_order(sorted, i, j);
    }
    assert(sorted.to_multiset().count(combined(all)[i]) > 0);
    assert(sorted.to_multiset().count(combined(all)[j]) > 0);
}

/// What several roots show together is in strict order. Each path is there
/// once, as long as the roots agree on its size.
pub proof fn law_combining_is_strict(all: Seq<candidate::Entry>)
    ensures
        listing::is_strictly_listed(combined(all)),
        (forall|a: int, b: int|
            0 <= a < all.len() && 0 <= b < all.len() && path::parts((#[trigger] all[a]).path)
                == path::parts((#[trigger] all[b]).path) ==> all[a].size == all[b].size)
            ==> candidate::has_distinct_paths(combined(all)),
{
    let sorted = listing::listing(all);
    let result = combined(all);
    listing::law_listing_is_sorted(all);
    listing::law_what_is_left_is_strict(sorted);
    if forall|a: int, b: int|
        0 <= a < all.len() && 0 <= b < all.len() && path::parts((#[trigger] all[a]).path)
            == path::parts((#[trigger] all[b]).path) ==> all[a].size == all[b].size {
        assert forall|i: int, j: int| 0 <= i < j < result.len() implies path::parts(
            (#[trigger] result[i]).path,
        ) != path::parts((#[trigger] result[j]).path) by {
            law_combining_adds_nothing(all, i, j);
            let a = choose|a: int| 0 <= a < all.len() && all[a] == result[i];
            let b = choose|b: int| 0 <= b < all.len() && all[b] == result[j];
            assert(listing::listed_before(result[i], result[j]));
            path::law_path_order_is_total(path::parts(all[a].path), path::parts(all[a].path));
        }
    }
}

/// Every path that one of several roots shows is shown by them together.
pub proof fn law_combining_keeps_every_path(all: Seq<candidate::Entry>, i: int)
    requires
        0 <= i < all.len(),
    ensures
        exists|k: int|
            0 <= k < combined(all).len() && path::parts((#[trigger] combined(all)[k]).path)
                == path::parts(all[i].path),
{
    broadcast use vstd::seq_lib::group_to_multiset_ensures;

    let sorted = listing::listing(all);
    listing::law_listing_keeps_every_entry(all);
    assert(all.contains(all[i]));
    assert(all.to_multiset().count(all[i]) > 0);
    assert(sorted.contains(all[i]));
    let m = choose|m: int| 0 <= m < sorted.len() && sorted[m] == all[i];
    listing::law_every_path_is_left(sorted, m);
    let k = choose|k: int|
        0 <= k < listing::without_repeats(sorted).len() && path::parts(
            (#[trigger] listing::without_repeats(sorted)[k]).path,
        ) == path::parts(sorted[m].path);
    assert(combined(all)[k] == listing::without_repeats(sorted)[k]);
}

/// What the scan of one root found.
pub struct ScannedRoot {
    /// Where the root leads.
    pub root: Vec<u8>,
    pub candidates: Vec<Candidate>,
}

/// A scan of several roots, between two of them.
pub struct ScanRun {
    roots: Vec<Vec<u8>>,
    scanned: usize,
    resolved: Vec<Vec<u8>>,
    collected: Vec<Candidate>,
    failure: Option<String>,
}

impl ScanRun {
    /// The paths of the roots.
    pub closed spec fn roots(&self) -> Seq<Seq<u8>> {
        path::all_bytes(self.roots@)
    }

    /// The number of roots that were scanned.
    pub closed spec fn scanned(&self) -> nat {
        self.scanned as nat
    }

    /// The candidates of the scanned roots, one root after the other.
    pub closed spec fn collected(&self) -> Seq<candidate::Entry> {
        candidate::entries(self.collected@)
    }

    /// Where the scanned roots lead.
    pub closed spec fn resolved(&self) -> Seq<Seq<u8>> {
        path::all_bytes(self.resolved@)
    }

    /// The message of the scan that failed, if one did.
    pub closed spec fn failure(&self) -> Option<Seq<char>> {
        match self.failure {
            Some(message) => Some(message@),
            None => None,
        }
    }

    /// What holds between roots.
    pub open spec fn wf(&self) -> bool {
        self.resolved().len() == self.scanned() <= self.roots().len()
    }

    /// Starts at the first of `roots`.
    pub fn new(roots: Vec<Vec<u8>>) -> (run: ScanRun)
        ensures
            run.wf(),
            run.roots() == path::all_bytes(roots@),
            run.scanned() == 0,
            run.collected() == Seq::<candidate::Entry>::empty(),
            run.resolved() == Seq::<Seq<u8>>::empty(),
            run.failure() is None,
    {
        let run: ScanRun = ScanRun {
            roots,
            scanned: 0,
            resolved: Vec::new(),
            collected: Vec::new(),
            failure: None,
        };
        assert(run.resolved() =~= Seq::empty());
        assert(run.collected() =~= Seq::empty());
        run
    }

    /// The next root to scan. There is none after a failure or once the run is
    /// cancelled.
    pub fn next_root(&self, cancelled: bool) -> (root: Option<&Vec<u8>>)
        requires
            self.wf(),
        ensures
            root is Some <==> !cancelled && self.failure() is None && self.scanned()
                < self.roots().len(),
            root matches Some(next) ==> next@ == self.roots()[self.scanned() as int],
    {
        if cancelled || self.failure.is_some() || self.scanned >= self.roots.len() {
            None
        } else {
            Some(&self.roots[self.scanned])
        }
    }

    /// Takes the outcome of scanning the next root. A failure ends the run.
    pub fn absorb(&mut self, outcome: Result<ScannedRoot, String>)
        requires
            old(self).wf(),
            old(self).failure() is None,
            old(self).scanned() < old(self).roots().len(),
        ensures
            final(self).wf(),
            final(self).roots() == old(self).roots(),
            match outcome {
                Ok(found) => {
                    &&& final(self).scanned() == old(self).scanned() + 1
                    &&& final(self).collected() == old(self).collected() + candidate::entries(
                        found.candidates@,
                    )
                    &&& final(self).resolved() == old(self).resolved().push(found.root@)
                    &&& final(self).failure() is None
                },
                Err(message) => {
                    &&& final(self).scanned() == old(self).scanned()
                    &&& final(self).collected() == old(self).collected()
                    &&& final(self).resolved() == old(self).resolved()
                    &&& final(self).failure() == Some(message@)
                },
            },
    {
        match outcome {
            Ok(found) => {
                let ghost place = found.root@;
                let ghost added = found.candidates@;
                let ScannedRoot { root, candidates: mut more } = found;
                let ghost before = self.collected@;
                self.collected.append(&mut more);
                self.resolved.push(root);
                assert(self.resolved() =~= old(self).resolved().push(place));
                assert(self.roots.len() <= usize::MAX);
                self.scanned = self.scanned + 1;
                assert(candidate::entries(self.collected@) =~= candidate::entries(before)
                    + candidate::entries(added));
            },
            Err(message) => {
                self.failure = Some(message);
            },
        }
    }

    /// Reports how the run ended.
    pub fn finish(self) -> (event: ScanEvent)
        ensures
            event@ == match self.failure() {
                Some(message) => ScanReport::Failed(message),
                None => ScanReport::Finished {
                    all: combined(self.collected()),
                    roots: self.resolved(),
                },
            },
    {
        match self.failure {
            Some(message) => ScanEvent::Failed(message),
            None => ScanEvent::Finished {
                candidates: combine(&self.collected),
                roots: self.resolved,
            },
        }
    }
}

// ---------------------------------------------------------------- more laws

/// One to eight threads are supported, and no other number.
pub proof fn law_one_to_eight_threads(threads: int)
    ensures
        is_thread_count(threads) <==> threads == 1 || threads == 2 || threads == 3 || threads == 4
            || threads == 5 || threads == 6 || threads == 7 || threads == 8,
{
}

/// A path adds its length to the bytes. A directory is one more directory, a
/// file that is none is one more file, and anything else is neither. The
/// counters show the path that came last, and start over beyond 64 bits.
pub proof fn law_one_path_is_counted(counters: Counters, path: Seq<u8>, facts: FileFacts)
    requires
        counters.files <= u64::MAX,
        counters.directories <= u64::MAX,
        counters.bytes <= u64::MAX,
    ensures
        recorded(counters, path, facts).current_path == path::lossy_text(path),
        counters.bytes + facts.length <= u64::MAX ==> recorded(counters, path, facts).bytes
            == counters.bytes + facts.length,
        counters.bytes + facts.length > u64::MAX ==> recorded(counters, path, facts).bytes
            == counters.bytes + facts.length - u64::MAX - 1,
        facts.is_dir && counters.directories < u64::MAX ==> recorded(
            counters,
            path,
            facts,
        ).directories == counters.directories + 1,
        facts.is_dir && counters.directories == u64::MAX ==> recorded(
            counters,
            path,
            facts,
        ).directories == 0,
        !facts.is_dir ==> recorded(counters, path, facts).directories == counters.directories,
        !facts.is_dir && facts.is_file && counters.files < u64::MAX ==> recorded(
            counters,
            path,
            facts,
        ).files == counters.files + 1,
        !facts.is_dir && facts.is_file && counters.files == u64::MAX ==> recorded(
            counters,
            path,
            facts,
        ).files == 0,
        facts.is_dir || !facts.is_file ==> recorded(counters, path, facts).files == counters.files,
{
}

/// A candidate is offered just when its path leads somewhere that is safe to
/// delete in a scan of the root.
pub proof fn law_what_is_safe_is_offered(inspection: Inspection, root: Seq<u8>)
    ensures
        inspection.location is None ==> !is_offered(inspection, root),
        inspection.location is Some ==> is_offered(inspection, root) == safety::is_safe(
            inspection.location->0.path@,
            inspection.location->0.is_dir,
            root,
        ),
{
}

/// Of the candidates with one identity a scan lists the first safe one, and of
/// those without an identity every safe one; it lists them as they were found,
/// each once.
pub proof fn law_scan_lists_the_first_of_each_identity(
    all: Seq<candidate::Entry>,
    inspections: Seq<Inspection>,
    root: Seq<u8>,
    i: int,
)
    requires
        all.len() == inspections.len(),
        candidate::has_distinct_paths(all),
        0 <= i < all.len(),
    ensures
        scan_listing(all, inspections, root).contains(all[i]) <==> is_offered(inspections[i], root)
            && (inspections[i].identity is None || forall|j: int|
            0 <= j < i && is_offered(#[trigger] inspections[j], root) ==> inspections[j].identity
                != inspections[i].identity),
        scan_listing(all, inspections, root).no_duplicates(),
{
    broadcast use vstd::seq_lib::group_to_multiset_ensures;

    let count = inspections.len() as int;
    let offered = offered_positions(inspections, root, count);
    let entries = candidate::picked(all, offered);
    let identities = candidate::picked(reported_identities(inspections), offered);
    let firsts = candidate::first_positions(identities, identities.len() as int);
    let unique = candidate::picked(entries, firsts);
    let result = scan_listing(all, inspections, root);
    assert(result == listing::listing(unique));
    lemma_offered_positions(inspections, root, count);
    candidate::lemma_first_positions(identities, identities.len() as int);
    listing::law_listing_keeps_every_entry(unique);
    law_scan_listing_is_strict(all, inspections, root);
    assert(result.contains(all[i]) <==> unique.contains(all[i])) by {
        assert(result.to_multiset().count(all[i]) == unique.to_multiset().count(all[i]));
    }
    if unique.contains(all[i]) {
        let m = choose|m: int| 0 <= m < unique.len() && unique[m] == all[i];
        let at = firsts[m];
        assert(candidate::is_first_of_identity(identities, at));
        assert(unique[m] == all[offered[at]]);
        assert(offered[at] == i) by {
            if offered[at] < i {
                assert(path::parts(all[offered[at]].path) != path::parts(all[i].path));
            } else if i < offered[at] {
                assert(path::parts(all[i].path) != path::parts(all[offered[at]].path));
            }
        }
        assert(identities[at] == inspections[i].identity);
        assert forall|j: int|
            0 <= j < i && is_offered(#[trigger] inspections[j], root) && inspections[i].identity
                is Some implies inspections[j].identity != inspections[i].identity by {
            let k = lemma_offered_complete(inspections, root, count, j);
            if k >= at {
                assert(offered[at] <= offered[k]);
            }
            assert(identities[k] == inspections[j].identity);
        }
    }
    if is_offered(inspections[i], root) && (inspections[i].identity is None || forall|j: int|
        0 <= j < i && is_offered(#[trigger] inspections[j], root) ==> inspections[j].identity
            != inspections[i].identity) {
        let at = lemma_offered_complete(inspections, root, count, i);
        assert(identities[at] == inspections[i].identity);
        assert(candidate::is_first_of_identity(identities, at)) by {
            assert forall|k: int| 0 <= k < at && identities[at] is Some implies #[trigger] identities[k]
                != identities[at] by {
                let j = offered[k];
                assert(offered[k] < offered[at]);
                assert(is_offered(inspections[j], root));
                assert(identities[k] == inspections[j].identity);
            }
        }
        assert(firsts.contains(at));
        let m = choose|m: int| 0 <= m < firsts.len() && firsts[m] == at;
        assert(unique[m] == all[i]);
    }
    assert forall|a: int, b: int| 0 <= a < result.len() && 0 <= b < result.len() && a != b implies result[a]
        != result[b] by {
        if a < b {
            assert(path::parts(result[a].path) != path::parts(result[b].path));
        } else {
            assert(path::parts(result[b].path) != path::parts(result[a].path));
        }
    }
}

/// What several roots show together is the listing of it all, without the
/// entries that name the same path as the one right before them there.
pub proof fn law_combining_drops_neighbours(all: Seq<candidate::Entry>)
    ensures
        exists|at: Seq<int>| #[trigger]
            candidate::is_selection(listing::listing(all), combined(all), at) && forall|i: int|
                0 <= i < all.len() ==> (#[trigger] at.contains(i) <==> i == 0 || path::parts(
                    listing::listing(all)[i].path,
                ) != path::parts(listing::listing(all)[i - 1].path)),
{
    let listed = listing::listing(all);
    listing::law_listing_is_sorted(all);
    listing::law_dropping_repeats_selects(listed);
    let at = choose|at: Seq<int>| #[trigger]
        candidate::is_selection(listed, listing::without_repeats(listed), at) && forall|i: int|
            0 <= i < listed.len() ==> (#[trigger] at.contains(i) <==> i == 0 || path::parts(
                listed[i].path,
            ) != path::parts(listed[i - 1].path));
    assert(candidate::is_selection(listing::listing(all), combined(all), at));
}

/// Paths are counted one after the other: those of two walks count as one
/// after the other does.
pub proof fn law_paths_are_counted_in_order(
    counters: Counters,
    first: Seq<(Seq<u8>, FileFacts)>,
    then: Seq<(Seq<u8>, FileFacts)>,
    path: Seq<u8>,
    facts: FileFacts,
)
    ensures
        all_recorded(counters, Seq::empty()) == counters,
        all_recorded(counters, seq![(path, facts)]) == recorded(counters, path, facts),
        all_recorded(counters, first + then) == all_recorded(all_recorded(counters, first), then),
    decreases then.len(),
{
    let one = seq![(path, facts)];
    assert(one.drop_last() =~= Seq::<(Seq<u8>, FileFacts)>::empty());
    assert(all_recorded(counters, one.drop_last()) == counters);
    if then.len() == 0 {
        assert(first + then =~= first);
    } else {
        law_paths_are_counted_in_order(counters, first, then.drop_last(), path, facts);
        assert((first + then).drop_last() =~= first + then.drop_last());
    }
}

/// Reports, counters and identities are seen as they are, and a wrong number
/// of threads is answered with the bounds.
pub proof fn law_reports_are_seen_as_they_are(
    snapshot: ProgressSnapshot,
    candidates: Vec<Candidate>,
    roots: Vec<Vec<u8>>,
    message: String,
    inspections: Seq<Inspection>,
    i: int,
)
    ensures
        snapshot@.current_path == snapshot.current_path@,
        snapshot@.files == snapshot.files_scanned,
        snapshot@.directories == snapshot.directories_scanned,
        snapshot@.bytes == snapshot.bytes_scanned,
        ScanEvent::Progress(snapshot)@ == ScanReport::Progress(snapshot@),
        (ScanEvent::Finished { candidates, roots })@ == (ScanReport::Finished {
            all: candidate::entries(candidates@),
            roots: path::all_bytes(roots@),
        }),
        ScanEvent::Failed(message)@ == ScanReport::Failed(message@),
        reported_identities(inspections).len() == inspections.len(),
        0 <= i < inspections.len() ==> reported_identities(inspections)[i]
            == inspections[i].identity,
        thread_count_message() == "threads must be between "@ + text::decimal(1) + " and "@
            + text::decimal(8),
{
}

} // verus!
