//! Reclaimable directories: what they are and which of them count once.

use vstd::prelude::*;
use vstd::std_specs::cmp::PartialEqSpecImpl;
use vstd::string::*;

use crate::path;

verus! {

/// A directory shape that `dsopt` knows how to reclaim.
#[derive(Clone, Copy, Debug, PartialEq, Eq, Structural)]
pub enum CandidateKind {
    NodeModules,
    RustTarget,
}

/// The label of a kind in tables.
pub open spec fn kind_label(kind: CandidateKind) -> Seq<char> {
    match kind {
        CandidateKind::NodeModules => "JavaScript dependencies"@,
        CandidateKind::RustTarget => "Rust build output"@,
    }
}

impl CandidateKind {
    /// The label shown in tables.
    pub fn label(self) -> (label: &'static str)
        ensures
            label@ == kind_label(self),
    {
        match self {
            CandidateKind::NodeModules => "JavaScript dependencies",
            CandidateKind::RustTarget => "Rust build output",
        }
    }
}

/// A reclaimable directory together with the size of its whole subtree.
#[derive(Debug, Eq)]
pub struct Candidate {
    pub kind: CandidateKind,
    /// The bytes of the directory's path.
    pub path: Vec<u8>,
    pub size_bytes: u64,
}

/// A candidate as the contracts speak of it.
pub struct Entry {
    pub kind: CandidateKind,
    pub path: Seq<u8>,
    pub size: nat,
}

impl View for Candidate {
    type V = Entry;

    open spec fn view(&self) -> Entry {
        Entry { kind: self.kind, path: self.path@, size: self.size_bytes as nat }
    }
}

/// Candidates are equal when they have the same kind, path and size; two
/// spellings of one path are the same.
impl PartialEq for Candidate {
    fn eq(&self, other: &Self) -> (equal: bool) {
        self.kind == other.kind && path::same_path(&self.path, &other.path) && self.size_bytes
            == other.size_bytes
    }
}

impl PartialEqSpecImpl for Candidate {
    open spec fn obeys_eq_spec() -> bool {
        true
    }

    open spec fn eq_spec(&self, other: &Self) -> bool {
        self.kind == other.kind && path::parts(self.path@) == path::parts(other.path@)
            && self.size_bytes == other.size_bytes
    }
}

impl Clone for Candidate {
    fn clone(&self) -> (copy: Self)
        ensures
            copy@ == self@,
    {
        Candidate {
            kind: self.kind,
            path: path::copy_bytes(&self.path),
            size_bytes: self.size_bytes,
        }
    }
}

/// Candidates as the contracts speak of them.
pub open spec fn entries(candidates: Seq<Candidate>) -> Seq<Entry> {
    candidates.map_values(|candidate: Candidate| candidate@)
}

/// The bytes that entries take together.
pub open spec fn total_bytes(all: Seq<Entry>) -> nat
    decreases all.len(),
{
    if all.len() == 0 {
        0
    } else {
        total_bytes(all.drop_last()) + all.last().size
    }
}

/// A part of the entries takes no more than all of them.
pub proof fn lemma_total_of_prefix(all: Seq<Entry>, count: int)
    requires
        0 <= count <= all.len(),
    ensures
        total_bytes(all.take(count)) <= total_bytes(all),
    decreases all.len(),
{
    if count == all.len() {
        assert(all.take(count) =~= all);
    } else {
        assert(all.drop_last().take(count) =~= all.take(count));
        lemma_total_of_prefix(all.drop_last(), count);
    }
}

/// Adds up the sizes of candidates; `None` where the sum does not fit.
pub fn total_size(candidates: &Vec<Candidate>) -> (total: Option<u64>)
    ensures
        match total {
            Some(sum) => sum == total_bytes(entries(candidates@)),
            None => total_bytes(entries(candidates@)) > u64::MAX,
        },
{
    let ghost all = entries(candidates@);
    let mut total: u64 = 0;
    for i in 0..candidates.len()
        invariant
            all == entries(candidates@),
            total == total_bytes(all.take(i as int)),
    {
        assert(all.take(i + 1).drop_last() =~= all.take(i as int));
        match total.checked_add(candidates[i].size_bytes) {
            Some(sum) => {
                total = sum;
            },
            None => {
                proof {
                    lemma_total_of_prefix(all, i + 1);
                }
                return None;
            },
        }
    }
    assert(all.take(all.len() as int) =~= all);
    Some(total)
}

/// The elements of `all` at `positions`, in that order.
pub open spec fn picked<T>(all: Seq<T>, positions: Seq<int>) -> Seq<T> {
    Seq::new(positions.len(), |k: int| all[positions[k]])
}

/// Whether no two entries have the same path.
pub open spec fn has_distinct_paths(all: Seq<Entry>) -> bool {
    forall|i: int, j: int|
        0 <= i < j < all.len() ==> path::parts((#[trigger] all[i]).path) != path::parts(
            (#[trigger] all[j]).path,
        )
}

/// Identity of a directory on its file system, used to collapse volume aliases.
#[derive(Clone, Copy, Debug, Hash, PartialEq, Eq, Structural)]
pub struct FileIdentity {
    pub device: u64,
    pub inode: u64,
}

/// The kind of directory that a path ends in.
pub open spec fn kind_of(path: Seq<u8>) -> Option<CandidateKind> {
    if path::last_name(path) == Some("node_modules".spec_bytes()) {
        Some(CandidateKind::NodeModules)
    } else if path::last_name(path) == Some("target".spec_bytes()) {
        Some(CandidateKind::RustTarget)
    } else {
        None
    }
}

/// Tells which kind of directory a path names, by its last component.
pub fn candidate_kind(path: &[u8]) -> (kind: Option<CandidateKind>)
    ensures
        kind == kind_of(path@),
{
    match path::file_name(path) {
        Some(name) => {
            if path::bytes_equal(&name, "node_modules".as_bytes()) {
                Some(CandidateKind::NodeModules)
            } else if path::bytes_equal(&name, "target".as_bytes()) {
                Some(CandidateKind::RustTarget)
            } else {
                None
            }
        },
        None => None,
    }
}

// ------------------------------------------------------------ deduplication

/// Whether no entry before `index` has the same identity. An entry without
/// one is never a repetition.
pub open spec fn is_first_of_identity(
    identities: Seq<Option<FileIdentity>>,
    index: int,
) -> bool {
    identities[index] is Some ==> forall|earlier: int|
        0 <= earlier < index ==> #[trigger] identities[earlier] != identities[index]
}

/// The positions below `count` that hold the first entry of their identity.
pub open spec fn first_positions(identities: Seq<Option<FileIdentity>>, count: int) -> Seq<int>
    decreases count,
{
    if count <= 0 {
        Seq::empty()
    } else if is_first_of_identity(identities, count - 1) {
        first_positions(identities, count - 1).push(count - 1)
    } else {
        first_positions(identities, count - 1)
    }
}

/// The identities of a list of identified candidates.
pub open spec fn identities_of(items: Seq<(Candidate, Option<FileIdentity>)>) -> Seq<
    Option<FileIdentity>,
> {
    items.map_values(|item: (Candidate, Option<FileIdentity>)| item.1)
}

/// The entries of a list of identified candidates.
pub open spec fn entries_of(items: Seq<(Candidate, Option<FileIdentity>)>) -> Seq<Entry> {
    items.map_values(|item: (Candidate, Option<FileIdentity>)| item.0@)
}

/// The entries that remain when each identity is kept once.
pub open spec fn deduplicated(all: Seq<Entry>, identities: Seq<Option<FileIdentity>>) -> Seq<
    Entry,
> {
    picked(all, first_positions(identities, identities.len() as int))
}

/// An order of identities, to find them by.
spec fn identity_before(left: FileIdentity, right: FileIdentity) -> bool {
    left.device < right.device || (left.device == right.device && left.inode < right.inode)
}

/// Whether each identity comes before all that follow it.
spec fn in_order(seen: Seq<FileIdentity>) -> bool {
    forall|i: int, j: int|
        0 <= i < j < seen.len() ==> identity_before(#[trigger] seen[i], #[trigger] seen[j])
}

/// Adds `identity` to those that were seen, and says whether it was among them.
/// They are held in order, so that one is found by halving.
fn note_identity(seen: &mut Vec<FileIdentity>, identity: FileIdentity) -> (repeated: bool)
    requires
        in_order(old(seen)@),
    ensures
        in_order(final(seen)@),
        repeated == old(seen)@.contains(identity),
        forall|other: FileIdentity| #[trigger]
            final(seen)@.contains(other) <==> old(seen)@.contains(other) || other == identity,
{
    let mut low: usize = 0;
    let mut high: usize = seen.len();
    while low < high
        invariant
            *seen == *old(seen),
            in_order(seen@),
            low <= high <= seen@.len(),
            forall|k: int| 0 <= k < low ==> identity_before(#[trigger] seen@[k], identity),
            forall|k: int|
                high <= k < seen@.len() ==> identity_before(identity, #[trigger] seen@[k]),
        decreases high - low,
    {
        let middle: usize = low + (high - low) / 2;
        let found: FileIdentity = seen[middle];
        if found == identity {
            return true;
        }
        if found.device < identity.device || (found.device == identity.device && found.inode
            < identity.inode) {
            low = middle + 1;
        } else {
            high = middle;
        }
    }
    let ghost before = seen@;
    seen.insert(low, identity);
    proof {
        let after = seen@;
        assert(after == before.insert(low as int, identity));
        assert forall|other: FileIdentity| #[trigger]
            after.contains(other) <==> before.contains(other) || other == identity by {
            if before.contains(other) {
                let k = choose|k: int| 0 <= k < before.len() && before[k] == other;
                if k < low {
                    assert(after[k] == other);
                } else {
                    assert(after[k + 1] == other);
                }
            }
            if other == identity {
                assert(after[low as int] == other);
            }
            if after.contains(other) {
                let k = choose|k: int| 0 <= k < after.len() && after[k] == other;
                if k < low {
                    assert(before[k] == other);
                } else if k > low {
                    assert(before[k - 1] == other);
                }
            }
        }
        if before.contains(identity) {
            let k = choose|k: int| 0 <= k < before.len() && before[k] == identity;
            assert(identity_before(before[k], identity) || identity_before(identity, before[k]));
        }
        assert forall|i: int, j: int| 0 <= i < j < after.len() implies identity_before(
            #[trigger] after[i],
            #[trigger] after[j],
        ) by {
            if i != low && j != low {
                let from = if i < low {
                    i
                } else {
                    i - 1
                };
                let to = if j < low {
                    j
                } else {
                    j - 1
                };
                assert(identity_before(before[from], before[to]));
            } else if i == low {
                assert(after[j] == before[j - 1]);
            } else {
                assert(after[i] == before[i]);
            }
        }
    }
    false
}

/// Keeps only the first candidate for each `(device, inode)` pair. A candidate
/// without an identity is always kept.
pub fn deduplicate_candidates(candidates: Vec<(Candidate, Option<FileIdentity>)>) -> (unique: Vec<
    Candidate,
>)
    ensures
        entries(unique@) == deduplicated(entries_of(candidates@), identities_of(candidates@)),
{
    let ghost identities = identities_of(candidates@);
    let ghost all = entries_of(candidates@);
    let mut seen: Vec<FileIdentity> = Vec::new();
    let mut unique: Vec<Candidate> = Vec::new();
    assert(entries(unique@) =~= picked(all, first_positions(identities, 0)));
    for item in it: candidates
        invariant
            it.seq() == candidates@,
            identities == identities_of(candidates@),
            all == entries_of(candidates@),
            in_order(seen@),
            forall|identity: FileIdentity| #[trigger]
                seen@.contains(identity) <==> exists|k: int|
                    0 <= k < it.index() && #[trigger] identities[k] == Some(identity),
            entries(unique@) == picked(
                all,
                first_positions(identities, it.index() as int),
            ),
    {
        let ghost at = it.index() as int;
        let ghost before_seen = seen@;
        let ghost before_unique = unique@;
        assert(item == candidates@[at]);
        assert(identities[at] == item.1);
        let (candidate, identity): (Candidate, Option<FileIdentity>) = item;
        let repeated: bool = match identity {
            Some(known) => note_identity(&mut seen, known),
            None => false,
        };
        proof {
            assert(repeated == !is_first_of_identity(identities, at));
            assert forall|other: FileIdentity| #[trigger]
                seen@.contains(other) <==> exists|k: int|
                    0 <= k < at + 1 && #[trigger] identities[k] == Some(other) by {
                if identity is Some && other == identity->0 {
                    assert(identities[at] == Some(other));
                }
                if before_seen.contains(other) {
                    let k = choose|k: int| 0 <= k < at && #[trigger] identities[k] == Some(other);
                    assert(identities[k] == Some(other));
                }
            }
        }
        if !repeated {
            unique.push(candidate);
        }
        proof {
            if !repeated {
                assert(entries(unique@) =~= entries(before_unique).push(all[at]));
            }
        }
        assert(entries(unique@) =~= picked(all, first_positions(identities, at + 1)));
    }
    unique
}

/// The kept positions are in order, and they are exactly the first ones.
pub proof fn lemma_first_positions(identities: Seq<Option<FileIdentity>>, count: int)
    requires
        0 <= count <= identities.len(),
    ensures
        forall|k: int|
            0 <= k < first_positions(identities, count).len() ==> {
                let position = #[trigger] first_positions(identities, count)[k];
                0 <= position < count && is_first_of_identity(identities, position)
            },
        forall|i: int, j: int|
            0 <= i < j < first_positions(identities, count).len() ==> #[trigger] first_positions(
                identities,
                count,
            )[i] < #[trigger] first_positions(identities, count)[j],
        forall|position: int|
            0 <= position < count && is_first_of_identity(identities, position)
                ==> #[trigger] first_positions(identities, count).contains(position),
    decreases count,
{
    if count > 0 {
        lemma_first_positions(identities, count - 1);
        let before = first_positions(identities, count - 1);
        let after = first_positions(identities, count);
        assert forall|position: int|
            0 <= position < count && is_first_of_identity(
                identities,
                position,
            ) implies #[trigger] after.contains(position) by {
            if position < count - 1 {
                assert(before.contains(position));
                let k = choose|k: int| 0 <= k < before.len() && before[k] == position;
                assert(after[k] == position);
            } else {
                assert(after[before.len() as int] == position);
            }
        }
    }
}

/// Deduplication keeps the order, keeps no identity twice, drops an entry only
/// for an earlier kept one with the same identity, and so keeps every entry
/// that has no identity.
pub proof fn law_deduplication(identities: Seq<Option<FileIdentity>>, kept: Seq<int>)
    requires
        kept == first_positions(identities, identities.len() as int),
    ensures
        forall|i: int, j: int| 0 <= i < j < kept.len() ==> 0 <= #[trigger] kept[i] < #[trigger] kept[j],
        forall|i: int| 0 <= i < kept.len() ==> #[trigger] kept[i] < identities.len(),
        forall|i: int, j: int|
            0 <= i < j < kept.len() && identities[kept[i]] is Some ==> identities[#[trigger] kept[i]]
                != identities[#[trigger] kept[j]],
        forall|position: int|
            0 <= position < identities.len() && !kept.contains(position)
                ==> #[trigger] identities[position] is Some && exists|k: int|
                0 <= k < kept.len() && #[trigger] kept[k] < position && identities[kept[k]]
                    == identities[position],
{
    let count = identities.len() as int;
    lemma_first_positions(identities, count);
    assert forall|position: int|
        0 <= position < identities.len() && !kept.contains(
            position,
        ) implies #[trigger] identities[position] is Some && exists|k: int|
        0 <= k < kept.len() && #[trigger] kept[k] < position && identities[kept[k]]
            == identities[position] by {
        assert(!is_first_of_identity(identities, position));
        let first = lemma_first_occurrence(identities, position);
        assert(kept.contains(first));
        let k = choose|k: int| 0 <= k < kept.len() && kept[k] == first;
        assert(kept[k] < position);
    }
}

/// The first position with the identity that a later position repeats.
proof fn lemma_first_occurrence(identities: Seq<Option<FileIdentity>>, position: int) -> (first: int)
    requires
        0 <= position < identities.len(),
        identities[position] is Some,
    ensures
        0 <= first <= position,
        identities[first] == identities[position],
        is_first_of_identity(identities, first),
    decreases position,
{
    if is_first_of_identity(identities, position) {
        position
    } else {
        let earlier = choose|earlier: int|
            0 <= earlier < position && #[trigger] identities[earlier] == identities[position];
        lemma_first_occurrence(identities, earlier)
    }
}

proof fn lemma_firsts_total(all: Seq<Entry>, identities: Seq<Option<FileIdentity>>, count: int)
    requires
        0 <= count <= all.len(),
    ensures
        total_bytes(picked(all, first_positions(identities, count))) <= total_bytes(
            all.take(count),
        ),
    decreases count,
{
    if count > 0 {
        let before = first_positions(identities, count - 1);
        lemma_firsts_total(all, identities, count - 1);
        assert(all.take(count).drop_last() =~= all.take(count - 1));
        assert(picked(all, before.push(count - 1)).drop_last() =~= picked(all, before));
    }
}

/// Deduplication never adds to the bytes that entries take together.
pub proof fn law_deduplication_adds_no_bytes(
    all: Seq<Entry>,
    identities: Seq<Option<FileIdentity>>,
)
    requires
        all.len() == identities.len(),
    ensures
        total_bytes(deduplicated(all, identities)) <= total_bytes(all),
{
    lemma_firsts_total(all, identities, all.len() as int);
    assert(all.take(all.len() as int) =~= all);
}

// --------------------------------------------------------------------- laws

/// A candidate is seen with its kind, the bytes of its path and its size, and a
/// list candidate by candidate.
pub proof fn law_candidates_are_seen_as_they_are(candidates: Seq<Candidate>, i: int)
    requires
        0 <= i < candidates.len(),
    ensures
        entries(candidates).len() == candidates.len(),
        entries(candidates)[i].kind == candidates[i].kind,
        entries(candidates)[i].path == candidates[i].path@,
        entries(candidates)[i].size == candidates[i].size_bytes,
{
}

/// Entries take together what each part of them takes; one takes its size.
pub proof fn law_totals_add_up(left: Seq<Entry>, right: Seq<Entry>)
    ensures
        total_bytes(Seq::empty()) == 0,
        forall|entry: Entry| #[trigger] total_bytes(seq![entry]) == entry.size,
        total_bytes(left + right) == total_bytes(left) + total_bytes(right),
    decreases right.len(),
{
    assert forall|entry: Entry| #[trigger] total_bytes(seq![entry]) == entry.size by {
        assert(seq![entry].drop_last() =~= Seq::empty());
        assert(total_bytes(seq![entry].drop_last()) == 0);
    }
    if right.len() == 0 {
        assert(left + right =~= left);
    } else {
        law_totals_add_up(left, right.drop_last());
        assert((left + right).drop_last() =~= left + right.drop_last());
    }
}

/// Directories named `node_modules` hold JavaScript dependencies, those named
/// `target` hold Rust build output, and no other name is known.
pub proof fn law_names_tell_the_kind(base: Seq<u8>, name: Seq<u8>, path: Seq<u8>)
    ensures
        kind_of(path::joined(base, "node_modules".spec_bytes())) == Some(
            CandidateKind::NodeModules,
        ),
        kind_of(path::joined(base, "target".spec_bytes())) == Some(CandidateKind::RustTarget),
        path::is_plain_name(name) && name != "node_modules".spec_bytes() && name
            != "target".spec_bytes() ==> kind_of(path::joined(base, name)) is None,
        path::last_name(path) is None ==> kind_of(path) is None,
{
    reveal_strlit("node_modules");
    reveal_strlit("target");
    is_ascii_spec_bytes("node_modules");
    is_ascii_spec_bytes("target");
    let modules = "node_modules".spec_bytes();
    let target = "target".spec_bytes();
    assert(modules.len() == 12 && target.len() == 6);
    assert(path::is_plain_name(modules));
    assert(path::is_plain_name(target));
    path::law_last_names(base, modules, path);
    path::law_last_names(base, target, path);
    path::law_last_names(base, name, path);
}

/// Whether `part` is what stands in `all` at the positions `at`, in order.
pub open spec fn is_selection<T>(all: Seq<T>, part: Seq<T>, at: Seq<int>) -> bool {
    &&& at.len() == part.len()
    &&& forall|k: int|
        0 <= k < at.len() ==> 0 <= #[trigger] at[k] < all.len() && part[k] == all[at[k]]
    &&& forall|i: int, j: int| 0 <= i < j < at.len() ==> #[trigger] at[i] < #[trigger] at[j]
}

/// A selection goes on with the last element, or without it.
pub proof fn lemma_selection_grows<T>(all: Seq<T>, part: Seq<T>, at: Seq<int>, taken: bool) -> (
    longer: Seq<int>)
    requires
        all.len() > 0,
        is_selection(all.drop_last(), part, at),
    ensures
        taken ==> is_selection(all, part.push(all.last()), longer),
        !taken ==> is_selection(all, part, longer),
        forall|i: int| #[trigger]
            longer.contains(i) <==> at.contains(i) || (taken && i == all.len() - 1),
{
    if taken {
        let longer = at.push(all.len() - 1);
        let grown = part.push(all.last());
        assert forall|k: int| 0 <= k < longer.len() implies 0 <= #[trigger] longer[k] < all.len()
            && grown[k] == all[longer[k]] by {
            if k < at.len() {
                assert(longer[k] == at[k]);
            }
        }
        assert forall|i: int| #[trigger] longer.contains(i) <==> at.contains(i) || i == all.len()
            - 1 by {
            if at.contains(i) {
                let k = choose|k: int| 0 <= k < at.len() && at[k] == i;
                assert(longer[k] == i);
            }
            if i == all.len() - 1 {
                assert(longer[at.len() as int] == i);
            }
            if longer.contains(i) {
                let k = choose|k: int| 0 <= k < longer.len() && longer[k] == i;
                if k < at.len() {
                    assert(at[k] == i);
                }
            }
        }
        longer
    } else {
        assert forall|k: int| 0 <= k < at.len() implies 0 <= #[trigger] at[k] < all.len() && part[k]
            == all[at[k]] by {
            assert(all.drop_last()[at[k]] == all[at[k]]);
        }
        at
    }
}

/// Deduplication keeps, unchanged and in order, just the entries without an
/// identity and those whose identity no earlier entry has.
pub proof fn law_deduplication_selects_the_first(
    all: Seq<Entry>,
    identities: Seq<Option<FileIdentity>>,
)
    requires
        all.len() == identities.len(),
    ensures
        exists|at: Seq<int>| #[trigger]
            is_selection(all, deduplicated(all, identities), at) && forall|i: int|
                0 <= i < all.len() ==> (#[trigger] at.contains(i) <==> identities[i] is None
                    || forall|j: int| 0 <= j < i ==> #[trigger] identities[j] != identities[i]),
{
    let count = identities.len() as int;
    let at = first_positions(identities, count);
    lemma_first_positions(identities, count);
    assert(is_selection(all, deduplicated(all, identities), at));
    assert forall|i: int| 0 <= i < all.len() implies (#[trigger] at.contains(i) <==> identities[i]
        is None || forall|j: int| 0 <= j < i ==> #[trigger] identities[j] != identities[i]) by {
        if at.contains(i) {
            let k = choose|k: int| 0 <= k < at.len() && at[k] == i;
            assert(is_first_of_identity(identities, at[k]));
        } else {
            assert(!is_first_of_identity(identities, i));
        }
    }
}

/// Each kind is shown under its own label.
pub proof fn law_labels_tell_the_kind(kind: CandidateKind)
    ensures
        kind == CandidateKind::NodeModules <==> kind_label(kind) == "JavaScript dependencies"@,
        kind == CandidateKind::RustTarget <==> kind_label(kind) == "Rust build output"@,
{
    reveal_strlit("JavaScript dependencies");
    reveal_strlit("Rust build output");
    assert("JavaScript dependencies"@[0] != "Rust build output"@[0]);
}

/// Identified candidates are seen as they are, each with its own identity.
pub proof fn law_identified_candidates_are_seen_as_they_are(
    items: Seq<(Candidate, Option<FileIdentity>)>,
    i: int,
)
    ensures
        entries_of(items).len() == items.len(),
        identities_of(items).len() == items.len(),
        0 <= i < items.len() ==> entries_of(items)[i] == items[i].0@ && identities_of(items)[i]
            == items[i].1,
{
}

} // verus!
