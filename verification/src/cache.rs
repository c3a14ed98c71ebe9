//! The record of the last completed scan, and where it is kept.

use vstd::prelude::*;
use vstd::string::*;

use crate::calendar;
use crate::candidate;
use crate::candidate::Candidate;
use crate::path;
use crate::update;

verus! {

/// The most recent completed scan.
#[derive(Debug)]
pub struct ScanCache {
    pub version: String,
    pub scanned_at: String,
    /// The roots as they were given.
    pub roots: Vec<String>,
    /// The places that were scanned.
    pub resolved_roots: Vec<Vec<u8>>,
    pub threads: usize,
    pub candidates: Vec<Candidate>,
}

/// Where the record is kept: under the cache directory that the environment
/// names, else under `.cache` in the home directory, else under `temporary`.
pub open spec fn cache_location(
    cache_home: Option<Seq<u8>>,
    home: Option<Seq<u8>>,
    temporary: Seq<u8>,
) -> Seq<u8> {
    let base = match (cache_home, home) {
        (Some(directory), _) => directory,
        (None, Some(directory)) => path::joined(directory, ".cache".spec_bytes()),
        (None, None) => temporary,
    };
    path::joined(path::joined(base, "dsopt".spec_bytes()), "last_scan.json".spec_bytes())
}

/// Finds where the record is kept, from the values of `XDG_CACHE_HOME` and
/// `HOME` and the directory for temporary files.
pub fn cache_path(cache_home: Option<Vec<u8>>, home: Option<Vec<u8>>, temporary: Vec<u8>) -> (place:
    Vec<u8>)
    ensures
        place@ == cache_location(
            path::optional_bytes(cache_home),
            path::optional_bytes(home),
            temporary@,
        ),
{
    let base: Vec<u8> = match (cache_home, home) {
        (Some(directory), _) => directory,
        (None, Some(directory)) => path::join(&directory, ".cache".as_bytes()),
        (None, None) => temporary,
    };
    path::join(&path::join(&base, "dsopt".as_bytes()), "last_scan.json".as_bytes())
}

/// Makes the record of a scan that ended at `now`, in Unix seconds. `roots` are
/// the session's roots as they were given, `resolved_roots` the places that were
/// scanned.
pub fn record_scan(
    candidates: &Vec<Candidate>,
    roots: &Vec<Vec<u8>>,
    resolved_roots: &Vec<Vec<u8>>,
    threads: usize,
    now: u64,
) -> (cache: ScanCache)
    ensures
        cache.version@ == update::VERSION@,
        cache.scanned_at@ == calendar::timestamp(now as nat),
        cache.roots@.len() == roots@.len(),
        forall|i: int|
            0 <= i < roots@.len() ==> (#[trigger] cache.roots@[i])@ == path::lossy_text(roots@[i]@),
        path::all_bytes(cache.resolved_roots@) == path::all_bytes(resolved_roots@),
        cache.threads == threads,
        candidate::entries(cache.candidates@) == candidate::entries(candidates@),
{
    let mut names: Vec<String> = Vec::new();
    for i in 0..roots.len()
        invariant
            names@.len() == i,
            forall|k: int|
                0 <= k < i ==> (#[trigger] names@[k])@ == path::lossy_text(roots@[k]@),
    {
        names.push(path::display(&roots[i]));
    }
    let mut copies: Vec<Candidate> = Vec::new();
    for i in 0..candidates.len()
        invariant
            copies@.len() == i,
            forall|k: int| 0 <= k < i ==> (#[trigger] copies@[k])@ == candidates@[k]@,
    {
        copies.push(candidates[i].clone());
    }
    assert(candidate::entries(copies@) =~= candidate::entries(candidates@));
    ScanCache {
        version: update::current_version().to_owned(),
        scanned_at: calendar::format_timestamp(now),
        roots: names,
        resolved_roots: path::copy_all(resolved_roots),
        threads,
        candidates: copies,
    }
}

/// The record is `last_scan.json` in the directory `dsopt` of the cache
/// directory. That is the one which the environment names, whatever else is
/// there; else `.cache` in the home directory, and the one for temporary files
/// only without a home.
pub proof fn law_where_the_record_is_kept(
    cache_home: Seq<u8>,
    home: Option<Seq<u8>>,
    temporary: Seq<u8>,
)
    ensures
        path::parts(cache_location(None, None, temporary)) == path::parts(temporary).push(
            path::Part::Name("dsopt".spec_bytes()),
        ).push(path::Part::Name("last_scan.json".spec_bytes())),
        path::parts(cache_location(Some(cache_home), home, temporary)) == path::parts(
            cache_home,
        ).push(path::Part::Name("dsopt".spec_bytes())).push(
            path::Part::Name("last_scan.json".spec_bytes()),
        ),
        home is Some ==> path::parts(cache_location(None, home, temporary)) == path::parts(
            home->0,
        ).push(path::Part::Name(".cache".spec_bytes())).push(
            path::Part::Name("dsopt".spec_bytes()),
        ).push(path::Part::Name("last_scan.json".spec_bytes())),
{
    lemma_plain("dsopt");
    lemma_plain("last_scan.json");
    lemma_plain(".cache");
    let directory = "dsopt".spec_bytes();
    let file = "last_scan.json".spec_bytes();
    let hidden = ".cache".spec_bytes();
    path::law_join_adds_a_name(temporary, directory);
    path::law_join_adds_a_name(path::joined(temporary, directory), file);
    path::law_join_adds_a_name(cache_home, directory);
    path::law_join_adds_a_name(path::joined(cache_home, directory), file);
    if home is Some {
        let base = path::joined(home->0, hidden);
        path::law_join_adds_a_name(home->0, hidden);
        path::law_join_adds_a_name(base, directory);
        path::law_join_adds_a_name(path::joined(base, directory), file);
    }
}

proof fn lemma_plain(name: &str)
    requires
        name == "dsopt" || name == "last_scan.json" || name == ".cache",
    ensures
        path::is_plain_name(name.spec_bytes()),
{
    reveal_strlit("dsopt");
    reveal_strlit("last_scan.json");
    reveal_strlit(".cache");
    is_ascii_spec_bytes(name);
    let bytes = name.spec_bytes();
    assert(bytes.len() > 2);
    assert(!bytes.contains(47u8));
}

} // verus!
