//! Which places are walked, and which directories may be deleted.

use vstd::prelude::*;
use vstd::string::*;

use crate::path;

verus! {

/// Whether `path` is `prefix` or is spelled as something inside it.
pub open spec fn is_under(path: Seq<u8>, prefix: Seq<u8>) -> bool {
    path == prefix || (prefix + seq![47u8]).is_prefix_of(path)
}

/// The places that are never descended into: virtual file systems and volume
/// aliases that would otherwise be counted twice or hang the walk.
pub open spec fn is_skipped(path: Seq<u8>) -> bool {
    ||| is_under(path, "/dev".spec_bytes())
    ||| is_under(path, "/proc".spec_bytes())
    ||| is_under(path, "/sys".spec_bytes())
    ||| is_under(path, "/System/Volumes/Data".spec_bytes())
    ||| is_under(path, "/System/Volumes/VM".spec_bytes())
    ||| is_under(path, "/System/Volumes/Preboot".spec_bytes())
    ||| is_under(path, "/System/Volumes/Update".spec_bytes())
    ||| is_under(path, "/private/var/vm".spec_bytes())
    ||| is_under(path, "/private/var/db/dyld".spec_bytes())
}

/// The directories that are never offered for removal.
pub open spec fn is_protected(path: Seq<u8>) -> bool {
    ||| path::parts(path) == path::parts("/".spec_bytes())
    ||| path::parts(path) == path::parts("/System".spec_bytes())
    ||| path::parts(path) == path::parts("/Users".spec_bytes())
    ||| path::parts(path) == path::parts("/Applications".spec_bytes())
}

/// Whether `path` is `prefix` or is spelled as something inside it.
fn under(path: &[u8], prefix: &str) -> (found: bool)
    ensures
        found == is_under(path@, prefix.spec_bytes()),
{
    let start: &[u8] = prefix.as_bytes();
    if path.len() < start.len() {
        return false;
    }
    for i in 0..start.len()
        invariant
            start@ == prefix.spec_bytes(),
            start@.len() <= path@.len(),
            forall|k: int| 0 <= k < i ==> #[trigger] start@[k] == path@[k],
    {
        if path[i] != start[i] {
            proof {
                if is_under(path@, start@) && path@ != start@ {
                    assert((start@ + seq![47u8])[i as int] == path@[i as int]);
                }
            }
            return false;
        }
    }
    if path.len() == start.len() {
        assert(path@ =~= start@);
        true
    } else {
        let inside: bool = path[start.len()] == 47;
        proof {
            let open = start@ + seq![47u8];
            if inside {
                assert(open =~= path@.subrange(0, open.len() as int));
            } else if open.is_prefix_of(path@) {
                assert(open[start@.len() as int] == path@[start@.len() as int]);
            }
        }
        inside
    }
}

/// Whether `path` sits on a virtual file system or a volume alias.
pub fn should_skip(path: &[u8]) -> (skip: bool)
    ensures
        skip == is_skipped(path@),
{
    under(path, "/dev") || under(path, "/proc") || under(path, "/sys") || under(
        path,
        "/System/Volumes/Data",
    ) || under(path, "/System/Volumes/VM") || under(path, "/System/Volumes/Preboot") || under(
        path,
        "/System/Volumes/Update",
    ) || under(path, "/private/var/vm") || under(path, "/private/var/db/dyld")
}

/// Whether `path` is one of the protected directories.
fn protected(path: &[u8]) -> (found: bool)
    ensures
        found == is_protected(path@),
{
    path::same_path(path, "/".as_bytes()) || path::same_path(path, "/System".as_bytes())
        || path::same_path(path, "/Users".as_bytes()) || path::same_path(
        path,
        "/Applications".as_bytes(),
    )
}

/// Where a path leads when its links and dots are resolved.
#[derive(Debug, PartialEq, Eq)]
pub struct Location {
    /// The resolved path.
    pub path: Vec<u8>,
    /// Whether a directory is there.
    pub is_dir: bool,
}

/// Whether the directory at `location` may be deleted in a scan of `root`.
pub open spec fn is_safe(location: Seq<u8>, is_dir: bool, root: Seq<u8>) -> bool {
    &&& is_dir
    &&& path::is_inside(location, root)
    &&& !is_protected(location)
    &&& !is_skipped(location)
}

/// Whether a path leads to a directory beneath the scan root that is safe to
/// delete. `None` stands for a path, or a scan root, that does not resolve.
pub fn is_safe_candidate(location: &Option<Location>, scan_root: &Option<Vec<u8>>) -> (safe: bool)
    ensures
        safe == (location is Some && scan_root is Some && is_safe(
            location->0.path@,
            location->0.is_dir,
            scan_root->0@,
        )),
{
    match (location, scan_root) {
        (Some(resolved), Some(root)) => {
            if !path::inside(&resolved.path, root) || !resolved.is_dir {
                return false;
            }
            if protected(&resolved.path) {
                return false;
            }
            !should_skip(&resolved.path)
        },
        _ => false,
    }
}

/// Checks a path against the rules of a scan of the whole file system;
/// `file_system` is where `/` leads.
pub fn candidate_is_safe(location: &Option<Location>, file_system: &Option<Vec<u8>>) -> (safe: bool)
    ensures
        safe == (location is Some && file_system is Some && is_safe(
            location->0.path@,
            location->0.is_dir,
            file_system->0@,
        )),
{
    is_safe_candidate(location, file_system)
}

/// Whether a removal may delete what the path `place` leads to. One of the
/// roots of the scan that listed `place` has to hold both `place` and what it
/// leads to now. `None` stands for a root that does not resolve.
pub open spec fn may_be_deleted(
    place: Seq<u8>,
    location: Option<Location>,
    roots: Seq<Option<Seq<u8>>>,
) -> bool {
    location is Some && exists|i: int|
        0 <= i < roots.len() && (#[trigger] roots[i]) is Some && path::is_inside(
            place,
            roots[i]->0,
        ) && is_safe(location->0.path@, location->0.is_dir, roots[i]->0)
}

/// Lets a removal go ahead, or says why not.
pub fn permit_removal(
    place: &[u8],
    location: &Option<Location>,
    roots: &Vec<Option<Vec<u8>>>,
) -> (permit: Result<(), String>)
    ensures
        permit is Ok <==> may_be_deleted(place@, *location, path::all_optional_bytes(roots@)),
        permit matches Err(message) ==> message@ == "unsafe or missing path"@,
{
    let ghost bytes = path::all_optional_bytes(roots@);
    for i in 0..roots.len()
        invariant
            bytes == path::all_optional_bytes(roots@),
            forall|k: int|
                0 <= k < i ==> !((#[trigger] bytes[k]) is Some && path::is_inside(
                    place@,
                    bytes[k]->0,
                ) && location is Some && is_safe(
                    location->0.path@,
                    location->0.is_dir,
                    bytes[k]->0,
                )),
    {
        assert(bytes[i as int] == path::optional_bytes(roots@[i as int]));
        if let Some(root) = &roots[i] {
            if path::inside(place, root) && is_safe_candidate(location, &roots[i]) {
                return Ok(());
            }
        }
    }
    Err("unsafe or missing path".to_owned())
}

proof fn lemma_inside(path: Seq<u8>, name: Seq<u8>, prefix: &str)
    requires
        is_ascii(prefix),
        prefix@.len() > 0,
        prefix@.last() != '/',
        !path::is_absolute(name),
    ensures
        is_under(path, prefix.spec_bytes()) ==> is_under(
            path::joined(path, name),
            prefix.spec_bytes(),
        ),
{
    let start = prefix.spec_bytes();
    is_ascii_spec_bytes(prefix);
    assert(start.last() == prefix@.last() as u8);
    let inner = path::joined(path, name);
    let open = start + seq![47u8];
    if is_under(path, start) {
        assert(open =~= inner.subrange(0, open.len() as int));
    }
}

/// What lies inside a skipped place is skipped as well.
pub proof fn law_skipping_covers_the_inside(path: Seq<u8>, name: Seq<u8>)
    requires
        is_skipped(path),
        !path::is_absolute(name),
    ensures
        is_skipped(path::joined(path, name)),
{
    reveal_strlit("/dev");
    reveal_strlit("/proc");
    reveal_strlit("/sys");
    reveal_strlit("/System/Volumes/Data");
    reveal_strlit("/System/Volumes/VM");
    reveal_strlit("/System/Volumes/Preboot");
    reveal_strlit("/System/Volumes/Update");
    reveal_strlit("/private/var/vm");
    reveal_strlit("/private/var/db/dyld");
    lemma_inside(path, name, "/dev");
    lemma_inside(path, name, "/proc");
    lemma_inside(path, name, "/sys");
    lemma_inside(path, name, "/System/Volumes/Data");
    lemma_inside(path, name, "/System/Volumes/VM");
    lemma_inside(path, name, "/System/Volumes/Preboot");
    lemma_inside(path, name, "/System/Volumes/Update");
    lemma_inside(path, name, "/private/var/vm");
    lemma_inside(path, name, "/private/var/db/dyld");
}

/// What is safe in a scan of `root` is a directory strictly inside it, is none
/// of the protected directories and is not in a skipped place.
pub proof fn law_safe_places_are_inside_the_root(location: Seq<u8>, is_dir: bool, root: Seq<u8>)
    requires
        is_safe(location, is_dir, root),
    ensures
        is_dir,
        path::parts(root).len() < path::parts(location).len(),
        path::parts(root) == path::parts(location).take(path::parts(root).len() as int),
        !is_protected(location),
        !is_skipped(location),
{
    let whole = path::parts(location);
    let start = path::parts(root);
    assert(start =~= whole.take(start.len() as int));
    if start.len() == whole.len() {
        assert(start =~= whole);
    }
}

/// What a removal may delete is a directory strictly inside one of the roots
/// of the scan, is none of the protected directories and is not in a skipped
/// place.
pub proof fn law_deletions_are_inside_a_root(
    place: Seq<u8>,
    location: Option<Location>,
    roots: Seq<Option<Seq<u8>>>,
)
    requires
        may_be_deleted(place, location, roots),
    ensures
        location is Some,
        location->0.is_dir,
        !is_protected(location->0.path@),
        !is_skipped(location->0.path@),
        exists|i: int|
            0 <= i < roots.len() && (#[trigger] roots[i]) is Some && path::is_inside(
                place,
                roots[i]->0,
            ) && path::parts(roots[i]->0).len() < path::parts(location->0.path@).len()
                && path::parts(roots[i]->0) == path::parts(location->0.path@).take(
                path::parts(roots[i]->0).len() as int,
            ),
{
    let i = choose|i: int|
        0 <= i < roots.len() && (#[trigger] roots[i]) is Some && path::is_inside(
            place,
            roots[i]->0,
        ) && is_safe(location->0.path@, location->0.is_dir, roots[i]->0);
    law_safe_places_are_inside_the_root(location->0.path@, location->0.is_dir, roots[i]->0);
    assert(roots[i] is Some);
}

/// A narrower root never makes a place safe.
pub proof fn law_narrower_roots_allow_no_more(
    location: Seq<u8>,
    is_dir: bool,
    narrow: Seq<u8>,
    wide: Seq<u8>,
)
    requires
        path::is_beneath(narrow, wide),
        is_safe(location, is_dir, narrow),
    ensures
        is_safe(location, is_dir, wide),
{
    let whole = path::parts(location);
    let middle = path::parts(narrow);
    let start = path::parts(wide);
    law_safe_places_are_inside_the_root(location, is_dir, narrow);
    assert(start =~= middle.subrange(0, start.len() as int));
    assert forall|k: int| 0 <= k < start.len() implies start[k] == whole[k] by {
        assert(start[k] == middle.subrange(0, start.len() as int)[k]);
        assert(middle[k] == whole.take(middle.len() as int)[k]);
    }
    assert(start =~= whole.subrange(0, start.len() as int));
}

/// What a removal may delete is safe by the rules of the whole file system as
/// well, so that a path which those rules refuse is never deleted. Here
/// `file_system` is a directory that holds every root.
pub proof fn law_deletions_are_safe_in_the_file_system(
    place: Seq<u8>,
    location: Option<Location>,
    roots: Seq<Option<Seq<u8>>>,
    file_system: Seq<u8>,
)
    requires
        may_be_deleted(place, location, roots),
        forall|i: int|
            0 <= i < roots.len() && (#[trigger] roots[i]) is Some ==> path::is_beneath(
                roots[i]->0,
                file_system,
            ),
    ensures
        is_safe(location->0.path@, location->0.is_dir, file_system),
{
    let i = choose|i: int|
        0 <= i < roots.len() && (#[trigger] roots[i]) is Some && path::is_inside(
            place,
            roots[i]->0,
        ) && is_safe(location->0.path@, location->0.is_dir, roots[i]->0);
    law_narrower_roots_allow_no_more(
        location->0.path@,
        location->0.is_dir,
        roots[i]->0,
        file_system,
    );
}

/// What a removal may delete under a path that starts with a slash is safe in a
/// scan of `/`.
pub proof fn law_absolute_deletions_are_safe_under_the_root(
    place: Seq<u8>,
    location: Option<Location>,
    roots: Seq<Option<Seq<u8>>>,
)
    requires
        may_be_deleted(place, location, roots),
        path::is_absolute(location->0.path@),
    ensures
        is_safe(location->0.path@, location->0.is_dir, "/".spec_bytes()),
{
    reveal_strlit("/");
    is_ascii_spec_bytes("/");
    let top = "/".spec_bytes();
    assert(top =~= seq![47u8]);
    path::lemma_root_is_first(location->0.path@);
    path::lemma_parts_of_root();
    let whole = path::parts(location->0.path@);
    assert(path::parts(top) =~= whole.subrange(0, 1));
    law_deletions_are_inside_a_root(place, location, roots);
}

/// A path that leads nowhere is never deleted, so that one which has just been
/// deleted is refused.
pub proof fn law_missing_paths_are_refused(place: Seq<u8>, roots: Seq<Option<Seq<u8>>>)
    ensures
        !may_be_deleted(place, None, roots),
{
}

proof fn lemma_top_level(place: &str, name: &str)
    requires
        is_ascii(place),
        is_ascii(name),
        name@.len() > 2,
        place@ == seq!['/'] + name@,
        forall|i: int| 0 <= i < name@.len() ==> #[trigger] name@[i] != '/',
    ensures
        path::parts(place.spec_bytes()) == seq![
            path::Part::Root,
            path::Part::Name(name.spec_bytes()),
        ],
{
    is_ascii_spec_bytes(place);
    is_ascii_spec_bytes(name);
    let top = seq![47u8];
    let bytes = name.spec_bytes();
    assert(place.spec_bytes() =~= path::joined(top, bytes)) by {
        assert(bytes[0] == name@[0] as u8);
        assert(!path::is_absolute(bytes));
        assert forall|i: int| 0 <= i < place@.len() implies place.spec_bytes()[i] == path::joined(
            top,
            bytes,
        )[i] by {
            assert(place@[i] == (seq!['/'] + name@)[i]);
        }
    }
    assert(path::is_plain_name(bytes)) by {
        if bytes.contains(47u8) {
            let i = choose|i: int| 0 <= i < bytes.len() && bytes[i] == 47;
            assert(bytes[i] == name@[i] as u8);
            assert(name@[i] == '/');
        }
    }
    path::law_join_adds_a_name(top, bytes);
    path::lemma_parts_of_root();
    assert(path::parts(place.spec_bytes()) =~= seq![path::Part::Root, path::Part::Name(bytes)]);
}

/// The protected directories are the root directory and three others right
/// inside it; nothing else is protected.
pub proof fn law_four_directories_are_protected(path: Seq<u8>)
    ensures
        is_protected(path) <==> {
            ||| path::parts(path) == seq![path::Part::Root]
            ||| path::parts(path) == seq![
                path::Part::Root,
                path::Part::Name("System".spec_bytes()),
            ]
            ||| path::parts(path) == seq![path::Part::Root, path::Part::Name("Users".spec_bytes())]
            ||| path::parts(path) == seq![
                path::Part::Root,
                path::Part::Name("Applications".spec_bytes()),
            ]
        },
{
    reveal_strlit("/");
    reveal_strlit("/System");
    reveal_strlit("/Users");
    reveal_strlit("/Applications");
    reveal_strlit("System");
    reveal_strlit("Users");
    reveal_strlit("Applications");
    is_ascii_spec_bytes("/");
    assert("/".spec_bytes() =~= seq![47u8]);
    path::lemma_parts_of_root();
    assert("/System"@ =~= seq!['/'] + "System"@);
    assert("/Users"@ =~= seq!['/'] + "Users"@);
    assert("/Applications"@ =~= seq!['/'] + "Applications"@);
    lemma_top_level("/System", "System");
    lemma_top_level("/Users", "Users");
    lemma_top_level("/Applications", "Applications");
}

/// What lies inside a directory right below the root directory is not protected,
/// though the directory may be.
pub proof fn law_protection_ends_at_the_directory(base: Seq<u8>, name: Seq<u8>)
    requires
        path::is_plain_name(name),
        path::parts(base).len() >= 2,
    ensures
        !is_protected(path::joined(base, name)),
{
    path::law_join_adds_a_name(base, name);
    law_four_directories_are_protected(path::joined(base, name));
    let whole = path::parts(path::joined(base, name));
    assert(whole.len() >= 3);
    assert(seq![path::Part::Root].len() == 1);
    assert(seq![path::Part::Root, path::Part::Name("System".spec_bytes())].len() == 2);
    assert(seq![path::Part::Root, path::Part::Name("Users".spec_bytes())].len() == 2);
    assert(seq![path::Part::Root, path::Part::Name("Applications".spec_bytes())].len() == 2);
}

/// Whether `path` is spelled as `place`, or as `place`, a slash and more.
pub open spec fn starts_in(path: Seq<u8>, place: Seq<u8>) -> bool {
    path == place || (place.len() < path.len() && path.take(place.len() as int) == place
        && path[place.len() as int] == 47)
}

/// The skipped places are nine directories and what is spelled as lying inside
/// them.
pub proof fn law_nine_places_are_skipped(path: Seq<u8>)
    ensures
        is_skipped(path) <==> {
            ||| starts_in(path, "/dev".spec_bytes())
            ||| starts_in(path, "/proc".spec_bytes())
            ||| starts_in(path, "/sys".spec_bytes())
            ||| starts_in(path, "/System/Volumes/Data".spec_bytes())
            ||| starts_in(path, "/System/Volumes/VM".spec_bytes())
            ||| starts_in(path, "/System/Volumes/Preboot".spec_bytes())
            ||| starts_in(path, "/System/Volumes/Update".spec_bytes())
            ||| starts_in(path, "/private/var/vm".spec_bytes())
            ||| starts_in(path, "/private/var/db/dyld".spec_bytes())
        },
{
    lemma_starts_in(path, "/dev".spec_bytes());
    lemma_starts_in(path, "/proc".spec_bytes());
    lemma_starts_in(path, "/sys".spec_bytes());
    lemma_starts_in(path, "/System/Volumes/Data".spec_bytes());
    lemma_starts_in(path, "/System/Volumes/VM".spec_bytes());
    lemma_starts_in(path, "/System/Volumes/Preboot".spec_bytes());
    lemma_starts_in(path, "/System/Volumes/Update".spec_bytes());
    lemma_starts_in(path, "/private/var/vm".spec_bytes());
    lemma_starts_in(path, "/private/var/db/dyld".spec_bytes());
}

proof fn lemma_starts_in(path: Seq<u8>, place: Seq<u8>)
    ensures
        is_under(path, place) <==> starts_in(path, place),
{
    let open = place + seq![47u8];
    if open.is_prefix_of(path) {
        assert(open =~= path.subrange(0, open.len() as int));
        assert(path.take(place.len() as int) =~= place) by {
            assert forall|k: int| 0 <= k < place.len() implies path[k] == place[k] by {
                assert(open[k] == path.subrange(0, open.len() as int)[k]);
            }
        }
        assert(open[place.len() as int] == path.subrange(0, open.len() as int)[place.len() as int]);
    }
    if starts_in(path, place) && path != place {
        assert forall|k: int| 0 <= k < open.len() implies open[k] == path[k] by {
            if k < place.len() {
                assert(path.take(place.len() as int)[k] == place[k]);
            }
        }
        assert(open =~= path.subrange(0, open.len() as int));
    }
}

/// The rules are all there is to it: a directory strictly inside the root that
/// is neither protected nor in a skipped place is safe, and nothing else is.
pub proof fn law_safety_is_exact(location: Seq<u8>, is_dir: bool, root: Seq<u8>)
    ensures
        is_safe(location, is_dir, root) <==> {
            &&& is_dir
            &&& path::parts(root).len() < path::parts(location).len()
            &&& forall|k: int|
                0 <= k < path::parts(root).len() ==> path::parts(root)[k] == #[trigger] path::parts(
                    location,
                )[k]
            &&& !is_protected(location)
            &&& !is_skipped(location)
        },
{
    path::law_lying_beneath(location, root);
}

/// A removal goes ahead wherever one of the roots holds both the listed path
/// and the directory that it leads to, and the rules allow that directory.
pub proof fn law_safe_deletions_go_ahead(
    place: Seq<u8>,
    location: Location,
    roots: Seq<Option<Seq<u8>>>,
    i: int,
)
    requires
        0 <= i < roots.len(),
        roots[i] is Some,
        path::parts(roots[i]->0).len() < path::parts(place).len(),
        forall|k: int|
            0 <= k < path::parts(roots[i]->0).len() ==> path::parts(roots[i]->0)[k]
                == #[trigger] path::parts(place)[k],
        path::parts(roots[i]->0).len() < path::parts(location.path@).len(),
        forall|k: int|
            0 <= k < path::parts(roots[i]->0).len() ==> path::parts(roots[i]->0)[k]
                == #[trigger] path::parts(location.path@)[k],
        location.is_dir,
        !is_protected(location.path@),
        !is_skipped(location.path@),
    ensures
        may_be_deleted(place, Some(location), roots),
{
    path::law_lying_beneath(place, roots[i]->0);
    law_safety_is_exact(location.path@, location.is_dir, roots[i]->0);
}

} // verus!
