//! The size tree of a walk, and the reclaimable directories in it.

use vstd::prelude::*;
use vstd::string::*;

use crate::candidate;
use crate::candidate::Candidate;
use crate::path;

verus! {

/// A file or directory with the size of its whole subtree.
pub struct DirTree {
    /// The entry's name; the path of the root at the root.
    pub name: Vec<u8>,
    pub size_bytes: u64,
    pub children: Vec<DirTree>,
}

/// The reclaimable directories of `tree`, which lies in the directory `base`.
/// Nothing is looked for inside a reclaimable directory.
pub open spec fn found(tree: DirTree, base: Seq<u8>) -> Seq<candidate::Entry>
    decreases tree, 0nat,
{
    let here = path::joined(base, tree.name@);
    match candidate::kind_of(here) {
        Some(kind) => seq![candidate::Entry { kind, path: here, size: tree.size_bytes as nat }],
        None => found_among(tree.children@, tree.children@.len(), here),
    }
}

/// The reclaimable directories of the first `count` trees in `base`.
pub open spec fn found_among(trees: Seq<DirTree>, count: nat, base: Seq<u8>) -> Seq<
    candidate::Entry,
>
    decreases trees, count,
{
    if count == 0 || count > trees.len() {
        Seq::empty()
    } else {
        found_among(trees, (count - 1) as nat, base) + found(trees[count - 1], base)
    }
}

/// The reclaimable directories inside `tree`, which lies in the directory
/// `base`; `tree` itself is none of them, whatever its name.
pub open spec fn found_below(tree: DirTree, base: Seq<u8>) -> Seq<candidate::Entry> {
    found_among(tree.children@, tree.children@.len(), path::joined(base, tree.name@))
}

/// Appends the reclaimable directories of `tree` to `candidates`, outermost
/// ones only.
pub fn collect_candidates(tree: &DirTree, base: &[u8], candidates: &mut Vec<Candidate>)
    ensures
        candidate::entries(final(candidates)@) == candidate::entries(old(candidates)@) + found(
            *tree,
            base@,
        ),
    decreases *tree, 1nat,
{
    let here: Vec<u8> = path::join(base, &tree.name);
    let ghost before = candidates@;
    match candidate::candidate_kind(&here) {
        Some(kind) => {
            let candidate: Candidate = Candidate { kind, path: here, size_bytes: tree.size_bytes };
            let ghost entry = candidate@;
            candidates.push(candidate);
            assert(candidate::entries(candidates@) =~= candidate::entries(before) + seq![entry]);
        },
        None => {
            collect_below(tree, base, candidates);
        },
    }
}

/// Appends the reclaimable directories inside `tree` to `candidates`, outermost
/// ones only.
pub fn collect_below(tree: &DirTree, base: &[u8], candidates: &mut Vec<Candidate>)
    ensures
        candidate::entries(final(candidates)@) == candidate::entries(old(candidates)@)
            + found_below(*tree, base@),
    decreases *tree, 0nat,
{
    let here: Vec<u8> = path::join(base, &tree.name);
    let ghost before = candidates@;
    let ghost trees = tree.children@;
    assert(candidate::entries(candidates@) =~= candidate::entries(before) + found_among(
        trees,
        0,
        here@,
    ));
    for i in 0..tree.children.len()
        invariant
            trees == tree.children@,
            candidate::entries(candidates@) == candidate::entries(before) + found_among(
                trees,
                i as nat,
                here@,
            ),
    {
        assert(decreases_to!(*tree => tree.children@[i as int]));
        collect_candidates(&tree.children[i], &here, candidates);
        assert(candidate::entries(candidates@) =~= candidate::entries(before) + found_among(
            trees,
            (i + 1) as nat,
            here@,
        ));
    }
}

// --------------------------------------------------------------------- laws

/// Whether the entries below the root have names that directories can hold.
pub open spec fn has_plain_names(tree: DirTree) -> bool
    decreases tree,
{
    forall|i: int|
        0 <= i < tree.children@.len() ==> path::is_plain_name((#[trigger] tree.children@[i]).name@)
            && has_plain_names(tree.children@[i])
}

/// Whether no tree is smaller than what it holds.
pub open spec fn has_sound_sizes(tree: DirTree) -> bool
    decreases tree,
{
    &&& children_bytes(tree.children@, tree.children@.len()) <= tree.size_bytes
    &&& forall|i: int|
        0 <= i < tree.children@.len() ==> has_sound_sizes(#[trigger] tree.children@[i])
}

/// The bytes of the first `count` trees.
pub open spec fn children_bytes(trees: Seq<DirTree>, count: nat) -> nat
    decreases count,
{
    if count == 0 || count > trees.len() {
        0
    } else {
        children_bytes(trees, (count - 1) as nat) + trees[count - 1].size_bytes as nat
    }
}

/// Whether a path with these components names a reclaimable directory.
pub open spec fn detects(parts: Seq<path::Part>) -> bool {
    parts.len() > 0 && (parts.last() == path::Part::Name("node_modules".spec_bytes())
        || parts.last() == path::Part::Name("target".spec_bytes()))
}

/// Whether `entry` is the first reclaimable directory on its path at or below
/// `start`.
pub open spec fn is_outermost(start: Seq<path::Part>, entry: candidate::Entry) -> bool {
    let whole = path::parts(entry.path);
    &&& start.is_prefix_of(whole)
    &&& candidate::kind_of(entry.path) == Some(entry.kind)
    &&& forall|depth: int|
        start.len() <= depth < whole.len() ==> !detects(#[trigger] whole.take(depth))
}

/// Whether `entry` is the first reclaimable directory on its path strictly
/// below `start`.
pub open spec fn is_outermost_below(start: Seq<path::Part>, entry: candidate::Entry) -> bool {
    let whole = path::parts(entry.path);
    &&& start.len() < whole.len()
    &&& start.is_prefix_of(whole)
    &&& candidate::kind_of(entry.path) == Some(entry.kind)
    &&& forall|depth: int|
        start.len() < depth < whole.len() ==> !detects(#[trigger] whole.take(depth))
}

proof fn lemma_detects(path: Seq<u8>)
    ensures
        candidate::kind_of(path) is Some <==> detects(path::parts(path)),
{
}

/// What is outermost in an entry of a directory is outermost below the
/// directory.
proof fn lemma_outermost_step(base: Seq<u8>, name: Seq<u8>, entry: candidate::Entry)
    requires
        path::is_plain_name(name),
        is_outermost(path::parts(path::joined(base, name)), entry),
    ensures
        is_outermost_below(path::parts(base), entry),
{
    path::law_join_adds_a_name(base, name);
    let start = path::parts(base);
    let next = start.push(path::Part::Name(name));
    let whole = path::parts(entry.path);
    assert(start =~= whole.subrange(0, start.len() as int)) by {
        assert(next =~= whole.subrange(0, next.len() as int));
        assert forall|i: int| 0 <= i < start.len() implies start[i] == whole[i] by {
            assert(next[i] == whole.subrange(0, next.len() as int)[i]);
        }
    }
}

proof fn lemma_found_outermost(tree: DirTree, base: Seq<u8>)
    requires
        has_plain_names(tree),
    ensures
        forall|i: int|
            0 <= i < found(tree, base).len() ==> is_outermost(
                path::parts(path::joined(base, tree.name@)),
                #[trigger] found(tree, base)[i],
            ),
    decreases tree, 0nat,
{
    let here = path::joined(base, tree.name@);
    let start = path::parts(here);
    if candidate::kind_of(here) is Some {
        assert(start =~= start.subrange(0, start.len() as int));
        assert(is_outermost(start, found(tree, base)[0]));
    } else {
        lemma_found_among_outermost(tree, tree.children@, tree.children@.len(), here);
        lemma_detects(here);
        let all = found(tree, base);
        assert(all == found_among(tree.children@, tree.children@.len(), here));
        assert forall|i: int| 0 <= i < all.len() implies is_outermost(start, #[trigger] all[i]) by {
            let whole = path::parts(all[i].path);
            assert(is_outermost_below(start, all[i]));
            assert forall|depth: int| start.len() <= depth < whole.len() implies !detects(
                #[trigger] whole.take(depth),
            ) by {
                if depth == start.len() {
                    assert(whole.take(depth) =~= start);
                }
            }
        }
    }
}

proof fn lemma_found_among_outermost(
    parent: DirTree,
    trees: Seq<DirTree>,
    count: nat,
    base: Seq<u8>,
)
    requires
        trees == parent.children@,
        has_plain_names(parent),
        count <= trees.len(),
    ensures
        forall|i: int|
            0 <= i < found_among(trees, count, base).len() ==> is_outermost_below(
                path::parts(base),
                #[trigger] found_among(trees, count, base)[i],
            ),
    decreases trees, count,
{
    if count > 0 {
        lemma_found_among_outermost(parent, trees, (count - 1) as nat, base);
        let child = trees[count - 1];
        assert(parent.children@[count - 1] == child);
        lemma_found_outermost(child, base);
        let before = found_among(trees, (count - 1) as nat, base);
        let all = found_among(trees, count, base);
        assert forall|i: int| 0 <= i < all.len() implies is_outermost_below(
            path::parts(base),
            #[trigger] all[i],
        ) by {
            if i < before.len() {
                assert(all[i] == before[i]);
            } else {
                assert(all[i] == found(child, base)[i - before.len()]);
                lemma_outermost_step(base, child.name@, all[i]);
            }
        }
    }
}

/// Of two outermost directories none lies inside the other.
proof fn lemma_outermost_apart(
    start: Seq<path::Part>,
    outer: candidate::Entry,
    inner: candidate::Entry,
)
    requires
        is_outermost_below(start, outer),
        is_outermost_below(start, inner),
        path::is_beneath(inner.path, outer.path),
    ensures
        path::parts(inner.path) == path::parts(outer.path),
{
    let above = path::parts(outer.path);
    let below = path::parts(inner.path);
    lemma_detects(outer.path);
    if above.len() < below.len() {
        assert(below.take(above.len() as int) =~= above);
        assert(false);
    }
    assert(above =~= below);
}

/// Nested candidates fold into their outermost parent: no candidate of a walk
/// lies inside another one.
pub proof fn law_no_candidate_inside_another(tree: DirTree, base: Seq<u8>, i: int, j: int)
    requires
        has_plain_names(tree),
        0 <= i < found(tree, base).len(),
        0 <= j < found(tree, base).len(),
        path::is_beneath(found(tree, base)[j].path, found(tree, base)[i].path),
    ensures
        path::parts(found(tree, base)[j].path) == path::parts(found(tree, base)[i].path),
{
    let here = path::joined(base, tree.name@);
    if candidate::kind_of(here) is None {
        law_no_inner_candidate_inside_another(tree, base, i, j);
    }
}

/// The same of the candidates inside a directory, whatever its own name.
pub proof fn law_no_inner_candidate_inside_another(tree: DirTree, base: Seq<u8>, i: int, j: int)
    requires
        has_plain_names(tree),
        0 <= i < found_below(tree, base).len(),
        0 <= j < found_below(tree, base).len(),
        path::is_beneath(found_below(tree, base)[j].path, found_below(tree, base)[i].path),
    ensures
        path::parts(found_below(tree, base)[j].path) == path::parts(
            found_below(tree, base)[i].path,
        ),
{
    let here = path::joined(base, tree.name@);
    lemma_found_among_outermost(tree, tree.children@, tree.children@.len(), here);
    lemma_outermost_apart(
        path::parts(here),
        found_below(tree, base)[i],
        found_below(tree, base)[j],
    );
}

/// Every candidate of a walk is named like one, lies at or below the root of
/// the walk, and has no candidate between the root and itself.
pub proof fn law_candidates_are_outermost(tree: DirTree, base: Seq<u8>, i: int)
    requires
        has_plain_names(tree),
        0 <= i < found(tree, base).len(),
    ensures
        is_outermost(path::parts(path::joined(base, tree.name@)), found(tree, base)[i]),
{
    lemma_found_outermost(tree, base);
}

/// Every candidate inside a directory is named like one, lies strictly below
/// the directory, and has no candidate between the directory and itself.
pub proof fn law_inner_candidates_are_outermost(tree: DirTree, base: Seq<u8>, i: int)
    requires
        has_plain_names(tree),
        0 <= i < found_below(tree, base).len(),
    ensures
        is_outermost_below(
            path::parts(path::joined(base, tree.name@)),
            found_below(tree, base)[i],
        ),
{
    let here = path::joined(base, tree.name@);
    lemma_found_among_outermost(tree, tree.children@, tree.children@.len(), here);
}

/// Whether no directory holds two entries of one name.
pub open spec fn has_distinct_names(tree: DirTree) -> bool
    decreases tree,
{
    &&& forall|i: int, j: int|
        0 <= i < j < tree.children@.len() ==> (#[trigger] tree.children@[i]).name@ != (
        #[trigger] tree.children@[j]).name@
    &&& forall|i: int|
        0 <= i < tree.children@.len() ==> has_distinct_names(#[trigger] tree.children@[i])
}

/// What is found among the entries of a directory goes through one of them.
proof fn lemma_found_among_names(
    parent: DirTree,
    trees: Seq<DirTree>,
    count: nat,
    base: Seq<u8>,
)
    requires
        trees == parent.children@,
        has_plain_names(parent),
        count <= trees.len(),
    ensures
        forall|k: int|
            0 <= k < found_among(trees, count, base).len() ==> exists|m: int|
                0 <= m < count && path::parts(
                    (#[trigger] found_among(trees, count, base)[k]).path,
                )[path::parts(base).len() as int] == path::Part::Name((#[trigger] trees[m]).name@),
    decreases count,
{
    if count > 0 {
        let before = found_among(trees, (count - 1) as nat, base);
        let child = trees[count - 1];
        let all = found_among(trees, count, base);
        assert(parent.children@[count - 1] == child);
        lemma_found_among_names(parent, trees, (count - 1) as nat, base);
        lemma_found_outermost(child, base);
        path::law_join_adds_a_name(base, child.name@);
        let at = path::parts(base).len() as int;
        assert forall|k: int| 0 <= k < all.len() implies exists|m: int|
            0 <= m < count && path::parts((#[trigger] all[k]).path)[at] == path::Part::Name(
                (#[trigger] trees[m]).name@,
            ) by {
            if k < before.len() {
                assert(all[k] == before[k]);
                let m = choose|m: int|
                    0 <= m < count - 1 && path::parts(before[k].path)[at] == path::Part::Name(
                        (#[trigger] trees[m]).name@,
                    );
                assert(path::parts(all[k].path)[at] == path::Part::Name(trees[m].name@));
            } else {
                let entry = found(child, base)[k - before.len()];
                assert(all[k] == entry);
                let start = path::parts(path::joined(base, child.name@));
                let whole = path::parts(entry.path);
                assert(is_outermost(start, entry));
                assert(start =~= whole.subrange(0, start.len() as int));
                assert(start[at] == whole.subrange(0, start.len() as int)[at]);
                assert(path::parts(all[k].path)[at] == path::Part::Name(trees[count - 1].name@));
            }
        }
    }
}

proof fn lemma_found_distinct(tree: DirTree, base: Seq<u8>)
    requires
        has_plain_names(tree),
        has_distinct_names(tree),
    ensures
        candidate::has_distinct_paths(found(tree, base)),
    decreases tree, 0nat,
{
    let here = path::joined(base, tree.name@);
    if candidate::kind_of(here) is None {
        lemma_found_among_distinct(tree, tree.children@, tree.children@.len(), here);
    }
}

proof fn lemma_found_among_distinct(
    parent: DirTree,
    trees: Seq<DirTree>,
    count: nat,
    base: Seq<u8>,
)
    requires
        trees == parent.children@,
        has_plain_names(parent),
        has_distinct_names(parent),
        count <= trees.len(),
    ensures
        candidate::has_distinct_paths(found_among(trees, count, base)),
    decreases trees, count,
{
    if count > 0 {
        let before = found_among(trees, (count - 1) as nat, base);
        let child = trees[count - 1];
        let last = found(child, base);
        let all = found_among(trees, count, base);
        assert(parent.children@[count - 1] == child);
        lemma_found_among_distinct(parent, trees, (count - 1) as nat, base);
        lemma_found_distinct(child, base);
        lemma_found_among_names(parent, trees, (count - 1) as nat, base);
        lemma_found_outermost(child, base);
        path::law_join_adds_a_name(base, child.name@);
        let at = path::parts(base).len() as int;
        assert forall|i: int, j: int| 0 <= i < j < all.len() implies path::parts(
            (#[trigger] all[i]).path,
        ) != path::parts((#[trigger] all[j]).path) by {
            if j < before.len() {
                assert(all[i] == before[i] && all[j] == before[j]);
            } else if i >= before.len() {
                assert(all[i] == last[i - before.len()] && all[j] == last[j - before.len()]);
            } else {
                assert(all[i] == before[i]);
                let m = choose|m: int|
                    0 <= m < count - 1 && path::parts(before[i].path)[at] == path::Part::Name(
                        (#[trigger] trees[m]).name@,
                    );
                let entry = last[j - before.len()];
                assert(all[j] == entry);
                let start = path::parts(path::joined(base, child.name@));
                let whole = path::parts(entry.path);
                assert(is_outermost(start, entry));
                assert(start =~= whole.subrange(0, start.len() as int));
                assert(start[at] == whole.subrange(0, start.len() as int)[at]);
                assert(parent.children@[m].name@ != parent.children@[count - 1].name@);
            }
        }
    }
}

/// No two candidates inside a directory have the same path.
pub proof fn law_candidates_have_distinct_paths(tree: DirTree, base: Seq<u8>)
    requires
        has_plain_names(tree),
        has_distinct_names(tree),
    ensures
        candidate::has_distinct_paths(found_below(tree, base)),
{
    let here = path::joined(base, tree.name@);
    lemma_found_among_distinct(tree, tree.children@, tree.children@.len(), here);
}

/// The paths of everything in `tree`.
pub open spec fn has_node(tree: DirTree, base: Seq<u8>, node: Seq<u8>) -> bool
    decreases tree,
{
    let here = path::joined(base, tree.name@);
    ||| node == here
    ||| exists|i: int|
        0 <= i < tree.children@.len() && has_node(#[trigger] tree.children@[i], here, node)
}

proof fn lemma_node_beneath(tree: DirTree, base: Seq<u8>, node: Seq<u8>)
    requires
        has_plain_names(tree),
        has_node(tree, base, node),
    ensures
        path::is_beneath(node, path::joined(base, tree.name@)),
    decreases tree,
{
    let here = path::joined(base, tree.name@);
    let start = path::parts(here);
    let whole = path::parts(node);
    if node == here {
        assert(start =~= whole.subrange(0, start.len() as int));
    } else {
        let i = choose|i: int|
            0 <= i < tree.children@.len() && has_node(#[trigger] tree.children@[i], here, node);
        let child = tree.children@[i];
        lemma_node_beneath(child, here, node);
        path::law_join_adds_a_name(here, child.name@);
        let next = path::parts(path::joined(here, child.name@));
        assert(next =~= whole.subrange(0, next.len() as int));
        assert forall|k: int| 0 <= k < start.len() implies start[k] == whole[k] by {
            assert(next[k] == whole.subrange(0, next.len() as int)[k]);
        }
        assert(start =~= whole.subrange(0, start.len() as int));
    }
}

proof fn lemma_found_among_holds(trees: Seq<DirTree>, count: nat, base: Seq<u8>, i: int, k: int)
    requires
        0 <= i < count <= trees.len(),
        0 <= k < found(trees[i], base).len(),
    ensures
        found_among(trees, count, base).contains(found(trees[i], base)[k]),
    decreases count,
{
    let before = found_among(trees, (count - 1) as nat, base);
    let last = found(trees[count - 1], base);
    let all = found_among(trees, count, base);
    let entry = found(trees[i], base)[k];
    if i == count - 1 {
        assert(all[before.len() + k] == entry);
    } else {
        lemma_found_among_holds(trees, (count - 1) as nat, base, i, k);
        let m = choose|m: int| 0 <= m < before.len() && before[m] == entry;
        assert(all[m] == entry);
    }
}

/// Every directory of a walk that is named like a candidate is found, or lies
/// inside one that is found.
pub proof fn law_no_candidate_is_missed(tree: DirTree, base: Seq<u8>, node: Seq<u8>)
    requires
        has_plain_names(tree),
        has_node(tree, base, node),
        candidate::kind_of(node) is Some,
    ensures
        exists|k: int|
            0 <= k < found(tree, base).len() && path::is_beneath(
                node,
                (#[trigger] found(tree, base)[k]).path,
            ),
    decreases tree,
{
    let here = path::joined(base, tree.name@);
    if candidate::kind_of(here) is Some {
        lemma_node_beneath(tree, base, node);
        assert(found(tree, base)[0].path == here);
    } else {
        let i = choose|i: int|
            0 <= i < tree.children@.len() && has_node(#[trigger] tree.children@[i], here, node);
        let child = tree.children@[i];
        law_no_candidate_is_missed(child, here, node);
        let k = choose|k: int|
            0 <= k < found(child, here).len() && path::is_beneath(
                node,
                (#[trigger] found(child, here)[k]).path,
            );
        lemma_found_among_holds(tree.children@, tree.children@.len(), here, i, k);
        let all = found(tree, base);
        let m = choose|m: int| 0 <= m < all.len() && all[m] == found(child, here)[k];
        assert(path::is_beneath(node, all[m].path));
    }
}

proof fn lemma_total_of_both(left: Seq<candidate::Entry>, right: Seq<candidate::Entry>)
    ensures
        candidate::total_bytes(left + right) == candidate::total_bytes(left)
            + candidate::total_bytes(right),
{
    candidate::law_totals_add_up(left, right);
}

/// No byte is counted twice: the candidates of a walk take no more than the
/// whole tree.
pub proof fn law_nothing_is_counted_twice(tree: DirTree, base: Seq<u8>)
    requires
        has_sound_sizes(tree),
    ensures
        candidate::total_bytes(found(tree, base)) <= tree.size_bytes,
    decreases tree, 0nat,
{
    let here = path::joined(base, tree.name@);
    if candidate::kind_of(here) is Some {
        let only = found(tree, base);
        assert(only.drop_last() =~= Seq::empty());
        assert(candidate::total_bytes(only.drop_last()) == 0);
    } else {
        lemma_children_counted_once(tree, tree.children@, tree.children@.len(), here);
    }
}

proof fn lemma_children_counted_once(
    parent: DirTree,
    trees: Seq<DirTree>,
    count: nat,
    base: Seq<u8>,
)
    requires
        trees == parent.children@,
        has_sound_sizes(parent),
        count <= trees.len(),
    ensures
        candidate::total_bytes(found_among(trees, count, base)) <= children_bytes(trees, count),
    decreases trees, count,
{
    if count > 0 {
        lemma_children_counted_once(parent, trees, (count - 1) as nat, base);
        let child = trees[count - 1];
        assert(parent.children@[count - 1] == child);
        law_nothing_is_counted_twice(child, base);
        lemma_total_of_both(found_among(trees, (count - 1) as nat, base), found(child, base));
    }
}

/// The same of the candidates inside a directory, whatever its own name.
pub proof fn law_nothing_inside_is_counted_twice(tree: DirTree, base: Seq<u8>)
    requires
        has_sound_sizes(tree),
    ensures
        candidate::total_bytes(found_below(tree, base)) <= tree.size_bytes,
{
    let here = path::joined(base, tree.name@);
    lemma_children_counted_once(tree, tree.children@, tree.children@.len(), here);
}

/// Every directory inside a directory that is named like a candidate is found,
/// or lies inside one that is found.
pub proof fn law_no_inner_candidate_is_missed(
    tree: DirTree,
    base: Seq<u8>,
    child: int,
    node: Seq<u8>,
)
    requires
        has_plain_names(tree),
        0 <= child < tree.children@.len(),
        has_node(tree.children@[child], path::joined(base, tree.name@), node),
        candidate::kind_of(node) is Some,
    ensures
        exists|k: int|
            0 <= k < found_below(tree, base).len() && path::is_beneath(
                node,
                (#[trigger] found_below(tree, base)[k]).path,
            ),
{
    let here = path::joined(base, tree.name@);
    let below = tree.children@[child];
    law_no_candidate_is_missed(below, here, node);
    let k = choose|k: int|
        0 <= k < found(below, here).len() && path::is_beneath(
            node,
            (#[trigger] found(below, here)[k]).path,
        );
    lemma_found_among_holds(tree.children@, tree.children@.len(), here, child, k);
    let all = found_below(tree, base);
    let m = choose|m: int| 0 <= m < all.len() && all[m] == found(below, here)[k];
    assert(path::is_beneath(node, all[m].path));
}

/// Whether `tree` holds an entry at `node` whose subtree takes `size` bytes.
pub open spec fn has_sized_node(tree: DirTree, base: Seq<u8>, node: Seq<u8>, size: nat) -> bool
    decreases tree,
{
    let here = path::joined(base, tree.name@);
    ||| node == here && size == tree.size_bytes
    ||| exists|i: int|
        0 <= i < tree.children@.len() && has_sized_node(
            #[trigger] tree.children@[i],
            here,
            node,
            size,
        )
}

/// Every candidate of a walk is an entry of the walked tree, with the size of
/// that entry's whole subtree.
pub proof fn law_candidates_have_the_size_of_their_subtree(tree: DirTree, base: Seq<u8>, k: int)
    requires
        0 <= k < found(tree, base).len(),
    ensures
        has_sized_node(tree, base, found(tree, base)[k].path, found(tree, base)[k].size),
        candidate::kind_of(found(tree, base)[k].path) == Some(found(tree, base)[k].kind),
    decreases tree, 1nat,
{
    let here = path::joined(base, tree.name@);
    if candidate::kind_of(here) is None {
        law_inner_candidates_have_the_size_of_their_subtree(tree, base, k);
    }
}

/// The same of the candidates inside a directory, whatever its own name.
pub proof fn law_inner_candidates_have_the_size_of_their_subtree(
    tree: DirTree,
    base: Seq<u8>,
    k: int,
)
    requires
        0 <= k < found_below(tree, base).len(),
    ensures
        has_sized_node(
            tree,
            base,
            found_below(tree, base)[k].path,
            found_below(tree, base)[k].size,
        ),
        candidate::kind_of(found_below(tree, base)[k].path) == Some(
            found_below(tree, base)[k].kind,
        ),
    decreases tree, 0nat,
{
    let here = path::joined(base, tree.name@);
    lemma_found_among_sized(tree, tree.children@, tree.children@.len(), here, k);
}

proof fn lemma_found_among_sized(
    parent: DirTree,
    trees: Seq<DirTree>,
    count: nat,
    base: Seq<u8>,
    k: int,
)
    requires
        trees == parent.children@,
        count <= trees.len(),
        0 <= k < found_among(trees, count, base).len(),
    ensures
        exists|i: int|
            0 <= i < count && has_sized_node(
                #[trigger] trees[i],
                base,
                found_among(trees, count, base)[k].path,
                found_among(trees, count, base)[k].size,
            ),
        candidate::kind_of(found_among(trees, count, base)[k].path) == Some(
            found_among(trees, count, base)[k].kind,
        ),
    decreases trees, count,
{
    if count > 0 {
        let before = found_among(trees, (count - 1) as nat, base);
        let all = found_among(trees, count, base);
        let child = trees[count - 1];
        assert(parent.children@[count - 1] == child);
        if k < before.len() {
            lemma_found_among_sized(parent, trees, (count - 1) as nat, base, k);
            assert(all[k] == before[k]);
        } else {
            law_candidates_have_the_size_of_their_subtree(child, base, k - before.len());
            assert(all[k] == found(child, base)[k - before.len()]);
            assert(has_sized_node(trees[count - 1], base, all[k].path, all[k].size));
        }
    }
}

proof fn lemma_sized_is_node(tree: DirTree, base: Seq<u8>, node: Seq<u8>, size: nat)
    requires
        has_sized_node(tree, base, node, size),
    ensures
        has_node(tree, base, node),
    decreases tree,
{
    let here = path::joined(base, tree.name@);
    if !(node == here && size == tree.size_bytes) {
        let i = choose|i: int|
            0 <= i < tree.children@.len() && has_sized_node(
                #[trigger] tree.children@[i],
                here,
                node,
                size,
            );
        lemma_sized_is_node(tree.children@[i], here, node, size);
    }
}

/// Every entry of the walked tree that is named like a candidate, with no such
/// entry between the root of the walk and itself, is found, with its kind and
/// the size of its subtree.
pub proof fn law_outermost_entries_are_found(
    tree: DirTree,
    base: Seq<u8>,
    node: Seq<u8>,
    size: nat,
    kind: candidate::CandidateKind,
)
    requires
        has_plain_names(tree),
        has_sized_node(tree, base, node, size),
        candidate::kind_of(node) == Some(kind),
        forall|depth: int|
            path::parts(path::joined(base, tree.name@)).len() <= depth < path::parts(node).len()
                ==> !detects(#[trigger] path::parts(node).take(depth)),
    ensures
        found(tree, base).contains(candidate::Entry { kind, path: node, size }),
    decreases tree,
{
    let here = path::joined(base, tree.name@);
    let start = path::parts(here);
    let whole = path::parts(node);
    let entry = candidate::Entry { kind, path: node, size };
    if node == here && size == tree.size_bytes {
        assert(found(tree, base)[0] == entry);
    } else {
        let i = choose|i: int|
            0 <= i < tree.children@.len() && has_sized_node(
                #[trigger] tree.children@[i],
                here,
                node,
                size,
            );
        let child = tree.children@[i];
        lemma_sized_is_node(child, here, node, size);
        lemma_node_beneath(child, here, node);
        path::law_join_adds_a_name(here, child.name@);
        let next = path::parts(path::joined(here, child.name@));
        assert(next =~= whole.subrange(0, next.len() as int));
        assert(whole.take(start.len() as int) =~= start) by {
            assert forall|k: int| 0 <= k < start.len() implies start[k] == whole[k] by {
                assert(next[k] == whole.subrange(0, next.len() as int)[k]);
            }
        }
        lemma_detects(here);
        assert(!detects(whole.take(start.len() as int)));
        law_outermost_entries_are_found(child, here, node, size, kind);
        let k = choose|k: int| 0 <= k < found(child, here).len() && found(child, here)[k] == entry;
        lemma_found_among_holds(tree.children@, tree.children@.len(), here, i, k);
    }
}

/// The same inside a directory, whatever its own name.
pub proof fn law_outermost_inner_entries_are_found(
    tree: DirTree,
    base: Seq<u8>,
    child: int,
    node: Seq<u8>,
    size: nat,
    kind: candidate::CandidateKind,
)
    requires
        has_plain_names(tree),
        0 <= child < tree.children@.len(),
        has_sized_node(tree.children@[child], path::joined(base, tree.name@), node, size),
        candidate::kind_of(node) == Some(kind),
        forall|depth: int|
            path::parts(path::joined(base, tree.name@)).len() < depth < path::parts(node).len()
                ==> !detects(#[trigger] path::parts(node).take(depth)),
    ensures
        found_below(tree, base).contains(candidate::Entry { kind, path: node, size }),
{
    let here = path::joined(base, tree.name@);
    let below = tree.children@[child];
    let entry = candidate::Entry { kind, path: node, size };
    path::law_join_adds_a_name(here, below.name@);
    law_outermost_entries_are_found(below, here, node, size, kind);
    let k = choose|k: int| 0 <= k < found(below, here).len() && found(below, here)[k] == entry;
    lemma_found_among_holds(tree.children@, tree.children@.len(), here, child, k);
}

/// A path names a reclaimable directory just when its last component is one of
/// the two names.
pub proof fn law_detected_names(parts: Seq<path::Part>, path: Seq<u8>)
    ensures
        detects(parts.push(path::Part::Name("node_modules".spec_bytes()))),
        detects(parts.push(path::Part::Name("target".spec_bytes()))),
        !detects(Seq::empty()),
        detects(parts) ==> parts.last() == path::Part::Name("node_modules".spec_bytes())
            || parts.last() == path::Part::Name("target".spec_bytes()),
        candidate::kind_of(path) is Some <==> detects(path::parts(path)),
{
    lemma_detects(path);
}

} // verus!
