//! File system paths, as the bytes that name them.
//!
//! A path is a sequence of bytes in which `/` separates names. Two spellings
//! name the same path when their components agree, so paths are compared and
//! ordered component by component: `a//b`, `a/./b` and `a/b/` are one path.

use vstd::prelude::*;
use vstd::string::*;
use vstd::utf8::*;

use crate::text;

verus! {

/// One step of a path.
pub enum Part {
    /// The root directory.
    Root,
    /// A leading `.` of a relative path.
    Current,
    /// A `..`.
    Parent,
    /// The name of an entry.
    Name(Seq<u8>),
}

/// What one piece between slashes stands for. A `.` counts only where it leads
/// a relative path.
pub open spec fn part_of_piece(piece: Seq<u8>, leading: bool) -> Seq<Part> {
    if piece.len() == 0 {
        Seq::empty()
    } else if piece == seq![46u8] {
        if leading {
            seq![Part::Current]
        } else {
            Seq::empty()
        }
    } else if piece == seq![46u8, 46u8] {
        seq![Part::Parent]
    } else {
        seq![Part::Name(piece)]
    }
}

/// What the pieces between slashes stand for.
pub open spec fn parts_of_pieces(pieces: Seq<Seq<u8>>, absolute: bool) -> Seq<Part>
    decreases pieces.len(),
{
    if pieces.len() == 0 {
        if absolute {
            seq![Part::Root]
        } else {
            Seq::empty()
        }
    } else {
        parts_of_pieces(pieces.drop_last(), absolute) + part_of_piece(
            pieces.last(),
            !absolute && pieces.len() == 1,
        )
    }
}

/// Whether `path` starts at the root directory.
pub open spec fn is_absolute(path: Seq<u8>) -> bool {
    path.len() > 0 && path[0] == 47
}

/// The components of `path`.
pub open spec fn parts(path: Seq<u8>) -> Seq<Part> {
    parts_of_pieces(text::split_on(path, 47u8), is_absolute(path))
}

/// The name of the entry that `path` ends in, if it ends in one.
pub open spec fn last_name(path: Seq<u8>) -> Option<Seq<u8>> {
    if parts(path).len() == 0 {
        None
    } else {
        match parts(path).last() {
            Part::Name(name) => Some(name),
            _ => None,
        }
    }
}

/// `name` looked up in the directory `base`.
pub open spec fn joined(base: Seq<u8>, name: Seq<u8>) -> Seq<u8> {
    if is_absolute(name) {
        name
    } else if base.len() == 0 || base.last() == 47 {
        base + name
    } else {
        base + seq![47u8] + name
    }
}

/// Whether `path` is `root` or lies beneath it.
pub open spec fn is_beneath(path: Seq<u8>, root: Seq<u8>) -> bool {
    parts(root).is_prefix_of(parts(path))
}

/// Whether `path` lies strictly beneath `root`.
pub open spec fn is_inside(path: Seq<u8>, root: Seq<u8>) -> bool {
    is_beneath(path, root) && parts(path) != parts(root)
}

/// The bytes of an optional path.
pub open spec fn optional_bytes(bytes: Option<Vec<u8>>) -> Option<Seq<u8>> {
    match bytes {
        Some(found) => Some(found@),
        None => None,
    }
}

/// The bytes of each path.
pub open spec fn all_bytes(paths: Seq<Vec<u8>>) -> Seq<Seq<u8>> {
    paths.map_values(|path: Vec<u8>| path@)
}

/// The bytes of each optional path.
pub open spec fn all_optional_bytes(paths: Seq<Option<Vec<u8>>>) -> Seq<Option<Seq<u8>>> {
    paths.map_values(|path: Option<Vec<u8>>| optional_bytes(path))
}

/// A name that an entry of a directory can have.
pub open spec fn is_plain_name(name: Seq<u8>) -> bool {
    &&& name.len() > 0
    &&& !name.contains(47u8)
    &&& name != seq![46u8]
    &&& name != seq![46u8, 46u8]
}

// -------------------------------------------------------------------- order

/// Whether `left` comes before `right` in byte order.
pub open spec fn bytes_before(left: Seq<u8>, right: Seq<u8>) -> bool
    decreases left.len(),
{
    if right.len() == 0 {
        false
    } else if left.len() == 0 {
        true
    } else if left[0] != right[0] {
        left[0] < right[0]
    } else {
        bytes_before(left.drop_first(), right.drop_first())
    }
}

/// The root directory comes first, then `.`, then `..`, then names.
pub open spec fn part_rank(part: Part) -> int {
    match part {
        Part::Root => 0,
        Part::Current => 1,
        Part::Parent => 2,
        Part::Name(_) => 3,
    }
}

/// Whether `left` comes before `right`; names are in byte order.
pub open spec fn part_before(left: Part, right: Part) -> bool {
    match (left, right) {
        (Part::Name(l), Part::Name(r)) => bytes_before(l, r),
        _ => part_rank(left) < part_rank(right),
    }
}

/// Whether `left` comes before `right`, the first difference deciding.
pub open spec fn parts_before(left: Seq<Part>, right: Seq<Part>) -> bool
    decreases left.len(),
{
    if right.len() == 0 {
        false
    } else if left.len() == 0 {
        true
    } else if left[0] != right[0] {
        part_before(left[0], right[0])
    } else {
        parts_before(left.drop_first(), right.drop_first())
    }
}

proof fn lemma_bytes_order(left: Seq<u8>, right: Seq<u8>)
    ensures
        left != right ==> bytes_before(left, right) || bytes_before(right, left),
        !(bytes_before(left, right) && bytes_before(right, left)),
        !bytes_before(left, left),
    decreases left.len(),
{
    if left.len() > 0 {
        lemma_bytes_order(left.drop_first(), left.drop_first());
    }
    if left.len() > 0 && right.len() > 0 && left[0] == right[0] {
        lemma_bytes_order(left.drop_first(), right.drop_first());
        assert(left =~= seq![left[0]] + left.drop_first());
        assert(right =~= seq![right[0]] + right.drop_first());
    }
    if left.len() == 0 && right.len() == 0 {
        assert(left =~= right);
    }
}

proof fn lemma_bytes_transitive(a: Seq<u8>, b: Seq<u8>, c: Seq<u8>)
    requires
        bytes_before(a, b),
        bytes_before(b, c),
    ensures
        bytes_before(a, c),
    decreases a.len(),
{
    if a.len() > 0 && a[0] == b[0] && b[0] == c[0] {
        lemma_bytes_transitive(a.drop_first(), b.drop_first(), c.drop_first());
    }
}

proof fn lemma_part_order(left: Part, right: Part)
    ensures
        left != right ==> part_before(left, right) || part_before(right, left),
        !(part_before(left, right) && part_before(right, left)),
        !part_before(left, left),
{
    if let Part::Name(l) = left {
        lemma_bytes_order(l, l);
        if let Part::Name(r) = right {
            lemma_bytes_order(l, r);
        }
    }
}

proof fn lemma_part_transitive(a: Part, b: Part, c: Part)
    requires
        part_before(a, b),
        part_before(b, c),
    ensures
        part_before(a, c),
{
    if let (Part::Name(x), Part::Name(y), Part::Name(z)) = (a, b, c) {
        lemma_bytes_transitive(x, y, z);
    }
}

/// Of two different paths exactly one comes before the other.
pub proof fn law_path_order_is_total(left: Seq<Part>, right: Seq<Part>)
    ensures
        left != right ==> parts_before(left, right) || parts_before(right, left),
        !(parts_before(left, right) && parts_before(right, left)),
        !parts_before(left, left),
    decreases left.len(),
{
    if left.len() > 0 {
        law_path_order_is_total(left.drop_first(), left.drop_first());
    }
    if left.len() > 0 && right.len() > 0 {
        if left[0] == right[0] {
            law_path_order_is_total(left.drop_first(), right.drop_first());
            assert(left =~= seq![left[0]] + left.drop_first());
            assert(right =~= seq![right[0]] + right.drop_first());
        } else {
            lemma_part_order(left[0], right[0]);
        }
    }
    if left.len() == 0 && right.len() == 0 {
        assert(left =~= right);
    }
}

/// The order of paths is transitive.
pub proof fn law_path_order_is_transitive(a: Seq<Part>, b: Seq<Part>, c: Seq<Part>)
    requires
        parts_before(a, b),
        parts_before(b, c),
    ensures
        parts_before(a, c),
    decreases a.len(),
{
    if a.len() > 0 {
        if a[0] == b[0] && b[0] == c[0] {
            law_path_order_is_transitive(a.drop_first(), b.drop_first(), c.drop_first());
        } else if a[0] != b[0] && b[0] != c[0] {
            lemma_part_transitive(a[0], b[0], c[0]);
            lemma_part_order(a[0], b[0]);
        }
    }
}

// ---------------------------------------------------------------- the root

proof fn lemma_root_leads(pieces: Seq<Seq<u8>>)
    ensures
        parts_of_pieces(pieces, true).len() >= 1,
        parts_of_pieces(pieces, true)[0] == Part::Root,
    decreases pieces.len(),
{
    if pieces.len() > 0 {
        lemma_root_leads(pieces.drop_last());
    }
}

/// An absolute path starts at the root directory.
pub proof fn lemma_root_is_first(path: Seq<u8>)
    requires
        is_absolute(path),
    ensures
        parts(path).len() >= 1,
        parts(path)[0] == Part::Root,
{
    lemma_root_leads(text::split_on(path, 47u8));
}

/// The path `/` is the root directory alone.
pub proof fn lemma_parts_of_root()
    ensures
        parts(seq![47u8]) == seq![Part::Root],
{
    let path = seq![47u8];
    let none = Seq::<u8>::empty();
    assert(path.drop_last() =~= none);
    assert(text::split_on(none, 47u8) =~= seq![none]);
    assert(text::split_on(path, 47u8) =~= seq![none, none]);
    assert(seq![none, none].drop_last() =~= seq![none]);
    assert(seq![none].drop_last() =~= Seq::<Seq<u8>>::empty());
    reveal_with_fuel(parts_of_pieces, 3);
    assert(parts(path) =~= seq![Part::Root]);
}

// ------------------------------------------------------------------- joining

/// Joining adds what the joined piece stands for.
proof fn lemma_join_adds_a_piece(base: Seq<u8>, name: Seq<u8>)
    requires
        name.len() > 0,
        !name.contains(47u8),
    ensures
        parts(joined(base, name)) == parts(base) + part_of_piece(name, base.len() == 0),
{
    assert(!is_absolute(name)) by {
        if is_absolute(name) {
            assert(name[0] == 47);
        }
    }
    let pieces = text::split_on(base, 47u8);
    text::lemma_split_not_empty(base, 47u8);
    let whole = joined(base, name);
    if base.len() == 0 || base.last() == 47 {
        text::lemma_split_extend(base, name, 47u8);
        assert(pieces.last() + name =~= name);
        assert(text::split_on(whole, 47u8) == pieces.drop_last().push(name));
        assert(pieces.drop_last().push(name).drop_last() =~= pieces.drop_last());
        assert(part_of_piece(pieces.last(), !is_absolute(base) && pieces.len() == 1) =~= Seq::<
            Part,
        >::empty());
        assert(parts(base) =~= parts_of_pieces(pieces.drop_last(), is_absolute(base)));
        if base.len() == 0 {
            assert(whole =~= name);
            assert(pieces.drop_last() =~= Seq::<Seq<u8>>::empty());
        } else {
            assert(whole[0] == base[0]);
            text::lemma_split_not_empty(base.drop_last(), 47u8);
            assert(pieces.len() >= 2);
        }
    } else {
        let open = base + seq![47u8];
        assert(open.drop_last() =~= base);
        assert(text::split_on(open, 47u8) == pieces.push(Seq::empty()));
        text::lemma_split_extend(open, name, 47u8);
        assert(Seq::<u8>::empty() + name =~= name);
        assert(pieces.push(Seq::empty()).drop_last() =~= pieces);
        assert(text::split_on(whole, 47u8) == pieces.push(name));
        assert(pieces.push(name).drop_last() =~= pieces);
        assert(whole[0] == base[0]);
    }
    assert(parts(whole) =~= parts(base) + part_of_piece(name, base.len() == 0));
}

/// Joining a plain name to a directory adds one component.
pub proof fn law_join_adds_a_name(base: Seq<u8>, name: Seq<u8>)
    requires
        is_plain_name(name),
    ensures
        parts(joined(base, name)) == parts(base).push(Part::Name(name)),
{
    lemma_join_adds_a_piece(base, name);
    assert(parts(joined(base, name)) =~= parts(base).push(Part::Name(name)));
}

/// No components stand for the empty path, and `/`, `.` and `..` alone are one
/// each. Behind a directory a slash or a `.` changes nothing, and `..` is a
/// component of its own.
pub proof fn law_dots_and_slashes(base: Seq<u8>)
    ensures
        parts(Seq::empty()) == Seq::<Part>::empty(),
        parts(seq![47u8]) == seq![Part::Root],
        parts(seq![46u8]) == seq![Part::Current],
        parts(seq![46u8, 46u8]) == seq![Part::Parent],
        base.len() > 0 ==> parts(base.push(47u8)) == parts(base),
        base.len() > 0 ==> parts(joined(base, seq![46u8])) == parts(base),
        base.len() > 0 ==> parts(joined(base, seq![46u8, 46u8])) == parts(base).push(Part::Parent),
{
    let none = Seq::<u8>::empty();
    lemma_parts_of_root();
    assert(text::split_on(none, 47u8) =~= seq![none]);
    assert(seq![none].drop_last() =~= Seq::<Seq<u8>>::empty());
    assert(parts(none) =~= Seq::<Part>::empty()) by {
        reveal_with_fuel(parts_of_pieces, 2);
    }
    lemma_join_adds_a_piece(none, seq![46u8]);
    lemma_join_adds_a_piece(none, seq![46u8, 46u8]);
    assert(none + seq![46u8] =~= seq![46u8]);
    assert(none + seq![46u8, 46u8] =~= seq![46u8, 46u8]);
    assert(parts(seq![46u8]) =~= seq![Part::Current]);
    assert(seq![46u8, 46u8] != seq![46u8]) by {
        assert(seq![46u8, 46u8].len() != seq![46u8].len());
    }
    assert(parts(seq![46u8, 46u8]) =~= seq![Part::Parent]);
    if base.len() > 0 {
        let pieces = text::split_on(base, 47u8);
        let longer = base.push(47u8);
        assert(longer.drop_last() =~= base);
        assert(text::split_on(longer, 47u8) == pieces.push(none));
        assert(pieces.push(none).drop_last() =~= pieces);
        assert(longer[0] == base[0]);
        assert(parts(longer) =~= parts(base));
        lemma_join_adds_a_piece(base, seq![46u8]);
        lemma_join_adds_a_piece(base, seq![46u8, 46u8]);
        assert(parts(joined(base, seq![46u8])) =~= parts(base));
        assert(parts(joined(base, seq![46u8, 46u8])) =~= parts(base).push(Part::Parent));
    }
}

/// An absolute name stands for itself wherever it is looked up. Any other one
/// goes behind the directory, with one slash between them unless the directory
/// is empty or brings one.
pub proof fn law_joining(base: Seq<u8>, name: Seq<u8>)
    ensures
        name.len() > 0 && name[0] == 47 ==> joined(base, name) == name,
        !(name.len() > 0 && name[0] == 47) ==> {
            let gap: int = if base.len() == 0 || base.last() == 47 {
                0
            } else {
                1
            };
            &&& joined(base, name).len() == base.len() + gap + name.len()
            &&& joined(base, name).take(base.len() as int) == base
            &&& joined(base, name).skip(base.len() + gap) == name
            &&& gap == 1 ==> joined(base, name)[base.len() as int] == 47
        },
{
    let gap: int = if base.len() == 0 || base.last() == 47 {
        0
    } else {
        1
    };
    if !(name.len() > 0 && name[0] == 47) {
        assert(joined(base, name).take(base.len() as int) =~= base);
        assert(joined(base, name).skip(base.len() + gap) =~= name);
    }
}

/// A path ends in the name that was joined last; the root directory, `.` and
/// `..` are no names.
pub proof fn law_last_names(base: Seq<u8>, name: Seq<u8>, path: Seq<u8>)
    ensures
        is_plain_name(name) ==> last_name(joined(base, name)) == Some(name),
        last_name(Seq::empty()) is None,
        last_name(seq![47u8]) is None,
        last_name(seq![46u8]) is None,
        last_name(joined(base, seq![46u8, 46u8])) is None,
        last_name(path) is Some <==> parts(path).len() > 0 && parts(path).last() is Name,
        last_name(path) is Some ==> parts(path).last() == Part::Name(last_name(path)->0),
{
    law_dots_and_slashes(base);
    if is_plain_name(name) {
        law_join_adds_a_name(base, name);
    }
    if base.len() == 0 {
        assert(base =~= Seq::empty());
        assert(base + seq![46u8, 46u8] =~= seq![46u8, 46u8]);
    }
}

/// A path lies beneath a root when the root's components are the first of its
/// own, and strictly beneath when there are more.
pub proof fn law_lying_beneath(path: Seq<u8>, root: Seq<u8>)
    ensures
        is_beneath(path, root) <==> parts(root).len() <= parts(path).len() && forall|k: int|
            0 <= k < parts(root).len() ==> parts(root)[k] == #[trigger] parts(path)[k],
        is_inside(path, root) <==> parts(root).len() < parts(path).len() && forall|k: int|
            0 <= k < parts(root).len() ==> parts(root)[k] == #[trigger] parts(path)[k],
{
    let (whole, start) = (parts(path), parts(root));
    if is_beneath(path, root) {
        assert(start =~= whole.subrange(0, start.len() as int));
        assert forall|k: int| 0 <= k < start.len() implies start[k] == #[trigger] whole[k] by {
            assert(start[k] == whole.subrange(0, start.len() as int)[k]);
        }
        if start.len() == whole.len() {
            assert(start =~= whole);
        }
    }
    if start.len() <= whole.len() && forall|k: int|
        0 <= k < start.len() ==> start[k] == #[trigger] whole[k] {
        assert(start =~= whole.subrange(0, start.len() as int));
    }
}

/// What is joined to a directory lies strictly beneath it, and the directory
/// does not lie beneath what is joined to it.
pub proof fn law_joined_names_lie_inside(base: Seq<u8>, name: Seq<u8>)
    requires
        is_plain_name(name),
    ensures
        is_inside(joined(base, name), base),
        !is_beneath(base, joined(base, name)),
        is_beneath(base, base),
        !is_inside(base, base),
{
    law_join_adds_a_name(base, name);
    law_lying_beneath(joined(base, name), base);
    law_lying_beneath(base, joined(base, name));
    law_lying_beneath(base, base);
}

/// The first byte in which two names differ decides their order; a name comes
/// after every start of it.
pub proof fn law_name_order(left: Seq<u8>, right: Seq<u8>, same: int)
    requires
        0 <= same <= left.len(),
        same <= right.len(),
        left.take(same) == right.take(same),
        same < left.len() && same < right.len() ==> left[same] != right[same],
    ensures
        same < left.len() && same < right.len() ==> bytes_before(left, right) == (left[same]
            < right[same]),
        same == left.len() ==> bytes_before(left, right) == (same < right.len()),
        same == right.len() ==> !bytes_before(left, right),
    decreases same,
{
    if same > 0 {
        assert(left[0] == left.take(same)[0]);
        assert(right[0] == right.take(same)[0]);
        let (l, r) = (left.drop_first(), right.drop_first());
        assert(l.take(same - 1) =~= left.take(same).drop_first());
        assert(r.take(same - 1) =~= right.take(same).drop_first());
        law_name_order(l, r, same - 1);
    }
}

/// The root directory comes before `.`, which comes before `..`, which comes
/// before every name; names are in the order of their bytes.
pub proof fn law_component_order(left: Seq<u8>, right: Seq<u8>)
    ensures
        part_before(Part::Root, Part::Current) && part_before(Part::Current, Part::Parent)
            && part_before(Part::Parent, Part::Name(left)),
        part_before(Part::Root, Part::Parent) && part_before(Part::Root, Part::Name(left))
            && part_before(Part::Current, Part::Name(left)),
        part_before(Part::Name(left), Part::Name(right)) == bytes_before(left, right),
{
}

/// The first component in which two paths differ decides their order; a path
/// comes after what it lies beneath.
pub proof fn law_path_order(left: Seq<Part>, right: Seq<Part>, same: int)
    requires
        0 <= same <= left.len(),
        same <= right.len(),
        left.take(same) == right.take(same),
        same < left.len() && same < right.len() ==> left[same] != right[same],
    ensures
        same < left.len() && same < right.len() ==> parts_before(left, right) == part_before(
            left[same],
            right[same],
        ),
        same == left.len() ==> parts_before(left, right) == (same < right.len()),
        same == right.len() ==> !parts_before(left, right),
    decreases same,
{
    if same > 0 {
        assert(left[0] == left.take(same)[0]);
        assert(right[0] == right.take(same)[0]);
        let (l, r) = (left.drop_first(), right.drop_first());
        assert(l.take(same - 1) =~= left.take(same).drop_first());
        assert(r.take(same - 1) =~= right.take(same).drop_first());
        law_path_order(l, r, same - 1);
    }
}

// ---------------------------------------------------------------- computing

/// One step of a path, in memory.
pub enum Component {
    /// The root directory.
    Root,
    /// A leading `.` of a relative path.
    Current,
    /// A `..`.
    Parent,
    /// The name of an entry.
    Name(Vec<u8>),
}

impl View for Component {
    type V = Part;

    open spec fn view(&self) -> Part {
        match self {
            Component::Root => Part::Root,
            Component::Current => Part::Current,
            Component::Parent => Part::Parent,
            Component::Name(name) => Part::Name(name@),
        }
    }
}

/// The components of a path as the model has them.
pub open spec fn views(components: Seq<Component>) -> Seq<Part> {
    components.map_values(|component: Component| component@)
}

/// How two values relate in an order.
#[derive(Clone, Copy, Debug, PartialEq, Eq, Structural)]
pub enum Relation {
    Before,
    Same,
    After,
}

/// Whether two byte sequences are equal.
pub fn bytes_equal(left: &[u8], right: &[u8]) -> (equal: bool)
    ensures
        equal == (left@ == right@),
{
    if left.len() != right.len() {
        return false;
    }
    for i in 0..left.len()
        invariant
            left@.len() == right@.len(),
            left@.take(i as int) == right@.take(i as int),
    {
        if left[i] != right[i] {
            return false;
        }
        assert(left@.take(i + 1) =~= left@.take(i as int).push(left@[i as int]));
        assert(right@.take(i + 1) =~= right@.take(i as int).push(right@[i as int]));
    }
    assert(left@.take(left@.len() as int) =~= left@);
    assert(right@.take(right@.len() as int) =~= right@);
    true
}

/// A copy of `bytes`.
pub fn copy_bytes(bytes: &[u8]) -> (copy: Vec<u8>)
    ensures
        copy@ == bytes@,
{
    let mut copy: Vec<u8> = Vec::new();
    for i in 0..bytes.len()
        invariant
            copy@ == bytes@.take(i as int),
    {
        copy.push(bytes[i]);
        assert(copy@ =~= bytes@.take(i + 1));
    }
    assert(bytes@.take(bytes@.len() as int) =~= bytes@);
    copy
}

/// Appends what `piece` stands for.
fn push_piece(components: &mut Vec<Component>, piece: Vec<u8>, leading: bool)
    ensures
        views(final(components)@) == views(old(components)@) + part_of_piece(piece@, leading),
{
    let ghost before = components@;
    if piece.len() == 1 && piece[0] == 46 {
        assert(piece@ =~= seq![46u8]);
        if leading {
            components.push(Component::Current);
        }
    } else if piece.len() == 2 && piece[0] == 46 && piece[1] == 46 {
        assert(piece@ =~= seq![46u8, 46u8]);
        components.push(Component::Parent);
    } else if piece.len() > 0 {
        assert(piece@ != seq![46u8]);
        assert(piece@ != seq![46u8, 46u8]);
        components.push(Component::Name(piece));
    }
    assert(views(components@) =~= views(before) + part_of_piece(piece@, leading));
}

/// Copies paths.
pub fn copy_all(paths: &Vec<Vec<u8>>) -> (copies: Vec<Vec<u8>>)
    ensures
        all_bytes(copies@) == all_bytes(paths@),
{
    let mut copies: Vec<Vec<u8>> = Vec::new();
    for i in 0..paths.len()
        invariant
            copies@.len() == i,
            forall|k: int| 0 <= k < i ==> (#[trigger] copies@[k])@ == paths@[k]@,
    {
        copies.push(copy_bytes(&paths[i]));
    }
    assert(all_bytes(copies@) =~= all_bytes(paths@));
    copies
}

/// Splits `path` into its components.
pub fn components(path: &[u8]) -> (components: Vec<Component>)
    ensures
        views(components@) == parts(path@),
{
    let absolute: bool = path.len() > 0 && path[0] == 47;
    let mut components: Vec<Component> = Vec::new();
    if absolute {
        components.push(Component::Root);
    }
    let mut piece: Vec<u8> = Vec::new();
    let mut first: bool = true;
    let ghost mut pieces = text::split_on(path@.take(0), 47u8);
    assert(pieces.drop_last() =~= Seq::<Seq<u8>>::empty());
    assert(views(components@) =~= parts_of_pieces(pieces.drop_last(), absolute));
    for i in 0..path.len()
        invariant
            absolute == is_absolute(path@),
            pieces == text::split_on(path@.take(i as int), 47u8),
            pieces.len() >= 1,
            first == (pieces.len() == 1),
            piece@ == pieces.last(),
            views(components@) == parts_of_pieces(pieces.drop_last(), absolute),
    {
        let byte: u8 = path[i];
        let ghost before = pieces;
        proof {
            assert(path@.take(i + 1).drop_last() =~= path@.take(i as int));
            pieces = text::split_on(path@.take(i + 1), 47u8);
        }
        if byte == 47 {
            push_piece(&mut components, piece, !absolute && first);
            piece = Vec::new();
            first = false;
            assert(pieces.drop_last() =~= before);
        } else {
            piece.push(byte);
            assert(pieces.drop_last() =~= before.drop_last());
        }
    }
    assert(path@.take(path@.len() as int) =~= path@);
    push_piece(&mut components, piece, !absolute && first);
    components
}

/// Compares two byte sequences.
pub fn order_bytes(left: &Vec<u8>, right: &Vec<u8>) -> (relation: Relation)
    ensures
        relation == Relation::Before <==> bytes_before(left@, right@),
        relation == Relation::Same <==> left@ == right@,
        relation == Relation::After <==> bytes_before(right@, left@),
{
    let mut i: usize = 0;
    assert(left@.skip(0) =~= left@);
    assert(right@.skip(0) =~= right@);
    proof {
        lemma_bytes_order(left@, right@);
    }
    while i < left.len() && i < right.len() && left[i] == right[i]
        invariant
            i <= left@.len(),
            i <= right@.len(),
            left@.take(i as int) == right@.take(i as int),
            bytes_before(left@, right@) == bytes_before(left@.skip(i as int), right@.skip(i as int)),
            bytes_before(right@, left@) == bytes_before(right@.skip(i as int), left@.skip(i as int)),
        decreases left@.len() - i,
    {
        assert(left@.skip(i as int).drop_first() =~= left@.skip(i + 1));
        assert(right@.skip(i as int).drop_first() =~= right@.skip(i + 1));
        assert(left@.take(i + 1) =~= left@.take(i as int).push(left@[i as int]));
        assert(right@.take(i + 1) =~= right@.take(i as int).push(right@[i as int]));
        i = i + 1;
    }
    if i == left.len() && i == right.len() {
        assert(left@.take(i as int) =~= left@);
        assert(right@.take(i as int) =~= right@);
        Relation::Same
    } else if i == left.len() {
        Relation::Before
    } else if i == right.len() {
        Relation::After
    } else if left[i] < right[i] {
        Relation::Before
    } else {
        Relation::After
    }
}

/// The rank of a component among the kinds of components.
fn rank(component: &Component) -> (rank: u8)
    ensures
        rank == part_rank(component@),
{
    match component {
        Component::Root => 0,
        Component::Current => 1,
        Component::Parent => 2,
        Component::Name(_) => 3,
    }
}

/// Compares two components.
fn order_component(left: &Component, right: &Component) -> (relation: Relation)
    ensures
        relation == Relation::Before <==> part_before(left@, right@),
        relation == Relation::Same <==> left@ == right@,
        relation == Relation::After <==> part_before(right@, left@),
{
    if let (Component::Name(l), Component::Name(r)) = (left, right) {
        return order_bytes(l, r);
    }
    let l: u8 = rank(left);
    let r: u8 = rank(right);
    if l < r {
        Relation::Before
    } else if r < l {
        Relation::After
    } else {
        Relation::Same
    }
}

/// Compares two paths by their components.
pub fn order_paths(left: &Vec<Component>, right: &Vec<Component>) -> (relation: Relation)
    ensures
        relation == Relation::Before <==> parts_before(views(left@), views(right@)),
        relation == Relation::Same <==> views(left@) == views(right@),
        relation == Relation::After <==> parts_before(views(right@), views(left@)),
{
    let ghost l = views(left@);
    let ghost r = views(right@);
    let mut i: usize = 0;
    assert(l.skip(0) =~= l);
    assert(r.skip(0) =~= r);
    proof {
        law_path_order_is_total(l, r);
    }
    while i < left.len() && i < right.len()
        invariant
            i <= left@.len(),
            i <= right@.len(),
            l == views(left@),
            r == views(right@),
            l != r ==> parts_before(l, r) || parts_before(r, l),
            !(parts_before(l, r) && parts_before(r, l)),
            !parts_before(l, l),
            l.take(i as int) == r.take(i as int),
            parts_before(l, r) == parts_before(l.skip(i as int), r.skip(i as int)),
            parts_before(r, l) == parts_before(r.skip(i as int), l.skip(i as int)),
        decreases left@.len() - i,
    {
        let relation: Relation = order_component(&left[i], &right[i]);
        assert(l[i as int] == left@[i as int]@);
        assert(r[i as int] == right@[i as int]@);
        proof {
            lemma_part_order(l[i as int], r[i as int]);
        }
        if relation != Relation::Same {
            return relation;
        }
        assert(l.skip(i as int).drop_first() =~= l.skip(i + 1));
        assert(r.skip(i as int).drop_first() =~= r.skip(i + 1));
        assert(l.take(i + 1) =~= l.take(i as int).push(l[i as int]));
        assert(r.take(i + 1) =~= r.take(i as int).push(r[i as int]));
        i = i + 1;
    }
    if i == left.len() && i == right.len() {
        assert(l.take(i as int) =~= l);
        assert(r.take(i as int) =~= r);
        Relation::Same
    } else if i == left.len() {
        Relation::Before
    } else {
        Relation::After
    }
}

/// Whether two spellings name the same path.
pub fn same_path(left: &[u8], right: &[u8]) -> (same: bool)
    ensures
        same == (parts(left@) == parts(right@)),
{
    let l: Vec<Component> = components(left);
    let r: Vec<Component> = components(right);
    order_paths(&l, &r) == Relation::Same
}

/// Whether `path` is `root` or lies beneath it.
pub fn beneath(path: &[u8], root: &[u8]) -> (found: bool)
    ensures
        found == is_beneath(path@, root@),
{
    let mut whole: Vec<Component> = components(path);
    let start: Vec<Component> = components(root);
    let ghost all = views(whole@);
    if whole.len() < start.len() {
        return false;
    }
    whole.truncate(start.len());
    assert(views(whole@) =~= all.take(start@.len() as int));
    proof {
        if views(start@).is_prefix_of(all) {
            assert(views(start@) =~= all.take(start@.len() as int));
        }
    }
    order_paths(&whole, &start) == Relation::Same
}

/// Whether `path` lies strictly beneath `root`.
pub fn inside(path: &[u8], root: &[u8]) -> (found: bool)
    ensures
        found == is_inside(path@, root@),
{
    beneath(path, root) && !same_path(path, root)
}

/// The name of the entry that `path` ends in, if it ends in one.
pub fn file_name(path: &[u8]) -> (name: Option<Vec<u8>>)
    ensures
        match name {
            Some(bytes) => last_name(path@) == Some(bytes@),
            None => last_name(path@) is None,
        },
{
    let mut steps: Vec<Component> = components(path);
    assert(views(steps@) == parts(path@));
    let ghost before = steps@;
    match steps.pop() {
        Some(last) => {
            assert(views(before).last() == before.last()@);
            match last {
                Component::Name(name) => Some(name),
                _ => None,
            }
        },
        None => None,
    }
}

/// Looks `name` up in the directory `base`.
pub fn join(base: &[u8], name: &[u8]) -> (path: Vec<u8>)
    ensures
        path@ == joined(base@, name@),
{
    if name.len() > 0 && name[0] == 47 {
        return copy_bytes(name);
    }
    let mut path: Vec<u8> = copy_bytes(base);
    if base.len() > 0 && base[base.len() - 1] != 47 {
        path.push(47);
    }
    let mut rest: Vec<u8> = copy_bytes(name);
    path.append(&mut rest);
    assert(path@ =~= joined(base@, name@));
    path
}

/// The text that stands for bytes which need not be UTF-8.
pub uninterp spec fn lossy_text(bytes: Seq<u8>) -> Seq<char>;

/// Calls `String::from_utf8_lossy`. Claimed of it: the text is determined by
/// the bytes, and bytes that are UTF-8 give the text that they encode. How
/// other bytes are replaced is left to the name `lossy_text`.
#[verifier::external_body]
pub(crate) fn display(path: &[u8]) -> (text: String)
    ensures
        text@ == lossy_text(path@),
        valid_utf8(path@) ==> text@ == decode_utf8(path@),
{
    String::from_utf8_lossy(path).into_owned()
}

/// Paths are seen as the bytes that they are made of.
pub proof fn law_paths_are_seen_as_they_are(
    path: Vec<u8>,
    paths: Seq<Vec<u8>>,
    found: Seq<Option<Vec<u8>>>,
    i: int,
)
    ensures
        optional_bytes(Some(path)) == Some(path@),
        optional_bytes(None) is None,
        all_bytes(paths).len() == paths.len(),
        0 <= i < paths.len() ==> all_bytes(paths)[i] == paths[i]@,
        all_optional_bytes(found).len() == found.len(),
        0 <= i < found.len() && found[i] is Some ==> all_optional_bytes(found)[i] == Some(
            found[i]->0@,
        ),
        0 <= i < found.len() && found[i] is None ==> all_optional_bytes(found)[i] is None,
{
}

/// Components are seen as the parts that they are.
pub proof fn law_components_are_seen_as_they_are(
    name: Vec<u8>,
    components: Seq<Component>,
    i: int,
)
    ensures
        Component::Root@ == Part::Root,
        Component::Current@ == Part::Current,
        Component::Parent@ == Part::Parent,
        Component::Name(name)@ == Part::Name(name@),
        views(components).len() == components.len(),
        0 <= i < components.len() ==> views(components)[i] == components[i]@,
{
}

} // verus!
