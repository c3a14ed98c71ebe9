//! A set of paths, in which two spellings of one path are the same.

use vstd::prelude::*;
use vstd::seq_lib::*;

use crate::path;
use crate::path::{Component, Part, Relation};

verus! {

/// A set of paths. The paths are held in order, so that one is found by
/// halving.
pub struct PathSet {
    items: Vec<Vec<Component>>,
}

/// The components of each item.
spec fn paths(items: Seq<Vec<Component>>) -> Seq<Seq<Part>> {
    items.map_values(|item: Vec<Component>| path::views(item@))
}

/// Whether each path comes before all that follow it.
spec fn in_order(all: Seq<Seq<Part>>) -> bool {
    forall|i: int, j: int|
        0 <= i < j < all.len() ==> path::parts_before(#[trigger] all[i], #[trigger] all[j])
}

impl View for PathSet {
    type V = Set<Seq<Part>>;

    closed spec fn view(&self) -> Set<Seq<Part>> {
        paths(self.items@).to_set()
    }
}

/// Where a path is, or where it belongs.
struct Place {
    index: usize,
    found: bool,
}

impl PathSet {
    /// Whether the paths are in order, and so none is held twice.
    pub closed spec fn wf(&self) -> bool {
        in_order(paths(self.items@))
    }

    /// The empty set.
    pub fn new() -> (set: PathSet)
        ensures
            set.wf(),
            set@ == Set::<Seq<Part>>::empty(),
    {
        let set: PathSet = PathSet { items: Vec::new() };
        assert(set@ =~= Set::empty());
        set
    }

    /// Finds a path in the list of items, or where to put it.
    fn search(&self, wanted: &Vec<Component>) -> (place: Place)
        requires
            self.wf(),
        ensures
            place.index <= self.items@.len(),
            place.found == self@.contains(path::views(wanted@)),
            place.found ==> place.index < self.items@.len() && paths(
                self.items@,
            )[place.index as int] == path::views(wanted@),
            forall|k: int|
                0 <= k < place.index ==> path::parts_before(
                    #[trigger] paths(self.items@)[k],
                    path::views(wanted@),
                ),
            !place.found ==> forall|k: int|
                place.index <= k < self.items@.len() ==> path::parts_before(
                    path::views(wanted@),
                    #[trigger] paths(self.items@)[k],
                ),
    {
        let ghost all = paths(self.items@);
        let ghost sought = path::views(wanted@);
        let mut low: usize = 0;
        let mut high: usize = self.items.len();
        while low < high
            invariant
                self.wf(),
                all == paths(self.items@),
                sought == path::views(wanted@),
                low <= high <= all.len(),
                forall|k: int| 0 <= k < low ==> path::parts_before(#[trigger] all[k], sought),
                forall|k: int|
                    high <= k < all.len() ==> path::parts_before(sought, #[trigger] all[k]),
            decreases high - low,
        {
            let middle: usize = low + (high - low) / 2;
            assert(all[middle as int] == path::views(self.items@[middle as int]@));
            match path::order_paths(&self.items[middle], wanted) {
                Relation::Same => {
                    assert(all.contains(sought));
                    return Place { index: middle, found: true };
                },
                Relation::Before => {
                    proof {
                        assert forall|k: int| 0 <= k < middle + 1 implies path::parts_before(
                            #[trigger] all[k],
                            sought,
                        ) by {
                            if k < middle {
                                path::law_path_order_is_transitive(
                                    all[k],
                                    all[middle as int],
                                    sought,
                                );
                            }
                        }
                    }
                    low = middle + 1;
                },
                Relation::After => {
                    proof {
                        assert forall|k: int| middle <= k < all.len() implies path::parts_before(
                            sought,
                            #[trigger] all[k],
                        ) by {
                            if k > middle {
                                path::law_path_order_is_transitive(
                                    sought,
                                    all[middle as int],
                                    all[k],
                                );
                            }
                        }
                    }
                    high = middle;
                },
            }
        }
        proof {
            path::law_path_order_is_total(sought, sought);
            if all.contains(sought) {
                let k = choose|k: int| 0 <= k < all.len() && all[k] == sought;
                assert(path::parts_before(all[k], sought) || path::parts_before(sought, all[k]));
            }
        }
        Place { index: low, found: false }
    }

    /// Whether the set holds a path.
    pub fn contains(&self, path: &[u8]) -> (found: bool)
        requires
            self.wf(),
        ensures
            found == self@.contains(path::parts(path@)),
    {
        self.search(&path::components(path)).found
    }

    /// The number of paths in the set.
    pub fn len(&self) -> (count: usize)
        requires
            self.wf(),
        ensures
            count == self@.len(),
            self@.finite(),
    {
        proof {
            let all = paths(self.items@);
            assert forall|i: int, j: int| 0 <= i < all.len() && 0 <= j < all.len() && i != j implies all[i]
                != all[j] by {
                path::law_path_order_is_total(all[i], all[j]);
                assert(path::parts_before(all[i], all[j]) || path::parts_before(all[j], all[i]));
            }
            all.unique_seq_to_set();
            seq_to_set_is_finite(all);
        }
        self.items.len()
    }

    /// Removes all paths.
    pub fn clear(&mut self)
        ensures
            final(self).wf(),
            final(self)@ == Set::<Seq<Part>>::empty(),
    {
        self.items.clear();
        assert(self@ =~= Set::empty());
    }

    /// Adds a path.
    pub fn insert(&mut self, path: &[u8])
        requires
            old(self).wf(),
        ensures
            final(self).wf(),
            final(self)@ == old(self)@.insert(path::parts(path@)),
    {
        let wanted: Vec<Component> = path::components(path);
        let place: Place = self.search(&wanted);
        if place.found {
            assert(self@ =~= self@.insert(path::parts(path@)));
        } else {
            self.put(place.index, wanted);
        }
    }

    /// Adds a path at the place where it belongs.
    fn put(&mut self, index: usize, wanted: Vec<Component>)
        requires
            old(self).wf(),
            index <= old(self).items@.len(),
            forall|k: int|
                0 <= k < index ==> path::parts_before(
                    #[trigger] paths(old(self).items@)[k],
                    path::views(wanted@),
                ),
            forall|k: int|
                index <= k < old(self).items@.len() ==> path::parts_before(
                    path::views(wanted@),
                    #[trigger] paths(old(self).items@)[k],
                ),
        ensures
            final(self).wf(),
            final(self)@ == old(self)@.insert(path::views(wanted@)),
    {
        let ghost before = paths(self.items@);
        let ghost added = path::views(wanted@);
        self.items.insert(index, wanted);
        let ghost after = paths(self.items@);
        assert(after =~= before.insert(index as int, added));
        assert forall|p: Seq<Part>| after.contains(p) <==> before.contains(p) || p == added by {
            if before.contains(p) {
                let k = choose|k: int| 0 <= k < before.len() && before[k] == p;
                if k < index {
                    assert(after[k] == p);
                } else {
                    assert(after[k + 1] == p);
                }
            }
            if p == added {
                assert(after[index as int] == p);
            }
            if after.contains(p) {
                let k = choose|k: int| 0 <= k < after.len() && after[k] == p;
                if k < index {
                    assert(before[k] == p);
                } else if k > index {
                    assert(before[k - 1] == p);
                }
            }
        }
        assert(self@ =~= old(self)@.insert(added));
        assert forall|i: int, j: int| 0 <= i < j < after.len() implies path::parts_before(
            #[trigger] after[i],
            #[trigger] after[j],
        ) by {
            if j < index {
                assert(path::parts_before(before[i], before[j]));
            } else if j == index {
                assert(after[i] == before[i]);
            } else if i < index {
                assert(path::parts_before(before[i], before[j - 1]));
            } else if i == index {
                assert(after[j] == before[j - 1]);
            } else {
                assert(path::parts_before(before[i - 1], before[j - 1]));
            }
        }
    }

    /// Adds a path that is not in the set, and removes one that is.
    pub fn toggle(&mut self, path: &[u8])
        requires
            old(self).wf(),
        ensures
            final(self).wf(),
            final(self)@ == (if old(self)@.contains(path::parts(path@)) {
                old(self)@.remove(path::parts(path@))
            } else {
                old(self)@.insert(path::parts(path@))
            }),
    {
        let wanted: Vec<Component> = path::components(path);
        let place: Place = self.search(&wanted);
        if place.found {
            self.take_out(place.index);
        } else {
            self.put(place.index, wanted);
        }
    }

    /// Removes the path at a place.
    fn take_out(&mut self, index: usize)
        requires
            old(self).wf(),
            index < old(self).items@.len(),
        ensures
            final(self).wf(),
            final(self)@ == old(self)@.remove(paths(old(self).items@)[index as int]),
    {
        let ghost before = paths(self.items@);
        let ghost gone = before[index as int];
        self.items.remove(index);
        let ghost after = paths(self.items@);
        assert(after =~= before.remove(index as int));
        assert forall|p: Seq<Part>| after.contains(p) <==> before.contains(p) && p != gone by {
            path::law_path_order_is_total(gone, gone);
            if before.contains(p) && p != gone {
                let k = choose|k: int| 0 <= k < before.len() && before[k] == p;
                if k < index {
                    assert(after[k] == p);
                } else {
                    assert(after[k - 1] == p);
                }
            }
            if after.contains(p) {
                let k = choose|k: int| 0 <= k < after.len() && after[k] == p;
                if k < index {
                    assert(before[k] == p);
                    assert(path::parts_before(before[k], gone));
                } else {
                    assert(before[k + 1] == p);
                    assert(path::parts_before(gone, before[k + 1]));
                }
            }
        }
        assert(self@ =~= old(self)@.remove(gone));
        assert forall|i: int, j: int| 0 <= i < j < after.len() implies path::parts_before(
            #[trigger] after[i],
            #[trigger] after[j],
        ) by {
            let from = if i < index {
                i
            } else {
                i + 1
            };
            let to = if j < index {
                j
            } else {
                j + 1
            };
            assert(path::parts_before(before[from], before[to]));
        }
    }
}

} // verus!
