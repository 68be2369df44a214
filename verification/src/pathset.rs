//! Sets and sorted lists of paths.

use vstd::prelude::*;

use crate::order;
use crate::order::{sort, Ranked};
use crate::path;
use crate::path::FilePath;

verus! {

/// Each path comes before every later one, so none occurs twice.
pub open spec fn is_ascending(views: Seq<Seq<path::PartView>>) -> bool {
    forall|i: int, j: int|
        0 <= i < j < views.len() ==> path::path_before(#[trigger] views[i], #[trigger] views[j])
}

/// A set of paths.
pub struct PathSet {
    paths: Vec<FilePath>,
}

impl View for PathSet {
    type V = Set<Seq<path::PartView>>;

    closed spec fn view(&self) -> Set<Seq<path::PartView>> {
        path::path_views(self.paths@).to_set()
    }
}

/// Where a path stands, or would stand, in an ascending list.
fn position(paths: &Vec<FilePath>, path: &FilePath) -> (res: (usize, bool))
    requires
        is_ascending(path::path_views(paths@)),
    ensures
        res.0 <= paths.len(),
        res.1 ==> res.0 < paths.len() && paths@[res.0 as int]@ == path@,
        forall|i: int| 0 <= i < res.0 ==> path::path_before((#[trigger] paths@[i])@, path@),
        !res.1 ==> forall|i: int|
            res.0 <= i < paths.len() ==> path::path_before(path@, (#[trigger] paths@[i])@),
        res.1 == path::path_views(paths@).contains(path@),
{
    let mut low: usize = 0;
    let mut high = paths.len();
    let ghost less = order::lexical_order(path::part_order());
    let ghost views = path::path_views(paths@);
    proof {
        path::law_path_order_is_strict();
    }
    while low < high
        invariant
            low <= high <= paths.len(),
            views == path::path_views(paths@),
            is_ascending(views),
            less == order::lexical_order(path::part_order()),
            order::is_strict_order(less),
            forall|i: int| 0 <= i < low ==> path::path_before((#[trigger] paths@[i])@, path@),
            forall|i: int|
                high <= i < paths.len() ==> path::path_before(path@, (#[trigger] paths@[i])@),
        decreases high - low,
    {
        let mid = low + (high - low) / 2;
        if paths[mid].is_same(path) {
            assert forall|i: int| 0 <= i < mid implies path::path_before(
                (#[trigger] paths@[i])@,
                path@,
            ) by {
                assert(path::path_before(views[i], views[mid as int]));
            }
            assert(views[mid as int] == path@);
            return (mid, true);
        }
        if paths[mid].is_before(path) {
            assert forall|i: int| 0 <= i < mid + 1 implies path::path_before(
                (#[trigger] paths@[i])@,
                path@,
            ) by {
                if i < mid {
                    assert(path::path_before(views[i], views[mid as int]));
                    assert(less(views[i], views[mid as int]) && less(views[mid as int], path@));
                }
            }
            low = mid + 1;
        } else {
            assert(less(paths@[mid as int]@, path@) || less(path@, paths@[mid as int]@)
                || paths@[mid as int]@ == path@);
            assert forall|i: int| mid <= i < paths.len() implies path::path_before(
                path@,
                (#[trigger] paths@[i])@,
            ) by {
                if i > mid {
                    assert(path::path_before(views[mid as int], views[i]));
                    assert(less(path@, views[mid as int]) && less(views[mid as int], views[i]));
                }
            }
            high = mid;
        }
    }
    proof {
        if views.contains(path@) {
            let i = choose|i: int| 0 <= i < views.len() && views[i] == path@;
            assert(paths@[i]@ == path@);
            assert(!less(path@, path@));
        }
    }
    (low, false)
}

/// What a list holds after an item was appended.
pub(crate) proof fn lemma_push_contains<A>(list: Seq<A>, item: A, v: A)
    ensures
        list.push(item).contains(v) == (list.contains(v) || v == item),
{
    let after = list.push(item);
    if list.contains(v) {
        let k = choose|k: int| 0 <= k < list.len() && list[k] == v;
        assert(after[k] == v);
    }
    assert(after[list.len() as int] == item);
}

proof fn lemma_push_to_set<A>(list: Seq<A>, item: A)
    ensures
        list.push(item).to_set() == list.to_set().insert(item),
{
    let after = list.push(item);
    assert forall|v: A| after.to_set().contains(v) == list.to_set().insert(item).contains(v) by {
        lemma_push_contains(list, item, v);
    }
    assert(after.to_set() =~= list.to_set().insert(item));
}

impl PathSet {
    #[verifier::type_invariant]
    spec fn is_ordered(self) -> bool {
        is_ascending(path::path_views(self.paths@))
    }

    /// The empty set.
    pub fn new() -> (res: PathSet)
        ensures
            res@ == Set::<Seq<path::PartView>>::empty(),
    {
        let res = PathSet { paths: Vec::new() };
        assert(res@ =~= Set::empty());
        res
    }

    /// Whether a path is in the set.
    pub fn contains(&self, path: &FilePath) -> (res: bool)
        ensures
            res == self@.contains(path@),
    {
        proof {
            use_type_invariant(self);
        }
        position(&self.paths, path).1
    }

    /// Adds a path to the set.
    pub fn insert(&mut self, path: FilePath)
        ensures
            final(self)@ == old(self)@.insert(path@),
    {
        proof {
            use_type_invariant(&*self);
        }
        let (at, found) = position(&self.paths, &path);
        if found {
            assert(self@ =~= old(self)@.insert(path@));
            return ;
        }
        let mut paths: Vec<FilePath> = Vec::new();
        std::mem::swap(&mut paths, &mut self.paths);
        let ghost before = paths@;
        paths.insert(at, path);
        proof {
            let old_views = path::path_views(before);
            let views = path::path_views(paths@);
            assert forall|i: int, j: int| 0 <= i < j < views.len() implies path::path_before(
                #[trigger] views[i],
                #[trigger] views[j],
            ) by {
                if i != at && j != at {
                    let k = if i < at {
                        i
                    } else {
                        i - 1
                    };
                    let l = if j < at {
                        j
                    } else {
                        j - 1
                    };
                    assert(views[i] == old_views[k] && views[j] == old_views[l]);
                    assert(path::path_before(old_views[k], old_views[l]));
                } else if i == at {
                    assert(views[j] == before[j - 1]@);
                } else {
                    assert(views[i] == before[i]@);
                }
            }
            assert forall|v: Seq<path::PartView>| views.to_set().contains(v)
                == old_views.to_set().insert(path@).contains(v) by {
                if old_views.contains(v) {
                    let k = choose|k: int| 0 <= k < old_views.len() && old_views[k] == v;
                    if k < at {
                        assert(views[k] == v);
                    } else {
                        assert(views[k + 1] == v);
                    }
                }
                assert(views[at as int] == path@);
                if views.contains(v) && v != path@ {
                    let k = choose|k: int| 0 <= k < views.len() && views[k] == v;
                    if k < at {
                        assert(old_views[k] == v);
                    } else {
                        assert(old_views[k - 1] == v);
                    }
                }
            }
            assert(views.to_set() =~= old_views.to_set().insert(path@));
        }
        self.paths = paths;
    }

    /// Adds the paths of another set.
    pub fn absorb(&mut self, other: PathSet)
        ensures
            final(self)@ == old(self)@.union(other@),
    {
        let count = other.paths.len();
        let ghost views = path::path_views(other.paths@);
        let ghost before = self@;
        for i in 0..count
            invariant
                count == other.paths.len(),
                views == path::path_views(other.paths@),
                self@ == before.union(views.take(i as int).to_set()),
        {
            self.insert(other.paths[i].clone());
            proof {
                let seen = views.take(i as int);
                let after = views.take(i + 1);
                assert(after == seen.push(views[i as int]));
                lemma_push_to_set(seen, views[i as int]);
                assert(self@ =~= before.union(after.to_set()));
            }
        }
        assert(views.take(count as int) == views);
    }

    /// The set of the given paths.
    pub fn from_paths(paths: &Vec<FilePath>) -> (res: PathSet)
        ensures
            res@ == path::path_views(paths@).to_set(),
    {
        let mut res = PathSet::new();
        let count = paths.len();
        let ghost views = path::path_views(paths@);
        for i in 0..count
            invariant
                count == paths.len(),
                views == path::path_views(paths@),
                res@ == views.take(i as int).to_set(),
        {
            res.insert(paths[i].clone());
            proof {
                let before = views.take(i as int);
                let after = views.take(i + 1);
                assert(after == before.push(views[i as int]));
                lemma_push_to_set(before, views[i as int]);
            }
        }
        assert(views.take(count as int) == views);
        res
    }
}

proof fn lemma_same_items_same_views(a: Seq<FilePath>, b: Seq<FilePath>)
    requires
        a.to_multiset() == b.to_multiset(),
    ensures
        forall|v: Seq<path::PartView>|
            path::path_views(a).contains(v) <==> path::path_views(b).contains(v),
        a.len() == b.len(),
{
    a.to_multiset_ensures();
    b.to_multiset_ensures();
    assert forall|v: Seq<path::PartView>| path::path_views(a).contains(v) implies path::path_views(
        b,
    ).contains(v) by {
        let i = choose|i: int| 0 <= i < a.len() && path::path_views(a)[i] == v;
        assert(a.contains(a[i]));
        assert(a.to_multiset().count(a[i]) > 0);
        assert(b.contains(a[i]));
        let j = choose|j: int| 0 <= j < b.len() && b[j] == a[i];
        assert(path::path_views(b)[j] == v);
    }
    assert forall|v: Seq<path::PartView>| path::path_views(b).contains(v) implies path::path_views(
        a,
    ).contains(v) by {
        let i = choose|i: int| 0 <= i < b.len() && path::path_views(b)[i] == v;
        assert(b.contains(b[i]));
        assert(b.to_multiset().count(b[i]) > 0);
        assert(a.contains(b[i]));
        let j = choose|j: int| 0 <= j < a.len() && a[j] == b[i];
        assert(path::path_views(a)[j] == v);
    }
}

/// An ascending list is determined by the set of its paths.
pub proof fn law_ascending_is_unique(a: Seq<Seq<path::PartView>>, b: Seq<Seq<path::PartView>>)
    requires
        is_ascending(a),
        is_ascending(b),
        forall|v: Seq<path::PartView>| a.contains(v) <==> b.contains(v),
    ensures
        a == b,
{
    path::law_path_order_is_strict();
    let less = order::lexical_order(path::part_order());
    assert(order::is_ascending_by(a, less));
    assert(order::is_ascending_by(b, less));
    order::law_ascending_is_unique(a, b, less);
}

/// The paths in ascending order, each once.
pub fn sorted_unique(paths: Vec<FilePath>) -> (res: Vec<FilePath>)
    ensures
        is_ascending(path::path_views(res@)),
        forall|v: Seq<path::PartView>|
            path::path_views(res@).contains(v) <==> path::path_views(paths@).contains(v),
{
    let sorted = sort(paths);
    proof {
        lemma_same_items_same_views(sorted@, paths@);
        path::law_path_order_is_strict();
    }
    let ghost less = order::lexical_order(path::part_order());
    let mut res: Vec<FilePath> = Vec::new();
    let count = sorted.len();
    for i in 0..count
        invariant
            count == sorted.len(),
            order::is_sorted(sorted@),
            less == order::lexical_order(path::part_order()),
            order::is_strict_order(less),
            is_ascending(path::path_views(res@)),
            i > 0 ==> res.len() > 0 && res@.last()@ == sorted@[i - 1]@,
            i == 0 ==> res.len() == 0,
            forall|v: Seq<path::PartView>|
                path::path_views(res@).contains(v) <==> path::path_views(
                    sorted@.take(i as int),
                ).contains(v),
    {
        let ghost before = path::path_views(res@);
        let ghost seen = path::path_views(sorted@.take(i as int));
        let ghost all = path::path_views(sorted@.take(i + 1));
        let ghost next = sorted@[i as int]@;
        let last = res.len();
        let repeated = last > 0 && res[last - 1].is_same(&sorted[i]);
        if !repeated {
            proof {
                if i > 0 {
                    assert(!sorted@[i as int].ranks_before(sorted@[i - 1]));
                    assert(before.last() == sorted@[i - 1]@);
                    assert(less(before.last(), next) || less(next, before.last()) || before.last()
                        == next);
                }
            }
            res.push(sorted[i].clone());
            proof {
                let after = path::path_views(res@);
                assert(after =~= before.push(next));
                assert forall|k: int, l: int| 0 <= k < l < after.len() implies path::path_before(
                    #[trigger] after[k],
                    #[trigger] after[l],
                ) by {
                    if l == before.len() && k < before.len() - 1 {
                        assert(path::path_before(before[k], before[before.len() - 1]));
                        assert(less(before[k], before.last()) && less(before.last(), next));
                    } else if l < before.len() {
                        assert(path::path_before(before[k], before[l]));
                    }
                }
            }
        }
        proof {
            let after = path::path_views(res@);
            assert(all =~= seen.push(next));
            assert forall|v: Seq<path::PartView>| after.contains(v) <==> all.contains(v) by {
                if after.contains(v) {
                    let k = choose|k: int| 0 <= k < after.len() && after[k] == v;
                    if k < before.len() {
                        assert(before.contains(before[k]));
                        assert(seen.contains(v));
                        let m = choose|m: int| 0 <= m < seen.len() && seen[m] == v;
                        assert(all[m] == v);
                    } else {
                        assert(all[i as int] == v);
                    }
                }
                if all.contains(v) {
                    let k = choose|k: int| 0 <= k < all.len() && all[k] == v;
                    if k < i {
                        assert(seen.contains(seen[k]));
                        assert(before.contains(v));
                        let m = choose|m: int| 0 <= m < before.len() && before[m] == v;
                        assert(after[m] == v);
                    } else {
                        assert(after[after.len() - 1] == v);
                    }
                }
            }
        }
    }
    assert(sorted@.take(count as int) == sorted@);
    res
}

/// Paths that are taken: those of a given set, and those taken since.
pub struct Claims<'a> {
    reserved: &'a PathSet,
    fresh: PathSet,
}

impl<'a> View for Claims<'a> {
    type V = Set<Seq<path::PartView>>;

    closed spec fn view(&self) -> Set<Seq<path::PartView>> {
        self.reserved@.union(self.fresh@)
    }
}

impl<'a> Claims<'a> {
    /// The paths taken before.
    pub closed spec fn base(&self) -> Set<Seq<path::PartView>> {
        self.reserved@
    }

    /// Starts from a given set.
    pub fn over(reserved: &'a PathSet) -> (res: Claims<'a>)
        ensures
            res@ == reserved@,
            res.base() == reserved@,
    {
        let res = Claims { reserved, fresh: PathSet::new() };
        assert(res@ =~= reserved@);
        res
    }

    /// Whether a path is taken.
    pub fn contains(&self, path: &FilePath) -> (res: bool)
        ensures
            res == self@.contains(path@),
    {
        self.reserved.contains(path) || self.fresh.contains(path)
    }

    /// Takes a path.
    pub fn insert(&mut self, path: FilePath)
        ensures
            final(self)@ == old(self)@.insert(path@),
            final(self).base() == old(self).base(),
    {
        self.fresh.insert(path);
        assert(self@ =~= old(self)@.insert(path@));
    }

    /// The paths taken since.
    pub fn into_fresh(self) -> (res: PathSet)
        ensures
            self.base().union(res@) == self@,
    {
        self.fresh
    }
}

} // verus!
