//! A stable sort of ranked items.

use vstd::prelude::*;
use vstd::set_lib::{lemma_int_range, lemma_subset_equality, set_int_range};

use crate::order::is_strict_weak_order;

verus! {

/// Items that have a ranking.
pub trait Ranked: Sized {
    /// Whether this item comes before `other`.
    spec fn ranks_before(self, other: Self) -> bool;

    /// The ranking is a strict weak order.
    proof fn ranking_is_weak_order()
        ensures
            is_strict_weak_order(|left: Self, right: Self| left.ranks_before(right)),
    ;

    /// Whether this item comes before `other`.
    fn is_before(&self, other: &Self) -> (before: bool)
        ensures
            before == self.ranks_before(*other),
    ;
}

/// Whether `sorted` is `items` in the order of their ranking, with items that
/// rank the same left in the order they had. `places` says where each item of
/// `sorted` was.
pub open spec fn is_stable_sorting<T: Ranked>(
    places: Seq<int>,
    items: Seq<T>,
    sorted: Seq<T>,
) -> bool {
    &&& places.len() == items.len()
    &&& sorted.len() == items.len()
    &&& forall|i: int| 0 <= i < places.len() ==> 0 <= #[trigger] places[i] < items.len()
    &&& forall|i: int, j: int| 0 <= i < j < places.len() ==> places[i] != places[j]
    &&& forall|i: int| 0 <= i < places.len() ==> #[trigger] sorted[i] == items[places[i]]
    &&& forall|i: int, j: int|
        #![trigger sorted[i], sorted[j]]
        0 <= i < j < sorted.len() ==> {
            ||| sorted[i].ranks_before(sorted[j])
            ||| !sorted[j].ranks_before(sorted[i]) && places[i] < places[j]
        }
}

/// Whether the item at `i` is put before the one at `j`.
spec fn goes_before<T: Ranked>(items: Seq<T>, i: int, j: int) -> bool {
    ||| items[i].ranks_before(items[j])
    ||| !items[j].ranks_before(items[i]) && i < j
}

proof fn lemma_goes_before_is_transitive<T: Ranked>(items: Seq<T>, i: int, j: int, k: int)
    requires
        goes_before(items, i, j),
        goes_before(items, j, k),
    ensures
        goes_before(items, i, k),
{
    T::ranking_is_weak_order();
    let before = |left: T, right: T| left.ranks_before(right);
    let (a, b, c) = (items[i], items[j], items[k]);
    assert(before(a, b) == a.ranks_before(b) && before(b, a) == b.ranks_before(a));
    assert(before(b, c) == b.ranks_before(c) && before(c, b) == c.ranks_before(b));
    assert(before(a, c) == a.ranks_before(c) && before(c, a) == c.ranks_before(a));
}

/// There is just one such sorting of the items.
pub proof fn stable_sorting_is_unique<T: Ranked>(
    items: Seq<T>,
    places: Seq<int>,
    sorted: Seq<T>,
    other_places: Seq<int>,
    other: Seq<T>,
)
    requires
        is_stable_sorting(places, items, sorted),
        is_stable_sorting(other_places, items, other),
    ensures
        sorted == other,
        places == other_places,
{
    assert forall|k: int| 0 <= k < places.len() implies #[trigger] places[k] == other_places[k] by {
        lemma_places_agree(items, places, sorted, other_places, other, k);
    }
    assert(places =~= other_places);
    assert(sorted =~= other);
}

proof fn lemma_places_agree<T: Ranked>(
    items: Seq<T>,
    places: Seq<int>,
    sorted: Seq<T>,
    other_places: Seq<int>,
    other: Seq<T>,
    k: int,
)
    requires
        is_stable_sorting(places, items, sorted),
        is_stable_sorting(other_places, items, other),
        0 <= k < places.len(),
    ensures
        places[k] == other_places[k],
    decreases k,
{
    assert forall|j: int| 0 <= j < k implies #[trigger] places[j] == other_places[j] by {
        lemma_places_agree(items, places, sorted, other_places, other, j);
    }
    let (here, there) = (places[k], other_places[k]);
    if here != there {
        let m = lemma_place_is_taken(items.len(), other_places, here);
        let l = lemma_place_is_taken(items.len(), places, there);
        assert(m > k) by {
            if m < k {
                assert(places[m] == other_places[m]);
            }
        }
        assert(l > k) by {
            if l < k {
                assert(places[l] == other_places[l]);
            }
        }
        assert(sorted[k] == items[here] && sorted[l] == items[there]);
        assert(other[k] == items[there] && other[m] == items[here]);
        T::ranking_is_weak_order();
        let order = |left: T, right: T| left.ranks_before(right);
        let (first, second) = (items[here], items[there]);
        assert(order(first, second) == first.ranks_before(second));
        assert(order(second, first) == second.ranks_before(first));
        assert(!order(first, first));
    }
}

/// As many different places as there are take every place.
proof fn lemma_place_is_taken(n: nat, places: Seq<int>, place: int) -> (k: int)
    requires
        places.len() == n,
        forall|i: int| 0 <= i < places.len() ==> 0 <= #[trigger] places[i] < n,
        forall|i: int, j: int| 0 <= i < j < places.len() ==> places[i] != places[j],
        0 <= place < n,
    ensures
        0 <= k < n,
        places[k] == place,
{
    let all = set_int_range(0, n as int);
    let taken = places.to_set();
    assert(places.no_duplicates());
    places.unique_seq_to_set();
    lemma_int_range(0, n as int);
    assert(taken.subset_of(all));
    lemma_subset_equality(taken, all);
    assert(all.contains(place));
    assert(places.contains(place));
    choose|k: int| 0 <= k < places.len() && places[k] == place
}

/// Whether `places` holds just places from `from` to `to`, as many as there
/// are, in the order in which their items go.
spec fn is_ordered<T: Ranked>(items: Seq<T>, places: Seq<usize>, from: int, to: int) -> bool {
    &&& places.len() == to - from
    &&& forall|i: int| 0 <= i < places.len() ==> from <= #[trigger] places[i] < to
    &&& forall|i: int, j: int|
        #![trigger places[i], places[j]]
        0 <= i < j < places.len() ==> goes_before(items, places[i] as int, places[j] as int)
}

fn merge<T: Ranked>(
    items: &[T],
    left: &Vec<usize>,
    right: &Vec<usize>,
    from: usize,
    middle: usize,
    to: usize,
) -> (merged: Vec<usize>)
    requires
        from <= middle <= to <= items@.len(),
        is_ordered(items@, left@, from as int, middle as int),
        is_ordered(items@, right@, middle as int, to as int),
    ensures
        is_ordered(items@, merged@, from as int, to as int),
{
    let mut merged: Vec<usize> = Vec::new();
    let mut a: usize = 0;
    let mut b: usize = 0;
    while a < left.len() || b < right.len()
        invariant
            a <= left@.len(),
            b <= right@.len(),
            from <= middle <= to <= items@.len(),
            is_ordered(items@, left@, from as int, middle as int),
            is_ordered(items@, right@, middle as int, to as int),
            merged@.len() == a + b,
            forall|i: int| 0 <= i < merged@.len() ==> from <= #[trigger] merged@[i] < to,
            forall|i: int, j: int|
                #![trigger merged@[i], merged@[j]]
                0 <= i < j < merged@.len() ==> goes_before(
                    items@,
                    merged@[i] as int,
                    merged@[j] as int,
                ),
            forall|i: int, k: int|
                #![trigger merged@[i], left@[k]]
                0 <= i < merged@.len() && a <= k < left@.len() ==> goes_before(
                    items@,
                    merged@[i] as int,
                    left@[k] as int,
                ),
            forall|i: int, k: int|
                #![trigger merged@[i], right@[k]]
                0 <= i < merged@.len() && b <= k < right@.len() ==> goes_before(
                    items@,
                    merged@[i] as int,
                    right@[k] as int,
                ),
        decreases left@.len() + right@.len() - a - b,
    {
        if b >= right.len() || a < left.len() && !items[right[b]].is_before(&items[left[a]]) {
            proof {
                assert forall|k: int| b <= k < right@.len() implies goes_before(
                    items@,
                    left@[a as int] as int,
                    #[trigger] right@[k] as int,
                ) by {
                    assert(goes_before(items@, left@[a as int] as int, right@[b as int] as int));
                    if b < k {
                        lemma_goes_before_is_transitive(
                            items@,
                            left@[a as int] as int,
                            right@[b as int] as int,
                            right@[k] as int,
                        );
                    }
                }
            }
            merged.push(left[a]);
            a = a + 1;
        } else {
            proof {
                assert forall|k: int| a <= k < left@.len() implies goes_before(
                    items@,
                    right@[b as int] as int,
                    #[trigger] left@[k] as int,
                ) by {
                    assert(goes_before(items@, right@[b as int] as int, left@[a as int] as int));
                    if a < k {
                        lemma_goes_before_is_transitive(
                            items@,
                            right@[b as int] as int,
                            left@[a as int] as int,
                            left@[k] as int,
                        );
                    }
                }
            }
            merged.push(right[b]);
            b = b + 1;
        }
    }
    merged
}

/// The places from `from` to `to` in the order in which their items go.
fn order_places<T: Ranked>(items: &[T], from: usize, to: usize) -> (places: Vec<usize>)
    requires
        from <= to <= items@.len(),
    ensures
        is_ordered(items@, places@, from as int, to as int),
    decreases to - from,
{
    let mut places: Vec<usize> = Vec::new();
    if to - from == 0 {
        return places;
    }
    if to - from == 1 {
        places.push(from);
        return places;
    }
    let middle = from + (to - from) / 2;
    let left = order_places(items, from, middle);
    let right = order_places(items, middle, to);
    merge(items, &left, &right, from, middle, to)
}

/// Puts the items in the order of their ranking. Items that rank the same stay
/// in the order they have.
pub fn sort_ranked<T: Ranked + Copy>(items: &mut [T])
    ensures
        exists|places: Seq<int>| #[trigger]
            is_stable_sorting(places, old(items)@, final(items)@),
{
    let len = items.len();
    let places = order_places(items, 0, len);
    let mut sorted: Vec<T> = Vec::new();
    let mut i: usize = 0;
    while i < len
        invariant
            i <= len,
            len == items@.len(),
            items@ == old(items)@,
            is_ordered(items@, places@, 0, len as int),
            sorted@.len() == i,
            forall|k: int| 0 <= k < i ==> #[trigger] sorted@[k] == items@[places@[k] as int],
        decreases len - i,
    {
        sorted.push(items[places[i]]);
        i = i + 1;
    }
    let mut k: usize = 0;
    while k < len
        invariant
            k <= len,
            len == items@.len(),
            sorted@.len() == len,
            forall|j: int| 0 <= j < k ==> #[trigger] items@[j] == sorted@[j],
        decreases len - k,
    {
        items[k] = sorted[k];
        k = k + 1;
    }
    proof {
        let ints = places@.map_values(|place: usize| place as int);
        let before = old(items)@;
        assert(items@ =~= sorted@);
        assert forall|i: int, j: int| 0 <= i < j < ints.len() implies ints[i] != ints[j] by {
            assert(goes_before(before, places@[i] as int, places@[j] as int));
            T::ranking_is_weak_order();
            let order = |left: T, right: T| left.ranks_before(right);
            let item = before[places@[i] as int];
            assert(!order(item, item));
        }
        assert(is_stable_sorting(ints, before, items@));
    }
}

} // verus!
