//! What orders and choices of a best element have in common.

use vstd::prelude::*;

verus! {

/// Whether `before` is a strict weak order: what it leaves equal can be told
/// apart by nothing that it orders.
pub open spec fn is_strict_weak_order<T>(before: spec_fn(T, T) -> bool) -> bool {
    &&& forall|a: T| !#[trigger] before(a, a)
    &&& forall|a: T, b: T, c: T| #[trigger]
        before(a, b) && #[trigger] before(b, c) ==> before(a, c)
    &&& forall|a: T, b: T, c: T|
        !#[trigger] before(a, b) && !#[trigger] before(b, c) ==> !before(a, c)
}

/// Whether `left` comes before `right` by the first number in which the two lists
/// differ: the lower comes first.
pub open spec fn is_lower(left: Seq<int>, right: Seq<int>) -> bool {
    exists|place: int|
        {
            &&& 0 <= place < left.len()
            &&& place < right.len()
            &&& #[trigger] left[place] < right[place]
            &&& forall|i: int| 0 <= i < place ==> left[i] == right[i]
        }
}

/// [`is_lower`] from the number `i` on.
pub(crate) open spec fn is_lower_from(left: Seq<int>, right: Seq<int>, i: int) -> bool
    decreases left.len() - i,
{
    0 <= i < left.len() && i < right.len() && if left[i] == right[i] {
        is_lower_from(left, right, i + 1)
    } else {
        left[i] < right[i]
    }
}

pub(crate) proof fn lemma_is_lower(left: Seq<int>, right: Seq<int>)
    ensures
        is_lower(left, right) == is_lower_from(left, right, 0),
{
    lemma_is_lower_from(left, right, 0);
}

proof fn lemma_is_lower_from(left: Seq<int>, right: Seq<int>, i: int)
    requires
        0 <= i,
        forall|k: int| 0 <= k < i ==> left[k] == right[k],
    ensures
        is_lower(left, right) == is_lower_from(left, right, i),
    decreases left.len() - i,
{
    if i < left.len() && i < right.len() {
        if left[i] == right[i] {
            lemma_is_lower_from(left, right, i + 1);
        } else if left[i] < right[i] {
            assert(is_lower(left, right));
        } else if is_lower(left, right) {
            let place = choose|place: int|
                {
                    &&& 0 <= place < left.len()
                    &&& place < right.len()
                    &&& #[trigger] left[place] < right[place]
                    &&& forall|i: int| 0 <= i < place ==> left[i] == right[i]
                };
            assert(place > i ==> left[i] == right[i]);
        }
    }
}

/// Of finitely many elements of which some are wanted, one of the wanted has no
/// other wanted one before it.
pub proof fn lemma_least_exists<T>(
    n: nat,
    element: spec_fn(int) -> T,
    wanted: spec_fn(int) -> bool,
    before: spec_fn(T, T) -> bool,
) -> (best: int)
    requires
        is_strict_weak_order(before),
        exists|i: int| 0 <= i < n && #[trigger] wanted(i),
    ensures
        0 <= best < n,
        wanted(best),
        forall|i: int| 0 <= i < n && #[trigger] wanted(i) ==> !before(element(i), element(best)),
    decreases n,
{
    let last = n - 1;
    if exists|i: int| 0 <= i < last && #[trigger] wanted(i) {
        let best = lemma_least_exists(last as nat, element, wanted, before);
        if wanted(last) && before(element(last), element(best)) {
            assert forall|i: int| 0 <= i < n && #[trigger] wanted(i) implies !before(
                element(i),
                element(last),
            ) by {
                if i < last && before(element(i), element(last)) {
                    assert(before(element(i), element(best)));
                }
            }
            last
        } else {
            best
        }
    } else {
        last
    }
}

/// The better of what was best so far and a new offer: the offer, if it comes
/// before what was best or there was nothing.
pub open spec fn better<T>(
    before: spec_fn(T, T) -> bool,
    best: Option<T>,
    offer: Option<T>,
) -> Option<T> {
    match (best, offer) {
        (_, None) => best,
        (None, Some(_)) => offer,
        (Some(current), Some(candidate)) => if before(candidate, current) {
            offer
        } else {
            best
        },
    }
}

/// What is best once all offers have been made, one after the other.
pub open spec fn improved<T>(
    before: spec_fn(T, T) -> bool,
    best: Option<T>,
    offers: Seq<Option<T>>,
) -> Option<T>
    decreases offers.len(),
{
    if offers.len() == 0 {
        best
    } else {
        better(before, improved(before, best, offers.drop_last()), offers.last())
    }
}

/// The best of the offers.
pub open spec fn best_of<T>(before: spec_fn(T, T) -> bool, offers: Seq<Option<T>>) -> Option<T> {
    improved(before, None, offers)
}

/// Whether `best` is offered at `place`, comes before all that is offered
/// earlier, and nothing that is offered comes before it.
pub open spec fn is_first_best<T>(
    before: spec_fn(T, T) -> bool,
    offers: Seq<Option<T>>,
    place: int,
    best: T,
) -> bool {
    &&& 0 <= place < offers.len()
    &&& offers[place] == Some(best)
    &&& forall|i: int|
        0 <= i < place ==> (#[trigger] offers[i] matches Some(other) ==> before(best, other))
    &&& forall|i: int|
        0 <= i < offers.len() ==> (#[trigger] offers[i] matches Some(other) ==> !before(
            other,
            best,
        ))
}

/// The best of the offers is one of them, none comes before it, and it comes
/// before all that were offered earlier. There is none only if nothing was
/// offered.
pub proof fn best_of_is_first_best<T>(before: spec_fn(T, T) -> bool, offers: Seq<Option<T>>)
    requires
        is_strict_weak_order(before),
    ensures
        best_of(before, offers) is None <==> forall|i: int|
            0 <= i < offers.len() ==> #[trigger] offers[i] is None,
        best_of(before, offers) matches Some(best) ==> exists|place: int|
            is_first_best(before, offers, place, best),
    decreases offers.len(),
{
    if offers.len() > 0 {
        let earlier = offers.drop_last();
        let last = offers.len() - 1;
        best_of_is_first_best(before, earlier);
        assert forall|i: int| 0 <= i < last implies #[trigger] offers[i] == earlier[i] by {}
        match (best_of(before, earlier), offers.last()) {
            (None, Some(candidate)) => {
                assert(is_first_best(before, offers, last, candidate));
            },
            (Some(current), offer) => {
                let place = choose|place: int| is_first_best(before, earlier, place, current);
                assert(offers[place] is Some);
                if offer matches Some(candidate) && before(candidate, current) {
                    let candidate = offer->0;
                    assert forall|i: int| 0 <= i < last implies (
                    #[trigger] offers[i] matches Some(other) ==> before(candidate, other)) by {
                        if let Some(other) = earlier[i] {
                            assert(!before(other, current));
                            if !before(candidate, other) {
                                assert(!before(candidate, current));
                            }
                        }
                    }
                    assert forall|i: int| 0 <= i < offers.len() implies (
                    #[trigger] offers[i] matches Some(other) ==> !before(other, candidate)) by {
                        if let Some(other) = offers[i] {
                            if i < last && before(other, candidate) {
                                assert(before(candidate, other));
                                assert(before(candidate, candidate));
                            }
                        }
                    }
                    assert(is_first_best(before, offers, last, candidate));
                } else {
                    assert(is_first_best(before, offers, place, current));
                }
            },
            (None, None) => {},
        }
    }
}

/// Offers can be made in two lots.
pub(crate) proof fn lemma_improved_concat<T>(
    before: spec_fn(T, T) -> bool,
    best: Option<T>,
    first: Seq<Option<T>>,
    second: Seq<Option<T>>,
)
    ensures
        improved(before, best, first + second) == improved(
            before,
            improved(before, best, first),
            second,
        ),
    decreases second.len(),
{
    if second.len() == 0 {
        assert(first + second =~= first);
    } else {
        assert((first + second).drop_last() =~= first + second.drop_last());
        lemma_improved_concat(before, best, first, second.drop_last());
    }
}

/// One offer more.
pub(crate) proof fn lemma_improved_push<T>(
    before: spec_fn(T, T) -> bool,
    best: Option<T>,
    offers: Seq<Option<T>>,
    offer: Option<T>,
)
    ensures
        improved(before, best, offers.push(offer)) == better(
            before,
            improved(before, best, offers),
            offer,
        ),
{
    assert(offers.push(offer).drop_last() =~= offers);
}

pub(crate) proof fn lemma_contains_concat<T>(left: Seq<T>, right: Seq<T>, item: T)
    ensures
        (left + right).contains(item) <==> left.contains(item) || right.contains(item),
{
    let both = left + right;
    if left.contains(item) {
        let k = choose|k: int| 0 <= k < left.len() && left[k] == item;
        assert(both[k] == item);
    }
    if right.contains(item) {
        let k = choose|k: int| 0 <= k < right.len() && right[k] == item;
        assert(both[left.len() + k] == item);
    }
    if both.contains(item) {
        let k = choose|k: int| 0 <= k < both.len() && both[k] == item;
        if k < left.len() {
            assert(left[k] == item);
        } else {
            assert(right[k - left.len()] == item);
        }
    }
}

} // verus!
