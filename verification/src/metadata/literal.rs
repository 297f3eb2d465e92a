//! Fields that hold the query as it is.

use vstd::prelude::*;

use crate::metadata::standing::{standing, structural_match_details};
use crate::metadata::{target_of, Field, SearchField};
use crate::order::{
    best_of, best_of_is_first_best, better, improved, is_first_best, is_strict_weak_order,
    lemma_improved_concat, lemma_improved_push,
};
use crate::ranking::{StructuralKey, StructuralRank};
use crate::text::{occurs_at, stands_at, trim, trimmed};
use crate::unicode::chars_of;

verus! {

/// Where `pattern` stands in `text` from `from` on, from left to right, leaving
/// out what overlaps an earlier place.
pub open spec fn hits_from(text: Seq<char>, pattern: Seq<char>, from: int) -> Seq<int>
    decreases text.len() - from,
{
    if pattern.len() == 0 || from < 0 || from + pattern.len() > text.len() {
        seq![]
    } else if occurs_at(text, pattern, from) {
        seq![from] + hits_from(text, pattern, from + pattern.len())
    } else {
        hits_from(text, pattern, from + 1)
    }
}

/// Whether `hits` are places where the pattern stands, from `from` on, each at
/// least its length after the one before.
pub open spec fn are_hits(
    hits: Seq<int>,
    text: Seq<char>,
    pattern: Seq<char>,
    from: int,
) -> bool {
    &&& forall|k: int|
        0 <= k < hits.len() ==> from <= #[trigger] hits[k] && occurs_at(text, pattern, hits[k])
    &&& forall|k: int, l: int|
        0 <= k < l < hits.len() ==> #[trigger] hits[k] + pattern.len() <= #[trigger] hits[l]
}

/// Whether every place from `from` on where the pattern stands is one of the
/// hits or overlaps one that comes before.
#[verifier::opaque]
pub open spec fn cover_all(
    hits: Seq<int>,
    text: Seq<char>,
    pattern: Seq<char>,
    from: int,
) -> bool {
    forall|place: int|
        from <= place && #[trigger] occurs_at(text, pattern, place) ==> exists|k: int|
            0 <= k < hits.len() && #[trigger] hits[k] <= place < hits[k] + pattern.len()
}

/// The hits are places where the pattern stands, they stand apart, and none that
/// stands apart from those before it is left out.
pub proof fn hits_are_disjoint_and_complete(text: Seq<char>, pattern: Seq<char>, from: int)
    requires
        pattern.len() > 0,
        0 <= from,
    ensures
        are_hits(hits_from(text, pattern, from), text, pattern, from),
        cover_all(hits_from(text, pattern, from), text, pattern, from),
    decreases text.len() - from,
{
    if from + pattern.len() > text.len() {
        assert(cover_all(hits_from(text, pattern, from), text, pattern, from)) by {
            reveal(cover_all);
        }
    } else if occurs_at(text, pattern, from) {
        let next = from + pattern.len();
        let rest = hits_from(text, pattern, next);
        hits_are_disjoint_and_complete(text, pattern, next);
        assert(are_hits(seq![from] + rest, text, pattern, from)) by {
            let hits = seq![from] + rest;
            assert forall|k: int| 0 < k < hits.len() implies #[trigger] hits[k] == rest[k - 1] by {}
        }
        lemma_cover_with(rest, text, pattern, from);
    } else {
        hits_are_disjoint_and_complete(text, pattern, from + 1);
        let hits = hits_from(text, pattern, from + 1);
        assert(cover_all(hits, text, pattern, from)) by {
            reveal(cover_all);
        }
    }
}

proof fn lemma_cover_with(rest: Seq<int>, text: Seq<char>, pattern: Seq<char>, from: int)
    requires
        pattern.len() > 0,
        cover_all(rest, text, pattern, from + pattern.len()),
    ensures
        cover_all(seq![from] + rest, text, pattern, from),
{
    reveal(cover_all);
    let hits = seq![from] + rest;
    assert forall|place: int|
        from <= place && #[trigger] occurs_at(text, pattern, place) implies exists|k: int|
        0 <= k < hits.len() && #[trigger] hits[k] <= place < hits[k] + pattern.len() by {
        if place < from + pattern.len() {
            assert(hits[0] <= place < hits[0] + pattern.len());
        } else {
            let k = choose|k: int|
                0 <= k < rest.len() && #[trigger] rest[k] <= place < rest[k] + pattern.len();
            assert(hits[k + 1] == rest[k]);
        }
    }
}

/// How a match of `len` characters from `start` on ranks.
pub open spec fn rank_at(priority: nat, target: Seq<char>, start: int, len: nat) -> StructuralKey {
    let found = standing(target, start, len);
    StructuralKey {
        field_priority: priority,
        position_class: found.position_class,
        token_index: found.token_index,
        token_span_delta: found.token_span_delta,
        start_idx: start as nat,
        field_len: found.field_len,
    }
}

/// The ranks of all places where a field holds the needle.
pub open spec fn field_offers(needle: Seq<char>, field: Field) -> Seq<Option<StructuralKey>> {
    let target = target_of(field);
    if trimmed(field.value).len() == 0 {
        seq![]
    } else {
        hits_from(target, needle, 0).map_values(
            |hit: int| Some(rank_at(field.priority as nat, target, hit, needle.len())),
        )
    }
}

/// The ranks of all places where the first `n` fields hold the needle.
pub open spec fn literal_offers(needle: Seq<char>, fields: Seq<Field>, n: nat) -> Seq<
    Option<StructuralKey>,
>
    decreases n,
{
    if n == 0 {
        seq![]
    } else {
        literal_offers(needle, fields, (n - 1) as nat) + field_offers(needle, fields[n - 1])
    }
}

/// The order of structural ranks, as a relation.
pub open spec fn structural_order() -> spec_fn(StructuralKey, StructuralKey) -> bool {
    |left: StructuralKey, right: StructuralKey| left.ranks_before(right)
}

/// The best rank of a needle among the fields.
pub open spec fn literal_rank(needle: Seq<char>, fields: Seq<Field>) -> Option<StructuralKey> {
    if needle.len() == 0 {
        None
    } else {
        best_of(structural_order(), literal_offers(needle, fields, fields.len()))
    }
}

/// The best rank is that of a place where a field holds the needle, and no place
/// ranks before it. There is none only if no field holds the needle.
pub proof fn literal_rank_is_best(needle: Seq<char>, fields: Seq<Field>)
    requires
        needle.len() > 0,
    ensures
        literal_rank(needle, fields) is None <==> literal_offers(
            needle,
            fields,
            fields.len(),
        ).len() == 0,
        literal_rank(needle, fields) matches Some(best) ==> exists|place: int|
            is_first_best(
                structural_order(),
                literal_offers(needle, fields, fields.len()),
                place,
                best,
            ),
{
    let offers = literal_offers(needle, fields, fields.len());
    assert(is_strict_weak_order(structural_order()));
    best_of_is_first_best(structural_order(), offers);
    lemma_offers_are_ranks(needle, fields, fields.len());
    if offers.len() > 0 {
        assert(offers[0] is Some);
    }
}

proof fn lemma_offers_are_ranks(needle: Seq<char>, fields: Seq<Field>, n: nat)
    ensures
        forall|i: int|
            0 <= i < literal_offers(needle, fields, n).len() ==> #[trigger] literal_offers(
                needle,
                fields,
                n,
            )[i] is Some,
    decreases n,
{
    if n > 0 {
        let before = literal_offers(needle, fields, (n - 1) as nat);
        let now = field_offers(needle, fields[n - 1]);
        lemma_offers_are_ranks(needle, fields, (n - 1) as nat);
        assert forall|i: int| 0 <= i < (before + now).len() implies #[trigger] (before
            + now)[i] is Some by {
            if i < before.len() {
                assert((before + now)[i] == before[i]);
            } else {
                assert((before + now)[i] == now[i - before.len()]);
            }
        }
    }
}

proof fn lemma_field_is_offered(needle: Seq<char>, fields: Seq<Field>, n: nat, i: int, k: int) -> (
place: int)
    requires
        0 <= i < n <= fields.len(),
        0 <= k < field_offers(needle, fields[i]).len(),
    ensures
        0 <= place < literal_offers(needle, fields, n).len(),
        literal_offers(needle, fields, n)[place] == field_offers(needle, fields[i])[k],
    decreases n,
{
    let before = literal_offers(needle, fields, (n - 1) as nat);
    if i == n - 1 {
        before.len() + k
    } else {
        lemma_field_is_offered(needle, fields, (n - 1) as nat, i, k)
    }
}

/// If a field holds the needle, there is a rank, and its field counts no less
/// than that one.
pub proof fn literal_rank_prefers_priority(
    needle: Seq<char>,
    fields: Seq<Field>,
    i: int,
    at: int,
)
    requires
        needle.len() > 0,
        0 <= i < fields.len(),
        trimmed(fields[i].value).len() > 0,
        occurs_at(target_of(fields[i]), needle, at),
    ensures
        literal_rank(needle, fields) matches Some(best) && best.field_priority
            <= fields[i].priority,
{
    let target = target_of(fields[i]);
    let hits = hits_from(target, needle, 0);
    hits_are_disjoint_and_complete(target, needle, 0);
    assert(hits.len() > 0) by {
        reveal(cover_all);
    }
    let place = lemma_field_is_offered(needle, fields, fields.len(), i, 0);
    let offers = literal_offers(needle, fields, fields.len());
    assert(offers[place] == Some(
        rank_at(fields[i].priority as nat, target, hits[0], needle.len()),
    ));
    literal_rank_is_best(needle, fields);
}

/// A result in numbers.
pub open spec fn rank_found(found: Option<StructuralRank>) -> Option<StructuralKey> {
    match found {
        Some(rank) => Some(rank@),
        None => None,
    }
}

fn update_best(best: &mut Option<StructuralRank>, rank: StructuralRank)
    ensures
        rank_found(*final(best)) == better(
            structural_order(),
            rank_found(*old(best)),
            Some(rank@),
        ),
{
    let replaces = match best {
        None => true,
        Some(current) => rank.ranks_before(current),
    };
    if replaces {
        *best = Some(rank);
    }
}

fn improve_by_field(
    best: &mut Option<StructuralRank>,
    needle: &Vec<char>,
    field: &SearchField<'_>,
)
    requires
        needle@.len() > 0,
        4 * needle@.len() <= isize::MAX,
    ensures
        rank_found(*final(best)) == improved(
            structural_order(),
            rank_found(*old(best)),
            field_offers(needle@, field.deep_view()),
        ),
{
    let value = trim(field.value);
    let ghost offers = field_offers(needle@, field.deep_view());
    if value.unicode_len() == 0 {
        return;
    }
    let lowered = crate::text::to_lowercase(value);
    let target = chars_of(lowered.as_str());
    let len = needle.len();
    let ghost hits = hits_from(target@, needle@, 0);
    let ghost rank = |hit: int|
        Some(rank_at(field.deep_view().priority as nat, target@, hit, needle@.len()));
    let ghost mut done: nat = 0;
    let mut from: usize = 0;
    proof {
        assert(offers =~= hits.map_values(rank));
        assert(offers.take(0) =~= Seq::empty());
        assert(hits.skip(0) =~= hits);
    }
    while from <= target.len() && len <= target.len() - from
        invariant
            len == needle@.len() > 0,
            4 * len <= isize::MAX,
            4 * target@.len() <= isize::MAX,
            from <= target@.len(),
            target@ == target_of(field.deep_view()),
            hits == hits_from(target@, needle@, 0),
            offers == hits.map_values(rank),
            rank == (|hit: int|
                Some(rank_at(field.deep_view().priority as nat, target@, hit, needle@.len()))),
            done <= hits.len(),
            hits.skip(done as int) == hits_from(target@, needle@, from as int),
            rank_found(*best) == improved(
                structural_order(),
                rank_found(*old(best)),
                offers.take(done as int),
            ),
        decreases target@.len() - from,
    {
        if stands_at(target.as_slice(), needle.as_slice(), from) {
            let (position_class, token_index, token_span_delta, field_len) =
                structural_match_details(&target, from, len);
            let found = StructuralRank {
                field_priority: field.priority,
                position_class,
                token_index,
                token_span_delta,
                start_idx: from,
                field_len,
            };
            proof {
                assert(hits.skip(done as int).len() > 0);
                assert(hits.skip(done as int)[0] == from);
                assert(hits[done as int] == from);
                assert(offers[done as int] == Some(found@));
                assert(offers.take(done as int + 1) =~= offers.take(done as int).push(
                    offers[done as int],
                ));
                lemma_improved_push(
                    structural_order(),
                    rank_found(*old(best)),
                    offers.take(done as int),
                    offers[done as int],
                );
                assert(hits.skip(done as int + 1) =~= hits.skip(done as int).skip(1));
                assert((seq![from as int] + hits_from(target@, needle@, from + len)).skip(1)
                    =~= hits_from(target@, needle@, from + len));
                done = done + 1;
            }
            update_best(best, found);
            from = from + len;
        } else {
            from = from + 1;
        }
    }
    proof {
        assert(hits.skip(done as int).len() == 0);
        assert(offers.take(done as int) =~= offers);
    }
}

/// The best rank of a needle among the fields.
pub(crate) fn best_structural_rank(needle: &Vec<char>, fields: &[SearchField<'_>]) -> (best: Option<
    StructuralRank,
>)
    requires
        4 * needle@.len() <= isize::MAX,
    ensures
        rank_found(best) == literal_rank(needle@, fields.deep_view()),
{
    if needle.len() == 0 {
        return None;
    }
    let ghost records = fields.deep_view();
    let mut best: Option<StructuralRank> = None;
    let mut i: usize = 0;
    while i < fields.len()
        invariant
            i <= fields@.len(),
            needle@.len() > 0,
            4 * needle@.len() <= isize::MAX,
            records == fields.deep_view(),
            rank_found(best) == best_of(
                structural_order(),
                literal_offers(needle@, records, i as nat),
            ),
        decreases fields@.len() - i,
    {
        proof {
            assert(records[i as int] == fields@[i as int].deep_view());
            lemma_improved_concat(
                structural_order(),
                None,
                literal_offers(needle@, records, i as nat),
                field_offers(needle@, records[i as int]),
            );
        }
        improve_by_field(&mut best, needle, &fields[i]);
        i = i + 1;
    }
    best
}

} // verus!
