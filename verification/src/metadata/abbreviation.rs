//! Fields that hold the characters of the query scattered.

use vstd::prelude::*;
use vstd::utf8::is_ascii_chars;

use crate::metadata::standing::{
    ascii_offsets_are_places, find_boundary, is_boundary, lemma_ascii_words, place_of, standing,
    structural_match_details,
};
use crate::metadata::{target_of, Field, SearchField};
use crate::order::{
    best_of, best_of_is_first_best, better, improved, is_first_best, is_strict_weak_order,
    lemma_improved_concat, lemma_improved_push,
};
use crate::ranking::{AbbreviationKey, AbbreviationRank};
use crate::text::{concat, search_tokens, split_search_tokens, trim, trimmed};
use crate::unicode::chars_of;

verus! {

/// The first place from `from` on that holds `c`.
pub open spec fn find_char(text: Seq<char>, c: char, from: int) -> Option<int>
    decreases text.len() - from,
{
    if from < 0 || from >= text.len() {
        None
    } else if text[from] == c {
        Some(from)
    } else {
        find_char(text, c, from + 1)
    }
}

/// Where the first `n` characters of `query` stand in `text`, one after the
/// other, each as early as it can.
pub open spec fn scattered(query: Seq<char>, text: Seq<char>, n: nat) -> Option<Seq<int>>
    decreases n,
{
    if n == 0 {
        Some(seq![])
    } else {
        match scattered(query, text, (n - 1) as nat) {
            None => None,
            Some(places) => match find_char(text, query[n - 1], next_place(places)) {
                None => None,
                Some(place) => Some(places.push(place)),
            },
        }
    }
}

/// Where to look for what comes after the places.
pub open spec fn next_place(places: Seq<int>) -> int {
    if places.len() == 0 {
        0
    } else {
        places.last() + 1
    }
}

/// Whether the characters of `query` stand in `text` at these places, one after
/// the other.
pub open spec fn is_scattered_at(query: Seq<char>, text: Seq<char>, places: Seq<int>) -> bool {
    &&& places.len() == query.len()
    &&& forall|k: int|
        0 <= k < places.len() ==> 0 <= #[trigger] places[k] < text.len() && text[places[k]]
            == query[k]
    &&& forall|k: int, l: int|
        0 <= k < l < places.len() ==> #[trigger] places[k] < #[trigger] places[l]
}

/// Where the characters of `query` stand in `text`, one after the other, each as
/// early as it can. An empty query stands nowhere.
pub open spec fn subsequence_places(query: Seq<char>, text: Seq<char>) -> Option<Seq<int>> {
    if query.len() == 0 {
        None
    } else {
        scattered(query, text, query.len())
    }
}

/// The query is found scattered in a text if and only if it is not empty and its
/// characters stand there one after the other, and each is found as early as in
/// any such places.
pub proof fn subsequence_is_earliest(query: Seq<char>, text: Seq<char>, other: Seq<int>)
    ensures
        subsequence_places(query, text) is Some <==> query.len() > 0 && exists|places: Seq<int>|
            is_scattered_at(query, text, places),
        subsequence_places(query, text) matches Some(places) ==> is_scattered_at(
            query,
            text,
            places,
        ),
        query.len() > 0 && is_scattered_at(query, text, other) ==> {
            &&& subsequence_places(query, text) is Some
            &&& forall|k: int|
                0 <= k < query.len() ==> #[trigger] subsequence_places(query, text)->0[k]
                    <= other[k]
        },
{
    lemma_scattered(query, text, query.len());
    if is_scattered_at(query, text, other) {
        lemma_scattered_first(query, text, other, query.len());
    }
    if exists|places: Seq<int>| is_scattered_at(query, text, places) {
        let places = choose|places: Seq<int>| is_scattered_at(query, text, places);
        lemma_scattered_first(query, text, places, query.len());
    }
}

proof fn lemma_find_char(text: Seq<char>, c: char, from: int)
    requires
        0 <= from,
    ensures
        find_char(text, c, from) matches Some(place) ==> from <= place < text.len() && text[place]
            == c,
        forall|i: int|
            from <= i < text.len() && #[trigger] text[i] == c ==> (find_char(
                text,
                c,
                from,
            ) matches Some(place) && place <= i),
    decreases text.len() - from,
{
    if from < text.len() && text[from] != c {
        lemma_find_char(text, c, from + 1);
    }
}

proof fn lemma_scattered(query: Seq<char>, text: Seq<char>, n: nat)
    requires
        n <= query.len(),
    ensures
        scattered(query, text, n) matches Some(places) ==> is_scattered_at(
            query.take(n as int),
            text,
            places,
        ) && next_place(places) >= 0,
        n == query.len() ==> query.take(n as int) == query,
    decreases n,
{
    if n > 0 {
        lemma_scattered(query, text, (n - 1) as nat);
        if let Some(before) = scattered(query, text, (n - 1) as nat) {
            lemma_find_char(text, query[n - 1], next_place(before));
        }
    }
    if n == query.len() {
        assert(query.take(n as int) =~= query);
    }
}

proof fn lemma_scattered_first(query: Seq<char>, text: Seq<char>, other: Seq<int>, n: nat)
    requires
        is_scattered_at(query, text, other),
        n <= query.len(),
    ensures
        scattered(query, text, n) is Some,
        scattered(query, text, n)->0.len() == n,
        forall|k: int| 0 <= k < n ==> #[trigger] scattered(query, text, n)->0[k] <= other[k],
    decreases n,
{
    if n > 0 {
        lemma_scattered_first(query, text, other, (n - 1) as nat);
        lemma_scattered(query, text, (n - 1) as nat);
        let before = scattered(query, text, (n - 1) as nat)->0;
        assert(next_place(before) <= other[n - 1]) by {
            if n > 1 {
                assert(before[n - 2] <= other[n - 2]);
            }
        }
        lemma_find_char(text, query[n - 1], next_place(before));
        assert(text[other[n - 1]] == query[n - 1]);
    }
}

proof fn lemma_not_scattered(query: Seq<char>, text: Seq<char>, n: nat, more: nat)
    requires
        n <= more,
        scattered(query, text, n) is None,
    ensures
        scattered(query, text, more) is None,
    decreases more,
{
    if n < more {
        lemma_not_scattered(query, text, n, (more - 1) as nat);
    }
}

/// How many of the first `n` places come more than one after the first.
pub open spec fn places_apart(places: Seq<int>, n: nat) -> nat
    decreases n,
{
    if n == 0 {
        0
    } else {
        let before = places_apart(places, (n - 1) as nat);
        if n > 1 && places[n - 1] > places[0] + 1 {
            before + 1
        } else {
            before
        }
    }
}

/// From the first place to the last, both included.
pub open spec fn span_of(places: Seq<int>) -> nat {
    (places.last() - places[0] + 1) as nat
}

/// How the query stands scattered in a text: the first place, the last, how many
/// other characters lie between them, and how many places come more than one
/// after the first.
pub open spec fn subsequence_details(query: Seq<char>, text: Seq<char>) -> Option<
    (nat, nat, nat, nat),
> {
    match subsequence_places(query, text) {
        None => None,
        Some(places) => Some(
            (
                places[0] as nat,
                places.last() as nat,
                (span_of(places) - query.len()) as nat,
                places_apart(places, query.len()),
            ),
        ),
    }
}

/// A query that is found spans at least its own length, within the text, and
/// its first place is not counted among those that come after the first.
pub proof fn subsequence_spans_its_length(query: Seq<char>, text: Seq<char>)
    ensures
        subsequence_places(query, text) matches Some(places) ==> {
            &&& places[0] <= places.last() < text.len()
            &&& query.len() <= span_of(places)
            &&& places_apart(places, query.len()) < query.len()
        },
{
    lemma_scattered(query, text, query.len());
    if let Some(places) = subsequence_places(query, text) {
        lemma_increasing_places(query, text, places, query.len());
        lemma_places_apart_bound(places, query.len());
    }
}

proof fn lemma_increasing_places(query: Seq<char>, text: Seq<char>, places: Seq<int>, n: nat)
    requires
        is_scattered_at(query, text, places),
        0 < n <= places.len(),
    ensures
        places[0] + n - 1 <= places[n - 1],
    decreases n,
{
    if n > 1 {
        lemma_increasing_places(query, text, places, (n - 1) as nat);
        assert(places[n - 2] < places[n - 1]);
    }
}

proof fn lemma_places_apart_bound(places: Seq<int>, n: nat)
    requires
        0 < n,
    ensures
        places_apart(places, n) < n,
    decreases n,
{
    if n > 1 {
        lemma_places_apart_bound(places, (n - 1) as nat);
    } else {
        assert(places_apart(places, 0) == 0);
    }
}

/// Where the query stands in a text with others between its characters.
pub open spec fn spread_places(query: Seq<char>, text: Seq<char>) -> Option<Seq<int>> {
    match subsequence_places(query, text) {
        Some(places) if span_of(places) > query.len() => Some(places),
        _ => None,
    }
}

/// What of a field's target is looked at: each word, all of it, and its words put
/// together if there are several, with the scope of each.
pub open spec fn variants_of(target: Seq<char>) -> Seq<(u8, Seq<char>)> {
    let words = search_tokens(target);
    let whole = seq![(1u8, target)];
    let together = if words.len() > 1 {
        seq![(2u8, words.flatten())]
    } else {
        seq![]
    };
    words.map_values(|word: Seq<char>| (0u8, word)) + whole + together
}

/// The rank of a query whose characters stand scattered in a text. The place of
/// the first among the words is taken at the byte of its number.
pub open spec fn scattered_offer(
    query: Seq<char>,
    priority: nat,
    variant: (u8, Seq<char>),
) -> Option<AbbreviationKey> {
    let text = variant.1;
    match spread_places(query, text) {
        None => None,
        Some(places) => {
            let span = span_of(places);
            let found = standing(text, place_of(text, places[0] as nat), span);
            Some(
                AbbreviationKey {
                    field_priority: priority,
                    variant_scope: variant.0 as nat,
                    position_class: found.position_class,
                    token_index: found.token_index,
                    gap_span: (span - query.len()) as nat,
                    gap_count: places_apart(places, query.len()),
                    start_idx: places[0] as nat,
                    field_len: found.field_len,
                },
            )
        },
    }
}

/// Whether the first place, taken as a byte, begins a character.
pub open spec fn is_defined(query: Seq<char>, variant: (u8, Seq<char>)) -> bool {
    spread_places(query, variant.1) matches Some(places) ==> is_boundary(
        variant.1,
        places[0] as nat,
    )
}

/// The ranks in a field.
pub open spec fn field_offers(query: Seq<char>, field: Field) -> Seq<Option<AbbreviationKey>> {
    if trimmed(field.value).len() == 0 {
        seq![]
    } else {
        variants_of(target_of(field)).map_values(
            |variant: (u8, Seq<char>)| scattered_offer(query, field.priority as nat, variant),
        )
    }
}

/// Whether all ranks in a field are defined.
pub open spec fn field_is_defined(query: Seq<char>, field: Field) -> bool {
    trimmed(field.value).len() > 0 ==> forall|k: int|
        0 <= k < variants_of(target_of(field)).len() ==> is_defined(
            query,
            #[trigger] variants_of(target_of(field))[k],
        )
}

/// The ranks in the first `n` fields.
pub open spec fn scattered_offers(query: Seq<char>, fields: Seq<Field>, n: nat) -> Seq<
    Option<AbbreviationKey>,
>
    decreases n,
{
    if n == 0 {
        seq![]
    } else {
        scattered_offers(query, fields, (n - 1) as nat) + field_offers(query, fields[n - 1])
    }
}

/// The order of abbreviation ranks, as a relation.
pub open spec fn abbreviation_order() -> spec_fn(AbbreviationKey, AbbreviationKey) -> bool {
    |left: AbbreviationKey, right: AbbreviationKey| left.ranks_before(right)
}

/// The best rank of a query of two characters or more among the fields.
pub open spec fn scattered_rank(query: Seq<char>, fields: Seq<Field>) -> Option<AbbreviationKey> {
    if query.len() < 2 {
        None
    } else {
        best_of(abbreviation_order(), scattered_offers(query, fields, fields.len()))
    }
}

/// Whether all ranks of a query among the fields are defined.
pub open spec fn scattered_is_defined(query: Seq<char>, fields: Seq<Field>) -> bool {
    query.len() < 2 || forall|i: int|
        0 <= i < fields.len() ==> field_is_defined(query, #[trigger] fields[i])
}

/// The best rank is one of those in the fields, and none of them ranks before
/// it. There is none only if no field has one.
pub proof fn scattered_rank_is_best(query: Seq<char>, fields: Seq<Field>)
    requires
        query.len() >= 2,
    ensures
        scattered_rank(query, fields) is None <==> forall|i: int|
            0 <= i < scattered_offers(query, fields, fields.len()).len()
                ==> #[trigger] scattered_offers(query, fields, fields.len())[i] is None,
        scattered_rank(query, fields) matches Some(best) ==> exists|place: int|
            is_first_best(
                abbreviation_order(),
                scattered_offers(query, fields, fields.len()),
                place,
                best,
            ),
{
    assert(is_strict_weak_order(abbreviation_order()));
    best_of_is_first_best(abbreviation_order(), scattered_offers(query, fields, fields.len()));
}

/// In ASCII fields all ranks are defined.
pub proof fn ascii_is_defined(query: Seq<char>, fields: Seq<Field>)
    requires
        forall|i: int| 0 <= i < fields.len() ==> is_ascii_chars(target_of(#[trigger] fields[i])),
    ensures
        scattered_is_defined(query, fields),
{
    if query.len() >= 2 {
        assert forall|i: int| 0 <= i < fields.len() implies field_is_defined(
            query,
            #[trigger] fields[i],
        ) by {
            let target = target_of(fields[i]);
            let variants = variants_of(target);
            lemma_ascii_words(target);
            assert forall|k: int| 0 <= k < variants.len() implies is_defined(
                query,
                #[trigger] variants[k],
            ) by {
                let words = search_tokens(target);
                let text = variants[k].1;
                if k < words.len() {
                    assert(text == words[k]);
                }
                assert(is_ascii_chars(text));
                lemma_scattered(query, text, query.len());
                if let Some(places) = spread_places(query, text) {
                    assert(0 <= places[0] < text.len());
                    ascii_offsets_are_places(text, places[0] as nat);
                }
            }
        }
    }
}

/// What `subsequence_match_details` returns, in unbounded numbers.
pub open spec fn details_found(found: Option<(usize, usize, usize, usize)>) -> Option<
    (nat, nat, nat, nat),
> {
    match found {
        Some((first, last, gap_span, gap_count)) => Some(
            (first as nat, last as nat, gap_span as nat, gap_count as nat),
        ),
        None => None,
    }
}

/// How the query stands scattered in a text: the first place, the last, how many
/// other characters lie between them, and how many places come more than one
/// after the first. `None` if the query is empty or does not stand there.
fn subsequence_match_details(query: &Vec<char>, text: &Vec<char>) -> (found: Option<
    (usize, usize, usize, usize),
>)
    ensures
        details_found(found) == subsequence_details(query@, text@),
        query@.len() == 0 ==> found is None,
        found matches Some((first, last, gap_span, gap_count)) ==> first <= last < text@.len()
            && gap_span == last - first + 1 - query@.len(),
{
    if query.len() == 0 || text.len() == 0 {
        proof {
            if query@.len() > 0 {
                assert(find_char(text@, query@[0], 0) is None);
                assert(scattered(query@, text@, 0) == Some(Seq::<int>::empty()));
                lemma_not_scattered(query@, text@, 1, query@.len());
            }
        }
        return None;
    }
    let mut q_idx: usize = 0;
    let mut first: usize = 0;
    let mut last: usize = 0;
    let mut gap_count: usize = 0;
    let ghost mut places: Seq<int> = seq![];
    let mut t_idx: usize = 0;
    while t_idx < text.len()
        invariant
            t_idx <= text@.len(),
            q_idx < query@.len(),
            q_idx <= t_idx,
            scattered(query@, text@, q_idx as nat) == Some(places),
            places.len() == q_idx,
            q_idx > 0 ==> places[0] == first && places.last() == last && first + q_idx - 1 <= last
                < t_idx,
            gap_count == places_apart(places, q_idx as nat),
            gap_count <= q_idx,
            find_char(text@, query@[q_idx as int], next_place(places)) == find_char(
                text@,
                query@[q_idx as int],
                t_idx as int,
            ),
        decreases text@.len() - t_idx,
    {
        if text[t_idx] == query[q_idx] {
            let ghost before = places;
            if q_idx == 0 {
                first = t_idx;
            } else if t_idx > first + 1 {
                gap_count = gap_count + 1;
            }
            last = t_idx;
            q_idx = q_idx + 1;
            proof {
                places = before.push(t_idx as int);
                lemma_places_apart(before, places, (q_idx - 1) as nat);
            }
            if q_idx == query.len() {
                let gap_span: usize = last - first + 1 - query.len();
                return Some((first, last, gap_span, gap_count));
            }
        }
        t_idx = t_idx + 1;
    }
    proof {
        lemma_not_scattered(query@, text@, (q_idx + 1) as nat, query@.len());
    }
    None
}

proof fn lemma_places_apart(places: Seq<int>, longer: Seq<int>, n: nat)
    requires
        n <= places.len() <= longer.len(),
        forall|k: int| 0 <= k < places.len() ==> places[k] == longer[k],
    ensures
        places_apart(places, n) == places_apart(longer, n),
    decreases n,
{
    if n > 0 {
        lemma_places_apart(places, longer, (n - 1) as nat);
    }
}

/// A result in numbers.
pub open spec fn rank_found(found: Option<AbbreviationRank>) -> Option<AbbreviationKey> {
    match found {
        Some(rank) => Some(rank@),
        None => None,
    }
}

/// [`subsequence_match_details`] where other characters lie between those of the
/// query, else `None`.
fn find_spread(query: &Vec<char>, text: &Vec<char>) -> (found: Option<
    (usize, usize, usize, usize),
>)
    ensures
        found is Some <==> spread_places(query@, text@) is Some,
        found is Some ==> details_found(found) == subsequence_details(query@, text@),
        found matches Some((first, last, gap_span, gap_count)) ==> first <= last < text@.len()
            && gap_span == last - first + 1 - query@.len(),
{
    let details = subsequence_match_details(query, text);
    proof {
        subsequence_spans_its_length(query@, text@);
    }
    match details {
        Some((first, last, gap_span, gap_count)) if gap_span > 0 => Some(
            (first, last, gap_span, gap_count),
        ),
        _ => None,
    }
}

/// Whether the rank in a text is defined.
fn check_variant(query: &Vec<char>, scope: u8, text: &str) -> (defined: bool)
    ensures
        defined == is_defined(query@, (scope, text@)),
{
    let chars = chars_of(text);
    match find_spread(query, &chars) {
        None => true,
        Some((first, last, gap_span, gap_count)) => find_boundary(&chars, first).is_some(),
    }
}

/// The rank of a query whose characters stand scattered in a text.
fn rank_variant(query: &Vec<char>, priority: u8, scope: u8, text: &str) -> (found: Option<
    AbbreviationRank,
>)
    requires
        is_defined(query@, (scope, text@)),
    ensures
        rank_found(found) == scattered_offer(query@, priority as nat, (scope, text@)),
{
    let chars = chars_of(text);
    match find_spread(query, &chars) {
        None => None,
        Some((first, last, gap_span, gap_count)) => match find_boundary(&chars, first) {
            None => None,
            Some(place) => {
                let span: usize = last - first + 1;
                let (position_class, token_index, token_span_delta, field_len) =
                    structural_match_details(&chars, place, span);
                Some(
                    AbbreviationRank {
                        field_priority: priority,
                        variant_scope: scope,
                        position_class,
                        token_index,
                        gap_span,
                        gap_count,
                        start_idx: first,
                        field_len,
                    },
                )
            },
        },
    }
}

fn update_best(best: &mut Option<AbbreviationRank>, candidate: Option<AbbreviationRank>)
    ensures
        rank_found(*final(best)) == better(
            abbreviation_order(),
            rank_found(*old(best)),
            rank_found(candidate),
        ),
{
    match candidate {
        None => {},
        Some(rank) => {
            let replaces = match best {
                None => true,
                Some(current) => rank.ranks_before(current),
            };
            if replaces {
                *best = Some(rank);
            }
        },
    }
}

/// The scopes and texts to look at in a field.
fn list_variants(target: &str) -> (variants: Vec<(u8, String)>)
    ensures
        listed_variants(variants@) == variants_of(target@),
{
    let found = split_search_tokens(target);
    let ghost words = found.deep_view();
    let ghost scoped = words.map_values(|word: Seq<char>| (0u8, word));
    let mut variants: Vec<(u8, String)> = Vec::new();
    let mut i: usize = 0;
    while i < found.len()
        invariant
            i <= found@.len(),
            words == found.deep_view(),
            scoped == words.map_values(|word: Seq<char>| (0u8, word)),
            variants@.len() == i,
            forall|k: int|
                0 <= k < i ==> (#[trigger] variants@[k]).0 == scoped[k].0 && variants@[k].1@
                    == scoped[k].1,
        decreases found@.len() - i,
    {
        variants.push((0, found[i].to_owned()));
        i = i + 1;
    }
    variants.push((1, target.to_owned()));
    if found.len() > 1 {
        variants.push((2, concat(&found)));
    }
    assert(listed_variants(variants@) =~= variants_of(target@));
    variants
}

spec fn listed_variants(variants: Seq<(u8, String)>) -> Seq<(u8, Seq<char>)> {
    variants.map_values(|variant: (u8, String)| (variant.0, variant.1@))
}

fn improve_by_field(
    best: &mut Option<AbbreviationRank>,
    query: &Vec<char>,
    field: &SearchField<'_>,
)
    requires
        field_is_defined(query@, field.deep_view()),
    ensures
        rank_found(*final(best)) == improved(
            abbreviation_order(),
            rank_found(*old(best)),
            field_offers(query@, field.deep_view()),
        ),
{
    let value = trim(field.value);
    if value.unicode_len() == 0 {
        return;
    }
    let lowered = crate::text::to_lowercase(value);
    let variants = list_variants(lowered.as_str());
    let ghost texts = variants_of(lowered@);
    let ghost offers = field_offers(query@, field.deep_view());
    let mut i: usize = 0;
    assert(offers.take(0) =~= Seq::empty());
    while i < variants.len()
        invariant
            i <= variants@.len() == offers.len(),
            texts == variants_of(target_of(field.deep_view())),
            listed_variants(variants@) == texts,
            offers == field_offers(query@, field.deep_view()),
            field_is_defined(query@, field.deep_view()),
            trimmed(field.deep_view().value).len() > 0,
            rank_found(*best) == improved(
                abbreviation_order(),
                rank_found(*old(best)),
                offers.take(i as int),
            ),
        decreases variants@.len() - i,
    {
        let variant = &variants[i];
        proof {
            assert(texts[i as int] == (variant.0, variant.1@));
            assert(is_defined(query@, variants_of(target_of(field.deep_view()))[i as int]));
        }
        let found = rank_variant(query, field.priority, variant.0, variant.1.as_str());
        proof {
            assert(offers[i as int] == rank_found(found));
            assert(offers.take(i + 1) =~= offers.take(i as int).push(offers[i as int]));
            lemma_improved_push(
                abbreviation_order(),
                rank_found(*old(best)),
                offers.take(i as int),
                offers[i as int],
            );
        }
        update_best(best, found);
        i = i + 1;
    }
    assert(offers.take(offers.len() as int) =~= offers);
}

/// The best rank of a query of two characters or more among the fields.
pub(crate) fn best_abbreviation_rank(
    query: &Vec<char>,
    fields: &[SearchField<'_>],
) -> (best: Option<AbbreviationRank>)
    requires
        scattered_is_defined(query@, fields.deep_view()),
    ensures
        rank_found(best) == scattered_rank(query@, fields.deep_view()),
{
    if query.len() < 2 {
        return None;
    }
    let ghost records = fields.deep_view();
    let mut best: Option<AbbreviationRank> = None;
    let mut i: usize = 0;
    while i < fields.len()
        invariant
            i <= fields@.len(),
            query@.len() >= 2,
            records == fields.deep_view(),
            scattered_is_defined(query@, records),
            rank_found(best) == best_of(
                abbreviation_order(),
                scattered_offers(query@, records, i as nat),
            ),
        decreases fields@.len() - i,
    {
        proof {
            assert(field_is_defined(query@, records[i as int]));
            assert(records[i as int] == fields@[i as int].deep_view());
            lemma_improved_concat(
                abbreviation_order(),
                None,
                scattered_offers(query@, records, i as nat),
                field_offers(query@, records[i as int]),
            );
        }
        improve_by_field(&mut best, query, &fields[i]);
        i = i + 1;
    }
    best
}

fn check_field(query: &Vec<char>, field: &SearchField<'_>) -> (defined: bool)
    ensures
        defined == field_is_defined(query@, field.deep_view()),
{
    let value = trim(field.value);
    if value.unicode_len() == 0 {
        return true;
    }
    let lowered = crate::text::to_lowercase(value);
    let variants = list_variants(lowered.as_str());
    let ghost texts = variants_of(target_of(field.deep_view()));
    let mut i: usize = 0;
    while i < variants.len()
        invariant
            i <= variants@.len(),
            texts == variants_of(target_of(field.deep_view())),
            listed_variants(variants@) == texts,
            trimmed(field.deep_view().value).len() > 0,
            forall|k: int|
                0 <= k < i ==> is_defined(
                    query@,
                    #[trigger] variants_of(target_of(field.deep_view()))[k],
                ),
        decreases variants@.len() - i,
    {
        let variant = &variants[i];
        assert(texts[i as int] == (variant.0, variant.1@));
        if !check_variant(query, variant.0, variant.1.as_str()) {
            assert(!is_defined(query@, variants_of(target_of(field.deep_view()))[i as int]));
            return false;
        }
        i = i + 1;
    }
    true
}

/// Whether all ranks of a query among the fields are defined.
pub(crate) fn check_abbreviations(query: &Vec<char>, fields: &[SearchField<'_>]) -> (defined: bool)
    ensures
        defined == scattered_is_defined(query@, fields.deep_view()),
{
    if query.len() < 2 {
        return true;
    }
    let ghost records = fields.deep_view();
    let mut i: usize = 0;
    while i < fields.len()
        invariant
            i <= fields@.len(),
            query@.len() >= 2,
            records == fields.deep_view(),
            forall|k: int| 0 <= k < i ==> field_is_defined(query@, #[trigger] records[k]),
        decreases fields@.len() - i,
    {
        assert(records[i as int] == fields@[i as int].deep_view());
        if !check_field(query, &fields[i]) {
            assert(!field_is_defined(query@, records[i as int]));
            return false;
        }
        i = i + 1;
    }
    true
}

} // verus!
