//! How a query ranks among the fields of a record.

use vstd::prelude::*;

use crate::distance::edit_cost;
use crate::metadata::abbreviation::{
    abbreviation_order, is_scattered_at, places_apart, scattered_offer, scattered_offers,
    scattered_is_defined, scattered_rank, subsequence_is_earliest, subsequence_places,
    subsequence_spans_its_length,
};
use crate::metadata::fuzzy::{distance_order, fuzzy_is_defined, fuzzy_offers, fuzzy_rank};
use crate::metadata::literal::{
    cover_all, hits_are_disjoint_and_complete, hits_from, literal_offers, literal_rank,
    structural_order,
};
use crate::metadata::standing::{
    begins_at, boundary_is_unique, is_boundary, is_divider, match_end, place_of, standing, word_end,
    word_start,
};
use crate::metadata::{
    is_same_field, metadata_rank, rank_is_defined, target_of, with_field, Field,
};
use crate::order::{
    best_of_is_first_best, is_first_best, is_strict_weak_order, lemma_contains_concat,
};
use crate::ranking::{AbbreviationKey, DistanceKey, SearchKey, StructuralKey};
use crate::score::milli;
use crate::substring::{best_part, best_part_is_best, fuzzy_match, part_cost};
use crate::text::{compact, occurs_at, runs, search_tokens, trimmed, Separator};
use crate::unicode::{alphanumeric, ascii_lowercase, byte_len, lowercase};

verus! {

/// What a field is matched as: its value trimmed and in lower case.
pub open spec fn text_of(field: Field) -> Seq<char> {
    lowercase(trimmed(field.value))
}

/// How a match of `len` characters from `start` on stands in a text, which ends
/// where the match would if that is later: the class is 0 for a match that is all
/// of the text, 1 for one that begins and ends words, 2 for one that begins the
/// text, 3 for one that begins a word, 4 for one that ends one, and else 5.
pub open spec fn class_of(text: Seq<char>, start: int, len: nat) -> nat {
    let end = if start + len < text.len() {
        start + len
    } else {
        text.len() as int
    };
    let begins = start == 0 || !alphanumeric(text[start - 1]);
    let ends = end == text.len() || !alphanumeric(text[end]);
    if start == 0 && end == text.len() {
        0
    } else if begins && ends {
        1
    } else if start == 0 {
        2
    } else if begins {
        3
    } else if ends {
        4
    } else {
        5
    }
}

/// How a match stands in a text: its class; how many words the text has before
/// the word that it begins in, which begins at `from`; by how much its words,
/// which end at `to`, are longer or shorter than it; and how long the text is.
pub proof fn standing_is_that_of_words(
    text: Seq<char>,
    start: int,
    len: nat,
    from: int,
    to: int,
)
    requires
        0 <= from <= start <= text.len(),
        start + len <= text.len() ==> start + len <= to,
        start + len > text.len() ==> to == text.len(),
        to <= text.len(),
        forall|i: int| from <= i < start ==> alphanumeric(#[trigger] text[i]),
        forall|i: int| start + len <= i < to ==> alphanumeric(#[trigger] text[i]),
        from == 0 || !alphanumeric(text[from - 1]),
        to == text.len() || !alphanumeric(text[to]),
    ensures
        standing(text, start, len).position_class == class_of(text, start, len),
        standing(text, start, len).token_index == search_tokens(text.take(from)).len(),
        standing(text, start, len).token_span_delta == if to - from >= len {
            to - from - len
        } else {
            len - (to - from)
        },
        standing(text, start, len).field_len == text.len(),
{
    lemma_word_starts(text, start, from);
    let end = match_end(text, start, len);
    lemma_word_ends(text, end, to);
    lemma_runs_of_prefix(Separator::NonAlphanumeric, text, from as nat, from as nat);
    assert(search_tokens(text.take(from)).len() == runs(
        Separator::NonAlphanumeric,
        text.take(from),
        from as nat,
    ).len());
}

proof fn lemma_word_starts(text: Seq<char>, i: int, from: int)
    requires
        0 <= from <= i <= text.len(),
        forall|k: int| from <= k < i ==> alphanumeric(#[trigger] text[k]),
        from == 0 || !alphanumeric(text[from - 1]),
    ensures
        word_start(text, i) == from,
    decreases i,
{
    if from < i {
        assert(alphanumeric(text[i - 1]));
        lemma_word_starts(text, i - 1, from);
    }
}

proof fn lemma_word_ends(text: Seq<char>, i: int, to: int)
    requires
        0 <= i <= to <= text.len(),
        forall|k: int| i <= k < to ==> alphanumeric(#[trigger] text[k]),
        to == text.len() || !alphanumeric(text[to]),
    ensures
        word_end(text, i) == to,
    decreases text.len() - i,
{
    if i < to {
        assert(alphanumeric(text[i]));
        lemma_word_ends(text, i + 1, to);
    }
}

proof fn lemma_runs_of_prefix(separator: Separator, text: Seq<char>, n: nat, m: nat)
    requires
        n <= m <= text.len(),
    ensures
        runs(separator, text, n) == runs(separator, text.take(m as int), n),
    decreases n,
{
    if n > 0 {
        lemma_runs_of_prefix(separator, text, (n - 1) as nat, m);
    }
}

/// Whether `key` is the rank of the needle as it stands in a field at `at`: one of
/// the places that are found from left to right without overlap.
pub open spec fn is_literal_rank(
    needle: Seq<char>,
    field: Field,
    at: int,
    key: StructuralKey,
) -> bool {
    let text = text_of(field);
    let found = standing(text, at, needle.len());
    &&& trimmed(field.value).len() > 0
    &&& hits_from(text, needle, 0).contains(at)
    &&& key == (StructuralKey {
        field_priority: field.priority as nat,
        position_class: found.position_class,
        token_index: found.token_index,
        token_span_delta: found.token_span_delta,
        start_idx: at as nat,
        field_len: text.len(),
    })
}

/// Whether some field that is not blank holds the needle.
pub open spec fn is_held(needle: Seq<char>, fields: Seq<Field>) -> bool {
    exists|i: int, at: int|
        0 <= i < fields.len() && trimmed((#[trigger] fields[i]).value).len() > 0 && 0 <= at
            && at + needle.len() <= text_of(fields[i]).len() && #[trigger] text_of(
            fields[i],
        ).subrange(at, at + needle.len()) == needle
}

/// A needle has a structural rank if and only if some field holds it. The rank is
/// that of a place where a field holds it, and no such place ranks before it.
pub proof fn literal_rank_is_best_of_all_places(
    needle: Seq<char>,
    fields: Seq<Field>,
    i: int,
    at: int,
    other: StructuralKey,
)
    requires
        needle.len() > 0,
    ensures
        literal_rank(needle, fields) is Some <==> is_held(needle, fields),
        literal_rank(needle, fields) matches Some(best) ==> exists|i: int, at: int|
            0 <= i < fields.len() && #[trigger] is_literal_rank(needle, fields[i], at, best),
        0 <= i < fields.len() && is_literal_rank(needle, fields[i], at, other) ==> (literal_rank(
            needle,
            fields,
        ) matches Some(best) && !other.ranks_before(best)),
{
    let offers = literal_offers(needle, fields, fields.len());
    assert(is_strict_weak_order(structural_order()));
    best_of_is_first_best(structural_order(), offers);
    if let Some(best) = literal_rank(needle, fields) {
        let place = choose|place: int|
            is_first_best(structural_order(), offers, place, best);
        assert(offers.contains(Some(best)));
        lemma_literal_offers(needle, fields, fields.len(), best);
        let (k, hit) = choose|i: int, at: int|
            0 <= i < fields.len() && #[trigger] is_literal_rank(needle, fields[i], at, best);
        let text = text_of(fields[k]);
        hits_are_disjoint_and_complete(text, needle, 0);
        let hits = hits_from(text, needle, 0);
        let n = choose|n: int| 0 <= n < hits.len() && hits[n] == hit;
        assert(occurs_at(text, needle, hits[n]));
        assert(text_of(fields[k]).subrange(hit, hit + needle.len()) == needle);
    }
    if is_held(needle, fields) {
        let (k, held) = choose|i: int, at: int|
            0 <= i < fields.len() && trimmed((#[trigger] fields[i]).value).len() > 0 && 0 <= at
                && at + needle.len() <= text_of(fields[i]).len() && #[trigger] text_of(
                fields[i],
            ).subrange(at, at + needle.len()) == needle;
        let text = text_of(fields[k]);
        hits_are_disjoint_and_complete(text, needle, 0);
        assert(occurs_at(text, needle, held));
        let hits = hits_from(text, needle, 0);
        assert(hits.len() > 0) by {
            reveal(cover_all);
        }
        let found = standing(text, hits[0], needle.len());
        let key = StructuralKey {
            field_priority: fields[k].priority as nat,
            position_class: found.position_class,
            token_index: found.token_index,
            token_span_delta: found.token_span_delta,
            start_idx: hits[0] as nat,
            field_len: text.len(),
        };
        assert(hits.contains(hits[0]));
        assert(is_literal_rank(needle, fields[k], hits[0], key));
        lemma_literal_offers(needle, fields, fields.len(), key);
        assert(offers.contains(Some(key)));
    }
    if 0 <= i < fields.len() && is_literal_rank(needle, fields[i], at, other) {
        lemma_literal_offers(needle, fields, fields.len(), other);
        assert(offers.contains(Some(other)));
    }
}

proof fn lemma_literal_offers(
    needle: Seq<char>,
    fields: Seq<Field>,
    n: nat,
    key: StructuralKey,
)
    requires
        n <= fields.len(),
    ensures
        literal_offers(needle, fields, n).contains(Some(key)) <==> exists|i: int, at: int|
            0 <= i < n && #[trigger] is_literal_rank(needle, fields[i], at, key),
    decreases n,
{
    if n > 0 {
        let i = n - 1;
        let before = literal_offers(needle, fields, i as nat);
        let now = crate::metadata::literal::field_offers(needle, fields[i]);
        let hits = hits_from(text_of(fields[i]), needle, 0);
        lemma_literal_offers(needle, fields, i as nat, key);
        lemma_contains_concat(before, now, Some(key));
        if now.contains(Some(key)) {
            let k = choose|k: int| 0 <= k < now.len() && now[k] == Some(key);
            assert(hits.contains(hits[k]));
            assert(is_literal_rank(needle, fields[i], hits[k], key));
        }
        assert forall|at: int| #[trigger]
            is_literal_rank(needle, fields[i], at, key) implies now.contains(Some(key)) by {
            let k = choose|k: int| 0 <= k < hits.len() && hits[k] == at;
            assert(now[k] == Some(key));
        }
    }
}

/// Whether `text` is looked at in a target under this scope: a word of it, all of
/// it, or its words put together, if there are several.
pub open spec fn is_looked_at(target: Seq<char>, scope: nat, text: Seq<char>) -> bool {
    ||| scope == 0 && search_tokens(target).contains(text)
    ||| scope == 1 && text == target
    ||| scope == 2 && search_tokens(target).len() > 1 && text == search_tokens(target).flatten()
}

/// Whether the characters of `query` stand in `text` at these places, one after
/// the other, and none of them can stand earlier.
pub open spec fn is_earliest(query: Seq<char>, text: Seq<char>, places: Seq<int>) -> bool {
    &&& is_scattered_at(query, text, places)
    &&& forall|other: Seq<int>, k: int|
        is_scattered_at(query, text, other) && 0 <= k < query.len() ==> #[trigger] places[k]
            <= #[trigger] other[k]
}

/// Whether `key` is the rank of a query whose characters stand in a field at these
/// places, with others between them, however many: the first place, how many
/// others lie between it and the last, and how many places come more than one
/// after the first.
pub open spec fn is_abbreviation_rank(
    query: Seq<char>,
    field: Field,
    text: Seq<char>,
    places: Seq<int>,
    key: AbbreviationKey,
) -> bool {
    let span = places.last() - places[0] + 1;
    let found = standing(text, place_of(text, places[0] as nat), span as nat);
    &&& trimmed(field.value).len() > 0
    &&& is_looked_at(text_of(field), key.variant_scope, text)
    &&& query.len() > 0
    &&& is_earliest(query, text, places)
    &&& span > query.len()
    &&& key.field_priority == field.priority
    &&& key.position_class == found.position_class
    &&& key.token_index == found.token_index
    &&& key.gap_span == span - query.len()
    &&& key.gap_count == places.filter(|place: int| place > places[0] + 1).len()
    &&& key.start_idx == places[0]
    &&& key.field_len == text.len()
}

/// A query of two characters or more has an abbreviation rank if and only if its
/// characters stand in some field with others between them. The rank is that of
/// such a field, and no other ranks before it. A shorter query has none.
pub proof fn scattered_rank_is_best_of_all_readings(
    query: Seq<char>,
    fields: Seq<Field>,
    i: int,
    text: Seq<char>,
    places: Seq<int>,
    other: AbbreviationKey,
)
    ensures
        query.len() < 2 ==> scattered_rank(query, fields) is None,
        scattered_rank(query, fields) matches Some(best) ==> exists|
            i: int,
            text: Seq<char>,
            places: Seq<int>,
        |
            0 <= i < fields.len() && #[trigger] is_abbreviation_rank(
                query,
                fields[i],
                text,
                places,
                best,
            ),
        query.len() >= 2 && 0 <= i < fields.len() && is_abbreviation_rank(
            query,
            fields[i],
            text,
            places,
            other,
        ) ==> (scattered_rank(query, fields) matches Some(best) && !other.ranks_before(best)),
{
    let offers = scattered_offers(query, fields, fields.len());
    assert(is_strict_weak_order(abbreviation_order()));
    best_of_is_first_best(abbreviation_order(), offers);
    if let Some(best) = scattered_rank(query, fields) {
        assert(offers.contains(Some(best)));
        lemma_scattered_offers(query, fields, fields.len(), best);
    }
    if query.len() >= 2 && 0 <= i < fields.len() && is_abbreviation_rank(
        query,
        fields[i],
        text,
        places,
        other,
    ) {
        lemma_scattered_offers(query, fields, fields.len(), other);
        assert(offers.contains(Some(other)));
    }
}

proof fn lemma_scattered_offers(
    query: Seq<char>,
    fields: Seq<Field>,
    n: nat,
    key: AbbreviationKey,
)
    requires
        n <= fields.len(),
        query.len() > 0,
    ensures
        scattered_offers(query, fields, n).contains(Some(key)) <==> exists|
            i: int,
            text: Seq<char>,
            places: Seq<int>,
        |
            0 <= i < n && #[trigger] is_abbreviation_rank(query, fields[i], text, places, key),
    decreases n,
{
    if n > 0 {
        let i = n - 1;
        let field = fields[i];
        let before = scattered_offers(query, fields, i as nat);
        let now = crate::metadata::abbreviation::field_offers(query, field);
        let target = text_of(field);
        let words = search_tokens(target);
        let variants = crate::metadata::abbreviation::variants_of(target);
        lemma_scattered_offers(query, fields, i as nat, key);
        lemma_contains_concat(before, now, Some(key));
        if now.contains(Some(key)) {
            let k = choose|k: int| 0 <= k < now.len() && now[k] == Some(key);
            let variant = variants[k];
            let text = variant.1;
            assert(scattered_offer(query, field.priority as nat, variant) == Some(key));
            if k < words.len() {
                assert(variant == (0u8, words[k]));
                assert(words.contains(text));
            }
            assert(is_looked_at(target, key.variant_scope, text));
            lemma_scattered_offer(query, field, variant, key);
            let places = choose|places: Seq<int>|
                #[trigger] is_abbreviation_rank(query, field, text, places, key);
            assert(is_abbreviation_rank(query, fields[i], text, places, key));
        }
        assert forall|text: Seq<char>, places: Seq<int>| #[trigger]
            is_abbreviation_rank(query, field, text, places, key) implies now.contains(
            Some(key),
        ) by {
            let k = if key.variant_scope == 0 {
                choose|k: int| 0 <= k < words.len() && words[k] == text
            } else if key.variant_scope == 1 {
                words.len() as int
            } else {
                words.len() + 1int
            };
            let variant = variants[k];
            assert(variant.0 == key.variant_scope && variant.1 == text);
            lemma_scattered_offer(query, field, variant, key);
            assert(now[k] == Some(key));
        }
    }
}

proof fn lemma_scattered_offer(
    query: Seq<char>,
    field: Field,
    variant: (u8, Seq<char>),
    key: AbbreviationKey,
)
    requires
        query.len() > 0,
        trimmed(field.value).len() > 0,
        is_looked_at(text_of(field), variant.0 as nat, variant.1),
    ensures
        scattered_offer(query, field.priority as nat, variant) == Some(key) ==> exists|
            places: Seq<int>,
        |
            #[trigger] is_abbreviation_rank(query, field, variant.1, places, key),
        forall|places: Seq<int>| #[trigger]
            is_abbreviation_rank(query, field, variant.1, places, key) && key.variant_scope
                == variant.0 ==> scattered_offer(query, field.priority as nat, variant) == Some(
                key,
            ),
{
    let text = variant.1;
    if let Some(places) = subsequence_places(query, text) {
        lemma_earliest(query, text, places);
        subsequence_spans_its_length(query, text);
        lemma_apart_is_filter(places, places.len());
        assert(places.take(places.len() as int) =~= places);
        if scattered_offer(query, field.priority as nat, variant) == Some(key) {
            assert(is_abbreviation_rank(query, field, text, places, key));
        }
    }
    assert forall|other: Seq<int>| #[trigger]
        is_abbreviation_rank(query, field, text, other, key) && key.variant_scope
            == variant.0 implies scattered_offer(query, field.priority as nat, variant) == Some(
        key,
    ) by {
        subsequence_is_earliest(query, text, other);
        let places = subsequence_places(query, text)->0;
        lemma_earliest(query, text, places);
        assert forall|k: int| 0 <= k < query.len() implies #[trigger] places[k] == other[k] by {
            assert(places[k] <= other[k]);
            assert(other[k] <= places[k]);
        }
        assert(places =~= other);
    }
}

proof fn lemma_earliest(query: Seq<char>, text: Seq<char>, places: Seq<int>)
    requires
        subsequence_places(query, text) == Some(places),
    ensures
        is_earliest(query, text, places),
        places.len() == query.len() > 0,
{
    subsequence_is_earliest(query, text, places);
    assert forall|other: Seq<int>, k: int|
        is_scattered_at(query, text, other) && 0 <= k < query.len() implies #[trigger] places[k]
        <= #[trigger] other[k] by {
        subsequence_is_earliest(query, text, other);
    }
}

proof fn lemma_apart_is_filter(places: Seq<int>, n: nat)
    requires
        n <= places.len(),
    ensures
        places_apart(places, n) == places.take(n as int).filter(
            |place: int| place > places[0] + 1,
        ).len(),
    decreases n,
{
    reveal(Seq::filter);
    if n > 0 {
        lemma_apart_is_filter(places, (n - 1) as nat);
        assert(places.take(n as int).drop_last() =~= places.take(n - 1));
    }
}

/// Whether `query` is looked for in `text` under this scope: the needle in all of
/// the target, the needle in a word of it, or the needle's letters and digits in
/// its words put together, if the needle has nothing else and the target several.
pub open spec fn is_looked_for(
    needle: Seq<char>,
    target: Seq<char>,
    scope: nat,
    query: Seq<char>,
    text: Seq<char>,
) -> bool {
    ||| scope == 0 && query == needle && text == target
    ||| scope == 1 && query == needle && search_tokens(target).contains(text)
    ||| scope == 2 && query == compact(needle) && text == search_tokens(target).flatten()
        && search_tokens(target).len() > 1 && compact(needle).len() > 0 && forall|i: int|
        0 <= i < needle.len() ==> alphanumeric(#[trigger] needle[i])
}

/// Whether `key` is the rank of a needle that a field holds up to edits.
pub open spec fn is_distance_rank(
    needle: Seq<char>,
    field: Field,
    query: Seq<char>,
    text: Seq<char>,
    key: DistanceKey,
) -> bool {
    &&& trimmed(field.value).len() > 0
    &&& is_looked_for(needle, text_of(field), key.variant_scope, query, text)
    &&& fuzzy_match(lowercase(query), lowercase(text)) == Some((key.distance, key.start_idx))
    &&& key.ratio_milli == milli(
        key.distance,
        if query.len() >= text.len() {
            query.len()
        } else {
            text.len()
        },
    )
    &&& key.field_priority == field.priority
    &&& ({
        let found = standing(text, place_of(text, key.start_idx), query.len());
        &&& key.position_class == found.position_class
        &&& key.token_index == found.token_index
        &&& key.token_span_delta == found.token_span_delta
    })
    &&& key.field_len == text.len()
}

/// A needle that is not empty has a distance rank if and only if some field holds
/// it up to edits. The rank is that of such a field, and no other ranks before it.
pub proof fn distance_rank_is_best_of_all_readings(
    needle: Seq<char>,
    fields: Seq<Field>,
    i: int,
    query: Seq<char>,
    text: Seq<char>,
    other: DistanceKey,
)
    ensures
        needle.len() == 0 ==> fuzzy_rank(needle, fields) is None,
        fuzzy_rank(needle, fields) matches Some(best) ==> exists|
            i: int,
            query: Seq<char>,
            text: Seq<char>,
        |
            0 <= i < fields.len() && #[trigger] is_distance_rank(
                needle,
                fields[i],
                query,
                text,
                best,
            ),
        needle.len() > 0 && 0 <= i < fields.len() && is_distance_rank(
            needle,
            fields[i],
            query,
            text,
            other,
        ) ==> (fuzzy_rank(needle, fields) matches Some(best) && !other.ranks_before(best)),
{
    let offers = fuzzy_offers(needle, fields, fields.len());
    assert(is_strict_weak_order(distance_order()));
    best_of_is_first_best(distance_order(), offers);
    if let Some(best) = fuzzy_rank(needle, fields) {
        assert(offers.contains(Some(best)));
        lemma_fuzzy_offers(needle, fields, fields.len(), best);
    }
    if needle.len() > 0 && 0 <= i < fields.len() && is_distance_rank(
        needle,
        fields[i],
        query,
        text,
        other,
    ) {
        lemma_fuzzy_offers(needle, fields, fields.len(), other);
        assert(offers.contains(Some(other)));
    }
}

proof fn lemma_fuzzy_offers(needle: Seq<char>, fields: Seq<Field>, n: nat, key: DistanceKey)
    requires
        n <= fields.len(),
    ensures
        fuzzy_offers(needle, fields, n).contains(Some(key)) <==> exists|
            i: int,
            query: Seq<char>,
            text: Seq<char>,
        |
            0 <= i < n && #[trigger] is_distance_rank(needle, fields[i], query, text, key),
    decreases n,
{
    if n > 0 {
        let i = n - 1;
        let field = fields[i];
        let before = fuzzy_offers(needle, fields, i as nat);
        let now = crate::metadata::fuzzy::field_offers(needle, field);
        let target = text_of(field);
        let words = search_tokens(target);
        let variants = crate::metadata::fuzzy::variants_of(needle, target);
        lemma_one_word(needle);
        lemma_fuzzy_offers(needle, fields, i as nat, key);
        lemma_contains_concat(before, now, Some(key));
        if now.contains(Some(key)) {
            let k = choose|k: int| 0 <= k < now.len() && now[k] == Some(key);
            let variant = variants[k];
            assert(variant.offer(field.priority as nat) == Some(key));
            if 0 < k <= words.len() {
                assert(variant.text == words[k - 1]);
                assert(words.contains(variant.text));
            }
            assert(is_looked_for(needle, target, key.variant_scope, variant.query, variant.text));
            assert(is_distance_rank(needle, fields[i], variant.query, variant.text, key));
        }
        assert forall|query: Seq<char>, text: Seq<char>| #[trigger]
            is_distance_rank(needle, field, query, text, key) implies now.contains(Some(key)) by {
            let k = if key.variant_scope == 0 {
                0
            } else if key.variant_scope == 1 {
                1 + choose|k: int| 0 <= k < words.len() && words[k] == text
            } else {
                words.len() + 1int
            };
            let variant = variants[k];
            assert(variant.scope == key.variant_scope && variant.query == query && variant.text
                == text);
            assert(now[k] == variant.offer(field.priority as nat));
            assert(now[k] == Some(key));
        }
    }
}

proof fn lemma_one_word(needle: Seq<char>)
    ensures
        crate::metadata::fuzzy::is_one_word(needle) <==> compact(needle).len() > 0 && forall|i: int|
            0 <= i < needle.len() ==> alphanumeric(#[trigger] needle[i]),
{
    if crate::metadata::fuzzy::is_one_word(needle) {
        assert forall|i: int| 0 <= i < needle.len() implies alphanumeric(#[trigger] needle[i]) by {
            assert(!is_divider(needle[i]));
        }
    }
    if forall|i: int| 0 <= i < needle.len() ==> alphanumeric(#[trigger] needle[i]) {
        assert forall|i: int| 0 <= i < needle.len() implies !is_divider(#[trigger] needle[i]) by {
            assert(alphanumeric(needle[i]));
        }
    }
}

/// A text holds a query up to edits if and only if some part of it takes no more
/// than half the query's length. The distance is the least that a part takes, and
/// the place is the query's length before the first end of such a part, or the
/// beginning of the text.
pub proof fn fuzzy_match_is_of_nearest_part(query: Seq<char>, text: Seq<char>)
    ensures
        fuzzy_match(query, text) is Some <==> exists|start: int, end: int|
            0 <= start <= end <= text.len() && (#[trigger] edit_cost(
                query,
                text.subrange(start, end),
            )).total() <= query.len() / 2,
        fuzzy_match(query, text) matches Some((distance, at)) ==> exists|start: int, end: int|
            {
                &&& 0 <= start <= end <= text.len()
                &&& (#[trigger] edit_cost(query, text.subrange(start, end))).total() == distance
                &&& at == if end >= query.len() {
                    end - query.len()
                } else {
                    0
                }
                &&& forall|other: int, other_end: int|
                    0 <= other <= other_end <= text.len() ==> {
                        let cost = (#[trigger] edit_cost(
                            query,
                            text.subrange(other, other_end),
                        )).total();
                        cost > distance || cost == distance && other_end >= end
                    }
            },
{
    best_part_is_best(query, text);
    let (start, end) = best_part(query, text);
    let least = part_cost(query, text, start, end);
    assert forall|other: int, other_end: int| 0 <= other <= other_end <= text.len() implies {
        let cost = (#[trigger] edit_cost(query, text.subrange(other, other_end))).total();
        cost > least || cost == least && other_end >= end
    } by {
        assert(part_cost(query, text, other, other_end) >= least);
    }
    assert(edit_cost(query, text.subrange(start, end)).total() == least);
}

/// A query that asks for typos is ranked by distance. Any other is ranked as it
/// stands if some field holds it, else scattered if some field holds it so, and
/// else by distance. It is trimmed and in lower case, and scattered it is its
/// letters and digits.
pub proof fn ways_to_rank_are_tried_in_turn(query: Seq<char>, fields: Seq<Field>)
    ensures
        ({
            let needle = lowercase(trimmed(query));
            let (literal, scattered, near) = (
                literal_rank(needle, fields),
                scattered_rank(compact(needle), fields),
                fuzzy_rank(needle, fields),
            );
            &&& near matches Some(rank) ==> metadata_rank(query, true, fields) == Some(
                SearchKey::Typo(rank),
            )
            &&& near is None ==> metadata_rank(query, true, fields) is None
            &&& literal matches Some(rank) ==> metadata_rank(query, false, fields) == Some(
                SearchKey::Structure(rank),
            )
            &&& literal is None ==> {
                &&& scattered matches Some(rank) ==> metadata_rank(query, false, fields) == Some(
                    SearchKey::Abbreviation(rank),
                )
                &&& scattered is None ==> {
                    &&& near matches Some(rank) ==> metadata_rank(query, false, fields) == Some(
                        SearchKey::Fuzzy(rank),
                    )
                    &&& near is None ==> metadata_rank(query, false, fields) is None
                }
            }
        }),
{
}

/// A query of two letters and digits or more that stands scattered in a field,
/// with others between its characters, however many, and that no field holds as it
/// is, is ranked as an abbreviation, of a field that counts no less.
pub proof fn scattered_query_is_found(
    query: Seq<char>,
    fields: Seq<Field>,
    i: int,
    places: Seq<int>,
)
    requires
        compact(lowercase(trimmed(query))).len() >= 2,
        0 <= i < fields.len(),
        trimmed(fields[i].value).len() > 0,
        is_earliest(compact(lowercase(trimmed(query))), text_of(fields[i]), places),
        places.last() - places[0] + 1 > compact(lowercase(trimmed(query))).len(),
        !is_held(lowercase(trimmed(query)), fields),
    ensures
        metadata_rank(query, false, fields) matches Some(SearchKey::Abbreviation(rank))
            && rank.field_priority <= fields[i].priority,
{
    let needle = lowercase(trimmed(query));
    let letters = compact(needle);
    let text = text_of(fields[i]);
    let span = places.last() - places[0] + 1;
    let found = standing(text, place_of(text, places[0] as nat), span as nat);
    let key = AbbreviationKey {
        field_priority: fields[i].priority as nat,
        variant_scope: 1,
        position_class: found.position_class,
        token_index: found.token_index,
        gap_span: (span - letters.len()) as nat,
        gap_count: places.filter(|place: int| place > places[0] + 1).len(),
        start_idx: places[0] as nat,
        field_len: text.len(),
    };
    assert(0 <= places[0]);
    assert(is_abbreviation_rank(letters, fields[i], text, places, key));
    scattered_rank_is_best_of_all_readings(letters, fields, i, text, places, key);
    if needle.len() > 0 {
        literal_rank_is_best_of_all_places(
            needle,
            fields,
            0,
            0,
            StructuralKey {
                field_priority: 0,
                position_class: 0,
                token_index: 0,
                token_span_delta: 0,
                start_idx: 0,
                field_len: 0,
            },
        );
    }
    ways_to_rank_are_tried_in_turn(query, fields);
}

/// A query that some field holds, all of it or a word, within half its length in
/// edits has a rank, and with typos asked for one of no more edits.
pub proof fn near_query_is_found(
    query: Seq<char>,
    fields: Seq<Field>,
    i: int,
    text: Seq<char>,
    start: int,
    end: int,
)
    requires
        lowercase(trimmed(query)).len() > 0,
        0 <= i < fields.len(),
        trimmed(fields[i].value).len() > 0,
        text == text_of(fields[i]) || search_tokens(text_of(fields[i])).contains(text),
        0 <= start <= end <= lowercase(text).len(),
        edit_cost(
            lowercase(lowercase(trimmed(query))),
            lowercase(text).subrange(start, end),
        ).total() <= lowercase(lowercase(trimmed(query))).len() / 2,
    ensures
        metadata_rank(query, false, fields) is Some,
        metadata_rank(query, true, fields) matches Some(SearchKey::Typo(rank)) && rank.distance
            <= edit_cost(
            lowercase(lowercase(trimmed(query))),
            lowercase(text).subrange(start, end),
        ).total(),
{
    let needle = lowercase(trimmed(query));
    let lowered = lowercase(needle);
    fuzzy_match_is_of_nearest_part(lowered, lowercase(text));
    let (distance, at) = fuzzy_match(lowered, lowercase(text))->0;
    let found = standing(text, place_of(text, at), needle.len());
    let key = DistanceKey {
        distance,
        ratio_milli: milli(
            distance,
            if needle.len() >= text.len() {
                needle.len()
            } else {
                text.len()
            },
        ),
        field_priority: fields[i].priority as nat,
        variant_scope: if text == text_of(fields[i]) {
            0
        } else {
            1
        },
        position_class: found.position_class,
        token_index: found.token_index,
        token_span_delta: found.token_span_delta,
        start_idx: at,
        field_len: text.len(),
    };
    assert(is_distance_rank(needle, fields[i], needle, text, key));
    distance_rank_is_best_of_all_readings(needle, fields, i, needle, text, key);
    ways_to_rank_are_tried_in_turn(query, fields);
}

/// A field is added, trimmed and at the end, if its value is not blank and no field
/// of the same priority has the same value but for the case of ASCII letters.
/// Otherwise the fields stay as they are.
pub proof fn new_field_is_added(fields: Seq<Field>, priority: u8, value: Seq<char>)
    ensures
        ({
            let text = trimmed(value);
            let known = exists|i: int|
                0 <= i < fields.len() && (#[trigger] fields[i]).priority == priority
                    && ascii_lowercase(fields[i].value) == ascii_lowercase(text);
            &&& text.len() > 0 && !known ==> with_field(fields, priority, Some(value))
                == fields.push(Field { priority, value: text })
            &&& text.len() == 0 || known ==> with_field(fields, priority, Some(value)) == fields
            &&& with_field(fields, priority, None) == fields
        }),
{
    let field = Field { priority, value: trimmed(value) };
    assert forall|i: int| 0 <= i < fields.len() implies (is_same_field(
        #[trigger] fields[i],
        field,
    ) <==> fields[i].priority == priority && ascii_lowercase(fields[i].value) == ascii_lowercase(
        field.value,
    )) by {}
    if exists|i: int|
        0 <= i < fields.len() && (#[trigger] fields[i]).priority == priority && ascii_lowercase(
            fields[i].value,
        ) == ascii_lowercase(field.value) {
        let i = choose|i: int|
            0 <= i < fields.len() && (#[trigger] fields[i]).priority == priority
                && ascii_lowercase(fields[i].value) == ascii_lowercase(field.value);
        assert(is_same_field(fields[i], field));
    }
}

/// A byte of a text is a boundary if and only if the characters before some place
/// take as many bytes, and it is then that place.
pub proof fn boundary_counts_bytes(text: Seq<char>, offset: nat, place: int)
    ensures
        0 <= place <= text.len() && byte_len(text.take(place)) == offset ==> is_boundary(
            text,
            offset,
        ) && place_of(text, offset) == place,
        is_boundary(text, offset) ==> 0 <= place_of(text, offset) <= text.len() && byte_len(
            text.take(place_of(text, offset)),
        ) == offset,
{
    if 0 <= place <= text.len() && byte_len(text.take(place)) == offset {
        boundary_is_unique(text, offset, place);
    }
    if is_boundary(text, offset) {
        let found = place_of(text, offset);
        assert(begins_at(text, offset, found));
    }
}

/// The abbreviation ranks of a query are defined if and only if, wherever its
/// characters stand in a field with others between them, the first place taken as
/// a byte begins a character. Those of a query of less than two characters are.
pub proof fn scattered_ranks_are_defined_at_boundaries(query: Seq<char>, fields: Seq<Field>)
    ensures
        query.len() < 2 ==> scattered_is_defined(query, fields),
        query.len() >= 2 ==> (scattered_is_defined(query, fields) <==> forall|
            i: int,
            scope: nat,
            text: Seq<char>,
            places: Seq<int>,
        |
            0 <= i < fields.len() && trimmed(fields[i].value).len() > 0 && #[trigger] is_looked_at(
                text_of(fields[i]),
                scope,
                text,
            ) && #[trigger] is_earliest(query, text, places) && places.last() - places[0] + 1
                > query.len() ==> is_boundary(text, places[0] as nat)),
{
    if query.len() >= 2 {
        if scattered_is_defined(query, fields) {
            assert forall|i: int, scope: nat, text: Seq<char>, places: Seq<int>|
                0 <= i < fields.len() && trimmed(fields[i].value).len() > 0
                    && #[trigger] is_looked_at(text_of(fields[i]), scope, text)
                    && #[trigger] is_earliest(query, text, places) && places.last() - places[0] + 1
                    > query.len() implies is_boundary(text, places[0] as nat) by {
                let target = target_of(fields[i]);
                let variants = crate::metadata::abbreviation::variants_of(target);
                let words = search_tokens(target);
                let k = if scope == 0 {
                    choose|k: int| 0 <= k < words.len() && words[k] == text
                } else if scope == 1 {
                    words.len() as int
                } else {
                    words.len() + 1int
                };
                assert(crate::metadata::abbreviation::field_is_defined(query, fields[i]));
                assert(variants[k].1 == text);
                assert(crate::metadata::abbreviation::is_defined(query, variants[k]));
                lemma_earliest_is_found(query, text, places);
            }
        }
        if forall|i: int, scope: nat, text: Seq<char>, places: Seq<int>|
            0 <= i < fields.len() && trimmed(fields[i].value).len() > 0 && #[trigger] is_looked_at(
                text_of(fields[i]),
                scope,
                text,
            ) && #[trigger] is_earliest(query, text, places) && places.last() - places[0] + 1
                > query.len() ==> is_boundary(text, places[0] as nat) {
            assert forall|i: int| 0 <= i < fields.len() implies
            crate::metadata::abbreviation::field_is_defined(query, #[trigger] fields[i]) by {
                let target = text_of(fields[i]);
                let variants = crate::metadata::abbreviation::variants_of(target);
                let words = search_tokens(target);
                assert forall|k: int|
                    0 <= k < variants.len() && trimmed(fields[i].value).len() > 0 implies
                crate::metadata::abbreviation::is_defined(query, #[trigger] variants[k]) by {
                    let text = variants[k].1;
                    if k < words.len() {
                        assert(words.contains(text)) by {
                            assert(words[k] == text);
                        }
                    }
                    assert(is_looked_at(target, variants[k].0 as nat, text));
                    if let Some(places) = subsequence_places(query, text) {
                        lemma_earliest(query, text, places);
                    }
                }
            }
        }
    }
}

proof fn lemma_earliest_is_found(query: Seq<char>, text: Seq<char>, places: Seq<int>)
    requires
        query.len() > 0,
        is_earliest(query, text, places),
    ensures
        subsequence_places(query, text) == Some(places),
{
    subsequence_is_earliest(query, text, places);
    let found = subsequence_places(query, text)->0;
    lemma_earliest(query, text, found);
    assert forall|k: int| 0 <= k < query.len() implies #[trigger] found[k] == places[k] by {
        assert(found[k] <= places[k]);
        assert(places[k] <= found[k]);
    }
    assert(found =~= places);
}

/// The distance ranks of a needle are defined if and only if, wherever a field
/// holds it up to edits, the place taken as a byte begins a character. Those of an
/// empty needle are.
pub proof fn distance_ranks_are_defined_at_boundaries(needle: Seq<char>, fields: Seq<Field>)
    ensures
        needle.len() == 0 ==> fuzzy_is_defined(needle, fields),
        needle.len() > 0 ==> (fuzzy_is_defined(needle, fields) <==> forall|
            i: int,
            scope: nat,
            query: Seq<char>,
            text: Seq<char>,
        |
            0 <= i < fields.len() && trimmed(fields[i].value).len() > 0 && #[trigger] is_looked_for(
                needle,
                text_of(fields[i]),
                scope,
                query,
                text,
            ) ==> (fuzzy_match(lowercase(query), lowercase(text)) matches Some((distance, at))
                ==> is_boundary(text, at))),
{
    lemma_one_word(needle);
    if needle.len() > 0 {
        if fuzzy_is_defined(needle, fields) {
            assert forall|i: int, scope: nat, query: Seq<char>, text: Seq<char>|
                0 <= i < fields.len() && trimmed(fields[i].value).len() > 0
                    && #[trigger] is_looked_for(
                    needle,
                    text_of(fields[i]),
                    scope,
                    query,
                    text,
                ) implies (fuzzy_match(lowercase(query), lowercase(text)) matches Some(
                (distance, at),
            ) ==> is_boundary(text, at)) by {
                let target = target_of(fields[i]);
                let variants = crate::metadata::fuzzy::variants_of(needle, target);
                let words = search_tokens(target);
                let k = if scope == 0 {
                    0
                } else if scope == 1 {
                    1 + choose|k: int| 0 <= k < words.len() && words[k] == text
                } else {
                    words.len() + 1int
                };
                assert(crate::metadata::fuzzy::field_is_defined(needle, fields[i]));
                assert(variants[k].query == query && variants[k].text == text);
                assert(variants[k].is_defined());
            }
        }
        if forall|i: int, scope: nat, query: Seq<char>, text: Seq<char>|
            0 <= i < fields.len() && trimmed(fields[i].value).len() > 0 && #[trigger] is_looked_for(
                needle,
                text_of(fields[i]),
                scope,
                query,
                text,
            ) ==> (fuzzy_match(lowercase(query), lowercase(text)) matches Some((distance, at))
                ==> is_boundary(text, at)) {
            assert forall|i: int| 0 <= i < fields.len() implies
            crate::metadata::fuzzy::field_is_defined(needle, #[trigger] fields[i]) by {
                let target = text_of(fields[i]);
                let variants = crate::metadata::fuzzy::variants_of(needle, target);
                let words = search_tokens(target);
                assert forall|k: int|
                    0 <= k < variants.len() && trimmed(fields[i].value).len() > 0 implies (
                #[trigger] variants[k]).is_defined() by {
                    let variant = variants[k];
                    if 0 < k <= words.len() {
                        assert(words[k - 1] == variant.text);
                        assert(words.contains(variant.text));
                    }
                    assert(is_looked_for(
                        needle,
                        target,
                        variant.scope,
                        variant.query,
                        variant.text,
                    ));
                }
            }
        }
    }
}

/// A rank is defined if and only if each of the ways that are tried for it is.
pub proof fn rank_is_defined_where_its_ways_are(query: Seq<char>, fields: Seq<Field>)
    ensures
        ({
            let needle = lowercase(trimmed(query));
            let letters = compact(needle);
            &&& rank_is_defined(query, true, fields) <==> fuzzy_is_defined(needle, fields)
            &&& literal_rank(needle, fields) is Some ==> rank_is_defined(query, false, fields)
            &&& literal_rank(needle, fields) is None ==> (rank_is_defined(query, false, fields)
                <==> scattered_is_defined(letters, fields) && (scattered_rank(
                letters,
                fields,
            ) is None ==> fuzzy_is_defined(needle, fields)))
        }),
{
}

} // verus!
