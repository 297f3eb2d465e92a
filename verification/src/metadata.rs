//! Matching of a query with records of several fields.

pub mod abbreviation;
pub mod fuzzy;
pub mod literal;
pub mod standing;

use std::cmp::Ordering;

use vstd::prelude::*;
use vstd::utf8::is_ascii_chars;

use crate::metadata::abbreviation::{
    best_abbreviation_rank, check_abbreviations, scattered_is_defined, scattered_rank,
};
use crate::metadata::fuzzy::{
    best_fuzzy_rank, best_typo_rank, check_distances, fuzzy_is_defined, fuzzy_rank,
};
use crate::metadata::literal::{
    best_structural_rank, literal_rank, literal_rank_prefers_priority,
};
use crate::ranking::{
    compare_search_results, result_before, search_order_is_total, search_order_is_transitive,
    SearchKey, SearchRank,
};
use crate::score::score_rank_is_injective;
use crate::sort::{is_stable_sorting, sort_ranked, Ranked};
use crate::text::{
    compact, lemma_trimmed_part, normalize_compact_alnum, occurs_at, same_text, text_before,
    text_order_is_total, text_order_is_transitive, trim, trimmed,
};
use crate::unicode::{ascii_lowercase, chars_of, lowercase};

pub use crate::score::Score;

verus! {

/// A field of a record and how much it counts: the lower the number, the more.
#[derive(Clone, Copy, Debug)]
pub struct SearchField<'a> {
    pub priority: u8,
    pub value: &'a str,
}

/// A record and the caller's score.
#[derive(Clone, Copy, Debug)]
pub struct MetadataCandidate<'a> {
    pub key: &'a str,
    pub fields: &'a [SearchField<'a>],
    pub score: Score,
}

/// A record and how it ranks.
#[derive(Clone, Copy, Debug)]
pub struct MetadataMatch<'a> {
    pub candidate: MetadataCandidate<'a>,
    pub rank: &'a SearchRank,
}

/// A [`SearchField`] as a text.
pub struct Field {
    pub priority: u8,
    pub value: Seq<char>,
}

impl DeepView for SearchField<'_> {
    type V = Field;

    open spec fn deep_view(&self) -> Field {
        Field { priority: self.priority, value: self.value@ }
    }
}

/// What a field is matched as: its value trimmed and in lower case.
pub open spec fn target_of(field: Field) -> Seq<char> {
    lowercase(trimmed(field.value))
}

/// What a query is matched as: trimmed and in lower case.
pub open spec fn needle_of(query: Seq<char>) -> Seq<char> {
    lowercase(trimmed(query))
}

/// How a query ranks among the fields of a record. Where typos are asked for,
/// by distance alone; otherwise as it is, else scattered, else by distance.
pub open spec fn metadata_rank(query: Seq<char>, allow_typo: bool, fields: Seq<Field>) -> Option<
    SearchKey,
> {
    let needle = needle_of(query);
    let by_distance = fuzzy_rank(needle, fields);
    if allow_typo {
        match by_distance {
            None => None,
            Some(rank) => Some(SearchKey::Typo(rank)),
        }
    } else {
        match (literal_rank(needle, fields), scattered_rank(compact(needle), fields), by_distance) {
            (Some(rank), _, _) => Some(SearchKey::Structure(rank)),
            (None, Some(rank), _) => Some(SearchKey::Abbreviation(rank)),
            (None, None, Some(rank)) => Some(SearchKey::Fuzzy(rank)),
            (None, None, None) => None,
        }
    }
}

/// Whether what the rank is made from is defined: whether each place that is
/// taken as a byte begins a character. In ASCII fields it does.
pub open spec fn rank_is_defined(query: Seq<char>, allow_typo: bool, fields: Seq<Field>) -> bool {
    let needle = needle_of(query);
    if allow_typo {
        fuzzy_is_defined(needle, fields)
    } else if literal_rank(needle, fields) is Some {
        true
    } else if scattered_rank(compact(needle), fields) is Some {
        scattered_is_defined(compact(needle), fields)
    } else {
        scattered_is_defined(compact(needle), fields) && fuzzy_is_defined(needle, fields)
    }
}

/// A query.
pub struct MetadataQuery {
    query: String,
    allow_typo: bool,
}

/// A [`MetadataQuery`] as a text.
pub struct Query {
    pub text: Seq<char>,
    pub allow_typo: bool,
}

impl View for MetadataQuery {
    type V = Query;

    closed spec fn view(&self) -> Query {
        Query { text: self.query@, allow_typo: self.allow_typo }
    }
}

/// A result in numbers.
pub open spec fn rank_found(found: Option<SearchRank>) -> Option<SearchKey> {
    match found {
        Some(rank) => Some(rank@),
        None => None,
    }
}

impl MetadataQuery {
    /// The query trimmed, if that leaves anything. It does not ask for typos.
    pub fn new(query: &str) -> (prepared: Option<Self>)
        ensures
            prepared is Some <==> trimmed(query@).len() > 0,
            prepared matches Some(metadata_query) ==> metadata_query@ == (Query {
                text: trimmed(query@),
                allow_typo: false,
            }),
    {
        let text = trim(query);
        if text.unicode_len() == 0 {
            return None;
        }
        Some(MetadataQuery { query: text.to_owned(), allow_typo: false })
    }

    /// The query, asking for typos or not.
    pub fn with_typo_fallback(self, allow_typo: bool) -> (changed: Self)
        ensures
            changed@ == (Query { allow_typo, ..self@ }),
    {
        MetadataQuery { query: self.query, allow_typo }
    }

    /// How the query ranks among the fields of the candidate. `None` if no field
    /// matches.
    pub fn search_rank(&self, candidate: MetadataCandidate<'_>) -> (found: Option<SearchRank>)
        requires
            rank_is_defined(self@.text, self@.allow_typo, candidate.fields.deep_view()),
        ensures
            rank_found(found) == metadata_rank(
                self@.text,
                self@.allow_typo,
                candidate.fields.deep_view(),
            ),
    {
        let lowered = crate::text::to_lowercase(trim(self.query.as_str()));
        let needle = lowered.as_str();
        if self.allow_typo {
            return match best_typo_rank(needle, candidate.fields) {
                None => None,
                Some(rank) => Some(SearchRank::Typo(rank)),
            };
        }
        let chars = chars_of(needle);
        if let Some(rank) = best_structural_rank(&chars, candidate.fields) {
            return Some(SearchRank::Structure(rank));
        }
        let compacted = normalize_compact_alnum(needle);
        let compact_chars = chars_of(compacted.as_str());
        if let Some(rank) = best_abbreviation_rank(&compact_chars, candidate.fields) {
            return Some(SearchRank::Abbreviation(rank));
        }
        match best_fuzzy_rank(needle, candidate.fields) {
            None => None,
            Some(rank) => Some(SearchRank::Fuzzy(rank)),
        }
    }

    /// [`MetadataQuery::search_rank`] where it is defined, else `None`.
    pub fn try_search_rank(&self, candidate: MetadataCandidate<'_>) -> (answer: Option<
        Option<SearchRank>,
    >)
        ensures
            answer is Some <==> rank_is_defined(
                self@.text,
                self@.allow_typo,
                candidate.fields.deep_view(),
            ),
            answer matches Some(found) ==> rank_found(found) == metadata_rank(
                self@.text,
                self@.allow_typo,
                candidate.fields.deep_view(),
            ),
    {
        if self.has_rank(candidate.fields) {
            Some(self.search_rank(candidate))
        } else {
            None
        }
    }

    fn has_rank(&self, fields: &[SearchField<'_>]) -> (defined: bool)
        ensures
            defined == rank_is_defined(self@.text, self@.allow_typo, fields.deep_view()),
    {
        let lowered = crate::text::to_lowercase(trim(self.query.as_str()));
        let needle = lowered.as_str();
        if self.allow_typo {
            return check_distances(needle, fields);
        }
        let chars = chars_of(needle);
        if best_structural_rank(&chars, fields).is_some() {
            return true;
        }
        let compacted = normalize_compact_alnum(needle);
        let compact_chars = chars_of(compacted.as_str());
        if !check_abbreviations(&compact_chars, fields) {
            return false;
        }
        best_abbreviation_rank(&compact_chars, fields).is_some() || check_distances(needle, fields)
    }
}

/// In records whose fields are ASCII every query has its rank defined.
pub proof fn ascii_ranks_are_defined(query: Seq<char>, allow_typo: bool, fields: Seq<Field>)
    requires
        forall|i: int| 0 <= i < fields.len() ==> is_ascii_chars((#[trigger] fields[i]).value),
    ensures
        rank_is_defined(query, allow_typo, fields),
{
    let needle = needle_of(query);
    assert forall|i: int| 0 <= i < fields.len() implies is_ascii_chars(
        target_of(#[trigger] fields[i]),
    ) by {
        lemma_trimmed_part(fields[i].value);
        let value = trimmed(fields[i].value);
        assert(is_ascii_chars(value));
        let lowered = ascii_lowercase(value);
        assert forall|k: int| 0 <= k < lowered.len() implies '\0' <= #[trigger] lowered[k]
            <= '\u{7f}' by {
            assert('\0' <= value[k] <= '\u{7f}');
        }
    }
    abbreviation::ascii_is_defined(compact(needle), fields);
    fuzzy::ascii_is_defined(needle, fields);
}

/// A query that a field holds as it is has a structural rank, of a field that
/// counts no less than that one.
pub proof fn literal_query_ranks_by_structure(query: Seq<char>, fields: Seq<Field>, i: int, at: int)
    requires
        needle_of(query).len() > 0,
        0 <= i < fields.len(),
        trimmed(fields[i].value).len() > 0,
        occurs_at(target_of(fields[i]), needle_of(query), at),
    ensures
        rank_is_defined(query, false, fields),
        metadata_rank(query, false, fields) matches Some(SearchKey::Structure(rank))
            && rank.field_priority <= fields[i].priority,
{
    literal_rank_prefers_priority(needle_of(query), fields, i, at);
}

/// A query that asks for typos is ranked by distance and in no other way.
pub proof fn typo_query_ranks_by_distance(query: Seq<char>, fields: Seq<Field>)
    ensures
        metadata_rank(query, true, fields) matches Some(rank) ==> rank is Typo,
        metadata_rank(query, true, fields) is Some <==> fuzzy_rank(needle_of(query), fields)
            is Some,
{
}

impl<'a> Ranked for (MetadataCandidate<'a>, SearchRank) {
    open spec fn ranks_before(self, other: Self) -> bool {
        result_before(
            self.1,
            self.0.score,
            self.0.key@,
            other.1,
            other.0.score,
            other.0.key@,
        )
    }

    proof fn ranking_is_weak_order() {
        let before = |left: Self, right: Self| left.ranks_before(right);
        assert forall|a: Self| !#[trigger] before(a, a) by {
            text_order_is_total(a.0.key@, a.0.key@);
        }
        assert forall|a: Self, b: Self, c: Self| #[trigger]
            before(a, b) && #[trigger] before(b, c) implies before(a, c) by {
            result_order_is_transitive(a, b, c);
        }
        assert forall|a: Self, b: Self, c: Self|
            !#[trigger] before(a, b) && !#[trigger] before(b, c) implies !before(a, c) by {
            result_order_is_total(a, b);
            result_order_is_total(b, c);
            result_order_is_total(a, c);
            if before(a, c) && before(b, a) {
                result_order_is_transitive(b, a, c);
            }
        }
    }

    fn is_before(&self, other: &Self) -> (before: bool) {
        match compare_search_results(
            &self.1,
            self.0.score,
            self.0.key,
            &other.1,
            other.0.score,
            other.0.key,
        ) {
            Ordering::Less => true,
            _ => false,
        }
    }
}

/// Of two results just one comes first, unless they agree in rank, score and
/// key.
pub proof fn result_order_is_total(
    a: (MetadataCandidate<'_>, SearchRank),
    b: (MetadataCandidate<'_>, SearchRank),
)
    ensures
        !(a.ranks_before(b) && b.ranks_before(a)),
        !a.ranks_before(b) && !b.ranks_before(a) <==> a.1 == b.1 && a.0.score == b.0.score
            && a.0.key@ == b.0.key@,
{
    search_order_is_total(a.1, b.1);
    text_order_is_total(a.0.key@, b.0.key@);
    if a.0.score.rank() == b.0.score.rank() {
        score_rank_is_injective(a.0.score, b.0.score);
    }
}

/// The order of results carries over from one to the next.
pub proof fn result_order_is_transitive(
    a: (MetadataCandidate<'_>, SearchRank),
    b: (MetadataCandidate<'_>, SearchRank),
    c: (MetadataCandidate<'_>, SearchRank),
)
    requires
        a.ranks_before(b),
        b.ranks_before(c),
    ensures
        a.ranks_before(c),
{
    if a.1.precedes(b.1) && b.1.precedes(c.1) {
        search_order_is_transitive(a.1, b.1, c.1);
    }
    search_order_is_total(a.1, b.1);
    search_order_is_total(b.1, c.1);
    search_order_is_total(a.1, c.1);
    if text_before(a.0.key@, b.0.key@) && text_before(b.0.key@, c.0.key@) {
        text_order_is_transitive(a.0.key@, b.0.key@, c.0.key@);
    }
}

/// Sorts the matches, the best first: by rank, then the higher score, then the
/// key. Matches that rank the same stay in the order they had.
pub fn sort_matches(matches: &mut [(MetadataCandidate<'_>, SearchRank)])
    ensures
        exists|places: Seq<int>| is_stable_sorting(places, old(matches)@, final(matches)@),
{
    sort_ranked(matches);
}

/// Whether two fields count the same and have the same value but for the case of
/// ASCII letters.
pub open spec fn is_same_field(left: Field, right: Field) -> bool {
    left.priority == right.priority && ascii_lowercase(left.value) == ascii_lowercase(right.value)
}

/// The fields with one more, unless its value is empty or the fields have the
/// same already.
pub open spec fn with_field(fields: Seq<Field>, priority: u8, value: Option<Seq<char>>) -> Seq<
    Field,
> {
    match value {
        None => fields,
        Some(text) => {
            let field = Field { priority, value: trimmed(text) };
            if field.value.len() == 0 || exists|i: int|
                0 <= i < fields.len() && is_same_field(#[trigger] fields[i], field) {
                fields
            } else {
                fields.push(field)
            }
        },
    }
}

/// Whether no field is there twice.
pub open spec fn is_deduplicated(fields: Seq<Field>) -> bool {
    forall|i: int, j: int|
        #![trigger fields[i], fields[j]]
        0 <= i < j < fields.len() ==> !is_same_field(fields[i], fields[j])
}

/// Adding a field keeps fields from being there twice, leaves those that are
/// there as they are, and adds nothing the second time.
pub proof fn adding_fields_deduplicates(
    fields: Seq<Field>,
    priority: u8,
    value: Option<Seq<char>>,
)
    ensures
        is_deduplicated(fields) ==> is_deduplicated(with_field(fields, priority, value)),
        fields.is_prefix_of(with_field(fields, priority, value)),
        with_field(with_field(fields, priority, value), priority, value) == with_field(
            fields,
            priority,
            value,
        ),
{
    let added = with_field(fields, priority, value);
    if added != fields {
        let field = Field { priority, value: trimmed(value->0) };
        assert(is_same_field(added[fields.len() as int], field));
    }
}

/// The text of a value.
pub open spec fn text_of(value: Option<&str>) -> Option<Seq<char>> {
    match value {
        Some(text) => Some(text@),
        None => None,
    }
}

/// Adds a field, trimmed, unless its value is empty or a field of the same
/// priority has the same value but for the case of ASCII letters.
pub fn dedup_push_search_field<'a>(
    fields: &mut Vec<SearchField<'a>>,
    priority: u8,
    value: Option<&'a str>,
)
    ensures
        final(fields).deep_view() == with_field(
            old(fields).deep_view(),
            priority,
            text_of(value),
        ),
{
    let text = match value {
        None => {
            return;
        },
        Some(text) => trim(text),
    };
    if text.unicode_len() == 0 {
        return;
    }
    let lowered = text.to_ascii_lowercase();
    let ghost records = fields.deep_view();
    let ghost field = Field { priority, value: text@ };
    let mut i: usize = 0;
    while i < fields.len()
        invariant
            i <= fields@.len(),
            fields.deep_view() == records,
            records == old(fields).deep_view(),
            value is Some,
            text@ == trimmed(value->0@),
            lowered@ == ascii_lowercase(text@),
            field == (Field { priority, value: text@ }),
            forall|k: int| 0 <= k < i ==> !is_same_field(#[trigger] records[k], field),
        decreases fields@.len() - i,
    {
        assert(records[i as int] == fields@[i as int].deep_view());
        if fields[i].priority == priority && same_text(
            fields[i].value.to_ascii_lowercase().as_str(),
            lowered.as_str(),
        ) {
            assert(is_same_field(records[i as int], field));
            return;
        }
        i = i + 1;
    }
    fields.push(SearchField { priority, value: text });
    assert(fields.deep_view() =~= records.push(field));
}

} // verus!
