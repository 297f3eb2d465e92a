//! Fields that hold the query up to edits.

use vstd::prelude::*;
use vstd::utf8::is_ascii_chars;

use crate::distance::{longer, longer_of};
use crate::metadata::standing::{
    ascii_offsets_are_places, find_boundary, is_boundary, is_divider, lemma_ascii_words, place_of,
    standing, structural_match_details,
};
use crate::metadata::{target_of, Field, SearchField};
use crate::order::{
    best_of, best_of_is_first_best, better, improved, is_first_best, is_strict_weak_order,
    lemma_improved_concat, lemma_improved_push,
};
use crate::ranking::{ratio_milli, DistanceKey, DistanceRank};
use crate::score::milli;
use crate::substring::{find_part, fuzzy_match, fuzzy_match_is_least, part_found};
use crate::text::{
    compact, concat, normalize_compact_alnum, search_tokens, split_search_tokens, trim, trimmed,
    Separator,
};
use crate::unicode::{chars_of, lowercase};

verus! {

/// A needle and a text to look for it in, with the scope of the text.
pub struct Variant {
    pub scope: nat,
    pub query: Seq<char>,
    pub text: Seq<char>,
}

/// Whether a needle is one word.
pub open spec fn is_one_word(needle: Seq<char>) -> bool {
    &&& compact(needle).len() > 0
    &&& forall|i: int| 0 <= i < needle.len() ==> !is_divider(#[trigger] needle[i])
}

/// What is looked for in a field's target: the needle in all of it and in each
/// word, and the needle's letters and digits in its words put together, if the
/// needle is one word and the target has several.
pub open spec fn variants_of(needle: Seq<char>, target: Seq<char>) -> Seq<Variant> {
    let words = search_tokens(target);
    let whole = seq![Variant { scope: 0, query: needle, text: target }];
    let together = if is_one_word(needle) && words.len() > 1 {
        seq![Variant { scope: 2, query: compact(needle), text: words.flatten() }]
    } else {
        seq![]
    };
    whole + words.map_values(|word: Seq<char>| Variant { scope: 1, query: needle, text: word })
        + together
}

impl Variant {
    /// The least distance and where it is found, with both texts in lower case.
    pub open spec fn found(self) -> Option<(nat, nat)> {
        fuzzy_match(lowercase(self.query), lowercase(self.text))
    }

    /// The rank in a field of this priority. The place among the words is taken
    /// at the byte of its number.
    pub open spec fn offer(self, priority: nat) -> Option<DistanceKey> {
        match self.found() {
            None => None,
            Some((distance, at)) => {
                let found = standing(self.text, place_of(self.text, at), self.query.len());
                Some(
                    DistanceKey {
                        distance,
                        ratio_milli: milli(distance, longer(self.query.len(), self.text.len())),
                        field_priority: priority,
                        variant_scope: self.scope,
                        position_class: found.position_class,
                        token_index: found.token_index,
                        token_span_delta: found.token_span_delta,
                        start_idx: at,
                        field_len: found.field_len,
                    },
                )
            },
        }
    }

    /// Whether the place, taken as a byte, begins a character.
    pub open spec fn is_defined(self) -> bool {
        self.found() matches Some((distance, at)) ==> is_boundary(self.text, at)
    }
}

/// The ranks in a field.
pub open spec fn field_offers(needle: Seq<char>, field: Field) -> Seq<Option<DistanceKey>> {
    if trimmed(field.value).len() == 0 {
        seq![]
    } else {
        variants_of(needle, target_of(field)).map_values(
            |variant: Variant| variant.offer(field.priority as nat),
        )
    }
}

/// Whether all ranks in a field are defined.
pub open spec fn field_is_defined(needle: Seq<char>, field: Field) -> bool {
    trimmed(field.value).len() > 0 ==> forall|k: int|
        0 <= k < variants_of(needle, target_of(field)).len() ==> (#[trigger] variants_of(
            needle,
            target_of(field),
        )[k]).is_defined()
}

/// The ranks in the first `n` fields.
pub open spec fn fuzzy_offers(needle: Seq<char>, fields: Seq<Field>, n: nat) -> Seq<
    Option<DistanceKey>,
>
    decreases n,
{
    if n == 0 {
        seq![]
    } else {
        fuzzy_offers(needle, fields, (n - 1) as nat) + field_offers(needle, fields[n - 1])
    }
}

/// The order of distance ranks, as a relation.
pub open spec fn distance_order() -> spec_fn(DistanceKey, DistanceKey) -> bool {
    |left: DistanceKey, right: DistanceKey| left.ranks_before(right)
}

/// The best rank of a needle among the fields.
pub open spec fn fuzzy_rank(needle: Seq<char>, fields: Seq<Field>) -> Option<DistanceKey> {
    if needle.len() == 0 {
        None
    } else {
        best_of(distance_order(), fuzzy_offers(needle, fields, fields.len()))
    }
}

/// Whether all ranks of a needle among the fields are defined.
pub open spec fn fuzzy_is_defined(needle: Seq<char>, fields: Seq<Field>) -> bool {
    needle.len() == 0 || forall|i: int|
        0 <= i < fields.len() ==> field_is_defined(needle, #[trigger] fields[i])
}

/// The best rank is one of those in the fields, and none of them ranks before
/// it. There is none only if no field has one.
pub proof fn fuzzy_rank_is_best(needle: Seq<char>, fields: Seq<Field>)
    requires
        needle.len() > 0,
    ensures
        fuzzy_rank(needle, fields) is None <==> forall|i: int|
            0 <= i < fuzzy_offers(needle, fields, fields.len()).len() ==> #[trigger] fuzzy_offers(
                needle,
                fields,
                fields.len(),
            )[i] is None,
        fuzzy_rank(needle, fields) matches Some(best) ==> exists|place: int|
            is_first_best(
                distance_order(),
                fuzzy_offers(needle, fields, fields.len()),
                place,
                best,
            ),
{
    assert(is_strict_weak_order(distance_order()));
    best_of_is_first_best(distance_order(), fuzzy_offers(needle, fields, fields.len()));
}

/// In ASCII fields all ranks are defined.
pub proof fn ascii_is_defined(needle: Seq<char>, fields: Seq<Field>)
    requires
        forall|i: int| 0 <= i < fields.len() ==> is_ascii_chars(target_of(#[trigger] fields[i])),
    ensures
        fuzzy_is_defined(needle, fields),
{
    if needle.len() > 0 {
        assert forall|i: int| 0 <= i < fields.len() implies field_is_defined(
            needle,
            #[trigger] fields[i],
        ) by {
            let target = target_of(fields[i]);
            let variants = variants_of(needle, target);
            lemma_ascii_words(target);
            assert forall|k: int| 0 <= k < variants.len() implies (
            #[trigger] variants[k]).is_defined() by {
                let words = search_tokens(target);
                let variant = variants[k];
                if 0 < k <= words.len() {
                    assert(variant.text == words[k - 1]);
                }
                assert(is_ascii_chars(variant.text));
                fuzzy_match_is_least(lowercase(variant.query), lowercase(variant.text), 0, 0);
                if let Some((distance, at)) = variant.found() {
                    ascii_offsets_are_places(variant.text, at);
                }
            }
        }
    }
}

/// A result in numbers.
pub open spec fn rank_found(found: Option<DistanceRank>) -> Option<DistanceKey> {
    match found {
        Some(rank) => Some(rank@),
        None => None,
    }
}

/// The least distance of the query to a part of the text and where it is found,
/// with both in lower case.
fn fuzzy_match_details(query: &str, text: &str) -> (found: Option<(usize, usize)>)
    ensures
        part_found(found) == fuzzy_match(lowercase(query@), lowercase(text@)),
{
    let query_lower = crate::text::to_lowercase(query);
    let text_lower = crate::text::to_lowercase(text);
    find_part(query_lower.as_str(), text_lower.as_str())
}

struct Candidate {
    scope: u8,
    query: String,
    text: String,
}

impl View for Candidate {
    type V = Variant;

    closed spec fn view(&self) -> Variant {
        Variant { scope: self.scope as nat, query: self.query@, text: self.text@ }
    }
}

impl Candidate {
    /// Whether the rank is defined.
    fn check(&self) -> (defined: bool)
        ensures
            defined == self@.is_defined(),
    {
        match fuzzy_match_details(self.query.as_str(), self.text.as_str()) {
            None => true,
            Some((distance, at)) => {
                let chars = chars_of(self.text.as_str());
                find_boundary(&chars, at).is_some()
            },
        }
    }

    /// The rank in a field of this priority.
    fn rank(&self, priority: u8) -> (found: Option<DistanceRank>)
        requires
            self@.is_defined(),
        ensures
            rank_found(found) == self@.offer(priority as nat),
    {
        match fuzzy_match_details(self.query.as_str(), self.text.as_str()) {
            None => None,
            Some((distance, start_idx)) => {
                let chars = chars_of(self.text.as_str());
                let matched_len = self.query.as_str().unicode_len();
                match find_boundary(&chars, start_idx) {
                    None => None,
                    Some(place) => {
                        let (position_class, token_index, token_span_delta, field_len) =
                            structural_match_details(&chars, place, matched_len);
                        let compared_len = longer_of(matched_len, chars.len());
                        Some(
                            DistanceRank {
                                distance,
                                ratio_milli: ratio_milli(distance, compared_len),
                                field_priority: priority,
                                variant_scope: self.scope,
                                position_class,
                                token_index,
                                token_span_delta,
                                start_idx,
                                field_len,
                            },
                        )
                    },
                }
            },
        }
    }
}

fn update_best(best: &mut Option<DistanceRank>, candidate: Option<DistanceRank>)
    ensures
        rank_found(*final(best)) == better(
            distance_order(),
            rank_found(*old(best)),
            rank_found(candidate),
        ),
{
    match candidate {
        None => {},
        Some(rank) => {
            let replaces = match best {
                None => true,
                Some(current) => rank.ranks_before(current),
            };
            if replaces {
                *best = Some(rank);
            }
        },
    }
}

fn check_one_word(needle: &str, collapsed: &str) -> (one: bool)
    requires
        collapsed@ == compact(needle@),
    ensures
        one == is_one_word(needle@),
{
    if collapsed.unicode_len() == 0 {
        return false;
    }
    let chars = chars_of(needle);
    let mut i: usize = 0;
    while i < chars.len()
        invariant
            i <= chars@.len(),
            chars@ == needle@,
            forall|k: int| 0 <= k < i ==> !is_divider(#[trigger] needle@[k]),
        decreases chars@.len() - i,
    {
        if Separator::NonAlphanumeric.is_at(chars[i]) {
            assert(is_divider(needle@[i as int]));
            return false;
        }
        i = i + 1;
    }
    true
}

spec fn listed(candidates: Seq<Candidate>) -> Seq<Variant> {
    candidates.map_values(|candidate: Candidate| candidate@)
}

/// What is looked for in a field.
fn list_candidates(needle: &str, target: &str) -> (candidates: Vec<Candidate>)
    ensures
        listed(candidates@) == variants_of(needle@, target@),
{
    let collapsed = normalize_compact_alnum(needle);
    let found = split_search_tokens(target);
    let ghost words = found.deep_view();
    let mut candidates: Vec<Candidate> = Vec::new();
    candidates.push(Candidate { scope: 0, query: needle.to_owned(), text: target.to_owned() });
    let mut i: usize = 0;
    while i < found.len()
        invariant
            i <= found@.len(),
            words == found.deep_view(),
            candidates@.len() == i + 1,
            candidates@[0]@ == (Variant { scope: 0, query: needle@, text: target@ }),
            forall|k: int|
                0 < k <= i ==> (#[trigger] candidates@[k])@ == (Variant {
                    scope: 1,
                    query: needle@,
                    text: words[k - 1],
                }),
        decreases found@.len() - i,
    {
        candidates.push(
            Candidate { scope: 1, query: needle.to_owned(), text: found[i].to_owned() },
        );
        i = i + 1;
    }
    if found.len() > 1 && check_one_word(needle, collapsed.as_str()) {
        candidates.push(Candidate { scope: 2, query: collapsed, text: concat(&found) });
    }
    assert(listed(candidates@) =~= variants_of(needle@, target@));
    candidates
}

fn improve_by_field(best: &mut Option<DistanceRank>, needle: &str, field: &SearchField<'_>)
    requires
        field_is_defined(needle@, field.deep_view()),
    ensures
        rank_found(*final(best)) == improved(
            distance_order(),
            rank_found(*old(best)),
            field_offers(needle@, field.deep_view()),
        ),
{
    let value = trim(field.value);
    if value.unicode_len() == 0 {
        return;
    }
    let lowered = crate::text::to_lowercase(value);
    let candidates = list_candidates(needle, lowered.as_str());
    let ghost variants = variants_of(needle@, target_of(field.deep_view()));
    let ghost offers = field_offers(needle@, field.deep_view());
    let mut i: usize = 0;
    assert(offers.take(0) =~= Seq::empty());
    while i < candidates.len()
        invariant
            i <= candidates@.len() == offers.len(),
            variants == variants_of(needle@, target_of(field.deep_view())),
            listed(candidates@) == variants,
            offers == field_offers(needle@, field.deep_view()),
            field_is_defined(needle@, field.deep_view()),
            trimmed(field.deep_view().value).len() > 0,
            rank_found(*best) == improved(
                distance_order(),
                rank_found(*old(best)),
                offers.take(i as int),
            ),
        decreases candidates@.len() - i,
    {
        proof {
            assert(variants[i as int] == candidates@[i as int]@);
            assert(variants_of(needle@, target_of(field.deep_view()))[i as int].is_defined());
        }
        let found = candidates[i].rank(field.priority);
        proof {
            assert(offers[i as int] == rank_found(found));
            assert(offers.take(i + 1) =~= offers.take(i as int).push(offers[i as int]));
            lemma_improved_push(
                distance_order(),
                rank_found(*old(best)),
                offers.take(i as int),
                offers[i as int],
            );
        }
        update_best(best, found);
        i = i + 1;
    }
    assert(offers.take(offers.len() as int) =~= offers);
}

/// The best rank of a needle among the fields.
fn best_distance_rank(needle: &str, fields: &[SearchField<'_>]) -> (best: Option<DistanceRank>)
    requires
        fuzzy_is_defined(needle@, fields.deep_view()),
    ensures
        rank_found(best) == fuzzy_rank(needle@, fields.deep_view()),
{
    if needle.unicode_len() == 0 {
        return None;
    }
    let ghost records = fields.deep_view();
    let mut best: Option<DistanceRank> = None;
    let mut i: usize = 0;
    while i < fields.len()
        invariant
            i <= fields@.len(),
            needle@.len() > 0,
            records == fields.deep_view(),
            fuzzy_is_defined(needle@, records),
            rank_found(best) == best_of(
                distance_order(),
                fuzzy_offers(needle@, records, i as nat),
            ),
        decreases fields@.len() - i,
    {
        proof {
            assert(field_is_defined(needle@, records[i as int]));
            assert(records[i as int] == fields@[i as int].deep_view());
            lemma_improved_concat(
                distance_order(),
                None,
                fuzzy_offers(needle@, records, i as nat),
                field_offers(needle@, records[i as int]),
            );
        }
        improve_by_field(&mut best, needle, &fields[i]);
        i = i + 1;
    }
    best
}

/// The best rank of a needle among the fields, where nothing better was found.
pub(crate) fn best_fuzzy_rank(needle: &str, fields: &[SearchField<'_>]) -> (best: Option<
    DistanceRank,
>)
    requires
        fuzzy_is_defined(needle@, fields.deep_view()),
    ensures
        rank_found(best) == fuzzy_rank(needle@, fields.deep_view()),
{
    best_distance_rank(needle, fields)
}

/// The best rank of a needle among the fields, where typos are asked for.
pub(crate) fn best_typo_rank(needle: &str, fields: &[SearchField<'_>]) -> (best: Option<
    DistanceRank,
>)
    requires
        fuzzy_is_defined(needle@, fields.deep_view()),
    ensures
        rank_found(best) == fuzzy_rank(needle@, fields.deep_view()),
{
    best_distance_rank(needle, fields)
}

fn check_field(needle: &str, field: &SearchField<'_>) -> (defined: bool)
    ensures
        defined == field_is_defined(needle@, field.deep_view()),
{
    let value = trim(field.value);
    if value.unicode_len() == 0 {
        return true;
    }
    let lowered = crate::text::to_lowercase(value);
    let candidates = list_candidates(needle, lowered.as_str());
    let ghost variants = variants_of(needle@, target_of(field.deep_view()));
    let mut i: usize = 0;
    while i < candidates.len()
        invariant
            i <= candidates@.len(),
            variants == variants_of(needle@, target_of(field.deep_view())),
            listed(candidates@) == variants,
            trimmed(field.deep_view().value).len() > 0,
            forall|k: int|
                0 <= k < i ==> (#[trigger] variants_of(
                    needle@,
                    target_of(field.deep_view()),
                )[k]).is_defined(),
        decreases candidates@.len() - i,
    {
        assert(variants[i as int] == candidates@[i as int]@);
        if !candidates[i].check() {
            assert(!variants_of(needle@, target_of(field.deep_view()))[i as int].is_defined());
            return false;
        }
        i = i + 1;
    }
    true
}

/// Whether all ranks of a needle among the fields are defined.
pub(crate) fn check_distances(needle: &str, fields: &[SearchField<'_>]) -> (defined: bool)
    ensures
        defined == fuzzy_is_defined(needle@, fields.deep_view()),
{
    if needle.unicode_len() == 0 {
        return true;
    }
    let ghost records = fields.deep_view();
    let mut i: usize = 0;
    while i < fields.len()
        invariant
            i <= fields@.len(),
            needle@.len() > 0,
            records == fields.deep_view(),
            forall|k: int| 0 <= k < i ==> field_is_defined(needle@, #[trigger] records[k]),
        decreases fields@.len() - i,
    {
        assert(records[i as int] == fields@[i as int].deep_view());
        if !check_field(needle, &fields[i]) {
            assert(!field_is_defined(needle@, records[i as int]));
            return false;
        }
        i = i + 1;
    }
    true
}

} // verus!
