//! What a mistyped query finds of a path.

use vstd::prelude::*;

use crate::distance::{
    edit_cost, edit_cost_is_bounded_by_lengths, edit_cost_is_zero_iff_equal, one_less, EditCost,
};
use crate::laws::texts::{
    greater, text_signals_what_it_holds, tokens_are_runs, variants_put_a_space_between_characters,
};
use crate::laws::tokens::tokens_align_with_themselves;
use crate::order::{best_of_is_first_best, is_first_best, is_lower, lemma_contains_concat};
use crate::path::typo::{
    basename_match_offers, basename_typo_match, is_close, keywords_query, match_offers, path_order,
    path_ranking_is_weak_order, query_basename_match, query_match, spaced, typo_match, variants_of,
    with_lost_space, words_of_components, MatchScope, PathHit, PathSearch,
};
use crate::ranking::{
    ambiguity_looks_at_all_but_the_last_number, numbers_of_path_typo,
    path_typo_order_is_by_first_difference,
};
use crate::score::{clamped, milli, Fraction, Score};
use crate::text::{any_signals, path_tokens, signals, text_before, tokens, Separator};
use crate::token_match::{
    alignment_within, lemma_alignment_total, lemma_split_total, split_within, PlacedToken,
};
use crate::unicode::lowercase;

verus! {

/// The components of a path in lower case.
pub open spec fn components_of(path: Seq<char>) -> Seq<Seq<char>> {
    tokens(Separator::PathComponent, lowercase(path))
}

/// How far a component is from the last, in steps of three.
pub open spec fn steps_from_end(path: Seq<char>, i: int) -> nat {
    (3 * (components_of(path).len() - 1 - i)) as nat
}

/// Whether `text` is what a path has to offer under this scope and at this
/// position: its last component or a word of it, another component or a word of
/// it, or all of the path.
pub open spec fn stands_in(
    path: Seq<char>,
    text: Seq<char>,
    scope: MatchScope,
    position: nat,
) -> bool {
    let components = components_of(path);
    let last = components.len() - 1;
    &&& components.len() > 0
    &&& match scope {
        MatchScope::Basename => text == components[last] && position == 0,
        MatchScope::BasenameToken => path_tokens(components[last]).contains(text) && position == 0,
        MatchScope::OtherComponent => exists|i: int|
            0 <= i < last && text == #[trigger] components[i] && position == steps_from_end(
                path,
                i,
            ),
        MatchScope::OtherComponentToken => exists|i: int|
            0 <= i < last && path_tokens(#[trigger] components[i]).contains(text) && position
                == steps_from_end(path, i),
        MatchScope::FullPath => text == lowercase(path) && position == 3 * components.len(),
    }
}

/// Whether `hit` reports a match of the path by these edits, at most `limit` and
/// no more than half of the length compared.
pub open spec fn reports(
    path: Seq<char>,
    score: Score,
    cost: EditCost,
    compared_len: nat,
    limit: nat,
    hit: PathHit,
) -> bool {
    &&& hit.path == path
    &&& hit.score == score
    &&& hit.path_depth == components_of(path).len()
    &&& hit.operations == cost
    &&& hit.distance == cost.substitutions + cost.insert_delete + cost.transpositions
    &&& hit.distance <= limit
    &&& hit.ratio == (Fraction { numerator: hit.distance, denominator: compared_len })
    &&& hit.distance + hit.distance <= compared_len
}

/// Whether `hit` is a match of the whole query with `text`, which the path has
/// where the match says.
pub open spec fn is_text_match(
    path: Seq<char>,
    score: Score,
    query: Seq<char>,
    query_len: nat,
    limit: nat,
    text: Seq<char>,
    hit: PathHit,
) -> bool {
    &&& stands_in(path, text, hit.scope, hit.path_position)
    &&& text.len() > 0
    &&& limit > 0
    &&& query_len <= text.len() + limit
    &&& text.len() <= query_len + limit
    &&& hit.structure == 0
    &&& reports(
        path,
        score,
        edit_cost(query, text),
        greater(query_len, text.len()),
        limit,
        hit,
    )
}

/// Whether `hit` is a match of the words of the query, two or more, with the words
/// of the last component, as many, one by one.
pub open spec fn is_sequence_match(
    path: Seq<char>,
    score: Score,
    query: Seq<char>,
    query_len: nat,
    limit: nat,
    hit: PathHit,
) -> bool {
    let words = path_tokens(query);
    let own = path_tokens(components_of(path).last());
    &&& components_of(path).len() > 0
    &&& words.len() >= 2
    &&& words.len() == own.len()
    &&& hit.scope == MatchScope::Basename
    &&& alignment_within(
        words,
        own.map_values(|token: Seq<char>| PlacedToken { token, position: 0 }),
        limit,
    ) matches Some(found) && hit.path_position == found.position && hit.structure
        == found.structure && reports(path, score, found.operations, query_len, limit, hit)
}

/// Whether `hit` is a match of the words of the query, two or more, with
/// consecutive parts of component `i`, which is one word.
pub open spec fn is_compound_match(
    path: Seq<char>,
    score: Score,
    query: Seq<char>,
    query_len: nat,
    limit: nat,
    i: int,
    hit: PathHit,
) -> bool {
    let words = path_tokens(query);
    let component = components_of(path)[i];
    &&& 0 <= i < components_of(path).len()
    &&& words.len() >= 2
    &&& path_tokens(component).len() == 1
    &&& hit.scope == if i == components_of(path).len() - 1 {
        MatchScope::Basename
    } else {
        MatchScope::OtherComponent
    }
    &&& split_within(words, component, limit) matches Some(found) && hit.path_position
        == steps_from_end(path, i) * words.len() + found.position && hit.structure
        == found.structure && reports(
        path,
        score,
        found.operations,
        greater(query_len, component.len()),
        limit,
        hit,
    )
}

/// The words of all components from left to right, each as far from the end as its
/// component.
pub open spec fn words_of_path(path: Seq<char>) -> Seq<PlacedToken> {
    Seq::new(
        components_of(path).len(),
        |i: int|
            path_tokens(components_of(path)[i]).map_values(
                |token: Seq<char>| PlacedToken { token, position: steps_from_end(path, i) },
            ),
    ).flatten()
}

/// Whether `hit` is a match of the words of the query, two or more, with
/// consecutive words of the path, whatever components they are in.
pub open spec fn is_run_match(
    path: Seq<char>,
    score: Score,
    query: Seq<char>,
    query_len: nat,
    limit: nat,
    hit: PathHit,
) -> bool {
    let words = path_tokens(query);
    &&& components_of(path).len() > 0
    &&& words.len() >= 2
    &&& hit.scope == MatchScope::OtherComponent
    &&& alignment_within(words, words_of_path(path), limit) matches Some(found)
        && hit.path_position == found.position && hit.structure == found.structure && reports(
        path,
        score,
        found.operations,
        query_len,
        limit,
        hit,
    )
}

/// Whether `hit` is a match of the path with the query in one of the ways there
/// are.
pub open spec fn is_match(
    path: Seq<char>,
    score: Score,
    query: Seq<char>,
    query_len: nat,
    limit: nat,
    hit: PathHit,
) -> bool {
    ||| exists|text: Seq<char>|
        #[trigger] is_text_match(path, score, query, query_len, limit, text, hit)
    ||| is_sequence_match(path, score, query, query_len, limit, hit)
    ||| exists|i: int|
        #[trigger] is_compound_match(path, score, query, query_len, limit, i, hit)
    ||| is_run_match(path, score, query, query_len, limit, hit)
}

/// Whether a match is of the last component or of a word of it.
pub open spec fn is_of_basename(hit: PathHit) -> bool {
    hit.scope == MatchScope::Basename || hit.scope == MatchScope::BasenameToken
}

/// What a query finds of a path is a match in one of the ways there are, and if
/// the path signals the query, no match in any of those ways is missed: there is
/// one if there is any, and none ranks before it. But a query of one word is
/// content with a match of the last component by one edit or less, or else with
/// one of a word of it.
pub proof fn query_match_is_best_of_all_ways(
    path: Seq<char>,
    score: Score,
    query: Seq<char>,
    query_len: nat,
    limit: nat,
    other: PathHit,
)
    ensures
        query_match(path, score, query, query_len, limit) matches Some(hit) ==> is_match(
            path,
            score,
            query,
            query_len,
            limit,
            hit,
        ) && any_signals(path_tokens(query), lowercase(path)),
        any_signals(path_tokens(query), lowercase(path)) && is_match(
            path,
            score,
            query,
            query_len,
            limit,
            other,
        ) ==> (query_match(path, score, query, query_len, limit) matches Some(hit) && {
            ||| !other.ranks_before(hit)
            ||| path_tokens(query).len() == 1 && hit.distance <= 1 && hit.scope
                == MatchScope::Basename
            ||| path_tokens(query).len() == 1 && hit.distance <= 1 && hit.scope
                == MatchScope::BasenameToken && !is_of_basename(other)
        }),
        any_signals(path_tokens(query), lowercase(path)) && is_match(
            path,
            score,
            query,
            query_len,
            limit,
            other,
        ) && path_tokens(query).len() == 1 && other.scope == MatchScope::Basename && other.distance
            <= 1 ==> query_match(path, score, query, query_len, limit) == Some(other),
{
    let lowered = lowercase(path);
    let components = components_of(path);
    let search = PathSearch {
        path,
        score,
        query,
        query_len,
        limit,
        path_depth: components.len(),
    };
    path_ranking_is_weak_order();
    if components.len() > 0 {
        let phrases = search.phrase_offers(lowered, components);
        let own = search.basename_offers(components.last());
        let others = search.other_offers(lowered, components);
        best_of_is_first_best(path_order(), phrases);
        best_of_is_first_best(path_order(), own);
        best_of_is_first_best(path_order(), own + others);
        if let Some(hit) = query_match(path, score, query, query_len, limit) {
            lemma_offers_are_matches(search, hit);
            if path_tokens(query).len() == 1 {
                lemma_contains_concat(own, others, Some(hit));
                if is_close(search.text_offer(components.last(), MatchScope::Basename, 0)) {
                    assert(own[0] == Some(hit));
                    assert(own.contains(Some(hit)));
                }
            }
        }
        if is_match(path, score, query, query_len, limit, other) {
            lemma_offers_are_matches(search, other);
            lemma_contains_concat(own, others, Some(other));
            assert(own[0] == search.text_offer(components.last(), MatchScope::Basename, 0));
        }
    }
}

/// What is offered is what matches.
proof fn lemma_offers_are_matches(search: PathSearch, hit: PathHit)
    requires
        components_of(search.path).len() > 0,
        search.path_depth == components_of(search.path).len(),
    ensures
        ({
            let (path, query) = (search.path, search.query);
            let lowered = lowercase(path);
            let components = components_of(path);
            let own = search.basename_offers(components.last());
            let others = search.other_offers(lowered, components);
            let matches = is_match(
                path,
                search.score,
                query,
                search.query_len,
                search.limit,
                hit,
            );
            &&& path_tokens(query).len() != 1 ==> (search.phrase_offers(
                lowered,
                components,
            ).contains(Some(hit)) <==> matches)
            &&& path_tokens(query).len() == 1 ==> ((own + others).contains(Some(hit)) <==> matches)
            &&& path_tokens(query).len() == 1 && matches ==> (own.contains(Some(hit))
                <==> is_of_basename(hit))
            &&& own.contains(Some(hit)) ==> is_of_basename(hit)
            &&& path_tokens(query).len() == 1 && matches && hit.scope == MatchScope::Basename
                ==> search.text_offer(components.last(), MatchScope::Basename, 0) == Some(hit)
            &&& own.contains(Some(hit)) <==> is_of_basename(hit) && exists|text: Seq<char>|
                #[trigger] is_text_match(
                    path,
                    search.score,
                    query,
                    search.query_len,
                    search.limit,
                    text,
                    hit,
                )
        }),
{
    let (path, query) = (search.path, search.query);
    let lowered = lowercase(path);
    let components = components_of(path);
    let last = components.len() - 1;
    let basename = components.last();
    let whole = search.text_offer(basename, MatchScope::Basename, 0);
    let words = search.word_offers(basename, MatchScope::BasenameToken, 0);
    let full = search.text_offer(lowered, MatchScope::FullPath, components.len());
    let own = search.basename_offers(basename);
    let others = search.other_offers(lowered, components);
    let wanted = Some(hit);
    lemma_text_matches(search, hit);
    lemma_word_offers(search, basename, MatchScope::BasenameToken, 0, hit);
    lemma_contains_concat(seq![whole], words, wanted);
    lemma_contains_one(whole, wanted);
    lemma_contains_one(full, wanted);
    lemma_parent_offers(search, components, last as nat, false, hit);
    lemma_parent_offers(search, components, last as nat, true, hit);
    let plain = search.parent_offers(components, last as nat, false);
    let parents = search.parent_offers(components, last as nat, true);
    lemma_contains_concat(plain, seq![full], wanted);
    lemma_contains_concat(own, others, wanted);
    let sequence = search.sequence_offer(basename, MatchScope::Basename, 0);
    let compound = search.compound_offer(basename, MatchScope::Basename, 0);
    let across = search.components_offer(components, MatchScope::OtherComponent);
    let first = seq![whole, sequence, compound, across];
    assert(first.contains(wanted) <==> whole == wanted || sequence == wanted || compound == wanted
        || across == wanted) by {
        assert(first[0] == whole && first[1] == sequence && first[2] == compound && first[3]
            == across);
    }
    lemma_contains_concat(first, words, wanted);
    lemma_contains_concat(first + words, parents, wanted);
    lemma_contains_concat(first + words + parents, seq![full], wanted);
    lemma_sequence_matches(search, hit);
    lemma_compound_matches(search, hit);
    lemma_run_matches(search, hit);
    lemma_scopes(search, hit);
    lemma_parents_with_parts(search, hit);
    assert(others == plain + seq![full]);
    assert(own == seq![whole] + words);
    assert(search.phrase_offers(lowered, components) == first + words + parents + seq![full]);
}

proof fn lemma_parents_with_parts(search: PathSearch, hit: PathHit)
    ensures
        ({
            let components = components_of(search.path);
            let last = components.len() - 1;
            (exists|i: int|
                0 <= i < last && #[trigger] is_offered(search, components, true, i, hit)) <==> {
                ||| exists|i: int|
                    0 <= i < last && #[trigger] is_offered(search, components, false, i, hit)
                ||| exists|i: int|
                    0 <= i < last && search.compound_offer(
                        #[trigger] components[i],
                        MatchScope::OtherComponent,
                        (last - i) as nat,
                    ) == Some(hit)
            }
        }),
{
    let components = components_of(search.path);
    let last = components.len() - 1;
    if exists|i: int| 0 <= i < last && #[trigger] is_offered(search, components, true, i, hit) {
        let i = choose|i: int|
            0 <= i < last && #[trigger] is_offered(search, components, true, i, hit);
        if !is_offered(search, components, false, i, hit) {
            assert(search.compound_offer(
                components[i],
                MatchScope::OtherComponent,
                (last - i) as nat,
            ) == Some(hit));
        }
    }
    if exists|i: int| 0 <= i < last && #[trigger] is_offered(search, components, false, i, hit) {
        let i = choose|i: int|
            0 <= i < last && #[trigger] is_offered(search, components, false, i, hit);
        assert(is_offered(search, components, true, i, hit));
    }
    if exists|i: int|
        0 <= i < last && search.compound_offer(
            #[trigger] components[i],
            MatchScope::OtherComponent,
            (last - i) as nat,
        ) == Some(hit) {
        let i = choose|i: int|
            0 <= i < last && search.compound_offer(
                #[trigger] components[i],
                MatchScope::OtherComponent,
                (last - i) as nat,
            ) == Some(hit);
        assert(is_offered(search, components, true, i, hit));
    }
}

/// A match says which scope it was offered under.
proof fn lemma_scopes(search: PathSearch, hit: PathHit)
    ensures
        forall|text: Seq<char>, scope: MatchScope, position: nat|
            #[trigger] search.text_offer(text, scope, position) == Some(hit) ==> hit.scope
                == scope,
{
}

proof fn lemma_contains_one<T>(item: T, wanted: T)
    ensures
        seq![item].contains(wanted) <==> item == wanted,
{
    assert(seq![item][0] == item);
}

proof fn lemma_word_offers(
    search: PathSearch,
    text: Seq<char>,
    scope: MatchScope,
    position: nat,
    hit: PathHit,
)
    ensures
        search.word_offers(text, scope, position).contains(Some(hit)) <==> exists|word: Seq<char>|
            #[trigger] path_tokens(text).contains(word) && search.text_offer(
                word,
                scope,
                position,
            ) == Some(hit),
{
    let words = path_tokens(text);
    let offers = search.word_offers(text, scope, position);
    if offers.contains(Some(hit)) {
        let k = choose|k: int| 0 <= k < offers.len() && offers[k] == Some(hit);
        assert(words.contains(words[k]));
    }
    if exists|word: Seq<char>|
        #[trigger] words.contains(word) && search.text_offer(word, scope, position) == Some(hit) {
        let word = choose|word: Seq<char>|
            #[trigger] words.contains(word) && search.text_offer(word, scope, position) == Some(
                hit,
            );
        let k = choose|k: int| 0 <= k < words.len() && words[k] == word;
        assert(offers[k] == Some(hit));
    }
}

/// Whether component `i` is offered as `hit`: all of it, its parts, or a word.
spec fn is_offered(
    search: PathSearch,
    components: Seq<Seq<char>>,
    compound: bool,
    i: int,
    hit: PathHit,
) -> bool {
    let position = (components.len() - 1 - i) as nat;
    let component = components[i];
    ||| search.text_offer(component, MatchScope::OtherComponent, position) == Some(hit)
    ||| compound && search.compound_offer(component, MatchScope::OtherComponent, position) == Some(
        hit,
    )
    ||| exists|word: Seq<char>|
        #[trigger] path_tokens(component).contains(word) && search.text_offer(
            word,
            MatchScope::OtherComponentToken,
            position,
        ) == Some(hit)
}

proof fn lemma_parent_offers(
    search: PathSearch,
    components: Seq<Seq<char>>,
    n: nat,
    compound: bool,
    hit: PathHit,
)
    requires
        n <= components.len(),
    ensures
        search.parent_offers(components, n, compound).contains(Some(hit)) <==> exists|i: int|
            0 <= i < n && #[trigger] is_offered(search, components, compound, i, hit),
    decreases n,
{
    if n > 0 {
        let i = n - 1;
        let component = components[i];
        let position = (components.len() - n) as nat;
        lemma_parent_offers(search, components, i as nat, compound, hit);
        let before = search.parent_offers(components, i as nat, compound);
        let now = search.component_offers(component, position, compound);
        lemma_contains_concat(before, now, Some(hit));
        let whole = seq![search.text_offer(component, MatchScope::OtherComponent, position)];
        let parts = if compound {
            seq![search.compound_offer(component, MatchScope::OtherComponent, position)]
        } else {
            seq![]
        };
        let words = search.word_offers(component, MatchScope::OtherComponentToken, position);
        lemma_contains_concat(whole, parts, Some(hit));
        lemma_contains_concat(whole + parts, words, Some(hit));
        lemma_contains_one(whole[0], Some(hit));
        if compound {
            lemma_contains_one(parts[0], Some(hit));
        }
        lemma_word_offers(search, component, MatchScope::OtherComponentToken, position, hit);
        assert(now.contains(Some(hit)) <==> is_offered(search, components, compound, i, hit));
    }
}

/// A text is offered if and only if it matches.
proof fn lemma_text_offer(
    search: PathSearch,
    text: Seq<char>,
    scope: MatchScope,
    position: nat,
    hit: PathHit,
)
    requires
        search.path_depth == components_of(search.path).len(),
    ensures
        search.text_offer(text, scope, position) == Some(hit) <==> {
            &&& hit.scope == scope
            &&& hit.path_position == position * 3
            &&& hit.structure == 0
            &&& text.len() > 0
            &&& search.limit > 0
            &&& search.query_len <= text.len() + search.limit
            &&& text.len() <= search.query_len + search.limit
            &&& reports(
                search.path,
                search.score,
                edit_cost(search.query, text),
                greater(search.query_len, text.len()),
                search.limit,
                hit,
            )
        },
{
}

proof fn lemma_text_matches(search: PathSearch, hit: PathHit)
    requires
        components_of(search.path).len() > 0,
        search.path_depth == components_of(search.path).len(),
    ensures
        (exists|text: Seq<char>|
            #[trigger] is_text_match(
                search.path,
                search.score,
                search.query,
                search.query_len,
                search.limit,
                text,
                hit,
            )) <==> {
            let components = components_of(search.path);
            let last = components.len() - 1;
            ||| search.text_offer(components.last(), MatchScope::Basename, 0) == Some(hit)
            ||| exists|word: Seq<char>|
                #[trigger] path_tokens(components.last()).contains(word) && search.text_offer(
                    word,
                    MatchScope::BasenameToken,
                    0,
                ) == Some(hit)
            ||| exists|i: int| 0 <= i < last && #[trigger] is_offered(
                search,
                components,
                false,
                i,
                hit,
            )
            ||| search.text_offer(
                lowercase(search.path),
                MatchScope::FullPath,
                components.len(),
            ) == Some(hit)
        },
{
    let (path, score, query) = (search.path, search.score, search.query);
    let (query_len, limit) = (search.query_len, search.limit);
    let components = components_of(path);
    let last = components.len() - 1;
    assert forall|text: Seq<char>, scope: MatchScope, position: nat|
        #[trigger] search.text_offer(text, scope, position) == Some(hit) && stands_in(
            path,
            text,
            scope,
            position * 3,
        ) implies is_text_match(path, score, query, query_len, limit, text, hit) by {
        lemma_text_offer(search, text, scope, position, hit);
    }
    if exists|i: int| 0 <= i < last && #[trigger] is_offered(search, components, false, i, hit) {
        let i = choose|i: int|
            0 <= i < last && #[trigger] is_offered(search, components, false, i, hit);
        let position = (components.len() - 1 - i) as nat;
        assert(components[i] == components[i]);
        if search.text_offer(components[i], MatchScope::OtherComponent, position) == Some(hit) {
            assert(stands_in(path, components[i], MatchScope::OtherComponent, position * 3));
        } else {
            let word = choose|word: Seq<char>|
                #[trigger] path_tokens(components[i]).contains(word) && search.text_offer(
                    word,
                    MatchScope::OtherComponentToken,
                    position,
                ) == Some(hit);
            assert(stands_in(path, word, MatchScope::OtherComponentToken, position * 3));
        }
    }
    if exists|text: Seq<char>|
        #[trigger] is_text_match(path, score, query, query_len, limit, text, hit) {
        let text = choose|text: Seq<char>|
            #[trigger] is_text_match(path, score, query, query_len, limit, text, hit);
        match hit.scope {
            MatchScope::Basename => {
                lemma_text_offer(search, text, hit.scope, 0, hit);
            },
            MatchScope::BasenameToken => {
                lemma_text_offer(search, text, hit.scope, 0, hit);
                assert(path_tokens(components.last()).contains(text));
            },
            MatchScope::OtherComponent => {
                let i = choose|i: int|
                    0 <= i < last && text == #[trigger] components[i] && hit.path_position
                        == steps_from_end(path, i);
                lemma_text_offer(
                    search,
                    text,
                    hit.scope,
                    (components.len() - 1 - i) as nat,
                    hit,
                );
                assert(is_offered(search, components, false, i, hit));
            },
            MatchScope::OtherComponentToken => {
                let i = choose|i: int|
                    0 <= i < last && path_tokens(#[trigger] components[i]).contains(text)
                        && hit.path_position == steps_from_end(path, i);
                lemma_text_offer(
                    search,
                    text,
                    hit.scope,
                    (components.len() - 1 - i) as nat,
                    hit,
                );
                assert(is_offered(search, components, false, i, hit));
            },
            MatchScope::FullPath => {
                lemma_text_offer(search, text, hit.scope, components.len(), hit);
            },
        }
    }
}

proof fn lemma_sequence_matches(search: PathSearch, hit: PathHit)
    requires
        components_of(search.path).len() > 0,
        search.path_depth == components_of(search.path).len(),
    ensures
        is_sequence_match(
            search.path,
            search.score,
            search.query,
            search.query_len,
            search.limit,
            hit,
        ) <==> search.sequence_offer(
            components_of(search.path).last(),
            MatchScope::Basename,
            0,
        ) == Some(hit),
{
    let words = path_tokens(search.query);
    let basename = components_of(search.path).last();
    let placed = crate::path::typo::placed_words(basename, 0);
    assert(placed =~= path_tokens(basename).map_values(
        |token: Seq<char>| PlacedToken { token, position: 0 },
    ));
    lemma_alignment_total(words, placed);
    if words.len() == placed.len() {
        lemma_only_run(words, placed, search.limit);
    }
}

/// A query of as many words as there are aligns with all of them.
proof fn lemma_only_run(query: Seq<Seq<char>>, candidate: Seq<PlacedToken>, limit: nat)
    requires
        query.len() == candidate.len(),
    ensures
        alignment_within(query, candidate, limit) == match crate::token_match::alignment_at(
            query,
            candidate,
            0,
            query.len(),
        ) {
            Some(found) if found.distance <= limit => Some(found),
            _ => None,
        },
{
    let found = crate::token_match::alignment_at(query, candidate, 0, query.len());
    if found is Some {
        crate::token_match::alignment_is_best(query, candidate, 0);
    }
    if let Some(best) = crate::token_match::alignment(query, candidate) {
        let some = choose|best: crate::token_match::Alignment|
            crate::token_match::is_best_alignment(query, candidate, best);
        let start = choose|start: int|
            0 <= start <= candidate.len() - query.len()
                && #[trigger] crate::token_match::alignment_at(
                query,
                candidate,
                start,
                query.len(),
            ) == Some(some);
        assert(start == 0);
    }
}

proof fn lemma_compound_offer(
    search: PathSearch,
    i: int,
    scope: MatchScope,
    hit: PathHit,
)
    requires
        0 <= i < components_of(search.path).len(),
        search.path_depth == components_of(search.path).len(),
        scope == if i == components_of(search.path).len() - 1 {
            MatchScope::Basename
        } else {
            MatchScope::OtherComponent
        },
    ensures
        is_compound_match(
            search.path,
            search.score,
            search.query,
            search.query_len,
            search.limit,
            i,
            hit,
        ) <==> search.compound_offer(
            components_of(search.path)[i],
            scope,
            (components_of(search.path).len() - 1 - i) as nat,
        ) == Some(hit),
{
    let position = components_of(search.path).len() - 1 - i;
    let words = path_tokens(search.query);
    lemma_split_total(words, components_of(search.path)[i]);
    assert((position * 3) as nat * words.len() == steps_from_end(search.path, i) * words.len());
}

proof fn lemma_compound_matches(search: PathSearch, hit: PathHit)
    requires
        components_of(search.path).len() > 0,
        search.path_depth == components_of(search.path).len(),
    ensures
        (exists|i: int|
            #[trigger] is_compound_match(
                search.path,
                search.score,
                search.query,
                search.query_len,
                search.limit,
                i,
                hit,
            )) <==> {
            let components = components_of(search.path);
            let last = components.len() - 1;
            ||| search.compound_offer(components.last(), MatchScope::Basename, 0) == Some(hit)
            ||| exists|i: int|
                0 <= i < last && search.compound_offer(
                    #[trigger] components[i],
                    MatchScope::OtherComponent,
                    (last - i) as nat,
                ) == Some(hit)
        },
        path_tokens(search.query).len() == 1 ==> forall|i: int|
            !#[trigger] is_compound_match(
                search.path,
                search.score,
                search.query,
                search.query_len,
                search.limit,
                i,
                hit,
            ),
{
    let components = components_of(search.path);
    let last = components.len() - 1;
    lemma_compound_offer(search, last, MatchScope::Basename, hit);
    if exists|i: int|
        #[trigger] is_compound_match(
            search.path,
            search.score,
            search.query,
            search.query_len,
            search.limit,
            i,
            hit,
        ) {
        let i = choose|i: int|
            #[trigger] is_compound_match(
                search.path,
                search.score,
                search.query,
                search.query_len,
                search.limit,
                i,
                hit,
            );
        if i < last {
            lemma_compound_offer(search, i, MatchScope::OtherComponent, hit);
            assert(components[i] == components[i]);
        }
    }
    if exists|i: int|
        0 <= i < last && search.compound_offer(
            #[trigger] components[i],
            MatchScope::OtherComponent,
            (last - i) as nat,
        ) == Some(hit) {
        let i = choose|i: int|
            0 <= i < last && search.compound_offer(
                #[trigger] components[i],
                MatchScope::OtherComponent,
                (last - i) as nat,
            ) == Some(hit);
        lemma_compound_offer(search, i, MatchScope::OtherComponent, hit);
    }
}

proof fn lemma_run_matches(search: PathSearch, hit: PathHit)
    requires
        components_of(search.path).len() > 0,
        search.path_depth == components_of(search.path).len(),
    ensures
        is_run_match(
            search.path,
            search.score,
            search.query,
            search.query_len,
            search.limit,
            hit,
        ) <==> search.components_offer(
            components_of(search.path),
            MatchScope::OtherComponent,
        ) == Some(hit),
{
    let words = path_tokens(search.query);
    let placed = words_of_path(search.path);
    lemma_words_of_path(search.path, components_of(search.path).len());
    lemma_alignment_total(words, placed);
    if placed.len() < words.len() {
        assert(alignment_within(words, placed, search.limit) is None) by {
            if let Some(best) = crate::token_match::alignment(words, placed) {
                let some = choose|best: crate::token_match::Alignment|
                    crate::token_match::is_best_alignment(words, placed, best);
                assert(crate::token_match::is_best_alignment(words, placed, some));
            }
        }
    }
}

proof fn lemma_words_of_path(path: Seq<char>, n: nat)
    requires
        n <= components_of(path).len(),
    ensures
        words_of_components(components_of(path), n) == Seq::new(
            components_of(path).len(),
            |i: int|
                path_tokens(components_of(path)[i]).map_values(
                    |token: Seq<char>| PlacedToken { token, position: steps_from_end(path, i) },
                ),
        ).take(n as int).flatten(),
        n == components_of(path).len() ==> words_of_components(components_of(path), n)
            == words_of_path(path),
    decreases n,
{
    let components = components_of(path);
    let lists = Seq::new(
        components.len(),
        |i: int|
            path_tokens(components[i]).map_values(
                |token: Seq<char>| PlacedToken { token, position: steps_from_end(path, i) },
            ),
    );
    if n > 0 {
        lemma_words_of_path(path, (n - 1) as nat);
        assert(lists.take(n as int) =~= lists.take(n - 1).push(lists[n - 1]));
        lists.take(n - 1).lemma_flatten_push(lists[n - 1]);
        assert(crate::path::typo::placed_words(
            components[n - 1],
            ((components.len() - n) * 3) as nat,
        ) =~= lists[n - 1]);
    } else {
        assert(lists.take(0) =~= Seq::empty());
    }
    if n == components.len() {
        assert(lists.take(n as int) =~= lists);
    }
}

/// Whether `hit` is a match of the path with a query of one word that lost a space
/// before its character `cut`: what the query finds with the space and one edit
/// less to spend, with that edit counted as an insertion or deletion.
pub open spec fn is_lost_space_match(
    path: Seq<char>,
    score: Score,
    query: Seq<char>,
    cut: int,
    hit: PathHit,
) -> bool {
    let len = query.len();
    let spaced = query.take(cut) + seq![' '] + query.skip(cut);
    &&& path_tokens(query).len() == 1
    &&& 0 < cut < len
    &&& query_match(path, score, spaced, len, (len / 2 - 1) as nat) matches Some(found)
        && counts_lost_space(found, len, hit)
}

/// Whether `hit` is `found` with one edit more, which is within half of `len`
/// edits.
pub open spec fn counts_lost_space(found: PathHit, len: nat, hit: PathHit) -> bool {
    &&& hit.distance == found.distance + 1
    &&& hit.distance <= len / 2
    &&& hit.operations == (EditCost {
        insert_delete: found.operations.insert_delete + 1,
        ..found.operations
    })
    &&& hit.ratio == if found.ratio.numerator * len < hit.distance * found.ratio.denominator {
        Fraction { numerator: hit.distance, denominator: len }
    } else {
        found.ratio
    }
    &&& hit.path == found.path
    &&& hit.scope == found.scope
    &&& hit.path_position == found.path_position
    &&& hit.structure == found.structure
    &&& hit.score == found.score
    &&& hit.path_depth == found.path_depth
}

/// Whether `hit` is what a query of two characters or more, which may take half as
/// many edits, finds of the path as it is, or with a space put in.
pub open spec fn is_typo_match(
    path: Seq<char>,
    score: Score,
    query: Seq<char>,
    hit: PathHit,
) -> bool {
    &&& query.len() >= 2
    &&& {
        ||| query_match(path, score, query, query.len(), query.len() / 2) == Some(hit)
        ||| exists|cut: int| #[trigger] is_lost_space_match(path, score, query, cut, hit)
    }
}

/// The match of a path is one that the query finds as it is or with a space put
/// in, there is one if there is any, and none ranks before it.
pub proof fn typo_match_is_best_of_all_readings(
    path: Seq<char>,
    score: Score,
    query: Seq<char>,
    other: PathHit,
)
    ensures
        typo_match(path, score, query) matches Some(hit) ==> is_typo_match(path, score, query, hit),
        is_typo_match(path, score, query, other) ==> (typo_match(path, score, query) matches Some(
            hit,
        ) && !other.ranks_before(hit)),
{
    let (len, limit) = (query.len(), query.len() / 2);
    let offers = match_offers(path, score, query);
    path_ranking_is_weak_order();
    best_of_is_first_best(path_order(), offers);
    if let Some(hit) = typo_match(path, score, query) {
        let place = choose|place: int| is_first_best(path_order(), offers, place, hit);
        if place > 0 {
            let variant = variants_of(query)[place - 1];
            let found = query_match(path, score, variant, len, one_less(limit));
            assert(offers[place] == with_lost_space(found, len, limit));
            variants_put_a_space_between_characters(query);
            assert(counts_lost_space(found->0, len, hit));
            assert(is_lost_space_match(path, score, query, place, hit));
        }
    }
    if is_typo_match(path, score, query, other) {
        if query_match(path, score, query, len, limit) == Some(other) {
            assert(offers[0] == Some(other));
        } else {
            let cut = choose|cut: int|
                #[trigger] is_lost_space_match(path, score, query, cut, other);
            variants_put_a_space_between_characters(query);
            let variant = variants_of(query)[cut - 1];
            let found = query_match(path, score, variant, len, one_less(limit));
            assert(offers[cut] == with_lost_space(found, len, limit));
            assert(offers[cut] == Some(other));
        }
    }
}

/// Whether `hit` is a match of the whole query with the last component of the path
/// or with a word of it.
pub open spec fn is_basename_match(
    path: Seq<char>,
    score: Score,
    query: Seq<char>,
    query_len: nat,
    limit: nat,
    hit: PathHit,
) -> bool {
    &&& hit.scope == MatchScope::Basename || hit.scope == MatchScope::BasenameToken
    &&& exists|text: Seq<char>|
        #[trigger] is_text_match(path, score, query, query_len, limit, text, hit)
}

/// What a query finds of the last component of a path is a match of it or of a
/// word of it, and if the path signals the query, there is one if there is any,
/// and none ranks before it.
pub proof fn basename_match_is_best_of_basename(
    path: Seq<char>,
    score: Score,
    query: Seq<char>,
    query_len: nat,
    limit: nat,
    other: PathHit,
)
    ensures
        query_basename_match(path, score, query, query_len, limit) matches Some(hit)
            ==> is_basename_match(path, score, query, query_len, limit, hit) && any_signals(
            path_tokens(query),
            lowercase(path),
        ),
        any_signals(path_tokens(query), lowercase(path)) && is_basename_match(
            path,
            score,
            query,
            query_len,
            limit,
            other,
        ) ==> (query_basename_match(path, score, query, query_len, limit) matches Some(hit)
            && !other.ranks_before(hit)),
{
    let components = components_of(path);
    let search = PathSearch {
        path,
        score,
        query,
        query_len,
        limit,
        path_depth: components.len(),
    };
    path_ranking_is_weak_order();
    if components.len() > 0 {
        let own = search.basename_offers(components.last());
        best_of_is_first_best(path_order(), own);
        if let Some(hit) = query_basename_match(path, score, query, query_len, limit) {
            lemma_offers_are_matches(search, hit);
        }
        lemma_offers_are_matches(search, other);
    }
}

/// Whether `hit` is what a query of two characters or more finds of the last
/// component as it is, or with a space put in.
pub open spec fn is_basename_typo_match(
    path: Seq<char>,
    score: Score,
    query: Seq<char>,
    hit: PathHit,
) -> bool {
    let len = query.len();
    &&& len >= 2
    &&& {
        ||| query_basename_match(path, score, query, len, len / 2) == Some(hit)
        ||| path_tokens(query).len() == 1 && exists|cut: int|
            0 < cut < len && (query_basename_match(
                path,
                score,
                #[trigger] query.take(cut) + seq![' '] + query.skip(cut),
                len,
                (len / 2 - 1) as nat,
            ) matches Some(found) && counts_lost_space(found, len, hit))
    }
}

/// The match of the last component of a path is one that the query finds as it is
/// or with a space put in, there is one if there is any, and none ranks before it.
pub proof fn basename_typo_match_is_best_of_all_readings(
    path: Seq<char>,
    score: Score,
    query: Seq<char>,
    other: PathHit,
)
    ensures
        basename_typo_match(path, score, query) matches Some(hit) ==> is_basename_typo_match(
            path,
            score,
            query,
            hit,
        ),
        is_basename_typo_match(path, score, query, other) ==> (basename_typo_match(
            path,
            score,
            query,
        ) matches Some(hit) && !other.ranks_before(hit)),
{
    let (len, limit) = (query.len(), query.len() / 2);
    let offers = basename_match_offers(path, score, query);
    path_ranking_is_weak_order();
    best_of_is_first_best(path_order(), offers);
    variants_put_a_space_between_characters(query);
    if let Some(hit) = basename_typo_match(path, score, query) {
        let cut = choose|place: int| is_first_best(path_order(), offers, place, hit);
        if cut > 0 {
            let variant = variants_of(query)[cut - 1];
            let found = query_basename_match(path, score, variant, len, one_less(limit));
            assert(offers[cut] == with_lost_space(found, len, limit));
            assert(counts_lost_space(found->0, len, hit));
            assert(query.take(cut) + seq![' '] + query.skip(cut) == variant);
        }
    }
    if is_basename_typo_match(path, score, query, other) {
        if query_basename_match(path, score, query, len, limit) == Some(other) {
            assert(offers[0] == Some(other));
        } else {
            let cut = choose|cut: int|
                0 < cut < len && (query_basename_match(
                    path,
                    score,
                    #[trigger] query.take(cut) + seq![' '] + query.skip(cut),
                    len,
                    (len / 2 - 1) as nat,
                ) matches Some(found) && counts_lost_space(found, len, other));
            let variant = variants_of(query)[cut - 1];
            let found = query_basename_match(path, score, variant, len, one_less(limit));
            assert(offers[cut] == with_lost_space(found, len, limit));
            assert(offers[cut] == Some(other));
        }
    }
}

/// Whether `text` is a component of the path, a word of one, or all of the path, in
/// lower case.
pub open spec fn is_text_of(path: Seq<char>, text: Seq<char>) -> bool {
    &&& components_of(path).len() > 0
    &&& {
        ||| text == lowercase(path)
        ||| exists|i: int|
            0 <= i < components_of(path).len() && (text == #[trigger] components_of(path)[i]
                || path_tokens(components_of(path)[i]).contains(text))
    }
}

/// Whether `text` is the last component of the path or a word of it, in lower
/// case.
pub open spec fn is_text_of_basename(path: Seq<char>, text: Seq<char>) -> bool {
    &&& components_of(path).len() > 0
    &&& text == components_of(path).last() || path_tokens(components_of(path).last()).contains(text)
}

/// A query of one word and two characters or more that is within half its length
/// in edits of a component of the path, of a word of any component, or of the
/// whole path, finds the path, if that signals the query: with no more edits than
/// that takes, or with one. It is with no more than that takes where nothing of
/// the last component takes one edit or less.
pub proof fn near_text_is_found(
    path: Seq<char>,
    score: Score,
    query: Seq<char>,
    text: Seq<char>,
)
    requires
        query.len() >= 2,
        path_tokens(query).len() == 1,
        is_text_of(path, text),
        text.len() > 0,
        edit_cost(query, text).total() <= query.len() / 2,
        any_signals(path_tokens(query), lowercase(path)),
    ensures
        typo_match(path, score, query) matches Some(hit) && {
            &&& hit.distance <= 1 || hit.distance <= edit_cost(query, text).total()
            &&& (forall|own: Seq<char>|
                #[trigger] is_text_of_basename(path, own) ==> edit_cost(query, own).total()
                    > 1) ==> hit.distance <= edit_cost(query, text).total()
        },
{
    let (len, limit) = (query.len(), query.len() / 2);
    let components = components_of(path);
    let last = components.len() - 1;
    let cost = edit_cost(query, text);
    edit_cost_is_bounded_by_lengths(query, text);
    let (scope, position) = if text == lowercase(path) {
        (MatchScope::FullPath, 3 * components.len())
    } else {
        let i = choose|i: int|
            0 <= i < components.len() && (text == #[trigger] components[i] || path_tokens(
                components[i],
            ).contains(text));
        if i == last {
            if text == components[last] {
                (MatchScope::Basename, 0nat)
            } else {
                (MatchScope::BasenameToken, 0nat)
            }
        } else if text == components[i] {
            (MatchScope::OtherComponent, steps_from_end(path, i))
        } else {
            (MatchScope::OtherComponentToken, steps_from_end(path, i))
        }
    };
    assert(stands_in(path, text, scope, position));
    let way = PathHit {
        path,
        distance: cost.total(),
        ratio: Fraction { numerator: cost.total(), denominator: greater(len, text.len()) },
        scope,
        path_position: position,
        structure: 0,
        operations: cost,
        score,
        path_depth: components.len(),
    };
    assert(is_text_match(path, score, query, len, limit, text, way));
    query_match_is_best_of_all_ways(path, score, query, len, limit, way);
    let found = query_match(path, score, query, len, limit)->0;
    query_match_is_best_of_all_ways(path, score, query, len, limit, found);
    assert(is_typo_match(path, score, query, found));
    typo_match_is_best_of_all_readings(path, score, query, found);
    let hit = typo_match(path, score, query)->0;
    assert(hit.distance <= found.distance);
    if found.distance > cost.total() {
        assert(way.ranks_before(found));
        lemma_close_match_is_of_basename(path, score, query, len, limit, found);
    }
}

proof fn lemma_close_match_is_of_basename(
    path: Seq<char>,
    score: Score,
    query: Seq<char>,
    len: nat,
    limit: nat,
    found: PathHit,
)
    requires
        path_tokens(query).len() == 1,
        is_match(path, score, query, len, limit, found),
        found.distance <= 1,
        is_of_basename(found),
    ensures
        exists|own: Seq<char>|
            #[trigger] is_text_of_basename(path, own) && edit_cost(query, own).total() <= 1,
{
    let text = choose|text: Seq<char>|
        #[trigger] is_text_match(path, score, query, len, limit, text, found);
    assert(is_text_match(path, score, query, len, limit, text, found));
    assert(is_text_of_basename(path, text));
}

/// A query of one word and two characters or more that is a component of the path
/// or a word of any component, in lower case, finds the path by one edit or less,
/// and without an edit where nothing of the last component takes just one.
pub proof fn word_of_path_is_found(path: Seq<char>, score: Score, query: Seq<char>, i: int)
    requires
        query.len() >= 2,
        path_tokens(query).len() == 1,
        0 <= i < components_of(path).len(),
        query == components_of(path)[i] || path_tokens(components_of(path)[i]).contains(query),
    ensures
        typo_match(path, score, query) matches Some(hit) && {
            &&& hit.distance <= 1
            &&& (forall|own: Seq<char>|
                #[trigger] is_text_of_basename(path, own) ==> edit_cost(query, own).total()
                    != 1) ==> hit.distance == 0
        },
{
    let component = components_of(path)[i];
    edit_cost_is_zero_iff_equal(query, query);
    assert(is_text_of(path, query));
    lemma_part_of_path_signals(path, i, query);
    near_text_is_found(path, score, query, query);
    if forall|own: Seq<char>|
        #[trigger] is_text_of_basename(path, own) ==> edit_cost(query, own).total() != 1 {
        if exists|own: Seq<char>|
            #[trigger] is_text_of_basename(path, own) && edit_cost(query, own).total() == 0 {
            let own = choose|own: Seq<char>|
                #[trigger] is_text_of_basename(path, own) && edit_cost(query, own).total() == 0;
            edit_cost_is_zero_iff_equal(query, own);
            lemma_own_text_is_found(path, score, query);
        }
    }
}

proof fn lemma_own_text_is_found(path: Seq<char>, score: Score, query: Seq<char>)
    requires
        query.len() >= 2,
        path_tokens(query).len() == 1,
        is_text_of_basename(path, query),
        any_signals(path_tokens(query), lowercase(path)),
        forall|own: Seq<char>|
            #[trigger] is_text_of_basename(path, own) ==> edit_cost(query, own).total() != 1,
    ensures
        typo_match(path, score, query) matches Some(hit) && hit.distance == 0,
{
    let (len, limit) = (query.len(), query.len() / 2);
    let components = components_of(path);
    let cost = edit_cost(query, query);
    edit_cost_is_zero_iff_equal(query, query);
    let scope = if query == components.last() {
        MatchScope::Basename
    } else {
        MatchScope::BasenameToken
    };
    let way = PathHit {
        path,
        distance: 0,
        ratio: Fraction { numerator: 0, denominator: len },
        scope,
        path_position: 0,
        structure: 0,
        operations: cost,
        score,
        path_depth: components.len(),
    };
    assert(stands_in(path, query, scope, 0));
    assert(is_text_match(path, score, query, len, limit, query, way));
    query_match_is_best_of_all_ways(path, score, query, len, limit, way);
    let found = query_match(path, score, query, len, limit)->0;
    query_match_is_best_of_all_ways(path, score, query, len, limit, found);
    if found.distance > 0 {
        assert(way.ranks_before(found));
        let text = choose|text: Seq<char>|
            #[trigger] is_text_match(path, score, query, len, limit, text, found);
        assert(is_text_match(path, score, query, len, limit, text, found));
        assert(is_text_of_basename(path, text));
        assert(edit_cost(query, text).total() == 1);
    }
    assert(is_typo_match(path, score, query, found));
    typo_match_is_best_of_all_readings(path, score, query, found);
}

proof fn lemma_word_is_of_component(components: Seq<Seq<char>>, n: nat, at: int)
    requires
        n <= components.len(),
        0 <= at < words_of_components(components, n).len(),
    ensures
        exists|i: int|
            0 <= i < n && #[trigger] path_tokens(components[i]).contains(
                words_of_components(components, n)[at].token,
            ),
    decreases n,
{
    if n > 0 {
        let before = words_of_components(components, (n - 1) as nat);
        let words = path_tokens(components[n - 1]);
        if at < before.len() {
            lemma_word_is_of_component(components, (n - 1) as nat, at);
            assert(words_of_components(components, n)[at] == before[at]);
        } else {
            assert(words_of_components(components, n)[at].token == words[at - before.len()]);
            assert(words.contains(words[at - before.len()]));
        }
    }
}

proof fn lemma_word_signals(path: Seq<char>, i: int, word: Seq<char>)
    requires
        0 <= i < components_of(path).len(),
        path_tokens(components_of(path)[i]).contains(word),
    ensures
        signals(word, lowercase(path)),
{
    let lowered = lowercase(path);
    let component = components_of(path)[i];
    let words = path_tokens(component);
    let w = choose|w: int| 0 <= w < words.len() && words[w] == word;
    lemma_token_is_part(Separator::PathComponent, lowered, i);
    lemma_token_is_part(Separator::PathToken, component, w);
    assert forall|k: int| 0 <= k < word.len() implies lowered.contains(#[trigger] word[k]) by {
        assert(component.contains(words[w][k]));
        let at = choose|at: int| 0 <= at < component.len() && component[at] == word[k];
        assert(lowered.contains(component[at]));
    }
    text_signals_what_it_holds(word, lowered);
}

/// A path signals a query that is a component of it or a word of one.
proof fn lemma_part_of_path_signals(path: Seq<char>, i: int, query: Seq<char>)
    requires
        path_tokens(query).len() > 0,
        0 <= i < components_of(path).len(),
        query == components_of(path)[i] || path_tokens(components_of(path)[i]).contains(query),
    ensures
        any_signals(path_tokens(query), lowercase(path)),
{
    let lowered = lowercase(path);
    let component = components_of(path)[i];
    lemma_token_is_part(Separator::PathComponent, lowered, i);
    assert forall|k: int| 0 <= k < query.len() implies lowered.contains(#[trigger] query[k]) by {
        if query != component {
            let words = path_tokens(component);
            let w = choose|w: int| 0 <= w < words.len() && words[w] == query;
            lemma_token_is_part(Separator::PathToken, component, w);
            assert(component.contains(words[w][k]));
            let at = choose|at: int| 0 <= at < component.len() && component[at] == query[k];
            assert(lowered.contains(component[at]));
        }
    }
    lemma_token_is_part(Separator::PathToken, query, 0);
    let word = path_tokens(query)[0];
    assert forall|k: int| 0 <= k < word.len() implies lowered.contains(#[trigger] word[k]) by {
        let at = choose|at: int| 0 <= at < query.len() && query[at] == word[k];
        assert(query.contains(word[k]));
        assert(lowered.contains(query[at]));
    }
    text_signals_what_it_holds(word, lowered);
    assert(signals(path_tokens(query)[0], lowered));
}

proof fn lemma_token_is_part(separator: Separator, text: Seq<char>, k: int)
    requires
        0 <= k < tokens(separator, text).len(),
    ensures
        tokens(separator, text)[k].len() > 0,
        forall|i: int|
            0 <= i < tokens(separator, text)[k].len() ==> text.contains(
                #[trigger] tokens(separator, text)[k][i],
            ),
{
    let places = tokens_are_runs(separator, text);
    let token = tokens(separator, text)[k];
    let (start, end) = places[k];
    assert forall|i: int| 0 <= i < token.len() implies text.contains(#[trigger] token[i]) by {
        assert(token[i] == text[start + i]);
    }
}

/// A query of several words that are consecutive words of the path, whatever
/// components they are in, finds the path without an edit.
pub proof fn consecutive_words_are_found(
    path: Seq<char>,
    score: Score,
    query: Seq<char>,
    start: int,
)
    requires
        path_tokens(query).len() >= 2,
        0 <= start,
        start + path_tokens(query).len() <= words_of_path(path).len(),
        forall|k: int|
            0 <= k < path_tokens(query).len() ==> words_of_path(path)[start + k].token
                == #[trigger] path_tokens(query)[k],
    ensures
        typo_match(path, score, query) matches Some(hit) && hit.distance == 0,
{
    let (len, limit) = (query.len(), query.len() / 2);
    let words = path_tokens(query);
    let components = components_of(path);
    let placed = words_of_path(path);
    let places = tokens_are_runs(Separator::PathToken, query);
    assert(len >= 2) by {
        assert(places[0].1 < places[1].0);
    }
    assert forall|k: int| 0 <= k < words.len() implies (#[trigger] words[k]).len() > 0 && placed[
    start + k].token == words[k] by {
        lemma_token_is_part(Separator::PathToken, query, k);
    }
    if components.len() == 0 {
        assert(placed =~= Seq::empty());
    }
    lemma_words_of_path(path, components.len());
    lemma_word_is_of_component(components, components.len(), start);
    let i = choose|i: int|
        0 <= i < components.len() && #[trigger] path_tokens(components[i]).contains(
            placed[start].token,
        );
    assert(placed[start + 0].token == words[0]);
    lemma_word_signals(path, i, words[0]);
    assert(signals(words[0], lowercase(path)));
    tokens_align_with_themselves(words, placed, start, limit);
    lemma_alignment_total(words, placed);
    let found = alignment_within(words, placed, limit)->0;
    let way = PathHit {
        path,
        distance: 0,
        ratio: Fraction { numerator: 0, denominator: len },
        scope: MatchScope::OtherComponent,
        path_position: found.position,
        structure: found.structure,
        operations: found.operations,
        score,
        path_depth: components.len(),
    };
    assert(is_run_match(path, score, query, len, limit, way));
    query_match_is_best_of_all_ways(path, score, query, len, limit, way);
    let best = query_match(path, score, query, len, limit)->0;
    assert(is_typo_match(path, score, query, best));
    typo_match_is_best_of_all_readings(path, score, query, best);
}

/// The query that keywords make is there if and only if there are keywords and
/// none is empty, and it is the keywords in lower case with a space between each
/// two.
pub proof fn keywords_are_joined_by_spaces(keywords: Seq<Seq<char>>)
    ensures
        keywords_query(keywords) is Some <==> keywords.len() > 0 && forall|i: int|
            0 <= i < keywords.len() ==> (#[trigger] keywords[i]).len() > 0,
        keywords_query(keywords) matches Some(query) ==> query + seq![' '] == Seq::new(
            keywords.len(),
            |i: int| lowercase(keywords[i]) + seq![' '],
        ).flatten(),
{
    if let Some(query) = keywords_query(keywords) {
        let words = keywords.map_values(|keyword: Seq<char>| lowercase(keyword));
        lemma_spaced(words);
        assert(words.map_values(|word: Seq<char>| word + seq![' ']) =~= Seq::new(
            keywords.len(),
            |i: int| lowercase(keywords[i]) + seq![' '],
        ));
    }
}

proof fn lemma_spaced(words: Seq<Seq<char>>)
    requires
        words.len() > 0,
    ensures
        spaced(words) + seq![' '] == words.map_values(
            |word: Seq<char>| word + seq![' '],
        ).flatten(),
    decreases words.len(),
{
    let lists = words.map_values(|word: Seq<char>| word + seq![' ']);
    let shorter = lists.drop_last();
    assert(lists =~= shorter.push(lists.last()));
    shorter.lemma_flatten_push(lists.last());
    if words.len() > 1 {
        lemma_spaced(words.drop_last());
        assert(words.drop_last().map_values(|word: Seq<char>| word + seq![' ']) =~= shorter);
        assert(spaced(words) + seq![' '] =~= (spaced(words.drop_last()) + seq![' ']) + (words.last()
            + seq![' ']));
    } else {
        assert(shorter =~= Seq::empty());
        assert(spaced(words) + seq![' '] =~= Seq::<char>::empty() + lists.last());
    }
}

/// What a match is ordered by before its path.
pub open spec fn numbers_of(hit: PathHit) -> Seq<int> {
    seq![
        hit.distance as int,
        hit.operations.substitutions as int,
        hit.operations.insert_delete as int,
        hit.operations.transpositions as int,
        milli(hit.distance, clamped(hit.ratio.whole_of(hit.distance))) as int,
        hit.path_position as int,
        -hit.score.rank(),
        hit.structure as int,
        hit.path_depth as int,
    ]
}

/// Matches of paths are ordered by distance, by substitutions, insertions and
/// deletions, and transpositions, by the share mistyped in thousandths, by position,
/// by the higher score, by structure and by depth, and then by the paths. Two are
/// ambiguous if they agree in all of these but the last two.
pub proof fn path_matches_are_ordered(left: PathHit, right: PathHit)
    ensures
        left.ranks_before(right) <==> is_lower(numbers_of(left), numbers_of(right)) || numbers_of(
            left,
        ) == numbers_of(right) && text_before(left.path, right.path),
        left.key().ties(right.key()) <==> numbers_of(left).drop_last() == numbers_of(
            right,
        ).drop_last(),
{
    assert(numbers_of_path_typo(left.key()) =~= numbers_of(left));
    assert(numbers_of_path_typo(right.key()) =~= numbers_of(right));
    path_typo_order_is_by_first_difference(left.key(), right.key());
    ambiguity_looks_at_all_but_the_last_number(
        arbitrary(),
        arbitrary(),
        left.key(),
        right.key(),
    );
}

} // verus!
