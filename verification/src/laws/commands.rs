//! What a mistyped query finds of a command.

use vstd::prelude::*;

use crate::command::{
    command_order, command_ranking_is_weak_order, match_offers, placed_in_order, prepared_query,
    query_match, typo_match, variants_of, with_lost_space, Command, CommandHit, CommandSearch,
};
use crate::distance::{
    edit_cost, edit_cost_is_bounded_by_lengths, edit_cost_is_zero_iff_equal, one_less, EditCost,
};
use crate::laws::texts::{greater, tokens_are_runs, variants_put_a_space_between_characters};
use crate::laws::tokens::tokens_align_with_themselves;
use crate::order::{best_of_is_first_best, is_first_best, is_lower};
use crate::ranking::{
    ambiguity_looks_at_all_but_the_last_number, numbers_of_typo, typo_order_is_by_first_difference,
};
use crate::score::{clamped, milli, Fraction};
use crate::text::{any_signals, text_before, trimmed, whitespace_tokens, Separator};
use crate::token_match::{
    alignment, alignment_within, is_best_alignment, lemma_alignment_total, lemma_split_total,
    split_within, Alignment, PlacedToken,
};
use crate::unicode::lowercase;

verus! {

/// What a query is matched as: trimmed and in lower case.
pub proof fn queries_are_trimmed_and_lowered(query: Seq<char>)
    ensures
        prepared_query(query) == lowercase(trimmed(query)),
{
}

/// The token `idx` of a command in lower case.
pub open spec fn token_of(command: Command, idx: int) -> Seq<char> {
    lowercase(command.tokens[idx])
}

/// The tokens of a command in lower case, each three steps after the one before.
pub open spec fn tokens_in_order(command: Command) -> Seq<PlacedToken> {
    Seq::new(
        command.tokens.len(),
        |idx: int| PlacedToken { token: token_of(command, idx), position: (3 * idx) as nat },
    )
}

/// Whether `hit` reports a match of the command by these edits, at most `limit`
/// and no more than half of the length compared.
pub open spec fn reports(
    command: Command,
    cost: EditCost,
    compared_len: nat,
    limit: nat,
    hit: CommandHit,
) -> bool {
    &&& hit.command == command
    &&& hit.token_count == command.tokens.len()
    &&& hit.operations == cost
    &&& hit.distance == cost.substitutions + cost.insert_delete + cost.transpositions
    &&& hit.distance <= limit
    &&& hit.ratio == (Fraction { numerator: hit.distance, denominator: compared_len })
    &&& hit.distance + hit.distance <= compared_len
}

/// Whether `hit` is a match of a query of one word with the token `idx`.
pub open spec fn is_token_match(
    command: Command,
    query: Seq<char>,
    query_len: nat,
    limit: nat,
    idx: int,
    hit: CommandHit,
) -> bool {
    let token = token_of(command, idx);
    &&& whitespace_tokens(query).len() == 1
    &&& 0 <= idx < command.tokens.len()
    &&& token.len() > 0
    &&& limit > 0
    &&& query_len <= token.len() + limit
    &&& token.len() <= query_len + limit
    &&& hit.position == 3 * idx
    &&& hit.structure == 0
    &&& reports(command, edit_cost(query, token), greater(query_len, token.len()), limit, hit)
}

/// Whether `hit` is a match of the words of the query, however many, with as many
/// consecutive tokens, one by one.
pub open spec fn is_run_match(
    command: Command,
    query: Seq<char>,
    query_len: nat,
    limit: nat,
    hit: CommandHit,
) -> bool {
    &&& whitespace_tokens(query).len() > 0
    &&& alignment_within(
        whitespace_tokens(query),
        tokens_in_order(command),
        limit,
    ) matches Some(found) && hit.position == found.position && hit.structure == found.structure
        && reports(command, found.operations, query_len, limit, hit)
}

/// Whether `hit` is a match of the words of the query, two or more, with
/// consecutive parts of the token `idx`.
pub open spec fn is_compound_match(
    command: Command,
    query: Seq<char>,
    query_len: nat,
    limit: nat,
    idx: int,
    hit: CommandHit,
) -> bool {
    let words = whitespace_tokens(query);
    let token = token_of(command, idx);
    &&& words.len() >= 2
    &&& 0 <= idx < command.tokens.len()
    &&& split_within(words, token, limit) matches Some(found) && hit.position == (3 * idx)
        * words.len() + found.position && hit.structure == found.structure && reports(
        command,
        found.operations,
        greater(query_len, token.len()),
        limit,
        hit,
    )
}

/// Whether `hit` is a match of a query of one word with some token.
pub open spec fn is_of_one_token(
    command: Command,
    query: Seq<char>,
    query_len: nat,
    limit: nat,
    hit: CommandHit,
) -> bool {
    exists|idx: int| #[trigger] is_token_match(command, query, query_len, limit, idx, hit)
}

/// Whether `hit` is a match of the command with the query in one of the ways there
/// are.
pub open spec fn is_match(
    command: Command,
    query: Seq<char>,
    query_len: nat,
    limit: nat,
    hit: CommandHit,
) -> bool {
    ||| is_of_one_token(command, query, query_len, limit, hit)
    ||| is_run_match(command, query, query_len, limit, hit)
    ||| exists|idx: int|
        #[trigger] is_compound_match(command, query, query_len, limit, idx, hit)
}

/// What a query finds of a command is a match in one of the ways there are, and if
/// the command signals the query, no match in any of those ways is missed: there
/// is one if there is any, and none ranks before it. But a query of one word is
/// content with the best match of a single token, where a fifth or less of it is
/// mistyped.
pub proof fn query_match_is_best_of_all_ways(
    command: Command,
    query: Seq<char>,
    query_len: nat,
    limit: nat,
    other: CommandHit,
)
    ensures
        query_match(command, query, query_len, limit) matches Some(hit) ==> is_match(
            command,
            query,
            query_len,
            limit,
            hit,
        ) && any_signals(whitespace_tokens(query), lowercase(command.command)),
        any_signals(whitespace_tokens(query), lowercase(command.command)) && is_match(
            command,
            query,
            query_len,
            limit,
            other,
        ) ==> (query_match(command, query, query_len, limit) matches Some(hit) && {
            ||| !other.ranks_before(hit)
            ||| 5 * hit.distance <= hit.ratio.denominator && is_of_one_token(
                command,
                query,
                query_len,
                limit,
                hit,
            ) && !is_of_one_token(command, query, query_len, limit, other)
        }),
{
    let lowered = crate::command::lowercase_each(command.tokens);
    let search = CommandSearch { command, lowered, query, query_len, limit };
    let texts = search.text_offers();
    let all = search.all_offers();
    command_ranking_is_weak_order();
    best_of_is_first_best(command_order(), texts);
    best_of_is_first_best(command_order(), all);
    if let Some(hit) = query_match(command, query, query_len, limit) {
        lemma_offers_are_matches(search, hit);
    }
    if is_match(command, query, query_len, limit, other) {
        lemma_offers_are_matches(search, other);
    }
}

/// What is offered is what matches.
proof fn lemma_offers_are_matches(search: CommandSearch, hit: CommandHit)
    requires
        search.lowered == crate::command::lowercase_each(search.command.tokens),
    ensures
        ({
            let (command, query) = (search.command, search.query);
            let (query_len, limit) = (search.query_len, search.limit);
            &&& search.text_offers().contains(Some(hit)) <==> is_of_one_token(
                command,
                query,
                query_len,
                limit,
                hit,
            )
            &&& whitespace_tokens(query).len() > 0 ==> (search.all_offers().contains(Some(hit))
                <==> is_match(command, query, query_len, limit, hit))
            &&& is_match(command, query, query_len, limit, hit) ==> whitespace_tokens(query).len()
                > 0 && search.lowered.len() > 0
            &&& search.text_offers().contains(Some(hit)) ==> search.all_offers().contains(Some(hit))
        }),
{
    let (command, query) = (search.command, search.query);
    let (query_len, limit) = (search.query_len, search.limit);
    let words = whitespace_tokens(query);
    let lowered = search.lowered;
    let texts = search.text_offers();
    let sequences = search.sequence_offers();
    let compounds = search.compound_offers();
    let all = search.all_offers();
    let placed = tokens_in_order(command);
    assert(placed =~= placed_in_order(lowered));
    assert forall|idx: int| 0 <= idx < lowered.len() implies #[trigger] lowered[idx] == token_of(
        command,
        idx,
    ) by {}
    assert forall|idx: int|
        0 <= idx < lowered.len() && words.len() == 1 implies (#[trigger] search.text_offer(idx)
        == Some(hit) <==> is_token_match(command, query, query_len, limit, idx, hit)) by {
        assert(lowered[idx] == token_of(command, idx));
    }
    lemma_alignment_total(words, placed);
    if placed.len() < words.len() {
        assert(alignment_within(words, placed, limit) is None) by {
            if let Some(best) = alignment(words, placed) {
                let some = choose|best: Alignment| is_best_alignment(words, placed, best);
                assert(is_best_alignment(words, placed, some));
            }
        }
    }
    assert(words.len() > 0 ==> (sequences.contains(Some(hit)) <==> is_run_match(
        command,
        query,
        query_len,
        limit,
        hit,
    ))) by {
        if words.len() <= lowered.len() {
            assert(sequences[0] == search.sequence_offer());
        }
    }
    assert forall|idx: int| 0 <= idx < lowered.len() implies (#[trigger] search.compound_offer(idx)
        == Some(hit) <==> is_compound_match(command, query, query_len, limit, idx, hit)) by {
        assert(lowered[idx] == token_of(command, idx));
        lemma_split_total(words, lowered[idx]);
        assert((idx * 3) as nat * words.len() == (3 * idx) * words.len());
    }
    if texts.contains(Some(hit)) {
        let k = choose|k: int| 0 <= k < texts.len() && texts[k] == Some(hit);
        assert(search.text_offer(k) == Some(hit));
        assert(all[k] == Some(hit));
    }
    if is_of_one_token(command, query, query_len, limit, hit) {
        let idx = choose|idx: int|
            #[trigger] is_token_match(command, query, query_len, limit, idx, hit);
        assert(search.text_offer(idx) == Some(hit));
        assert(texts[idx] == Some(hit));
    }
    if exists|idx: int| #[trigger] is_compound_match(command, query, query_len, limit, idx, hit) {
        let idx = choose|idx: int|
            #[trigger] is_compound_match(command, query, query_len, limit, idx, hit);
        assert(search.compound_offer(idx) == Some(hit));
        assert(compounds[idx] == Some(hit));
        assert(all[texts.len() + sequences.len() + idx] == Some(hit));
    }
    if sequences.contains(Some(hit)) {
        assert(sequences[0] == Some(hit));
        assert(all[texts.len() as int] == Some(hit));
    }
    if all.contains(Some(hit)) {
        let k = choose|k: int| 0 <= k < all.len() && all[k] == Some(hit);
        if k < texts.len() {
            assert(texts[k] == Some(hit));
        } else if k < texts.len() + sequences.len() {
            assert(sequences[k - texts.len()] == Some(hit));
        } else {
            let idx = k - texts.len() - sequences.len();
            assert(compounds[idx] == Some(hit));
            assert(search.compound_offer(idx) == Some(hit));
        }
    }
}

/// Whether `hit` is a match of the command with a query of one word that lost a
/// space before its character `cut`: what the query finds with the space and one
/// edit less to spend, with that edit counted as an insertion or deletion.
pub open spec fn is_lost_space_match(
    command: Command,
    query: Seq<char>,
    cut: int,
    hit: CommandHit,
) -> bool {
    let len = query.len();
    let spaced = query.take(cut) + seq![' '] + query.skip(cut);
    &&& whitespace_tokens(query).len() == 1
    &&& 0 < cut < len
    &&& query_match(command, spaced, len, (len / 2 - 1) as nat) matches Some(found)
        && counts_lost_space(found, len, hit)
}

/// Whether `hit` is `found` with one edit more, which is within half of `len`
/// edits.
pub open spec fn counts_lost_space(found: CommandHit, len: nat, hit: CommandHit) -> bool {
    &&& hit.distance == found.distance + 1
    &&& hit.distance <= len / 2
    &&& hit.operations == (EditCost {
        insert_delete: found.operations.insert_delete + 1,
        ..found.operations
    })
    &&& hit.ratio == if found.ratio.numerator * len < hit.distance * found.ratio.denominator {
        Fraction { numerator: hit.distance, denominator: len }
    } else {
        found.ratio
    }
    &&& hit.command == found.command
    &&& hit.position == found.position
    &&& hit.structure == found.structure
    &&& hit.token_count == found.token_count
}

/// Whether `hit` is what a query of two characters or more, which may take half as
/// many edits, finds of the command as it is, or with a space put in.
pub open spec fn is_typo_match(command: Command, query: Seq<char>, hit: CommandHit) -> bool {
    &&& query.len() >= 2
    &&& {
        ||| query_match(command, query, query.len(), query.len() / 2) == Some(hit)
        ||| exists|cut: int| #[trigger] is_lost_space_match(command, query, cut, hit)
    }
}

/// The match of a command is one that the query finds as it is or with a space put
/// in, there is one if there is any, and none ranks before it.
pub proof fn typo_match_is_best_of_all_readings(
    command: Command,
    query: Seq<char>,
    other: CommandHit,
)
    ensures
        typo_match(command, query) matches Some(hit) ==> is_typo_match(command, query, hit),
        is_typo_match(command, query, other) ==> (typo_match(command, query) matches Some(hit)
            && !other.ranks_before(hit)),
{
    let (len, limit) = (query.len(), query.len() / 2);
    let offers = match_offers(command, query);
    command_ranking_is_weak_order();
    best_of_is_first_best(command_order(), offers);
    variants_put_a_space_between_characters(query);
    if let Some(hit) = typo_match(command, query) {
        let place = choose|place: int| is_first_best(command_order(), offers, place, hit);
        if place > 0 {
            let variant = variants_of(query)[place - 1];
            let found = query_match(command, variant, len, one_less(limit));
            assert(offers[place] == with_lost_space(found, len, limit));
            assert(counts_lost_space(found->0, len, hit));
            assert(is_lost_space_match(command, query, place, hit));
        }
    }
    if is_typo_match(command, query, other) {
        if query_match(command, query, len, limit) == Some(other) {
            assert(offers[0] == Some(other));
        } else {
            let cut = choose|cut: int| #[trigger] is_lost_space_match(command, query, cut, other);
            let variant = variants_of(query)[cut - 1];
            let found = query_match(command, variant, len, one_less(limit));
            assert(offers[cut] == with_lost_space(found, len, limit));
            assert(offers[cut] == Some(other));
        }
    }
}

/// A query whose words are, one by one, consecutive tokens of the command in lower
/// case, however many, finds the command without an edit, if that signals the
/// query. A query of one word is that word, with no white space about it.
pub proof fn consecutive_tokens_are_found(command: Command, query: Seq<char>, start: int)
    requires
        query.len() >= 2,
        whitespace_tokens(query).len() > 0,
        whitespace_tokens(query).len() == 1 ==> query == whitespace_tokens(query)[0],
        0 <= start,
        start + whitespace_tokens(query).len() <= command.tokens.len(),
        forall|k: int|
            0 <= k < whitespace_tokens(query).len() ==> lowercase(command.tokens[start + k])
                == #[trigger] whitespace_tokens(query)[k],
        any_signals(whitespace_tokens(query), lowercase(command.command)),
    ensures
        typo_match(command, query) matches Some(hit) && hit.distance == 0,
{
    let (len, limit) = (query.len(), query.len() / 2);
    let words = whitespace_tokens(query);
    let placed = tokens_in_order(command);
    let places = tokens_are_runs(Separator::Whitespace, query);
    assert forall|k: int| 0 <= k < words.len() implies (#[trigger] words[k]).len() > 0 && placed[
    start + k].token == words[k] by {
        assert(words[k] == query.subrange(places[k].0, places[k].1));
    }
    tokens_align_with_themselves(words, placed, start, limit);
    lemma_alignment_total(words, placed);
    let found = alignment_within(words, placed, limit)->0;
    let way = CommandHit {
        command,
        distance: 0,
        ratio: Fraction { numerator: 0, denominator: len },
        position: found.position,
        structure: found.structure,
        operations: found.operations,
        token_count: command.tokens.len(),
    };
    assert(is_run_match(command, query, len, limit, way));
    query_match_is_best_of_all_ways(command, query, len, limit, way);
    let best = query_match(command, query, len, limit)->0;
    if words.len() == 1 {
        edit_cost_is_zero_iff_equal(query, query);
        assert(words[0] == token_of(command, start));
        let own = CommandHit {
            position: (3 * start) as nat,
            structure: 0,
            operations: edit_cost(query, query),
            ..way
        };
        assert(is_token_match(command, query, len, limit, start, own));
        assert(is_of_one_token(command, query, len, limit, own));
        query_match_is_best_of_all_ways(command, query, len, limit, own);
    } else {
        assert(!is_of_one_token(command, query, len, limit, best));
    }
    assert(best.distance == 0);
    assert(is_typo_match(command, query, best));
    typo_match_is_best_of_all_readings(command, query, best);
}

/// A query of one word and two characters or more that is within half its length
/// in edits of a token of the command finds the command, if that signals the
/// query, with no more edits than the token takes.
pub proof fn near_token_is_found(command: Command, query: Seq<char>, idx: int)
    requires
        query.len() >= 2,
        whitespace_tokens(query).len() == 1,
        0 <= idx < command.tokens.len(),
        lowercase(command.tokens[idx]).len() > 0,
        edit_cost(query, lowercase(command.tokens[idx])).total() <= query.len() / 2,
        any_signals(whitespace_tokens(query), lowercase(command.command)),
    ensures
        typo_match(command, query) matches Some(hit) && hit.distance <= edit_cost(
            query,
            lowercase(command.tokens[idx]),
        ).total(),
{
    let (len, limit) = (query.len(), query.len() / 2);
    let token = token_of(command, idx);
    let cost = edit_cost(query, token);
    edit_cost_is_bounded_by_lengths(query, token);
    let way = CommandHit {
        command,
        distance: cost.total(),
        ratio: Fraction { numerator: cost.total(), denominator: greater(len, token.len()) },
        position: (3 * idx) as nat,
        structure: 0,
        operations: cost,
        token_count: command.tokens.len(),
    };
    assert(is_token_match(command, query, len, limit, idx, way));
    assert(is_of_one_token(command, query, len, limit, way));
    query_match_is_best_of_all_ways(command, query, len, limit, way);
    let found = query_match(command, query, len, limit)->0;
    assert(is_typo_match(command, query, found));
    typo_match_is_best_of_all_readings(command, query, found);
}

/// Matches of commands are ordered by distance, by substitutions, insertions and
/// deletions, and transpositions, by the share mistyped in thousandths, by position,
/// by structure, by the higher score and by the number of tokens, and then by the
/// commands. Two are ambiguous if they agree in all of these but the last two.
pub proof fn command_matches_are_ordered(left: CommandHit, right: CommandHit)
    ensures
        left.ranks_before(right) <==> is_lower(numbers_of(left), numbers_of(right)) || numbers_of(
            left,
        ) == numbers_of(right) && text_before(left.command.command, right.command.command),
        left.key().ties(right.key()) <==> numbers_of(left).drop_last() == numbers_of(
            right,
        ).drop_last(),
{
    assert(numbers_of_typo(left.key()) =~= numbers_of(left));
    assert(numbers_of_typo(right.key()) =~= numbers_of(right));
    typo_order_is_by_first_difference(left.key(), right.key());
    ambiguity_looks_at_all_but_the_last_number(
        left.key(),
        right.key(),
        arbitrary(),
        arbitrary(),
    );
}

/// What a match is ordered by before its command.
pub open spec fn numbers_of(hit: CommandHit) -> Seq<int> {
    seq![
        hit.distance as int,
        hit.operations.substitutions as int,
        hit.operations.insert_delete as int,
        hit.operations.transpositions as int,
        milli(hit.distance, clamped(hit.ratio.whole_of(hit.distance))) as int,
        hit.position as int,
        hit.structure as int,
        -hit.command.score.rank(),
        hit.token_count as int,
    ]
}

} // verus!
