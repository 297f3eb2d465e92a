//! Matching of a query with shell commands, typos included.

use std::cmp::Ordering;

use vstd::prelude::*;

use crate::distance::{
    bounded_cost, bounded_damerau_levenshtein, edit_cost_is_zero_iff_equal, gap, gap_of, longer,
    longer_of, max_typos, one_less, EditCost, OperationProfile,
};
use crate::order::{
    best_of, best_of_is_first_best, better, improved, is_first_best, is_strict_weak_order,
    lemma_improved_concat, lemma_improved_push,
};
use crate::ranking::{
    compare_typo_sort_keys, is_ordering, ratio_milli, typo_keys_are_ambiguous,
    typo_order_is_total, typo_order_is_transitive, TypoKey, TypoSortKey,
};
use crate::score::{clamped, milli, Fraction, Ratio};
use crate::sort::{is_stable_sorting, sort_ranked, Ranked};
use crate::text::{
    any_signals, has_query_signal, lemma_tokens_bound, separator_variants, spaced_variants,
    split_whitespace_tokens, trim, trimmed, whitespace_tokens, Separator,
};
use crate::token_match::{
    aligned_token_distance, alignment_within, alignments_fit, check_alignments,
    lemma_alignment_total, lemma_alignments_fit, lemma_split_total, partitioned_token_distance,
    split_within, PlacedToken, PositionedToken,
};
use crate::unicode::{char_count, lowercase};

pub use crate::score::Score;

verus! {

/// A command, its tokens and the caller's score.
#[derive(Clone, Copy, Debug)]
pub struct CommandCandidate<'a> {
    pub command: &'a str,
    pub tokens: &'a [&'a str],
    pub score: Score,
}

/// A command that matches a query, and how well.
#[derive(Clone, Copy, Debug)]
pub struct CommandMatch<'a> {
    pub candidate: CommandCandidate<'a>,
    pub distance: usize,
    pub ratio: Ratio,
    pub position: usize,
    pub structure: usize,
    pub operations: OperationProfile,
    pub token_count: usize,
}

/// A [`CommandCandidate`] as texts.
pub struct Command {
    pub command: Seq<char>,
    pub tokens: Seq<Seq<char>>,
    pub score: Score,
}

impl View for CommandCandidate<'_> {
    type V = Command;

    open spec fn view(&self) -> Command {
        Command { command: self.command@, tokens: self.tokens.deep_view(), score: self.score }
    }
}

/// A [`CommandMatch`] in unbounded numbers.
pub struct CommandHit {
    pub command: Command,
    pub distance: nat,
    pub ratio: Fraction,
    pub position: nat,
    pub structure: nat,
    pub operations: EditCost,
    pub token_count: nat,
}

impl View for CommandMatch<'_> {
    type V = CommandHit;

    open spec fn view(&self) -> CommandHit {
        CommandHit {
            command: self.candidate@,
            distance: self.distance as nat,
            ratio: self.ratio@,
            position: self.position as nat,
            structure: self.structure as nat,
            operations: self.operations@,
            token_count: self.token_count as nat,
        }
    }
}

impl CommandHit {
    /// What the match is ranked by. The length that the ratio was taken of is
    /// found from the ratio.
    pub open spec fn key(self) -> TypoKey {
        TypoKey {
            distance: self.distance,
            operations: self.operations,
            ratio_milli: milli(self.distance, clamped(self.ratio.whole_of(self.distance))),
            position: self.position,
            structure: self.structure,
            score: self.command.score.rank(),
            secondary: self.token_count,
            key: self.command.command,
        }
    }

    /// Whether the match ranks before `other`.
    pub open spec fn ranks_before(self, other: CommandHit) -> bool {
        self.key().ranks_before(other.key())
    }
}

/// The ranking of matches, as a relation.
pub open spec fn command_order() -> spec_fn(CommandHit, CommandHit) -> bool {
    |left: CommandHit, right: CommandHit| left.ranks_before(right)
}

/// The ranking of matches is a strict weak order. Matches that it leaves equal
/// have the same key.
pub proof fn command_ranking_is_weak_order()
    ensures
        is_strict_weak_order(command_order()),
        forall|left: CommandHit, right: CommandHit|
            !#[trigger] left.ranks_before(right) && !right.ranks_before(left) ==> left.key()
                == right.key(),
{
    let before = command_order();
    assert forall|left: CommandHit, right: CommandHit|
        !#[trigger] left.ranks_before(right) && !right.ranks_before(left) implies left.key()
        == right.key() by {
        typo_order_is_total(left.key(), right.key());
    }
    assert forall|a: CommandHit| !#[trigger] before(a, a) by {
        typo_order_is_total(a.key(), a.key());
    }
    assert forall|a: CommandHit, b: CommandHit, c: CommandHit| #[trigger]
        before(a, b) && #[trigger] before(b, c) implies before(a, c) by {
        typo_order_is_transitive(a.key(), b.key(), c.key());
    }
    assert forall|a: CommandHit, b: CommandHit, c: CommandHit|
        !#[trigger] before(a, b) && !#[trigger] before(b, c) implies !before(a, c) by {
        typo_order_is_total(a.key(), b.key());
        typo_order_is_total(b.key(), c.key());
        typo_order_is_total(a.key(), c.key());
        if before(a, c) {
            if before(b, a) {
                typo_order_is_transitive(b.key(), a.key(), c.key());
            }
        }
    }
}

impl<'a> CommandMatch<'a> {
    fn compared_len(&self) -> (len: usize)
        ensures
            len == clamped(self@.ratio.whole_of(self@.distance)),
    {
        self.ratio.whole_of(self.distance)
    }

    fn sort_key(&self) -> (key: TypoSortKey<'_>)
        ensures
            key@ == self@.key(),
    {
        TypoSortKey {
            distance: self.distance,
            operations: self.operations,
            ratio_milli: ratio_milli(self.distance, self.compared_len()),
            position: self.position,
            structure: self.structure,
            score: self.candidate.score,
            secondary: self.token_count,
            key: self.candidate.command,
        }
    }

    /// The order of matches, the better first.
    pub fn compare(&self, other: &Self) -> (ordering: Ordering)
        ensures
            is_ordering(ordering, self@.ranks_before(other@), other@.ranks_before(self@)),
    {
        compare_typo_sort_keys(&self.sort_key(), &other.sort_key())
    }
}

impl Ranked for CommandMatch<'_> {
    open spec fn ranks_before(self, other: Self) -> bool {
        self@.ranks_before(other@)
    }

    proof fn ranking_is_weak_order() {
        command_ranking_is_weak_order();
        let before = command_order();
        let ranking = |left: Self, right: Self| left.ranks_before(right);
        assert forall|a: Self, b: Self| #[trigger] ranking(a, b) == before(a@, b@) by {}
        assert forall|a: Self, b: Self, c: Self| #[trigger]
            ranking(a, b) && #[trigger] ranking(b, c) implies ranking(a, c) by {
            assert(before(a@, b@) && before(b@, c@));
        }
        assert forall|a: Self, b: Self, c: Self|
            !#[trigger] ranking(a, b) && !#[trigger] ranking(b, c) implies !ranking(a, c) by {
            assert(!before(a@, b@) && !before(b@, c@));
        }
    }

    fn is_before(&self, other: &Self) -> (before: bool) {
        match self.compare(other) {
            Ordering::Less => true,
            _ => false,
        }
    }
}

/// Sorts the matches, the best first. Matches that rank the same stay in the
/// order they had.
pub fn sort_matches(matches: &mut [CommandMatch<'_>])
    ensures
        exists|places: Seq<int>| is_stable_sorting(places, old(matches)@, final(matches)@),
{
    sort_ranked(matches);
}

/// Whether nothing but the number of tokens and the text of the commands tells
/// the two matches apart.
pub fn is_ambiguous(first: &CommandMatch<'_>, second: &CommandMatch<'_>) -> (ambiguous: bool)
    ensures
        ambiguous == first@.key().ties(second@.key()),
{
    typo_keys_are_ambiguous(&first.sort_key(), &second.sort_key())
}

/// Matches that rank between two ambiguous ones are ambiguous with them.
pub proof fn ambiguity_is_contiguous(first: CommandHit, between: CommandHit, last: CommandHit)
    requires
        first.key().ties(last.key()),
        !between.ranks_before(first),
        !last.ranks_before(between),
    ensures
        first.key().ties(between.key()),
        between.key().ties(last.key()),
{
}

/// A command divided into its tokens.
pub struct ParsedCommandCandidate<'a> {
    command: &'a str,
    tokens: Vec<&'a str>,
    score: Score,
}

impl View for ParsedCommandCandidate<'_> {
    type V = Command;

    closed spec fn view(&self) -> Command {
        Command { command: self.command@, tokens: self.tokens.deep_view(), score: self.score }
    }
}

/// The command divided at white space.
pub fn parse_command_candidate(command: &str, score: Score) -> (parsed: ParsedCommandCandidate<'_>)
    ensures
        parsed@ == (Command { command: command@, tokens: whitespace_tokens(command@), score }),
{
    ParsedCommandCandidate { command, tokens: split_whitespace_tokens(command), score }
}

impl<'a> ParsedCommandCandidate<'a> {
    /// The command as a candidate.
    pub fn as_candidate(&self) -> (candidate: CommandCandidate<'_>)
        ensures
            candidate@ == self@,
    {
        CommandCandidate {
            command: self.command,
            tokens: self.tokens.as_slice(),
            score: self.score,
        }
    }
}

/// What a command is matched with: its tokens in lower case, the query, how long
/// it counts as, and how many edits it may take.
pub struct CommandSearch {
    pub command: Command,
    pub lowered: Seq<Seq<char>>,
    pub query: Seq<char>,
    pub query_len: nat,
    pub limit: nat,
}

/// The tokens, each three steps after the one before it.
pub open spec fn placed_in_order(tokens: Seq<Seq<char>>) -> Seq<PlacedToken> {
    Seq::new(
        tokens.len(),
        |idx: int| PlacedToken { token: tokens[idx], position: (idx * 3) as nat },
    )
}

/// The tokens in lower case.
pub open spec fn lowercase_each(tokens: Seq<Seq<char>>) -> Seq<Seq<char>> {
    tokens.map_values(|token: Seq<char>| lowercase(token))
}

impl CommandSearch {
    /// A match, unless more than half of what is compared is mistyped.
    pub open spec fn hit(
        self,
        operations: EditCost,
        compared_len: nat,
        position: nat,
        structure: nat,
    ) -> Option<CommandHit> {
        let ratio = Fraction { numerator: operations.total(), denominator: compared_len };
        if ratio.over_half() {
            None
        } else {
            Some(
                CommandHit {
                    command: self.command,
                    distance: operations.total(),
                    ratio,
                    position,
                    structure,
                    operations,
                    token_count: self.command.tokens.len(),
                },
            )
        }
    }

    /// The match of the whole query with the token at `idx`.
    pub open spec fn text_offer(self, idx: int) -> Option<CommandHit> {
        let token = self.lowered[idx];
        if token.len() == 0 || self.limit == 0 || gap(self.query_len, token.len()) > self.limit {
            None
        } else {
            match bounded_cost(self.query, token, self.limit) {
                None => None,
                Some(cost) => self.hit(
                    cost,
                    longer(self.query_len, token.len()),
                    (idx * 3) as nat,
                    0,
                ),
            }
        }
    }

    /// The match of the query tokens, one by one, with a run of tokens.
    pub open spec fn sequence_offer(self) -> Option<CommandHit> {
        match alignment_within(
            whitespace_tokens(self.query),
            placed_in_order(self.lowered),
            self.limit,
        ) {
            None => None,
            Some(found) => self.hit(
                found.operations,
                self.query_len,
                found.position,
                found.structure,
            ),
        }
    }

    /// The match of the query tokens, of which there are two or more, with
    /// consecutive parts of the token at `idx`.
    pub open spec fn compound_offer(self, idx: int) -> Option<CommandHit> {
        let query = whitespace_tokens(self.query);
        let token = self.lowered[idx];
        if query.len() < 2 {
            None
        } else {
            match split_within(query, token, self.limit) {
                None => None,
                Some(found) => self.hit(
                    found.operations,
                    longer(self.query_len, token.len()),
                    (idx * 3) as nat * query.len() + found.position,
                    found.structure,
                ),
            }
        }
    }

    /// The matches of a query of one token with each token of the command. A
    /// longer query has none.
    pub open spec fn text_offers(self) -> Seq<Option<CommandHit>> {
        if whitespace_tokens(self.query).len() == 1 {
            Seq::new(self.lowered.len(), |idx: int| self.text_offer(idx))
        } else {
            seq![]
        }
    }

    /// The match with a run of tokens, if the command has enough.
    pub open spec fn sequence_offers(self) -> Seq<Option<CommandHit>> {
        if whitespace_tokens(self.query).len() <= self.lowered.len() {
            seq![self.sequence_offer()]
        } else {
            seq![]
        }
    }

    /// The matches with parts of each token of the command.
    pub open spec fn compound_offers(self) -> Seq<Option<CommandHit>> {
        Seq::new(self.lowered.len(), |idx: int| self.compound_offer(idx))
    }

    /// All matches.
    pub open spec fn all_offers(self) -> Seq<Option<CommandHit>> {
        self.text_offers() + self.sequence_offers() + self.compound_offers()
    }

    /// The match of the command with the query. Where the query is one token, a
    /// match of a token with a fifth mistyped or less is good enough; otherwise
    /// the best match of all counts.
    pub open spec fn best(self) -> Option<CommandHit> {
        let query = whitespace_tokens(self.query);
        let texts = best_of(command_order(), self.text_offers());
        if !any_signals(query, lowercase(self.command.command)) || query.len() == 0
            || self.lowered.len() == 0 {
            None
        } else if is_close(texts) {
            texts
        } else {
            best_of(command_order(), self.all_offers())
        }
    }
}

/// Whether the position of a match, if there is one, is not too great for a
/// `usize`.
pub open spec fn hit_fits(found: Option<CommandHit>) -> bool {
    found matches Some(hit) ==> hit.position <= usize::MAX
}

impl CommandSearch {
    /// Whether no position of a token and no sum that is formed of them is too
    /// great for a `usize`.
    pub open spec fn fits(self) -> bool {
        let query = whitespace_tokens(self.query);
        any_signals(query, lowercase(self.command.command)) && query.len() > 0
            && self.lowered.len() > 0 ==> {
            &&& 3 * (self.lowered.len() - 1) <= usize::MAX
            &&& alignments_fit(query, placed_in_order(self.lowered), self.limit)
            &&& forall|idx: int|
                0 <= idx < self.lowered.len() ==> hit_fits(#[trigger] self.compound_offer(idx))
        }
    }
}

/// Whether there is a match with a fifth mistyped or less.
pub open spec fn is_close(found: Option<CommandHit>) -> bool {
    found matches Some(hit) && hit.ratio.at_most_a_fifth()
}

/// For one query, the same token ranks the better the earlier it stands in its
/// command, whatever the scores: the executable before any argument.
pub proof fn earlier_token_ranks_first(
    search: CommandSearch,
    idx: int,
    other: CommandSearch,
    later: int,
)
    requires
        search.query == other.query,
        search.query_len == other.query_len,
        search.limit == other.limit,
        search.lowered[idx] == other.lowered[later],
        0 <= idx < later,
    ensures
        search.text_offer(idx) is Some <==> other.text_offer(later) is Some,
        search.text_offer(idx) matches Some(hit) ==> hit.ranks_before(other.text_offer(later)->0),
{
}

struct LoweredCandidate<'a> {
    given: CommandCandidate<'a>,
    command: String,
    tokens: Vec<String>,
}

/// A result in unbounded numbers.
pub open spec fn hit_found(found: Option<CommandMatch<'_>>) -> Option<CommandHit> {
    match found {
        Some(hit) => Some(hit@),
        None => None,
    }
}

impl<'a> LoweredCandidate<'a> {
    spec fn is_lowered(self) -> bool {
        &&& self.command@ == lowercase(self.given.command@)
        &&& self.tokens.deep_view() == lowercase_each(self.given.tokens.deep_view())
    }

    spec fn search(self, query: Seq<char>, query_len: nat, limit: nat) -> CommandSearch {
        CommandSearch {
            command: self.given@,
            lowered: self.tokens.deep_view(),
            query,
            query_len,
            limit,
        }
    }

    fn hit(
        &self,
        distance: usize,
        operations: OperationProfile,
        compared_len: usize,
        position: usize,
        structure: usize,
    ) -> (found: Option<CommandMatch<'a>>)
        requires
            distance == operations@.total(),
        ensures
            forall|query: Seq<char>, query_len: nat, limit: nat|
                hit_found(found) == #[trigger] self.search(query, query_len, limit).hit(
                    operations@,
                    compared_len as nat,
                    position as nat,
                    structure as nat,
                ),
    {
        let ratio = Ratio { numerator: distance, denominator: compared_len };
        if ratio.is_over_half() {
            return None;
        }
        Some(
            CommandMatch {
                candidate: self.given,
                distance,
                ratio,
                position,
                structure,
                operations,
                token_count: self.given.tokens.len(),
            },
        )
    }

    fn candidate_for_text(&self, idx: usize, query: &str, query_len: usize, limit: usize) -> (found:
        Option<CommandMatch<'a>>)
        requires
            idx < self.tokens@.len(),
            3 * idx <= usize::MAX,
        ensures
            hit_found(found) == self.search(query@, query_len as nat, limit as nat).text_offer(
                idx as int,
            ),
    {
        let token = self.tokens[idx].as_str();
        assert(self.tokens.deep_view()[idx as int] == token@);
        let token_len = token.unicode_len();
        if token_len == 0 || limit == 0 || gap_of(query_len, token_len) > limit {
            return None;
        }
        match bounded_damerau_levenshtein(query, token, limit) {
            None => None,
            Some((distance, operations)) => self.hit(
                distance,
                operations,
                longer_of(query_len, token_len),
                idx * 3,
                0,
            ),
        }
    }

    fn candidate_for_token_sequence(
        &self,
        query_tokens: &Vec<&str>,
        query: &str,
        query_len: usize,
        limit: usize,
    ) -> (found: Option<CommandMatch<'a>>)
        requires
            query_tokens.deep_view() == whitespace_tokens(query@),
            3 * (self.tokens@.len() - 1) <= usize::MAX,
            alignments_fit(
                whitespace_tokens(query@),
                placed_in_order(self.tokens.deep_view()),
                limit as nat,
            ),
        ensures
            hit_found(found) == self.search(
                query@,
                query_len as nat,
                limit as nat,
            ).sequence_offer(),
    {
        proof {
            lemma_alignment_total(
                whitespace_tokens(query@),
                placed_in_order(self.tokens.deep_view()),
            );
        }
        let placed = place_in_order(&self.tokens);
        match aligned_token_distance(query_tokens.as_slice(), placed.as_slice(), limit) {
            None => None,
            Some((distance, position, structure, operations)) => self.hit(
                distance,
                operations,
                query_len,
                position,
                structure,
            ),
        }
    }

    fn candidate_for_compound_token(
        &self,
        idx: usize,
        query_tokens: &Vec<&str>,
        query: &str,
        query_len: usize,
        limit: usize,
    ) -> (found: Option<CommandMatch<'a>>)
        requires
            idx < self.tokens@.len(),
            query_tokens.deep_view() == whitespace_tokens(query@),
            3 * idx <= usize::MAX,
            hit_fits(
                self.search(query@, query_len as nat, limit as nat).compound_offer(idx as int),
            ),
        ensures
            hit_found(found) == self.search(query@, query_len as nat, limit as nat).compound_offer(
                idx as int,
            ),
    {
        if query_tokens.len() < 2 {
            return None;
        }
        let token = self.tokens[idx].as_str();
        assert(self.tokens.deep_view()[idx as int] == token@);
        let count = query_tokens.len();
        proof {
            lemma_split_total(whitespace_tokens(query@), token@);
        }
        match partitioned_token_distance(query_tokens.as_slice(), token, limit) {
            None => None,
            Some((distance, structure, position_metric, operations)) => {
                let compared_len = longer_of(query_len, token.unicode_len());
                if (Ratio { numerator: distance, denominator: compared_len }).is_over_half() {
                    return None;
                }
                self.hit(
                    distance,
                    operations,
                    compared_len,
                    idx * 3 * count + position_metric,
                    structure,
                )
            },
        }
    }

    /// Whether the position of the match with parts of the token at `idx` fits.
    fn check_compound(
        &self,
        idx: usize,
        query_tokens: &Vec<&str>,
        query: &str,
        query_len: usize,
        limit: usize,
    ) -> (answer: bool)
        requires
            idx < self.tokens@.len(),
            query_tokens.deep_view() == whitespace_tokens(query@),
            3 * idx <= usize::MAX,
        ensures
            answer == hit_fits(
                self.search(query@, query_len as nat, limit as nat).compound_offer(idx as int),
            ),
    {
        if query_tokens.len() < 2 {
            return true;
        }
        let token = self.tokens[idx].as_str();
        assert(self.tokens.deep_view()[idx as int] == token@);
        let count = query_tokens.len();
        proof {
            lemma_split_total(whitespace_tokens(query@), token@);
        }
        match partitioned_token_distance(query_tokens.as_slice(), token, limit) {
            None => true,
            Some((distance, _, position_metric, _)) => {
                let compared_len = longer_of(query_len, token.unicode_len());
                if (Ratio { numerator: distance, denominator: compared_len }).is_over_half() {
                    return true;
                }
                match (idx * 3).checked_mul(count) {
                    None => false,
                    Some(before) => before.checked_add(position_metric).is_some(),
                }
            },
        }
    }

    /// Whether no position and no sum that is formed for `query` is too great.
    fn check_query(&self, query: &str, query_len: usize, limit: usize) -> (answer: bool)
        requires
            self.is_lowered(),
        ensures
            answer == self.search(query@, query_len as nat, limit as nat).fits(),
    {
        let ghost search = self.search(query@, query_len as nat, limit as nat);
        let query_tokens = split_whitespace_tokens(query);
        if !has_query_signal(query_tokens.as_slice(), self.command.as_str()) {
            return true;
        }
        if query_tokens.len() == 0 || self.tokens.len() == 0 {
            return true;
        }
        let count = self.tokens.len();
        if (count - 1).checked_mul(3).is_none() {
            return false;
        }
        let placed = place_in_order(&self.tokens);
        if !check_alignments(query_tokens.as_slice(), placed.as_slice(), limit) {
            return false;
        }
        let mut idx: usize = 0;
        while idx < count
            invariant
                idx <= count == self.tokens@.len(),
                3 * (count - 1) <= usize::MAX,
                query_tokens.deep_view() == whitespace_tokens(query@),
                search == self.search(query@, query_len as nat, limit as nat),
                any_signals(whitespace_tokens(query@), lowercase(search.command.command)),
                whitespace_tokens(query@).len() > 0,
                count > 0,
                forall|k: int| 0 <= k < idx ==> hit_fits(#[trigger] search.compound_offer(k)),
            decreases count - idx,
        {
            if !self.check_compound(idx, &query_tokens, query, query_len, limit) {
                assert(!hit_fits(search.compound_offer(idx as int)));
                return false;
            }
            idx = idx + 1;
        }
        true
    }
}

/// Whether the number of tokens and their lengths are so small that their
/// products with the length of a query fit.
pub open spec fn are_small(tokens: Seq<Seq<char>>, query_len: nat) -> bool {
    &&& (3 * tokens.len() + 2) * (query_len + 1) <= usize::MAX
    &&& forall|i: int|
        0 <= i < tokens.len() ==> #[trigger] tokens[i].len() * (query_len + 1) <= usize::MAX
}

proof fn lemma_small_search_fits(search: CommandSearch)
    requires
        are_small(search.lowered, search.query.len()),
    ensures
        search.fits(),
{
    let tokens = search.lowered;
    let words = whitespace_tokens(search.query);
    let placed = placed_in_order(tokens);
    let count = words.len();
    let position = 3 * tokens.len();
    let more = search.query.len() + 1;
    lemma_tokens_bound(Separator::Whitespace, search.query);
    assert(count * (position + 2) <= (position + 2) * more) by (nonlinear_arith)
        requires
            count <= more,
    ;
    assert(position <= (position + 2) * more) by (nonlinear_arith)
        requires
            1 <= more,
    ;
    assert forall|i: int| 0 <= i < placed.len() implies #[trigger] placed[i].position <= position
        && count * placed[i].token.len() <= usize::MAX by {
        assert(placed[i].token == tokens[i]);
        let len = tokens[i].len();
        assert(count * len <= len * more) by (nonlinear_arith)
            requires
                count <= more,
        ;
    }
    lemma_alignments_fit(words, placed, position, search.limit);
    assert forall|idx: int| 0 <= idx < tokens.len() implies hit_fits(
        #[trigger] search.compound_offer(idx),
    ) by {
        lemma_split_total(words, tokens[idx]);
        assert((idx * 3) as nat * count + 2 * count <= count * (position + 2)) by (nonlinear_arith)
            requires
                0 <= idx * 3 <= position,
        ;
    }
}

/// The tokens, each three steps after the one before it.
fn place_in_order(tokens: &Vec<String>) -> (placed: Vec<PositionedToken<'_>>)
    requires
        3 * (tokens@.len() - 1) <= usize::MAX,
    ensures
        placed.deep_view() == placed_in_order(tokens.deep_view()),
{
    let mut placed: Vec<PositionedToken<'_>> = Vec::new();
    let mut idx: usize = 0;
    while idx < tokens.len()
        invariant
            idx <= tokens@.len(),
            3 * (tokens@.len() - 1) <= usize::MAX,
            placed@.len() == idx,
            forall|k: int|
                0 <= k < idx ==> (#[trigger] placed@[k]).deep_view() == placed_in_order(
                    tokens.deep_view(),
                )[k],
        decreases tokens@.len() - idx,
    {
        placed.push(PositionedToken { token: tokens[idx].as_str(), position: idx * 3 });
        idx = idx + 1;
    }
    assert(placed.deep_view() =~= placed_in_order(tokens.deep_view()));
    placed
}

/// Replaces what was best so far by the candidate, if that ranks before it.
fn update_best<'a>(best: &mut Option<CommandMatch<'a>>, candidate: Option<CommandMatch<'a>>)
    ensures
        hit_found(*final(best)) == better(
            command_order(),
            hit_found(*old(best)),
            hit_found(candidate),
        ),
{
    match candidate {
        None => {},
        Some(offered) => {
            let replaces = match best {
                None => true,
                Some(current) => match offered.compare(current) {
                    Ordering::Less => true,
                    _ => false,
                },
            };
            if replaces {
                *best = Some(offered);
            }
        },
    }
}

fn best_match_inner<'a>(
    candidate: &LoweredCandidate<'a>,
    query: &str,
    query_len: usize,
    limit: usize,
) -> (best: Option<CommandMatch<'a>>)
    requires
        candidate.is_lowered(),
        candidate.search(query@, query_len as nat, limit as nat).fits(),
    ensures
        hit_found(best) == candidate.search(query@, query_len as nat, limit as nat).best(),
{
    let ghost search = candidate.search(query@, query_len as nat, limit as nat);
    let ghost texts = search.text_offers();
    let query_tokens = split_whitespace_tokens(query);
    if !has_query_signal(query_tokens.as_slice(), candidate.command.as_str()) {
        return None;
    }
    if query_tokens.len() == 0 || candidate.tokens.len() == 0 {
        return None;
    }
    let mut best: Option<CommandMatch<'a>> = None;
    if query_tokens.len() == 1 {
        let mut idx: usize = 0;
        assert(texts.take(0) =~= Seq::empty());
        while idx < candidate.tokens.len()
            invariant
                idx <= candidate.tokens@.len() == texts.len(),
                3 * (candidate.tokens@.len() - 1) <= usize::MAX,
                search == candidate.search(query@, query_len as nat, limit as nat),
                whitespace_tokens(query@).len() == 1,
                texts == search.text_offers(),
                hit_found(best) == best_of(command_order(), texts.take(idx as int)),
            decreases texts.len() - idx,
        {
            update_best(&mut best, candidate.candidate_for_text(idx, query, query_len, limit));
            proof {
                assert(texts.take(idx + 1) =~= texts.take(idx as int).push(texts[idx as int]));
                lemma_improved_push(
                    command_order(),
                    None,
                    texts.take(idx as int),
                    texts[idx as int],
                );
            }
            idx = idx + 1;
        }
        assert(texts.take(texts.len() as int) =~= texts);
        if let Some(entry) = &best {
            if entry.ratio.is_at_most_a_fifth() {
                return best;
            }
        }
    }
    assert(hit_found(best) == best_of(command_order(), texts));
    let ghost sequences = search.sequence_offers();
    if query_tokens.len() <= candidate.tokens.len() {
        let found = candidate.candidate_for_token_sequence(&query_tokens, query, query_len, limit);
        update_best(&mut best, found);
        proof {
            lemma_improved_push(command_order(), None, texts, hit_found(found));
            assert(texts.push(hit_found(found)) =~= texts + sequences);
        }
    } else {
        assert(texts + sequences =~= texts);
    }
    let ghost start = texts + sequences;
    let ghost compounds = search.compound_offers();
    let mut idx: usize = 0;
    assert(compounds.take(0) =~= Seq::empty());
    while idx < candidate.tokens.len()
        invariant
            idx <= candidate.tokens@.len() == compounds.len(),
            search == candidate.search(query@, query_len as nat, limit as nat),
            3 * (candidate.tokens@.len() - 1) <= usize::MAX,
            forall|k: int|
                0 <= k < compounds.len() ==> hit_fits(#[trigger] search.compound_offer(k)),
            query_tokens.deep_view() == whitespace_tokens(query@),
            compounds == search.compound_offers(),
            hit_found(best) == improved(
                command_order(),
                best_of(command_order(), start),
                compounds.take(idx as int),
            ),
        decreases compounds.len() - idx,
    {
        let found = candidate.candidate_for_compound_token(
            idx,
            &query_tokens,
            query,
            query_len,
            limit,
        );
        update_best(&mut best, found);
        proof {
            assert(compounds.take(idx + 1) =~= compounds.take(idx as int).push(
                compounds[idx as int],
            ));
            lemma_improved_push(
                command_order(),
                best_of(command_order(), start),
                compounds.take(idx as int),
                compounds[idx as int],
            );
        }
        idx = idx + 1;
    }
    proof {
        assert(compounds.take(compounds.len() as int) =~= compounds);
        lemma_improved_concat(command_order(), None, start, compounds);
    }
    best
}

/// A match where the query lost a space: one edit more.
pub open spec fn with_lost_space(found: Option<CommandHit>, query_len: nat, limit: nat) -> Option<
    CommandHit,
> {
    match found {
        None => None,
        Some(hit) => {
            let distance = hit.distance + 1;
            if distance > limit {
                None
            } else {
                Some(
                    CommandHit {
                        distance,
                        operations: hit.operations.inserted_or_deleted(),
                        ratio: hit.ratio.max(
                            Fraction { numerator: distance, denominator: query_len },
                        ),
                        ..hit
                    },
                )
            }
        },
    }
}

/// What a query of one token may have been before it lost a space.
pub open spec fn variants_of(query: Seq<char>) -> Seq<Seq<char>> {
    if whitespace_tokens(query).len() == 1 {
        spaced_variants(query)
    } else {
        seq![]
    }
}

/// What a query is matched as: trimmed and in lower case.
pub open spec fn prepared_query(query: Seq<char>) -> Seq<char> {
    lowercase(trimmed(query))
}

/// The match of a command with `query`, which counts as `query_len` characters
/// long and may take `limit` edits.
pub open spec fn query_match(
    command: Command,
    query: Seq<char>,
    query_len: nat,
    limit: nat,
) -> Option<CommandHit> {
    let lowered = lowercase_each(command.tokens);
    (CommandSearch { command, lowered, query, query_len, limit }).best()
}

/// The matches of a command with a prepared query and with what it may have
/// been.
pub open spec fn match_offers(command: Command, query: Seq<char>) -> Seq<Option<CommandHit>> {
    let len = query.len();
    let limit = len / 2;
    seq![query_match(command, query, len, limit)] + variants_of(query).map_values(
        |variant: Seq<char>|
            with_lost_space(query_match(command, variant, len, one_less(limit)), len, limit),
    )
}

/// The best match of a command with a prepared query of two characters or more.
pub open spec fn typo_match(command: Command, query: Seq<char>) -> Option<CommandHit> {
    if query.len() <= 1 {
        None
    } else {
        best_of(command_order(), match_offers(command, query))
    }
}

/// Whether no position and no sum that is formed for the match of a command with
/// `query` is too great for a `usize`.
pub open spec fn query_fits(
    command: Command,
    query: Seq<char>,
    query_len: nat,
    limit: nat,
) -> bool {
    let lowered = lowercase_each(command.tokens);
    (CommandSearch { command, lowered, query, query_len, limit }).fits()
}

/// Whether no position and no sum that is formed for the match of a command with
/// a prepared query, or with what it may have been, is too great for a `usize`.
pub open spec fn match_fits(command: Command, query: Seq<char>) -> bool {
    let len = query.len();
    let limit = len / 2;
    len > 1 ==> {
        &&& query_fits(command, query, len, limit)
        &&& forall|i: int|
            0 <= i < variants_of(query).len() ==> #[trigger] query_fits(
                command,
                variants_of(query)[i],
                len,
                one_less(limit),
            )
    }
}

/// The sums fit where the tokens are small for the query and one character more.
pub proof fn small_match_fits(command: Command, query: Seq<char>)
    requires
        are_small(lowercase_each(command.tokens), query.len() + 1),
    ensures
        match_fits(command, query),
{
    let lowered = lowercase_each(command.tokens);
    let query_len = query.len();
    lemma_fewer_are_small(lowered, query_len);
    lemma_small_search_fits(
        CommandSearch { command, lowered, query, query_len, limit: query_len / 2 },
    );
    let limit = one_less(query_len / 2);
    let variants = variants_of(query);
    assert forall|i: int| 0 <= i < variants.len() implies #[trigger] query_fits(
        command,
        variants[i],
        query_len,
        limit,
    ) by {
        assert(variants[i].len() == query_len + 1);
        lemma_small_search_fits(
            CommandSearch { command, lowered, query: variants[i], query_len, limit },
        );
    }
}

/// Whether `hit` is a match of the command within `limit` edits and with no more
/// than half mistyped.
pub open spec fn is_match_of(command: Command, limit: nat, hit: CommandHit) -> bool {
    &&& hit.command == command
    &&& hit.token_count == command.tokens.len()
    &&& hit.distance == hit.operations.total()
    &&& hit.distance <= limit
    &&& !hit.ratio.over_half()
}

proof fn lemma_query_matches(command: Command, query: Seq<char>, query_len: nat, limit: nat)
    ensures
        query_match(command, query, query_len, limit) matches Some(hit) ==> is_match_of(
            command,
            limit,
            hit,
        ),
{
    let lowered = lowercase_each(command.tokens);
    let search = CommandSearch { command, lowered, query, query_len, limit };
    let words = whitespace_tokens(query);
    let texts = search.text_offers();
    let all = search.all_offers();
    lemma_alignment_total(words, placed_in_order(lowered));
    assert forall|i: int| 0 <= i < all.len() implies (
    #[trigger] all[i] matches Some(hit) ==> is_match_of(command, limit, hit)) by {
        if i < texts.len() {
            assert(all[i] == search.text_offer(i));
        } else {
            let sequences = search.sequence_offers();
            if i < texts.len() + sequences.len() {
                assert(all[i] == search.sequence_offer());
            } else {
                let idx = i - texts.len() - sequences.len();
                assert(all[i] == search.compound_offer(idx));
                lemma_split_total(words, lowered[idx]);
            }
        }
    }
    assert forall|i: int| 0 <= i < texts.len() implies (
    #[trigger] texts[i] matches Some(hit) ==> is_match_of(command, limit, hit)) by {
        assert(all[i] == texts[i]);
    }
    command_ranking_is_weak_order();
    best_of_is_first_best(command_order(), texts);
    best_of_is_first_best(command_order(), all);
}

/// A match, if there is one, is of the command that was asked about, is within
/// half the query's length in edits, counts each edit once, and has no more than
/// half of what was compared mistyped.
pub proof fn typo_match_is_within_limit(command: Command, query: Seq<char>)
    ensures
        typo_match(command, query) matches Some(hit) ==> is_match_of(
            command,
            query.len() / 2,
            hit,
        ),
{
    let len = query.len();
    let limit = len / 2;
    let offers = match_offers(command, query);
    lemma_query_matches(command, query, len, limit);
    assert forall|i: int| 0 <= i < offers.len() implies (
    #[trigger] offers[i] matches Some(hit) ==> is_match_of(command, limit, hit)) by {
        if i > 0 {
            lemma_query_matches(command, variants_of(query)[i - 1], len, one_less(limit));
        }
    }
    command_ranking_is_weak_order();
    best_of_is_first_best(command_order(), offers);
}

/// The best match is one of the matches with the query and with what it may have
/// been, none of them ranks before it, and it ranks before all that were tried
/// earlier. There is none only if nothing matches.
pub proof fn typo_match_is_first_best(command: Command, query: Seq<char>)
    requires
        query.len() > 1,
    ensures
        typo_match(command, query) is None <==> forall|i: int|
            0 <= i < match_offers(command, query).len() ==> #[trigger] match_offers(
                command,
                query,
            )[i] is None,
        typo_match(command, query) matches Some(hit) ==> exists|place: int|
            is_first_best(command_order(), match_offers(command, query), place, hit),
{
    command_ranking_is_weak_order();
    best_of_is_first_best(command_order(), match_offers(command, query));
}

/// The match of a command has a fifth mistyped or less in one token, or nothing
/// that the query can match in the command ranks before it.
pub proof fn search_is_close_or_first_best(search: CommandSearch)
    ensures
        search.best() matches Some(hit) ==> {
            ||| hit.ratio.at_most_a_fifth() && search.text_offers().contains(Some(hit))
            ||| exists|place: int|
                is_first_best(command_order(), search.all_offers(), place, hit)
        },
{
    command_ranking_is_weak_order();
    best_of_is_first_best(command_order(), search.text_offers());
    best_of_is_first_best(command_order(), search.all_offers());
}

/// A query of one token that lost a space matches what it would have matched
/// with the space, at one edit more or better.
pub proof fn lost_space_is_forgiven(command: Command, query: Seq<char>, k: int)
    requires
        query.len() > 1,
        0 <= k < variants_of(query).len(),
    ensures
        ({
            let limit = query.len() / 2;
            query_match(
                command,
                variants_of(query)[k],
                query.len(),
                one_less(limit),
            ) matches Some(hit) ==> (typo_match(command, query) matches Some(best)
                && best.distance <= hit.distance + 1)
        }),
{
    let limit = query.len() / 2;
    let variant = variants_of(query)[k];
    let offers = match_offers(command, query);
    let found = query_match(command, variant, query.len(), one_less(limit));
    assert(offers[k + 1] == with_lost_space(found, query.len(), limit));
    lemma_query_matches(command, variant, query.len(), one_less(limit));
    command_ranking_is_weak_order();
    best_of_is_first_best(command_order(), offers);
    if let Some(hit) = found {
        assert(offers[k + 1] is Some);
    }
}

/// A query of one token that is a token of the command in lower case matches
/// without an edit, if the command's text has what signals the query.
pub proof fn token_matches_itself(command: Command, idx: int)
    requires
        0 <= idx < command.tokens.len(),
        ({
            let query = lowercase_each(command.tokens)[idx];
            &&& query.len() > 1
            &&& whitespace_tokens(query).len() == 1
            &&& any_signals(whitespace_tokens(query), lowercase(command.command))
        }),
    ensures
        typo_match(command, lowercase_each(command.tokens)[idx]) matches Some(hit) && hit.distance
            == 0,
{
    let lowered = lowercase_each(command.tokens);
    let query = lowered[idx];
    let (query_len, limit) = (query.len(), query.len() / 2);
    let search = CommandSearch { command, lowered, query, query_len, limit };
    let texts = search.text_offers();
    edit_cost_is_zero_iff_equal(query, query);
    assert(texts[idx] == search.text_offer(idx));
    assert(texts[idx] is Some && texts[idx]->0.distance == 0);
    command_ranking_is_weak_order();
    best_of_is_first_best(command_order(), texts);
    let found = best_of(command_order(), texts);
    assert(found->0.distance == 0);
    let place = choose|place: int| is_first_best(command_order(), texts, place, found->0);
    assert(texts[place] == search.text_offer(place));
    assert(is_close(found));
    let offers = match_offers(command, query);
    assert(offers[0] == found);
    best_of_is_first_best(command_order(), offers);
}

/// A query, prepared for many commands.
pub struct CommandQuery {
    text: String,
    len: usize,
    limit: usize,
    token_count: usize,
    separator_variants: Vec<String>,
}

impl View for CommandQuery {
    type V = Seq<char>;

    closed spec fn view(&self) -> Seq<char> {
        self.text@
    }
}

impl CommandQuery {
    #[verifier::type_invariant]
    spec fn is_prepared(self) -> bool {
        &&& self.len == self.text@.len()
        &&& self.len > 1
        &&& self.limit == self.len / 2
        &&& self.token_count == whitespace_tokens(self.text@).len()
        &&& self.separator_variants.deep_view() == variants_of(self.text@)
    }

    /// The query trimmed and in lower case, if that leaves two characters or
    /// more.
    pub fn new(query: &str) -> (prepared: Option<Self>)
        ensures
            prepared is Some <==> prepared_query(query@).len() > 1,
            prepared matches Some(command_query) ==> command_query@ == prepared_query(query@),
    {
        let text = crate::text::to_lowercase(trim(query));
        let len = text.as_str().unicode_len();
        if len <= 1 {
            return None;
        }
        let token_count = split_whitespace_tokens(text.as_str()).len();
        let variants = if token_count == 1 {
            separator_variants(text.as_str())
        } else {
            let none: Vec<String> = Vec::new();
            assert(none.deep_view() =~= Seq::<Seq<char>>::empty());
            none
        };
        Some(
            CommandQuery {
                text,
                len,
                limit: max_typos(len),
                token_count,
                separator_variants: variants,
            },
        )
    }

    /// The best match of the candidate with the query.
    pub fn best_match<'a>(&self, candidate: CommandCandidate<'a>) -> (best: Option<
        CommandMatch<'a>,
    >)
        requires
            match_fits(candidate@, self@),
        ensures
            hit_found(best) == typo_match(candidate@, self@),
    {
        proof {
            use_type_invariant(self);
        }
        let lowered = lower_candidate(candidate);
        let mut best = best_match_inner(&lowered, self.text.as_str(), self.len, self.limit);
        let ghost offers = match_offers(candidate@, self@);
        let ghost variants = variants_of(self@);
        proof {
            lemma_improved_push(command_order(), None, Seq::empty(), offers[0]);
            assert(offers.take(1) =~= Seq::<Option<CommandHit>>::empty().push(offers[0]));
        }
        let limit = self.limit.saturating_sub(1);
        let mut i: usize = 0;
        while i < self.separator_variants.len()
            invariant
                i <= self.separator_variants@.len() == variants.len(),
                variants == variants_of(self@),
                self.separator_variants.deep_view() == variants,
                offers == match_offers(candidate@, self@),
                self.len == self@.len(),
                self.len > 1,
                self.limit == self.len / 2,
                limit == one_less(self.limit as nat),
                lowered.is_lowered(),
                lowered.given == candidate,
                match_fits(candidate@, self@),
                hit_found(best) == improved(command_order(), None, offers.take(i + 1)),
            decreases variants.len() - i,
        {
            let variant = self.separator_variants[i].as_str();
            proof {
                assert(variants[i as int] == variant@);
                assert(query_fits(candidate@, variants[i as int], self.len as nat, limit as nat));
                lemma_query_matches(candidate@, variant@, self.len as nat, limit as nat);
            }
            let found = best_match_inner(&lowered, variant, self.len, limit);
            let counted = count_lost_space(found, self.len, self.limit);
            update_best(&mut best, counted);
            proof {
                assert(offers[i + 1] == hit_found(counted));
                assert(offers.take(i + 2) =~= offers.take(i + 1).push(offers[i + 1]));
                lemma_improved_push(command_order(), None, offers.take(i + 1), offers[i + 1]);
            }
            i = i + 1;
        }
        assert(offers.take(i + 1) =~= offers);
        best
    }

    /// Whether the query is so short that no sum can be too great.
    fn is_short_for(&self, candidate: CommandCandidate<'_>) -> (short: bool)
        ensures
            short ==> match_fits(candidate@, self@),
    {
        proof {
            use_type_invariant(self);
        }
        let ghost texts = lowercase_each(candidate@.tokens);
        let lowered = lower_candidate(candidate);
        let count = lowered.tokens.len();
        let factor: usize = char_count(self.text.as_str()) + 2;
        if count > (usize::MAX - 2) / 3 || (3 * count + 2).checked_mul(factor).is_none() {
            return false;
        }
        let mut i: usize = 0;
        while i < count
            invariant
                i <= count == lowered.tokens@.len() == texts.len(),
                texts == lowered.tokens.deep_view(),
                factor == self@.len() + 2,
                forall|k: int| 0 <= k < i ==> #[trigger] texts[k].len() * factor <= usize::MAX,
            decreases count - i,
        {
            let len = lowered.tokens[i].as_str().unicode_len();
            assert(texts[i as int].len() == len);
            if len.checked_mul(factor).is_none() {
                return false;
            }
            i = i + 1;
        }
        proof {
            small_match_fits(candidate@, self@);
        }
        true
    }

    /// Whether no position and no sum that is formed for the match of the
    /// candidate is too great.
    fn check_match(&self, candidate: CommandCandidate<'_>) -> (answer: bool)
        ensures
            answer == match_fits(candidate@, self@),
    {
        proof {
            use_type_invariant(self);
        }
        let ghost variants = variants_of(self@);
        let lowered = lower_candidate(candidate);
        if !lowered.check_query(self.text.as_str(), self.len, self.limit) {
            return false;
        }
        let limit = self.limit.saturating_sub(1);
        let mut i: usize = 0;
        while i < self.separator_variants.len()
            invariant
                i <= self.separator_variants@.len() == variants.len(),
                variants == variants_of(self@),
                self.separator_variants.deep_view() == variants,
                self.len == self@.len(),
                self.len > 1,
                self.limit == self.len / 2,
                limit == one_less(self.limit as nat),
                lowered.is_lowered(),
                lowered.given == candidate,
                forall|k: int|
                    0 <= k < i ==> #[trigger] query_fits(
                        candidate@,
                        variants[k],
                        self.len as nat,
                        limit as nat,
                    ),
            decreases variants.len() - i,
        {
            let variant = self.separator_variants[i].as_str();
            assert(variants[i as int] == variant@);
            let fit = lowered.check_query(variant, self.len, limit);
            assert(fit == query_fits(
                candidate@,
                variants[i as int],
                self.len as nat,
                limit as nat,
            ));
            if !fit {
                return false;
            }
            i = i + 1;
        }
        true
    }
}

proof fn lemma_fewer_are_small(tokens: Seq<Seq<char>>, query_len: nat)
    requires
        are_small(tokens, query_len + 1),
    ensures
        are_small(tokens, query_len),
{
    let width = 3 * tokens.len() + 2;
    assert(width * (query_len + 1) <= width * (query_len + 2)) by (nonlinear_arith);
    assert forall|i: int| 0 <= i < tokens.len() implies #[trigger] tokens[i].len() * (query_len
        + 1) <= usize::MAX by {
        let len = tokens[i].len();
        assert(len * (query_len + 1) <= len * (query_len + 2)) by (nonlinear_arith);
    }
}

fn lower_candidate<'a>(candidate: CommandCandidate<'a>) -> (lowered: LoweredCandidate<'a>)
    ensures
        lowered.is_lowered(),
        lowered.given == candidate,
{
    let mut tokens: Vec<String> = Vec::new();
    let mut i: usize = 0;
    while i < candidate.tokens.len()
        invariant
            i <= candidate.tokens@.len(),
            tokens@.len() == i,
            forall|k: int|
                0 <= k < i ==> (#[trigger] tokens@[k])@ == lowercase(candidate.tokens@[k]@),
        decreases candidate.tokens@.len() - i,
    {
        tokens.push(crate::text::to_lowercase(candidate.tokens[i]));
        i = i + 1;
    }
    assert(tokens.deep_view() =~= lowercase_each(candidate.tokens.deep_view()));
    LoweredCandidate {
        given: candidate,
        command: crate::text::to_lowercase(candidate.command),
        tokens,
    }
}

/// The match with one edit more, for the space that was put in, if that is
/// within the limit.
fn count_lost_space<'a>(
    found: Option<CommandMatch<'a>>,
    query_len: usize,
    limit: usize,
) -> (counted: Option<CommandMatch<'a>>)
    requires
        found matches Some(hit) ==> hit@.distance == hit@.operations.total() && hit.distance
            <= limit,
    ensures
        hit_found(counted) == with_lost_space(hit_found(found), query_len as nat, limit as nat),
{
    match found {
        None => None,
        Some(hit) => {
            if hit.distance >= limit {
                return None;
            }
            let distance = hit.distance + 1;
            let share = Ratio { numerator: distance, denominator: query_len };
            Some(
                CommandMatch {
                    distance,
                    operations: hit.operations.with_insert_delete(),
                    ratio: hit.ratio.max(share),
                    ..hit
                },
            )
        },
    }
}

/// The best match of the candidate with `query`, trimmed and in lower case, if
/// that leaves two characters or more.
pub fn best_match<'a>(candidate: CommandCandidate<'a>, query: &str) -> (best: Option<
    CommandMatch<'a>,
>)
    requires
        match_fits(candidate@, prepared_query(query@)),
    ensures
        hit_found(best) == typo_match(candidate@, prepared_query(query@)),
{
    match CommandQuery::new(query) {
        None => None,
        Some(prepared) => prepared.best_match(candidate),
    }
}

/// [`best_match`] where its sums fit, else `None`.
pub fn try_best_match<'a>(candidate: CommandCandidate<'a>, query: &str) -> (answer: Option<
    Option<CommandMatch<'a>>,
>)
    ensures
        answer is Some <==> match_fits(candidate@, prepared_query(query@)),
        answer matches Some(best) ==> hit_found(best) == typo_match(
            candidate@,
            prepared_query(query@),
        ),
{
    if let Some(prepared) = CommandQuery::new(query) {
        if !prepared.is_short_for(candidate) && !prepared.check_match(candidate) {
            return None;
        }
    }
    Some(best_match(candidate, query))
}

} // verus!
