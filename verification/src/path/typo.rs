//! Matching of a query with paths, typos included.

use std::cmp::Ordering;

use vstd::arithmetic::mul::lemma_mul_inequality;
use vstd::prelude::*;

use crate::distance::{
    bounded_cost, bounded_damerau_levenshtein, edit_cost, edit_cost_is_zero_iff_equal, gap, gap_of,
    longer, longer_of, max_typos, one_less, EditCost, OperationProfile,
};
use crate::order::{
    best_of, best_of_is_first_best, better, improved, is_first_best, is_strict_weak_order,
    lemma_improved_concat, lemma_improved_push,
};
use crate::ranking::{
    compare_path_typo_sort_keys, is_ordering, path_typo_keys_are_ambiguous,
    path_typo_order_is_total, path_typo_order_is_transitive, ratio_milli, PathTypoKey,
    PathTypoSortKey,
};
use crate::score::{clamped, milli, Fraction, Ratio, Score};
use crate::sort::{is_stable_sorting, sort_ranked, Ranked};
use crate::text::{
    any_signals, has_query_signal, lemma_tokens_bound, path_tokens, runs, runs_are_maximal,
    separator_variants, shared_pairs, signals, spaced_variants, split_path_tokens, split_tokens,
    tokens, tokens_keep_all_but_separators, Separator,
};
use crate::token_match::{
    align_run, aligned_token_distance, alignment_at, alignment_within, alignments_fit,
    check_alignments, lemma_alignment_total, lemma_alignments_fit, lemma_run_is_bounded,
    lemma_split_total, length_bound, partitioned_token_distance, position_bound, run_fits,
    run_fits_so_far, split_within, PlacedToken, PositionedToken,
};
use crate::unicode::{char_count, lowercase};

verus! {

/// The part of a path that a match was found in.
#[derive(Clone, Copy, Debug, PartialEq, Eq, PartialOrd, Ord, Structural)]
pub enum MatchScope {
    Basename,
    BasenameToken,
    OtherComponent,
    OtherComponentToken,
    FullPath,
}

impl MatchScope {
    /// What the scope is called.
    pub open spec fn name(self) -> Seq<char> {
        match self {
            MatchScope::Basename => "basename"@,
            MatchScope::BasenameToken => "basename-token"@,
            MatchScope::OtherComponent => "component"@,
            MatchScope::OtherComponentToken => "component-token"@,
            MatchScope::FullPath => "path"@,
        }
    }

    /// What the scope is called.
    pub fn label(&self) -> (label: &str)
        ensures
            label@ == self.name(),
    {
        match self {
            MatchScope::Basename => "basename",
            MatchScope::BasenameToken => "basename-token",
            MatchScope::OtherComponent => "component",
            MatchScope::OtherComponentToken => "component-token",
            MatchScope::FullPath => "path",
        }
    }
}

/// A path that matches a query, and how well.
#[derive(Clone, Copy, Debug)]
pub struct PathMatch<'a> {
    pub path: &'a str,
    pub distance: usize,
    pub ratio: Ratio,
    pub scope: MatchScope,
    pub path_position: usize,
    pub structure: usize,
    pub operations: OperationProfile,
    pub score: Score,
    pub path_depth: usize,
}

/// A [`PathMatch`] in unbounded numbers.
pub struct PathHit {
    pub path: Seq<char>,
    pub distance: nat,
    pub ratio: Fraction,
    pub scope: MatchScope,
    pub path_position: nat,
    pub structure: nat,
    pub operations: EditCost,
    pub score: Score,
    pub path_depth: nat,
}

impl View for PathMatch<'_> {
    type V = PathHit;

    open spec fn view(&self) -> PathHit {
        PathHit {
            path: self.path@,
            distance: self.distance as nat,
            ratio: self.ratio@,
            scope: self.scope,
            path_position: self.path_position as nat,
            structure: self.structure as nat,
            operations: self.operations@,
            score: self.score,
            path_depth: self.path_depth as nat,
        }
    }
}

impl PathHit {
    /// What the match is ranked by. The length that the ratio was taken of is
    /// found from the ratio.
    pub open spec fn key(self) -> PathTypoKey {
        PathTypoKey {
            distance: self.distance,
            operations: self.operations,
            ratio_milli: milli(self.distance, clamped(self.ratio.whole_of(self.distance))),
            position: self.path_position,
            score: self.score.rank(),
            structure: self.structure,
            path_depth: self.path_depth,
            key: self.path,
        }
    }

    /// Whether the match ranks before `other`.
    pub open spec fn ranks_before(self, other: PathHit) -> bool {
        self.key().ranks_before(other.key())
    }
}

/// The ranking of matches, as a relation.
pub open spec fn path_order() -> spec_fn(PathHit, PathHit) -> bool {
    |left: PathHit, right: PathHit| left.ranks_before(right)
}

/// The ranking of matches is a strict weak order. Matches that it leaves equal
/// have the same key.
pub proof fn path_ranking_is_weak_order()
    ensures
        is_strict_weak_order(path_order()),
        forall|left: PathHit, right: PathHit|
            !#[trigger] left.ranks_before(right) && !right.ranks_before(left) ==> left.key()
                == right.key(),
{
    let before = path_order();
    assert forall|left: PathHit, right: PathHit|
        !#[trigger] left.ranks_before(right) && !right.ranks_before(left) implies left.key()
        == right.key() by {
        path_typo_order_is_total(left.key(), right.key());
    }
    assert forall|a: PathHit| !#[trigger] before(a, a) by {
        path_typo_order_is_total(a.key(), a.key());
    }
    assert forall|a: PathHit, b: PathHit, c: PathHit| #[trigger]
        before(a, b) && #[trigger] before(b, c) implies before(a, c) by {
        path_typo_order_is_transitive(a.key(), b.key(), c.key());
    }
    assert forall|a: PathHit, b: PathHit, c: PathHit|
        !#[trigger] before(a, b) && !#[trigger] before(b, c) implies !before(a, c) by {
        path_typo_order_is_total(a.key(), b.key());
        path_typo_order_is_total(b.key(), c.key());
        path_typo_order_is_total(a.key(), c.key());
        if before(a, c) {
            if before(b, a) {
                path_typo_order_is_transitive(b.key(), a.key(), c.key());
            }
        }
    }
}

impl<'a> PathMatch<'a> {
    fn compared_len(&self) -> (len: usize)
        ensures
            len == clamped(self@.ratio.whole_of(self@.distance)),
    {
        self.ratio.whole_of(self.distance)
    }

    fn sort_key(&self) -> (key: PathTypoSortKey<'_, MatchScope>)
        ensures
            key@ == self@.key(),
            key.scope == self.scope,
    {
        PathTypoSortKey {
            distance: self.distance,
            operations: self.operations,
            ratio_milli: ratio_milli(self.distance, self.compared_len()),
            scope: self.scope,
            position: self.path_position,
            structure: self.structure,
            score: self.score,
            path_depth: self.path_depth,
            key: self.path,
        }
    }

    /// The order of matches, the better first.
    pub fn compare(&self, other: &Self) -> (ordering: Ordering)
        ensures
            is_ordering(
                ordering,
                self@.ranks_before(other@),
                other@.ranks_before(self@),
            ),
    {
        compare_path_typo_sort_keys(&self.sort_key(), &other.sort_key())
    }
}

impl Ranked for PathMatch<'_> {
    open spec fn ranks_before(self, other: Self) -> bool {
        self@.ranks_before(other@)
    }

    proof fn ranking_is_weak_order() {
        path_ranking_is_weak_order();
        let before = path_order();
        let ranking = |left: Self, right: Self| left.ranks_before(right);
        assert forall|a: Self, b: Self| #[trigger] ranking(a, b) == before(a@, b@) by {}
        assert forall|a: Self, b: Self, c: Self| #[trigger]
            ranking(a, b) && #[trigger] ranking(b, c) implies ranking(a, c) by {
            assert(before(a@, b@) && before(b@, c@));
        }
        assert forall|a: Self, b: Self, c: Self|
            !#[trigger] ranking(a, b) && !#[trigger] ranking(b, c) implies !ranking(a, c) by {
            assert(!before(a@, b@) && !before(b@, c@));
        }
    }

    fn is_before(&self, other: &Self) -> (before: bool) {
        match self.compare(other) {
            Ordering::Less => true,
            _ => false,
        }
    }
}

/// Sorts the matches, the best first. Matches that rank the same stay in the
/// order they had.
pub fn sort_matches(matches: &mut [PathMatch<'_>])
    ensures
        exists|places: Seq<int>| is_stable_sorting(places, old(matches)@, final(matches)@),
{
    sort_ranked(matches);
}

/// Whether nothing but the depth and the text of the paths tells the two matches
/// apart.
pub fn is_ambiguous(first: &PathMatch<'_>, second: &PathMatch<'_>) -> (ambiguous: bool)
    ensures
        ambiguous == first@.key().ties(second@.key()),
{
    path_typo_keys_are_ambiguous(&first.sort_key(), &second.sort_key())
}

/// What a path is matched with: the query, how long it counts as, how many edits
/// it may take, and what a match says of the path besides.
pub struct PathSearch {
    pub path: Seq<char>,
    pub score: Score,
    pub query: Seq<char>,
    pub query_len: nat,
    pub limit: nat,
    pub path_depth: nat,
}

/// The words of `text`, each at `position`.
pub open spec fn placed_words(text: Seq<char>, position: nat) -> Seq<PlacedToken> {
    path_tokens(text).map_values(|token: Seq<char>| PlacedToken { token, position })
}

/// The words of the first `n` components, each as far from the end as its
/// component is from the last, in steps of three.
pub open spec fn words_of_components(components: Seq<Seq<char>>, n: nat) -> Seq<PlacedToken>
    decreases n,
{
    if n == 0 {
        Seq::empty()
    } else {
        words_of_components(components, (n - 1) as nat) + placed_words(
            components[n - 1],
            ((components.len() - n) * 3) as nat,
        )
    }
}

impl PathSearch {
    /// A match, unless more than half of what is compared is mistyped.
    pub open spec fn hit(
        self,
        operations: EditCost,
        compared_len: nat,
        scope: MatchScope,
        path_position: nat,
        structure: nat,
    ) -> Option<PathHit> {
        let ratio = Fraction { numerator: operations.total(), denominator: compared_len };
        if ratio.over_half() {
            None
        } else {
            Some(
                PathHit {
                    path: self.path,
                    distance: operations.total(),
                    ratio,
                    scope,
                    path_position,
                    structure,
                    operations,
                    score: self.score,
                    path_depth: self.path_depth,
                },
            )
        }
    }

    /// The match of the whole query with the whole of `candidate`, which stands
    /// `position` components before the end.
    pub open spec fn text_offer(
        self,
        candidate: Seq<char>,
        scope: MatchScope,
        position: nat,
    ) -> Option<PathHit> {
        if candidate.len() == 0 || self.limit == 0 || gap(self.query_len, candidate.len())
            > self.limit {
            None
        } else {
            match bounded_cost(self.query, candidate, self.limit) {
                None => None,
                Some(cost) => self.hit(
                    cost,
                    longer(self.query_len, candidate.len()),
                    scope,
                    position * 3,
                    0,
                ),
            }
        }
    }

    /// The match of the words of the query, of which there are two or more, with
    /// the words of `candidate`, of which there are as many, one by one.
    pub open spec fn sequence_offer(
        self,
        candidate: Seq<char>,
        scope: MatchScope,
        position: nat,
    ) -> Option<PathHit> {
        let query = path_tokens(self.query);
        if query.len() < 2 || query.len() != path_tokens(candidate).len() {
            None
        } else {
            match alignment_at(query, placed_words(candidate, position * 3), 0, query.len()) {
                Some(found) if found.distance <= self.limit => self.hit(
                    found.operations,
                    self.query_len,
                    scope,
                    found.position,
                    found.structure,
                ),
                _ => None,
            }
        }
    }

    /// The match of the words of the query, of which there are two or more, with
    /// consecutive parts of `candidate`, which is one word.
    pub open spec fn compound_offer(
        self,
        candidate: Seq<char>,
        scope: MatchScope,
        position: nat,
    ) -> Option<PathHit> {
        let query = path_tokens(self.query);
        if query.len() < 2 || path_tokens(candidate).len() != 1 {
            None
        } else {
            match split_within(query, candidate, self.limit) {
                None => None,
                Some(found) => self.hit(
                    found.operations,
                    longer(self.query_len, candidate.len()),
                    scope,
                    position * 3 * query.len() + found.position,
                    found.structure,
                ),
            }
        }
    }

    /// The match of the words of the query, of which there are two or more, with
    /// consecutive words of the path, whatever components they are in.
    pub open spec fn components_offer(
        self,
        components: Seq<Seq<char>>,
        scope: MatchScope,
    ) -> Option<PathHit> {
        let query = path_tokens(self.query);
        let candidate = words_of_components(components, components.len());
        if query.len() < 2 || candidate.len() < query.len() {
            None
        } else {
            match alignment_within(query, candidate, self.limit) {
                None => None,
                Some(found) => self.hit(
                    found.operations,
                    self.query_len,
                    scope,
                    found.position,
                    found.structure,
                ),
            }
        }
    }

    /// The matches of the whole query with each word of `text`.
    pub open spec fn word_offers(
        self,
        text: Seq<char>,
        scope: MatchScope,
        position: nat,
    ) -> Seq<Option<PathHit>> {
        path_tokens(text).map_values(
            |token: Seq<char>| self.text_offer(token, scope, position),
        )
    }

    /// The matches with a component that is not the last: with the whole of it,
    /// with its parts if it is one word and such matches are wanted, and with
    /// each word.
    pub open spec fn component_offers(
        self,
        component: Seq<char>,
        position: nat,
        compound: bool,
    ) -> Seq<Option<PathHit>> {
        let scope = MatchScope::OtherComponent;
        let whole = seq![self.text_offer(component, scope, position)];
        let parts = if compound {
            seq![self.compound_offer(component, scope, position)]
        } else {
            seq![]
        };
        whole + parts + self.word_offers(component, MatchScope::OtherComponentToken, position)
    }

    /// The matches with the first `n` components, from left to right.
    pub open spec fn parent_offers(
        self,
        components: Seq<Seq<char>>,
        n: nat,
        compound: bool,
    ) -> Seq<Option<PathHit>>
        decreases n,
    {
        if n == 0 {
            seq![]
        } else {
            self.parent_offers(components, (n - 1) as nat, compound) + self.component_offers(
                components[n - 1],
                (components.len() - n) as nat,
                compound,
            )
        }
    }

    /// All matches of a query of several words with a path in lower case.
    pub open spec fn phrase_offers(
        self,
        lowered: Seq<char>,
        components: Seq<Seq<char>>,
    ) -> Seq<Option<PathHit>> {
        let basename = components.last();
        let basename_offers = seq![
            self.text_offer(basename, MatchScope::Basename, 0),
            self.sequence_offer(basename, MatchScope::Basename, 0),
            self.compound_offer(basename, MatchScope::Basename, 0),
            self.components_offer(components, MatchScope::OtherComponent),
        ];
        basename_offers + self.word_offers(basename, MatchScope::BasenameToken, 0)
            + self.parent_offers(components, (components.len() - 1) as nat, true) + seq![
            self.text_offer(lowered, MatchScope::FullPath, components.len()),
        ]
    }

    /// The matches of the whole query with the basename and each of its words.
    pub open spec fn basename_offers(self, basename: Seq<char>) -> Seq<Option<PathHit>> {
        seq![self.text_offer(basename, MatchScope::Basename, 0)] + self.word_offers(
            basename,
            MatchScope::BasenameToken,
            0,
        )
    }

    /// The matches of a query of one word with the components before the last
    /// and with the whole path.
    pub open spec fn other_offers(
        self,
        lowered: Seq<char>,
        components: Seq<Seq<char>>,
    ) -> Seq<Option<PathHit>> {
        self.parent_offers(components, (components.len() - 1) as nat, false) + seq![
            self.text_offer(lowered, MatchScope::FullPath, components.len()),
        ]
    }

    /// The match of a query of one word with a path in lower case. One edit or
    /// less with the basename, or else with a word of it, is good enough;
    /// otherwise the best match of all counts.
    pub open spec fn word_match(self, lowered: Seq<char>, components: Seq<Seq<char>>) -> Option<
        PathHit,
    > {
        let whole = self.text_offer(components.last(), MatchScope::Basename, 0);
        let basename = best_of(path_order(), self.basename_offers(components.last()));
        if is_close(whole) {
            whole
        } else if is_close(basename) {
            basename
        } else {
            best_of(
                path_order(),
                self.basename_offers(components.last()) + self.other_offers(lowered, components),
            )
        }
    }
}

/// Whether the position of a match, if there is one, is not too great for a
/// `usize`.
pub open spec fn hit_fits(found: Option<PathHit>) -> bool {
    found matches Some(hit) ==> hit.path_position <= usize::MAX
}

impl PathSearch {
    /// The match of the words of the query with the parts of component `i`, which
    /// is not the last.
    pub open spec fn parent_compound_offer(self, components: Seq<Seq<char>>, i: int) -> Option<
        PathHit,
    > {
        self.compound_offer(
            components[i],
            MatchScope::OtherComponent,
            (components.len() - 1 - i) as nat,
        )
    }

    /// Whether no sum that is formed for a query of several words is too great
    /// for a `usize`. A query of one word has no such sums.
    pub open spec fn phrase_fits(self, components: Seq<Seq<char>>) -> bool {
        let query = path_tokens(self.query);
        query.len() >= 2 ==> {
            &&& alignments_fit(
                query,
                words_of_components(components, components.len()),
                self.limit,
            )
            &&& forall|i: int|
                0 <= i < components.len() - 1 ==> hit_fits(
                    #[trigger] self.parent_compound_offer(components, i),
                )
        }
    }
}

/// Whether a match takes one edit or less.
pub open spec fn is_close(found: Option<PathHit>) -> bool {
    found matches Some(hit) && hit.distance <= 1
}

/// What is tried against a path: a [`PathSearch`] in machine numbers.
struct MatchContext<'a, 'q> {
    path: &'a str,
    score: Score,
    query: &'q str,
    query_len: usize,
    limit: usize,
    path_depth: usize,
}

impl View for MatchContext<'_, '_> {
    type V = PathSearch;

    closed spec fn view(&self) -> PathSearch {
        PathSearch {
            path: self.path@,
            score: self.score,
            query: self.query@,
            query_len: self.query_len as nat,
            limit: self.limit as nat,
            path_depth: self.path_depth as nat,
        }
    }
}

/// A result in unbounded numbers.
pub open spec fn hit_found(found: Option<PathMatch<'_>>) -> Option<PathHit> {
    match found {
        Some(hit) => Some(hit@),
        None => None,
    }
}

impl<'a> MatchContext<'a, '_> {
    fn hit(
        &self,
        distance: usize,
        operations: OperationProfile,
        compared_len: usize,
        scope: MatchScope,
        path_position: usize,
        structure: usize,
    ) -> (found: Option<PathMatch<'a>>)
        requires
            distance == operations@.total(),
        ensures
            hit_found(found) == self@.hit(
                operations@,
                compared_len as nat,
                scope,
                path_position as nat,
                structure as nat,
            ),
    {
        let ratio = Ratio { numerator: distance, denominator: compared_len };
        if ratio.is_over_half() {
            return None;
        }
        Some(
            PathMatch {
                path: self.path,
                distance,
                ratio,
                scope,
                path_position,
                structure,
                operations,
                score: self.score,
                path_depth: self.path_depth,
            },
        )
    }

    fn candidate_for_text(&self, candidate: &str, scope: MatchScope, position: usize) -> (found:
        Option<PathMatch<'a>>)
        requires
            3 * position <= usize::MAX,
        ensures
            hit_found(found) == self@.text_offer(candidate@, scope, position as nat),
    {
        let candidate_len = candidate.unicode_len();
        if candidate_len == 0 {
            return None;
        }
        if self.limit == 0 || gap_of(self.query_len, candidate_len) > self.limit {
            return None;
        }
        match bounded_damerau_levenshtein(self.query, candidate, self.limit) {
            None => None,
            Some((distance, operations)) => self.hit(
                distance,
                operations,
                longer_of(self.query_len, candidate_len),
                scope,
                position * 3,
                0,
            ),
        }
    }

    fn candidate_for_token_sequence(
        &self,
        candidate: &str,
        scope: MatchScope,
        position: usize,
    ) -> (found: Option<PathMatch<'a>>)
        requires
            3 * position <= usize::MAX,
            path_tokens(self.query@).len() == path_tokens(candidate@).len() ==> run_fits(
                path_tokens(self.query@),
                placed_words(candidate@, (position * 3) as nat),
                0,
                self.limit as nat,
            ),
        ensures
            hit_found(found) == self@.sequence_offer(candidate@, scope, position as nat),
    {
        let query_tokens = split_path_tokens(self.query);
        let candidate_tokens = split_path_tokens(candidate);
        if query_tokens.len() < 2 || query_tokens.len() != candidate_tokens.len() {
            return None;
        }
        let mut placed: Vec<PositionedToken> = Vec::new();
        place_tokens(&mut placed, &candidate_tokens, position * 3);
        proof {
            let words = placed_words(candidate@, (position * 3) as nat);
            assert(placed.deep_view() =~= words);
            lemma_alignment_total(path_tokens(self.query@), words);
        }
        match align_run(query_tokens.as_slice(), placed.as_slice(), 0, self.limit) {
            None => None,
            Some((distance, path_position, structure, operations)) => self.hit(
                distance,
                operations,
                self.query_len,
                scope,
                path_position,
                structure,
            ),
        }
    }

    fn candidate_for_compound_component(
        &self,
        candidate: &str,
        scope: MatchScope,
        position: usize,
    ) -> (found: Option<PathMatch<'a>>)
        requires
            3 * position <= usize::MAX,
            hit_fits(self@.compound_offer(candidate@, scope, position as nat)),
        ensures
            hit_found(found) == self@.compound_offer(candidate@, scope, position as nat),
    {
        let query_tokens = split_path_tokens(self.query);
        let candidate_tokens = split_path_tokens(candidate);
        if query_tokens.len() < 2 || candidate_tokens.len() != 1 {
            return None;
        }
        let count = query_tokens.len();
        proof {
            lemma_split_total(path_tokens(self.query@), candidate@);
        }
        match partitioned_token_distance(query_tokens.as_slice(), candidate, self.limit) {
            None => None,
            Some((distance, structure, position_metric, operations)) => {
                let compared_len = longer_of(self.query_len, candidate.unicode_len());
                if (Ratio { numerator: distance, denominator: compared_len }).is_over_half() {
                    return None;
                }
                self.hit(
                    distance,
                    operations,
                    compared_len,
                    scope,
                    position * 3 * count + position_metric,
                    structure,
                )
            },
        }
    }

    /// Whether the position of the match with parts of `candidate` fits.
    fn check_compound(&self, candidate: &str, scope: MatchScope, position: usize) -> (answer: bool)
        requires
            3 * position <= usize::MAX,
        ensures
            answer == hit_fits(self@.compound_offer(candidate@, scope, position as nat)),
    {
        let query_tokens = split_path_tokens(self.query);
        let candidate_tokens = split_path_tokens(candidate);
        if query_tokens.len() < 2 || candidate_tokens.len() != 1 {
            return true;
        }
        let count = query_tokens.len();
        proof {
            lemma_split_total(path_tokens(self.query@), candidate@);
        }
        match partitioned_token_distance(query_tokens.as_slice(), candidate, self.limit) {
            None => true,
            Some((distance, _, position_metric, _)) => {
                let compared_len = longer_of(self.query_len, candidate.unicode_len());
                if (Ratio { numerator: distance, denominator: compared_len }).is_over_half() {
                    return true;
                }
                match (position * 3).checked_mul(count) {
                    None => false,
                    Some(before) => before.checked_add(position_metric).is_some(),
                }
            },
        }
    }

    /// Whether no sum that is formed for a query of several words is too great.
    fn check_phrase(&self, components: &Vec<&str>) -> (answer: bool)
        requires
            components@.len() > 0,
            3 * components@.len() <= usize::MAX,
        ensures
            answer == self@.phrase_fits(components.deep_view()),
    {
        let ghost texts = components.deep_view();
        let query_tokens = split_path_tokens(self.query);
        if query_tokens.len() < 2 {
            return true;
        }
        let placed = place_components(components);
        if !check_alignments(query_tokens.as_slice(), placed.as_slice(), self.limit) {
            return false;
        }
        let basename_idx = components.len() - 1;
        let mut idx: usize = 0;
        while idx < basename_idx
            invariant
                idx <= basename_idx,
                basename_idx == components@.len() - 1,
                texts == components.deep_view(),
                3 * components@.len() <= usize::MAX,
                path_tokens(self.query@).len() >= 2,
                forall|i: int|
                    0 <= i < idx ==> hit_fits(#[trigger] self@.parent_compound_offer(texts, i)),
            decreases basename_idx - idx,
        {
            assert(texts[idx as int] == components@[idx as int]@);
            let fit = self.check_compound(
                components[idx],
                MatchScope::OtherComponent,
                basename_idx - idx,
            );
            assert(fit == hit_fits(self@.parent_compound_offer(texts, idx as int)));
            if !fit {
                return false;
            }
            idx = idx + 1;
        }
        true
    }

    fn candidate_for_component_sequence(
        &self,
        components: &Vec<&str>,
        scope: MatchScope,
    ) -> (found: Option<PathMatch<'a>>)
        requires
            3 * components@.len() <= usize::MAX,
            self@.phrase_fits(components.deep_view()),
        ensures
            hit_found(found) == self@.components_offer(components.deep_view(), scope),
    {
        let query_tokens = split_path_tokens(self.query);
        if query_tokens.len() < 2 {
            return None;
        }
        let placed = place_components(components);
        proof {
            let words = words_of_components(components.deep_view(), components@.len());
            lemma_alignment_total(path_tokens(self.query@), words);
        }
        if placed.len() < query_tokens.len() {
            return None;
        }
        match aligned_token_distance(query_tokens.as_slice(), placed.as_slice(), self.limit) {
            None => None,
            Some((distance, path_position, structure, operations)) => self.hit(
                distance,
                operations,
                self.query_len,
                scope,
                path_position,
                structure,
            ),
        }
    }

    fn improve_by_words(
        &self,
        best: &mut Option<PathMatch<'a>>,
        text: &str,
        scope: MatchScope,
        position: usize,
    )
        requires
            3 * position <= usize::MAX,
        ensures
            hit_found(*final(best)) == improved(
                path_order(),
                hit_found(*old(best)),
                self@.word_offers(text@, scope, position as nat),
            ),
    {
        let found = split_path_tokens(text);
        let ghost offers = self@.word_offers(text@, scope, position as nat);
        let mut i: usize = 0;
        assert(offers.take(0) =~= Seq::empty());
        while i < found.len()
            invariant
                i <= found@.len(),
                found.deep_view() == path_tokens(text@),
                3 * position <= usize::MAX,
                offers == self@.word_offers(text@, scope, position as nat),
                hit_found(*best) == improved(
                    path_order(),
                    hit_found(*old(best)),
                    offers.take(i as int),
                ),
            decreases found@.len() - i,
        {
            update_best(best, self.candidate_for_text(found[i], scope, position));
            proof {
                assert(found.deep_view()[i as int] == found@[i as int]@);
                assert(offers.take(i + 1) =~= offers.take(i as int).push(offers[i as int]));
                lemma_improved_push(
                    path_order(),
                    hit_found(*old(best)),
                    offers.take(i as int),
                    offers[i as int],
                );
            }
            i = i + 1;
        }
        assert(offers.take(found@.len() as int) =~= offers);
    }

    fn improve_by_component(
        &self,
        best: &mut Option<PathMatch<'a>>,
        component: &str,
        position: usize,
        compound: bool,
    )
        requires
            3 * position <= usize::MAX,
            compound ==> hit_fits(
                self@.compound_offer(component@, MatchScope::OtherComponent, position as nat),
            ),
        ensures
            hit_found(*final(best)) == improved(
                path_order(),
                hit_found(*old(best)),
                self@.component_offers(component@, position as nat, compound),
            ),
    {
        let scope = MatchScope::OtherComponent;
        let ghost start = hit_found(*best);
        let ghost mut offers = Seq::<Option<PathHit>>::empty();
        let whole = self.candidate_for_text(component, scope, position);
        proof {
            lemma_improved_push(path_order(), start, offers, hit_found(whole));
            offers = offers.push(hit_found(whole));
        }
        update_best(best, whole);
        if compound {
            let parts = self.candidate_for_compound_component(component, scope, position);
            proof {
                lemma_improved_push(path_order(), start, offers, hit_found(parts));
                offers = offers.push(hit_found(parts));
            }
            update_best(best, parts);
        }
        let words = MatchScope::OtherComponentToken;
        self.improve_by_words(best, component, words, position);
        proof {
            let word_offers = self@.word_offers(component@, words, position as nat);
            lemma_improved_concat(path_order(), start, offers, word_offers);
            assert(offers + word_offers =~= self@.component_offers(
                component@,
                position as nat,
                compound,
            ));
        }
    }

    fn improve_by_parents(
        &self,
        best: &mut Option<PathMatch<'a>>,
        components: &Vec<&str>,
        compound: bool,
    )
        requires
            components@.len() > 0,
            3 * components@.len() <= usize::MAX,
            self@.phrase_fits(components.deep_view()),
        ensures
            hit_found(*final(best)) == improved(
                path_order(),
                hit_found(*old(best)),
                self@.parent_offers(
                    components.deep_view(),
                    (components@.len() - 1) as nat,
                    compound,
                ),
            ),
    {
        let ghost texts = components.deep_view();
        let basename_idx = components.len() - 1;
        let mut idx: usize = 0;
        while idx < basename_idx
            invariant
                idx <= basename_idx,
                basename_idx == components@.len() - 1,
                texts == components.deep_view(),
                3 * components@.len() <= usize::MAX,
                self@.phrase_fits(texts),
                hit_found(*best) == improved(
                    path_order(),
                    hit_found(*old(best)),
                    self@.parent_offers(texts, idx as nat, compound),
                ),
            decreases basename_idx - idx,
        {
            proof {
                assert(texts[idx as int] == components@[idx as int]@);
                assert(hit_fits(self@.parent_compound_offer(texts, idx as int)));
                lemma_improved_concat(
                    path_order(),
                    hit_found(*old(best)),
                    self@.parent_offers(texts, idx as nat, compound),
                    self@.component_offers(
                        texts[idx as int],
                        (basename_idx - idx) as nat,
                        compound,
                    ),
                );
            }
            self.improve_by_component(best, components[idx], basename_idx - idx, compound);
            idx = idx + 1;
        }
    }
}

/// Adds the tokens to those that are placed, each at `position`.
fn place_tokens<'t>(placed: &mut Vec<PositionedToken<'t>>, found: &Vec<&'t str>, position: usize)
    ensures
        final(placed).deep_view() == old(placed).deep_view() + found.deep_view().map_values(
            |token: Seq<char>| PlacedToken { token, position: position as nat },
        ),
{
    let ghost place = |token: Seq<char>| PlacedToken { token, position: position as nat };
    let mut i: usize = 0;
    assert(found.deep_view().take(0).map_values(place) =~= Seq::empty());
    while i < found.len()
        invariant
            i <= found@.len(),
            place == (|token: Seq<char>| PlacedToken { token, position: position as nat }),
            placed.deep_view() == old(placed).deep_view() + found.deep_view().take(
                i as int,
            ).map_values(place),
        decreases found@.len() - i,
    {
        let ghost before = placed.deep_view();
        placed.push(PositionedToken { token: found[i], position });
        proof {
            let token = found.deep_view()[i as int];
            assert(placed.deep_view() =~= before.push(place(token)));
            assert(found.deep_view().take(i + 1).map_values(place) =~= found.deep_view().take(
                i as int,
            ).map_values(place).push(place(token)));
        }
        i = i + 1;
    }
    assert(found.deep_view().take(found@.len() as int) =~= found.deep_view());
}

proof fn lemma_words_of_components(components: Seq<Seq<char>>, n: nat, factor: nat)
    requires
        n <= components.len(),
        forall|i: int|
            0 <= i < components.len() ==> #[trigger] components[i].len() * factor <= usize::MAX,
    ensures
        forall|i: int|
            0 <= i < words_of_components(components, n).len() ==> {
                let word = #[trigger] words_of_components(components, n)[i];
                word.position <= components.len() * 3 && word.token.len() * factor <= usize::MAX
            },
    decreases n,
{
    if n > 0 {
        let last = components[n - 1];
        let before = words_of_components(components, (n - 1) as nat);
        lemma_words_of_components(components, (n - 1) as nat, factor);
        lemma_tokens_bound(Separator::PathToken, last);
        let words = words_of_components(components, n);
        assert forall|i: int| 0 <= i < words.len() implies #[trigger] words[i].position
            <= components.len() * 3 && words[i].token.len() * factor <= usize::MAX by {
            if i < before.len() {
                assert(words[i] == before[i]);
            } else {
                assert(words[i].token == path_tokens(last)[i - before.len()]);
                lemma_mul_inequality(
                    words[i].token.len() as int,
                    last.len() as int,
                    factor as int,
                );
            }
        }
    }
}

/// The words of all components, each as far from the end as its component is
/// from the last, in steps of three.
fn place_components<'t>(components: &Vec<&'t str>) -> (placed: Vec<PositionedToken<'t>>)
    requires
        3 * components@.len() <= usize::MAX,
    ensures
        placed.deep_view() == words_of_components(components.deep_view(), components@.len()),
{
    let mut placed: Vec<PositionedToken<'t>> = Vec::new();
    let count = components.len();
    let mut idx: usize = 0;
    assert(placed.deep_view() =~= Seq::empty());
    while idx < count
        invariant
            idx <= count,
            count == components@.len(),
            3 * count <= usize::MAX,
            placed.deep_view() == words_of_components(components.deep_view(), idx as nat),
        decreases count - idx,
    {
        let found = split_path_tokens(components[idx]);
        place_tokens(&mut placed, &found, (count - 1 - idx) * 3);
        idx = idx + 1;
    }
    placed
}

/// Replaces what was best so far by the candidate, if that ranks before it.
fn update_best<'a>(best: &mut Option<PathMatch<'a>>, candidate: Option<PathMatch<'a>>)
    ensures
        hit_found(*final(best)) == better(
            path_order(),
            hit_found(*old(best)),
            hit_found(candidate),
        ),
{
    match candidate {
        None => {},
        Some(offered) => {
            let replaces = match best {
                None => true,
                Some(current) => match offered.compare(current) {
                    Ordering::Less => true,
                    _ => false,
                },
            };
            if replaces {
                *best = Some(offered);
            }
        },
    }
}

/// The match of a path with `query`, which counts as `query_len` characters long
/// and may take `limit` edits.
pub open spec fn query_match(
    path: Seq<char>,
    score: Score,
    query: Seq<char>,
    query_len: nat,
    limit: nat,
) -> Option<PathHit> {
    let lowered = lowercase(path);
    let components = tokens(Separator::PathComponent, lowered);
    let path_depth = components.len();
    let search = PathSearch { path, score, query, query_len, limit, path_depth };
    if !any_signals(path_tokens(query), lowered) || components.len() == 0 {
        None
    } else if path_tokens(query).len() == 1 {
        search.word_match(lowered, components)
    } else {
        best_of(path_order(), search.phrase_offers(lowered, components))
    }
}

/// Whether no sum that is formed for the match of a path with `query` is too
/// great for a `usize`.
pub open spec fn query_fits(
    path: Seq<char>,
    score: Score,
    query: Seq<char>,
    query_len: nat,
    limit: nat,
) -> bool {
    let lowered = lowercase(path);
    let components = tokens(Separator::PathComponent, lowered);
    let path_depth = components.len();
    let search = PathSearch { path, score, query, query_len, limit, path_depth };
    any_signals(path_tokens(query), lowered) && components.len() > 0 ==> search.phrase_fits(
        components,
    )
}

/// The match of the basename of a path with `query`, which counts as
/// `query_len` characters long and may take `limit` edits.
pub open spec fn query_basename_match(
    path: Seq<char>,
    score: Score,
    query: Seq<char>,
    query_len: nat,
    limit: nat,
) -> Option<PathHit> {
    let lowered = lowercase(path);
    let components = tokens(Separator::PathComponent, lowered);
    let path_depth = components.len();
    let search = PathSearch { path, score, query, query_len, limit, path_depth };
    if !any_signals(path_tokens(query), lowered) || components.len() == 0 {
        None
    } else {
        best_of(path_order(), search.basename_offers(components.last()))
    }
}

fn best_match_single_token<'a>(
    ctx: &MatchContext<'a, '_>,
    lower_path: &str,
    components: &Vec<&str>,
) -> (best: Option<PathMatch<'a>>)
    requires
        components@.len() > 0,
        3 * components@.len() <= usize::MAX,
        ctx@.phrase_fits(components.deep_view()),
    ensures
        hit_found(best) == ctx@.word_match(lower_path@, components.deep_view()),
{
    let ghost search = ctx@;
    let ghost texts = components.deep_view();
    let basename = components[components.len() - 1];
    assert(texts.last() == basename@);
    let mut best = ctx.candidate_for_text(basename, MatchScope::Basename, 0);
    if let Some(candidate) = &best {
        if candidate.distance <= 1 {
            return best;
        }
    }
    let ghost whole = seq![hit_found(best)];
    let ghost words = search.word_offers(basename@, MatchScope::BasenameToken, 0);
    proof {
        lemma_improved_push(path_order(), None, Seq::empty(), whole[0]);
        assert(Seq::<Option<PathHit>>::empty().push(whole[0]) =~= whole);
        lemma_improved_concat(path_order(), None, whole, words);
    }
    ctx.improve_by_words(&mut best, basename, MatchScope::BasenameToken, 0);
    if let Some(candidate) = &best {
        if candidate.distance <= 1 {
            return best;
        }
    }
    let ghost own = search.basename_offers(basename@);
    let ghost parents = search.parent_offers(texts, (texts.len() - 1) as nat, false);
    ctx.improve_by_parents(&mut best, components, false);
    let full = ctx.candidate_for_text(lower_path, MatchScope::FullPath, components.len());
    update_best(&mut best, full);
    proof {
        lemma_improved_concat(path_order(), None, own, parents);
        lemma_improved_push(path_order(), None, own + parents, hit_found(full));
        assert((own + parents).push(hit_found(full)) =~= own + search.other_offers(
            lower_path@,
            texts,
        ));
    }
    best
}

fn best_phrase_match<'a>(
    ctx: &MatchContext<'a, '_>,
    lower_path: &str,
    components: &Vec<&str>,
) -> (best: Option<PathMatch<'a>>)
    requires
        components@.len() > 0,
        3 * components@.len() <= usize::MAX,
        ctx@.phrase_fits(components.deep_view()),
        4 * lower_path@.len() <= isize::MAX,
        components.deep_view() == tokens(Separator::PathComponent, lower_path@),
    ensures
        hit_found(best) == best_of(
            path_order(),
            ctx@.phrase_offers(lower_path@, components.deep_view()),
        ),
{
    let ghost search = ctx@;
    let ghost texts = components.deep_view();
    let basename = components[components.len() - 1];
    proof {
        assert(texts.last() == basename@);
        lemma_tokens_bound(Separator::PathComponent, lower_path@);
        lemma_basename_fits(path_tokens(ctx.query@), basename@, ctx.limit as nat);
        lemma_basename_compound_fits(search, basename@);
    }
    let scope = MatchScope::Basename;
    let whole = ctx.candidate_for_text(basename, scope, 0);
    let sequence = ctx.candidate_for_token_sequence(basename, scope, 0);
    let compound = ctx.candidate_for_compound_component(basename, scope, 0);
    let across = ctx.candidate_for_component_sequence(components, MatchScope::OtherComponent);
    let mut best = whole;
    update_best(&mut best, sequence);
    update_best(&mut best, compound);
    update_best(&mut best, across);
    let ghost first = seq![
        hit_found(whole),
        hit_found(sequence),
        hit_found(compound),
        hit_found(across),
    ];
    proof {
        lemma_improved_push(path_order(), None, seq![], first[0]);
        lemma_improved_push(path_order(), None, seq![].push(first[0]), first[1]);
        lemma_improved_push(path_order(), None, seq![].push(first[0]).push(first[1]), first[2]);
        lemma_improved_push(
            path_order(),
            None,
            seq![].push(first[0]).push(first[1]).push(first[2]),
            first[3],
        );
        assert(seq![].push(first[0]).push(first[1]).push(first[2]).push(first[3]) =~= first);
        assert(hit_found(best) == best_of(path_order(), first));
    }
    let ghost words = search.word_offers(basename@, MatchScope::BasenameToken, 0);
    let ghost parents = search.parent_offers(texts, (texts.len() - 1) as nat, true);
    ctx.improve_by_words(&mut best, basename, MatchScope::BasenameToken, 0);
    ctx.improve_by_parents(&mut best, components, true);
    let full = ctx.candidate_for_text(lower_path, MatchScope::FullPath, components.len());
    update_best(&mut best, full);
    proof {
        lemma_improved_concat(path_order(), None, first, words);
        lemma_improved_concat(path_order(), None, first + words, parents);
        lemma_improved_push(path_order(), None, first + words + parents, hit_found(full));
        assert((first + words + parents).push(hit_found(full)) =~= search.phrase_offers(
            lower_path@,
            texts,
        ));
    }
    best
}

fn best_match_inner<'a>(
    path: &'a str,
    score: Score,
    query: &str,
    query_len: usize,
    limit: usize,
) -> (best: Option<PathMatch<'a>>)
    requires
        query_fits(path@, score, query@, query_len as nat, limit as nat),
    ensures
        hit_found(best) == query_match(path@, score, query@, query_len as nat, limit as nat),
{
    let lowered = crate::text::to_lowercase(path);
    let lower_path = lowered.as_str();
    let query_tokens = split_path_tokens(query);
    if !has_query_signal(query_tokens.as_slice(), lower_path) {
        return None;
    }
    let components = split_tokens(Separator::PathComponent, lower_path);
    if components.len() == 0 {
        return None;
    }
    let path_depth = components.len();
    let ctx = MatchContext { path, score, query, query_len, limit, path_depth };
    let lower_len: usize = char_count(lower_path);
    proof {
        lemma_tokens_bound(Separator::PathComponent, lower_path@);
        assert(components@.len() <= lower_len);
    }
    if query_tokens.len() == 1 {
        best_match_single_token(&ctx, lower_path, &components)
    } else {
        best_phrase_match(&ctx, lower_path, &components)
    }
}

fn check_query(path: &str, score: Score, query: &str, query_len: usize, limit: usize) -> (answer:
    bool)
    ensures
        answer == query_fits(path@, score, query@, query_len as nat, limit as nat),
{
    let lowered = crate::text::to_lowercase(path);
    let lower_path = lowered.as_str();
    let query_tokens = split_path_tokens(query);
    if !has_query_signal(query_tokens.as_slice(), lower_path) {
        return true;
    }
    let components = split_tokens(Separator::PathComponent, lower_path);
    if components.len() == 0 {
        return true;
    }
    let path_depth = components.len();
    let ctx = MatchContext { path, score, query, query_len, limit, path_depth };
    let lower_len: usize = char_count(lower_path);
    proof {
        lemma_tokens_bound(Separator::PathComponent, lower_path@);
        assert(components@.len() <= lower_len);
    }
    ctx.check_phrase(&components)
}

fn best_basename_match_inner<'a>(
    path: &'a str,
    score: Score,
    query: &str,
    query_len: usize,
    limit: usize,
) -> (best: Option<PathMatch<'a>>)
    ensures
        hit_found(best) == query_basename_match(
            path@,
            score,
            query@,
            query_len as nat,
            limit as nat,
        ),
{
    let lowered = crate::text::to_lowercase(path);
    let lower_path = lowered.as_str();
    let query_tokens = split_path_tokens(query);
    if !has_query_signal(query_tokens.as_slice(), lower_path) {
        return None;
    }
    let components = split_tokens(Separator::PathComponent, lower_path);
    if components.len() == 0 {
        return None;
    }
    let path_depth = components.len();
    let basename = components[path_depth - 1];
    let ctx = MatchContext { path, score, query, query_len, limit, path_depth };
    assert(components.deep_view().last() == basename@);
    let mut best = ctx.candidate_for_text(basename, MatchScope::Basename, 0);
    proof {
        let whole = seq![hit_found(best)];
        let words = ctx@.word_offers(basename@, MatchScope::BasenameToken, 0);
        lemma_improved_push(path_order(), None, Seq::empty(), whole[0]);
        assert(Seq::<Option<PathHit>>::empty().push(whole[0]) =~= whole);
        lemma_improved_concat(path_order(), None, whole, words);
    }
    ctx.improve_by_words(&mut best, basename, MatchScope::BasenameToken, 0);
    best
}

/// A match with `query` where the query lost a space: one edit more.
pub open spec fn with_lost_space(found: Option<PathHit>, query_len: nat, limit: nat) -> Option<
    PathHit,
> {
    match found {
        None => None,
        Some(hit) => {
            let distance = hit.distance + 1;
            if distance > limit {
                None
            } else {
                Some(
                    PathHit {
                        distance,
                        operations: hit.operations.inserted_or_deleted(),
                        ratio: hit.ratio.max(
                            Fraction { numerator: distance, denominator: query_len },
                        ),
                        ..hit
                    },
                )
            }
        },
    }
}

/// What a query of one word may have been before it lost a space.
pub open spec fn variants_of(query: Seq<char>) -> Seq<Seq<char>> {
    if path_tokens(query).len() == 1 {
        spaced_variants(query)
    } else {
        seq![]
    }
}

/// The matches of a path with the query and with what it may have been.
pub open spec fn match_offers(path: Seq<char>, score: Score, query: Seq<char>) -> Seq<
    Option<PathHit>,
> {
    let len = query.len();
    let limit = len / 2;
    seq![query_match(path, score, query, len, limit)] + variants_of(query).map_values(
        |variant: Seq<char>|
            with_lost_space(
                query_match(path, score, variant, len, one_less(limit)),
                len,
                limit,
            ),
    )
}

/// The matches of the basename of a path with the query and with what it may
/// have been.
pub open spec fn basename_match_offers(path: Seq<char>, score: Score, query: Seq<char>) -> Seq<
    Option<PathHit>,
> {
    let len = query.len();
    let limit = len / 2;
    seq![query_basename_match(path, score, query, len, limit)] + variants_of(query).map_values(
        |variant: Seq<char>|
            with_lost_space(
                query_basename_match(path, score, variant, len, one_less(limit)),
                len,
                limit,
            ),
    )
}

/// The best match of a path with a query of two characters or more.
pub open spec fn typo_match(path: Seq<char>, score: Score, query: Seq<char>) -> Option<PathHit> {
    if query.len() <= 1 {
        None
    } else {
        best_of(path_order(), match_offers(path, score, query))
    }
}

/// The best match of the basename of a path with a query of two characters or
/// more.
pub open spec fn basename_typo_match(path: Seq<char>, score: Score, query: Seq<char>) -> Option<
    PathHit,
> {
    if query.len() <= 1 {
        None
    } else {
        best_of(path_order(), basename_match_offers(path, score, query))
    }
}

/// Whether no sum that is formed for the match of a path with the query, or with
/// what it may have been, is too great for a `usize`.
pub open spec fn match_fits(path: Seq<char>, score: Score, query: Seq<char>) -> bool {
    let len = query.len();
    let limit = len / 2;
    len > 1 ==> {
        &&& query_fits(path, score, query, len, limit)
        &&& forall|i: int|
            0 <= i < variants_of(query).len() ==> #[trigger] query_fits(
                path,
                score,
                variants_of(query)[i],
                len,
                one_less(limit),
            )
    }
}

/// The sums fit where the product of the lengths, with three and two more for
/// each character of the path, does.
pub proof fn small_match_fits(path: Seq<char>, score: Score, query: Seq<char>)
    requires
        (3 * lowercase(path).len() + 2) * (query.len() + 1) <= usize::MAX,
    ensures
        match_fits(path, score, query),
{
    let len = query.len();
    let limit = len / 2;
    let width = 3 * lowercase(path).len() + 2;
    assert(width * len <= width * (len + 1)) by (nonlinear_arith);
    lemma_query_fits(path, score, query, len, limit);
    let variants = variants_of(query);
    assert forall|i: int| 0 <= i < variants.len() implies #[trigger] query_fits(
        path,
        score,
        variants[i],
        len,
        one_less(limit),
    ) by {
        assert(variants[i].len() == len + 1);
        lemma_query_fits(path, score, variants[i], len, one_less(limit));
    }
}

proof fn lemma_query_fits(
    path: Seq<char>,
    score: Score,
    query: Seq<char>,
    query_len: nat,
    limit: nat,
)
    requires
        (3 * lowercase(path).len() + 2) * query.len() <= usize::MAX,
    ensures
        query_fits(path, score, query, query_len, limit),
{
    let lowered = lowercase(path);
    let components = tokens(Separator::PathComponent, lowered);
    let search = PathSearch { path, score, query, query_len, limit, path_depth: components.len() };
    let words = path_tokens(query);
    let placed = words_of_components(components, components.len());
    let (len, depth) = (query.len(), components.len());
    lemma_tokens_bound(Separator::PathComponent, lowered);
    lemma_tokens_bound(Separator::PathToken, query);
    assert((3 * depth + 2) * words.len() <= (3 * lowered.len() + 2) * len) by (nonlinear_arith)
        requires
            depth <= lowered.len(),
            words.len() <= len,
    ;
    assert forall|i: int| 0 <= i < components.len() implies #[trigger] components[i].len()
        * words.len() <= usize::MAX by {
        let part = components[i].len();
        assert(part * words.len() <= (3 * lowered.len() + 2) * len) by (nonlinear_arith)
            requires
                part <= lowered.len(),
                words.len() <= len,
        ;
    }
    lemma_words_of_components(components, components.len(), words.len());
    assert forall|i: int| 0 <= i < placed.len() implies #[trigger] placed[i].position <= depth * 3
        && words.len() * placed[i].token.len() <= usize::MAX by {
        vstd::arithmetic::mul::lemma_mul_is_commutative(
            words.len() as int,
            placed[i].token.len() as int,
        );
    }
    assert(words.len() * (depth * 3 + 2) == (3 * depth + 2) * words.len()) by (nonlinear_arith);
    lemma_alignments_fit(words, placed, depth * 3, limit);
    assert forall|i: int| 0 <= i < components.len() - 1 implies hit_fits(
        #[trigger] search.parent_compound_offer(components, i),
    ) by {
        let position = (components.len() - 1 - i) as nat;
        let count = words.len();
        lemma_split_total(words, components[i]);
        assert(position * 3 * count + 2 * count <= (3 * depth + 2) * count) by (nonlinear_arith)
            requires
                position <= depth,
        ;
    }
}

/// The sums of a run of the words of one text, all at its position, fit.
proof fn lemma_basename_fits(query: Seq<Seq<char>>, text: Seq<char>, limit: nat)
    requires
        4 * text.len() <= isize::MAX,
    ensures
        query.len() <= path_tokens(text).len() ==> run_fits(query, placed_words(text, 0), 0, limit),
{
    let words = placed_words(text, 0);
    let texts = path_tokens(text);
    if query.len() <= texts.len() {
        lemma_tokens_bound(Separator::PathToken, text);
        tokens_keep_all_but_separators(Separator::PathToken, text);
        text.lemma_filter_len(|c: char| !Separator::PathToken.divides(c));
        assert(texts.take(texts.len() as int) =~= texts);
        assert forall|count: nat| count <= query.len() implies #[trigger] run_fits_so_far(
            query,
            words,
            0,
            limit,
            count,
        ) by {
            lemma_run_is_bounded(query, words, 0, count);
            lemma_bounds_of_words(text, count, texts.len());
        }
    }
}

/// The position of a match with parts of the basename fits.
proof fn lemma_basename_compound_fits(search: PathSearch, text: Seq<char>)
    requires
        4 * text.len() <= isize::MAX,
    ensures
        hit_fits(search.compound_offer(text, MatchScope::Basename, 0)),
{
    let words = path_tokens(search.query);
    lemma_split_total(words, text);
    let none: nat = 0;
    assert(none * 3 * words.len() == 0) by (nonlinear_arith)
        requires
            none == 0,
    ;
}

proof fn lemma_bounds_of_words(text: Seq<char>, count: nat, more: nat)
    requires
        count <= more <= path_tokens(text).len(),
    ensures
        position_bound(placed_words(text, 0), 0, count) == 2 * count,
        length_bound(placed_words(text, 0), 0, count) <= path_tokens(text).take(
            more as int,
        ).flatten().len(),
    decreases more,
{
    let texts = path_tokens(text);
    if more > 0 {
        let shorter = texts.take(more - 1);
        assert(texts.take(more as int) =~= shorter.push(texts[more - 1]));
        shorter.lemma_flatten_push(texts[more - 1]);
        if count == more {
            lemma_bounds_of_words(text, (count - 1) as nat, (more - 1) as nat);
            assert(placed_words(text, 0)[count - 1].token == texts[count - 1]);
        } else {
            lemma_bounds_of_words(text, count, (more - 1) as nat);
        }
    }
}

impl PathSearch {
    /// Whether `hit` is a match of the path within the limit.
    pub open spec fn admits(self, hit: PathHit) -> bool {
        &&& hit.path == self.path
        &&& hit.score == self.score
        &&& hit.path_depth == self.path_depth
        &&& hit.distance == hit.operations.total()
        &&& hit.distance <= self.limit
        &&& !hit.ratio.over_half()
    }

    spec fn admits_all(self, offers: Seq<Option<PathHit>>) -> bool {
        forall|i: int|
            0 <= i < offers.len() ==> (#[trigger] offers[i] matches Some(hit) ==> self.admits(hit))
    }

    proof fn lemma_admits_all(self, lowered: Seq<char>, components: Seq<Seq<char>>)
        requires
            components.len() > 0,
        ensures
            self.admits_all(self.phrase_offers(lowered, components)),
            self.admits_all(self.basename_offers(components.last())),
            self.admits_all(self.other_offers(lowered, components)),
    {
        let n = (components.len() - 1) as nat;
        let basename = components.last();
        let query = path_tokens(self.query);
        lemma_alignment_total(query, placed_words(basename, 0));
        lemma_alignment_total(query, words_of_components(components, components.len()));
        lemma_split_total(query, basename);
        self.lemma_admits_words(basename, MatchScope::BasenameToken, 0);
        self.lemma_admits_parents(components, n, true);
        self.lemma_admits_parents(components, n, false);
        let first = seq![
            self.text_offer(basename, MatchScope::Basename, 0),
            self.sequence_offer(basename, MatchScope::Basename, 0),
            self.compound_offer(basename, MatchScope::Basename, 0),
            self.components_offer(components, MatchScope::OtherComponent),
        ];
        assert(self.admits_all(first));
    }

    proof fn lemma_admits_words(self, text: Seq<char>, scope: MatchScope, position: nat)
        ensures
            self.admits_all(self.word_offers(text, scope, position)),
    {
        let offers = self.word_offers(text, scope, position);
        assert forall|i: int| 0 <= i < offers.len() implies (
        #[trigger] offers[i] matches Some(hit) ==> self.admits(hit)) by {
            assert(offers[i] == self.text_offer(path_tokens(text)[i], scope, position));
        }
    }

    proof fn lemma_admits_parents(self, components: Seq<Seq<char>>, n: nat, compound: bool)
        ensures
            self.admits_all(self.parent_offers(components, n, compound)),
        decreases n,
    {
        if n > 0 {
            let component = components[n - 1];
            let position = (components.len() - n) as nat;
            self.lemma_admits_parents(components, (n - 1) as nat, compound);
            self.lemma_admits_words(component, MatchScope::OtherComponentToken, position);
            lemma_split_total(path_tokens(self.query), component);
            let before = self.parent_offers(components, (n - 1) as nat, compound);
            let offers = self.component_offers(component, position, compound);
            assert(self.admits_all(offers));
            assert(self.admits_all(before + offers));
        }
    }
}

/// Whether `hit` is a match of the path within `limit` edits and with no more
/// than half mistyped.
pub open spec fn is_match_of(path: Seq<char>, score: Score, limit: nat, hit: PathHit) -> bool {
    let path_depth = tokens(Separator::PathComponent, lowercase(path)).len();
    let (query, query_len) = (Seq::<char>::empty(), 0nat);
    (PathSearch { path, score, query, query_len, limit, path_depth }).admits(hit)
}

proof fn lemma_query_matches(
    path: Seq<char>,
    score: Score,
    query: Seq<char>,
    query_len: nat,
    limit: nat,
)
    ensures
        query_match(path, score, query, query_len, limit) matches Some(hit) ==> is_match_of(
            path,
            score,
            limit,
            hit,
        ),
        query_basename_match(path, score, query, query_len, limit) matches Some(hit)
            ==> is_match_of(path, score, limit, hit),
{
    let lowered = lowercase(path);
    let components = tokens(Separator::PathComponent, lowered);
    let path_depth = components.len();
    let search = PathSearch { path, score, query, query_len, limit, path_depth };
    if components.len() > 0 {
        let own = search.basename_offers(components.last());
        let other = search.other_offers(lowered, components);
        search.lemma_admits_all(lowered, components);
        assert(search.admits_all(own + other));
        assert(own[0] == search.text_offer(components.last(), MatchScope::Basename, 0));
        path_ranking_is_weak_order();
        best_of_is_first_best(path_order(), search.phrase_offers(lowered, components));
        best_of_is_first_best(path_order(), own);
        best_of_is_first_best(path_order(), own + other);
    }
}

proof fn lemma_lost_space(
    path: Seq<char>,
    score: Score,
    query_len: nat,
    limit: nat,
    found: Option<PathHit>,
)
    requires
        2 * limit <= query_len,
        found matches Some(hit) ==> is_match_of(path, score, one_less(limit), hit),
    ensures
        with_lost_space(found, query_len, limit) matches Some(hit) ==> is_match_of(
            path,
            score,
            limit,
            hit,
        ),
{
}

/// A match, if there is one, is of the path and score that were asked about, is
/// within half the query's length in edits, counts each edit once, and has no
/// more than half of what was compared mistyped.
pub proof fn typo_match_is_within_limit(path: Seq<char>, score: Score, query: Seq<char>)
    ensures
        typo_match(path, score, query) matches Some(hit) ==> is_match_of(
            path,
            score,
            query.len() / 2,
            hit,
        ),
        basename_typo_match(path, score, query) matches Some(hit) ==> is_match_of(
            path,
            score,
            query.len() / 2,
            hit,
        ),
{
    let len = query.len();
    let limit = len / 2;
    let offers = match_offers(path, score, query);
    let basename_offers = basename_match_offers(path, score, query);
    lemma_query_matches(path, score, query, len, limit);
    assert forall|i: int| 0 <= i < offers.len() implies {
        &&& #[trigger] offers[i] matches Some(hit) ==> is_match_of(path, score, limit, hit)
        &&& basename_offers[i] matches Some(hit) ==> is_match_of(path, score, limit, hit)
    } by {
        if i > 0 {
            let variant = variants_of(query)[i - 1];
            let less = one_less(limit);
            let found = query_match(path, score, variant, len, less);
            let basename_found = query_basename_match(path, score, variant, len, less);
            lemma_query_matches(path, score, variant, len, less);
            lemma_lost_space(path, score, len, limit, found);
            lemma_lost_space(path, score, len, limit, basename_found);
        }
    }
    path_ranking_is_weak_order();
    best_of_is_first_best(path_order(), offers);
    best_of_is_first_best(path_order(), basename_offers);
    assert(offers.len() == basename_offers.len());
    if let Some(hit) = best_of(path_order(), basename_offers) {
        let place = choose|place: int| is_first_best(path_order(), basename_offers, place, hit);
        assert(offers[place] == offers[place]);
    }
}

/// A query, prepared for many paths.
pub struct TypoQuery {
    text: String,
    len: usize,
    limit: usize,
    token_count: usize,
    separator_variants: Vec<String>,
}

impl View for TypoQuery {
    type V = Seq<char>;

    closed spec fn view(&self) -> Seq<char> {
        self.text@
    }
}

impl TypoQuery {
    #[verifier::type_invariant]
    spec fn is_prepared(self) -> bool {
        &&& self.len == self.text@.len()
        &&& self.len > 1
        &&& self.limit == self.len / 2
        &&& self.token_count == path_tokens(self.text@).len()
        &&& self.separator_variants.deep_view() == variants_of(self.text@)
    }

    /// The query prepared, if it has two characters or more.
    pub fn new(query: &str) -> (prepared: Option<Self>)
        ensures
            prepared is Some <==> query@.len() > 1,
            prepared matches Some(typo_query) ==> typo_query@ == query@,
    {
        let len = query.unicode_len();
        if len <= 1 {
            return None;
        }
        let token_count = split_path_tokens(query).len();
        let variants = if token_count == 1 {
            separator_variants(query)
        } else {
            let none: Vec<String> = Vec::new();
            assert(none.deep_view() =~= Seq::<Seq<char>>::empty());
            none
        };
        Some(
            TypoQuery {
                text: query.to_owned(),
                len,
                limit: max_typos(len),
                token_count,
                separator_variants: variants,
            },
        )
    }

    /// The best match of `path` with the query.
    pub fn best_match<'a>(&self, path: &'a str, score: Score) -> (best: Option<PathMatch<'a>>)
        requires
            match_fits(path@, score, self@),
        ensures
            hit_found(best) == typo_match(path@, score, self@),
    {
        proof {
            use_type_invariant(self);
        }
        let mut best = best_match_inner(path, score, self.text.as_str(), self.len, self.limit);
        let ghost offers = match_offers(path@, score, self@);
        let ghost variants = variants_of(self@);
        proof {
            lemma_improved_push(path_order(), None, Seq::empty(), offers[0]);
            assert(offers.take(1) =~= Seq::<Option<PathHit>>::empty().push(offers[0]));
        }
        let limit = self.limit.saturating_sub(1);
        let mut i: usize = 0;
        while i < self.separator_variants.len()
            invariant
                i <= self.separator_variants@.len() == variants.len(),
                variants == variants_of(self@),
                self.separator_variants.deep_view() == variants,
                offers == match_offers(path@, score, self@),
                self.len == self@.len(),
                self.len > 1,
                self.limit == self.len / 2,
                limit == one_less(self.limit as nat),
                match_fits(path@, score, self@),
                hit_found(best) == improved(path_order(), None, offers.take(i + 1)),
            decreases variants.len() - i,
        {
            let variant = self.separator_variants[i].as_str();
            assert(variants[i as int] == variant@);
            let found = best_match_inner(path, score, variant, self.len, limit);
            proof {
                lemma_query_matches(
                    path@,
                    score,
                    variant@,
                    self.len as nat,
                    limit as nat,
                );
            }
            let candidate = count_lost_space(found, self.len, self.limit);
            update_best(&mut best, candidate);
            proof {
                assert(offers[i + 1] == hit_found(candidate));
                assert(offers.take(i + 2) =~= offers.take(i + 1).push(offers[i + 1]));
                lemma_improved_push(path_order(), None, offers.take(i + 1), offers[i + 1]);
            }
            i = i + 1;
        }
        assert(offers.take(i + 1) =~= offers);
        best
    }

    /// Whether no sum that is formed for the match of `path` is too great.
    fn check_match(&self, path: &str, score: Score) -> (answer: bool)
        ensures
            answer == match_fits(path@, score, self@),
    {
        proof {
            use_type_invariant(self);
        }
        let ghost variants = variants_of(self@);
        if !check_query(path, score, self.text.as_str(), self.len, self.limit) {
            return false;
        }
        let limit = self.limit.saturating_sub(1);
        let mut i: usize = 0;
        while i < self.separator_variants.len()
            invariant
                i <= self.separator_variants@.len() == variants.len(),
                variants == variants_of(self@),
                self.separator_variants.deep_view() == variants,
                self.len == self@.len(),
                self.len > 1,
                self.limit == self.len / 2,
                limit == one_less(self.limit as nat),
                forall|k: int|
                    0 <= k < i ==> #[trigger] query_fits(
                        path@,
                        score,
                        variants[k],
                        self.len as nat,
                        limit as nat,
                    ),
            decreases variants.len() - i,
        {
            let variant = self.separator_variants[i].as_str();
            assert(variants[i as int] == variant@);
            if !check_query(path, score, variant, self.len, limit) {
                return false;
            }
            i = i + 1;
        }
        true
    }

    /// The best match of the basename of `path` with the query.
    pub fn best_basename_match<'a>(&self, path: &'a str, score: Score) -> (best: Option<
        PathMatch<'a>,
    >)
        ensures
            hit_found(best) == basename_typo_match(path@, score, self@),
    {
        proof {
            use_type_invariant(self);
        }
        let mut best = best_basename_match_inner(
            path,
            score,
            self.text.as_str(),
            self.len,
            self.limit,
        );
        let ghost offers = basename_match_offers(path@, score, self@);
        let ghost variants = variants_of(self@);
        proof {
            lemma_improved_push(path_order(), None, Seq::empty(), offers[0]);
            assert(offers.take(1) =~= Seq::<Option<PathHit>>::empty().push(offers[0]));
        }
        let limit = self.limit.saturating_sub(1);
        let mut i: usize = 0;
        while i < self.separator_variants.len()
            invariant
                i <= self.separator_variants@.len() == variants.len(),
                variants == variants_of(self@),
                self.separator_variants.deep_view() == variants,
                offers == basename_match_offers(path@, score, self@),
                self.len == self@.len(),
                self.limit == self.len / 2,
                limit == one_less(self.limit as nat),
                hit_found(best) == improved(path_order(), None, offers.take(i + 1)),
            decreases variants.len() - i,
        {
            let variant = self.separator_variants[i].as_str();
            assert(variants[i as int] == variant@);
            let found = best_basename_match_inner(path, score, variant, self.len, limit);
            proof {
                lemma_query_matches(
                    path@,
                    score,
                    variant@,
                    self.len as nat,
                    limit as nat,
                );
            }
            let candidate = count_lost_space(found, self.len, self.limit);
            update_best(&mut best, candidate);
            proof {
                assert(offers[i + 1] == hit_found(candidate));
                assert(offers.take(i + 2) =~= offers.take(i + 1).push(offers[i + 1]));
                lemma_improved_push(path_order(), None, offers.take(i + 1), offers[i + 1]);
            }
            i = i + 1;
        }
        assert(offers.take(i + 1) =~= offers);
        best
    }
}

/// The match with one edit more, for the space that was put in, if that is
/// within the limit.
fn count_lost_space<'a>(found: Option<PathMatch<'a>>, query_len: usize, limit: usize) -> (counted:
    Option<PathMatch<'a>>)
    requires
        found matches Some(hit) ==> hit@.distance == hit@.operations.total() && hit.distance
            <= limit,
    ensures
        hit_found(counted) == with_lost_space(hit_found(found), query_len as nat, limit as nat),
{
    match found {
        None => None,
        Some(hit) => {
            if hit.distance >= limit {
                return None;
            }
            let distance = hit.distance + 1;
            let share = Ratio { numerator: distance, denominator: query_len };
            Some(
                PathMatch {
                    distance,
                    operations: hit.operations.with_insert_delete(),
                    ratio: hit.ratio.max(share),
                    ..hit
                },
            )
        },
    }
}

/// The best match of `path` with `query`, if that has two characters or more.
pub fn best_match<'a>(path: &'a str, score: Score, query: &str) -> (best: Option<PathMatch<'a>>)
    requires
        match_fits(path@, score, query@),
    ensures
        hit_found(best) == typo_match(path@, score, query@),
{
    match TypoQuery::new(query) {
        None => None,
        Some(prepared) => prepared.best_match(path, score),
    }
}

/// [`best_match`] where its sums fit, else `None`.
pub fn try_best_match<'a>(path: &'a str, score: Score, query: &str) -> (answer: Option<
    Option<PathMatch<'a>>,
>)
    ensures
        answer is Some <==> match_fits(path@, score, query@),
        answer matches Some(best) ==> hit_found(best) == typo_match(path@, score, query@),
{
    let lowered = crate::text::to_lowercase(path);
    let width: usize = 3 * char_count(lowered.as_str()) + 2;
    let count: usize = char_count(query) + 1;
    if width.checked_mul(count).is_some() {
        proof {
            small_match_fits(path@, score, query@);
        }
    } else if let Some(prepared) = TypoQuery::new(query) {
        if !prepared.check_match(path, score) {
            return None;
        }
    }
    Some(best_match(path, score, query))
}

/// The best match is one of the matches with the query and with what it may have
/// been, none of them ranks before it, and it ranks before all that were tried
/// earlier. There is none only if nothing matches.
pub proof fn typo_match_is_first_best(path: Seq<char>, score: Score, query: Seq<char>)
    requires
        query.len() > 1,
    ensures
        typo_match(path, score, query) is None <==> forall|i: int|
            0 <= i < match_offers(path, score, query).len() ==> #[trigger] match_offers(
                path,
                score,
                query,
            )[i] is None,
        typo_match(path, score, query) matches Some(hit) ==> exists|place: int|
            is_first_best(path_order(), match_offers(path, score, query), place, hit),
        basename_typo_match(path, score, query) is None <==> forall|i: int|
            0 <= i < basename_match_offers(path, score, query).len()
                ==> #[trigger] basename_match_offers(path, score, query)[i] is None,
        basename_typo_match(path, score, query) matches Some(hit) ==> exists|place: int|
            is_first_best(path_order(), basename_match_offers(path, score, query), place, hit),
{
    path_ranking_is_weak_order();
    best_of_is_first_best(path_order(), match_offers(path, score, query));
    best_of_is_first_best(path_order(), basename_match_offers(path, score, query));
}

/// Whether `hit` is a match of the basename or a word of it, with nothing to say
/// of position and structure.
pub open spec fn is_basename_hit(hit: PathHit) -> bool {
    &&& hit.scope == MatchScope::Basename || hit.scope == MatchScope::BasenameToken
    &&& hit.path_position == 0
    &&& hit.structure == 0
}

/// A match of the basename is of the path and score that were asked about, in
/// the basename or a word of it, at position 0 and with structure 0, and the
/// path then matches too.
pub proof fn basename_match_is_match_of_path(path: Seq<char>, score: Score, query: Seq<char>)
    ensures
        basename_typo_match(path, score, query) matches Some(hit) ==> {
            &&& is_basename_hit(hit)
            &&& hit.path == path
            &&& hit.score == score
            &&& hit.path_depth == tokens(Separator::PathComponent, lowercase(path)).len()
            &&& typo_match(path, score, query) is Some
        },
{
    typo_match_is_within_limit(path, score, query);
    if let Some(hit) = basename_typo_match(path, score, query) {
        let (len, limit) = (query.len(), query.len() / 2);
        let offers = basename_match_offers(path, score, query);
        typo_match_is_first_best(path, score, query);
        let place = choose|place: int| is_first_best(path_order(), offers, place, hit);
        if place == 0 {
            lemma_basename_is_matched(path, score, query, len, limit);
            assert(match_offers(path, score, query)[0] is Some);
        } else {
            let variant = variants_of(query)[place - 1];
            let less = one_less(limit);
            assert(offers[place] == with_lost_space(
                query_basename_match(path, score, variant, len, less),
                len,
                limit,
            ));
            lemma_basename_is_matched(path, score, variant, len, less);
            lemma_query_matches(path, score, variant, len, less);
            assert(match_offers(path, score, query)[place] is Some);
        }
    }
}

proof fn lemma_basename_is_matched(
    path: Seq<char>,
    score: Score,
    query: Seq<char>,
    query_len: nat,
    limit: nat,
)
    ensures
        query_basename_match(path, score, query, query_len, limit) matches Some(hit)
            ==> is_basename_hit(hit) && query_match(path, score, query, query_len, limit) is Some,
{
    let lowered = lowercase(path);
    let components = tokens(Separator::PathComponent, lowered);
    let path_depth = components.len();
    let search = PathSearch { path, score, query, query_len, limit, path_depth };
    let own = search.basename_offers(components.last());
    if let Some(hit) = query_basename_match(path, score, query, query_len, limit) {
        path_ranking_is_weak_order();
        best_of_is_first_best(path_order(), own);
        let place = choose|place: int| is_first_best(path_order(), own, place, hit);
        assert(own[place] is Some);
        if place > 0 {
            let word = path_tokens(components.last())[place - 1];
            assert(own[place] == search.text_offer(word, MatchScope::BasenameToken, 0));
        }
        word_match_is_close_or_first_best(search, lowered, components);
        let phrases = search.phrase_offers(lowered, components);
        best_of_is_first_best(path_order(), phrases);
        assert(own[place] == phrases[if place == 0 {
            0
        } else {
            place + 3
        }]);
    }
}

/// Nothing that a query of several words can match in a path ranks before its
/// match.
pub proof fn phrase_match_is_first_best(
    search: PathSearch,
    lowered: Seq<char>,
    components: Seq<Seq<char>>,
)
    ensures
        ({
            let offers = search.phrase_offers(lowered, components);
            best_of(path_order(), offers) matches Some(hit) ==> exists|place: int|
                is_first_best(path_order(), offers, place, hit)
        }),
{
    path_ranking_is_weak_order();
    best_of_is_first_best(path_order(), search.phrase_offers(lowered, components));
}

/// The match of a query of one word takes one edit or less with the basename or a
/// word of it, or nothing that the query can match in the path ranks before it.
pub proof fn word_match_is_close_or_first_best(
    search: PathSearch,
    lowered: Seq<char>,
    components: Seq<Seq<char>>,
)
    ensures
        ({
            let own = search.basename_offers(components.last());
            let all = own + search.other_offers(lowered, components);
            search.word_match(lowered, components) matches Some(hit) ==> {
                ||| hit.distance <= 1 && own.contains(Some(hit))
                ||| exists|place: int| is_first_best(path_order(), all, place, hit)
            }
        }),
        search.word_match(lowered, components) is None ==> forall|i: int|
            0 <= i < search.basename_offers(components.last()).len()
                ==> #[trigger] search.basename_offers(components.last())[i] is None,
{
    let own = search.basename_offers(components.last());
    let all = own + search.other_offers(lowered, components);
    path_ranking_is_weak_order();
    best_of_is_first_best(path_order(), own);
    best_of_is_first_best(path_order(), all);
    assert(own[0] == search.text_offer(components.last(), MatchScope::Basename, 0));
    assert forall|i: int| 0 <= i < own.len() implies #[trigger] own[i] == all[i] by {}
}

/// A query of one word that lost a space matches what it would have matched with
/// the space, at one edit more or better.
pub proof fn lost_space_is_forgiven(path: Seq<char>, score: Score, query: Seq<char>, k: int)
    requires
        query.len() > 1,
        0 <= k < variants_of(query).len(),
    ensures
        ({
            let limit = query.len() / 2;
            query_match(
                path,
                score,
                variants_of(query)[k],
                query.len(),
                one_less(limit),
            ) matches Some(hit) ==> (typo_match(path, score, query) matches Some(best)
                && best.distance <= hit.distance + 1)
        }),
{
    let limit = query.len() / 2;
    let variant = variants_of(query)[k];
    let offers = match_offers(path, score, query);
    let found = query_match(path, score, variant, query.len(), one_less(limit));
    assert(offers[k + 1] == with_lost_space(found, query.len(), limit));
    lemma_query_matches(path, score, variant, query.len(), one_less(limit));
    path_ranking_is_weak_order();
    best_of_is_first_best(path_order(), offers);
    if let Some(hit) = found {
        assert(offers[k + 1] is Some);
    }
}

/// For one query, the same text ranks the better the nearer to the end of its
/// path it stands, whatever the scores: the basename before any parent.
pub proof fn nearer_text_ranks_first(
    search: PathSearch,
    scope: MatchScope,
    position: nat,
    other: PathSearch,
    other_scope: MatchScope,
    other_position: nat,
    text: Seq<char>,
)
    requires
        search.query == other.query,
        search.query_len == other.query_len,
        search.limit == other.limit,
        position < other_position,
    ensures
        search.text_offer(text, scope, position) is Some <==> other.text_offer(
            text,
            other_scope,
            other_position,
        ) is Some,
        search.text_offer(text, scope, position) matches Some(hit) ==> hit.ranks_before(
            other.text_offer(text, other_scope, other_position)->0,
        ),
{
}

/// Matches that rank between two ambiguous ones are ambiguous with them.
pub proof fn ambiguity_is_contiguous(first: PathHit, between: PathHit, last: PathHit)
    requires
        first.key().ties(last.key()),
        !between.ranks_before(first),
        !last.ranks_before(between),
    ensures
        first.key().ties(between.key()),
        between.key().ties(last.key()),
{
}

/// A query of one or more words that is the basename in lower case matches it
/// without an edit.
pub proof fn basename_matches_itself(path: Seq<char>, score: Score)
    requires
        ({
            let components = tokens(Separator::PathComponent, lowercase(path));
            &&& components.len() > 0
            &&& components.last().len() > 1
            &&& path_tokens(components.last()).len() > 0
        }),
    ensures
        ({
            let query = tokens(Separator::PathComponent, lowercase(path)).last();
            typo_match(path, score, query) matches Some(hit) && hit.distance == 0
        }),
{
    let lowered = lowercase(path);
    let components = tokens(Separator::PathComponent, lowered);
    let query = components.last();
    let (query_len, limit, path_depth) = (query.len(), query.len() / 2, components.len());
    let search = PathSearch { path, score, query, query_len, limit, path_depth };
    lemma_basename_signals(lowered);
    edit_cost_is_zero_iff_equal(query, query);
    let whole = search.text_offer(query, MatchScope::Basename, 0);
    assert(edit_cost(query, query).total() == 0);
    assert(whole is Some && whole->0.distance == 0);
    path_ranking_is_weak_order();
    if path_tokens(query).len() != 1 {
        let offers = search.phrase_offers(lowered, components);
        assert(offers[0] == whole);
        best_of_is_first_best(path_order(), offers);
    }
    let found = query_match(path, score, query, query_len, limit);
    assert(found is Some && found->0.distance == 0);
    let offers = match_offers(path, score, query);
    assert(offers[0] == found);
    best_of_is_first_best(path_order(), offers);
}

proof fn lemma_basename_signals(lowered: Seq<char>)
    requires
        tokens(Separator::PathComponent, lowered).len() > 0,
        path_tokens(tokens(Separator::PathComponent, lowered).last()).len() > 0,
    ensures
        any_signals(path_tokens(tokens(Separator::PathComponent, lowered).last()), lowered),
{
    let basename = tokens(Separator::PathComponent, lowered).last();
    let token = path_tokens(basename)[0];
    let component_runs = runs(Separator::PathComponent, lowered, lowered.len());
    let token_runs = runs(Separator::PathToken, basename, basename.len());
    runs_are_maximal(Separator::PathComponent, lowered, lowered.len());
    runs_are_maximal(Separator::PathToken, basename, basename.len());
    let outer = component_runs[component_runs.len() - 1];
    let inner = token_runs[0];
    assert forall|k: int| 0 <= k < token.len() implies lowered.contains(#[trigger] token[k]) by {
        assert(token[k] == basename[inner.0 + k]);
        assert(basename[inner.0 + k] == lowered[outer.0 + inner.0 + k]);
    }
    lemma_all_pairs_shared(token, lowered, (token.len() - 1) as nat);
    assert(signals(path_tokens(basename)[0], lowered));
}

proof fn lemma_all_pairs_shared(token: Seq<char>, candidate: Seq<char>, pairs: nat)
    requires
        pairs < token.len(),
        forall|k: int| 0 <= k < token.len() ==> candidate.contains(#[trigger] token[k]),
    ensures
        shared_pairs(token, candidate, pairs) == pairs,
    decreases pairs,
{
    if pairs > 0 {
        lemma_all_pairs_shared(token, candidate, (pairs - 1) as nat);
        assert(candidate.contains(token[pairs as int]));
    }
}

/// The words with a space between each two.
pub open spec fn spaced(words: Seq<Seq<char>>) -> Seq<char>
    decreases words.len(),
{
    if words.len() == 0 {
        seq![]
    } else if words.len() == 1 {
        words[0]
    } else {
        spaced(words.drop_last()).push(' ') + words.last()
    }
}

/// The query that keywords make: the keywords in lower case with a space between
/// each two. There is none if there is no keyword or one is empty.
pub open spec fn keywords_query(keywords: Seq<Seq<char>>) -> Option<Seq<char>> {
    if keywords.len() == 0 || exists|i: int|
        0 <= i < keywords.len() && (#[trigger] keywords[i]).len() == 0 {
        None
    } else {
        Some(spaced(keywords.map_values(|keyword: Seq<char>| lowercase(keyword))))
    }
}

/// A result as a text.
pub open spec fn text_found(found: Option<String>) -> Option<Seq<char>> {
    match found {
        Some(text) => Some(text@),
        None => None,
    }
}

/// The query that keywords make: the keywords in lower case with a space between
/// each two. `None` if there is no keyword or one is empty.
pub fn query_from_keywords(keywords: &[String]) -> (query: Option<String>)
    ensures
        text_found(query) == keywords_query(keywords.deep_view()),
{
    if keywords.len() == 0 {
        return None;
    }
    let ghost words = keywords.deep_view();
    let ghost lowered = words.map_values(|keyword: Seq<char>| lowercase(keyword));
    let mut query = String::new();
    let mut i: usize = 0;
    while i < keywords.len()
        invariant
            i <= keywords@.len(),
            words == keywords.deep_view(),
            lowered == words.map_values(|keyword: Seq<char>| lowercase(keyword)),
            forall|k: int| 0 <= k < i ==> (#[trigger] words[k]).len() > 0,
            query@ == spaced(lowered.take(i as int)),
        decreases keywords@.len() - i,
    {
        let keyword = keywords[i].as_str();
        assert(words[i as int] == keyword@);
        if keyword.unicode_len() == 0 {
            return None;
        }
        if i > 0 {
            query.push(' ');
        }
        let lower = crate::text::to_lowercase(keyword);
        query.append(lower.as_str());
        proof {
            assert(lowered.take(i + 1).drop_last() =~= lowered.take(i as int));
            assert(lowered.take(i + 1).last() == lower@);
            if i == 0 {
                assert(query@ =~= lower@);
            }
        }
        i = i + 1;
    }
    assert(lowered.take(keywords@.len() as int) =~= lowered);
    Some(query)
}

} // verus!
