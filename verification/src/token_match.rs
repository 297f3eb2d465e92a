//! Typo matching of single tokens and of sequences of tokens.

use vstd::prelude::*;
use vstd::slice::slice_subrange;

use crate::distance::{
    bounded_chars_distance, edit_cost, edit_cost_is_bounded_by_lengths, EditCost, OperationProfile,
};
use crate::order::lemma_least_exists;
use crate::unicode::{chars_of, chars_of_each, texts_of};

verus! {

/// How well a query token matches some part of a candidate token.
pub struct TokenMatch {
    /// The edit distance between the query and the part.
    pub distance: nat,
    /// How many characters of the candidate lie outside the part.
    pub penalty: nat,
    /// 0 for a part at the start, 1 for one at the end, 2 for one in between.
    pub position_rank: nat,
    /// The length of the part.
    pub len: nat,
    /// The edits between the query and the part.
    pub operations: EditCost,
}

impl TokenMatch {
    /// The better match comes first.
    pub open spec fn ranks_before(self, other: TokenMatch) -> bool {
        ||| self.distance < other.distance
        ||| self.distance == other.distance && {
            ||| self.penalty < other.penalty
            ||| self.penalty == other.penalty && {
                ||| self.position_rank < other.position_rank
                ||| self.position_rank == other.position_rank && {
                    ||| self.len < other.len
                    ||| self.len == other.len && self.operations.ranks_before(other.operations)
                }
            }
        }
    }
}

/// Whether `len` characters from `start` on are a part of `candidate`.
pub open spec fn is_window(candidate: Seq<char>, start: int, len: int) -> bool {
    0 <= start && 1 <= len && start + len <= candidate.len()
}

/// How the part of `candidate` that has `len` characters from `start` on
/// matches `query`.
pub open spec fn window_match(
    query: Seq<char>,
    candidate: Seq<char>,
    start: int,
    len: int,
) -> TokenMatch {
    let operations = edit_cost(query, candidate.subrange(start, start + len));
    TokenMatch {
        distance: operations.total(),
        penalty: (candidate.len() - len) as nat,
        position_rank: if start == 0 {
            0
        } else if start + len == candidate.len() {
            1
        } else {
            2
        },
        len: len as nat,
        operations,
    }
}

/// Whether `best` is the match of some part of `candidate`, and no part
/// matches better.
pub open spec fn is_best_window(query: Seq<char>, candidate: Seq<char>, best: TokenMatch) -> bool {
    &&& exists|start: int, len: int| #[trigger]
        is_window(candidate, start, len) && best == window_match(query, candidate, start, len)
    &&& forall|start: int, len: int| #[trigger]
        is_window(candidate, start, len) ==> !window_match(
            query,
            candidate,
            start,
            len,
        ).ranks_before(best)
}

/// The best match of `query` with a part of `candidate`; there is none where
/// either is empty.
pub open spec fn token_match(query: Seq<char>, candidate: Seq<char>) -> Option<TokenMatch> {
    if query.len() == 0 || candidate.len() == 0 {
        None
    } else {
        Some(choose|best: TokenMatch| is_best_window(query, candidate, best))
    }
}

/// A match that is within `limit` edits, or nothing.
pub open spec fn token_match_within(
    query: Seq<char>,
    candidate: Seq<char>,
    limit: nat,
) -> Option<TokenMatch> {
    match token_match(query, candidate) {
        Some(best) if best.distance <= limit => Some(best),
        _ => None,
    }
}

/// Every two texts that are not empty have one best match.
pub proof fn token_match_is_best(query: Seq<char>, candidate: Seq<char>)
    requires
        query.len() > 0,
        candidate.len() > 0,
    ensures
        token_match(query, candidate) is Some,
        is_best_window(query, candidate, token_match(query, candidate)->0),
        forall|other: TokenMatch| #[trigger]
            is_best_window(query, candidate, other) ==> token_match(query, candidate) == Some(
                other,
            ),
{
    let before = |a: TokenMatch, b: TokenMatch| a.ranks_before(b);
    let row = |start: int| choose|len: int| #[trigger]
        is_window(candidate, start, len) && forall|other: int| #[trigger]
            is_window(candidate, start, other) ==> !window_match(
                query,
                candidate,
                start,
                other,
            ).ranks_before(window_match(query, candidate, start, len));
    assert forall|start: int| 0 <= start < candidate.len() implies {
        let len = #[trigger] row(start);
        is_window(candidate, start, len) && forall|other: int| #[trigger]
            is_window(candidate, start, other) ==> !window_match(
                query,
                candidate,
                start,
                other,
            ).ranks_before(window_match(query, candidate, start, len))
    } by {
        let wanted = |len: int| is_window(candidate, start, len);
        assert(wanted(1));
        let len = lemma_least_exists(
            candidate.len() + 1,
            |len: int| window_match(query, candidate, start, len),
            wanted,
            before,
        );
        assert forall|other: int| #[trigger]
            is_window(candidate, start, other) implies !window_match(
            query,
            candidate,
            start,
            other,
        ).ranks_before(window_match(query, candidate, start, len)) by {
            assert(wanted(other));
        }
    }
    let every = |start: int| true;
    assert(every(0));
    let start = lemma_least_exists(
        candidate.len(),
        |start: int| window_match(query, candidate, start, row(start)),
        every,
        before,
    );
    let best = window_match(query, candidate, start, row(start));
    assert(is_best_window(query, candidate, best)) by {
        assert(is_window(candidate, start, row(start)));
        assert forall|s: int, len: int| #[trigger]
            is_window(candidate, s, len) implies !window_match(
            query,
            candidate,
            s,
            len,
        ).ranks_before(best) by {
            assert(every(s));
            assert(!window_match(query, candidate, s, len).ranks_before(
                window_match(query, candidate, s, row(s)),
            ));
        }
    }
}

/// What `best_token_match` returns, as a [`TokenMatch`].
pub open spec fn token_match_of(
    found: (usize, usize, usize, usize, OperationProfile),
) -> TokenMatch {
    TokenMatch {
        distance: found.0 as nat,
        penalty: found.1 as nat,
        position_rank: found.2 as nat,
        len: found.3 as nat,
        operations: found.4@,
    }
}

/// [`token_match_of`] of a result.
pub open spec fn token_match_found(
    found: Option<(usize, usize, usize, usize, OperationProfile)>,
) -> Option<TokenMatch> {
    match found {
        Some(best) => Some(token_match_of(best)),
        None => None,
    }
}

/// The best match of `query` with a part of `candidate` that takes at most
/// `limit` edits: the distance, the number of characters outside the part, 0, 1
/// or 2 for a part at the start, at the end or in between, the length of the
/// part and the edits.
pub fn best_token_match(query: &str, candidate: &str, limit: usize) -> (found: Option<
    (usize, usize, usize, usize, OperationProfile),
>)
    ensures
        token_match_found(found) == token_match_within(query@, candidate@, limit as nat),
{
    let query_chars = chars_of(query);
    let candidate_chars = chars_of(candidate);
    best_chars_match(query_chars.as_slice(), candidate_chars.as_slice(), limit)
}

fn match_ranks_before(
    left: &(usize, usize, usize, usize, OperationProfile),
    right: &(usize, usize, usize, usize, OperationProfile),
) -> (before: bool)
    ensures
        before == token_match_of(*left).ranks_before(token_match_of(*right)),
{
    if left.0 != right.0 {
        left.0 < right.0
    } else if left.1 != right.1 {
        left.1 < right.1
    } else if left.2 != right.2 {
        left.2 < right.2
    } else if left.3 != right.3 {
        left.3 < right.3
    } else {
        left.4.ranks_before(&right.4)
    }
}

/// Whether `(start, len)` comes before `(end_start, end_len)` where parts are
/// taken by their start and then by their length.
spec fn is_visited(start: int, len: int, end_start: int, end_len: int) -> bool {
    start < end_start || start == end_start && len < end_len
}

/// What is known of the best match so far once the parts before
/// `(end_start, end_len)` have been looked at.
spec fn is_best_so_far(
    query: Seq<char>,
    candidate: Seq<char>,
    limit: nat,
    best: Option<(usize, usize, usize, usize, OperationProfile)>,
    end_start: int,
    end_len: int,
) -> bool {
    &&& best matches Some(found) ==> found.0 <= limit && exists|start: int, len: int| #[trigger]
        is_window(candidate, start, len) && token_match_of(found) == window_match(
            query,
            candidate,
            start,
            len,
        )
    &&& forall|start: int, len: int| #[trigger]
        is_window(candidate, start, len) && is_visited(start, len, end_start, end_len) && {
            window_match(query, candidate, start, len).distance <= limit
        } ==> {
            &&& best is Some
            &&& !window_match(query, candidate, start, len).ranks_before(token_match_of(best->0))
        }
}

proof fn lemma_best_so_far_is_best(
    query: Seq<char>,
    candidate: Seq<char>,
    limit: nat,
    best: Option<(usize, usize, usize, usize, OperationProfile)>,
)
    requires
        query.len() > 0,
        candidate.len() > 0,
        is_best_so_far(query, candidate, limit, best, candidate.len() as int, 0),
    ensures
        token_match_found(best) == token_match_within(query, candidate, limit),
{
    token_match_is_best(query, candidate);
    match best {
        Some(found) => {
            let m = token_match_of(found);
            assert forall|start: int, len: int| #[trigger]
                is_window(candidate, start, len) implies !window_match(
                query,
                candidate,
                start,
                len,
            ).ranks_before(m) by {}
            assert(is_best_window(query, candidate, m));
        },
        None => {
            let (start, len) = choose|start: int, len: int| #[trigger]
                is_window(candidate, start, len) && token_match(query, candidate)->0
                    == window_match(query, candidate, start, len);
            assert(is_window(candidate, start, len));
        },
    }
}

/// [`best_token_match`] on characters.
pub(crate) fn best_chars_match(query: &[char], candidate: &[char], limit: usize) -> (found: Option<
    (usize, usize, usize, usize, OperationProfile),
>)
    requires
        4 * query@.len() <= isize::MAX,
        4 * candidate@.len() <= isize::MAX,
    ensures
        token_match_found(found) == token_match_within(query@, candidate@, limit as nat),
{
    let candidate_len = candidate.len();
    let query_len = query.len();
    if query_len == 0 || candidate_len == 0 {
        return None;
    }
    let min_len: usize = if query_len > limit {
        query_len - limit
    } else {
        1
    };
    let longest: usize = query_len.saturating_add(limit);
    let mut best: Option<(usize, usize, usize, usize, OperationProfile)> = None;
    let mut start: usize = 0;
    while start < candidate_len
        invariant
            start <= candidate_len,
            query_len == query@.len() > 0,
            candidate_len == candidate@.len(),
            4 * query_len <= isize::MAX,
            4 * candidate_len <= isize::MAX,
            min_len == if query_len > limit { query_len - limit } else { 1 },
            longest == if query_len + limit > usize::MAX { usize::MAX as int } else {
                query_len + limit
            },
            is_best_so_far(query@, candidate@, limit as nat, best, start as int, 0),
        decreases candidate_len - start,
    {
        let max_len: usize = if longest < candidate_len - start {
            longest
        } else {
            candidate_len - start
        };
        let mut len: usize = min_len;
        proof {
            assert forall|s: int, l: int| #[trigger]
                is_window(candidate@, s, l) && s == start && l < min_len implies window_match(
                query@,
                candidate@,
                s,
                l,
            ).distance > limit by {
                edit_cost_is_bounded_by_lengths(query@, candidate@.subrange(s, s + l));
            }
        }
        while len <= max_len
            invariant
                min_len <= len,
                len <= max_len + 1 || len == min_len,
                start < candidate_len,
                max_len <= candidate_len - start,
                query_len == query@.len() > 0,
                candidate_len == candidate@.len(),
                1 <= min_len,
                4 * query_len <= isize::MAX,
                4 * candidate_len <= isize::MAX,
                is_best_so_far(query@, candidate@, limit as nat, best, start as int, len as int),
            decreases max_len + 1 - len,
        {
            let end = start + len;
            let segment = slice_subrange(candidate, start, end);
            proof {
                assert(is_window(candidate@, start as int, len as int));
            }
            if let Some((distance, operations)) = bounded_chars_distance(query, segment, limit) {
                let penalty = start + (candidate_len - end);
                let position_rank: usize = if start == 0 {
                    0
                } else if end == candidate_len {
                    1
                } else {
                    2
                };
                let total = (distance, penalty, position_rank, len, operations);
                assert(token_match_of(total) == window_match(
                    query@,
                    candidate@,
                    start as int,
                    len as int,
                ));
                best = match best {
                    None => Some(total),
                    Some(current) => if match_ranks_before(&total, &current) {
                        Some(total)
                    } else {
                        Some(current)
                    },
                };
                if distance == 0 && penalty == 0 {
                    proof {
                        assert forall|s: int, l: int| #[trigger]
                            is_window(candidate@, s, l) implies !window_match(
                            query@,
                            candidate@,
                            s,
                            l,
                        ).ranks_before(token_match_of(total)) by {}
                        assert(is_best_so_far(
                            query@,
                            candidate@,
                            limit as nat,
                            Some(total),
                            candidate@.len() as int,
                            0,
                        ));
                        lemma_best_so_far_is_best(
                            query@,
                            candidate@,
                            limit as nat,
                            Some(total),
                        );
                    }
                    return Some(total);
                }
            }
            len = len + 1;
        }
        proof {
            assert forall|s: int, l: int| #[trigger]
                is_window(candidate@, s, l) && s == start && l >= len && window_match(
                    query@,
                    candidate@,
                    s,
                    l,
                ).distance <= limit implies false by {
                edit_cost_is_bounded_by_lengths(query@, candidate@.subrange(s, s + l));
            }
        }
        start = start + 1;
    }
    proof {
        lemma_best_so_far_is_best(query@, candidate@, limit as nat, best);
    }
    best
}

/// A token of a candidate and where it stands.
#[derive(Clone, Copy)]
pub struct PositionedToken<'a> {
    pub token: &'a str,
    pub position: usize,
}

/// A [`PositionedToken`] as a text and a number.
pub struct PlacedToken {
    pub token: Seq<char>,
    pub position: nat,
}

impl DeepView for PositionedToken<'_> {
    type V = PlacedToken;

    open spec fn deep_view(&self) -> PlacedToken {
        PlacedToken { token: self.token@, position: self.position as nat }
    }
}

/// How well a run of candidate tokens matches the query tokens one by one.
pub struct Alignment {
    pub distance: nat,
    pub position: nat,
    pub structure: nat,
    pub operations: EditCost,
}

impl Alignment {
    /// No token aligned yet.
    pub open spec fn zero() -> Alignment {
        Alignment { distance: 0, position: 0, structure: 0, operations: EditCost::zero() }
    }

    /// This alignment followed by `next`, matched with a token at `position`.
    pub open spec fn followed_by(self, position: nat, next: TokenMatch) -> Alignment {
        Alignment {
            distance: self.distance + next.distance,
            position: self.position + position + next.position_rank,
            structure: self.structure + next.penalty,
            operations: self.operations.plus(next.operations),
        }
    }

    /// The better alignment comes first.
    pub open spec fn ranks_before(self, other: Alignment) -> bool {
        ||| self.distance < other.distance
        ||| self.distance == other.distance && {
            ||| self.position < other.position
            ||| self.position == other.position && {
                ||| self.structure < other.structure
                ||| self.structure == other.structure && self.operations.ranks_before(
                    other.operations,
                )
            }
        }
    }
}

/// The first `count` query tokens matched with the candidate tokens from
/// `start` on, if each has a match.
pub open spec fn alignment_at(
    query: Seq<Seq<char>>,
    candidate: Seq<PlacedToken>,
    start: int,
    count: nat,
) -> Option<Alignment>
    decreases count,
{
    if count == 0 {
        Some(Alignment::zero())
    } else {
        let placed = candidate[start + count - 1];
        match (
            alignment_at(query, candidate, start, (count - 1) as nat),
            token_match(query[count - 1], placed.token),
        ) {
            (Some(sum), Some(next)) => Some(sum.followed_by(placed.position, next)),
            _ => None,
        }
    }
}

/// Whether `best` is the alignment of the query tokens with some run of
/// candidate tokens, and no run aligns better.
pub open spec fn is_best_alignment(
    query: Seq<Seq<char>>,
    candidate: Seq<PlacedToken>,
    best: Alignment,
) -> bool {
    &&& exists|start: int|
        0 <= start <= candidate.len() - query.len() && #[trigger] alignment_at(
            query,
            candidate,
            start,
            query.len(),
        ) == Some(best)
    &&& forall|start: int|
        0 <= start <= candidate.len() - query.len() ==> (#[trigger] alignment_at(
            query,
            candidate,
            start,
            query.len(),
        ) matches Some(other) ==> !other.ranks_before(best))
}

/// The best alignment of the query tokens with a run of candidate tokens.
pub open spec fn alignment(query: Seq<Seq<char>>, candidate: Seq<PlacedToken>) -> Option<
    Alignment,
> {
    if exists|best: Alignment| is_best_alignment(query, candidate, best) {
        Some(choose|best: Alignment| is_best_alignment(query, candidate, best))
    } else {
        None
    }
}

/// An alignment that is within `limit` edits, or nothing.
pub open spec fn alignment_within(
    query: Seq<Seq<char>>,
    candidate: Seq<PlacedToken>,
    limit: nat,
) -> Option<Alignment> {
    match alignment(query, candidate) {
        Some(best) if best.distance <= limit => Some(best),
        _ => None,
    }
}

/// If any run of candidate tokens aligns with the query tokens, there is one
/// best alignment.
pub proof fn alignment_is_best(query: Seq<Seq<char>>, candidate: Seq<PlacedToken>, start: int)
    requires
        0 <= start <= candidate.len() - query.len(),
        alignment_at(query, candidate, start, query.len()) is Some,
    ensures
        alignment(query, candidate) is Some,
        is_best_alignment(query, candidate, alignment(query, candidate)->0),
        forall|other: Alignment| #[trigger]
            is_best_alignment(query, candidate, other) ==> alignment(query, candidate) == Some(
                other,
            ),
{
    let runs = (candidate.len() - query.len() + 1) as nat;
    let wanted = |start: int| alignment_at(query, candidate, start, query.len()) is Some;
    assert(wanted(start));
    let at = lemma_least_exists(
        runs,
        |start: int| alignment_at(query, candidate, start, query.len())->0,
        wanted,
        |a: Alignment, b: Alignment| a.ranks_before(b),
    );
    let best = alignment_at(query, candidate, at, query.len())->0;
    assert(is_best_alignment(query, candidate, best)) by {
        assert forall|start: int|
            0 <= start <= candidate.len() - query.len() implies (#[trigger] alignment_at(
            query,
            candidate,
            start,
            query.len(),
        ) matches Some(other) ==> !other.ranks_before(best)) by {
            if alignment_at(query, candidate, start, query.len()) is Some {
                assert(wanted(start));
            }
        }
    }
}

/// The positions of `count` tokens from `start` on, with two more for each.
pub open spec fn position_bound(candidate: Seq<PlacedToken>, start: int, count: nat) -> nat
    decreases count,
{
    if count == 0 {
        0
    } else {
        position_bound(candidate, start, (count - 1) as nat) + candidate[start + count
            - 1].position + 2
    }
}

/// The characters of `count` tokens from `start` on.
pub open spec fn length_bound(candidate: Seq<PlacedToken>, start: int, count: nat) -> nat
    decreases count,
{
    if count == 0 {
        0
    } else {
        length_bound(candidate, start, (count - 1) as nat) + candidate[start + count
            - 1].token.len()
    }
}

/// Whether the sums of the first `count` tokens of the run that begins at `start`
/// fit in a `usize`, or are over `limit` edits.
pub open spec fn run_fits_so_far(
    query: Seq<Seq<char>>,
    candidate: Seq<PlacedToken>,
    start: int,
    limit: nat,
    count: nat,
) -> bool {
    alignment_at(query, candidate, start, count) matches Some(run) ==> run.distance <= limit
        ==> run.position <= usize::MAX && run.structure <= usize::MAX
}

/// Whether the sums of the run that begins at `start` fit in a `usize`, as far as
/// it stays within `limit` edits.
pub open spec fn run_fits(
    query: Seq<Seq<char>>,
    candidate: Seq<PlacedToken>,
    start: int,
    limit: nat,
) -> bool {
    forall|count: nat|
        count <= query.len() ==> #[trigger] run_fits_so_far(query, candidate, start, limit, count)
}

/// Whether no sum of an alignment within `limit` edits is too great for a
/// `usize`.
pub open spec fn alignments_fit(
    query: Seq<Seq<char>>,
    candidate: Seq<PlacedToken>,
    limit: nat,
) -> bool {
    forall|start: int|
        0 <= start <= candidate.len() - query.len() ==> #[trigger] run_fits(
            query,
            candidate,
            start,
            limit,
        )
}

/// Sums fit where the positions, with two more for each, and the lengths of the
/// tokens of every run do.
pub proof fn bounded_alignments_fit(
    query: Seq<Seq<char>>,
    candidate: Seq<PlacedToken>,
    limit: nat,
)
    requires
        forall|start: int|
            0 <= start <= candidate.len() - query.len() ==> #[trigger] position_bound(
                candidate,
                start,
                query.len(),
            ) <= usize::MAX && length_bound(candidate, start, query.len()) <= usize::MAX,
    ensures
        alignments_fit(query, candidate, limit),
{
    assert forall|start: int| 0 <= start <= candidate.len() - query.len() implies #[trigger]
        run_fits(query, candidate, start, limit) by {
        assert(position_bound(candidate, start, query.len()) <= usize::MAX);
        assert forall|count: nat|
            count <= query.len() implies #[trigger] run_fits_so_far(
            query,
            candidate,
            start,
            limit,
            count,
        ) by {
            lemma_run_is_bounded(query, candidate, start, count);
            lemma_bounds_grow(candidate, start, count, query.len());
        }
    }
}

pub(crate) proof fn lemma_run_is_bounded(
    query: Seq<Seq<char>>,
    candidate: Seq<PlacedToken>,
    start: int,
    count: nat,
)
    ensures
        alignment_at(query, candidate, start, count) matches Some(run) ==> run.position
            <= position_bound(candidate, start, count) && run.structure <= length_bound(
            candidate,
            start,
            count,
        ),
    decreases count,
{
    if count > 0 {
        lemma_run_is_bounded(query, candidate, start, (count - 1) as nat);
        lemma_token_match_bounds(query[count - 1], candidate[start + count - 1].token);
    }
}

/// The sum of the first `n` terms.
pub open spec fn sum_of(term: spec_fn(int) -> nat, n: nat) -> nat
    decreases n,
{
    if n == 0 {
        0
    } else {
        sum_of(term, (n - 1) as nat) + term(n - 1)
    }
}

/// The match of the query token `i` with its token in the run that begins at
/// `start`, if it is within `limit` edits.
pub open spec fn run_match(
    query: Seq<Seq<char>>,
    candidate: Seq<PlacedToken>,
    start: int,
    limit: nat,
    i: int,
) -> Option<TokenMatch> {
    token_match_within(query[i], candidate[start + i].token, limit)
}

/// Whether each query token matches its token in the run that begins at `start`,
/// and all of them together take at most `limit` edits.
pub open spec fn is_run_within(
    query: Seq<Seq<char>>,
    candidate: Seq<PlacedToken>,
    start: int,
    limit: nat,
) -> bool {
    &&& 0 <= start <= candidate.len() - query.len()
    &&& forall|i: int|
        0 <= i < query.len() ==> #[trigger] run_match(query, candidate, start, limit, i) is Some
    &&& sum_of(|i: int| run_match(query, candidate, start, limit, i)->0.distance, query.len())
        <= limit
}

/// What the matches of the run that begins at `start` add up to.
pub open spec fn run_sums(
    query: Seq<Seq<char>>,
    candidate: Seq<PlacedToken>,
    start: int,
    limit: nat,
) -> (nat, nat, nat) {
    (
        sum_of(|i: int| run_match(query, candidate, start, limit, i)->0.distance, query.len()),
        sum_of(
            |i: int|
                candidate[start + i].position + run_match(
                    query,
                    candidate,
                    start,
                    limit,
                    i,
                )->0.position_rank,
            query.len(),
        ),
        sum_of(|i: int| run_match(query, candidate, start, limit, i)->0.penalty, query.len()),
    )
}

/// Whether `left` comes before `right`, by the first number in which they differ.
pub open spec fn sums_before(left: (nat, nat, nat), right: (nat, nat, nat)) -> bool {
    if left.0 != right.0 {
        left.0 < right.0
    } else if left.1 != right.1 {
        left.1 < right.1
    } else {
        left.2 < right.2
    }
}

/// The query tokens align within `limit` edits if and only if some run of
/// candidate tokens matches them one by one with no more edits than that. The
/// distance, the position and the structure are then what the matches of such a
/// run add up to, and no such run adds up to less. No query tokens align with
/// nothing to add up.
pub proof fn alignment_is_least_run(
    query: Seq<Seq<char>>,
    candidate: Seq<PlacedToken>,
    limit: nat,
)
    ensures
        alignment_within(query, candidate, limit) is Some <==> exists|start: int| #[trigger]
            is_run_within(query, candidate, start, limit),
        alignment_within(query, candidate, limit) matches Some(best) ==> {
            let sums = (best.distance, best.position, best.structure);
            &&& exists|start: int| #[trigger]
                is_run_within(query, candidate, start, limit) && run_sums(
                    query,
                    candidate,
                    start,
                    limit,
                ) == sums
            &&& forall|start: int| #[trigger]
                is_run_within(query, candidate, start, limit) ==> !sums_before(
                    run_sums(query, candidate, start, limit),
                    sums,
                )
        },
        query.len() == 0 ==> alignment_within(query, candidate, limit) == Some(Alignment::zero()),
{
    let n = query.len();
    assert forall|start: int|
        0 <= start <= candidate.len() - query.len() implies (#[trigger] is_run_within(
        query,
        candidate,
        start,
        limit,
    ) <==> (alignment_at(query, candidate, start, n) matches Some(run) && run.distance
        <= limit)) && (is_run_within(query, candidate, start, limit) ==> {
        let run = alignment_at(query, candidate, start, n)->0;
        run_sums(query, candidate, start, limit) == (run.distance, run.position, run.structure)
    }) by {
        lemma_run_sums(query, candidate, start, limit, n);
    }
    if exists|start: int| #[trigger] is_run_within(query, candidate, start, limit) {
        let start = choose|start: int| #[trigger] is_run_within(query, candidate, start, limit);
        alignment_is_best(query, candidate, start);
    }
    if let Some(best) = alignment_within(query, candidate, limit) {
        assert(is_best_alignment(query, candidate, best));
        let start = choose|start: int|
            0 <= start <= candidate.len() - query.len() && #[trigger] alignment_at(
                query,
                candidate,
                start,
                query.len(),
            ) == Some(best);
        assert(is_run_within(query, candidate, start, limit));
        assert forall|other: int| #[trigger]
            is_run_within(query, candidate, other, limit) implies !sums_before(
            run_sums(query, candidate, other, limit),
            (best.distance, best.position, best.structure),
        ) by {
            assert(alignment_at(query, candidate, other, n) is Some);
        }
    }
    if n == 0 {
        assert(alignment_at(query, candidate, 0, n) == Some(Alignment::zero()));
        alignment_is_best(query, candidate, 0);
        assert(is_best_alignment(query, candidate, Alignment::zero()));
    }
}

/// The first `count` matches of a run add up to its alignment.
proof fn lemma_run_sums(
    query: Seq<Seq<char>>,
    candidate: Seq<PlacedToken>,
    start: int,
    limit: nat,
    count: nat,
)
    requires
        count <= query.len(),
    ensures
        ({
            let all = forall|i: int|
                0 <= i < count ==> #[trigger] run_match(query, candidate, start, limit, i) is Some;
            &&& (all && sum_of(
                |i: int| run_match(query, candidate, start, limit, i)->0.distance,
                count,
            ) <= limit) <==> (alignment_at(query, candidate, start, count) matches Some(run)
                && run.distance <= limit)
            &&& all ==> (alignment_at(query, candidate, start, count) matches Some(run) && {
                &&& run.distance == sum_of(
                    |i: int| run_match(query, candidate, start, limit, i)->0.distance,
                    count,
                )
                &&& run.position == sum_of(
                    |i: int|
                        candidate[start + i].position + run_match(
                            query,
                            candidate,
                            start,
                            limit,
                            i,
                        )->0.position_rank,
                    count,
                )
                &&& run.structure == sum_of(
                    |i: int| run_match(query, candidate, start, limit, i)->0.penalty,
                    count,
                )
            })
        }),
    decreases count,
{
    if count > 0 {
        lemma_run_sums(query, candidate, start, limit, (count - 1) as nat);
        assert(run_match(query, candidate, start, limit, count - 1) == token_match_within(
            query[count - 1],
            candidate[start + count - 1].token,
            limit,
        ));
    }
}

proof fn lemma_bounds_grow(candidate: Seq<PlacedToken>, start: int, count: nat, more: nat)
    requires
        count <= more,
    ensures
        position_bound(candidate, start, count) <= position_bound(candidate, start, more),
        length_bound(candidate, start, count) <= length_bound(candidate, start, more),
    decreases more,
{
    if count < more {
        lemma_bounds_grow(candidate, start, count, (more - 1) as nat);
    }
}

/// What a match holds is bounded by the texts it is made from.
pub(crate) proof fn lemma_token_match_bounds(query: Seq<char>, candidate: Seq<char>)
    ensures
        token_match(query, candidate) matches Some(best) ==> {
            &&& best.penalty < candidate.len()
            &&& best.position_rank <= 2
            &&& best.operations.total() == best.distance
        },
{
    if query.len() > 0 && candidate.len() > 0 {
        token_match_is_best(query, candidate);
    }
}

/// What `aligned_token_distance` returns, as an [`Alignment`].
pub open spec fn alignment_of(found: (usize, usize, usize, OperationProfile)) -> Alignment {
    Alignment {
        distance: found.0 as nat,
        position: found.1 as nat,
        structure: found.2 as nat,
        operations: found.3@,
    }
}

/// [`alignment_of`] of a result.
pub open spec fn alignment_found(
    found: Option<(usize, usize, usize, OperationProfile)>,
) -> Option<Alignment> {
    match found {
        Some(best) => Some(alignment_of(best)),
        None => None,
    }
}

/// The best alignment of the query tokens, one by one, with a run of candidate
/// tokens that takes at most `limit` edits: the distance, the position and the
/// structure added up over the tokens, and the edits.
pub fn aligned_token_distance(
    query_tokens: &[&str],
    candidate_tokens: &[PositionedToken<'_>],
    limit: usize,
) -> (found: Option<(usize, usize, usize, OperationProfile)>)
    requires
        alignments_fit(query_tokens.deep_view(), candidate_tokens.deep_view(), limit as nat),
    ensures
        alignment_found(found) == alignment_within(
            query_tokens.deep_view(),
            candidate_tokens.deep_view(),
            limit as nat,
        ),
{
    let ghost query = query_tokens.deep_view();
    let ghost candidate = candidate_tokens.deep_view();
    if candidate_tokens.len() < query_tokens.len() {
        return None;
    }
    if query_tokens.len() == 0 {
        proof {
            assert(alignment_at(query, candidate, 0, query.len()) == Some(Alignment::zero()));
            alignment_is_best(query, candidate, 0);
            assert(is_best_alignment(query, candidate, Alignment::zero()));
        }
        return Some((0, 0, 0, OperationProfile::default()));
    }
    let last_start = candidate_tokens.len() - query_tokens.len();
    let mut best: Option<(usize, usize, usize, OperationProfile)> = None;
    let mut start: usize = 0;
    let mut perfect = false;
    while start <= last_start && !perfect
        invariant
            start <= last_start + 1,
            last_start == candidate_tokens@.len() - query_tokens@.len(),
            last_start < usize::MAX,
            query == query_tokens.deep_view(),
            candidate == candidate_tokens.deep_view(),
            alignments_fit(query, candidate, limit as nat),
            is_best_run(query, candidate, limit as nat, best, start as int),
            perfect ==> is_best_run(query, candidate, limit as nat, best, last_start + 1),
        decreases last_start + 1 - start,
    {
        assert(run_fits(query, candidate, start as int, limit as nat));
        let total = align_run(query_tokens, candidate_tokens, start, limit);
        if let Some(next) = total {
            best = match best {
                None => Some(next),
                Some(current) => if alignment_ranks_before(&next, &current) {
                    Some(next)
                } else {
                    Some(current)
                },
            };
            if let Some(current) = best {
                perfect = current.0 == 0 && current.1 == 0 && current.2 == 0
                    && current.3.substitutions == 0 && current.3.insert_delete == 0
                    && current.3.transpositions == 0;
            }
        }
        start = start + 1;
    }
    proof {
        assert(is_best_run(query, candidate, limit as nat, best, last_start + 1));
        match best {
            Some(found) => {
                assert(is_best_alignment(query, candidate, alignment_of(found))) by {
                    assert forall|start: int|
                        0 <= start <= candidate.len() - query.len() implies (
                    #[trigger] alignment_at(query, candidate, start, query.len()) matches Some(
                        other,
                    ) ==> !other.ranks_before(alignment_of(found))) by {}
                }
                let start = choose|start: int|
                    0 <= start <= candidate.len() - query.len() && #[trigger] alignment_at(
                        query,
                        candidate,
                        start,
                        query.len(),
                    ) == Some(alignment_of(found));
                alignment_is_best(query, candidate, start);
            },
            None => {},
        }
    }
    best
}

/// What is known of the best alignment so far once the runs before `end` have
/// been looked at.
spec fn is_best_run(
    query: Seq<Seq<char>>,
    candidate: Seq<PlacedToken>,
    limit: nat,
    best: Option<(usize, usize, usize, OperationProfile)>,
    end: int,
) -> bool {
    &&& best matches Some(found) ==> found.0 <= limit && exists|start: int|
        0 <= start <= candidate.len() - query.len() && #[trigger] alignment_at(
            query,
            candidate,
            start,
            query.len(),
        ) == Some(alignment_of(found))
    &&& forall|start: int|
        0 <= start <= candidate.len() - query.len() && start < end ==> (
        #[trigger] alignment_at(query, candidate, start, query.len()) matches Some(other) ==> {
            other.distance <= limit ==> {
                &&& best is Some
                &&& !other.ranks_before(alignment_of(best->0))
            }
        })
}

fn alignment_ranks_before(
    left: &(usize, usize, usize, OperationProfile),
    right: &(usize, usize, usize, OperationProfile),
) -> (before: bool)
    ensures
        before == alignment_of(*left).ranks_before(alignment_of(*right)),
{
    if left.0 != right.0 {
        left.0 < right.0
    } else if left.1 != right.1 {
        left.1 < right.1
    } else if left.2 != right.2 {
        left.2 < right.2
    } else {
        left.3.ranks_before(&right.3)
    }
}

/// The alignment of the query tokens with the run of candidate tokens that
/// begins at `start`, if it is within `limit` edits.
pub(crate) fn align_run(
    query_tokens: &[&str],
    candidate_tokens: &[PositionedToken<'_>],
    start: usize,
    limit: usize,
) -> (found: Option<(usize, usize, usize, OperationProfile)>)
    requires
        start + query_tokens@.len() <= candidate_tokens@.len(),
        run_fits(
            query_tokens.deep_view(),
            candidate_tokens.deep_view(),
            start as int,
            limit as nat,
        ),
    ensures
        is_run_found(
            query_tokens.deep_view(),
            candidate_tokens.deep_view(),
            start as int,
            limit as nat,
            found,
        ),
{
    match checked_run(query_tokens, candidate_tokens, start, limit) {
        Some(found) => found,
        None => None,
    }
}

/// Whether `found` is the alignment with the run that begins at `start`, or that
/// is over the limit.
pub(crate) open spec fn is_run_found(
    query: Seq<Seq<char>>,
    candidate: Seq<PlacedToken>,
    start: int,
    limit: nat,
    found: Option<(usize, usize, usize, OperationProfile)>,
) -> bool {
    &&& found matches Some(run) ==> run.0 <= limit && alignment_at(
        query,
        candidate,
        start,
        query.len(),
    ) == Some(alignment_of(run))
    &&& found is None ==> (alignment_at(query, candidate, start, query.len()) matches Some(run)
        ==> run.distance > limit)
}

/// [`align_run`] where its sums fit, else `None`.
fn checked_run(
    query_tokens: &[&str],
    candidate_tokens: &[PositionedToken<'_>],
    start: usize,
    limit: usize,
) -> (answer: Option<Option<(usize, usize, usize, OperationProfile)>>)
    requires
        start + query_tokens@.len() <= candidate_tokens@.len(),
    ensures
        answer is Some <==> run_fits(
            query_tokens.deep_view(),
            candidate_tokens.deep_view(),
            start as int,
            limit as nat,
        ),
        answer matches Some(found) ==> is_run_found(
            query_tokens.deep_view(),
            candidate_tokens.deep_view(),
            start as int,
            limit as nat,
            found,
        ),
{
    let ghost query = query_tokens.deep_view();
    let ghost candidate = candidate_tokens.deep_view();
    let count = query_tokens.len();
    let total = candidate_tokens.len();
    let mut distance: usize = 0;
    let mut position: usize = 0;
    let mut structure: usize = 0;
    let mut operations = OperationProfile::default();
    let mut k: usize = 0;
    while k < count
        invariant
            k <= count,
            count == query_tokens@.len(),
            start + count <= candidate_tokens@.len() == total,
            query == query_tokens.deep_view(),
            candidate == candidate_tokens.deep_view(),
            forall|n: nat|
                n <= k ==> run_fits_so_far(query, candidate, start as int, limit as nat, n),
            alignment_at(query, candidate, start as int, k as nat) == Some(
                (Alignment {
                    distance: distance as nat,
                    position: position as nat,
                    structure: structure as nat,
                    operations: operations@,
                }),
            ),
            distance <= limit,
            operations@.total() == distance,
        decreases count - k,
    {
        let placed = candidate_tokens[start + k];
        proof {
            assert(candidate[start + k] == placed.deep_view());
            lemma_token_match_bounds(query[k as int], placed.token@);
        }
        match best_token_match(query_tokens[k], placed.token, limit - distance) {
            Some((cost, penalty, position_rank, _, token_operations)) => {
                let ghost next = alignment_at(query, candidate, start as int, (k + 1) as nat);
                assert(next is Some);
                distance = distance + cost;
                let moved = match placed.position.checked_add(position_rank) {
                    None => None,
                    Some(place) => position.checked_add(place),
                };
                match (moved, structure.checked_add(penalty)) {
                    (Some(further), Some(longer)) => {
                        position = further;
                        structure = longer;
                    },
                    _ => {
                        assert(!run_fits_so_far(
                            query,
                            candidate,
                            start as int,
                            limit as nat,
                            (k + 1) as nat,
                        ));
                        return None;
                    },
                }
                operations = operations.plus(token_operations);
            },
            None => {
                proof {
                    assert forall|n: nat| n <= count implies run_fits_so_far(
                        query,
                        candidate,
                        start as int,
                        limit as nat,
                        n,
                    ) by {
                        if n > k {
                            lemma_prefix_out_of_reach(
                                query,
                                candidate,
                                start as int,
                                (k + 1) as nat,
                                n,
                                limit as nat,
                            );
                        }
                    }
                    lemma_prefix_out_of_reach(
                        query,
                        candidate,
                        start as int,
                        (k + 1) as nat,
                        count as nat,
                        limit as nat,
                    );
                }
                return Some(None);
            },
        }
        k = k + 1;
    }
    Some(Some((distance, position, structure, operations)))
}

/// Whether the sums of every alignment within `limit` edits fit.
pub(crate) fn check_alignments(
    query_tokens: &[&str],
    candidate_tokens: &[PositionedToken<'_>],
    limit: usize,
) -> (answer: bool)
    ensures
        answer == alignments_fit(
            query_tokens.deep_view(),
            candidate_tokens.deep_view(),
            limit as nat,
        ),
{
    let ghost query = query_tokens.deep_view();
    let ghost candidate = candidate_tokens.deep_view();
    if candidate_tokens.len() < query_tokens.len() {
        return true;
    }
    let last_start = candidate_tokens.len() - query_tokens.len();
    let mut start: usize = 0;
    while start < last_start
        invariant
            start <= last_start,
            last_start == candidate_tokens@.len() - query_tokens@.len(),
            query == query_tokens.deep_view(),
            candidate == candidate_tokens.deep_view(),
            forall|earlier: int|
                0 <= earlier < start ==> #[trigger] run_fits(
                    query,
                    candidate,
                    earlier,
                    limit as nat,
                ),
        decreases last_start - start,
    {
        if checked_run(query_tokens, candidate_tokens, start, limit).is_none() {
            return false;
        }
        start = start + 1;
    }
    checked_run(query_tokens, candidate_tokens, last_start, limit).is_some()
}

/// An alignment that fails or is over the limit does not recover.
proof fn lemma_prefix_out_of_reach(
    query: Seq<Seq<char>>,
    candidate: Seq<PlacedToken>,
    start: int,
    count: nat,
    more: nat,
    limit: nat,
)
    requires
        count <= more,
        alignment_at(query, candidate, start, count) matches Some(run) ==> run.distance > limit,
    ensures
        alignment_at(query, candidate, start, more) matches Some(run) ==> run.distance > limit,
    decreases more,
{
    if count < more {
        lemma_prefix_out_of_reach(query, candidate, start, count, (more - 1) as nat, limit);
    }
}

proof fn lemma_run_total(
    query: Seq<Seq<char>>,
    candidate: Seq<PlacedToken>,
    start: int,
    count: nat,
)
    ensures
        alignment_at(query, candidate, start, count) matches Some(run) ==> run.operations.total()
            == run.distance,
    decreases count,
{
    if count > 0 {
        lemma_run_total(query, candidate, start, (count - 1) as nat);
        lemma_token_match_bounds(query[count - 1], candidate[start + count - 1].token);
    }
}

/// The distance of an alignment is the number of its edits.
pub(crate) proof fn lemma_alignment_total(query: Seq<Seq<char>>, candidate: Seq<PlacedToken>)
    ensures
        alignment_at(query, candidate, 0, query.len()) matches Some(run) ==> run.operations.total()
            == run.distance,
        alignment(query, candidate) matches Some(best) ==> best.operations.total()
            == best.distance,
{
    lemma_run_total(query, candidate, 0, query.len());
    if let Some(best) = alignment(query, candidate) {
        assert(is_best_alignment(query, candidate, best));
        let start = choose|start: int|
            0 <= start <= candidate.len() - query.len() && #[trigger] alignment_at(
                query,
                candidate,
                start,
                query.len(),
            ) == Some(best);
        lemma_run_total(query, candidate, start, query.len());
    }
}

/// Where no token stands after `position`, and neither positions nor lengths are
/// too great for as many as the query has tokens, the sums of an alignment fit.
pub(crate) proof fn lemma_alignments_fit(
    query: Seq<Seq<char>>,
    candidate: Seq<PlacedToken>,
    position: nat,
    limit: nat,
)
    requires
        query.len() * (position + 2) <= usize::MAX,
        forall|i: int|
            0 <= i < candidate.len() ==> #[trigger] candidate[i].position <= position
                && query.len() * candidate[i].token.len() <= usize::MAX,
    ensures
        alignments_fit(query, candidate, limit),
{
    let count = query.len();
    assert forall|start: int| 0 <= start <= candidate.len() - count implies #[trigger]
        position_bound(candidate, start, count) <= usize::MAX && length_bound(
            candidate,
            start,
            count,
        ) <= usize::MAX by {
        lemma_run_bounds(candidate, start, count, count, position);
        let sum = length_bound(candidate, start, count);
        let most = usize::MAX as nat;
        if count > 0 {
            assert(sum <= most) by (nonlinear_arith)
                requires
                    count > 0,
                    count * sum <= count * most,
            ;
        }
    }
    bounded_alignments_fit(query, candidate, limit);
}

proof fn lemma_run_bounds(
    candidate: Seq<PlacedToken>,
    start: int,
    count: nat,
    factor: nat,
    position: nat,
)
    requires
        0 <= start,
        start + count <= candidate.len(),
        forall|i: int|
            0 <= i < candidate.len() ==> #[trigger] candidate[i].position <= position && factor
                * candidate[i].token.len() <= usize::MAX,
    ensures
        position_bound(candidate, start, count) <= count * (position + 2),
        factor * length_bound(candidate, start, count) <= count * usize::MAX,
    decreases count,
{
    let most = usize::MAX as nat;
    if count > 0 {
        let before = (count - 1) as nat;
        lemma_run_bounds(candidate, start, before, factor, position);
        let last = candidate[start + count - 1];
        assert(last.position <= position);
        assert(count * (position + 2) == before * (position + 2) + (position + 2))
            by (nonlinear_arith)
            requires
                count == before + 1,
        ;
        let sum = length_bound(candidate, start, before);
        let len = last.token.len();
        assert(length_bound(candidate, start, count) == sum + len);
        assert(factor * (sum + len) == factor * sum + factor * len) by (nonlinear_arith);
        assert(count * most == before * most + most) by (nonlinear_arith)
            requires
                count == before + 1,
        ;
    } else {
        assert(length_bound(candidate, start, count) == 0);
        assert(factor * 0 == 0) by (nonlinear_arith);
    }
}

/// How well consecutive parts of one candidate token match the query tokens
/// one by one.
pub struct Split {
    pub distance: nat,
    pub structure: nat,
    pub position: nat,
    pub operations: EditCost,
}

impl Split {
    /// A single token's match.
    pub open spec fn of(found: TokenMatch) -> Split {
        Split {
            distance: found.distance,
            structure: found.penalty,
            position: found.position_rank,
            operations: found.operations,
        }
    }

    /// The matches of both together.
    pub open spec fn plus(self, other: Split) -> Split {
        Split {
            distance: self.distance + other.distance,
            structure: self.structure + other.structure,
            position: self.position + other.position,
            operations: self.operations.plus(other.operations),
        }
    }

    /// The better split comes first.
    pub open spec fn ranks_before(self, other: Split) -> bool {
        ||| self.distance < other.distance
        ||| self.distance == other.distance && {
            ||| self.structure < other.structure
            ||| self.structure == other.structure && {
                ||| self.position < other.position
                ||| self.position == other.position && self.operations.ranks_before(
                    other.operations,
                )
            }
        }
    }
}

/// Whether `ends` cuts what lies between `from` and `to` into `count` parts,
/// none of them empty.
pub open spec fn is_split(ends: Seq<int>, count: nat, from: int, to: int) -> bool {
    &&& ends.len() == count
    &&& count > 0
    &&& from < ends[0]
    &&& ends[count - 1] == to
    &&& forall|i: int, j: int| 0 <= i < j < count ==> ends[i] < ends[j]
}

/// The query tokens matched with the parts of `candidate` that begin at `from`
/// and end at `ends`, if each has a match.
pub open spec fn split_match(
    query: Seq<Seq<char>>,
    candidate: Seq<char>,
    from: int,
    ends: Seq<int>,
) -> Option<Split>
    decreases query.len(),
{
    match token_match(query[0], candidate.subrange(from, ends[0])) {
        None => None,
        Some(found) => if query.len() <= 1 {
            Some(Split::of(found))
        } else {
            match split_match(query.drop_first(), candidate, ends[0], ends.drop_first()) {
                None => None,
                Some(rest) => Some(Split::of(found).plus(rest)),
            }
        },
    }
}

/// Whether `best` is how some cut of `candidate` from `from` on matches, and no
/// cut matches better.
pub open spec fn is_best_split(
    query: Seq<Seq<char>>,
    candidate: Seq<char>,
    from: int,
    best: Split,
) -> bool {
    &&& exists|ends: Seq<int>| #[trigger]
        is_split(ends, query.len(), from, candidate.len() as int) && split_match(
            query,
            candidate,
            from,
            ends,
        ) == Some(best)
    &&& forall|ends: Seq<int>| #[trigger]
        is_split(ends, query.len(), from, candidate.len() as int) ==> (split_match(
            query,
            candidate,
            from,
            ends,
        ) matches Some(other) ==> !other.ranks_before(best))
}

/// The best way to cut `candidate` from `from` on into parts that match the
/// query tokens one by one.
pub open spec fn split_from(query: Seq<Seq<char>>, candidate: Seq<char>, from: int) -> Option<
    Split,
> {
    if exists|best: Split| is_best_split(query, candidate, from, best) {
        Some(choose|best: Split| is_best_split(query, candidate, from, best))
    } else {
        None
    }
}

/// The best split of the whole candidate that is within `limit` edits, or
/// nothing.
pub open spec fn split_within(query: Seq<Seq<char>>, candidate: Seq<char>, limit: nat) -> Option<
    Split,
> {
    match split_from(query, candidate, 0) {
        Some(best) if best.distance <= limit => Some(best),
        _ => None,
    }
}

/// If any cut of `candidate` matches the query tokens, there is one best split.
pub proof fn split_is_best(
    query: Seq<Seq<char>>,
    candidate: Seq<char>,
    from: int,
    ends: Seq<int>,
)
    requires
        is_split(ends, query.len(), from, candidate.len() as int),
        split_match(query, candidate, from, ends) is Some,
    ensures
        split_from(query, candidate, from) is Some,
        is_best_split(query, candidate, from, split_from(query, candidate, from)->0),
        forall|other: Split| #[trigger]
            is_best_split(query, candidate, from, other) ==> split_from(query, candidate, from)
                == Some(other),
{
    let best = lemma_best_split(query, candidate, from, ends);
    assert(is_best_split(query, candidate, from, best));
    let other = split_from(query, candidate, from)->0;
    assert forall|third: Split| #[trigger]
        is_best_split(query, candidate, from, third) implies third == other by {
        lemma_best_split_unique(query, candidate, from, third, other);
    }
}

proof fn lemma_best_split_unique(
    query: Seq<Seq<char>>,
    candidate: Seq<char>,
    from: int,
    left: Split,
    right: Split,
)
    requires
        is_best_split(query, candidate, from, left),
        is_best_split(query, candidate, from, right),
    ensures
        left == right,
{
    let to = candidate.len() as int;
    let left_ends = choose|ends: Seq<int>| #[trigger]
        is_split(ends, query.len(), from, to) && split_match(query, candidate, from, ends) == Some(
            left,
        );
    let right_ends = choose|ends: Seq<int>| #[trigger]
        is_split(ends, query.len(), from, to) && split_match(query, candidate, from, ends) == Some(
            right,
        );
    assert(is_split(left_ends, query.len(), from, to));
    assert(is_split(right_ends, query.len(), from, to));
    assert(!left.ranks_before(right) && !right.ranks_before(left));
}

/// The first cut of a split and what it leaves.
proof fn lemma_split_parts(ends: Seq<int>, count: nat, from: int, to: int)
    requires
        is_split(ends, count, from, to),
    ensures
        count == 1 ==> ends == seq![to],
        count > 1 ==> is_split(ends.drop_first(), (count - 1) as nat, ends[0], to),
        ends[0] <= to - (count - 1),
    decreases count,
{
    if count == 1 {
        assert(ends =~= seq![to]);
    } else {
        let rest = ends.drop_first();
        assert(rest[count - 2] == ends[count - 1]);
        assert(is_split(rest, (count - 1) as nat, ends[0], to));
        lemma_split_parts(rest, (count - 1) as nat, ends[0], to);
    }
}

/// A first part put in front of a split.
proof fn lemma_split_joins(ends: Seq<int>, count: nat, from: int, end: int, to: int)
    requires
        is_split(ends, count, end, to),
        from < end,
    ensures
        is_split(seq![end] + ends, count + 1, from, to),
        (seq![end] + ends).drop_first() == ends,
{
    let all = seq![end] + ends;
    assert(all.drop_first() =~= ends);
    assert(all[count as int] == ends[count - 1]);
    assert forall|i: int, j: int| 0 <= i < j < count + 1 implies all[i] < all[j] by {
        assert(all[j] == ends[j - 1]);
        if i == 0 {
            assert(ends[0] <= ends[j - 1]);
        } else {
            assert(all[i] == ends[i - 1]);
        }
    }
}

proof fn lemma_best_split(
    query: Seq<Seq<char>>,
    candidate: Seq<char>,
    from: int,
    ends: Seq<int>,
) -> (best: Split)
    requires
        is_split(ends, query.len(), from, candidate.len() as int),
        split_match(query, candidate, from, ends) is Some,
    ensures
        is_best_split(query, candidate, from, best),
    decreases query.len(),
{
    let to = candidate.len() as int;
    let count = query.len();
    if count == 1 {
        let best = split_match(query, candidate, from, ends)->0;
        assert forall|others: Seq<int>| #[trigger]
            is_split(others, count, from, to) implies others == ends by {
            lemma_split_parts(others, count, from, to);
            lemma_split_parts(ends, count, from, to);
        }
        best
    } else {
        let rest = query.drop_first();
        let head = |end: int| token_match(query[0], candidate.subrange(from, end));
        let tail = |end: int|
            choose|best: Split| is_best_split(rest, candidate, end, best);
        let wanted = |end: int|
            from < end && head(end) is Some && exists|best: Split|
                is_best_split(rest, candidate, end, best);
        assert forall|others: Seq<int>| #[trigger]
            is_split(others, count, from, to) && split_match(query, candidate, from, others)
                is Some implies {
            &&& from < others[0] <= to
            &&& wanted(others[0])
            &&& is_best_split(rest, candidate, others[0], tail(others[0]))
            &&& is_split(others.drop_first(), rest.len(), others[0], to)
        } by {
            lemma_split_parts(others, count, from, to);
            let best = lemma_best_split(rest, candidate, others[0], others.drop_first());
            assert(is_best_split(rest, candidate, others[0], best));
        }
        let shift = |i: int| wanted(from + 1 + i);
        assert(shift(ends[0] - from - 1));
        let at = lemma_least_exists(
            (to - from) as nat,
            |i: int| Split::of(head(from + 1 + i)->0).plus(tail(from + 1 + i)),
            shift,
            |a: Split, b: Split| a.ranks_before(b),
        );
        let end = from + 1 + at;
        let best = Split::of(head(end)->0).plus(tail(end));
        assert(wanted(end));
        assert(is_best_split(rest, candidate, end, tail(end)));
        let below = choose|below: Seq<int>| #[trigger]
            is_split(below, rest.len(), end, to) && split_match(rest, candidate, end, below)
                == Some(tail(end));
        lemma_split_joins(below, rest.len(), from, end, to);
        assert(split_match(query, candidate, from, seq![end] + below) == Some(best));
        assert forall|others: Seq<int>| #[trigger]
            is_split(others, count, from, to) implies (split_match(query, candidate, from, others)
            matches Some(other) ==> !other.ranks_before(best)) by {
            if split_match(query, candidate, from, others) is Some {
                let first = others[0];
                assert(wanted(first));
                assert(shift(first - from - 1));
                assert(is_split(others.drop_first(), rest.len(), first, to));
                let rest_match = split_match(rest, candidate, first, others.drop_first())->0;
                assert(!rest_match.ranks_before(tail(first)));
            }
        }
        best
    }
}

proof fn lemma_cut_total(query: Seq<Seq<char>>, candidate: Seq<char>, from: int, ends: Seq<int>)
    ensures
        split_match(query, candidate, from, ends) matches Some(found) ==> {
            &&& found.operations.total() == found.distance
            &&& query.len() > 0 ==> found.position <= 2 * query.len()
        },
    decreases query.len(),
{
    lemma_token_match_bounds(query[0], candidate.subrange(from, ends[0]));
    if query.len() > 1 {
        lemma_cut_total(query.drop_first(), candidate, ends[0], ends.drop_first());
    }
}

/// The distance of a split is the number of its edits. It has a part for each
/// query token, and each adds two or less to the position.
pub(crate) proof fn lemma_split_total(query: Seq<Seq<char>>, candidate: Seq<char>)
    ensures
        split_from(query, candidate, 0) matches Some(best) ==> {
            &&& best.operations.total() == best.distance
            &&& best.position <= 2 * query.len()
            &&& 0 < query.len() <= candidate.len()
        },
{
    if let Some(best) = split_from(query, candidate, 0) {
        assert(is_best_split(query, candidate, 0, best));
        let ends = choose|ends: Seq<int>| #[trigger]
            is_split(ends, query.len(), 0, candidate.len() as int) && split_match(
                query,
                candidate,
                0,
                ends,
            ) == Some(best);
        lemma_cut_total(query, candidate, 0, ends);
        lemma_split_parts(ends, query.len(), 0, candidate.len() as int);
    }
}

/// What `partitioned_token_distance` returns, as a [`Split`].
pub open spec fn split_of(found: (usize, usize, usize, OperationProfile)) -> Split {
    Split {
        distance: found.0 as nat,
        structure: found.1 as nat,
        position: found.2 as nat,
        operations: found.3@,
    }
}

/// [`split_of`] of a result.
pub open spec fn split_found(found: Option<(usize, usize, usize, OperationProfile)>) -> Option<
    Split,
> {
    match found {
        Some(best) => Some(split_of(best)),
        None => None,
    }
}

/// The best way to cut `candidate` into consecutive parts that match the query
/// tokens one by one with at most `limit` edits: the distance, the structure
/// and the position added up over the parts, and the edits.
pub fn partitioned_token_distance(query_tokens: &[&str], candidate: &str, limit: usize) -> (found:
    Option<(usize, usize, usize, OperationProfile)>)
    requires
        query_tokens@.len() > 0 || candidate@.len() == 1,
    ensures
        split_found(found) == split_within(query_tokens.deep_view(), candidate@, limit as nat),
        found matches Some(best) ==> {
            &&& best.1 <= candidate@.len()
            &&& best.2 <= 2 * query_tokens@.len()
            &&& query_tokens@.len() <= candidate@.len()
        },
{
    let ghost query = query_tokens.deep_view();
    let chars = chars_of(candidate);
    if query_tokens.len() == 0 || chars.len() < query_tokens.len() {
        proof {
            assert forall|ends: Seq<int>|
                !#[trigger] is_split(ends, query.len(), 0, candidate@.len() as int) by {
                if is_split(ends, query.len(), 0, candidate@.len() as int) {
                    lemma_split_parts(ends, query.len(), 0, candidate@.len() as int);
                }
            }
        }
        return None;
    }
    let tokens = chars_of_each(query_tokens);
    assert(query.skip(0) =~= query);
    let found = partitioned_token_distance_impl(&tokens, chars.as_slice(), 0, 0, limit);
    proof {
        let to = candidate@.len() as int;
        match found {
            Some(best) => {
                let m = split_of(best);
                assert forall|ends: Seq<int>| #[trigger]
                    is_split(ends, query.len(), 0, to) implies (split_match(
                    query,
                    candidate@,
                    0,
                    ends,
                ) matches Some(other) ==> !other.ranks_before(m)) by {
                    lemma_split_parts(ends, query.len(), 0, to);
                }
                assert(is_best_split(query, candidate@, 0, m));
                let ends = choose|ends: Seq<int>| #[trigger]
                    is_split(ends, query.len(), 0, to) && split_match(query, candidate@, 0, ends)
                        == Some(m);
                split_is_best(query, candidate@, 0, ends);
            },
            None => {
                assert forall|ends: Seq<int>| #[trigger]
                    is_split(ends, query.len(), 0, to) implies (split_match(
                    query,
                    candidate@,
                    0,
                    ends,
                ) matches Some(other) ==> other.distance > limit) by {
                    lemma_split_parts(ends, query.len(), 0, to);
                }
            },
        }
    }
    found
}

/// What is known of the best split so far once the splits whose first part ends
/// before `stop` have been looked at.
spec fn is_best_cut(
    query: Seq<Seq<char>>,
    candidate: Seq<char>,
    from: int,
    limit: nat,
    best: Option<(usize, usize, usize, OperationProfile)>,
    stop: int,
) -> bool {
    &&& best matches Some(found) ==> found.0 <= limit && exists|ends: Seq<int>| #[trigger]
        is_split(ends, query.len(), from, candidate.len() as int) && split_match(
            query,
            candidate,
            from,
            ends,
        ) == Some(split_of(found))
    &&& forall|ends: Seq<int>| #[trigger]
        is_split(ends, query.len(), from, candidate.len() as int) && ends[0] < stop ==> (
        split_match(query, candidate, from, ends) matches Some(other) ==> {
            other.distance <= limit ==> {
                &&& best is Some
                &&& !other.ranks_before(split_of(best->0))
            }
        })
}

fn split_ranks_before(
    left: &(usize, usize, usize, OperationProfile),
    right: &(usize, usize, usize, OperationProfile),
) -> (before: bool)
    ensures
        before == split_of(*left).ranks_before(split_of(*right)),
{
    if left.0 != right.0 {
        left.0 < right.0
    } else if left.1 != right.1 {
        left.1 < right.1
    } else if left.2 != right.2 {
        left.2 < right.2
    } else {
        left.3.ranks_before(&right.3)
    }
}

/// Any split whose first part ends at `end` is no better than `total`, which is
/// the first part's match and the best split of the rest.
proof fn lemma_cut_is_best(
    query: Seq<Seq<char>>,
    candidate: Seq<char>,
    from: int,
    end: int,
    limit: nat,
    head: TokenMatch,
    tail: Option<(usize, usize, usize, OperationProfile)>,
    ends: Seq<int>,
)
    requires
        query.len() > 1,
        token_match(query[0], candidate.subrange(from, end)) == Some(head),
        head.distance <= limit,
        is_best_cut(
            query.drop_first(),
            candidate,
            end,
            (limit - head.distance) as nat,
            tail,
            candidate.len() as int + 1,
        ),
        is_split(ends, query.len(), from, candidate.len() as int),
        ends[0] == end,
    ensures
        split_match(query, candidate, from, ends) matches Some(other) ==> {
            other.distance <= limit ==> {
                &&& tail is Some
                &&& !other.ranks_before(Split::of(head).plus(split_of(tail->0)))
            }
        },
{
    let to = candidate.len() as int;
    lemma_split_parts(ends, query.len(), from, to);
    let rest = ends.drop_first();
    let rest_query = query.drop_first();
    assert(is_split(rest, rest_query.len(), end, to));
    lemma_split_parts(rest, rest_query.len(), end, to);
    if let Some(other) = split_match(query, candidate, from, ends) {
        let below = split_match(rest_query, candidate, end, rest)->0;
        assert(other == Split::of(head).plus(below));
        if other.distance <= limit {
            assert(below.distance <= limit - head.distance);
            assert(!below.ranks_before(split_of(tail->0)));
        }
    }
}

/// The best split of `candidate` from `start` on for the query tokens from
/// `token_idx` on, if it is within `remaining` edits.
fn partitioned_token_distance_impl(
    query: &Vec<Vec<char>>,
    candidate: &[char],
    token_idx: usize,
    start: usize,
    remaining: usize,
) -> (found: Option<(usize, usize, usize, OperationProfile)>)
    requires
        token_idx < query@.len() <= candidate@.len(),
        start <= candidate@.len(),
        4 * candidate@.len() <= isize::MAX,
        forall|i: int| 0 <= i < query@.len() ==> 4 * (#[trigger] query@[i])@.len() <= isize::MAX,
    ensures
        is_best_cut(
            texts_of(query@).skip(token_idx as int),
            candidate@,
            start as int,
            remaining as nat,
            found,
            candidate@.len() as int + 1,
        ),
        found matches Some(best) ==> {
            &&& best.1 <= candidate@.len() - start
            &&& best.2 <= 2 * (query@.len() - token_idx)
            &&& best.3@.total() == best.0
        },
    decreases query@.len() - token_idx,
{
    let ghost texts = texts_of(query@).skip(token_idx as int);
    let len = candidate.len();
    let last_token = token_idx + 1 == query.len();
    if start == len {
        proof {
            assert forall|ends: Seq<int>|
                !#[trigger] is_split(ends, texts.len(), start as int, len as int) by {
                if is_split(ends, texts.len(), start as int, len as int) {
                    lemma_split_parts(ends, texts.len(), start as int, len as int);
                }
            }
        }
        return None;
    }
    if last_token {
        let segment = slice_subrange(candidate, start, len);
        proof {
            assert forall|ends: Seq<int>| #[trigger]
                is_split(ends, texts.len(), start as int, len as int) implies ends == seq![
                len as int,
            ] by {
                lemma_split_parts(ends, texts.len(), start as int, len as int);
            }
            assert(is_split(seq![len as int], texts.len(), start as int, len as int));
            lemma_token_match_bounds(texts[0], segment@);
        }
        return match best_chars_match(query[token_idx].as_slice(), segment, remaining) {
            Some((cost, structure, position_rank, _, operations)) => Some(
                (cost, structure, position_rank, operations),
            ),
            None => None,
        };
    }
    let max_end = len - (query.len() - token_idx - 1);
    let mut best: Option<(usize, usize, usize, OperationProfile)> = None;
    let mut end: usize = start + 1;
    let mut perfect = false;
    while end <= max_end && !perfect
        invariant
            start < end <= len,
            max_end == len - (query@.len() - token_idx - 1),
            token_idx + 1 < query@.len() <= candidate@.len(),
            len == candidate@.len(),
            texts == texts_of(query@).skip(token_idx as int),
            4 * len <= isize::MAX,
            forall|i: int|
                0 <= i < query@.len() ==> 4 * (#[trigger] query@[i])@.len() <= isize::MAX,
            is_best_cut(texts, candidate@, start as int, remaining as nat, best, end as int),
            perfect ==> is_best_cut(
                texts,
                candidate@,
                start as int,
                remaining as nat,
                best,
                len + 1,
            ),
            best matches Some(found) ==> {
                &&& found.1 <= len - start
                &&& found.2 <= 2 * (query@.len() - token_idx)
                &&& found.3@.total() == found.0
            },
        decreases len - end,
    {
        let segment = slice_subrange(candidate, start, end);
        proof {
            lemma_token_match_bounds(texts[0], segment@);
            assert(texts.drop_first() =~= texts_of(query@).skip(token_idx + 1));
        }
        if let Some((cost, structure, position_rank, _, operations)) = best_chars_match(
            query[token_idx].as_slice(),
            segment,
            remaining,
        ) {
            let ghost head = token_match(texts[0], segment@)->0;
            let tail = partitioned_token_distance_impl(
                query,
                candidate,
                token_idx + 1,
                end,
                remaining - cost,
            );
            proof {
                assert forall|ends: Seq<int>| #[trigger]
                    is_split(ends, texts.len(), start as int, len as int) && ends[0]
                    == end implies (split_match(texts, candidate@, start as int, ends) matches Some(other) ==> {
                    other.distance <= remaining ==> {
                        &&& tail is Some
                        &&& !other.ranks_before(Split::of(head).plus(split_of(tail->0)))
                    }
                }) by {
                    lemma_cut_is_best(
                        texts,
                        candidate@,
                        start as int,
                        end as int,
                        remaining as nat,
                        head,
                        tail,
                        ends,
                    );
                }
            }
            if let Some((tail_cost, tail_structure, tail_position, tail_operations)) = tail {
                let total = (
                    cost + tail_cost,
                    structure + tail_structure,
                    position_rank + tail_position,
                    operations.plus(tail_operations),
                );
                proof {
                    let below = choose|ends: Seq<int>| #[trigger]
                        is_split(ends, (texts.len() - 1) as nat, end as int, len as int)
                            && split_match(texts.drop_first(), candidate@, end as int, ends)
                            == Some(split_of(tail->0));
                    lemma_split_joins(
                        below,
                        (texts.len() - 1) as nat,
                        start as int,
                        end as int,
                        len as int,
                    );
                    assert(is_split(
                        seq![end as int] + below,
                        texts.len(),
                        start as int,
                        len as int,
                    ));
                    assert(split_match(
                        texts,
                        candidate@,
                        start as int,
                        seq![end as int] + below,
                    ) == Some(split_of(total)));
                }
                best = match best {
                    None => Some(total),
                    Some(current) => if split_ranks_before(&total, &current) {
                        Some(total)
                    } else {
                        Some(current)
                    },
                };
                if let Some(current) = best {
                    perfect = current.0 == 0 && current.1 == 0 && current.2 == 0
                        && current.3.substitutions == 0 && current.3.insert_delete == 0
                        && current.3.transpositions == 0;
                }
            }
        }
        end = end + 1;
    }
    proof {
        assert forall|ends: Seq<int>| #[trigger]
            is_split(ends, texts.len(), start as int, len as int) implies ends[0] <= max_end by {
            lemma_split_parts(ends, texts.len(), start as int, len as int);
        }
    }
    best
}

} // verus!
