//! How tokens match: the part of one token, runs of several, and cuts of one.

use vstd::prelude::*;

use crate::distance::{edit_cost, edit_cost_is_zero_iff_equal};
use crate::order::{is_lower, is_lower_from, lemma_is_lower};
use crate::token_match::{
    alignment, alignment_at, alignment_is_best, alignment_within, is_best_alignment, is_best_split,
    is_split, is_window, split_from, split_is_best,
    split_match, split_within, sum_of, token_match, token_match_is_best, token_match_within,
    window_match, Alignment, PlacedToken, Split, TokenMatch,
};

verus! {

/// What a token match is chosen by: its edits, what it leaves of the token,
/// where it stands, its length, and then which edits it takes.
pub open spec fn numbers_of_match(found: TokenMatch) -> Seq<int> {
    seq![
        found.distance as int,
        found.penalty as int,
        found.position_rank as int,
        found.len as int,
        found.operations.substitutions as int,
        found.operations.insert_delete as int,
        found.operations.transpositions as int,
    ]
}

/// Whether `found` is how the part of `candidate` from `start` to `end` matches:
/// by its edits, by how many characters lie outside it, 0 at the start of the
/// token, 1 at its end and 2 in between, and by its length.
pub open spec fn is_match_of_part(
    query: Seq<char>,
    candidate: Seq<char>,
    start: int,
    end: int,
    found: TokenMatch,
) -> bool {
    &&& 0 <= start < end <= candidate.len()
    &&& found.operations == edit_cost(query, candidate.subrange(start, end))
    &&& found.distance == found.operations.substitutions + found.operations.insert_delete
        + found.operations.transpositions
    &&& found.penalty == start + (candidate.len() - end)
    &&& found.position_rank == if start == 0 {
        0nat
    } else if end == candidate.len() {
        1
    } else {
        2
    }
    &&& found.len == end - start
}

/// A token matches within `limit` edits if and only if the query is not empty and
/// some part of the token takes no more. The match is that of a part, and no part
/// matches better.
pub proof fn token_match_is_of_best_part(query: Seq<char>, candidate: Seq<char>, limit: nat)
    ensures
        token_match_within(query, candidate, limit) is Some <==> query.len() > 0 && exists|
            start: int,
            end: int,
        |
            0 <= start < end <= candidate.len() && (#[trigger] edit_cost(
                query,
                candidate.subrange(start, end),
            )).total() <= limit,
        token_match_within(query, candidate, limit) matches Some(best) ==> {
            &&& best.distance <= limit
            &&& exists|start: int, end: int|
                #[trigger] is_match_of_part(query, candidate, start, end, best)
            &&& forall|start: int, end: int, other: TokenMatch|
                #[trigger] is_match_of_part(query, candidate, start, end, other) ==> !is_lower(
                    numbers_of_match(other),
                    numbers_of_match(best),
                )
        },
{
    if query.len() > 0 && candidate.len() > 0 {
        token_match_is_best(query, candidate);
        let best = token_match(query, candidate)->0;
        let (at, len) = choose|start: int, len: int|
            #[trigger] is_window(candidate, start, len) && best == window_match(
                query,
                candidate,
                start,
                len,
            );
        assert(is_match_of_part(query, candidate, at, at + len, best));
        assert(edit_cost(query, candidate.subrange(at, at + len)).total() == best.distance);
        assert forall|start: int, end: int, other: TokenMatch|
            #[trigger] is_match_of_part(query, candidate, start, end, other) implies !is_lower(
            numbers_of_match(other),
            numbers_of_match(best),
        ) by {
            assert(is_window(candidate, start, end - start));
            assert(other == window_match(query, candidate, start, end - start));
            lemma_match_order(other, best);
        }
        assert forall|start: int, end: int| 0 <= start < end <= candidate.len() implies (
        #[trigger] edit_cost(query, candidate.subrange(start, end))).total()
            >= best.distance by {
            assert(is_window(candidate, start, end - start));
            assert(!window_match(query, candidate, start, end - start).ranks_before(best));
        }
    }
}

proof fn lemma_match_order(left: TokenMatch, right: TokenMatch)
    ensures
        left.ranks_before(right) == is_lower(numbers_of_match(left), numbers_of_match(right)),
{
    lemma_is_lower(numbers_of_match(left), numbers_of_match(right));
    reveal_with_fuel(is_lower_from, 9);
}

/// What an alignment is chosen by: its edits, where it stands, what it leaves of
/// the tokens, and then which edits it takes.
pub open spec fn numbers_of_alignment(found: Alignment) -> Seq<int> {
    seq![
        found.distance as int,
        found.position as int,
        found.structure as int,
        found.operations.substitutions as int,
        found.operations.insert_delete as int,
        found.operations.transpositions as int,
    ]
}

/// What the matches of the run that begins at `start` add up to.
pub open spec fn numbers_of_run(
    query: Seq<Seq<char>>,
    candidate: Seq<PlacedToken>,
    start: int,
) -> Seq<int> {
    let found = |i: int| token_match(query[i], candidate[start + i].token)->0;
    let n = query.len();
    seq![
        sum_of(|i: int| found(i).distance, n) as int,
        sum_of(|i: int| candidate[start + i].position + found(i).position_rank, n) as int,
        sum_of(|i: int| found(i).penalty, n) as int,
        sum_of(|i: int| found(i).operations.substitutions, n) as int,
        sum_of(|i: int| found(i).operations.insert_delete, n) as int,
        sum_of(|i: int| found(i).operations.transpositions, n) as int,
    ]
}

/// Whether each query token has a match with its token in the run that begins at
/// `start`, and all of them together take at most `limit` edits.
pub open spec fn is_run(
    query: Seq<Seq<char>>,
    candidate: Seq<PlacedToken>,
    start: int,
    limit: nat,
) -> bool {
    &&& 0 <= start
    &&& start + query.len() <= candidate.len()
    &&& forall|i: int|
        0 <= i < query.len() ==> (#[trigger] query[i]).len() > 0 && candidate[start
            + i].token.len() > 0
    &&& numbers_of_run(query, candidate, start)[0] <= limit
}

/// The query tokens align within `limit` edits if and only if some run of as many
/// consecutive candidate tokens matches them one by one with no more. The
/// alignment is what the matches of such a run add up to, and no such run adds up
/// to less.
pub proof fn alignment_is_of_best_run(
    query: Seq<Seq<char>>,
    candidate: Seq<PlacedToken>,
    limit: nat,
)
    ensures
        alignment_within(query, candidate, limit) is Some <==> exists|start: int|
            #[trigger] is_run(query, candidate, start, limit),
        alignment_within(query, candidate, limit) matches Some(best) ==> {
            &&& best.distance <= limit
            &&& exists|start: int| #[trigger]
                is_run(query, candidate, start, limit) && numbers_of_run(query, candidate, start)
                    == numbers_of_alignment(best)
            &&& forall|start: int| #[trigger]
                is_run(query, candidate, start, limit) ==> !is_lower(
                    numbers_of_run(query, candidate, start),
                    numbers_of_alignment(best),
                )
        },
{
    assert forall|start: int| #[trigger] is_run(query, candidate, start, limit) implies {
        &&& alignment_within(query, candidate, limit) is Some
        &&& !is_lower(
            numbers_of_run(query, candidate, start),
            numbers_of_alignment(alignment_within(query, candidate, limit)->0),
        )
    } by {
        lemma_run_numbers(query, candidate, start, query.len());
        alignment_is_best(query, candidate, start);
        let best = alignment(query, candidate)->0;
        let other = alignment_at(query, candidate, start, query.len())->0;
        assert(!other.ranks_before(best));
        lemma_alignment_order(other, best);
    }
    if let Some(best) = alignment_within(query, candidate, limit) {
        assert(is_best_alignment(query, candidate, best));
        let start = choose|start: int|
            0 <= start <= candidate.len() - query.len() && #[trigger] alignment_at(
                query,
                candidate,
                start,
                query.len(),
            ) == Some(best);
        lemma_run_has_texts(query, candidate, start, query.len());
        lemma_run_numbers(query, candidate, start, query.len());
        assert(is_run(query, candidate, start, limit));
    }
}

proof fn lemma_alignment_order(left: Alignment, right: Alignment)
    ensures
        left.ranks_before(right) == is_lower(
            numbers_of_alignment(left),
            numbers_of_alignment(right),
        ),
{
    lemma_is_lower(numbers_of_alignment(left), numbers_of_alignment(right));
    reveal_with_fuel(is_lower_from, 8);
}

proof fn lemma_run_has_texts(
    query: Seq<Seq<char>>,
    candidate: Seq<PlacedToken>,
    start: int,
    n: nat,
)
    requires
        alignment_at(query, candidate, start, n) is Some,
    ensures
        forall|i: int|
            0 <= i < n ==> (#[trigger] query[i]).len() > 0 && candidate[start + i].token.len() > 0,
    decreases n,
{
    if n > 0 {
        lemma_run_has_texts(query, candidate, start, (n - 1) as nat);
    }
}

proof fn lemma_run_numbers(
    query: Seq<Seq<char>>,
    candidate: Seq<PlacedToken>,
    start: int,
    n: nat,
)
    requires
        forall|i: int|
            0 <= i < n ==> (#[trigger] query[i]).len() > 0 && candidate[start + i].token.len() > 0,
    ensures
        alignment_at(query, candidate, start, n) is Some,
        numbers_of_alignment(alignment_at(query, candidate, start, n)->0) == ({
            let found = |i: int| token_match(query[i], candidate[start + i].token)->0;
            seq![
                sum_of(|i: int| found(i).distance, n) as int,
                sum_of(
                    |i: int| candidate[start + i].position + found(i).position_rank,
                    n,
                ) as int,
                sum_of(|i: int| found(i).penalty, n) as int,
                sum_of(|i: int| found(i).operations.substitutions, n) as int,
                sum_of(|i: int| found(i).operations.insert_delete, n) as int,
                sum_of(|i: int| found(i).operations.transpositions, n) as int,
            ]
        }),
    decreases n,
{
    if n > 0 {
        lemma_run_numbers(query, candidate, start, (n - 1) as nat);
        assert(query[n - 1].len() > 0);
        token_match_is_best(query[n - 1], candidate[start + n - 1].token);
        let before = alignment_at(query, candidate, start, (n - 1) as nat)->0;
        let numbers = numbers_of_alignment(before);
        assert(numbers[0] == before.distance && numbers[1] == before.position && numbers[2]
            == before.structure && numbers[3] == before.operations.substitutions && numbers[4]
            == before.operations.insert_delete && numbers[5]
            == before.operations.transpositions);
    }
}

/// Query tokens that are consecutive candidate tokens, one by one, align without an
/// edit.
pub proof fn tokens_align_with_themselves(
    query: Seq<Seq<char>>,
    candidate: Seq<PlacedToken>,
    start: int,
    limit: nat,
)
    requires
        0 <= start,
        start + query.len() <= candidate.len(),
        forall|i: int|
            0 <= i < query.len() ==> (#[trigger] query[i]).len() > 0 && candidate[start + i].token
                == query[i],
    ensures
        alignment_within(query, candidate, limit) matches Some(best) && best.distance == 0,
{
    let n = query.len();
    let found = |i: int| token_match(query[i], candidate[start + i].token)->0;
    assert forall|i: int| 0 <= i < n implies (#[trigger] found(i)).distance == 0 by {
        let token = query[i];
        assert(token.len() > 0);
        token_match_is_of_best_part(token, token, 0);
        edit_cost_is_zero_iff_equal(token, token);
        assert(token.subrange(0, token.len() as int) =~= token);
        assert(edit_cost(token, token.subrange(0, token.len() as int)).total() <= 0);
        assert(token_match_within(token, token, 0) is Some);
    }
    lemma_sum_of_zeros(|i: int| found(i).distance, n);
    assert(is_run(query, candidate, start, limit));
    alignment_is_of_best_run(query, candidate, limit);
    let best = alignment_within(query, candidate, limit)->0;
    let (run, numbers) = (numbers_of_run(query, candidate, start), numbers_of_alignment(best));
    if best.distance > 0 {
        assert(run[0] < numbers[0]);
        assert(is_lower(run, numbers));
    }
}

proof fn lemma_sum_of_zeros(term: spec_fn(int) -> nat, n: nat)
    requires
        forall|i: int| 0 <= i < n ==> #[trigger] term(i) == 0,
    ensures
        sum_of(term, n) == 0,
    decreases n,
{
    if n > 0 {
        lemma_sum_of_zeros(term, (n - 1) as nat);
    }
}

/// What a split is chosen by: its edits, what its parts leave out, where they
/// stand, and then which edits it takes.
pub open spec fn numbers_of_split(found: Split) -> Seq<int> {
    seq![
        found.distance as int,
        found.structure as int,
        found.position as int,
        found.operations.substitutions as int,
        found.operations.insert_delete as int,
        found.operations.transpositions as int,
    ]
}

/// The part number `i` of `candidate` where it is cut at `ends`.
pub open spec fn part_of(candidate: Seq<char>, ends: Seq<int>, i: int) -> Seq<char> {
    candidate.subrange(
        if i == 0 {
            0
        } else {
            ends[i - 1]
        },
        ends[i],
    )
}

/// What the matches of the query tokens with the parts add up to.
pub open spec fn numbers_of_cut(
    query: Seq<Seq<char>>,
    candidate: Seq<char>,
    ends: Seq<int>,
) -> Seq<int> {
    let found = |i: int| token_match(query[i], part_of(candidate, ends, i))->0;
    let n = query.len();
    seq![
        sum_of(|i: int| found(i).distance, n) as int,
        sum_of(|i: int| found(i).penalty, n) as int,
        sum_of(|i: int| found(i).position_rank, n) as int,
        sum_of(|i: int| found(i).operations.substitutions, n) as int,
        sum_of(|i: int| found(i).operations.insert_delete, n) as int,
        sum_of(|i: int| found(i).operations.transpositions, n) as int,
    ]
}

/// Whether `ends` cuts all of `candidate` into parts, one for each query token
/// and none empty, and their matches together take at most `limit` edits.
pub open spec fn is_cut(
    query: Seq<Seq<char>>,
    candidate: Seq<char>,
    ends: Seq<int>,
    limit: nat,
) -> bool {
    &&& ends.len() == query.len() > 0
    &&& ends[0] > 0
    &&& ends.last() == candidate.len()
    &&& forall|i: int, j: int| 0 <= i < j < ends.len() ==> ends[i] < ends[j]
    &&& forall|i: int| 0 <= i < query.len() ==> (#[trigger] query[i]).len() > 0
    &&& numbers_of_cut(query, candidate, ends)[0] <= limit
}

/// One candidate token matches several query tokens within `limit` edits if and
/// only if it can be cut into as many consecutive parts that match them one by
/// one with no more. The split is what the matches of such a cut add up to, and
/// no such cut adds up to less.
pub proof fn split_is_of_best_cut(query: Seq<Seq<char>>, candidate: Seq<char>, limit: nat)
    ensures
        split_within(query, candidate, limit) is Some <==> exists|ends: Seq<int>|
            #[trigger] is_cut(query, candidate, ends, limit),
        split_within(query, candidate, limit) matches Some(best) ==> {
            &&& best.distance <= limit
            &&& exists|ends: Seq<int>| #[trigger]
                is_cut(query, candidate, ends, limit) && numbers_of_cut(query, candidate, ends)
                    == numbers_of_split(best)
            &&& forall|ends: Seq<int>| #[trigger]
                is_cut(query, candidate, ends, limit) ==> !is_lower(
                    numbers_of_cut(query, candidate, ends),
                    numbers_of_split(best),
                )
        },
{
    let to = candidate.len() as int;
    assert forall|ends: Seq<int>| #[trigger] is_cut(query, candidate, ends, limit) implies {
        &&& split_within(query, candidate, limit) is Some
        &&& !is_lower(
            numbers_of_cut(query, candidate, ends),
            numbers_of_split(split_within(query, candidate, limit)->0),
        )
    } by {
        assert(is_split(ends, query.len(), 0, to));
        lemma_cut_numbers(query, candidate, 0, ends);
        split_is_best(query, candidate, 0, ends);
        let best = split_from(query, candidate, 0)->0;
        let other = split_match(query, candidate, 0, ends)->0;
        assert(!other.ranks_before(best));
        lemma_split_order(other, best);
        lemma_cut_from_start(query, candidate, ends);
    }
    if let Some(best) = split_within(query, candidate, limit) {
        assert(is_best_split(query, candidate, 0, best));
        let ends = choose|ends: Seq<int>| #[trigger]
            is_split(ends, query.len(), 0, to) && split_match(query, candidate, 0, ends) == Some(
                best,
            );
        lemma_cut_has_texts(query, candidate, 0, ends);
        lemma_cut_numbers(query, candidate, 0, ends);
        lemma_cut_from_start(query, candidate, ends);
        assert(is_cut(query, candidate, ends, limit));
    }
}

proof fn lemma_split_order(left: Split, right: Split)
    ensures
        left.ranks_before(right) == is_lower(numbers_of_split(left), numbers_of_split(right)),
{
    lemma_is_lower(numbers_of_split(left), numbers_of_split(right));
    reveal_with_fuel(is_lower_from, 8);
}

/// [`numbers_of_cut`] where the first part begins at `from`.
spec fn numbers_from(
    query: Seq<Seq<char>>,
    candidate: Seq<char>,
    from: int,
    ends: Seq<int>,
) -> Seq<int> {
    let found = |i: int| match_from(query, candidate, from, ends, i);
    let n = query.len();
    seq![
        sum_of(|i: int| found(i).distance, n) as int,
        sum_of(|i: int| found(i).penalty, n) as int,
        sum_of(|i: int| found(i).position_rank, n) as int,
        sum_of(|i: int| found(i).operations.substitutions, n) as int,
        sum_of(|i: int| found(i).operations.insert_delete, n) as int,
        sum_of(|i: int| found(i).operations.transpositions, n) as int,
    ]
}

spec fn match_from(
    query: Seq<Seq<char>>,
    candidate: Seq<char>,
    from: int,
    ends: Seq<int>,
    i: int,
) -> TokenMatch {
    token_match(
        query[i],
        candidate.subrange(
            if i == 0 {
                from
            } else {
                ends[i - 1]
            },
            ends[i],
        ),
    )->0
}

proof fn lemma_cut_from_start(query: Seq<Seq<char>>, candidate: Seq<char>, ends: Seq<int>)
    ensures
        numbers_from(query, candidate, 0, ends) == numbers_of_cut(query, candidate, ends),
{
    let n = query.len();
    let left = |i: int| match_from(query, candidate, 0, ends, i);
    let right = |i: int| token_match(query[i], part_of(candidate, ends, i))->0;
    lemma_same_sums(|i: int| left(i).distance, |i: int| right(i).distance, n);
    lemma_same_sums(|i: int| left(i).penalty, |i: int| right(i).penalty, n);
    lemma_same_sums(|i: int| left(i).position_rank, |i: int| right(i).position_rank, n);
    lemma_same_sums(
        |i: int| left(i).operations.substitutions,
        |i: int| right(i).operations.substitutions,
        n,
    );
    lemma_same_sums(
        |i: int| left(i).operations.insert_delete,
        |i: int| right(i).operations.insert_delete,
        n,
    );
    lemma_same_sums(
        |i: int| left(i).operations.transpositions,
        |i: int| right(i).operations.transpositions,
        n,
    );
}

pub(crate) proof fn lemma_same_sums(left: spec_fn(int) -> nat, right: spec_fn(int) -> nat, n: nat)
    requires
        forall|i: int| 0 <= i < n ==> #[trigger] left(i) == right(i),
    ensures
        sum_of(left, n) == sum_of(right, n),
    decreases n,
{
    if n > 0 {
        lemma_same_sums(left, right, (n - 1) as nat);
    }
}

proof fn lemma_sum_from_front(term: spec_fn(int) -> nat, rest: spec_fn(int) -> nat, n: nat)
    requires
        n > 0,
        forall|i: int| 0 <= i < n - 1 ==> #[trigger] rest(i) == term(i + 1),
    ensures
        sum_of(term, n) == term(0) + sum_of(rest, (n - 1) as nat),
    decreases n,
{
    if n > 1 {
        lemma_sum_from_front(term, rest, (n - 1) as nat);
        assert(rest(n - 2) == term(n - 1));
    } else {
        assert(sum_of(term, 0) == 0);
    }
}

proof fn lemma_cut_has_texts(
    query: Seq<Seq<char>>,
    candidate: Seq<char>,
    from: int,
    ends: Seq<int>,
)
    requires
        split_match(query, candidate, from, ends) is Some,
    ensures
        forall|i: int| 0 <= i < query.len() ==> (#[trigger] query[i]).len() > 0,
    decreases query.len(),
{
    if query.len() > 1 {
        let rest = query.drop_first();
        lemma_cut_has_texts(rest, candidate, ends[0], ends.drop_first());
        assert forall|i: int| 0 <= i < query.len() implies (#[trigger] query[i]).len() > 0 by {
            if i > 0 {
                assert(rest[i - 1] == query[i]);
            }
        }
    }
}

proof fn lemma_cut_numbers(
    query: Seq<Seq<char>>,
    candidate: Seq<char>,
    from: int,
    ends: Seq<int>,
)
    requires
        0 <= from,
        is_split(ends, query.len(), from, candidate.len() as int),
        forall|i: int| 0 <= i < query.len() ==> (#[trigger] query[i]).len() > 0,
    ensures
        split_match(query, candidate, from, ends) is Some,
        numbers_of_split(split_match(query, candidate, from, ends)->0) == numbers_from(
            query,
            candidate,
            from,
            ends,
        ),
    decreases query.len(),
{
    let n = query.len();
    assert(ends[0] <= candidate.len()) by {
        if n > 1 {
            assert(ends[0] < ends[n - 1]);
        }
    }
    assert(query[0].len() > 0);
    token_match_is_best(query[0], candidate.subrange(from, ends[0]));
    let first = token_match(query[0], candidate.subrange(from, ends[0]))->0;
    let found = |i: int| match_from(query, candidate, from, ends, i);
    assert(found(0) == first);
    if n == 1 {
        reveal_with_fuel(sum_of, 2);
    } else {
        let (less, later) = (query.drop_first(), ends.drop_first());
        assert(later[n - 2] == ends[n - 1]);
        assert forall|i: int| 0 <= i < less.len() implies (#[trigger] less[i]).len() > 0 by {
            assert(less[i] == query[i + 1]);
        }
        lemma_cut_numbers(less, candidate, ends[0], later);
        let rest = |i: int| match_from(less, candidate, ends[0], later, i);
        assert forall|i: int| 0 <= i < n - 1 implies #[trigger] rest(i) == found(i + 1) by {
            assert(less[i] == query[i + 1]);
            assert(later[i] == ends[i + 1]);
            if i > 0 {
                assert(later[i - 1] == ends[i]);
            }
        }
        lemma_sum_from_front(|i: int| found(i).distance, |i: int| rest(i).distance, n);
        lemma_sum_from_front(|i: int| found(i).penalty, |i: int| rest(i).penalty, n);
        lemma_sum_from_front(|i: int| found(i).position_rank, |i: int| rest(i).position_rank, n);
        lemma_sum_from_front(
            |i: int| found(i).operations.substitutions,
            |i: int| rest(i).operations.substitutions,
            n,
        );
        lemma_sum_from_front(
            |i: int| found(i).operations.insert_delete,
            |i: int| rest(i).operations.insert_delete,
            n,
        );
        lemma_sum_from_front(
            |i: int| found(i).operations.transpositions,
            |i: int| rest(i).operations.transpositions,
            n,
        );
        let tail = split_match(less, candidate, ends[0], later)->0;
        let numbers = numbers_of_split(tail);
        assert(numbers[0] == tail.distance && numbers[1] == tail.structure && numbers[2]
            == tail.position && numbers[3] == tail.operations.substitutions && numbers[4]
            == tail.operations.insert_delete && numbers[5] == tail.operations.transpositions);
    }
}

} // verus!
