//! Where a text holds a query, up to edits.

use vstd::prelude::*;

use crate::distance::{
    edit_cost, edit_cost_is_bounded_by_lengths, edit_cost_is_zero_iff_equal, prefix_cost, swaps,
};
use crate::unicode::chars_of;

verus! {

/// How many edits turn `query` into the part of `text` from `start` to `end`.
pub open spec fn part_cost(query: Seq<char>, text: Seq<char>, start: int, end: int) -> nat {
    edit_cost(query, text.subrange(start, end)).total()
}

/// Whether no part of `text` takes fewer edits than this one, and those that end
/// earlier take more.
pub open spec fn is_best_part(query: Seq<char>, text: Seq<char>, start: int, end: int) -> bool {
    &&& 0 <= start <= end <= text.len()
    &&& forall|other: int, other_end: int|
        0 <= other <= other_end <= text.len() ==> {
            &&& part_cost(query, text, start, end) <= #[trigger] part_cost(
                query,
                text,
                other,
                other_end,
            )
            &&& other_end < end ==> part_cost(query, text, start, end) < part_cost(
                query,
                text,
                other,
                other_end,
            )
        }
}

/// A best part of `text`: where it begins and where it ends.
pub open spec fn best_part(query: Seq<char>, text: Seq<char>) -> (int, int) {
    choose|start: int, end: int| is_best_part(query, text, start, end)
}

/// The least number of edits that turn `query` into a part of `text`, if it is
/// at most half the query's length, and where the part would begin if it were as
/// long as the query and ended where the first such part ends.
pub open spec fn fuzzy_match(query: Seq<char>, text: Seq<char>) -> Option<(nat, nat)> {
    let (start, end) = best_part(query, text);
    let cost = part_cost(query, text, start, end);
    if cost > query.len() / 2 {
        None
    } else if end < query.len() {
        Some((cost, 0))
    } else {
        Some((cost, (end - query.len()) as nat))
    }
}

/// The least number of edits that turn the first `i` characters of `query` into
/// a part of `text` that ends at `j`.
spec fn cell(query: Seq<char>, text: Seq<char>, i: nat, j: nat) -> nat
    decreases i + j,
{
    if i == 0 {
        0
    } else if j == 0 {
        i
    } else {
        let before = cell(query, text, (i - 1) as nat, (j - 1) as nat);
        let aligned = if query[i - 1] == text[j - 1] {
            before
        } else {
            before + 1
        };
        let deleted = cell(query, text, (i - 1) as nat, j) + 1;
        let inserted = cell(query, text, i, (j - 1) as nat) + 1;
        let best = lesser(lesser(deleted, inserted), aligned);
        if swaps(query, text, i, j) {
            lesser(best, cell(query, text, (i - 2) as nat, (j - 2) as nat) + 1)
        } else {
            best
        }
    }
}

spec fn lesser(left: nat, right: nat) -> nat {
    if right < left {
        right
    } else {
        left
    }
}

proof fn lemma_cell_bound(query: Seq<char>, text: Seq<char>, i: nat, j: nat)
    ensures
        cell(query, text, i, j) <= i,
    decreases i,
{
    if i > 0 && j > 0 {
        lemma_cell_bound(query, text, (i - 1) as nat, j);
    }
}

/// What a row of the table holds is no more than the cost of any part that ends
/// there.
proof fn lemma_cell_is_lower(query: Seq<char>, text: Seq<char>, i: nat, j: nat, start: nat)
    requires
        i <= query.len(),
        start <= j <= text.len(),
    ensures
        cell(query, text, i, j) <= prefix_cost(
            query,
            text.skip(start as int),
            i,
            (j - start) as nat,
        ).total(),
    decreases i + j,
{
    let rest = text.skip(start as int);
    let len = (j - start) as nat;
    lemma_cell_bound(query, text, i, j);
    if i > 0 && len > 0 {
        lemma_cell_is_lower(query, text, (i - 1) as nat, (j - 1) as nat, start);
        lemma_cell_is_lower(query, text, (i - 1) as nat, j, start);
        lemma_cell_is_lower(query, text, i, (j - 1) as nat, start);
        assert(rest[len - 1] == text[j - 1]);
        if swaps(query, rest, i, len) {
            assert(rest[len - 2] == text[j - 2]);
            lemma_cell_is_lower(query, text, (i - 2) as nat, (j - 2) as nat, start);
        }
    }
}

/// What a row of the table holds is the cost of some part that ends there.
proof fn lemma_cell_is_attained(query: Seq<char>, text: Seq<char>, i: nat, j: nat) -> (start: nat)
    requires
        i <= query.len(),
        j <= text.len(),
    ensures
        start <= j,
        cell(query, text, i, j) == prefix_cost(
            query,
            text.skip(start as int),
            i,
            (j - start) as nat,
        ).total(),
    decreases i + j,
{
    if i == 0 {
        j
    } else if j == 0 {
        0
    } else {
        let (less_i, less_j) = ((i - 1) as nat, (j - 1) as nat);
        let before = cell(query, text, less_i, less_j);
        let aligned = if query[i - 1] == text[j - 1] {
            before
        } else {
            before + 1
        };
        let deleted = cell(query, text, less_i, j) + 1;
        let inserted = cell(query, text, i, less_j) + 1;
        let least = cell(query, text, i, j);
        let start = if least == aligned {
            lemma_cell_is_attained(query, text, less_i, less_j)
        } else if least == deleted {
            lemma_cell_is_attained(query, text, less_i, j)
        } else if least == inserted {
            lemma_cell_is_attained(query, text, i, less_j)
        } else {
            lemma_cell_is_attained(query, text, (i - 2) as nat, (j - 2) as nat)
        };
        lemma_cell_is_lower(query, text, i, j, start);
        let rest = text.skip(start as int);
        let len = (j - start) as nat;
        if len > 0 {
            assert(rest[len - 1] == text[j - 1]);
        }
        if len > 1 {
            assert(rest[len - 2] == text[j - 2]);
        }
        start
    }
}

/// A prefix costs the same whatever follows it.
proof fn lemma_prefix_is_enough(
    query: Seq<char>,
    left: Seq<char>,
    right: Seq<char>,
    i: nat,
    j: nat,
)
    requires
        j <= left.len(),
        j <= right.len(),
        forall|k: int| 0 <= k < j ==> left[k] == right[k],
    ensures
        prefix_cost(query, left, i, j) == prefix_cost(query, right, i, j),
    decreases i + j,
{
    if i > 0 && j > 0 {
        lemma_prefix_is_enough(query, left, right, (i - 1) as nat, (j - 1) as nat);
        lemma_prefix_is_enough(query, left, right, (i - 1) as nat, j);
        lemma_prefix_is_enough(query, left, right, i, (j - 1) as nat);
        if i > 1 && j > 1 {
            lemma_prefix_is_enough(query, left, right, (i - 2) as nat, (j - 2) as nat);
        }
    }
}

/// The last row of the table holds the least cost of the parts that end there.
proof fn lemma_last_row(query: Seq<char>, text: Seq<char>, end: nat) -> (start: nat)
    requires
        end <= text.len(),
    ensures
        start <= end,
        cell(query, text, query.len(), end) == part_cost(query, text, start as int, end as int),
        forall|other: int|
            0 <= other <= end ==> cell(query, text, query.len(), end) <= #[trigger] part_cost(
                query,
                text,
                other,
                end as int,
            ),
{
    let start = lemma_cell_is_attained(query, text, query.len(), end);
    assert forall|other: int| 0 <= other <= end implies {
        &&& cell(query, text, query.len(), end) <= #[trigger] part_cost(
            query,
            text,
            other,
            end as int,
        )
        &&& part_cost(query, text, other, end as int) == prefix_cost(
            query,
            text.skip(other),
            query.len(),
            (end - other) as nat,
        ).total()
    } by {
        lemma_cell_is_lower(query, text, query.len(), end, other as nat);
        lemma_prefix_is_enough(
            query,
            text.skip(other),
            text.subrange(other, end as int),
            query.len(),
            (end - other) as nat,
        );
    }
    assert(part_cost(query, text, start as int, end as int) == cell(
        query,
        text,
        query.len(),
        end,
    ));
    start
}

/// Once a row is over the limit everywhere, so are the rows after it.
proof fn lemma_rows_stay_over(
    query: Seq<char>,
    text: Seq<char>,
    i: nat,
    later: nat,
    j: nat,
    limit: nat,
)
    requires
        0 < i <= later,
        0 < text.len(),
        j <= text.len(),
        forall|k: nat| 0 < k <= text.len() ==> #[trigger] cell(query, text, i, k) > limit,
    ensures
        cell(query, text, later, j) > limit,
    decreases later + j,
{
    assert(cell(query, text, i, 1) > limit);
    lemma_cell_bound(query, text, i, 1);
    if later > i && j > 0 {
        lemma_rows_stay_over(query, text, i, (later - 1) as nat, (j - 1) as nat, limit);
        lemma_rows_stay_over(query, text, i, (later - 1) as nat, j, limit);
        lemma_rows_stay_over(query, text, i, later, (j - 1) as nat, limit);
        if swaps(query, text, later, j) {
            if later - 2 >= i {
                lemma_rows_stay_over(query, text, i, (later - 2) as nat, (j - 2) as nat, limit);
            } else {
                assert(cell(query, text, i, (j - 1) as nat) > limit);
            }
        }
    }
}

/// Where the last row has its first least entry, a best part ends.
proof fn lemma_best_end(query: Seq<char>, text: Seq<char>, end: nat)
    requires
        end <= text.len(),
        forall|k: nat|
            k <= text.len() ==> cell(query, text, query.len(), end) <= #[trigger] cell(
                query,
                text,
                query.len(),
                k,
            ),
        forall|k: nat|
            k < end ==> cell(query, text, query.len(), end) < #[trigger] cell(
                query,
                text,
                query.len(),
                k,
            ),
    ensures
        is_best_part(query, text, best_part(query, text).0, best_part(query, text).1),
        best_part(query, text).1 == end,
        part_cost(query, text, best_part(query, text).0, end as int) == cell(
            query,
            text,
            query.len(),
            end,
        ),
{
    let start = lemma_last_row(query, text, end);
    let cost = part_cost(query, text, start as int, end as int);
    assert forall|other: int, other_end: int| 0 <= other <= other_end <= text.len() implies {
        &&& cost <= #[trigger] part_cost(query, text, other, other_end)
        &&& other_end < end ==> cost < part_cost(query, text, other, other_end)
    } by {
        let found = lemma_last_row(query, text, other_end as nat);
        assert(cell(query, text, query.len(), end) <= cell(
            query,
            text,
            query.len(),
            other_end as nat,
        ));
    }
    assert(is_best_part(query, text, start as int, end as int));
    let (first, last) = best_part(query, text);
    assert(is_best_part(query, text, first, last));
    assert(part_cost(query, text, first, last) == cost);
}

/// The first least of the first `n + 1` entries of the last row.
proof fn lemma_first_least(query: Seq<char>, text: Seq<char>, n: nat) -> (end: nat)
    ensures
        end <= n,
        forall|k: nat|
            k <= n ==> cell(query, text, query.len(), end) <= #[trigger] cell(
                query,
                text,
                query.len(),
                k,
            ),
        forall|k: nat|
            k < end ==> cell(query, text, query.len(), end) < #[trigger] cell(
                query,
                text,
                query.len(),
                k,
            ),
    decreases n,
{
    if n == 0 {
        0
    } else {
        let before = lemma_first_least(query, text, (n - 1) as nat);
        if cell(query, text, query.len(), n) < cell(query, text, query.len(), before) {
            n
        } else {
            before
        }
    }
}

/// Every text has a best part.
pub proof fn best_part_is_best(query: Seq<char>, text: Seq<char>)
    ensures
        is_best_part(query, text, best_part(query, text).0, best_part(query, text).1),
{
    let end = lemma_first_least(query, text, text.len());
    lemma_best_end(query, text, end);
}

/// A text matches if and only if some part of it takes no more edits than half
/// the query's length, and the distance is that of the part with the fewest.
pub proof fn fuzzy_match_is_least(query: Seq<char>, text: Seq<char>, start: int, end: int)
    requires
        0 <= start <= end <= text.len(),
    ensures
        part_cost(query, text, start, end) <= query.len() / 2 ==> fuzzy_match(query, text) is Some,
        fuzzy_match(query, text) matches Some((distance, at)) ==> distance <= query.len() / 2
            && distance <= part_cost(query, text, start, end) && at <= text.len(),
{
    best_part_is_best(query, text);
}

/// A query that stands in a text as it is matches without an edit.
pub proof fn part_matches_itself(query: Seq<char>, text: Seq<char>, start: int)
    requires
        0 <= start,
        start + query.len() <= text.len(),
        text.subrange(start, start + query.len()) == query,
    ensures
        fuzzy_match(query, text) matches Some((distance, at)) && distance == 0 && at <= start,
{
    let end = start + query.len();
    best_part_is_best(query, text);
    edit_cost_is_zero_iff_equal(query, query);
    assert(part_cost(query, text, start, end) == 0);
    let (first, last) = best_part(query, text);
    assert(part_cost(query, text, first, last) == 0);
    if last > end {
        assert(part_cost(query, text, first, last) < part_cost(query, text, start, end));
    }
}

proof fn lemma_short_ends(query: Seq<char>, text: Seq<char>, end: nat)
    requires
        end <= text.len(),
    ensures
        cell(query, text, query.len(), end) >= query.len() - end,
{
    let start = lemma_last_row(query, text, end);
    edit_cost_is_bounded_by_lengths(query, text.subrange(start as int, end as int));
}

/// The row of the table for `i` characters of the query, from those for one and
/// for two characters less.
fn next_row(
    query: &Vec<char>,
    text: &Vec<char>,
    i: usize,
    earlier: &Vec<usize>,
    previous: &Vec<usize>,
) -> (row: Vec<usize>)
    requires
        0 < i <= query@.len(),
        text@.len() < usize::MAX,
        previous@.len() == text@.len() + 1,
        forall|j: int|
            0 <= j <= text@.len() ==> #[trigger] previous@[j] == cell(
                query@,
                text@,
                (i - 1) as nat,
                j as nat,
            ),
        i > 1 ==> earlier@.len() == text@.len() + 1,
        i > 1 ==> forall|j: int|
            0 <= j <= text@.len() ==> #[trigger] earlier@[j] == cell(
                query@,
                text@,
                (i - 2) as nat,
                j as nat,
            ),
    ensures
        row@.len() == text@.len() + 1,
        forall|j: int|
            0 <= j <= text@.len() ==> #[trigger] row@[j] == cell(
                query@,
                text@,
                i as nat,
                j as nat,
            ),
{
    let mut row: Vec<usize> = Vec::new();
    row.push(i);
    let mut j: usize = 1;
    while j <= text.len()
        invariant
            0 < i <= query@.len(),
            1 <= j <= text@.len() + 1,
            text@.len() < usize::MAX,
            previous@.len() == text@.len() + 1,
            forall|j: int|
                0 <= j <= text@.len() ==> #[trigger] previous@[j] == cell(
                    query@,
                    text@,
                    (i - 1) as nat,
                    j as nat,
                ),
            i > 1 ==> earlier@.len() == text@.len() + 1,
            i > 1 ==> forall|j: int|
                0 <= j <= text@.len() ==> #[trigger] earlier@[j] == cell(
                    query@,
                    text@,
                    (i - 2) as nat,
                    j as nat,
                ),
            row@.len() == j,
            forall|k: int|
                0 <= k < j ==> #[trigger] row@[k] == cell(query@, text@, i as nat, k as nat),
        decreases text@.len() + 1 - j,
    {
        proof {
            lemma_cell_bound(query@, text@, (i - 1) as nat, (j - 1) as nat);
            lemma_cell_bound(query@, text@, (i - 1) as nat, j as nat);
            assert(row@[j - 1] == cell(query@, text@, i as nat, (j - 1) as nat));
            lemma_cell_bound(query@, text@, i as nat, (j - 1) as nat);
        }
        let before: usize = previous[j - 1];
        let aligned: usize = if query[i - 1] == text[j - 1] {
            before
        } else {
            before + 1
        };
        let deleted: usize = previous[j] + 1;
        let mut best: usize = aligned;
        if deleted < best {
            best = deleted;
        }
        if row[j - 1] < best && row[j - 1] + 1 < best {
            best = row[j - 1] + 1;
        }
        if i > 1 && j > 1 && query[i - 1] == text[j - 2] && query[i - 2] == text[j - 1] {
            proof {
                assert(earlier@[j - 2] == cell(query@, text@, (i - 2) as nat, (j - 2) as nat));
                lemma_cell_bound(query@, text@, (i - 2) as nat, (j - 2) as nat);
            }
            let swapped: usize = earlier[j - 2] + 1;
            if swapped < best {
                best = swapped;
            }
        }
        row.push(best);
        j = j + 1;
    }
    row
}

/// Whether the row is over the limit everywhere but perhaps at its beginning.
fn is_over(row: &Vec<usize>, limit: usize) -> (over: bool)
    ensures
        over == forall|j: int| 0 < j < row@.len() ==> #[trigger] row@[j] > limit,
{
    let mut j: usize = 1;
    while j < row.len()
        invariant
            1 <= j,
            forall|k: int| 0 < k < j && k < row@.len() ==> #[trigger] row@[k] > limit,
        decreases row@.len() - j,
    {
        if row[j] <= limit {
            return false;
        }
        j = j + 1;
    }
    true
}

/// The least number of edits that turn `query` into a part of `text`, if it is
/// at most half the query's length, and where the part would begin if it were as
/// long as the query and ended where the first such part ends.
pub(crate) fn find_part(query: &str, text: &str) -> (found: Option<(usize, usize)>)
    ensures
        part_found(found) == fuzzy_match(query@, text@),
        found matches Some((distance, at)) ==> at <= text@.len(),
{
    let query_chars = chars_of(query);
    let text_chars = chars_of(text);
    let q_len = query_chars.len();
    let t_len = text_chars.len();
    let limit = q_len / 2;
    if q_len == 0 {
        proof {
            lemma_best_end(query@, text@, 0);
        }
        return Some((0, 0));
    }
    proof {
        best_part_is_best(query@, text@);
    }
    if t_len < q_len - limit {
        proof {
            let (start, end) = best_part(query@, text@);
            edit_cost_is_bounded_by_lengths(query@, text@.subrange(start, end));
        }
        return None;
    }
    let mut earlier: Vec<usize> = Vec::new();
    let mut previous: Vec<usize> = Vec::new();
    let mut j: usize = 0;
    while j <= t_len
        invariant
            j <= t_len + 1,
            t_len == text@.len(),
            4 * t_len <= isize::MAX,
            previous@.len() == j,
            forall|k: int|
                0 <= k < j ==> #[trigger] previous@[k] == cell(query@, text@, 0, k as nat),
        decreases t_len + 1 - j,
    {
        previous.push(0);
        j = j + 1;
    }
    let mut i: usize = 1;
    while i <= q_len
        invariant
            1 <= i <= q_len + 1,
            q_len == query@.len(),
            t_len == text@.len(),
            4 * q_len <= isize::MAX,
            4 * t_len <= isize::MAX,
            0 < t_len,
            limit == q_len / 2,
            query_chars@ == query@,
            text_chars@ == text@,
            previous@.len() == t_len + 1,
            forall|j: int|
                0 <= j <= t_len ==> #[trigger] previous@[j] == cell(
                    query@,
                    text@,
                    (i - 1) as nat,
                    j as nat,
                ),
            i > 1 ==> earlier@.len() == t_len + 1,
            i > 1 ==> forall|j: int|
                0 <= j <= t_len ==> #[trigger] earlier@[j] == cell(
                    query@,
                    text@,
                    (i - 2) as nat,
                    j as nat,
                ),
        decreases q_len + 1 - i,
    {
        let row = next_row(&query_chars, &text_chars, i, &earlier, &previous);
        if is_over(&row, limit) {
            proof {
                assert forall|k: nat| 0 < k <= text@.len() implies #[trigger] cell(
                    query@,
                    text@,
                    i as nat,
                    k,
                ) > limit by {
                    assert(row@[k as int] > limit);
                }
                best_part_is_best(query@, text@);
                let (start, end) = best_part(query@, text@);
                let found = lemma_last_row(query@, text@, end as nat);
                lemma_rows_stay_over(
                    query@,
                    text@,
                    i as nat,
                    q_len as nat,
                    end as nat,
                    limit as nat,
                );
            }
            return None;
        }
        earlier = previous;
        previous = row;
        i = i + 1;
    }
    let mut end: usize = q_len - limit;
    let mut next: usize = end + 1;
    while next <= t_len
        invariant
            q_len == query@.len(),
            t_len == text@.len(),
            4 * t_len <= isize::MAX,
            q_len - limit <= end < next <= t_len + 1,
            previous@.len() == t_len + 1,
            forall|j: int|
                0 <= j <= t_len ==> #[trigger] previous@[j] == cell(
                    query@,
                    text@,
                    q_len as nat,
                    j as nat,
                ),
            forall|k: int|
                q_len - limit <= k < next ==> previous@[end as int] <= #[trigger] previous@[k],
            forall|k: int|
                q_len - limit <= k < end ==> previous@[end as int] < #[trigger] previous@[k],
        decreases t_len + 1 - next,
    {
        if previous[next] < previous[end] {
            end = next;
        }
        next = next + 1;
    }
    let distance: usize = previous[end];
    if distance > limit {
        proof {
            let (start, last) = best_part(query@, text@);
            let found = lemma_last_row(query@, text@, last as nat);
            lemma_short_ends(query@, text@, last as nat);
            if last >= q_len - limit {
                assert(previous@[end as int] <= previous@[last]);
            }
        }
        return None;
    }
    proof {
        assert forall|k: nat| k <= text@.len() implies {
            &&& cell(query@, text@, query@.len(), end as nat) <= #[trigger] cell(
                query@,
                text@,
                query@.len(),
                k,
            )
            &&& k < end ==> cell(query@, text@, query@.len(), end as nat) < cell(
                query@,
                text@,
                query@.len(),
                k,
            )
        } by {
            lemma_short_ends(query@, text@, k);
            if k >= q_len - limit {
                assert(previous@[end as int] <= previous@[k as int]);
            }
        }
        lemma_best_end(query@, text@, end as nat);
    }
    if end < q_len {
        Some((distance, 0))
    } else {
        Some((distance, end - q_len))
    }
}

/// A result in unbounded numbers.
pub open spec fn part_found(found: Option<(usize, usize)>) -> Option<(nat, nat)> {
    match found {
        Some((distance, at)) => Some((distance as nat, at as nat)),
        None => None,
    }
}

} // verus!
