//! What sorting puts first.

use vstd::prelude::*;

use crate::command::CommandMatch;
use crate::message::MessageMatch;
use crate::metadata::MetadataCandidate;
use crate::path::typo::PathMatch;
use crate::ranking::{result_before, SearchRank};
use crate::sort::{is_stable_sorting, Ranked};

verus! {

/// Whether `sorted` holds the items of `items`, each once and where `places` says
/// it was.
pub open spec fn is_rearranged<T>(places: Seq<int>, items: Seq<T>, sorted: Seq<T>) -> bool {
    &&& places.len() == items.len()
    &&& sorted.len() == items.len()
    &&& forall|i: int|
        0 <= i < sorted.len() ==> 0 <= #[trigger] places[i] < items.len() && sorted[i]
            == items[places[i]]
    &&& forall|i: int, j: int|
        0 <= i < j < places.len() ==> #[trigger] places[i] != #[trigger] places[j]
}

/// Sorting rearranges the items, puts none before one that ranks before it, and
/// leaves items of which neither ranks before the other as they were.
pub proof fn sorting_puts_the_better_first<T: Ranked>(
    places: Seq<int>,
    items: Seq<T>,
    sorted: Seq<T>,
    i: int,
    j: int,
)
    requires
        is_stable_sorting(places, items, sorted),
        0 <= i < j < sorted.len(),
    ensures
        is_rearranged(places, items, sorted),
        !sorted[j].ranks_before(sorted[i]),
        !sorted[i].ranks_before(sorted[j]) ==> places[i] < places[j],
{
    T::ranking_is_weak_order();
    let before = |left: T, right: T| left.ranks_before(right);
    assert(is_rearranged(places, items, sorted)) by {
        assert forall|k: int| 0 <= k < sorted.len() implies 0 <= #[trigger] places[k] < items.len()
            && sorted[k] == items[places[k]] by {
            assert(sorted[k] == items[places[k]]);
        }
    }
    if sorted[i].ranks_before(sorted[j]) && sorted[j].ranks_before(sorted[i]) {
        assert(before(sorted[i], sorted[j]) && before(sorted[j], sorted[i]));
        assert(before(sorted[i], sorted[i]));
    }
}

/// Matches are sorted as they rank: paths and commands by how they match, messages
/// by the order of messages, records by rank, score and key.
pub proof fn matches_are_sorted_as_they_rank(
    path: PathMatch<'_>,
    other_path: PathMatch<'_>,
    command: CommandMatch<'_>,
    other_command: CommandMatch<'_>,
    message: MessageMatch<'_>,
    other_message: MessageMatch<'_>,
    record: (MetadataCandidate<'_>, SearchRank),
    other_record: (MetadataCandidate<'_>, SearchRank),
)
    ensures
        path.ranks_before(other_path) == path@.ranks_before(other_path@),
        command.ranks_before(other_command) == command@.ranks_before(other_command@),
        message.ranks_before(other_message) == message.precedes(other_message),
        record.ranks_before(other_record) == result_before(
            record.1,
            record.0.score,
            record.0.key@,
            other_record.1,
            other_record.0.score,
            other_record.0.key@,
        ),
{
}

} // verus!
