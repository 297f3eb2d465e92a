//! The keys by which matches are ranked, and their order.

use std::cmp::Ordering;

use vstd::prelude::*;

use crate::distance::{EditCost, OperationProfile};
use crate::order::{is_lower, is_lower_from, lemma_is_lower};
use crate::score::{score_rank_is_injective, Score};
use crate::text::{comes_before, text_before, text_order_is_total, text_order_is_transitive};

pub use crate::score::ratio_milli;

verus! {

/// What a comparison answers: `less` if the left side comes first, `greater` if
/// the right side does.
pub open spec fn is_ordering(ordering: Ordering, less: bool, greater: bool) -> bool {
    match ordering {
        Ordering::Less => less,
        Ordering::Equal => !less && !greater,
        Ordering::Greater => !less && greater,
    }
}

pub(crate) fn ordering_of(less: bool, greater: bool) -> (ordering: Ordering)
    ensures
        is_ordering(ordering, less, greater),
{
    if less {
        Ordering::Less
    } else if greater {
        Ordering::Greater
    } else {
        Ordering::Equal
    }
}

/// What a typo match is ranked by.
#[derive(Clone, Copy, Debug)]
pub struct TypoSortKey<'a> {
    pub distance: usize,
    pub operations: OperationProfile,
    pub ratio_milli: usize,
    pub position: usize,
    pub structure: usize,
    pub score: Score,
    pub secondary: usize,
    pub key: &'a str,
}

/// A [`TypoSortKey`] in numbers, the score by its rank.
pub struct TypoKey {
    pub distance: nat,
    pub operations: EditCost,
    pub ratio_milli: nat,
    pub position: nat,
    pub structure: nat,
    pub score: int,
    pub secondary: nat,
    pub key: Seq<char>,
}

impl View for TypoSortKey<'_> {
    type V = TypoKey;

    open spec fn view(&self) -> TypoKey {
        TypoKey {
            distance: self.distance as nat,
            operations: self.operations@,
            ratio_milli: self.ratio_milli as nat,
            position: self.position as nat,
            structure: self.structure as nat,
            score: self.score.rank(),
            secondary: self.secondary as nat,
            key: self.key@,
        }
    }
}

impl TypoKey {
    /// Whether the keys agree in all that says how good the match is and how
    /// much it counts.
    pub open spec fn ties(self, other: TypoKey) -> bool {
        &&& self.distance == other.distance
        &&& self.operations == other.operations
        &&& self.ratio_milli == other.ratio_milli
        &&& self.position == other.position
        &&& self.structure == other.structure
        &&& self.score == other.score
    }

    /// The order: distance, operations, ratio, position, structure, the higher
    /// score, the secondary number, the key.
    pub open spec fn ranks_before(self, other: TypoKey) -> bool {
        if self.distance != other.distance {
            self.distance < other.distance
        } else if self.operations != other.operations {
            self.operations.ranks_before(other.operations)
        } else if self.ratio_milli != other.ratio_milli {
            self.ratio_milli < other.ratio_milli
        } else if self.position != other.position {
            self.position < other.position
        } else if self.structure != other.structure {
            self.structure < other.structure
        } else if self.score != other.score {
            self.score > other.score
        } else if self.secondary != other.secondary {
            self.secondary < other.secondary
        } else {
            text_before(self.key, other.key)
        }
    }
}

impl TypoSortKey<'_> {
    fn ranks_before(&self, other: &TypoSortKey<'_>) -> (before: bool)
        ensures
            before == self@.ranks_before(other@),
    {
        if self.distance != other.distance {
            self.distance < other.distance
        } else if self.operations != other.operations {
            self.operations.ranks_before(&other.operations)
        } else if self.ratio_milli != other.ratio_milli {
            self.ratio_milli < other.ratio_milli
        } else if self.position != other.position {
            self.position < other.position
        } else if self.structure != other.structure {
            self.structure < other.structure
        } else if self.score.bits != other.score.bits {
            self.score.exceeds(&other.score)
        } else if self.secondary != other.secondary {
            self.secondary < other.secondary
        } else {
            comes_before(self.key, other.key)
        }
    }
}

/// The order of typo matches.
pub fn compare_typo_sort_keys(left: &TypoSortKey<'_>, right: &TypoSortKey<'_>) -> (ordering:
    Ordering)
    ensures
        is_ordering(ordering, left@.ranks_before(right@), right@.ranks_before(left@)),
{
    ordering_of(left.ranks_before(right), right.ranks_before(left))
}

/// Whether nothing but the tie-breaks of last resort tells the two matches
/// apart.
pub fn typo_keys_are_ambiguous(left: &TypoSortKey<'_>, right: &TypoSortKey<'_>) -> (ambiguous: bool)
    ensures
        ambiguous == left@.ties(right@),
{
    left.distance == right.distance && left.operations == right.operations && left.ratio_milli
        == right.ratio_milli && left.position == right.position && left.structure == right.structure
        && left.score.bits == right.score.bits
}

/// Of two typo keys just one comes first, unless they are the same.
pub proof fn typo_order_is_total(left: TypoKey, right: TypoKey)
    ensures
        !(left.ranks_before(right) && right.ranks_before(left)),
        !left.ranks_before(right) && !right.ranks_before(left) <==> left == right,
{
    text_order_is_total(left.key, right.key);
}

/// The order of typo keys carries over from one to the next.
pub proof fn typo_order_is_transitive(left: TypoKey, middle: TypoKey, right: TypoKey)
    requires
        left.ranks_before(middle),
        middle.ranks_before(right),
    ensures
        left.ranks_before(right),
{
    if text_before(left.key, middle.key) && text_before(middle.key, right.key) {
        text_order_is_transitive(left.key, middle.key, right.key);
    }
}

/// What a typo match of a path is ranked by. The scope is carried along and
/// does not count.
#[derive(Clone, Copy, Debug)]
pub struct PathTypoSortKey<'a, S> {
    pub distance: usize,
    pub operations: OperationProfile,
    pub ratio_milli: usize,
    pub scope: S,
    pub position: usize,
    pub structure: usize,
    pub score: Score,
    pub path_depth: usize,
    pub key: &'a str,
}

/// A [`PathTypoSortKey`] in numbers, the score by its rank.
pub struct PathTypoKey {
    pub distance: nat,
    pub operations: EditCost,
    pub ratio_milli: nat,
    pub position: nat,
    pub score: int,
    pub structure: nat,
    pub path_depth: nat,
    pub key: Seq<char>,
}

impl<S> View for PathTypoSortKey<'_, S> {
    type V = PathTypoKey;

    open spec fn view(&self) -> PathTypoKey {
        PathTypoKey {
            distance: self.distance as nat,
            operations: self.operations@,
            ratio_milli: self.ratio_milli as nat,
            position: self.position as nat,
            score: self.score.rank(),
            structure: self.structure as nat,
            path_depth: self.path_depth as nat,
            key: self.key@,
        }
    }
}

impl PathTypoKey {
    /// Whether the keys agree in all that says how good the match is and how
    /// much it counts.
    pub open spec fn ties(self, other: PathTypoKey) -> bool {
        &&& self.distance == other.distance
        &&& self.operations == other.operations
        &&& self.ratio_milli == other.ratio_milli
        &&& self.position == other.position
        &&& self.score == other.score
        &&& self.structure == other.structure
    }

    /// The order: distance, operations, ratio, position, the higher score,
    /// structure, the depth of the path, the path.
    pub open spec fn ranks_before(self, other: PathTypoKey) -> bool {
        if self.distance != other.distance {
            self.distance < other.distance
        } else if self.operations != other.operations {
            self.operations.ranks_before(other.operations)
        } else if self.ratio_milli != other.ratio_milli {
            self.ratio_milli < other.ratio_milli
        } else if self.position != other.position {
            self.position < other.position
        } else if self.score != other.score {
            self.score > other.score
        } else if self.structure != other.structure {
            self.structure < other.structure
        } else if self.path_depth != other.path_depth {
            self.path_depth < other.path_depth
        } else {
            text_before(self.key, other.key)
        }
    }
}

impl<S> PathTypoSortKey<'_, S> {
    fn ranks_before(&self, other: &PathTypoSortKey<'_, S>) -> (before: bool)
        ensures
            before == self@.ranks_before(other@),
    {
        if self.distance != other.distance {
            self.distance < other.distance
        } else if self.operations != other.operations {
            self.operations.ranks_before(&other.operations)
        } else if self.ratio_milli != other.ratio_milli {
            self.ratio_milli < other.ratio_milli
        } else if self.position != other.position {
            self.position < other.position
        } else if self.score.bits != other.score.bits {
            self.score.exceeds(&other.score)
        } else if self.structure != other.structure {
            self.structure < other.structure
        } else if self.path_depth != other.path_depth {
            self.path_depth < other.path_depth
        } else {
            comes_before(self.key, other.key)
        }
    }
}

/// The order of typo matches of paths.
pub fn compare_path_typo_sort_keys<S>(
    left: &PathTypoSortKey<'_, S>,
    right: &PathTypoSortKey<'_, S>,
) -> (ordering: Ordering)
    ensures
        is_ordering(ordering, left@.ranks_before(right@), right@.ranks_before(left@)),
{
    ordering_of(left.ranks_before(right), right.ranks_before(left))
}

/// Whether nothing but the tie-breaks of last resort tells the two matches
/// apart.
pub fn path_typo_keys_are_ambiguous<S>(
    left: &PathTypoSortKey<'_, S>,
    right: &PathTypoSortKey<'_, S>,
) -> (ambiguous: bool)
    ensures
        ambiguous == left@.ties(right@),
{
    left.distance == right.distance && left.operations == right.operations && left.ratio_milli
        == right.ratio_milli && left.position == right.position && left.score.bits
        == right.score.bits && left.structure == right.structure
}

/// Of two typo keys of paths just one comes first, unless they are the same.
pub proof fn path_typo_order_is_total(left: PathTypoKey, right: PathTypoKey)
    ensures
        !(left.ranks_before(right) && right.ranks_before(left)),
        !left.ranks_before(right) && !right.ranks_before(left) <==> left == right,
{
    text_order_is_total(left.key, right.key);
}

/// The order of typo keys of paths carries over from one to the next.
pub proof fn path_typo_order_is_transitive(
    left: PathTypoKey,
    middle: PathTypoKey,
    right: PathTypoKey,
)
    requires
        left.ranks_before(middle),
        middle.ranks_before(right),
    ensures
        left.ranks_before(right),
{
    if text_before(left.key, middle.key) && text_before(middle.key, right.key) {
        text_order_is_transitive(left.key, middle.key, right.key);
    }
}

/// How a query stands in a field that has it as it is.
#[derive(Clone, Copy, Debug, PartialEq, Eq, PartialOrd, Ord, Hash, Structural)]
pub struct StructuralRank {
    pub field_priority: u8,
    pub position_class: u8,
    pub token_index: usize,
    pub token_span_delta: usize,
    pub start_idx: usize,
    pub field_len: usize,
}

/// A [`StructuralRank`] in numbers.
pub struct StructuralKey {
    pub field_priority: nat,
    pub position_class: nat,
    pub token_index: nat,
    pub token_span_delta: nat,
    pub start_idx: nat,
    pub field_len: nat,
}

impl View for StructuralRank {
    type V = StructuralKey;

    open spec fn view(&self) -> StructuralKey {
        StructuralKey {
            field_priority: self.field_priority as nat,
            position_class: self.position_class as nat,
            token_index: self.token_index as nat,
            token_span_delta: self.token_span_delta as nat,
            start_idx: self.start_idx as nat,
            field_len: self.field_len as nat,
        }
    }
}

impl StructuralKey {
    /// The order: each field in turn, the lower number first.
    pub open spec fn ranks_before(self, other: StructuralKey) -> bool {
        if self.field_priority != other.field_priority {
            self.field_priority < other.field_priority
        } else if self.position_class != other.position_class {
            self.position_class < other.position_class
        } else if self.token_index != other.token_index {
            self.token_index < other.token_index
        } else if self.token_span_delta != other.token_span_delta {
            self.token_span_delta < other.token_span_delta
        } else if self.start_idx != other.start_idx {
            self.start_idx < other.start_idx
        } else {
            self.field_len < other.field_len
        }
    }
}

impl StructuralRank {
    /// Whether this rank comes before `other`.
    pub fn ranks_before(&self, other: &StructuralRank) -> (before: bool)
        ensures
            before == self@.ranks_before(other@),
    {
        if self.field_priority != other.field_priority {
            self.field_priority < other.field_priority
        } else if self.position_class != other.position_class {
            self.position_class < other.position_class
        } else if self.token_index != other.token_index {
            self.token_index < other.token_index
        } else if self.token_span_delta != other.token_span_delta {
            self.token_span_delta < other.token_span_delta
        } else if self.start_idx != other.start_idx {
            self.start_idx < other.start_idx
        } else {
            self.field_len < other.field_len
        }
    }
}

/// How the characters of a query stand scattered in a field.
#[derive(Clone, Copy, Debug, PartialEq, Eq, PartialOrd, Ord, Hash, Structural)]
pub struct AbbreviationRank {
    pub field_priority: u8,
    pub variant_scope: u8,
    pub position_class: u8,
    pub token_index: usize,
    pub gap_span: usize,
    pub gap_count: usize,
    pub start_idx: usize,
    pub field_len: usize,
}

/// An [`AbbreviationRank`] in numbers.
pub struct AbbreviationKey {
    pub field_priority: nat,
    pub variant_scope: nat,
    pub position_class: nat,
    pub token_index: nat,
    pub gap_span: nat,
    pub gap_count: nat,
    pub start_idx: nat,
    pub field_len: nat,
}

impl View for AbbreviationRank {
    type V = AbbreviationKey;

    open spec fn view(&self) -> AbbreviationKey {
        AbbreviationKey {
            field_priority: self.field_priority as nat,
            variant_scope: self.variant_scope as nat,
            position_class: self.position_class as nat,
            token_index: self.token_index as nat,
            gap_span: self.gap_span as nat,
            gap_count: self.gap_count as nat,
            start_idx: self.start_idx as nat,
            field_len: self.field_len as nat,
        }
    }
}

impl AbbreviationKey {
    /// The order: each field in turn, the lower number first.
    pub open spec fn ranks_before(self, other: AbbreviationKey) -> bool {
        if self.field_priority != other.field_priority {
            self.field_priority < other.field_priority
        } else if self.variant_scope != other.variant_scope {
            self.variant_scope < other.variant_scope
        } else if self.position_class != other.position_class {
            self.position_class < other.position_class
        } else if self.token_index != other.token_index {
            self.token_index < other.token_index
        } else if self.gap_span != other.gap_span {
            self.gap_span < other.gap_span
        } else if self.gap_count != other.gap_count {
            self.gap_count < other.gap_count
        } else if self.start_idx != other.start_idx {
            self.start_idx < other.start_idx
        } else {
            self.field_len < other.field_len
        }
    }
}

impl AbbreviationRank {
    /// Whether this rank comes before `other`.
    pub fn ranks_before(&self, other: &AbbreviationRank) -> (before: bool)
        ensures
            before == self@.ranks_before(other@),
    {
        if self.field_priority != other.field_priority {
            self.field_priority < other.field_priority
        } else if self.variant_scope != other.variant_scope {
            self.variant_scope < other.variant_scope
        } else if self.position_class != other.position_class {
            self.position_class < other.position_class
        } else if self.token_index != other.token_index {
            self.token_index < other.token_index
        } else if self.gap_span != other.gap_span {
            self.gap_span < other.gap_span
        } else if self.gap_count != other.gap_count {
            self.gap_count < other.gap_count
        } else if self.start_idx != other.start_idx {
            self.start_idx < other.start_idx
        } else {
            self.field_len < other.field_len
        }
    }
}

/// How a query stands in a field that has it with typos.
#[derive(Clone, Copy, Debug, PartialEq, Eq, PartialOrd, Ord, Hash, Structural)]
pub struct DistanceRank {
    pub distance: usize,
    pub ratio_milli: usize,
    pub field_priority: u8,
    pub variant_scope: u8,
    pub position_class: u8,
    pub token_index: usize,
    pub token_span_delta: usize,
    pub start_idx: usize,
    pub field_len: usize,
}

/// A [`DistanceRank`] in numbers.
pub struct DistanceKey {
    pub distance: nat,
    pub ratio_milli: nat,
    pub field_priority: nat,
    pub variant_scope: nat,
    pub position_class: nat,
    pub token_index: nat,
    pub token_span_delta: nat,
    pub start_idx: nat,
    pub field_len: nat,
}

impl View for DistanceRank {
    type V = DistanceKey;

    open spec fn view(&self) -> DistanceKey {
        DistanceKey {
            distance: self.distance as nat,
            ratio_milli: self.ratio_milli as nat,
            field_priority: self.field_priority as nat,
            variant_scope: self.variant_scope as nat,
            position_class: self.position_class as nat,
            token_index: self.token_index as nat,
            token_span_delta: self.token_span_delta as nat,
            start_idx: self.start_idx as nat,
            field_len: self.field_len as nat,
        }
    }
}

impl DistanceKey {
    /// The order: each field in turn, the lower number first.
    pub open spec fn ranks_before(self, other: DistanceKey) -> bool {
        if self.distance != other.distance {
            self.distance < other.distance
        } else if self.ratio_milli != other.ratio_milli {
            self.ratio_milli < other.ratio_milli
        } else if self.field_priority != other.field_priority {
            self.field_priority < other.field_priority
        } else if self.variant_scope != other.variant_scope {
            self.variant_scope < other.variant_scope
        } else if self.position_class != other.position_class {
            self.position_class < other.position_class
        } else if self.token_index != other.token_index {
            self.token_index < other.token_index
        } else if self.token_span_delta != other.token_span_delta {
            self.token_span_delta < other.token_span_delta
        } else if self.start_idx != other.start_idx {
            self.start_idx < other.start_idx
        } else {
            self.field_len < other.field_len
        }
    }
}

impl DistanceRank {
    /// Whether this rank comes before `other`.
    pub fn ranks_before(&self, other: &DistanceRank) -> (before: bool)
        ensures
            before == self@.ranks_before(other@),
    {
        if self.distance != other.distance {
            self.distance < other.distance
        } else if self.ratio_milli != other.ratio_milli {
            self.ratio_milli < other.ratio_milli
        } else if self.field_priority != other.field_priority {
            self.field_priority < other.field_priority
        } else if self.variant_scope != other.variant_scope {
            self.variant_scope < other.variant_scope
        } else if self.position_class != other.position_class {
            self.position_class < other.position_class
        } else if self.token_index != other.token_index {
            self.token_index < other.token_index
        } else if self.token_span_delta != other.token_span_delta {
            self.token_span_delta < other.token_span_delta
        } else if self.start_idx != other.start_idx {
            self.start_idx < other.start_idx
        } else {
            self.field_len < other.field_len
        }
    }
}

/// How a query was found. The kinds rank in the order in which they are listed.
#[derive(Clone, Copy, Debug, PartialEq, Eq, PartialOrd, Ord, Hash, Structural)]
pub enum SearchRank {
    Structure(StructuralRank),
    Abbreviation(AbbreviationRank),
    Fuzzy(DistanceRank),
    Typo(DistanceRank),
}

impl SearchRank {
    /// The place of the kind among the kinds.
    pub open spec fn kind(self) -> nat {
        match self {
            SearchRank::Structure(_) => 0,
            SearchRank::Abbreviation(_) => 1,
            SearchRank::Fuzzy(_) => 2,
            SearchRank::Typo(_) => 3,
        }
    }

    /// The order: the kind first, then as the ranks of that kind are ordered.
    pub open spec fn precedes(self, other: SearchRank) -> bool {
        match (self, other) {
            (SearchRank::Structure(left), SearchRank::Structure(right)) => left@.ranks_before(
                right@,
            ),
            (SearchRank::Abbreviation(left), SearchRank::Abbreviation(right)) => left@.ranks_before(
                right@,
            ),
            (SearchRank::Fuzzy(left), SearchRank::Fuzzy(right)) => left@.ranks_before(right@),
            (SearchRank::Typo(left), SearchRank::Typo(right)) => left@.ranks_before(right@),
            _ => self.kind() < other.kind(),
        }
    }

    fn place(&self) -> (kind: u8)
        ensures
            kind == self.kind(),
    {
        match self {
            SearchRank::Structure(_) => 0,
            SearchRank::Abbreviation(_) => 1,
            SearchRank::Fuzzy(_) => 2,
            SearchRank::Typo(_) => 3,
        }
    }

    /// Whether this rank comes before `other`.
    pub fn ranks_before(&self, other: &SearchRank) -> (before: bool)
        ensures
            before == self.precedes(*other),
    {
        match (self, other) {
            (SearchRank::Structure(left), SearchRank::Structure(right)) => left.ranks_before(
                right,
            ),
            (SearchRank::Abbreviation(left), SearchRank::Abbreviation(right)) => left.ranks_before(
                right,
            ),
            (SearchRank::Fuzzy(left), SearchRank::Fuzzy(right)) => left.ranks_before(right),
            (SearchRank::Typo(left), SearchRank::Typo(right)) => left.ranks_before(right),
            _ => self.place() < other.place(),
        }
    }
}

/// A [`SearchRank`] in numbers.
pub enum SearchKey {
    Structure(StructuralKey),
    Abbreviation(AbbreviationKey),
    Fuzzy(DistanceKey),
    Typo(DistanceKey),
}

impl View for SearchRank {
    type V = SearchKey;

    open spec fn view(&self) -> SearchKey {
        match self {
            SearchRank::Structure(rank) => SearchKey::Structure(rank@),
            SearchRank::Abbreviation(rank) => SearchKey::Abbreviation(rank@),
            SearchRank::Fuzzy(rank) => SearchKey::Fuzzy(rank@),
            SearchRank::Typo(rank) => SearchKey::Typo(rank@),
        }
    }
}

/// The order of search results: the rank, then the higher score, then the key.
pub open spec fn result_before(
    left_rank: SearchRank,
    left_score: Score,
    left_key: Seq<char>,
    right_rank: SearchRank,
    right_score: Score,
    right_key: Seq<char>,
) -> bool {
    if left_rank != right_rank {
        left_rank.precedes(right_rank)
    } else if left_score != right_score {
        left_score.rank() > right_score.rank()
    } else {
        text_before(left_key, right_key)
    }
}

pub(crate) fn is_result_before(
    left_rank: &SearchRank,
    left_score: Score,
    left_key: &str,
    right_rank: &SearchRank,
    right_score: Score,
    right_key: &str,
) -> (before: bool)
    ensures
        before == result_before(
            *left_rank,
            left_score,
            left_key@,
            *right_rank,
            right_score,
            right_key@,
        ),
{
    if *left_rank != *right_rank {
        left_rank.ranks_before(right_rank)
    } else if left_score.bits != right_score.bits {
        left_score.exceeds(&right_score)
    } else {
        comes_before(left_key, right_key)
    }
}

/// The order of search results: the rank, then the higher score, then the key.
pub fn compare_search_results(
    left_rank: &SearchRank,
    left_score: Score,
    left_key: &str,
    right_rank: &SearchRank,
    right_score: Score,
    right_key: &str,
) -> (ordering: Ordering)
    ensures
        is_ordering(
            ordering,
            result_before(
                *left_rank,
                left_score,
                left_key@,
                *right_rank,
                right_score,
                right_key@,
            ),
            result_before(
                *right_rank,
                right_score,
                right_key@,
                *left_rank,
                left_score,
                left_key@,
            ),
        ),
{
    ordering_of(
        is_result_before(left_rank, left_score, left_key, right_rank, right_score, right_key),
        is_result_before(right_rank, right_score, right_key, left_rank, left_score, left_key),
    )
}

/// Of two search ranks just one comes first, unless they are the same.
pub proof fn search_order_is_total(left: SearchRank, right: SearchRank)
    ensures
        !(left.precedes(right) && right.precedes(left)),
        !left.precedes(right) && !right.precedes(left) <==> left == right,
{
}

/// The order of search ranks carries over from one to the next.
pub proof fn search_order_is_transitive(left: SearchRank, middle: SearchRank, right: SearchRank)
    requires
        left.precedes(middle),
        middle.precedes(right),
    ensures
        left.precedes(right),
{
}

/// A rank of an earlier kind comes before any rank of a later one.
pub proof fn kinds_come_first(left: SearchRank, right: SearchRank)
    requires
        left.kind() < right.kind(),
    ensures
        left.precedes(right),
        !right.precedes(left),
{
}

/// Fewer edits come before more, whatever else the keys hold.
pub proof fn fewer_edits_come_first(left: TypoKey, right: TypoKey)
    requires
        left.distance < right.distance,
    ensures
        left.ranks_before(right),
        !right.ranks_before(left),
{
}

/// Fewer edits come before more, whatever else the keys of the paths hold.
pub proof fn fewer_path_edits_come_first(left: PathTypoKey, right: PathTypoKey)
    requires
        left.distance < right.distance,
    ensures
        left.ranks_before(right),
        !right.ranks_before(left),
{
}

/// The numbers of a key, those that count first first.
pub open spec fn numbers_of_typo(key: TypoKey) -> Seq<int> {
    seq![
        key.distance as int,
        key.operations.substitutions as int,
        key.operations.insert_delete as int,
        key.operations.transpositions as int,
        key.ratio_milli as int,
        key.position as int,
        key.structure as int,
        -key.score,
        key.secondary as int,
    ]
}

/// Typo keys are ordered by distance, substitutions, insertions and deletions,
/// transpositions, ratio, position, structure, the higher score and the secondary
/// number, and then by their texts.
pub proof fn typo_order_is_by_first_difference(left: TypoKey, right: TypoKey)
    ensures
        left.ranks_before(right) <==> is_lower(
            numbers_of_typo(left),
            numbers_of_typo(right),
        ) || numbers_of_typo(left) == numbers_of_typo(right) && text_before(
            left.key,
            right.key,
        ),
{
    let (first, second) = (numbers_of_typo(left), numbers_of_typo(right));
    lemma_is_lower(first, second);
    reveal_with_fuel(is_lower_from, 11);
}

/// The numbers of a key, those that count first first.
pub open spec fn numbers_of_path_typo(key: PathTypoKey) -> Seq<int> {
    seq![
        key.distance as int,
        key.operations.substitutions as int,
        key.operations.insert_delete as int,
        key.operations.transpositions as int,
        key.ratio_milli as int,
        key.position as int,
        -key.score,
        key.structure as int,
        key.path_depth as int,
    ]
}

/// Typo keys of paths are ordered by distance, substitutions, insertions and
/// deletions, transpositions, ratio, position, the higher score, structure and
/// depth, and then by the paths.
pub proof fn path_typo_order_is_by_first_difference(left: PathTypoKey, right: PathTypoKey)
    ensures
        left.ranks_before(right) <==> is_lower(
            numbers_of_path_typo(left),
            numbers_of_path_typo(right),
        ) || numbers_of_path_typo(left) == numbers_of_path_typo(right) && text_before(
            left.key,
            right.key,
        ),
{
    let (first, second) = (numbers_of_path_typo(left), numbers_of_path_typo(right));
    lemma_is_lower(first, second);
    reveal_with_fuel(is_lower_from, 11);
}

/// The numbers of a key, those that count first first.
pub open spec fn numbers_of_structural(key: StructuralKey) -> Seq<int> {
    seq![
        key.field_priority as int,
        key.position_class as int,
        key.token_index as int,
        key.token_span_delta as int,
        key.start_idx as int,
        key.field_len as int,
    ]
}

/// Structural ranks are ordered by priority, position class, word, difference in
/// length, place and length.
pub proof fn structural_order_is_by_first_difference(left: StructuralKey, right: StructuralKey)
    ensures
        left.ranks_before(right) <==> is_lower(
            numbers_of_structural(left),
            numbers_of_structural(right),
        ),
{
    let (first, second) = (numbers_of_structural(left), numbers_of_structural(right));
    lemma_is_lower(first, second);
    reveal_with_fuel(is_lower_from, 8);
}

/// The numbers of a key, those that count first first.
pub open spec fn numbers_of_abbreviation(key: AbbreviationKey) -> Seq<int> {
    seq![
        key.field_priority as int,
        key.variant_scope as int,
        key.position_class as int,
        key.token_index as int,
        key.gap_span as int,
        key.gap_count as int,
        key.start_idx as int,
        key.field_len as int,
    ]
}

/// Abbreviation ranks are ordered by priority, scope, position class, word, gap
/// span, gap count, place and length.
pub proof fn abbreviation_order_is_by_first_difference(
    left: AbbreviationKey,
    right: AbbreviationKey,
)
    ensures
        left.ranks_before(right) <==> is_lower(
            numbers_of_abbreviation(left),
            numbers_of_abbreviation(right),
        ),
{
    let (first, second) = (numbers_of_abbreviation(left), numbers_of_abbreviation(right));
    lemma_is_lower(first, second);
    reveal_with_fuel(is_lower_from, 10);
}

/// The numbers of a key, those that count first first.
pub open spec fn numbers_of_distance(key: DistanceKey) -> Seq<int> {
    seq![
        key.distance as int,
        key.ratio_milli as int,
        key.field_priority as int,
        key.variant_scope as int,
        key.position_class as int,
        key.token_index as int,
        key.token_span_delta as int,
        key.start_idx as int,
        key.field_len as int,
    ]
}

/// Distance ranks are ordered by distance, ratio, priority, scope, position class,
/// word, difference in length, place and length.
pub proof fn distance_order_is_by_first_difference(left: DistanceKey, right: DistanceKey)
    ensures
        left.ranks_before(right) <==> is_lower(
            numbers_of_distance(left),
            numbers_of_distance(right),
        ),
{
    let (first, second) = (numbers_of_distance(left), numbers_of_distance(right));
    lemma_is_lower(first, second);
    reveal_with_fuel(is_lower_from, 11);
}

/// Search results are ordered by the kind of rank, as it is before scattered,
/// scattered before fuzzy, fuzzy before typo; then by the rank; then by the higher
/// score; and then by the key.
pub proof fn result_order_is_by_rank_score_key(
    left: SearchRank,
    left_score: Score,
    left_key: Seq<char>,
    right: SearchRank,
    right_score: Score,
    right_key: Seq<char>,
)
    ensures
        left is Structure && !(right is Structure) ==> left.precedes(right),
        left is Abbreviation && (right is Fuzzy || right is Typo) ==> left.precedes(right),
        left is Fuzzy && right is Typo ==> left.precedes(right),
        left matches SearchRank::Structure(first) ==> (right matches SearchRank::Structure(second)
            ==> left.precedes(right) == first@.ranks_before(second@)),
        left matches SearchRank::Abbreviation(first) ==> (right matches SearchRank::Abbreviation(
            second,
        ) ==> left.precedes(right) == first@.ranks_before(second@)),
        left matches SearchRank::Fuzzy(first) ==> (right matches SearchRank::Fuzzy(second)
            ==> left.precedes(right) == first@.ranks_before(second@)),
        left matches SearchRank::Typo(first) ==> (right matches SearchRank::Typo(second)
            ==> left.precedes(right) == first@.ranks_before(second@)),
        left != right ==> result_before(
            left,
            left_score,
            left_key,
            right,
            right_score,
            right_key,
        ) == left.precedes(right),
        left == right ==> result_before(
            left,
            left_score,
            left_key,
            right,
            right_score,
            right_key,
        ) == (left_score.rank() > right_score.rank() || left_score.rank() == right_score.rank()
            && text_before(left_key, right_key)),
{
    if left_score.rank() == right_score.rank() {
        score_rank_is_injective(left_score, right_score);
    }
}

/// Two matches are ambiguous if and only if their keys have the same numbers but
/// for the last, whatever their texts.
pub proof fn ambiguity_looks_at_all_but_the_last_number(
    left: TypoKey,
    right: TypoKey,
    path_left: PathTypoKey,
    path_right: PathTypoKey,
)
    ensures
        left.ties(right) <==> numbers_of_typo(left).drop_last() == numbers_of_typo(
            right,
        ).drop_last(),
        path_left.ties(path_right) <==> numbers_of_path_typo(path_left).drop_last()
            == numbers_of_path_typo(path_right).drop_last(),
{
    let (first, second) = (numbers_of_typo(left).drop_last(), numbers_of_typo(right).drop_last());
    assert forall|i: int| first == second && 0 <= i < first.len() implies #[trigger] first[i]
        == second[i] by {}
    if first == second {
        assert(first[0] == second[0] && first[1] == second[1] && first[2] == second[2]);
        assert(first[3] == second[3] && first[4] == second[4] && first[5] == second[5]);
        assert(first[6] == second[6] && first[7] == second[7]);
    }
    if left.ties(right) {
        assert(first =~= second);
    }
    let (start, other) = (
        numbers_of_path_typo(path_left).drop_last(),
        numbers_of_path_typo(path_right).drop_last(),
    );
    if start == other {
        assert(start[0] == other[0] && start[1] == other[1] && start[2] == other[2]);
        assert(start[3] == other[3] && start[4] == other[4] && start[5] == other[5]);
        assert(start[6] == other[6] && start[7] == other[7]);
    }
    if path_left.ties(path_right) {
        assert(start =~= other);
    }
}

} // verus!
