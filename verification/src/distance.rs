//! The edit distance behind every typo match: optimal string alignment, with
//! the operations of a best alignment counted by kind.

use vstd::prelude::*;

use crate::unicode::chars_of;

verus! {

/// How many edits of each kind an alignment takes.
#[derive(Clone, Copy, Debug, PartialEq, Eq, PartialOrd, Ord, Hash, Structural)]
pub struct OperationProfile {
    pub substitutions: usize,
    pub insert_delete: usize,
    pub transpositions: usize,
}

/// The counts of an [`OperationProfile`] as unbounded numbers.
pub struct EditCost {
    pub substitutions: nat,
    pub insert_delete: nat,
    pub transpositions: nat,
}

impl View for OperationProfile {
    type V = EditCost;

    open spec fn view(&self) -> EditCost {
        EditCost {
            substitutions: self.substitutions as nat,
            insert_delete: self.insert_delete as nat,
            transpositions: self.transpositions as nat,
        }
    }
}

impl EditCost {
    /// No edit at all.
    pub open spec fn zero() -> EditCost {
        EditCost { substitutions: 0, insert_delete: 0, transpositions: 0 }
    }

    /// The number of edits, of whatever kind.
    pub open spec fn total(self) -> nat {
        self.substitutions + self.insert_delete + self.transpositions
    }

    /// The edits of both together.
    pub open spec fn plus(self, other: EditCost) -> EditCost {
        EditCost {
            substitutions: self.substitutions + other.substitutions,
            insert_delete: self.insert_delete + other.insert_delete,
            transpositions: self.transpositions + other.transpositions,
        }
    }

    /// One more substitution.
    pub open spec fn substituted(self) -> EditCost {
        EditCost { substitutions: self.substitutions + 1, ..self }
    }

    /// One more insertion or deletion.
    pub open spec fn inserted_or_deleted(self) -> EditCost {
        EditCost { insert_delete: self.insert_delete + 1, ..self }
    }

    /// One more transposition.
    pub open spec fn transposed(self) -> EditCost {
        EditCost { transpositions: self.transpositions + 1, ..self }
    }

    /// The order in which profiles are ranked: by substitutions, then by
    /// insertions and deletions, then by transpositions.
    pub open spec fn ranks_before(self, other: EditCost) -> bool {
        ||| self.substitutions < other.substitutions
        ||| self.substitutions == other.substitutions && (self.insert_delete < other.insert_delete
            || self.insert_delete == other.insert_delete && self.transpositions
            < other.transpositions)
    }

    /// The order that picks an alignment: fewer edits first, then as
    /// [`EditCost::ranks_before`] says.
    pub open spec fn cheaper(self, other: EditCost) -> bool {
        ||| self.total() < other.total()
        ||| self.total() == other.total() && self.ranks_before(other)
    }

    /// The cheaper of the two.
    pub open spec fn least(self, other: EditCost) -> EditCost {
        if other.cheaper(self) {
            other
        } else {
            self
        }
    }
}

/// The least cost of turning the first `i` characters of `left` into the first
/// `j` of `right`, where no part of a text is edited twice.
pub open spec fn prefix_cost(left: Seq<char>, right: Seq<char>, i: nat, j: nat) -> EditCost
    decreases i + j,
{
    if i == 0 {
        EditCost { substitutions: 0, insert_delete: j, transpositions: 0 }
    } else if j == 0 {
        EditCost { substitutions: 0, insert_delete: i, transpositions: 0 }
    } else {
        let before = prefix_cost(left, right, (i - 1) as nat, (j - 1) as nat);
        let aligned = if left[i - 1] == right[j - 1] {
            before
        } else {
            before.substituted()
        };
        let deleted = prefix_cost(left, right, (i - 1) as nat, j).inserted_or_deleted();
        let inserted = prefix_cost(left, right, i, (j - 1) as nat).inserted_or_deleted();
        let best = aligned.least(deleted).least(inserted);
        if swaps(left, right, i, j) {
            best.least(prefix_cost(left, right, (i - 2) as nat, (j - 2) as nat).transposed())
        } else {
            best
        }
    }
}

/// Whether the two characters before `i` in `left` are the two before `j` in
/// `right`, the other way round.
pub open spec fn swaps(left: Seq<char>, right: Seq<char>, i: nat, j: nat) -> bool {
    &&& i > 1
    &&& j > 1
    &&& left[i - 1] == right[j - 2]
    &&& left[i - 2] == right[j - 1]
}

/// The least cost of turning `left` into `right`.
pub open spec fn edit_cost(left: Seq<char>, right: Seq<char>) -> EditCost {
    prefix_cost(left, right, left.len(), right.len())
}

/// One edit of a script that is read from left to right.
pub enum Edit {
    Keep,
    Substitute,
    Insert,
    Delete,
    Transpose,
}

/// Whether `script` turns the first `i` characters of `left` into the first `j`
/// of `right`.
pub open spec fn rewrites(
    script: Seq<Edit>,
    left: Seq<char>,
    right: Seq<char>,
    i: int,
    j: int,
) -> bool
    decreases script.len(),
{
    if script.len() == 0 {
        i == 0 && j == 0
    } else {
        let rest = script.drop_last();
        match script.last() {
            Edit::Keep => i > 0 && j > 0 && left[i - 1] == right[j - 1] && rewrites(
                rest,
                left,
                right,
                i - 1,
                j - 1,
            ),
            Edit::Substitute => i > 0 && j > 0 && left[i - 1] != right[j - 1] && rewrites(
                rest,
                left,
                right,
                i - 1,
                j - 1,
            ),
            Edit::Insert => j > 0 && rewrites(rest, left, right, i, j - 1),
            Edit::Delete => i > 0 && rewrites(rest, left, right, i - 1, j),
            Edit::Transpose => i > 1 && j > 1 && left[i - 1] == right[j - 2] && left[i - 2]
                == right[j - 1] && rewrites(rest, left, right, i - 2, j - 2),
        }
    }
}

/// The edits of a script, counted by kind.
pub open spec fn script_cost(script: Seq<Edit>) -> EditCost
    decreases script.len(),
{
    if script.len() == 0 {
        EditCost::zero()
    } else {
        let rest = script_cost(script.drop_last());
        match script.last() {
            Edit::Keep => rest,
            Edit::Substitute => rest.substituted(),
            Edit::Insert => rest.inserted_or_deleted(),
            Edit::Delete => rest.inserted_or_deleted(),
            Edit::Transpose => rest.transposed(),
        }
    }
}

/// Some script that turns `left` into `right` costs just [`edit_cost`].
pub proof fn edit_cost_is_attained(left: Seq<char>, right: Seq<char>)
    ensures
        exists|script: Seq<Edit>| #[trigger]
            rewrites(script, left, right, left.len() as int, right.len() as int) && script_cost(
                script,
            ) == edit_cost(left, right),
{
    let script = lemma_script_of(left, right, left.len(), right.len());
    assert(rewrites(script, left, right, left.len() as int, right.len() as int));
}

/// No script that turns `left` into `right` is cheaper than [`edit_cost`].
pub proof fn edit_cost_is_least(left: Seq<char>, right: Seq<char>, script: Seq<Edit>)
    requires
        rewrites(script, left, right, left.len() as int, right.len() as int),
    ensures
        !script_cost(script).cheaper(edit_cost(left, right)),
{
    lemma_script_cost_bound(left, right, left.len(), right.len(), script);
}

proof fn lemma_script_of(left: Seq<char>, right: Seq<char>, i: nat, j: nat) -> (script: Seq<Edit>)
    ensures
        rewrites(script, left, right, i as int, j as int),
        script_cost(script) == prefix_cost(left, right, i, j),
    decreases i + j,
{
    let cost = prefix_cost(left, right, i, j);
    if i == 0 && j == 0 {
        Seq::empty()
    } else {
        let (rest, edit) = if i == 0 {
            (lemma_script_of(left, right, i, (j - 1) as nat), Edit::Insert)
        } else if j == 0 {
            (lemma_script_of(left, right, (i - 1) as nat, j), Edit::Delete)
        } else if cost == prefix_cost(left, right, (i - 1) as nat, j).inserted_or_deleted() {
            (lemma_script_of(left, right, (i - 1) as nat, j), Edit::Delete)
        } else if cost == prefix_cost(left, right, i, (j - 1) as nat).inserted_or_deleted() {
            (lemma_script_of(left, right, i, (j - 1) as nat), Edit::Insert)
        } else if swaps(left, right, i, j) && cost == prefix_cost(
            left,
            right,
            (i - 2) as nat,
            (j - 2) as nat,
        ).transposed() {
            (lemma_script_of(left, right, (i - 2) as nat, (j - 2) as nat), Edit::Transpose)
        } else if left[i - 1] == right[j - 1] {
            (lemma_script_of(left, right, (i - 1) as nat, (j - 1) as nat), Edit::Keep)
        } else {
            (lemma_script_of(left, right, (i - 1) as nat, (j - 1) as nat), Edit::Substitute)
        };
        let script = rest.push(edit);
        assert(script.drop_last() == rest);
        script
    }
}

proof fn lemma_script_cost_bound(
    left: Seq<char>,
    right: Seq<char>,
    i: nat,
    j: nat,
    script: Seq<Edit>,
)
    requires
        rewrites(script, left, right, i as int, j as int),
    ensures
        !script_cost(script).cheaper(prefix_cost(left, right, i, j)),
    decreases script.len(),
{
    if script.len() > 0 {
        let rest = script.drop_last();
        match script.last() {
            Edit::Keep | Edit::Substitute => lemma_script_cost_bound(
                left,
                right,
                (i - 1) as nat,
                (j - 1) as nat,
                rest,
            ),
            Edit::Insert => lemma_script_cost_bound(left, right, i, (j - 1) as nat, rest),
            Edit::Delete => lemma_script_cost_bound(left, right, (i - 1) as nat, j, rest),
            Edit::Transpose => lemma_script_cost_bound(
                left,
                right,
                (i - 2) as nat,
                (j - 2) as nat,
                rest,
            ),
        }
    }
}

/// The distance is the same in both directions.
pub proof fn edit_cost_is_symmetric(left: Seq<char>, right: Seq<char>)
    ensures
        edit_cost(left, right) == edit_cost(right, left),
{
    lemma_prefix_cost_symmetric(left, right, left.len(), right.len());
}

proof fn lemma_prefix_cost_symmetric(left: Seq<char>, right: Seq<char>, i: nat, j: nat)
    ensures
        prefix_cost(left, right, i, j) == prefix_cost(right, left, j, i),
    decreases i + j,
{
    if i > 0 && j > 0 {
        lemma_prefix_cost_symmetric(left, right, (i - 1) as nat, (j - 1) as nat);
        lemma_prefix_cost_symmetric(left, right, (i - 1) as nat, j);
        lemma_prefix_cost_symmetric(left, right, i, (j - 1) as nat);
        if swaps(left, right, i, j) {
            lemma_prefix_cost_symmetric(left, right, (i - 2) as nat, (j - 2) as nat);
        }
    }
}

/// A text is at distance nothing from itself and from no other.
pub proof fn edit_cost_is_zero_iff_equal(left: Seq<char>, right: Seq<char>)
    ensures
        edit_cost(left, right).total() == 0 <==> left == right,
{
    lemma_prefix_cost_zero(left, right, left.len(), right.len());
    if edit_cost(left, right).total() == 0 {
        assert(left =~= right);
    }
}

proof fn lemma_prefix_cost_zero(left: Seq<char>, right: Seq<char>, i: nat, j: nat)
    ensures
        prefix_cost(left, right, i, j).total() == 0 <==> i == j && forall|k: int|
            0 <= k < i ==> left[k] == right[k],
    decreases i + j,
{
    if i > 0 && j > 0 {
        lemma_prefix_cost_zero(left, right, (i - 1) as nat, (j - 1) as nat);
        if i == j && left[i - 1] == right[j - 1] {
            assert(prefix_cost(left, right, i, j).total() <= prefix_cost(
                left,
                right,
                (i - 1) as nat,
                (j - 1) as nat,
            ).total());
            assert((forall|k: int| 0 <= k < i ==> left[k] == right[k]) <==> forall|k: int|
                0 <= k < i - 1 ==> left[k] == right[k]);
        }
    }
}

/// The distance is at least the difference of the lengths and at most the
/// greater length.
pub proof fn edit_cost_is_bounded_by_lengths(left: Seq<char>, right: Seq<char>)
    ensures
        left.len() - right.len() <= edit_cost(left, right).total(),
        right.len() - left.len() <= edit_cost(left, right).total(),
        edit_cost(left, right).total() <= left.len() || edit_cost(left, right).total()
            <= right.len(),
{
    lemma_prefix_cost_bounds(left, right, left.len(), right.len());
}

pub(crate) proof fn lemma_prefix_cost_bounds(left: Seq<char>, right: Seq<char>, i: nat, j: nat)
    ensures
        i - j <= prefix_cost(left, right, i, j).total(),
        j - i <= prefix_cost(left, right, i, j).total(),
        prefix_cost(left, right, i, j).total() <= i || prefix_cost(left, right, i, j).total() <= j,
    decreases i + j,
{
    if i > 0 && j > 0 {
        lemma_prefix_cost_bounds(left, right, (i - 1) as nat, (j - 1) as nat);
        lemma_prefix_cost_bounds(left, right, (i - 1) as nat, j);
        lemma_prefix_cost_bounds(left, right, i, (j - 1) as nat);
        if swaps(left, right, i, j) {
            lemma_prefix_cost_bounds(left, right, (i - 2) as nat, (j - 2) as nat);
        }
    }
}

/// Once every prefix of `right` is out of reach of the first `i` characters of
/// `left`, no more characters of `left` bring one back.
proof fn lemma_row_bound(left: Seq<char>, right: Seq<char>, i: nat, later: nat, j: nat, limit: nat)
    requires
        i <= later,
        j <= right.len(),
        forall|k: nat| k <= right.len() ==> (#[trigger] prefix_cost(left, right, i, k)).total()
            > limit,
    ensures
        prefix_cost(left, right, later, j).total() > limit,
    decreases later + j,
{
    if later == i {
    } else if j == 0 {
        assert(prefix_cost(left, right, i, 0).total() > limit);
    } else {
        lemma_row_bound(left, right, i, (later - 1) as nat, (j - 1) as nat, limit);
        lemma_row_bound(left, right, i, (later - 1) as nat, j, limit);
        lemma_row_bound(left, right, i, later, (j - 1) as nat, limit);
        if swaps(left, right, later, j) {
            if later - 2 >= i {
                lemma_row_bound(left, right, i, (later - 2) as nat, (j - 2) as nat, limit);
            } else {
                assert(prefix_cost(left, right, i, (j - 1) as nat).total() > limit);
            }
        }
    }
}

impl Default for OperationProfile {
    fn default() -> (profile: OperationProfile)
        ensures
            profile@ == EditCost::zero(),
    {
        OperationProfile { substitutions: 0, insert_delete: 0, transpositions: 0 }
    }
}

impl OperationProfile {
    /// The number of edits, of whatever kind.
    pub fn total(&self) -> (total: usize)
        requires
            self@.total() <= usize::MAX,
        ensures
            total == self@.total(),
    {
        self.substitutions + self.insert_delete + self.transpositions
    }

    /// One more insertion or deletion.
    pub fn with_insert_delete(self) -> (profile: OperationProfile)
        requires
            self.insert_delete < usize::MAX,
        ensures
            profile@ == self@.inserted_or_deleted(),
    {
        OperationProfile { insert_delete: self.insert_delete + 1, ..self }
    }

    pub(crate) fn with_substitution(self) -> (profile: OperationProfile)
        requires
            self.substitutions < usize::MAX,
        ensures
            profile@ == self@.substituted(),
    {
        OperationProfile { substitutions: self.substitutions + 1, ..self }
    }

    pub(crate) fn with_transposition(self) -> (profile: OperationProfile)
        requires
            self.transpositions < usize::MAX,
        ensures
            profile@ == self@.transposed(),
    {
        OperationProfile { transpositions: self.transpositions + 1, ..self }
    }

    /// The counts of both profiles together.
    pub(crate) fn plus(self, other: OperationProfile) -> (profile: OperationProfile)
        requires
            self@.total() + other@.total() <= usize::MAX,
        ensures
            profile@ == self@.plus(other@),
    {
        OperationProfile {
            substitutions: self.substitutions + other.substitutions,
            insert_delete: self.insert_delete + other.insert_delete,
            transpositions: self.transpositions + other.transpositions,
        }
    }

    /// Whether this profile ranks before `other`.
    pub fn ranks_before(&self, other: &OperationProfile) -> (before: bool)
        ensures
            before == self@.ranks_before(other@),
    {
        if self.substitutions != other.substitutions {
            self.substitutions < other.substitutions
        } else if self.insert_delete != other.insert_delete {
            self.insert_delete < other.insert_delete
        } else {
            self.transpositions < other.transpositions
        }
    }

    fn least(self, other: OperationProfile) -> (profile: OperationProfile)
        requires
            self@.total() <= usize::MAX,
            other@.total() <= usize::MAX,
        ensures
            profile@ == self@.least(other@),
    {
        let own: usize = self.total();
        let others: usize = other.total();
        if others < own || others == own && other.ranks_before(&self) {
            other
        } else {
            self
        }
    }
}

/// The greater of two lengths.
pub open spec fn longer(left: nat, right: nat) -> nat {
    if left < right {
        right
    } else {
        left
    }
}

/// By how much two lengths differ.
pub open spec fn gap(left: nat, right: nat) -> nat {
    (longer(left, right) - if left < right {
        left
    } else {
        right
    }) as nat
}

/// How many edits are left after one, if any.
pub open spec fn one_less(limit: nat) -> nat {
    if limit == 0 {
        0
    } else {
        (limit - 1) as nat
    }
}

/// The greater of two lengths.
pub(crate) fn longer_of(left: usize, right: usize) -> (greater: usize)
    ensures
        greater == longer(left as nat, right as nat),
{
    if left < right {
        right
    } else {
        left
    }
}

/// By how much two lengths differ.
pub(crate) fn gap_of(left: usize, right: usize) -> (difference: usize)
    ensures
        difference == gap(left as nat, right as nat),
{
    if left < right {
        right - left
    } else {
        left - right
    }
}

/// How many typos a query of `len` characters may have: half its length.
pub fn max_typos(len: usize) -> (limit: usize)
    ensures
        limit == len / 2,
{
    len / 2
}

/// What a search bounded by `limit` finds: the distance and its profile if the
/// distance is within the limit.
pub open spec fn bounded_cost(left: Seq<char>, right: Seq<char>, limit: nat) -> Option<EditCost> {
    if edit_cost(left, right).total() <= limit {
        Some(edit_cost(left, right))
    } else {
        None
    }
}

/// The edits of a result.
pub open spec fn cost_found(found: Option<(usize, OperationProfile)>) -> Option<EditCost> {
    match found {
        Some((distance, operations)) => Some(operations@),
        None => None,
    }
}

/// The distance between two texts and the profile of a best alignment, or
/// `None` if the distance is over `limit`.
pub fn bounded_damerau_levenshtein(left: &str, right: &str, limit: usize) -> (found: Option<
    (usize, OperationProfile),
>)
    ensures
        cost_found(found) == bounded_cost(left@, right@, limit as nat),
        found matches Some((distance, operations)) ==> distance == operations@.total(),
{
    let left_chars = chars_of(left);
    let right_chars = chars_of(right);
    bounded_chars_distance(left_chars.as_slice(), right_chars.as_slice(), limit)
}

/// [`bounded_damerau_levenshtein`] on characters.
pub(crate) fn bounded_chars_distance(left: &[char], right: &[char], limit: usize) -> (found: Option<
    (usize, OperationProfile),
>)
    requires
        4 * left@.len() <= isize::MAX,
        4 * right@.len() <= isize::MAX,
    ensures
        cost_found(found) == bounded_cost(left@, right@, limit as nat),
        found matches Some((distance, operations)) ==> distance == operations@.total(),
{
    let rows = left.len();
    let columns = right.len();
    let gap: usize = if rows < columns {
        columns - rows
    } else {
        rows - columns
    };
    if gap > limit {
        proof {
            edit_cost_is_bounded_by_lengths(left@, right@);
        }
        return None;
    }
    let mut before_last: Vec<OperationProfile> = Vec::new();
    let mut last: Vec<OperationProfile> = first_row(columns);
    proof {
        assert forall|j: int| 0 <= j <= columns implies (#[trigger] last@[j])@ == prefix_cost(
            left@,
            right@,
            0,
            j as nat,
        ) by {}
    }
    let mut i: usize = 0;
    while i < rows
        invariant
            i <= rows,
            rows == left@.len(),
            columns == right@.len(),
            4 * rows <= isize::MAX,
            4 * columns <= isize::MAX,
            is_row(last@, left@, right@, i as nat),
            i > 0 ==> is_row(before_last@, left@, right@, (i - 1) as nat),
        decreases rows - i,
    {
        i = i + 1;
        let current = next_row(left, right, i, &before_last, &last);
        proof {
            assert forall|k: int| 0 <= k < current@.len() implies (#[trigger] current@[k])@.total()
                <= usize::MAX by {
                lemma_prefix_cost_bounds(left@, right@, i as nat, k as nat);
            }
        }
        if over_limit(&current, limit) {
            proof {
                assert forall|k: nat| k <= right@.len() implies (#[trigger] prefix_cost(
                    left@,
                    right@,
                    i as nat,
                    k,
                )).total() > limit by {
                    assert(current@[k as int]@.total() > limit);
                }
                lemma_row_bound(
                    left@,
                    right@,
                    i as nat,
                    left@.len(),
                    right@.len(),
                    limit as nat,
                );
            }
            return None;
        }
        before_last = last;
        last = current;
    }
    let operations = last[columns];
    proof {
        edit_cost_is_bounded_by_lengths(left@, right@);
    }
    let distance: usize = operations.total();
    if distance <= limit {
        Some((distance, operations))
    } else {
        None
    }
}

/// Whether `row` holds the costs of the first `i` characters of `left` against
/// every prefix of `right`.
spec fn is_row(row: Seq<OperationProfile>, left: Seq<char>, right: Seq<char>, i: nat) -> bool {
    &&& row.len() == right.len() + 1
    &&& forall|j: int|
        0 <= j <= right.len() ==> (#[trigger] row[j])@ == prefix_cost(left, right, i, j as nat)
}

fn first_row(columns: usize) -> (row: Vec<OperationProfile>)
    requires
        columns < usize::MAX,
    ensures
        row@.len() == columns + 1,
        forall|j: int|
            0 <= j <= columns ==> (#[trigger] row@[j])@ == (EditCost {
                substitutions: 0,
                insert_delete: j as nat,
                transpositions: 0,
            }),
{
    let mut row: Vec<OperationProfile> = Vec::new();
    let mut j: usize = 0;
    while j <= columns
        invariant
            j <= columns + 1,
            columns < usize::MAX,
            row@.len() == j,
            forall|k: int|
                0 <= k < j ==> (#[trigger] row@[k])@ == (EditCost {
                    substitutions: 0,
                    insert_delete: k as nat,
                    transpositions: 0,
                }),
        decreases columns + 1 - j,
    {
        row.push(OperationProfile { substitutions: 0, insert_delete: j, transpositions: 0 });
        j = j + 1;
    }
    row
}

fn next_row(
    left: &[char],
    right: &[char],
    i: usize,
    before_last: &Vec<OperationProfile>,
    last: &Vec<OperationProfile>,
) -> (row: Vec<OperationProfile>)
    requires
        0 < i <= left@.len(),
        4 * left@.len() <= isize::MAX,
        4 * right@.len() <= isize::MAX,
        is_row(last@, left@, right@, (i - 1) as nat),
        i > 1 ==> is_row(before_last@, left@, right@, (i - 2) as nat),
    ensures
        is_row(row@, left@, right@, i as nat),
{
    let columns = right.len();
    let mut row: Vec<OperationProfile> = Vec::new();
    row.push(OperationProfile { substitutions: 0, insert_delete: i, transpositions: 0 });
    let mut j: usize = 0;
    while j < columns
        invariant
            j <= columns,
            columns == right@.len(),
            0 < i <= left@.len(),
            4 * left@.len() <= isize::MAX,
            4 * right@.len() <= isize::MAX,
            is_row(last@, left@, right@, (i - 1) as nat),
            i > 1 ==> is_row(before_last@, left@, right@, (i - 2) as nat),
            row@.len() == j + 1,
            forall|k: int|
                0 <= k <= j ==> (#[trigger] row@[k])@ == prefix_cost(
                    left@,
                    right@,
                    i as nat,
                    k as nat,
                ),
        decreases columns - j,
    {
        j = j + 1;
        proof {
            lemma_prefix_cost_bounds(left@, right@, (i - 1) as nat, (j - 1) as nat);
            lemma_prefix_cost_bounds(left@, right@, (i - 1) as nat, j as nat);
            lemma_prefix_cost_bounds(left@, right@, i as nat, (j - 1) as nat);
        }
        let aligned = if left[i - 1] == right[j - 1] {
            last[j - 1]
        } else {
            last[j - 1].with_substitution()
        };
        let deleted = last[j].with_insert_delete();
        let inserted = row[j - 1].with_insert_delete();
        let mut cell = aligned.least(deleted).least(inserted);
        if i > 1 && j > 1 && left[i - 1] == right[j - 2] && left[i - 2] == right[j - 1] {
            proof {
                lemma_prefix_cost_bounds(left@, right@, (i - 2) as nat, (j - 2) as nat);
            }
            cell = cell.least(before_last[j - 2].with_transposition());
        }
        row.push(cell);
    }
    row
}

/// Whether every cost of the row is over `limit`.
fn over_limit(row: &Vec<OperationProfile>, limit: usize) -> (over: bool)
    requires
        forall|j: int| 0 <= j < row@.len() ==> (#[trigger] row@[j])@.total() <= usize::MAX,
    ensures
        over <==> forall|j: int| 0 <= j < row@.len() ==> (#[trigger] row@[j])@.total() > limit,
{
    let mut j: usize = 0;
    while j < row.len()
        invariant
            j <= row@.len(),
            forall|k: int| 0 <= k < row@.len() ==> (#[trigger] row@[k])@.total() <= usize::MAX,
            forall|k: int| 0 <= k < j ==> (#[trigger] row@[k])@.total() > limit,
        decreases row@.len() - j,
    {
        if row[j].total() <= limit {
            return false;
        }
        j = j + 1;
    }
    true
}

} // verus!
