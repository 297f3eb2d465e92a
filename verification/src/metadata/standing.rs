//! How a match stands among the words of a text.

use vstd::prelude::*;
use vstd::utf8::is_ascii_chars;

use crate::distance::{gap, gap_of};
use crate::text::{runs, runs_are_maximal, search_tokens, Separator};
use crate::unicode::{byte_len, width_of};

verus! {

/// Whether `c` divides words.
pub open spec fn is_divider(c: char) -> bool {
    Separator::NonAlphanumeric.divides(c)
}

/// Where the word begins that goes on at `i`, or `i` if none does.
pub open spec fn word_start(text: Seq<char>, i: int) -> int
    decreases i,
{
    if 0 < i && !is_divider(text[i - 1]) {
        word_start(text, i - 1)
    } else {
        i
    }
}

/// Where the word ends that goes on at `i`, or `i` if none does.
pub open spec fn word_end(text: Seq<char>, i: int) -> int
    decreases text.len() - i,
{
    if 0 <= i < text.len() && !is_divider(text[i]) {
        word_end(text, i + 1)
    } else {
        i
    }
}

/// Where a match that begins at `start` and has `matched_len` characters ends,
/// which is not after the text.
pub open spec fn match_end(text: Seq<char>, start: int, matched_len: nat) -> int {
    if start + matched_len < text.len() {
        start + matched_len
    } else {
        text.len() as int
    }
}

/// 0 for a match that is all of the text, 1 for whole words, 2 and 3 for the
/// beginning of the text and of a word, 4 for the end of a word, else 5.
pub open spec fn position_class(text: Seq<char>, start: int, end: int) -> nat {
    let starts_word = start == 0 || is_divider(text[start - 1]);
    let ends_word = end == text.len() || is_divider(text[end]);
    if start == 0 && end == text.len() {
        0
    } else if starts_word && ends_word {
        1
    } else if start == 0 {
        2
    } else if starts_word {
        3
    } else if ends_word {
        4
    } else {
        5
    }
}

/// How a match stands in a text.
pub struct Standing {
    /// See [`position_class`].
    pub position_class: nat,
    /// How many words begin before the match's first word.
    pub token_index: nat,
    /// By how much the words of the match are longer or shorter than it.
    pub token_span_delta: nat,
    /// How long the text is.
    pub field_len: nat,
}

/// How a match of `matched_len` characters from `start` on stands in a text.
pub open spec fn standing(text: Seq<char>, start: int, matched_len: nat) -> Standing {
    let end = match_end(text, start, matched_len);
    let first = word_start(text, start);
    Standing {
        position_class: position_class(text, start, end),
        token_index: runs(Separator::NonAlphanumeric, text, first as nat).len(),
        token_span_delta: gap((word_end(text, end) - first) as nat, matched_len),
        field_len: text.len(),
    }
}

proof fn lemma_word_bounds(text: Seq<char>, i: int)
    requires
        0 <= i <= text.len(),
    ensures
        0 <= word_start(text, i) <= i,
        i <= word_end(text, i) <= text.len(),
{
    lemma_word_start_bounds(text, i);
    lemma_word_end_bounds(text, i);
}

proof fn lemma_word_start_bounds(text: Seq<char>, i: int)
    requires
        0 <= i,
    ensures
        0 <= word_start(text, i) <= i,
    decreases i,
{
    if 0 < i && !is_divider(text[i - 1]) {
        lemma_word_start_bounds(text, i - 1);
    }
}

proof fn lemma_word_end_bounds(text: Seq<char>, i: int)
    requires
        0 <= i <= text.len(),
    ensures
        i <= word_end(text, i) <= text.len(),
    decreases text.len() - i,
{
    if i < text.len() && !is_divider(text[i]) {
        lemma_word_end_bounds(text, i + 1);
    }
}

fn is_word_divider(c: char) -> (divides: bool)
    ensures
        divides == is_divider(c),
{
    Separator::NonAlphanumeric.is_at(c)
}

/// How many words begin among the first `end` characters.
fn count_words(text: &Vec<char>, end: usize) -> (count: usize)
    requires
        end <= text@.len(),
    ensures
        count == runs(Separator::NonAlphanumeric, text@, end as nat).len(),
{
    let mut count: usize = 0;
    let mut in_word = false;
    let mut i: usize = 0;
    while i < end
        invariant
            i <= end <= text@.len(),
            count <= i,
            count == runs(Separator::NonAlphanumeric, text@, i as nat).len(),
            in_word == (i > 0 && !is_divider(text@[i - 1])),
            in_word ==> count > 0,
        decreases end - i,
    {
        if is_word_divider(text[i]) {
            in_word = false;
        } else {
            if !in_word {
                count = count + 1;
            }
            in_word = true;
        }
        i = i + 1;
    }
    count
}

/// How a match of `matched_len` characters from `start` on stands in a text: the
/// position class, how many words begin before its first word, by how much its
/// words are longer or shorter than it, and how long the text is.
pub(crate) fn structural_match_details(text: &Vec<char>, start: usize, matched_len: usize) -> (
details: (u8, usize, usize, usize))
    requires
        start <= text@.len(),
    ensures
        standing_of(details) == standing(text@, start as int, matched_len as nat),
{
    let len = text.len();
    let end: usize = if matched_len < len - start {
        start + matched_len
    } else {
        len
    };
    proof {
        lemma_word_bounds(text@, start as int);
        lemma_word_bounds(text@, end as int);
    }
    let starts_word = start == 0 || is_word_divider(text[start - 1]);
    let ends_word = end == len || is_word_divider(text[end]);
    let mut first: usize = start;
    while first > 0 && !is_word_divider(text[first - 1])
        invariant
            first <= start <= text@.len(),
            word_start(text@, first as int) == word_start(text@, start as int),
        decreases first,
    {
        first = first - 1;
    }
    let mut last: usize = end;
    while last < len && !is_word_divider(text[last])
        invariant
            end <= last <= len == text@.len(),
            word_end(text@, last as int) == word_end(text@, end as int),
        decreases len - last,
    {
        last = last + 1;
    }
    let token_index = count_words(text, first);
    let position_class: u8 = if start == 0 && end == len {
        0
    } else if starts_word && ends_word {
        1
    } else if start == 0 {
        2
    } else if starts_word {
        3
    } else if ends_word {
        4
    } else {
        5
    };
    (position_class, token_index, gap_of(last - first, matched_len), len)
}

/// What `structural_match_details` returns, as a [`Standing`].
pub open spec fn standing_of(details: (u8, usize, usize, usize)) -> Standing {
    Standing {
        position_class: details.0 as nat,
        token_index: details.1 as nat,
        token_span_delta: details.2 as nat,
        field_len: details.3 as nat,
    }
}

/// Whether the byte at `offset` begins the character at `place`, or both are the
/// end of the text.
pub open spec fn begins_at(text: Seq<char>, offset: nat, place: int) -> bool {
    &&& 0 <= place <= text.len()
    &&& byte_len(text.take(place)) == offset
}

/// Whether a character begins at the byte `offset`, or the text ends there.
pub open spec fn is_boundary(text: Seq<char>, offset: nat) -> bool {
    exists|place: int| begins_at(text, offset, place)
}

/// The place of the character that begins at the byte `offset`.
pub open spec fn place_of(text: Seq<char>, offset: nat) -> int {
    choose|place: int| begins_at(text, offset, place)
}

proof fn lemma_widths_add_up(text: Seq<char>, place: int, later: int)
    requires
        0 <= place <= later <= text.len(),
    ensures
        byte_len(text.take(later)) >= byte_len(text.take(place)) + (later - place),
    decreases later - place,
{
    if place < later {
        lemma_widths_add_up(text, place, later - 1);
        assert(text.take(later).drop_last() =~= text.take(later - 1));
    }
}

/// At most one character begins at a byte.
pub proof fn boundary_is_unique(text: Seq<char>, offset: nat, place: int)
    requires
        begins_at(text, offset, place),
    ensures
        is_boundary(text, offset),
        place_of(text, offset) == place,
{
    let other = place_of(text, offset);
    assert(begins_at(text, offset, other));
    if place < other {
        lemma_widths_add_up(text, place, other);
    } else if other < place {
        lemma_widths_add_up(text, other, place);
    }
}

/// In a text of ASCII characters every offset up to its end is a boundary, of the
/// character of the same number.
pub proof fn ascii_offsets_are_places(text: Seq<char>, offset: nat)
    requires
        is_ascii_chars(text),
        offset <= text.len(),
    ensures
        is_boundary(text, offset),
        place_of(text, offset) == offset,
{
    lemma_ascii_bytes(text, offset);
    boundary_is_unique(text, offset, offset as int);
}

proof fn lemma_ascii_bytes(text: Seq<char>, n: nat)
    requires
        is_ascii_chars(text),
        n <= text.len(),
    ensures
        byte_len(text.take(n as int)) == n,
    decreases n,
{
    if n > 0 {
        lemma_ascii_bytes(text, (n - 1) as nat);
        assert(text.take(n as int).drop_last() =~= text.take(n - 1));
        assert(text.take(n as int).last() == text[n - 1]);
    }
}

/// The words of an ASCII text are ASCII, apart and put together.
pub(crate) proof fn lemma_ascii_words(text: Seq<char>)
    requires
        is_ascii_chars(text),
    ensures
        forall|k: int|
            0 <= k < search_tokens(text).len() ==> is_ascii_chars(
                #[trigger] search_tokens(text)[k],
            ),
        is_ascii_chars(search_tokens(text).flatten()),
{
    let words = search_tokens(text);
    runs_are_maximal(Separator::NonAlphanumeric, text, text.len());
    assert forall|k: int| 0 <= k < words.len() implies is_ascii_chars(#[trigger] words[k]) by {
        let run = runs(Separator::NonAlphanumeric, text, text.len())[k];
        assert(words[k] == text.subrange(run.0, run.1));
    }
    lemma_ascii_flatten(words);
}

proof fn lemma_ascii_flatten(words: Seq<Seq<char>>)
    requires
        forall|k: int| 0 <= k < words.len() ==> is_ascii_chars(#[trigger] words[k]),
    ensures
        is_ascii_chars(words.flatten()),
    decreases words.len(),
{
    if words.len() > 0 {
        assert forall|k: int| 0 <= k < words.drop_first().len() implies is_ascii_chars(
            #[trigger] words.drop_first()[k],
        ) by {
            assert(words.drop_first()[k] == words[k + 1]);
        }
        lemma_ascii_flatten(words.drop_first());
        assert(words.flatten() == words.first() + words.drop_first().flatten());
        assert(is_ascii_chars(words[0]));
    }
}

/// The place of the character that begins at the byte `offset`, if one does.
pub(crate) fn find_boundary(text: &Vec<char>, offset: usize) -> (found: Option<usize>)
    requires
        4 * text@.len() <= isize::MAX,
    ensures
        found is Some <==> is_boundary(text@, offset as nat),
        found matches Some(place) ==> place == place_of(text@, offset as nat) && place
            <= text@.len(),
{
    let mut bytes: usize = 0;
    let mut place: usize = 0;
    assert(text@.take(0) =~= Seq::empty());
    while place < text.len() && bytes < offset
        invariant
            place <= text@.len(),
            4 * text@.len() <= isize::MAX,
            bytes == byte_len(text@.take(place as int)),
            bytes <= 4 * place,
            forall|p: int|
                0 <= p < place ==> byte_len(#[trigger] text@.take(p)) < offset,
        decreases text@.len() - place,
    {
        proof {
            assert(text@.take(place + 1).drop_last() =~= text@.take(place as int));
            assert(text@.take(place + 1).last() == text@[place as int]);
        }
        bytes = bytes + width_of(text[place]);
        place = place + 1;
    }
    if bytes == offset {
        proof {
            boundary_is_unique(text@, offset as nat, place as int);
        }
        Some(place)
    } else {
        proof {
            if is_boundary(text@, offset as nat) {
                let other = place_of(text@, offset as nat);
                assert(begins_at(text@, offset as nat, other));
                if other > place {
                    lemma_widths_add_up(text@, place as int, other);
                }
            }
        }
        None
    }
}

} // verus!
