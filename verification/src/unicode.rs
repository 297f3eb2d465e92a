//! What the library takes from `std` about characters and text.

use vstd::prelude::*;
use vstd::utf8::is_ascii_chars;

verus! {

/// What `char::is_alphanumeric` answers for a character outside ASCII.
pub uninterp spec fn unicode_alphanumeric(c: char) -> bool;

/// What `str::to_lowercase` makes of a text that is not all ASCII.
pub uninterp spec fn unicode_lowercase(text: Seq<char>) -> Seq<char>;

/// The white space characters of ASCII: the space and U+0009 to U+000D.
pub open spec fn ascii_whitespace(c: char) -> bool {
    c == ' ' || '\t' <= c <= '\r'
}

/// The letters and digits of ASCII.
pub open spec fn ascii_alphanumeric(c: char) -> bool {
    '0' <= c <= '9' || 'A' <= c <= 'Z' || 'a' <= c <= 'z'
}

/// `c` with an ASCII capital letter made small and anything else kept.
pub open spec fn ascii_lower(c: char) -> char {
    if 'A' <= c <= 'Z' {
        (c as u32 + 32) as char
    } else {
        c
    }
}

/// The white space characters outside ASCII.
pub open spec fn wide_whitespace(c: char) -> bool {
    ||| c == '\u{85}' || c == '\u{a0}' || c == '\u{1680}'
    ||| '\u{2000}' <= c <= '\u{200a}'
    ||| c == '\u{2028}' || c == '\u{2029}' || c == '\u{202f}' || c == '\u{205f}'
    ||| c == '\u{3000}'
}

/// Whether `c` is white space: whether it has the Unicode property `White_Space`.
pub open spec fn whitespace(c: char) -> bool {
    ascii_whitespace(c) || wide_whitespace(c)
}

/// Whether `c` is a letter or a digit.
pub open spec fn alphanumeric(c: char) -> bool {
    if c <= '\x7f' {
        ascii_alphanumeric(c)
    } else {
        unicode_alphanumeric(c)
    }
}

/// `text` with its ASCII capitals made small.
pub open spec fn ascii_lowercase(text: Seq<char>) -> Seq<char> {
    text.map_values(|c: char| ascii_lower(c))
}

/// `text` in lower case.
pub open spec fn lowercase(text: Seq<char>) -> Seq<char> {
    if is_ascii_chars(text) {
        ascii_lowercase(text)
    } else {
        unicode_lowercase(text)
    }
}

/// `char::is_whitespace`: the Unicode property `White_Space`, which the listed
/// characters have and no others.
pub assume_specification[ char::is_whitespace ](c: char) -> (answer: bool)
    ensures
        answer == whitespace(c),
;

/// `char::is_alphanumeric`: a letter or a digit as Unicode has them. Of ASCII
/// these are `0-9`, `A-Z` and `a-z`; of other characters the answer only has a
/// name.
pub assume_specification[ char::is_alphanumeric ](c: char) -> (answer: bool)
    ensures
        c <= '\x7f' ==> answer == ascii_alphanumeric(c),
        c > '\x7f' ==> answer == unicode_alphanumeric(c),
;

/// `str::to_lowercase`. In an ASCII text it makes the capitals small and keeps
/// the rest; of any other text the result only has a name.
pub assume_specification[ str::to_lowercase ](text: &str) -> (lowered: String)
    ensures
        is_ascii_chars(text@) ==> lowered@ == ascii_lowercase(text@),
        !is_ascii_chars(text@) ==> lowered@ == unicode_lowercase(text@),
;

/// `str::to_ascii_lowercase`: the letters `A` to `Z` become `a` to `z`, any
/// other character stays.
pub assume_specification[ str::to_ascii_lowercase ](text: &str) -> (lowered: String)
    ensures
        lowered@ == ascii_lowercase(text@),
;

/// `String::push` puts a character at the end.
pub assume_specification[ String::push ](text: &mut String, c: char)
    ensures
        final(text)@ == old(text)@.push(c),
;

/// `Vec::capacity`: a vector has room for what it holds, and never for more
/// than `isize::MAX` bytes, of which a `char` takes four.
#[verifier::external_body]
fn char_capacity(chars: &Vec<char>) -> (capacity: usize)
    ensures
        chars@.len() <= capacity,
        4 * capacity <= isize::MAX,
{
    chars.capacity()
}

/// The characters of `text`, of which no text has more than a quarter of
/// `isize::MAX`.
pub(crate) fn chars_of(text: &str) -> (chars: Vec<char>)
    ensures
        chars@ == text@,
        4 * text@.len() <= isize::MAX,
{
    let mut chars: Vec<char> = Vec::new();
    for c in iter: text.chars()
        invariant
            chars@ == text@.take(iter.index() as int),
            iter.seq() == text@,
    {
        chars.push(c);
    }
    assert(text@.take(text@.len() as int) == text@);
    let capacity: usize = char_capacity(&chars);
    chars
}

/// How many characters `text` has, which is never more than a quarter of
/// `isize::MAX`.
pub(crate) fn char_count(text: &str) -> (count: usize)
    ensures
        count == text@.len(),
        4 * text@.len() <= isize::MAX,
{
    chars_of(text).len()
}

/// The texts that vectors of characters hold.
pub open spec fn texts_of(chars: Seq<Vec<char>>) -> Seq<Seq<char>> {
    chars.map_values(|text: Vec<char>| text@)
}

/// The characters of each of `texts`.
pub(crate) fn chars_of_each(texts: &[&str]) -> (chars: Vec<Vec<char>>)
    ensures
        texts_of(chars@) == texts.deep_view(),
        forall|i: int| 0 <= i < chars@.len() ==> 4 * (#[trigger] chars@[i])@.len() <= isize::MAX,
{
    let mut chars: Vec<Vec<char>> = Vec::new();
    let mut i: usize = 0;
    while i < texts.len()
        invariant
            i <= texts@.len(),
            chars@.len() == i,
            forall|k: int|
                0 <= k < i ==> (#[trigger] chars@[k])@ == texts@[k]@ && 4 * chars@[k]@.len()
                    <= isize::MAX,
        decreases texts@.len() - i,
    {
        chars.push(chars_of(texts[i]));
        i = i + 1;
    }
    assert(texts_of(chars@) =~= texts.deep_view());
    chars
}

/// How many bytes `c` takes in UTF-8.
pub open spec fn utf8_width(c: char) -> nat {
    if (c as u32) < 0x80 {
        1
    } else if (c as u32) < 0x800 {
        2
    } else if (c as u32) < 0x10000 {
        3
    } else {
        4
    }
}

/// How many bytes `text` takes in UTF-8.
pub open spec fn byte_len(text: Seq<char>) -> nat
    decreases text.len(),
{
    if text.len() == 0 {
        0
    } else {
        byte_len(text.drop_last()) + utf8_width(text.last())
    }
}

pub(crate) fn width_of(c: char) -> (width: usize)
    ensures
        width == utf8_width(c),
{
    let code: u32 = c as u32;
    if code < 0x80 {
        1
    } else if code < 0x800 {
        2
    } else if code < 0x10000 {
        3
    } else {
        4
    }
}

pub(crate) proof fn lemma_byte_len_concat(left: Seq<char>, right: Seq<char>)
    ensures
        byte_len(left + right) == byte_len(left) + byte_len(right),
    decreases right.len(),
{
    if right.len() == 0 {
        assert(left + right =~= left);
    } else {
        assert((left + right).drop_last() =~= left + right.drop_last());
        lemma_byte_len_concat(left, right.drop_last());
    }
}

pub(crate) proof fn lemma_byte_len_bounds(text: Seq<char>)
    ensures
        text.len() <= byte_len(text) <= 4 * text.len(),
    decreases text.len(),
{
    if text.len() > 0 {
        lemma_byte_len_bounds(text.drop_last());
    }
}

} // verus!
