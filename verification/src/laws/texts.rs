//! How texts are cut, trimmed, and compared by length.

use std::cmp::Ordering;

use vstd::prelude::*;
use vstd::utf8::{char_is_scalar, encode_scalar, encode_utf8};

use crate::distance::{bounded_cost, edit_cost, gap, longer, one_less};
use crate::ranking::is_ordering;
use crate::score::{milli, Fraction};
use crate::text::{
    any_signals, compact, drop_whitespace, path_tokens, runs, runs_are_maximal, search_tokens,
    shared_pairs, signals, skip_whitespace, spaced_variants, tokens, trimmed, whitespace_tokens,
    Separator,
};
use crate::unicode::{
    alphanumeric, byte_len, lemma_byte_len_concat, lowercase, utf8_width, whitespace,
};

verus! {

/// What divides tokens: white space; all but letters and digits; for the words of
/// a path, slashes of both kinds, hyphens, underscores, dots and white space; for
/// its components, slashes of both kinds.
pub proof fn separators_are_these(c: char)
    ensures
        Separator::Whitespace.divides(c) <==> whitespace(c),
        Separator::NonAlphanumeric.divides(c) <==> !alphanumeric(c),
        Separator::PathToken.divides(c) <==> c == '/' || c == '\\' || c == '-' || c == '_' || c
            == '.' || whitespace(c),
        Separator::PathComponent.divides(c) <==> c == '/' || c == '\\',
{
}

/// Whether `text` from `start` to `end` is a run without a separator that cannot
/// be made longer.
pub open spec fn is_run_between(
    separator: Separator,
    text: Seq<char>,
    start: int,
    end: int,
) -> bool {
    &&& 0 <= start < end <= text.len()
    &&& forall|i: int| start <= i < end ==> !separator.divides(#[trigger] text[i])
    &&& start == 0 || separator.divides(text[start - 1])
    &&& end == text.len() || separator.divides(text[end])
}

/// The tokens of a text are its runs without a separator, all of them, and from
/// left to right.
pub proof fn tokens_are_runs(separator: Separator, text: Seq<char>) -> (places: Seq<(int, int)>)
    ensures
        places.len() == tokens(separator, text).len(),
        forall|k: int|
            0 <= k < places.len() ==> is_run_between(
                separator,
                text,
                (#[trigger] places[k]).0,
                places[k].1,
            ) && tokens(separator, text)[k] == text.subrange(places[k].0, places[k].1),
        forall|k: int, l: int|
            0 <= k < l < places.len() ==> (#[trigger] places[k]).1 < (#[trigger] places[l]).0,
        forall|start: int, end: int|
            #[trigger] is_run_between(separator, text, start, end) ==> places.contains(
                (start, end),
            ),
{
    let places = runs(separator, text, text.len());
    runs_are_maximal(separator, text, text.len());
    assert forall|start: int, end: int|
        #[trigger] is_run_between(separator, text, start, end) implies places.contains(
        (start, end),
    ) by {
        assert(!separator.divides(text[start]));
        let k = choose|k: int|
            #![trigger places[k]]
            0 <= k < places.len() && places[k].0 <= start < places[k].1;
        let run = places[k];
        if run.0 < start {
            assert(!separator.divides(text[start - 1]));
        }
        if run.1 < end {
            assert(!separator.divides(text[run.1]));
        }
        if end < run.1 {
            assert(!separator.divides(text[end]));
        }
        assert(places[k] == (start, end));
    }
    places
}

/// A text is a token of another if and only if it is one of its runs without a
/// separator.
pub proof fn token_is_run(separator: Separator, text: Seq<char>, token: Seq<char>)
    ensures
        tokens(separator, text).contains(token) <==> exists|start: int, end: int|
            #[trigger] is_run_between(separator, text, start, end) && text.subrange(start, end)
                == token,
{
    let places = tokens_are_runs(separator, text);
    let found = tokens(separator, text);
    if found.contains(token) {
        let k = choose|k: int| 0 <= k < found.len() && found[k] == token;
        assert(is_run_between(separator, text, places[k].0, places[k].1));
    }
    if exists|start: int, end: int|
        #[trigger] is_run_between(separator, text, start, end) && text.subrange(start, end)
            == token {
        let (start, end) = choose|start: int, end: int|
            #[trigger] is_run_between(separator, text, start, end) && text.subrange(start, end)
                == token;
        let k = choose|k: int| 0 <= k < places.len() && places[k] == (start, end);
        assert(found[k] == token);
    }
}

/// The three ways to cut a text into words.
pub proof fn words_are_tokens(text: Seq<char>)
    ensures
        path_tokens(text) == tokens(Separator::PathToken, text),
        search_tokens(text) == tokens(Separator::NonAlphanumeric, text),
        whitespace_tokens(text) == tokens(Separator::Whitespace, text),
{
}

/// A text trimmed is the part of it between white space at its ends, and itself
/// begins and ends with none.
pub proof fn trimming_drops_white_space_at_the_ends(text: Seq<char>) -> (ends: (int, int))
    ensures
        0 <= ends.0 <= ends.1 <= text.len(),
        trimmed(text) == text.subrange(ends.0, ends.1),
        forall|i: int|
            0 <= i < ends.0 || ends.1 <= i < text.len() ==> whitespace(#[trigger] text[i]),
        trimmed(text).len() > 0 ==> !whitespace(trimmed(text)[0]) && !whitespace(
            trimmed(text).last(),
        ),
{
    let start = skip_whitespace(text, 0);
    lemma_skipped(text, 0);
    let end = drop_whitespace(text, start, text.len() as int);
    lemma_dropped(text, start, text.len() as int);
    (start, end)
}

proof fn lemma_skipped(text: Seq<char>, i: int)
    requires
        0 <= i <= text.len(),
    ensures
        i <= skip_whitespace(text, i) <= text.len(),
        forall|k: int| i <= k < skip_whitespace(text, i) ==> whitespace(#[trigger] text[k]),
        skip_whitespace(text, i) < text.len() ==> !whitespace(text[skip_whitespace(text, i)]),
    decreases text.len() - i,
{
    if i < text.len() && whitespace(text[i]) {
        lemma_skipped(text, i + 1);
    }
}

proof fn lemma_dropped(text: Seq<char>, start: int, end: int)
    requires
        0 <= start <= end <= text.len(),
    ensures
        start <= drop_whitespace(text, start, end) <= end,
        forall|k: int|
            drop_whitespace(text, start, end) <= k < end ==> whitespace(#[trigger] text[k]),
        drop_whitespace(text, start, end) > start ==> !whitespace(
            text[drop_whitespace(text, start, end) - 1],
        ),
    decreases end - start,
{
    if start < end && whitespace(text[end - 1]) {
        lemma_dropped(text, start, end - 1);
    }
}

/// The compact form of a text holds its letters and digits in lower case, in
/// order.
pub proof fn compact_form_keeps_letters_and_digits(text: Seq<char>)
    ensures
        compact(text) == lowercase(trimmed(text)).filter(|c: char| alphanumeric(c)),
{
}

/// Whether the pair of neighbours that begins at `i` has a character that
/// `candidate` has.
pub open spec fn shares_pair(token: Seq<char>, candidate: Seq<char>, i: int) -> bool {
    &&& 0 <= i < token.len() - 1
    &&& candidate.contains(token[i]) || candidate.contains(token[i + 1])
}

/// A text signals a token of one character if it has it, a token of two or three
/// if it has a character of a pair of neighbours, and a longer one if it has one
/// of each of two pairs. It never signals an empty token, and it signals several
/// tokens if it signals one.
pub proof fn signals_are_shared_pairs(query: Seq<Seq<char>>, token: Seq<char>, candidate: Seq<char>)
    ensures
        token.len() == 0 ==> !signals(token, candidate),
        token.len() == 1 ==> (signals(token, candidate) <==> candidate.contains(token[0])),
        2 <= token.len() <= 3 ==> (signals(token, candidate) <==> exists|i: int|
            #[trigger] shares_pair(token, candidate, i)),
        token.len() >= 4 ==> (signals(token, candidate) <==> exists|i: int, j: int|
            i != j && #[trigger] shares_pair(token, candidate, i) && #[trigger] shares_pair(
                token,
                candidate,
                j,
            )),
        any_signals(query, candidate) <==> exists|k: int|
            0 <= k < query.len() && signals(#[trigger] query[k], candidate),
{
    if token.len() >= 2 {
        let pairs = (token.len() - 1) as nat;
        lemma_pairs(token, candidate, pairs);
    }
}

proof fn lemma_pairs(token: Seq<char>, candidate: Seq<char>, pairs: nat)
    requires
        pairs < token.len(),
    ensures
        shared_pairs(token, candidate, pairs) >= 1 <==> exists|i: int|
            i < pairs && #[trigger] shares_pair(token, candidate, i),
        shared_pairs(token, candidate, pairs) >= 2 <==> exists|i: int, j: int|
            i < pairs && j < pairs && i != j && #[trigger] shares_pair(token, candidate, i)
                && #[trigger] shares_pair(token, candidate, j),
    decreases pairs,
{
    if pairs > 0 {
        let before = (pairs - 1) as nat;
        let last = pairs - 1;
        lemma_pairs(token, candidate, before);
        if shares_pair(token, candidate, last) {
            assert(shared_pairs(token, candidate, pairs) == shared_pairs(token, candidate, before)
                + 1);
            if shared_pairs(token, candidate, before) >= 1 {
                let i = choose|i: int| i < before && #[trigger] shares_pair(token, candidate, i);
                assert(i != last && shares_pair(token, candidate, i));
            }
        } else {
            assert(shared_pairs(token, candidate, pairs) == shared_pairs(
                token,
                candidate,
                before,
            ));
        }
    }
}

/// A text signals whatever it holds.
pub proof fn text_signals_what_it_holds(token: Seq<char>, candidate: Seq<char>)
    requires
        token.len() > 0,
        forall|i: int| 0 <= i < token.len() ==> candidate.contains(#[trigger] token[i]),
    ensures
        signals(token, candidate),
{
    signals_are_shared_pairs(seq![], token, candidate);
    if token.len() >= 2 {
        assert(shares_pair(token, candidate, 0));
        if token.len() >= 4 {
            assert(shares_pair(token, candidate, 1));
        }
    } else {
        assert(candidate.contains(token[0]));
    }
}

/// What a query may have been before it lost a space: for each place between two
/// of its characters, from left to right, the query with a space there.
pub proof fn variants_put_a_space_between_characters(query: Seq<char>)
    ensures
        spaced_variants(query).len() == if query.len() == 0 {
            0
        } else {
            query.len() - 1
        },
        forall|k: int|
            0 <= k < spaced_variants(query).len() ==> #[trigger] spaced_variants(query)[k]
                == query.take(k + 1) + seq![' '] + query.skip(k + 1),
{
    assert forall|k: int| 0 <= k < spaced_variants(query).len() implies #[trigger] spaced_variants(
        query,
    )[k] == query.take(k + 1) + seq![' '] + query.skip(k + 1) by {
        assert(spaced_variants(query)[k] =~= query.take(k + 1) + seq![' '] + query.skip(k + 1));
    }
}

/// The greater of two lengths.
pub open spec fn greater(left: nat, right: nat) -> nat {
    if left >= right {
        left
    } else {
        right
    }
}

/// The greater of two lengths, their difference, one less than a limit, and a
/// cost within a limit.
pub proof fn lengths_and_limits(
    left: nat,
    right: nat,
    query: Seq<char>,
    text: Seq<char>,
    limit: nat,
)
    ensures
        longer(left, right) == left || longer(left, right) == right,
        longer(left, right) >= left && longer(left, right) >= right,
        gap(left, right) == left - right || gap(left, right) == right - left,
        one_less(limit) == limit - 1 || limit == 0 && one_less(limit) == 0,
        bounded_cost(query, text, limit) is Some <==> edit_cost(query, text).total() <= limit,
        bounded_cost(query, text, limit) matches Some(cost) ==> cost == edit_cost(query, text),
{
}

/// The shares of a text that is mistyped: more than half, a fifth or less, the
/// greater of two, and in thousandths, rounded down.
pub proof fn shares_are_these(left: Fraction, right: Fraction, count: nat, len: nat)
    ensures
        left.over_half() <==> left.numerator + left.numerator > left.denominator,
        left.at_most_a_fifth() <==> left.numerator * 5 <= left.denominator,
        left.less(right) <==> left.numerator * right.denominator < right.numerator
            * left.denominator,
        left.less(right) ==> left.max(right) == right,
        !left.less(right) ==> left.max(right) == left,
        len > 0 && 1000 * count <= usize::MAX ==> milli(count, len) * len <= 1000 * count < (milli(
            count,
            len,
        ) + 1) * len,
        len == 0 ==> milli(count, len) == milli(count, 1),
{
    if len > 0 && 1000 * count <= usize::MAX {
        let share = (1000 * count) as int / len as int;
        vstd::arithmetic::div_mod::lemma_fundamental_div_mod((1000 * count) as int, len as int);
        vstd::arithmetic::div_mod::lemma_div_is_ordered_by_denominator(
            (1000 * count) as int,
            1,
            len as int,
        );
        let rest = (1000 * count) as int % len as int;
        assert(0 <= rest < len);
        assert(share * len <= 1000 * count < (share + 1) * len) by (nonlinear_arith)
            requires
                1000 * count == len * share + rest,
                0 <= rest < len,
        ;
        assert(milli(count, len) == share);
    }
}

/// A count divided by a share is the nearest whole number, the greater of two that
/// are as near, but at least one; and a share of nothing gives one.
pub proof fn whole_of_share_is_nearest(share: Fraction, count: nat)
    ensures
        share.numerator == 0 ==> share.whole_of(count) == 1,
        share.numerator > 0 ==> share.whole_of(count) >= 1,
        share.numerator > 0 && share.whole_of(count) > 1 ==> {
            let twice = 2 * share.whole_of(count) * share.numerator;
            &&& twice - share.numerator <= 2 * (count * share.denominator)
            &&& 2 * (count * share.denominator) < twice + share.numerator
        },
        share.numerator > 0 && share.whole_of(count) == 1 ==> 2 * (count * share.denominator) < 3
            * share.numerator,
{
    if share.numerator > 0 {
        let product = (count * share.denominator) as int;
        let divisor = share.numerator as int;
        let floor = product / divisor;
        let rest = product % divisor;
        vstd::arithmetic::div_mod::lemma_fundamental_div_mod(product, divisor);
        vstd::arithmetic::div_mod::lemma_div_pos_is_pos(product, divisor);
        assert(0 <= rest < divisor);
        assert(product == divisor * floor + rest);
        assert(2 * floor * divisor == 2 * (divisor * floor)) by (nonlinear_arith);
        assert(2 * (floor + 1) * divisor == 2 * (divisor * floor) + 2 * divisor)
            by (nonlinear_arith);
        if floor == 0 {
            assert(divisor * floor == 0) by (nonlinear_arith)
                requires
                    floor == 0,
            ;
        }
        if floor == 1 {
            assert(divisor * floor == divisor) by (nonlinear_arith)
                requires
                    floor == 1,
            ;
        }
    }
}

/// The length of a text in bytes is that of its UTF-8 encoding.
pub proof fn byte_len_is_that_of_encoding(text: Seq<char>)
    ensures
        byte_len(text) == encode_utf8(text).len(),
    decreases text.len(),
{
    if text.len() > 0 {
        let (first, rest) = (text[0], text.drop_first());
        byte_len_is_that_of_encoding(rest);
        assert(text =~= seq![first] + rest);
        lemma_byte_len_concat(seq![first], rest);
        reveal_with_fuel(byte_len, 2);
        assert(seq![first].drop_last() =~= Seq::<char>::empty());
        char_is_scalar(first);
        assert(encode_scalar(first as u32).len() == utf8_width(first));
    }
}

/// What a comparison answers is less where the left side comes first, else greater
/// where the right side does, and else equal.
pub proof fn comparison_answers_which_comes_first(
    ordering: Ordering,
    less: bool,
    greater: bool,
)
    ensures
        is_ordering(ordering, less, greater) && less ==> ordering == Ordering::Less,
        is_ordering(ordering, less, greater) && !less && greater ==> ordering
            == Ordering::Greater,
        is_ordering(ordering, less, greater) && !less && !greater ==> ordering == Ordering::Equal,
{
}

} // verus!
