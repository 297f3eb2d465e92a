//! Preparation of queries and candidates: lower case, tokens, variants and
//! cheap checks.

use vstd::prelude::*;
use vstd::string::*;

use crate::unicode::{alphanumeric, chars_of, lowercase, whitespace};

verus! {

/// What divides a text into tokens.
#[derive(Clone, Copy)]
pub enum Separator {
    /// White space.
    Whitespace,
    /// Whatever is neither a letter nor a digit.
    NonAlphanumeric,
    /// What divides a path into words.
    PathToken,
    /// What divides a path into components.
    PathComponent,
}

impl Separator {
    /// Whether `c` divides tokens.
    pub open spec fn divides(self, c: char) -> bool {
        match self {
            Separator::Whitespace => whitespace(c),
            Separator::NonAlphanumeric => !alphanumeric(c),
            Separator::PathToken => is_path_token_separator(c),
            Separator::PathComponent => c == '/' || c == '\\',
        }
    }

    pub(crate) fn is_at(self, c: char) -> (divides: bool)
        ensures
            divides == self.divides(c),
    {
        match self {
            Separator::Whitespace => c.is_whitespace(),
            Separator::NonAlphanumeric => !c.is_alphanumeric(),
            Separator::PathToken => c == '/' || c == '\\' || c == '-' || c == '_' || c == '.'
                || c.is_whitespace(),
            Separator::PathComponent => c == '/' || c == '\\',
        }
    }
}

/// Whether `c` divides the words of a path.
pub open spec fn is_path_token_separator(c: char) -> bool {
    c == '/' || c == '\\' || c == '-' || c == '_' || c == '.' || whitespace(c)
}

/// The runs of characters without a separator in the first `n` characters of
/// `text`: where each begins and where it ends, from left to right.
pub open spec fn runs(separator: Separator, text: Seq<char>, n: nat) -> Seq<(int, int)>
    decreases n,
{
    if n == 0 {
        Seq::empty()
    } else {
        let before = runs(separator, text, (n - 1) as nat);
        if separator.divides(text[n - 1]) {
            before
        } else if n == 1 || separator.divides(text[n - 2]) {
            before.push((n - 1, n as int))
        } else {
            before.drop_last().push((before.last().0, n as int))
        }
    }
}

/// The tokens of `text`.
pub open spec fn tokens(separator: Separator, text: Seq<char>) -> Seq<Seq<char>> {
    runs(separator, text, text.len()).map_values(|run: (int, int)| text.subrange(run.0, run.1))
}

/// The words of a path.
pub open spec fn path_tokens(text: Seq<char>) -> Seq<Seq<char>> {
    tokens(Separator::PathToken, text)
}

/// The words of a text, without punctuation.
pub open spec fn search_tokens(text: Seq<char>) -> Seq<Seq<char>> {
    tokens(Separator::NonAlphanumeric, text)
}

/// What stands between white space.
pub open spec fn whitespace_tokens(text: Seq<char>) -> Seq<Seq<char>> {
    tokens(Separator::Whitespace, text)
}

/// The runs that [`runs`] lists are those that cannot be made longer, each
/// ending before the next begins, and no character of a token is left out.
pub proof fn runs_are_maximal(separator: Separator, text: Seq<char>, n: nat)
    requires
        n <= text.len(),
    ensures
        forall|k: int|
            #![trigger runs(separator, text, n)[k]]
            0 <= k < runs(separator, text, n).len() ==> {
                let (start, end) = runs(separator, text, n)[k];
                &&& 0 <= start < end <= n
                &&& start == 0 || separator.divides(text[start - 1])
                &&& end == n || separator.divides(text[end])
                &&& forall|i: int| start <= i < end ==> !separator.divides(#[trigger] text[i])
            },
        forall|k: int, l: int|
            #![trigger runs(separator, text, n)[k], runs(separator, text, n)[l]]
            0 <= k < l < runs(separator, text, n).len() ==> runs(separator, text, n)[k].1 < runs(
                separator,
                text,
                n,
            )[l].0,
        forall|i: int|
            0 <= i < n && !separator.divides(#[trigger] text[i]) ==> exists|k: int|
                #![trigger runs(separator, text, n)[k]]
                0 <= k < runs(separator, text, n).len() && runs(separator, text, n)[k].0 <= i
                    < runs(separator, text, n)[k].1,
        n > 0 && !separator.divides(text[n - 1]) ==> runs(separator, text, n).len() > 0 && runs(
            separator,
            text,
            n,
        ).last().1 == n,
    decreases n,
{
    if n > 0 {
        let before = runs(separator, text, (n - 1) as nat);
        let now = runs(separator, text, n);
        runs_are_maximal(separator, text, (n - 1) as nat);
        if !separator.divides(text[n - 1]) {
            assert(now[now.len() - 1].1 == n);
            assert forall|i: int|
                0 <= i < n && !separator.divides(#[trigger] text[i]) implies exists|k: int|
                #![trigger now[k]]
                0 <= k < now.len() && now[k].0 <= i < now[k].1 by {
                if i < n - 1 {
                    let k = choose|k: int|
                        #![trigger before[k]]
                        0 <= k < before.len() && before[k].0 <= i < before[k].1;
                    assert(now[k].0 <= i < now[k].1);
                } else {
                    assert(now[now.len() - 1].0 <= i < now[now.len() - 1].1);
                }
            }
        }
    }
}

/// Put together, the tokens are the text without its separators.
pub proof fn tokens_keep_all_but_separators(separator: Separator, text: Seq<char>)
    ensures
        tokens(separator, text).flatten() == text.filter(|c: char| !separator.divides(c)),
{
    let run_text = |run: (int, int)| text.subrange(run.0, run.1);
    lemma_runs_flatten(separator, text, text.len());
    assert(text.take(text.len() as int) =~= text);
    assert(tokens(separator, text) =~= runs(separator, text, text.len()).map_values(run_text));
}

proof fn lemma_runs_flatten(separator: Separator, text: Seq<char>, n: nat)
    requires
        n <= text.len(),
    ensures
        runs(separator, text, n).map_values(
            |run: (int, int)| text.subrange(run.0, run.1),
        ).flatten() == text.take(n as int).filter(|c: char| !separator.divides(c)),
    decreases n,
{
    let keep = |c: char| !separator.divides(c);
    let run_text = |run: (int, int)| text.subrange(run.0, run.1);
    reveal(Seq::filter);
    if n == 0 {
        assert(runs(separator, text, n).map_values(run_text) =~= Seq::<Seq<char>>::empty());
    } else {
        let before = runs(separator, text, (n - 1) as nat);
        let now = runs(separator, text, n);
        runs_are_maximal(separator, text, (n - 1) as nat);
        lemma_runs_flatten(separator, text, (n - 1) as nat);
        assert(text.take(n as int).drop_last() =~= text.take(n - 1));
        if !keep(text[n - 1]) {
        } else if n == 1 || separator.divides(text[n - 2]) {
            let texts = before.map_values(run_text);
            assert(now.map_values(run_text) =~= texts.push(text.subrange(n - 1, n as int)));
            texts.lemma_flatten_push(text.subrange(n - 1, n as int));
            assert(text.subrange(n - 1, n as int) =~= seq![text[n - 1]]);
            assert(now.map_values(run_text).flatten() =~= texts.flatten().push(text[n - 1]));
        } else {
            let texts = before.drop_last().map_values(run_text);
            let (start, end) = before.last();
            let shorter = text.subrange(start, end);
            let longer = text.subrange(start, n as int);
            assert(before.map_values(run_text) =~= texts.push(shorter));
            assert(now.map_values(run_text) =~= texts.push(longer));
            texts.lemma_flatten_push(shorter);
            texts.lemma_flatten_push(longer);
            assert(longer =~= shorter.push(text[n - 1]));
            assert(texts.flatten() + longer =~= (texts.flatten() + shorter).push(text[n - 1]));
        }
    }
}

/// A text has no more runs than characters.
proof fn lemma_run_count(separator: Separator, text: Seq<char>, n: nat)
    ensures
        runs(separator, text, n).len() <= n,
    decreases n,
{
    if n > 0 {
        lemma_run_count(separator, text, (n - 1) as nat);
        if n > 1 && !separator.divides(text[n - 1]) && !separator.divides(text[n - 2]) {
            lemma_open_run(separator, text, (n - 1) as nat);
        }
    }
}

proof fn lemma_open_run(separator: Separator, text: Seq<char>, n: nat)
    requires
        n > 0,
        !separator.divides(text[n - 1]),
    ensures
        runs(separator, text, n).len() > 0,
{
}

/// A text has no more tokens than characters, and no token is empty or longer
/// than the text.
pub(crate) proof fn lemma_tokens_bound(separator: Separator, text: Seq<char>)
    ensures
        tokens(separator, text).len() <= text.len(),
        forall|k: int|
            0 <= k < tokens(separator, text).len() ==> 0 < #[trigger] tokens(
                separator,
                text,
            )[k].len() <= text.len(),
{
    lemma_run_count(separator, text, text.len());
    runs_are_maximal(separator, text, text.len());
    assert forall|k: int| 0 <= k < tokens(separator, text).len() implies 0 < #[trigger] tokens(
        separator,
        text,
    )[k].len() <= text.len() by {
        let run = runs(separator, text, text.len())[k];
    }
}

/// Where the runs of `chars` begin and end.
fn find_runs(separator: Separator, chars: &Vec<char>) -> (found: Vec<(usize, usize)>)
    ensures
        found@.len() == runs(separator, chars@, chars@.len()).len(),
        forall|k: int|
            0 <= k < found@.len() ==> {
                let run = #[trigger] runs(separator, chars@, chars@.len())[k];
                found@[k].0 == run.0 && found@[k].1 == run.1
            },
{
    let mut found: Vec<(usize, usize)> = Vec::new();
    let mut inside = false;
    let mut i: usize = 0;
    while i < chars.len()
        invariant
            i <= chars@.len(),
            inside <==> i > 0 && !separator.divides(chars@[i - 1]),
            found@.len() == runs(separator, chars@, i as nat).len(),
            forall|k: int|
                0 <= k < found@.len() ==> {
                    let run = #[trigger] runs(separator, chars@, i as nat)[k];
                    found@[k].0 == run.0 && found@[k].1 == run.1
                },
        decreases chars@.len() - i,
    {
        proof {
            runs_are_maximal(separator, chars@, i as nat);
        }
        if separator.is_at(chars[i]) {
            inside = false;
        } else if inside {
            let run = found.pop();
            if let Some((start, _)) = run {
                found.push((start, i + 1));
            }
        } else {
            found.push((i, i + 1));
            inside = true;
        }
        i = i + 1;
    }
    found
}

/// The tokens of `value`, from left to right.
pub(crate) fn split_tokens(separator: Separator, value: &str) -> (found: Vec<&str>)
    ensures
        found.deep_view() == tokens(separator, value@),
{
    let chars = chars_of(value);
    let spans = find_runs(separator, &chars);
    let mut found: Vec<&str> = Vec::new();
    let mut k: usize = 0;
    while k < spans.len()
        invariant
            k <= spans@.len(),
            found@.len() == k,
            spans@.len() == runs(separator, value@, value@.len()).len(),
            forall|j: int|
                0 <= j < spans@.len() ==> {
                    let run = #[trigger] runs(separator, value@, value@.len())[j];
                    spans@[j].0 == run.0 && spans@[j].1 == run.1
                },
            forall|j: int| 0 <= j < k ==> (#[trigger] found@[j])@ == tokens(separator, value@)[j],
        decreases spans@.len() - k,
    {
        proof {
            runs_are_maximal(separator, value@, value@.len());
            let run = runs(separator, value@, value@.len())[k as int];
        }
        found.push(value.substring_char(spans[k].0, spans[k].1));
        k = k + 1;
    }
    assert(found.deep_view() =~= tokens(separator, value@));
    found
}

/// `text` in lower case.
pub fn to_lowercase(text: &str) -> (lowered: String)
    ensures
        lowered@ == lowercase(text@),
{
    if text.is_ascii() {
        text.to_ascii_lowercase()
    } else {
        text.to_lowercase()
    }
}

/// The tokens of `value` between white space.
pub fn split_whitespace_tokens(value: &str) -> (found: Vec<&str>)
    ensures
        found.deep_view() == whitespace_tokens(value@),
{
    split_tokens(Separator::Whitespace, value)
}

/// The tokens of `value` made of letters and digits.
pub fn split_search_tokens(value: &str) -> (found: Vec<&str>)
    ensures
        found.deep_view() == search_tokens(value@),
{
    split_tokens(Separator::NonAlphanumeric, value)
}

/// The words of the path `value`.
pub fn split_path_tokens(value: &str) -> (found: Vec<&str>)
    ensures
        found.deep_view() == path_tokens(value@),
{
    split_tokens(Separator::PathToken, value)
}

/// Where the white space that begins at `i` ends.
pub open spec fn skip_whitespace(text: Seq<char>, i: int) -> int
    decreases text.len() - i,
{
    if 0 <= i < text.len() && whitespace(text[i]) {
        skip_whitespace(text, i + 1)
    } else {
        i
    }
}

/// Where the white space that ends at `end` begins, not before `start`.
pub open spec fn drop_whitespace(text: Seq<char>, start: int, end: int) -> int
    decreases end - start,
{
    if start < end <= text.len() && whitespace(text[end - 1]) {
        drop_whitespace(text, start, end - 1)
    } else {
        end
    }
}

/// `text` without the white space at its ends.
pub open spec fn trimmed(text: Seq<char>) -> Seq<char> {
    let start = skip_whitespace(text, 0);
    text.subrange(start, drop_whitespace(text, start, text.len() as int))
}

/// `text` without the white space at its ends.
pub(crate) fn trim(text: &str) -> (rest: &str)
    ensures
        rest@ == trimmed(text@),
{
    let chars = chars_of(text);
    let mut start: usize = 0;
    while start < chars.len() && chars[start].is_whitespace()
        invariant
            start <= chars@.len(),
            chars@ == text@,
            skip_whitespace(text@, 0) == skip_whitespace(text@, start as int),
        decreases chars@.len() - start,
    {
        start = start + 1;
    }
    let mut end: usize = chars.len();
    while start < end && chars[end - 1].is_whitespace()
        invariant
            start <= end <= chars@.len(),
            chars@ == text@,
            drop_whitespace(text@, start as int, text@.len() as int) == drop_whitespace(
                text@,
                start as int,
                end as int,
            ),
        decreases end,
    {
        end = end - 1;
    }
    text.substring_char(start, end)
}

/// Trimming leaves a part of the text.
pub(crate) proof fn lemma_trimmed_part(text: Seq<char>)
    ensures
        trimmed(text).len() <= text.len(),
        forall|k: int|
            0 <= k < trimmed(text).len() ==> text.contains(#[trigger] trimmed(text)[k]),
{
    lemma_skip_bounds(text, 0);
    let start = skip_whitespace(text, 0);
    lemma_drop_bounds(text, start, text.len() as int);
    let end = drop_whitespace(text, start, text.len() as int);
    assert forall|k: int| 0 <= k < trimmed(text).len() implies text.contains(
        #[trigger] trimmed(text)[k],
    ) by {
        assert(trimmed(text)[k] == text[start + k]);
    }
}

proof fn lemma_skip_bounds(text: Seq<char>, i: int)
    requires
        0 <= i <= text.len(),
    ensures
        i <= skip_whitespace(text, i) <= text.len(),
    decreases text.len() - i,
{
    if i < text.len() && whitespace(text[i]) {
        lemma_skip_bounds(text, i + 1);
    }
}

proof fn lemma_drop_bounds(text: Seq<char>, start: int, end: int)
    requires
        0 <= start <= end <= text.len(),
    ensures
        start <= drop_whitespace(text, start, end) <= end,
    decreases end,
{
    if start < end && whitespace(text[end - 1]) {
        lemma_drop_bounds(text, start, end - 1);
    }
}

/// `query` with a space put in before its character `cut`.
pub open spec fn spaced_at(query: Seq<char>, cut: int) -> Seq<char> {
    query.take(cut).push(' ') + query.skip(cut)
}

/// `query` with a space between two of its characters, in all the ways there
/// are.
pub open spec fn spaced_variants(query: Seq<char>) -> Seq<Seq<char>> {
    if query.len() == 0 {
        Seq::empty()
    } else {
        Seq::new((query.len() - 1) as nat, |k: int| spaced_at(query, k + 1))
    }
}

/// What `query` may have been before a space got lost: the query with a space
/// between two of its characters, in all the ways there are.
pub fn separator_variants(query: &str) -> (variants: Vec<String>)
    ensures
        variants.deep_view() == spaced_variants(query@),
{
    let len = query.unicode_len();
    let mut variants: Vec<String> = Vec::new();
    if len == 0 {
        assert(variants.deep_view() =~= spaced_variants(query@));
        return variants;
    }
    let mut cut: usize = 1;
    while cut < len
        invariant
            1 <= cut <= len,
            len == query@.len(),
            variants@.len() == cut - 1,
            forall|k: int|
                0 <= k < cut - 1 ==> (#[trigger] variants@[k])@ == spaced_variants(query@)[k],
        decreases len - cut,
    {
        let mut variant = query.substring_char(0, cut).to_owned();
        variant.push(' ');
        variant.append(query.substring_char(cut, len));
        assert(variant@ =~= spaced_at(query@, cut as int));
        variants.push(variant);
        cut = cut + 1;
    }
    assert(variants.deep_view() =~= spaced_variants(query@));
    variants
}

/// How many of the first `pairs` pairs of neighbours in `token` have a
/// character that `candidate` has.
pub open spec fn shared_pairs(token: Seq<char>, candidate: Seq<char>, pairs: nat) -> nat
    decreases pairs,
{
    if pairs == 0 {
        0
    } else {
        let before = shared_pairs(token, candidate, (pairs - 1) as nat);
        if candidate.contains(token[pairs - 1]) || candidate.contains(token[pairs as int]) {
            before + 1
        } else {
            before
        }
    }
}

/// Whether `candidate` has enough of the characters of `token` to be worth a
/// closer look.
pub open spec fn signals(token: Seq<char>, candidate: Seq<char>) -> bool {
    if token.len() == 0 {
        false
    } else if token.len() == 1 {
        candidate.contains(token[0])
    } else {
        shared_pairs(token, candidate, (token.len() - 1) as nat) >= if token.len() <= 3 {
            1nat
        } else {
            2
        }
    }
}

/// Whether any of the tokens signals `candidate`.
pub open spec fn any_signals(query_tokens: Seq<Seq<char>>, candidate: Seq<char>) -> bool {
    exists|i: int| 0 <= i < query_tokens.len() && signals(#[trigger] query_tokens[i], candidate)
}

fn has_char(chars: &Vec<char>, wanted: char) -> (found: bool)
    ensures
        found == chars@.contains(wanted),
{
    let mut i: usize = 0;
    while i < chars.len()
        invariant
            i <= chars@.len(),
            forall|k: int| 0 <= k < i ==> chars@[k] != wanted,
        decreases chars@.len() - i,
    {
        if chars[i] == wanted {
            return true;
        }
        i = i + 1;
    }
    false
}

proof fn lemma_shared_pairs_grow(token: Seq<char>, candidate: Seq<char>, pairs: nat, more: nat)
    requires
        pairs <= more,
    ensures
        shared_pairs(token, candidate, pairs) <= shared_pairs(token, candidate, more),
    decreases more,
{
    if pairs < more {
        lemma_shared_pairs_grow(token, candidate, pairs, (more - 1) as nat);
    }
}

/// Whether `candidate` has enough of the characters of `token` to be worth a
/// closer look: the character of a token of one, else a character of one pair
/// of neighbours, or of two where the token has more than three characters.
pub fn token_has_signal(token: &str, candidate: &str) -> (found: bool)
    ensures
        found == signals(token@, candidate@),
{
    let chars = chars_of(token);
    let candidate_chars = chars_of(candidate);
    if chars.len() == 0 {
        return false;
    }
    if chars.len() == 1 {
        return has_char(&candidate_chars, chars[0]);
    }
    let required: usize = if chars.len() <= 3 {
        1
    } else {
        2
    };
    let mut overlap: usize = 0;
    let mut pair: usize = 0;
    while pair < chars.len() - 1
        invariant
            pair <= chars@.len() - 1,
            chars@.len() > 1,
            chars@ == token@,
            candidate_chars@ == candidate@,
            required == if token@.len() <= 3 { 1nat } else { 2 },
            overlap < required,
            overlap == shared_pairs(token@, candidate@, pair as nat),
        decreases chars@.len() - pair,
    {
        if has_char(&candidate_chars, chars[pair]) || has_char(&candidate_chars, chars[pair + 1]) {
            overlap = overlap + 1;
            if overlap >= required {
                proof {
                    lemma_shared_pairs_grow(
                        token@,
                        candidate@,
                        (pair + 1) as nat,
                        (token@.len() - 1) as nat,
                    );
                }
                return true;
            }
        }
        pair = pair + 1;
    }
    false
}

/// Whether `candidate` is worth a closer look for any of the query tokens.
pub fn has_query_signal(query_tokens: &[&str], candidate: &str) -> (found: bool)
    ensures
        found == any_signals(query_tokens.deep_view(), candidate@),
{
    let mut i: usize = 0;
    while i < query_tokens.len()
        invariant
            i <= query_tokens@.len(),
            forall|k: int|
                0 <= k < i ==> !signals(#[trigger] query_tokens.deep_view()[k], candidate@),
        decreases query_tokens@.len() - i,
    {
        if token_has_signal(query_tokens[i], candidate) {
            assert(signals(query_tokens.deep_view()[i as int], candidate@));
            return true;
        }
        assert(query_tokens.deep_view()[i as int] == query_tokens@[i as int]@);
        i = i + 1;
    }
    false
}

/// The letters and digits of a text, trimmed and in lower case.
pub open spec fn compact(value: Seq<char>) -> Seq<char> {
    lowercase(trimmed(value)).filter(|c: char| alphanumeric(c))
}

/// The letters and digits of `value`, trimmed and in lower case.
pub fn normalize_compact_alnum(value: &str) -> (kept: String)
    ensures
        kept@ == compact(value@),
{
    let lowered = trim(value).to_lowercase();
    let chars = chars_of(lowered.as_str());
    let mut kept = String::new();
    let ghost keep = |c: char| alphanumeric(c);
    let mut i: usize = 0;
    proof {
        reveal(Seq::filter);
        assert(lowered@.take(0).filter(keep) =~= Seq::<char>::empty());
    }
    while i < chars.len()
        invariant
            i <= chars@.len(),
            chars@ == lowered@,
            keep == (|c: char| alphanumeric(c)),
            kept@ == lowered@.take(i as int).filter(keep),
        decreases chars@.len() - i,
    {
        proof {
            reveal(Seq::filter);
            assert(lowered@.take(i + 1).drop_last() =~= lowered@.take(i as int));
        }
        if chars[i].is_alphanumeric() {
            kept.push(chars[i]);
        }
        i = i + 1;
    }
    assert(lowered@.take(lowered@.len() as int) =~= lowered@);
    kept
}

/// The tokens put together.
pub(crate) fn concat(found: &Vec<&str>) -> (whole: String)
    ensures
        whole@ == found.deep_view().flatten(),
{
    let mut whole = String::new();
    let ghost texts = found.deep_view();
    let mut i: usize = 0;
    assert(texts.take(0) =~= Seq::<Seq<char>>::empty());
    while i < found.len()
        invariant
            i <= found@.len(),
            texts == found.deep_view(),
            whole@ == texts.take(i as int).flatten(),
        decreases found@.len() - i,
    {
        proof {
            texts.take(i as int).lemma_flatten_push(texts[i as int]);
            assert(texts.take(i + 1) =~= texts.take(i as int).push(texts[i as int]));
        }
        whole.append(found[i]);
        i = i + 1;
    }
    assert(texts.take(texts.len() as int) =~= texts);
    whole
}

/// Whether `left` comes before `right` where texts are ordered by their first
/// difference, and a text comes before any longer one that it begins.
pub open spec fn text_before(left: Seq<char>, right: Seq<char>) -> bool
    decreases left.len(),
{
    if right.len() == 0 {
        false
    } else if left.len() == 0 {
        true
    } else if left[0] != right[0] {
        left[0] < right[0]
    } else {
        text_before(left.drop_first(), right.drop_first())
    }
}

/// [`text_before`] orders texts, any two different ones.
pub proof fn text_order_is_total(left: Seq<char>, right: Seq<char>)
    ensures
        !(text_before(left, right) && text_before(right, left)),
        !text_before(left, right) && !text_before(right, left) <==> left == right,
    decreases left.len(),
{
    if left.len() > 0 && right.len() > 0 {
        text_order_is_total(left.drop_first(), right.drop_first());
        if left[0] == right[0] && left.drop_first() == right.drop_first() {
            assert(left =~= seq![left[0]] + left.drop_first());
            assert(right =~= seq![right[0]] + right.drop_first());
        }
    } else {
        assert(left.len() == 0 && right.len() == 0 ==> left =~= right);
    }
}

/// A text comes before another if and only if, after a part that both begin with,
/// it ends first or goes on with the lower character.
pub proof fn text_order_is_by_first_difference(left: Seq<char>, right: Seq<char>)
    ensures
        text_before(left, right) <==> exists|same: int|
            {
                &&& 0 <= same <= left.len()
                &&& same < right.len()
                &&& #[trigger] left.take(same) == right.take(same)
                &&& same == left.len() || left[same] < right[same]
            },
    decreases left.len(),
{
    if text_before(left, right) {
        let same = lemma_first_difference(left, right);
        assert(left.take(same) == right.take(same));
    }
    if exists|same: int|
        {
            &&& 0 <= same <= left.len()
            &&& same < right.len()
            &&& #[trigger] left.take(same) == right.take(same)
            &&& same == left.len() || left[same] < right[same]
        } {
        let same = choose|same: int|
            {
                &&& 0 <= same <= left.len()
                &&& same < right.len()
                &&& #[trigger] left.take(same) == right.take(same)
                &&& same == left.len() || left[same] < right[same]
            };
        lemma_before_by_difference(left, right, same);
    }
}

proof fn lemma_first_difference(left: Seq<char>, right: Seq<char>) -> (same: int)
    requires
        text_before(left, right),
    ensures
        0 <= same <= left.len(),
        same < right.len(),
        left.take(same) == right.take(same),
        same == left.len() || left[same] < right[same],
    decreases left.len(),
{
    if left.len() == 0 || left[0] != right[0] {
        assert(left.take(0) =~= right.take(0));
        0
    } else {
        let rest = lemma_first_difference(left.drop_first(), right.drop_first());
        let (left_rest, right_rest) = (left.drop_first(), right.drop_first());
        assert(left.take(rest + 1) =~= seq![left[0]] + left_rest.take(rest));
        assert(right.take(rest + 1) =~= seq![right[0]] + right_rest.take(rest));
        rest + 1
    }
}

proof fn lemma_before_by_difference(left: Seq<char>, right: Seq<char>, same: int)
    requires
        0 <= same <= left.len(),
        same < right.len(),
        left.take(same) == right.take(same),
        same == left.len() || left[same] < right[same],
    ensures
        text_before(left, right),
    decreases left.len(),
{
    if same > 0 {
        assert(left.take(same)[0] == left[0]);
        assert(right.take(same)[0] == right[0]);
        let (left_rest, right_rest) = (left.drop_first(), right.drop_first());
        assert(left_rest.take(same - 1) =~= left.take(same).drop_first());
        assert(right_rest.take(same - 1) =~= right.take(same).drop_first());
        lemma_before_by_difference(left_rest, right_rest, same - 1);
    }
}

/// A text before one that is before a third is before the third.
pub proof fn text_order_is_transitive(left: Seq<char>, middle: Seq<char>, right: Seq<char>)
    requires
        text_before(left, middle),
        text_before(middle, right),
    ensures
        text_before(left, right),
    decreases left.len(),
{
    if left.len() > 0 && left[0] == middle[0] && middle[0] == right[0] {
        text_order_is_transitive(left.drop_first(), middle.drop_first(), right.drop_first());
    }
}

/// Whether `left` comes before `right`.
pub(crate) fn comes_before(left: &str, right: &str) -> (before: bool)
    ensures
        before == text_before(left@, right@),
{
    let left_chars = chars_of(left);
    let right_chars = chars_of(right);
    let mut i: usize = 0;
    assert(left@.skip(0) =~= left@);
    assert(right@.skip(0) =~= right@);
    while i < left_chars.len() && i < right_chars.len()
        invariant
            i <= left@.len(),
            i <= right@.len(),
            left_chars@ == left@,
            right_chars@ == right@,
            text_before(left@, right@) == text_before(left@.skip(i as int), right@.skip(i as int)),
        decreases left@.len() - i,
    {
        if left_chars[i] != right_chars[i] {
            return left_chars[i] < right_chars[i];
        }
        proof {
            assert(left@.skip(i as int).drop_first() =~= left@.skip(i + 1));
            assert(right@.skip(i as int).drop_first() =~= right@.skip(i + 1));
        }
        i = i + 1;
    }
    i < right_chars.len()
}

/// Whether two texts are the same.
pub(crate) fn same_text(left: &str, right: &str) -> (same: bool)
    ensures
        same == (left@ == right@),
{
    proof {
        text_order_is_total(left@, right@);
    }
    !comes_before(left, right) && !comes_before(right, left)
}

/// Whether `pattern` stands in `text` from `i` on.
pub open spec fn occurs_at(text: Seq<char>, pattern: Seq<char>, i: int) -> bool {
    &&& 0 <= i
    &&& i + pattern.len() <= text.len()
    &&& text.subrange(i, i + pattern.len()) == pattern
}

/// The last place, not after `i`, where `pattern` stands in `text`.
pub open spec fn last_occurrence(text: Seq<char>, pattern: Seq<char>, i: int) -> Option<int>
    decreases i + 1,
{
    if i < 0 {
        None
    } else if occurs_at(text, pattern, i) {
        Some(i)
    } else {
        last_occurrence(text, pattern, i - 1)
    }
}

/// The last place where `pattern` stands in `text`.
pub open spec fn rfind(text: Seq<char>, pattern: Seq<char>) -> Option<int> {
    last_occurrence(text, pattern, text.len() - pattern.len())
}

/// [`rfind`] finds a place if there is one, and no later place has the pattern.
pub proof fn rfind_is_last(text: Seq<char>, pattern: Seq<char>)
    ensures
        rfind(text, pattern) matches Some(found) ==> occurs_at(text, pattern, found),
        forall|i: int| #[trigger]
            occurs_at(text, pattern, i) ==> rfind(text, pattern) is Some && i <= rfind(
                text,
                pattern,
            )->0,
{
    lemma_last_occurrence(text, pattern, text.len() - pattern.len());
}

proof fn lemma_last_occurrence(text: Seq<char>, pattern: Seq<char>, bound: int)
    ensures
        last_occurrence(text, pattern, bound) matches Some(found) ==> occurs_at(
            text,
            pattern,
            found,
        ),
        forall|i: int| #[trigger]
            occurs_at(text, pattern, i) && i <= bound ==> last_occurrence(text, pattern, bound)
                is Some && i <= last_occurrence(text, pattern, bound)->0,
    decreases bound + 1,
{
    if bound >= 0 && !occurs_at(text, pattern, bound) {
        lemma_last_occurrence(text, pattern, bound - 1);
    }
}

pub(crate) fn stands_at(text: &[char], pattern: &[char], i: usize) -> (found: bool)
    requires
        i + pattern@.len() <= text@.len(),
    ensures
        found == occurs_at(text@, pattern@, i as int),
{
    let len = text.len();
    let mut k: usize = 0;
    while k < pattern.len()
        invariant
            k <= pattern@.len(),
            i + pattern@.len() <= text@.len(),
            len == text@.len(),
            forall|j: int| 0 <= j < k ==> #[trigger] pattern@[j] == text@[i + j],
        decreases pattern@.len() - k,
    {
        if text[i + k] != pattern[k] {
            assert(text@.subrange(i as int, i + pattern@.len())[k as int] != pattern@[k as int]);
            return false;
        }
        k = k + 1;
    }
    assert(text@.subrange(i as int, i + pattern@.len()) =~= pattern@);
    true
}

/// The last place where `pattern` stands in `text`.
pub(crate) fn find_last(text: &[char], pattern: &[char]) -> (found: Option<usize>)
    ensures
        found is Some <==> rfind(text@, pattern@) is Some,
        found matches Some(place) ==> rfind(text@, pattern@) == Some(place as int),
{
    if pattern.len() > text.len() {
        return None;
    }
    let mut i: usize = text.len() - pattern.len();
    while i > 0
        invariant
            i + pattern@.len() <= text@.len(),
            rfind(text@, pattern@) == last_occurrence(text@, pattern@, i as int),
        decreases i,
    {
        if stands_at(text, pattern, i) {
            return Some(i);
        }
        i = i - 1;
    }
    if stands_at(text, pattern, 0) {
        Some(0)
    } else {
        assert(last_occurrence(text@, pattern@, -1) is None);
        None
    }
}

} // verus!
