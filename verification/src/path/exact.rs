//! Matching of keywords that a path holds as they are.

use std::cmp::Ordering;

use vstd::prelude::*;
use vstd::slice::slice_subrange;

use crate::order::{is_lower, is_lower_from, lemma_is_lower};
use crate::ranking::{is_ordering, ordering_of};
use crate::score::{score_rank_is_injective, Score};
use crate::text::{
    comes_before, find_last, is_path_token_separator, occurs_at, rfind, rfind_is_last, same_text,
    text_before, text_order_is_total, text_order_is_transitive, Separator,
};
use crate::token_match::sum_of;
use crate::unicode::{
    byte_len, char_count, chars_of, lemma_byte_len_bounds, lemma_byte_len_concat, lowercase,
    utf8_width, width_of,
};

verus! {

/// How a keyword stands among the words of a path.
#[derive(Clone, Copy, Debug, PartialEq, Eq, PartialOrd, Ord, Structural)]
pub enum MatchQuality {
    Contains,
    Suffix,
    Prefix,
    Exact,
}

/// `std::path::is_separator`: whether `c` divides path components on the
/// platform at hand. The answer is the platform's affair, and nothing is said of
/// it here.
pub assume_specification[ std::path::is_separator ](c: char) -> (answer: bool)
;

/// Which of the two characters that can divide path components do so on a
/// platform.
#[derive(Clone, Copy, Debug, PartialEq, Eq, Structural)]
pub struct PathSeparators {
    pub slash: bool,
    pub backslash: bool,
}

impl PathSeparators {
    /// Whether the platform at hand answers so when it is asked about the slash
    /// and the backslash.
    pub open spec fn are_of_platform(self) -> bool {
        &&& call_ensures(std::path::is_separator, ('/',), self.slash)
        &&& call_ensures(std::path::is_separator, ('\\',), self.backslash)
    }

    /// Asks the platform.
    pub fn of_platform() -> (separators: PathSeparators)
        ensures
            separators.are_of_platform(),
    {
        PathSeparators {
            slash: std::path::is_separator('/'),
            backslash: std::path::is_separator('\\'),
        }
    }

    fn divides_at(&self, c: char) -> (divides: bool)
        ensures
            divides == is_component_separator(c, *self),
    {
        c == '/' && self.slash || c == '\\' && self.backslash
    }
}

/// Whether `c` divides path components where `separators` do.
pub open spec fn is_component_separator(c: char, separators: PathSeparators) -> bool {
    c == '/' && separators.slash || c == '\\' && separators.backslash
}

/// Where the keywords stand in the first `end` characters of `path`, the last
/// keyword first: each as far right as it can before the one that follows it.
pub open spec fn find_keywords(path: Seq<char>, end: int, keywords: Seq<Seq<char>>) -> Option<
    Seq<int>,
>
    decreases keywords.len(),
{
    if keywords.len() == 0 {
        Some(Seq::empty())
    } else {
        match rfind(path.take(end), keywords.last()) {
            None => None,
            Some(hit) => match find_keywords(path, hit, keywords.drop_last()) {
                None => None,
                Some(rest) => Some(seq![hit] + rest),
            },
        }
    }
}

/// Whether a component separator stands in `path` at or after `from`.
pub open spec fn has_separator_from(
    path: Seq<char>,
    from: int,
    separators: PathSeparators,
) -> bool {
    exists|i: int|
        from <= i < path.len() && is_component_separator(#[trigger] path[i], separators)
}

/// Where the keywords stand in `path`, the last keyword first, if the path holds
/// them in order and the last in its last component.
pub open spec fn keyword_hits(
    path: Seq<char>,
    keywords: Seq<Seq<char>>,
    separators: PathSeparators,
) -> Option<Seq<int>> {
    match find_keywords(path, path.len() as int, keywords) {
        None => None,
        Some(hits) => if keywords.len() > 0 && has_separator_from(
            path,
            hits[0] + keywords.last().len(),
            separators,
        ) {
            None
        } else {
            Some(hits)
        },
    }
}

/// The part of `path` in which the keyword hit number `k` was looked for.
pub open spec fn searched(path: Seq<char>, hits: Seq<int>, k: int) -> Seq<char> {
    if k == 0 {
        path
    } else {
        path.take(hits[k - 1])
    }
}

/// The place of the last word separator before `end`.
pub open spec fn last_separator(text: Seq<char>, end: int) -> Option<int>
    decreases end,
{
    if end <= 0 {
        None
    } else if is_path_token_separator(text[end - 1]) {
        Some(end - 1)
    } else {
        last_separator(text, end - 1)
    }
}

/// The place of the first word separator from `start` on, or the end.
pub open spec fn next_separator(text: Seq<char>, start: int) -> int
    decreases text.len() - start,
{
    if 0 <= start < text.len() && !is_path_token_separator(text[start]) {
        next_separator(text, start + 1)
    } else {
        start
    }
}

/// The bytes between the word's beginning and `start`. A separator that takes
/// more than one byte adds those after its first.
pub open spec fn bytes_before(text: Seq<char>, start: int) -> nat {
    match last_separator(text, start) {
        None => byte_len(text.subrange(0, start)),
        Some(place) => (byte_len(text.subrange(place, start)) - 1) as nat,
    }
}

/// The bytes between `end` and the word's end.
pub open spec fn bytes_after(text: Seq<char>, end: int) -> nat {
    byte_len(text.subrange(end, next_separator(text, end)))
}

/// How much of its word a match from `start` to `end` leaves out, in bytes.
pub open spec fn position_penalty(text: Seq<char>, start: int, end: int) -> nat {
    bytes_before(text, start) + bytes_after(text, end)
}

/// How a match from `start` to `end` stands among the words of `text`.
pub open spec fn quality(text: Seq<char>, start: int, end: int) -> MatchQuality {
    let starts = start == 0 || is_path_token_separator(text[start - 1]);
    let ends = end == text.len() || is_path_token_separator(text[end]);
    if starts && ends {
        MatchQuality::Exact
    } else if starts {
        MatchQuality::Prefix
    } else if ends {
        MatchQuality::Suffix
    } else {
        MatchQuality::Contains
    }
}

/// How many component separators `text` has from `from` on.
pub open spec fn separators_from(text: Seq<char>, from: int, separators: PathSeparators) -> nat
    decreases text.len() - from,
{
    if 0 <= from < text.len() {
        let rest = separators_from(text, from + 1, separators);
        if is_component_separator(text[from], separators) {
            rest + 1
        } else {
            rest
        }
    } else {
        0
    }
}

/// 0 for a match that begins a word, 1 for one that only ends one, else 2.
pub open spec fn quality_rank(text: Seq<char>, start: int, end: int) -> nat {
    match quality(text, start, end) {
        MatchQuality::Exact | MatchQuality::Prefix => 0,
        MatchQuality::Suffix => 1,
        MatchQuality::Contains => 2,
    }
}

/// How far from the basename a match from `start` to `end` is, in steps of
/// three, and how it stands among the words.
pub open spec fn position_class(
    text: Seq<char>,
    start: int,
    end: int,
    separators: PathSeparators,
) -> nat {
    separators_from(text, start, separators) * 3 + quality_rank(text, start, end)
}

/// The keyword of the hit number `k`.
pub open spec fn keyword_of(keywords: Seq<Seq<char>>, k: int) -> Seq<char> {
    keywords[keywords.len() - 1 - k]
}

/// The penalties of the first `count` hits added up.
pub open spec fn penalty_sum(
    path: Seq<char>,
    keywords: Seq<Seq<char>>,
    hits: Seq<int>,
    count: nat,
) -> nat
    decreases count,
{
    if count == 0 {
        0
    } else {
        let k = count - 1;
        penalty_sum(path, keywords, hits, k as nat) + position_penalty(
            searched(path, hits, k),
            hits[k],
            hits[k] + keyword_of(keywords, k).len(),
        )
    }
}

/// The position classes of the first `count` hits added up.
pub open spec fn position_sum(
    path: Seq<char>,
    keywords: Seq<Seq<char>>,
    hits: Seq<int>,
    count: nat,
    separators: PathSeparators,
) -> nat
    decreases count,
{
    if count == 0 {
        0
    } else {
        let k = count - 1;
        position_sum(path, keywords, hits, k as nat, separators) + position_class(
            path,
            hits[k],
            hits[k] + keyword_of(keywords, k).len(),
            separators,
        )
    }
}

/// The penalty of a path in lower case, if it matches.
pub open spec fn path_penalty(
    path: Seq<char>,
    keywords: Seq<Seq<char>>,
    separators: PathSeparators,
) -> Option<nat> {
    match keyword_hits(path, keywords, separators) {
        None => None,
        Some(hits) => Some(penalty_sum(path, keywords, hits, keywords.len())),
    }
}

/// The position of a path in lower case, if it matches.
pub open spec fn path_position(
    path: Seq<char>,
    keywords: Seq<Seq<char>>,
    separators: PathSeparators,
) -> Option<nat> {
    match keyword_hits(path, keywords, separators) {
        None => None,
        Some(hits) => Some(position_sum(path, keywords, hits, keywords.len(), separators)),
    }
}

/// How each keyword stands in a path in lower case, the last keyword first, if
/// the path matches.
pub open spec fn path_qualities(
    path: Seq<char>,
    keywords: Seq<Seq<char>>,
    separators: PathSeparators,
) -> Option<Seq<MatchQuality>> {
    match keyword_hits(path, keywords, separators) {
        None => None,
        Some(hits) => Some(
            Seq::new(
                keywords.len(),
                |k: int|
                    quality(
                        searched(path, hits, k),
                        hits[k],
                        hits[k] + keyword_of(keywords, k).len(),
                    ),
            ),
        ),
    }
}

/// The three measures agree on which paths match.
pub proof fn measures_agree_on_matching(
    path: Seq<char>,
    keywords: Seq<Seq<char>>,
    separators: PathSeparators,
)
    ensures
        path_penalty(path, keywords, separators) is Some <==> path_qualities(
            path,
            keywords,
            separators,
        ) is Some,
        path_position(path, keywords, separators) is Some <==> path_qualities(
            path,
            keywords,
            separators,
        ) is Some,
{
}

/// A path that matches has one quality for each keyword, the last keyword first:
/// how that keyword stands where it occurs last in the part before the keyword
/// after it.
pub proof fn qualities_follow_keywords(
    path: Seq<char>,
    keywords: Seq<Seq<char>>,
    separators: PathSeparators,
)
    ensures
        path_qualities(path, keywords, separators) matches Some(qualities) ==> {
            let hits = keyword_hits(path, keywords, separators)->0;
            &&& qualities.len() == keywords.len() == hits.len()
            &&& forall|k: int|
                0 <= k < keywords.len() ==> {
                    &&& rfind(searched(path, hits, k), #[trigger] keyword_of(keywords, k)) == Some(
                        hits[k],
                    )
                    &&& qualities[k] == quality(
                        searched(path, hits, k),
                        hits[k],
                        hits[k] + keyword_of(keywords, k).len(),
                    )
                }
        },
{
    lemma_hits_are_last(path, path.len() as int, keywords);
    assert(path.take(path.len() as int) =~= path);
}

proof fn lemma_hits_are_last(path: Seq<char>, end: int, keywords: Seq<Seq<char>>)
    ensures
        find_keywords(path, end, keywords) matches Some(hits) ==> {
            &&& hits.len() == keywords.len()
            &&& forall|k: int|
                0 <= k < keywords.len() ==> rfind(
                    path.take(if k == 0 { end } else { hits[k - 1] }),
                    #[trigger] keyword_of(keywords, k),
                ) == Some(hits[k])
        },
    decreases keywords.len(),
{
    if keywords.len() > 0 {
        if let Some(hit) = rfind(path.take(end), keywords.last()) {
            lemma_hits_are_last(path, hit, keywords.drop_last());
            if let Some(rest) = find_keywords(path, hit, keywords.drop_last()) {
                let hits = seq![hit] + rest;
                assert forall|k: int| 0 <= k < keywords.len() implies rfind(
                    path.take(if k == 0 { end } else { hits[k - 1] }),
                    #[trigger] keyword_of(keywords, k),
                ) == Some(hits[k]) by {
                    if k > 0 {
                        assert(keyword_of(keywords, k) == keyword_of(keywords.drop_last(), k - 1));
                    }
                }
            }
        }
    }
}

/// Whether the keywords stand in `path` at `hits`, the last keyword first, each
/// at the last place before the keyword that follows it.
pub open spec fn is_reading(path: Seq<char>, keywords: Seq<Seq<char>>, hits: Seq<int>) -> bool {
    &&& hits.len() == keywords.len()
    &&& forall|k: int|
        0 <= k < hits.len() ==> #[trigger] is_place_of(
            path,
            path.len() as int,
            keywords,
            hits,
            k,
        )
}

/// Whether the keyword of the hit number `k` stands there at the last place before
/// the keyword that follows it, the last keyword before `end`.
pub open spec fn is_place_of(
    path: Seq<char>,
    end: int,
    keywords: Seq<Seq<char>>,
    hits: Seq<int>,
    k: int,
) -> bool {
    is_last_place(
        path,
        keywords[keywords.len() - 1 - k],
        if k == 0 {
            end
        } else {
            hits[k - 1]
        },
        hits[k],
    )
}

/// Whether `word` stands in `path` at `hit`, ends by `end`, and stands at no
/// later place where it ends by then.
pub open spec fn is_last_place(path: Seq<char>, word: Seq<char>, end: int, hit: int) -> bool {
    &&& 0 <= hit
    &&& hit + word.len() <= end
    &&& path.subrange(hit, hit + word.len()) == word
    &&& forall|later: int|
        hit < later <= end - word.len() ==> #[trigger] path.subrange(later, later + word.len())
            != word
}

/// Whether neither a slash nor a backslash that divides components stands in
/// `path` from `from` on.
pub open spec fn is_in_last_component(
    path: Seq<char>,
    from: int,
    separators: PathSeparators,
) -> bool {
    forall|i: int|
        from <= i < path.len() ==> !(#[trigger] path[i] == '/' && separators.slash) && !(path[i]
            == '\\' && separators.backslash)
}

/// A path matches if and only if the keywords stand in it in order, each at its
/// last place before the one that follows it, and nothing that divides components
/// comes after the last. The three measures agree on that.
pub proof fn path_matches_where_keywords_stand(
    path: Seq<char>,
    keywords: Seq<Seq<char>>,
    separators: PathSeparators,
)
    ensures
        path_penalty(path, keywords, separators) is Some <==> exists|hits: Seq<int>|
            #[trigger] is_reading(path, keywords, hits) && (keywords.len() > 0
                ==> is_in_last_component(path, hits[0] + keywords.last().len(), separators)),
        path_position(path, keywords, separators) is Some <==> path_penalty(
            path,
            keywords,
            separators,
        ) is Some,
        path_qualities(path, keywords, separators) is Some <==> path_penalty(
            path,
            keywords,
            separators,
        ) is Some,
{
    if let Some(hits) = keyword_hits(path, keywords, separators) {
        lemma_hits_are_reading(path, keywords, hits);
        assert(is_reading(path, keywords, hits));
        if keywords.len() > 0 {
            lemma_last_component(path, hits[0] + keywords.last().len(), separators);
        }
    }
    if exists|hits: Seq<int>|
        #[trigger] is_reading(path, keywords, hits) && (keywords.len() > 0
            ==> is_in_last_component(path, hits[0] + keywords.last().len(), separators)) {
        let hits = choose|hits: Seq<int>|
            #[trigger] is_reading(path, keywords, hits) && (keywords.len() > 0
                ==> is_in_last_component(path, hits[0] + keywords.last().len(), separators));
        reading_gives_measures(path, keywords, separators, hits);
    }
}

/// Where the keywords stand so, the measures are those of the places: the
/// penalties added up, the position classes added up, and the qualities, each
/// keyword looked at in the part of the path before the one that follows it, but
/// for the position, which is that in the whole path.
pub proof fn reading_gives_measures(
    path: Seq<char>,
    keywords: Seq<Seq<char>>,
    separators: PathSeparators,
    hits: Seq<int>,
)
    requires
        is_reading(path, keywords, hits),
        keywords.len() > 0 ==> is_in_last_component(
            path,
            hits[0] + keywords.last().len(),
            separators,
        ),
    ensures
        path_penalty(path, keywords, separators) == Some(
            sum_of(
                |k: int|
                    position_penalty(
                        path.take(
                            if k == 0 {
                                path.len() as int
                            } else {
                                hits[k - 1]
                            },
                        ),
                        hits[k],
                        hits[k] + keywords[keywords.len() - 1 - k].len(),
                    ),
                keywords.len(),
            ),
        ),
        path_position(path, keywords, separators) == Some(
            sum_of(
                |k: int|
                    position_class(
                        path,
                        hits[k],
                        hits[k] + keywords[keywords.len() - 1 - k].len(),
                        separators,
                    ),
                keywords.len(),
            ),
        ),
        path_qualities(path, keywords, separators) == Some(
            Seq::new(
                keywords.len(),
                |k: int|
                    quality(
                        path.take(
                            if k == 0 {
                                path.len() as int
                            } else {
                                hits[k - 1]
                            },
                        ),
                        hits[k],
                        hits[k] + keywords[keywords.len() - 1 - k].len(),
                    ),
            ),
        ),
{
    lemma_reading_is_found(path, path.len() as int, keywords, hits);
    if keywords.len() > 0 {
        lemma_last_component(path, hits[0] + keywords.last().len(), separators);
    }
    assert(path.take(path.len() as int) =~= path);
    lemma_sums_of_places(path, keywords, hits, separators, keywords.len());
    assert(path_qualities(path, keywords, separators)->0 =~= Seq::new(
        keywords.len(),
        |k: int|
            quality(
                path.take(
                    if k == 0 {
                        path.len() as int
                    } else {
                        hits[k - 1]
                    },
                ),
                hits[k],
                hits[k] + keywords[keywords.len() - 1 - k].len(),
            ),
    ));
}

proof fn lemma_sums_of_places(
    path: Seq<char>,
    keywords: Seq<Seq<char>>,
    hits: Seq<int>,
    separators: PathSeparators,
    n: nat,
)
    ensures
        penalty_sum(path, keywords, hits, n) == sum_of(
            |k: int|
                position_penalty(
                    path.take(
                        if k == 0 {
                            path.len() as int
                        } else {
                            hits[k - 1]
                        },
                    ),
                    hits[k],
                    hits[k] + keywords[keywords.len() - 1 - k].len(),
                ),
            n,
        ),
        position_sum(path, keywords, hits, n, separators) == sum_of(
            |k: int|
                position_class(
                    path,
                    hits[k],
                    hits[k] + keywords[keywords.len() - 1 - k].len(),
                    separators,
                ),
            n,
        ),
    decreases n,
{
    if n > 0 {
        lemma_sums_of_places(path, keywords, hits, separators, (n - 1) as nat);
        assert(path.take(path.len() as int) =~= path);
    }
}

proof fn lemma_last_component(path: Seq<char>, from: int, separators: PathSeparators)
    requires
        0 <= from,
    ensures
        is_in_last_component(path, from, separators) <==> !has_separator_from(
            path,
            from,
            separators,
        ),
{
    if has_separator_from(path, from, separators) {
        let i = choose|i: int|
            from <= i < path.len() && is_component_separator(#[trigger] path[i], separators);
        assert(path[i] == '/' && separators.slash || path[i] == '\\' && separators.backslash);
    }
    assert forall|i: int|
        from <= i < path.len() && !has_separator_from(path, from, separators) implies !(
    #[trigger] path[i] == '/' && separators.slash) && !(path[i] == '\\'
        && separators.backslash) by {
        assert(!is_component_separator(path[i], separators));
    }
}

proof fn lemma_hits_are_reading(path: Seq<char>, keywords: Seq<Seq<char>>, hits: Seq<int>)
    requires
        find_keywords(path, path.len() as int, keywords) == Some(hits),
    ensures
        is_reading(path, keywords, hits),
        keywords.len() > 0 ==> 0 <= hits[0],
{
    lemma_hits_stand(path, path.len() as int, keywords);
    if keywords.len() > 0 {
        assert(is_place_of(path, path.len() as int, keywords, hits, 0));
    }
}

proof fn lemma_hits_stand(path: Seq<char>, end: int, keywords: Seq<Seq<char>>)
    requires
        0 <= end <= path.len(),
    ensures
        find_keywords(path, end, keywords) matches Some(hits) ==> {
            &&& hits.len() == keywords.len()
            &&& forall|k: int|
                0 <= k < hits.len() ==> #[trigger] is_place_of(path, end, keywords, hits, k)
        },
    decreases keywords.len(),
{
    if keywords.len() > 0 {
        let fewer = keywords.drop_last();
        lemma_last_place(path, end, keywords.last());
        if let Some(hit) = rfind(path.take(end), keywords.last()) {
            assert(is_last_place(path, keywords.last(), end, hit));
            lemma_hits_stand(path, hit, fewer);
            if let Some(rest) = find_keywords(path, hit, fewer) {
                let hits = seq![hit] + rest;
                assert forall|k: int| 0 <= k < hits.len() implies #[trigger] is_place_of(
                    path,
                    end,
                    keywords,
                    hits,
                    k,
                ) by {
                    if k > 0 {
                        assert(is_place_of(path, hit, fewer, rest, k - 1));
                        assert(hits[k] == rest[k - 1]);
                        assert(fewer[fewer.len() - 1 - (k - 1)] == keywords[keywords.len() - 1
                            - k]);
                    }
                }
            }
        }
    }
}

/// A place is the last if and only if it is found.
proof fn lemma_last_place(path: Seq<char>, end: int, word: Seq<char>)
    requires
        0 <= end <= path.len(),
    ensures
        forall|hit: int| #[trigger]
            is_last_place(path, word, end, hit) <==> rfind(path.take(end), word) == Some(hit),
{
    let part = path.take(end);
    rfind_is_last(part, word);
    assert forall|at: int| 0 <= at <= end - word.len() implies #[trigger] path.subrange(
        at,
        at + word.len(),
    ) == part.subrange(at, at + word.len()) by {
        assert(path.subrange(at, at + word.len()) =~= part.subrange(at, at + word.len()));
    }
    assert forall|hit: int| #[trigger] is_last_place(path, word, end, hit) implies rfind(part, word)
        == Some(hit) by {
        assert(path.subrange(hit, hit + word.len()) == word);
        assert(occurs_at(part, word, hit));
        let found = rfind(part, word)->0;
        assert(path.subrange(found, found + word.len()) == part.subrange(
            found,
            found + word.len(),
        ));
    }
    if let Some(hit) = rfind(part, word) {
        assert(path.subrange(hit, hit + word.len()) == word);
        assert forall|later: int| hit < later <= end - word.len() implies #[trigger] path.subrange(
            later,
            later + word.len(),
        ) != word by {
            assert(!occurs_at(part, word, later));
        }
        assert(is_last_place(path, word, end, hit));
    }
}

proof fn lemma_reading_is_found(
    path: Seq<char>,
    end: int,
    keywords: Seq<Seq<char>>,
    hits: Seq<int>,
)
    requires
        0 <= end <= path.len(),
        hits.len() == keywords.len(),
        forall|k: int|
            0 <= k < hits.len() ==> #[trigger] is_place_of(path, end, keywords, hits, k),
    ensures
        find_keywords(path, end, keywords) == Some(hits),
        keywords.len() > 0 ==> 0 <= hits[0],
    decreases keywords.len(),
{
    if keywords.len() > 0 {
        let hit = hits[0];
        assert(is_place_of(path, end, keywords, hits, 0));
        lemma_last_place(path, end, keywords.last());
        assert(is_last_place(path, keywords.last(), end, hit));
        let rest = hits.drop_first();
        let fewer = keywords.drop_last();
        assert forall|k: int| 0 <= k < rest.len() implies #[trigger] is_place_of(
            path,
            hit,
            fewer,
            rest,
            k,
        ) by {
            assert(is_place_of(path, end, keywords, hits, k + 1));
            assert(fewer[fewer.len() - 1 - k] == keywords[keywords.len() - 1 - (k + 1)]);
        }
        lemma_reading_is_found(path, hit, fewer, rest);
        assert(seq![hit] + rest =~= hits);
    } else {
        assert(hits =~= Seq::empty());
    }
}

/// How a match stands among the words of a text: it is exact or a prefix if and
/// only if it begins a word, and exact or a suffix if and only if it ends one.
pub proof fn quality_tells_where_words_begin_and_end(text: Seq<char>, start: int, end: int)
    requires
        0 <= start <= end <= text.len(),
    ensures
        (quality(text, start, end) is Exact || quality(text, start, end) is Prefix) <==> start == 0
            || is_path_token_separator(text[start - 1]),
        (quality(text, start, end) is Exact || quality(text, start, end) is Suffix) <==> end
            == text.len() || is_path_token_separator(text[end]),
{
}

/// The position class counts three for each character from the match on that
/// divides components, none for a match that begins a word, one for a match that
/// only ends one, and two for any other.
pub proof fn position_class_counts_separators(
    text: Seq<char>,
    start: int,
    end: int,
    separators: PathSeparators,
)
    requires
        0 <= start <= end <= text.len(),
    ensures
        position_class(text, start, end, separators) == 3 * text.skip(start).filter(
            |c: char| c == '/' && separators.slash || c == '\\' && separators.backslash,
        ).len() + if start == 0 || is_path_token_separator(text[start - 1]) {
            0nat
        } else if end == text.len() || is_path_token_separator(text[end]) {
            1
        } else {
            2
        },
{
    lemma_separators_are_filter(text, start, separators);
}

proof fn lemma_separators_are_filter(text: Seq<char>, from: int, separators: PathSeparators)
    requires
        0 <= from <= text.len(),
    ensures
        separators_from(text, from, separators) == text.skip(from).filter(
            |c: char| c == '/' && separators.slash || c == '\\' && separators.backslash,
        ).len(),
    decreases text.len() - from,
{
    let divides = |c: char| c == '/' && separators.slash || c == '\\' && separators.backslash;
    reveal(Seq::filter);
    if from < text.len() {
        lemma_separators_are_filter(text, from + 1, separators);
        assert(text.skip(from) =~= seq![text[from]] + text.skip(from + 1));
        Seq::filter_distributes_over_add(seq![text[from]], text.skip(from + 1), divides);
        assert(seq![text[from]].drop_last() =~= Seq::<char>::empty());
        assert(Seq::<char>::empty().filter(divides).len() == 0);
    }
}

/// The penalty of a match is what it leaves of its word, in bytes: from where the
/// word begins to the match, and from the match to where the word ends. Where the
/// word begins after a separator of several bytes, those after its first count
/// too.
pub proof fn penalty_is_rest_of_word(
    text: Seq<char>,
    start: int,
    end: int,
    from: int,
    to: int,
)
    requires
        0 <= from <= start <= end <= to <= text.len(),
        forall|i: int|
            from <= i < start || end <= i < to ==> !is_path_token_separator(#[trigger] text[i]),
        from == 0 || is_path_token_separator(text[from - 1]),
        to == text.len() || is_path_token_separator(text[to]),
    ensures
        position_penalty(text, start, end) == byte_len(text.subrange(from, start)) + byte_len(
            text.subrange(end, to),
        ) + if from == 0 {
            0int
        } else {
            utf8_width(text[from - 1]) - 1
        },
{
    lemma_last_separator_is(text, start, from);
    lemma_next_separator_is(text, end, to);
    if from > 0 {
        let part = text.subrange(from - 1, start);
        assert(part =~= seq![text[from - 1]] + text.subrange(from, start));
        lemma_byte_len_concat(seq![text[from - 1]], text.subrange(from, start));
        reveal_with_fuel(byte_len, 2);
    }
}

proof fn lemma_last_separator_is(text: Seq<char>, end: int, from: int)
    requires
        0 <= from <= end <= text.len(),
        forall|i: int| from <= i < end ==> !is_path_token_separator(#[trigger] text[i]),
        from == 0 || is_path_token_separator(text[from - 1]),
    ensures
        last_separator(text, end) == if from == 0 {
            None
        } else {
            Some(from - 1)
        },
    decreases end,
{
    if from < end {
        lemma_last_separator_is(text, end - 1, from);
    }
}

proof fn lemma_next_separator_is(text: Seq<char>, start: int, to: int)
    requires
        0 <= start <= to <= text.len(),
        forall|i: int| start <= i < to ==> !is_path_token_separator(#[trigger] text[i]),
        to == text.len() || is_path_token_separator(text[to]),
    ensures
        next_separator(text, start) == to,
    decreases text.len() - start,
{
    if start < to {
        lemma_next_separator_is(text, start + 1, to);
    }
}

/// An exact match holds the position and the penalty, and there is one if and
/// only if the path matches.
pub proof fn exact_match_holds_both_measures(
    path: Seq<char>,
    keywords: Seq<Seq<char>>,
    separators: PathSeparators,
)
    ensures
        path_measures(path, keywords, separators) is Some <==> path_penalty(
            path,
            keywords,
            separators,
        ) is Some,
        path_measures(path, keywords, separators) matches Some((position, penalty)) ==> Some(
            position,
        ) == path_position(path, keywords, separators) && Some(penalty) == path_penalty(
            path,
            keywords,
            separators,
        ),
{
}

/// Every path matches no keywords at all, at no cost.
pub proof fn no_keywords_match_everything(path: Seq<char>, separators: PathSeparators)
    ensures
        path_penalty(path, Seq::empty(), separators) == Some(0nat),
        path_position(path, Seq::empty(), separators) == Some(0nat),
        path_qualities(path, Seq::empty(), separators) == Some(Seq::<MatchQuality>::empty()),
{
    assert(path_qualities(path, Seq::empty(), separators)->0 =~= Seq::<MatchQuality>::empty());
}

/// Whether two platforms agree on those of the two characters that `path` has.
pub open spec fn agree_on(left: PathSeparators, right: PathSeparators, path: Seq<char>) -> bool {
    &&& path.contains('/') ==> left.slash == right.slash
    &&& path.contains('\\') ==> left.backslash == right.backslash
}

/// Whether `path` has neither of the two characters.
pub open spec fn is_undivided(path: Seq<char>) -> bool {
    !path.contains('/') && !path.contains('\\')
}

/// A path is measured alike on platforms that agree on the characters it has.
pub proof fn agreeing_platforms_measure_alike(
    path: Seq<char>,
    keywords: Seq<Seq<char>>,
    left: PathSeparators,
    right: PathSeparators,
)
    requires
        agree_on(left, right, path),
    ensures
        path_penalty(path, keywords, left) == path_penalty(path, keywords, right),
        path_position(path, keywords, left) == path_position(path, keywords, right),
        path_qualities(path, keywords, left) == path_qualities(path, keywords, right),
        path_measures(path, keywords, left) == path_measures(path, keywords, right),
{
    lemma_hits(path, path.len() as int, keywords);
    assert(forall|i: int|
        0 <= i < path.len() ==> is_component_separator(#[trigger] path[i], left)
            == is_component_separator(path[i], right));
    if let Some(hits) = find_keywords(path, path.len() as int, keywords) {
        let from = if keywords.len() > 0 {
            hits[0] + keywords.last().len()
        } else {
            0
        };
        assert(has_separator_from(path, from, left) == has_separator_from(path, from, right));
        lemma_position_sum_agrees(path, keywords, hits, keywords.len(), left, right);
    }
}

/// Whether neither the slash nor the backslash stands in `path` after the last
/// keyword, if the path holds the keywords in order.
pub open spec fn is_settled(path: Seq<char>, keywords: Seq<Seq<char>>) -> bool {
    find_keywords(path, path.len() as int, keywords) matches Some(hits) ==> keywords.len() > 0
        ==> forall|i: int|
        hits[0] + keywords.last().len() <= i < path.len() ==> #[trigger] path[i] != '/' && path[i]
            != '\\'
}

/// A platform decides only whether a path matches, not its penalty or its
/// qualities; and it does not decide where nothing that could divide components
/// follows the last keyword.
pub proof fn platform_decides_only_matching(
    path: Seq<char>,
    keywords: Seq<Seq<char>>,
    left: PathSeparators,
    right: PathSeparators,
)
    ensures
        path_penalty(path, keywords, left) is Some && path_penalty(path, keywords, right) is Some
            ==> path_penalty(path, keywords, left) == path_penalty(path, keywords, right),
        path_qualities(path, keywords, left) is Some && path_qualities(
            path,
            keywords,
            right,
        ) is Some ==> path_qualities(path, keywords, left) == path_qualities(path, keywords, right),
        is_settled(path, keywords) ==> path_penalty(path, keywords, left) == path_penalty(
            path,
            keywords,
            right,
        ) && path_qualities(path, keywords, left) == path_qualities(path, keywords, right),
{
    lemma_hits(path, path.len() as int, keywords);
}

proof fn lemma_separators_agree(
    path: Seq<char>,
    from: int,
    left: PathSeparators,
    right: PathSeparators,
)
    requires
        agree_on(left, right, path),
        0 <= from,
    ensures
        separators_from(path, from, left) == separators_from(path, from, right),
    decreases path.len() - from,
{
    if from < path.len() {
        assert(path.contains(path[from]));
        lemma_separators_agree(path, from + 1, left, right);
    }
}

proof fn lemma_position_sum_agrees(
    path: Seq<char>,
    keywords: Seq<Seq<char>>,
    hits: Seq<int>,
    count: nat,
    left: PathSeparators,
    right: PathSeparators,
)
    requires
        agree_on(left, right, path),
        count <= hits.len(),
        forall|k: int| 0 <= k < hits.len() ==> 0 <= #[trigger] hits[k],
    ensures
        position_sum(path, keywords, hits, count, left) == position_sum(
            path,
            keywords,
            hits,
            count,
            right,
        ),
    decreases count,
{
    if count > 0 {
        lemma_position_sum_agrees(path, keywords, hits, (count - 1) as nat, left, right);
        lemma_separators_agree(path, hits[count - 1], left, right);
    }
}

/// Each hit lies in the part of the path that was searched for it.
proof fn lemma_hits(path: Seq<char>, end: int, keywords: Seq<Seq<char>>)
    requires
        0 <= end <= path.len(),
    ensures
        find_keywords(path, end, keywords) matches Some(hits) ==> {
            &&& hits.len() == keywords.len()
            &&& forall|k: int|
                0 <= k < hits.len() ==> {
                    &&& 0 <= #[trigger] hits[k]
                    &&& hits[k] + keyword_of(keywords, k).len() <= if k == 0 {
                        end
                    } else {
                        hits[k - 1]
                    }
                    &&& hits[k] + keyword_of(keywords, k).len() <= end
                }
        },
    decreases keywords.len(),
{
    if keywords.len() > 0 {
        rfind_is_last(path.take(end), keywords.last());
        if let Some(hit) = rfind(path.take(end), keywords.last()) {
            lemma_hits(path, hit, keywords.drop_last());
            if let Some(rest) = find_keywords(path, hit, keywords.drop_last()) {
                let hits = seq![hit] + rest;
                assert forall|k: int| 0 <= k < hits.len() implies {
                    &&& 0 <= #[trigger] hits[k]
                    &&& hits[k] + keyword_of(keywords, k).len() <= if k == 0 {
                        end
                    } else {
                        hits[k - 1]
                    }
                    &&& hits[k] + keyword_of(keywords, k).len() <= end
                } by {
                    if k > 0 {
                        assert(hits[k] == rest[k - 1]);
                        assert(keyword_of(keywords, k) == keyword_of(keywords.drop_last(), k - 1));
                        if k > 1 {
                            assert(hits[k - 1] == rest[k - 2]);
                        }
                    }
                }
            }
        }
    }
}

/// A result as an unbounded number.
pub open spec fn number(found: Option<usize>) -> Option<nat> {
    match found {
        Some(sum) => Some(sum as nat),
        None => None,
    }
}

/// A result as a sequence.
pub open spec fn listed(found: Option<Vec<MatchQuality>>) -> Option<Seq<MatchQuality>> {
    match found {
        Some(list) => Some(list@),
        None => None,
    }
}

/// Whether a sum, if there is one, is not too great for a `usize`.
pub open spec fn fits(sum: Option<nat>) -> bool {
    sum matches Some(number) ==> number <= usize::MAX
}

/// Whether the penalty of a path in lower case fits on every platform.
pub open spec fn penalty_fits(path: Seq<char>, keywords: Seq<Seq<char>>) -> bool {
    forall|separators: PathSeparators| fits(#[trigger] path_penalty(path, keywords, separators))
}

/// Whether the position of a path in lower case fits on every platform.
pub open spec fn position_fits(path: Seq<char>, keywords: Seq<Seq<char>>) -> bool {
    forall|separators: PathSeparators| fits(#[trigger] path_position(path, keywords, separators))
}

/// Penalty and position fit where there is room for every keyword to count four
/// for each character of the path, and two more.
pub proof fn small_sums_fit(path: Seq<char>, keywords: Seq<Seq<char>>)
    requires
        keywords.len() * (4 * path.len() + 2) <= usize::MAX,
    ensures
        penalty_fits(path, keywords),
        position_fits(path, keywords),
{
    lemma_hits(path, path.len() as int, keywords);
    if let Some(hits) = find_keywords(path, path.len() as int, keywords) {
        assert forall|separators: PathSeparators| fits(
            #[trigger] path_penalty(path, keywords, separators),
        ) by {
            lemma_sum_bounds(path, keywords, hits, keywords.len(), separators);
        }
        assert forall|separators: PathSeparators| fits(
            #[trigger] path_position(path, keywords, separators),
        ) by {
            lemma_sum_bounds(path, keywords, hits, keywords.len(), separators);
        }
    }
}

proof fn lemma_sum_bounds(
    path: Seq<char>,
    keywords: Seq<Seq<char>>,
    hits: Seq<int>,
    count: nat,
    separators: PathSeparators,
)
    requires
        find_keywords(path, path.len() as int, keywords) == Some(hits),
        count <= keywords.len(),
    ensures
        penalty_sum(path, keywords, hits, count) <= count * (4 * path.len() + 2),
        position_sum(path, keywords, hits, count, separators) <= count * (4 * path.len() + 2),
    decreases count,
{
    if count > 0 {
        let k = count - 1;
        lemma_sum_bounds(path, keywords, hits, k as nat, separators);
        lemma_hits(path, path.len() as int, keywords);
        let end = hits[k] + keyword_of(keywords, k).len();
        assert(0 <= hits[k] && end <= path.len());
        if k > 0 {
            assert(0 <= hits[k - 1] && hits[k - 1] <= path.len());
        }
        lemma_penalty_bound(searched(path, hits, k), hits[k], end);
        lemma_separators_bound(path, hits[k], separators);
        assert(count * (4 * path.len() + 2) == k * (4 * path.len() + 2) + (4 * path.len() + 2))
            by (nonlinear_arith)
            requires
                count == k + 1,
        ;
    }
}

proof fn lemma_sums_grow(
    path: Seq<char>,
    keywords: Seq<Seq<char>>,
    hits: Seq<int>,
    count: nat,
    more: nat,
    separators: PathSeparators,
)
    requires
        count <= more,
    ensures
        penalty_sum(path, keywords, hits, count) <= penalty_sum(path, keywords, hits, more),
        position_sum(path, keywords, hits, count, separators) <= position_sum(
            path,
            keywords,
            hits,
            more,
            separators,
        ),
    decreases more,
{
    if count < more {
        lemma_sums_grow(path, keywords, hits, count, (more - 1) as nat, separators);
    }
}

fn separator_from(path: &Vec<char>, from: usize, separators: PathSeparators) -> (found: bool)
    requires
        from <= path@.len(),
    ensures
        found == has_separator_from(path@, from as int, separators),
{
    let mut i: usize = from;
    while i < path.len()
        invariant
            from <= i <= path@.len(),
            forall|k: int|
                from <= k < i ==> !is_component_separator(#[trigger] path@[k], separators),
        decreases path@.len() - i,
    {
        if separators.divides_at(path[i]) {
            assert(is_component_separator(path@[i as int], separators));
            return true;
        }
        i = i + 1;
    }
    false
}

/// Where the keywords stand in `path`, the last keyword first.
fn locate_keywords(
    path: &Vec<char>,
    keywords: &[String],
    separators: PathSeparators,
) -> (found: Option<Vec<usize>>)
    requires
        4 * path@.len() <= isize::MAX,
    ensures
        found is Some <==> keyword_hits(path@, keywords.deep_view(), separators) is Some,
        found matches Some(hits) ==> keyword_hits(path@, keywords.deep_view(), separators) == Some(
            hits@.map_values(|hit: usize| hit as int),
        ),
{
    let ghost words = keywords.deep_view();
    let count = keywords.len();
    let mut hits: Vec<usize> = Vec::new();
    let mut end: usize = path.len();
    let mut k: usize = 0;
    proof {
        assert(words.take(count as int) =~= words);
        let ints = hits@.map_values(|hit: usize| hit as int);
        assert forall|rest: Seq<int>| #[trigger] (ints + rest) == rest by {
            assert(ints + rest =~= rest);
        }
    }
    while k < count
        invariant
            k <= count,
            count == keywords@.len(),
            words == keywords.deep_view(),
            4 * path@.len() <= isize::MAX,
            end <= path@.len(),
            hits@.len() == k,
            k > 0 ==> hits@[0] + words.last().len() <= path@.len(),
            find_keywords(path@, path@.len() as int, words) == match find_keywords(
                path@,
                end as int,
                words.take(count - k),
            ) {
                None => None,
                Some(rest) => Some(hits@.map_values(|hit: usize| hit as int) + rest),
            },
        decreases count - k,
    {
        let keyword = chars_of(keywords[count - 1 - k].as_str());
        let prefix = slice_subrange(path.as_slice(), 0, end);
        proof {
            assert(prefix@ =~= path@.take(end as int));
            assert(words.take(count - k).last() == keyword@);
            assert(words.take(count - k).drop_last() =~= words.take(count - k - 1));
            rfind_is_last(prefix@, keyword@);
        }
        match find_last(prefix, keyword.as_slice()) {
            None => {
                return None;
            },
            Some(hit) => {
                let ghost before = hits@.map_values(|hit: usize| hit as int);
                hits.push(hit);
                proof {
                    let after = hits@.map_values(|hit: usize| hit as int);
                    assert(after =~= before.push(hit as int));
                    assert forall|rest: Seq<int>| #[trigger]
                        (before + (seq![hit as int] + rest)) == after + rest by {
                        assert(before + (seq![hit as int] + rest) =~= after + rest);
                    }
                }
                end = hit;
            },
        }
        k = k + 1;
    }
    proof {
        let ints = hits@.map_values(|hit: usize| hit as int);
        assert(find_keywords(path@, end as int, words.take(0)) == Some(Seq::<int>::empty()));
        assert(ints + Seq::<int>::empty() =~= ints);
    }
    if count > 0 {
        let last_len = char_count(keywords[count - 1].as_str());
        if separator_from(path, hits[0] + last_len, separators) {
            return None;
        }
    }
    Some(hits)
}

fn match_quality(path: &[char], start: usize, end: usize) -> (found: MatchQuality)
    requires
        start <= end <= path@.len(),
    ensures
        found == quality(path@, start as int, end as int),
{
    let starts = start == 0 || Separator::PathToken.is_at(path[start - 1]);
    let ends = end == path.len() || Separator::PathToken.is_at(path[end]);
    if starts && ends {
        MatchQuality::Exact
    } else if starts {
        MatchQuality::Prefix
    } else if ends {
        MatchQuality::Suffix
    } else {
        MatchQuality::Contains
    }
}

proof fn lemma_next_separator_bounds(text: Seq<char>, start: int)
    requires
        0 <= start <= text.len(),
    ensures
        start <= next_separator(text, start) <= text.len(),
    decreases text.len() - start,
{
    if start < text.len() && !is_path_token_separator(text[start]) {
        lemma_next_separator_bounds(text, start + 1);
    }
}

proof fn lemma_last_separator_bounds(text: Seq<char>, end: int)
    requires
        0 <= end <= text.len(),
    ensures
        last_separator(text, end) matches Some(place) ==> 0 <= place < end,
    decreases end,
{
    if end > 0 && !is_path_token_separator(text[end - 1]) {
        lemma_last_separator_bounds(text, end - 1);
    }
}

proof fn lemma_penalty_bound(text: Seq<char>, start: int, end: int)
    requires
        0 <= start <= end <= text.len(),
    ensures
        position_penalty(text, start, end) <= 4 * text.len(),
{
    lemma_next_separator_bounds(text, end);
    lemma_last_separator_bounds(text, start);
    lemma_byte_len_bounds(text.subrange(end, next_separator(text, end)));
    match last_separator(text, start) {
        None => lemma_byte_len_bounds(text.subrange(0, start)),
        Some(place) => lemma_byte_len_bounds(text.subrange(place, start)),
    }
}

fn match_position_penalty(path: &[char], start: usize, end: usize) -> (penalty: usize)
    requires
        start <= end <= path@.len(),
        4 * path@.len() <= isize::MAX,
    ensures
        penalty == position_penalty(path@, start as int, end as int),
{
    let mut before: usize = 0;
    let mut i: usize = start;
    let mut inside = true;
    assert(path@.subrange(start as int, start as int) =~= Seq::<char>::empty());
    while i > 0 && inside
        invariant
            i <= start <= path@.len(),
            4 * path@.len() <= isize::MAX,
            before <= 4 * (start - i),
            inside ==> before == byte_len(path@.subrange(i as int, start as int))
                && last_separator(path@, start as int) == last_separator(path@, i as int),
            !inside ==> before == bytes_before(path@, start as int),
        decreases i,
    {
        let c = path[i - 1];
        let width = width_of(c);
        proof {
            assert(path@.subrange(i - 1, start as int) =~= seq![c] + path@.subrange(
                i as int,
                start as int,
            ));
            lemma_byte_len_concat(seq![c], path@.subrange(i as int, start as int));
            reveal_with_fuel(byte_len, 2);
        }
        if Separator::PathToken.is_at(c) {
            before = before + width - 1;
            inside = false;
        } else {
            before = before + width;
        }
        i = i - 1;
    }
    let mut after: usize = 0;
    let mut j: usize = end;
    assert(path@.subrange(end as int, end as int) =~= Seq::<char>::empty());
    while j < path.len() && !Separator::PathToken.is_at(path[j])
        invariant
            end <= j <= path@.len(),
            4 * path@.len() <= isize::MAX,
            after <= 4 * (j - end),
            after == byte_len(path@.subrange(end as int, j as int)),
            next_separator(path@, end as int) == next_separator(path@, j as int),
        decreases path@.len() - j,
    {
        let width = width_of(path[j]);
        proof {
            assert(path@.subrange(end as int, j + 1).drop_last() =~= path@.subrange(
                end as int,
                j as int,
            ));
        }
        after = after + width;
        j = j + 1;
    }
    before + after
}

proof fn lemma_separators_bound(text: Seq<char>, from: int, separators: PathSeparators)
    requires
        0 <= from <= text.len(),
    ensures
        separators_from(text, from, separators) <= text.len() - from,
    decreases text.len() - from,
{
    if from < text.len() {
        lemma_separators_bound(text, from + 1, separators);
    }
}

fn position_rank(path: &[char], start: usize, end: usize) -> (rank: usize)
    requires
        start <= end <= path@.len(),
    ensures
        rank == quality_rank(path@, start as int, end as int),
{
    match match_quality(path, start, end) {
        MatchQuality::Exact | MatchQuality::Prefix => 0,
        MatchQuality::Suffix => 1,
        MatchQuality::Contains => 2,
    }
}

fn path_position_class(
    path: &[char],
    start: usize,
    end: usize,
    separators: PathSeparators,
) -> (class: usize)
    requires
        start <= end <= path@.len(),
        4 * path@.len() <= isize::MAX,
    ensures
        class == position_class(path@, start as int, end as int, separators),
{
    let mut count: usize = 0;
    let mut i: usize = path.len();
    while i > start
        invariant
            start <= i <= path@.len(),
            count == separators_from(path@, i as int, separators),
            count <= path@.len() - i,
            4 * path@.len() <= isize::MAX,
        decreases i,
    {
        i = i - 1;
        if separators.divides_at(path[i]) {
            count = count + 1;
        }
    }
    count * 3 + position_rank(path, start, end)
}

/// The penalty of a path, or `None` if its sum does not fit.
fn add_penalties(path: &str, keywords: &[String], separators: PathSeparators) -> (answer: Option<
    Option<usize>,
>)
    ensures
        answer is Some <==> fits(
            path_penalty(lowercase(path@), keywords.deep_view(), separators),
        ),
        answer matches Some(penalty) ==> number(penalty) == path_penalty(
            lowercase(path@),
            keywords.deep_view(),
            separators,
        ),
{
    let lowered = crate::text::to_lowercase(path);
    let chars = chars_of(lowered.as_str());
    let hits = match locate_keywords(&chars, keywords, separators) {
        None => {
            return Some(None);
        },
        Some(hits) => hits,
    };
    let ghost words = keywords.deep_view();
    let ghost places = hits@.map_values(|hit: usize| hit as int);
    proof {
        lemma_hits(chars@, chars@.len() as int, words);
    }
    let count = keywords.len();
    let mut sum: usize = 0;
    let mut k: usize = 0;
    while k < count
        invariant
            k <= count,
            count == keywords@.len() == words.len() == hits@.len(),
            words == keywords.deep_view(),
            places == hits@.map_values(|hit: usize| hit as int),
            keyword_hits(chars@, words, separators) == Some(places),
            4 * chars@.len() <= isize::MAX,
            sum == penalty_sum(chars@, words, places, k as nat),
            chars@ == lowercase(path@),
            forall|k: int|
                0 <= k < places.len() ==> {
                    &&& 0 <= #[trigger] places[k]
                    &&& places[k] + keyword_of(words, k).len() <= if k == 0 {
                        chars@.len() as int
                    } else {
                        places[k - 1]
                    }
                    &&& places[k] + keyword_of(words, k).len() <= chars@.len()
                },
        decreases count - k,
    {
        let len = char_count(keywords[count - 1 - k].as_str());
        assert(0 <= places[k as int]);
        assert(keyword_of(words, k as int).len() == len);
        let end: usize = if k == 0 {
            chars.len()
        } else {
            assert(places[k - 1] + keyword_of(words, k - 1).len() <= chars@.len());
            hits[k - 1]
        };
        let part = slice_subrange(chars.as_slice(), 0, end);
        proof {
            assert(part@ =~= searched(chars@, places, k as int));
            lemma_penalty_bound(part@, places[k as int], places[k as int] + len);
            lemma_sums_grow(
                chars@,
                words,
                places,
                (k + 1) as nat,
                count as nat,
                separators,
            );
        }
        let next: usize = match_position_penalty(part, hits[k], hits[k] + len);
        sum = match sum.checked_add(next) {
            None => {
                return None;
            },
            Some(longer) => longer,
        };
        k = k + 1;
    }
    Some(Some(sum))
}

/// The position of a path, or `None` if its sum does not fit.
fn add_positions(path: &str, keywords: &[String], separators: PathSeparators) -> (answer: Option<
    Option<usize>,
>)
    ensures
        answer is Some <==> fits(
            path_position(lowercase(path@), keywords.deep_view(), separators),
        ),
        answer matches Some(position) ==> number(position) == path_position(
            lowercase(path@),
            keywords.deep_view(),
            separators,
        ),
{
    let lowered = crate::text::to_lowercase(path);
    let chars = chars_of(lowered.as_str());
    let hits = match locate_keywords(&chars, keywords, separators) {
        None => {
            return Some(None);
        },
        Some(hits) => hits,
    };
    let ghost words = keywords.deep_view();
    let ghost places = hits@.map_values(|hit: usize| hit as int);
    proof {
        lemma_hits(chars@, chars@.len() as int, words);
    }
    let count = keywords.len();
    let mut sum: usize = 0;
    let mut k: usize = 0;
    while k < count
        invariant
            k <= count,
            count == keywords@.len() == words.len() == hits@.len(),
            words == keywords.deep_view(),
            places == hits@.map_values(|hit: usize| hit as int),
            keyword_hits(chars@, words, separators) == Some(places),
            4 * chars@.len() <= isize::MAX,
            sum == position_sum(chars@, words, places, k as nat, separators),
            chars@ == lowercase(path@),
            forall|k: int|
                0 <= k < places.len() ==> {
                    &&& 0 <= #[trigger] places[k]
                    &&& places[k] + keyword_of(words, k).len() <= chars@.len()
                },
        decreases count - k,
    {
        let len = char_count(keywords[count - 1 - k].as_str());
        assert(0 <= places[k as int]);
        assert(keyword_of(words, k as int).len() == len);
        proof {
            lemma_separators_bound(chars@, places[k as int], separators);
            lemma_sums_grow(
                chars@,
                words,
                places,
                (k + 1) as nat,
                count as nat,
                separators,
            );
        }
        let next: usize = path_position_class(
            chars.as_slice(),
            hits[k],
            hits[k] + len,
            separators,
        );
        sum = match sum.checked_add(next) {
            None => {
                return None;
            },
            Some(longer) => longer,
        };
        k = k + 1;
    }
    Some(Some(sum))
}

/// How much of their words the keywords leave out, in bytes, added up, where
/// `separators` divide components. `None` if the path does not hold the keywords
/// in order, the last in its last component.
pub fn match_penalty_with(
    path: &str,
    keywords: &[String],
    separators: PathSeparators,
) -> (penalty: Option<usize>)
    requires
        fits(path_penalty(lowercase(path@), keywords.deep_view(), separators)),
    ensures
        number(penalty) == path_penalty(lowercase(path@), keywords.deep_view(), separators),
{
    match add_penalties(path, keywords, separators) {
        Some(penalty) => penalty,
        None => None,
    }
}

/// How far from the basename the keywords stand and how they stand among the
/// words, added up, where `separators` divide components. `None` if the path does
/// not hold the keywords in order, the last in its last component.
pub fn match_path_position_with(
    path: &str,
    keywords: &[String],
    separators: PathSeparators,
) -> (position: Option<usize>)
    requires
        fits(path_position(lowercase(path@), keywords.deep_view(), separators)),
    ensures
        number(position) == path_position(lowercase(path@), keywords.deep_view(), separators),
{
    match add_positions(path, keywords, separators) {
        Some(position) => position,
        None => None,
    }
}

/// How each keyword stands among the words of the path, the last keyword first,
/// where `separators` divide components. `None` if the path does not hold the
/// keywords in order, the last in its last component.
pub fn match_qualities_with(
    path: &str,
    keywords: &[String],
    separators: PathSeparators,
) -> (qualities: Option<Vec<MatchQuality>>)
    ensures
        listed(qualities) == path_qualities(lowercase(path@), keywords.deep_view(), separators),
{
    let lowered = crate::text::to_lowercase(path);
    let chars = chars_of(lowered.as_str());
    let hits = match locate_keywords(&chars, keywords, separators) {
        None => {
            return None;
        },
        Some(hits) => hits,
    };
    let ghost words = keywords.deep_view();
    let ghost places = hits@.map_values(|hit: usize| hit as int);
    proof {
        lemma_hits(chars@, chars@.len() as int, words);
    }
    let count = keywords.len();
    let mut qualities: Vec<MatchQuality> = Vec::new();
    let mut k: usize = 0;
    while k < count
        invariant
            k <= count,
            count == keywords@.len() == words.len() == hits@.len(),
            words == keywords.deep_view(),
            places == hits@.map_values(|hit: usize| hit as int),
            qualities@.len() == k,
            forall|j: int|
                0 <= j < k ==> #[trigger] qualities@[j] == quality(
                    searched(chars@, places, j),
                    places[j],
                    places[j] + keyword_of(words, j).len(),
                ),
            forall|k: int|
                0 <= k < places.len() ==> {
                    &&& 0 <= #[trigger] places[k]
                    &&& places[k] + keyword_of(words, k).len() <= if k == 0 {
                        chars@.len() as int
                    } else {
                        places[k - 1]
                    }
                    &&& places[k] + keyword_of(words, k).len() <= chars@.len()
                },
        decreases count - k,
    {
        let len = char_count(keywords[count - 1 - k].as_str());
        assert(0 <= places[k as int]);
        assert(keyword_of(words, k as int).len() == len);
        let end: usize = if k == 0 {
            chars.len()
        } else {
            assert(places[k - 1] + keyword_of(words, k - 1).len() <= chars@.len());
            hits[k - 1]
        };
        let part = slice_subrange(chars.as_slice(), 0, end);
        assert(part@ =~= searched(chars@, places, k as int));
        qualities.push(match_quality(part, hits[k], hits[k] + len));
        k = k + 1;
    }
    proof {
        assert(path_qualities(chars@, words, separators)->0 =~= qualities@);
    }
    Some(qualities)
}

/// How much of their words the keywords leave out, in bytes, added up. `None` if
/// the path does not hold the keywords in order, the last in its last component.
/// What divides components is asked of the platform.
pub fn match_penalty(path: &str, keywords: &[String]) -> (penalty: Option<usize>)
    requires
        penalty_fits(lowercase(path@), keywords.deep_view()),
    ensures
        exists|separators: PathSeparators|
            separators.are_of_platform() && number(penalty) == #[trigger] path_penalty(
                lowercase(path@),
                keywords.deep_view(),
                separators,
            ),
        is_settled(lowercase(path@), keywords.deep_view()) ==> forall|separators: PathSeparators|
            number(penalty) == #[trigger] path_penalty(
                lowercase(path@),
                keywords.deep_view(),
                separators,
            ),
{
    let separators = PathSeparators::of_platform();
    proof {
        let (text, words) = (lowercase(path@), keywords.deep_view());
        assert forall|other: PathSeparators|
            is_settled(text, words) implies #[trigger] path_penalty(text, words, other)
            == path_penalty(text, words, separators) by {
            platform_decides_only_matching(text, words, other, separators);
        }
    }
    match_penalty_with(path, keywords, separators)
}

/// How far from the basename the keywords stand and how they stand among the
/// words, added up. `None` if the path does not hold the keywords in order, the
/// last in its last component. What divides components is asked of the platform.
pub fn match_path_position(path: &str, keywords: &[String]) -> (position: Option<usize>)
    requires
        position_fits(lowercase(path@), keywords.deep_view()),
    ensures
        exists|separators: PathSeparators|
            separators.are_of_platform() && number(position) == #[trigger] path_position(
                lowercase(path@),
                keywords.deep_view(),
                separators,
            ),
        is_undivided(lowercase(path@)) ==> forall|separators: PathSeparators|
            number(position) == #[trigger] path_position(
                lowercase(path@),
                keywords.deep_view(),
                separators,
            ),
{
    let separators = PathSeparators::of_platform();
    proof {
        let (text, words) = (lowercase(path@), keywords.deep_view());
        assert forall|other: PathSeparators| is_undivided(text) implies #[trigger] path_position(
            text,
            words,
            other,
        ) == path_position(text, words, separators) by {
            agreeing_platforms_measure_alike(text, words, other, separators);
        }
    }
    match_path_position_with(path, keywords, separators)
}

/// How each keyword stands among the words of the path, the last keyword first.
/// `None` if the path does not hold the keywords in order, the last in its last
/// component. What divides components is asked of the platform.
pub fn match_qualities(path: &str, keywords: &[String]) -> (qualities: Option<Vec<MatchQuality>>)
    ensures
        exists|separators: PathSeparators|
            separators.are_of_platform() && listed(qualities) == #[trigger] path_qualities(
                lowercase(path@),
                keywords.deep_view(),
                separators,
            ),
        is_settled(lowercase(path@), keywords.deep_view()) ==> forall|separators: PathSeparators|
            listed(qualities) == #[trigger] path_qualities(
                lowercase(path@),
                keywords.deep_view(),
                separators,
            ),
{
    let separators = PathSeparators::of_platform();
    proof {
        let (text, words) = (lowercase(path@), keywords.deep_view());
        assert forall|other: PathSeparators|
            is_settled(text, words) implies #[trigger] path_qualities(text, words, other)
            == path_qualities(text, words, separators) by {
            platform_decides_only_matching(text, words, other, separators);
        }
    }
    match_qualities_with(path, keywords, separators)
}

/// A path that holds the keywords, and the two measures of how well.
#[derive(Clone, Copy, Debug)]
pub struct ExactPathMatch<'a> {
    pub path: &'a str,
    pub score: Score,
    pub position: usize,
    pub structure: usize,
}

impl PartialEq for ExactPathMatch<'_> {
    fn eq(&self, other: &Self) -> (same: bool) {
        same_text(self.path, other.path) && self.score == other.score && self.position
            == other.position && self.structure == other.structure
    }
}

impl vstd::std_specs::cmp::PartialEqSpecImpl for ExactPathMatch<'_> {
    open spec fn obeys_eq_spec() -> bool {
        true
    }

    open spec fn eq_spec(&self, other: &Self) -> bool {
        &&& self.path@ == other.path@
        &&& self.score.equals(other.score)
        &&& self.position == other.position
        &&& self.structure == other.structure
    }
}

/// The position and the penalty of a path in lower case, if it matches.
pub open spec fn path_measures(
    path: Seq<char>,
    keywords: Seq<Seq<char>>,
    separators: PathSeparators,
) -> Option<(nat, nat)> {
    match (
        path_position(path, keywords, separators),
        path_penalty(path, keywords, separators),
    ) {
        (Some(position), Some(penalty)) => Some((position, penalty)),
        _ => None,
    }
}

/// The position and the penalty of a result.
pub open spec fn measures_found(found: Option<ExactPathMatch<'_>>) -> Option<(nat, nat)> {
    match found {
        Some(hit) => Some((hit.position as nat, hit.structure as nat)),
        None => None,
    }
}

/// The match of the keywords with a path where `separators` divide components.
/// `None` if the path does not hold the keywords in order, the last in its last
/// component.
pub fn exact_match_with<'a>(
    path: &'a str,
    keywords: &[String],
    score: Score,
    separators: PathSeparators,
) -> (found: Option<ExactPathMatch<'a>>)
    requires
        fits(path_penalty(lowercase(path@), keywords.deep_view(), separators)),
        fits(path_position(lowercase(path@), keywords.deep_view(), separators)),
    ensures
        measures_found(found) == path_measures(
            lowercase(path@),
            keywords.deep_view(),
            separators,
        ),
        found matches Some(hit) ==> hit.path@ == path@ && hit.score == score,
{
    let position = match match_path_position_with(path, keywords, separators) {
        None => {
            return None;
        },
        Some(position) => position,
    };
    let structure = match match_penalty_with(path, keywords, separators) {
        None => {
            return None;
        },
        Some(structure) => structure,
    };
    Some(ExactPathMatch { path, score, position, structure })
}

/// The match of the keywords with a path. `None` if the path does not hold the
/// keywords in order, the last in its last component. What divides components is
/// asked of the platform.
pub fn exact_match<'a>(path: &'a str, keywords: &[String], score: Score) -> (found: Option<
    ExactPathMatch<'a>,
>)
    requires
        penalty_fits(lowercase(path@), keywords.deep_view()),
        position_fits(lowercase(path@), keywords.deep_view()),
    ensures
        exists|separators: PathSeparators|
            separators.are_of_platform() && measures_found(found) == #[trigger] path_measures(
                lowercase(path@),
                keywords.deep_view(),
                separators,
            ),
        is_undivided(lowercase(path@)) ==> forall|separators: PathSeparators|
            measures_found(found) == #[trigger] path_measures(
                lowercase(path@),
                keywords.deep_view(),
                separators,
            ),
        found matches Some(hit) ==> hit.path@ == path@ && hit.score == score,
{
    let separators = PathSeparators::of_platform();
    proof {
        let (text, words) = (lowercase(path@), keywords.deep_view());
        assert forall|other: PathSeparators| is_undivided(text) implies #[trigger] path_measures(
            text,
            words,
            other,
        ) == path_measures(text, words, separators) by {
            agreeing_platforms_measure_alike(text, words, other, separators);
        }
    }
    exact_match_with(path, keywords, score, separators)
}

fn check_penalty(path: &str, keywords: &[String]) -> (answer: bool)
    ensures
        answer == penalty_fits(lowercase(path@), keywords.deep_view()),
{
    let none = PathSeparators { slash: false, backslash: false };
    let sum = add_penalties(path, keywords, none);
    proof {
        let (text, words) = (lowercase(path@), keywords.deep_view());
        assert(sum is Some <==> fits(path_penalty(text, words, none)));
        assert forall|separators: PathSeparators| sum is Some implies fits(
            #[trigger] path_penalty(text, words, separators),
        ) by {
            platform_decides_only_matching(text, words, separators, none);
        }
    }
    sum.is_some()
}

fn check_position(path: &str, keywords: &[String]) -> (answer: bool)
    ensures
        answer == position_fits(lowercase(path@), keywords.deep_view()),
{
    let ghost (text, words) = (lowercase(path@), keywords.deep_view());
    let none = PathSeparators { slash: false, backslash: false };
    let slash = PathSeparators { slash: true, backslash: false };
    let backslash = PathSeparators { slash: false, backslash: true };
    let both = PathSeparators { slash: true, backslash: true };
    let fit = add_positions(path, keywords, none).is_some() && add_positions(
        path,
        keywords,
        slash,
    ).is_some() && add_positions(path, keywords, backslash).is_some() && add_positions(
        path,
        keywords,
        both,
    ).is_some();
    proof {
        assert forall|separators: PathSeparators| fit implies fits(
            #[trigger] path_position(text, words, separators),
        ) by {
            assert(separators == none || separators == slash || separators == backslash
                || separators == both);
        }
    }
    fit
}

/// [`match_penalty`] where its sum fits, else `None`.
pub fn try_match_penalty(path: &str, keywords: &[String]) -> (answer: Option<Option<usize>>)
    ensures
        answer is Some <==> penalty_fits(lowercase(path@), keywords.deep_view()),
        answer matches Some(penalty) ==> exists|separators: PathSeparators|
            separators.are_of_platform() && number(penalty) == #[trigger] path_penalty(
                lowercase(path@),
                keywords.deep_view(),
                separators,
            ),
        answer matches Some(penalty) ==> is_settled(lowercase(path@), keywords.deep_view())
            ==> forall|separators: PathSeparators|
            number(penalty) == #[trigger] path_penalty(
                lowercase(path@),
                keywords.deep_view(),
                separators,
            ),
{
    if check_penalty(path, keywords) {
        Some(match_penalty(path, keywords))
    } else {
        None
    }
}

/// [`match_path_position`] where its sum fits, else `None`.
pub fn try_match_path_position(path: &str, keywords: &[String]) -> (answer: Option<Option<usize>>)
    ensures
        answer is Some <==> position_fits(lowercase(path@), keywords.deep_view()),
        answer matches Some(position) ==> exists|separators: PathSeparators|
            separators.are_of_platform() && number(position) == #[trigger] path_position(
                lowercase(path@),
                keywords.deep_view(),
                separators,
            ),
        answer matches Some(position) ==> is_undivided(lowercase(path@))
            ==> forall|separators: PathSeparators|
            number(position) == #[trigger] path_position(
                lowercase(path@),
                keywords.deep_view(),
                separators,
            ),
{
    if check_position(path, keywords) {
        Some(match_path_position(path, keywords))
    } else {
        None
    }
}

/// [`exact_match`] where its sums fit, else `None`.
pub fn try_exact_match<'a>(path: &'a str, keywords: &[String], score: Score) -> (answer: Option<
    Option<ExactPathMatch<'a>>,
>)
    ensures
        answer is Some <==> penalty_fits(lowercase(path@), keywords.deep_view()) && position_fits(
            lowercase(path@),
            keywords.deep_view(),
        ),
        answer matches Some(found) ==> exists|separators: PathSeparators|
            separators.are_of_platform() && measures_found(found) == #[trigger] path_measures(
                lowercase(path@),
                keywords.deep_view(),
                separators,
            ),
        answer matches Some(found) ==> is_undivided(lowercase(path@))
            ==> forall|separators: PathSeparators|
            measures_found(found) == #[trigger] path_measures(
                lowercase(path@),
                keywords.deep_view(),
                separators,
            ),
        answer matches Some(Some(hit)) ==> hit.path@ == path@ && hit.score == score,
{
    if check_penalty(path, keywords) && check_position(path, keywords) {
        Some(exact_match(path, keywords, score))
    } else {
        None
    }
}

impl ExactPathMatch<'_> {
    /// The order: the higher score, position, structure, the path.
    pub open spec fn precedes(self, other: ExactPathMatch<'_>) -> bool {
        if self.score != other.score {
            self.score.rank() > other.score.rank()
        } else if self.position != other.position {
            self.position < other.position
        } else if self.structure != other.structure {
            self.structure < other.structure
        } else {
            text_before(self.path@, other.path@)
        }
    }

    fn comes_before(&self, other: &ExactPathMatch<'_>) -> (before: bool)
        ensures
            before == self.precedes(*other),
    {
        if self.score.bits != other.score.bits {
            self.score.exceeds(&other.score)
        } else if self.position != other.position {
            self.position < other.position
        } else if self.structure != other.structure {
            self.structure < other.structure
        } else {
            comes_before(self.path, other.path)
        }
    }
}

/// The order of exact matches.
pub fn compare_exact_path_matches(left: ExactPathMatch<'_>, right: ExactPathMatch<'_>) -> (ordering:
    Ordering)
    ensures
        is_ordering(ordering, left.precedes(right), right.precedes(left)),
{
    ordering_of(left.comes_before(&right), right.comes_before(&left))
}

/// Of two exact matches just one comes first, unless they are of the same path,
/// score, position and structure.
pub proof fn exact_order_is_total(left: ExactPathMatch<'_>, right: ExactPathMatch<'_>)
    ensures
        !(left.precedes(right) && right.precedes(left)),
        !left.precedes(right) && !right.precedes(left) <==> left.path@ == right.path@ && left.score
            == right.score && left.position == right.position && left.structure
            == right.structure,
{
    text_order_is_total(left.path@, right.path@);
    if left.score.rank() == right.score.rank() {
        score_rank_is_injective(left.score, right.score);
    }
}

/// The order of exact matches carries over from one to the next.
pub proof fn exact_order_is_transitive(
    left: ExactPathMatch<'_>,
    middle: ExactPathMatch<'_>,
    right: ExactPathMatch<'_>,
)
    requires
        left.precedes(middle),
        middle.precedes(right),
    ensures
        left.precedes(right),
{
    if text_before(left.path@, middle.path@) && text_before(middle.path@, right.path@) {
        text_order_is_transitive(left.path@, middle.path@, right.path@);
    }
}

/// A higher score outranks every difference in position and structure.
pub proof fn score_outranks_measures(left: ExactPathMatch<'_>, right: ExactPathMatch<'_>)
    requires
        left.score.rank() > right.score.rank(),
    ensures
        left.precedes(right),
{
}

/// Exact matches are ordered by the higher score, the lower position, the lower
/// structure, and then by their paths.
pub proof fn exact_order_is_by_first_difference(
    left: ExactPathMatch<'_>,
    right: ExactPathMatch<'_>,
)
    ensures
        left.precedes(right) <==> is_lower(
            seq![-left.score.rank(), left.position as int, left.structure as int],
            seq![-right.score.rank(), right.position as int, right.structure as int],
        ) || left.score == right.score && left.position == right.position && left.structure
            == right.structure && text_before(left.path@, right.path@),
{
    lemma_is_lower(
        seq![-left.score.rank(), left.position as int, left.structure as int],
        seq![-right.score.rank(), right.position as int, right.structure as int],
    );
    reveal_with_fuel(is_lower_from, 5);
    if left.score.rank() == right.score.rank() {
        score_rank_is_injective(left.score, right.score);
    }
}

} // verus!
