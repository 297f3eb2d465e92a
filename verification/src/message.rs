//! Matching of a query with messages by the words they share.

use std::cmp::Ordering;

use vstd::hash_map::StringHashMap;
use vstd::prelude::*;

use crate::order::{is_lower, is_lower_from, lemma_is_lower};
use crate::ranking::{is_ordering, ordering_of};
use crate::score::score_rank_is_injective;
use crate::sort::{is_stable_sorting, sort_ranked, Ranked};
use crate::text::{
    comes_before, find_last, occurs_at, rfind, rfind_is_last, same_text, search_tokens,
    split_search_tokens, text_before, text_order_is_total, text_order_is_transitive, tokens,
    Separator,
};
use crate::unicode::{chars_of, lowercase};

pub use crate::score::Score;

verus! {

/// A message and the caller's score.
#[derive(Clone, Copy, Debug)]
pub struct MessageCandidate<'a> {
    pub key: &'a str,
    pub text: &'a str,
    pub score: Score,
}

/// A message that matches a query, and how well.
#[derive(Clone, Copy, Debug)]
pub struct MessageMatch<'a> {
    pub key: &'a str,
    pub text: &'a str,
    pub score: Score,
    pub phrase_occurrences: usize,
    pub matched_terms: usize,
    pub total_occurrences: usize,
}

/// How often `term` is among the first `n` words.
pub open spec fn occurrences(words: Seq<Seq<char>>, term: Seq<char>, n: nat) -> nat
    decreases n,
{
    if n == 0 {
        0
    } else {
        let before = occurrences(words, term, (n - 1) as nat);
        if words[n - 1] == term {
            before + 1
        } else {
            before
        }
    }
}

/// How many of the first `n` terms are among the words.
pub open spec fn terms_matched(terms: Seq<Seq<char>>, words: Seq<Seq<char>>, n: nat) -> nat
    decreases n,
{
    if n == 0 {
        0
    } else {
        let before = terms_matched(terms, words, (n - 1) as nat);
        if words.contains(terms[n - 1]) {
            before + 1
        } else {
            before
        }
    }
}

/// How often the first `n` terms are among the words, added up.
pub open spec fn total_matched(terms: Seq<Seq<char>>, words: Seq<Seq<char>>, n: nat) -> nat
    decreases n,
{
    if n == 0 {
        0
    } else {
        total_matched(terms, words, (n - 1) as nat) + occurrences(words, terms[n - 1], words.len())
    }
}

/// Whether the words from `start` on are the terms, one after the other. No terms
/// at all are no phrase.
pub open spec fn is_phrase_at(terms: Seq<Seq<char>>, words: Seq<Seq<char>>, start: int) -> bool {
    &&& terms.len() > 0
    &&& 0 <= start
    &&& start + terms.len() <= words.len()
    &&& forall|k: int| 0 <= k < terms.len() ==> #[trigger] terms[k] == words[start + k]
}

/// At how many of the first `n` words the terms stand one after the other.
pub open spec fn phrases(terms: Seq<Seq<char>>, words: Seq<Seq<char>>, n: nat) -> nat
    decreases n,
{
    if n == 0 {
        0
    } else {
        let before = phrases(terms, words, (n - 1) as nat);
        if is_phrase_at(terms, words, n - 1) {
            before + 1
        } else {
            before
        }
    }
}

/// How well a message matches.
pub struct MessageRank {
    pub phrase_occurrences: nat,
    pub matched_terms: nat,
    pub total_occurrences: nat,
}

/// How well a message of these words matches the terms, if it has any of them.
pub open spec fn message_rank(terms: Seq<Seq<char>>, words: Seq<Seq<char>>) -> Option<
    MessageRank,
> {
    let matched_terms = terms_matched(terms, words, terms.len());
    if matched_terms == 0 {
        None
    } else {
        Some(
            MessageRank {
                phrase_occurrences: phrases(terms, words, words.len()),
                matched_terms,
                total_occurrences: total_matched(terms, words, terms.len()),
            },
        )
    }
}

/// The words without those that came before.
pub open spec fn first_occurrences(words: Seq<Seq<char>>) -> Seq<Seq<char>>
    decreases words.len(),
{
    if words.len() == 0 {
        seq![]
    } else {
        let before = first_occurrences(words.drop_last());
        if before.contains(words.last()) {
            before
        } else {
            before.push(words.last())
        }
    }
}

/// The words of a message, in lower case.
pub open spec fn message_words(text: Seq<char>) -> Seq<Seq<char>> {
    search_tokens(lowercase(text))
}

/// What a query asks for: its words in lower case, each once.
pub open spec fn query_terms(query: Seq<char>) -> Seq<Seq<char>> {
    first_occurrences(message_words(query))
}

/// The terms of a query are its words, each once.
pub proof fn terms_are_distinct_words(query: Seq<char>)
    ensures
        query_terms(query).no_duplicates(),
        query_terms(query).to_set() == message_words(query).to_set(),
        query_terms(query).len() == 0 <==> message_words(query).len() == 0,
{
    lemma_first_occurrences(message_words(query));
}

proof fn lemma_first_occurrences(words: Seq<Seq<char>>)
    ensures
        first_occurrences(words).no_duplicates(),
        first_occurrences(words).to_set() == words.to_set(),
        first_occurrences(words).len() == 0 <==> words.len() == 0,
    decreases words.len(),
{
    let found = first_occurrences(words);
    if words.len() > 0 {
        let before = first_occurrences(words.drop_last());
        lemma_first_occurrences(words.drop_last());
        assert forall|word: Seq<char>| #[trigger] words.contains(word) implies found.contains(
            word,
        ) by {
            let i = choose|i: int| 0 <= i < words.len() && words[i] == word;
            if i < words.len() - 1 {
                assert(words.drop_last()[i] == word);
                assert(words.drop_last().to_set().contains(word));
                assert(before.contains(word));
                let k = choose|k: int| 0 <= k < before.len() && before[k] == word;
                assert(found[k] == word);
            } else if !before.contains(words.last()) {
                assert(found[found.len() - 1] == word);
            }
        }
        assert forall|word: Seq<char>| #[trigger] found.contains(word) implies words.contains(
            word,
        ) by {
            if before.contains(word) {
                assert(before.to_set().contains(word));
                assert(words.drop_last().contains(word));
                let i = choose|i: int|
                    0 <= i < words.drop_last().len() && words.drop_last()[i] == word;
                assert(words[i] == word);
            } else {
                let k = choose|k: int| 0 <= k < found.len() && found[k] == word;
                if k < before.len() {
                    assert(before[k] == word);
                }
                assert(words[words.len() - 1] == word);
            }
        }
        assert(found.len() > 0) by {
            if before.len() == 0 {
                assert(!before.contains(words.last()));
            }
        }
    }
    assert(found.to_set() =~= words.to_set());
}

proof fn lemma_occurrences(words: Seq<Seq<char>>, term: Seq<char>, n: nat)
    requires
        n <= words.len(),
    ensures
        occurrences(words, term, n) <= n,
        occurrences(words, term, n) > 0 <==> words.take(n as int).contains(term),
    decreases n,
{
    if n > 0 {
        lemma_occurrences(words, term, (n - 1) as nat);
        let now = words.take(n as int);
        let before = words.take(n - 1);
        assert(now[n - 1] == words[n - 1]);
        if before.contains(term) {
            let k = choose|k: int| 0 <= k < before.len() && before[k] == term;
            assert(now[k] == term);
        }
        if now.contains(term) && !before.contains(term) {
            let k = choose|k: int| 0 <= k < now.len() && now[k] == term;
            if k < n - 1 {
                assert(before[k] == term);
            }
        }
    }
}

/// How many of the first `k` terms are the word.
spec fn terms_equal(terms: Seq<Seq<char>>, word: Seq<char>, k: nat) -> nat
    decreases k,
{
    if k == 0 {
        0
    } else {
        let before = terms_equal(terms, word, (k - 1) as nat);
        if terms[k - 1] == word {
            before + 1
        } else {
            before
        }
    }
}

proof fn lemma_terms_equal(terms: Seq<Seq<char>>, word: Seq<char>, k: nat)
    requires
        terms.no_duplicates(),
        k <= terms.len(),
    ensures
        terms_equal(terms, word, k) <= 1,
        (forall|i: int| 0 <= i < k ==> #[trigger] terms[i] != word) ==> terms_equal(terms, word, k)
            == 0,
    decreases k,
{
    if k > 0 {
        lemma_terms_equal(terms, word, (k - 1) as nat);
    }
}

/// [`total_matched`] in the first `n` words only.
spec fn total_in(terms: Seq<Seq<char>>, words: Seq<Seq<char>>, k: nat, n: nat) -> nat
    decreases k,
{
    if k == 0 {
        0
    } else {
        total_in(terms, words, (k - 1) as nat, n) + occurrences(words, terms[k - 1], n)
    }
}

proof fn lemma_total_step(terms: Seq<Seq<char>>, words: Seq<Seq<char>>, k: nat, n: nat)
    requires
        n > 0,
    ensures
        total_in(terms, words, k, n) == total_in(terms, words, k, (n - 1) as nat) + terms_equal(
            terms,
            words[n - 1],
            k,
        ),
    decreases k,
{
    if k > 0 {
        lemma_total_step(terms, words, (k - 1) as nat, n);
    }
}

proof fn lemma_total_in_bound(terms: Seq<Seq<char>>, words: Seq<Seq<char>>, k: nat, n: nat)
    requires
        terms.no_duplicates(),
        k <= terms.len(),
    ensures
        total_in(terms, words, k, n) <= n,
    decreases n,
{
    if n > 0 {
        lemma_total_in_bound(terms, words, k, (n - 1) as nat);
        lemma_total_step(terms, words, k, n);
        lemma_terms_equal(terms, words[n - 1], k);
    } else {
        lemma_nothing_in_none(terms, words, k);
    }
}

proof fn lemma_nothing_in_none(terms: Seq<Seq<char>>, words: Seq<Seq<char>>, k: nat)
    ensures
        total_in(terms, words, k, 0) == 0,
    decreases k,
{
    if k > 0 {
        lemma_nothing_in_none(terms, words, (k - 1) as nat);
    }
}

proof fn lemma_total_is_total_in(terms: Seq<Seq<char>>, words: Seq<Seq<char>>, k: nat)
    ensures
        total_matched(terms, words, k) == total_in(terms, words, k, words.len()),
    decreases k,
{
    if k > 0 {
        lemma_total_is_total_in(terms, words, (k - 1) as nat);
    }
}

/// Distinct terms are found no more often than there are words.
proof fn lemma_total_bound(terms: Seq<Seq<char>>, words: Seq<Seq<char>>, k: nat)
    requires
        terms.no_duplicates(),
        k <= terms.len(),
    ensures
        total_matched(terms, words, k) <= words.len(),
{
    lemma_total_is_total_in(terms, words, k);
    lemma_total_in_bound(terms, words, k, words.len());
}

/// A message made ready for many queries.
pub struct PreparedMessageCandidate<'a> {
    pub key: &'a str,
    pub text: &'a str,
    pub score: Score,
    lowered: String,
    tokens: Vec<String>,
    term_counts: StringHashMap<usize>,
}

/// A [`PreparedMessageCandidate`] as texts.
pub struct PreparedMessage {
    pub key: Seq<char>,
    pub text: Seq<char>,
    pub score: Score,
    pub lowered: Seq<char>,
    pub words: Seq<Seq<char>>,
}

impl View for PreparedMessageCandidate<'_> {
    type V = PreparedMessage;

    closed spec fn view(&self) -> PreparedMessage {
        PreparedMessage {
            key: self.key@,
            text: self.text@,
            score: self.score,
            lowered: self.lowered@,
            words: self.tokens.deep_view(),
        }
    }
}

/// Whether `counts` says how often each word is there.
spec fn counts_words(counts: Map<Seq<char>, usize>, words: Seq<Seq<char>>, n: nat) -> bool {
    forall|term: Seq<char>|
        {
            &&& #[trigger] counts.contains_key(term) <==> occurrences(words, term, n) > 0
            &&& counts.contains_key(term) ==> counts[term] == occurrences(words, term, n)
        }
}

fn count_terms(tokens: &Vec<String>) -> (counts: StringHashMap<usize>)
    ensures
        counts_words(counts@, tokens.deep_view(), tokens@.len()),
{
    let mut counts: StringHashMap<usize> = StringHashMap::new();
    let ghost words = tokens.deep_view();
    let mut i: usize = 0;
    while i < tokens.len()
        invariant
            i <= tokens@.len(),
            words == tokens.deep_view(),
            counts_words(counts@, words, i as nat),
        decreases tokens@.len() - i,
    {
        let token = tokens[i].as_str();
        let seen: usize = match counts.get(token) {
            Some(count) => *count,
            None => 0,
        };
        proof {
            assert(words[i as int] == token@);
            assert(seen == occurrences(words, token@, i as nat)) by {
                assert(counts@.contains_key(token@) <==> occurrences(words, token@, i as nat) > 0);
            }
            lemma_occurrences(words, token@, i as nat);
        }
        let ghost before = counts@;
        counts.insert(token.to_owned(), seen + 1);
        proof {
            assert forall|term: Seq<char>|
                {
                    &&& #[trigger] counts@.contains_key(term) <==> occurrences(
                        words,
                        term,
                        (i + 1) as nat,
                    ) > 0
                    &&& counts@.contains_key(term) ==> counts@[term] == occurrences(
                        words,
                        term,
                        (i + 1) as nat,
                    )
                } by {
                assert(before.contains_key(term) <==> occurrences(words, term, i as nat) > 0);
            }
        }
        i = i + 1;
    }
    counts
}

impl<'a> MessageCandidate<'a> {
    /// The message in lower case, its words, and how often each is there.
    pub fn prepare(self) -> (prepared: PreparedMessageCandidate<'a>)
        ensures
            prepared.is_prepared(),
            prepared@ == (PreparedMessage {
                key: self.key@,
                text: self.text@,
                score: self.score,
                lowered: lowercase(self.text@),
                words: message_words(self.text@),
            }),
    {
        let lowered = crate::text::to_lowercase(self.text);
        let found = split_search_tokens(lowered.as_str());
        let mut tokens: Vec<String> = Vec::new();
        let mut i: usize = 0;
        while i < found.len()
            invariant
                i <= found@.len(),
                tokens@.len() == i,
                forall|k: int| 0 <= k < i ==> (#[trigger] tokens@[k])@ == found@[k]@,
            decreases found@.len() - i,
        {
            tokens.push(found[i].to_owned());
            i = i + 1;
        }
        assert(tokens.deep_view() =~= found.deep_view());
        let term_counts = count_terms(&tokens);
        PreparedMessageCandidate {
            key: self.key,
            text: self.text,
            score: self.score,
            lowered,
            tokens,
            term_counts,
        }
    }
}

impl PreparedMessageCandidate<'_> {
    /// Whether the counts are those of the words.
    pub closed spec fn is_prepared(&self) -> bool {
        counts_words(self.term_counts@, self.tokens.deep_view(), self.tokens@.len())
    }
}

impl Clone for PreparedMessageCandidate<'_> {
    fn clone(&self) -> (copy: Self)
        ensures
            copy@ == self@,
            copy.is_prepared(),
    {
        let tokens = clone_texts(&self.tokens);
        let term_counts = count_terms(&tokens);
        PreparedMessageCandidate {
            key: self.key,
            text: self.text,
            score: self.score,
            lowered: self.lowered.clone(),
            tokens,
            term_counts,
        }
    }
}

/// A query: the terms to look for.
#[derive(Debug, PartialEq, Eq)]
pub struct MessageQuery {
    tokens: Vec<String>,
}

impl View for MessageQuery {
    type V = Seq<Seq<char>>;

    closed spec fn view(&self) -> Seq<Seq<char>> {
        self.tokens.deep_view()
    }
}

impl Clone for MessageQuery {
    fn clone(&self) -> (copy: Self)
        ensures
            copy@ == self@,
    {
        proof {
            use_type_invariant(self);
        }
        let tokens = clone_texts(&self.tokens);
        MessageQuery { tokens }
    }
}

fn clone_texts(texts: &Vec<String>) -> (copies: Vec<String>)
    ensures
        copies.deep_view() == texts.deep_view(),
{
    let mut copies: Vec<String> = Vec::new();
    let mut i: usize = 0;
    while i < texts.len()
        invariant
            i <= texts@.len(),
            copies@.len() == i,
            forall|k: int| 0 <= k < i ==> (#[trigger] copies@[k])@ == texts@[k]@,
        decreases texts@.len() - i,
    {
        copies.push(texts[i].clone());
        i = i + 1;
    }
    assert(copies.deep_view() =~= texts.deep_view());
    copies
}

/// A result in unbounded numbers.
pub open spec fn rank_found(found: Option<MessageMatch<'_>>) -> Option<MessageRank> {
    match found {
        Some(hit) => Some(
            MessageRank {
                phrase_occurrences: hit.phrase_occurrences as nat,
                matched_terms: hit.matched_terms as nat,
                total_occurrences: hit.total_occurrences as nat,
            },
        ),
        None => None,
    }
}

impl MessageQuery {
    #[verifier::type_invariant]
    spec fn has_distinct_terms(self) -> bool {
        &&& self.tokens.deep_view().no_duplicates()
        &&& self.tokens@.len() > 0
    }

    /// The words of the query in lower case, each once, if there are any.
    pub fn new(query: &str) -> (prepared: Option<Self>)
        ensures
            prepared is Some <==> query_terms(query@).len() > 0,
            prepared matches Some(message_query) ==> message_query@ == query_terms(query@),
    {
        let lowered = crate::text::to_lowercase(query);
        let found = split_search_tokens(lowered.as_str());
        let ghost words = found.deep_view();
        let mut tokens: Vec<String> = Vec::new();
        let mut i: usize = 0;
        assert(tokens.deep_view() =~= first_occurrences(words.take(0)));
        while i < found.len()
            invariant
                i <= found@.len(),
                words == found.deep_view(),
                tokens.deep_view() == first_occurrences(words.take(i as int)),
            decreases found@.len() - i,
        {
            let token = found[i];
            proof {
                assert(words.take(i + 1).drop_last() =~= words.take(i as int));
                assert(words.take(i + 1).last() == token@);
            }
            let ghost before = tokens.deep_view();
            if !has_token(&tokens, token) {
                tokens.push(token.to_owned());
                assert(tokens.deep_view() =~= before.push(token@));
            }
            i = i + 1;
        }
        proof {
            assert(words.take(words.len() as int) =~= words);
            lemma_first_occurrences(words);
        }
        if tokens.len() == 0 {
            None
        } else {
            Some(MessageQuery { tokens })
        }
    }

    /// How well the message matches the query. `None` if it has none of the
    /// query's words.
    pub fn search_rank<'a>(&self, candidate: MessageCandidate<'a>) -> (found: Option<
        MessageMatch<'a>,
    >)
        ensures
            rank_found(found) == message_rank(self@, message_words(candidate.text@)),
            found matches Some(hit) ==> hit.key@ == candidate.key@ && hit.text@ == candidate.text@
                && hit.score == candidate.score,
    {
        let prepared = candidate.prepare();
        self.rank_from_parts(
            candidate.key,
            candidate.text,
            candidate.score,
            &prepared.tokens,
            &prepared.term_counts,
        )
    }

    /// How well the prepared message matches the query. `None` if it has none of
    /// the query's words.
    pub fn search_rank_prepared<'a>(&self, candidate: &'a PreparedMessageCandidate<'a>) -> (found:
        Option<MessageMatch<'a>>)
        requires
            candidate.is_prepared(),
        ensures
            rank_found(found) == message_rank(self@, candidate@.words),
            found matches Some(hit) ==> hit.key@ == candidate@.key && hit.text@ == candidate@.text
                && hit.score == candidate@.score,
    {
        self.rank_from_parts(
            candidate.key,
            candidate.text,
            candidate.score,
            &candidate.tokens,
            &candidate.term_counts,
        )
    }

    fn rank_from_parts<'a>(
        &self,
        key: &'a str,
        text: &'a str,
        score: Score,
        candidate_tokens: &Vec<String>,
        term_counts: &StringHashMap<usize>,
    ) -> (found: Option<MessageMatch<'a>>)
        requires
            counts_words(
                term_counts@,
                candidate_tokens.deep_view(),
                candidate_tokens@.len(),
            ),
        ensures
            rank_found(found) == message_rank(self@, candidate_tokens.deep_view()),
            found matches Some(hit) ==> hit.key@ == key@ && hit.text@ == text@ && hit.score
                == score,
    {
        let ghost terms = self@;
        let ghost words = candidate_tokens.deep_view();
        let word_count = candidate_tokens.len();
        proof {
            use_type_invariant(self);
        }
        let mut matched_terms: usize = 0;
        let mut total_occurrences: usize = 0;
        let mut i: usize = 0;
        while i < self.tokens.len()
            invariant
                i <= self.tokens@.len(),
                terms == self@,
                terms.no_duplicates(),
                words == candidate_tokens.deep_view(),
                word_count == words.len(),
                counts_words(term_counts@, words, words.len()),
                matched_terms == terms_matched(terms, words, i as nat),
                matched_terms <= i,
                total_occurrences == total_matched(terms, words, i as nat),
            decreases self.tokens@.len() - i,
        {
            let term = self.tokens[i].as_str();
            proof {
                assert(terms[i as int] == term@);
                assert(term_counts@.contains_key(term@) <==> occurrences(
                    words,
                    term@,
                    words.len(),
                ) > 0);
                lemma_occurrences(words, term@, words.len());
                assert(words.take(words.len() as int) =~= words);
                lemma_total_bound(terms, words, (i + 1) as nat);
            }
            if let Some(count) = term_counts.get(term) {
                matched_terms = matched_terms + 1;
                total_occurrences = total_occurrences + *count;
            }
            i = i + 1;
        }
        if matched_terms == 0 {
            return None;
        }
        let phrase_occurrences = count_phrase_occurrences(&self.tokens, candidate_tokens);
        Some(
            MessageMatch {
                key,
                text,
                score,
                phrase_occurrences,
                matched_terms,
                total_occurrences,
            },
        )
    }
}

fn has_token(tokens: &Vec<String>, wanted: &str) -> (found: bool)
    ensures
        found == tokens.deep_view().contains(wanted@),
{
    let mut i: usize = 0;
    while i < tokens.len()
        invariant
            i <= tokens@.len(),
            forall|k: int| 0 <= k < i ==> #[trigger] tokens.deep_view()[k] != wanted@,
        decreases tokens@.len() - i,
    {
        if same_text(tokens[i].as_str(), wanted) {
            assert(tokens.deep_view()[i as int] == wanted@);
            return true;
        }
        assert(tokens.deep_view()[i as int] == tokens@[i as int]@);
        i = i + 1;
    }
    false
}

fn stands_as_phrase(query_tokens: &Vec<String>, candidate_tokens: &Vec<String>, start: usize) -> (
found: bool)
    requires
        start + query_tokens@.len() <= candidate_tokens@.len(),
    ensures
        found == is_phrase_at(
            query_tokens.deep_view(),
            candidate_tokens.deep_view(),
            start as int,
        ),
{
    let ghost terms = query_tokens.deep_view();
    let ghost words = candidate_tokens.deep_view();
    let word_count = candidate_tokens.len();
    let mut k: usize = 0;
    while k < query_tokens.len()
        invariant
            k <= query_tokens@.len(),
            start + query_tokens@.len() <= candidate_tokens@.len() == word_count,
            terms == query_tokens.deep_view(),
            words == candidate_tokens.deep_view(),
            forall|l: int| 0 <= l < k ==> #[trigger] terms[l] == words[start + l],
        decreases query_tokens@.len() - k,
    {
        assert(terms[k as int] == query_tokens@[k as int]@);
        assert(words[start + k] == candidate_tokens@[start + k]@);
        if !same_text(query_tokens[k].as_str(), candidate_tokens[start + k].as_str()) {
            return false;
        }
        k = k + 1;
    }
    query_tokens.len() > 0
}

/// At how many of the candidate's words the query's words stand one after the
/// other, which is at none if the query has no words.
fn count_phrase_occurrences(query_tokens: &Vec<String>, candidate_tokens: &Vec<String>) -> (count:
    usize)
    ensures
        query_tokens@.len() == 0 ==> count == 0,
        count == phrases(
            query_tokens.deep_view(),
            candidate_tokens.deep_view(),
            candidate_tokens@.len(),
        ),
{
    let ghost terms = query_tokens.deep_view();
    let ghost words = candidate_tokens.deep_view();
    let mut count: usize = 0;
    let mut start: usize = 0;
    while start < candidate_tokens.len()
        invariant
            start <= candidate_tokens@.len(),
            terms == query_tokens.deep_view(),
            words == candidate_tokens.deep_view(),
            count == phrases(terms, words, start as nat),
            count <= start,
            terms.len() == 0 ==> count == 0,
        decreases candidate_tokens@.len() - start,
    {
        if query_tokens.len() <= candidate_tokens.len() - start && stands_as_phrase(
            query_tokens,
            candidate_tokens,
            start,
        ) {
            count = count + 1;
        }
        start = start + 1;
    }
    count
}

/// Whether the message has one of the terms as a word, or the first term
/// anywhere in its text.
pub open spec fn signals_message(terms: Seq<Seq<char>>, message: PreparedMessage) -> bool {
    ||| exists|i: int| 0 <= i < terms.len() && message.words.contains(#[trigger] terms[i])
    ||| rfind(message.lowered, terms[0]) is Some
}

/// Whether the message is worth a closer look: whether it has one of the query's
/// words, or the first of them anywhere in its text.
pub fn contains_query_signal(query: &MessageQuery, candidate: &PreparedMessageCandidate<'_>) -> (
found: bool)
    requires
        candidate.is_prepared(),
    ensures
        found == signals_message(query@, candidate@),
{
    let ghost terms = query@;
    let ghost words = candidate@.words;
    proof {
        use_type_invariant(query);
    }
    let mut i: usize = 0;
    while i < query.tokens.len()
        invariant
            i <= query.tokens@.len(),
            terms == query@,
            words == candidate.tokens.deep_view(),
            candidate.is_prepared(),
            forall|k: int| 0 <= k < i ==> !words.contains(#[trigger] terms[k]),
        decreases query.tokens@.len() - i,
    {
        let term = query.tokens[i].as_str();
        proof {
            assert(terms[i as int] == term@);
            assert(candidate.term_counts@.contains_key(term@) <==> occurrences(
                words,
                term@,
                words.len(),
            ) > 0);
            lemma_occurrences(words, term@, words.len());
            assert(words.take(words.len() as int) =~= words);
        }
        if candidate.term_counts.contains_key(term) {
            return true;
        }
        i = i + 1;
    }
    let lowered = chars_of(candidate.lowered.as_str());
    let first = chars_of(query.tokens[0].as_str());
    assert(terms[0] == first@);
    find_last(lowered.as_slice(), first.as_slice()).is_some()
}

impl MessageMatch<'_> {
    /// The order: a phrase before none, more terms, more phrases, more
    /// occurrences, the higher score, the key.
    pub open spec fn precedes(self, other: MessageMatch<'_>) -> bool {
        if (self.phrase_occurrences > 0) != (other.phrase_occurrences > 0) {
            self.phrase_occurrences > 0
        } else if self.matched_terms != other.matched_terms {
            self.matched_terms > other.matched_terms
        } else if self.phrase_occurrences != other.phrase_occurrences {
            self.phrase_occurrences > other.phrase_occurrences
        } else if self.total_occurrences != other.total_occurrences {
            self.total_occurrences > other.total_occurrences
        } else if self.score != other.score {
            self.score.rank() > other.score.rank()
        } else {
            text_before(self.key@, other.key@)
        }
    }

    fn goes_first(&self, other: &MessageMatch<'_>) -> (before: bool)
        ensures
            before == self.precedes(*other),
    {
        if (self.phrase_occurrences > 0) != (other.phrase_occurrences > 0) {
            self.phrase_occurrences > 0
        } else if self.matched_terms != other.matched_terms {
            self.matched_terms > other.matched_terms
        } else if self.phrase_occurrences != other.phrase_occurrences {
            self.phrase_occurrences > other.phrase_occurrences
        } else if self.total_occurrences != other.total_occurrences {
            self.total_occurrences > other.total_occurrences
        } else if self.score.bits != other.score.bits {
            self.score.exceeds(&other.score)
        } else {
            comes_before(self.key, other.key)
        }
    }
}

/// The order of matches, the better first.
fn compare_matches(left: MessageMatch<'_>, right: MessageMatch<'_>) -> (ordering: Ordering)
    ensures
        is_ordering(ordering, left.precedes(right), right.precedes(left)),
{
    ordering_of(left.goes_first(&right), right.goes_first(&left))
}

/// Of two matches just one comes first, unless they agree in all that the order
/// looks at.
pub proof fn message_order_is_total(left: MessageMatch<'_>, right: MessageMatch<'_>)
    ensures
        !(left.precedes(right) && right.precedes(left)),
        !left.precedes(right) && !right.precedes(left) <==> left.phrase_occurrences
            == right.phrase_occurrences && left.matched_terms == right.matched_terms
            && left.total_occurrences == right.total_occurrences && left.score == right.score
            && left.key@ == right.key@,
{
    text_order_is_total(left.key@, right.key@);
    if left.score.rank() == right.score.rank() {
        score_rank_is_injective(left.score, right.score);
    }
}

/// The order of matches carries over from one to the next.
pub proof fn message_order_is_transitive(
    left: MessageMatch<'_>,
    middle: MessageMatch<'_>,
    right: MessageMatch<'_>,
)
    requires
        left.precedes(middle),
        middle.precedes(right),
    ensures
        left.precedes(right),
{
    if text_before(left.key@, middle.key@) && text_before(middle.key@, right.key@) {
        text_order_is_transitive(left.key@, middle.key@, right.key@);
    }
}

impl Ranked for MessageMatch<'_> {
    open spec fn ranks_before(self, other: Self) -> bool {
        self.precedes(other)
    }

    proof fn ranking_is_weak_order() {
        let before = |left: Self, right: Self| left.ranks_before(right);
        assert forall|a: Self| !#[trigger] before(a, a) by {
            message_order_is_total(a, a);
        }
        assert forall|a: Self, b: Self, c: Self| #[trigger]
            before(a, b) && #[trigger] before(b, c) implies before(a, c) by {
            message_order_is_transitive(a, b, c);
        }
        assert forall|a: Self, b: Self, c: Self|
            !#[trigger] before(a, b) && !#[trigger] before(b, c) implies !before(a, c) by {
            message_order_is_total(a, b);
            message_order_is_total(b, c);
            message_order_is_total(a, c);
            if before(a, c) && before(b, a) {
                message_order_is_transitive(b, a, c);
            }
        }
    }

    fn is_before(&self, other: &Self) -> (before: bool) {
        match compare_matches(*self, *other) {
            Ordering::Less => true,
            _ => false,
        }
    }
}

/// Sorts the matches, the best first. Matches that rank the same stay in the
/// order they had.
pub fn sort_matches(matches: &mut [MessageMatch<'_>])
    ensures
        exists|places: Seq<int>| is_stable_sorting(places, old(matches)@, final(matches)@),
{
    sort_ranked(matches);
}

/// A message that has the terms as a phrase has every term, and each at least as
/// often as the phrase.
pub proof fn phrase_covers_all_terms(terms: Seq<Seq<char>>, words: Seq<Seq<char>>, k: int)
    requires
        0 <= k < terms.len(),
        phrases(terms, words, words.len()) > 0,
    ensures
        terms_matched(terms, words, terms.len()) == terms.len(),
        words.contains(terms[k]),
        phrases(terms, words, words.len()) <= occurrences(words, terms[k], words.len()),
{
    let start = lemma_phrase_place(terms, words, words.len());
    assert forall|l: int| 0 <= l < terms.len() implies words.contains(#[trigger] terms[l]) by {
        assert(words[start + l] == terms[l]);
    }
    lemma_all_terms_matched(terms, words, terms.len());
    let starts = (words.len() - terms.len() + 1) as nat;
    lemma_no_late_phrases(terms, words, starts, words.len());
    lemma_phrases_in_occurrences(terms, words, k, starts);
    lemma_occurrences_grow(words, terms[k], starts + k as nat, words.len());
}

proof fn lemma_phrase_place(terms: Seq<Seq<char>>, words: Seq<Seq<char>>, n: nat) -> (start: int)
    requires
        phrases(terms, words, n) > 0,
    ensures
        is_phrase_at(terms, words, start),
    decreases n,
{
    if is_phrase_at(terms, words, n - 1) {
        n - 1
    } else {
        lemma_phrase_place(terms, words, (n - 1) as nat)
    }
}

proof fn lemma_all_terms_matched(terms: Seq<Seq<char>>, words: Seq<Seq<char>>, n: nat)
    requires
        n <= terms.len(),
        forall|l: int| 0 <= l < terms.len() ==> words.contains(#[trigger] terms[l]),
    ensures
        terms_matched(terms, words, n) == n,
    decreases n,
{
    if n > 0 {
        lemma_all_terms_matched(terms, words, (n - 1) as nat);
    }
}

proof fn lemma_no_late_phrases(terms: Seq<Seq<char>>, words: Seq<Seq<char>>, starts: nat, n: nat)
    requires
        starts <= n,
        starts + terms.len() > words.len(),
    ensures
        phrases(terms, words, n) == phrases(terms, words, starts),
    decreases n,
{
    if starts < n {
        lemma_no_late_phrases(terms, words, starts, (n - 1) as nat);
    }
}

proof fn lemma_phrases_in_occurrences(
    terms: Seq<Seq<char>>,
    words: Seq<Seq<char>>,
    k: int,
    starts: nat,
)
    requires
        0 <= k < terms.len(),
    ensures
        phrases(terms, words, starts) <= occurrences(words, terms[k], starts + k as nat),
    decreases starts,
{
    if starts > 0 {
        lemma_phrases_in_occurrences(terms, words, k, (starts - 1) as nat);
        if is_phrase_at(terms, words, starts - 1) {
            assert(terms[k] == words[starts - 1 + k]);
        }
    }
}

proof fn lemma_occurrences_grow(words: Seq<Seq<char>>, term: Seq<char>, n: nat, more: nat)
    requires
        n <= more,
    ensures
        occurrences(words, term, n) <= occurrences(words, term, more),
    decreases more,
{
    if n < more {
        lemma_occurrences_grow(words, term, n, (more - 1) as nat);
    }
}

/// The check for a signal misses no message that matches.
pub proof fn signal_misses_no_match(terms: Seq<Seq<char>>, message: PreparedMessage)
    requires
        message_rank(terms, message.words) is Some,
    ensures
        signals_message(terms, message),
{
    lemma_matched_term(terms, message.words, terms.len());
}

proof fn lemma_matched_term(terms: Seq<Seq<char>>, words: Seq<Seq<char>>, n: nat)
    requires
        n <= terms.len(),
        terms_matched(terms, words, n) > 0,
    ensures
        exists|i: int| 0 <= i < terms.len() && words.contains(#[trigger] terms[i]),
    decreases n,
{
    if words.contains(terms[n - 1]) {
        assert(0 <= n - 1 < terms.len());
    } else {
        lemma_matched_term(terms, words, (n - 1) as nat);
    }
}

/// A match has no more terms than the query, and its terms no more occurrences
/// than the message has words, but at least one each.
pub proof fn message_rank_is_bounded(query: Seq<char>, words: Seq<Seq<char>>)
    ensures
        message_rank(query_terms(query), words) matches Some(rank) ==> {
            &&& 0 < rank.matched_terms <= query_terms(query).len()
            &&& rank.matched_terms <= rank.total_occurrences <= words.len()
        },
{
    let terms = query_terms(query);
    terms_are_distinct_words(query);
    lemma_total_bound(terms, words, terms.len());
    lemma_matched_bound(terms, words, terms.len());
}

proof fn lemma_matched_bound(terms: Seq<Seq<char>>, words: Seq<Seq<char>>, n: nat)
    ensures
        terms_matched(terms, words, n) <= n,
        terms_matched(terms, words, n) <= total_matched(terms, words, n),
    decreases n,
{
    if n > 0 {
        lemma_matched_bound(terms, words, (n - 1) as nat);
        lemma_occurrences(words, terms[n - 1], words.len());
        assert(words.take(words.len() as int) =~= words);
    }
}

/// A message has a rank if and only if at least one of the terms is among its
/// words. The rank counts the terms that are, the words that are terms, and the
/// places where the words from there on are the terms, one after the other.
pub proof fn message_rank_counts_shared_words(terms: Seq<Seq<char>>, words: Seq<Seq<char>>)
    requires
        terms.no_duplicates(),
    ensures
        message_rank(terms, words) is Some <==> exists|i: int|
            0 <= i < terms.len() && words.contains(#[trigger] terms[i]),
        message_rank(terms, words) matches Some(rank) ==> {
            &&& rank.matched_terms == terms.filter(|term: Seq<char>| words.contains(term)).len()
            &&& rank.total_occurrences == words.filter(
                |word: Seq<char>| terms.contains(word),
            ).len()
            &&& rank.phrase_occurrences == Seq::new(words.len(), |start: int| start).filter(
                |start: int|
                    start + terms.len() <= words.len() && words.subrange(
                        start,
                        start + terms.len(),
                    ) == terms,
            ).len()
        },
{
    if exists|i: int| 0 <= i < terms.len() && words.contains(#[trigger] terms[i]) {
        let i = choose|i: int| 0 <= i < terms.len() && words.contains(#[trigger] terms[i]);
        lemma_some_term_matched(terms, words, i, terms.len());
    }
    if terms_matched(terms, words, terms.len()) > 0 {
        lemma_matched_term(terms, words, terms.len());
        lemma_matched_is_filter(terms, words, terms.len());
        assert(terms.take(terms.len() as int) =~= terms);
        lemma_total_is_total_in(terms, words, terms.len());
        lemma_total_is_filter(terms, words, words.len());
        assert(words.take(words.len() as int) =~= words);
        let starts = Seq::new(words.len(), |start: int| start);
        lemma_phrases_are_filter(terms, words, words.len());
        assert(starts.take(words.len() as int) =~= starts);
    }
}

proof fn lemma_some_term_matched(terms: Seq<Seq<char>>, words: Seq<Seq<char>>, i: int, n: nat)
    requires
        0 <= i < n,
        words.contains(terms[i]),
    ensures
        terms_matched(terms, words, n) > 0,
    decreases n,
{
    if i < n - 1 {
        lemma_some_term_matched(terms, words, i, (n - 1) as nat);
    }
}

proof fn lemma_matched_is_filter(terms: Seq<Seq<char>>, words: Seq<Seq<char>>, n: nat)
    requires
        n <= terms.len(),
    ensures
        terms_matched(terms, words, n) == terms.take(n as int).filter(
            |term: Seq<char>| words.contains(term),
        ).len(),
    decreases n,
{
    reveal(Seq::filter);
    if n > 0 {
        lemma_matched_is_filter(terms, words, (n - 1) as nat);
        assert(terms.take(n as int).drop_last() =~= terms.take(n - 1));
    }
}

proof fn lemma_total_is_filter(terms: Seq<Seq<char>>, words: Seq<Seq<char>>, n: nat)
    requires
        terms.no_duplicates(),
        n <= words.len(),
    ensures
        total_in(terms, words, terms.len(), n) == words.take(n as int).filter(
            |word: Seq<char>| terms.contains(word),
        ).len(),
    decreases n,
{
    reveal(Seq::filter);
    if n > 0 {
        lemma_total_is_filter(terms, words, (n - 1) as nat);
        lemma_total_step(terms, words, terms.len(), n);
        lemma_terms_equal(terms, words[n - 1], terms.len());
        if terms.contains(words[n - 1]) {
            let k = choose|k: int| 0 <= k < terms.len() && terms[k] == words[n - 1];
            lemma_term_is_counted(terms, k, terms.len());
        }
        assert(words.take(n as int).drop_last() =~= words.take(n - 1));
    } else {
        lemma_nothing_in_none(terms, words, terms.len());
    }
}

proof fn lemma_term_is_counted(terms: Seq<Seq<char>>, k: int, n: nat)
    requires
        0 <= k < n,
    ensures
        terms_equal(terms, terms[k], n) >= 1,
    decreases n,
{
    if k < n - 1 {
        lemma_term_is_counted(terms, k, (n - 1) as nat);
    }
}

proof fn lemma_phrases_are_filter(terms: Seq<Seq<char>>, words: Seq<Seq<char>>, n: nat)
    requires
        terms.len() > 0,
        n <= words.len(),
    ensures
        phrases(terms, words, n) == Seq::new(words.len(), |start: int| start).take(
            n as int,
        ).filter(
            |start: int|
                start + terms.len() <= words.len() && words.subrange(start, start + terms.len())
                    == terms,
        ).len(),
    decreases n,
{
    reveal(Seq::filter);
    let starts = Seq::new(words.len(), |start: int| start);
    if n > 0 {
        lemma_phrases_are_filter(terms, words, (n - 1) as nat);
        assert(starts.take(n as int).drop_last() =~= starts.take(n - 1));
        let start = n - 1;
        if start + terms.len() <= words.len() {
            let part = words.subrange(start, start + terms.len());
            if is_phrase_at(terms, words, start) {
                assert(part =~= terms);
            }
            if part == terms {
                assert forall|k: int| 0 <= k < terms.len() implies #[trigger] terms[k]
                    == words[start + k] by {
                    assert(part[k] == words[start + k]);
                }
            }
        }
    }
}

/// The terms of a query are its words in lower case in the order in which they
/// first come: each term is a word that is none of the words before it, and a
/// later term first comes later.
pub proof fn terms_keep_the_order_of_words(query: Seq<char>) -> (places: Seq<int>)
    ensures
        places.len() == query_terms(query).len(),
        forall|k: int|
            0 <= k < places.len() ==> {
                &&& 0 <= #[trigger] places[k] < message_words(query).len()
                &&& message_words(query)[places[k]] == query_terms(query)[k]
                &&& !message_words(query).take(places[k]).contains(query_terms(query)[k])
            },
        forall|k: int, l: int|
            0 <= k < l < places.len() ==> #[trigger] places[k] < #[trigger] places[l],
        forall|i: int|
            0 <= i < message_words(query).len() ==> query_terms(query).contains(
                #[trigger] message_words(query)[i],
            ),
{
    let words = message_words(query);
    lemma_first_occurrences(words);
    assert forall|i: int| 0 <= i < words.len() implies query_terms(query).contains(
        #[trigger] words[i],
    ) by {
        assert(words.to_set().contains(words[i]));
    }
    lemma_first_places(words)
}

proof fn lemma_first_places(words: Seq<Seq<char>>) -> (places: Seq<int>)
    ensures
        places.len() == first_occurrences(words).len(),
        forall|k: int|
            0 <= k < places.len() ==> {
                &&& 0 <= #[trigger] places[k] < words.len()
                &&& words[places[k]] == first_occurrences(words)[k]
                &&& !words.take(places[k]).contains(first_occurrences(words)[k])
            },
        forall|k: int, l: int|
            0 <= k < l < places.len() ==> #[trigger] places[k] < #[trigger] places[l],
    decreases words.len(),
{
    if words.len() == 0 {
        seq![]
    } else {
        let shorter = words.drop_last();
        let before = first_occurrences(shorter);
        let places = lemma_first_places(shorter);
        lemma_first_occurrences(shorter);
        assert forall|k: int| 0 <= k < places.len() implies words.take(#[trigger] places[k])
            == shorter.take(places[k]) by {
            assert(words.take(places[k]) =~= shorter.take(places[k]));
        }
        if before.contains(words.last()) {
            places
        } else {
            let last = words.len() - 1;
            assert(words.take(last) =~= shorter);
            if shorter.contains(words.last()) {
                assert(shorter.to_set().contains(words.last()));
                assert(before.to_set().contains(words.last()));
            }
            places.push(last)
        }
    }
}

/// A message is worth a closer look if and only if one of the terms is among its
/// words or the first term stands somewhere in its text in lower case.
pub proof fn signal_is_shared_word_or_first_term(
    terms: Seq<Seq<char>>,
    message: PreparedMessage,
)
    requires
        terms.len() > 0,
    ensures
        signals_message(terms, message) <==> {
            let (text, term) = (message.lowered, terms[0]);
            ||| exists|i: int| 0 <= i < terms.len() && message.words.contains(#[trigger] terms[i])
            ||| exists|at: int|
                0 <= at <= text.len() - term.len() && #[trigger] text.subrange(at, at + term.len())
                    == term
        },
{
    let (text, term) = (message.lowered, terms[0]);
    rfind_is_last(text, term);
    if let Some(at) = rfind(text, term) {
        assert(text.subrange(at, at + term.len()) =~= term);
    }
    if exists|at: int|
        0 <= at <= text.len() - term.len() && #[trigger] text.subrange(at, at + term.len())
            == term {
        let at = choose|at: int|
            0 <= at <= text.len() - term.len() && #[trigger] text.subrange(at, at + term.len())
                == term;
        assert forall|k: int| 0 <= k < term.len() implies text[at + k] == #[trigger] term[k] by {
            assert(text.subrange(at, at + term.len())[k] == text[at + k]);
        }
        assert(occurs_at(text, term, at));
    }
}

/// A match with the phrase precedes one without it, whatever else they have.
pub proof fn phrase_precedes_split_terms(left: MessageMatch<'_>, right: MessageMatch<'_>)
    requires
        left.phrase_occurrences > 0,
        right.phrase_occurrences == 0,
    ensures
        left.precedes(right),
        !right.precedes(left),
{
}

/// Where both have the phrase or neither has, a match with more terms precedes
/// one with fewer, however often that has them.
pub proof fn coverage_precedes_repetition(left: MessageMatch<'_>, right: MessageMatch<'_>)
    requires
        (left.phrase_occurrences > 0) == (right.phrase_occurrences > 0),
        left.matched_terms > right.matched_terms,
    ensures
        left.precedes(right),
        !right.precedes(left),
{
}

/// What a match is ordered by before its key: whether it has the phrase, how many
/// terms, how many phrases, how many occurrences, the score, more before fewer.
pub open spec fn numbers_of(hit: MessageMatch<'_>) -> Seq<int> {
    seq![
        if hit.phrase_occurrences > 0 {
            0int
        } else {
            1
        },
        -hit.matched_terms,
        -hit.phrase_occurrences,
        -hit.total_occurrences,
        -hit.score.rank(),
    ]
}

/// Matches are ordered by the first of their numbers that differs, and then by
/// their keys.
pub proof fn message_order_is_by_first_difference(left: MessageMatch<'_>, right: MessageMatch<'_>)
    ensures
        left.precedes(right) <==> is_lower(numbers_of(left), numbers_of(right)) || numbers_of(left)
            == numbers_of(right) && text_before(left.key@, right.key@),
{
    let (first, second) = (numbers_of(left), numbers_of(right));
    lemma_is_lower(first, second);
    reveal_with_fuel(is_lower_from, 7);
    if left.score.rank() == right.score.rank() {
        score_rank_is_injective(left.score, right.score);
    }
    if first == second {
        assert(first[0] == second[0] && first[1] == second[1] && first[2] == second[2]);
        assert(first[3] == second[3] && first[4] == second[4]);
    }
}

/// A message that is asked about has a rank if and only if it shares a word with
/// the query, letter case aside.
pub proof fn message_ranks_where_it_shares_a_word(query: Seq<char>, text: Seq<char>)
    ensures
        message_rank(query_terms(query), message_words(text)) is Some <==> exists|word: Seq<char>|
            #[trigger] message_words(query).contains(word) && message_words(text).contains(word),
{
    let (asked, words, terms) = (message_words(query), message_words(text), query_terms(query));
    terms_are_distinct_words(query);
    message_rank_counts_shared_words(terms, words);
    if message_rank(terms, words) is Some {
        let i = choose|i: int| 0 <= i < terms.len() && words.contains(#[trigger] terms[i]);
        assert(terms.to_set().contains(terms[i]));
        assert(asked.to_set().contains(terms[i]));
        assert(asked.contains(terms[i]));
    }
    if exists|word: Seq<char>| #[trigger] asked.contains(word) && words.contains(word) {
        let word = choose|word: Seq<char>| #[trigger] asked.contains(word) && words.contains(word);
        assert(asked.to_set().contains(word));
        assert(terms.to_set().contains(word));
        let i = choose|i: int| 0 <= i < terms.len() && terms[i] == word;
        assert(words.contains(terms[i]));
    }
}

/// The words of a message are its runs of letters and digits in lower case.
pub proof fn words_are_runs_of_letters_and_digits(text: Seq<char>)
    ensures
        message_words(text) == tokens(Separator::NonAlphanumeric, lowercase(text)),
{
}

} // verus!
