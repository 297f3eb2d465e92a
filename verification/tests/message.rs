use fuzzy_rank::message::{
    contains_query_signal, sort_matches, MessageCandidate, MessageMatch, MessageQuery,
    PreparedMessageCandidate,
};
use fuzzy_rank::score::Score;

fn score(value: f64) -> Score {
    Score::from_bits(value.to_bits())
}

fn matched_keys<'a>(query: &str, candidates: &'a [PreparedMessageCandidate<'a>]) -> Vec<&'a str> {
    let query = MessageQuery::new(query).unwrap();
    let mut matches = candidates
        .iter()
        .filter_map(|candidate| query.search_rank_prepared(candidate))
        .collect::<Vec<_>>();
    sort_matches(&mut matches);
    matches.into_iter().map(|matched| matched.key).collect()
}

fn prepare<'a>(key: &'a str, text: &'a str, value: f64) -> PreparedMessageCandidate<'a> {
    MessageCandidate {
        key,
        text,
        score: score(value),
    }
    .prepare()
}

fn rank<'a>(query: &str, text: &'a str) -> Option<MessageMatch<'a>> {
    MessageQuery::new(query).unwrap().search_rank(MessageCandidate {
        key: "key",
        text,
        score: score(1.5),
    })
}

#[test]
fn phrase_match_beats_non_phrase_match() {
    let candidates = [
        prepare("phrase", "word1 word2 together", 0.0),
        prepare("split", "word1 between other word2", 0.0),
    ];

    assert_eq!(
        matched_keys("word1 word2", &candidates),
        vec!["phrase", "split"]
    );
}

#[test]
fn full_coverage_beats_partial_with_more_occurrences() {
    let candidates = [
        prepare("both", "word1 word2", 0.0),
        prepare(
            "one-many",
            "word1 word1 word1 word1 word1 word1 word1 word1 word1 word1",
            0.0,
        ),
    ];

    assert_eq!(
        matched_keys("word1 word2", &candidates),
        vec!["both", "one-many"]
    );
}

#[test]
fn more_occurrences_break_ties_within_same_coverage() {
    let candidates = [
        prepare("many", "word1 word2 word1 word2", 0.0),
        prepare("few", "word1 word2", 0.0),
    ];

    assert_eq!(
        matched_keys("word1 word2", &candidates),
        vec!["many", "few"]
    );
}

#[test]
fn more_occurrences_of_single_matched_word_break_partial_ties() {
    let candidates = [
        prepare("many-word1", "word1 word1 word1", 0.0),
        prepare("one-word1", "word1", 0.0),
    ];

    assert_eq!(
        matched_keys("word1 word2", &candidates),
        vec!["many-word1", "one-word1"]
    );
}

#[test]
fn score_breaks_remaining_ties() {
    let candidates = [
        prepare("lower", "word1 word2", 1.0),
        prepare("higher", "word1 word2", 2.0),
    ];

    assert_eq!(
        matched_keys("word1 word2", &candidates),
        vec!["higher", "lower"]
    );
}

#[test]
fn signal_check_is_exact_token_or_fast_substring_hit() {
    let query = MessageQuery::new("word1 word2").unwrap();
    let matching = prepare("matching", "word2 appears here", 0.0);
    let partial = prepare("partial", "this contains word1x only", 0.0);

    assert!(contains_query_signal(&query, &matching));
    assert!(contains_query_signal(&query, &partial));
}

#[test]
fn signal_check_can_fail() {
    let query = MessageQuery::new("word1 word2").unwrap();
    assert!(!contains_query_signal(&query, &prepare("later", "word2x only", 0.0)));
    assert!(!contains_query_signal(&query, &prepare("empty", "", 0.0)));
}

#[test]
fn signal_misses_no_message_that_matches() {
    let query = MessageQuery::new("alpha beta").unwrap();
    for text in ["beta", "x alpha", "alpha beta", "Beta!", "gamma"] {
        let prepared = prepare("key", text, 0.0);
        if query.search_rank_prepared(&prepared).is_some() {
            assert!(contains_query_signal(&query, &prepared));
        }
    }
}

#[test]
fn message_counts_are_exact() {
    let found = rank("a b a", "b a b, a! c a b").unwrap();
    assert_eq!(found.phrase_occurrences, 2);
    assert_eq!(found.matched_terms, 2);
    assert_eq!(found.total_occurrences, 6);
    assert_eq!(found.key, "key");
    assert_eq!(found.text, "b a b, a! c a b");
    assert_eq!(found.score, score(1.5));
}

#[test]
fn phrases_may_overlap_and_need_every_term() {
    assert_eq!(rank("x", "x x x").unwrap().phrase_occurrences, 3);
    let found = rank("a b c", "a b d a b").unwrap();
    assert_eq!(found.phrase_occurrences, 0);
    assert_eq!(found.matched_terms, 2);
    assert_eq!(found.total_occurrences, 4);
}

#[test]
fn message_without_a_term_does_not_match() {
    assert!(rank("word1", "word2 word3").is_none());
    assert!(rank("word1", "").is_none());
    assert!(rank("word1", "word1x").is_none());
}

#[test]
fn messages_are_matched_in_lower_case() {
    let found = rank("\u{c9}T\u{c9} Rain", "rain in \u{e9}t\u{e9}").unwrap();
    assert_eq!(found.matched_terms, 2);
    assert_eq!(found.phrase_occurrences, 0);
}

#[test]
fn query_without_words_is_none() {
    assert!(MessageQuery::new("").is_none());
    assert!(MessageQuery::new(" ,-! ").is_none());
}

#[test]
fn queries_of_the_same_terms_are_equal() {
    let query = MessageQuery::new("Word1, word2 word1").unwrap();
    assert_eq!(query, MessageQuery::new("word1 WORD2").unwrap());
    assert_ne!(query, MessageQuery::new("word2 word1").unwrap());
    assert_eq!(query.clone(), query);
}

#[test]
fn copied_message_ranks_the_same() {
    let query = MessageQuery::new("word1 word2").unwrap();
    let prepared = prepare("key", "word1 word2 word1", 3.0);
    let copy = prepared.clone();
    let left = query.search_rank_prepared(&prepared).unwrap();
    let right = query.search_rank_prepared(&copy).unwrap();
    assert_eq!(left.total_occurrences, right.total_occurrences);
    assert_eq!(left.phrase_occurrences, right.phrase_occurrences);
    assert_eq!(copy.key, "key");
    assert_eq!(copy.score, score(3.0));
}

#[test]
fn key_breaks_the_last_tie() {
    let candidates = [
        prepare("b", "word1", 1.0),
        prepare("a", "word1", 1.0),
        prepare("c", "word1", 2.0),
    ];
    assert_eq!(matched_keys("word1", &candidates), vec!["c", "a", "b"]);
}

#[test]
fn prepared_message_ranks_as_the_message_does() {
    let query = MessageQuery::new("word1 word2").unwrap();
    let prepared = prepare("key", "word2 word1 word2", 1.5);
    let left = query.search_rank_prepared(&prepared).unwrap();
    let right = rank("word1 word2", "word2 word1 word2").unwrap();
    assert_eq!(left.phrase_occurrences, right.phrase_occurrences);
    assert_eq!(left.matched_terms, right.matched_terms);
    assert_eq!(left.total_occurrences, right.total_occurrences);
    assert_eq!(left.text, right.text);
}
