use fuzzy_rank::distance::bounded_damerau_levenshtein;
use fuzzy_rank::message::{sort_matches, MessageMatch, MessageQuery, MessageCandidate};
use fuzzy_rank::metadata::{MetadataCandidate, MetadataQuery, SearchField};
use fuzzy_rank::path::exact::{
    match_path_position_with, match_penalty_with, match_qualities_with, PathSeparators,
};
use fuzzy_rank::path::typo::TypoQuery;
use fuzzy_rank::path::{best_match, is_ambiguous, MatchQuality, MatchScope, PathMatch};
use fuzzy_rank::ranking::SearchRank;
use fuzzy_rank::score::Score;
use fuzzy_rank::sort::sort_ranked;
use fuzzy_rank::text::{
    has_query_signal, separator_variants, split_path_tokens, split_search_tokens,
    split_whitespace_tokens,
};
use fuzzy_rank::token_match::{aligned_token_distance, PositionedToken};

fn score(value: f64) -> Score {
    Score::from_bits(value.to_bits())
}

fn keywords(words: &[&str]) -> Vec<String> {
    words.iter().map(|word| word.to_string()).collect()
}

fn every_platform() -> [PathSeparators; 4] {
    [(false, false), (false, true), (true, false), (true, true)]
        .map(|(slash, backslash)| PathSeparators { slash, backslash })
}

fn rank(query: &str, value: &str) -> Option<SearchRank> {
    let fields = [SearchField { priority: 0, value }];
    MetadataQuery::new(query).unwrap().search_rank(MetadataCandidate {
        key: "key",
        fields: &fields,
        score: score(0.0),
    })
}

#[test]
fn distance_lies_between_length_difference_and_longer_length() {
    for (left, right) in [("abc", "xyzw"), ("", "abc"), ("git", "gitstatus"), ("aa", "aaaa")] {
        let (shorter, longer) = (left.len().min(right.len()), left.len().max(right.len()));
        let (distance, operations) = bounded_damerau_levenshtein(left, right, 99).unwrap();
        assert!(longer - shorter <= distance);
        assert!(distance <= longer);
        assert_eq!(operations.total(), distance);
    }
}

#[test]
fn tokens_put_together_are_the_text_without_separators() {
    let text = " a-b_c.d/e f\\g  12! ";
    assert_eq!(split_whitespace_tokens(text).concat(), "a-b_c.d/ef\\g12!");
    assert_eq!(split_search_tokens(text).concat(), "abcdefg12");
    assert_eq!(split_path_tokens(text).concat(), "abcdefg12!");
}

#[test]
fn measures_agree_on_what_matches() {
    for words in [&["tasks", "onfig"][..], &["nope"][..], &["config", "tasks"][..], &[][..]] {
        let words = keywords(words);
        for separators in every_platform() {
            let path = "/home/lewis/tasks\\x/config";
            let penalty = match_penalty_with(path, &words, separators);
            let position = match_path_position_with(path, &words, separators);
            let qualities = match_qualities_with(path, &words, separators);
            assert_eq!(penalty.is_some(), position.is_some());
            assert_eq!(penalty.is_some(), qualities.is_some());
        }
    }
}

#[test]
fn platforms_agree_on_paths_that_have_nothing_they_differ_in() {
    let words = keywords(&["ew", "onfig"]);
    let path = "/home/lewis/tasks/config";
    let left = PathSeparators { slash: true, backslash: true };
    let right = PathSeparators { slash: true, backslash: false };
    assert_eq!(match_penalty_with(path, &words, left), match_penalty_with(path, &words, right));
    assert_eq!(
        match_path_position_with(path, &words, left),
        match_path_position_with(path, &words, right)
    );
    assert_eq!(
        match_qualities_with(path, &words, left),
        match_qualities_with(path, &words, right)
    );
}

#[test]
fn platform_does_not_decide_penalties() {
    let words = keywords(&["ew", "onfig"]);
    for separators in every_platform() {
        let path = "/home\\lewis/tasks/config";
        assert_eq!(match_penalty_with(path, &words, separators), Some(4));
        assert_eq!(
            match_qualities_with(path, &words, separators),
            Some(vec![MatchQuality::Suffix, MatchQuality::Contains])
        );
    }
    let path = "/home\\lewis/tasks";
    assert_eq!(fuzzy_rank::path::match_penalty(path, &keywords(&["home", "ask"])), Some(2));
}

#[test]
fn matches_between_ambiguous_ones_are_ambiguous() {
    let mut matches: Vec<PathMatch<'_>> = ["/a/terminap", "/x/y/terminab", "/b/terminac"]
        .into_iter()
        .map(|path| best_match(path, score(1.0), "terminak").unwrap())
        .collect();
    fuzzy_rank::path::sort_matches(&mut matches);
    assert!(is_ambiguous(&matches[0], &matches[2]));
    assert!(is_ambiguous(&matches[0], &matches[1]));
    assert!(is_ambiguous(&matches[1], &matches[2]));
}

#[test]
fn same_word_ranks_better_near_the_end_of_the_path() {
    let near = best_match("/home/lewis/config", score(0.0), "cofnig").unwrap();
    let far = best_match("/home/config/lewis", score(99.0), "cofnig").unwrap();
    assert_eq!(near.distance, far.distance);
    assert_eq!(near.compare(&far), std::cmp::Ordering::Less);
    assert_eq!(near.scope, MatchScope::Basename);
    assert_eq!(far.scope, MatchScope::OtherComponent);
}

#[test]
fn variants_lose_nothing_but_the_space() {
    for variant in separator_variants("gitstatus") {
        assert_eq!(variant.replace(' ', ""), "gitstatus");
    }
    assert_eq!(separator_variants("gitstatus").len(), 8);
}

#[test]
fn a_text_signals_itself() {
    for text in ["a", "ab", "abcd", "gitstatus"] {
        assert!(has_query_signal(&[text], text));
    }
}

#[test]
fn phrase_has_every_term_at_least_as_often() {
    let query = MessageQuery::new("a b").unwrap();
    let found = query
        .search_rank(MessageCandidate { key: "k", text: "a b a b b", score: score(0.0) })
        .unwrap();
    assert_eq!(found.phrase_occurrences, 2);
    assert_eq!(found.matched_terms, 2);
    assert_eq!(found.total_occurrences, 5);
}

#[test]
fn sorting_is_stable() {
    let with_text = |text| MessageMatch {
        key: "same",
        text,
        score: score(1.0),
        phrase_occurrences: 0,
        matched_terms: 1,
        total_occurrences: 1,
    };
    let better = MessageMatch { matched_terms: 2, ..with_text("best") };
    let mut matches =
        vec![with_text("one"), with_text("two"), better, with_text("three"), with_text("four")];
    sort_matches(&mut matches);
    let texts: Vec<&str> = matches.iter().map(|found| found.text).collect();
    assert_eq!(texts, vec!["best", "one", "two", "three", "four"]);
    sort_ranked(&mut matches);
    let again: Vec<&str> = matches.iter().map(|found| found.text).collect();
    assert_eq!(again, texts);
}

#[test]
fn sorting_does_not_depend_on_the_order_given() {
    let paths = ["/a/terminal", "/b/terminal", "/c/terminak", "/d/e/terminal"];
    let found = |path| best_match(path, score(1.0), "terminak").unwrap();
    let mut forward: Vec<PathMatch<'_>> = paths.into_iter().map(found).collect();
    let mut backward: Vec<PathMatch<'_>> = paths.into_iter().rev().map(found).collect();
    fuzzy_rank::path::sort_matches(&mut forward);
    fuzzy_rank::path::sort_matches(&mut backward);
    let left: Vec<&str> = forward.iter().map(|found| found.path).collect();
    let right: Vec<&str> = backward.iter().map(|found| found.path).collect();
    assert_eq!(left, vec!["/c/terminak", "/a/terminal", "/b/terminal", "/d/e/terminal"]);
    assert_eq!(left, right);
}

#[test]
fn scattered_characters_are_found_as_early_as_they_can() {
    match rank("ac", "xabacxc") {
        Some(SearchRank::Structure(found)) => assert_eq!(found.start_idx, 3),
        _ => panic!("expected structural rank"),
    }
    match rank("bx", "xabacxc") {
        Some(SearchRank::Abbreviation(found)) => {
            assert_eq!(found.start_idx, 2);
            assert_eq!(found.gap_span, 2);
            assert_eq!(found.gap_count, 1);
        }
        _ => panic!("expected abbreviation rank"),
    }
}

#[test]
fn least_part_of_a_field_is_found() {
    match rank("statsu", "xx status yy") {
        Some(SearchRank::Fuzzy(found)) => {
            assert_eq!(found.distance, 1);
            assert_eq!(found.variant_scope, 0);
            assert_eq!(found.start_idx, 2);
            assert_eq!(found.ratio_milli, 83);
        }
        _ => panic!("expected fuzzy rank"),
    }
}

#[test]
fn half_of_the_query_may_be_missing_from_a_field() {
    assert!(matches!(rank("abzz", "xab"), Some(SearchRank::Fuzzy(_))));
    assert!(rank("azzz", "xab").is_none());
}

#[test]
fn every_keyword_of_a_match_has_a_quality() {
    let words = keywords(&["ew", "tasks", "con", "fig"]);
    assert_eq!(
        match_qualities_with(
            "/home/lewis/tasks/config",
            &words,
            PathSeparators { slash: true, backslash: false }
        ),
        Some(vec![
            MatchQuality::Suffix,
            MatchQuality::Exact,
            MatchQuality::Exact,
            MatchQuality::Contains,
        ])
    );
}

#[test]
fn path_and_its_exact_part_measure_alike() {
    for path in ["/home/lewis/tasks/config", "C:\\tasks\\config", "tasks\\config/x", ""] {
        for words in [&["asks", "onfig"][..], &["tasks"][..], &[][..]] {
            let words = keywords(words);
            let penalty = fuzzy_rank::path::match_penalty(path, &words);
            let position = fuzzy_rank::path::match_path_position(path, &words);
            let qualities = fuzzy_rank::path::match_qualities(path, &words);
            assert_eq!(penalty, fuzzy_rank::path::exact::match_penalty(path, &words));
            assert_eq!(position, fuzzy_rank::path::exact::match_path_position(path, &words));
            assert_eq!(qualities, fuzzy_rank::path::exact::match_qualities(path, &words));
            assert_eq!(penalty.is_some(), qualities.is_some());
            assert_eq!(position.is_some(), qualities.is_some());
            if let Some(qualities) = qualities {
                assert_eq!(qualities.len(), words.len());
            }
        }
    }
}

#[test]
fn match_of_the_basename_is_a_match_of_the_path() {
    for (query, path) in [("x4ce4", "/a/xfce4-terminal"), ("teminal", "/a/b/terminal/")] {
        let query = TypoQuery::new(query).unwrap();
        let found = query.best_basename_match(path, score(4.0)).unwrap();
        assert!(matches!(found.scope, MatchScope::Basename | MatchScope::BasenameToken));
        assert_eq!((found.path_position, found.structure), (0, 0));
        assert_eq!((found.path, found.score), (path, score(4.0)));
        assert_eq!(found.path_depth, path.split('/').filter(|part| !part.is_empty()).count());
        assert!(query.best_match(path, score(4.0)).is_some());
    }
}

#[test]
fn best_run_is_least_of_those_within_the_limit() {
    let placed = |token, position| PositionedToken { token, position };
    let tokens = [placed("gti", 1), placed("git", 6), placed("git", 3)];
    let found = aligned_token_distance(&["git"], &tokens, 1).unwrap();
    assert_eq!((found.0, found.1, found.2), (0, 3, 0));
    assert!(aligned_token_distance(&["git"], &tokens[..1], 0).is_none());
    let nothing = aligned_token_distance(&[], &tokens, 0).unwrap();
    assert_eq!((nothing.0, nothing.1, nothing.2, nothing.3.total()), (0, 0, 0, 0));
    let far = [placed("git", usize::MAX), placed("zzz", usize::MAX)];
    let found = aligned_token_distance(&["git"], &far, 1).unwrap();
    assert_eq!((found.0, found.1, found.2), (0, usize::MAX, 0));
}
