use fuzzy_rank::distance::OperationProfile;
use fuzzy_rank::path::typo::{query_from_keywords, TypoQuery};
use fuzzy_rank::path::{
    best_match, is_ambiguous, match_path_position, match_penalty, match_qualities, sort_matches,
    try_best_match, typo_query, MatchQuality, MatchScope,
};
use fuzzy_rank::score::{Ratio, Score};
use fuzzy_rank::token_match::best_token_match;

fn score(value: f64) -> Score {
    Score::from_bits(value.to_bits())
}

fn share(ratio: Ratio) -> f64 {
    ratio.numerator as f64 / ratio.denominator as f64
}

fn keywords(words: &[&str]) -> Vec<String> {
    words.iter().map(|word| word.to_string()).collect()
}

#[test]
fn typo_matches_basename() {
    let candidate = best_match("/home/lewis/xfce4-terminal", score(10.0), "xfce4-terinal").unwrap();
    assert_eq!(candidate.scope, MatchScope::Basename);
    assert_eq!(candidate.distance, 1);
}

#[test]
fn basename_token_prefixes_do_not_count_as_typos() {
    let candidate = best_match("/home/lewis/xfce4-terminal", score(10.0), "xzfce-ter").unwrap();
    assert_eq!(candidate.scope, MatchScope::Basename);
    assert_eq!(candidate.distance, 1);
}

#[test]
fn spaced_query_tokens_can_match_single_compound_token() {
    let candidate =
        best_match("/home/lewis/applicationlauncher", score(10.0), "app laucnh").unwrap();
    assert_eq!(candidate.scope, MatchScope::Basename);
    assert_eq!(candidate.path_position, 0);
    assert_eq!(candidate.distance, 1);
    assert!(candidate.structure > 0);
}

#[test]
fn missing_space_query_can_match_single_compound_token() {
    let candidate =
        best_match("/home/lewis/applicationlauncher", score(10.0), "applaunch").unwrap();
    assert_eq!(candidate.scope, MatchScope::Basename);
    assert_eq!(candidate.path_position, 0);
    assert_eq!(candidate.distance, 1);
    assert!(candidate.structure > 0);
}

#[test]
fn spaced_query_tokens_can_match_component_sequence() {
    let candidate = best_match("/home/lewis/tasks/config", score(10.0), "tasks cinfig").unwrap();
    assert_eq!(candidate.scope, MatchScope::OtherComponent);
    assert_eq!(candidate.path_position, 3);
    assert_eq!(candidate.distance, 1);
    assert_eq!(candidate.structure, 0);
}

#[test]
fn structure_penalty_tracks_token_positions() {
    assert_eq!(
        best_token_match("cinfig", "redragonmouseconfig", 3),
        Some((
            1,
            13,
            1,
            6,
            OperationProfile {
                substitutions: 1,
                insert_delete: 0,
                transpositions: 0
            },
        ))
    );
}

#[test]
fn component_sequence_can_match_substring_inside_token() {
    let candidate = best_match(
        "/home/lewis/tasks/redragonmouseconfig",
        score(10.0),
        "tasks cinfig",
    )
    .unwrap();
    assert_eq!(candidate.scope, MatchScope::OtherComponent);
    assert_eq!(candidate.path_position, 4);
    assert_eq!(candidate.distance, 1);
    assert_eq!(candidate.structure, 13);
}

#[test]
fn multiple_tokens_can_match_the_same_non_basename_component() {
    let candidate = best_match(
        "/home/lewis/Dev/applicationlauncher/target/release",
        score(10.0),
        "ap laun",
    )
    .unwrap();
    assert_eq!(candidate.scope, MatchScope::OtherComponent);
    assert_eq!(candidate.distance, 0);
    assert_eq!(candidate.path_position, 12);
}

#[test]
fn fewer_substitutions_beat_missing_letters_at_equal_distance() {
    let mut matches = [
        best_match("/home/lewis/abdef", score(10.0), "abcdef").unwrap(),
        best_match("/home/lewis/abqdef", score(10.0), "abcdef").unwrap(),
    ];
    sort_matches(&mut matches);
    assert_eq!(matches[0].path, "/home/lewis/abdef");
    assert_eq!(matches[0].distance, matches[1].distance);
}

#[test]
fn long_queries_use_half_length_typo_limit() {
    let candidate =
        best_match("/home/lewis/xfce4-terminal", score(10.0), "xgce4-tremriianl").unwrap();
    assert_eq!(candidate.scope, MatchScope::Basename);
    assert_eq!(candidate.distance, 5);
}

#[test]
fn typo_matches_component_token() {
    let candidate = best_match("/home/lewis/xfce4-terminal", score(10.0), "x4ce4").unwrap();
    assert_eq!(candidate.scope, MatchScope::BasenameToken);
    assert_eq!(candidate.distance, 1);
}

#[test]
fn five_character_queries_allow_half_length_typos() {
    let candidate = best_match("/home/lewis/xfce4-terminal", score(10.0), "zgce4").unwrap();
    assert_eq!(candidate.scope, MatchScope::BasenameToken);
    assert_eq!(candidate.distance, 2);
    assert_eq!(share(candidate.ratio), 0.4);
}

#[test]
fn single_character_queries_are_not_corrected() {
    assert!(best_match("/home/lewis/foobar", score(10.0), "f").is_none());
}

#[test]
fn short_queries_allow_one_typo() {
    let candidate = best_match("/home/lewis/foo", score(10.0), "foa").unwrap();
    assert_eq!(candidate.distance, 1);
}

#[test]
fn ambiguous_equal_distance_matches_are_rejected() {
    let mut matches = vec![
        best_match("/home/lewis/terminal", score(10.0), "terminak").unwrap(),
        best_match("/home/lewis/terminap", score(10.0), "terminak").unwrap(),
    ];
    sort_matches(&mut matches);
    assert!(is_ambiguous(&matches[0], &matches[1]));
}

#[test]
fn frecency_resolves_otherwise_ambiguous_matches() {
    let mut matches = vec![
        best_match(
            "/home/lewis/repos/xfce4-terminal",
            score(20.0),
            "xgce4-tremriianl",
        )
        .unwrap(),
        best_match(
            "/home/lewis/Dev/config/xfce4-terminal",
            score(10.0),
            "xgce4-tremriianl",
        )
        .unwrap(),
    ];
    sort_matches(&mut matches);
    assert_eq!(matches[0].path, "/home/lewis/repos/xfce4-terminal");
    assert!(!is_ambiguous(&matches[0], &matches[1]));
}

#[test]
fn basename_match_beats_parent_component_match() {
    let mut matches = vec![
        best_match("/home/xfce4/project", score(100.0), "x4ce4").unwrap(),
        best_match("/home/lewis/xfce4-terminal", score(1.0), "x4ce4").unwrap(),
    ];
    sort_matches(&mut matches);
    assert_eq!(matches[0].path, "/home/lewis/xfce4-terminal");
    assert_eq!(matches[0].scope, MatchScope::BasenameToken);
}

#[test]
fn lower_edit_distance_beats_frecency() {
    let mut matches = vec![
        best_match("/home/lewis/xfce4-terminal", score(1.0), "xfce4-terinal").unwrap(),
        best_match("/home/lewis/xfce4-terminals", score(1000.0), "xfce4-terinal").unwrap(),
    ];
    sort_matches(&mut matches);
    assert_eq!(matches[0].path, "/home/lewis/xfce4-terminal");
}

#[test]
fn frecency_breaks_ties_after_distance_ratio_and_scope() {
    let mut matches = vec![
        best_match("/tmp/xfce4-terminal", score(1.0), "x4ce4").unwrap(),
        best_match("/var/xfce4-utility", score(100.0), "x4ce4").unwrap(),
    ];
    sort_matches(&mut matches);
    assert_eq!(matches[0].path, "/var/xfce4-utility");
    assert_eq!(matches[0].distance, matches[1].distance);
    assert_eq!(matches[0].scope, matches[1].scope);
    assert_eq!(matches[0].ratio, matches[1].ratio);
}

#[test]
fn path_match_penalty_sums_token_positions() {
    let keywords = keywords(&["asks", "onfig"]);
    assert_eq!(
        match_penalty("/home/lewis/tasks/config", &keywords),
        Some(2)
    );
}

#[test]
fn path_match_path_position_prefers_basename_over_parent_components() {
    let keywords = keywords(&["ap", "laun"]);
    assert_eq!(
        match_path_position("/home/lewis/Dev/applicationlauncher", &keywords),
        Some(2)
    );
    assert_eq!(
        match_path_position(
            "/home/lewis/Dev/applicationlauncher/target/release",
            &keywords
        ),
        None
    );
}

#[test]
fn match_holds_what_was_asked_about() {
    let found = best_match("/home/lewis/xfce4-terminal", score(7.5), "xfce4-terinal").unwrap();
    assert_eq!(found.path, "/home/lewis/xfce4-terminal");
    assert_eq!(found.score, score(7.5));
    assert_eq!(found.path_depth, 3);
    assert_eq!(found.path_position, 0);
    assert_eq!(found.structure, 0);
    assert_eq!(found.ratio, Ratio { numerator: 1, denominator: 14 });
    assert_eq!(
        found.operations,
        OperationProfile {
            substitutions: 0,
            insert_delete: 1,
            transpositions: 0
        }
    );
}

#[test]
fn basename_in_lower_case_matches_itself_without_an_edit() {
    let found = best_match("/srv/My-Files", score(0.0), "my-files").unwrap();
    assert_eq!(found.distance, 0);
    assert_eq!(found.scope, MatchScope::Basename);
    assert_eq!(found.ratio, Ratio { numerator: 0, denominator: 8 });
}

#[test]
fn lower_case_reaches_beyond_ascii() {
    let found = best_match("/srv/\u{c9}COLE", score(0.0), "\u{e9}cole").unwrap();
    assert_eq!(found.distance, 0);
}

#[test]
fn distance_never_exceeds_half_the_query() {
    assert!(best_match("/a/abcd", score(0.0), "abzz").is_some());
    assert!(best_match("/a/abcd", score(0.0), "azzz").is_none());
}

#[test]
fn lost_space_counts_as_one_insertion() {
    let found = best_match("/home/lewis/tasks/config", score(0.0), "tasksconfig").unwrap();
    assert_eq!(found.distance, 1);
    assert_eq!(found.operations.insert_delete, 1);
    assert_eq!(found.scope, MatchScope::OtherComponent);
    assert_eq!(found.path_position, 3);
    assert_eq!(found.ratio, Ratio { numerator: 1, denominator: 11 });
}

#[test]
fn parents_stand_three_steps_apart() {
    let found = best_match("/terminal/a/b", score(0.0), "termnal").unwrap();
    assert_eq!(found.scope, MatchScope::OtherComponent);
    assert_eq!(found.path_position, 6);
    assert_eq!(found.path_depth, 3);
}

#[test]
fn whole_path_can_match() {
    let found = best_match("ab/cd", score(0.0), "ab/cd").unwrap();
    assert_eq!(found.distance, 0);
    assert_eq!(found.scope, MatchScope::OtherComponent);
    assert_eq!(found.path_position, 3);
    let other = best_match("/ab", score(0.0), "/abx").unwrap();
    assert_eq!(other.distance, 1);
    assert_eq!(other.scope, MatchScope::FullPath);
    assert_eq!(other.path_position, 3);
}

#[test]
fn path_without_a_component_does_not_match() {
    assert!(best_match("///", score(0.0), "ab").is_none());
    assert!(best_match("", score(0.0), "ab").is_none());
}

#[test]
fn path_without_a_signal_does_not_match() {
    assert!(best_match("/home/zzzz", score(0.0), "bcdf").is_none());
}

#[test]
fn basename_match_leaves_parents_out() {
    let query = TypoQuery::new("xfce4").unwrap();
    assert!(query.best_basename_match("/xfce4/project", score(0.0)).is_none());
    let found = query.best_basename_match("/project/xfce4-terminal", score(2.0)).unwrap();
    assert_eq!(found.scope, MatchScope::BasenameToken);
    assert_eq!(found.distance, 0);
    assert_eq!(found.score, score(2.0));
}

#[test]
fn prepared_query_matches_as_the_query_does() {
    let query = TypoQuery::new("x4ce4").unwrap();
    for path in ["/home/lewis/xfce4-terminal", "/home/xfce4/project", "/nothing"] {
        let left = query.best_match(path, score(3.0));
        let right = best_match(path, score(3.0), "x4ce4");
        assert_eq!(left.is_some(), right.is_some());
        if let (Some(left), Some(right)) = (left, right) {
            assert_eq!(left.compare(&right), std::cmp::Ordering::Equal);
            assert_eq!(left.scope, right.scope);
        }
    }
    assert!(TypoQuery::new("x").is_none());
    assert!(TypoQuery::new("").is_none());
}

#[test]
fn checked_match_answers_as_the_match_does() {
    let found = try_best_match("/home/lewis/foo", score(10.0), "foa").unwrap().unwrap();
    assert_eq!(found.distance, 1);
    assert!(try_best_match("/home/lewis/foo", score(10.0), "f").unwrap().is_none());
}

#[test]
fn ambiguity_looks_past_depth_and_path() {
    let first = best_match("/a/b/terminal", score(1.0), "terminak").unwrap();
    let second = best_match("/a/terminap", score(1.0), "terminak").unwrap();
    assert!(is_ambiguous(&first, &second));
    assert!(is_ambiguous(&second, &first));
    assert_eq!(second.compare(&first), std::cmp::Ordering::Less);
}

#[test]
fn sorting_keeps_every_match() {
    let mut matches = vec![
        best_match("/c/terminal", score(1.0), "terminak").unwrap(),
        best_match("/a/terminal", score(1.0), "terminak").unwrap(),
        best_match("/b/terminal", score(5.0), "terminak").unwrap(),
        best_match("/d/terminak", score(0.0), "terminak").unwrap(),
    ];
    sort_matches(&mut matches);
    let paths: Vec<&str> = matches.iter().map(|found| found.path).collect();
    assert_eq!(paths, vec!["/d/terminak", "/b/terminal", "/a/terminal", "/c/terminal"]);
}

#[test]
fn scopes_have_names() {
    assert_eq!(MatchScope::Basename.label(), "basename");
    assert_eq!(MatchScope::BasenameToken.label(), "basename-token");
    assert_eq!(MatchScope::OtherComponent.label(), "component");
    assert_eq!(MatchScope::OtherComponentToken.label(), "component-token");
    assert_eq!(MatchScope::FullPath.label(), "path");
    assert!(MatchScope::Basename < MatchScope::FullPath);
}

#[test]
fn keywords_make_a_query() {
    assert_eq!(typo_query(&keywords(&["Foo", "BAR", "baz"])), Some("foo bar baz".to_string()));
    assert_eq!(typo_query(&keywords(&["One"])), Some("one".to_string()));
    assert_eq!(typo_query(&keywords(&[])), None);
    assert_eq!(typo_query(&keywords(&["foo", ""])), None);
    assert_eq!(
        query_from_keywords(&keywords(&["\u{c9}t\u{c9}", "x"])),
        Some("\u{e9}t\u{e9} x".to_string())
    );
}

#[test]
fn path_module_tells_how_keywords_stand() {
    assert_eq!(
        match_qualities("/home/lewis/tasks/config", &keywords(&["tasks", "onfig"])),
        Some(vec![MatchQuality::Suffix, MatchQuality::Exact])
    );
}
