use std::cmp::Ordering;

use fuzzy_rank::path::exact::{
    compare_exact_path_matches, exact_match, exact_match_with, match_path_position,
    match_path_position_with, match_penalty, match_penalty_with, match_qualities,
    match_qualities_with, try_exact_match, try_match_path_position, try_match_penalty,
    ExactPathMatch, MatchQuality, PathSeparators,
};
use fuzzy_rank::score::Score;

fn score(value: f64) -> Score {
    Score::from_bits(value.to_bits())
}

fn keywords(words: &[&str]) -> Vec<String> {
    words.iter().map(|word| word.to_string()).collect()
}

#[test]
fn exact_match_penalty_sums_token_positions() {
    let keywords = keywords(&["asks", "onfig"]);
    assert_eq!(
        match_penalty("/home/lewis/tasks/config", &keywords),
        Some(2)
    );
}

#[test]
fn exact_match_path_position_prefers_basename_over_parent_components() {
    let keywords = keywords(&["ap", "laun"]);
    assert_eq!(
        match_path_position("/home/lewis/Dev/applicationlauncher", &keywords),
        Some(2)
    );
    assert_eq!(
        match_path_position(
            "/home/lewis/Dev/applicationlauncher/target/release",
            &keywords
        ),
        None
    );
}

#[test]
fn compare_exact_path_matches_prefers_score_then_position_then_structure() {
    let keywords = keywords(&["tasks", "onfig"]);
    let lower_structure = exact_match("/home/lewis/tasks/config", &keywords, score(10.0)).unwrap();
    let higher_structure = exact_match(
        "/home/lewis/tasks/redragonmouseconfig",
        &keywords,
        score(10.0),
    )
    .unwrap();
    let higher_score = exact_match("/home/lewis/tasks/config", &keywords, score(20.0)).unwrap();

    assert_eq!(
        compare_exact_path_matches(higher_score, lower_structure),
        Ordering::Less
    );
    assert_eq!(
        compare_exact_path_matches(lower_structure, higher_structure),
        Ordering::Less
    );
}

#[test]
fn no_keywords_match_any_path() {
    let none = keywords(&[]);
    assert_eq!(match_penalty("/a/b", &none), Some(0));
    assert_eq!(match_path_position("/a/b", &none), Some(0));
    assert_eq!(match_qualities("/a/b", &none), Some(vec![]));
}

#[test]
fn qualities_come_last_keyword_first() {
    let words = keywords(&["home", "ew", "asks", "con", "fig"]);
    assert_eq!(
        match_qualities("/home/lewis/tasks/config", &words),
        Some(vec![
            MatchQuality::Suffix,
            MatchQuality::Exact,
            MatchQuality::Suffix,
            MatchQuality::Contains,
            MatchQuality::Exact,
        ])
    );
    assert_eq!(
        match_qualities("/home/lewis/config", &keywords(&["conf"])),
        Some(vec![MatchQuality::Prefix])
    );
    assert!(MatchQuality::Contains < MatchQuality::Suffix);
    assert!(MatchQuality::Prefix < MatchQuality::Exact);
}

#[test]
fn positions_count_components_in_steps_of_three() {
    assert_eq!(match_path_position("/a/b/c", &keywords(&["a", "c"])), Some(6));
    assert_eq!(match_path_position("/a/xb/cy", &keywords(&["b", "y"])), Some(5));
    assert_eq!(match_path_position("/abc", &keywords(&["b"])), Some(2));
}

#[test]
fn penalties_count_bytes() {
    assert_eq!(match_penalty("/\u{e9}tab", &keywords(&["tab"])), Some(2));
    assert_eq!(match_penalty("/tab\u{e9}", &keywords(&["tab"])), Some(2));
    assert_eq!(match_penalty("/a\u{3000}tab", &keywords(&["ab"])), Some(3));
}

#[test]
fn paths_are_matched_in_lower_case() {
    assert_eq!(match_penalty("/HOME/Config", &keywords(&["config"])), Some(0));
    assert_eq!(match_penalty("/HOME/Config", &keywords(&["Config"])), None);
}

#[test]
fn keywords_must_stand_in_order_and_end_in_the_basename() {
    assert_eq!(match_penalty("/home/tasks/config", &keywords(&["config", "tasks"])), None);
    assert_eq!(match_penalty("/home/tasks/config", &keywords(&["tasks"])), None);
    assert_eq!(match_penalty("/home/tasks/", &keywords(&["tasks"])), None);
    assert_eq!(match_qualities("/home/tasks/", &keywords(&["tasks"])), None);
}

#[test]
fn empty_keyword_stands_at_the_end() {
    assert_eq!(match_penalty("/home/tasks", &keywords(&[""])), Some(5));
    assert_eq!(match_path_position("/home/tasks", &keywords(&[""])), Some(1));
}

const SLASH: PathSeparators = PathSeparators { slash: true, backslash: false };
const BACKSLASH: PathSeparators = PathSeparators { slash: false, backslash: true };
const BOTH: PathSeparators = PathSeparators { slash: true, backslash: true };

#[test]
fn components_are_divided_by_what_the_platform_says() {
    let words = keywords(&["tasks"]);
    for separators in [BACKSLASH, BOTH] {
        assert_eq!(match_qualities_with("c:\\tasks\\x", &words, separators), None);
        assert_eq!(match_path_position_with("c:\\tasks\\x", &words, separators), None);
        assert_eq!(match_penalty_with("c:\\tasks\\x", &words, separators), None);
    }
    assert_eq!(
        match_qualities_with("c:\\tasks\\x", &words, SLASH),
        Some(vec![MatchQuality::Exact])
    );
    assert_eq!(match_path_position_with("c:\\tasks\\x", &words, SLASH), Some(0));
    assert_eq!(match_penalty_with("c:\\tasks\\x", &words, SLASH), Some(0));
    let both = keywords(&["c:", "x"]);
    assert_eq!(match_path_position_with("c:\\tasks\\x", &both, BOTH), Some(6));
    let found = exact_match_with("c:\\tasks\\x", &both, score(1.0), BOTH).unwrap();
    assert_eq!((found.position, found.structure), (6, 0));
}

#[test]
fn slash_does_not_divide_where_only_the_backslash_does() {
    let words = keywords(&["tasks"]);
    assert_eq!(match_penalty_with("/home/tasks/x", &words, BACKSLASH), Some(0));
    assert_eq!(match_path_position_with("/home/tasks/x", &words, BACKSLASH), Some(0));
    assert_eq!(match_penalty_with("/home/tasks/x", &words, SLASH), None);
    assert_eq!(match_path_position_with("/home/tasks/x", &words, BOTH), None);
}

#[test]
fn platform_is_asked_about_both_characters() {
    let asked = PathSeparators::of_platform();
    assert_eq!(asked.slash, std::path::is_separator('/'));
    assert_eq!(asked.backslash, std::path::is_separator('\\'));
    for path in ["/home/tasks/x", "c:\\tasks\\x", "a/tasks\\x", "tasks"] {
        let words = keywords(&["tasks"]);
        assert_eq!(match_penalty(path, &words), match_penalty_with(path, &words, asked));
        assert_eq!(
            match_path_position(path, &words),
            match_path_position_with(path, &words, asked)
        );
        assert_eq!(match_qualities(path, &words), match_qualities_with(path, &words, asked));
        assert_eq!(
            exact_match(path, &words, score(1.0)),
            exact_match_with(path, &words, score(1.0), asked)
        );
    }
}

#[test]
fn exact_matches_are_equal_as_their_scores_are() {
    let found = |value| ExactPathMatch {
        path: "/a",
        score: score(value),
        position: 0,
        structure: 0,
    };
    assert_eq!(found(0.0), found(-0.0));
    assert_eq!(found(2.5), found(2.5));
    assert_ne!(found(2.5), found(-2.5));
    assert_ne!(found(f64::NAN), found(f64::NAN));
    assert_ne!(found(1.0), ExactPathMatch { path: "/b", ..found(1.0) });
    assert_ne!(found(1.0), ExactPathMatch { position: 1, ..found(1.0) });
    assert_ne!(found(1.0), ExactPathMatch { structure: 1, ..found(1.0) });
    assert_eq!(compare_exact_path_matches(found(0.0), found(-0.0)), Ordering::Less);
}

#[test]
fn exact_match_holds_both_measures() {
    let words = keywords(&["tasks", "onfig"]);
    let found = exact_match("/home/lewis/tasks/config", &words, score(4.0)).unwrap();
    assert_eq!(
        found,
        ExactPathMatch {
            path: "/home/lewis/tasks/config",
            score: score(4.0),
            position: 4,
            structure: 1,
        }
    );
    assert!(exact_match("/home/lewis/tasks/config", &keywords(&["nope"]), score(4.0)).is_none());
}

#[test]
fn checked_measures_answer_as_the_measures_do() {
    let words = keywords(&["asks", "onfig"]);
    let path = "/home/lewis/tasks/config";
    assert_eq!(try_match_penalty(path, &words), Some(Some(2)));
    assert_eq!(try_match_path_position(path, &words), Some(match_path_position(path, &words)));
    assert_eq!(try_exact_match(path, &words, score(1.0)), Some(exact_match(path, &words, score(1.0))));
    assert_eq!(try_match_penalty(path, &keywords(&["nope"])), Some(None));
}

#[test]
fn exact_order_ends_with_the_path() {
    let left = ExactPathMatch { path: "/a", score: score(1.0), position: 1, structure: 1 };
    let right = ExactPathMatch { path: "/b", score: score(1.0), position: 1, structure: 1 };
    assert_eq!(compare_exact_path_matches(left, right), Ordering::Less);
    assert_eq!(compare_exact_path_matches(right, left), Ordering::Greater);
    assert_eq!(compare_exact_path_matches(left, left), Ordering::Equal);
    let nearer = ExactPathMatch { path: "/z", score: score(1.0), position: 0, structure: 9 };
    assert_eq!(compare_exact_path_matches(nearer, left), Ordering::Less);
}
