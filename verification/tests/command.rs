use std::cmp::Ordering;

use fuzzy_rank::command::{
    best_match, is_ambiguous, parse_command_candidate, sort_matches, try_best_match,
    CommandCandidate, CommandQuery,
};
use fuzzy_rank::distance::OperationProfile;
use fuzzy_rank::score::{Ratio, Score};

fn score(value: f64) -> Score {
    Score::from_bits(value.to_bits())
}

fn candidate<'a>(command: &'a str, tokens: &'a [&'a str], value: f64) -> CommandCandidate<'a> {
    CommandCandidate {
        command,
        tokens,
        score: score(value),
    }
}

#[test]
fn executable_typo_matches_first() {
    let matched = best_match(candidate("git status", &["git", "status"], 10.0), "gti").unwrap();
    assert_eq!(matched.distance, 1);
    assert_eq!(matched.position, 0);
}

#[test]
fn multi_token_query_matches_executable_and_argument() {
    let matched = best_match(
        candidate("git status", &["git", "status"], 10.0),
        "git staus",
    )
    .unwrap();
    assert_eq!(matched.distance, 1);
    assert_eq!(matched.position, 3);
}

#[test]
fn missing_space_query_can_match_command_sequence() {
    let matched = best_match(
        candidate("git status", &["git", "status"], 10.0),
        "gitstaus",
    )
    .unwrap();
    assert_eq!(matched.distance, 2);
}

#[test]
fn executable_match_beats_argument_only_match() {
    let mut matches = vec![
        best_match(candidate("cargo git", &["cargo", "git"], 100.0), "git").unwrap(),
        best_match(candidate("git status", &["git", "status"], 1.0), "git").unwrap(),
    ];
    sort_matches(&mut matches);
    assert_eq!(matches[0].candidate.command, "git status");
    assert!(matches[0].position < matches[1].position);
}

#[test]
fn lower_distance_beats_score() {
    let mut matches = vec![
        best_match(candidate("git status", &["git", "status"], 1.0), "gti").unwrap(),
        best_match(candidate("gist status", &["gist", "status"], 100.0), "gti").unwrap(),
    ];
    sort_matches(&mut matches);
    assert_eq!(matches[0].candidate.command, "git status");
}

#[test]
fn score_breaks_equal_ties() {
    let mut matches = vec![
        best_match(candidate("git status", &["git", "status"], 1.0), "gti").unwrap(),
        best_match(candidate("git stash", &["git", "stash"], 100.0), "gti").unwrap(),
    ];
    sort_matches(&mut matches);
    assert_eq!(matches[0].candidate.command, "git stash");
}

#[test]
fn command_match_holds_what_was_asked_about() {
    let matched = best_match(candidate("git status", &["git", "status"], 10.0), "gti").unwrap();
    assert_eq!(matched.candidate.command, "git status");
    assert_eq!(matched.candidate.tokens, &["git", "status"]);
    assert_eq!(matched.candidate.score, score(10.0));
    assert_eq!(matched.ratio, Ratio { numerator: 1, denominator: 3 });
    assert_eq!(matched.structure, 0);
    assert_eq!(matched.token_count, 2);
    assert_eq!(
        matched.operations,
        OperationProfile {
            substitutions: 0,
            insert_delete: 0,
            transpositions: 1
        }
    );
}

#[test]
fn token_in_lower_case_matches_itself_without_an_edit() {
    let matched = best_match(candidate("Cargo BUILD", &["Cargo", "BUILD"], 0.0), "build").unwrap();
    assert_eq!(matched.distance, 0);
    assert_eq!(matched.position, 3);
}

#[test]
fn query_is_trimmed_and_put_in_lower_case() {
    let matched = best_match(candidate("git", &["git"], 0.0), "  GIT\u{3000}").unwrap();
    assert_eq!(matched.distance, 0);
    assert!(CommandQuery::new("  g ").is_none());
    assert!(CommandQuery::new("").is_none());
    assert!(CommandQuery::new("gi").is_some());
}

#[test]
fn query_tokens_can_match_parts_of_one_token() {
    let matched = best_match(candidate("run gitstatus", &["run", "gitstatus"], 0.0), "git stat");
    let matched = matched.unwrap();
    assert_eq!(matched.distance, 0);
    assert_eq!(matched.position, 6);
    assert_eq!(matched.structure, 2);
}

#[test]
fn command_without_tokens_does_not_match() {
    assert!(best_match(candidate("git", &[], 0.0), "git").is_none());
}

#[test]
fn command_without_a_signal_does_not_match() {
    assert!(best_match(candidate("zzzz", &["git"], 0.0), "git").is_none());
}

#[test]
fn parsed_command_is_divided_at_white_space() {
    let parsed = parse_command_candidate("  git \t status\u{2003}-s ", score(2.0));
    let whole = parsed.as_candidate();
    assert_eq!(whole.command, "  git \t status\u{2003}-s ");
    assert_eq!(whole.tokens, &["git", "status", "-s"]);
    assert_eq!(whole.score, score(2.0));
}

#[test]
fn prepared_command_query_matches_as_the_query_does() {
    let query = CommandQuery::new("gitstaus").unwrap();
    let matched = query
        .best_match(candidate("git status", &["git", "status"], 10.0))
        .unwrap();
    assert_eq!(matched.distance, 2);
    let again = best_match(candidate("git status", &["git", "status"], 10.0), "gitstaus").unwrap();
    assert_eq!(matched.compare(&again), Ordering::Equal);
}

#[test]
fn checked_command_match_answers_as_the_match_does() {
    let answer = try_best_match(candidate("git status", &["git", "status"], 10.0), "gti");
    assert_eq!(answer.unwrap().unwrap().distance, 1);
    let answer = try_best_match(candidate("git status", &["git", "status"], 10.0), "g");
    assert!(answer.unwrap().is_none());
}

#[test]
fn fewer_tokens_then_the_text_break_the_last_ties() {
    let long = best_match(candidate("git a b", &["git", "a", "b"], 1.0), "gti").unwrap();
    let short = best_match(candidate("git z", &["git", "z"], 1.0), "gti").unwrap();
    let other = best_match(candidate("git y", &["git", "y"], 1.0), "gti").unwrap();
    assert!(is_ambiguous(&long, &short));
    assert_eq!(short.compare(&long), Ordering::Less);
    assert_eq!(other.compare(&short), Ordering::Less);
    let scored = best_match(candidate("git z", &["git", "z"], 2.0), "gti").unwrap();
    assert!(!is_ambiguous(&short, &scored));
    let mut matches = vec![long, short, other, scored];
    sort_matches(&mut matches);
    let commands: Vec<&str> = matches.iter().map(|found| found.candidate.command).collect();
    assert_eq!(commands, vec!["git z", "git y", "git z", "git a b"]);
}
