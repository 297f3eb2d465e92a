use std::cmp::Ordering;

use fuzzy_rank::distance::{bounded_damerau_levenshtein, max_typos, OperationProfile};
use fuzzy_rank::ranking::{
    compare_path_typo_sort_keys, compare_search_results, compare_typo_sort_keys,
    path_typo_keys_are_ambiguous, ratio_milli, typo_keys_are_ambiguous, DistanceRank,
    PathTypoSortKey, SearchRank, StructuralRank, TypoSortKey,
};
use fuzzy_rank::score::{Ratio, Score};
use fuzzy_rank::text::{
    has_query_signal, normalize_compact_alnum, separator_variants, split_path_tokens,
    split_search_tokens, split_whitespace_tokens, token_has_signal,
};
use fuzzy_rank::token_match::{
    aligned_token_distance, best_token_match, partitioned_token_distance, PositionedToken,
};

fn score(value: f64) -> Score {
    Score::from_bits(value.to_bits())
}

fn profile(substitutions: usize, insert_delete: usize, transpositions: usize) -> OperationProfile {
    OperationProfile { substitutions, insert_delete, transpositions }
}

#[test]
fn distances_count_each_kind_of_edit() {
    assert_eq!(bounded_damerau_levenshtein("abc", "abc", 0), Some((0, profile(0, 0, 0))));
    assert_eq!(bounded_damerau_levenshtein("abc", "axc", 1), Some((1, profile(1, 0, 0))));
    assert_eq!(bounded_damerau_levenshtein("abc", "abcd", 1), Some((1, profile(0, 1, 0))));
    assert_eq!(bounded_damerau_levenshtein("abc", "acb", 1), Some((1, profile(0, 0, 1))));
    assert_eq!(bounded_damerau_levenshtein("kitten", "sitting", 3), Some((3, profile(2, 1, 0))));
    assert_eq!(bounded_damerau_levenshtein("", "abc", 3), Some((3, profile(0, 3, 0))));
    assert_eq!(bounded_damerau_levenshtein("\u{e9}a", "a\u{e9}", 1), Some((1, profile(0, 0, 1))));
}

#[test]
fn distances_over_the_limit_are_none() {
    assert_eq!(bounded_damerau_levenshtein("kitten", "sitting", 2), None);
    assert_eq!(bounded_damerau_levenshtein("", "abc", 2), None);
    assert_eq!(bounded_damerau_levenshtein("abc", "xyz", 0), None);
}

#[test]
fn distance_does_not_edit_a_part_twice() {
    assert_eq!(bounded_damerau_levenshtein("ca", "abc", 3).unwrap().0, 3);
}

#[test]
fn distance_is_symmetric_and_zero_only_for_the_same() {
    for (left, right) in [("abcd", "badc"), ("git", "gist"), ("", "x"), ("same", "same")] {
        let there = bounded_damerau_levenshtein(left, right, 9);
        assert_eq!(there, bounded_damerau_levenshtein(right, left, 9));
        assert_eq!(there.unwrap().0 == 0, left == right);
    }
}

#[test]
fn profiles_add_up_and_rank() {
    assert_eq!(profile(1, 2, 3).total(), 6);
    assert_eq!(profile(1, 2, 3).with_insert_delete(), profile(1, 3, 3));
    assert!(profile(0, 9, 9).ranks_before(&profile(1, 0, 0)));
    assert!(profile(1, 0, 9).ranks_before(&profile(1, 1, 0)));
    assert!(profile(1, 1, 0).ranks_before(&profile(1, 1, 1)));
    assert_eq!(OperationProfile::default(), profile(0, 0, 0));
}

#[test]
fn half_the_length_may_be_mistyped() {
    assert_eq!(max_typos(0), 0);
    assert_eq!(max_typos(5), 2);
    assert_eq!(max_typos(16), 8);
}

#[test]
fn lower_case_is_taken_of_every_letter() {
    assert_eq!(fuzzy_rank::text::to_lowercase("ABC xyz 12"), "abc xyz 12");
    assert_eq!(fuzzy_rank::text::to_lowercase("\u{c9}\u{c7}A"), "\u{e9}\u{e7}a");
}

#[test]
fn variants_hold_one_space() {
    assert_eq!(separator_variants("abc"), vec!["a bc", "ab c"]);
    assert_eq!(separator_variants("\u{e9}b"), vec!["\u{e9} b"]);
    assert!(separator_variants("a").is_empty());
    assert!(separator_variants("").is_empty());
}

#[test]
fn tokens_are_what_separators_leave() {
    assert_eq!(split_whitespace_tokens(" a  b\tc\u{3000}d "), vec!["a", "b", "c", "d"]);
    assert_eq!(split_search_tokens("foo-bar_\u{e9}t1, x"), vec!["foo", "bar", "\u{e9}t1", "x"]);
    assert_eq!(split_path_tokens("/a-b_c.d\\e f"), vec!["a", "b", "c", "d", "e", "f"]);
    assert_eq!(split_path_tokens("a+b"), vec!["a+b"]);
    assert!(split_search_tokens("--").is_empty());
}

#[test]
fn signals_need_shared_characters() {
    assert!(!token_has_signal("", "abc"));
    assert!(token_has_signal("a", "cab"));
    assert!(!token_has_signal("a", "xyz"));
    assert!(token_has_signal("axy", "a"));
    assert!(!token_has_signal("wxyz", "w"));
    assert!(token_has_signal("wxyz", "x"));
    assert!(has_query_signal(&["zz", "ab"], "b"));
    assert!(!has_query_signal(&["zz", "ab"], "c"));
    assert!(!has_query_signal(&[], "c"));
}

#[test]
fn compact_text_keeps_letters_and_digits() {
    assert_eq!(normalize_compact_alnum("  Foo-Bar 12! "), "foobar12");
    assert_eq!(normalize_compact_alnum("\u{c9}-\u{3a3}"), "\u{e9}\u{3c3}");
    assert_eq!(normalize_compact_alnum(" - "), "");
}

#[test]
fn best_part_of_a_token_wins() {
    assert_eq!(best_token_match("abc", "abc", 1), Some((0, 0, 0, 3, profile(0, 0, 0))));
    assert_eq!(best_token_match("abc", "xxabc", 1), Some((0, 2, 1, 3, profile(0, 0, 0))));
    assert_eq!(best_token_match("abc", "xabcx", 1), Some((0, 2, 2, 3, profile(0, 0, 0))));
    assert_eq!(best_token_match("abc", "xyz", 1), None);
    assert_eq!(best_token_match("", "xyz", 1), None);
    assert_eq!(best_token_match("abc", "", 3), None);
}

#[test]
fn best_run_of_tokens_wins() {
    let placed = |token, position| PositionedToken { token, position };
    let tokens = [placed("run", 0), placed("git", 3), placed("status", 6)];
    assert_eq!(
        aligned_token_distance(&["git", "staus"], &tokens, 2),
        Some((1, 9, 0, profile(0, 1, 0)))
    );
    assert_eq!(aligned_token_distance(&["git", "zzz"], &tokens, 2), None);
    assert_eq!(aligned_token_distance(&["a", "b", "c", "d"], &tokens, 9), None);
}

#[test]
fn best_cut_of_a_token_wins() {
    assert_eq!(
        partitioned_token_distance(&["app", "laun"], "applicationlauncher", 2),
        Some((0, 12, 0, profile(0, 0, 0)))
    );
    assert_eq!(partitioned_token_distance(&["git", "x"], "gi", 0), None);
    assert_eq!(partitioned_token_distance(&["a", "b", "c"], "ab", 3), None);
}

#[test]
fn scores_are_ordered_as_doubles_are() {
    let values = [-1.5, -0.0, 0.0, 0.25, 1.0, 1.0e9];
    for pair in values.windows(2) {
        assert!(score(pair[1]).exceeds(&score(pair[0])));
        assert!(!score(pair[0]).exceeds(&score(pair[1])));
    }
    assert!(!score(1.0).exceeds(&score(1.0)));
    assert_eq!(f64::from_bits(score(2.5).to_bits()), 2.5);
}

#[test]
fn scores_are_equal_as_doubles_are() {
    let values = [-1.5, -0.0, 0.0, 0.25, f64::INFINITY, f64::NEG_INFINITY, f64::NAN, -f64::NAN];
    for left in values {
        for right in values {
            assert_eq!(score(left) == score(right), left == right);
        }
    }
}

#[test]
fn white_space_is_what_has_the_property() {
    for c in '\0'..=char::MAX {
        let listed = matches!(
            c,
            '\t'..='\r' | ' ' | '\u{85}' | '\u{a0}' | '\u{1680}' | '\u{2000}'..='\u{200a}'
                | '\u{2028}' | '\u{2029}' | '\u{202f}' | '\u{205f}' | '\u{3000}'
        );
        let text: String = ['a', c, 'b'].into_iter().collect();
        assert_eq!(split_whitespace_tokens(&text).len(), if listed { 2 } else { 1 });
    }
}

#[test]
fn ratios_are_compared_exactly() {
    assert_eq!(Ratio { numerator: 1, denominator: 2 }, Ratio { numerator: 2, denominator: 4 });
    assert_ne!(Ratio { numerator: 1, denominator: 2 }, Ratio { numerator: 1, denominator: 3 });
    assert!(!Ratio { numerator: 1, denominator: 2 }.is_over_half());
    assert!(Ratio { numerator: 3, denominator: 5 }.is_over_half());
    assert!(Ratio { numerator: 1, denominator: 5 }.is_at_most_a_fifth());
    assert!(!Ratio { numerator: 1, denominator: 4 }.is_at_most_a_fifth());
    assert_eq!(Ratio { numerator: 3, denominator: 7 }.whole_of(3), 7);
    assert_eq!(Ratio { numerator: 0, denominator: 7 }.whole_of(0), 1);
}

#[test]
fn ratios_in_thousandths_are_rounded_down() {
    assert_eq!(ratio_milli(1, 3), 333);
    assert_eq!(ratio_milli(2, 3), 666);
    assert_eq!(ratio_milli(0, 0), 0);
    assert_eq!(ratio_milli(5, 5), 1000);
}

fn typo_key(distance: usize, position: usize, structure: usize, value: f64) -> TypoSortKey<'static> {
    TypoSortKey {
        distance,
        operations: profile(0, distance, 0),
        ratio_milli: 100,
        position,
        structure,
        score: score(value),
        secondary: 2,
        key: "k",
    }
}

#[test]
fn typo_keys_rank_structure_before_score() {
    let left = typo_key(1, 0, 0, 1.0);
    assert_eq!(compare_typo_sort_keys(&left, &typo_key(2, 0, 0, 9.0)), Ordering::Less);
    assert_eq!(compare_typo_sort_keys(&left, &typo_key(1, 1, 0, 9.0)), Ordering::Less);
    assert_eq!(compare_typo_sort_keys(&left, &typo_key(1, 0, 1, 9.0)), Ordering::Less);
    assert_eq!(compare_typo_sort_keys(&left, &typo_key(1, 0, 0, 9.0)), Ordering::Greater);
    assert_eq!(compare_typo_sort_keys(&left, &left), Ordering::Equal);
    let other = TypoSortKey { secondary: 3, key: "j", ..left };
    assert_eq!(compare_typo_sort_keys(&left, &other), Ordering::Less);
    assert!(typo_keys_are_ambiguous(&left, &other));
    assert!(!typo_keys_are_ambiguous(&left, &typo_key(1, 0, 1, 1.0)));
}

#[test]
fn path_typo_keys_rank_score_before_structure() {
    let left = PathTypoSortKey {
        distance: 1,
        operations: profile(0, 1, 0),
        ratio_milli: 100,
        scope: 0u8,
        position: 0,
        structure: 5,
        score: score(2.0),
        path_depth: 4,
        key: "/a",
    };
    let lower_score = PathTypoSortKey { score: score(1.0), structure: 0, ..left };
    assert_eq!(compare_path_typo_sort_keys(&left, &lower_score), Ordering::Less);
    let deeper = PathTypoSortKey { path_depth: 5, scope: 3u8, ..left };
    assert_eq!(compare_path_typo_sort_keys(&left, &deeper), Ordering::Less);
    assert!(path_typo_keys_are_ambiguous(&left, &deeper));
    assert!(!path_typo_keys_are_ambiguous(&left, &lower_score));
    let operations = PathTypoSortKey { operations: profile(1, 0, 0), ..left };
    assert_eq!(compare_path_typo_sort_keys(&left, &operations), Ordering::Less);
    let other_scope = PathTypoSortKey { scope: 9u8, ..left };
    assert_eq!(compare_path_typo_sort_keys(&left, &other_scope), Ordering::Equal);
}

#[test]
fn search_results_rank_by_kind_then_score_then_key() {
    let structure = SearchRank::Structure(StructuralRank {
        field_priority: 9,
        position_class: 5,
        token_index: 9,
        token_span_delta: 9,
        start_idx: 9,
        field_len: 9,
    });
    let distance = DistanceRank {
        distance: 0,
        ratio_milli: 0,
        field_priority: 0,
        variant_scope: 0,
        position_class: 0,
        token_index: 0,
        token_span_delta: 0,
        start_idx: 0,
        field_len: 0,
    };
    let fuzzy = SearchRank::Fuzzy(distance);
    let typo = SearchRank::Typo(distance);
    let (low, high) = (score(1.0), score(2.0));
    assert_eq!(compare_search_results(&structure, low, "b", &fuzzy, high, "a"), Ordering::Less);
    assert_eq!(compare_search_results(&fuzzy, low, "b", &typo, high, "a"), Ordering::Less);
    assert_eq!(compare_search_results(&typo, low, "a", &typo, high, "b"), Ordering::Greater);
    assert_eq!(compare_search_results(&typo, low, "a", &typo, low, "b"), Ordering::Less);
    assert_eq!(compare_search_results(&typo, low, "a", &typo, low, "a"), Ordering::Equal);
    assert!(structure.ranks_before(&fuzzy));
    let further = SearchRank::Typo(DistanceRank { distance: 1, ..distance });
    assert!(typo.ranks_before(&further));
}
