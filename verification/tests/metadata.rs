use fuzzy_rank::metadata::{
    dedup_push_search_field, sort_matches, MetadataCandidate, MetadataMatch, MetadataQuery,
    SearchField,
};
use fuzzy_rank::ranking::{AbbreviationRank, DistanceRank, SearchRank, StructuralRank};
use fuzzy_rank::score::Score;

fn score(value: f64) -> Score {
    Score::from_bits(value.to_bits())
}

fn rank(query: &str, value: &str) -> Option<SearchRank> {
    let fields = [SearchField { priority: 3, value }];
    MetadataQuery::new(query).unwrap().search_rank(MetadataCandidate {
        key: "key",
        fields: &fields,
        score: score(0.0),
    })
}

fn typo_rank(query: &str, value: &str) -> Option<SearchRank> {
    let fields = [SearchField { priority: 3, value }];
    MetadataQuery::new(query)
        .unwrap()
        .with_typo_fallback(true)
        .search_rank(MetadataCandidate {
            key: "key",
            fields: &fields,
            score: score(0.0),
        })
}

#[test]
fn app_name_field_beats_exec_field() {
    let fields = [
        SearchField {
            priority: 0,
            value: "Application Launcher",
        },
        SearchField {
            priority: 1,
            value: "applauncher",
        },
    ];
    let candidate = MetadataCandidate {
        key: "applicationlauncher.desktop",
        fields: &fields,
        score: score(1.0),
    };
    let rank = MetadataQuery::new("app")
        .unwrap()
        .search_rank(candidate)
        .unwrap();
    match rank {
        SearchRank::Structure(rank) => assert_eq!(rank.field_priority, 0),
        _ => panic!("expected structural rank"),
    }
}

#[test]
fn typo_fallback_matches_collapsed_identifier() {
    let fields = [SearchField {
        priority: 0,
        value: "Application Launcher",
    }];
    let candidate = MetadataCandidate {
        key: "applicationlauncher.desktop",
        fields: &fields,
        score: score(1.0),
    };
    let rank = MetadataQuery::new("applaunch")
        .unwrap()
        .with_typo_fallback(true)
        .search_rank(candidate)
        .unwrap();
    match rank {
        SearchRank::Typo(rank) => {
            assert!(rank.distance <= 4);
            assert!(rank.variant_scope <= 2);
        }
        _ => panic!("expected typo rank"),
    }
}

#[test]
fn window_title_beats_class_when_both_match() {
    let fields = [
        SearchField {
            priority: 0,
            value: "CopyQ - Clipboard",
        },
        SearchField {
            priority: 1,
            value: "copyq",
        },
    ];
    let candidate = MetadataCandidate {
        key: "window:1",
        fields: &fields,
        score: score(1.0),
    };
    let rank = MetadataQuery::new("copyq")
        .unwrap()
        .search_rank(candidate)
        .unwrap();
    match rank {
        SearchRank::Structure(rank) => assert_eq!(rank.field_priority, 0),
        _ => panic!("expected structural rank"),
    }
}

#[test]
fn sort_uses_rank_then_score_then_key() {
    let fields = [SearchField {
        priority: 0,
        value: "git status",
    }];
    let a = MetadataCandidate {
        key: "a",
        fields: &fields,
        score: score(1.0),
    };
    let b = MetadataCandidate {
        key: "b",
        fields: &fields,
        score: score(2.0),
    };
    let mut matches = vec![
        (
            a,
            MetadataQuery::new("git").unwrap().search_rank(a).unwrap(),
        ),
        (
            b,
            MetadataQuery::new("git").unwrap().search_rank(b).unwrap(),
        ),
    ];
    sort_matches(&mut matches);
    assert_eq!(matches[0].0.key, "b");
}

#[test]
fn structural_ranks_are_exact() {
    let structure = |position_class, token_index, token_span_delta, start_idx, field_len| {
        Some(SearchRank::Structure(StructuralRank {
            field_priority: 3,
            position_class,
            token_index,
            token_span_delta,
            start_idx,
            field_len,
        }))
    };
    assert_eq!(rank("git status", " Git Status "), structure(0, 0, 0, 0, 10));
    assert_eq!(rank("status", "git status"), structure(1, 1, 0, 4, 10));
    assert_eq!(rank("gi", "git status"), structure(2, 0, 1, 0, 10));
    assert_eq!(rank("stat", "git status"), structure(3, 1, 2, 4, 10));
    assert_eq!(rank("tus", "git status"), structure(4, 1, 3, 7, 10));
    assert_eq!(rank("atu", "git status"), structure(5, 1, 3, 6, 10));
    assert_eq!(rank("it st", "git status"), structure(5, 0, 5, 1, 10));
}

#[test]
fn best_of_several_places_ranks() {
    match rank("ab", "xab ab") {
        Some(SearchRank::Structure(found)) => {
            assert_eq!(found.start_idx, 4);
            assert_eq!(found.position_class, 1);
        }
        _ => panic!("expected structural rank"),
    }
}

#[test]
fn places_do_not_overlap() {
    match rank("aa", "xaaa") {
        Some(SearchRank::Structure(found)) => assert_eq!(found.start_idx, 1),
        _ => panic!("expected structural rank"),
    }
}

#[test]
fn abbreviation_ranks_are_exact() {
    assert_eq!(
        rank("gts", "git status"),
        Some(SearchRank::Abbreviation(AbbreviationRank {
            field_priority: 3,
            variant_scope: 1,
            position_class: 2,
            token_index: 0,
            gap_span: 2,
            gap_count: 2,
            start_idx: 0,
            field_len: 10,
        }))
    );
    assert_eq!(
        rank("sts", "git status"),
        Some(SearchRank::Abbreviation(AbbreviationRank {
            field_priority: 3,
            variant_scope: 0,
            position_class: 0,
            token_index: 0,
            gap_span: 3,
            gap_count: 1,
            start_idx: 0,
            field_len: 6,
        }))
    );
}

#[test]
fn words_put_together_can_hold_the_query() {
    let found = rank("g-st", "git status");
    assert!(matches!(found, Some(SearchRank::Abbreviation(_))));
    match rank("tst", "git-status") {
        Some(SearchRank::Abbreviation(found)) => {
            assert_eq!(found.variant_scope, 1);
            assert_eq!(found.start_idx, 2);
        }
        _ => panic!("expected abbreviation rank"),
    }
}

#[test]
fn fuzzy_ranks_are_exact() {
    assert_eq!(
        rank("stauts", "git status"),
        Some(SearchRank::Fuzzy(DistanceRank {
            distance: 1,
            ratio_milli: 100,
            field_priority: 3,
            variant_scope: 0,
            position_class: 1,
            token_index: 1,
            token_span_delta: 0,
            start_idx: 4,
            field_len: 10,
        }))
    );
}

#[test]
fn typo_ranks_are_exact() {
    assert_eq!(
        typo_rank("gti", "git status"),
        Some(SearchRank::Typo(DistanceRank {
            distance: 1,
            ratio_milli: 100,
            field_priority: 3,
            variant_scope: 0,
            position_class: 1,
            token_index: 0,
            token_span_delta: 0,
            start_idx: 0,
            field_len: 10,
        }))
    );
    match typo_rank("git", "git status") {
        Some(SearchRank::Typo(found)) => assert_eq!(found.distance, 0),
        _ => panic!("expected typo rank"),
    }
}

#[test]
fn collapsed_words_are_compared_when_the_query_is_one_word() {
    match typo_rank("abcdefgh", "abcd-efgh") {
        Some(SearchRank::Typo(found)) => {
            assert_eq!(found.distance, 0);
            assert_eq!(found.variant_scope, 2);
            assert_eq!(found.ratio_milli, 0);
            assert_eq!(found.position_class, 0);
        }
        _ => panic!("expected typo rank"),
    }
    match typo_rank("abcd efgh", "abcd-efgh") {
        Some(SearchRank::Typo(found)) => {
            assert_eq!(found.distance, 1);
            assert_eq!(found.variant_scope, 0);
        }
        _ => panic!("expected typo rank"),
    }
}

#[test]
fn record_without_a_match_has_no_rank() {
    assert!(rank("xyz", "git").is_none());
    assert!(typo_rank("xyz", "git").is_none());
    assert!(rank("git", "   ").is_none());
    assert!(rank("git", "").is_none());
}

#[test]
fn lower_priority_number_wins_among_fields() {
    let fields = [
        SearchField { priority: 2, value: "git" },
        SearchField { priority: 1, value: "the git tool" },
    ];
    let candidate = MetadataCandidate { key: "k", fields: &fields, score: score(0.0) };
    match MetadataQuery::new("git").unwrap().search_rank(candidate) {
        Some(SearchRank::Structure(found)) => assert_eq!(found.field_priority, 1),
        _ => panic!("expected structural rank"),
    }
}

#[test]
fn query_must_leave_something_when_trimmed() {
    assert!(MetadataQuery::new("").is_none());
    assert!(MetadataQuery::new(" \t\u{3000}").is_none());
    assert!(MetadataQuery::new(" a ").is_some());
}

#[test]
fn checked_rank_answers_as_the_rank_does() {
    let fields = [SearchField { priority: 3, value: "git status" }];
    let candidate = MetadataCandidate { key: "k", fields: &fields, score: score(0.0) };
    for query in ["git", "gts", "stauts", "xyz"] {
        let prepared = MetadataQuery::new(query).unwrap();
        assert_eq!(prepared.try_search_rank(candidate), Some(prepared.search_rank(candidate)));
    }
    let prepared = MetadataQuery::new("gti").unwrap().with_typo_fallback(true);
    assert_eq!(prepared.try_search_rank(candidate), Some(prepared.search_rank(candidate)));
}

#[test]
fn rank_inside_a_wide_character_is_not_defined() {
    let fields = [SearchField { priority: 0, value: "\u{e9}axb" }];
    let candidate = MetadataCandidate { key: "k", fields: &fields, score: score(0.0) };
    let query = MetadataQuery::new("ab").unwrap();
    assert_eq!(query.try_search_rank(candidate), None);
    let literal = MetadataQuery::new("axb").unwrap();
    assert!(literal.try_search_rank(candidate).unwrap().is_some());
}

#[test]
fn fields_in_wide_characters_rank() {
    match rank("\u{c9}T\u{c9}", "un \u{e9}t\u{e9}") {
        Some(SearchRank::Structure(found)) => {
            assert_eq!(found.start_idx, 3);
            assert_eq!(found.position_class, 1);
            assert_eq!(found.field_len, 6);
        }
        _ => panic!("expected structural rank"),
    }
}

#[test]
fn fields_are_added_once() {
    let mut fields = Vec::new();
    dedup_push_search_field(&mut fields, 0, Some("  Firefox "));
    dedup_push_search_field(&mut fields, 0, Some("FIREFOX"));
    dedup_push_search_field(&mut fields, 1, Some("firefox"));
    dedup_push_search_field(&mut fields, 0, Some("   "));
    dedup_push_search_field(&mut fields, 0, None);
    dedup_push_search_field(&mut fields, 0, Some("\u{c9}t\u{e9}"));
    dedup_push_search_field(&mut fields, 0, Some("\u{e9}t\u{e9}"));
    let listed: Vec<(u8, &str)> = fields.iter().map(|field| (field.priority, field.value)).collect();
    assert_eq!(
        listed,
        vec![(0, "Firefox"), (1, "firefox"), (0, "\u{c9}t\u{e9}"), (0, "\u{e9}t\u{e9}")]
    );
}

#[test]
fn kinds_of_rank_sort_in_their_order() {
    let fields = [SearchField { priority: 3, value: "git status" }];
    let named = |key| MetadataCandidate { key, fields: &fields, score: score(0.0) };
    let found = |query: &str, key| (named(key), MetadataQuery::new(query).unwrap().search_rank(named(key)).unwrap());
    let typo = MetadataQuery::new("git").unwrap().with_typo_fallback(true);
    let mut matches = vec![
        (named("typo"), typo.search_rank(named("typo")).unwrap()),
        found("stauts", "fuzzy"),
        found("sts", "abbreviation"),
        found("git", "structure-b"),
        found("git", "structure-a"),
    ];
    sort_matches(&mut matches);
    let keys: Vec<&str> = matches.iter().map(|(candidate, _)| candidate.key).collect();
    assert_eq!(keys, vec!["structure-a", "structure-b", "abbreviation", "fuzzy", "typo"]);
    let first = MetadataMatch { candidate: matches[0].0, rank: &matches[0].1 };
    assert_eq!(first.candidate.key, "structure-a");
    assert!(matches!(first.rank, SearchRank::Structure(_)));
}
