//! Matching of paths: of keywords that a path holds as they are, and of a query
//! that may be mistyped.

pub mod exact;
pub mod typo;

use vstd::prelude::*;

pub use crate::score::Score;
pub use exact::{match_path_position, match_penalty, match_qualities, MatchQuality};
pub use typo::{
    best_match, is_ambiguous, sort_matches, try_best_match, MatchScope, PathMatch, TypoQuery,
};

use typo::{keywords_query, query_from_keywords, text_found};

verus! {

/// The query that keywords make: the keywords in lower case with a space between
/// each two. `None` if there is no keyword or one is empty.
pub fn typo_query(keywords: &[String]) -> (query: Option<String>)
    ensures
        text_found(query) == keywords_query(keywords.deep_view()),
{
    query_from_keywords(keywords)
}

} // verus!
