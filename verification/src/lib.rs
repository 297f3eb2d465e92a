//! Typo-tolerant matching and ranking of paths, commands, messages and records.
//!
//! Four adapters, [`path`], [`command`], [`message`] and [`metadata`], share one
//! edit-distance engine ([`distance`]), one token matcher ([`token_match`]), one
//! set of text helpers ([`text`]) and one set of ranking keys ([`ranking`]). What
//! holds of them as a whole stands in [`laws`] and beside what it is about.

pub mod command;
pub mod distance;
pub mod laws;
pub mod message;
pub mod metadata;
pub mod order;
pub mod path;
pub mod ranking;
pub mod score;
pub mod sort;
pub mod substring;
pub mod text;
pub mod token_match;
pub mod unicode;
