//! What holds of the library, said of what goes in and what comes out.

pub mod commands;
pub mod paths;
pub mod records;
pub mod sorting;
pub mod texts;
pub mod tokens;
