//! Knuth-Morris-Pratt substring search over sequences of arbitrary elements,
//! with element comparisons that may be fuzzy.

pub mod capability;
pub mod laws;
pub mod pattern;
pub mod search;
pub mod table;

pub use capability::{KmpMatchable, KmpSearchable};
pub use pattern::KmpPattern;
pub use search::KmpSearch;
pub use table::{kmp_table, KmpOwnedTable, KmpTable, KmpTableItem};
