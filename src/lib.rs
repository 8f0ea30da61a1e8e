//! Display formatting for a music library: byte-bounded truncation of text,
//! composition of several fields into one bounded label, column-width
//! allocation, fixed-width table rendering, pagination and candidate
//! filtering for autocomplete.

pub mod text;
pub mod compose;
pub mod columns;
pub mod table;
pub mod pages;
pub mod order;
pub mod fuzzy;
pub mod link;
pub mod listing;
pub mod track;
