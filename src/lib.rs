//! Splits a delimited table into one table and one spreadsheet per category
//! value, with an optional filter on another field.
pub mod errors;
pub mod group;
pub mod records;
pub mod text;
pub mod transform;
pub mod utils;
