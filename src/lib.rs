//! Parsers behind a password picker: a tree-style listing of password
//! entries becomes a list of full entry paths, and the body of one entry
//! becomes a list of key/value fields.

pub mod fields;
pub mod listing;
pub mod select;
pub mod text;
