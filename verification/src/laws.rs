//! What the parts of the library promise, in terms of plain characters and
//! numbers.
pub mod code_rules;
pub mod contexts;
pub mod escapes;
pub mod link_choice;
pub mod link_rules;
pub mod listings;
pub mod snippets;
pub mod tables;
pub mod texts;
