//! Compact and tabular listings of email envelopes.
pub mod codes;
pub mod command;
pub mod context;
pub mod envelope;
pub mod keywords;
pub mod laws;
pub mod links;
pub mod mini;
pub mod quoted;
pub mod rank;
pub mod snippet;
pub mod table;
pub mod text;
