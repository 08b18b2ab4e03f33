//! Substitution of `{{NAME}}` placeholders in text by the values of named variables.
//!
//! - `tokens`: the token grammar and the extraction of the token names of a text.
//! - `vars`: the mapping from variable names to values, built from (name, value) pairs.
//! - `substitute`: the replacement of known tokens by their values, and its laws.
//! - `run`: the decisions of a run over files, its errors and their messages.
pub mod run;
pub mod substitute;
pub mod tokens;
pub mod vars;
