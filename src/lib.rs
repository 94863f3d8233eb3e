//! Named parameters for externally written SQL.
//!
//! A file of SQL is split into named statements at `-- name: <ident>`
//! annotations ([`extract::parse`]). Each `:name` parameter is classified as a
//! scalar or as a list parameter (one that is the sole content of the
//! parenthesis after `IN`); scalar placeholders are written into the
//! statement's template at once ([`classify`]). At run time
//! [`assemble::assemble`] turns a statement and the caller's bindings into the
//! final SQL text and the ordered argument sequence.
pub mod text;
pub mod lexer;
pub mod classify;
pub mod assemble;
pub mod extract;
