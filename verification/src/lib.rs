//! A whitespace-normalizing source formatter for a small brace language.
//!
//! The pipeline has three stages: a [`tokenizer::Scanner`] turns raw text into
//! a flat sequence of typed tokens, a [`fmt::Formatter`] rewrites that
//! sequence into one with canonical spacing, newlines and indentation, and a
//! [`builder::Builder`] serializes the rewritten sequence back into text.
//! The [`laws`] module proves the properties that tie the stages together:
//! formatting preserves every non-whitespace token, keeps braces on line
//! edges, and is idempotent.

pub mod builder;
pub mod fmt;
pub mod laws;
pub mod tokenizer;
