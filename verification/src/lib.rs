//! bear-formatter — a formatter for Bear notes.
//!
//! A pure `Markdown → Markdown` transform, like gofmt for notes:
//!
//! - [`engine`] — the formatting engine: [`engine::Formatter`], the
//!   [`engine::Rule`] trait, and the protected ranges rules leave alone.
//! - [`rules`] — the rule catalog ([`rules::all`]).
//! - [`bear`] — the notes a run works on.
//! - [`config`] — the user configuration.
//! - [`cli`] — the decisions the command line makes.

pub mod bear;
pub mod cli;
pub mod config;
pub mod engine;
pub mod lines;
pub mod rules;
pub mod scan;
pub mod text;
pub mod unicode;
