//! fastmdlint — a Markdown linter compatible with markdownlint-cli.
//!
//! The verified core: a line-oriented Markdown block parser producing a
//! token tree, the text helpers it rests on, the rule engine's building
//! blocks, the auto-fix engine and the inline-configuration handling.

pub mod re;
pub mod rules;
pub mod text;
pub mod config;
pub mod fix;
pub mod laws;
pub mod linter;
pub mod md;
pub mod output;
