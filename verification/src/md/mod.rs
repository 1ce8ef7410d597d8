//! Markdown parsing: a token tree modelled on markdownlint's micromark tree.

pub mod emphasis;
pub mod kind;
pub mod parser;
pub mod scan;
pub mod tokens;
