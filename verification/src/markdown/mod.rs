//! A small Markdown parser: block detection over lines, inline parsing over
//! characters, and the document builder that joins them.
pub mod ast;
pub mod inline;
pub mod block;
pub mod parser;
pub mod plain;
