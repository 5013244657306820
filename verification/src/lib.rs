//! A verified parser and HTML renderer for a small Markdown dialect:
//! headings, emphasis runs, indentation-nested bulleted lists and
//! pipe-delimited tables.
//!
//! Every recognizer is specified by a total spec-level model over
//! sequences of characters; the executable functions are proved to
//! return exactly what the model says.

pub mod parser;
pub mod convert;
