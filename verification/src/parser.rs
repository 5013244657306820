//! The parsing engine: document tree types, low-level text scanning,
//! and one recognizer per document construct.

pub mod parser;
pub mod scan;
pub mod sentence;
pub mod heading;
pub mod list;
pub mod table;
