//! The HTML renderer: a pure recursive mapping from the document tree
//! to an HTML fragment string.

pub mod convert;
