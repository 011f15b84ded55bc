//! The site graph of a tree of documents: which document a reference between
//! them names, which documents point back at each one, and how to get from
//! one to another by a relative path.

pub mod environment;
pub mod error;
pub mod job;
pub mod markup;
pub mod path;
pub mod template;
pub mod text;
pub mod warm;
