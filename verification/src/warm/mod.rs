//! A site built from a tree of documents.

pub mod ambiguous;
pub mod assemble;
pub mod backlinks;
pub mod document;
pub mod interlink;
pub mod output;
pub mod relative;
pub mod render;
pub mod site;
pub mod state;
pub mod tree;
pub mod unresolved;
pub mod whole;

pub use relative::relativise_path;
pub use site::Environment;
pub use tree::{Content, Directory, File, PathStuff};
