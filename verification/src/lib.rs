//! A verified read-only index over a hierarchical decimal classification
//! scheme.
//!
//! Classification records are identified by short numeric codes arranged in a
//! tree. From an externally supplied source forest the crate builds an
//! immutable prefix-trie index and answers exact lookups, prefix searches and
//! parent/child navigation over the code hierarchy.

pub mod builder;
pub mod codes;
pub mod engine;
pub mod laws;
pub mod records;
pub mod store;

pub use builder::BuildFailure;
pub use codes::InvalidCodeFormat;
pub use engine::Dewey;
pub use records::Class;
pub use records::SourceNode;
