//! Finds Python virtual-environment directories (`.venv`) in a directory tree.
//!
//! The walk itself is a state machine ([`scanner::Scanner`]) that is fed the
//! listing of each directory it asks for; [`model`] holds the mathematical
//! description of a tree and of what a complete walk over it yields, together
//! with the laws that the walk obeys.
use vstd::prelude::*;

pub mod collection;
pub mod model;
pub mod scanner;

pub use collection::{megabytes, VenvCollection, VenvDir};
pub use scanner::{platform_reserved_names, DirEntryInfo, Scanner};
