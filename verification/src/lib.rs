//! Parsing and editing of `.tool-versions` files, the format that asdf and
//! compatible version managers read.
use vstd::prelude::*;

pub mod conversions;
pub mod errors;
pub mod laws;
pub mod model;
pub mod text;
pub mod tool_versions;

pub use conversions::IntoToolPairs;
pub use errors::Error;
pub use tool_versions::{ToolEntry, ToolVersions};

verus! {

/// The result type of this library.
pub type Result<T> = std::result::Result<T, Error>;

} // verus!
