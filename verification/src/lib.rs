//! Selection engine for machine-image identifiers.
//!
//! Candidate image names are tokenized into segments; a shared registry
//! assigns one bit per distinct segment, so every candidate carries a
//! bitmask describing the tags it holds.  Composable boolean filters over
//! those bitmasks then narrow each family of candidates to the newest,
//! correctly-qualified entry per target architecture.
pub mod errors;
pub mod filter;
pub mod text;
pub mod registry;
pub mod prefix;
pub mod candidate;
pub mod version;
pub mod pipeline;
