//! Citation lookup and grouping for a command-line bibliography helper.
//!
//! The library resolves user-typed citation style names to the canonical
//! identifiers of a remote citation service, builds the request URL for each
//! link the user supplies, and groups the citation records that come back by
//! style identifier, preserving the order in which they were encountered.

pub mod aggregate;
pub mod input;
pub mod render;
pub mod resolver;

pub use resolver::resolve_format;
