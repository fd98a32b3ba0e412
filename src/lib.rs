//! A weak-reference document model: a tree of instances kept in an arena
//! keyed by referent, the closed set of property values, and the codec of
//! the binary-string value kind over a stream of markup events.

pub mod codec;
pub mod dom;
pub mod font;
pub mod properties;
pub mod reflection;
pub mod referent;
pub mod variant;
