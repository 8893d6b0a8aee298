//! A line-oriented, indentation-structured markup compiler.
//!
//! The library reads a KV-style document (supplied as UTF-8 bytes), expands
//! named macros into a tree of markup elements, applies style directives with
//! document-scoped variable substitution, and serializes the result to an
//! HTML-like byte stream.
//!
//! The pipeline: line classification ([`classify`]), indent-driven tree
//! construction ([`builder`]), macro expansion ([`template`]) and style
//! directives ([`style`]), and tree serialization with deferred column-count
//! substitution ([`serialize`]).

use vstd::prelude::*;

pub mod builder;
pub mod classify;
pub mod laws;
pub mod node;
pub mod serialize;
pub mod style;
pub mod template;
pub mod text;

pub use builder::read_kv;
pub use builder::try_read_kv;
pub use builder::StructuralError;
pub use node::boxed_page;
pub use node::boxed_text;
pub use node::Node;
pub use node::Tag;
pub use style::process_style_template;
pub use style::KeyTable;
pub use template::process_template;

verus! {

} // verus!
