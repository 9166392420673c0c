//! In-memory model of a lightweight outline-markup document: a two-level
//! grammar of block nodes and inline expression trees, headings with
//! non-owning parent back-references realized through an arena, a routing
//! taxonomy for headings, directives with a two-phase resolution scheme,
//! shallow stringification, and a verified structural codec.

pub mod ast;
pub mod codec;
pub mod directive;
pub mod error;
pub mod routing;
pub mod stringify;
pub mod tree;
