//! An in-memory XML document model with a single-pass parser and a serializer.
//!
//! A document is a tree of nodes kept in one growable table. Every link of the
//! tree (parent, siblings, first and last child, attribute chains) is an index
//! into that table, and the table's well-formedness predicate states how the
//! links fit together. The parser builds such a tree from bytes, the writer
//! turns it back into text.

pub mod attribute;
pub mod chartype;
pub mod handle;
pub mod model;
pub mod node;
pub mod parser;
pub mod roundtrip;
pub mod writer;
