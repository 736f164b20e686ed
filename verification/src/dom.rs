//! The node tree and the parser that builds it.
//!
//! - `node`: the tree, its attribute maps, and the queries on elements.
//! - `html`: the parser.
//! - `error`: the errors of the parser.
//! - `grammar`: what the parser has to compute, and laws of the grammar.
//! - `chars`: the character classes of the grammar.
//! - `markup`: documents as they are written, and the law that reading what
//!   was written gives back what was meant.
//! - `shape`: what holds of every tree that the parser builds.
//! - `strings`: conversions between strings and sequences of characters.

pub mod chars;
pub mod error;
pub mod grammar;
pub mod html;
pub mod markup;
pub mod node;
pub mod shape;
pub mod strings;
