//! A small markup parser: one pass of recursive descent turns a source text
//! into a tree of element, text and comment nodes.
//!
//! `dom::html::Parser::parse` is the way in. What it returns is fixed by the
//! grammar in `dom::grammar`, which is written as mathematical functions on
//! sequences of characters; every function of the parser is proved to
//! compute what the grammar says, and to fail exactly where it says, with the
//! error it names.

pub mod dom;
