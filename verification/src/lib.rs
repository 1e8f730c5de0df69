//! A compiler from an indentation-sensitive markup language to HTML.
//!
//! A source file is a list of lines. Iteration directives are expanded
//! first ([`expand`]), then assignments, embeds and placeholders are
//! resolved ([`resolve`]); the lines that remain are parsed into a forest
//! of elements by their indentation ([`parse`]), and the forest is rendered
//! as an HTML document ([`element`]). [`compile`] runs the four steps on
//! one file.
//!
//! Every function states what it returns over the mathematical value of
//! its arguments, and is proved to return just that. The general facts
//! about the parser stand in [`placement`] and [`roundtrip`].

pub mod compile;
pub mod element;
pub mod expand;
pub mod metadata;
pub mod parse;
pub mod placement;
pub mod resolve;
pub mod roundtrip;
pub mod scope;
pub mod snippets;
pub mod source;
pub mod text;
pub mod tokens;
pub mod tree;
