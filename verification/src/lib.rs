//! Outline parser for Q# (`.qs`) sources.
//!
//! The parser walks a source line by line, tracks the brace depth and turns
//! declarations and statements into a tree of [`node::SemanticNode`] values. No
//! grammar is involved: a declaration is a line whose first word, or second word
//! behind `internal`, is a declaration keyword.
//!
//! The nodes of an outline:
//!
//! - `compilation_unit`: the root
//! - `namespace`: `namespace Foo { ... }`, labelled with the name
//! - `operation`: `operation Bar(...) : T { ... }`, labelled with the name
//! - `function`: `function Baz(...) : T { ... }`, labelled with the name
//! - `newtype`: `newtype Complex = (...)`, labelled with the name, a leaf
//! - `qs_statement`: any other line inside a declaration, labelled with its text,
//!   a leaf

pub mod laws;
pub mod lowercase;
pub mod name;
pub mod node;
pub mod outline;
pub mod parser;
pub mod plugin;
pub mod text;
