//! An in-memory store of named values with a literal parser and renderer.
//!
//! Values are scalars (text, 32-bit integers, booleans) or nested
//! aggregates (mappings with sorted unique keys, sequences, sets of
//! distinct elements held in a canonical order). A single line of text
//! is decoded into a value by a recursive-descent parser, and a value is
//! turned back into text by deterministic renderers. A command
//! processor applies `set`/`get`/`update`/`delete`/`list` and a few
//! report commands to the store and returns the response text.
//!
//! The mathematical model lives in [`model`]; the executable value
//! representation in [`value`]; the parser in [`parse`] over the
//! splitting of [`split`]; the renderers in [`render`]; the store and
//! the command processor in [`store`]; and the round-trip and
//! determinism laws in [`laws`].

pub mod chars;
pub mod laws;
pub mod model;
pub mod numtext;
pub mod parse;
pub mod render;
pub mod split;
pub mod store;
pub mod tokens;
pub mod value;
