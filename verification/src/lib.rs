//! The text front end of a small browser engine, and the word-level helpers
//! of an LC-3 interpreter.
//!
//! - `dom`: the document tree.
//! - `css`: the style model, and the order of selectors by specificity.
//! - `lex`: character classes and runs of characters.
//! - `markup`, `style`: the two grammars, as functions on a text and a
//!   position.
//! - `html`: the parser, one function for each production of the grammars.
//! - `error`: parse failures with their byte offsets.
//! - `lc3`: registers, operation codes, condition flags and sign extension.

pub mod css;
pub mod dom;
pub mod error;
pub mod html;
pub mod lc3;
pub mod lex;
pub mod markup;
pub mod style;
