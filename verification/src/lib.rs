//! Turns a macro-expanded C header into a catalog of type declarations and
//! emits binding declarations in dependency order.

pub mod bytes;
pub mod catalog;
pub mod classify;
pub mod lexer;
pub mod model;
pub mod nesting;
pub mod parse;
pub mod render;
pub mod resolve;
pub mod segment;
