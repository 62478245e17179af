//! An interpreter core for a stack language written in four glyphs.
//!
//! A program is any text; only the glyphs `木`, `野`, `ど` and `松` carry
//! meaning. The library filters a source text down to its tape of glyphs
//! ([`glyph`]), models the tagged values that live on the data stack
//! ([`value`]), reads values from lines of input ([`text`], [`parse`]),
//! writes them out ([`render`]), and executes the tape one instruction at a
//! time ([`machine`]). What holds of the language whatever the program is
//! stated and proved in [`laws`].
//!
//! Floating values are held as their IEEE 754 bits ([`binary64`]) and
//! computed with in integers ([`rounding`], [`ieee`], [`decimal`]).
//!
//! Reading lines and writing text are left to the caller:
//! [`machine::Machine::step`] says when it needs a line, takes it on the
//! next call, and hands back the text that is to be written.

pub mod binary64;
mod chars;
pub mod decimal;
pub mod glyph;
pub mod ieee;
pub mod laws;
pub mod machine;
pub mod parse;
pub mod render;
pub mod rounding;
pub mod text;
pub mod value;
