//! A small JSON reader: a tokenizer over Unicode scalar values and a
//! recursive-descent parser that builds a value tree.
//!
//! The text format is described as mathematics in [`chars`], [`scan`] and
//! [`grammar`]; [`token`] and [`de`] hold the tokenizer and the parser,
//! whose contracts say that they compute exactly what is described there,
//! and [`value`] holds the tree that parsing builds. What follows from the
//! description is proved in [`number`] (what is read as a number is one),
//! [`spacing`] (whitespace between tokens is insignificant) and
//! [`literal`] (a text reads as the value of its shape).

pub mod chars;
pub mod de;
pub mod grammar;
pub mod literal;
pub mod number;
pub mod offset;
pub mod scan;
pub mod spacing;
pub mod token;
pub mod value;
