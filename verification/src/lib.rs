//! Tokenizer for shorthand text: a line of text becomes a sentence of words,
//! each word a sequence of symbols drawn from a priority-ordered alphabet.
//!
//! * [`token`] holds the symbols, their text and the declared order of the
//!   alphabet.
//! * [`text`] folds a line to lowercase and cuts it into chunks.
//! * [`parsing`] scans every chunk for symbols; [`parsing::parse`] is the way
//!   in.
//! * [`laws`] and [`order`] state what holds of every scan, and why the order
//!   of the alphabet matters.
//! * [`asset`] names the image of a symbol.

pub mod asset;
pub mod laws;
pub mod order;
pub mod parsing;
pub mod text;
pub mod token;
