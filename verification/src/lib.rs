//! Reader and value runtime of a small Lisp-family language: a tokenizer,
//! a recursive-descent form parser with reader-macro dispatch, and a tagged
//! value model with structural equality, dual-mode printing, and a
//! function-application protocol.

pub mod types;
pub mod text;
pub mod printer;
pub mod reader;
pub mod laws;
