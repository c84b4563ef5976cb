//! A parser for a restricted JSON dialect, with a verified tokenizer,
//! a verified recursive-descent parser and accessors into the value tree.

pub mod access;
pub mod assoc;
pub mod equality;
pub mod grammar;
pub mod parser;
pub mod render;
pub mod roundtrip;
pub mod seqs;
pub mod text;
pub mod token;
pub mod value;

pub use access::OptionValueExt;
pub use parser::Parser;
pub use token::{Token, Tokenizer};
pub use value::{Json, ObjectMap, Value};
