//! Front end of a small scripting-language interpreter: a UTF-8 byte
//! decoder, a lexical scanner, a recursive-descent expression parser and a
//! canonical S-expression printer, each verified against a mathematical
//! model of its output.

pub mod grammar;
pub mod parser;
pub mod scanner;
pub mod utf8;
