//! Front end for a line-oriented BASIC dialect: a tokenizer and a
//! recursive-descent parser for one program line.
pub mod lexer;
pub mod parser;
