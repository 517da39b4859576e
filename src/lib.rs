//! Lexical analysis of (La)TeX sources: an ordered rule set that splits a source
//! into tokens, each holding the part of the source that it stands for.

pub mod lexer;
