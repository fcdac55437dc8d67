//! Lexical front end of a small language: a character scanner with
//! transactional backtracking, and a prefix tree that resolves keywords and
//! symbols.
pub mod lexer;
pub mod lines;
pub mod prefix;
pub mod types;
