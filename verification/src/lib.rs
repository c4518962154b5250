//! A scanner for a small scripting language, the front end of a
//! tree-walking interpreter: source text in, tokens or the first lexical
//! error out.
//!
//! [`grammar`] states as mathematics what a source scans to, [`scanner`]
//! holds the scanner, proved to produce exactly that, and [`laws`] what
//! follows for every scan. [`token`] holds the data a scan produces and
//! [`text`] what the scanner needs to know of bytes and UTF-8.
//!
//! Source text is UTF-8 and is scanned byte by byte. Letters and digits are
//! those of ASCII; other characters can stand in string literals and in
//! comments only.

pub mod grammar;
pub mod laws;
pub mod scanner;
pub mod text;
pub mod token;
