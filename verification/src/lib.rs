//! A literate-document preprocessor for Typst: it parses a markup document
//! into chunks, routes fenced code chunks to per-language backends, and
//! rewrites the document with the backends' outputs woven back in at the
//! original positions.

pub mod chunk;
pub mod cli;
pub mod engine;
pub mod haskell;
pub mod parse;
pub mod randgen;
pub mod render;
pub mod rlang;
pub mod table;
pub mod text;
