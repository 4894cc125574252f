//! A toolchain for a minimal byte-tape language: a sanitizer and a
//! recursive-descent parser that build an instruction tree, a tree-walking
//! interpreter over a fixed-size byte tape, and a code generator that lowers
//! the tree to assembly text with run-length coalescing.

pub mod token;
pub mod sanitize;
pub mod parse;
pub mod machine;
pub mod interp;
pub mod codegen;
