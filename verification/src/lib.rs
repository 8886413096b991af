//! Compiler middle-end for a small synchronous dataflow language.
//!
//! Source text is parsed elsewhere into the raw syntax tree of [`ast`]; this
//! crate normalizes it ([`normalizer`]), orders the equations of every node
//! into a valid evaluation sequence ([`sequentializer`]), and plans per-node
//! persistent state together with an imperative step procedure ([`codegen`]).

pub mod ast;
pub mod codegen;
pub mod error;
pub mod nast;
pub mod normalizer;
pub mod sequentializer;
pub mod text;
