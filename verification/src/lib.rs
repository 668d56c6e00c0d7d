//! Expands a brace-structured, indentation-significant document into a fully
//! populated output document plus a key → display-name table, delegating the
//! content of leaf scopes to a generative text service.
//!
//! The verified core is the single-pass structure parser with its nesting
//! context ([`parser`]), the heuristic repair pipeline that restores balance
//! to a possibly-truncated streamed buffer ([`repair`]), the cache-backed
//! generation decisions ([`gen`]), the entry normalizer ([`keys`]) and the
//! first-write-wins key table ([`table`]). Reading the input documents,
//! writing the outputs and the streaming transport stay outside the library;
//! a driver feeds lines to the parser and raw buffers to the generator.

pub mod gen;
pub mod keys;
pub mod parser;
pub mod repair;
pub mod table;
pub mod text;
