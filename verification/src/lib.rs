//! Strips the `skip_serializing_if` directive from the `serde` metadata of
//! every field of a type definition, and leaves everything else as it was.
//!
//! The definition is held as a tree of plain values ([`model`]); the rewrite
//! of one metadata block and of one field is in [`filter`], the walk over a
//! whole definition in [`dispatch`], and what holds of all of it in [`laws`].

pub mod model;
pub mod parse;
pub mod filter;
pub mod dispatch;
pub mod laws;

pub use crate::dispatch::erase_skip_serializing_if;
