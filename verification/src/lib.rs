//! A small persistent task-list engine.
//!
//! The library owns the logic of a flat-file todo list: the on-disk record
//! format, the walk-up database discovery policy, the index-normalization
//! rules for 1-based command-line positions, and the ordered mutation
//! operations (insert, delete, toggle, move, shift, reorder, clear).
//! Reading and writing the file itself is left to the caller.

pub mod actions;
pub mod codec;
pub mod engine;
pub mod entry;
pub mod locate;
pub mod sorting;
pub mod stamp;
pub mod strutil;
