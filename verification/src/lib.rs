//! Comma's document model: delimited text read into a grid of values and
//! written back so that every field nobody edited keeps its original bytes.
//!
//! Everything here is text and bytes. What needs a toolkit, a locale or a
//! file system lives with the program that uses this library.

pub mod text;
pub mod document;
pub mod search;
pub mod decimal;
pub mod value;
pub mod grid;
pub mod filter;
pub mod export;
pub mod window;
