//! Reader for compiled JVM class files, with a lifter that turns method
//! bodies into basic blocks and expression trees.
//!
//! Parsing is a pure function of the input bytes. Every parsed value owns
//! its data: the text of UTF8 constants is copied out of the input.

pub mod class;
pub mod code;
pub mod decomp;
pub mod error;
pub mod laws;
pub mod reader;
mod text;
pub mod types;
