//! A length-preserving read adapter for size-prefixed containers.
//!
//! A writer that has committed to a file's length must deliver exactly that
//! many bytes, whatever becomes of the file meanwhile. The reader here keeps
//! the count: it never asks the file for more than is still owed, and when
//! the file ends early it pads the rest with zero bytes.

pub mod model;
pub mod pass;
pub mod reader;

pub use reader::SafeTruncateReader;
