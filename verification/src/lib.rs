//! In-place minification of markup: a cursor engine that reads and writes one
//! buffer, and the attribute-value encoder built on it.

pub mod codepoint;
pub mod err;
pub mod pattern;
pub mod proc;
