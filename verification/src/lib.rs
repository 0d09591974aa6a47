//! A line-oriented text editing engine.
//!
//! The engine holds a document as a sequence of rows, each row a sequence of
//! complete characters in a variable-width encoding, together with a cursor
//! addressed in character units. Edit events are applied one at a time as
//! atomic transitions that keep the cursor valid and every row made of
//! complete characters.

pub mod config;
pub mod cursor;
pub mod encoding;
pub mod error;
pub mod file;
pub mod lifecycle;
pub mod tab;
pub mod translate;
