//! Splits a sorted line-oriented text input into a two-level
//! directory/file hierarchy: a fixed-width prefix of each line names the
//! directory, the next fixed-width slice names the file, and the rest of
//! the line is the payload appended to that file.
//!
//! The library holds the verified logic: path construction, end-of-line
//! selection, numeric validation, and the session state machine that
//! decides, line by line, which directory and file each payload belongs
//! to and when a writer can be reused. Performing the filesystem actions
//! that the state machine plans is left to the surrounding binary.

pub mod batch;
pub mod eol;
pub mod numbers;
pub mod paths;
pub mod splitter;
pub mod text;

