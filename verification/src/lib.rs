//! Cross-reference index of Android string resources, and a remover that
//! cuts one XML element out of a file by its exact line span.
//!
//! The crate computes on values held in memory. Reading and writing files,
//! walking directory trees and parsing the command line are left to the
//! program that uses it.
//!
//! - [`tokens`]: the events of an XML document, as the parser yields them.
//! - [`extract`]: the declarations and references in one file.
//! - [`index`]: the records of all files, the sets and lists derived from
//!   them, and the walks of an indexing run.
//! - [`snapshot`]: the index as bytes, and back.
//! - [`report`]: what the commands count, list and remove.
//! - [`xeditor`]: the search for an element and the removal of its lines.
//! - [`nesting`], [`absence`]: what the search finds, and what it leaves.
//! - [`patterns`], [`text`], [`file_lists`]: what regular expressions, the
//!   standard library and the multimap compute for the rest.

pub mod absence;
pub mod extract;
pub mod file_lists;
pub mod index;
pub mod nesting;
pub mod patterns;
pub mod report;
pub mod snapshot;
pub mod text;
pub mod tokens;
pub mod xeditor;
