//! Directory tree listing: filtering, ordering and rendering of the
//! entries found under one root directory.
//!
//! - [`walker`]: which entries are kept, and the two assembly variants
//!   (sequential and parallel sibling sorting) of the ordered sequence;
//! - [`assembly`]: what that ordered sequence is, and the laws it obeys;
//! - [`order`]: the order within one sibling group;
//! - [`formatter`]: tree lines, the flat list, and the JSON document;
//! - [`document`]: why the JSON document mirrors the ordered sequence;
//! - [`config`], [`entry`], [`text`]: options, entries, display text.
pub mod assembly;
pub mod config;
pub mod document;
pub mod entry;
pub mod formatter;
pub mod order;
pub mod text;
pub mod walker;

pub use config::{Args, Config, Pattern, PatternError};
pub use entry::{Entry, EntryKind, EntryView};
pub use formatter::{FileNode, Formatter};
pub use walker::{TreeError, Walker};
