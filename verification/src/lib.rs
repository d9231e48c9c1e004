//! Groups the regular, non-hidden files of a directory by their lowercased
//! extension and renders a sorted textual report.
//!
//! The library is pure: it takes a list of directory entries (name plus kind)
//! and produces the report. Reading a directory and printing belong to the
//! surrounding program.

pub mod extension;
pub mod grouping;
pub mod order;
pub mod report;

pub use extension::extension_key;
pub use grouping::{group_files, DirEntry, EntryKind, Group};
pub use report::{build_report, render_report};
