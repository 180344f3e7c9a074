//! Scan a directory listing for the largest files.
//!
//! The library holds the logic of a small disk-usage reporter: resolving the
//! requested report length from an optional textual argument, folding a stream
//! of discovered files into aggregate counters and a bounded top-K selection,
//! and rendering the report lines.  Walking the filesystem and printing are
//! left to the surrounding program, which hands the library plain values.

pub mod engine;
pub mod entry;
pub mod options;
pub mod report;
