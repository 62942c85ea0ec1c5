//! A rotating, segmented record store.
//!
//! A [`writer::EfficientFileWriter`] appends opaque, delimiter-free records,
//! framing each one with a trailing newline byte, and rotates to a freshly
//! numbered segment every `writes_per_file` records. A
//! [`reader::EfficientFileReader`] replays the records in write order,
//! rotating at the same boundaries. Both sides name segments with the same
//! pure function (`base_name.boundary`), which is what binds writer output to
//! reader input.
//!
//! The store itself holds segment contents in memory; putting those bytes on
//! durable storage (and fetching them back) is left to the caller, which keeps
//! every rule of the layer — naming, framing, rotation, buffering — in
//! verified code.

pub mod errors;
pub mod model;
pub mod naming;
pub mod reader;
pub mod writer;
