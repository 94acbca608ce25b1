//! Combines exported plate-reader tables that drifted apart in their columns
//! into one table: a scanner for the files' preambles, a reconciler for their
//! headers, and a writer for the combined rows.

pub mod headers;
pub mod info;
pub mod intern;
pub mod number;
pub mod order;
pub mod select;
pub mod text;
pub mod write;

pub use crate::info::{collect_harmony_datafiles, HarmonyMetadata};
pub use crate::write::combine_files;
