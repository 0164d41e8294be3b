//! Core logic of an NTFS whole-volume disk scanner.
//!
//! The scanner enumerates every file record of a volume's Master File Table,
//! normalizes each record's path to the canonical `X:\segment\...` form,
//! aggregates sizes over every ancestor directory, and materializes a depth-
//! and fan-out-bounded tree suitable for rendering, or alternatively keeps
//! only the N largest files in a size-bounded buffer.
//!
//! This crate holds the verified computation: path normalization and
//! filtering, the recursive size map, the parent-to-children index, the
//! bounded tree builder, and the top-N mode.  Raw volume I/O (opening the
//! device and loading the MFT) lives in the unverified host application,
//! which feeds plain records into these functions.

pub mod strutil;
pub mod paths;
pub mod records;
pub mod size_map;
pub mod child_index;
pub mod errors;
pub mod tree;
pub mod top_files;
pub mod scan;
pub mod filters;
pub mod upload;
