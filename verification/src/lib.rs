//! Core of a duplicate-file finder: a three-stage pipeline that groups
//! scanned files by byte length, then by content digest, and reports the
//! resulting duplicate sets.
//!
//! The crate holds the pipeline's data model and decision logic; the
//! surrounding binary performs the directory walking and file reading and
//! feeds plain values in.

pub mod digest;
pub mod file_manager;
pub mod fileinfo;
pub mod filters;
pub mod params;
pub mod processor;
pub mod scanner;
pub mod server;
pub mod store;
