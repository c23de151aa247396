//! Restores lost or scrambled file names from SFV and PAR2 checksum catalogs.
//!
//! The library parses catalogs, matches files to catalog entries by checksum,
//! and plans a rename order that is safe against transient name collisions.

pub mod utils;
pub mod file_verification;
pub mod par2_reader;
pub mod sfv_reader;
pub mod reconcile;
pub mod checksum;
pub mod scheduler;
