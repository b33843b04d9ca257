//! A content-addressed file organiser: files dropped into an intake area are
//! fingerprinted, new content is filed into a year-partitioned store, and
//! content already present is archived as a duplicate linked to its copy.
//!
//! This crate holds the logic: the record model, the index codec, the
//! fingerprint grouping, the resolution of each group and the naming scheme.
//! The program around it performs the filesystem work that these functions
//! describe.
pub mod text;
pub mod error;
pub mod record;
pub mod naming;
pub mod grouping;
pub mod location;
pub mod loader;
pub mod resolve;
pub mod codec;
pub mod hashing;
pub mod lines;
pub mod commands;
