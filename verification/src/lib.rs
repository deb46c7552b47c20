//! A small version-control storage engine: content-addressed objects and their
//! encoding, the builder of trees from the staged paths, and the status engine
//! that compares work tree, index and last commit. What touches the disk is left
//! to the caller, who hands in bytes and gets back what to write.
pub mod config;
pub mod decimal;
pub mod error;
pub mod hash;
pub mod history;
pub mod ignore;
pub mod objects;
pub mod order;
pub mod paths;
pub mod readback;
pub mod repository;
pub mod roundtrip;
pub mod scan;
pub mod staging;
pub mod status;
pub mod table;
pub mod text;
pub mod tree;
pub mod tree_laws;
pub mod walk;
