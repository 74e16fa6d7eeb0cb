//! Discovery, filtering, dispatch and golden-file review for a compiler test
//! suite whose tests are flat files in fixed directories.
//!
//! Every function here is pure: directory listings and file contents come in
//! as plain values, and decisions (which diffs exist, which golden files to
//! write or delete, which backend flag to pass) go out as plain values.

pub mod accept;
pub mod catalog;
pub mod diff;
pub mod engine;
pub mod filter;
pub mod names;
pub mod order;
pub mod paths;
pub mod render;
pub mod review;
pub mod store;
pub mod text;

