//! Finds duplicate and near-duplicate files: an index of files with their
//! digests and colour histograms, and two ways of grouping what it holds.
pub mod database;
pub mod filehashing;
pub mod interface;
pub mod matrix;
pub mod ranking;
pub mod reconcile;
pub mod sequences;
pub mod similarities;
pub mod videohash;
pub mod videohistogram;
