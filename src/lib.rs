//! File-hash archive and workspace file index of the buildscale cache.
pub mod archive;
pub mod hashes;
pub mod terminal;
pub mod workspace;
