//! Statistical signals for data-compression decisions.
//!
//! This crate provides cheap, precomputed signals that let a compression
//! pipeline judge how compressible a block of bytes is without running a
//! full compressor:
//!
//! - [`histogram`]: byte-frequency histograms over 256 buckets, built by a
//!   family of interchangeable algorithms that all provably produce the same
//!   counts.
//! - [`match_estimator`]: an approximate count of positions at which a
//!   repeated substring of three or more bytes occurs, computed by streaming
//!   the buffer through a bounded direct-mapped hash table.

pub mod histogram;
pub mod match_estimator;
