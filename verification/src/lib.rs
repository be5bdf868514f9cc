//! Keyspace prefix analysis.
//!
//! The library builds a hierarchical breakdown of a key-value store's
//! keyspace: it groups observed keys by separator-delimited prefixes,
//! attributes per-key memory cost up through the resulting prefix tree,
//! and normalizes the tree for presentation (ordering and a synthetic
//! remainder bucket).

pub mod analyzer;
pub mod attribution;
pub mod config;
pub mod frequency;
pub mod key_prefix;
pub mod normalizer;
pub mod prefix;
pub mod prefix_rule;

pub use key_prefix::KeyPrefix;
