//! Configuration consumed by the analysis passes.

use vstd::prelude::*;

verus! {

/// How the finished tree is rendered by the presentation layer.
#[derive(Clone, Copy, Debug, PartialEq, Eq, Structural)]
pub enum OutputFormat {
    Plain,
    Json,
}

/// The metric by which a node's children are ordered.
#[derive(Clone, Copy, Debug, PartialEq, Eq, Structural)]
pub enum SortOrder {
    KeysCount,
    MemoryUsage,
}

/// The knobs the analysis passes read. Validation happens upstream;
/// the passes only consume these values.
pub struct Config {
    /// The separator characters; a maximal run of them delimits one
    /// key segment.
    pub separators: String,
    /// Maximum key depth to examine.
    pub depth: usize,
    /// Minimum inclusion frequency, in hundredths of a percent of the
    /// total key count, that a prefix must exceed to become a node.
    pub min_count_bp: u64,
    /// Total number of keys across all shards, measured at startup.
    pub all_keys_count: usize,
    /// The metric children are sorted by.
    pub sort_order: SortOrder,
    /// How the finished tree is rendered.
    pub output_format: OutputFormat,
}

impl Config {
    /// Bundle the analysis knobs.
    pub fn new(
        separators: String,
        depth: usize,
        min_count_bp: u64,
        all_keys_count: usize,
        sort_order: SortOrder,
        output_format: OutputFormat,
    ) -> (r: Self)
        ensures
            r.separators == separators,
            r.depth == depth,
            r.min_count_bp == min_count_bp,
            r.all_keys_count == all_keys_count,
            r.sort_order == sort_order,
            r.output_format == output_format,
    {
        Config { separators, depth, min_count_bp, all_keys_count, sort_order, output_format }
    }

    /// Whether a prefix counted `c` times exceeds the configured minimum
    /// frequency, taken relative to the total key count.
    pub open spec fn spec_qualifies(self, c: int) -> bool {
        c * 10000 > self.min_count_bp * self.all_keys_count
    }

    /// Whether a prefix counted `c` times exceeds the configured minimum
    /// frequency.
    pub fn qualifies(&self, c: usize) -> (r: bool)
        ensures
            r == self.spec_qualifies(c as int),
    {
        let threshold = self.min_count_bp as u128;
        let total = self.all_keys_count as u128;
        proof {
            assert(threshold * total <= 0xffff_ffff_ffff_ffff_ffff_ffff_ffff_ffffu128)
                by (nonlinear_arith)
                requires
                    threshold < 0x1_0000_0000_0000_0000u128,
                    total < 0x1_0000_0000_0000_0000u128,
            ;
        }
        (c as u128) * 10000 > threshold * total
    }
}

} // verus!
