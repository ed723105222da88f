//! What a query did: the audit trail of a column search.

use vstd::prelude::*;

verus! {

/// Explain payload for a Z-Column query: the audit trail of the reverse
/// beam search.
#[derive(Debug)]
pub struct QueryExplain {
    pub entry_layer: u8,
    pub deepest_layer_reached: u8,
    pub revert_count: u64,
    pub columns_scanned: u64,
    pub candidate_pool: usize,
    pub used_fallback_scan: bool,
    pub column_paths: Vec<String>,
    pub strategy: String,
    /// Hard touch budget applied (0 = unlimited).
    pub touch_budget: usize,
    /// True when search stopped because `candidate_pool` hit the budget.
    pub hit_touch_budget: bool,
    /// Vectors scored with quantized distances before pruning.
    pub coarse_scored: u64,
    /// Vectors kept after intra-column pruning.
    pub coarse_kept: u64,
}

impl QueryExplain {
    /// A trail that names its strategy and has everything else at zero.
    pub fn new(strategy: &str) -> (r: Self)
        ensures
            r.strategy@ == strategy@,
            r.entry_layer == 0,
            r.deepest_layer_reached == 0,
            r.revert_count == 0,
            r.columns_scanned == 0,
            r.candidate_pool == 0,
            !r.used_fallback_scan,
            r.column_paths@.len() == 0,
            r.touch_budget == 0,
            !r.hit_touch_budget,
            r.coarse_scored == 0,
            r.coarse_kept == 0,
    {
        QueryExplain {
            entry_layer: 0,
            deepest_layer_reached: 0,
            revert_count: 0,
            columns_scanned: 0,
            candidate_pool: 0,
            used_fallback_scan: false,
            column_paths: Vec::new(),
            strategy: strategy.to_owned(),
            touch_budget: 0,
            hit_touch_budget: false,
            coarse_scored: 0,
            coarse_kept: 0,
        }
    }
}

impl Default for QueryExplain {
    fn default() -> (r: Self)
        ensures
            r.strategy@.len() == 0,
            r.entry_layer == 0,
            r.deepest_layer_reached == 0,
            r.revert_count == 0,
            r.columns_scanned == 0,
            r.candidate_pool == 0,
            !r.used_fallback_scan,
            r.column_paths@.len() == 0,
            r.touch_budget == 0,
            !r.hit_touch_budget,
            r.coarse_scored == 0,
            r.coarse_kept == 0,
    {
        QueryExplain {
            entry_layer: 0,
            deepest_layer_reached: 0,
            revert_count: 0,
            columns_scanned: 0,
            candidate_pool: 0,
            used_fallback_scan: false,
            column_paths: Vec::new(),
            strategy: String::new(),
            touch_budget: 0,
            hit_touch_budget: false,
            coarse_scored: 0,
            coarse_kept: 0,
        }
    }
}

/// Counters a column index keeps over the searches it has run.
#[derive(Debug, Clone, Copy, PartialEq, Eq, Structural)]
pub struct SearchStats {
    pub revert_count: u64,
    pub columns_scanned: u64,
}

} // verus!
