//! The settings and the plain-language summary of the commercial benchmark.

use vstd::prelude::*;

verus! {

/// Settings of a benchmark run: vector size, neighbours asked for, search
/// breadth, number of queries, random seed and the corpus sizes to try.
#[derive(Debug)]
pub struct ProveConfig {
    pub dimension: usize,
    pub k: usize,
    pub ef: usize,
    pub num_queries: usize,
    pub seed: u64,
    pub scales: Vec<usize>,
}

impl Default for ProveConfig {
    fn default() -> (r: Self)
        ensures
            r.dimension == 128,
            r.k == 10,
            r.ef == 128,
            r.num_queries == 50,
            r.seed == 42,
            r.scales@ == seq![10_000usize, 100_000usize],
    {
        let mut scales: Vec<usize> = Vec::new();
        scales.push(10_000);
        scales.push(100_000);
        ProveConfig { dimension: 128, k: 10, ef: 128, num_queries: 50, seed: 42, scales }
    }
}

/// The three plain-language conclusions drawn from a benchmark run.
#[derive(Debug)]
pub struct BuyerSummary {
    pub ai_infra_tco: String,
    pub on_prem_edge: String,
    pub deepiri_internal: String,
}

/// The mark printed for a passed (`Y`) or failed (`n`) check.
pub fn flag(b: bool) -> (r: char)
    ensures
        r == (if b {
            'Y'
        } else {
            'n'
        }),
{
    if b {
        'Y'
    } else {
        'n'
    }
}

} // verus!
