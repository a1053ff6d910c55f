//! Options for how much an evaluation report should carry.

use vstd::prelude::*;

verus! {

/// Whether reports carry full detail and whether the Pareto-maximal cards
/// are collected.
#[derive(Debug, Clone, Copy, PartialEq, Eq, Structural)]
pub struct ReportConfig {
    pub detailed: bool,
    pub collect_max_result_cards: bool,
}

impl Default for ReportConfig {
    fn default() -> (r: Self)
        ensures
            !r.detailed,
            !r.collect_max_result_cards,
    {
        ReportConfig { detailed: false, collect_max_result_cards: false }
    }
}

} // verus!
