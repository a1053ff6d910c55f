//! The score aggregator: per-criterion counts over the summary verdicts of
//! a benchmark run, precision/recall-style ratios derived from them, and
//! the union operation that rolls cards up a directory tree.
//!
//! Ratios are kept as exact thousandths (an integer in 0..=1000, rounded to
//! nearest, halves away from zero); a ratio whose denominator is zero is
//! `None`, standing for the undefined value that callers must guard.
//! Unions add counts and recompute every ratio from the summed counts —
//! never by averaging child ratios — so differently sized subtrees cannot
//! bias the roll-up.

use vstd::prelude::*;

use crate::compare::{SpecToolResultCard, ToolResultCard, ToolResultsCard};
use crate::description::{SpecTool, Tool};
use crate::metadata::{Metadata, Status};
use crate::truth::{CWEs, Kind, CWE};

verus! {

/// The largest count the aggregator accepts; keeps every derived ratio
/// computable in 64-bit arithmetic.
pub const MAX_COUNT: i64 = 0x4_0000_0000_0000;

/// A count pair is admissible: true positives within the ground-truth
/// positives, false positives within the ground-truth negatives, all within
/// `MAX_COUNT`.
pub open spec fn spec_counts_ok(tp: int, fp: int, pos: int, neg: int) -> bool {
    &&& 0 <= tp <= pos <= MAX_COUNT as int
    &&& 0 <= fp <= neg <= MAX_COUNT as int
}

/// `num / den` in thousandths, rounded to nearest with halves away from
/// zero; `None` when the denominator is zero (an undefined ratio).
pub open spec fn spec_permille(num: int, den: int) -> Option<int> {
    if den == 0 {
        None
    } else {
        Some((2000 * num + den) / (2 * den))
    }
}

/// The value of an optional 64-bit integer.
pub open spec fn opt_int(o: Option<i64>) -> Option<int> {
    match o {
        Some(v) => Some(v as int),
        None => None,
    }
}

/// `num / den` in thousandths, `None` for an undefined ratio.
fn permille(num: i64, den: i64) -> (r: Option<i64>)
    requires
        0 <= num <= 2 * MAX_COUNT,
        0 <= den <= 3 * MAX_COUNT,
    ensures
        opt_int(r) == spec_permille(num as int, den as int),
{
    if den == 0 {
        None
    } else {
        Some((2000 * num + den) / (2 * den))
    }
}

/// The counts and derived ratios of one matching criterion.
#[derive(Debug)]
pub struct SummaryRatios {
    pub true_positive_count: i64,
    pub false_positive_count: i64,
    pub true_positive_rate: Option<i64>,
    pub false_positive_rate: Option<i64>,
    pub recall: Option<i64>,
    pub precision: Option<i64>,
    pub f1_score: Option<i64>,
}

/// The mathematical value of a `SummaryRatios`.
pub struct SpecSummaryRatios {
    pub true_positive_count: int,
    pub false_positive_count: int,
    pub true_positive_rate: Option<int>,
    pub false_positive_rate: Option<int>,
    pub recall: Option<int>,
    pub precision: Option<int>,
    pub f1_score: Option<int>,
}

impl View for SummaryRatios {
    type V = SpecSummaryRatios;

    open spec fn view(&self) -> SpecSummaryRatios {
        SpecSummaryRatios {
            true_positive_count: self.true_positive_count as int,
            false_positive_count: self.false_positive_count as int,
            true_positive_rate: opt_int(self.true_positive_rate),
            false_positive_rate: opt_int(self.false_positive_rate),
            recall: opt_int(self.recall),
            precision: opt_int(self.precision),
            f1_score: opt_int(self.f1_score),
        }
    }
}

impl Clone for SummaryRatios {
    fn clone(&self) -> (res: Self)
        ensures
            res@ == self@,
            res.true_positive_count == self.true_positive_count,
            res.false_positive_count == self.false_positive_count,
    {
        SummaryRatios {
            true_positive_count: self.true_positive_count,
            false_positive_count: self.false_positive_count,
            true_positive_rate: self.true_positive_rate,
            false_positive_rate: self.false_positive_rate,
            recall: self.recall,
            precision: self.precision,
            f1_score: self.f1_score,
        }
    }
}

/// All counts and ratios of one criterion, computed from the counts:
/// `TPR = recall = tp/pos`, `FPR = fp/neg`, `precision = tp/(tp+fp)`,
/// `F1 = tp/(tp + (fp + (pos - tp))/2) = 2*tp/(tp + fp + pos)`,
/// each in thousandths, `None` where the denominator is zero.
pub open spec fn spec_ratios(tp: int, fp: int, pos: int, neg: int) -> SpecSummaryRatios {
    SpecSummaryRatios {
        true_positive_count: tp,
        false_positive_count: fp,
        true_positive_rate: spec_permille(tp, pos),
        false_positive_rate: spec_permille(fp, neg),
        recall: spec_permille(tp, pos),
        precision: spec_permille(tp, tp + fp),
        f1_score: spec_permille(2 * tp, tp + fp + pos),
    }
}

impl SummaryRatios {
    /// Derive every ratio of one criterion from its counts.
    pub fn from_stats(
        true_positive_count: i64,
        false_positive_count: i64,
        ground_truth_positive_count: i64,
        ground_truth_negative_count: i64,
    ) -> (r: SummaryRatios)
        requires
            spec_counts_ok(
                true_positive_count as int,
                false_positive_count as int,
                ground_truth_positive_count as int,
                ground_truth_negative_count as int,
            ),
        ensures
            r@ == spec_ratios(
                true_positive_count as int,
                false_positive_count as int,
                ground_truth_positive_count as int,
                ground_truth_negative_count as int,
            ),
    {
        let true_positive_rate = permille(true_positive_count, ground_truth_positive_count);
        let false_positive_rate = permille(false_positive_count, ground_truth_negative_count);
        let recall = permille(true_positive_count, ground_truth_positive_count);
        let precision = permille(
            true_positive_count,
            true_positive_count + false_positive_count,
        );
        let f1_score = permille(
            2 * true_positive_count,
            true_positive_count + false_positive_count + ground_truth_positive_count,
        );
        SummaryRatios {
            true_positive_count,
            false_positive_count,
            true_positive_rate,
            false_positive_rate,
            recall,
            precision,
            f1_score,
        }
    }

    /// The union of two criterion blocks: counts add, every ratio is
    /// recomputed from the summed counts against the given ground-truth
    /// totals.
    pub fn union(
        &self,
        other: &Self,
        ground_truth_positive_count: i64,
        ground_truth_negative_count: i64,
    ) -> (r: SummaryRatios)
        requires
            0 <= self.true_positive_count,
            0 <= other.true_positive_count,
            0 <= self.false_positive_count,
            0 <= other.false_positive_count,
            spec_counts_ok(
                self.true_positive_count + other.true_positive_count,
                self.false_positive_count + other.false_positive_count,
                ground_truth_positive_count as int,
                ground_truth_negative_count as int,
            ),
        ensures
            r@ == spec_ratios(
                self.true_positive_count + other.true_positive_count,
                self.false_positive_count + other.false_positive_count,
                ground_truth_positive_count as int,
                ground_truth_negative_count as int,
            ),
    {
        SummaryRatios::from_stats(
            self.true_positive_count + other.true_positive_count,
            self.false_positive_count + other.false_positive_count,
            ground_truth_positive_count,
            ground_truth_negative_count,
        )
    }
}

/// The per-criterion counts of one partition of the records, before any
/// ratio is derived.
#[derive(Debug)]
pub struct SummaryStats {
    pub at_least_one_file_with_rule_id_match: i64,
    pub at_least_one_file_with_cwe_match: i64,
    pub at_least_one_file_with_cwe_1000_match: i64,
    pub at_least_one_file_without_cwe_match: i64,
    pub at_least_one_region_with_rule_id_match: i64,
    pub at_least_one_region_with_cwe_match: i64,
    pub at_least_one_region_with_cwe_1000_match: i64,
    pub at_least_one_region_without_cwe_match: i64,
}

/// The aggregate card of one (benchmark, tool) run: one ratio block per
/// criterion plus the ground-truth totals and two detailed-match counts.
#[derive(Debug)]
pub struct SummaryCard {
    pub at_least_one_file_with_rule_id_match: SummaryRatios,
    pub at_least_one_file_with_cwe_match: SummaryRatios,
    pub at_least_one_file_with_cwe_1000_match: SummaryRatios,
    pub at_least_one_file_without_cwe_match: SummaryRatios,
    pub at_least_one_region_with_rule_id_match: SummaryRatios,
    pub at_least_one_region_with_cwe_match: SummaryRatios,
    pub at_least_one_region_with_cwe_1000_match: SummaryRatios,
    pub at_least_one_region_without_cwe_match: SummaryRatios,
    pub ground_truth_negative_count: i64,
    pub ground_truth_positive_count: i64,
    pub truth_positive_cwe_match_count: i64,
    pub truth_positive_cwe_1000_match_count: i64,
}

/// The mathematical value of a `SummaryCard`.
pub struct SpecSummaryCard {
    pub at_least_one_file_with_rule_id_match: SpecSummaryRatios,
    pub at_least_one_file_with_cwe_match: SpecSummaryRatios,
    pub at_least_one_file_with_cwe_1000_match: SpecSummaryRatios,
    pub at_least_one_file_without_cwe_match: SpecSummaryRatios,
    pub at_least_one_region_with_rule_id_match: SpecSummaryRatios,
    pub at_least_one_region_with_cwe_match: SpecSummaryRatios,
    pub at_least_one_region_with_cwe_1000_match: SpecSummaryRatios,
    pub at_least_one_region_without_cwe_match: SpecSummaryRatios,
    pub ground_truth_negative_count: int,
    pub ground_truth_positive_count: int,
    pub truth_positive_cwe_match_count: int,
    pub truth_positive_cwe_1000_match_count: int,
}

impl View for SummaryCard {
    type V = SpecSummaryCard;

    open spec fn view(&self) -> SpecSummaryCard {
        SpecSummaryCard {
            at_least_one_file_with_rule_id_match: self.at_least_one_file_with_rule_id_match@,
            at_least_one_file_with_cwe_match: self.at_least_one_file_with_cwe_match@,
            at_least_one_file_with_cwe_1000_match: self.at_least_one_file_with_cwe_1000_match@,
            at_least_one_file_without_cwe_match: self.at_least_one_file_without_cwe_match@,
            at_least_one_region_with_rule_id_match: self.at_least_one_region_with_rule_id_match@,
            at_least_one_region_with_cwe_match: self.at_least_one_region_with_cwe_match@,
            at_least_one_region_with_cwe_1000_match: self.at_least_one_region_with_cwe_1000_match@,
            at_least_one_region_without_cwe_match: self.at_least_one_region_without_cwe_match@,
            ground_truth_negative_count: self.ground_truth_negative_count as int,
            ground_truth_positive_count: self.ground_truth_positive_count as int,
            truth_positive_cwe_match_count: self.truth_positive_cwe_match_count as int,
            truth_positive_cwe_1000_match_count: self.truth_positive_cwe_1000_match_count as int,
        }
    }
}

impl Clone for SummaryCard {
    fn clone(&self) -> (res: Self)
        ensures
            res@ == self@,
    {
        SummaryCard {
            at_least_one_file_with_rule_id_match: self.at_least_one_file_with_rule_id_match.clone(),
            at_least_one_file_with_cwe_match: self.at_least_one_file_with_cwe_match.clone(),
            at_least_one_file_with_cwe_1000_match: self
                .at_least_one_file_with_cwe_1000_match
                .clone(),
            at_least_one_file_without_cwe_match: self.at_least_one_file_without_cwe_match.clone(),
            at_least_one_region_with_rule_id_match: self
                .at_least_one_region_with_rule_id_match
                .clone(),
            at_least_one_region_with_cwe_match: self.at_least_one_region_with_cwe_match.clone(),
            at_least_one_region_with_cwe_1000_match: self
                .at_least_one_region_with_cwe_1000_match
                .clone(),
            at_least_one_region_without_cwe_match: self
                .at_least_one_region_without_cwe_match
                .clone(),
            ground_truth_negative_count: self.ground_truth_negative_count,
            ground_truth_positive_count: self.ground_truth_positive_count,
            truth_positive_cwe_match_count: self.truth_positive_cwe_match_count,
            truth_positive_cwe_1000_match_count: self.truth_positive_cwe_1000_match_count,
        }
    }
}

/// The counts of a card are admissible: every criterion's counts lie within
/// the card's ground-truth totals.
pub open spec fn card_wf(c: SpecSummaryCard) -> bool {
    &&& 0 <= c.ground_truth_positive_count
    &&& 0 <= c.ground_truth_negative_count
    &&& ratio_wf(c.at_least_one_file_with_rule_id_match, c)
    &&& ratio_wf(c.at_least_one_file_with_cwe_match, c)
    &&& ratio_wf(c.at_least_one_file_with_cwe_1000_match, c)
    &&& ratio_wf(c.at_least_one_file_without_cwe_match, c)
    &&& ratio_wf(c.at_least_one_region_with_rule_id_match, c)
    &&& ratio_wf(c.at_least_one_region_with_cwe_match, c)
    &&& ratio_wf(c.at_least_one_region_with_cwe_1000_match, c)
    &&& ratio_wf(c.at_least_one_region_without_cwe_match, c)
    &&& 0 <= c.truth_positive_cwe_match_count <= c.ground_truth_positive_count
    &&& 0 <= c.truth_positive_cwe_1000_match_count <= c.ground_truth_positive_count
}

/// One criterion's counts lie within the card's ground-truth totals.
pub open spec fn ratio_wf(r: SpecSummaryRatios, c: SpecSummaryCard) -> bool {
    &&& 0 <= r.true_positive_count <= c.ground_truth_positive_count
    &&& 0 <= r.false_positive_count <= c.ground_truth_negative_count
}

/// The union of two cards: ground-truth totals and counts add, every ratio
/// is recomputed from the summed counts (the ratio of sums, never the
/// average of ratios).
pub open spec fn spec_card_union(a: SpecSummaryCard, b: SpecSummaryCard) -> SpecSummaryCard {
    let pos = a.ground_truth_positive_count + b.ground_truth_positive_count;
    let neg = a.ground_truth_negative_count + b.ground_truth_negative_count;
    SpecSummaryCard {
        at_least_one_file_with_rule_id_match: spec_ratio_union(
            a.at_least_one_file_with_rule_id_match,
            b.at_least_one_file_with_rule_id_match,
            pos,
            neg,
        ),
        at_least_one_file_with_cwe_match: spec_ratio_union(
            a.at_least_one_file_with_cwe_match,
            b.at_least_one_file_with_cwe_match,
            pos,
            neg,
        ),
        at_least_one_file_with_cwe_1000_match: spec_ratio_union(
            a.at_least_one_file_with_cwe_1000_match,
            b.at_least_one_file_with_cwe_1000_match,
            pos,
            neg,
        ),
        at_least_one_file_without_cwe_match: spec_ratio_union(
            a.at_least_one_file_without_cwe_match,
            b.at_least_one_file_without_cwe_match,
            pos,
            neg,
        ),
        at_least_one_region_with_rule_id_match: spec_ratio_union(
            a.at_least_one_region_with_rule_id_match,
            b.at_least_one_region_with_rule_id_match,
            pos,
            neg,
        ),
        at_least_one_region_with_cwe_match: spec_ratio_union(
            a.at_least_one_region_with_cwe_match,
            b.at_least_one_region_with_cwe_match,
            pos,
            neg,
        ),
        at_least_one_region_with_cwe_1000_match: spec_ratio_union(
            a.at_least_one_region_with_cwe_1000_match,
            b.at_least_one_region_with_cwe_1000_match,
            pos,
            neg,
        ),
        at_least_one_region_without_cwe_match: spec_ratio_union(
            a.at_least_one_region_without_cwe_match,
            b.at_least_one_region_without_cwe_match,
            pos,
            neg,
        ),
        ground_truth_negative_count: neg,
        ground_truth_positive_count: pos,
        truth_positive_cwe_match_count: a.truth_positive_cwe_match_count
            + b.truth_positive_cwe_match_count,
        truth_positive_cwe_1000_match_count: a.truth_positive_cwe_1000_match_count
            + b.truth_positive_cwe_1000_match_count,
    }
}

/// The union of two criterion blocks at the spec level.
pub open spec fn spec_ratio_union(
    a: SpecSummaryRatios,
    b: SpecSummaryRatios,
    pos: int,
    neg: int,
) -> SpecSummaryRatios {
    spec_ratios(
        a.true_positive_count + b.true_positive_count,
        a.false_positive_count + b.false_positive_count,
        pos,
        neg,
    )
}

impl SummaryCard {
    /// The union of two cards: counts add, ratios are recomputed from the
    /// summed counts against the summed ground-truth totals.
    pub fn union(&self, other: &Self) -> (r: SummaryCard)
        requires
            card_wf(self@),
            card_wf(other@),
            self@.ground_truth_positive_count + other@.ground_truth_positive_count <= MAX_COUNT
                as int,
            self@.ground_truth_negative_count + other@.ground_truth_negative_count <= MAX_COUNT
                as int,
        ensures
            r@ == spec_card_union(self@, other@),
            card_wf(r@),
    {
        let ground_truth_positive_count = self.ground_truth_positive_count
            + other.ground_truth_positive_count;
        let ground_truth_negative_count = self.ground_truth_negative_count
            + other.ground_truth_negative_count;
        SummaryCard {
            at_least_one_file_with_rule_id_match: self.at_least_one_file_with_rule_id_match.union(
                &other.at_least_one_file_with_rule_id_match,
                ground_truth_positive_count,
                ground_truth_negative_count,
            ),
            at_least_one_file_with_cwe_match: self.at_least_one_file_with_cwe_match.union(
                &other.at_least_one_file_with_cwe_match,
                ground_truth_positive_count,
                ground_truth_negative_count,
            ),
            at_least_one_file_with_cwe_1000_match: self
                .at_least_one_file_with_cwe_1000_match
                .union(
                &other.at_least_one_file_with_cwe_1000_match,
                ground_truth_positive_count,
                ground_truth_negative_count,
            ),
            at_least_one_file_without_cwe_match: self.at_least_one_file_without_cwe_match.union(
                &other.at_least_one_file_without_cwe_match,
                ground_truth_positive_count,
                ground_truth_negative_count,
            ),
            at_least_one_region_with_rule_id_match: self
                .at_least_one_region_with_rule_id_match
                .union(
                &other.at_least_one_region_with_rule_id_match,
                ground_truth_positive_count,
                ground_truth_negative_count,
            ),
            at_least_one_region_with_cwe_match: self.at_least_one_region_with_cwe_match.union(
                &other.at_least_one_region_with_cwe_match,
                ground_truth_positive_count,
                ground_truth_negative_count,
            ),
            at_least_one_region_with_cwe_1000_match: self
                .at_least_one_region_with_cwe_1000_match
                .union(
                &other.at_least_one_region_with_cwe_1000_match,
                ground_truth_positive_count,
                ground_truth_negative_count,
            ),
            at_least_one_region_without_cwe_match: self
                .at_least_one_region_without_cwe_match
                .union(
                &other.at_least_one_region_without_cwe_match,
                ground_truth_positive_count,
                ground_truth_negative_count,
            ),
            ground_truth_negative_count,
            ground_truth_positive_count,
            truth_positive_cwe_match_count: self.truth_positive_cwe_match_count
                + other.truth_positive_cwe_match_count,
            truth_positive_cwe_1000_match_count: self.truth_positive_cwe_1000_match_count
                + other.truth_positive_cwe_1000_match_count,
        }
    }
}

// ---------------------------------------------------------------------------
// Counting the summary verdicts of a run
// ---------------------------------------------------------------------------
/// How many elements satisfy `pred`.
pub open spec fn count_if(s: Seq<SpecToolResultCard>, pred: spec_fn(SpecToolResultCard) -> bool) -> int
    decreases s.len(),
{
    if s.len() == 0 {
        0
    } else {
        count_if(s.drop_last(), pred) + (if pred(s.last()) {
            1int
        } else {
            0int
        })
    }
}

/// The count of the ground-truth positives (`Fail` expectations).
pub open spec fn n_pos(s: Seq<SpecToolResultCard>) -> int {
    count_if(s, |c: SpecToolResultCard| c.expected_result.expected_kind == Kind::Fail)
}

/// The count of the ground-truth negatives (`Pass` expectations).
pub open spec fn n_neg(s: Seq<SpecToolResultCard>) -> int {
    count_if(s, |c: SpecToolResultCard| c.expected_result.expected_kind == Kind::Pass)
}

/// The count of cards of kind `k` whose summary verdict matched a file and
/// the exact rule id.
pub open spec fn n_file_rule(s: Seq<SpecToolResultCard>, k: Kind) -> int {
    count_if(
        s,
        |c: SpecToolResultCard|
            c.expected_result.expected_kind == k && c.max_minimal_match.at_least_one_file_match
                && c.max_minimal_match.rule_id_match,
    )
}

/// ... a file and a CWE.
pub open spec fn n_file_cwe(s: Seq<SpecToolResultCard>, k: Kind) -> int {
    count_if(
        s,
        |c: SpecToolResultCard|
            c.expected_result.expected_kind == k && c.max_minimal_match.at_least_one_file_match
                && c.max_minimal_match.cwe_match,
    )
}

/// ... a file and a CWE-1000 class.
pub open spec fn n_file_class(s: Seq<SpecToolResultCard>, k: Kind) -> int {
    count_if(
        s,
        |c: SpecToolResultCard|
            c.expected_result.expected_kind == k && c.max_minimal_match.at_least_one_file_match
                && c.max_minimal_match.cwe_1000_match,
    )
}

/// ... a file, regardless of CWE.
pub open spec fn n_file_any(s: Seq<SpecToolResultCard>, k: Kind) -> int {
    count_if(
        s,
        |c: SpecToolResultCard|
            c.expected_result.expected_kind == k && c.max_minimal_match.at_least_one_file_match,
    )
}

/// ... a region and the exact rule id.
pub open spec fn n_region_rule(s: Seq<SpecToolResultCard>, k: Kind) -> int {
    count_if(
        s,
        |c: SpecToolResultCard|
            c.expected_result.expected_kind == k && c.max_minimal_match.at_least_one_region_match
                && c.max_minimal_match.rule_id_match,
    )
}

/// ... a region and a CWE.
pub open spec fn n_region_cwe(s: Seq<SpecToolResultCard>, k: Kind) -> int {
    count_if(
        s,
        |c: SpecToolResultCard|
            c.expected_result.expected_kind == k && c.max_minimal_match.at_least_one_region_match
                && c.max_minimal_match.cwe_match,
    )
}

/// ... a region and a CWE-1000 class.
pub open spec fn n_region_class(s: Seq<SpecToolResultCard>, k: Kind) -> int {
    count_if(
        s,
        |c: SpecToolResultCard|
            c.expected_result.expected_kind == k && c.max_minimal_match.at_least_one_region_match
                && c.max_minimal_match.cwe_1000_match,
    )
}

/// ... a region, regardless of CWE.
pub open spec fn n_region_any(s: Seq<SpecToolResultCard>, k: Kind) -> int {
    count_if(
        s,
        |c: SpecToolResultCard|
            c.expected_result.expected_kind == k && c.max_minimal_match.at_least_one_region_match,
    )
}

/// Some Pareto-kept verdict of the card matched on the CWE axis.
pub open spec fn pareto_has_cwe(c: SpecToolResultCard) -> bool {
    exists|j: int|
        0 <= j < c.max_match.len() && (#[trigger] c.max_match[j]).minimal_match.cwe_match
}

/// Some Pareto-kept verdict of the card matched on the class axis.
pub open spec fn pareto_has_class(c: SpecToolResultCard) -> bool {
    exists|j: int|
        0 <= j < c.max_match.len() && (#[trigger] c.max_match[j]).minimal_match.cwe_1000_match
}

/// The count of ground-truth positives with a CWE match among their
/// Pareto-kept verdicts.
pub open spec fn n_pareto_cwe(s: Seq<SpecToolResultCard>) -> int {
    count_if(
        s,
        |c: SpecToolResultCard|
            c.expected_result.expected_kind == Kind::Fail && pareto_has_cwe(c),
    )
}

/// The count of ground-truth positives with a class match among their
/// Pareto-kept verdicts.
pub open spec fn n_pareto_class(s: Seq<SpecToolResultCard>) -> int {
    count_if(
        s,
        |c: SpecToolResultCard|
            c.expected_result.expected_kind == Kind::Fail && pareto_has_class(c),
    )
}

/// The aggregate card of a collection of evaluation records: counts per
/// criterion within each partition (`Fail` counts are true positives,
/// `Pass` counts false positives), ratios from those counts.
pub open spec fn spec_summary_of_cards(s: Seq<SpecToolResultCard>) -> SpecSummaryCard {
    SpecSummaryCard {
        at_least_one_file_with_rule_id_match: spec_ratios(
            n_file_rule(s, Kind::Fail),
            n_file_rule(s, Kind::Pass),
            n_pos(s),
            n_neg(s),
        ),
        at_least_one_file_with_cwe_match: spec_ratios(
            n_file_cwe(s, Kind::Fail),
            n_file_cwe(s, Kind::Pass),
            n_pos(s),
            n_neg(s),
        ),
        at_least_one_file_with_cwe_1000_match: spec_ratios(
            n_file_class(s, Kind::Fail),
            n_file_class(s, Kind::Pass),
            n_pos(s),
            n_neg(s),
        ),
        at_least_one_file_without_cwe_match: spec_ratios(
            n_file_any(s, Kind::Fail),
            n_file_any(s, Kind::Pass),
            n_pos(s),
            n_neg(s),
        ),
        at_least_one_region_with_rule_id_match: spec_ratios(
            n_region_rule(s, Kind::Fail),
            n_region_rule(s, Kind::Pass),
            n_pos(s),
            n_neg(s),
        ),
        at_least_one_region_with_cwe_match: spec_ratios(
            n_region_cwe(s, Kind::Fail),
            n_region_cwe(s, Kind::Pass),
            n_pos(s),
            n_neg(s),
        ),
        at_least_one_region_with_cwe_1000_match: spec_ratios(
            n_region_class(s, Kind::Fail),
            n_region_class(s, Kind::Pass),
            n_pos(s),
            n_neg(s),
        ),
        at_least_one_region_without_cwe_match: spec_ratios(
            n_region_any(s, Kind::Fail),
            n_region_any(s, Kind::Pass),
            n_pos(s),
            n_neg(s),
        ),
        ground_truth_negative_count: n_neg(s),
        ground_truth_positive_count: n_pos(s),
        truth_positive_cwe_match_count: n_pareto_cwe(s),
        truth_positive_cwe_1000_match_count: n_pareto_class(s),
    }
}

/// The mathematical values of a collection of borrowed cards.
pub open spec fn card_views(s: Seq<&ToolResultCard>) -> Seq<SpecToolResultCard> {
    s.map_values(|c: &ToolResultCard| c@)
}

/// Whether any Pareto-kept verdict of the card matched on the CWE axis,
/// and on the class axis.
fn pareto_matches(card: &ToolResultCard) -> (r: (bool, bool))
    ensures
        r.0 == pareto_has_cwe(card@),
        r.1 == pareto_has_class(card@),
{
    let mut has_cwe: bool = false;
    let mut has_class: bool = false;
    let mut j: usize = 0;
    while j < card.max_match.len()
        invariant
            j <= card.max_match.len(),
            card@.max_match.len() == card.max_match.len(),
            forall|x: int|
                0 <= x < card.max_match@.len() ==> #[trigger] card@.max_match[x]
                    == card.max_match@[x]@,
            has_cwe == (exists|x: int|
                0 <= x < j && (#[trigger] card@.max_match[x]).minimal_match.cwe_match),
            has_class == (exists|x: int|
                0 <= x < j && (#[trigger] card@.max_match[x]).minimal_match.cwe_1000_match),
        decreases card.max_match.len() - j,
    {
        if card.max_match[j].minimal_match.cwe_match {
            has_cwe = true;
            proof {
                assert(card@.max_match[j as int].minimal_match.cwe_match);
            }
        }
        if card.max_match[j].minimal_match.cwe_1000_match {
            has_class = true;
            proof {
                assert(card@.max_match[j as int].minimal_match.cwe_1000_match);
            }
        }
        j += 1;
    }
    (has_cwe, has_class)
}

/// Compute the aggregate card of a collection of evaluation records:
/// count, within the `Fail` and `Pass` partitions separately, how many
/// summary verdicts satisfy each criterion, and derive every ratio from
/// those counts.
pub fn summarize_match_card_vec(cards: &Vec<&ToolResultCard>) -> (r: SummaryCard)
    requires
        cards@.len() <= MAX_COUNT,
    ensures
        r@ == spec_summary_of_cards(card_views(cards@)),
        card_wf(r@),
{
    let ghost views = card_views(cards@);
    let mut pos: i64 = 0;
    let mut neg: i64 = 0;
    let mut f_file_rule: i64 = 0;
    let mut f_file_cwe: i64 = 0;
    let mut f_file_class: i64 = 0;
    let mut f_file_any: i64 = 0;
    let mut f_region_rule: i64 = 0;
    let mut f_region_cwe: i64 = 0;
    let mut f_region_class: i64 = 0;
    let mut f_region_any: i64 = 0;
    let mut p_file_rule: i64 = 0;
    let mut p_file_cwe: i64 = 0;
    let mut p_file_class: i64 = 0;
    let mut p_file_any: i64 = 0;
    let mut p_region_rule: i64 = 0;
    let mut p_region_cwe: i64 = 0;
    let mut p_region_class: i64 = 0;
    let mut p_region_any: i64 = 0;
    let mut pareto_cwe: i64 = 0;
    let mut pareto_class: i64 = 0;
    let n: usize = cards.len();
    let mut i: usize = 0;
    while i < n
        invariant
            n == cards@.len(),
            n <= MAX_COUNT,
            views == card_views(cards@),
            views.len() == n,
            i <= n,
            forall|x: int| 0 <= x < n ==> #[trigger] views[x] == cards@[x]@,
            pos == n_pos(views.take(i as int)) && 0 <= pos <= i,
            neg == n_neg(views.take(i as int)) && 0 <= neg <= i,
            f_file_rule == n_file_rule(views.take(i as int), Kind::Fail) && 0 <= f_file_rule <= i,
            f_file_cwe == n_file_cwe(views.take(i as int), Kind::Fail) && 0 <= f_file_cwe <= i,
            f_file_class == n_file_class(views.take(i as int), Kind::Fail) && 0 <= f_file_class
                <= i,
            f_file_any == n_file_any(views.take(i as int), Kind::Fail) && 0 <= f_file_any <= i,
            f_region_rule == n_region_rule(views.take(i as int), Kind::Fail) && 0 <= f_region_rule
                <= i,
            f_region_cwe == n_region_cwe(views.take(i as int), Kind::Fail) && 0 <= f_region_cwe
                <= i,
            f_region_class == n_region_class(views.take(i as int), Kind::Fail) && 0
                <= f_region_class <= i,
            f_region_any == n_region_any(views.take(i as int), Kind::Fail) && 0 <= f_region_any
                <= i,
            p_file_rule == n_file_rule(views.take(i as int), Kind::Pass) && 0 <= p_file_rule <= i,
            p_file_cwe == n_file_cwe(views.take(i as int), Kind::Pass) && 0 <= p_file_cwe <= i,
            p_file_class == n_file_class(views.take(i as int), Kind::Pass) && 0 <= p_file_class
                <= i,
            p_file_any == n_file_any(views.take(i as int), Kind::Pass) && 0 <= p_file_any <= i,
            p_region_rule == n_region_rule(views.take(i as int), Kind::Pass) && 0 <= p_region_rule
                <= i,
            p_region_cwe == n_region_cwe(views.take(i as int), Kind::Pass) && 0 <= p_region_cwe
                <= i,
            p_region_class == n_region_class(views.take(i as int), Kind::Pass) && 0
                <= p_region_class <= i,
            p_region_any == n_region_any(views.take(i as int), Kind::Pass) && 0 <= p_region_any
                <= i,
            pareto_cwe == n_pareto_cwe(views.take(i as int)) && 0 <= pareto_cwe <= i,
            pareto_class == n_pareto_class(views.take(i as int)) && 0 <= pareto_class <= i,
            f_file_rule <= pos && f_file_cwe <= pos && f_file_class <= pos && f_file_any <= pos,
            f_region_rule <= pos && f_region_cwe <= pos && f_region_class <= pos && f_region_any
                <= pos,
            p_file_rule <= neg && p_file_cwe <= neg && p_file_class <= neg && p_file_any <= neg,
            p_region_rule <= neg && p_region_cwe <= neg && p_region_class <= neg && p_region_any
                <= neg,
            pareto_cwe <= pos && pareto_class <= pos,
        decreases n - i,
    {
        let card: &ToolResultCard = cards[i];
        let is_fail: bool = match card.expected_result.expected_kind {
            Kind::Fail => true,
            Kind::Pass => false,
        };
        let m = &card.max_minimal_match;
        let (has_cwe, has_class) = pareto_matches(card);
        proof {
            assert(views.take(i + 1 as int).drop_last() =~= views.take(i as int));
            assert(views.take(i + 1 as int).last() == views[i as int]);
            assert(views[i as int] == cards@[i as int]@);
        }
        if is_fail {
            pos += 1;
            if m.at_least_one_file_match && m.rule_id_match {
                f_file_rule += 1;
            }
            if m.at_least_one_file_match && m.cwe_match {
                f_file_cwe += 1;
            }
            if m.at_least_one_file_match && m.cwe_1000_match {
                f_file_class += 1;
            }
            if m.at_least_one_file_match {
                f_file_any += 1;
            }
            if m.at_least_one_region_match && m.rule_id_match {
                f_region_rule += 1;
            }
            if m.at_least_one_region_match && m.cwe_match {
                f_region_cwe += 1;
            }
            if m.at_least_one_region_match && m.cwe_1000_match {
                f_region_class += 1;
            }
            if m.at_least_one_region_match {
                f_region_any += 1;
            }
            if has_cwe {
                pareto_cwe += 1;
            }
            if has_class {
                pareto_class += 1;
            }
        } else {
            neg += 1;
            if m.at_least_one_file_match && m.rule_id_match {
                p_file_rule += 1;
            }
            if m.at_least_one_file_match && m.cwe_match {
                p_file_cwe += 1;
            }
            if m.at_least_one_file_match && m.cwe_1000_match {
                p_file_class += 1;
            }
            if m.at_least_one_file_match {
                p_file_any += 1;
            }
            if m.at_least_one_region_match && m.rule_id_match {
                p_region_rule += 1;
            }
            if m.at_least_one_region_match && m.cwe_match {
                p_region_cwe += 1;
            }
            if m.at_least_one_region_match && m.cwe_1000_match {
                p_region_class += 1;
            }
            if m.at_least_one_region_match {
                p_region_any += 1;
            }
        }
        i += 1;
    }
    proof {
        assert(views.take(n as int) =~= views);
    }
    SummaryCard {
        at_least_one_file_with_rule_id_match: SummaryRatios::from_stats(
            f_file_rule,
            p_file_rule,
            pos,
            neg,
        ),
        at_least_one_file_with_cwe_match: SummaryRatios::from_stats(
            f_file_cwe,
            p_file_cwe,
            pos,
            neg,
        ),
        at_least_one_file_with_cwe_1000_match: SummaryRatios::from_stats(
            f_file_class,
            p_file_class,
            pos,
            neg,
        ),
        at_least_one_file_without_cwe_match: SummaryRatios::from_stats(
            f_file_any,
            p_file_any,
            pos,
            neg,
        ),
        at_least_one_region_with_rule_id_match: SummaryRatios::from_stats(
            f_region_rule,
            p_region_rule,
            pos,
            neg,
        ),
        at_least_one_region_with_cwe_match: SummaryRatios::from_stats(
            f_region_cwe,
            p_region_cwe,
            pos,
            neg,
        ),
        at_least_one_region_with_cwe_1000_match: SummaryRatios::from_stats(
            f_region_class,
            p_region_class,
            pos,
            neg,
        ),
        at_least_one_region_without_cwe_match: SummaryRatios::from_stats(
            f_region_any,
            p_region_any,
            pos,
            neg,
        ),
        ground_truth_negative_count: neg,
        ground_truth_positive_count: pos,
        truth_positive_cwe_match_count: pareto_cwe,
        truth_positive_cwe_1000_match_count: pareto_class,
    }
}

/// The aggregate card of one whole evaluation record.
pub fn summarize_tool_results(tool_result: &ToolResultsCard) -> (r: SummaryCard)
    requires
        tool_result.result@.len() <= MAX_COUNT,
    ensures
        r@ == spec_summary_of_cards(tool_result.result@.map_values(|c: ToolResultCard| c@)),
        card_wf(r@),
{
    let mut refs: Vec<&ToolResultCard> = Vec::new();
    let n: usize = tool_result.result.len();
    let mut i: usize = 0;
    while i < n
        invariant
            n == tool_result.result@.len(),
            i <= n,
            refs@.len() == i,
            forall|j: int| 0 <= j < i ==> #[trigger] refs@[j] == &tool_result.result@[j],
        decreases n - i,
    {
        refs.push(&tool_result.result[i]);
        i += 1;
    }
    let r = summarize_match_card_vec(&refs);
    proof {
        assert(card_views(refs@) =~= tool_result.result@.map_values(|c: ToolResultCard| c@));
    }
    r
}

// ---------------------------------------------------------------------------
// Breakdowns by CWE key
// ---------------------------------------------------------------------------
/// An aggregate card labelled with the CWE collection it covers.
#[derive(Debug)]
pub struct NamedSummaryCard {
    pub name: CWEs,
    pub summary: SummaryCard,
}

/// The mathematical value of a `NamedSummaryCard`.
pub struct SpecNamedSummaryCard {
    pub name: Seq<CWE>,
    pub summary: SpecSummaryCard,
}

impl View for NamedSummaryCard {
    type V = SpecNamedSummaryCard;

    open spec fn view(&self) -> SpecNamedSummaryCard {
        SpecNamedSummaryCard { name: self.name@, summary: self.summary@ }
    }
}

impl Clone for NamedSummaryCard {
    fn clone(&self) -> (res: Self)
        ensures
            res@ == self@,
    {
        NamedSummaryCard { name: self.name.clone(), summary: self.summary.clone() }
    }
}

/// The distinct expected-CWE keys of the cards, in first-occurrence order.
pub open spec fn spec_group_keys(s: Seq<SpecToolResultCard>) -> Seq<Seq<CWE>>
    decreases s.len(),
{
    if s.len() == 0 {
        Seq::empty()
    } else {
        let prev = spec_group_keys(s.drop_last());
        if prev.contains(s.last().expected_result.expected_cwe) {
            prev
        } else {
            prev.push(s.last().expected_result.expected_cwe)
        }
    }
}

/// The cards whose expected CWEs are exactly `key`, in order.
pub open spec fn cards_with_cwe(s: Seq<SpecToolResultCard>, key: Seq<CWE>) -> Seq<
    SpecToolResultCard,
> {
    s.filter(|c: SpecToolResultCard| c.expected_result.expected_cwe == key)
}

/// A group is no larger than the whole collection.
proof fn lemma_cards_with_cwe_len(s: Seq<SpecToolResultCard>, key: Seq<CWE>)
    ensures
        cards_with_cwe(s, key).len() <= s.len(),
{
    s.lemma_filter_len(|c: SpecToolResultCard| c.expected_result.expected_cwe == key);
}

/// The mathematical values of a collection of CWE keys.
pub open spec fn cwes_views(s: Seq<CWEs>) -> Seq<Seq<CWE>> {
    s.map_values(|k: CWEs| k@)
}

/// Whether `keys` already holds `key`.
fn keys_contains(keys: &Vec<CWEs>, key: &CWEs) -> (r: bool)
    ensures
        r == cwes_views(keys@).contains(key@),
{
    let mut i: usize = 0;
    while i < keys.len()
        invariant
            i <= keys.len(),
            forall|j: int| 0 <= j < i ==> (#[trigger] keys@[j])@ != key@,
        decreases keys.len() - i,
    {
        if crate::truth::cwe_vecs_eq(&keys[i].0, &key.0) {
            proof {
                assert(cwes_views(keys@)[i as int] == key@);
            }
            return true;
        }
        i += 1;
    }
    proof {
        if cwes_views(keys@).contains(key@) {
            let j = choose|j: int|
                0 <= j < cwes_views(keys@).len() && cwes_views(keys@)[j] == key@;
            assert(keys@[j]@ == key@);
        }
    }
    false
}

/// Group the evaluation records by their expected CWE collection and
/// aggregate each group: one labelled card per distinct key, in
/// first-occurrence order, each aggregating exactly the records with that
/// key.
pub fn summarize_tool_results_by_cwe(tool_result: &ToolResultsCard) -> (r: Vec<NamedSummaryCard>)
    requires
        tool_result.result@.len() <= MAX_COUNT,
    ensures
        ({
            let views = tool_result.result@.map_values(|c: ToolResultCard| c@);
            let keys = spec_group_keys(views);
            &&& r@.len() == keys.len()
            &&& forall|i: int|
                0 <= i < keys.len() ==> (#[trigger] r@[i])@.name == keys[i] && r@[i]@.summary
                    == spec_summary_of_cards(cards_with_cwe(views, keys[i])) && card_wf(
                    r@[i]@.summary,
                )
        }),
{
    let ghost views = tool_result.result@.map_values(|c: ToolResultCard| c@);
    let n: usize = tool_result.result.len();

    let mut keys: Vec<CWEs> = Vec::new();
    let mut i: usize = 0;
    while i < n
        invariant
            n == tool_result.result@.len(),
            views == tool_result.result@.map_values(|c: ToolResultCard| c@),
            views.len() == n,
            i <= n,
            forall|x: int| 0 <= x < n ==> #[trigger] views[x] == tool_result.result@[x]@,
            cwes_views(keys@) == spec_group_keys(views.take(i as int)),
        decreases n - i,
    {
        let key = &tool_result.result[i].expected_result.expected_cwe;
        let seen = keys_contains(&keys, key);
        proof {
            assert(views.take(i + 1 as int).drop_last() =~= views.take(i as int));
            assert(views.take(i + 1 as int).last() == views[i as int]);
            assert(key@ == views[i as int].expected_result.expected_cwe);
        }
        if !seen {
            let ghost keys_before = keys@;
            keys.push(key.clone());
            proof {
                assert(cwes_views(keys@) =~= cwes_views(keys_before).push(key@));
            }
        }
        i += 1;
    }
    proof {
        assert(views.take(n as int) =~= views);
    }
    let ghost gkeys = spec_group_keys(views);

    let mut result: Vec<NamedSummaryCard> = Vec::new();
    let kn: usize = keys.len();
    let mut g: usize = 0;
    while g < kn
        invariant
            n == tool_result.result@.len(),
            views == tool_result.result@.map_values(|c: ToolResultCard| c@),
            views.len() == n,
            n <= MAX_COUNT,
            forall|x: int| 0 <= x < n ==> #[trigger] views[x] == tool_result.result@[x]@,
            kn == keys@.len(),
            cwes_views(keys@) == gkeys,
            g <= kn,
            result@.len() == g,
            forall|x: int|
                0 <= x < g ==> (#[trigger] result@[x])@.name == gkeys[x] && result@[x]@.summary
                    == spec_summary_of_cards(cards_with_cwe(views, gkeys[x])) && card_wf(
                    result@[x]@.summary,
                ),
        decreases kn - g,
    {
        let key = &keys[g];
        proof {
            assert(key@ == gkeys[g as int]);
        }
        let mut refs: Vec<&ToolResultCard> = Vec::new();
        let mut j: usize = 0;
        while j < n
            invariant
                n == tool_result.result@.len(),
                views == tool_result.result@.map_values(|c: ToolResultCard| c@),
                views.len() == n,
                forall|x: int| 0 <= x < n ==> #[trigger] views[x] == tool_result.result@[x]@,
                g < kn,
                kn == keys@.len(),
                key == keys@[g as int],
                j <= n,
                card_views(refs@) == cards_with_cwe(views.take(j as int), key@),
            decreases n - j,
        {
            let hit = crate::truth::cwe_vecs_eq(
                &tool_result.result[j].expected_result.expected_cwe.0,
                &key.0,
            );
            proof {
                reveal(Seq::filter);
                assert(views.take(j + 1 as int).drop_last() =~= views.take(j as int));
                assert(views.take(j + 1 as int).last() == views[j as int]);
                assert(hit == (views[j as int].expected_result.expected_cwe == key@));
            }
            if hit {
                let ghost refs_before = refs@;
                refs.push(&tool_result.result[j]);
                proof {
                    assert(cards_with_cwe(views.take(j + 1 as int), key@) =~= cards_with_cwe(
                        views.take(j as int),
                        key@,
                    ).push(views[j as int]));
                    assert(card_views(refs@) =~= card_views(refs_before).push(views[j as int]));
                }
            } else {
                proof {
                    assert(cards_with_cwe(views.take(j + 1 as int), key@) =~= cards_with_cwe(
                        views.take(j as int),
                        key@,
                    ));
                }
            }
            j += 1;
        }
        proof {
            assert(views.take(n as int) =~= views);
            lemma_cards_with_cwe_len(views, key@);
        }
        let summary = summarize_match_card_vec(&refs);
        result.push(NamedSummaryCard { name: key.clone(), summary });
        g += 1;
    }
    result
}

// ---------------------------------------------------------------------------
// Breakdowns by CWE-1000 class key
// ---------------------------------------------------------------------------
/// The classes covering one CWE, or nothing when the taxonomy does not
/// know it.
pub open spec fn classes_list(entries: Seq<(CWE, Vec<CWE>)>, roots: Seq<CWE>, c: CWE) -> Seq<CWE> {
    match crate::taxonomy::spec_classes_of(entries, roots, c) {
        Some(cls) => cls,
        None => Seq::empty(),
    }
}

/// Insert a CWE into an ascending, duplicate-free collection, keeping it
/// ascending and duplicate-free.
pub open spec fn insert_cwe_sorted(s: Seq<CWE>, c: CWE) -> Seq<CWE>
    decreases s.len(),
{
    if s.len() == 0 {
        seq![c]
    } else if c.0 < s[0].0 {
        seq![c] + s
    } else if c.0 == s[0].0 {
        s
    } else {
        seq![s[0]] + insert_cwe_sorted(s.drop_first(), c)
    }
}

/// Insert every element of `cs`, in order.
pub open spec fn insert_all_sorted(s: Seq<CWE>, cs: Seq<CWE>) -> Seq<CWE>
    decreases cs.len(),
{
    if cs.len() == 0 {
        s
    } else {
        insert_cwe_sorted(insert_all_sorted(s, cs.drop_last()), cs.last())
    }
}

/// The canonical class key of a CWE collection: all classes covering any of
/// its CWEs, ascending and duplicate-free.
pub open spec fn spec_class_key(
    entries: Seq<(CWE, Vec<CWE>)>,
    roots: Seq<CWE>,
    cwes: Seq<CWE>,
) -> Seq<CWE>
    decreases cwes.len(),
{
    if cwes.len() == 0 {
        Seq::empty()
    } else {
        insert_all_sorted(
            spec_class_key(entries, roots, cwes.drop_last()),
            classes_list(entries, roots, cwes.last()),
        )
    }
}

/// Where a sorted insertion lands: at the first index whose number is not
/// below `c`, replacing nothing when that entry already is `c`.
proof fn lemma_insert_cwe_sorted_char(s: Seq<CWE>, c: CWE, p: int)
    requires
        0 <= p <= s.len(),
        forall|j: int| 0 <= j < p ==> (#[trigger] s[j]).0 < c.0,
        p < s.len() ==> c.0 <= s[p].0,
    ensures
        p < s.len() && s[p].0 == c.0 ==> insert_cwe_sorted(s, c) == s,
        !(p < s.len() && s[p].0 == c.0) ==> insert_cwe_sorted(s, c) == s.insert(p, c),
    decreases p,
{
    if p == 0 {
        if s.len() == 0 {
            assert(insert_cwe_sorted(s, c) =~= s.insert(0, c));
        } else if s[0].0 == c.0 {
        } else {
            assert(c.0 < s[0].0);
            assert(seq![c] + s =~= s.insert(0, c));
        }
    } else {
        assert(s[0].0 < c.0);
        assert forall|j: int| 0 <= j < p - 1 implies (#[trigger] s.drop_first()[j]).0 < c.0 by {
            assert(s.drop_first()[j] == s[j + 1]);
        }
        assert(p - 1 < s.drop_first().len() ==> c.0 <= s.drop_first()[p - 1].0);
        lemma_insert_cwe_sorted_char(s.drop_first(), c, p - 1);
        if p < s.len() && s[p].0 == c.0 {
            assert(s.drop_first()[p - 1] == s[p]);
            assert(insert_cwe_sorted(s.drop_first(), c) == s.drop_first());
            assert(seq![s[0]] + s.drop_first() =~= s);
        } else {
            assert(seq![s[0]] + s.drop_first().insert(p - 1, c) =~= s.insert(p, c));
        }
    }
}

/// Insert a CWE into an ascending, duplicate-free vector.
fn insert_cwe_sorted_exec(v: Vec<CWE>, c: CWE) -> (r: Vec<CWE>)
    ensures
        r@ == insert_cwe_sorted(v@, c),
{
    let mut p: usize = 0;
    while p < v.len() && v[p].0 < c.0
        invariant
            p <= v.len(),
            forall|j: int| 0 <= j < p ==> (#[trigger] v@[j]).0 < c.0,
        decreases v.len() - p,
    {
        p += 1;
    }
    proof {
        lemma_insert_cwe_sorted_char(v@, c, p as int);
    }
    if p < v.len() && v[p].0 == c.0 {
        v
    } else {
        let mut r = v;
        r.insert(p, c);
        r
    }
}

/// The canonical class key of a finding's CWE collection.
fn class_key_exec(taxonomy: &crate::taxonomy::Taxonomy, cwes: &CWEs) -> (r: Vec<CWE>)
    requires
        taxonomy.wf(),
    ensures
        r@ == spec_class_key(taxonomy.parents@, taxonomy.cwe_1000@, cwes@),
{
    let mut key: Vec<CWE> = Vec::new();
    let n: usize = cwes.0.len();
    let mut i: usize = 0;
    while i < n
        invariant
            taxonomy.wf(),
            n == cwes.0@.len(),
            i <= n,
            key@ == spec_class_key(taxonomy.parents@, taxonomy.cwe_1000@, cwes@.take(i as int)),
        decreases n - i,
    {
        proof {
            assert(cwes@.take(i + 1 as int).drop_last() =~= cwes@.take(i as int));
            assert(cwes@.take(i + 1 as int).last() == cwes@[i as int]);
        }
        match taxonomy.to_cwe_1000(&cwes.0[i]) {
            Some(classes) => {
                let ghost key_start = key@;
                let ghost cls = classes_list(
                    taxonomy.parents@,
                    taxonomy.cwe_1000@,
                    cwes@[i as int],
                );
                proof {
                    assert(cls == classes@);
                }
                let m: usize = classes.len();
                let mut k: usize = 0;
                // `classes` borrows from `taxonomy`, so copy its elements
                // out before growing the key.
                let mut pending: Vec<CWE> = Vec::new();
                while k < m
                    invariant
                        k <= m,
                        m == classes@.len(),
                        pending@ == classes@.take(k as int),
                    decreases m - k,
                {
                    let cw: CWE = classes[k];
                    pending.push(cw);
                    proof {
                        assert(classes@.take(k as int).push(cw) =~= classes@.take(k + 1 as int));
                    }
                    k += 1;
                }
                proof {
                    assert(pending@ =~= classes@);
                }
                let mut k2: usize = 0;
                while k2 < pending.len()
                    invariant
                        k2 <= pending@.len(),
                        pending@ == cls,
                        key@ == insert_all_sorted(key_start, cls.take(k2 as int)),
                    decreases pending@.len() - k2,
                {
                    let cw: CWE = pending[k2];
                    key = insert_cwe_sorted_exec(key, cw);
                    proof {
                        assert(cls.take(k2 + 1 as int).drop_last() =~= cls.take(k2 as int));
                        assert(cls.take(k2 + 1 as int).last() == cls[k2 as int]);
                    }
                    k2 += 1;
                }
                proof {
                    assert(cls.take(cls.len() as int) =~= cls);
                }
            },
            None => {
                proof {
                    assert(classes_list(taxonomy.parents@, taxonomy.cwe_1000@, cwes@[i as int])
                        =~= Seq::<CWE>::empty());
                }
            },
        }
        i += 1;
    }
    proof {
        assert(cwes@.take(n as int) =~= cwes@);
    }
    key
}

/// The distinct nonempty class keys of the cards, in first-occurrence
/// order; cards whose CWEs fall in no class are left out.
pub open spec fn spec_class_group_keys(
    entries: Seq<(CWE, Vec<CWE>)>,
    roots: Seq<CWE>,
    s: Seq<SpecToolResultCard>,
) -> Seq<Seq<CWE>>
    decreases s.len(),
{
    if s.len() == 0 {
        Seq::empty()
    } else {
        let prev = spec_class_group_keys(entries, roots, s.drop_last());
        let k = spec_class_key(entries, roots, s.last().expected_result.expected_cwe);
        if k.len() == 0 || prev.contains(k) {
            prev
        } else {
            prev.push(k)
        }
    }
}

/// The cards whose class key is exactly `key`, in order.
pub open spec fn cards_with_class_key(
    entries: Seq<(CWE, Vec<CWE>)>,
    roots: Seq<CWE>,
    s: Seq<SpecToolResultCard>,
    key: Seq<CWE>,
) -> Seq<SpecToolResultCard> {
    s.filter(
        |c: SpecToolResultCard|
            spec_class_key(entries, roots, c.expected_result.expected_cwe) == key,
    )
}

/// A class group is no larger than the whole collection.
proof fn lemma_cards_with_class_key_len(
    entries: Seq<(CWE, Vec<CWE>)>,
    roots: Seq<CWE>,
    s: Seq<SpecToolResultCard>,
    key: Seq<CWE>,
)
    ensures
        cards_with_class_key(entries, roots, s, key).len() <= s.len(),
{
    s.lemma_filter_len(
        |c: SpecToolResultCard|
            spec_class_key(entries, roots, c.expected_result.expected_cwe) == key,
    );
}

/// Group the evaluation records by the CWE-1000 classes their expected
/// CWEs fall in and aggregate each group: one labelled card per distinct
/// nonempty class key, in first-occurrence order; records whose CWEs fall
/// in no class are left out.
pub fn summarize_tool_results_by_cwe_1000(
    tool_result: &ToolResultsCard,
    taxonomy: &crate::taxonomy::Taxonomy,
) -> (r: Vec<NamedSummaryCard>)
    requires
        taxonomy.wf(),
        tool_result.result@.len() <= MAX_COUNT,
    ensures
        ({
            let views = tool_result.result@.map_values(|c: ToolResultCard| c@);
            let keys = spec_class_group_keys(taxonomy.parents@, taxonomy.cwe_1000@, views);
            &&& r@.len() == keys.len()
            &&& forall|i: int|
                0 <= i < keys.len() ==> (#[trigger] r@[i])@.name == keys[i] && r@[i]@.summary
                    == spec_summary_of_cards(
                    cards_with_class_key(taxonomy.parents@, taxonomy.cwe_1000@, views, keys[i]),
                ) && card_wf(r@[i]@.summary)
        }),
{
    let ghost views = tool_result.result@.map_values(|c: ToolResultCard| c@);
    let ghost entries = taxonomy.parents@;
    let ghost roots = taxonomy.cwe_1000@;
    let n: usize = tool_result.result.len();

    let mut keys: Vec<CWEs> = Vec::new();
    let mut i: usize = 0;
    while i < n
        invariant
            taxonomy.wf(),
            entries == taxonomy.parents@,
            roots == taxonomy.cwe_1000@,
            n == tool_result.result@.len(),
            views == tool_result.result@.map_values(|c: ToolResultCard| c@),
            views.len() == n,
            i <= n,
            forall|x: int| 0 <= x < n ==> #[trigger] views[x] == tool_result.result@[x]@,
            cwes_views(keys@) == spec_class_group_keys(entries, roots, views.take(i as int)),
        decreases n - i,
    {
        let key_vec = class_key_exec(taxonomy, &tool_result.result[i].expected_result.expected_cwe);
        let key = CWEs(key_vec);
        proof {
            assert(views.take(i + 1 as int).drop_last() =~= views.take(i as int));
            assert(views.take(i + 1 as int).last() == views[i as int]);
            assert(key@ == spec_class_key(
                entries,
                roots,
                views[i as int].expected_result.expected_cwe,
            ));
        }
        if key.0.len() > 0 {
            let seen = keys_contains(&keys, &key);
            if !seen {
                let ghost keys_before = keys@;
                keys.push(key);
                proof {
                    assert(cwes_views(keys@) =~= cwes_views(keys_before).push(
                        spec_class_key(
                            entries,
                            roots,
                            views[i as int].expected_result.expected_cwe,
                        ),
                    ));
                }
            }
        }
        i += 1;
    }
    proof {
        assert(views.take(n as int) =~= views);
    }
    let ghost gkeys = spec_class_group_keys(entries, roots, views);

    let mut result: Vec<NamedSummaryCard> = Vec::new();
    let kn: usize = keys.len();
    let mut g: usize = 0;
    while g < kn
        invariant
            taxonomy.wf(),
            entries == taxonomy.parents@,
            roots == taxonomy.cwe_1000@,
            n == tool_result.result@.len(),
            views == tool_result.result@.map_values(|c: ToolResultCard| c@),
            views.len() == n,
            n <= MAX_COUNT,
            forall|x: int| 0 <= x < n ==> #[trigger] views[x] == tool_result.result@[x]@,
            kn == keys@.len(),
            cwes_views(keys@) == gkeys,
            g <= kn,
            result@.len() == g,
            forall|x: int|
                0 <= x < g ==> (#[trigger] result@[x])@.name == gkeys[x] && result@[x]@.summary
                    == spec_summary_of_cards(cards_with_class_key(entries, roots, views, gkeys[x]))
                    && card_wf(result@[x]@.summary),
        decreases kn - g,
    {
        let key = &keys[g];
        proof {
            assert(key@ == gkeys[g as int]);
        }
        let mut refs: Vec<&ToolResultCard> = Vec::new();
        let mut j: usize = 0;
        while j < n
            invariant
                taxonomy.wf(),
                entries == taxonomy.parents@,
                roots == taxonomy.cwe_1000@,
                n == tool_result.result@.len(),
                views == tool_result.result@.map_values(|c: ToolResultCard| c@),
                views.len() == n,
                forall|x: int| 0 <= x < n ==> #[trigger] views[x] == tool_result.result@[x]@,
                g < kn,
                kn == keys@.len(),
                key == keys@[g as int],
                j <= n,
                card_views(refs@) == cards_with_class_key(
                    entries,
                    roots,
                    views.take(j as int),
                    key@,
                ),
            decreases n - j,
        {
            let card_key = class_key_exec(
                taxonomy,
                &tool_result.result[j].expected_result.expected_cwe,
            );
            let hit = crate::truth::cwe_vecs_eq(&card_key, &key.0);
            proof {
                reveal(Seq::filter);
                assert(views.take(j + 1 as int).drop_last() =~= views.take(j as int));
                assert(views.take(j + 1 as int).last() == views[j as int]);
                assert(hit == (spec_class_key(
                    entries,
                    roots,
                    views[j as int].expected_result.expected_cwe,
                ) == key@));
            }
            if hit {
                let ghost refs_before = refs@;
                refs.push(&tool_result.result[j]);
                proof {
                    assert(cards_with_class_key(entries, roots, views.take(j + 1 as int), key@)
                        =~= cards_with_class_key(entries, roots, views.take(j as int), key@).push(
                        views[j as int],
                    ));
                    assert(card_views(refs@) =~= card_views(refs_before).push(views[j as int]));
                }
            } else {
                proof {
                    assert(cards_with_class_key(entries, roots, views.take(j + 1 as int), key@)
                        =~= cards_with_class_key(entries, roots, views.take(j as int), key@));
                }
            }
            j += 1;
        }
        proof {
            assert(views.take(n as int) =~= views);
            lemma_cards_with_class_key_len(entries, roots, views, key@);
        }
        let summary = summarize_match_card_vec(&refs);
        result.push(NamedSummaryCard { name: key.clone(), summary });
        g += 1;
    }
    result
}

// ---------------------------------------------------------------------------
// Per-tool summary cards and their union
// ---------------------------------------------------------------------------
/// The mathematical values of a collection of labelled cards.
pub open spec fn named_views(s: Seq<NamedSummaryCard>) -> Seq<SpecNamedSummaryCard> {
    s.map_values(|x: NamedSummaryCard| x@)
}

/// The first labelled card with the given name.
pub open spec fn find_named(s: Seq<SpecNamedSummaryCard>, name: Seq<CWE>) -> Option<
    SpecNamedSummaryCard,
>
    decreases s.len(),
{
    if s.len() == 0 {
        None
    } else if s[0].name == name {
        Some(s[0])
    } else {
        find_named(s.drop_first(), name)
    }
}

/// What a find says: a hit is in range with the right name and nothing
/// before it matches; a miss means no entry matches.
proof fn lemma_find_named_char(s: Seq<SpecNamedSummaryCard>, name: Seq<CWE>)
    ensures
        match find_named(s, name) {
            Some(y) => exists|i: int|
                0 <= i < s.len() && #[trigger] s[i] == y && s[i].name == name,
            None => forall|i: int| 0 <= i < s.len() ==> (#[trigger] s[i]).name != name,
        },
    decreases s.len(),
{
    if s.len() > 0 && s[0].name != name {
        lemma_find_named_char(s.drop_first(), name);
        match find_named(s.drop_first(), name) {
            Some(y) => {
                let i = choose|i: int|
                    0 <= i < s.drop_first().len() && #[trigger] s.drop_first()[i] == y
                        && s.drop_first()[i].name == name;
                assert(s[i + 1] == y);
            },
            None => {
                assert forall|i: int| 0 <= i < s.len() implies (#[trigger] s[i]).name != name by {
                    if i > 0 {
                        assert(s.drop_first()[i - 1] == s[i]);
                    }
                }
            },
        }
    }
}

/// Skipping entries whose names all differ keeps the find.
proof fn lemma_find_named_skip(s: Seq<SpecNamedSummaryCard>, name: Seq<CWE>, i: int)
    requires
        0 <= i <= s.len(),
        forall|j: int| 0 <= j < i ==> (#[trigger] s[j]).name != name,
    ensures
        find_named(s, name) == find_named(s.skip(i), name),
    decreases i,
{
    if i > 0 {
        assert forall|j: int| 0 <= j < i - 1 implies (#[trigger] s.drop_first()[j]).name
            != name by {
            assert(s.drop_first()[j] == s[j + 1]);
        }
        lemma_find_named_skip(s.drop_first(), name, i - 1);
        assert(s.drop_first().skip(i - 1) =~= s.skip(i));
    } else {
        assert(s.skip(0) =~= s);
    }
}

/// How one left-hand entry fares in a merge: unioned with its namesake on
/// the right, or kept as it is.
pub open spec fn merge_entry(
    b: Seq<SpecNamedSummaryCard>,
    x: SpecNamedSummaryCard,
) -> SpecNamedSummaryCard {
    match find_named(b, x.name) {
        Some(y) => SpecNamedSummaryCard {
            name: x.name,
            summary: spec_card_union(x.summary, y.summary),
        },
        None => x,
    }
}

/// Merge two labelled-card collections by name: every left entry, unioned
/// with its right namesake where one exists, then every right entry whose
/// name the left does not know.
pub open spec fn merge_named(
    a: Seq<SpecNamedSummaryCard>,
    b: Seq<SpecNamedSummaryCard>,
) -> Seq<SpecNamedSummaryCard> {
    a.map_values(|x: SpecNamedSummaryCard| merge_entry(b, x)) + b.filter(
        |y: SpecNamedSummaryCard| find_named(a, y.name) is None,
    )
}

/// Every card of the collection is admissible, its counts lie within the
/// given totals, and no name repeats.
pub open spec fn named_list_wf(s: Seq<SpecNamedSummaryCard>, runs: SpecSummaryCard) -> bool {
    &&& forall|i: int|
        0 <= i < s.len() ==> card_wf((#[trigger] s[i]).summary)
            && s[i].summary.ground_truth_positive_count <= runs.ground_truth_positive_count
            && s[i].summary.ground_truth_negative_count <= runs.ground_truth_negative_count
    &&& forall|i: int, j: int|
        0 <= i < j < s.len() ==> (#[trigger] s[i]).name != (#[trigger] s[j]).name
}

impl NamedSummaryCard {
    /// The union of two equally named cards: counts add, ratios are
    /// recomputed from the sums.
    pub fn union(&self, other: &Self) -> (r: NamedSummaryCard)
        requires
            self@.name == other@.name,
            card_wf(self@.summary),
            card_wf(other@.summary),
            self@.summary.ground_truth_positive_count
                + other@.summary.ground_truth_positive_count <= MAX_COUNT as int,
            self@.summary.ground_truth_negative_count
                + other@.summary.ground_truth_negative_count <= MAX_COUNT as int,
        ensures
            r@.name == self@.name,
            r@.summary == spec_card_union(self@.summary, other@.summary),
            card_wf(r@.summary),
    {
        NamedSummaryCard { name: self.name.clone(), summary: self.summary.union(&other.summary) }
    }
}

/// The first labelled card with the given name, if any.
fn find_named_exec<'a>(s: &'a Vec<NamedSummaryCard>, name: &CWEs) -> (r: Option<
    &'a NamedSummaryCard,
>)
    ensures
        match r {
            Some(x) => find_named(named_views(s@), name@) == Some(x@),
            None => find_named(named_views(s@), name@) is None,
        },
{
    let mut i: usize = 0;
    while i < s.len()
        invariant
            i <= s.len(),
            forall|j: int| 0 <= j < i ==> (#[trigger] named_views(s@)[j]).name != name@,
        decreases s.len() - i,
    {
        if crate::truth::cwe_vecs_eq(&s[i].name.0, &name.0) {
            proof {
                lemma_find_named_skip(named_views(s@), name@, i as int);
                assert(named_views(s@).skip(i as int)[0] == named_views(s@)[i as int]);
            }
            return Some(&s[i]);
        }
        i += 1;
    }
    proof {
        lemma_find_named_skip(named_views(s@), name@, s@.len() as int);
        assert(named_views(s@).skip(s@.len() as int).len() == 0);
    }
    None
}

/// Merge two labelled-card collections by name.
fn merge_named_exec(
    a: &Vec<NamedSummaryCard>,
    b: &Vec<NamedSummaryCard>,
    Ghost(ar): Ghost<SpecSummaryCard>,
    Ghost(br): Ghost<SpecSummaryCard>,
) -> (r: Vec<NamedSummaryCard>)
    requires
        named_list_wf(named_views(a@), ar),
        named_list_wf(named_views(b@), br),
        0 <= ar.ground_truth_positive_count,
        0 <= ar.ground_truth_negative_count,
        0 <= br.ground_truth_positive_count,
        0 <= br.ground_truth_negative_count,
        ar.ground_truth_positive_count + br.ground_truth_positive_count <= MAX_COUNT as int,
        ar.ground_truth_negative_count + br.ground_truth_negative_count <= MAX_COUNT as int,
    ensures
        named_views(r@) == merge_named(named_views(a@), named_views(b@)),
        named_list_wf(named_views(r@), spec_card_union(ar, br)),
{
    let ghost av = named_views(a@);
    let ghost bv = named_views(b@);
    let mut out: Vec<NamedSummaryCard> = Vec::new();
    let an: usize = a.len();
    let mut i: usize = 0;
    while i < an
        invariant
            an == a@.len(),
            av == named_views(a@),
            bv == named_views(b@),
            av.len() == an,
            named_list_wf(av, ar),
            named_list_wf(bv, br),
            0 <= ar.ground_truth_positive_count,
            0 <= ar.ground_truth_negative_count,
            0 <= br.ground_truth_positive_count,
            0 <= br.ground_truth_negative_count,
            ar.ground_truth_positive_count + br.ground_truth_positive_count <= MAX_COUNT as int,
            ar.ground_truth_negative_count + br.ground_truth_negative_count <= MAX_COUNT as int,
            i <= an,
            forall|x: int| 0 <= x < an ==> #[trigger] av[x] == a@[x]@,
            named_views(out@) == av.take(i as int).map_values(
                |x: SpecNamedSummaryCard| merge_entry(bv, x),
            ),
        decreases an - i,
    {
        let ghost out_before = out@;
        proof {
            assert(av[i as int] == a@[i as int]@);
            assert(card_wf(av[i as int].summary));
        }
        let entry: NamedSummaryCard = match find_named_exec(b, &a[i].name) {
            Some(y) => {
                proof {
                    lemma_find_named_char(bv, av[i as int].name);
                    let k = choose|k: int|
                        0 <= k < bv.len() && #[trigger] bv[k] == y@ && bv[k].name == av[
                            i as int
                        ].name;
                    assert(card_wf(y@.summary));
                    assert(y@.summary.ground_truth_positive_count
                        <= br.ground_truth_positive_count);
                }
                a[i].union(y)
            },
            None => a[i].clone(),
        };
        proof {
            assert(entry@ == merge_entry(bv, av[i as int]));
        }
        out.push(entry);
        proof {
            assert(av.take(i + 1 as int).drop_last() =~= av.take(i as int));
            assert(av.take(i + 1 as int).last() == av[i as int]);
            let lhs = named_views(out@);
            let rhs = av.take(i + 1 as int).map_values(
                |x: SpecNamedSummaryCard| merge_entry(bv, x),
            );
            let old_lhs = named_views(out_before);
            let old_rhs = av.take(i as int).map_values(
                |x: SpecNamedSummaryCard| merge_entry(bv, x),
            );
            assert(old_lhs.len() == old_rhs.len());
            assert(lhs.len() == rhs.len());
            assert forall|t: int| 0 <= t < lhs.len() implies lhs[t] == rhs[t] by {
                if t < out_before.len() {
                    assert(out@[t] == out_before[t]);
                    assert(lhs[t] == out_before[t]@);
                    assert(old_lhs[t] == out_before[t]@);
                    assert(av.take(i + 1 as int)[t] == av.take(i as int)[t]);
                    assert(rhs[t] == old_rhs[t]);
                } else {
                    assert(out@[t] == entry);
                    assert(rhs[t] == merge_entry(bv, av.take(i + 1 as int)[t]));
                    assert(av.take(i + 1 as int)[t] == av[i as int]);
                }
            }
            assert(lhs =~= rhs);
        }
        i += 1;
    }
    proof {
        assert(av.take(an as int) =~= av);
    }
    let ghost part1 = av.map_values(|x: SpecNamedSummaryCard| merge_entry(bv, x));
    let bn: usize = b.len();
    let mut j: usize = 0;
    while j < bn
        invariant
            bn == b@.len(),
            av == named_views(a@),
            bv == named_views(b@),
            bv.len() == bn,
            part1 == av.map_values(|x: SpecNamedSummaryCard| merge_entry(bv, x)),
            j <= bn,
            forall|x: int| 0 <= x < bn ==> #[trigger] bv[x] == b@[x]@,
            named_views(out@) == part1 + bv.take(j as int).filter(
                |y: SpecNamedSummaryCard| find_named(av, y.name) is None,
            ),
        decreases bn - j,
    {
        let ghost out_before = out@;
        let absent: bool = match find_named_exec(a, &b[j].name) {
            Some(_) => false,
            None => true,
        };
        proof {
            reveal(Seq::filter);
            assert(bv.take(j + 1 as int).drop_last() =~= bv.take(j as int));
            assert(bv.take(j + 1 as int).last() == bv[j as int]);
            assert(absent == (find_named(av, bv[j as int].name) is None));
        }
        if absent {
            let entry = b[j].clone();
            proof {
                assert(entry@ == bv[j as int]);
            }
            out.push(entry);
            proof {
                let pred2 = |y: SpecNamedSummaryCard| find_named(av, y.name) is None;
                assert(bv.take(j + 1 as int).filter(pred2) =~= bv.take(j as int).filter(
                    pred2,
                ).push(bv[j as int]));
                let lhs = named_views(out@);
                let rhs = part1 + bv.take(j + 1 as int).filter(pred2);
                let old_lhs = named_views(out_before);
                let old_rhs = part1 + bv.take(j as int).filter(pred2);
                assert(old_lhs.len() == old_rhs.len());
                assert(lhs.len() == rhs.len());
                assert forall|t: int| 0 <= t < lhs.len() implies lhs[t] == rhs[t] by {
                    if t < out_before.len() {
                        assert(out@[t] == out_before[t]);
                        assert(lhs[t] == out_before[t]@);
                        assert(old_lhs[t] == out_before[t]@);
                        assert(rhs[t] == old_rhs[t]);
                    } else {
                        assert(out@[t] == entry);
                        assert(rhs[t] == bv[j as int]);
                    }
                }
                assert(lhs =~= rhs);
            }
        } else {
            proof {
                let pred2 = |y: SpecNamedSummaryCard| find_named(av, y.name) is None;
                assert(bv.take(j + 1 as int).filter(pred2) =~= bv.take(j as int).filter(pred2));
                assert(named_views(out@) =~= part1 + bv.take(j + 1 as int).filter(pred2));
            }
        }
        j += 1;
    }
    proof {
        assert(bv.take(bn as int) =~= bv);
        assert(named_views(out@) == merge_named(av, bv));
        lemma_merge_named_wf(av, bv, ar, br);
    }
    out
}

/// A merge of admissible lists is admissible against the unioned totals.
proof fn lemma_merge_named_wf(
    a: Seq<SpecNamedSummaryCard>,
    b: Seq<SpecNamedSummaryCard>,
    ar: SpecSummaryCard,
    br: SpecSummaryCard,
)
    requires
        named_list_wf(a, ar),
        named_list_wf(b, br),
        0 <= ar.ground_truth_positive_count,
        0 <= ar.ground_truth_negative_count,
        0 <= br.ground_truth_positive_count,
        0 <= br.ground_truth_negative_count,
        ar.ground_truth_positive_count + br.ground_truth_positive_count <= MAX_COUNT as int,
        ar.ground_truth_negative_count + br.ground_truth_negative_count <= MAX_COUNT as int,
    ensures
        named_list_wf(merge_named(a, b), spec_card_union(ar, br)),
{
    let m = merge_named(a, b);
    let part1 = a.map_values(|x: SpecNamedSummaryCard| merge_entry(b, x));
    let pred = |y: SpecNamedSummaryCard| find_named(a, y.name) is None;
    let part2 = b.filter(pred);
    assert forall|i: int|
        0 <= i < part2.len() implies exists|k: int|
        0 <= k < b.len() && #[trigger] part2[i] == b[k] && find_named(a, b[k].name) is None by {
        b.lemma_filter_pred(pred, i);
        let e = part2[i];
        assert(b.filter(pred).contains(e));
        b.lemma_filter_contains_rev(pred, e);
        let k = choose|k: int| 0 <= k < b.len() && b[k] == e;
        assert(part2[i] == b[k]);
        assert(find_named(a, b[k].name) is None);
    }
    assert forall|i: int| 0 <= i < m.len() implies card_wf((#[trigger] m[i]).summary)
        && m[i].summary.ground_truth_positive_count <= spec_card_union(
        ar,
        br,
    ).ground_truth_positive_count && m[i].summary.ground_truth_negative_count <= spec_card_union(
        ar,
        br,
    ).ground_truth_negative_count by {
        if i < part1.len() {
            assert(m[i] == part1[i]);
            assert(part1[i] == merge_entry(b, a[i]));
            assert(card_wf(a[i].summary));
            match find_named(b, a[i].name) {
                Some(y) => {
                    lemma_find_named_char(b, a[i].name);
                    let k = choose|k: int|
                        0 <= k < b.len() && #[trigger] b[k] == y && b[k].name == a[i].name;
                    assert(card_wf(b[k].summary));
                },
                None => {},
            }
        } else {
            assert(m[i] == part2[i - part1.len()]);
        }
    }
    assert forall|i: int, j: int|
        0 <= i < j < m.len() implies (#[trigger] m[i]).name != (#[trigger] m[j]).name by {
        if i < part1.len() && j < part1.len() {
            assert(m[i] == part1[i] && m[j] == part1[j]);
            assert(part1[i] == merge_entry(b, a[i]) && part1[j] == merge_entry(b, a[j]));
            assert(part1[i].name == a[i].name && part1[j].name == a[j].name);
        } else if i < part1.len() && j >= part1.len() {
            assert(m[i] == part1[i] && part1[i].name == a[i].name);
            assert(m[j] == part2[j - part1.len()]);
            let k = choose|k: int|
                0 <= k < b.len() && #[trigger] m[j] == b[k] && find_named(a, b[k].name) is None;
            lemma_find_named_char(a, b[k].name);
        } else {
            assert(m[i] == part2[i - part1.len()] && m[j] == part2[j - part1.len()]);
            lemma_filter_distinct_positions(b, pred, i - part1.len(), j - part1.len());
        }
    }
}

/// Two positions of a filtered collection come from two distinct source
/// positions when the source has pairwise distinct names.
proof fn lemma_filter_distinct_positions(
    b: Seq<SpecNamedSummaryCard>,
    pred: spec_fn(SpecNamedSummaryCard) -> bool,
    i: int,
    j: int,
)
    requires
        0 <= i < j < b.filter(pred).len(),
        forall|x: int, y: int|
            0 <= x < y < b.len() ==> (#[trigger] b[x]).name != (#[trigger] b[y]).name,
    ensures
        b.filter(pred)[i].name != b.filter(pred)[j].name,
    decreases b.len(),
{
    reveal(Seq::filter);
    let f = b.filter(pred);
    if b.len() > 0 {
        let rest = b.drop_last();
        assert forall|x: int, y: int|
            0 <= x < y < rest.len() implies (#[trigger] rest[x]).name != (
        #[trigger] rest[y]).name by {
            assert(rest[x] == b[x] && rest[y] == b[y]);
        }
        if pred(b.last()) {
            if j < f.len() - 1 {
                lemma_filter_distinct_positions(rest, pred, i, j);
            } else {
                // `f[j]` is the last source element; `f[i]` comes from the
                // rest, whose names all differ from the last.
                assert(f[j] == b.last());
                assert(f[i] == rest.filter(pred)[i]);
                rest.lemma_filter_pred(pred, i);
                rest.lemma_filter_contains_rev(pred, f[i]);
                let k = choose|k: int| 0 <= k < rest.len() && rest[k] == f[i];
                assert(b[k] == f[i]);
                assert(b[k].name != b[b.len() - 1].name);
            }
        } else {
            lemma_filter_distinct_positions(rest, pred, i, j);
        }
    }
}

/// The full summary of one tool on one benchmark: run metadata, the
/// aggregate card, and its per-CWE and per-class breakdowns.
#[derive(Debug)]
pub struct ToolSummaryCard {
    pub tool: Tool,
    pub total_time: u64,
    pub failed: usize,
    pub timeouts: usize,
    pub total: usize,
    pub runs_summary: SummaryCard,
    pub cwes_summary: Vec<NamedSummaryCard>,
    pub cwes_1000_summary: Vec<NamedSummaryCard>,
}

/// The mathematical value of a `ToolSummaryCard`.
pub struct SpecToolSummaryCard {
    pub tool: SpecTool,
    pub total_time: int,
    pub failed: int,
    pub timeouts: int,
    pub total: int,
    pub runs_summary: SpecSummaryCard,
    pub cwes_summary: Seq<SpecNamedSummaryCard>,
    pub cwes_1000_summary: Seq<SpecNamedSummaryCard>,
}

impl View for ToolSummaryCard {
    type V = SpecToolSummaryCard;

    open spec fn view(&self) -> SpecToolSummaryCard {
        SpecToolSummaryCard {
            tool: self.tool@,
            total_time: self.total_time as int,
            failed: self.failed as int,
            timeouts: self.timeouts as int,
            total: self.total as int,
            runs_summary: self.runs_summary@,
            cwes_summary: named_views(self.cwes_summary@),
            cwes_1000_summary: named_views(self.cwes_1000_summary@),
        }
    }
}

/// A copy of a labelled-card collection with the same values.
fn clone_named_vec(s: &Vec<NamedSummaryCard>) -> (r: Vec<NamedSummaryCard>)
    ensures
        named_views(r@) == named_views(s@),
{
    let v = s.clone();
    proof {
        assert forall|i: int| 0 <= i < v@.len() implies v@[i]@ == s@[i]@ by {
            assert(cloned::<NamedSummaryCard>(s@[i], v@[i]));
        }
        assert(named_views(v@) =~= named_views(s@));
    }
    v
}

impl Clone for ToolSummaryCard {
    fn clone(&self) -> (res: Self)
        ensures
            res@ == self@,
    {
        ToolSummaryCard {
            tool: self.tool.clone(),
            total_time: self.total_time,
            failed: self.failed,
            timeouts: self.timeouts,
            total: self.total,
            runs_summary: self.runs_summary.clone(),
            cwes_summary: clone_named_vec(&self.cwes_summary),
            cwes_1000_summary: clone_named_vec(&self.cwes_1000_summary),
        }
    }
}

/// The card is admissible: its aggregate counts are, its breakdowns are,
/// and every breakdown stays within the aggregate totals.
pub open spec fn tool_card_wf(c: SpecToolSummaryCard) -> bool {
    &&& card_wf(c.runs_summary)
    &&& named_list_wf(c.cwes_summary, c.runs_summary)
    &&& named_list_wf(c.cwes_1000_summary, c.runs_summary)
    &&& 0 <= c.total_time
    &&& 0 <= c.failed
    &&& 0 <= c.timeouts
    &&& 0 <= c.total
}

/// The union of two per-tool summaries at the spec level: metadata counts
/// and times add, the aggregate cards are unioned, the breakdown lists are
/// merged by name.
pub open spec fn spec_tool_union(
    a: SpecToolSummaryCard,
    b: SpecToolSummaryCard,
) -> SpecToolSummaryCard {
    SpecToolSummaryCard {
        tool: a.tool,
        total_time: a.total_time + b.total_time,
        failed: a.failed + b.failed,
        timeouts: a.timeouts + b.timeouts,
        total: a.total + b.total,
        runs_summary: spec_card_union(a.runs_summary, b.runs_summary),
        cwes_summary: merge_named(a.cwes_summary, b.cwes_summary),
        cwes_1000_summary: merge_named(a.cwes_1000_summary, b.cwes_1000_summary),
    }
}

impl ToolSummaryCard {
    /// The union of two summaries of the same tool over different
    /// benchmarks: metadata counts and times add, the aggregate cards are
    /// unioned, and the breakdown lists are merged by name.
    pub fn union(&self, other: &Self) -> (r: ToolSummaryCard)
        requires
            self@.tool == other@.tool,
            tool_card_wf(self@),
            tool_card_wf(other@),
            self@.runs_summary.ground_truth_positive_count
                + other@.runs_summary.ground_truth_positive_count <= MAX_COUNT as int,
            self@.runs_summary.ground_truth_negative_count
                + other@.runs_summary.ground_truth_negative_count <= MAX_COUNT as int,
            self@.total_time + other@.total_time <= u64::MAX,
            self@.failed + other@.failed <= usize::MAX,
            self@.timeouts + other@.timeouts <= usize::MAX,
            self@.total + other@.total <= usize::MAX,
        ensures
            r@ == spec_tool_union(self@, other@),
            tool_card_wf(r@),
    {
        let cwes_summary = merge_named_exec(
            &self.cwes_summary,
            &other.cwes_summary,
            Ghost(self@.runs_summary),
            Ghost(other@.runs_summary),
        );
        let cwes_1000_summary = merge_named_exec(
            &self.cwes_1000_summary,
            &other.cwes_1000_summary,
            Ghost(self@.runs_summary),
            Ghost(other@.runs_summary),
        );
        ToolSummaryCard {
            tool: self.tool.clone(),
            total_time: self.total_time + other.total_time,
            failed: self.failed + other.failed,
            timeouts: self.timeouts + other.timeouts,
            total: self.total + other.total,
            runs_summary: self.runs_summary.union(&other.runs_summary),
            cwes_summary,
            cwes_1000_summary,
        }
    }
}

// ---------------------------------------------------------------------------
// Rolling per-tool summaries up a directory tree
// ---------------------------------------------------------------------------
/// The mathematical values of a collection of per-tool summaries.
pub open spec fn tool_card_views(s: Seq<ToolSummaryCard>) -> Seq<SpecToolSummaryCard> {
    s.map_values(|c: ToolSummaryCard| c@)
}

/// The distinct tools of the summaries, in first-occurrence order.
pub open spec fn spec_tool_keys(s: Seq<SpecToolSummaryCard>) -> Seq<SpecTool>
    decreases s.len(),
{
    if s.len() == 0 {
        Seq::empty()
    } else {
        let prev = spec_tool_keys(s.drop_last());
        if prev.contains(s.last().tool) {
            prev
        } else {
            prev.push(s.last().tool)
        }
    }
}

/// The summaries of one tool, in order.
pub open spec fn cards_with_tool(
    s: Seq<SpecToolSummaryCard>,
    t: SpecTool,
) -> Seq<SpecToolSummaryCard> {
    s.filter(|c: SpecToolSummaryCard| c.tool == t)
}

/// The left fold of a nonempty collection of one tool's summaries by
/// union.
pub open spec fn spec_fold_tool_union(s: Seq<SpecToolSummaryCard>) -> SpecToolSummaryCard
    recommends
        s.len() > 0,
    decreases s.len(),
{
    if s.len() <= 1 {
        s[0]
    } else {
        spec_tool_union(spec_fold_tool_union(s.drop_last()), s.last())
    }
}

/// The totals that bound a roll-up: summed ground-truth counts, times and
/// run counters of the collection.
pub open spec fn spec_tool_sums(s: Seq<SpecToolSummaryCard>) -> (int, int, int, int, int, int)
    decreases s.len(),
{
    if s.len() == 0 {
        (0, 0, 0, 0, 0, 0)
    } else {
        let p = spec_tool_sums(s.drop_last());
        let c = s.last();
        (
            p.0 + c.runs_summary.ground_truth_positive_count,
            p.1 + c.runs_summary.ground_truth_negative_count,
            p.2 + c.total_time,
            p.3 + c.failed,
            p.4 + c.timeouts,
            p.5 + c.total,
        )
    }
}

/// The roll-up stays within its arithmetic limits when the summed counts
/// of the whole collection do.
pub open spec fn spec_tool_sums_ok(s: Seq<SpecToolSummaryCard>) -> bool {
    let t = spec_tool_sums(s);
    &&& t.0 <= MAX_COUNT as int
    &&& t.1 <= MAX_COUNT as int
    &&& t.2 <= u64::MAX as int
    &&& t.3 <= usize::MAX as int
    &&& t.4 <= usize::MAX as int
    &&& t.5 <= usize::MAX as int
}

/// All summaries of the collection are admissible.
pub open spec fn all_tool_cards_wf(s: Seq<SpecToolSummaryCard>) -> bool {
    forall|i: int| 0 <= i < s.len() ==> tool_card_wf(#[trigger] s[i])
}

/// Sums of admissible summaries are componentwise nonnegative.
proof fn lemma_tool_sums_nonneg(s: Seq<SpecToolSummaryCard>)
    requires
        all_tool_cards_wf(s),
    ensures
        spec_tool_sums(s).0 >= 0,
        spec_tool_sums(s).1 >= 0,
        spec_tool_sums(s).2 >= 0,
        spec_tool_sums(s).3 >= 0,
        spec_tool_sums(s).4 >= 0,
        spec_tool_sums(s).5 >= 0,
    decreases s.len(),
{
    if s.len() > 0 {
        let rest = s.drop_last();
        assert(all_tool_cards_wf(rest)) by {
            assert forall|i: int| 0 <= i < rest.len() implies tool_card_wf(
                #[trigger] rest[i],
            ) by {
                assert(rest[i] == s[i]);
            }
        }
        lemma_tool_sums_nonneg(rest);
        assert(tool_card_wf(s.last()));
    }
}

/// Every summary of a group is a summary of the collection, so the group's
/// sums stay within the collection's.
proof fn lemma_group_sums_le(s: Seq<SpecToolSummaryCard>, t: SpecTool)
    requires
        all_tool_cards_wf(s),
    ensures
        spec_tool_sums(cards_with_tool(s, t)).0 <= spec_tool_sums(s).0,
        spec_tool_sums(cards_with_tool(s, t)).1 <= spec_tool_sums(s).1,
        spec_tool_sums(cards_with_tool(s, t)).2 <= spec_tool_sums(s).2,
        spec_tool_sums(cards_with_tool(s, t)).3 <= spec_tool_sums(s).3,
        spec_tool_sums(cards_with_tool(s, t)).4 <= spec_tool_sums(s).4,
        spec_tool_sums(cards_with_tool(s, t)).5 <= spec_tool_sums(s).5,
    decreases s.len(),
{
    reveal(Seq::filter);
    if s.len() > 0 {
        let rest = s.drop_last();
        assert(all_tool_cards_wf(rest)) by {
            assert forall|i: int| 0 <= i < rest.len() implies tool_card_wf(
                #[trigger] rest[i],
            ) by {
                assert(rest[i] == s[i]);
            }
        }
        lemma_group_sums_le(rest, t);
        assert(all_tool_cards_wf(cards_with_tool(rest, t))) by {
            lemma_group_all_wf(rest, t);
        }
        lemma_tool_sums_nonneg(cards_with_tool(rest, t));
        assert(tool_card_wf(s.last()));
        if s.last().tool == t {
            assert(cards_with_tool(s, t) == cards_with_tool(rest, t).push(s.last()));
            assert(cards_with_tool(s, t).drop_last() =~= cards_with_tool(rest, t));
        } else {
            assert(cards_with_tool(s, t) == cards_with_tool(rest, t));
        }
    }
}

/// A group of an admissible collection is admissible.
proof fn lemma_group_all_wf(s: Seq<SpecToolSummaryCard>, t: SpecTool)
    requires
        all_tool_cards_wf(s),
    ensures
        all_tool_cards_wf(cards_with_tool(s, t)),
    decreases s.len(),
{
    reveal(Seq::filter);
    if s.len() > 0 {
        let rest = s.drop_last();
        assert(all_tool_cards_wf(rest)) by {
            assert forall|i: int| 0 <= i < rest.len() implies tool_card_wf(
                #[trigger] rest[i],
            ) by {
                assert(rest[i] == s[i]);
            }
        }
        lemma_group_all_wf(rest, t);
        let g = cards_with_tool(s, t);
        let gr = cards_with_tool(rest, t);
        assert forall|i: int| 0 <= i < g.len() implies tool_card_wf(#[trigger] g[i]) by {
            if s.last().tool == t {
                assert(g == gr.push(s.last()));
                if i < g.len() - 1 {
                    assert(g[i] == gr[i]);
                } else {
                    assert(g[i] == s.last());
                    assert(tool_card_wf(s.last()));
                }
            } else {
                assert(g == gr);
            }
        }
    }
}

/// A prefix's group sums stay within the whole collection's group sums.
proof fn lemma_group_sums_prefix_le(s: Seq<SpecToolSummaryCard>, t: SpecTool, j: int)
    requires
        all_tool_cards_wf(s),
        0 <= j <= s.len(),
    ensures
        spec_tool_sums(cards_with_tool(s.take(j), t)).0 <= spec_tool_sums(
            cards_with_tool(s, t),
        ).0,
        spec_tool_sums(cards_with_tool(s.take(j), t)).1 <= spec_tool_sums(
            cards_with_tool(s, t),
        ).1,
        spec_tool_sums(cards_with_tool(s.take(j), t)).2 <= spec_tool_sums(
            cards_with_tool(s, t),
        ).2,
        spec_tool_sums(cards_with_tool(s.take(j), t)).3 <= spec_tool_sums(
            cards_with_tool(s, t),
        ).3,
        spec_tool_sums(cards_with_tool(s.take(j), t)).4 <= spec_tool_sums(
            cards_with_tool(s, t),
        ).4,
        spec_tool_sums(cards_with_tool(s.take(j), t)).5 <= spec_tool_sums(
            cards_with_tool(s, t),
        ).5,
    decreases s.len() - j,
{
    reveal(Seq::filter);
    if j < s.len() {
        lemma_group_sums_prefix_le(s, t, j + 1);
        assert(s.take(j + 1).drop_last() =~= s.take(j));
        assert(s.take(j + 1).last() == s[j]);
        assert(tool_card_wf(s[j]));
        if s[j].tool == t {
            assert(cards_with_tool(s.take(j + 1), t) == cards_with_tool(s.take(j), t).push(
                s[j],
            ));
            assert(cards_with_tool(s.take(j + 1), t).drop_last() =~= cards_with_tool(
                s.take(j),
                t,
            ));
        } else {
            assert(cards_with_tool(s.take(j + 1), t) == cards_with_tool(s.take(j), t));
        }
    } else {
        assert(s.take(j) =~= s);
    }
}

/// Every key of the distinct-tools collection has at least one summary.
proof fn lemma_tool_key_has_card(s: Seq<SpecToolSummaryCard>, k: int)
    requires
        0 <= k < spec_tool_keys(s).len(),
    ensures
        cards_with_tool(s, spec_tool_keys(s)[k]).len() > 0,
    decreases s.len(),
{
    reveal(Seq::filter);
    if s.len() > 0 {
        let prev = spec_tool_keys(s.drop_last());
        let t = spec_tool_keys(s)[k];
        if k < prev.len() {
            assert(spec_tool_keys(s)[k] == prev[k]);
            lemma_tool_key_has_card(s.drop_last(), k);
            if s.last().tool == t {
                assert(cards_with_tool(s, t) == cards_with_tool(s.drop_last(), t).push(
                    s.last(),
                ));
            } else {
                assert(cards_with_tool(s, t) == cards_with_tool(s.drop_last(), t));
            }
        } else {
            assert(spec_tool_keys(s)[k] == s.last().tool);
            assert(cards_with_tool(s, t) == cards_with_tool(s.drop_last(), t).push(s.last()));
        }
    }
}

/// The mathematical values of a collection of tool keys.
pub open spec fn tool_key_views(s: Seq<Tool>) -> Seq<SpecTool> {
    s.map_values(|k: Tool| k@)
}

/// Look up a tool in the key collection.
fn tool_keys_contains(keys: &Vec<Tool>, t: &Tool) -> (r: bool)
    ensures
        r == tool_key_views(keys@).contains(t@),
{
    let mut i: usize = 0;
    while i < keys.len()
        invariant
            i <= keys.len(),
            forall|j: int| 0 <= j < i ==> (#[trigger] keys@[j])@ != t@,
        decreases keys.len() - i,
    {
        if keys[i].script == t.script && keys[i].config == t.config {
            proof {
                assert(tool_key_views(keys@)[i as int] == t@);
            }
            return true;
        }
        i += 1;
    }
    proof {
        if tool_key_views(keys@).contains(t@) {
            let j = choose|j: int|
                0 <= j < tool_key_views(keys@).len() && #[trigger] tool_key_views(keys@)[j]
                    == t@;
            assert(keys@[j]@ == t@);
        }
    }
    false
}

/// Merge a collection of per-tool summaries, one result per distinct tool
/// in first-occurrence order, each the union of all that tool's summaries:
/// counts add and every ratio is recomputed from the sums, however the
/// summaries were split over the tree.
pub fn union_tool_summaries(cards: &Vec<ToolSummaryCard>) -> (r: Vec<ToolSummaryCard>)
    requires
        all_tool_cards_wf(tool_card_views(cards@)),
        spec_tool_sums_ok(tool_card_views(cards@)),
    ensures
        ({
            let views = tool_card_views(cards@);
            let keys = spec_tool_keys(views);
            &&& r@.len() == keys.len()
            &&& forall|i: int|
                0 <= i < keys.len() ==> (#[trigger] r@[i])@ == spec_fold_tool_union(
                    cards_with_tool(views, keys[i]),
                ) && tool_card_wf(r@[i]@)
        }),
{
    let ghost views = tool_card_views(cards@);
    let n: usize = cards.len();

    let mut keys: Vec<Tool> = Vec::new();
    let mut i: usize = 0;
    while i < n
        invariant
            n == cards@.len(),
            views == tool_card_views(cards@),
            views.len() == n,
            i <= n,
            forall|x: int| 0 <= x < n ==> #[trigger] views[x] == cards@[x]@,
            tool_key_views(keys@) == spec_tool_keys(views.take(i as int)),
        decreases n - i,
    {
        let t = &cards[i].tool;
        let seen = tool_keys_contains(&keys, t);
        proof {
            assert(views.take(i + 1 as int).drop_last() =~= views.take(i as int));
            assert(views.take(i + 1 as int).last() == views[i as int]);
            assert(t@ == views[i as int].tool);
        }
        if !seen {
            let ghost keys_before = keys@;
            keys.push(t.clone());
            proof {
                assert(tool_key_views(keys@) =~= tool_key_views(keys_before).push(
                    views[i as int].tool,
                ));
            }
        }
        i += 1;
    }
    proof {
        assert(views.take(n as int) =~= views);
    }
    let ghost gkeys = spec_tool_keys(views);

    let mut result: Vec<ToolSummaryCard> = Vec::new();
    let kn: usize = keys.len();
    let mut g: usize = 0;
    while g < kn
        invariant
            n == cards@.len(),
            views == tool_card_views(cards@),
            views.len() == n,
            all_tool_cards_wf(views),
            spec_tool_sums_ok(views),
            forall|x: int| 0 <= x < n ==> #[trigger] views[x] == cards@[x]@,
            kn == keys@.len(),
            tool_key_views(keys@) == gkeys,
            gkeys == spec_tool_keys(views),
            g <= kn,
            result@.len() == g,
            forall|x: int|
                0 <= x < g ==> (#[trigger] result@[x])@ == spec_fold_tool_union(
                    cards_with_tool(views, gkeys[x]),
                ) && tool_card_wf(result@[x]@),
        decreases kn - g,
    {
        let key = &keys[g];
        proof {
            assert(key@ == gkeys[g as int]);
        }
        let mut acc: Option<ToolSummaryCard> = None;
        let mut j: usize = 0;
        while j < n
            invariant
                n == cards@.len(),
                views == tool_card_views(cards@),
                views.len() == n,
                all_tool_cards_wf(views),
                spec_tool_sums_ok(views),
                forall|x: int| 0 <= x < n ==> #[trigger] views[x] == cards@[x]@,
                g < kn,
                kn == keys@.len(),
                key == keys@[g as int],
                j <= n,
                ({
                    let group = cards_with_tool(views.take(j as int), key@);
                    match acc {
                        Some(a) => group.len() > 0 && a@ == spec_fold_tool_union(group)
                            && tool_card_wf(a@) && a@.tool == key@
                            && a@.runs_summary.ground_truth_positive_count == spec_tool_sums(
                            group,
                        ).0 && a@.runs_summary.ground_truth_negative_count == spec_tool_sums(
                            group,
                        ).1 && a@.total_time == spec_tool_sums(group).2 && a@.failed
                            == spec_tool_sums(group).3 && a@.timeouts == spec_tool_sums(group).4
                            && a@.total == spec_tool_sums(group).5,
                        None => group.len() == 0,
                    }
                }),
            decreases n - j,
        {
            let hit = cards[j].tool.script == key.script && cards[j].tool.config == key.config;
            let ghost group_before = cards_with_tool(views.take(j as int), key@);
            proof {
                reveal(Seq::filter);
                assert(views.take(j + 1 as int).drop_last() =~= views.take(j as int));
                assert(views.take(j + 1 as int).last() == views[j as int]);
                assert(hit == (views[j as int].tool == key@));
            }
            if hit {
                let ghost group_now = cards_with_tool(views.take(j + 1 as int), key@);
                proof {
                    assert(group_now == group_before.push(views[j as int]));
                    assert(group_now.drop_last() =~= group_before);
                    assert(group_now.last() == views[j as int]);
                    assert(tool_card_wf(views[j as int]));
                }
                acc = match acc {
                    None => {
                        proof {
                            assert(group_now.len() == 1);
                            assert(group_now[0] == views[j as int]);
                            assert(spec_fold_tool_union(group_now) == views[j as int]);
                            assert(group_before.len() == 0);
                            assert(spec_tool_sums(group_before).0 == 0);
                            assert(spec_tool_sums(group_now).0 == views[
                                j as int
                            ].runs_summary.ground_truth_positive_count);
                            assert(spec_tool_sums(group_now).1 == views[
                                j as int
                            ].runs_summary.ground_truth_negative_count);
                            assert(spec_tool_sums(group_now).2 == views[j as int].total_time);
                            assert(spec_tool_sums(group_now).3 == views[j as int].failed);
                            assert(spec_tool_sums(group_now).4 == views[j as int].timeouts);
                            assert(spec_tool_sums(group_now).5 == views[j as int].total);
                        }
                        Some(cards[j].clone())
                    },
                    Some(a) => {
                        proof {
                            lemma_group_sums_prefix_le(views, key@, j + 1 as int);
                            lemma_group_sums_le(views, key@);
                            lemma_group_all_wf(views.take(j as int), key@);
                            lemma_tool_sums_nonneg(group_before);
                            assert(spec_tool_sums(group_now).0 == spec_tool_sums(group_before).0
                                + views[j as int].runs_summary.ground_truth_positive_count);
                            assert(spec_tool_sums(group_now).0 <= spec_tool_sums(
                                cards_with_tool(views, key@),
                            ).0);
                            assert(spec_tool_sums(group_now).0 <= spec_tool_sums(views).0);
                            assert(spec_tool_sums(group_now).2 <= spec_tool_sums(views).2);
                            assert(spec_tool_sums(group_now).3 <= spec_tool_sums(views).3);
                            assert(spec_tool_sums(group_now).4 <= spec_tool_sums(views).4);
                            assert(spec_tool_sums(group_now).5 <= spec_tool_sums(views).5);
                            assert(a@.tool == views[j as int].tool);
                        }
                        let na = a.union(&cards[j]);
                        proof {
                            assert(na@ == spec_tool_union(a@, views[j as int]));
                            assert(group_now.len() > 1);
                            assert(spec_fold_tool_union(group_now) == spec_tool_union(
                                spec_fold_tool_union(group_before),
                                views[j as int],
                            ));
                            assert(na@ == spec_fold_tool_union(group_now));
                            assert(na@.runs_summary.ground_truth_positive_count
                                == spec_tool_sums(group_now).0);
                            assert(na@.runs_summary.ground_truth_negative_count
                                == spec_tool_sums(group_now).1);
                            assert(na@.total_time == spec_tool_sums(group_now).2);
                            assert(na@.failed == spec_tool_sums(group_now).3);
                            assert(na@.timeouts == spec_tool_sums(group_now).4);
                            assert(na@.total == spec_tool_sums(group_now).5);
                        }
                        Some(na)
                    },
                };
            } else {
                proof {
                    reveal(Seq::filter);
                    assert(cards_with_tool(views.take(j + 1 as int), key@) =~= group_before);
                }
            }
            j += 1;
        }
        proof {
            assert(views.take(n as int) =~= views);
        }
        match acc {
            Some(a) => {
                result.push(a);
            },
            None => {
                // Every key was seen among the summaries, so its group is
                // not empty.
                proof {
                    lemma_tool_key_has_card(views, g as int);
                    assert(false);
                }
            },
        }
        g += 1;
    }
    result
}

/// Appending one element adds its contribution to a count.
proof fn lemma_count_if_push(
    s: Seq<SpecToolResultCard>,
    e: SpecToolResultCard,
    pred: spec_fn(SpecToolResultCard) -> bool,
)
    ensures
        count_if(s.push(e), pred) == count_if(s, pred) + (if pred(e) {
            1int
        } else {
            0int
        }),
{
    assert(s.push(e).drop_last() =~= s);
    assert(s.push(e).last() == e);
}

/// A count over a filtered collection never exceeds the count over the
/// whole.
proof fn lemma_count_if_filter_le(
    s: Seq<SpecToolResultCard>,
    q: spec_fn(SpecToolResultCard) -> bool,
    pred: spec_fn(SpecToolResultCard) -> bool,
)
    ensures
        0 <= count_if(s.filter(q), pred) <= count_if(s, pred) + 0,
        count_if(s.filter(q), pred) <= count_if(s, pred),
        0 <= count_if(s, pred),
    decreases s.len(),
{
    reveal(Seq::filter);
    if s.len() > 0 {
        let rest = s.drop_last();
        lemma_count_if_filter_le(rest, q, pred);
        if q(s.last()) {
            lemma_count_if_push(rest.filter(q), s.last(), pred);
        }
    }
}

/// The distinct group keys really are pairwise distinct.
proof fn lemma_group_keys_distinct(s: Seq<SpecToolResultCard>)
    ensures
        forall|i: int, j: int|
            0 <= i < j < spec_group_keys(s).len() ==> #[trigger] spec_group_keys(s)[i] != (
            #[trigger] spec_group_keys(s)[j]),
    decreases s.len(),
{
    if s.len() > 0 {
        lemma_group_keys_distinct(s.drop_last());
        let prev = spec_group_keys(s.drop_last());
        let keys = spec_group_keys(s);
        if !prev.contains(s.last().expected_result.expected_cwe) {
            assert forall|i: int, j: int|
                0 <= i < j < keys.len() implies #[trigger] keys[i] != #[trigger] keys[j] by {
                if j == keys.len() - 1 {
                    assert(keys[i] == prev[i]);
                    assert(prev.contains(prev[i]));
                } else {
                    assert(keys[i] == prev[i] && keys[j] == prev[j]);
                }
            }
        }
    }
}

/// The distinct class group keys really are pairwise distinct.
proof fn lemma_class_group_keys_distinct(
    entries: Seq<(CWE, Vec<CWE>)>,
    roots: Seq<CWE>,
    s: Seq<SpecToolResultCard>,
)
    ensures
        forall|i: int, j: int|
            0 <= i < j < spec_class_group_keys(entries, roots, s).len()
                ==> #[trigger] spec_class_group_keys(entries, roots, s)[i] != (
            #[trigger] spec_class_group_keys(entries, roots, s)[j]),
    decreases s.len(),
{
    if s.len() > 0 {
        lemma_class_group_keys_distinct(entries, roots, s.drop_last());
        let prev = spec_class_group_keys(entries, roots, s.drop_last());
        let keys = spec_class_group_keys(entries, roots, s);
        let k = spec_class_key(entries, roots, s.last().expected_result.expected_cwe);
        if !(k.len() == 0 || prev.contains(k)) {
            assert forall|i: int, j: int|
                0 <= i < j < keys.len() implies #[trigger] keys[i] != #[trigger] keys[j] by {
                if j == keys.len() - 1 {
                    assert(keys[i] == prev[i]);
                    assert(prev.contains(prev[i]));
                } else {
                    assert(keys[i] == prev[i] && keys[j] == prev[j]);
                }
            }
        }
    }
}

/// A group's partition counts stay within the whole run's.
proof fn lemma_group_counts_le(s: Seq<SpecToolResultCard>, g: Seq<SpecToolResultCard>)
    requires
        exists|q: spec_fn(SpecToolResultCard) -> bool| g == #[trigger] s.filter(q),
    ensures
        n_pos(g) <= n_pos(s),
        n_neg(g) <= n_neg(s),
        0 <= n_pos(s),
        0 <= n_neg(s),
{
    let q = choose|q: spec_fn(SpecToolResultCard) -> bool| g == #[trigger] s.filter(q);
    lemma_count_if_filter_le(
        s,
        q,
        |c: SpecToolResultCard| c.expected_result.expected_kind == Kind::Fail,
    );
    lemma_count_if_filter_le(
        s,
        q,
        |c: SpecToolResultCard| c.expected_result.expected_kind == Kind::Pass,
    );
}

/// The full summary of one tool's run on one benchmark: the run metadata
/// folded in (one total run; one failure when it was never evaluated; one
/// timeout when it timed out), the aggregate card, and the per-CWE and
/// per-class breakdowns.
pub fn summarize_tool(
    tool: &Tool,
    md: &Metadata,
    card: &ToolResultsCard,
    taxonomy: &crate::taxonomy::Taxonomy,
) -> (r: ToolSummaryCard)
    requires
        taxonomy.wf(),
        card.result@.len() <= MAX_COUNT,
    ensures
        r@.tool == tool@,
        r@.total_time == md.time as int,
        r@.failed == (if md.evaluated {
            0int
        } else {
            1int
        }),
        r@.timeouts == (if md.status == Status::Timeout {
            1int
        } else {
            0int
        }),
        r@.total == 1,
        r@.runs_summary == spec_summary_of_cards(
            card.result@.map_values(|c: ToolResultCard| c@),
        ),
        ({
            let views = card.result@.map_values(|c: ToolResultCard| c@);
            let keys = spec_group_keys(views);
            &&& r@.cwes_summary.len() == keys.len()
            &&& forall|i: int|
                0 <= i < keys.len() ==> (#[trigger] r@.cwes_summary[i]).name == keys[i]
                    && r@.cwes_summary[i].summary == spec_summary_of_cards(
                    cards_with_cwe(views, keys[i]),
                )
        }),
        ({
            let views = card.result@.map_values(|c: ToolResultCard| c@);
            let keys = spec_class_group_keys(taxonomy.parents@, taxonomy.cwe_1000@, views);
            &&& r@.cwes_1000_summary.len() == keys.len()
            &&& forall|i: int|
                0 <= i < keys.len() ==> (#[trigger] r@.cwes_1000_summary[i]).name == keys[i]
                    && r@.cwes_1000_summary[i].summary == spec_summary_of_cards(
                    cards_with_class_key(taxonomy.parents@, taxonomy.cwe_1000@, views, keys[i]),
                )
        }),
        tool_card_wf(r@),
{
    let ghost views = card.result@.map_values(|c: ToolResultCard| c@);
    let runs_summary = summarize_tool_results(card);
    let cwes_summary = summarize_tool_results_by_cwe(card);
    let cwes_1000_summary = summarize_tool_results_by_cwe_1000(card, taxonomy);
    let failed: usize = if md.evaluated {
        0
    } else {
        1
    };
    let timeouts: usize = match md.status {
        Status::Timeout => 1,
        _ => 0,
    };
    proof {
        lemma_group_keys_distinct(views);
        lemma_class_group_keys_distinct(taxonomy.parents@, taxonomy.cwe_1000@, views);
        let keys = spec_group_keys(views);
        assert forall|i: int| 0 <= i < keys.len() implies {
            let e = #[trigger] named_views(cwes_summary@)[i];
            card_wf(e.summary) && e.summary.ground_truth_positive_count
                <= runs_summary@.ground_truth_positive_count
                && e.summary.ground_truth_negative_count
                <= runs_summary@.ground_truth_negative_count
        } by {
            assert(cwes_summary@[i]@.summary == spec_summary_of_cards(
                cards_with_cwe(views, keys[i]),
            ));
            assert(cards_with_cwe(views, keys[i]) == views.filter(
                |c: SpecToolResultCard| c.expected_result.expected_cwe == keys[i],
            ));
            lemma_group_counts_le(views, cards_with_cwe(views, keys[i]));
        }
        let ckeys = spec_class_group_keys(taxonomy.parents@, taxonomy.cwe_1000@, views);
        assert forall|i: int| 0 <= i < ckeys.len() implies {
            let e = #[trigger] named_views(cwes_1000_summary@)[i];
            card_wf(e.summary) && e.summary.ground_truth_positive_count
                <= runs_summary@.ground_truth_positive_count
                && e.summary.ground_truth_negative_count
                <= runs_summary@.ground_truth_negative_count
        } by {
            assert(cwes_1000_summary@[i]@.summary == spec_summary_of_cards(
                cards_with_class_key(taxonomy.parents@, taxonomy.cwe_1000@, views, ckeys[i]),
            ));
            assert(cards_with_class_key(taxonomy.parents@, taxonomy.cwe_1000@, views, ckeys[i])
                == views.filter(
                |c: SpecToolResultCard|
                    spec_class_key(
                        taxonomy.parents@,
                        taxonomy.cwe_1000@,
                        c.expected_result.expected_cwe,
                    ) == ckeys[i],
            ));
            lemma_group_counts_le(
                views,
                cards_with_class_key(taxonomy.parents@, taxonomy.cwe_1000@, views, ckeys[i]),
            );
        }
    }
    ToolSummaryCard {
        tool: tool.clone(),
        total_time: md.time,
        failed,
        timeouts,
        total: 1,
        runs_summary,
        cwes_summary,
        cwes_1000_summary,
    }
}

} // verus!
