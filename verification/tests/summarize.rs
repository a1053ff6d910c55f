use bentoo::compare::evaluate_tool;
use bentoo::description::Tool;
use bentoo::metadata::{Metadata, ParseStatus, Status};
use bentoo::summarize::{
    summarize_tool, summarize_tool_results, summarize_tool_results_by_cwe,
    summarize_tool_results_by_cwe_1000, SummaryCard, SummaryRatios,
};
use bentoo::taxonomy::{Taxonomy, TaxonomyVersion};
use bentoo::truth::{
    CWEs, Finding, Kind, Location, Locations, Region, Rule, ToolResult, ToolResults, TruthResult,
    TruthResults, CWE,
};

fn small_taxonomy() -> Taxonomy {
    let parents = vec![
        (CWE(89), vec![CWE(943)]),
        (CWE(943), vec![CWE(74)]),
        (CWE(74), vec![CWE(707)]),
        (CWE(707), vec![]),
        (CWE(79), vec![CWE(707)]),
        (CWE(20), vec![]),
    ];
    Taxonomy::new(TaxonomyVersion(String::from("4.14")), parents, vec![CWE(707)])
}

fn finding(rule_id: &str, cwes: Vec<u64>, path: &str, line: i64) -> Finding {
    Finding {
        rule: Rule {
            rule_id: String::from(rule_id),
            cwes: CWEs(cwes.into_iter().map(CWE).collect()),
        },
        message: None,
        locations: Locations(vec![Location {
            path: String::from(path),
            region: Some(Region {
                start_line: line,
                end_line: None,
                start_column: None,
                end_column: None,
            }),
        }]),
    }
}

#[test]
fn ratios_from_stats() {
    let r = SummaryRatios::from_stats(3, 1, 4, 2);
    assert_eq!(r.true_positive_count, 3);
    assert_eq!(r.false_positive_count, 1);
    // 3/4 = 0.750, 1/2 = 0.500, precision 3/4, F1 = 6/(3+1+4) = 0.750.
    assert_eq!(r.true_positive_rate, Some(750));
    assert_eq!(r.false_positive_rate, Some(500));
    assert_eq!(r.recall, Some(750));
    assert_eq!(r.precision, Some(750));
    assert_eq!(r.f1_score, Some(750));
}

#[test]
fn ratios_round_to_nearest_thousandth() {
    // 1/3 rounds down to 0.333; 1/16 = 0.0625 rounds up to 0.063.
    let third = SummaryRatios::from_stats(1, 0, 3, 0);
    assert_eq!(third.true_positive_rate, Some(333));
    let sixteenth = SummaryRatios::from_stats(1, 0, 16, 0);
    assert_eq!(sixteenth.true_positive_rate, Some(63));
    // 2/3 rounds up to 0.667.
    let two_thirds = SummaryRatios::from_stats(2, 0, 3, 0);
    assert_eq!(two_thirds.true_positive_rate, Some(667));
}

#[test]
fn ratios_with_zero_denominators_are_undefined() {
    let r = SummaryRatios::from_stats(0, 0, 0, 0);
    assert_eq!(r.true_positive_rate, None);
    assert_eq!(r.false_positive_rate, None);
    assert_eq!(r.recall, None);
    assert_eq!(r.precision, None);
    assert_eq!(r.f1_score, None);
}

fn card_from_stats(tp: i64, fp: i64, pos: i64, neg: i64) -> SummaryCard {
    let block = || SummaryRatios::from_stats(tp, fp, pos, neg);
    SummaryCard {
        at_least_one_file_with_rule_id_match: block(),
        at_least_one_file_with_cwe_match: block(),
        at_least_one_file_with_cwe_1000_match: block(),
        at_least_one_file_without_cwe_match: block(),
        at_least_one_region_with_rule_id_match: block(),
        at_least_one_region_with_cwe_match: block(),
        at_least_one_region_with_cwe_1000_match: block(),
        at_least_one_region_without_cwe_match: block(),
        ground_truth_negative_count: neg,
        ground_truth_positive_count: pos,
        truth_positive_cwe_match_count: tp,
        truth_positive_cwe_1000_match_count: tp,
    }
}

/// The roll-up key invariant: a union recomputes every ratio from the
/// summed counts, never by averaging child ratios.
#[test]
fn union_is_ratio_of_sums() {
    // Child one: TP=1, FP=0, pos=1, neg=0.  Child two: TP=0, FP=1, pos=0,
    // neg=1.
    let one = card_from_stats(1, 0, 1, 0);
    let two = card_from_stats(0, 1, 0, 1);
    // The children's own ratios: precision 1.0 and 0.0, rates partly
    // undefined.
    assert_eq!(one.at_least_one_file_with_cwe_match.precision, Some(1000));
    assert_eq!(one.at_least_one_file_with_cwe_match.false_positive_rate, None);
    assert_eq!(two.at_least_one_file_with_cwe_match.precision, Some(0));
    assert_eq!(two.at_least_one_file_with_cwe_match.true_positive_rate, None);

    let parent = one.union(&two);
    assert_eq!(parent.ground_truth_positive_count, 1);
    assert_eq!(parent.ground_truth_negative_count, 1);
    let block = &parent.at_least_one_file_with_cwe_match;
    assert_eq!(block.true_positive_count, 1);
    assert_eq!(block.false_positive_count, 1);
    // Precision is 1/(1+1) = 0.5, recomputed from the sums; both rates are
    // now defined.
    assert_eq!(block.precision, Some(500));
    assert_eq!(block.true_positive_rate, Some(1000));
    assert_eq!(block.false_positive_rate, Some(1000));
}

#[test]
fn union_adds_ground_truth_counts() {
    let one = card_from_stats(2, 1, 3, 2);
    let two = card_from_stats(1, 0, 2, 5);
    let parent = one.union(&two);
    assert_eq!(parent.ground_truth_positive_count, 5);
    assert_eq!(parent.ground_truth_negative_count, 7);
    assert_eq!(parent.truth_positive_cwe_match_count, 3);
    assert_eq!(parent.at_least_one_region_with_cwe_match.true_positive_count, 3);
    assert_eq!(parent.at_least_one_region_with_cwe_match.false_positive_count, 1);
    // TPR 3/5 = 0.600.
    assert_eq!(parent.at_least_one_region_with_cwe_match.true_positive_rate, Some(600));
}

fn two_finding_cards() -> bentoo::compare::ToolResultsCard {
    let tax = small_taxonomy();
    let truths = TruthResults {
        name: String::from("truth"),
        results: vec![
            TruthResult { kind: Kind::Fail, result: finding("t:CWE-89", vec![89], "a.py", 1) },
            TruthResult { kind: Kind::Pass, result: finding("t:CWE-79", vec![79], "b.py", 2) },
        ],
    };
    let tools = ToolResults {
        name: String::from("tool"),
        results: vec![
            ToolResult { result: finding("x:CWE-89", vec![89], "a.py", 1) },
            ToolResult { result: finding("x:CWE-79", vec![79], "b.py", 2) },
        ],
    };
    evaluate_tool(&truths, &tools, &tax)
}

/// One found expectation and one reported non-vulnerability: a true
/// positive and a false positive on every matching axis.
#[test]
fn summary_counts_partition_by_kind() {
    let cards = two_finding_cards();
    let summary = summarize_tool_results(&cards);
    assert_eq!(summary.ground_truth_positive_count, 1);
    assert_eq!(summary.ground_truth_negative_count, 1);
    let block = &summary.at_least_one_region_with_cwe_match;
    assert_eq!(block.true_positive_count, 1);
    assert_eq!(block.false_positive_count, 1);
    assert_eq!(block.precision, Some(500));
    assert_eq!(summary.truth_positive_cwe_match_count, 1);
    assert_eq!(summary.truth_positive_cwe_1000_match_count, 1);
}

#[test]
fn breakdown_by_cwe() {
    let cards = two_finding_cards();
    let groups = summarize_tool_results_by_cwe(&cards);
    assert_eq!(groups.len(), 2);
    assert_eq!(groups[0].name, CWEs(vec![CWE(89)]));
    assert_eq!(groups[0].summary.ground_truth_positive_count, 1);
    assert_eq!(groups[0].summary.ground_truth_negative_count, 0);
    assert_eq!(groups[1].name, CWEs(vec![CWE(79)]));
    assert_eq!(groups[1].summary.ground_truth_positive_count, 0);
    assert_eq!(groups[1].summary.ground_truth_negative_count, 1);
}

#[test]
fn breakdown_by_cwe_1000_groups_same_class() {
    // 89 and 79 both fall in the injection class 707, so one group holds
    // both findings.
    let cards = two_finding_cards();
    let tax = small_taxonomy();
    let groups = summarize_tool_results_by_cwe_1000(&cards, &tax);
    assert_eq!(groups.len(), 1);
    assert_eq!(groups[0].name, CWEs(vec![CWE(707)]));
    assert_eq!(groups[0].summary.ground_truth_positive_count, 1);
    assert_eq!(groups[0].summary.ground_truth_negative_count, 1);
}

#[test]
fn breakdown_by_cwe_1000_skips_classless() {
    let tax = small_taxonomy();
    let truths = TruthResults {
        name: String::from("truth"),
        results: vec![TruthResult {
            kind: Kind::Fail,
            result: finding("t:CWE-20", vec![20], "a.py", 1),
        }],
    };
    let tools = ToolResults { name: String::from("tool"), results: vec![] };
    let cards = evaluate_tool(&truths, &tools, &tax);
    let groups = summarize_tool_results_by_cwe_1000(&cards, &tax);
    assert!(groups.is_empty());
}

#[test]
fn tool_summary_carries_metadata() {
    let cards = two_finding_cards();
    let tax = small_taxonomy();
    let tool = Tool { script: String::from("scan"), config: String::from("default") };
    let md = Metadata {
        status: Status::Timeout,
        exit_code: 0,
        time: 1_500_000_000,
        parsed: ParseStatus::Yes,
        evaluated: true,
    };
    let summary = summarize_tool(&tool, &md, &cards, &tax);
    assert_eq!(summary.total, 1);
    assert_eq!(summary.failed, 0);
    assert_eq!(summary.timeouts, 1);
    assert_eq!(summary.total_time, 1_500_000_000);
    assert_eq!(summary.runs_summary.ground_truth_positive_count, 1);
    assert_eq!(summary.cwes_summary.len(), 2);
    assert_eq!(summary.cwes_1000_summary.len(), 1);
}

/// Unioning two tool summaries merges the breakdowns by name and adds the
/// metadata counters.
#[test]
fn tool_summary_union_merges_breakdowns() {
    let cards = two_finding_cards();
    let tax = small_taxonomy();
    let tool = Tool { script: String::from("scan"), config: String::from("default") };
    let md = Metadata {
        status: Status::Exited,
        exit_code: 0,
        time: 100,
        parsed: ParseStatus::Yes,
        evaluated: true,
    };
    let one = summarize_tool(&tool, &md, &cards, &tax);
    let two = summarize_tool(&tool, &md, &cards, &tax);
    let merged = one.union(&two);
    assert_eq!(merged.total, 2);
    assert_eq!(merged.total_time, 200);
    assert_eq!(merged.runs_summary.ground_truth_positive_count, 2);
    // The same names appear once, with doubled counts.
    assert_eq!(merged.cwes_summary.len(), 2);
    assert_eq!(merged.cwes_summary[0].name, CWEs(vec![CWE(89)]));
    assert_eq!(merged.cwes_summary[0].summary.ground_truth_positive_count, 2);
    assert_eq!(merged.cwes_1000_summary.len(), 1);
    assert_eq!(merged.cwes_1000_summary[0].summary.ground_truth_positive_count, 2);
}

/// Rolling a collection of per-tool summaries up merges the summaries of
/// each tool and keeps different tools apart, in first-occurrence order.
#[test]
fn roll_up_groups_by_tool() {
    let cards = two_finding_cards();
    let tax = small_taxonomy();
    let scan = Tool { script: String::from("scan"), config: String::from("default") };
    let lint = Tool { script: String::from("lint"), config: String::from("deep") };
    let md = Metadata {
        status: Status::Exited,
        exit_code: 0,
        time: 10,
        parsed: ParseStatus::Yes,
        evaluated: true,
    };
    let children = vec![
        bentoo::summarize::summarize_tool(&scan, &md, &cards, &tax),
        bentoo::summarize::summarize_tool(&lint, &md, &cards, &tax),
        bentoo::summarize::summarize_tool(&scan, &md, &cards, &tax),
    ];
    let merged = bentoo::summarize::union_tool_summaries(&children);
    assert_eq!(merged.len(), 2);
    assert_eq!(merged[0].tool.script, "scan");
    assert_eq!(merged[0].total, 2);
    assert_eq!(merged[0].total_time, 20);
    assert_eq!(merged[0].runs_summary.ground_truth_positive_count, 2);
    assert_eq!(merged[1].tool.script, "lint");
    assert_eq!(merged[1].total, 1);
    assert_eq!(merged[1].runs_summary.ground_truth_positive_count, 1);
    // The merged precision is recomputed from summed counts.
    assert_eq!(
        merged[0].runs_summary.at_least_one_file_with_cwe_match.precision,
        Some(500)
    );
}

/// A failed run still contributes its ground truth as false negatives.
#[test]
fn skipped_run_counts_false_negatives() {
    let tax = small_taxonomy();
    let truths = TruthResults {
        name: String::from("truth"),
        results: vec![
            TruthResult { kind: Kind::Fail, result: finding("t:CWE-89", vec![89], "a.py", 1) },
            TruthResult { kind: Kind::Fail, result: finding("t:CWE-79", vec![79], "b.py", 2) },
        ],
    };
    let empty_tools = ToolResults { name: String::new(), results: vec![] };
    let cards = evaluate_tool(&truths, &empty_tools, &tax);
    let tool = Tool { script: String::from("scan"), config: String::from("default") };
    let md = Metadata {
        status: Status::ScriptError,
        exit_code: 1,
        time: 0,
        parsed: ParseStatus::No,
        evaluated: false,
    };
    let summary = summarize_tool(&tool, &md, &cards, &tax);
    assert_eq!(summary.failed, 1);
    assert_eq!(summary.runs_summary.ground_truth_positive_count, 2);
    assert_eq!(summary.runs_summary.at_least_one_file_without_cwe_match.true_positive_count, 0);
    assert_eq!(summary.runs_summary.at_least_one_file_without_cwe_match.recall, Some(0));
}
