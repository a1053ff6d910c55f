use std::cmp::Ordering;

use bentoo::compare::{
    evaluate_tool, evaluate_tool_result, evaluate_tool_results, ExpectedResult, MatchCard,
    MinimalMatchCard, MinimalResultMatch, ResultMatch,
};
use bentoo::taxonomy::{Taxonomy, TaxonomyVersion};
use bentoo::truth::{
    CWEs, Finding, Kind, Location, Locations, Region, Rule, ToolResult, ToolResults, TruthResult,
    TruthResults, CWE,
};

fn small_taxonomy() -> Taxonomy {
    let parents = vec![
        (CWE(89), vec![CWE(943)]),
        (CWE(943), vec![CWE(74)]),
        (CWE(74), vec![CWE(707)]),
        (CWE(707), vec![]),
        (CWE(20), vec![]),
    ];
    Taxonomy::new(TaxonomyVersion(String::from("4.14")), parents, vec![CWE(707)])
}

fn finding(rule_id: &str, cwes: Vec<u64>, locations: Vec<(&str, Option<Region>)>) -> Finding {
    Finding {
        rule: Rule {
            rule_id: String::from(rule_id),
            cwes: CWEs(cwes.into_iter().map(CWE).collect()),
        },
        message: None,
        locations: Locations(
            locations
                .into_iter()
                .map(|(path, region)| Location { path: String::from(path), region })
                .collect(),
        ),
    }
}

fn line_region(line: i64) -> Region {
    Region { start_line: line, end_line: None, start_column: None, end_column: None }
}

fn col_region(line: i64, start_column: i64, end_column: i64) -> Region {
    Region {
        start_line: line,
        end_line: None,
        start_column: Some(start_column),
        end_column: Some(end_column),
    }
}

/// The end-to-end scenario: an expected SQL injection on a.py line 10,
/// reported by the tool at a.py line 10 columns 1-5 with the same CWE.
#[test]
fn end_to_end_true_positive() {
    let tax = small_taxonomy();
    let truth = TruthResult {
        kind: Kind::Fail,
        result: finding("truth:CWE-89", vec![89], vec![("a.py", Some(line_region(10)))]),
    };
    let tool = ToolResult {
        result: finding("tool:CWE-89", vec![89], vec![("a.py", Some(col_region(10, 1, 5)))]),
    };
    let (expected, verdict) = evaluate_tool_result(&truth, &tool, &tax);
    assert_eq!(expected.expected_kind, Kind::Fail);
    assert!(verdict.minimal_match.at_least_one_file_match);
    assert!(verdict.minimal_match.at_least_one_region_match);
    assert!(verdict.minimal_match.cwe_match);
    assert!(verdict.minimal_match.cwe_1000_match);
    assert!(!verdict.minimal_match.rule_id_match);
    assert!(verdict.all_files_match);
    assert!(verdict.all_regions_match);
    assert_eq!(verdict.minimal_match.reported_cwe, Some(CWEs(vec![CWE(89)])));

    // And through the whole pipeline it contributes one region+CWE true
    // positive.
    let truths = TruthResults { name: String::from("truth"), results: vec![truth] };
    let tools = ToolResults { name: String::from("tool"), results: vec![tool] };
    let cards = evaluate_tool(&truths, &tools, &tax);
    assert_eq!(cards.result.len(), 1);
    let summary = bentoo::summarize::summarize_tool_results(&cards);
    assert_eq!(summary.ground_truth_positive_count, 1);
    assert_eq!(summary.ground_truth_negative_count, 0);
    assert_eq!(summary.at_least_one_region_with_cwe_match.true_positive_count, 1);
    assert_eq!(summary.at_least_one_region_with_cwe_match.false_positive_count, 0);
    assert_eq!(summary.at_least_one_region_with_cwe_match.recall, Some(1000));
}

/// A tool region narrower than the truth region still matches; a broader
/// one does not.
#[test]
fn region_direction_of_match() {
    let tax = small_taxonomy();
    let truth = TruthResult {
        kind: Kind::Fail,
        result: finding("t:CWE-89", vec![89], vec![("a.py", Some(col_region(10, 2, 6)))]),
    };
    let broader_tool = ToolResult {
        result: finding("x:CWE-89", vec![89], vec![("a.py", Some(line_region(10)))]),
    };
    let (_, verdict) = evaluate_tool_result(&truth, &broader_tool, &tax);
    // The tool's region covers the truth region, so the truth region does
    // not cover it: no region match.
    assert!(verdict.minimal_match.at_least_one_file_match);
    assert!(!verdict.minimal_match.at_least_one_region_match);
}

/// An absent region on either side always matches once the file matches.
#[test]
fn absent_regions_match() {
    let tax = small_taxonomy();
    let truth = TruthResult {
        kind: Kind::Fail,
        result: finding("t:CWE-89", vec![89], vec![("a.py", Some(line_region(3)))]),
    };
    let tool = ToolResult { result: finding("x:CWE-89", vec![89], vec![("a.py", None)]) };
    let (_, verdict) = evaluate_tool_result(&truth, &tool, &tax);
    assert!(verdict.minimal_match.at_least_one_region_match);
}

/// CWE-class propagation: the tool reports the injection class 707; the
/// truth expects the specific 89.  The class axis matches even though the
/// exact/descendant CWE axis does not.
#[test]
fn cwe_class_propagation() {
    let tax = small_taxonomy();
    let truth = TruthResult {
        kind: Kind::Fail,
        result: finding("t:CWE-89", vec![89], vec![("a.py", Some(line_region(1)))]),
    };
    let tool = ToolResult {
        result: finding("x:CWE-707", vec![707], vec![("a.py", Some(line_region(1)))]),
    };
    let (_, verdict) = evaluate_tool_result(&truth, &tool, &tax);
    assert!(verdict.minimal_match.cwe_1000_match);
    assert!(!verdict.minimal_match.cwe_match);
}

/// The CWE axis accepts a tool CWE that is the truth CWE or more specific.
#[test]
fn cwe_match_direction() {
    let tax = small_taxonomy();
    // Truth expects the broad 943; the tool reports the specific 89.
    let truth = TruthResult {
        kind: Kind::Fail,
        result: finding("t:CWE-943", vec![943], vec![("a.py", None)]),
    };
    let tool = ToolResult { result: finding("x:CWE-89", vec![89], vec![("a.py", None)]) };
    let (_, verdict) = evaluate_tool_result(&truth, &tool, &tax);
    assert!(verdict.minimal_match.cwe_match);
}

/// A truth finding with no tool finding sharing a path or a CWE gets the
/// all-false verdict, counting one false negative and no true or false
/// positive.
#[test]
fn empty_candidate_pool() {
    let tax = small_taxonomy();
    let truth = TruthResult {
        kind: Kind::Fail,
        result: finding("t:CWE-89", vec![89], vec![("a.py", Some(line_region(1)))]),
    };
    let tools = ToolResults {
        name: String::from("tool"),
        results: vec![ToolResult {
            result: finding("x:CWE-20", vec![20], vec![("b.py", Some(line_region(1)))]),
        }],
    };
    let card = evaluate_tool_results(&truth, &tools, &tax);
    assert!(card.max_match.is_empty());
    assert!(!card.max_minimal_match.cwe_1000_match);
    assert!(!card.max_minimal_match.at_least_one_file_match);
    assert!(!card.max_minimal_match.cwe_match);
    assert!(!card.max_minimal_match.at_least_one_region_match);
    assert!(card.max_minimal_match.reported_cwe.is_none());

    let truths = TruthResults { name: String::from("truth"), results: vec![truth] };
    let cards = evaluate_tool(&truths, &tools, &tax);
    let summary = bentoo::summarize::summarize_tool_results(&cards);
    assert_eq!(summary.ground_truth_positive_count, 1);
    assert_eq!(summary.at_least_one_file_without_cwe_match.true_positive_count, 0);
    assert_eq!(summary.at_least_one_file_without_cwe_match.false_positive_count, 0);
    // One expected finding, nothing found: recall 0.
    assert_eq!(summary.at_least_one_file_without_cwe_match.recall, Some(0));
}

/// Two incomparable candidates both survive into the Pareto set: one
/// matches the CWE axes but not the file, the other the file and region
/// but no CWE.
#[test]
fn incomparable_candidates_both_kept() {
    let tax = small_taxonomy();
    let truth = TruthResult {
        kind: Kind::Fail,
        result: finding("t:CWE-89", vec![89], vec![("a.py", Some(line_region(10)))]),
    };
    let cwe_only = ToolResult {
        result: finding("x:CWE-89", vec![89], vec![("other.py", Some(line_region(10)))]),
    };
    let file_only = ToolResult {
        result: finding("y:CWE-999", vec![999], vec![("a.py", Some(line_region(10)))]),
    };
    let tools = ToolResults {
        name: String::from("tool"),
        results: vec![cwe_only, file_only],
    };
    let card = evaluate_tool_results(&truth, &tools, &tax);
    assert_eq!(card.max_match.len(), 2);
    // One kept verdict matches the CWE but not the file, the other the
    // file but not the CWE.
    assert!(card.max_match[0].minimal_match.cwe_match);
    assert!(!card.max_match[0].minimal_match.at_least_one_file_match);
    assert!(!card.max_match[1].minimal_match.cwe_match);
    assert!(card.max_match[1].minimal_match.at_least_one_file_match);
}

/// A strictly dominating candidate drops the dominated one from the
/// Pareto set, and wins the summary verdict.
#[test]
fn dominated_candidate_dropped() {
    let tax = small_taxonomy();
    let truth = TruthResult {
        kind: Kind::Fail,
        result: finding("t:CWE-89", vec![89], vec![("a.py", Some(line_region(10)))]),
    };
    let weak = ToolResult {
        result: finding("x:CWE-89", vec![89], vec![("other.py", Some(line_region(10)))]),
    };
    let strong = ToolResult {
        result: finding("y:CWE-89", vec![89], vec![("a.py", Some(line_region(10)))]),
    };
    let tools = ToolResults { name: String::from("tool"), results: vec![weak, strong] };
    let card = evaluate_tool_results(&truth, &tools, &tax);
    assert_eq!(card.max_match.len(), 1);
    assert!(card.max_match[0].minimal_match.at_least_one_file_match);
    assert!(card.max_minimal_match.at_least_one_file_match);
    assert!(card.max_minimal_match.cwe_match);
}

/// The summary reduction keeps the first-seen candidate on ties.
#[test]
fn summary_keeps_first_on_ties() {
    let tax = small_taxonomy();
    let truth = TruthResult {
        kind: Kind::Fail,
        result: finding("t:CWE-89", vec![89], vec![("a.py", Some(line_region(10)))]),
    };
    let first = ToolResult {
        result: finding("x:CWE-89", vec![89], vec![("a.py", Some(line_region(10)))]),
    };
    let second = ToolResult {
        result: finding("y:CWE-89,CWE-20", vec![89, 20], vec![("a.py", Some(line_region(10)))]),
    };
    let tools = ToolResults { name: String::from("tool"), results: vec![first, second] };
    let card = evaluate_tool_results(&truth, &tools, &tax);
    // Same axes, different reported CWEs: incomparable, so both stay
    // maximal, and the summary keeps the first.
    assert_eq!(card.max_match.len(), 2);
    assert_eq!(card.max_minimal_match.reported_cwe, Some(CWEs(vec![CWE(89)])));
}

/// The card orders on concrete values.
#[test]
fn card_orders() {
    let expected = ExpectedResult { expected_kind: Kind::Fail, expected_cwe: CWEs(vec![CWE(89)]) };
    let low = ResultMatch::new();
    let mut high = ResultMatch::new();
    high.minimal_match.at_least_one_file_match = true;
    assert_eq!(
        MinimalMatchCard(&expected, &low.minimal_match)
            .partial_cmp(&MinimalMatchCard(&expected, &high.minimal_match)),
        Some(Ordering::Less)
    );
    assert_eq!(
        MatchCard(&expected, &low).partial_cmp(&MatchCard(&expected, &high)),
        Some(Ordering::Less)
    );
    let other_expected =
        ExpectedResult { expected_kind: Kind::Pass, expected_cwe: CWEs(vec![CWE(89)]) };
    assert_eq!(
        MinimalMatchCard(&expected, &low.minimal_match)
            .partial_cmp(&MinimalMatchCard(&other_expected, &low.minimal_match)),
        None
    );
    let same = MinimalResultMatch {
        cwe_1000_match: false,
        at_least_one_file_match: false,
        cwe_match: false,
        at_least_one_region_match: false,
        rule_id_match: false,
        reported_cwe: None,
    };
    assert_eq!(
        MinimalMatchCard(&expected, &same).partial_cmp(&MinimalMatchCard(&expected, &low.minimal_match)),
        Some(Ordering::Equal)
    );
}

/// The exact rule-id axis: equal identifier strings set it.
#[test]
fn rule_id_axis() {
    let tax = small_taxonomy();
    let truth = TruthResult {
        kind: Kind::Fail,
        result: finding("same:CWE-89", vec![89], vec![("a.py", None)]),
    };
    let tool = ToolResult { result: finding("same:CWE-89", vec![89], vec![("a.py", None)]) };
    let (_, verdict) = evaluate_tool_result(&truth, &tool, &tax);
    assert!(verdict.minimal_match.rule_id_match);
}
