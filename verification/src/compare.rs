//! The match evaluator and candidate selector: given one ground-truth
//! finding and the findings a tool reported, decide along several axes how
//! well they correspond (file, region, CWE, CWE-1000 class, rule id), keep
//! the Pareto-maximal verdicts for detailed reports, and reduce all verdicts
//! to a single summary verdict for the aggregate statistics.

use core::cmp::Ordering;
use vstd::prelude::*;
use vstd::seq_lib::*;

use crate::taxonomy::{cwe_cmp, spec_classes_of, Taxonomy};
use crate::truth::{
    cwe_vecs_eq, region_cmp, CWEs, Kind, Location, Locations, Region, SpecLocation,
    ToolResult, ToolResults, TruthResult, TruthResults, CWE,
};

verus! {

// ---------------------------------------------------------------------------
// The verdict model
// ---------------------------------------------------------------------------
/// The expected side of an evaluation: what the ground truth asked for.
#[derive(Debug)]
pub struct ExpectedResult {
    pub expected_kind: Kind,
    pub expected_cwe: CWEs,
}

/// The mathematical value of an `ExpectedResult`.
pub struct SpecExpectedResult {
    pub expected_kind: Kind,
    pub expected_cwe: Seq<CWE>,
}

impl View for ExpectedResult {
    type V = SpecExpectedResult;

    open spec fn view(&self) -> SpecExpectedResult {
        SpecExpectedResult {
            expected_kind: self.expected_kind,
            expected_cwe: self.expected_cwe@,
        }
    }
}

impl Clone for ExpectedResult {
    fn clone(&self) -> (res: Self)
        ensures
            res@ == self@,
    {
        ExpectedResult { expected_kind: self.expected_kind, expected_cwe: self.expected_cwe.clone() }
    }
}

impl ExpectedResult {
    /// The expected side of a truth finding.
    pub fn from(result: &TruthResult) -> (r: ExpectedResult)
        ensures
            r@.expected_kind == result.kind,
            r@.expected_cwe == result.result.rule.cwes@,
    {
        ExpectedResult { expected_kind: result.kind, expected_cwe: result.result.rule.cwes.clone() }
    }
}

/// The verdict axes that feed the summary statistics.
#[derive(Debug)]
pub struct MinimalResultMatch {
    pub cwe_1000_match: bool,
    pub at_least_one_file_match: bool,
    pub cwe_match: bool,
    pub at_least_one_region_match: bool,
    pub rule_id_match: bool,
    pub reported_cwe: Option<CWEs>,
}

/// The mathematical value of a `MinimalResultMatch`.
pub struct SpecMinimalMatch {
    pub cwe_1000_match: bool,
    pub at_least_one_file_match: bool,
    pub cwe_match: bool,
    pub at_least_one_region_match: bool,
    pub rule_id_match: bool,
    pub reported_cwe: Option<Seq<CWE>>,
}

impl View for MinimalResultMatch {
    type V = SpecMinimalMatch;

    open spec fn view(&self) -> SpecMinimalMatch {
        SpecMinimalMatch {
            cwe_1000_match: self.cwe_1000_match,
            at_least_one_file_match: self.at_least_one_file_match,
            cwe_match: self.cwe_match,
            at_least_one_region_match: self.at_least_one_region_match,
            rule_id_match: self.rule_id_match,
            reported_cwe: match self.reported_cwe {
                Some(ref c) => Some(c@),
                None => None,
            },
        }
    }
}

impl Clone for MinimalResultMatch {
    fn clone(&self) -> (res: Self)
        ensures
            res@ == self@,
    {
        MinimalResultMatch {
            cwe_1000_match: self.cwe_1000_match,
            at_least_one_file_match: self.at_least_one_file_match,
            cwe_match: self.cwe_match,
            at_least_one_region_match: self.at_least_one_region_match,
            rule_id_match: self.rule_id_match,
            reported_cwe: match &self.reported_cwe {
                Some(c) => Some(c.clone()),
                None => None,
            },
        }
    }
}

/// A full evaluation record: the summary axes plus the all-locations
/// variants.
#[derive(Debug)]
pub struct ResultMatch {
    pub minimal_match: MinimalResultMatch,
    pub all_files_match: bool,
    pub all_regions_match: bool,
}

/// The mathematical value of a `ResultMatch`.
pub struct SpecResultMatch {
    pub minimal_match: SpecMinimalMatch,
    pub all_files_match: bool,
    pub all_regions_match: bool,
}

impl View for ResultMatch {
    type V = SpecResultMatch;

    open spec fn view(&self) -> SpecResultMatch {
        SpecResultMatch {
            minimal_match: self.minimal_match@,
            all_files_match: self.all_files_match,
            all_regions_match: self.all_regions_match,
        }
    }
}

impl Clone for ResultMatch {
    fn clone(&self) -> (res: Self)
        ensures
            res@ == self@,
    {
        ResultMatch {
            minimal_match: self.minimal_match.clone(),
            all_files_match: self.all_files_match,
            all_regions_match: self.all_regions_match,
        }
    }
}

/// The verdict of a truth finding that no tool finding matched at all.
pub open spec fn spec_default_minimal() -> SpecMinimalMatch {
    SpecMinimalMatch {
        cwe_1000_match: false,
        at_least_one_file_match: false,
        cwe_match: false,
        at_least_one_region_match: false,
        rule_id_match: false,
        reported_cwe: None,
    }
}

impl ResultMatch {
    /// The all-`false` verdict, recorded when no candidate exists so that the
    /// truth finding still counts as a false negative.
    pub fn new() -> (r: ResultMatch)
        ensures
            r@.minimal_match == spec_default_minimal(),
            !r@.all_files_match,
            !r@.all_regions_match,
    {
        ResultMatch {
            minimal_match: MinimalResultMatch {
                cwe_1000_match: false,
                at_least_one_file_match: false,
                cwe_match: false,
                at_least_one_region_match: false,
                rule_id_match: false,
                reported_cwe: None,
            },
            all_files_match: false,
            all_regions_match: false,
        }
    }
}

// ---------------------------------------------------------------------------
// The orders on verdicts
// ---------------------------------------------------------------------------
/// A boolean as 0 or 1.
pub open spec fn bool_rank(b: bool) -> int {
    if b {
        1
    } else {
        0
    }
}

/// A pair of booleans read as a two-bit number; comparing these numbers is
/// the lexicographic order on the pairs, `false` below `true`.
pub open spec fn pair_rank(hi: bool, lo: bool) -> int {
    2 * bool_rank(hi) + bool_rank(lo)
}

/// The four summary axes read as a four-bit number, most significant first:
/// class match, file match, CWE match, region match.
pub open spec fn minimal_rank(m: SpecMinimalMatch) -> int {
    8 * bool_rank(m.cwe_1000_match) + 4 * bool_rank(m.at_least_one_file_match) + 2 * bool_rank(
        m.cwe_match,
    ) + bool_rank(m.at_least_one_region_match)
}

/// The order of two integers.
pub open spec fn int_cmp(a: int, b: int) -> Ordering {
    if a < b {
        Ordering::Less
    } else if a == b {
        Ordering::Equal
    } else {
        Ordering::Greater
    }
}

/// The summary pre-order on two verdicts with the same expected side:
/// compare the four summary axes lexicographically; on a tie the verdicts
/// are `Equal` only when they also report the same CWEs, else incomparable.
pub open spec fn minimal_verdict_cmp(a: SpecMinimalMatch, b: SpecMinimalMatch) -> Option<
    Ordering,
> {
    if minimal_rank(a) != minimal_rank(b) {
        Some(int_cmp(minimal_rank(a), minimal_rank(b)))
    } else if a.reported_cwe != b.reported_cwe {
        None
    } else {
        Some(Ordering::Equal)
    }
}

/// The order on two `(ExpectedResult, MinimalResultMatch)` cards: cards for
/// different expectations are incomparable, the rest is
/// `minimal_verdict_cmp`.
pub open spec fn minimal_card_cmp(
    ae: SpecExpectedResult,
    am: SpecMinimalMatch,
    be: SpecExpectedResult,
    bm: SpecMinimalMatch,
) -> Option<Ordering> {
    if ae.expected_kind != be.expected_kind {
        None
    } else if ae.expected_cwe != be.expected_cwe {
        None
    } else {
        minimal_verdict_cmp(am, bm)
    }
}

/// The detailed partial order on two verdicts with the same expected side.
/// Three two-bit sub-tuples are compared — (class, CWE), (file any, file
/// all), (file any, regions all) — and combined: all equal is a tie, broken
/// by the reported CWEs; agreeing non-equal directions win; disagreement is
/// incomparable.
pub open spec fn match_verdict_cmp(a: SpecResultMatch, b: SpecResultMatch) -> Option<Ordering> {
    let o1 = int_cmp(
        pair_rank(a.minimal_match.cwe_1000_match, a.minimal_match.cwe_match),
        pair_rank(b.minimal_match.cwe_1000_match, b.minimal_match.cwe_match),
    );
    let o2 = int_cmp(
        pair_rank(a.minimal_match.at_least_one_file_match, a.all_files_match),
        pair_rank(b.minimal_match.at_least_one_file_match, b.all_files_match),
    );
    let o3 = int_cmp(
        pair_rank(a.minimal_match.at_least_one_file_match, a.all_regions_match),
        pair_rank(b.minimal_match.at_least_one_file_match, b.all_regions_match),
    );
    if o1 == Ordering::Equal && o2 == Ordering::Equal && o3 == Ordering::Equal {
        if a.minimal_match.reported_cwe == b.minimal_match.reported_cwe {
            Some(Ordering::Equal)
        } else {
            None
        }
    } else if (o1 == Ordering::Equal || o1 == Ordering::Less) && (o2 == Ordering::Equal || o2
        == Ordering::Less) && (o3 == Ordering::Equal || o3 == Ordering::Less) {
        Some(Ordering::Less)
    } else if (o1 == Ordering::Equal || o1 == Ordering::Greater) && (o2 == Ordering::Equal || o2
        == Ordering::Greater) && (o3 == Ordering::Equal || o3 == Ordering::Greater) {
        Some(Ordering::Greater)
    } else {
        None
    }
}

/// The order on two `(ExpectedResult, ResultMatch)` cards: cards for
/// different expectations are incomparable, the rest is `match_verdict_cmp`.
pub open spec fn match_card_cmp(
    ae: SpecExpectedResult,
    am: SpecResultMatch,
    be: SpecExpectedResult,
    bm: SpecResultMatch,
) -> Option<Ordering> {
    if ae.expected_kind != be.expected_kind {
        None
    } else if ae.expected_cwe != be.expected_cwe {
        None
    } else {
        match_verdict_cmp(am, bm)
    }
}

/// Whether two optional CWE collections hold the same identifiers.
fn opt_cwes_eq(a: &Option<CWEs>, b: &Option<CWEs>) -> (r: bool)
    ensures
        r == (match (a, b) {
            (Some(x), Some(y)) => Some(x@) == Some::<Seq<CWE>>(y@),
            (None, None) => true,
            _ => false,
        }),
{
    match (a, b) {
        (Some(x), Some(y)) => cwe_vecs_eq(&x.0, &y.0),
        (None, None) => true,
        _ => false,
    }
}

/// The four summary axes as a four-bit number.
fn minimal_rank_exec(m: &MinimalResultMatch) -> (r: u32)
    ensures
        r as int == minimal_rank(m@),
{
    let mut r: u32 = 0;
    if m.cwe_1000_match {
        r += 8;
    }
    if m.at_least_one_file_match {
        r += 4;
    }
    if m.cwe_match {
        r += 2;
    }
    if m.at_least_one_region_match {
        r += 1;
    }
    r
}

/// The summary pre-order on two verdicts.
fn minimal_verdict_partial_cmp(a: &MinimalResultMatch, b: &MinimalResultMatch) -> (r: Option<
    Ordering,
>)
    ensures
        r == minimal_verdict_cmp(a@, b@),
{
    let ra = minimal_rank_exec(a);
    let rb = minimal_rank_exec(b);
    if ra < rb {
        Some(Ordering::Less)
    } else if ra > rb {
        Some(Ordering::Greater)
    } else if opt_cwes_eq(&a.reported_cwe, &b.reported_cwe) {
        Some(Ordering::Equal)
    } else {
        None
    }
}

/// A borrowed `(ExpectedResult, MinimalResultMatch)` pair, ordered by the
/// summary pre-order.
#[derive(Debug)]
pub struct MinimalMatchCard<'a>(pub &'a ExpectedResult, pub &'a MinimalResultMatch);

impl<'a> MinimalMatchCard<'a> {
    /// Compare two summary cards; cards for different expectations are
    /// incomparable.
    pub fn partial_cmp(&self, other: &MinimalMatchCard<'a>) -> (r: Option<Ordering>)
        ensures
            r == minimal_card_cmp(self.0@, self.1@, other.0@, other.1@),
    {
        if self.0.expected_kind != other.0.expected_kind {
            return None;
        }
        if !cwe_vecs_eq(&self.0.expected_cwe.0, &other.0.expected_cwe.0) {
            return None;
        }
        minimal_verdict_partial_cmp(self.1, other.1)
    }
}

/// The detailed partial order on two verdicts.
fn match_verdict_partial_cmp(a: &ResultMatch, b: &ResultMatch) -> (r: Option<Ordering>)
    ensures
        r == match_verdict_cmp(a@, b@),
{
    let r1a: u32 = pair_rank_exec(a.minimal_match.cwe_1000_match, a.minimal_match.cwe_match);
    let r1b: u32 = pair_rank_exec(b.minimal_match.cwe_1000_match, b.minimal_match.cwe_match);
    let r2a: u32 = pair_rank_exec(a.minimal_match.at_least_one_file_match, a.all_files_match);
    let r2b: u32 = pair_rank_exec(b.minimal_match.at_least_one_file_match, b.all_files_match);
    let r3a: u32 = pair_rank_exec(a.minimal_match.at_least_one_file_match, a.all_regions_match);
    let r3b: u32 = pair_rank_exec(b.minimal_match.at_least_one_file_match, b.all_regions_match);
    if r1a == r1b && r2a == r2b && r3a == r3b {
        if opt_cwes_eq(&a.minimal_match.reported_cwe, &b.minimal_match.reported_cwe) {
            Some(Ordering::Equal)
        } else {
            None
        }
    } else if r1a <= r1b && r2a <= r2b && r3a <= r3b {
        Some(Ordering::Less)
    } else if r1a >= r1b && r2a >= r2b && r3a >= r3b {
        Some(Ordering::Greater)
    } else {
        None
    }
}

/// A pair of booleans as a two-bit number.
fn pair_rank_exec(hi: bool, lo: bool) -> (r: u32)
    ensures
        r as int == pair_rank(hi, lo),
{
    let mut r: u32 = 0;
    if hi {
        r += 2;
    }
    if lo {
        r += 1;
    }
    r
}

/// A borrowed `(ExpectedResult, ResultMatch)` pair, ordered by the detailed
/// partial order.
#[derive(Debug)]
pub struct MatchCard<'a>(pub &'a ExpectedResult, pub &'a ResultMatch);

impl<'a> MatchCard<'a> {
    /// Compare two detailed cards; cards for different expectations are
    /// incomparable.
    pub fn partial_cmp(&self, other: &MatchCard<'a>) -> (r: Option<Ordering>)
        ensures
            r == match_card_cmp(self.0@, self.1@, other.0@, other.1@),
    {
        if self.0.expected_kind != other.0.expected_kind {
            return None;
        }
        if !cwe_vecs_eq(&self.0.expected_cwe.0, &other.0.expected_cwe.0) {
            return None;
        }
        match_verdict_partial_cmp(self.1, other.1)
    }
}

// ---------------------------------------------------------------------------
// Evaluating one truth finding against one tool finding
// ---------------------------------------------------------------------------
/// The two locations point at the same file.
pub open spec fn loc_file_match(t: SpecLocation, c: SpecLocation) -> bool {
    t.path == c.path
}

/// A truth region is matched by a tool region when either is absent (an
/// absent region spans the whole file) or when the truth region covers the
/// tool region (`Equal` or `Greater` in the containment order).
pub open spec fn region_opt_match(tr: Option<Region>, cr: Option<Region>) -> bool {
    match (tr, cr) {
        (Some(t), Some(c)) => region_cmp(t, c) == Some(Ordering::Equal) || region_cmp(t, c)
            == Some(Ordering::Greater),
        _ => true,
    }
}

/// The two locations point at the same file and the tool region matches.
pub open spec fn loc_region_match(t: SpecLocation, c: SpecLocation) -> bool {
    t.path == c.path && region_opt_match(t.region, c.region)
}

/// Some tool location shares `t`'s file.
pub open spec fn loc_matches_some_file(t: SpecLocation, cs: Seq<SpecLocation>) -> bool {
    exists|b: int| 0 <= b < cs.len() && loc_file_match(t, #[trigger] cs[b])
}

/// Some tool location shares `t`'s file with a matching region.
pub open spec fn loc_matches_some_region(t: SpecLocation, cs: Seq<SpecLocation>) -> bool {
    exists|b: int| 0 <= b < cs.len() && loc_region_match(t, #[trigger] cs[b])
}

/// Some truth location has a file match.
pub open spec fn spec_file_match_any(ts: Seq<SpecLocation>, cs: Seq<SpecLocation>) -> bool {
    exists|a: int| 0 <= a < ts.len() && loc_matches_some_file(#[trigger] ts[a], cs)
}

/// Every truth location has a file match.
pub open spec fn spec_file_match_all(ts: Seq<SpecLocation>, cs: Seq<SpecLocation>) -> bool {
    forall|a: int| 0 <= a < ts.len() ==> loc_matches_some_file(#[trigger] ts[a], cs)
}

/// Some truth location has a region match.
pub open spec fn spec_region_match_any(ts: Seq<SpecLocation>, cs: Seq<SpecLocation>) -> bool {
    exists|a: int| 0 <= a < ts.len() && loc_matches_some_region(#[trigger] ts[a], cs)
}

/// Every truth location has a region match.
pub open spec fn spec_region_match_all(ts: Seq<SpecLocation>, cs: Seq<SpecLocation>) -> bool {
    forall|a: int| 0 <= a < ts.len() ==> loc_matches_some_region(#[trigger] ts[a], cs)
}

/// The tool CWE `c` is the truth CWE `t` itself or a descendant of it: the
/// tool names the same weakness or a more specific one, which still covers
/// what the truth expects.
pub open spec fn matches_cwe(entries: Seq<(CWE, Vec<CWE>)>, t: CWE, c: CWE) -> bool {
    cwe_cmp(entries, t, c) == Some(Ordering::Equal) || cwe_cmp(entries, t, c) == Some(
        Ordering::Greater,
    )
}

/// Some tool CWE matches the truth CWE `t`.
pub open spec fn cwe_matches_some(entries: Seq<(CWE, Vec<CWE>)>, t: CWE, cs: Seq<CWE>) -> bool {
    exists|b: int| 0 <= b < cs.len() && matches_cwe(entries, t, #[trigger] cs[b])
}

/// Some truth CWE is matched by some tool CWE.
pub open spec fn spec_cwe_match(entries: Seq<(CWE, Vec<CWE>)>, ts: Seq<CWE>, cs: Seq<CWE>) -> bool {
    exists|a: int| 0 <= a < ts.len() && cwe_matches_some(entries, #[trigger] ts[a], cs)
}

/// Some CWE-1000 class of the truth CWE `t` is matched by some tool CWE.
pub open spec fn class_matches_some(
    entries: Seq<(CWE, Vec<CWE>)>,
    roots: Seq<CWE>,
    t: CWE,
    cs: Seq<CWE>,
) -> bool {
    match spec_classes_of(entries, roots, t) {
        Some(cls) => exists|k: int| 0 <= k < cls.len() && cwe_matches_some(entries, #[trigger] cls[k], cs),
        None => false,
    }
}

/// Some truth CWE has a CWE-1000 class matched by some tool CWE.
pub open spec fn spec_class_match(
    entries: Seq<(CWE, Vec<CWE>)>,
    roots: Seq<CWE>,
    ts: Seq<CWE>,
    cs: Seq<CWE>,
) -> bool {
    exists|a: int| 0 <= a < ts.len() && class_matches_some(entries, roots, #[trigger] ts[a], cs)
}

/// The full verdict of one truth finding against one tool finding.
pub open spec fn spec_evaluate(
    t: crate::truth::SpecTruthResult,
    c: crate::truth::SpecToolResult,
    entries: Seq<(CWE, Vec<CWE>)>,
    roots: Seq<CWE>,
) -> SpecResultMatch {
    SpecResultMatch {
        minimal_match: SpecMinimalMatch {
            cwe_1000_match: spec_class_match(entries, roots, t.result.rule.cwes, c.result.rule.cwes),
            at_least_one_file_match: spec_file_match_any(t.result.locations, c.result.locations),
            cwe_match: spec_cwe_match(entries, t.result.rule.cwes, c.result.rule.cwes),
            at_least_one_region_match: spec_region_match_any(
                t.result.locations,
                c.result.locations,
            ),
            rule_id_match: t.result.rule.rule_id == c.result.rule.rule_id,
            reported_cwe: Some(c.result.rule.cwes),
        },
        all_files_match: spec_file_match_all(t.result.locations, c.result.locations),
        all_regions_match: spec_region_match_all(t.result.locations, c.result.locations),
    }
}

/// Whether the tool region matches the truth region, absent regions
/// matching everything.
fn region_opt_match_exec(tr: &Option<Region>, cr: &Option<Region>) -> (r: bool)
    ensures
        r == region_opt_match(*tr, *cr),
{
    match (tr, cr) {
        (Some(t), Some(c)) => match t.partial_cmp(c) {
            Some(Ordering::Equal) => true,
            Some(Ordering::Greater) => true,
            _ => false,
        },
        _ => true,
    }
}

/// File and region matches of one truth location against all tool locations.
fn match_one_location(t: &Location, tool: &Locations) -> (r: (bool, bool))
    ensures
        r.0 == loc_matches_some_file(t@, tool@),
        r.1 == loc_matches_some_region(t@, tool@),
{
    let mut file: bool = false;
    let mut region: bool = false;
    let mut j: usize = 0;
    while j < tool.0.len()
        invariant
            j <= tool.0.len(),
            tool@.len() == tool.0.len(),
            forall|b: int| 0 <= b < tool@.len() ==> #[trigger] tool@[b] == tool.0@[b]@,
            file == (exists|b: int| 0 <= b < j && loc_file_match(t@, #[trigger] tool@[b])),
            region == (exists|b: int| 0 <= b < j && loc_region_match(t@, #[trigger] tool@[b])),
        decreases tool.0.len() - j,
    {
        let c = &tool.0[j];
        if t.path == c.path {
            file = true;
            if region_opt_match_exec(&t.region, &c.region) {
                region = true;
            }
            proof {
                assert(loc_file_match(t@, tool@[j as int]));
            }
        }
        j += 1;
    }
    (file, region)
}

/// All four location axes of a truth finding against a tool finding:
/// (file any, file all, region any, region all).
fn match_locations(truth: &Locations, tool: &Locations) -> (r: (bool, bool, bool, bool))
    ensures
        r.0 == spec_file_match_any(truth@, tool@),
        r.1 == spec_file_match_all(truth@, tool@),
        r.2 == spec_region_match_any(truth@, tool@),
        r.3 == spec_region_match_all(truth@, tool@),
{
    let mut file_any: bool = false;
    let mut file_all: bool = true;
    let mut region_any: bool = false;
    let mut region_all: bool = true;
    let mut i: usize = 0;
    while i < truth.0.len()
        invariant
            i <= truth.0.len(),
            truth@.len() == truth.0.len(),
            forall|a: int| 0 <= a < truth@.len() ==> #[trigger] truth@[a] == truth.0@[a]@,
            file_any == (exists|a: int|
                0 <= a < i && loc_matches_some_file(#[trigger] truth@[a], tool@)),
            file_all == (forall|a: int|
                0 <= a < i ==> loc_matches_some_file(#[trigger] truth@[a], tool@)),
            region_any == (exists|a: int|
                0 <= a < i && loc_matches_some_region(#[trigger] truth@[a], tool@)),
            region_all == (forall|a: int|
                0 <= a < i ==> loc_matches_some_region(#[trigger] truth@[a], tool@)),
        decreases truth.0.len() - i,
    {
        let (cf, cr) = match_one_location(&truth.0[i], tool);
        proof {
            assert(truth@[i as int] == truth.0@[i as int]@);
        }
        file_any = file_any || cf;
        file_all = file_all && cf;
        region_any = region_any || cr;
        region_all = region_all && cr;
        i += 1;
    }
    (file_any, file_all, region_any, region_all)
}

/// Whether some tool CWE names the truth CWE `t` or a descendant of it.
fn cwe_matches_some_exec(tax: &Taxonomy, t: &CWE, cs: &Vec<CWE>) -> (r: bool)
    ensures
        r == cwe_matches_some(tax.parents@, *t, cs@),
{
    let mut j: usize = 0;
    while j < cs.len()
        invariant
            j <= cs.len(),
            forall|b: int| 0 <= b < j ==> !matches_cwe(tax.parents@, *t, #[trigger] cs@[b]),
        decreases cs.len() - j,
    {
        let ord = tax.cwe_partial_cmp(t, &cs[j]);
        let hit: bool = match ord {
            Some(Ordering::Equal) => true,
            Some(Ordering::Greater) => true,
            _ => false,
        };
        if hit {
            proof {
                assert(matches_cwe(tax.parents@, *t, cs@[j as int]));
            }
            return true;
        }
        j += 1;
    }
    false
}

/// Whether some truth CWE is matched by some tool CWE.
fn cwes_match(tax: &Taxonomy, ts: &Vec<CWE>, cs: &Vec<CWE>) -> (r: bool)
    ensures
        r == spec_cwe_match(tax.parents@, ts@, cs@),
{
    let mut a: usize = 0;
    while a < ts.len()
        invariant
            a <= ts.len(),
            forall|x: int| 0 <= x < a ==> !cwe_matches_some(tax.parents@, #[trigger] ts@[x], cs@),
        decreases ts.len() - a,
    {
        if cwe_matches_some_exec(tax, &ts[a], cs) {
            return true;
        }
        a += 1;
    }
    false
}

/// Whether some CWE-1000 class of some truth CWE is matched by some tool
/// CWE.
fn classes_match(tax: &Taxonomy, ts: &Vec<CWE>, cs: &Vec<CWE>) -> (r: bool)
    requires
        tax.wf(),
    ensures
        r == spec_class_match(tax.parents@, tax.cwe_1000@, ts@, cs@),
{
    let mut a: usize = 0;
    while a < ts.len()
        invariant
            tax.wf(),
            a <= ts.len(),
            forall|x: int|
                0 <= x < a ==> !class_matches_some(
                    tax.parents@,
                    tax.cwe_1000@,
                    #[trigger] ts@[x],
                    cs@,
                ),
        decreases ts.len() - a,
    {
        match tax.to_cwe_1000(&ts[a]) {
            Some(classes) => {
                let mut k: usize = 0;
                while k < classes.len()
                    invariant
                        tax.wf(),
                        a < ts.len(),
                        k <= classes.len(),
                        spec_classes_of(tax.parents@, tax.cwe_1000@, ts@[a as int]) == Some(
                            classes@,
                        ),
                        forall|y: int|
                            0 <= y < k ==> !cwe_matches_some(
                                tax.parents@,
                                #[trigger] classes@[y],
                                cs@,
                            ),
                    decreases classes.len() - k,
                {
                    if cwe_matches_some_exec(tax, &classes[k], cs) {
                        proof {
                            let copt = spec_classes_of(tax.parents@, tax.cwe_1000@, ts@[a as int]);
                            assert(copt == Some(classes@));
                            assert(copt->Some_0[k as int] == classes@[k as int]);
                            assert(cwe_matches_some(tax.parents@, copt->Some_0[k as int], cs@));
                            assert(class_matches_some(
                                tax.parents@,
                                tax.cwe_1000@,
                                ts@[a as int],
                                cs@,
                            ));
                        }
                        return true;
                    }
                    k += 1;
                }
            },
            None => {},
        }
        a += 1;
    }
    false
}

/// Evaluate one truth finding against one tool finding, producing the
/// expected side and the verdict along every axis.
pub fn evaluate_tool_result(
    truth_result: &TruthResult,
    tool_result: &ToolResult,
    taxonomy: &Taxonomy,
) -> (r: (ExpectedResult, ResultMatch))
    requires
        taxonomy.wf(),
    ensures
        r.0@.expected_kind == truth_result.kind,
        r.0@.expected_cwe == truth_result.result.rule.cwes@,
        r.1@ == spec_evaluate(truth_result@, tool_result@, taxonomy.parents@, taxonomy.cwe_1000@),
{
    let (file_any, file_all, region_any, region_all) = match_locations(
        &truth_result.result.locations,
        &tool_result.result.locations,
    );
    let cwe_match = cwes_match(
        taxonomy,
        &truth_result.result.rule.cwes.0,
        &tool_result.result.rule.cwes.0,
    );
    let cwe_1000_match = classes_match(
        taxonomy,
        &truth_result.result.rule.cwes.0,
        &tool_result.result.rule.cwes.0,
    );
    let rule_id_match = truth_result.result.rule.rule_id == tool_result.result.rule.rule_id;
    let expected = ExpectedResult::from(truth_result);
    let reported = Some(tool_result.result.rule.cwes.clone());
    (
        expected,
        ResultMatch {
            minimal_match: MinimalResultMatch {
                cwe_1000_match,
                at_least_one_file_match: file_any,
                cwe_match,
                at_least_one_region_match: region_any,
                rule_id_match,
                reported_cwe: reported,
            },
            all_files_match: file_all,
            all_regions_match: region_all,
        },
    )
}

// ---------------------------------------------------------------------------
// Candidate selection over a pool of tool findings
// ---------------------------------------------------------------------------
/// The truth and tool findings name at least one CWE in common.
pub open spec fn shares_cwe(ts: Seq<CWE>, cs: Seq<CWE>) -> bool {
    exists|a: int, b: int|
        #![trigger ts[a], cs[b]]
        0 <= a < ts.len() && 0 <= b < cs.len() && ts[a] == cs[b]
}

/// A tool finding is a candidate for a truth finding when they share a file
/// path or a CWE; findings sharing neither can match on no axis and are
/// skipped.
pub open spec fn is_candidate(
    t: crate::truth::SpecTruthResult,
    c: crate::truth::SpecToolResult,
) -> bool {
    spec_file_match_any(t.result.locations, c.result.locations) || shares_cwe(
        t.result.rule.cwes,
        c.result.rule.cwes,
    )
}

/// The mathematical values of a collection of tool findings.
pub open spec fn tool_views(s: Seq<ToolResult>) -> Seq<crate::truth::SpecToolResult> {
    s.map_values(|t: ToolResult| t@)
}

/// The candidate pool of a truth finding, in report order.
pub open spec fn spec_candidates(
    t: crate::truth::SpecTruthResult,
    pool: Seq<crate::truth::SpecToolResult>,
) -> Seq<crate::truth::SpecToolResult> {
    pool.filter(|c: crate::truth::SpecToolResult| is_candidate(t, c))
}

/// The verdicts of a truth finding against each of its candidates.
pub open spec fn spec_verdicts(
    t: crate::truth::SpecTruthResult,
    pool: Seq<crate::truth::SpecToolResult>,
    entries: Seq<(CWE, Vec<CWE>)>,
    roots: Seq<CWE>,
) -> Seq<SpecResultMatch> {
    spec_candidates(t, pool).map_values(
        |c: crate::truth::SpecToolResult| spec_evaluate(t, c, entries, roots),
    )
}

/// No verdict in `s` strictly dominates `x`.
pub open spec fn spec_maximal(s: Seq<SpecResultMatch>, x: SpecResultMatch) -> bool {
    forall|j: int| 0 <= j < s.len() ==> match_verdict_cmp(x, #[trigger] s[j]) != Some(Ordering::Less)
}

/// The Pareto-maximal verdicts of `s`: exactly those that no other verdict
/// strictly dominates, in order, ties and incomparable verdicts all kept.
pub open spec fn spec_pareto(s: Seq<SpecResultMatch>) -> Seq<SpecResultMatch> {
    s.filter(|x: SpecResultMatch| spec_maximal(s, x))
}

/// The summary verdict of a nonempty verdict collection: fold from the
/// left, replacing the current best only when a later verdict is strictly
/// greater, so that the first-seen verdict wins every tie.
pub open spec fn spec_best_minimal(s: Seq<SpecResultMatch>) -> SpecResultMatch
    recommends
        s.len() > 0,
    decreases s.len(),
{
    if s.len() <= 1 {
        s[0]
    } else {
        let prev = spec_best_minimal(s.drop_last());
        if minimal_verdict_cmp(prev.minimal_match, s.last().minimal_match) == Some(Ordering::Less) {
            s.last()
        } else {
            prev
        }
    }
}

/// The summary axes recorded for a truth finding: the best verdict over its
/// candidates, or the all-`false` verdict when it has none.
pub open spec fn spec_summary_minimal(
    t: crate::truth::SpecTruthResult,
    pool: Seq<crate::truth::SpecToolResult>,
    entries: Seq<(CWE, Vec<CWE>)>,
    roots: Seq<CWE>,
) -> SpecMinimalMatch {
    let v = spec_verdicts(t, pool, entries, roots);
    if v.len() == 0 {
        spec_default_minimal()
    } else {
        spec_best_minimal(v).minimal_match
    }
}

/// The full evaluation record of one truth finding against a tool's
/// findings.
#[derive(Debug)]
pub struct ToolResultCard {
    pub expected_result: ExpectedResult,
    pub max_match: Vec<ResultMatch>,
    pub max_minimal_match: MinimalResultMatch,
}

/// The mathematical value of a `ToolResultCard`.
pub struct SpecToolResultCard {
    pub expected_result: SpecExpectedResult,
    pub max_match: Seq<SpecResultMatch>,
    pub max_minimal_match: SpecMinimalMatch,
}

impl View for ToolResultCard {
    type V = SpecToolResultCard;

    open spec fn view(&self) -> SpecToolResultCard {
        SpecToolResultCard {
            expected_result: self.expected_result@,
            max_match: self.max_match@.map_values(|m: ResultMatch| m@),
            max_minimal_match: self.max_minimal_match@,
        }
    }
}

/// What `evaluate_tool_results` computes for one truth finding.
pub open spec fn spec_tool_result_card(
    t: crate::truth::SpecTruthResult,
    pool: Seq<crate::truth::SpecToolResult>,
    entries: Seq<(CWE, Vec<CWE>)>,
    roots: Seq<CWE>,
) -> SpecToolResultCard {
    SpecToolResultCard {
        expected_result: SpecExpectedResult {
            expected_kind: t.kind,
            expected_cwe: t.result.rule.cwes,
        },
        max_match: spec_pareto(spec_verdicts(t, pool, entries, roots)),
        max_minimal_match: spec_summary_minimal(t, pool, entries, roots),
    }
}

/// The evaluation records of every truth finding of one benchmark run.
#[derive(Debug)]
pub struct ToolResultsCard {
    pub result: Vec<ToolResultCard>,
}

/// Whether some truth location shares its file with some tool location.
fn shares_path_exec(truth: &Locations, tool: &Locations) -> (r: bool)
    ensures
        r == spec_file_match_any(truth@, tool@),
{
    let mut i: usize = 0;
    while i < truth.0.len()
        invariant
            i <= truth.0.len(),
            truth@.len() == truth.0.len(),
            forall|a: int| 0 <= a < truth@.len() ==> #[trigger] truth@[a] == truth.0@[a]@,
            forall|a: int| 0 <= a < i ==> !loc_matches_some_file(#[trigger] truth@[a], tool@),
        decreases truth.0.len() - i,
    {
        let (f, _) = match_one_location(&truth.0[i], tool);
        if f {
            proof {
                assert(truth@[i as int] == truth.0@[i as int]@);
            }
            return true;
        }
        i += 1;
    }
    false
}

/// Whether the two CWE collections share an identifier.
fn shares_cwe_exec(ts: &Vec<CWE>, cs: &Vec<CWE>) -> (r: bool)
    ensures
        r == shares_cwe(ts@, cs@),
{
    let mut a: usize = 0;
    while a < ts.len()
        invariant
            a <= ts.len(),
            forall|x: int, y: int|
                #![trigger ts@[x], cs@[y]]
                0 <= x < a && 0 <= y < cs@.len() ==> ts@[x] != cs@[y],
        decreases ts.len() - a,
    {
        let mut b: usize = 0;
        while b < cs.len()
            invariant
                a < ts.len(),
                b <= cs.len(),
                forall|y: int| 0 <= y < b ==> ts@[a as int] != #[trigger] cs@[y],
            decreases cs.len() - b,
        {
            if ts[a] == cs[b] {
                return true;
            }
            b += 1;
        }
        a += 1;
    }
    false
}

/// Whether the tool finding is a candidate for the truth finding.
fn is_candidate_exec(truth: &TruthResult, tool: &ToolResult) -> (r: bool)
    ensures
        r == is_candidate(truth@, tool@),
{
    if shares_path_exec(&truth.result.locations, &tool.result.locations) {
        return true;
    }
    shares_cwe_exec(&truth.result.rule.cwes.0, &tool.result.rule.cwes.0)
}

/// Evaluate one truth finding against a whole tool report: collect the
/// candidates that share a file or a CWE, evaluate each, keep the
/// Pareto-maximal verdicts, and reduce all verdicts to the summary verdict
/// (the all-`false` verdict when there is no candidate).
pub fn evaluate_tool_results(
    truth_result: &TruthResult,
    tool_results: &ToolResults,
    taxonomy: &Taxonomy,
) -> (r: ToolResultCard)
    requires
        taxonomy.wf(),
    ensures
        r@ == spec_tool_result_card(
            truth_result@,
            tool_views(tool_results.results@),
            taxonomy.parents@,
            taxonomy.cwe_1000@,
        ),
{
    let ghost t = truth_result@;
    let ghost poolv = tool_views(tool_results.results@);
    let ghost entries = taxonomy.parents@;
    let ghost roots = taxonomy.cwe_1000@;
    let ghost cand_pred = |c: crate::truth::SpecToolResult| is_candidate(t, c);
    let ghost eval_map = |c: crate::truth::SpecToolResult| spec_evaluate(t, c, entries, roots);
    let ghost view_map = |m: ResultMatch| m@;

    let mut verdicts: Vec<ResultMatch> = Vec::new();
    let n: usize = tool_results.results.len();
    let mut i: usize = 0;
    while i < n
        invariant
            taxonomy.wf(),
            t == truth_result@,
            entries == taxonomy.parents@,
            roots == taxonomy.cwe_1000@,
            poolv == tool_views(tool_results.results@),
            cand_pred == (|c: crate::truth::SpecToolResult| is_candidate(t, c)),
            eval_map == (|c: crate::truth::SpecToolResult| spec_evaluate(t, c, entries, roots)),
            view_map == (|m: ResultMatch| m@),
            n == tool_results.results.len(),
            poolv.len() == n,
            i <= n,
            forall|x: int| 0 <= x < n ==> #[trigger] poolv[x] == tool_results.results@[x]@,
            verdicts@.map_values(view_map) == poolv.take(i as int).filter(cand_pred).map_values(
                eval_map,
            ),
        decreases n - i,
    {
        let ghost prefix = poolv.take(i as int);
        let cand = is_candidate_exec(truth_result, &tool_results.results[i]);
        proof {
            reveal(Seq::filter);
            assert(poolv.take(i + 1 as int).drop_last() =~= prefix);
            assert(poolv.take(i + 1 as int).last() == poolv[i as int]);
            assert(cand == cand_pred(poolv[i as int]));
        }
        if cand {
            let (_, m) = evaluate_tool_result(truth_result, &tool_results.results[i], taxonomy);
            let ghost verdicts_before = verdicts@;
            verdicts.push(m);
            proof {
                reveal(Seq::filter);
                assert(poolv.take(i + 1 as int).filter(cand_pred) =~= prefix.filter(
                    cand_pred,
                ).push(poolv[i as int]));
                assert(m@ == eval_map(poolv[i as int]));
                let lhs = verdicts@.map_values(view_map);
                let rhs = poolv.take(i + 1 as int).filter(cand_pred).map_values(eval_map);
                let old_lhs = verdicts_before.map_values(view_map);
                let old_rhs = prefix.filter(cand_pred).map_values(eval_map);
                assert(old_lhs.len() == old_rhs.len());
                assert(lhs.len() == rhs.len());
                assert forall|j: int| 0 <= j < lhs.len() implies lhs[j] == rhs[j] by {
                    if j < verdicts_before.len() {
                        assert(verdicts@[j] == verdicts_before[j]);
                        assert(lhs[j] == view_map(verdicts_before[j]));
                        assert(old_lhs[j] == view_map(verdicts_before[j]));
                        assert(poolv.take(i + 1 as int).filter(cand_pred)[j] == prefix.filter(
                            cand_pred,
                        )[j]);
                        assert(rhs[j] == old_rhs[j]);
                    } else {
                        assert(verdicts@[j] == m);
                        assert(poolv.take(i + 1 as int).filter(cand_pred)[j] == poolv[i as int]);
                    }
                }
                assert(lhs =~= rhs);
            }
        } else {
            proof {
                reveal(Seq::filter);
                assert(poolv.take(i + 1 as int).filter(cand_pred) =~= prefix.filter(cand_pred));
                assert(verdicts@.map_values(view_map) =~= poolv.take(i + 1 as int).filter(
                    cand_pred,
                ).map_values(eval_map));
            }
        }
        i += 1;
    }
    proof {
        assert(poolv.take(n as int) =~= poolv);
        assert(verdicts@.map_values(view_map) == spec_verdicts(t, poolv, entries, roots));
    }
    let ghost vs = verdicts@.map_values(view_map);

    // The Pareto-maximal verdicts: keep each verdict that no other strictly
    // dominates.
    let mut max_match: Vec<ResultMatch> = Vec::new();
    let vn: usize = verdicts.len();
    let mut a: usize = 0;
    while a < vn
        invariant
            vn == verdicts.len(),
            vs == verdicts@.map_values(view_map),
            view_map == (|m: ResultMatch| m@),
            vs.len() == vn,
            a <= vn,
            forall|x: int| 0 <= x < vn ==> #[trigger] vs[x] == verdicts@[x]@,
            max_match@.map_values(view_map) == vs.take(a as int).filter(
                |x: SpecResultMatch| spec_maximal(vs, x),
            ),
        decreases vn - a,
    {
        let mut dominated: bool = false;
        let mut b: usize = 0;
        while b < vn
            invariant
                vn == verdicts.len(),
                vs.len() == vn,
                a < vn,
                b <= vn,
                forall|x: int| 0 <= x < vn ==> #[trigger] vs[x] == verdicts@[x]@,
                dominated == exists|y: int|
                    0 <= y < b && match_verdict_cmp(vs[a as int], #[trigger] vs[y]) == Some(
                        Ordering::Less,
                    ),
            decreases vn - b,
        {
            match match_verdict_partial_cmp(&verdicts[a], &verdicts[b]) {
                Some(Ordering::Less) => {
                    dominated = true;
                    proof {
                        assert(match_verdict_cmp(vs[a as int], vs[b as int]) == Some(
                            Ordering::Less,
                        ));
                    }
                },
                _ => {
                    proof {
                        assert(match_verdict_cmp(vs[a as int], vs[b as int]) != Some(
                            Ordering::Less,
                        ));
                    }
                },
            }
            b += 1;
        }
        proof {
            reveal(Seq::filter);
            assert(vs.take(a + 1 as int).drop_last() =~= vs.take(a as int));
            assert(vs.take(a + 1 as int).last() == vs[a as int]);
            assert(dominated == !spec_maximal(vs, vs[a as int]));
        }
        if !dominated {
            max_match.push(verdicts[a].clone());
            proof {
                assert(max_match@.map_values(view_map) =~= vs.take(a + 1 as int).filter(
                    |x: SpecResultMatch| spec_maximal(vs, x),
                ));
            }
        } else {
            proof {
                assert(max_match@.map_values(view_map) =~= vs.take(a + 1 as int).filter(
                    |x: SpecResultMatch| spec_maximal(vs, x),
                ));
            }
        }
        a += 1;
    }
    proof {
        assert(vs.take(vn as int) =~= vs);
    }

    // The summary reduction: the left fold that keeps the first-seen verdict
    // on ties.
    let max_minimal_match: MinimalResultMatch;
    if verdicts.len() == 0 {
        max_minimal_match = ResultMatch::new().minimal_match;
    } else {
        let mut best: ResultMatch = verdicts[0].clone();
        proof {
            assert(vs.take(1) =~= seq![vs[0]]);
            assert(spec_best_minimal(vs.take(1)) == vs[0]);
        }
        let mut k: usize = 1;
        while k < vn
            invariant
                vn == verdicts.len(),
                vs.len() == vn,
                1 <= k <= vn,
                forall|x: int| 0 <= x < vn ==> #[trigger] vs[x] == verdicts@[x]@,
                best@ == spec_best_minimal(vs.take(k as int)),
            decreases vn - k,
        {
            let step = minimal_verdict_partial_cmp(&best.minimal_match, &verdicts[k].minimal_match);
            proof {
                assert(vs.take(k + 1 as int).drop_last() =~= vs.take(k as int));
                assert(vs.take(k + 1 as int).last() == vs[k as int]);
            }
            match step {
                Some(Ordering::Less) => {
                    best = verdicts[k].clone();
                },
                _ => {},
            }
            k += 1;
        }
        proof {
            assert(vs.take(vn as int) =~= vs);
        }
        max_minimal_match = best.minimal_match;
    }

    ToolResultCard {
        expected_result: ExpectedResult::from(truth_result),
        max_match,
        max_minimal_match,
    }
}

/// Evaluate every truth finding of a benchmark against a tool's findings.
pub fn evaluate_tool(
    truth_results: &TruthResults,
    tool_results: &ToolResults,
    taxonomy: &Taxonomy,
) -> (r: ToolResultsCard)
    requires
        taxonomy.wf(),
    ensures
        r.result@.len() == truth_results.results@.len(),
        forall|i: int|
            0 <= i < truth_results.results@.len() ==> (#[trigger] r.result@[i])@
                == spec_tool_result_card(
                truth_results.results@[i]@,
                tool_views(tool_results.results@),
                taxonomy.parents@,
                taxonomy.cwe_1000@,
            ),
{
    let mut result: Vec<ToolResultCard> = Vec::new();
    let n: usize = truth_results.results.len();
    let mut i: usize = 0;
    while i < n
        invariant
            taxonomy.wf(),
            n == truth_results.results.len(),
            i <= n,
            result@.len() == i,
            forall|j: int|
                0 <= j < i ==> (#[trigger] result@[j])@ == spec_tool_result_card(
                    truth_results.results@[j]@,
                    tool_views(tool_results.results@),
                    taxonomy.parents@,
                    taxonomy.cwe_1000@,
                ),
        decreases n - i,
    {
        let card = evaluate_tool_results(&truth_results.results[i], tool_results, taxonomy);
        result.push(card);
        i += 1;
    }
    ToolResultsCard { result }
}

// ---------------------------------------------------------------------------
// Laws of the selector
// ---------------------------------------------------------------------------
/// Filtering by an everywhere-false predicate leaves nothing.
proof fn lemma_filter_none<A>(s: Seq<A>, pred: spec_fn(A) -> bool)
    requires
        forall|i: int| 0 <= i < s.len() ==> !pred(#[trigger] s[i]),
    ensures
        s.filter(pred) == Seq::<A>::empty(),
    decreases s.len(),
{
    reveal(Seq::filter);
    if s.len() > 0 {
        lemma_filter_none(s.drop_last(), pred);
    }
}

/// A truth finding whose candidate pool is empty — no tool finding shares a
/// file path or a CWE with it — gets the all-`false` summary verdict and an
/// empty Pareto set, so it counts as one false negative and contributes no
/// true or false positive.
pub proof fn lemma_empty_candidate_pool(
    t: crate::truth::SpecTruthResult,
    pool: Seq<crate::truth::SpecToolResult>,
    entries: Seq<(CWE, Vec<CWE>)>,
    roots: Seq<CWE>,
)
    requires
        forall|i: int| 0 <= i < pool.len() ==> !is_candidate(t, #[trigger] pool[i]),
    ensures
        spec_tool_result_card(t, pool, entries, roots).max_minimal_match == spec_default_minimal(),
        spec_tool_result_card(t, pool, entries, roots).max_match == Seq::<SpecResultMatch>::empty(),
{
    lemma_filter_none(pool, |c: crate::truth::SpecToolResult| is_candidate(t, c));
    assert(spec_candidates(t, pool).map_values(
        |c: crate::truth::SpecToolResult| spec_evaluate(t, c, entries, roots),
    ) =~= Seq::<SpecResultMatch>::empty());
    lemma_filter_none(
        spec_verdicts(t, pool, entries, roots),
        |x: SpecResultMatch| spec_maximal(spec_verdicts(t, pool, entries, roots), x),
    );
}

/// When the truth finding names a CWE whose class table contains a class
/// that the tool also reports, the class axis of the verdict holds — even
/// where the exact/descendant CWE axis does not.
pub proof fn lemma_cwe_class_propagation(
    entries: Seq<(CWE, Vec<CWE>)>,
    roots: Seq<CWE>,
    ts: Seq<CWE>,
    cs: Seq<CWE>,
    t: CWE,
    k: CWE,
)
    requires
        ts.contains(t),
        cs.contains(k),
        spec_classes_of(entries, roots, t) is Some,
        spec_classes_of(entries, roots, t)->Some_0.contains(k),
    ensures
        spec_class_match(entries, roots, ts, cs),
{
    let a = choose|a: int| 0 <= a < ts.len() && ts[a] == t;
    let b = choose|b: int| 0 <= b < cs.len() && cs[b] == k;
    let cls = spec_classes_of(entries, roots, t)->Some_0;
    let x = choose|x: int| 0 <= x < cls.len() && cls[x] == k;
    assert(cwe_cmp(entries, k, k) == Some(Ordering::Equal));
    assert(matches_cwe(entries, cls[x], cs[b]));
    assert(cwe_matches_some(entries, cls[x], cs));
    assert(class_matches_some(entries, roots, ts[a], cs));
}

/// Two mutually incomparable verdicts both survive Pareto selection:
/// neither is dropped in favour of the other.
pub proof fn lemma_incomparable_verdicts_kept(a: SpecResultMatch, b: SpecResultMatch)
    requires
        match_verdict_cmp(a, b) is None,
        match_verdict_cmp(b, a) is None,
    ensures
        spec_pareto(seq![a, b]) == seq![a, b],
{
    let s = seq![a, b];
    assert(match_verdict_cmp(a, a) == Some(Ordering::Equal));
    assert(match_verdict_cmp(b, b) == Some(Ordering::Equal));
    assert(spec_maximal(s, a));
    assert(spec_maximal(s, b));
    assert forall|i: int| 0 <= i < s.len() implies spec_maximal(s, #[trigger] s[i]) by {
        if i == 0 {
            assert(s[i] == a);
        } else {
            assert(s[i] == b);
        }
    }
    lemma_filter_keep_all(s, |x: SpecResultMatch| spec_maximal(s, x));
}

/// Filtering by an everywhere-true predicate keeps everything.
proof fn lemma_filter_keep_all<A>(s: Seq<A>, pred: spec_fn(A) -> bool)
    requires
        forall|i: int| 0 <= i < s.len() ==> pred(#[trigger] s[i]),
    ensures
        s.filter(pred) == s,
    decreases s.len(),
{
    reveal(Seq::filter);
    if s.len() > 0 {
        lemma_filter_keep_all(s.drop_last(), pred);
        assert(s.drop_last().filter(pred).push(s.last()) =~= s);
    }
}

/// The Pareto set is an antichain drawn from its input: every kept verdict
/// is one of the input verdicts, and no kept verdict strictly dominates
/// another.
pub proof fn lemma_pareto_antichain(s: Seq<SpecResultMatch>)
    ensures
        forall|i: int| 0 <= i < spec_pareto(s).len() ==> s.contains(#[trigger] spec_pareto(s)[i]),
        forall|i: int, j: int|
            0 <= i < spec_pareto(s).len() && 0 <= j < spec_pareto(s).len()
                ==> match_verdict_cmp(#[trigger] spec_pareto(s)[i], #[trigger] spec_pareto(s)[j])
                != Some(Ordering::Less),
{
    let pred = |x: SpecResultMatch| spec_maximal(s, x);
    assert forall|i: int| 0 <= i < spec_pareto(s).len() implies s.contains(
        #[trigger] spec_pareto(s)[i],
    ) by {
        assert(s.filter(pred).contains(spec_pareto(s)[i]));
        s.lemma_filter_contains_rev(pred, spec_pareto(s)[i]);
    }
    assert forall|i: int, j: int|
        0 <= i < spec_pareto(s).len() && 0 <= j < spec_pareto(s).len() implies match_verdict_cmp(
        #[trigger] spec_pareto(s)[i],
        #[trigger] spec_pareto(s)[j],
    ) != Some(Ordering::Less) by {
        s.lemma_filter_pred(pred, i);
        assert(spec_maximal(s, spec_pareto(s)[i]));
        assert(s.filter(pred).contains(spec_pareto(s)[j]));
        s.lemma_filter_contains_rev(pred, spec_pareto(s)[j]);
        let k = choose|k: int| 0 <= k < s.len() && s[k] == spec_pareto(s)[j];
        assert(match_verdict_cmp(spec_pareto(s)[i], s[k]) != Some(Ordering::Less));
    }
}

/// The summary verdict is one of the verdicts and is not strictly below any
/// of them: the fold computes a greatest element of the summary pre-order.
pub proof fn lemma_summary_best_undominated(s: Seq<SpecResultMatch>)
    requires
        s.len() > 0,
    ensures
        exists|i: int| 0 <= i < s.len() && spec_best_minimal(s) == #[trigger] s[i],
        forall|j: int|
            0 <= j < s.len() ==> minimal_verdict_cmp(
                spec_best_minimal(s).minimal_match,
                (#[trigger] s[j]).minimal_match,
            ) != Some(Ordering::Less),
    decreases s.len(),
{
    if s.len() == 1 {
        assert(spec_best_minimal(s) == s[0]);
    } else {
        let prev = spec_best_minimal(s.drop_last());
        lemma_summary_best_undominated(s.drop_last());
        let pi = choose|i: int| 0 <= i < s.drop_last().len() && prev == #[trigger] s.drop_last()[i];
        assert(s[pi] == s.drop_last()[pi]);
        let best = spec_best_minimal(s);
        if minimal_verdict_cmp(prev.minimal_match, s.last().minimal_match) == Some(Ordering::Less) {
            assert(best == s.last());
            assert(best == s[s.len() - 1]);
            assert forall|j: int| 0 <= j < s.len() implies minimal_verdict_cmp(
                best.minimal_match,
                (#[trigger] s[j]).minimal_match,
            ) != Some(Ordering::Less) by {
                if j < s.len() - 1 {
                    assert(s[j] == s.drop_last()[j]);
                    if minimal_verdict_cmp(best.minimal_match, s[j].minimal_match) == Some(
                        Ordering::Less,
                    ) {
                        lemma_minimal_verdict_cmp_transitive(
                            prev.minimal_match,
                            best.minimal_match,
                            s[j].minimal_match,
                        );
                    }
                }
            }
        } else {
            assert(best == prev);
            assert forall|j: int| 0 <= j < s.len() implies minimal_verdict_cmp(
                best.minimal_match,
                (#[trigger] s[j]).minimal_match,
            ) != Some(Ordering::Less) by {
                if j < s.len() - 1 {
                    assert(s[j] == s.drop_last()[j]);
                }
            }
        }
    }
}

/// Strict dominance is transitive in the summary pre-order.
pub proof fn lemma_minimal_verdict_cmp_transitive(
    a: SpecMinimalMatch,
    b: SpecMinimalMatch,
    c: SpecMinimalMatch,
)
    requires
        minimal_verdict_cmp(a, b) == Some(Ordering::Less),
        minimal_verdict_cmp(b, c) == Some(Ordering::Less),
    ensures
        minimal_verdict_cmp(a, c) == Some(Ordering::Less),
{
}

} // verus!
