//! The finding model: CWE identifiers, source regions, locations, and the
//! normalized truth/tool finding records that the match engine consumes.
//!
//! A `Region` is a span of source text (lines, optionally columns).  Regions
//! carry a partial "containment" order: a region is `Greater` than another
//! when it covers it.  Missing bounds widen a region: a missing end line means
//! a single line, missing columns mean the whole line(s), and an explicit
//! start column of 1 is the same as no start column.

use core::cmp::Ordering;
use vstd::prelude::*;

verus! {

/// What a ground-truth entry expects of the benchmark: `Fail` marks an
/// expected vulnerability (a ground-truth positive), `Pass` marks a place
/// where no report is expected (a ground-truth negative).
#[derive(Debug, Clone, Copy, PartialEq, Eq, Structural, Hash)]
pub enum Kind {
    Pass,
    Fail,
}

/// A Common Weakness Enumeration identifier.
#[derive(Debug, Clone, Copy, PartialEq, Eq, Structural, Hash)]
pub struct CWE(pub u64);

/// An ordered collection of CWE identifiers attached to one finding.
#[derive(Debug)]
pub struct CWEs(pub Vec<CWE>);

impl View for CWEs {
    type V = Seq<CWE>;

    open spec fn view(&self) -> Seq<CWE> {
        self.0@
    }
}

impl Clone for CWEs {
    fn clone(&self) -> (res: Self)
        ensures
            res@ == self@,
    {
        let v = self.0.clone();
        proof {
            assert forall|i: int| 0 <= i < v@.len() implies v@[i] == self.0@[i] by {
                assert(cloned::<CWE>(self.0@[i], v@[i]));
            }
            assert(v@ =~= self.0@);
        }
        CWEs(v)
    }
}

/// Element-wise equality of two CWE vectors.
pub fn cwe_vecs_eq(a: &Vec<CWE>, b: &Vec<CWE>) -> (r: bool)
    ensures
        r == (a@ == b@),
{
    if a.len() != b.len() {
        return false;
    }
    let mut i: usize = 0;
    while i < a.len()
        invariant
            i <= a.len(),
            a.len() == b.len(),
            forall|j: int| 0 <= j < i ==> a@[j] == b@[j],
        decreases a.len() - i,
    {
        if a[i] != b[i] {
            return false;
        }
        i += 1;
    }
    proof {
        assert(a@ =~= b@);
    }
    true
}

impl PartialEq for CWEs {
    fn eq(&self, other: &Self) -> bool {
        cwe_vecs_eq(&self.0, &other.0)
    }
}

impl vstd::std_specs::cmp::PartialEqSpecImpl for CWEs {
    open spec fn obeys_eq_spec() -> bool {
        true
    }

    open spec fn eq_spec(&self, other: &Self) -> bool {
        self@ == other@
    }
}

/// A span of source text.  `start_line` is always present; a missing
/// `end_line` means the region is the single line `start_line`; missing
/// columns mean the whole line(s).
#[derive(Debug, Clone, Copy)]
pub struct Region {
    pub start_line: i64,
    pub end_line: Option<i64>,
    pub start_column: Option<i64>,
    pub end_column: Option<i64>,
}

/// The last line of a region; a missing end line means the start line.
pub open spec fn end_line_of(r: Region) -> int {
    match r.end_line {
        Some(e) => e as int,
        None => r.start_line as int,
    }
}

/// The first column of a region; a missing start column means column 1,
/// and an explicit 1 is the same as a missing one.
pub open spec fn start_col_of(r: Region) -> int {
    match r.start_column {
        Some(c) => c as int,
        None => 1,
    }
}

/// The end column of a region; `None` stands for "to the end of the line",
/// which is wider than any explicit column.
pub open spec fn end_col_of(r: Region) -> Option<int> {
    match r.end_column {
        Some(c) => Some(c as int),
        None => None,
    }
}

/// `a >= b` for end columns, where a missing column is the widest.
pub open spec fn end_col_ge(a: Option<int>, b: Option<int>) -> bool {
    match (a, b) {
        (None, _) => true,
        (Some(_), None) => false,
        (Some(x), Some(y)) => x >= y,
    }
}

/// The start of `a` is at or before the start of `b`
/// (line first, then column).
pub open spec fn start_le(a: Region, b: Region) -> bool {
    a.start_line < b.start_line || (a.start_line == b.start_line && start_col_of(a)
        <= start_col_of(b))
}

/// The end of `a` is at or after the end of `b` (line first, then column).
pub open spec fn end_ge(a: Region, b: Region) -> bool {
    end_line_of(a) > end_line_of(b) || (end_line_of(a) == end_line_of(b) && end_col_ge(
        end_col_of(a),
        end_col_of(b),
    ))
}

/// Region `a` covers region `b`: it starts at or before `b` and ends at or
/// after it.
pub open spec fn region_covers(a: Region, b: Region) -> bool {
    start_le(a, b) && end_ge(a, b)
}

/// The two regions denote the same span once missing bounds are resolved.
pub open spec fn region_eq(a: Region, b: Region) -> bool {
    &&& a.start_line == b.start_line
    &&& start_col_of(a) == start_col_of(b)
    &&& end_line_of(a) == end_line_of(b)
    &&& end_col_of(a) == end_col_of(b)
}

/// The containment order on regions: `Equal` for the same span, `Greater`
/// when `a` strictly covers `b`, `Less` when `b` strictly covers `a`, and
/// `None` when the spans partially overlap (or are disjoint) so that neither
/// contains the other.
pub open spec fn region_cmp(a: Region, b: Region) -> Option<Ordering> {
    if region_eq(a, b) {
        Some(Ordering::Equal)
    } else if region_covers(b, a) {
        Some(Ordering::Less)
    } else if region_covers(a, b) {
        Some(Ordering::Greater)
    } else {
        None
    }
}

impl Region {
    /// Compare two regions under the containment order.
    pub fn partial_cmp(&self, other: &Region) -> (r: Option<Ordering>)
        ensures
            r == region_cmp(*self, *other),
    {
        let self_end: i64 = match self.end_line {
            Some(e) => e,
            None => self.start_line,
        };
        let other_end: i64 = match other.end_line {
            Some(e) => e,
            None => other.start_line,
        };
        let self_sc: i64 = match self.start_column {
            Some(c) => c,
            None => 1,
        };
        let other_sc: i64 = match other.start_column {
            Some(c) => c,
            None => 1,
        };
        let ec_eq: bool = match (self.end_column, other.end_column) {
            (None, None) => true,
            (Some(x), Some(y)) => x == y,
            _ => false,
        };
        let self_ec_ge: bool = match (self.end_column, other.end_column) {
            (None, _) => true,
            (Some(_), None) => false,
            (Some(x), Some(y)) => x >= y,
        };
        let other_ec_ge: bool = match (other.end_column, self.end_column) {
            (None, _) => true,
            (Some(_), None) => false,
            (Some(x), Some(y)) => x >= y,
        };
        let self_start_le: bool = self.start_line < other.start_line || (self.start_line
            == other.start_line && self_sc <= other_sc);
        let other_start_le: bool = other.start_line < self.start_line || (other.start_line
            == self.start_line && other_sc <= self_sc);
        let self_end_ge: bool = self_end > other_end || (self_end == other_end && self_ec_ge);
        let other_end_ge: bool = other_end > self_end || (other_end == self_end && other_ec_ge);
        if self.start_line == other.start_line && self_sc == other_sc && self_end == other_end
            && ec_eq {
            Some(Ordering::Equal)
        } else if other_start_le && other_end_ge {
            Some(Ordering::Less)
        } else if self_start_le && self_end_ge {
            Some(Ordering::Greater)
        } else {
            None
        }
    }
}

/// The containment order relates every region to itself as `Equal`.
pub proof fn lemma_region_cmp_reflexive(a: Region)
    ensures
        region_cmp(a, a) == Some(Ordering::Equal),
{
}

/// The containment order is antisymmetric: `a` is below `b` exactly when
/// `b` is above `a`.
pub proof fn lemma_region_cmp_antisymmetric(a: Region, b: Region)
    ensures
        region_cmp(a, b) == Some(Ordering::Less) <==> region_cmp(b, a) == Some(Ordering::Greater),
        region_cmp(a, b) == Some(Ordering::Equal) <==> region_cmp(b, a) == Some(Ordering::Equal),
{
}

/// The containment order is transitive.
pub proof fn lemma_region_cmp_transitive(a: Region, b: Region, c: Region)
    requires
        region_cmp(a, b) == Some(Ordering::Less),
        region_cmp(b, c) == Some(Ordering::Less),
    ensures
        region_cmp(a, c) == Some(Ordering::Less),
{
}

/// One reported location: a file path, optionally narrowed to a region.
#[derive(Debug)]
pub struct Location {
    pub path: String,
    pub region: Option<Region>,
}

/// The mathematical value of a `Location`.
pub struct SpecLocation {
    pub path: Seq<char>,
    pub region: Option<Region>,
}

impl View for Location {
    type V = SpecLocation;

    open spec fn view(&self) -> SpecLocation {
        SpecLocation { path: self.path@, region: self.region }
    }
}

impl Clone for Location {
    fn clone(&self) -> (res: Self)
        ensures
            res@ == self@,
    {
        Location { path: self.path.clone(), region: self.region }
    }
}

/// The locations of one finding (a primary location and related ones).
#[derive(Debug)]
pub struct Locations(pub Vec<Location>);

impl View for Locations {
    type V = Seq<SpecLocation>;

    open spec fn view(&self) -> Seq<SpecLocation> {
        self.0@.map_values(|l: Location| l@)
    }
}

impl Clone for Locations {
    fn clone(&self) -> (res: Self)
        ensures
            res@ == self@,
    {
        let v = self.0.clone();
        proof {
            assert forall|i: int| 0 <= i < v@.len() implies v@[i]@ == self.0@[i]@ by {
                assert(cloned::<Location>(self.0@[i], v@[i]));
            }
            assert(v@.map_values(|l: Location| l@) =~= self.0@.map_values(|l: Location| l@));
        }
        Locations(v)
    }
}

/// The rule that produced a finding: an identifier of the shape
/// `origin:CWE-n,CWE-m,...` together with the decoded CWE collection.
#[derive(Debug)]
pub struct Rule {
    pub rule_id: String,
    pub cwes: CWEs,
}

/// The mathematical value of a `Rule`.
pub struct SpecRule {
    pub rule_id: Seq<char>,
    pub cwes: Seq<CWE>,
}

impl View for Rule {
    type V = SpecRule;

    open spec fn view(&self) -> SpecRule {
        SpecRule { rule_id: self.rule_id@, cwes: self.cwes@ }
    }
}

impl Clone for Rule {
    fn clone(&self) -> (res: Self)
        ensures
            res@ == self@,
    {
        Rule { rule_id: self.rule_id.clone(), cwes: self.cwes.clone() }
    }
}

/// One normalized finding: the rule it came from, an optional message, and
/// the locations it points at.
#[derive(Debug)]
pub struct Finding {
    pub rule: Rule,
    pub message: Option<String>,
    pub locations: Locations,
}

/// The mathematical value of a `Finding`.
pub struct SpecFinding {
    pub rule: SpecRule,
    pub message: Option<Seq<char>>,
    pub locations: Seq<SpecLocation>,
}

impl View for Finding {
    type V = SpecFinding;

    open spec fn view(&self) -> SpecFinding {
        SpecFinding {
            rule: self.rule@,
            message: match self.message {
                Some(ref m) => Some(m@),
                None => None,
            },
            locations: self.locations@,
        }
    }
}

impl Clone for Finding {
    fn clone(&self) -> (res: Self)
        ensures
            res@ == self@,
    {
        Finding {
            rule: self.rule.clone(),
            message: match &self.message {
                Some(m) => Some(m.clone()),
                None => None,
            },
            locations: self.locations.clone(),
        }
    }
}

/// A ground-truth finding: a finding plus the expected kind.
#[derive(Debug)]
pub struct TruthResult {
    pub kind: Kind,
    pub result: Finding,
}

/// The mathematical value of a `TruthResult`.
pub struct SpecTruthResult {
    pub kind: Kind,
    pub result: SpecFinding,
}

impl View for TruthResult {
    type V = SpecTruthResult;

    open spec fn view(&self) -> SpecTruthResult {
        SpecTruthResult { kind: self.kind, result: self.result@ }
    }
}

impl Clone for TruthResult {
    fn clone(&self) -> (res: Self)
        ensures
            res@ == self@,
    {
        TruthResult { kind: self.kind, result: self.result.clone() }
    }
}

/// A finding reported by the tool under evaluation.
#[derive(Debug)]
pub struct ToolResult {
    pub result: Finding,
}

/// The mathematical value of a `ToolResult`.
pub struct SpecToolResult {
    pub result: SpecFinding,
}

impl View for ToolResult {
    type V = SpecToolResult;

    open spec fn view(&self) -> SpecToolResult {
        SpecToolResult { result: self.result@ }
    }
}

impl Clone for ToolResult {
    fn clone(&self) -> (res: Self)
        ensures
            res@ == self@,
    {
        ToolResult { result: self.result.clone() }
    }
}

/// The named ground-truth set of one benchmark.
#[derive(Debug)]
pub struct TruthResults {
    pub name: String,
    pub results: Vec<TruthResult>,
}

/// The named result set of one tool invocation.
#[derive(Debug)]
pub struct ToolResults {
    pub name: String,
    pub results: Vec<ToolResult>,
}

/// A SARIF value could not be assembled from a finding.
#[derive(Debug)]
pub struct BuildError();

/// A report could not be decoded into the finding model; `message` says why.
#[derive(Debug)]
pub struct ParseError {
    pub message: String,
}

impl ParseError {
    pub fn new(msg: &str) -> (res: ParseError)
        ensures
            res.message@ == msg@,
    {
        ParseError { message: msg.to_owned() }
    }
}

impl Clone for ParseError {
    fn clone(&self) -> (res: Self)
        ensures
            res.message@ == self.message@,
    {
        ParseError { message: self.message.clone() }
    }
}

// ---------------------------------------------------------------------------
// Decoding the canonical rule identifier
// ---------------------------------------------------------------------------
// A rule identifier has the shape `origin:CWE-n,CWE-m,...`: everything after
// the first `:` is a comma-separated list of CWE references, each `CWE-`
// followed by decimal digits, surrounded by optional blanks.
/// An ASCII blank, as the decoder strips around CWE references.
pub open spec fn is_space(c: char) -> bool {
    c == ' ' || c == '\t' || c == '\n' || c == '\r'
}

/// A decimal digit.
pub open spec fn is_digit(c: char) -> bool {
    48 <= c as int <= 57
}

/// The value of a decimal digit.
pub open spec fn digit_val(c: char) -> int {
    c as int - 48
}

/// The value of a digit string, most significant first.
pub open spec fn digits_val(s: Seq<char>) -> int
    decreases s.len(),
{
    if s.len() == 0 {
        0
    } else {
        digits_val(s.drop_last()) * 10 + digit_val(s.last())
    }
}

/// Every character is a decimal digit.
pub open spec fn all_digits(s: Seq<char>) -> bool {
    forall|i: int| 0 <= i < s.len() ==> is_digit(#[trigger] s[i])
}

/// The first position of `c`, if any.
pub open spec fn find_char(s: Seq<char>, c: char) -> Option<int>
    decreases s.len(),
{
    if s.len() == 0 {
        None
    } else if s[0] == c {
        Some(0)
    } else {
        match find_char(s.drop_first(), c) {
            Some(i) => Some(i + 1),
            None => None,
        }
    }
}

/// A position that matches with nothing matching before it is what
/// `find_char` returns; no match anywhere means `None`.
proof fn lemma_find_char_from_props(s: Seq<char>, c: char, p: int)
    requires
        0 <= p <= s.len(),
        forall|j: int| 0 <= j < p ==> s[j] != c,
        p < s.len() ==> s[p] == c,
    ensures
        p < s.len() ==> find_char(s, c) == Some(p),
        p == s.len() ==> find_char(s, c) is None,
    decreases p,
{
    if p > 0 {
        assert forall|j: int| 0 <= j < p - 1 implies s.drop_first()[j] != c by {
            assert(s.drop_first()[j] == s[j + 1]);
        }
        assert(p - 1 < s.drop_first().len() ==> s.drop_first()[p - 1] == s[p]);
        lemma_find_char_from_props(s.drop_first(), c, p - 1);
    }
}

/// Blanks stripped from the front.
pub open spec fn trim_front(s: Seq<char>) -> Seq<char>
    decreases s.len(),
{
    if s.len() > 0 && is_space(s[0]) {
        trim_front(s.drop_first())
    } else {
        s
    }
}

/// Blanks stripped from the back.
pub open spec fn trim_back(s: Seq<char>) -> Seq<char>
    decreases s.len(),
{
    if s.len() > 0 && is_space(s.last()) {
        trim_back(s.drop_last())
    } else {
        s
    }
}

/// Blanks stripped from both ends.
pub open spec fn trim_spec(s: Seq<char>) -> Seq<char> {
    trim_back(trim_front(s))
}

/// Dropping each leading blank in turn is what `trim_front` computes.
proof fn lemma_trim_front_char(s: Seq<char>, k: int)
    requires
        0 <= k <= s.len(),
        forall|j: int| 0 <= j < k ==> is_space(#[trigger] s[j]),
        k < s.len() ==> !is_space(s[k]),
    ensures
        trim_front(s) == s.skip(k),
    decreases k,
{
    if k == 0 {
        assert(s.skip(0) =~= s);
    } else {
        assert(is_space(s[0]));
        assert forall|j: int| 0 <= j < k - 1 implies is_space(#[trigger] s.drop_first()[j]) by {
            assert(s.drop_first()[j] == s[j + 1]);
        }
        assert(k - 1 < s.drop_first().len() ==> !is_space(s.drop_first()[k - 1]));
        lemma_trim_front_char(s.drop_first(), k - 1);
        assert(s.drop_first().skip(k - 1) =~= s.skip(k));
    }
}

/// Dropping each trailing blank in turn is what `trim_back` computes.
proof fn lemma_trim_back_char(s: Seq<char>, k: int)
    requires
        0 <= k <= s.len(),
        forall|j: int| k <= j < s.len() ==> is_space(#[trigger] s[j]),
        k > 0 ==> !is_space(s[k - 1]),
    ensures
        trim_back(s) == s.take(k),
    decreases s.len() - k,
{
    if k == s.len() {
        if s.len() > 0 && is_space(s.last()) {
            assert forall|j: int|
                k - 1 <= j < s.drop_last().len() implies is_space(
                #[trigger] s.drop_last()[j],
            ) by {}
            lemma_trim_back_char(s.drop_last(), k - 1);
            assert(s.drop_last().take(k - 1) =~= s.take(k - 1));
            assert(false);
        } else {
            assert(s.take(k) =~= s);
        }
    } else {
        assert(is_space(s.last()));
        assert forall|j: int|
            k <= j < s.drop_last().len() implies is_space(#[trigger] s.drop_last()[j]) by {
            assert(s.drop_last()[j] == s[j]);
        }
        lemma_trim_back_char(s.drop_last(), k);
        assert(s.drop_last().take(k) =~= s.take(k));
    }
}

/// The comma-separated pieces, in order; a text without commas is one
/// piece.
pub open spec fn split_commas(s: Seq<char>) -> Seq<Seq<char>>
    decreases s.len(),
    via split_commas_decreases
{
    match find_char(s, ',') {
        Some(i) => seq![s.take(i)] + split_commas(s.skip(i + 1)),
        None => seq![s],
    }
}

#[via_fn]
proof fn split_commas_decreases(s: Seq<char>) {
    match find_char(s, ',') {
        Some(i) => {
            lemma_find_char_in_range(s, ',');
        },
        None => {},
    }
}

/// A found position lies in range.
proof fn lemma_find_char_in_range(s: Seq<char>, c: char)
    ensures
        match find_char(s, c) {
            Some(i) => 0 <= i < s.len() && s[i] == c,
            None => true,
        },
    decreases s.len(),
{
    if s.len() > 0 && s[0] != c {
        lemma_find_char_in_range(s.drop_first(), c);
        match find_char(s.drop_first(), c) {
            Some(i) => {
                assert(s.drop_first()[i] == s[i + 1]);
            },
            None => {},
        }
    }
}

/// The `CWE-` prefix of a reference.
pub open spec fn cwe_prefix() -> Seq<char> {
    seq!['C', 'W', 'E', '-']
}

/// A well-formed CWE reference: after trimming blanks, `CWE-` followed by
/// at least one digit, with a value that fits 64 bits.
pub open spec fn valid_cwe_segment(seg: Seq<char>) -> bool {
    let t = trim_spec(seg);
    &&& t.len() > 4
    &&& t.take(4) == cwe_prefix()
    &&& all_digits(t.skip(4))
    &&& digits_val(t.skip(4)) <= u64::MAX
}

/// The identifier a well-formed CWE reference denotes.
pub open spec fn spec_segment_cwe(seg: Seq<char>) -> CWE {
    CWE(digits_val(trim_spec(seg).skip(4)) as u64)
}

/// A well-formed rule identifier: it has a `:`, and every comma-separated
/// piece after the first `:` is a well-formed CWE reference.
pub open spec fn valid_rule_id(s: Seq<char>) -> bool {
    match find_char(s, ':') {
        Some(i) => forall|k: int|
            0 <= k < split_commas(s.skip(i + 1)).len() ==> valid_cwe_segment(
                #[trigger] split_commas(s.skip(i + 1))[k],
            ),
        None => false,
    }
}

/// The CWE identifiers a well-formed rule identifier carries, in order.
pub open spec fn spec_rule_cwes(s: Seq<char>) -> Seq<CWE> {
    split_commas(s.skip(find_char(s, ':')->Some_0 + 1)).map_values(
        |seg: Seq<char>| spec_segment_cwe(seg),
    )
}

/// Digit strings only grow with more digits.
proof fn lemma_digits_val_nonneg(s: Seq<char>)
    requires
        all_digits(s),
    ensures
        digits_val(s) >= 0,
    decreases s.len(),
{
    if s.len() > 0 {
        assert forall|i: int|
            0 <= i < s.drop_last().len() implies is_digit(#[trigger] s.drop_last()[i]) by {
            assert(s.drop_last()[i] == s[i]);
        }
        lemma_digits_val_nonneg(s.drop_last());
    }
}

/// A digit string's prefix never exceeds the whole.
proof fn lemma_digits_val_prefix_le(s: Seq<char>, j: int)
    requires
        all_digits(s),
        0 <= j <= s.len(),
    ensures
        digits_val(s.take(j)) <= digits_val(s),
    decreases s.len() - j,
{
    if j < s.len() {
        lemma_digits_val_prefix_le(s, j + 1);
        assert(s.take(j + 1).drop_last() =~= s.take(j));
        assert(s.take(j + 1).last() == s[j]);
        assert forall|i: int|
            0 <= i < s.take(j).len() implies is_digit(#[trigger] s.take(j)[i]) by {
            assert(s.take(j)[i] == s[i]);
        }
        lemma_digits_val_nonneg(s.take(j));
        assert(digits_val(s.take(j + 1)) == digits_val(s.take(j)) * 10 + digit_val(s[j]));
        assert(digits_val(s.take(j)) * 10 >= digits_val(s.take(j))) by (nonlinear_arith)
            requires
                digits_val(s.take(j)) >= 0,
        ;
    } else {
        assert(s.take(j) =~= s);
    }
}

/// Whether `c` is an ASCII blank.
fn is_space_exec(c: char) -> (r: bool)
    ensures
        r == is_space(c),
{
    c == ' ' || c == '\t' || c == '\n' || c == '\r'
}

/// Decode one CWE reference between `lo` and `hi`.
fn parse_cwe_segment(s: &str, lo: usize, hi: usize) -> (r: Result<CWE, ParseError>)
    requires
        lo <= hi <= s@.len(),
        s@.len() <= usize::MAX,
    ensures
        r is Ok <==> valid_cwe_segment(s@.subrange(lo as int, hi as int)),
        r matches Ok(c) ==> c == spec_segment_cwe(s@.subrange(lo as int, hi as int)),
{
    let ghost seg = s@.subrange(lo as int, hi as int);
    // Trim blanks from both ends.
    let mut ts: usize = lo;
    while ts < hi && is_space_exec(s.get_char(ts))
        invariant
            lo <= ts <= hi <= s@.len(),
            forall|j: int| lo <= j < ts ==> is_space(#[trigger] s@[j]),
        decreases hi - ts,
    {
        ts += 1;
    }
    let mut te: usize = hi;
    while te > ts && is_space_exec(s.get_char(te - 1))
        invariant
            lo <= ts <= te <= hi <= s@.len(),
            forall|j: int| lo <= j < ts ==> is_space(#[trigger] s@[j]),
            forall|j: int| te <= j < hi ==> is_space(#[trigger] s@[j]),
            ts < hi ==> !is_space(s@[ts as int]),
        decreases te,
    {
        te -= 1;
    }
    proof {
        assert forall|j: int| 0 <= j < ts - lo implies is_space(#[trigger] seg[j]) by {
            assert(seg[j] == s@[lo + j]);
        }
        assert(ts - lo < seg.len() ==> !is_space(seg[ts - lo]));
        lemma_trim_front_char(seg, ts as int - lo);
        let front = seg.skip(ts as int - lo);
        assert forall|j: int|
            te - ts <= j < front.len() implies is_space(#[trigger] front[j]) by {
            assert(front[j] == s@[ts + j]);
        }
        assert(te - ts > 0 ==> !is_space(front[te - ts - 1]));
        lemma_trim_back_char(front, te as int - ts);
        assert(trim_spec(seg) =~= s@.subrange(ts as int, te as int));
    }
    let ghost t = trim_spec(seg);
    // The `CWE-` prefix and at least one digit.
    if te - ts < 5 {
        return Err(ParseError::new("ruleId should have CWE- prefix"));
    }
    if !(s.get_char(ts) == 'C' && s.get_char(ts + 1) == 'W' && s.get_char(ts + 2) == 'E'
        && s.get_char(ts + 3) == '-') {
        proof {
            assert(t[0] == s@[ts as int] && t[1] == s@[ts + 1] && t[2] == s@[ts + 2] && t[3]
                == s@[ts + 3]);
            assert(t.take(4) == cwe_prefix() ==> t.take(4)[0] == 'C' && t.take(4)[1] == 'W'
                && t.take(4)[2] == 'E' && t.take(4)[3] == '-');
        }
        return Err(ParseError::new("ruleId should have CWE- prefix"));
    }
    proof {
        assert(t.take(4) =~= cwe_prefix());
    }
    // The digits.
    let ghost digits = t.skip(4);
    proof {
        assert(digits =~= s@.subrange(ts + 4, te as int));
    }
    let mut val: u64 = 0;
    let mut j: usize = ts + 4;
    while j < te
        invariant
            lo <= ts,
            hi <= s@.len(),
            ts + 4 <= j <= te <= s@.len(),
            seg == s@.subrange(lo as int, hi as int),
            trim_spec(seg) == s@.subrange(ts as int, te as int),
            trim_spec(seg).len() > 4,
            trim_spec(seg).take(4) == cwe_prefix(),
            digits == trim_spec(seg).skip(4),
            digits == s@.subrange(ts + 4, te as int),
            forall|x: int| 0 <= x < j - (ts + 4) ==> is_digit(#[trigger] digits[x]),
            val == digits_val(digits.take(j - (ts + 4))),
        decreases te - j,
    {
        let c = s.get_char(j);
        let u: u32 = c as u32;
        proof {
            assert(digits[j - (ts + 4)] == s@[j as int]);
        }
        if !(48 <= u && u <= 57) {
            proof {
                assert(!is_digit(digits[j - (ts + 4)]));
            }
            return Err(ParseError::new("ruleId should have number suffix"));
        }
        let d: u64 = (u - 48) as u64;
        proof {
            assert(digits.take(j - (ts + 4) + 1).drop_last() =~= digits.take(j - (ts + 4)));
            assert(digits.take(j - (ts + 4) + 1).last() == digits[j - (ts + 4)]);
        }
        if val > (u64::MAX - d) / 10 {
            // The value would no longer fit: the whole digit string is out
            // of range.
            proof {
                assert(digits_val(digits.take(j - (ts + 4) + 1)) == val * 10 + d);
                assert(val * 10 + d > u64::MAX) by (nonlinear_arith)
                    requires
                        val > (u64::MAX - d) / 10,
                        0 <= d <= 9,
                ;
                assert forall|x: int|
                    0 <= x < digits.take(j - (ts + 4) + 1).len() implies is_digit(
                    #[trigger] digits.take(j - (ts + 4) + 1)[x],
                ) by {
                    assert(digits.take(j - (ts + 4) + 1)[x] == digits[x]);
                }
                if all_digits(digits) {
                    lemma_digits_val_prefix_le(digits, j - (ts + 4) + 1);
                }
            }
            return Err(ParseError::new("ruleId should have number suffix"));
        }
        proof {
            assert(val * 10 + d <= u64::MAX) by (nonlinear_arith)
                requires
                    val <= (u64::MAX - d) / 10,
                    0 <= d <= 9,
            ;
        }
        val = val * 10 + d;
        j += 1;
    }
    proof {
        assert(digits.take(te - (ts + 4)) =~= digits);
    }
    Ok(CWE(val))
}

/// Decode the comma-separated CWE references of `s` from `from` on.
fn parse_cwe_list(s: &str, from: usize) -> (r: Result<Vec<CWE>, ParseError>)
    requires
        from <= s@.len(),
        s@.len() <= usize::MAX,
    ensures
        r is Ok <==> (forall|k: int|
            0 <= k < split_commas(s@.skip(from as int)).len() ==> valid_cwe_segment(
                #[trigger] split_commas(s@.skip(from as int))[k],
            )),
        r matches Ok(v) ==> v@ == split_commas(s@.skip(from as int)).map_values(
            |seg: Seq<char>| spec_segment_cwe(seg),
        ),
    decreases s@.len() - from,
{
    let ghost rest = s@.skip(from as int);
    let n = s.unicode_len();
    // The next comma, if any.
    let mut ci: usize = from;
    while ci < n && s.get_char(ci) != ','
        invariant
            from <= ci <= n == s@.len(),
            forall|j: int| from <= j < ci ==> s@[j] != ',',
        decreases n - ci,
    {
        ci += 1;
    }
    proof {
        assert forall|j: int| 0 <= j < ci - from implies rest[j] != ',' by {
            assert(rest[j] == s@[from + j]);
        }
        assert(ci - from < rest.len() ==> rest[ci - from] == ',');
        lemma_find_char_from_props(rest, ',', ci as int - from);
    }
    if ci == n {
        // The last piece.
        let head = parse_cwe_segment(s, from, n);
        proof {
            assert(split_commas(rest) =~= seq![rest]);
            assert(rest =~= s@.subrange(from as int, n as int));
        }
        match head {
            Ok(c) => {
                let mut v: Vec<CWE> = Vec::new();
                v.push(c);
                proof {
                    assert(v@ =~= split_commas(rest).map_values(
                        |seg: Seq<char>| spec_segment_cwe(seg),
                    ));
                    assert(split_commas(rest)[0] == rest);
                }
                Ok(v)
            },
            Err(e) => {
                proof {
                    assert(split_commas(rest)[0] == rest);
                    assert(!valid_cwe_segment(split_commas(rest)[0]));
                }
                Err(e)
            },
        }
    } else {
        let head = parse_cwe_segment(s, from, ci);
        proof {
            assert(split_commas(rest) == seq![rest.take(ci as int - from)] + split_commas(
                rest.skip(ci as int - from + 1),
            ));
            assert(rest.take(ci as int - from) =~= s@.subrange(from as int, ci as int));
            assert(rest.skip(ci as int - from + 1) =~= s@.skip(ci + 1));
        }
        match head {
            Ok(c) => {
                match parse_cwe_list(s, ci + 1) {
                    Ok(tail) => {
                        let mut v: Vec<CWE> = Vec::new();
                        v.push(c);
                        let mut t: usize = 0;
                        while t < tail.len()
                            invariant
                                t <= tail@.len(),
                                v@ == seq![c] + tail@.take(t as int),
                            decreases tail@.len() - t,
                        {
                            let x: CWE = tail[t];
                            v.push(x);
                            proof {
                                assert(seq![c] + tail@.take(t as int).push(x) =~= seq![c]
                                    + tail@.take(t + 1 as int));
                            }
                            t += 1;
                        }
                        proof {
                            assert(tail@.take(tail@.len() as int) =~= tail@);
                            assert(v@ =~= split_commas(rest).map_values(
                                |seg: Seq<char>| spec_segment_cwe(seg),
                            ));
                            assert forall|k: int|
                                0 <= k < split_commas(rest).len() implies valid_cwe_segment(
                                #[trigger] split_commas(rest)[k],
                            ) by {
                                if k > 0 {
                                    assert(split_commas(rest)[k] == split_commas(
                                        rest.skip(ci as int - from + 1),
                                    )[k - 1]);
                                } else {
                                    assert(split_commas(rest)[0] == rest.take(ci as int - from));
                                }
                            }
                        }
                        Ok(v)
                    },
                    Err(e) => {
                        proof {
                            let sub = split_commas(rest.skip(ci as int - from + 1));
                            if forall|k: int|
                                0 <= k < split_commas(rest).len() ==> valid_cwe_segment(
                                    #[trigger] split_commas(rest)[k],
                                ) {
                                assert forall|k: int| 0 <= k < sub.len() implies valid_cwe_segment(
                                    #[trigger] sub[k],
                                ) by {
                                    assert(split_commas(rest)[k + 1] == sub[k]);
                                }
                            }
                        }
                        Err(e)
                    },
                }
            },
            Err(e) => {
                proof {
                    assert(split_commas(rest)[0] == rest.take(ci as int - from));
                    assert(!valid_cwe_segment(split_commas(rest)[0]));
                }
                Err(e)
            },
        }
    }
}

/// Decode a rule identifier of the canonical `origin:CWE-n,CWE-m,...`
/// shape into its CWE collection.  The result is `Ok` exactly when the
/// identifier has a `:` and every comma-separated piece after the first
/// `:` is `CWE-` followed by decimal digits that fit 64 bits, blanks
/// around each piece allowed.
pub fn parse_rule_cwes(rule_id: &str) -> (r: Result<CWEs, ParseError>)
    ensures
        r is Ok <==> valid_rule_id(rule_id@),
        r matches Ok(c) ==> c@ == spec_rule_cwes(rule_id@),
{
    let n = rule_id.unicode_len();
    let mut i: usize = 0;
    while i < n && rule_id.get_char(i) != ':'
        invariant
            i <= n == rule_id@.len(),
            forall|j: int| 0 <= j < i ==> rule_id@[j] != ':',
        decreases n - i,
    {
        i += 1;
    }
    proof {
        lemma_find_char_from_props(rule_id@, ':', i as int);
    }
    if i == n {
        return Err(
            ParseError::new(
                "ruleId should have ':' symbol splitting the origin name and the CWEs part",
            ),
        );
    }
    match parse_cwe_list(rule_id, i + 1) {
        Ok(v) => {
            proof {
                assert(valid_rule_id(rule_id@));
                assert(v@ == spec_rule_cwes(rule_id@));
            }
            Ok(CWEs(v))
        },
        Err(e) => {
            proof {
                assert(!valid_rule_id(rule_id@));
            }
            Err(e)
        },
    }
}

} // verus!
