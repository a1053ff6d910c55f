use bentoo::truth::{parse_rule_cwes, CWEs, ParseError, CWE};

#[test]
fn decodes_a_single_cwe() {
    let r = parse_rule_cwes("B608:CWE-89").expect("well-formed");
    assert_eq!(r, CWEs(vec![CWE(89)]));
}

#[test]
fn decodes_several_cwes_in_order() {
    let r = parse_rule_cwes("rule:CWE-89,CWE-79,CWE-20").expect("well-formed");
    assert_eq!(r, CWEs(vec![CWE(89), CWE(79), CWE(20)]));
}

#[test]
fn blanks_around_references_are_stripped() {
    let r = parse_rule_cwes("rule: CWE-89 ,\tCWE-79").expect("well-formed");
    assert_eq!(r, CWEs(vec![CWE(89), CWE(79)]));
}

#[test]
fn the_origin_may_contain_anything_before_the_colon() {
    let r = parse_rule_cwes("weird rule name (v2):CWE-22").expect("well-formed");
    assert_eq!(r, CWEs(vec![CWE(22)]));
}

#[test]
fn splits_on_the_first_colon() {
    // Everything after the first ':' must be CWE references.
    assert!(parse_rule_cwes("a:b:CWE-89").is_err());
}

#[test]
fn missing_colon_is_rejected() {
    assert!(parse_rule_cwes("CWE-89").is_err());
    assert!(parse_rule_cwes("").is_err());
}

#[test]
fn missing_prefix_is_rejected() {
    assert!(parse_rule_cwes("rule:89").is_err());
    assert!(parse_rule_cwes("rule:cwe-89").is_err());
}

#[test]
fn missing_digits_are_rejected() {
    assert!(parse_rule_cwes("rule:CWE-").is_err());
    assert!(parse_rule_cwes("rule:CWE-89,").is_err());
    assert!(parse_rule_cwes("rule:").is_err());
}

#[test]
fn non_digit_suffix_is_rejected() {
    assert!(parse_rule_cwes("rule:CWE-89x").is_err());
    assert!(parse_rule_cwes("rule:CWE-8 9").is_err());
}

#[test]
fn one_bad_reference_rejects_the_whole_identifier() {
    assert!(parse_rule_cwes("rule:CWE-89,oops,CWE-79").is_err());
}

#[test]
fn values_must_fit_64_bits() {
    let r = parse_rule_cwes("rule:CWE-18446744073709551615").expect("just fits");
    assert_eq!(r, CWEs(vec![CWE(u64::MAX)]));
    assert!(parse_rule_cwes("rule:CWE-18446744073709551616").is_err());
    assert!(parse_rule_cwes("rule:CWE-99999999999999999999999").is_err());
}

#[test]
fn leading_zeroes_are_digits() {
    let r = parse_rule_cwes("rule:CWE-007").expect("well-formed");
    assert_eq!(r, CWEs(vec![CWE(7)]));
}

#[test]
fn parse_error_keeps_its_message() {
    let e = ParseError::new("something went wrong");
    assert_eq!(e.message, "something went wrong");
}
