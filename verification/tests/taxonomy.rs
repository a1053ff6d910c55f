use std::cmp::Ordering;

use bentoo::taxonomy::{Taxonomy, TaxonomyVersion};
use bentoo::truth::CWE;

/// A small hierarchy: 89 -> 943 -> 74 -> 707, with 707 the only CWE-1000
/// class; 20 is a node without parents; 999 is unknown to the taxonomy.
fn small_taxonomy() -> Taxonomy {
    let parents = vec![
        (CWE(89), vec![CWE(943)]),
        (CWE(943), vec![CWE(74)]),
        (CWE(74), vec![CWE(707)]),
        (CWE(707), vec![]),
        (CWE(20), vec![]),
    ];
    let cwe_1000 = vec![CWE(707)];
    Taxonomy::new(TaxonomyVersion(String::from("4.14")), parents, cwe_1000)
}

#[test]
fn order_is_reflexive() {
    let tax = small_taxonomy();
    assert_eq!(tax.cwe_partial_cmp(&CWE(89), &CWE(89)), Some(Ordering::Equal));
    assert_eq!(tax.cwe_partial_cmp(&CWE(999), &CWE(999)), Some(Ordering::Equal));
}

#[test]
fn descendant_is_less() {
    let tax = small_taxonomy();
    assert_eq!(tax.cwe_partial_cmp(&CWE(89), &CWE(707)), Some(Ordering::Less));
    assert_eq!(tax.cwe_partial_cmp(&CWE(89), &CWE(943)), Some(Ordering::Less));
    assert_eq!(tax.cwe_partial_cmp(&CWE(943), &CWE(74)), Some(Ordering::Less));
}

#[test]
fn ancestor_is_greater() {
    let tax = small_taxonomy();
    assert_eq!(tax.cwe_partial_cmp(&CWE(707), &CWE(89)), Some(Ordering::Greater));
    assert_eq!(tax.cwe_partial_cmp(&CWE(74), &CWE(943)), Some(Ordering::Greater));
}

#[test]
fn antisymmetry_on_concrete_pairs() {
    let tax = small_taxonomy();
    let pairs = [(89u64, 943u64), (89, 74), (89, 707), (943, 707)];
    for (a, b) in pairs {
        assert_eq!(tax.cwe_partial_cmp(&CWE(a), &CWE(b)), Some(Ordering::Less));
        assert_eq!(tax.cwe_partial_cmp(&CWE(b), &CWE(a)), Some(Ordering::Greater));
    }
}

#[test]
fn unrelated_nodes_are_incomparable() {
    let tax = small_taxonomy();
    assert_eq!(tax.cwe_partial_cmp(&CWE(89), &CWE(20)), None);
    assert_eq!(tax.cwe_partial_cmp(&CWE(20), &CWE(89)), None);
    assert_eq!(tax.cwe_partial_cmp(&CWE(89), &CWE(999)), None);
    assert_eq!(tax.cwe_partial_cmp(&CWE(999), &CWE(89)), None);
}

#[test]
fn classes_of_known_nodes() {
    let tax = small_taxonomy();
    let classes = tax.to_cwe_1000(&CWE(89)).expect("89 is in the taxonomy");
    assert_eq!(classes, &vec![CWE(707)]);
    let classes_707 = tax.to_cwe_1000(&CWE(707)).expect("707 is in the taxonomy");
    assert_eq!(classes_707, &vec![CWE(707)]);
    // 20 reaches no class.
    let classes_20 = tax.to_cwe_1000(&CWE(20)).expect("20 is in the taxonomy");
    assert!(classes_20.is_empty());
}

#[test]
fn classes_of_unknown_node() {
    let tax = small_taxonomy();
    assert!(tax.to_cwe_1000(&CWE(999)).is_none());
}

#[test]
fn multi_parent_nodes_reach_all_ancestors() {
    // 100 has two parents, 200 and 300; only 300 leads to the class 400.
    let parents = vec![
        (CWE(100), vec![CWE(200), CWE(300)]),
        (CWE(200), vec![]),
        (CWE(300), vec![CWE(400)]),
        (CWE(400), vec![]),
    ];
    let tax = Taxonomy::new(TaxonomyVersion(String::from("4.14")), parents, vec![CWE(400)]);
    assert_eq!(tax.cwe_partial_cmp(&CWE(100), &CWE(200)), Some(Ordering::Less));
    assert_eq!(tax.cwe_partial_cmp(&CWE(100), &CWE(400)), Some(Ordering::Less));
    assert_eq!(tax.to_cwe_1000(&CWE(100)), Some(&vec![CWE(400)]));
    assert_eq!(tax.to_cwe_1000(&CWE(200)), Some(&vec![]));
}
