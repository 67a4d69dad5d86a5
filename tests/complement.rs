use clause_collapse::complement::{complement_of, inverted_coverage_count};
use clause_collapse::rule::CollapseRule;

fn clause(lits: &[&str]) -> Vec<String> {
    lits.iter().map(|s| s.to_string()).collect()
}

#[test]
fn complement_of_nothing_is_one_empty_clause() {
    let empty: Vec<Vec<String>> = Vec::new();
    assert_eq!(complement_of(&empty), vec![clause(&[])]);
}

#[test]
fn complement_picks_one_flipped_literal_per_clause() {
    let group = vec![clause(&["a", "b"]), clause(&["not c"])];
    assert_eq!(complement_of(&group), vec![clause(&["not a", "c"]), clause(&["not b", "c"])]);
    let repeated = vec![clause(&["a"]), clause(&["a", "b"])];
    assert_eq!(complement_of(&repeated), vec![clause(&["not a"]), clause(&["not a", "not b"])]);
}

#[test]
fn inverted_coverage_counts_reduced_complement() {
    let none: Vec<CollapseRule> = Vec::new();
    assert_eq!(inverted_coverage_count(&vec![clause(&["a"]), clause(&["b"])], &none), 1);
    assert_eq!(inverted_coverage_count(&vec![clause(&["a", "b"])], &none), 2);
    assert_eq!(inverted_coverage_count(&vec![clause(&["a", "b"]), clause(&["a", "not b"])], &none), 2);
}
