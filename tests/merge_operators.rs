use clause_collapse::clause::{has_token, strip_token};
use clause_collapse::literal::{flip, is_plain_flag};
use clause_collapse::merge::{match_prereqs, try_collapse, try_collapse2, try_collapse_flip};
use clause_collapse::rule::CollapseRule;

fn clause(lits: &[&str]) -> Vec<String> {
    lits.iter().map(|s| s.to_string()).collect()
}

#[test]
fn flip_adds_and_removes_the_mark() {
    assert_eq!(flip("e10s"), "not e10s");
    assert_eq!(flip("not webrender"), "webrender");
    assert_eq!(flip("not"), "not not");
    assert_eq!(flip(""), "not ");
    assert_eq!(flip("(os == \"win\")"), "not (os == \"win\")");
}

#[test]
fn token_lookup_and_removal() {
    let c = clause(&["a", "b", "a", "c"]);
    assert!(has_token(&"b".to_string(), &c));
    assert!(!has_token(&"d".to_string(), &c));
    assert_eq!(strip_token(&"a".to_string(), &c), clause(&["b", "c"]));
    assert_eq!(strip_token(&"d".to_string(), &c), c);
}

#[test]
fn prerequisites_must_all_be_present() {
    let rule = CollapseRule::new(vec!["p", "q"], vec!["v"]);
    assert!(match_prereqs(&rule, &clause(&["q", "x", "p"])));
    assert!(!match_prereqs(&rule, &clause(&["q", "x"])));
    let free = CollapseRule::new(vec![], vec!["v"]);
    assert!(match_prereqs(&free, &clause(&[])));
}

#[test]
fn flip_merge_drops_the_complementary_flag() {
    let a = clause(&["A", "B", "not X"]);
    let b = clause(&["A", "B", "X"]);
    assert_eq!(try_collapse_flip(&a, &b), Some(clause(&["A", "B"])));
    assert_eq!(try_collapse_flip(&b, &a), Some(clause(&["A", "B"])));
}

#[test]
fn flip_merge_refuses_two_differences() {
    let a = clause(&["A", "not Y", "not X"]);
    let b = clause(&["A", "Y", "X"]);
    assert_eq!(try_collapse_flip(&a, &b), None);
    let c = clause(&["A", "B", "X"]);
    let d = clause(&["A", "C", "not X"]);
    assert_eq!(try_collapse_flip(&c, &d), None);
}

#[test]
fn flip_merge_refuses_unequal_sizes_and_plain_differences() {
    assert_eq!(try_collapse_flip(&clause(&["A", "X"]), &clause(&["A", "not X", "B"])), None);
    assert_eq!(try_collapse_flip(&clause(&["A", "X"]), &clause(&["A", "Y"])), None);
}

#[test]
fn flip_merge_of_equal_clauses_keeps_them() {
    let a = clause(&["A", "B"]);
    assert_eq!(try_collapse_flip(&a, &clause(&["B", "A"])), Some(a.clone()));
}

#[test]
fn rule_merge_drops_the_alternatives() {
    let rule = CollapseRule::new(vec!["P"], vec!["V1", "V2"]);
    let a = clause(&["P", "Q", "V1"]);
    let b = clause(&["P", "Q", "V2"]);
    assert_eq!(try_collapse2(&a, &b, &rule), Some(clause(&["P", "Q"])));
    assert_eq!(try_collapse2(&b, &a, &rule), Some(clause(&["P", "Q"])));
}

#[test]
fn rule_merge_needs_prerequisites_in_both() {
    let rule = CollapseRule::new(vec!["P"], vec!["V1", "V2"]);
    let a = clause(&["P", "Q", "V1"]);
    let b = clause(&["R", "Q", "V2"]);
    assert_eq!(try_collapse2(&a, &b, &rule), None);
}

#[test]
fn rule_merge_fails_when_the_other_alternative_is_missing() {
    let rule = CollapseRule::new(vec!["P"], vec!["V1", "V2"]);
    let a = clause(&["P", "Q", "V1"]);
    let b = clause(&["P", "Q", "W"]);
    assert_eq!(try_collapse2(&a, &b, &rule), None);
    let single = CollapseRule::new(vec!["P"], vec!["V1"]);
    assert_eq!(try_collapse2(&a, &clause(&["P", "Q", "V2"]), &single), None);
}

#[test]
fn single_clause_shrink_drops_the_implied_literal() {
    let rule = CollapseRule::new(vec!["P"], vec!["V"]);
    assert_eq!(try_collapse(&clause(&["P", "Q", "V"]), &rule), Some(clause(&["P", "Q"])));
    assert_eq!(try_collapse(&clause(&["R", "Q", "V"]), &rule), None);
    assert_eq!(try_collapse(&clause(&["P", "Q"]), &rule), None);
    let pair = CollapseRule::new(vec!["P"], vec!["V", "W"]);
    assert_eq!(try_collapse(&clause(&["P", "Q", "V"]), &pair), None);
}

#[test]
fn equality_literals_are_not_plain_flags() {
    assert!(is_plain_flag("e10s"));
    assert!(is_plain_flag("not webrender"));
    assert!(!is_plain_flag("(os==win)"));
    assert!(!is_plain_flag("not (os == \"win\")"));
    assert!(is_plain_flag("(bits = 64)"));
}

#[test]
fn flip_merge_never_flips_an_equality_literal() {
    let a = clause(&["(os==win)", "e10s"]);
    let b = clause(&["not (os==win)", "e10s"]);
    assert_eq!(try_collapse_flip(&a, &b), None);
    assert_eq!(try_collapse_flip(&b, &a), None);
    let c = clause(&["(os==win)", "not e10s"]);
    let d = clause(&["(os==win)", "e10s"]);
    assert_eq!(try_collapse_flip(&c, &d), Some(clause(&["(os==win)"])));
}
