use clause_collapse::catalog::build_collapse_rules;
use clause_collapse::driver::{collapse, collapse_checked};
use clause_collapse::literal::flip;
use clause_collapse::merge::{try_collapse, try_collapse2};
use clause_collapse::render::{render_clause, render_group};
use clause_collapse::rule::CollapseRule;

fn clause(lits: &[&str]) -> Vec<String> {
    lits.iter().map(|s| s.to_string()).collect()
}

const WIN: &str = "(os==win)";
const V7: &str = "(version==6.1.7601)";
const V10: &str = "(version==10.0.15063)";

fn scenario_rules() -> Vec<CollapseRule> {
    vec![
        CollapseRule::new(vec![WIN, V7], vec!["not webrender"]),
        CollapseRule::new(vec![WIN], vec![V7, V10]),
    ]
}

#[test]
fn end_to_end_windows_versions() {
    let rules = scenario_rules();
    let first = clause(&[WIN, V7, "not webrender", "e10s"]);
    let second = clause(&[WIN, V10, "e10s"]);
    let shrunk = try_collapse(&first, &rules[0]).unwrap();
    assert_eq!(shrunk, clause(&[WIN, V7, "e10s"]));
    assert_eq!(try_collapse(&second, &rules[0]), None);
    assert_eq!(try_collapse2(&second, &shrunk, &rules[1]), Some(clause(&[WIN, "e10s"])));
    let mut group = vec![first, second];
    collapse(&mut group, &rules);
    assert_eq!(group, vec![clause(&[WIN, "e10s"])]);
}

#[test]
fn end_to_end_with_the_built_in_catalog() {
    let rules = build_collapse_rules();
    let mut group = vec![
        clause(&["(os == \"win\")", "(version == \"6.1.7601\")", "not webrender", "e10s"]),
        clause(&["(os == \"win\")", "(version == \"10.0.15063\")", "e10s"]),
    ];
    collapse(&mut group, &rules);
    assert_eq!(group, vec![clause(&["(os == \"win\")"])]);
}

#[test]
fn reduction_of_a_reduced_group_changes_nothing() {
    let rules = build_collapse_rules();
    let mut group = vec![
        clause(&["(os == \"linux\")", "(processor == \"x86\")", "debug"]),
        clause(&["(os == \"linux\")", "(processor == \"x86_64\")", "debug"]),
        clause(&["(os == \"mac\")", "not debug"]),
        clause(&["(os == \"android\")", "e10s"]),
    ];
    collapse(&mut group, &rules);
    let once = group.clone();
    collapse(&mut group, &rules);
    assert_eq!(group, once);
    assert_eq!(
        once,
        vec![
            clause(&["(os == \"linux\")", "debug"]),
            clause(&["(os == \"mac\")", "not debug"]),
            clause(&["(os == \"android\")", "e10s"]),
        ]
    );
}

#[test]
fn reduction_of_a_converged_group_returns_it() {
    let rules = scenario_rules();
    let mut group = vec![clause(&[WIN, "e10s"]), clause(&["debug"])];
    let before = group.clone();
    collapse(&mut group, &rules);
    assert_eq!(group, before);
}

#[test]
fn reduction_stops_within_the_literal_count() {
    // Four clauses of two literals: every flag combination, which reduces to
    // one empty clause.
    let rules: Vec<CollapseRule> = Vec::new();
    let mut group = vec![
        clause(&["a", "b"]),
        clause(&["not a", "b"]),
        clause(&["a", "not b"]),
        clause(&["not a", "not b"]),
    ];
    collapse(&mut group, &rules);
    assert_eq!(group, vec![clause(&[])]);
}

#[test]
fn equality_literal_and_its_negation_stay_apart() {
    let rules: Vec<CollapseRule> = Vec::new();
    let mut group = vec![clause(&[WIN, "e10s"]), clause(&["not (os==win)", "e10s"])];
    let before = group.clone();
    collapse(&mut group, &rules);
    assert_eq!(group, before);
}

#[test]
fn empty_group_stays_empty() {
    let rules = build_collapse_rules();
    let mut group: Vec<Vec<String>> = Vec::new();
    collapse(&mut group, &rules);
    assert!(group.is_empty());
}

#[test]
fn unknown_literal_leaves_the_group_unchanged() {
    let rules = scenario_rules();
    let known = clause(&[WIN, V7, V10, "not webrender", "webrender", "e10s", "not e10s"]);
    let mut odd = vec![
        clause(&[WIN, V7, "not webrender", "e10s"]),
        clause(&[WIN, V10, "e10s", "mystery"]),
    ];
    let before = odd.clone();
    assert!(!collapse_checked(&mut odd, &rules, &known));
    assert_eq!(odd, before);
    // The next group of the run is reduced as usual.
    let mut next = vec![clause(&[WIN, V7, "not webrender", "e10s"]), clause(&[WIN, V10, "e10s"])];
    assert!(collapse_checked(&mut next, &rules, &known));
    assert_eq!(next, vec![clause(&[WIN, "e10s"])]);
}

#[test]
fn built_in_catalog_shape() {
    let rules = build_collapse_rules();
    assert_eq!(rules.len(), 23);
    for r in &rules {
        assert!(r.alternatives.len() == 1 || r.alternatives.len() == 2);
        for a in &r.alternatives {
            assert!(!r.prerequisites.contains(a));
        }
    }
    assert_eq!(rules[0].prerequisites, clause(&["(os == \"mac\")"]));
    assert_eq!(rules[0].alternatives, clause(&["(version == \"OS X 10.10.5\")"]));
    assert_eq!(rules[13].alternatives, clause(&["(version == \"6.1.7601\")", "(version == \"10.0.15063\")"]));
    assert_eq!(rules[22].alternatives, clause(&["not e10s"]));
}

#[test]
fn rendering_joins_literals() {
    let c = clause(&["(os == \"win\")", "e10s"]);
    assert_eq!(render_clause("  if ", &c, ": FAIL"), "  if (os == \"win\") and e10s: FAIL");
    assert_eq!(render_clause("if ", &clause(&["x"]), ":"), "if x:");
    assert_eq!(render_clause("if ", &clause(&[]), ":"), "if :");
    let lines = render_group(&vec![c, clause(&["debug"])], "if ", ": PASS");
    assert_eq!(lines, vec!["if (os == \"win\") and e10s: PASS".to_string(), "if debug: PASS".to_string()]);
}

// A small world for checking that reduction keeps meaning: Windows 7 or 10,
// with or without WebRender and e10s, where Windows 7 never has WebRender.
fn truth(lit: &str, v7: bool, webrender: bool, e10s: bool) -> bool {
    match lit {
        WIN => true,
        V7 => v7,
        V10 => !v7,
        "webrender" => webrender,
        "e10s" => e10s,
        _ => {
            let flipped = flip(lit);
            assert!(flipped.len() < lit.len(), "unexpected literal {}", lit);
            !truth(&flipped, v7, webrender, e10s)
        }
    }
}

fn selects(group: &[Vec<String>], v7: bool, webrender: bool, e10s: bool) -> bool {
    group.iter().any(|c| c.iter().all(|l| truth(l, v7, webrender, e10s)))
}

#[test]
fn reduction_keeps_meaning_over_every_configuration() {
    let rules = scenario_rules();
    let groups = vec![
        vec![clause(&[WIN, V7, "not webrender", "e10s"]), clause(&[WIN, V10, "e10s"])],
        vec![clause(&[WIN, V7, "e10s"]), clause(&[WIN, V10, "not e10s"]), clause(&[WIN, V10, "e10s"])],
        vec![clause(&[WIN, "webrender", "e10s"]), clause(&[WIN, "not webrender", "e10s"]), clause(&[V7, "not e10s"])],
        vec![clause(&[WIN, V10, "webrender"]), clause(&[WIN, V7, "not webrender"])],
    ];
    for g in groups {
        let mut reduced = g.clone();
        collapse(&mut reduced, &rules);
        for bits in 0..8u32 {
            let (v7, webrender, e10s) = (bits & 1 != 0, bits & 2 != 0, bits & 4 != 0);
            if v7 && webrender {
                continue;
            }
            assert_eq!(selects(&g, v7, webrender, e10s), selects(&reduced, v7, webrender, e10s));
        }
    }
}
