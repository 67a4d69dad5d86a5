use clause_collapse::parse::{
    is_clause_line, line_prefix, line_suffix, normalize_literal, parse_clause, same_context,
    split_literals,
};
use clause_collapse::text::{find_text, trimmed};

fn strings(v: &[&str]) -> Vec<String> {
    v.iter().map(|s| s.to_string()).collect()
}

#[test]
fn search_and_trim() {
    assert_eq!(find_text("a and b", " and "), Some(1));
    assert_eq!(find_text("abc", "x"), None);
    assert_eq!(find_text("abc", ""), Some(0));
    assert_eq!(find_text("", ""), Some(0));
    assert_eq!(find_text("é: x", ":"), Some(1));
    assert_eq!(trimmed("  a b \t"), "a b");
    assert_eq!(trimmed("   "), "");
    assert_eq!(trimmed("\u{3000}x\u{a0}"), "x");
}

#[test]
fn literals_are_normalized() {
    assert_eq!(normalize_literal("os == \"win\""), "(os == \"win\")");
    assert_eq!(normalize_literal("  bits == 64 "), "(bits == 64)");
    assert_eq!(normalize_literal("(os == \"win\")"), "(os == \"win\")");
    assert_eq!(normalize_literal(" e10s "), " e10s ");
    assert_eq!(normalize_literal("not webrender"), "not webrender");
}

#[test]
fn conditions_split_at_and() {
    assert_eq!(
        split_literals("os == \"win\" and not webrender and e10s"),
        strings(&["(os == \"win\")", "not webrender", "e10s"])
    );
    assert_eq!(split_literals("debug"), strings(&["debug"]));
    assert_eq!(split_literals(""), strings(&[""]));
    assert_eq!(split_literals("a and "), strings(&["a", ""]));
    assert_eq!(split_literals("band andx"), strings(&["band andx"]));
}

#[test]
fn prefix_and_suffix_of_a_line() {
    let line = "    if (os == \"win\") and e10s: FAIL";
    assert_eq!(line_prefix(line), Some("    if ".to_string()));
    assert_eq!(line_suffix(line), Some(": FAIL".to_string()));
    assert_eq!(line_prefix("  expected: PASS"), None);
    assert_eq!(line_suffix("  [test.html]"), None);
    assert!(is_clause_line(line));
    assert!(!is_clause_line("  expected:"));
    assert!(!is_clause_line("  diff if x: y"));
}

#[test]
fn clause_lines_are_taken_apart() {
    let line = "    if os == \"win\" and (version == \"6.1.7601\") and not webrender: FAIL";
    assert_eq!(
        parse_clause(line),
        Some((
            "    if ".to_string(),
            ": FAIL".to_string(),
            strings(&["(os == \"win\")", "(version == \"6.1.7601\")", "not webrender"]),
        ))
    );
    assert_eq!(parse_clause("    if debug"), None);
    assert_eq!(parse_clause("  expected: PASS"), None);
}

#[test]
fn group_membership_follows_prefix_and_suffix() {
    let p = Some("  if ".to_string());
    let s = Some(": FAIL".to_string());
    let other = Some(": PASS".to_string());
    assert!(same_context(&None, &p, &None, &s));
    assert!(same_context(&p, &p, &s, &s));
    assert!(!same_context(&p, &p, &s, &other));
    assert!(!same_context(&p, &None, &s, &s));
    assert!(!same_context(&p, &p, &s, &None));
}
