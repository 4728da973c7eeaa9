use sqllite::runner::{
    error_result_match, extract_braced, extract_execsql, extract_expected, format_result,
    parse_do_test,
};

#[test]
fn do_test_blocks_by_line() {
    let lines = [
        "do_test t-1.1 {",
        "  execsql {SELECT 1}",
        "} {",
        "  1",
        "}",
        "next",
    ];
    let (name, bs, be, es, ee) = parse_do_test(&lines, 0).unwrap();
    assert_eq!(name, "t-1.1");
    assert_eq!((bs, be, es, ee), (0, 2, 2, 4));
    assert_eq!(extract_execsql(&lines[bs..=be]), vec!["SELECT 1"]);
    assert_eq!(extract_expected(&lines[es..=ee]), "1");
}

#[test]
fn do_test_without_space_after_name_is_none() {
    assert!(parse_do_test(&["do_test t1"], 0).is_none());
    assert!(parse_do_test(&["select 1"], 0).is_none());
    assert!(parse_do_test(&["do_test t1 {", "unclosed"], 0).is_none());
}

#[test]
fn extract_braced_nested() {
    assert_eq!(extract_braced("  {a {b}} c").as_deref(), Some("a {b}"));
    assert_eq!(extract_braced("x {a}"), None);
    assert_eq!(extract_braced("{open"), None);
}

#[test]
fn execsql_inside_catch_is_found() {
    let lines = ["  catch {execsql {  SELECT 2  }} msg", " execsql {X}"];
    assert_eq!(extract_execsql(&lines), vec!["SELECT 2", "X"]);
}

#[test]
fn expected_after_last_brace_pair() {
    assert_eq!(extract_expected(&["} {1 2}"]), "1 2");
    assert_eq!(extract_expected(&["{{x}}"]), "{x}");
    assert_eq!(extract_expected(&["  plain "]), "plain");
    assert_eq!(extract_expected(&["} {", "1 {no such table: t}", "}"]), "1 {no such table: t}");
}

#[test]
fn error_results_compare_messages() {
    assert!(error_result_match("1 {no such table: t}", "1 {no such table: t}"));
    assert!(error_result_match("1 {msg", "1 {msg}"));
    assert!(!error_result_match("1 {a}", "1 {b}"));
    assert!(error_result_match("0 {}", "0 {}"));
    assert!(!error_result_match("0 {}", "1 {x}"));
}

#[test]
fn format_result_joins_with_spaces() {
    let rows = vec!["a".to_string(), String::new(), "b".to_string()];
    assert_eq!(format_result(&rows), "a  b");
}
