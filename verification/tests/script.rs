use sqllite::script::{
    extract_body_commands, format_result, normalize, parse_inline_execsql, parse_result_tokens,
    parse_test_directive, results_match, split_sql, TestKind, TestResults,
};

#[test]
fn parse_braced_sql() {
    let lines = ["do_execsql_test t1 {", "  SELECT 1;", "  SELECT 2;", "}"];
    let parsed = parse_test_directive(&lines, 0).unwrap();
    match parsed.kind {
        TestKind::ExecSql { sql, .. } => {
            assert!(sql.contains("SELECT 1"));
            assert!(sql.contains("SELECT 2"));
        }
        _ => panic!("wrong kind"),
    }
}

#[test]
fn split_sql_semicolons_and_newlines() {
    assert_eq!(split_sql("A; B"), vec!["A", "B"]);
    assert_eq!(
        split_sql("CREATE TABLE t(x int)\nINSERT INTO t VALUES(1)"),
        vec!["CREATE TABLE t(x int)", "INSERT INTO t VALUES(1)"]
    );
}

#[test]
fn parse_result_tokens_handles_null_and_errors() {
    assert_eq!(parse_result_tokens("1 2 3"), vec!["1", "2", "3"]);
    assert_eq!(parse_result_tokens("1 {} 3"), vec!["1", "", "3"]);
    assert_eq!(
        parse_result_tokens("1 {no such table: t}"),
        vec!["1", "no such table: t"]
    );
}

#[test]
fn split_sql_drops_comments_and_blanks() {
    assert_eq!(split_sql("  \n  "), Vec::<String>::new());
    assert_eq!(split_sql("a\n# note\n\n b "), vec!["a", "b"]);
    assert_eq!(split_sql(";a;;b;"), vec!["a", "b"]);
}

#[test]
fn tokens_nested_braces_and_unclosed() {
    assert_eq!(parse_result_tokens("{a {b} c} d"), vec!["a {b} c", "d"]);
    assert_eq!(parse_result_tokens("x{y"), vec!["x", "y"]);
    assert_eq!(parse_result_tokens("  "), Vec::<String>::new());
}

#[test]
fn results_match_errors_by_message() {
    assert!(results_match("1 {no such table: t}", "1 {no such table: t}"));
    assert!(results_match("1 {msg} extra", "1 {msg}"));
    assert!(!results_match("1 {a}", "1 {b}"));
    assert!(results_match("1 2\n3", "1 2 3"));
    assert!(!results_match("0 2", "0 2 3"));
    assert!(results_match("1 2", "1 2 3"));
}

#[test]
fn normalize_collapses_whitespace() {
    assert_eq!(normalize("  a \n\t b  c "), "a b c");
    assert_eq!(normalize(""), "");
}

#[test]
fn format_result_shows_empty_as_braces() {
    let rows = vec!["1".to_string(), String::new(), "x".to_string()];
    assert_eq!(format_result(&rows), "1 {} x");
    assert_eq!(format_result(&[]), "");
}

#[test]
fn test_results_total_and_merge() {
    let mut a = TestResults { passed: 1, failed: 2, skipped: 3 };
    assert_eq!(a.total(), 6);
    a.merge(TestResults { passed: 10, failed: 20, skipped: 30 });
    assert_eq!((a.passed, a.failed, a.skipped), (11, 22, 33));
}

#[test]
fn catchsql_and_do_test_directives() {
    let lines = ["do_catchsql_test c1 {SELECT x} {1 {no such column: x}}"];
    let d = parse_test_directive(&lines, 0).unwrap();
    assert_eq!(d.name, "c1");
    assert_eq!(d.end_line, 0);
    match d.kind {
        TestKind::ExecSql { sql, expected, catch } => {
            assert_eq!(sql, "SELECT x");
            assert_eq!(expected, "1 {no such column: x}");
            assert!(catch);
        }
        _ => panic!("wrong kind"),
    }
    let lines = ["do_test d1 {", "  execsql {SELECT 1}", "} {1}"];
    let d = parse_test_directive(&lines, 0).unwrap();
    assert_eq!(d.end_line, 2);
    assert_eq!(d.expected.as_deref(), Some("1"));
    match d.kind {
        TestKind::DoTest { body } => assert!(body.contains("execsql {SELECT 1}")),
        _ => panic!("wrong kind"),
    }
    assert!(parse_test_directive(&["# comment"], 0).is_none());
    assert!(parse_test_directive(&["do_test {x}"], 0).is_none());
}

#[test]
fn inline_execsql_spans_lines() {
    let lines = ["execsql {", "  CREATE TABLE t(a);", "}", "after"];
    let (sql, end) = parse_inline_execsql(&lines, 0).unwrap();
    assert_eq!(end, 2);
    assert_eq!(split_sql(&sql), vec!["CREATE TABLE t(a)"]);
    assert!(parse_inline_execsql(&["nothing here"], 0).is_none());
}

#[test]
fn body_commands_setup_and_catch() {
    let (setup, caught, catch) = extract_body_commands("catchsql {SELECT 1; SELECT 2}");
    assert_eq!(setup, vec!["SELECT 1", "SELECT 2"]);
    assert_eq!(caught, None);
    assert!(catch);

    let body = "execsql {CREATE TABLE t(a)}\nset v [catch {execsql {SELECT b FROM t}} msg]";
    let (setup, caught, catch) = extract_body_commands(body);
    assert_eq!(setup, vec!["CREATE TABLE t(a)"]);
    assert_eq!(caught.as_deref(), Some("SELECT b FROM t"));
    assert!(catch);

    let (setup, caught, catch) = extract_body_commands("execsql {A; B} execsql {C}");
    assert_eq!(setup, vec!["A", "B", "C"]);
    assert_eq!(caught, None);
    assert!(!catch);
}
