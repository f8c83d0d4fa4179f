use ifdef_context::line_parser::line_contains_else;
use ifdef_context::line_parser::line_contains_endif;
use ifdef_context::line_parser::line_contains_ifdef;
use ifdef_context::line_parser::scan_lines;
use ifdef_context::stack::StackError;

#[test]
fn contains_ifdef() {
    assert!(line_contains_ifdef(" #ifdef foobar"));
}

#[test]
fn contains_else() {
    assert!(line_contains_else("#else foobar"));
}

#[test]
fn contains_endif() {
    assert!(line_contains_endif(" \t#endif foobar"));
}

#[test]
fn contains_ifdef_is_permissive() {
    assert!(line_contains_ifdef("#ifanything"));
    assert!(line_contains_ifdef("#ifndef X"));
    assert!(!line_contains_ifdef("# if"));
    assert!(!line_contains_ifdef("int x;"));
    assert!(!line_contains_ifdef(""));
}

#[test]
fn leading_whitespace_is_unicode_aware() {
    assert!(line_contains_ifdef("\u{a0}#ifdef FOO"));
    assert!(line_contains_else("\u{3000}\u{2028}#else"));
    assert!(line_contains_endif("\u{2003}#endif"));
    assert!(!line_contains_ifdef("\u{a1}#ifdef FOO"));
}

#[test]
fn unicode_whitespace_before_directives_is_skipped() {
    let lines = vec![
        "\u{a0}#ifdef FOO".to_string(),
        "int x;".to_string(),
    ];
    let stack = scan_lines(&lines, 2).unwrap();
    assert_eq!(stack.to_string(), "1: \u{a0}#ifdef FOO\n2: int x;\n");
}

fn test_c_lines() -> Vec<String> {
    vec![
        "// line 1".to_string(),
        "#ifdef def0".to_string(),
        "// line 3".to_string(),
        "#ifdef def1".to_string(),
        "// line 5".to_string(),
        "#ifdef def2".to_string(),
        "// line 7".to_string(),
        "#ifdef def3".to_string(),
        "// line 9".to_string(),
        "#else".to_string(),
        "// line 11".to_string(),
        "#ifdef def4".to_string(),
        "// line 13".to_string(),
        "#endif".to_string(),
        "// line 15".to_string(),
        "#endif".to_string(),
        "// line 17".to_string(),
        "#else".to_string(),
        "// line 19".to_string(),
        "#endif".to_string(),
        "// line 21".to_string(),
        "#else".to_string(),
        "// line 23".to_string(),
        "#endif".to_string(),
        "// line 25".to_string(),
        "#endif".to_string(),
        "// line 27".to_string(),
    ]
}

#[test]
fn test_file_line_1() {
    let stack = scan_lines(&test_c_lines(), 1).unwrap();
    assert_eq!(stack.to_string(), "1: // line 1\n");
}

#[test]
fn test_file_line_3() {
    let stack = scan_lines(&test_c_lines(), 3).unwrap();
    assert_eq!(stack.to_string(), "2: #ifdef def0\n3: // line 3\n");
}

#[test]
fn test_file_line_5() {
    let stack = scan_lines(&test_c_lines(), 5).unwrap();
    assert_eq!(
        stack.to_string(),
        "2: #ifdef def0\n4: #ifdef def1\n5: // line 5\n"
    );
}

#[test]
fn test_file_line_7() {
    let stack = scan_lines(&test_c_lines(), 7).unwrap();
    assert_eq!(
        stack.to_string(),
        "2: #ifdef def0\n4: #ifdef def1\n6: #ifdef def2\n7: // line 7\n"
    );
}

#[test]
fn test_file_line_9() {
    let stack = scan_lines(&test_c_lines(), 9).unwrap();
    assert_eq!(
        stack.to_string(),
        "2: #ifdef def0\n4: #ifdef def1\n6: #ifdef def2\n8: #ifdef def3\n9: // line 9\n"
    );
}

#[test]
fn test_file_line_11() {
    let stack = scan_lines(&test_c_lines(), 11).unwrap();
    assert_eq!(
        stack.to_string(),
        " 2: #ifdef def0\n 4: #ifdef def1\n 6: #ifdef def2\n 8: #ifdef def3\n10: #else\n11: // line 11\n"
    );
}

#[test]
fn test_file_line_13() {
    let stack = scan_lines(&test_c_lines(), 13).unwrap();
    assert_eq!(
        stack.to_string(),
        " 2: #ifdef def0\n 4: #ifdef def1\n 6: #ifdef def2\n 8: #ifdef def3\n10: #else\n12: #ifdef def4\n13: // line 13\n"
    );
}

#[test]
fn test_file_line_15() {
    let stack = scan_lines(&test_c_lines(), 15).unwrap();
    assert_eq!(
        stack.to_string(),
        " 2: #ifdef def0\n 4: #ifdef def1\n 6: #ifdef def2\n 8: #ifdef def3\n10: #else\n15: // line 15\n"
    );
}

#[test]
fn test_file_line_17() {
    let stack = scan_lines(&test_c_lines(), 17).unwrap();
    assert_eq!(
        stack.to_string(),
        " 2: #ifdef def0\n 4: #ifdef def1\n 6: #ifdef def2\n17: // line 17\n"
    );
}

#[test]
fn test_file_line_19() {
    let stack = scan_lines(&test_c_lines(), 19).unwrap();
    assert_eq!(
        stack.to_string(),
        " 2: #ifdef def0\n 4: #ifdef def1\n 6: #ifdef def2\n18: #else\n19: // line 19\n"
    );
}

#[test]
fn test_file_line_21() {
    let stack = scan_lines(&test_c_lines(), 21).unwrap();
    assert_eq!(
        stack.to_string(),
        " 2: #ifdef def0\n 4: #ifdef def1\n21: // line 21\n"
    );
}

#[test]
fn test_file_line_23() {
    let stack = scan_lines(&test_c_lines(), 23).unwrap();
    assert_eq!(
        stack.to_string(),
        " 2: #ifdef def0\n 4: #ifdef def1\n22: #else\n23: // line 23\n"
    );
}

#[test]
fn test_file_line_25() {
    let stack = scan_lines(&test_c_lines(), 25).unwrap();
    assert_eq!(
        stack.to_string(),
        " 2: #ifdef def0\n25: // line 25\n"
    );
}

#[test]
fn test_file_line_27() {
    let stack = scan_lines(&test_c_lines(), 27).unwrap();
    assert_eq!(stack.to_string(), "27: // line 27\n");
}

#[test]
fn no_directives_single_entry() {
    let lines = vec![
        "int a;".to_string(),
        "int b;".to_string(),
        "int c;".to_string(),
    ];
    let stack = scan_lines(&lines, 2).unwrap();
    assert_eq!(stack.to_string(), "2: int b;\n");
}

#[test]
fn scanning_twice_is_byte_identical() {
    let lines = test_c_lines();
    let first = scan_lines(&lines, 13).unwrap().to_string();
    let second = scan_lines(&lines, 13).unwrap().to_string();
    assert_eq!(first, second);
}

#[test]
fn nested_opens_all_reported() {
    let lines = vec![
        "#if A".to_string(),
        "#ifdef B".to_string(),
        "int x;".to_string(),
    ];
    let stack = scan_lines(&lines, 3).unwrap();
    assert_eq!(stack.to_string(), "1: #if A\n2: #ifdef B\n3: int x;\n");
}

#[test]
fn endif_collapses_consecutive_else_lines() {
    let lines = vec![
        "#if A".to_string(),
        "#else".to_string(),
        "#else".to_string(),
        "#endif".to_string(),
        "int x;".to_string(),
    ];
    let stack = scan_lines(&lines, 5).unwrap();
    assert_eq!(stack.to_string(), "5: int x;\n");
}

#[test]
fn target_line_may_be_a_directive() {
    let lines = vec!["#if A".to_string(), "#else".to_string()];
    let stack = scan_lines(&lines, 2).unwrap();
    assert_eq!(stack.to_string(), "1: #if A\n2: #else\n");
}

#[test]
fn target_beyond_eof_yields_open_scopes() {
    let lines = vec!["#if A".to_string()];
    let stack = scan_lines(&lines, 5).unwrap();
    assert_eq!(stack.to_string(), "1: #if A\n");
}

#[test]
fn target_beyond_eof_of_balanced_file_is_empty() {
    let stack = scan_lines(&test_c_lines(), 100).unwrap();
    assert_eq!(stack.to_string(), "");
}

#[test]
fn empty_file_yields_empty_report() {
    let lines: Vec<String> = vec![];
    let stack = scan_lines(&lines, 1).unwrap();
    assert_eq!(stack.to_string(), "");
}

#[test]
fn stray_endif_is_an_error() {
    let lines = vec!["int a;".to_string(), "#endif".to_string()];
    assert!(matches!(scan_lines(&lines, 5), Err(StackError::Underflow)));
}
