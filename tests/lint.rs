use libjfmt::config::{default_indent_width, default_max_line_length, Config, IndentStyle, LintError};
use libjfmt::diagnostic::{Fix, LintIssue};
use libjfmt::patch::apply_fixes;
use libjfmt::rules::{
    collect_indent_style, collect_line_length, collect_no_empty_statements,
    collect_no_wildcard_imports,
};
use libjfmt::session::{fix_java_source, lint_java_source};
use libjfmt::text::decimal_string;
use libjfmt::tree::{tree_fits_source, SyntaxNode};

fn node(kind: &str, start: usize, end: usize, row: usize, column: usize, children: Vec<SyntaxNode>) -> SyntaxNode {
    SyntaxNode {
        kind: kind.to_string(),
        start_byte: start,
        end_byte: end,
        row,
        column,
        children,
    }
}

fn root_of(source: &str) -> SyntaxNode {
    node("program", 0, source.len(), 0, 0, Vec::new())
}

fn config(style: IndentStyle, width: u16, max: u16) -> Config {
    Config { indent_style: style, indent_width: width, max_line_length: max }
}

fn fix(start: usize, end: usize, replacement: &str) -> Fix {
    Fix { start_byte: start, end_byte: end, replacement: replacement.to_string() }
}

fn same_issue(a: &LintIssue, b: &LintIssue) -> bool {
    let same_fix = match (&a.fix, &b.fix) {
        (None, None) => true,
        (Some(x), Some(y)) => {
            x.start_byte == y.start_byte && x.end_byte == y.end_byte && x.replacement == y.replacement
        }
        _ => false,
    };
    a.rule_id == b.rule_id && a.message == b.message && a.line == b.line && a.column == b.column && same_fix
}

#[test]
fn wildcard_import_is_reported_without_fix() {
    let source = "import java.util.*;\n";
    let import = node("import_declaration", 0, 19, 0, 0, Vec::new());
    let root = node("program", 0, source.len(), 0, 0, vec![import]);
    let issues = lint_java_source(source, &root, &Config::default());
    assert_eq!(issues.len(), 1);
    assert_eq!(issues[0].rule_id, "no-wildcard-imports");
    assert_eq!(issues[0].message, "Avoid wildcard imports (use explicit classes)");
    assert_eq!((issues[0].line, issues[0].column), (1, 1));
    assert!(issues[0].fix.is_none());
}

#[test]
fn explicit_import_is_not_reported() {
    let source = "import java.util.List;\n";
    let import = node("import_declaration", 0, 22, 0, 0, Vec::new());
    let root = node("program", 0, source.len(), 0, 0, vec![import]);
    assert!(lint_java_source(source, &root, &Config::default()).is_empty());
}

#[test]
fn empty_statement_is_reported_and_fixed() {
    let source = "class A {\n    void f() {\n        int x = 1;;\n    }\n}\n";
    let semi = source.find(";;").unwrap() + 1;
    let decl = node("local_variable_declaration", semi - 10, semi, 2, 8, Vec::new());
    let empty = node(";", semi, semi + 1, 2, 18, Vec::new());
    let block = node("block", 20, source.len() - 4, 1, 13, vec![decl, empty]);
    let method = node("method_declaration", 14, source.len() - 4, 1, 4, vec![block]);
    let class = node("class_declaration", 0, source.len() - 1, 0, 0, vec![method]);
    let root = node("program", 0, source.len(), 0, 0, vec![class]);
    let (fixed, issues) = fix_java_source(source, &root, &Config::default());
    assert_eq!(issues.len(), 1);
    assert_eq!(issues[0].rule_id, "no-empty-statement");
    assert_eq!((issues[0].line, issues[0].column), (3, 19));
    let f = issues[0].fix.as_ref().unwrap();
    assert_eq!((f.start_byte, f.end_byte, f.replacement.as_str()), (semi, semi + 1, ""));
    assert_eq!(fixed, "class A {\n    void f() {\n        int x = 1;\n    }\n}\n");
}

#[test]
fn tree_rules_visit_parents_before_children() {
    let source = "import a.*;\nimport b.*;\n";
    let inner = node("import_declaration", 12, 23, 1, 0, Vec::new());
    let outer = node("import_declaration", 0, 23, 0, 0, vec![inner]);
    let root = node("program", 0, source.len(), 0, 0, vec![outer]);
    let mut out = Vec::new();
    collect_no_wildcard_imports(source, &root, &mut out);
    assert_eq!(out.len(), 2);
    assert_eq!(out[0].line, 1);
    assert_eq!(out[1].line, 2);
    let mut none = Vec::new();
    collect_no_empty_statements(source, &root, &mut none);
    assert!(none.is_empty());
}

#[test]
fn tab_indent_is_expanded_under_spaces() {
    let source = "\tfoo();";
    let cfg = config(IndentStyle::Spaces, 4, 100);
    let (fixed, issues) = fix_java_source(source, &root_of(source), &cfg);
    assert_eq!(issues.len(), 1);
    assert_eq!(issues[0].rule_id, "indent-style");
    assert_eq!(issues[0].message, "Use spaces for indentation");
    assert_eq!((issues[0].line, issues[0].column), (1, 1));
    assert_eq!(issues[0].fix.as_ref().unwrap().replacement, "    ");
    assert_eq!(fixed, "    foo();");
}

#[test]
fn space_indent_converts_to_tabs_only_on_multiples() {
    let source = "        a();\n     b();\n";
    let cfg = config(IndentStyle::Tabs, 4, 100);
    let (fixed, issues) = fix_java_source(source, &root_of(source), &cfg);
    assert_eq!(issues.len(), 2);
    assert_eq!(issues[0].message, "Use tabs for indentation");
    assert_eq!(issues[0].line, 1);
    let f = issues[0].fix.as_ref().unwrap();
    assert_eq!((f.start_byte, f.end_byte, f.replacement.as_str()), (0, 8, "\t\t"));
    assert_eq!(issues[1].line, 2);
    assert!(issues[1].fix.is_none());
    assert_eq!(fixed, "\t\ta();\n     b();\n");
}

#[test]
fn mixed_indent_under_tabs_has_no_fix() {
    let mut out = Vec::new();
    collect_indent_style("\t    x;\n", IndentStyle::Tabs, 4, &mut out);
    assert_eq!(out.len(), 1);
    assert!(out[0].fix.is_none());
}

#[test]
fn mixed_indent_under_spaces_is_always_fixed() {
    let mut out = Vec::new();
    collect_indent_style(" \t x;\n", IndentStyle::Spaces, 4, &mut out);
    assert_eq!(out.len(), 1);
    let f = out[0].fix.as_ref().unwrap();
    assert_eq!((f.start_byte, f.end_byte, f.replacement.as_str()), (0, 3, "      "));
}

#[test]
fn indent_of_later_lines_uses_line_offsets() {
    let mut out = Vec::new();
    collect_indent_style("a\n\tb\n", IndentStyle::Spaces, 2, &mut out);
    assert_eq!(out.len(), 1);
    assert_eq!(out[0].line, 2);
    let f = out[0].fix.as_ref().unwrap();
    assert_eq!((f.start_byte, f.end_byte, f.replacement.as_str()), (2, 3, "  "));
}

#[test]
fn blank_lines_are_skipped_by_indent_rule() {
    let mut out = Vec::new();
    collect_indent_style("   \n\t\t\n  \u{3000}\n\n", IndentStyle::Tabs, 4, &mut out);
    assert!(out.is_empty());
    collect_indent_style("   \n\t\t\r\n", IndentStyle::Spaces, 4, &mut out);
    assert!(out.is_empty());
}

#[test]
fn long_line_is_reported_at_limit_plus_one() {
    let source = format!("{}\n", "a".repeat(101));
    let cfg = config(IndentStyle::Spaces, 4, 100);
    let issues = lint_java_source(&source, &root_of(&source), &cfg);
    assert_eq!(issues.len(), 1);
    assert_eq!(issues[0].rule_id, "max-line-length");
    assert_eq!((issues[0].line, issues[0].column), (1, 101));
    assert_eq!(issues[0].message, "Line exceeds 100 characters (was 101)");
    assert!(issues[0].fix.is_none());
}

#[test]
fn line_at_limit_is_not_reported() {
    let mut out = Vec::new();
    collect_line_length(&"b".repeat(100), 100, &mut out);
    assert!(out.is_empty());
}

#[test]
fn multibyte_character_counts_once() {
    let line = format!("{}\u{e9}", "a".repeat(99));
    assert_eq!(line.len(), 101);
    let mut out = Vec::new();
    collect_line_length(&line, 100, &mut out);
    assert!(out.is_empty());
    let wide = format!("{}\u{1F600}", "a".repeat(100));
    collect_line_length(&wide, 100, &mut out);
    assert_eq!(out.len(), 1);
    assert_eq!(out[0].message, "Line exceeds 100 characters (was 101)");
}

#[test]
fn carriage_return_counts_in_line_length() {
    let mut out = Vec::new();
    collect_line_length("abc\r\nab\r\nxyz\r", 3, &mut out);
    assert_eq!(out.len(), 2);
    assert_eq!(out[0].line, 1);
    assert_eq!(out[0].message, "Line exceeds 3 characters (was 4)");
    assert_eq!(out[1].line, 3);
    assert_eq!(out[1].message, "Line exceeds 3 characters (was 4)");
}

#[test]
fn rules_are_grouped_in_order() {
    let source = "\timport a.*;\n;\n";
    let import = node("import_declaration", 1, 12, 0, 1, Vec::new());
    let empty = node(";", 13, 14, 1, 0, Vec::new());
    let root = node("program", 0, source.len(), 0, 0, vec![import, empty]);
    let cfg = config(IndentStyle::Spaces, 4, 5);
    let issues = lint_java_source(source, &root, &cfg);
    let ids: Vec<&str> = issues.iter().map(|i| i.rule_id).collect();
    assert_eq!(ids, vec!["no-wildcard-imports", "no-empty-statement", "max-line-length", "indent-style"]);
    assert_eq!((issues[0].line, issues[0].column), (1, 2));
    assert_eq!(issues[2].message, "Line exceeds 5 characters (was 12)");
}

#[test]
fn lint_twice_gives_same_issues() {
    let source = "\tint x;;\n        y();\n";
    let empty = node(";", 7, 8, 0, 7, Vec::new());
    let root = node("program", 0, source.len(), 0, 0, vec![empty]);
    let cfg = config(IndentStyle::Tabs, 4, 6);
    let first = lint_java_source(source, &root, &cfg);
    let second = lint_java_source(source, &root, &cfg);
    assert_eq!(first.len(), second.len());
    assert!(!first.is_empty());
    for (a, b) in first.iter().zip(second.iter()) {
        assert!(same_issue(a, b));
    }
}

#[test]
fn no_fixes_leave_source_unchanged() {
    let source = "int caf\u{e9} = 1;\n";
    assert_eq!(apply_fixes(source, &[]), source);
    assert_eq!(apply_fixes("", &[]), "");
}

#[test]
fn single_fix_replaces_its_range() {
    let source = "hello world";
    assert_eq!(apply_fixes(source, &[fix(6, 11, "there")]), "hello there");
    assert_eq!(apply_fixes(source, &[fix(0, 5, "")]), " world");
    assert_eq!(apply_fixes(source, &[fix(11, 11, "!")]), "hello world!");
}

#[test]
fn fixes_are_applied_in_start_order() {
    let source = "abcdef";
    let out = apply_fixes(source, &[fix(4, 5, "E"), fix(0, 1, "A")]);
    assert_eq!(out, "AbcdEf");
}

#[test]
fn equal_starts_keep_their_order() {
    let out = apply_fixes("abc", &[fix(1, 1, "x"), fix(1, 1, "y")]);
    assert_eq!(out, "axybc");
}

#[test]
fn overlapping_fixes_are_concatenated() {
    let out = apply_fixes("abcdef", &[fix(1, 4, "X"), fix(2, 5, "Y")]);
    assert_eq!(out, "aXYf");
}

#[test]
fn tree_must_fit_source() {
    let source = "caf\u{e9};";
    assert!(tree_fits_source(&root_of(source), source));
    let bad_range = node("program", 0, source.len() + 1, 0, 0, Vec::new());
    assert!(!tree_fits_source(&bad_range, source));
    let inside_char = node("program", 0, source.len(), 0, 0, vec![node("x", 4, 5, 0, 4, Vec::new())]);
    assert!(!tree_fits_source(&inside_char, source));
}

#[test]
fn defaults_and_error_messages() {
    let c = Config::default();
    assert_eq!(c.indent_style, IndentStyle::Spaces);
    assert_eq!((c.indent_width, c.max_line_length), (4, 100));
    assert_eq!(IndentStyle::default(), IndentStyle::Spaces);
    assert_eq!((default_indent_width(), default_max_line_length()), (4, 100));
    assert_eq!(LintError::Language.message(), "failed to initialize Java language");
    assert_eq!(LintError::Parse.message(), "failed to parse source");
}

#[test]
fn terminating_semicolons_are_not_empty_statements() {
    let source = "x();\ndo y(); while (z);\n";
    let stmt = node("expression_statement", 0, 4, 0, 0, vec![node(";", 3, 4, 0, 3, Vec::new())]);
    let body = node("expression_statement", 8, 12, 1, 3, vec![node(";", 11, 12, 1, 6, Vec::new())]);
    let do_stmt = node(
        "do_statement",
        5,
        24,
        1,
        0,
        vec![
            node("do", 5, 7, 1, 0, Vec::new()),
            body,
            node("while", 13, 18, 1, 8, Vec::new()),
            node("parenthesized_expression", 19, 22, 1, 14, Vec::new()),
            node(";", 22, 23, 1, 17, Vec::new()),
        ],
    );
    let root = node("program", 0, source.len(), 0, 0, vec![stmt, do_stmt]);
    let mut out = Vec::new();
    collect_no_empty_statements(source, &root, &mut out);
    assert!(out.is_empty());
}

#[test]
fn empty_bodies_are_empty_statements() {
    let source = "do ; while (z);\n";
    let do_stmt = node(
        "do_statement",
        0,
        15,
        0,
        0,
        vec![
            node("do", 0, 2, 0, 0, Vec::new()),
            node(";", 3, 4, 0, 3, Vec::new()),
            node("while", 5, 10, 0, 5, Vec::new()),
            node("parenthesized_expression", 11, 14, 0, 11, Vec::new()),
            node(";", 14, 15, 0, 14, Vec::new()),
        ],
    );
    let root = node("program", 0, source.len(), 0, 0, vec![do_stmt]);
    let mut out = Vec::new();
    collect_no_empty_statements(source, &root, &mut out);
    assert_eq!(out.len(), 1);
    assert_eq!((out[0].line, out[0].column), (1, 4));
    let f = out[0].fix.as_ref().unwrap();
    assert_eq!((f.start_byte, f.end_byte), (3, 4));
}

#[test]
fn missing_semicolon_is_not_reported() {
    let source = "{ x() }";
    let block = node("block", 0, 7, 0, 0, vec![node(";", 5, 5, 0, 5, Vec::new())]);
    let root = node("program", 0, source.len(), 0, 0, vec![block]);
    let mut out = Vec::new();
    collect_no_empty_statements(source, &root, &mut out);
    assert!(out.is_empty());
}

#[test]
fn tree_must_nest_and_order_children() {
    let source = "abcdef";
    let overlapping = node(
        "program",
        0,
        6,
        0,
        0,
        vec![node("x", 0, 3, 0, 0, Vec::new()), node("y", 2, 5, 0, 2, Vec::new())],
    );
    assert!(!tree_fits_source(&overlapping, source));
    let outside = node("block", 1, 3, 0, 1, vec![node("x", 0, 2, 0, 0, Vec::new())]);
    assert!(!tree_fits_source(&node("program", 0, 6, 0, 0, vec![outside]), source));
    let semicolon_with_child = node(";", 0, 1, 0, 0, vec![node("x", 0, 1, 0, 0, Vec::new())]);
    assert!(!tree_fits_source(&node("program", 0, 6, 0, 0, vec![semicolon_with_child]), source));
    let ordered = node(
        "program",
        0,
        6,
        0,
        0,
        vec![node("x", 0, 3, 0, 0, Vec::new()), node("y", 3, 6, 0, 3, Vec::new())],
    );
    assert!(tree_fits_source(&ordered, source));
}

#[test]
fn semicolons_in_statement_positions_give_ascending_fixes() {
    let source = "{ ; ; }";
    let block = node(
        "block",
        0,
        7,
        0,
        0,
        vec![
            node("{", 0, 1, 0, 0, Vec::new()),
            node(";", 2, 3, 0, 2, Vec::new()),
            node(";", 4, 5, 0, 4, Vec::new()),
            node("}", 6, 7, 0, 6, Vec::new()),
        ],
    );
    let root = node("program", 0, 7, 0, 0, vec![block]);
    let (fixed, issues) = fix_java_source(source, &root, &Config::default());
    let spans: Vec<(usize, usize)> = issues
        .iter()
        .map(|i| {
            let f = i.fix.as_ref().unwrap();
            (f.start_byte, f.end_byte)
        })
        .collect();
    assert_eq!(spans, vec![(2, 3), (4, 5)]);
    assert_eq!(fixed, "{   }");
}

#[test]
fn decimal_notation() {
    assert_eq!(decimal_string(0), "0");
    assert_eq!(decimal_string(7), "7");
    assert_eq!(decimal_string(10), "10");
    assert_eq!(decimal_string(12345), "12345");
    assert_eq!(decimal_string(usize::MAX), usize::MAX.to_string());
}

#[test]
fn fix_reaching_past_the_end_stops_there() {
    assert_eq!(apply_fixes("abc", &[fix(1, 10, "Z")]), "aZ");
}

#[test]
fn fix_ending_before_its_start_is_applied_as_given() {
    assert_eq!(apply_fixes("abcdef", &[fix(3, 1, "X")]), "abcXbcdef");
}
