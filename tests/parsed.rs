use libjfmt::config::{Config, IndentStyle};
use libjfmt::grammar::{java_language, parse_java};
use libjfmt::session::{fix_java_source, lint_java_source};
use libjfmt::tree::{tree_fits_source, SyntaxNode};

fn convert(node: tree_sitter::Node) -> SyntaxNode {
    let start = node.start_position();
    let children = (0..node.child_count())
        .filter_map(|i| node.child(i))
        .map(convert)
        .collect();
    SyntaxNode {
        kind: node.kind().to_string(),
        start_byte: node.start_byte(),
        end_byte: node.end_byte(),
        row: start.row,
        column: start.column,
        children,
    }
}

fn parsed(source: &str) -> SyntaxNode {
    let tree = parse_java(source).ok().unwrap();
    let root = convert(tree.root_node());
    assert!(tree_fits_source(&root, source));
    root
}

#[test]
fn java_grammar_loads_and_parses() {
    assert!(java_language().is_ok());
    let tree = parse_java("class A {}").ok().unwrap();
    assert_eq!(tree.root_node().kind(), "program");
}

#[test]
fn parsed_wildcard_import_gives_one_issue() {
    let source = "import java.util.*;\n";
    let issues = lint_java_source(source, &parsed(source), &Config::default());
    assert_eq!(issues.len(), 1);
    assert_eq!(issues[0].rule_id, "no-wildcard-imports");
    assert!(issues[0].fix.is_none());
}

#[test]
fn parsed_double_semicolon_gives_one_fixable_issue() {
    let source = "class A { void m() { int x = 1;; } }";
    let root = parsed(source);
    let issues = lint_java_source(source, &root, &Config::default());
    assert_eq!(issues.len(), 1);
    assert_eq!(issues[0].rule_id, "no-empty-statement");
    assert_eq!(issues[0].message, "Remove unnecessary empty statement");
    assert_eq!((issues[0].line, issues[0].column), (1, 32));
    let f = issues[0].fix.as_ref().unwrap();
    assert_eq!((f.start_byte, f.end_byte, f.replacement.as_str()), (31, 32, ""));
    let (fixed, before) = fix_java_source(source, &root, &Config::default());
    assert_eq!(before.len(), 1);
    assert_eq!(fixed, "class A { void m() { int x = 1; } }");
}

#[test]
fn parsed_empty_loop_bodies_are_reported() {
    let source = "class A {\n    void m() {\n        for (;;) ;\n        do ; while (true);\n        while (true) ;\n    }\n}\n";
    let issues = lint_java_source(source, &parsed(source), &Config::default());
    let found: Vec<(usize, usize)> = issues.iter().map(|i| (i.line, i.column)).collect();
    assert_eq!(found, vec![(3, 18), (4, 12), (5, 22)]);
    assert!(issues.iter().all(|i| i.rule_id == "no-empty-statement"));
}

#[test]
fn parsed_empty_statement_in_constructor_is_reported() {
    let source = "class A { A() { ; } }";
    let (fixed, issues) = fix_java_source(source, &parsed(source), &Config::default());
    assert_eq!(issues.len(), 1);
    assert_eq!(issues[0].rule_id, "no-empty-statement");
    assert_eq!((issues[0].line, issues[0].column), (1, 17));
    assert_eq!(fixed, "class A { A() {  } }");
}

#[test]
fn parsed_terminators_are_not_reported() {
    let source = "package p;\nimport a.B;\nclass A {\n    int f;\n    void m() {\n        x();\n        return;\n    }\n}\n";
    assert!(lint_java_source(source, &parsed(source), &Config::default()).is_empty());
}

#[test]
fn parsed_tab_indent_is_fixed() {
    let source = "class A {\n\tint x;\n}\n";
    let cfg = Config { indent_style: IndentStyle::Spaces, indent_width: 4, max_line_length: 100 };
    let (fixed, issues) = fix_java_source(source, &parsed(source), &cfg);
    assert_eq!(issues.len(), 1);
    assert_eq!(fixed, "class A {\n    int x;\n}\n");
}
