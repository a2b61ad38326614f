use vstd::prelude::*;

verus! {

/// A proposed replacement of the byte range `[start_byte, end_byte)` of the
/// source text that was linted.
#[derive(Debug, Clone)]
pub struct Fix {
    pub start_byte: usize,
    pub end_byte: usize,
    pub replacement: String,
}

/// The mathematical content of a [`Fix`].
pub struct FixView {
    pub start: int,
    pub end: int,
    pub replacement: Seq<char>,
}

impl View for Fix {
    type V = FixView;

    open spec fn view(&self) -> FixView {
        FixView {
            start: self.start_byte as int,
            end: self.end_byte as int,
            replacement: self.replacement@,
        }
    }
}

/// One diagnostic: which rule fired, where (1-based), and an optional fix.
#[derive(Debug, Clone)]
pub struct LintIssue {
    pub rule_id: &'static str,
    pub message: String,
    pub line: usize,
    pub column: usize,
    pub fix: Option<Fix>,
}

/// The mathematical content of a [`LintIssue`].
pub struct IssueView {
    pub rule_id: Seq<char>,
    pub message: Seq<char>,
    pub line: int,
    pub column: int,
    pub fix: Option<FixView>,
}

pub open spec fn fix_view(f: Option<Fix>) -> Option<FixView> {
    match f {
        Some(x) => Some(x@),
        None => None,
    }
}

impl View for LintIssue {
    type V = IssueView;

    open spec fn view(&self) -> IssueView {
        IssueView {
            rule_id: self.rule_id@,
            message: self.message@,
            line: self.line as int,
            column: self.column as int,
            fix: fix_view(self.fix),
        }
    }
}

/// The views of a sequence of issues.
pub open spec fn issues_view(v: Seq<LintIssue>) -> Seq<IssueView> {
    v.map_values(|i: LintIssue| i@)
}

pub open spec fn wildcard_rule() -> Seq<char> {
    "no-wildcard-imports"@
}

pub open spec fn empty_statement_rule() -> Seq<char> {
    "no-empty-statement"@
}

pub open spec fn line_length_rule() -> Seq<char> {
    "max-line-length"@
}

pub open spec fn indent_rule() -> Seq<char> {
    "indent-style"@
}

} // verus!
