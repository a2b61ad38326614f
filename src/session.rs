use vstd::prelude::*;
use vstd::string::StringSliceAdditionalSpecFns;
use vstd::utf8::{
    encode_utf8, is_char_boundary, is_continuation_byte, length_of_first_scalar, pop_first_scalar,
    valid_first_scalar, valid_utf8,
};

use crate::config::{Config, IndentStyle};
use crate::diagnostic::{issues_view, Fix, FixView, IssueView, LintIssue};
use crate::patch::{all_fit, apply_fixes, copy_fix, fix_fits, fixes_view, patched};
use crate::rules::{
    collect_indent_style, collect_line_length, collect_no_empty_statements,
    collect_no_wildcard_imports, indent_issue, indent_issues, length_issue, length_issues, opt_seq,
    tree_issues,
};
use crate::text::{leading_run_end, line_spans, spans_ok, SPACE, TAB};
use crate::tree::{node_ok, placed, tree_fits, SyntaxNode};

verus! {

broadcast use vstd::utf8::group_utf8_lib;

/// The diagnostics of one lint pass: the wildcard-import rule, then the
/// empty-statement rule (both over the tree in pre-order, the root standing
/// in no statement position), then the
/// line-length rule and the indentation rule (both in line order).
pub open spec fn lint_spec(b: Seq<u8>, root: SyntaxNode, config: Config) -> Seq<IssueView> {
    tree_issues(b, placed(root, false), true) + tree_issues(b, placed(root, false), false) + length_issues(
        b,
        line_spans(b),
        config.max_line_length as nat,
    ) + indent_issues(b, line_spans(b), config.indent_style, config.indent_width as nat)
}

/// The fixes that the issues `s` carry, in order.
pub open spec fn fixes_of(s: Seq<IssueView>) -> Seq<FixView>
    decreases s.len(),
{
    if s.len() == 0 {
        seq![]
    } else {
        fixes_of(s.drop_last()) + match s.last().fix {
            Some(f) => seq![f],
            None => seq![],
        }
    }
}

proof fn lemma_fixes_of_concat(x: Seq<IssueView>, y: Seq<IssueView>)
    ensures
        fixes_of(x + y) == fixes_of(x) + fixes_of(y),
    decreases y.len(),
{
    if y.len() == 0 {
        assert(x + y =~= x);
        assert(fixes_of(x) + fixes_of(y) =~= fixes_of(x));
    } else {
        assert((x + y).drop_last() =~= x + y.drop_last());
        lemma_fixes_of_concat(x, y.drop_last());
        assert(fixes_of(x + y) =~= fixes_of(x) + fixes_of(y));
    }
}

proof fn lemma_all_fit_concat(x: Seq<FixView>, y: Seq<FixView>, b: Seq<u8>)
    requires
        all_fit(x, b),
        all_fit(y, b),
    ensures
        all_fit(x + y, b),
{
    assert forall|i: int| 0 <= i < (x + y).len() implies #[trigger] fix_fits((x + y)[i], b) by {
        if i < x.len() {
            assert(fix_fits(x[i], b));
        } else {
            assert(fix_fits(y[i - x.len()], b));
        }
    }
}

proof fn lemma_fixes_of_one(s: Seq<IssueView>, o: Option<IssueView>, b: Seq<u8>)
    requires
        all_fit(fixes_of(s), b),
        o is Some && o->Some_0.fix is Some ==> fix_fits(o->Some_0.fix->Some_0, b),
    ensures
        all_fit(fixes_of(s + opt_seq(o)), b),
{
    lemma_fixes_of_concat(s, opt_seq(o));
    match o {
        Some(x) => {
            assert(seq![x].drop_last() =~= Seq::<IssueView>::empty());
            assert(seq![x].last() == x);
            assert(fixes_of(Seq::<IssueView>::empty()) =~= Seq::<FixView>::empty());
            match x.fix {
                Some(f) => {
                    assert(fixes_of(seq![x]) =~= seq![f]);
                    assert(fix_fits(seq![f][0], b));
                },
                None => {
                    assert(fixes_of(seq![x]) =~= Seq::<FixView>::empty());
                },
            }
            lemma_all_fit_concat(fixes_of(s), fixes_of(seq![x]), b);
        },
        None => {
            assert(s + opt_seq(o) =~= s);
        },
    }
}

/// In valid UTF-8, the byte after an ASCII byte starts a character.
proof fn lemma_not_continuation_after_ascii(b: Seq<u8>, i: int)
    requires
        valid_utf8(b),
        0 < i < b.len(),
        b[i - 1] < 0x80,
    ensures
        !is_continuation_byte(b[i]),
    decreases b.len(),
{
    reveal_with_fuel(valid_utf8, 2);
    let l = length_of_first_scalar(b);
    let p = pop_first_scalar(b);
    assert(valid_first_scalar(b));
    assert(1 <= l <= b.len());
    assert(p.len() == b.len() - l);
    if i - 1 < l {
        assert(i == 1);
        assert(l == 1);
        assert(p[0] == b[1]);
        assert(valid_utf8(p));
        assert(valid_first_scalar(p));
    } else {
        assert(p[i - l - 1] == b[i - 1]);
        assert(p[i - l] == b[i]);
        lemma_not_continuation_after_ascii(p, i - l);
    }
}

pub(crate) proof fn lemma_boundary_after_ascii(b: Seq<u8>, i: int)
    requires
        valid_utf8(b),
        0 < i <= b.len(),
        b[i - 1] < 0x80,
    ensures
        is_char_boundary(b, i),
{
    if i < b.len() {
        lemma_not_continuation_after_ascii(b, i);
        vstd::utf8::is_char_boundary_iff_not_is_continuation_byte(b, i);
    } else {
        vstd::utf8::is_char_boundary_start_end_of_seq(b);
    }
}

proof fn lemma_run_end(b: Seq<u8>, s: int, e: int)
    requires
        0 <= s <= e <= b.len(),
    ensures
        s <= leading_run_end(b, s, e) <= e,
        leading_run_end(b, s, e) > s ==> b[leading_run_end(b, s, e) - 1] == SPACE || b[leading_run_end(b, s, e) - 1] == TAB,
    decreases e - s,
{
    if s < e && (b[s] == SPACE || b[s] == TAB) {
        lemma_run_end(b, s + 1, e);
    }
}

proof fn lemma_indent_fixes_fit(b: Seq<u8>, sps: Seq<(int, int)>, style: IndentStyle, w: nat)
    requires
        valid_utf8(b),
        spans_ok(b, sps, 0),
        w > 0,
    ensures
        all_fit(fixes_of(indent_issues(b, sps, style, w)), b),
    decreases sps.len(),
{
    if sps.len() > 0 {
        let p = sps.drop_last();
        assert forall|j: int| 0 <= j < p.len() implies p[j] == sps[j] by {}
        lemma_indent_fixes_fit(b, p, style, w);
        let sp = sps.last();
        assert(sps[sps.len() - 1] == sp);
        lemma_run_end(b, sp.0, sp.1);
        let r = leading_run_end(b, sp.0, sp.1);
        if sp.0 == 0 || sp.0 == b.len() {
            vstd::utf8::is_char_boundary_start_end_of_seq(b);
        } else {
            lemma_boundary_after_ascii(b, sp.0);
        }
        if r > sp.0 {
            lemma_boundary_after_ascii(b, r);
        }
        lemma_fixes_of_one(indent_issues(b, p, style, w), indent_issue(b, sp, sps.len() - 1, style, w), b);
    } else {
        assert(fixes_of(seq![]) =~= Seq::<FixView>::empty());
    }
}

proof fn lemma_length_no_fixes(b: Seq<u8>, sps: Seq<(int, int)>, max: nat)
    ensures
        fixes_of(length_issues(b, sps, max)) == Seq::<FixView>::empty(),
    decreases sps.len(),
{
    if sps.len() > 0 {
        lemma_length_no_fixes(b, sps.drop_last(), max);
        let o = length_issue(b, sps.last(), sps.len() - 1, max);
        lemma_fixes_of_concat(length_issues(b, sps.drop_last(), max), opt_seq(o));
        if o is Some {
            assert(seq![o->Some_0].drop_last() =~= Seq::<IssueView>::empty());
            assert(fixes_of(Seq::<IssueView>::empty()) =~= Seq::<FixView>::empty());
            assert(fixes_of(opt_seq(o)) =~= Seq::<FixView>::empty());
        }
        assert(fixes_of(length_issues(b, sps, max)) =~= Seq::<FixView>::empty());
    }
}

proof fn lemma_tree_fixes_fit(b: Seq<u8>, ps: Seq<(SyntaxNode, bool)>, wildcard: bool)
    requires
        forall|m: int| 0 <= m < ps.len() ==> #[trigger] node_ok(ps[m].0, b),
    ensures
        all_fit(fixes_of(tree_issues(b, ps, wildcard)), b),
    decreases ps.len(),
{
    if ps.len() > 0 {
        let p = ps.drop_last();
        assert forall|m: int| 0 <= m < p.len() implies #[trigger] node_ok(p[m].0, b) by {
            assert(node_ok(ps[m].0, b));
        }
        lemma_tree_fixes_fit(b, p, wildcard);
        assert(node_ok(ps[ps.len() - 1].0, b));
        lemma_fixes_of_one(tree_issues(b, p, wildcard), crate::rules::tree_issue(b, ps.last(), wildcard), b);
    } else {
        assert(fixes_of(seq![]) =~= Seq::<FixView>::empty());
    }
}

/// Every fix of a lint pass lies within the source and on character
/// boundaries.
pub proof fn lemma_lint_fixes_fit(b: Seq<u8>, root: SyntaxNode, config: Config)
    requires
        valid_utf8(b),
        tree_fits(root, b),
        config.wf(),
    ensures
        all_fit(fixes_of(lint_spec(b, root, config)), b),
{
    let sps = line_spans(b);
    crate::text::lemma_line_spans_bounds(b);
    let t1 = tree_issues(b, placed(root, false), true);
    let t2 = tree_issues(b, placed(root, false), false);
    crate::tree::lemma_placed_ok(root, false, b);
    let l = length_issues(b, sps, config.max_line_length as nat);
    let d = indent_issues(b, sps, config.indent_style, config.indent_width as nat);
    lemma_tree_fixes_fit(b, placed(root, false), true);
    lemma_tree_fixes_fit(b, placed(root, false), false);
    lemma_length_no_fixes(b, sps, config.max_line_length as nat);
    lemma_indent_fixes_fit(b, sps, config.indent_style, config.indent_width as nat);
    lemma_fixes_of_concat(t1, t2);
    lemma_fixes_of_concat(t1 + t2, l);
    lemma_fixes_of_concat(t1 + t2 + l, d);
    lemma_all_fit_concat(fixes_of(t1), fixes_of(t2), b);
    assert(fixes_of(t1 + t2) + fixes_of(l) =~= fixes_of(t1 + t2));
    lemma_all_fit_concat(fixes_of(t1 + t2 + l), fixes_of(d), b);
}

/// Runs the four rules over `source` and its syntax tree and returns their
/// diagnostics: wildcard imports, empty statements, line length, indentation.
pub fn lint_java_source(source: &str, root: &SyntaxNode, config: &Config) -> (r: Vec<LintIssue>)
    requires
        tree_fits(*root, source.spec_bytes()),
        config.wf(),
    ensures
        issues_view(r@) == lint_spec(source.spec_bytes(), *root, *config),
{
    let mut issues: Vec<LintIssue> = Vec::new();
    collect_no_wildcard_imports(source, root, &mut issues);
    collect_no_empty_statements(source, root, &mut issues);
    collect_line_length(source, config.max_line_length, &mut issues);
    collect_indent_style(source, config.indent_style, config.indent_width, &mut issues);
    assert(issues_view(Seq::<LintIssue>::empty()) =~= Seq::<IssueView>::empty());
    assert(lint_spec(source.spec_bytes(), *root, *config) =~= Seq::<IssueView>::empty() + tree_issues(
        source.spec_bytes(),
        placed(*root, false),
        true,
    ) + tree_issues(source.spec_bytes(), placed(*root, false), false) + length_issues(
        source.spec_bytes(),
        line_spans(source.spec_bytes()),
        config.max_line_length as nat,
    ) + indent_issues(
        source.spec_bytes(),
        line_spans(source.spec_bytes()),
        config.indent_style,
        config.indent_width as nat,
    ));
    issues
}

/// Lints `source`, then applies every fix that the diagnostics carry.
/// Returns the rewritten text with the diagnostics found before rewriting.
pub fn fix_java_source(source: &str, root: &SyntaxNode, config: &Config) -> (r: (
    String,
    Vec<LintIssue>,
))
    requires
        tree_fits(*root, source.spec_bytes()),
        config.wf(),
    ensures
        issues_view(r.1@) == lint_spec(source.spec_bytes(), *root, *config),
        encode_utf8(r.0@) == patched(
            source.spec_bytes(),
            fixes_of(lint_spec(source.spec_bytes(), *root, *config)),
        ),
{
    let issues = lint_java_source(source, root, config);
    let ghost iv = issues_view(issues@);
    let mut fixes: Vec<Fix> = Vec::new();
    let mut i: usize = 0;
    while i < issues.len()
        invariant
            0 <= i <= issues@.len(),
            iv == issues_view(issues@),
            fixes_view(fixes@) == fixes_of(iv.subrange(0, i as int)),
        decreases issues@.len() - i,
    {
        let ghost before = fixes@;
        assert(iv.subrange(0, i + 1).drop_last() =~= iv.subrange(0, i as int));
        assert(iv.subrange(0, i + 1).last() == issues@[i as int]@);
        match &issues[i].fix {
            Some(f) => {
                fixes.push(copy_fix(f));
                assert(fixes_view(fixes@) =~= fixes_view(before) + seq![f@]);
            },
            None => {
                assert(fixes_view(fixes@) =~= fixes_view(before) + seq![]);
            },
        }
        i = i + 1;
    }
    assert(iv.subrange(0, i as int) =~= iv);
    proof {
        lemma_lint_fixes_fit(source.spec_bytes(), *root, *config);
    }
    let fixed = apply_fixes(source, fixes.as_slice());
    (fixed, issues)
}

/// Two lint passes over the same source, tree and configuration give the
/// same diagnostics.
pub proof fn lemma_lint_deterministic(
    source: &str,
    root: SyntaxNode,
    config: Config,
    first: Seq<LintIssue>,
    second: Seq<LintIssue>,
)
    requires
        issues_view(first) == lint_spec(source.spec_bytes(), root, config),
        issues_view(second) == lint_spec(source.spec_bytes(), root, config),
    ensures
        issues_view(first) == issues_view(second),
{
}

/// Fixes in ascending order, each ending before the next one starts.
pub open spec fn disjoint_ascending(fs: Seq<FixView>) -> bool {
    forall|i: int, j: int| 0 <= i < j < fs.len() ==> #[trigger] fs[i].end <= #[trigger] fs[j].start
}

proof fn lemma_indent_fixes_within(b: Seq<u8>, sps: Seq<(int, int)>, style: IndentStyle, w: nat)
    requires
        sps.len() > 0,
        spans_ok(b, sps, 0),
        crate::text::spans_ordered(sps),
    ensures
        disjoint_ascending(fixes_of(indent_issues(b, sps, style, w))),
        forall|i: int|
            0 <= i < fixes_of(indent_issues(b, sps, style, w)).len() ==> #[trigger] fixes_of(
                indent_issues(b, sps, style, w),
            )[i].end <= sps.last().1,
    decreases sps.len(),
{
    let p = sps.drop_last();
    let sp = sps.last();
    assert(sps[sps.len() - 1] == sp);
    lemma_run_end(b, sp.0, sp.1);
    let o = indent_issue(b, sp, sps.len() - 1, style, w);
    let prev = indent_issues(b, p, style, w);
    let fp = fixes_of(prev);
    lemma_fixes_of_concat(prev, opt_seq(o));
    let fo = fixes_of(opt_seq(o));
    assert(fixes_of(Seq::<IssueView>::empty()) =~= Seq::<FixView>::empty());
    if o is Some {
        assert(seq![o->Some_0].drop_last() =~= Seq::<IssueView>::empty());
        assert(seq![o->Some_0].last() == o->Some_0);
    }
    assert(forall|i: int| 0 <= i < fo.len() ==> #[trigger] fo[i].start == sp.0 && fo[i].end <= sp.1);
    assert(fo.len() <= 1);
    if p.len() > 0 {
        assert forall|j: int| 0 <= j < p.len() implies p[j] == sps[j] by {}
        assert(spans_ok(b, p, 0));
        assert(crate::text::spans_ordered(p));
        lemma_indent_fixes_within(b, p, style, w);
        assert(p.last() == sps[sps.len() - 2]);
        assert(p.last().1 < sp.0);
    } else {
        assert(indent_issues(b, p, style, w) =~= Seq::<IssueView>::empty());
        assert(fp =~= Seq::<FixView>::empty());
    }
    let all = fp + fo;
    assert forall|i: int, j: int| 0 <= i < j < all.len() implies #[trigger] all[i].end <= #[trigger] all[j].start by {
        if j < fp.len() {
            assert(all[i] == fp[i] && all[j] == fp[j]);
        } else {
            assert(all[j] == fo[j - fp.len()]);
            assert(i < fp.len());
            assert(all[i] == fp[i]);
        }
    }
    assert forall|i: int| 0 <= i < all.len() implies #[trigger] all[i].end <= sp.1 by {
        if i < fp.len() {
            assert(all[i] == fp[i]);
        } else {
            assert(all[i] == fo[i - fp.len()]);
        }
    }
}

/// The indentation rule's fixes never overlap: they come in ascending
/// order, each ending before the next starts.
pub proof fn lemma_indent_fixes_disjoint(b: Seq<u8>, style: IndentStyle, w: nat)
    ensures
        disjoint_ascending(fixes_of(indent_issues(b, line_spans(b), style, w))),
{
    crate::text::lemma_line_spans_bounds(b);
    crate::text::lemma_line_spans_ordered(b);
    if line_spans(b).len() > 0 {
        lemma_indent_fixes_within(b, line_spans(b), style, w);
    } else {
        assert(indent_issues(b, line_spans(b), style, w) =~= Seq::<IssueView>::empty());
        assert(fixes_of(Seq::<IssueView>::empty()) =~= Seq::<FixView>::empty());
    }
}

proof fn lemma_empty_fixes_within(b: Seq<u8>, ps: Seq<(SyntaxNode, bool)>, bound: int)
    requires
        forall|m: int| 0 <= m < ps.len() ==> #[trigger] node_ok(ps[m].0, b),
        forall|j: int, k: int|
            0 <= j < k < ps.len() && (#[trigger] ps[j]).0.children@.len() == 0 ==> ps[j].0.end_byte
                <= (#[trigger] ps[k]).0.start_byte,
        forall|m: int|
            0 <= m < ps.len() && (#[trigger] ps[m]).0.kind@ == ";"@ ==> ps[m].0.end_byte <= bound,
    ensures
        disjoint_ascending(fixes_of(tree_issues(b, ps, false))),
        forall|i: int|
            0 <= i < fixes_of(tree_issues(b, ps, false)).len() ==> {
                let f = #[trigger] fixes_of(tree_issues(b, ps, false))[i];
                &&& f.end <= bound
                &&& f.end == f.start + 1
                &&& b[f.start] == crate::rules::SEMICOLON
                &&& f.replacement.len() == 0
            },
    decreases ps.len(),
{
    assert(fixes_of(Seq::<IssueView>::empty()) =~= Seq::<FixView>::empty());
    if ps.len() == 0 {
        assert(tree_issues(b, ps, false) =~= Seq::<IssueView>::empty());
        return;
    }
    let p = ps.drop_last();
    let last = ps.last();
    assert(ps[ps.len() - 1] == last);
    assert forall|m: int| 0 <= m < p.len() implies #[trigger] p[m] == ps[m] by {}
    assert forall|m: int| 0 <= m < p.len() implies #[trigger] node_ok(p[m].0, b) by {
        assert(node_ok(ps[m].0, b));
    }
    let o = crate::rules::tree_issue(b, last, false);
    let prev = tree_issues(b, p, false);
    let fp = fixes_of(prev);
    lemma_fixes_of_concat(prev, opt_seq(o));
    let fo = fixes_of(opt_seq(o));
    if o is Some {
        assert(seq![o->Some_0].drop_last() =~= Seq::<IssueView>::empty());
        assert(seq![o->Some_0].last() == o->Some_0);
        assert(fo =~= seq![FixView { start: last.0.start_byte as int, end: last.0.end_byte as int, replacement: seq![] }]);
        assert(node_ok(ps[ps.len() - 1].0, b));
        assert forall|m: int| 0 <= m < p.len() && (#[trigger] p[m]).0.kind@ == ";"@ implies p[m].0.end_byte
            <= last.0.start_byte by {
            assert(node_ok(ps[m].0, b));
            assert(ps[m].0.end_byte <= ps[ps.len() - 1].0.start_byte);
        }
        lemma_empty_fixes_within(b, p, last.0.start_byte as int);
    } else {
        assert(fo =~= Seq::<FixView>::empty());
    }
    assert forall|m: int| 0 <= m < p.len() && (#[trigger] p[m]).0.kind@ == ";"@ implies p[m].0.end_byte
        <= bound by {
        assert(ps[m].0.end_byte <= bound);
    }
    lemma_empty_fixes_within(b, p, bound);
    let all = fp + fo;
    assert(fixes_of(tree_issues(b, ps, false)) == all);
    assert forall|i: int, j: int| 0 <= i < j < all.len() implies #[trigger] all[i].end <= #[trigger] all[j].start by {
        if j < fp.len() {
            assert(all[i] == fp[i] && all[j] == fp[j]);
        } else {
            assert(all[j] == fo[j - fp.len()]);
            assert(all[i] == fp[i]);
        }
    }
    assert forall|i: int| 0 <= i < all.len() implies ({
        let f = #[trigger] all[i];
        &&& f.end <= bound
        &&& f.end == f.start + 1
        &&& b[f.start] == crate::rules::SEMICOLON
        &&& f.replacement.len() == 0
    }) by {
        if i < fp.len() {
            assert(all[i] == fp[i]);
        } else {
            assert(all[i] == fo[i - fp.len()]);
        }
    }
}

/// The empty-statement rule's fixes never overlap: they come in ascending
/// order, each deletes exactly one `;` byte, and each ends before the next
/// starts.
pub proof fn lemma_empty_statement_fixes_disjoint(b: Seq<u8>, root: SyntaxNode)
    requires
        tree_fits(root, b),
    ensures
        disjoint_ascending(fixes_of(tree_issues(b, placed(root, false), false))),
        forall|i: int|
            0 <= i < fixes_of(tree_issues(b, placed(root, false), false)).len() ==> {
                let f = #[trigger] fixes_of(tree_issues(b, placed(root, false), false))[i];
                &&& f.end == f.start + 1
                &&& b[f.start] == crate::rules::SEMICOLON
                &&& f.replacement.len() == 0
            },
{
    let ps = placed(root, false);
    crate::tree::lemma_placed_ok(root, false, b);
    crate::tree::lemma_placed_order(root, false, b);
    assert forall|m: int| 0 <= m < ps.len() && (#[trigger] ps[m]).0.kind@ == ";"@ implies ps[m].0.end_byte
        <= b.len() by {
        assert(node_ok(ps[m].0, b));
    }
    lemma_empty_fixes_within(b, ps, b.len() as int);
}

} // verus!
