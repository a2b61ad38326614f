use vstd::prelude::*;
use vstd::string::StringSliceAdditionalSpecFns;
use vstd::utf8::{decode_utf8, is_continuation_byte, valid_utf8};

use crate::config::IndentStyle;
use crate::diagnostic::{
    empty_statement_rule, wildcard_rule, indent_rule, issues_view, line_length_rule, Fix, FixView, IssueView, LintIssue,
};
use crate::tree::{lemma_fits_node, placed, placed_children, statement_slot, tree_fits, SyntaxNode};
use crate::text::{
    blank_from, decimal, decimal_string, has_byte, leading_run_end, line_char_len,
    line_spans, line_spans_of, scalar_count, spans_view, ws_width, SPACE, TAB,
};

verus! {

pub open spec fn opt_seq(o: Option<IssueView>) -> Seq<IssueView> {
    match o {
        Some(x) => seq![x],
        None => seq![],
    }
}

/// The message of a line that is longer than allowed.
pub open spec fn length_message(max: nat, len: nat) -> Seq<char> {
    "Line exceeds "@ + decimal(max) + " characters (was "@ + decimal(len) + ")"@
}

/// The line-length diagnostic of the line `sp`, the `idx`-th (0-based).
pub open spec fn length_issue(b: Seq<u8>, sp: (int, int), idx: int, max: nat) -> Option<IssueView> {
    if line_char_len(b, sp) > max {
        Some(
            IssueView {
                rule_id: line_length_rule(),
                message: length_message(max, line_char_len(b, sp)),
                line: idx + 1,
                column: max + 1 as int,
                fix: None,
            },
        )
    } else {
        None
    }
}

/// The line-length diagnostics of the lines `sps`, in line order.
pub open spec fn length_issues(b: Seq<u8>, sps: Seq<(int, int)>, max: nat) -> Seq<IssueView>
    decreases sps.len(),
{
    if sps.len() == 0 {
        seq![]
    } else {
        length_issues(b, sps.drop_last(), max) + opt_seq(
            length_issue(b, sps.last(), sps.len() - 1, max),
        )
    }
}

pub open spec fn tabs(n: nat) -> Seq<char> {
    Seq::new(n, |i: int| '\t')
}

pub open spec fn spaces(n: nat) -> Seq<char> {
    Seq::new(n, |i: int| ' ')
}

/// A run of indentation with each tab widened to `w` spaces and each space kept.
pub open spec fn expand_tabs(run: Seq<u8>, w: nat) -> Seq<char>
    decreases run.len(),
{
    if run.len() == 0 {
        seq![]
    } else {
        expand_tabs(run.drop_last(), w) + if run.last() == TAB {
            spaces(w)
        } else {
            seq![' ']
        }
    }
}

/// The indentation diagnostic of the line `sp`, the `idx`-th (0-based).
pub open spec fn indent_issue(
    b: Seq<u8>,
    sp: (int, int),
    idx: int,
    style: IndentStyle,
    w: nat,
) -> Option<IssueView> {
    let r = leading_run_end(b, sp.0, sp.1);
    let k = r - sp.0;
    if k == 0 || blank_from(b, r, sp.1) {
        None
    } else {
        match style {
            IndentStyle::Tabs => if has_byte(b, sp.0, r, SPACE) {
                Some(
                    IssueView {
                        rule_id: indent_rule(),
                        message: "Use tabs for indentation"@,
                        line: idx + 1,
                        column: 1,
                        fix: if !has_byte(b, sp.0, r, TAB) && k % (w as int) == 0 {
                            Some(FixView { start: sp.0, end: r, replacement: tabs((k / (w as int)) as nat) })
                        } else {
                            None
                        },
                    },
                )
            } else {
                None
            },
            IndentStyle::Spaces => if has_byte(b, sp.0, r, TAB) {
                Some(
                    IssueView {
                        rule_id: indent_rule(),
                        message: "Use spaces for indentation"@,
                        line: idx + 1,
                        column: 1,
                        fix: Some(
                            FixView {
                                start: sp.0,
                                end: r,
                                replacement: expand_tabs(b.subrange(sp.0, r), w),
                            },
                        ),
                    },
                )
            } else {
                None
            },
        }
    }
}

/// The indentation diagnostics of the lines `sps`, in line order.
pub open spec fn indent_issues(
    b: Seq<u8>,
    sps: Seq<(int, int)>,
    style: IndentStyle,
    w: nat,
) -> Seq<IssueView>
    decreases sps.len(),
{
    if sps.len() == 0 {
        seq![]
    } else {
        indent_issues(b, sps.drop_last(), style, w) + opt_seq(
            indent_issue(b, sps.last(), sps.len() - 1, style, w),
        )
    }
}

fn is_continuation(c: u8) -> (r: bool)
    ensures
        r == is_continuation_byte(c),
{
    0x80 <= c && c <= 0xbf
}

/// Counts the Unicode scalar values in `bytes[s..e]`.
fn scalar_count_of(bytes: &[u8], s: usize, e: usize) -> (n: usize)
    requires
        s <= e <= bytes@.len(),
    ensures
        n == scalar_count(bytes@.subrange(s as int, e as int)),
{
    let mut n: usize = 0;
    let mut j: usize = s;
    while j < e
        invariant
            s <= j <= e <= bytes@.len(),
            n == scalar_count(bytes@.subrange(s as int, j as int)),
            n <= j - s,
        decreases e - j,
    {
        assert(bytes@.subrange(s as int, j + 1).drop_last() =~= bytes@.subrange(s as int, j as int));
        if !is_continuation(bytes[j]) {
            n = n + 1;
        }
        j = j + 1;
    }
    n
}

/// Builds "Line exceeds {max} characters (was {len})".
fn length_message_of(max: usize, len: usize) -> (r: String)
    ensures
        r@ == length_message(max as nat, len as nat),
{
    let mut m = String::from_str("Line exceeds ");
    m.append(decimal_string(max).as_str());
    m.append(" characters (was ");
    m.append(decimal_string(len).as_str());
    m.append(")");
    m
}

/// Appends one issue for each line of `source` longer than `max_len` scalar
/// values, in line order.
pub fn collect_line_length(source: &str, max_len: u16, out: &mut Vec<LintIssue>)
    ensures
        issues_view(final(out)@) == issues_view(old(out)@) + length_issues(
            source.spec_bytes(),
            line_spans(source.spec_bytes()),
            max_len as nat,
        ),
{
    let bytes = source.as_bytes();
    let spans = line_spans_of(bytes);
    let ghost b = bytes@;
    let ghost sps = line_spans(b);
    proof {
        crate::text::lemma_line_spans_bounds(b);
    }
    let max: usize = max_len as usize;
    let mut li: usize = 0;
    while li < spans.len()
        invariant
            b == bytes@,
            b == source.spec_bytes(),
            sps == line_spans(b),
            spans_view(spans@) == sps,
            crate::text::spans_ok(b, sps, 0),
            0 <= li <= spans@.len(),
            max == max_len as usize,
            issues_view(out@) == issues_view(old(out)@) + length_issues(b, sps.subrange(0, li as int), max as nat),
        decreases spans@.len() - li,
    {
        let (s, e) = spans[li];
        assert(sps[li as int] == (s as int, e as int));
        let n = scalar_count_of(bytes, s, e);
        let ghost before = out@;
        assert(sps.subrange(0, li + 1).drop_last() =~= sps.subrange(0, li as int));
        if n > max {
            out.push(LintIssue {
                rule_id: "max-line-length",
                message: length_message_of(max, n),
                line: li + 1,
                column: max + 1,
                fix: None,
            });
            assert(issues_view(out@) =~= issues_view(before) + seq![out@.last()@]);
        } else {
            assert(issues_view(out@) =~= issues_view(before) + seq![]);
        }
        li = li + 1;
    }
    assert(sps.subrange(0, li as int) =~= sps);
}

/// The width of the whitespace character at `bytes[i]`, within `bytes[..e]`.
fn ws_width_of(bytes: &[u8], i: usize, e: usize) -> (w: usize)
    requires
        i < e <= bytes@.len(),
    ensures
        w as int == ws_width(bytes@, i as int, e as int),
{
    let c = bytes[i];
    if c == 9 || c == 10 || c == 11 || c == 12 || c == 13 || c == 32 {
        1
    } else if e - i > 1 && c == 0xC2 && (bytes[i + 1] == 0x85 || bytes[i + 1] == 0xA0) {
        2
    } else if e - i > 2 {
        let c1 = bytes[i + 1];
        let c2 = bytes[i + 2];
        if (c == 0xE1 && c1 == 0x9A && c2 == 0x80) || (c == 0xE2 && c1 == 0x80 && (c2 <= 0x8A
            || c2 == 0xA8 || c2 == 0xA9 || c2 == 0xAF)) || (c == 0xE2 && c1 == 0x81 && c2 == 0x9F)
            || (c == 0xE3 && c1 == 0x80 && c2 == 0x80) {
            3
        } else {
            0
        }
    } else {
        0
    }
}

/// Whether `bytes[i..e]` holds whitespace characters only.
fn is_blank(bytes: &[u8], i: usize, e: usize) -> (r: bool)
    requires
        i <= e <= bytes@.len(),
    ensures
        r == blank_from(bytes@, i as int, e as int),
{
    let mut j: usize = i;
    while j < e
        invariant
            i <= j <= e <= bytes@.len(),
            blank_from(bytes@, i as int, e as int) == blank_from(bytes@, j as int, e as int),
        decreases e - j,
    {
        let w = ws_width_of(bytes, j, e);
        if w == 0 {
            return false;
        }
        j = j + w;
    }
    true
}

/// `n` tab characters.
fn tab_string(n: usize) -> (r: String)
    ensures
        r@ == tabs(n as nat),
{
    proof {
        reveal_strlit("\t");
        assert("\t"@ =~= seq!['\t']);
    }
    let mut r = String::new();
    let mut j: usize = 0;
    while j < n
        invariant
            j <= n,
            r@ == tabs(j as nat),
            "\t"@ == seq!['\t'],
        decreases n - j,
    {
        r.append("\t");
        assert(r@ =~= tabs((j + 1) as nat));
        j = j + 1;
    }
    r
}

/// The run `bytes[s..e]` with every tab widened to `w` spaces.
fn expanded_run(bytes: &[u8], s: usize, e: usize, w: usize) -> (r: String)
    requires
        s <= e <= bytes@.len(),
    ensures
        r@ == expand_tabs(bytes@.subrange(s as int, e as int), w as nat),
{
    proof {
        reveal_strlit(" ");
        assert(" "@ =~= seq![' ']);
    }
    let mut r = String::new();
    let mut j: usize = s;
    while j < e
        invariant
            s <= j <= e <= bytes@.len(),
            r@ == expand_tabs(bytes@.subrange(s as int, j as int), w as nat),
            " "@ == seq![' '],
        decreases e - j,
    {
        let ghost prev = r@;
        assert(bytes@.subrange(s as int, j + 1).drop_last() =~= bytes@.subrange(s as int, j as int));
        if bytes[j] == TAB {
            let mut k: usize = 0;
            while k < w
                invariant
                    k <= w,
                    r@ == prev + spaces(k as nat),
                    " "@ == seq![' '],
                decreases w - k,
            {
                r.append(" ");
                assert(r@ =~= prev + spaces((k + 1) as nat));
                k = k + 1;
            }
        } else {
            r.append(" ");
            assert(r@ =~= prev + seq![' ']);
        }
        j = j + 1;
    }
    r
}

/// The indentation diagnostic of the line `bytes[s..e]`, the `idx`-th.
fn indent_issue_of(
    bytes: &[u8],
    s: usize,
    e: usize,
    idx: usize,
    style: IndentStyle,
    indent_width: u16,
) -> (r: Option<LintIssue>)
    requires
        s <= e <= bytes@.len(),
        idx < usize::MAX,
        indent_width > 0,
    ensures
        opt_seq(
            match r {
                Some(i) => Some(i@),
                None => None,
            },
        ) == opt_seq(indent_issue(bytes@, (s as int, e as int), idx as int, style, indent_width as nat)),
{
    let ghost b = bytes@;
    let mut r: usize = s;
    let mut has_space = false;
    let mut has_tab = false;
    while r < e && (bytes[r] == SPACE || bytes[r] == TAB)
        invariant
            s <= r <= e <= bytes@.len(),
            b == bytes@,
            leading_run_end(b, s as int, e as int) == leading_run_end(b, r as int, e as int),
            has_space == has_byte(b, s as int, r as int, SPACE),
            has_tab == has_byte(b, s as int, r as int, TAB),
        decreases e - r,
    {
        if bytes[r] == SPACE {
            has_space = true;
        } else {
            has_tab = true;
        }
        r = r + 1;
        assert(has_space == has_byte(b, s as int, r as int, SPACE));
        assert(has_tab == has_byte(b, s as int, r as int, TAB));
    }
    let k = r - s;
    if k == 0 || is_blank(bytes, r, e) {
        return None;
    }
    let w = indent_width as usize;
    match style {
        IndentStyle::Tabs => {
            if has_space {
                let fix = if !has_tab && k % w == 0 {
                    Some(Fix { start_byte: s, end_byte: r, replacement: tab_string(k / w) })
                } else {
                    None
                };
                Some(LintIssue {
                    rule_id: "indent-style",
                    message: String::from_str("Use tabs for indentation"),
                    line: idx + 1,
                    column: 1,
                    fix,
                })
            } else {
                None
            }
        },
        IndentStyle::Spaces => {
            if has_tab {
                Some(LintIssue {
                    rule_id: "indent-style",
                    message: String::from_str("Use spaces for indentation"),
                    line: idx + 1,
                    column: 1,
                    fix: Some(Fix { start_byte: s, end_byte: r, replacement: expanded_run(bytes, s, r, w) }),
                })
            } else {
                None
            }
        },
    }
}

/// Appends one issue for each line of `source` whose indentation goes against
/// `style`, in line order; blank lines are skipped.
pub fn collect_indent_style(
    source: &str,
    style: IndentStyle,
    indent_width: u16,
    out: &mut Vec<LintIssue>,
)
    requires
        indent_width > 0,
    ensures
        issues_view(final(out)@) == issues_view(old(out)@) + indent_issues(
            source.spec_bytes(),
            line_spans(source.spec_bytes()),
            style,
            indent_width as nat,
        ),
{
    let bytes = source.as_bytes();
    let spans = line_spans_of(bytes);
    let ghost b = bytes@;
    let ghost sps = line_spans(b);
    proof {
        crate::text::lemma_line_spans_bounds(b);
    }
    let mut li: usize = 0;
    while li < spans.len()
        invariant
            b == bytes@,
            b == source.spec_bytes(),
            sps == line_spans(b),
            spans_view(spans@) == sps,
            crate::text::spans_ok(b, sps, 0),
            0 <= li <= spans@.len(),
            indent_width > 0,
            issues_view(out@) == issues_view(old(out)@) + indent_issues(
                b,
                sps.subrange(0, li as int),
                style,
                indent_width as nat,
            ),
        decreases spans@.len() - li,
    {
        let (s, e) = spans[li];
        assert(sps[li as int] == (s as int, e as int));
        let ghost before = out@;
        assert(sps.subrange(0, li + 1).drop_last() =~= sps.subrange(0, li as int));
        match indent_issue_of(bytes, s, e, li, style, indent_width) {
            Some(issue) => {
                out.push(issue);
                assert(issues_view(out@) =~= issues_view(before) + seq![out@.last()@]);
            },
            None => {
                assert(issues_view(out@) =~= issues_view(before) + seq![]);
            },
        }
        li = li + 1;
    }
    assert(sps.subrange(0, li as int) =~= sps);
}

pub const DOT: u8 = 46;

pub const STAR: u8 = 42;

pub const SEMICOLON: u8 = 59;

/// The bytes `[s, e)` hold a dot followed by a star.
pub open spec fn has_wildcard(b: Seq<u8>, s: int, e: int) -> bool
    decreases e - s,
{
    if e - s < 2 {
        false
    } else {
        has_wildcard(b, s, e - 1) || (b[e - 2] == DOT && b[e - 1] == STAR)
    }
}

/// The wildcard-import diagnostic of node `n`: an import declaration whose
/// text holds `.*`.
pub open spec fn wildcard_issue(b: Seq<u8>, n: SyntaxNode) -> Option<IssueView> {
    if n.kind@ == "import_declaration"@ && has_wildcard(b, n.start_byte as int, n.end_byte as int) {
        Some(
            IssueView {
                rule_id: wildcard_rule(),
                message: "Avoid wildcard imports (use explicit classes)"@,
                line: n.row + 1,
                column: n.column + 1,
                fix: None,
            },
        )
    } else {
        None
    }
}

/// The empty-statement diagnostic of node `n`: a bare `;` token that stands
/// where a statement goes; its fix deletes the token.
pub open spec fn empty_statement_issue(b: Seq<u8>, n: SyntaxNode, slot: bool) -> Option<IssueView> {
    if slot && n.kind@ == ";"@ && n.end_byte == n.start_byte + 1 && b[n.start_byte as int] == SEMICOLON {
        Some(
            IssueView {
                rule_id: empty_statement_rule(),
                message: "Remove unnecessary empty statement"@,
                line: n.row + 1,
                column: n.column + 1,
                fix: Some(
                    FixView {
                        start: n.start_byte as int,
                        end: n.end_byte as int,
                        replacement: seq![],
                    },
                ),
            },
        )
    } else {
        None
    }
}

/// The diagnostic of one of the two tree rules for a placed node.
pub open spec fn tree_issue(b: Seq<u8>, p: (SyntaxNode, bool), wildcard: bool) -> Option<IssueView> {
    if wildcard {
        wildcard_issue(b, p.0)
    } else {
        empty_statement_issue(b, p.0, p.1)
    }
}

/// The diagnostics of one of the two tree rules over the placed nodes `ps`,
/// in order.
pub open spec fn tree_issues(b: Seq<u8>, ps: Seq<(SyntaxNode, bool)>, wildcard: bool) -> Seq<
    IssueView,
>
    decreases ps.len(),
{
    if ps.len() == 0 {
        seq![]
    } else {
        tree_issues(b, ps.drop_last(), wildcard) + opt_seq(tree_issue(b, ps.last(), wildcard))
    }
}

/// The diagnostics of concatenated node sequences are concatenated.
pub proof fn lemma_tree_issues_concat(
    b: Seq<u8>,
    x: Seq<(SyntaxNode, bool)>,
    y: Seq<(SyntaxNode, bool)>,
    wildcard: bool,
)
    ensures
        tree_issues(b, x + y, wildcard) == tree_issues(b, x, wildcard) + tree_issues(b, y, wildcard),
    decreases y.len(),
{
    if y.len() == 0 {
        assert(x + y =~= x);
        assert(tree_issues(b, x, wildcard) + seq![] =~= tree_issues(b, x, wildcard));
    } else {
        assert((x + y).drop_last() =~= x + y.drop_last());
        lemma_tree_issues_concat(b, x, y.drop_last(), wildcard);
        assert(tree_issues(b, x + y, wildcard) =~= tree_issues(b, x, wildcard) + tree_issues(b, y, wildcard));
    }
}

/// Whether `bytes[s..e]` holds a dot followed by a star.
fn has_wildcard_of(bytes: &[u8], s: usize, e: usize) -> (r: bool)
    requires
        s <= e <= bytes@.len(),
    ensures
        r == has_wildcard(bytes@, s as int, e as int),
{
    let mut found = false;
    let mut k: usize = s;
    while k < e
        invariant
            s <= k <= e <= bytes@.len(),
            found == has_wildcard(bytes@, s as int, k as int),
        decreases e - k,
    {
        if k > s && bytes[k - 1] == DOT && bytes[k] == STAR {
            found = true;
        }
        k = k + 1;
    }
    found
}

fn kind_is(kind: &String, name: &str) -> (r: bool)
    ensures
        r == (kind@ == name@),
{
    *kind == String::from_str(name)
}

/// Whether the `i`-th of `count` children of a node of kind `parent` stands
/// where a statement goes.
fn is_statement_slot(parent: &String, i: usize, count: usize) -> (r: bool)
    ensures
        r == statement_slot(parent@, i as int, count as int),
{
    kind_is(parent, "program") || kind_is(parent, "block") || kind_is(parent, "constructor_body")
        || kind_is(
        parent,
        "switch_block_statement_group",
    ) || kind_is(parent, "if_statement") || kind_is(parent, "while_statement") || kind_is(
        parent,
        "enhanced_for_statement",
    ) || kind_is(parent, "labeled_statement") || (kind_is(parent, "for_statement") && count > 0
        && i == count - 1) || (kind_is(parent, "do_statement") && i == 1)
}

/// Walks the tree rooted at `node` depth first, each node before its
/// children, appending the diagnostics of one tree rule; `slot` tells
/// whether `node` stands where a statement goes.
fn collect_tree(
    bytes: &[u8],
    node: &SyntaxNode,
    slot: bool,
    wildcard: bool,
    out: &mut Vec<LintIssue>,
)
    requires
        tree_fits(*node, bytes@),
    ensures
        issues_view(final(out)@) == issues_view(old(out)@) + tree_issues(
            bytes@,
            placed(*node, slot),
            wildcard,
        ),
    decreases node,
{
    let ghost me = (*node, slot);
    proof {
        lemma_fits_node(*node, bytes@);
        assert(seq![me].drop_last() =~= Seq::<(SyntaxNode, bool)>::empty());
        assert(seq![me].last() == me);
        assert(tree_issues(bytes@, Seq::<(SyntaxNode, bool)>::empty(), wildcard) =~= Seq::<
            IssueView,
        >::empty());
        assert(tree_issues(bytes@, seq![me], wildcard) =~= seq![] + opt_seq(
            tree_issue(bytes@, me, wildcard),
        ));
    }
    let ghost start = out@;
    let found = if wildcard {
        kind_is(&node.kind, "import_declaration") && has_wildcard_of(
            bytes,
            node.start_byte,
            node.end_byte,
        )
    } else {
        slot && kind_is(&node.kind, ";") && node.end_byte - node.start_byte == 1
            && bytes[node.start_byte] == SEMICOLON
    };
    if found {
        let fix = if wildcard {
            None
        } else {
            Some(Fix { start_byte: node.start_byte, end_byte: node.end_byte, replacement: String::new() })
        };
        let issue = if wildcard {
            LintIssue {
                rule_id: "no-wildcard-imports",
                message: String::from_str("Avoid wildcard imports (use explicit classes)"),
                line: node.row + 1,
                column: node.column + 1,
                fix,
            }
        } else {
            LintIssue {
                rule_id: "no-empty-statement",
                message: String::from_str("Remove unnecessary empty statement"),
                line: node.row + 1,
                column: node.column + 1,
                fix,
            }
        };
        out.push(issue);
        assert(issues_view(out@) =~= issues_view(start) + seq![out@.last()@]);
    } else {
        assert(issues_view(out@) =~= issues_view(start) + seq![]);
    }
    assert(issues_view(out@) == issues_view(old(out)@) + tree_issues(bytes@, seq![me], wildcard));
    let ghost kids = node.children@;
    let ghost kind = node.kind@;
    let count = node.children.len();
    let mut i: usize = 0;
    while i < count
        invariant
            0 <= i <= kids.len(),
            count == kids.len(),
            kids == node.children@,
            kind == node.kind@,
            forall|j: int| 0 <= j < kids.len() ==> #[trigger] tree_fits(kids[j], bytes@),
            issues_view(out@) == issues_view(old(out)@) + tree_issues(
                bytes@,
                seq![me] + placed_children(kids.subrange(0, i as int), kind, count as int),
                wildcard,
            ),
        decreases kids.len() - i,
    {
        proof {
            assert(decreases_to!(*node => node.children@[i as int]));
            assert(tree_fits(kids[i as int], bytes@));
        }
        let child_slot = is_statement_slot(&node.kind, i, count);
        collect_tree(bytes, &node.children[i], child_slot, wildcard, out);
        proof {
            let p = placed_children(kids.subrange(0, i as int), kind, count as int);
            let q = placed(kids[i as int], child_slot);
            assert(kids.subrange(0, i + 1).drop_last() =~= kids.subrange(0, i as int));
            assert(kids.subrange(0, i + 1).last() == kids[i as int]);
            assert(placed_children(kids.subrange(0, i + 1), kind, count as int) == p + q);
            lemma_tree_issues_concat(bytes@, seq![me] + p, q, wildcard);
            assert(seq![me] + (p + q) =~= (seq![me] + p) + q);
        }
        i = i + 1;
    }
    assert(kids.subrange(0, i as int) =~= kids);
}

/// Appends one issue for each import declaration of the tree whose text
/// holds `.*`, in depth-first pre-order.
pub fn collect_no_wildcard_imports(source: &str, root: &SyntaxNode, out: &mut Vec<LintIssue>)
    requires
        tree_fits(*root, source.spec_bytes()),
    ensures
        issues_view(final(out)@) == issues_view(old(out)@) + tree_issues(
            source.spec_bytes(),
            placed(*root, false),
            true,
        ),
{
    collect_tree(source.as_bytes(), root, false, true, out);
}

/// Appends one issue, with a fix deleting it, for each bare `;` of the tree
/// that stands where a statement goes, in depth-first pre-order.
pub fn collect_no_empty_statements(source: &str, root: &SyntaxNode, out: &mut Vec<LintIssue>)
    requires
        tree_fits(*root, source.spec_bytes()),
    ensures
        issues_view(final(out)@) == issues_view(old(out)@) + tree_issues(
            source.spec_bytes(),
            placed(*root, false),
            false,
        ),
{
    collect_tree(source.as_bytes(), root, false, false, out);
}

/// Under tab indentation, a non-blank line indented by spaces alone gets
/// exactly one issue in the rule's output; it carries a fix of `count / width` tabs exactly when the count
/// of spaces is a multiple of the width.
pub proof fn lemma_tabs_fix_gating(b: Seq<u8>, sp: (int, int), idx: int, w: nat)
    requires
        0 <= idx < line_spans(b).len(),
        sp == line_spans(b)[idx],
        w > 0,
        leading_run_end(b, sp.0, sp.1) > sp.0,
        !blank_from(b, leading_run_end(b, sp.0, sp.1), sp.1),
        !has_byte(b, sp.0, leading_run_end(b, sp.0, sp.1), TAB),
    ensures
        ({
            let k = leading_run_end(b, sp.0, sp.1) - sp.0;
            let o = indent_issue(b, sp, idx, IndentStyle::Tabs, w);
            &&& o is Some
            &&& (k % (w as int) == 0 ==> o->Some_0.fix == Some(
                FixView {
                    start: sp.0,
                    end: leading_run_end(b, sp.0, sp.1),
                    replacement: tabs((k / (w as int)) as nat),
                },
            ))
            &&& (k % (w as int) != 0 ==> o->Some_0.fix is None)
            &&& on_line(indent_issues(b, line_spans(b), IndentStyle::Tabs, w), idx + 1) == seq![
                o->Some_0,
            ]
        }),
{
    lemma_run_has_space(b, sp.0, sp.1);
    lemma_indent_per_line(b, line_spans(b), IndentStyle::Tabs, w, idx);
}

/// A run of spaces and tabs without a tab holds a space, if it is not empty.
proof fn lemma_run_has_space(b: Seq<u8>, s: int, e: int)
    requires
        leading_run_end(b, s, e) > s,
        !has_byte(b, s, leading_run_end(b, s, e), TAB),
    ensures
        has_byte(b, s, leading_run_end(b, s, e), SPACE),
{
    lemma_run_bytes(b, s, e, leading_run_end(b, s, e));
}

/// A non-empty prefix of the leading run that holds no tab holds a space.
proof fn lemma_run_bytes(b: Seq<u8>, s: int, e: int, r: int)
    requires
        s < r <= leading_run_end(b, s, e),
        !has_byte(b, s, r, TAB),
    ensures
        has_byte(b, s, r, SPACE),
    decreases r - s,
{
    lemma_run_prefix(b, s, e, r - 1);
    if r - 1 > s {
        lemma_run_bytes(b, s, e, r - 1);
    }
}

/// Every byte of the leading run is a space or a tab.
proof fn lemma_run_prefix(b: Seq<u8>, s: int, e: int, j: int)
    requires
        s <= j < leading_run_end(b, s, e),
    ensures
        b[j] == SPACE || b[j] == TAB,
    decreases e - s,
{
    if s < e && (b[s] == SPACE || b[s] == TAB) {
        if j > s {
            lemma_run_prefix(b, s + 1, e, j);
        }
    }
}

/// Under space indentation, a non-blank line whose leading run holds a tab
/// always gets exactly one issue in the rule's output, with a fix, whatever else the run holds.
pub proof fn lemma_spaces_fix_total(b: Seq<u8>, sp: (int, int), idx: int, w: nat)
    requires
        0 <= idx < line_spans(b).len(),
        sp == line_spans(b)[idx],
        has_byte(b, sp.0, leading_run_end(b, sp.0, sp.1), TAB),
        !blank_from(b, leading_run_end(b, sp.0, sp.1), sp.1),
    ensures
        ({
            let o = indent_issue(b, sp, idx, IndentStyle::Spaces, w);
            &&& o is Some
            &&& o->Some_0.fix == Some(
                FixView {
                    start: sp.0,
                    end: leading_run_end(b, sp.0, sp.1),
                    replacement: expand_tabs(b.subrange(sp.0, leading_run_end(b, sp.0, sp.1)), w),
                },
            )
            &&& on_line(indent_issues(b, line_spans(b), IndentStyle::Spaces, w), idx + 1) == seq![
                o->Some_0,
            ]
        }),
{
    lemma_indent_per_line(b, line_spans(b), IndentStyle::Spaces, w, idx);
    if leading_run_end(b, sp.0, sp.1) == sp.0 {
        assert(!has_byte(b, sp.0, sp.0, TAB));
    }
}

/// The bytes of each line of valid UTF-8 text are valid UTF-8.
pub proof fn lemma_line_valid(b: Seq<u8>, idx: int)
    requires
        valid_utf8(b),
        0 <= idx < line_spans(b).len(),
    ensures
        valid_utf8(b.subrange(line_spans(b)[idx].0, line_spans(b)[idx].1)),
{
    let sp = line_spans(b)[idx];
    crate::text::lemma_line_spans_bounds(b);
    assert(0 <= line_spans(b)[idx].0 <= line_spans(b)[idx].1 <= b.len());
    vstd::utf8::is_char_boundary_start_end_of_seq(b);
    if sp.1 < b.len() {
        vstd::utf8::is_char_boundary_iff_not_is_continuation_byte(b, sp.1);
    }
    if sp.0 > 0 {
        crate::session::lemma_boundary_after_ascii(b, sp.0);
    }
    vstd::utf8::valid_utf8_split(b, sp.1);
    let pre = b.subrange(0, sp.1);
    crate::patch::lemma_prefix_boundary(b, sp.1, sp.0);
    vstd::utf8::valid_utf8_split(pre, sp.0);
    assert(pre.subrange(sp.0, pre.len() as int) =~= b.subrange(sp.0, sp.1));
}

/// In the rule's output, a line of valid UTF-8 text is flagged for length
/// exactly when the number of Unicode scalar values it decodes to exceeds
/// the limit, however many bytes encode them, and the message reports that
/// number.
pub proof fn lemma_line_length_counts_scalars(b: Seq<u8>, sp: (int, int), idx: int, max: nat)
    requires
        valid_utf8(b),
        0 <= idx < line_spans(b).len(),
        sp == line_spans(b)[idx],
    ensures
        on_line(length_issues(b, line_spans(b), max), idx + 1) == opt_seq(length_issue(b, sp, idx, max)),
        length_issue(b, sp, idx, max) is None <==> decode_utf8(b.subrange(sp.0, sp.1)).len() <= max,
        length_issue(b, sp, idx, max) is Some ==> length_issue(b, sp, idx, max)->Some_0.message
            == length_message(max, decode_utf8(b.subrange(sp.0, sp.1)).len()),
{
    lemma_line_valid(b, idx);
    crate::text::lemma_scalar_count_decode(b.subrange(sp.0, sp.1));
    lemma_length_per_line(b, line_spans(b), max, idx);
}

/// The issues of `s` reported on line `line` (1-based), in order.
pub open spec fn on_line(s: Seq<IssueView>, line: int) -> Seq<IssueView>
    decreases s.len(),
{
    if s.len() == 0 {
        seq![]
    } else {
        on_line(s.drop_last(), line) + if s.last().line == line {
            seq![s.last()]
        } else {
            seq![]
        }
    }
}

proof fn lemma_on_line_concat(x: Seq<IssueView>, y: Seq<IssueView>, line: int)
    ensures
        on_line(x + y, line) == on_line(x, line) + on_line(y, line),
    decreases y.len(),
{
    if y.len() == 0 {
        assert(x + y =~= x);
        assert(on_line(x, line) + on_line(y, line) =~= on_line(x, line));
    } else {
        assert((x + y).drop_last() =~= x + y.drop_last());
        lemma_on_line_concat(x, y.drop_last(), line);
        assert(on_line(x + y, line) =~= on_line(x, line) + on_line(y, line));
    }
}

proof fn lemma_on_line_one(o: Option<IssueView>, line: int)
    ensures
        on_line(opt_seq(o), line) == if o is Some && o->Some_0.line == line {
            opt_seq(o)
        } else {
            seq![]
        },
{
    assert(on_line(Seq::<IssueView>::empty(), line) =~= Seq::<IssueView>::empty());
    if o is Some {
        assert(seq![o->Some_0].drop_last() =~= Seq::<IssueView>::empty());
        assert(seq![o->Some_0].last() == o->Some_0);
        assert(on_line(opt_seq(o), line) =~= if o->Some_0.line == line {
            opt_seq(o)
        } else {
            seq![]
        });
    }
}

proof fn lemma_no_issue_on_line(s: Seq<IssueView>, line: int)
    requires
        forall|i: int| 0 <= i < s.len() ==> (#[trigger] s[i]).line < line,
    ensures
        on_line(s, line) == Seq::<IssueView>::empty(),
    decreases s.len(),
{
    if s.len() > 0 {
        assert(s[s.len() - 1].line < line);
        assert forall|i: int| 0 <= i < s.drop_last().len() implies (#[trigger] s.drop_last()[i]).line < line by {
            assert(s[i].line < line);
        }
        lemma_no_issue_on_line(s.drop_last(), line);
        assert(on_line(s, line) =~= Seq::<IssueView>::empty());
    }
}

proof fn lemma_length_lines(b: Seq<u8>, sps: Seq<(int, int)>, max: nat)
    ensures
        forall|i: int|
            0 <= i < length_issues(b, sps, max).len() ==> 1 <= (#[trigger] length_issues(b, sps, max)[i]).line
                <= sps.len(),
    decreases sps.len(),
{
    if sps.len() > 0 {
        let p = sps.drop_last();
        lemma_length_lines(b, p, max);
        let x = length_issues(b, p, max);
        let y = opt_seq(length_issue(b, sps.last(), sps.len() - 1, max));
        assert forall|i: int| 0 <= i < (x + y).len() implies 1 <= (#[trigger] (x + y)[i]).line <= sps.len() by {
            if i < x.len() {
                assert((x + y)[i] == x[i]);
            } else {
                assert((x + y)[i] == y[i - x.len()]);
            }
        }
    }
}

/// The line-length rule reports on line `k + 1` exactly that line's own
/// diagnostic: one issue when it is too long, none otherwise.
pub proof fn lemma_length_per_line(b: Seq<u8>, sps: Seq<(int, int)>, max: nat, k: int)
    requires
        0 <= k < sps.len(),
    ensures
        on_line(length_issues(b, sps, max), k + 1) == opt_seq(length_issue(b, sps[k], k, max)),
    decreases sps.len(),
{
    let p = sps.drop_last();
    let x = length_issues(b, p, max);
    let o = length_issue(b, sps.last(), sps.len() - 1, max);
    lemma_on_line_concat(x, opt_seq(o), k + 1);
    lemma_on_line_one(o, k + 1);
    if k == sps.len() - 1 {
        lemma_length_lines(b, p, max);
        lemma_no_issue_on_line(x, k + 1);
        assert(sps[k] == sps.last());
        assert(on_line(x, k + 1) + opt_seq(o) =~= opt_seq(o));
    } else {
        lemma_length_per_line(b, p, max, k);
        assert(p[k] == sps[k]);
        assert(on_line(x, k + 1) + seq![] =~= on_line(x, k + 1));
    }
}

proof fn lemma_indent_lines(b: Seq<u8>, sps: Seq<(int, int)>, style: IndentStyle, w: nat)
    ensures
        forall|i: int|
            0 <= i < indent_issues(b, sps, style, w).len() ==> 1 <= (#[trigger] indent_issues(b, sps, style, w)[i]).line
                <= sps.len(),
    decreases sps.len(),
{
    if sps.len() > 0 {
        let p = sps.drop_last();
        lemma_indent_lines(b, p, style, w);
        let x = indent_issues(b, p, style, w);
        let y = opt_seq(indent_issue(b, sps.last(), sps.len() - 1, style, w));
        assert forall|i: int| 0 <= i < (x + y).len() implies 1 <= (#[trigger] (x + y)[i]).line <= sps.len() by {
            if i < x.len() {
                assert((x + y)[i] == x[i]);
            } else {
                assert((x + y)[i] == y[i - x.len()]);
            }
        }
    }
}

/// The indentation rule reports on line `k + 1` exactly that line's own
/// diagnostic.
pub proof fn lemma_indent_per_line(b: Seq<u8>, sps: Seq<(int, int)>, style: IndentStyle, w: nat, k: int)
    requires
        0 <= k < sps.len(),
    ensures
        on_line(indent_issues(b, sps, style, w), k + 1) == opt_seq(indent_issue(b, sps[k], k, style, w)),
    decreases sps.len(),
{
    let p = sps.drop_last();
    let x = indent_issues(b, p, style, w);
    let o = indent_issue(b, sps.last(), sps.len() - 1, style, w);
    lemma_on_line_concat(x, opt_seq(o), k + 1);
    lemma_on_line_one(o, k + 1);
    if k == sps.len() - 1 {
        lemma_indent_lines(b, p, style, w);
        lemma_no_issue_on_line(x, k + 1);
        assert(sps[k] == sps.last());
        assert(on_line(x, k + 1) + opt_seq(o) =~= opt_seq(o));
    } else {
        lemma_indent_per_line(b, p, style, w, k);
        assert(p[k] == sps[k]);
        assert(on_line(x, k + 1) + seq![] =~= on_line(x, k + 1));
    }
}

} // verus!
