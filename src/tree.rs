use vstd::prelude::*;
use vstd::string::StringSliceAdditionalSpecFns;
use vstd::utf8::is_char_boundary;

verus! {

/// A node of a Java syntax tree: its grammar kind, the byte range it spans
/// in the source, its 0-based start position, and its children in order.
#[derive(Debug)]
pub struct SyntaxNode {
    pub kind: String,
    pub start_byte: usize,
    pub end_byte: usize,
    pub row: usize,
    pub column: usize,
    pub children: Vec<SyntaxNode>,
}

/// The nodes of the tree rooted at `n`, depth first, each before its
/// children, children left to right.
pub open spec fn preorder(n: SyntaxNode) -> Seq<SyntaxNode>
    decreases n,
{
    seq![n] + preorder_all(n.children@)
}

/// The pre-order nodes of the trees `s`, one tree after another.
pub open spec fn preorder_all(s: Seq<SyntaxNode>) -> Seq<SyntaxNode>
    decreases s,
{
    if s.len() == 0 {
        seq![]
    } else {
        preorder_all(s.drop_last()) + preorder(s.last())
    }
}

/// The children lie within the node, in order and without overlapping, and
/// a `;` token has no children.
pub open spec fn nested(n: SyntaxNode) -> bool {
    &&& forall|i: int|
        0 <= i < n.children@.len() ==> n.start_byte <= #[trigger] n.children@[i].start_byte
            && n.children@[i].start_byte <= n.children@[i].end_byte && n.children@[i].end_byte
            <= n.end_byte
    &&& forall|i: int, j: int|
        0 <= i < j < n.children@.len() ==> #[trigger] n.children@[i].end_byte
            <= #[trigger] n.children@[j].start_byte
    &&& (n.kind@ == ";"@ ==> n.children@.len() == 0)
}

/// The node spans a range of `b` between character boundaries, nests its
/// children, and its 1-based position can be represented.
pub open spec fn node_ok(n: SyntaxNode, b: Seq<u8>) -> bool {
    &&& n.start_byte <= n.end_byte <= b.len()
    &&& is_char_boundary(b, n.start_byte as int)
    &&& is_char_boundary(b, n.end_byte as int)
    &&& n.row < usize::MAX
    &&& n.column < usize::MAX
    &&& nested(n)
}

/// Every node of `ns` fits the source bytes `b`.
pub open spec fn all_ok(ns: Seq<SyntaxNode>, b: Seq<u8>) -> bool {
    forall|m: int| 0 <= m < ns.len() ==> #[trigger] node_ok(ns[m], b)
}

/// Every node of the tree rooted at `n` fits the source bytes `b`.
pub open spec fn tree_fits(n: SyntaxNode, b: Seq<u8>) -> bool {
    all_ok(preorder(n), b)
}

proof fn lemma_all_ok_concat(x: Seq<SyntaxNode>, y: Seq<SyntaxNode>, b: Seq<u8>)
    ensures
        all_ok(x + y, b) <==> all_ok(x, b) && all_ok(y, b),
{
    if all_ok(x, b) && all_ok(y, b) {
        assert forall|m: int| 0 <= m < (x + y).len() implies #[trigger] node_ok((x + y)[m], b) by {
            if m >= x.len() {
                assert((x + y)[m] == y[m - x.len()]);
            }
        }
    }
    if all_ok(x + y, b) {
        assert forall|m: int| 0 <= m < y.len() implies #[trigger] node_ok(y[m], b) by {
            assert((x + y)[m + x.len()] == y[m]);
        }
        assert forall|m: int| 0 <= m < x.len() implies #[trigger] node_ok(x[m], b) by {
            assert((x + y)[m] == x[m]);
        }
    }
}

/// The trees `s` all fit `b` exactly when their pre-order sequence does.
pub proof fn lemma_fits_all(s: Seq<SyntaxNode>, b: Seq<u8>)
    ensures
        all_ok(preorder_all(s), b) <==> forall|i: int| 0 <= i < s.len() ==> #[trigger] tree_fits(s[i], b),
    decreases s.len(),
{
    if s.len() > 0 {
        let p = s.drop_last();
        lemma_fits_all(p, b);
        lemma_all_ok_concat(preorder_all(p), preorder(s.last()), b);
        assert forall|i: int| 0 <= i < p.len() implies #[trigger] p[i] == s[i] by {}
        if forall|i: int| 0 <= i < s.len() ==> #[trigger] tree_fits(s[i], b) {
            assert(tree_fits(s[s.len() - 1], b));
            assert forall|i: int| 0 <= i < p.len() implies #[trigger] tree_fits(p[i], b) by {
                assert(tree_fits(s[i], b));
            }
        }
        if all_ok(preorder_all(s), b) {
            assert forall|i: int| 0 <= i < s.len() implies #[trigger] tree_fits(s[i], b) by {
                if i < p.len() {
                    assert(tree_fits(p[i], b));
                }
            }
        }
    }
}

/// A tree fits exactly when its root and all its children's trees fit.
pub proof fn lemma_fits_node(n: SyntaxNode, b: Seq<u8>)
    ensures
        tree_fits(n, b) <==> node_ok(n, b) && forall|i: int|
            0 <= i < n.children@.len() ==> #[trigger] tree_fits(n.children@[i], b),
{
    lemma_fits_all(n.children@, b);
    lemma_all_ok_concat(seq![n], preorder_all(n.children@), b);
    assert(all_ok(seq![n], b) == node_ok(n, b)) by {
        assert(seq![n][0] == n);
    }
}

/// Whether the children of `node` lie within it, in order, and whether a
/// `;` token is a leaf.
fn nested_exec(node: &SyntaxNode) -> (r: bool)
    ensures
        r == nested(*node),
{
    let kids = &node.children;
    if kids.len() > 0 && node.kind == String::from_str(";") {
        return false;
    }
    let mut i: usize = 0;
    while i < kids.len()
        invariant
            0 <= i <= kids@.len(),
            kids@ == node.children@,
            forall|a: int| 0 <= a < i ==> node.start_byte <= #[trigger] kids@[a].start_byte
                && kids@[a].end_byte <= node.end_byte && kids@[a].start_byte <= kids@[a].end_byte,
            forall|a: int, c: int| 0 <= a < c < i ==> #[trigger] kids@[a].end_byte <= #[trigger] kids@[c].start_byte,
        decreases kids@.len() - i,
    {
        let c = &kids[i];
        if !(node.start_byte <= c.start_byte && c.end_byte <= node.end_byte && c.start_byte <= c.end_byte) {
            return false;
        }
        if i > 0 && kids[i - 1].end_byte > c.start_byte {
            assert(kids@[i - 1].end_byte > kids@[i as int].start_byte);
            return false;
        }
        assert forall|a: int, d: int| 0 <= a < d < i + 1 implies #[trigger] kids@[a].end_byte <= #[trigger] kids@[d].start_byte by {
            if d == i && a < i - 1 {
                assert(kids@[a].end_byte <= kids@[i - 1].start_byte);
            }
        }
        i = i + 1;
    }
    true
}

/// Whether every node of the tree rooted at `node` fits `source`.
pub fn tree_fits_source(node: &SyntaxNode, source: &str) -> (r: bool)
    ensures
        r == tree_fits(*node, source.spec_bytes()),
    decreases node,
{
    let len = source.as_bytes().len();
    let ok = node.start_byte <= node.end_byte && node.end_byte <= len
        && source.is_char_boundary(node.start_byte) && source.is_char_boundary(node.end_byte)
        && node.row < usize::MAX && node.column < usize::MAX && nested_exec(node);
    if !ok {
        proof {
            lemma_fits_node(*node, source.spec_bytes());
        }
        return false;
    }
    let mut i: usize = 0;
    while i < node.children.len()
        invariant
            0 <= i <= node.children@.len(),
            node_ok(*node, source.spec_bytes()),
            forall|j: int| 0 <= j < i ==> #[trigger] tree_fits(node.children@[j], source.spec_bytes()),
        decreases node.children@.len() - i,
    {
        proof {
            assert(decreases_to!(*node => node.children@[i as int]));
        }
        if !tree_fits_source(&node.children[i], source) {
            proof {
                lemma_fits_node(*node, source.spec_bytes());
                assert(!tree_fits(node.children@[i as int], source.spec_bytes()));
            }
            return false;
        }
        i = i + 1;
    }
    proof {
        lemma_fits_node(*node, source.spec_bytes());
    }
    true
}

/// Whether the `i`-th of `count` children of a node of kind `parent` stands
/// where the Java grammar puts a statement: any child of a program, block,
/// constructor body, switch group, `if`, `while`, enhanced `for` or labelled statement; the
/// body of a `for` (its last child) or of a `do` (its second child).
pub open spec fn statement_slot(parent: Seq<char>, i: int, count: int) -> bool {
    ||| parent == "program"@
    ||| parent == "block"@
    ||| parent == "constructor_body"@
    ||| parent == "switch_block_statement_group"@
    ||| parent == "if_statement"@
    ||| parent == "while_statement"@
    ||| parent == "enhanced_for_statement"@
    ||| parent == "labeled_statement"@
    ||| (parent == "for_statement"@ && i == count - 1)
    ||| (parent == "do_statement"@ && i == 1)
}

/// The nodes of the tree rooted at `n` in pre-order, each paired with
/// whether it stands in a statement position (`slot` for `n` itself).
pub open spec fn placed(n: SyntaxNode, slot: bool) -> Seq<(SyntaxNode, bool)>
    decreases n,
{
    seq![(n, slot)] + placed_children(n.children@, n.kind@, n.children@.len() as int)
}

/// The placed pre-order nodes of the trees `s`, the first children of a
/// node of kind `parent` that has `count` children.
pub open spec fn placed_children(s: Seq<SyntaxNode>, parent: Seq<char>, count: int) -> Seq<
    (SyntaxNode, bool),
>
    decreases s,
{
    if s.len() == 0 {
        seq![]
    } else {
        placed_children(s.drop_last(), parent, count) + placed(
            s.last(),
            statement_slot(parent, s.len() - 1, count),
        )
    }
}

/// Every node of a tree that fits `b`, with its position, fits `b`.
pub proof fn lemma_placed_ok(n: SyntaxNode, slot: bool, b: Seq<u8>)
    requires
        tree_fits(n, b),
    ensures
        forall|m: int| 0 <= m < placed(n, slot).len() ==> #[trigger] node_ok(placed(n, slot)[m].0, b),
    decreases n,
{
    lemma_fits_node(n, b);
    let kids = n.children@;
    assert forall|i: int| 0 <= i < kids.len() implies #[trigger] tree_fits(kids[i], b) by {}
    assert(decreases_to!(n => n.children@));
    lemma_placed_children_ok(kids, n.kind@, kids.len() as int, b);
    let ps = placed(n, slot);
    let rest = placed_children(kids, n.kind@, kids.len() as int);
    assert forall|m: int| 0 <= m < ps.len() implies #[trigger] node_ok(ps[m].0, b) by {
        if m > 0 {
            assert(ps[m] == rest[m - 1]);
        }
    }
}

proof fn lemma_placed_children_ok(s: Seq<SyntaxNode>, parent: Seq<char>, count: int, b: Seq<u8>)
    requires
        forall|i: int| 0 <= i < s.len() ==> #[trigger] tree_fits(s[i], b),
    ensures
        forall|m: int|
            0 <= m < placed_children(s, parent, count).len() ==> #[trigger] node_ok(
                placed_children(s, parent, count)[m].0,
                b,
            ),
    decreases s,
{
    if s.len() > 0 {
        let p = s.drop_last();
        assert forall|i: int| 0 <= i < p.len() implies #[trigger] tree_fits(p[i], b) by {
            assert(tree_fits(s[i], b));
        }
        lemma_placed_children_ok(p, parent, count, b);
        assert(tree_fits(s[s.len() - 1], b));
        let slot = statement_slot(parent, s.len() - 1, count);
        lemma_placed_ok(s.last(), slot, b);
        let x = placed_children(p, parent, count);
        let y = placed(s.last(), slot);
        assert forall|m: int| 0 <= m < (x + y).len() implies #[trigger] node_ok((x + y)[m].0, b) by {
            if m < x.len() {
                assert((x + y)[m] == x[m]);
            } else {
                assert((x + y)[m] == y[m - x.len()]);
            }
        }
    }
}

/// In pre-order, every node lies within the root, and a leaf ends before
/// any later node starts.
pub proof fn lemma_placed_order(n: SyntaxNode, slot: bool, b: Seq<u8>)
    requires
        tree_fits(n, b),
    ensures
        forall|m: int|
            0 <= m < placed(n, slot).len() ==> n.start_byte <= (#[trigger] placed(n, slot)[m]).0.start_byte
                && placed(n, slot)[m].0.end_byte <= n.end_byte,
        forall|j: int, k: int|
            0 <= j < k < placed(n, slot).len() && (#[trigger] placed(n, slot)[j]).0.children@.len() == 0
                ==> placed(n, slot)[j].0.end_byte <= (#[trigger] placed(n, slot)[k]).0.start_byte,
    decreases n,
{
    lemma_fits_node(n, b);
    let kids = n.children@;
    assert forall|i: int| 0 <= i < kids.len() implies #[trigger] tree_fits(kids[i], b) by {}
    assert(decreases_to!(n => n.children@));
    lemma_children_order(kids, n.kind@, kids.len() as int, n.start_byte as int, n.end_byte as int, b);
    let ps = placed(n, slot);
    let rest = placed_children(kids, n.kind@, kids.len() as int);
    if kids.len() == 0 {
        assert(rest =~= Seq::<(SyntaxNode, bool)>::empty());
    }
    assert forall|m: int| 0 <= m < ps.len() implies n.start_byte <= (#[trigger] ps[m]).0.start_byte
        && ps[m].0.end_byte <= n.end_byte by {
        if m > 0 {
            assert(ps[m] == rest[m - 1]);
        }
    }
    assert forall|j: int, k: int|
        0 <= j < k < ps.len() && (#[trigger] ps[j]).0.children@.len() == 0 implies ps[j].0.end_byte
        <= (#[trigger] ps[k]).0.start_byte by {
        assert(ps[k] == rest[k - 1]);
        assert(j > 0);
        assert(ps[j] == rest[j - 1]);
    }
}

proof fn lemma_children_order(
    s: Seq<SyntaxNode>,
    parent: Seq<char>,
    count: int,
    lo: int,
    hi: int,
    b: Seq<u8>,
)
    requires
        forall|i: int| 0 <= i < s.len() ==> #[trigger] tree_fits(s[i], b),
        forall|i: int| 0 <= i < s.len() ==> lo <= (#[trigger] s[i]).start_byte && s[i].end_byte <= hi,
        forall|i: int, j: int| 0 <= i < j < s.len() ==> #[trigger] s[i].end_byte <= #[trigger] s[j].start_byte,
    ensures
        forall|m: int|
            0 <= m < placed_children(s, parent, count).len() ==> lo <= (
            #[trigger] placed_children(s, parent, count)[m]).0.start_byte && placed_children(
                s,
                parent,
                count,
            )[m].0.end_byte <= hi,
        forall|j: int, k: int|
            0 <= j < k < placed_children(s, parent, count).len() && (
            #[trigger] placed_children(s, parent, count)[j]).0.children@.len() == 0
                ==> placed_children(s, parent, count)[j].0.end_byte <= (
            #[trigger] placed_children(s, parent, count)[k]).0.start_byte,
    decreases s,
{
    if s.len() > 0 {
        let p = s.drop_last();
        let last = s.last();
        assert(s[s.len() - 1] == last);
        assert forall|i: int| 0 <= i < p.len() implies #[trigger] p[i] == s[i] by {}
        assert forall|i: int| 0 <= i < p.len() implies #[trigger] tree_fits(p[i], b) by {
            assert(tree_fits(s[i], b));
        }
        lemma_children_order(p, parent, count, lo, hi, b);
        assert forall|i: int| 0 <= i < p.len() implies lo <= (#[trigger] p[i]).start_byte
            && p[i].end_byte <= last.start_byte by {
            assert(s[i].end_byte <= s[s.len() - 1].start_byte);
        }
        lemma_children_order(p, parent, count, lo, last.start_byte as int, b);
        assert(tree_fits(s[s.len() - 1], b));
        let slot = statement_slot(parent, s.len() - 1, count);
        lemma_placed_order(last, slot, b);
        lemma_fits_node(last, b);
        let x = placed_children(p, parent, count);
        let y = placed(last, slot);
        let all = x + y;
        assert(placed_children(s, parent, count) == all);
        assert forall|m: int| 0 <= m < all.len() implies lo <= (#[trigger] all[m]).0.start_byte
            && all[m].0.end_byte <= hi by {
            if m < x.len() {
                assert(all[m] == x[m]);
            } else {
                assert(all[m] == y[m - x.len()]);
            }
        }
        assert forall|j: int, k: int|
            0 <= j < k < all.len() && (#[trigger] all[j]).0.children@.len() == 0 implies all[j].0.end_byte
            <= (#[trigger] all[k]).0.start_byte by {
            if k < x.len() {
                assert(all[j] == x[j] && all[k] == x[k]);
            } else if j >= x.len() {
                assert(all[j] == y[j - x.len()] && all[k] == y[k - x.len()]);
            } else {
                assert(all[j] == x[j] && all[k] == y[k - x.len()]);
            }
        }
    }
}

} // verus!
