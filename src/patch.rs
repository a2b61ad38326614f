use vstd::prelude::*;
use vstd::string::StringSliceAdditionalSpecFns;
use vstd::utf8::{encode_utf8, is_char_boundary, valid_utf8};

use crate::diagnostic::{Fix, FixView};

verus! {

broadcast use vstd::utf8::group_utf8_lib;

pub open spec fn fixes_view(v: Seq<Fix>) -> Seq<FixView> {
    v.map_values(|f: Fix| f@)
}

/// Where copying resumes after `f`: its end, or the end of `b` if it
/// reaches past it.
pub open spec fn clamped_end(f: FixView, b: Seq<u8>) -> int {
    if f.end < b.len() {
        f.end
    } else {
        b.len() as int
    }
}

/// `f` starts within `b` on a character boundary, and its end, held to the
/// end of `b`, is a character boundary too.
pub open spec fn fix_fits(f: FixView, b: Seq<u8>) -> bool {
    &&& 0 <= f.start <= b.len()
    &&& 0 <= f.end
    &&& is_char_boundary(b, f.start)
    &&& is_char_boundary(b, clamped_end(f, b))
}

pub open spec fn all_fit(s: Seq<FixView>, b: Seq<u8>) -> bool {
    forall|i: int| 0 <= i < s.len() ==> #[trigger] fix_fits(s[i], b)
}

/// `s` with `f` inserted just before the run of fixes at its end that start
/// later than `f`; a sorted `s` stays sorted, and `f` follows fixes with its
/// own start.
pub open spec fn insert_by_start(s: Seq<FixView>, f: FixView) -> Seq<FixView>
    decreases s.len(),
{
    if s.len() == 0 {
        seq![f]
    } else if s.last().start <= f.start {
        s.push(f)
    } else {
        insert_by_start(s.drop_last(), f).push(s.last())
    }
}

/// `s` sorted by start byte; fixes with equal starts keep their order.
pub open spec fn sort_by_start(s: Seq<FixView>) -> Seq<FixView>
    decreases s.len(),
{
    if s.len() == 0 {
        seq![]
    } else {
        insert_by_start(sort_by_start(s.drop_last()), s.last())
    }
}

/// The text that the fixes `fs`, applied in order with the copy position
/// at `cursor`, make of `src`: the untouched bytes before each fix, then its
/// replacement; the position then moves to the fix's end, and the rest of
/// `src` follows the last fix.
pub open spec fn compose(src: Seq<u8>, fs: Seq<FixView>, cursor: int) -> Seq<u8>
    decreases fs.len(),
{
    if fs.len() == 0 {
        src.subrange(cursor, src.len() as int)
    } else {
        let f = fs[0];
        let next = if f.end < src.len() {
            f.end
        } else {
            src.len() as int
        };
        (if f.start > cursor {
            src.subrange(cursor, f.start)
        } else {
            seq![]
        }) + encode_utf8(f.replacement) + compose(src, fs.drop_first(), next)
    }
}

/// The result of applying `fs` to `src`, in order of start byte.
pub open spec fn patched(src: Seq<u8>, fs: Seq<FixView>) -> Seq<u8> {
    compose(src, sort_by_start(fs), 0)
}

pub proof fn lemma_encode_concat(a: Seq<char>, b: Seq<char>)
    ensures
        encode_utf8(a + b) == encode_utf8(a) + encode_utf8(b),
    decreases a.len(),
{
    if a.len() == 0 {
        assert(a + b =~= b);
        assert(encode_utf8(a) + encode_utf8(b) =~= encode_utf8(b));
    } else {
        assert((a + b).drop_first() =~= a.drop_first() + b);
        assert((a + b)[0] == a[0]);
        lemma_encode_concat(a.drop_first(), b);
        assert(encode_utf8(a + b) =~= encode_utf8(a) + encode_utf8(b));
    }
}

proof fn lemma_insert_at(s: Seq<FixView>, f: FixView, p: int)
    requires
        0 <= p <= s.len(),
        p == 0 || s[p - 1].start <= f.start,
        forall|j: int| p <= j < s.len() ==> #[trigger] s[j].start > f.start,
    ensures
        insert_by_start(s, f) == s.insert(p, f),
    decreases s.len(),
{
    if s.len() == 0 {
        assert(s.insert(p, f) =~= seq![f]);
    } else if p == s.len() {
        assert(s.insert(p, f) =~= s.push(f));
    } else {
        assert(s.last().start > f.start);
        lemma_insert_at(s.drop_last(), f, p);
        assert(s.drop_last().insert(p, f).push(s.last()) =~= s.insert(p, f));
    }
}

proof fn lemma_insert_fits(s: Seq<FixView>, f: FixView, b: Seq<u8>)
    requires
        all_fit(s, b),
        fix_fits(f, b),
    ensures
        all_fit(insert_by_start(s, f), b),
    decreases s.len(),
{
    if s.len() > 0 && s.last().start > f.start {
        lemma_insert_fits(s.drop_last(), f, b);
        assert(fix_fits(s[s.len() - 1], b));
        let r = insert_by_start(s.drop_last(), f);
        assert forall|i: int| 0 <= i < r.push(s.last()).len() implies #[trigger] fix_fits(r.push(s.last())[i], b) by {
            if i < r.len() {
                assert(fix_fits(r[i], b));
            }
        }
    } else if s.len() > 0 {
        assert forall|i: int| 0 <= i < s.push(f).len() implies #[trigger] fix_fits(s.push(f)[i], b) by {
            if i < s.len() {
                assert(fix_fits(s[i], b));
            }
        }
    } else {
        assert(seq![f][0] == f);
    }
}

/// Sorting keeps every fix within the text.
pub proof fn lemma_sort_fits(s: Seq<FixView>, b: Seq<u8>)
    requires
        all_fit(s, b),
    ensures
        all_fit(sort_by_start(s), b),
    decreases s.len(),
{
    if s.len() > 0 {
        assert forall|i: int| 0 <= i < s.drop_last().len() implies #[trigger] fix_fits(s.drop_last()[i], b) by {
            assert(fix_fits(s[i], b));
        }
        lemma_sort_fits(s.drop_last(), b);
        assert(fix_fits(s[s.len() - 1], b));
        lemma_insert_fits(sort_by_start(s.drop_last()), s.last(), b);
    }
}

/// A boundary of `b` at or before `end` is a boundary of `b[..end]`.
pub(crate) proof fn lemma_prefix_boundary(b: Seq<u8>, end: int, i: int)
    requires
        valid_utf8(b),
        0 <= i <= end <= b.len(),
        is_char_boundary(b, end),
        is_char_boundary(b, i),
    ensures
        is_char_boundary(b.subrange(0, end), i),
{
    let p = b.subrange(0, end);
    vstd::utf8::valid_utf8_split(b, end);
    if i < end {
        assert(p[i] == b[i]);
        vstd::utf8::is_char_boundary_iff_not_is_continuation_byte(b, i);
        vstd::utf8::is_char_boundary_iff_not_is_continuation_byte(p, i);
    } else {
        vstd::utf8::is_char_boundary_start_end_of_seq(p);
    }
}

/// A copy of `f`.
pub(crate) fn copy_fix(f: &Fix) -> (r: Fix)
    ensures
        r@ == f@,
{
    Fix { start_byte: f.start_byte, end_byte: f.end_byte, replacement: f.replacement.clone() }
}

/// The fixes in order of start byte, equal starts in their given order.
fn sorted_by_start(fixes: &[Fix]) -> (r: Vec<Fix>)
    ensures
        fixes_view(r@) == sort_by_start(fixes_view(fixes@)),
{
    let mut r: Vec<Fix> = Vec::new();
    let mut i: usize = 0;
    while i < fixes.len()
        invariant
            0 <= i <= fixes@.len(),
            fixes_view(r@) == sort_by_start(fixes_view(fixes@.subrange(0, i as int))),
        decreases fixes@.len() - i,
    {
        let f = copy_fix(&fixes[i]);
        let mut p: usize = r.len();
        while p > 0 && r[p - 1].start_byte > f.start_byte
            invariant
                0 <= p <= r@.len(),
                forall|j: int| p <= j < r@.len() ==> #[trigger] r@[j].start_byte > f.start_byte,
            decreases p,
        {
            p = p - 1;
        }
        let ghost old_r = r@;
        proof {
            lemma_insert_at(fixes_view(old_r), f@, p as int);
            let fv = fixes_view(fixes@.subrange(0, i + 1));
            assert(fv.drop_last() =~= fixes_view(fixes@.subrange(0, i as int)));
            assert(fv.last() == f@);
        }
        r.insert(p, f);
        assert(fixes_view(r@) =~= fixes_view(old_r).insert(p as int, f@));
        i = i + 1;
    }
    assert(fixes@.subrange(0, i as int) =~= fixes@);
    r
}

/// Rewrites `source` by the fixes: sorted by start byte (a stable sort),
/// each one's replacement is written after the untouched text since the
/// previous fix, and the rest of the source follows. A fix that overlaps
/// the previous one has its replacement written right after the previous
/// replacement.
pub fn apply_fixes(source: &str, fixes: &[Fix]) -> (r: String)
    requires
        all_fit(fixes_view(fixes@), source.spec_bytes()),
    ensures
        encode_utf8(r@) == patched(source.spec_bytes(), fixes_view(fixes@)),
{
    let ghost b = source.spec_bytes();
    proof {
        assert(b == encode_utf8(source@));
    }
    let len = source.as_bytes().len();
    if fixes.len() == 0 {
        assert(fixes_view(fixes@) =~= Seq::<FixView>::empty());
        assert(b.subrange(0, b.len() as int) =~= b);
        return source.to_owned();
    }
    let sorted = sorted_by_start(fixes);
    let ghost fs = fixes_view(sorted@);
    proof {
        lemma_sort_fits(fixes_view(fixes@), b);
    }
    let mut out = String::new();
    let mut cursor: usize = 0;
    assert(fs.subrange(0, fs.len() as int) =~= fs);
    assert(encode_utf8(out@) =~= Seq::<u8>::empty());
    assert(encode_utf8(out@) + compose(b, fs, 0) =~= compose(b, fs, 0));
    let mut i: usize = 0;
    while i < sorted.len()
        invariant
            b == source.spec_bytes(),
            b == encode_utf8(source@),
            len == b.len(),
            fs == fixes_view(sorted@),
            all_fit(fs, b),
            0 <= i <= sorted@.len(),
            cursor <= len,
            is_char_boundary(b, cursor as int),
            encode_utf8(out@) + compose(b, fs.subrange(i as int, fs.len() as int), cursor as int)
                == compose(b, fs, 0),
        decreases sorted@.len() - i,
    {
        let f = &sorted[i];
        assert(fix_fits(fs[i as int], b));
        let ghost rest = fs.subrange(i as int, fs.len() as int);
        assert(rest[0] == fs[i as int]);
        assert(rest.drop_first() =~= fs.subrange(i + 1, fs.len() as int));
        let ghost before = out@;
        if f.start_byte > cursor {
            let (head, _) = source.split_at(f.start_byte);
            proof {
                lemma_prefix_boundary(b, f.start_byte as int, cursor as int);
            }
            let (_, piece) = head.split_at(cursor);
            assert(piece.spec_bytes() =~= b.subrange(cursor as int, f.start_byte as int));
            out.append(piece);
            proof {
                lemma_encode_concat(before, piece@);
            }
        }
        let ghost mid = out@;
        out.append(f.replacement.as_str());
        proof {
            lemma_encode_concat(mid, f.replacement@);
        }
        cursor = if f.end_byte < len {
            f.end_byte
        } else {
            len
        };
        i = i + 1;
    }
    let ghost before = out@;
    if cursor < len {
        let (_, tail) = source.split_at(cursor);
        out.append(tail);
        proof {
            lemma_encode_concat(before, tail@);
        }
    } else {
        assert(b.subrange(cursor as int, b.len() as int) =~= Seq::<u8>::empty());
        assert(encode_utf8(out@) =~= encode_utf8(out@) + Seq::<u8>::empty());
    }
    out
}

/// Applying no fixes gives the source back unchanged, byte for byte.
pub proof fn lemma_patch_identity(b: Seq<u8>)
    ensures
        patched(b, seq![]) == b,
{
    assert(sort_by_start(Seq::<FixView>::empty()) =~= Seq::<FixView>::empty());
    assert(b.subrange(0, b.len() as int) =~= b);
}

/// Applying one fix gives the source before its start, its replacement, and
/// the source from its end.
pub proof fn lemma_patch_single(b: Seq<u8>, f: FixView)
    requires
        0 <= f.start <= f.end <= b.len(),
    ensures
        patched(b, seq![f]) == b.subrange(0, f.start) + encode_utf8(f.replacement) + b.subrange(
            f.end,
            b.len() as int,
        ),
{
    assert(seq![f].drop_last() =~= Seq::<FixView>::empty());
    assert(sort_by_start(Seq::<FixView>::empty()) =~= Seq::<FixView>::empty());
    assert(seq![f].last() == f);
    assert(sort_by_start(seq![f]) =~= seq![f]);
    assert(seq![f].drop_first() =~= Seq::<FixView>::empty());
    assert(seq![f][0] == f);
    assert(compose(b, Seq::<FixView>::empty(), f.end) == b.subrange(f.end, b.len() as int));
    if f.start == 0 {
        assert(b.subrange(0, 0) =~= Seq::<u8>::empty());
        assert(b.subrange(0, f.start) + encode_utf8(f.replacement) =~= seq![] + encode_utf8(f.replacement));
    }
}

} // verus!
