use vstd::prelude::*;
use vstd::utf8::{
    decode_utf8, is_continuation_byte, length_of_first_scalar, pop_first_scalar, take_first_scalar,
    valid_first_scalar, valid_utf8,
};

verus! {

pub const LINE_FEED: u8 = 10;

pub const SPACE: u8 = 32;

pub const TAB: u8 = 9;

/// The lines of `b` found by scanning from byte `i`, the current line having
/// started at byte `s`: each line runs up to (not including) the next line
/// feed, and a last line without a line feed still counts.
pub open spec fn spans_scan(b: Seq<u8>, s: int, i: int) -> Seq<(int, int)>
    decreases b.len() - i,
{
    if i >= b.len() {
        if s < b.len() {
            seq![(s, b.len() as int)]
        } else {
            seq![]
        }
    } else if b[i] == LINE_FEED {
        seq![(s, i)] + spans_scan(b, i + 1, i + 1)
    } else {
        spans_scan(b, s, i + 1)
    }
}

/// The byte ranges of the lines of `b`, line feeds excluded.
pub open spec fn line_spans(b: Seq<u8>) -> Seq<(int, int)> {
    spans_scan(b, 0, 0)
}

pub open spec fn spans_view(v: Seq<(usize, usize)>) -> Seq<(int, int)> {
    v.map_values(|p: (usize, usize)| (p.0 as int, p.1 as int))
}

/// Each range lies in `b` and starts at or after `s`, ends at a line feed or at
/// the end, and starts at `s` or right after a line feed.
pub open spec fn spans_ok(b: Seq<u8>, sps: Seq<(int, int)>, s: int) -> bool {
    forall|j: int|
        0 <= j < sps.len() ==> {
            &&& s <= #[trigger] sps[j].0 <= sps[j].1 <= b.len()
            &&& (sps[j].1 == b.len() || b[sps[j].1] == LINE_FEED)
            &&& (sps[j].0 > s ==> b[sps[j].0 - 1] == LINE_FEED)
        }
}

proof fn lemma_spans_scan_bounds(b: Seq<u8>, s: int, i: int)
    requires
        0 <= s <= i <= b.len(),
    ensures
        spans_ok(b, spans_scan(b, s, i), s),
    decreases b.len() - i,
{
    if i < b.len() {
        if b[i] == LINE_FEED {
            let rest = spans_scan(b, i + 1, i + 1);
            lemma_spans_scan_bounds(b, i + 1, i + 1);
            let all = seq![(s, i)] + rest;
            assert forall|j: int| 0 < j < all.len() implies all[j] == rest[j - 1] by {}
        } else {
            lemma_spans_scan_bounds(b, s, i + 1);
        }
    }
}

/// Later ranges start after earlier ones end.
pub open spec fn spans_ordered(sps: Seq<(int, int)>) -> bool {
    forall|j: int, k: int| 0 <= j < k < sps.len() ==> #[trigger] sps[j].1 < #[trigger] sps[k].0
}

proof fn lemma_spans_scan_ordered(b: Seq<u8>, s: int, i: int)
    requires
        0 <= s <= i <= b.len(),
    ensures
        spans_ordered(spans_scan(b, s, i)),
    decreases b.len() - i,
{
    if i < b.len() {
        if b[i] == LINE_FEED {
            let rest = spans_scan(b, i + 1, i + 1);
            lemma_spans_scan_ordered(b, i + 1, i + 1);
            lemma_spans_scan_bounds(b, i + 1, i + 1);
            let all = seq![(s, i)] + rest;
            assert forall|j: int, k: int| 0 <= j < k < all.len() implies #[trigger] all[j].1 < #[trigger] all[k].0 by {
                assert(all[k] == rest[k - 1]);
                if j > 0 {
                    assert(all[j] == rest[j - 1]);
                } else {
                    assert(rest[k - 1].0 >= i + 1);
                }
            }
        } else {
            lemma_spans_scan_ordered(b, s, i + 1);
        }
    }
}

/// The lines come in order: each starts after the previous one ends.
pub proof fn lemma_line_spans_ordered(b: Seq<u8>)
    ensures
        spans_ordered(line_spans(b)),
{
    lemma_spans_scan_ordered(b, 0, 0);
}

/// Every line range lies within `b`, ends at a line feed or at the end, and
/// starts at the beginning or right after a line feed.
pub proof fn lemma_line_spans_bounds(b: Seq<u8>)
    ensures
        spans_ok(b, line_spans(b), 0),
{
    lemma_spans_scan_bounds(b, 0, 0);
}

/// Splits `bytes` into the byte ranges of its lines.
pub fn line_spans_of(bytes: &[u8]) -> (r: Vec<(usize, usize)>)
    ensures
        spans_view(r@) == line_spans(bytes@),
{
    let mut r: Vec<(usize, usize)> = Vec::new();
    let mut s: usize = 0;
    let mut i: usize = 0;
    while i < bytes.len()
        invariant
            0 <= s <= i <= bytes@.len(),
            spans_view(r@) + spans_scan(bytes@, s as int, i as int) == line_spans(bytes@),
        decreases bytes@.len() - i,
    {
        let ghost before = r@;
        if bytes[i] == LINE_FEED {
            r.push((s, i));
            assert(spans_view(r@) =~= spans_view(before) + seq![(s as int, i as int)]);
            i = i + 1;
            s = i;
        } else {
            i = i + 1;
        }
    }
    let ghost before = r@;
    if s < bytes.len() {
        r.push((s, bytes.len()));
        assert(spans_view(r@) =~= spans_view(before) + seq![(s as int, bytes@.len() as int)]);
    } else {
        assert(spans_view(r@) =~= spans_view(before) + seq![]);
    }
    r
}

/// The number of Unicode scalar values in UTF-8 encoded bytes: each scalar
/// value has exactly one byte that is not a continuation byte.
pub open spec fn scalar_count(s: Seq<u8>) -> nat
    decreases s.len(),
{
    if s.len() == 0 {
        0
    } else {
        scalar_count(s.drop_last()) + if is_continuation_byte(s.last()) {
            0nat
        } else {
            1nat
        }
    }
}

/// The length of a line, in Unicode scalar values.
pub open spec fn line_char_len(b: Seq<u8>, sp: (int, int)) -> nat {
    scalar_count(b.subrange(sp.0, sp.1))
}

/// The number of bytes of a whitespace character (in the Unicode sense)
/// encoded at `i`, within the bytes before `e`; 0 where none starts there.
pub open spec fn ws_width(b: Seq<u8>, i: int, e: int) -> int {
    if i < e && (b[i] == 9 || b[i] == 10 || b[i] == 11 || b[i] == 12 || b[i] == 13 || b[i] == 32) {
        1
    } else if i + 1 < e && b[i] == 0xC2 && (b[i + 1] == 0x85 || b[i + 1] == 0xA0) {
        2
    } else if i + 2 < e && ((b[i] == 0xE1 && b[i + 1] == 0x9A && b[i + 2] == 0x80) || (b[i] == 0xE2
        && b[i + 1] == 0x80 && (b[i + 2] <= 0x8A || b[i + 2] == 0xA8 || b[i + 2] == 0xA9 || b[i
        + 2] == 0xAF)) || (b[i] == 0xE2 && b[i + 1] == 0x81 && b[i + 2] == 0x9F) || (b[i] == 0xE3
        && b[i + 1] == 0x80 && b[i + 2] == 0x80)) {
        3
    } else {
        0
    }
}

/// The bytes from `i` up to `e` are whitespace characters only.
pub open spec fn blank_from(b: Seq<u8>, i: int, e: int) -> bool
    decreases e - i,
{
    if i >= e {
        true
    } else {
        ws_width(b, i, e) > 0 && blank_from(b, i + ws_width(b, i, e), e)
    }
}

/// The end of the run of spaces and tabs that starts at `s`, before `e`.
pub open spec fn leading_run_end(b: Seq<u8>, s: int, e: int) -> int
    decreases e - s,
{
    if s < e && (b[s] == SPACE || b[s] == TAB) {
        leading_run_end(b, s + 1, e)
    } else {
        s
    }
}

/// Some byte in `[s, e)` equals `c`.
pub open spec fn has_byte(b: Seq<u8>, s: int, e: int, c: u8) -> bool
    decreases e - s,
{
    if e <= s {
        false
    } else {
        has_byte(b, s, e - 1, c) || b[e - 1] == c
    }
}

pub open spec fn digit_char(d: nat) -> char {
    if d == 0 {
        '0'
    } else if d == 1 {
        '1'
    } else if d == 2 {
        '2'
    } else if d == 3 {
        '3'
    } else if d == 4 {
        '4'
    } else if d == 5 {
        '5'
    } else if d == 6 {
        '6'
    } else if d == 7 {
        '7'
    } else if d == 8 {
        '8'
    } else {
        '9'
    }
}

/// The decimal notation of `n`, without leading zeros.
pub open spec fn decimal(n: nat) -> Seq<char>
    decreases n,
{
    if n < 10 {
        seq![digit_char(n)]
    } else {
        decimal(n / 10) + seq![digit_char(n % 10)]
    }
}

/// The digit `d` as a one-character string.
fn digit_str(d: usize) -> (r: &'static str)
    requires
        d < 10,
    ensures
        r@ == seq![digit_char(d as nat)],
{
    proof {
        reveal_strlit("0");
        reveal_strlit("1");
        reveal_strlit("2");
        reveal_strlit("3");
        reveal_strlit("4");
        reveal_strlit("5");
        reveal_strlit("6");
        reveal_strlit("7");
        reveal_strlit("8");
        reveal_strlit("9");
    }
    let r = if d == 0 {
        "0"
    } else if d == 1 {
        "1"
    } else if d == 2 {
        "2"
    } else if d == 3 {
        "3"
    } else if d == 4 {
        "4"
    } else if d == 5 {
        "5"
    } else if d == 6 {
        "6"
    } else if d == 7 {
        "7"
    } else if d == 8 {
        "8"
    } else {
        "9"
    };
    assert(r@ =~= seq![digit_char(d as nat)]);
    r
}

/// The decimal notation of `n`.
pub fn decimal_string(n: usize) -> (r: String)
    ensures
        r@ == decimal(n as nat),
    decreases n,
{
    if n < 10 {
        String::from_str(digit_str(n))
    } else {
        let mut r = decimal_string(n / 10);
        r.append(digit_str(n % 10));
        r
    }
}

proof fn lemma_scalar_count_concat(x: Seq<u8>, y: Seq<u8>)
    ensures
        scalar_count(x + y) == scalar_count(x) + scalar_count(y),
    decreases y.len(),
{
    if y.len() == 0 {
        assert(x + y =~= x);
    } else {
        assert((x + y).drop_last() =~= x + y.drop_last());
        assert((x + y).last() == y.last());
        lemma_scalar_count_concat(x, y.drop_last());
    }
}

/// In valid UTF-8, `scalar_count` is the number of decoded scalar values.
pub proof fn lemma_scalar_count_decode(b: Seq<u8>)
    requires
        valid_utf8(b),
    ensures
        scalar_count(b) == decode_utf8(b).len(),
    decreases b.len(),
{
    if b.len() > 0 {
        reveal_with_fuel(scalar_count, 5);
        assert(valid_first_scalar(b));
        let l = length_of_first_scalar(b);
        let h = take_first_scalar(b);
        let p = pop_first_scalar(b);
        assert(1 <= l <= 4 && l <= b.len());
        assert(b =~= h + p);
        lemma_scalar_count_concat(h, p);
        assert(!is_continuation_byte(h[0]));
        if l == 1 {
            assert(h.drop_last().len() == 0);
        } else if l == 2 {
            assert(is_continuation_byte(h[1]));
            assert(h.drop_last().drop_last().len() == 0);
            assert(h.drop_last().last() == h[0]);
        } else if l == 3 {
            assert(is_continuation_byte(h[1]) && is_continuation_byte(h[2]));
            assert(h.drop_last().drop_last().last() == h[0]);
            assert(h.drop_last().last() == h[1]);
            assert(h.drop_last().drop_last().drop_last().len() == 0);
        } else {
            assert(is_continuation_byte(h[1]) && is_continuation_byte(h[2]) && is_continuation_byte(h[3]));
            assert(h.drop_last().drop_last().drop_last().last() == h[0]);
            assert(h.drop_last().drop_last().last() == h[1]);
            assert(h.drop_last().last() == h[2]);
            assert(h.drop_last().drop_last().drop_last().drop_last().len() == 0);
        }
        assert(scalar_count(h) == 1);
        lemma_scalar_count_decode(p);
    }
}

} // verus!
