//! Layout decisions of the views: shortening long names for headers, and which
//! cards around the visible rows get their thumbnails loaded ahead.
use vstd::prelude::*;
use crate::text::{chars_of, string_of, push_char, push_str};
use crate::paths::slice_chars;

verus! {

/// How many bytes UTF-8 takes for `c` (`char::len_utf8`).
pub open spec fn utf8_len(c: char) -> nat {
    let v = c as u32;
    if v < 0x80 {
        1
    } else if v < 0x800 {
        2
    } else if v < 0x10000 {
        3
    } else {
        4
    }
}

/// How many bytes UTF-8 takes for `s` (`str::len`).
pub open spec fn byte_len(s: Seq<char>) -> nat
    decreases s.len(),
{
    if s.len() == 0 {
        0
    } else {
        utf8_len(s[0]) + byte_len(s.drop_first())
    }
}

/// Whether the last `keep` bytes of `s` begin at a character boundary.
pub open spec fn tail_at_boundary(s: Seq<char>, keep: nat) -> bool {
    exists|k: int| 0 <= k <= s.len() && #[trigger] byte_len(s.skip(k)) == keep
}

/// The index of the first character of the last `keep` bytes of `s`.
pub open spec fn tail_start(s: Seq<char>, keep: nat) -> int {
    choose|k: int| 0 <= k <= s.len() && #[trigger] byte_len(s.skip(k)) == keep
}

/// The text shown for `s` where at most `max` bytes fit: `s` itself if it is
/// short enough, else `…` followed by its last `keep` bytes.
pub open spec fn shortened(s: Seq<char>, max: nat, keep: nat) -> Seq<char> {
    if byte_len(s) > max {
        seq!['\u{2026}'] + s.skip(tail_start(s, keep))
    } else {
        s
    }
}

/// The bytes of a suffix are those of its first character and of the rest.
proof fn lemma_byte_len_skip(s: Seq<char>, k: int)
    requires
        0 <= k < s.len(),
    ensures
        byte_len(s.skip(k)) == utf8_len(s[k]) + byte_len(s.skip(k + 1)),
{
    assert(s.skip(k).drop_first() =~= s.skip(k + 1));
}

/// Longer suffixes take more bytes.
proof fn lemma_byte_len_decreasing(s: Seq<char>, k1: int, k2: int)
    requires
        0 <= k1 < k2 <= s.len(),
    ensures
        byte_len(s.skip(k1)) > byte_len(s.skip(k2)),
    decreases k2 - k1,
{
    lemma_byte_len_skip(s, k1);
    if k1 + 1 < k2 {
        lemma_byte_len_decreasing(s, k1 + 1, k2);
    }
}

/// How many bytes UTF-8 takes for `c`.
fn utf8_len_of(c: char) -> (r: u8)
    ensures
        r == utf8_len(c),
{
    let v = c as u32;
    if v < 0x80 {
        1
    } else if v < 0x800 {
        2
    } else if v < 0x10000 {
        3
    } else {
        4
    }
}

/// `s` shortened to fit `max` bytes, as the dialog headers show long names
/// and folders (see [`shortened`]). The last `keep` bytes must begin at a
/// character boundary when the text is too long.
pub fn shorten_tail(s: &str, max: usize, keep: usize) -> (r: String)
    requires
        keep <= max,
        byte_len(s@) > max ==> tail_at_boundary(s@, keep as nat),
    ensures
        r@ == shortened(s@, max as nat, keep as nat),
{
    let v = chars_of(s);
    let n = v.len();
    let mut k: usize = n;
    let mut total: u128 = 0;
    assert(v@.skip(n as int) =~= Seq::<char>::empty());
    while k > 0
        invariant
            k <= n == v@.len(),
            v@ == s@,
            total == byte_len(v@.skip(k as int)),
            total <= 4 * (n - k),
        decreases k,
    {
        proof {
            lemma_byte_len_skip(v@, k - 1);
        }
        total = total + utf8_len_of(v[k - 1]) as u128;
        k = k - 1;
    }
    assert(v@.skip(0) =~= v@);
    if total <= max as u128 {
        return string_of(v.as_slice());
    }
    let mut k: usize = n;
    let mut acc: u128 = 0;
    while k > 0 && acc < keep as u128
        invariant
            k <= n == v@.len(),
            v@ == s@,
            acc == byte_len(v@.skip(k as int)),
            acc <= 4 * (n - k),
            forall|j: int| k < j <= n ==> byte_len(#[trigger] v@.skip(j)) < keep,
        decreases k,
    {
        proof {
            lemma_byte_len_skip(v@, k - 1);
        }
        acc = acc + utf8_len_of(v[k - 1]) as u128;
        k = k - 1;
    }
    proof {
        let w = choose|w: int| 0 <= w <= v@.len() && #[trigger] byte_len(v@.skip(w)) == keep;
        if w < k {
            lemma_byte_len_decreasing(v@, w, k as int);
        } else if w > k {
            lemma_byte_len_decreasing(v@, k as int, w);
        }
        assert(w == k);
        assert(tail_start(s@, keep as nat) == k);
    }
    let tail = slice_chars(v.as_slice(), k, n);
    assert(tail@ =~= s@.skip(k as int));
    let mut r = String::new();
    push_char(&mut r, '\u{2026}');
    push_str(&mut r, string_of(tail.as_slice()).as_str());
    r
}

/// The cards whose thumbnails are loaded ahead around the visible rows
/// `[row_start, row_end)` of a grid with `columns` columns, `total_rows` rows
/// and `total_items` cards: the `margin` rows before and after, as two ranges
/// of card indices (the first before the visible cards, the second after).
pub open spec fn prefetch_span(
    row_start: nat,
    row_end: nat,
    columns: nat,
    total_rows: nat,
    total_items: nat,
    margin: nat,
) -> ((nat, nat), (nat, nat)) {
    let vis_start = row_start * columns;
    let vis_end = if row_end * columns < total_items { row_end * columns } else { total_items };
    let first_row: nat = if row_start >= margin { (row_start - margin) as nat } else { 0 };
    let pre_start = first_row * columns;
    let rows_after = if row_end + margin < total_rows { row_end + margin } else { total_rows };
    let pre_end = rows_after * columns;
    ((pre_start, vis_start), (vis_end, if pre_end < total_items { pre_end } else { total_items }))
}

/// The ranges of cards to load ahead (see [`prefetch_span`]).
pub fn prefetch_ranges(
    row_start: usize,
    row_end: usize,
    columns: usize,
    total_rows: usize,
    total_items: usize,
    margin: usize,
) -> (r: ((usize, usize), (usize, usize)))
    requires
        row_start <= row_end,
        row_end + margin <= usize::MAX,
        (row_end + margin) * columns <= usize::MAX,
        row_end * columns <= usize::MAX,
    ensures
        ((r.0.0 as nat, r.0.1 as nat), (r.1.0 as nat, r.1.1 as nat)) == prefetch_span(
            row_start as nat,
            row_end as nat,
            columns as nat,
            total_rows as nat,
            total_items as nat,
            margin as nat,
        ),
{
    assert(row_start * columns <= row_end * columns) by (nonlinear_arith)
        requires
            row_start <= row_end,
    ;
    let vis_start: usize = row_start * columns;
    let vis_end = if row_end * columns < total_items {
        row_end * columns
    } else {
        total_items
    };
    let first_row = if row_start >= margin {
        row_start - margin
    } else {
        0
    };
    let rows_after = if row_end + margin < total_rows {
        row_end + margin
    } else {
        total_rows
    };
    assert(first_row * columns <= row_start * columns) by (nonlinear_arith)
        requires
            first_row <= row_start,
    ;
    assert(rows_after * columns <= (row_end + margin) * columns) by (nonlinear_arith)
        requires
            rows_after <= row_end + margin,
    ;
    let pre_start = first_row * columns;
    let pre_end = rows_after * columns;
    let after_end = if pre_end < total_items {
        pre_end
    } else {
        total_items
    };
    ((pre_start, vis_start), (vis_end, after_end))
}

} // verus!
