//! Natural ordering of file names: runs of digits compare by their value, so
//! that `file2` comes before `file10`; everything else compares character by
//! character, without regard to case.
use vstd::prelude::*;
use crate::text::{is_digit, digits_value, all_digits, chars_of, to_lowercase, lowercase, is_digit_char, digit_of, is_ascii_text, ascii_lowered};
use std::cmp::Ordering;

verus! {

/// The length of the run of ASCII digits at the start of `s`.
pub open spec fn digit_run(s: Seq<char>) -> nat
    decreases s.len(),
{
    if s.len() > 0 && is_digit(s[0]) {
        1 + digit_run(s.drop_first())
    } else {
        0
    }
}

/// The number that a run of digits stands for when read as a `u64`, or 0 when
/// it is too large for one.
pub open spec fn run_number(d: Seq<char>) -> nat {
    if digits_value(d) <= u64::MAX {
        digits_value(d)
    } else {
        0
    }
}

/// A digit run is no longer than the text, and non-empty when the text starts with a digit.
pub proof fn lemma_digit_run_bounds(s: Seq<char>)
    ensures
        digit_run(s) <= s.len(),
        s.len() > 0 && is_digit(s[0]) ==> digit_run(s) >= 1,
    decreases s.len(),
{
    if s.len() > 0 && is_digit(s[0]) {
        lemma_digit_run_bounds(s.drop_first());
    }
}

/// The natural order of `a` and `b`: negative if `a` comes first, zero if they
/// are equivalent, positive if `b` comes first.
///
/// Where both continue with a digit, the two runs of digits are read as
/// numbers (a number too large for a `u64` counts as 0) and compared; if equal,
/// the comparison goes on after the runs. Otherwise the next characters are
/// compared by code point. A text that ends first comes first.
pub open spec fn natural_order(a: Seq<char>, b: Seq<char>) -> int
    decreases a.len() + b.len(),
{
    if a.len() == 0 && b.len() == 0 {
        0
    } else if a.len() == 0 {
        -1
    } else if b.len() == 0 {
        1
    } else if is_digit(a[0]) && is_digit(b[0]) {
        proof {
            lemma_digit_run_bounds(a);
            lemma_digit_run_bounds(b);
        }
        let an = digit_run(a) as int;
        let bn = digit_run(b) as int;
        let av = run_number(a.take(an));
        let bv = run_number(b.take(bn));
        if av < bv {
            -1
        } else if av > bv {
            1
        } else {
            natural_order(a.skip(an), b.skip(bn))
        }
    } else if (a[0] as u32) < (b[0] as u32) {
        -1
    } else if (a[0] as u32) > (b[0] as u32) {
        1
    } else {
        natural_order(a.drop_first(), b.drop_first())
    }
}

/// Every text is equivalent to itself.
pub proof fn lemma_natural_order_reflexive(s: Seq<char>)
    ensures
        natural_order(s, s) == 0,
    decreases s.len(),
{
    if s.len() > 0 {
        if is_digit(s[0]) {
            lemma_digit_run_bounds(s);
            lemma_natural_order_reflexive(s.skip(digit_run(s) as int));
        } else {
            lemma_natural_order_reflexive(s.drop_first());
        }
    }
}

/// Swapping the two texts reverses their order.
pub proof fn lemma_natural_order_antisymmetric(a: Seq<char>, b: Seq<char>)
    ensures
        natural_order(a, b) == -natural_order(b, a),
    decreases a.len() + b.len(),
{
    if a.len() > 0 && b.len() > 0 {
        if is_digit(a[0]) && is_digit(b[0]) {
            lemma_digit_run_bounds(a);
            lemma_digit_run_bounds(b);
            lemma_natural_order_antisymmetric(
                a.skip(digit_run(a) as int),
                b.skip(digit_run(b) as int),
            );
        } else {
            lemma_natural_order_antisymmetric(a.drop_first(), b.drop_first());
        }
    }
}

/// A character is an ASCII digit exactly when its code is 48 to 57.
proof fn lemma_digit_code(c: char)
    ensures
        is_digit(c) == (48 <= (c as u32) && (c as u32) <= 57),
{
}

/// Where the two texts do not both start with a digit, their order is that of
/// their first characters, then that of the rest.
proof fn lemma_char_step(a: Seq<char>, b: Seq<char>)
    requires
        a.len() > 0,
        b.len() > 0,
        !(is_digit(a[0]) && is_digit(b[0])),
    ensures
        natural_order(a, b) == if (a[0] as u32) < (b[0] as u32) {
            -1
        } else if (a[0] as u32) > (b[0] as u32) {
            1
        } else {
            natural_order(a.drop_first(), b.drop_first())
        },
{
}

/// Transitivity when the three texts start with digits.
proof fn lemma_transitive_digits(a: Seq<char>, b: Seq<char>, c: Seq<char>)
    requires
        a.len() > 0 && b.len() > 0 && c.len() > 0,
        is_digit(a[0]) && is_digit(b[0]) && is_digit(c[0]),
        natural_order(a, b) <= 0,
        natural_order(b, c) <= 0,
    ensures
        natural_order(a, c) <= 0,
    decreases a.len(), 0int,
{
    lemma_digit_run_bounds(a);
    lemma_digit_run_bounds(b);
    lemma_digit_run_bounds(c);
    let av = run_number(a.take(digit_run(a) as int));
    let bv = run_number(b.take(digit_run(b) as int));
    let cv = run_number(c.take(digit_run(c) as int));
    if av == bv && bv == cv {
        lemma_natural_order_transitive(
            a.skip(digit_run(a) as int),
            b.skip(digit_run(b) as int),
            c.skip(digit_run(c) as int),
        );
    }
}

/// Transitivity when not all three texts start with digits.
proof fn lemma_transitive_chars(a: Seq<char>, b: Seq<char>, c: Seq<char>)
    requires
        a.len() > 0 && b.len() > 0 && c.len() > 0,
        !(is_digit(a[0]) && is_digit(b[0]) && is_digit(c[0])),
        natural_order(a, b) <= 0,
        natural_order(b, c) <= 0,
    ensures
        natural_order(a, c) <= 0,
    decreases a.len(), 0int,
{
    let x = a[0] as u32;
    let y = b[0] as u32;
    let z = c[0] as u32;
    lemma_digit_code(a[0]);
    lemma_digit_code(b[0]);
    lemma_digit_code(c[0]);
    let da = is_digit(a[0]);
    let db = is_digit(b[0]);
    let dc = is_digit(c[0]);
    if da && db {
        lemma_char_step(b, c);
        lemma_char_step(a, c);
        assert(y < z);
    } else if db && dc {
        lemma_char_step(a, b);
        lemma_char_step(a, c);
        assert(x < y);
    } else {
        lemma_char_step(a, b);
        lemma_char_step(b, c);
        if !(da && dc) {
            lemma_char_step(a, c);
            if x == y && y == z {
                lemma_natural_order_transitive(a.drop_first(), b.drop_first(), c.drop_first());
            }
        } else {
            assert(x < y && y < z);
        }
    }
}

/// The natural order is transitive: if `a` comes no later than `b` and `b` no
/// later than `c`, then `a` comes no later than `c`.
pub proof fn lemma_natural_order_transitive(a: Seq<char>, b: Seq<char>, c: Seq<char>)
    requires
        natural_order(a, b) <= 0,
        natural_order(b, c) <= 0,
    ensures
        natural_order(a, c) <= 0,
    decreases a.len(), 1int,
{
    if a.len() > 0 && b.len() > 0 && c.len() > 0 {
        if is_digit(a[0]) && is_digit(b[0]) && is_digit(c[0]) {
            lemma_transitive_digits(a, b, c);
        } else {
            lemma_transitive_chars(a, b, c);
        }
    }
}

/// The end of the run of digits of `s` that starts at `i`, and the number it
/// stands for as a `u64` (0 when too large).
fn read_run(s: &[char], i: usize) -> (r: (usize, u64))
    requires
        i <= s@.len(),
    ensures
        r.0 == i + digit_run(s@.skip(i as int)),
        r.0 <= s@.len(),
        r.1 == run_number(s@.subrange(i as int, r.0 as int)),
{
    let mut k: usize = i;
    let mut val: u128 = 0;
    let mut over = false;
    while k < s.len() && is_digit_char(s[k])
        invariant
            i <= k <= s@.len(),
            digit_run(s@.skip(i as int)) == (k - i) + digit_run(s@.skip(k as int)),
            !over ==> val == digits_value(s@.subrange(i as int, k as int)) && val <= u64::MAX,
            over ==> digits_value(s@.subrange(i as int, k as int)) > u64::MAX,
        decreases s.len() - k,
    {
        let ghost pre = s@.subrange(i as int, k as int);
        let ghost post = s@.subrange(i as int, k + 1);
        assert(post.drop_last() =~= pre);
        assert(s@.skip(k as int).drop_first() =~= s@.skip(k + 1));
        let d = digit_of(s[k]);
        if !over {
            let nv = val * 10 + d as u128;
            if nv > u64::MAX as u128 {
                over = true;
            } else {
                val = nv;
            }
        }
        k = k + 1;
    }
    assert(digit_run(s@.skip(k as int)) == 0);
    if over {
        (k, 0)
    } else {
        (k, val as u64)
    }
}

/// The sign of the natural order of `a` and `b`: -1, 0 or 1.
pub fn natural_sign(a: &[char], b: &[char]) -> (r: i8)
    ensures
        (r == -1) == (natural_order(a@, b@) < 0),
        (r == 0) == (natural_order(a@, b@) == 0),
        (r == 1) == (natural_order(a@, b@) > 0),
        -1 <= r <= 1,
{
    let ghost total = natural_order(a@, b@);
    let mut i: usize = 0;
    let mut j: usize = 0;
    assert(a@.skip(0) =~= a@);
    assert(b@.skip(0) =~= b@);
    loop
        invariant
            i <= a@.len(),
            j <= b@.len(),
            total == natural_order(a@, b@),
            total == natural_order(a@.skip(i as int), b@.skip(j as int)),
        decreases a@.len() - i + b@.len() - j,
    {
        let ghost x = a@.skip(i as int);
        let ghost y = b@.skip(j as int);
        if i == a.len() && j == b.len() {
            return 0;
        }
        if i == a.len() {
            return -1;
        }
        if j == b.len() {
            return 1;
        }
        assert(x[0] == a@[i as int]);
        assert(y[0] == b@[j as int]);
        if is_digit_char(a[i]) && is_digit_char(b[j]) {
            let (ae, av) = read_run(a, i);
            let (be, bv) = read_run(b, j);
            proof {
                lemma_digit_run_bounds(x);
                lemma_digit_run_bounds(y);
                assert(x.take(digit_run(x) as int) =~= a@.subrange(i as int, ae as int));
                assert(y.take(digit_run(y) as int) =~= b@.subrange(j as int, be as int));
                assert(x.skip(digit_run(x) as int) =~= a@.skip(ae as int));
                assert(y.skip(digit_run(y) as int) =~= b@.skip(be as int));
            }
            if av < bv {
                return -1;
            }
            if av > bv {
                return 1;
            }
            i = ae;
            j = be;
        } else {
            let ac = a[i];
            let bc = b[j];
            if (ac as u32) < (bc as u32) {
                return -1;
            }
            if (ac as u32) > (bc as u32) {
                return 1;
            }
            assert(x.drop_first() =~= a@.skip(i + 1));
            assert(y.drop_first() =~= b@.skip(j + 1));
            i = i + 1;
            j = j + 1;
        }
    }
}

/// Compares two names in natural order (see [`natural_order`]), after turning
/// both to lower case with `str::to_lowercase`.
pub fn natural_cmp(a: &str, b: &str) -> (r: Ordering)
    ensures
        (r == Ordering::Less) == (natural_order(lowercase(a@), lowercase(b@)) < 0),
        (r == Ordering::Equal) == (natural_order(lowercase(a@), lowercase(b@)) == 0),
        (r == Ordering::Greater) == (natural_order(lowercase(a@), lowercase(b@)) > 0),
        is_ascii_text(a@) ==> lowercase(a@) == ascii_lowered(a@),
        is_ascii_text(b@) ==> lowercase(b@) == ascii_lowered(b@),
{
    let al = chars_of(to_lowercase(a).as_str());
    let bl = chars_of(to_lowercase(b).as_str());
    let sign = natural_sign(al.as_slice(), bl.as_slice());
    if sign < 0 {
        Ordering::Less
    } else if sign == 0 {
        Ordering::Equal
    } else {
        Ordering::Greater
    }
}

/// Whether `s` is empty or does not begin with a digit: a digit run ends
/// right before it.
pub open spec fn ends_run(s: Seq<char>) -> bool {
    s.len() == 0 || !is_digit(s[0])
}

/// A run of digits followed by a text that does not go on with a digit is
/// exactly as long as the run.
proof fn lemma_digit_run_of_digits(x: Seq<char>, t: Seq<char>)
    requires
        all_digits(x),
        ends_run(t),
    ensures
        digit_run(x + t) == x.len(),
    decreases x.len(),
{
    if x.len() == 0 {
        assert(x + t =~= t);
    } else {
        assert((x + t).drop_first() =~= x.drop_first() + t);
        assert(is_digit(x[0]));
        lemma_digit_run_of_digits(x.drop_first(), t);
    }
}

/// A text that does not end with a digit keeps its own first digit run when
/// anything is appended.
proof fn lemma_digit_run_of_prefix(p: Seq<char>, x: Seq<char>)
    requires
        p.len() > 0,
        !is_digit(p.last()),
    ensures
        digit_run(p + x) == digit_run(p),
        digit_run(p) < p.len(),
    decreases p.len(),
{
    if is_digit(p[0]) {
        assert(p.len() > 1);
        assert((p + x).drop_first() =~= p.drop_first() + x);
        lemma_digit_run_of_prefix(p.drop_first(), x);
    }
}

/// Numbers compare by value: two texts that agree up to a run of digits,
/// where the run of the first stands for a smaller number that fits in a
/// `u64` (so `file2` before `file10`, `photo 2` before `photo 70000`), are in
/// that order whatever follows the runs; where the two runs stand for the same
/// number (`007` and `7`), what follows them decides.
pub proof fn lemma_numbers_by_value(p: Seq<char>, x: Seq<char>, y: Seq<char>, s: Seq<char>, t: Seq<char>)
    requires
        p.len() == 0 || !is_digit(p.last()),
        x.len() > 0,
        y.len() > 0,
        all_digits(x),
        all_digits(y),
        digits_value(x) <= digits_value(y),
        digits_value(y) <= u64::MAX,
        ends_run(s),
        ends_run(t),
    ensures
        digits_value(x) < digits_value(y) ==> natural_order(p + x + s, p + y + t) < 0,
        digits_value(x) == digits_value(y) ==> natural_order(p + x + s, p + y + t) == natural_order(s, t),
    decreases p.len(),
{
    let a = p + x + s;
    let b = p + y + t;
    if p.len() == 0 {
        assert(a =~= x + s);
        assert(b =~= y + t);
        lemma_digit_run_of_digits(x, s);
        lemma_digit_run_of_digits(y, t);
        assert(a.take(x.len() as int) =~= x);
        assert(b.take(y.len() as int) =~= y);
        assert(a.skip(x.len() as int) =~= s);
        assert(b.skip(y.len() as int) =~= t);
        assert(is_digit(a[0]) && is_digit(b[0])) by {
            assert(a[0] == x[0]);
            assert(b[0] == y[0]);
        }
    } else if is_digit(p[0]) {
        assert(a =~= p + (x + s));
        assert(b =~= p + (y + t));
        lemma_digit_run_of_prefix(p, x + s);
        lemma_digit_run_of_prefix(p, y + t);
        lemma_digit_run_bounds(p);
        let n = digit_run(p) as int;
        assert(a.take(n) =~= p.take(n));
        assert(b.take(n) =~= p.take(n));
        assert(a[0] == p[0] && b[0] == p[0]);
        let q = p.skip(n);
        assert(q.last() == p.last());
        assert(a.skip(n) =~= q + x + s);
        assert(b.skip(n) =~= q + y + t);
        lemma_numbers_by_value(q, x, y, s, t);
    } else {
        assert(a[0] == p[0] && b[0] == p[0]);
        let q = p.drop_first();
        if q.len() > 0 {
            assert(q.last() == p.last());
        }
        assert(a.drop_first() =~= q + x + s);
        assert(b.drop_first() =~= q + y + t);
        lemma_numbers_by_value(q, x, y, s, t);
    }
}

} // verus!
