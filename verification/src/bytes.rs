//! Byte-level helpers shared by the codec: lexicographic ordering of byte
//! strings (the order bencode dictionary keys must obey) and canonical
//! decimal digit runs (used by integer and length encodings).

use vstd::prelude::*;

verus! {

/// ASCII digit, `'0'` through `'9'`.
pub open spec fn is_bencode_digit(b: u8) -> bool {
    48 <= b <= 57
}

/// Strict lexicographic order on byte strings, byte-wise, shorter prefix first.
pub open spec fn bytes_lt(a: Seq<u8>, b: Seq<u8>) -> bool
    decreases a.len(),
{
    if b.len() == 0 {
        false
    } else if a.len() == 0 {
        true
    } else if a[0] < b[0] {
        true
    } else if a[0] > b[0] {
        false
    } else {
        bytes_lt(a.drop_first(), b.drop_first())
    }
}

pub proof fn lemma_bytes_lt_irrefl(a: Seq<u8>)
    ensures
        !bytes_lt(a, a),
    decreases a.len(),
{
    if a.len() > 0 {
        lemma_bytes_lt_irrefl(a.drop_first());
    }
}

pub proof fn lemma_bytes_lt_trans(a: Seq<u8>, b: Seq<u8>, c: Seq<u8>)
    requires
        bytes_lt(a, b),
        bytes_lt(b, c),
    ensures
        bytes_lt(a, c),
    decreases a.len(),
{
    if a.len() > 0 && a[0] == b[0] && b[0] == c[0] {
        lemma_bytes_lt_trans(a.drop_first(), b.drop_first(), c.drop_first());
    }
}

/// If two byte strings agree up to `j` and differ at `j`, the one with the
/// smaller byte at `j` is lexicographically smaller.
pub proof fn lemma_bytes_lt_from_diff(a: Seq<u8>, b: Seq<u8>, j: int)
    requires
        0 <= j < a.len(),
        j < b.len(),
        forall|m: int| 0 <= m < j ==> a[m] == b[m],
        a[j] < b[j],
    ensures
        bytes_lt(a, b),
    decreases j,
{
    if j > 0 {
        lemma_bytes_lt_from_diff(a.drop_first(), b.drop_first(), j - 1);
    }
}

/// A strict prefix is lexicographically smaller.
pub proof fn lemma_bytes_lt_strict_prefix(a: Seq<u8>, b: Seq<u8>)
    requires
        a.len() < b.len(),
        forall|m: int| 0 <= m < a.len() ==> a[m] == b[m],
    ensures
        bytes_lt(a, b),
    decreases a.len(),
{
    if a.len() > 0 {
        lemma_bytes_lt_strict_prefix(a.drop_first(), b.drop_first());
    }
}

/// The order is total: two mutually incomparable byte strings are equal.
pub proof fn lemma_bytes_lt_connected(a: Seq<u8>, b: Seq<u8>)
    requires
        !bytes_lt(a, b),
        !bytes_lt(b, a),
    ensures
        a == b,
    decreases a.len(),
{
    if a.len() > 0 && b.len() > 0 && a[0] == b[0] {
        lemma_bytes_lt_connected(a.drop_first(), b.drop_first());
        assert(a.len() == b.len());
        assert forall|m: int| 0 <= m < a.len() implies a[m] == b[m] by {
            if m >= 1 {
                assert(a[m] == a.drop_first()[m - 1]);
                assert(b[m] == b.drop_first()[m - 1]);
            }
        }
        assert(a =~= b);
    } else {
        assert(a.len() == 0 && b.len() == 0);
        assert(a =~= b);
    }
}

/// In an adjacently sorted sequence of keys, every earlier key is smaller
/// than every later key.
pub proof fn lemma_sorted_run_lt(ks: Seq<Seq<u8>>, i: int, j: int)
    requires
        forall|m: int| 0 <= m < ks.len() - 1 ==> bytes_lt(#[trigger] ks[m], ks[m + 1]),
        0 <= i < j < ks.len(),
    ensures
        bytes_lt(ks[i], ks[j]),
    decreases j - i,
{
    if j > i + 1 {
        lemma_sorted_run_lt(ks, i, j - 1);
        lemma_bytes_lt_trans(ks[i], ks[j - 1], ks[j]);
    }
}

/// Value of the decimal digit run `s[i..j]`, most significant digit first.
pub open spec fn digits_val(s: Seq<u8>, i: int, j: int) -> int
    decreases j - i,
{
    if i >= j {
        0
    } else {
        digits_val(s, i, j - 1) * 10 + (s[j - 1] - 48)
    }
}

/// Canonical decimal digits of a non-negative integer (no leading zeros).
pub open spec fn dec_digits(n: int) -> Seq<u8>
    decreases n,
{
    if n <= 9 {
        seq![(48 + n) as u8]
    } else {
        dec_digits(n / 10).push((48 + n % 10) as u8)
    }
}

/// `digits_val` reads only the bytes in `[i, j)`.
pub proof fn lemma_digits_val_congruent(s: Seq<u8>, t: Seq<u8>, i: int, j: int)
    requires
        forall|m: int| i <= m < j ==> s[m] == t[m],
    ensures
        digits_val(s, i, j) == digits_val(t, i, j),
    decreases j - i,
{
    if i < j {
        lemma_digits_val_congruent(s, t, i, j - 1);
    }
}

/// Shifting both the sequence and the index window leaves the value alone.
pub proof fn lemma_digits_val_offset(s: Seq<u8>, t: Seq<u8>, i: int, j: int, off: int)
    requires
        forall|m: int| i <= m < j ==> s[m] == t[m - off],
    ensures
        digits_val(s, i, j) == digits_val(t, i - off, j - off),
    decreases j - i,
{
    if i < j {
        lemma_digits_val_offset(s, t, i, j - 1, off);
    }
}

pub proof fn lemma_digits_val_nonneg(s: Seq<u8>, i: int, j: int)
    requires
        forall|m: int| i <= m < j ==> is_bencode_digit(#[trigger] s[m]),
    ensures
        digits_val(s, i, j) >= 0,
    decreases j - i,
{
    if i < j {
        lemma_digits_val_nonneg(s, i, j - 1);
    }
}

/// A digit run with a nonzero leading digit has a positive value.
pub proof fn lemma_digits_val_pos(s: Seq<u8>, i: int, j: int)
    requires
        i < j,
        forall|m: int| i <= m < j ==> is_bencode_digit(#[trigger] s[m]),
        s[i] != 48,
    ensures
        digits_val(s, i, j) >= 1,
    decreases j - i,
{
    if j == i + 1 {
        assert(digits_val(s, i, i) == 0);
    } else {
        lemma_digits_val_pos(s, i, j - 1);
    }
}

/// Properties of the canonical decimal digits of `n`: nonempty, all digits,
/// no leading zero (unless `n` itself is a single digit), and parsing them
/// back yields `n`.
pub proof fn lemma_dec_digits_props(n: int)
    requires
        n >= 0,
    ensures
        dec_digits(n).len() >= 1,
        forall|m: int| 0 <= m < dec_digits(n).len() ==> is_bencode_digit(#[trigger] dec_digits(n)[m]),
        n >= 1 ==> dec_digits(n)[0] != 48,
        n <= 9 <==> dec_digits(n).len() == 1,
        digits_val(dec_digits(n), 0, dec_digits(n).len() as int) == n,
    decreases n,
{
    if n <= 9 {
        assert(digits_val(dec_digits(n), 0, 0) == 0);
        assert(digits_val(dec_digits(n), 0, 1) == dec_digits(n)[0] - 48);
    } else {
        lemma_dec_digits_props(n / 10);
        let p = dec_digits(n / 10);
        let w = dec_digits(n);
        assert(w == p.push((48 + n % 10) as u8));
        lemma_digits_val_congruent(w, p, 0, p.len() as int);
        assert(digits_val(w, 0, w.len() as int)
            == digits_val(w, 0, p.len() as int) * 10 + (w[w.len() - 1] - 48));
        assert((n / 10) * 10 + n % 10 == n) by (nonlinear_arith)
            requires n >= 0;
    }
}

/// A nonempty digit run with no leading zero is exactly the canonical
/// decimal rendering of its value.
pub proof fn lemma_digits_canonical(s: Seq<u8>, i: int, j: int)
    requires
        0 <= i < j <= s.len(),
        forall|m: int| i <= m < j ==> is_bencode_digit(#[trigger] s[m]),
        s[i] != 48 || j == i + 1,
    ensures
        dec_digits(digits_val(s, i, j)) == s.subrange(i, j),
    decreases j - i,
{
    lemma_digits_val_nonneg(s, i, j);
    if j == i + 1 {
        let v = digits_val(s, i, j);
        assert(digits_val(s, i, i) == 0);
        assert(v == s[i] - 48);
        assert(dec_digits(v) =~= s.subrange(i, j));
    } else {
        lemma_digits_canonical(s, i, j - 1);
        lemma_digits_val_pos(s, i, j - 1);
        let vp = digits_val(s, i, j - 1);
        let d = s[j - 1] - 48;
        let v = digits_val(s, i, j);
        assert(v == vp * 10 + d);
        assert(v / 10 == vp && v % 10 == d && v >= 10) by (nonlinear_arith)
            requires vp >= 1, 0 <= d <= 9, v == vp * 10 + d;
        assert(dec_digits(v) == dec_digits(vp).push((48 + d) as u8));
        assert(dec_digits(v) =~= s.subrange(i, j));
    }
}

/// End of the digit run starting at `i`: the first index at or after `i`
/// holding a non-digit (or the end of the input).
pub open spec fn digit_run_end(s: Seq<u8>, i: int) -> int
    decreases s.len() - i,
{
    if i < 0 || i >= s.len() {
        i
    } else if is_bencode_digit(s[i]) {
        digit_run_end(s, i + 1)
    } else {
        i
    }
}

pub proof fn lemma_digit_run_end(s: Seq<u8>, i: int)
    requires
        0 <= i <= s.len(),
    ensures
        i <= digit_run_end(s, i) <= s.len(),
        forall|m: int| i <= m < digit_run_end(s, i) ==> is_bencode_digit(#[trigger] s[m]),
        digit_run_end(s, i) < s.len() ==> !is_bencode_digit(s[digit_run_end(s, i)]),
    decreases s.len() - i,
{
    if i < s.len() && is_bencode_digit(s[i]) {
        lemma_digit_run_end(s, i + 1);
    }
}

/// The digit run ends exactly where the digits stop.
pub proof fn lemma_digit_run_end_exact(s: Seq<u8>, i: int, j: int)
    requires
        0 <= i <= j <= s.len(),
        forall|m: int| i <= m < j ==> is_bencode_digit(#[trigger] s[m]),
        j < s.len() ==> !is_bencode_digit(s[j]),
    ensures
        digit_run_end(s, i) == j,
    decreases j - i,
{
    if i < j {
        lemma_digit_run_end_exact(s, i + 1, j);
    }
}

} // verus!
