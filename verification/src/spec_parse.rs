//! The reference semantics of bencode decoding: a total specification
//! parser over byte sequences. `sp_value(s, i, d, enf)` parses one value at
//! position `i` with remaining container budget `d`; `enf` is whether strict
//! ascending key order is enforced (duplicate keys are rejected either way).
//!
//! The executable decoder is proved to return exactly what these functions
//! say, and the round-trip laws are stated over them.

use vstd::prelude::*;
use crate::bytes::{is_bencode_digit, bytes_lt, digits_val, digit_run_end};
use crate::model::BenValue;

verus! {

/// One integer literal at `i` (caller has checked `s[i] == 'i'`): the value
/// and the position one past the closing `'e'`. Rejects empty digit runs,
/// missing delimiters, leading zeros, negative zero, and values outside the
/// signed 64-bit range.
pub open spec fn sp_int(s: Seq<u8>, i: int) -> Option<(int, int)> {
    let neg = i + 1 < s.len() && s[i + 1] == 45;
    let ds = if neg { i + 2 } else { i + 1 };
    let de = digit_run_end(s, ds);
    if de == ds {
        None
    } else if de >= s.len() || s[de] != 101 {
        None
    } else if s[ds] == 48 && (de > ds + 1 || neg) {
        None
    } else {
        let m = digits_val(s, ds, de);
        let v: int = if neg { -m } else { m };
        if v < i64::MIN || v > i64::MAX {
            None
        } else {
            Some((v, de + 1))
        }
    }
}

/// One byte string at `i` (caller has checked that `s[i]` is a digit): the
/// contents and the position one past them. Rejects a missing `':'`, a
/// leading zero in the length (except the length `0` itself), and a declared
/// length that exceeds the remaining input.
pub open spec fn sp_bstr(s: Seq<u8>, i: int) -> Option<(Seq<u8>, int)> {
    let de = digit_run_end(s, i);
    if de == i {
        None
    } else if de >= s.len() || s[de] != 58 {
        None
    } else if s[i] == 48 && de > i + 1 {
        None
    } else {
        let len = digits_val(s, i, de);
        if len > s.len() - (de + 1) {
            None
        } else {
            Some((s.subrange(de + 1, de + 1 + len), de + 1 + len))
        }
    }
}

/// Length bound: a byte string whose declared length exceeds the remaining
/// input is rejected, and so is any value starting there.
pub proof fn lemma_length_bound(s: Seq<u8>, i: int, d: nat, enf: bool)
    requires
        0 <= i < s.len(),
        is_bencode_digit(s[i]),
        ({
            let de = digit_run_end(s, i);
            &&& de < s.len()
            &&& s[de] == 58
            &&& digits_val(s, i, de) > s.len() - (de + 1)
        }),
    ensures
        sp_bstr(s, i) is None,
        sp_value(s, i, d, enf) is None,
{
}

/// Whether a new dictionary key may follow the keys seen so far.
pub open spec fn key_admissible(prev: Seq<Seq<u8>>, k: Seq<u8>, enf: bool) -> bool {
    if enf {
        prev.len() == 0 || bytes_lt(prev.last(), k)
    } else {
        !prev.contains(k)
    }
}

/// One bencode value at `i`.
pub open spec fn sp_value(s: Seq<u8>, i: int, d: nat, enf: bool) -> Option<(BenValue, int)>
    decreases s.len() - i, 1int,
{
    if i < 0 || i >= s.len() {
        None
    } else if s[i] == 105 {
        match sp_int(s, i) {
            Some((n, e)) => Some((BenValue::Int(n), e)),
            None => None,
        }
    } else if is_bencode_digit(s[i]) {
        match sp_bstr(s, i) {
            Some((b, e)) => Some((BenValue::Bytes(b), e)),
            None => None,
        }
    } else if s[i] == 108 {
        if d == 0 {
            None
        } else {
            match sp_items(s, i + 1, (d - 1) as nat, enf) {
                Some((vs, e)) => Some((BenValue::List(vs), e)),
                None => None,
            }
        }
    } else if s[i] == 100 {
        if d == 0 {
            None
        } else {
            match sp_pairs(s, i + 1, (d - 1) as nat, enf, Seq::empty()) {
                Some((ps, e)) => Some((BenValue::Dict(ps), e)),
                None => None,
            }
        }
    } else {
        None
    }
}

/// List elements from `i` up to and including the closing `'e'`.
pub open spec fn sp_items(s: Seq<u8>, i: int, d: nat, enf: bool) -> Option<(Seq<BenValue>, int)>
    decreases s.len() - i, 2int,
{
    if i < 0 || i >= s.len() {
        None
    } else if s[i] == 101 {
        Some((Seq::empty(), i + 1))
    } else {
        match sp_value(s, i, d, enf) {
            None => None,
            Some((v, e)) => if e <= i || e > s.len() {
                None
            } else {
                match sp_items(s, e, d, enf) {
                    None => None,
                    Some((vs, e2)) => Some((seq![v] + vs, e2)),
                }
            },
        }
    }
}

/// Dictionary entries from `i` up to and including the closing `'e'`;
/// `prev` holds the keys already read, in order.
pub open spec fn sp_pairs(s: Seq<u8>, i: int, d: nat, enf: bool, prev: Seq<Seq<u8>>) -> Option<
    (Seq<(Seq<u8>, BenValue)>, int),
>
    decreases s.len() - i, 2int,
{
    if i < 0 || i >= s.len() {
        None
    } else if s[i] == 101 {
        Some((Seq::empty(), i + 1))
    } else {
        match sp_bstr(s, i) {
            None => None,
            Some((k, ke)) => if !key_admissible(prev, k, enf) {
                None
            } else if ke < i || ke > s.len() {
                None
            } else {
                match sp_value(s, ke, d, enf) {
                    None => None,
                    Some((v, e)) => if e <= i || e > s.len() {
                        None
                    } else {
                        match sp_pairs(s, e, d, enf, prev.push(k)) {
                            None => None,
                            Some((ps, e2)) => Some((seq![(k, v)] + ps, e2)),
                        }
                    },
                }
            },
        }
    }
}

} // verus!

