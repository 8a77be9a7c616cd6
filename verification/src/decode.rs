//! The executable decoder: recursive descent over a byte buffer, proved to
//! return exactly what the specification parser (`sp_value`) says, with the
//! byte offset of each failure.

use vstd::prelude::*;
use crate::bytes::{
    is_bencode_digit, digits_val, digit_run_end, lemma_digit_run_end_exact,
};
use crate::model::{BenValue, spec_encode, depth, wf, wf_ints};
use crate::spec_parse::{sp_int, sp_bstr, sp_value, sp_items, sp_pairs, key_admissible};
use crate::tree::{Bencode, view_items, view_pairs, bytes_eq, bytes_less,
    lemma_view_items, lemma_view_pairs, lemma_view_items_push, lemma_view_pairs_push};
use crate::roundtrip::lemma_decode_encode_roundtrip;

verus! {

/// Options for decoding.
#[derive(Clone, Copy, Debug)]
pub struct BDecodeOpt {
    /// Reject a dictionary key that is not strictly greater than the one
    /// before it. Duplicate keys are rejected in either mode.
    pub enforce_sorted_keys: bool,
    /// Greatest container nesting depth accepted.
    pub max_recursion_depth: u32,
}

impl BDecodeOpt {
    /// Options with the given fields.
    pub fn new(enforce_sorted_keys: bool, max_recursion_depth: u32) -> (r: BDecodeOpt)
        ensures
            r.enforce_sorted_keys == enforce_sorted_keys,
            r.max_recursion_depth == max_recursion_depth,
    {
        BDecodeOpt { enforce_sorted_keys, max_recursion_depth }
    }
}

impl Default for BDecodeOpt {
    /// Sorted keys enforced, nesting bounded at 50.
    fn default() -> (r: BDecodeOpt)
        ensures
            r.enforce_sorted_keys == true,
            r.max_recursion_depth == 50,
    {
        BDecodeOpt { enforce_sorted_keys: true, max_recursion_depth: 50 }
    }
}

/// A decoding failure, with the byte offset at which it was detected.
#[derive(Clone, Debug)]
pub enum BencodeParseError {
    /// The input was empty, or bytes trail the outermost value.
    BytesEmpty { pos: usize },
    /// A byte that no value can start with, or a missing terminator.
    InvalidByte { pos: usize },
    /// An integer literal without its closing delimiter.
    InvalidIntNoDelimiter { pos: usize },
    /// The literal `i-0e`.
    InvalidIntNegativeZero { pos: usize },
    /// An integer literal with leading zeros.
    InvalidIntZeroPadding { pos: usize },
    /// An integer literal with no digits, or one outside the signed 64-bit
    /// range.
    InvalidIntParseError { pos: usize },
    /// A dictionary key not strictly greater than the key before it.
    InvalidKeyOrdering { pos: usize, key: Vec<u8> },
    /// A dictionary key equal to an earlier key.
    InvalidKeyDuplicates { pos: usize, key: Vec<u8> },
    /// A byte-string length that exceeds the remaining input.
    InvalidLengthOverflow { pos: usize },
    /// Container nesting deeper than the configured maximum.
    InvalidRecursionLimitExceeded { pos: usize },
}

/// End of the digit run starting at `from`.
fn scan_digits(s: &Vec<u8>, from: usize) -> (j: usize)
    requires
        from <= s@.len(),
    ensures
        from <= j <= s@.len(),
        j as int == digit_run_end(s@, from as int),
{
    let n = s.len();
    let mut j = from;
    while j < n && 48 <= s[j] && s[j] <= 57
        invariant
            from <= j <= n,
            n == s@.len(),
            forall|m: int| from <= m < j ==> is_bencode_digit(#[trigger] s@[m]),
        decreases n - j,
    {
        j += 1;
    }
    proof {
        lemma_digit_run_end_exact(s@, from as int, j as int);
    }
    j
}

/// Value of the digit run `s[from..to]`, or `None` if it exceeds `cap`.
fn accum_digits(s: &Vec<u8>, from: usize, to: usize, cap: u64) -> (r: Option<u64>)
    requires
        from <= to <= s@.len(),
        forall|m: int| from <= m < to ==> is_bencode_digit(#[trigger] s@[m]),
    ensures
        match r {
            Some(acc) => acc as int == digits_val(s@, from as int, to as int) && acc <= cap,
            None => digits_val(s@, from as int, to as int) > cap,
        },
{
    let mut acc: u64 = 0;
    let mut over = false;
    let mut j = from;
    assert(digits_val(s@, from as int, from as int) == 0);
    while j < to
        invariant
            from <= j <= to <= s@.len(),
            forall|m: int| from <= m < to ==> is_bencode_digit(#[trigger] s@[m]),
            !over ==> acc as int == digits_val(s@, from as int, j as int) && acc <= cap,
            over ==> digits_val(s@, from as int, j as int) > cap,
        decreases to - j,
    {
        let d = s[j] - 48;
        proof {
            assert(digits_val(s@, from as int, j + 1)
                == digits_val(s@, from as int, j as int) * 10 + d);
        }
        if !over {
            let wide: u128 = acc as u128 * 10 + d as u128;
            if wide > cap as u128 {
                over = true;
            } else {
                acc = wide as u64;
            }
        } else {
            proof {
                crate::bytes::lemma_digits_val_nonneg(s@, from as int, j as int);
            }
        }
        j += 1;
    }
    if over {
        None
    } else {
        Some(acc)
    }
}

/// One integer literal at `i`.
fn dec_int(s: &Vec<u8>, i: usize) -> (r: Result<(i64, usize), BencodeParseError>)
    requires
        i < s@.len(),
        s@[i as int] == 105,
    ensures
        match r {
            Ok((n, e)) => sp_int(s@, i as int) == Some((n as int, e as int)) && i < e <= s@.len(),
            Err(_) => sp_int(s@, i as int) is None,
        },
{
    let n = s.len();
    let neg = i + 1 < n && s[i + 1] == 45;
    let ds = if neg { i + 2 } else { i + 1 };
    let de = scan_digits(s, ds);
    proof {
        crate::bytes::lemma_digit_run_end(s@, ds as int);
    }
    if de == ds {
        return Err(BencodeParseError::InvalidIntParseError { pos: i });
    }
    if de >= n || s[de] != 101 {
        return Err(BencodeParseError::InvalidIntNoDelimiter { pos: i });
    }
    if s[ds] == 48 {
        if neg {
            return Err(BencodeParseError::InvalidIntNegativeZero { pos: i });
        }
        if de > ds + 1 {
            return Err(BencodeParseError::InvalidIntZeroPadding { pos: i });
        }
    }
    let m = match accum_digits(s, ds, de, 9223372036854775808u64) {
        Some(acc) => acc,
        None => {
            return Err(BencodeParseError::InvalidIntParseError { pos: i });
        },
    };
    if neg {
        let val: i64 = if m == 9223372036854775808u64 {
            i64::MIN
        } else {
            -(m as i64)
        };
        assert(val as int == -(m as int));
        Ok((val, de + 1))
    } else {
        if m > 9223372036854775807u64 {
            return Err(BencodeParseError::InvalidIntParseError { pos: i });
        }
        Ok((m as i64, de + 1))
    }
}

/// One byte string at `i`.
fn dec_bstr(s: &Vec<u8>, i: usize) -> (r: Result<(Vec<u8>, usize), BencodeParseError>)
    requires
        i < s@.len(),
        is_bencode_digit(s@[i as int]),
    ensures
        match r {
            Ok((b, e)) => sp_bstr(s@, i as int) == Some((b@, e as int)) && i < e <= s@.len(),
            Err(_) => sp_bstr(s@, i as int) is None,
        },
{
    let n = s.len();
    let de = scan_digits(s, i);
    proof {
        crate::bytes::lemma_digit_run_end(s@, i as int);
    }
    if de >= n || s[de] != 58 {
        return Err(BencodeParseError::InvalidByte { pos: i });
    }
    if s[i] == 48 && de > i + 1 {
        return Err(BencodeParseError::InvalidByte { pos: i });
    }
    let remaining = n - (de + 1);
    let ln = match accum_digits(s, i, de, remaining as u64) {
        Some(acc) => acc as usize,
        None => {
            return Err(BencodeParseError::InvalidLengthOverflow { pos: i });
        },
    };
    let mut b: Vec<u8> = Vec::new();
    let mut k: usize = 0;
    while k < ln
        invariant
            0 <= k <= ln,
            ln <= n - (de + 1),
            de + 1 + ln <= n,
            n == s@.len(),
            b@ == s@.subrange(de + 1, de + 1 + k),
        decreases ln - k,
    {
        b.push(s[de + 1 + k]);
        assert(b@ =~= s@.subrange(de + 1, de + 1 + (k + 1)));
        k += 1;
    }
    Ok((b, de + 1 + ln))
}

/// Prefix some already-parsed elements onto a parse result.
pub open spec fn prepend_items(pre: Seq<BenValue>, r: Option<(Seq<BenValue>, int)>) -> Option<
    (Seq<BenValue>, int),
> {
    match r {
        None => None,
        Some((vs, e)) => Some((pre + vs, e)),
    }
}

/// Prefix some already-parsed entries onto a parse result.
pub open spec fn prepend_pairs(
    pre: Seq<(Seq<u8>, BenValue)>,
    r: Option<(Seq<(Seq<u8>, BenValue)>, int)>,
) -> Option<(Seq<(Seq<u8>, BenValue)>, int)> {
    match r {
        None => None,
        Some((ps, e)) => Some((pre + ps, e)),
    }
}

/// One bencode value at `i`, with `depth_left` container levels allowed.
#[verifier::loop_isolation(false)]
fn dec_value(s: &Vec<u8>, i: usize, depth_left: u32, enf: bool) -> (r: Result<
    (Bencode, usize),
    BencodeParseError,
>)
    requires
        i <= s@.len(),
    ensures
        match r {
            Ok((v, e)) => {
                &&& sp_value(s@, i as int, depth_left as nat, enf) == Some((v@, e as int))
                &&& i < e <= s@.len()
            },
            Err(_) => sp_value(s@, i as int, depth_left as nat, enf) is None,
        },
    decreases s@.len() - i, 1int,
{
    let n = s.len();
    if i >= n {
        return Err(BencodeParseError::InvalidByte { pos: i });
    }
    let c = s[i];
    if c == 105 {
        match dec_int(s, i) {
            Ok((v, e)) => Ok((Bencode::Int(v), e)),
            Err(err) => Err(err),
        }
    } else if 48 <= c && c <= 57 {
        match dec_bstr(s, i) {
            Ok((b, e)) => Ok((Bencode::Bytes(b), e)),
            Err(err) => Err(err),
        }
    } else if c == 108 {
        if depth_left == 0 {
            return Err(BencodeParseError::InvalidRecursionLimitExceeded { pos: i });
        }
        let ghost dd = (depth_left - 1) as nat;
        let ghost start = i + 1 as int;
        let mut items: Vec<Bencode> = Vec::new();
        let mut pos: usize = i + 1;
        proof {
            assert(view_items(items@) =~= Seq::<BenValue>::empty());
            assert(view_items(items@) + (sp_items(s@, start, dd, enf)->0).0
                =~= (sp_items(s@, start, dd, enf)->0).0);
        }
        while pos < n && s[pos] != 101
            invariant
                i < pos <= n,
                sp_items(s@, start, dd, enf) == prepend_items(
                    view_items(items@),
                    sp_items(s@, pos as int, dd, enf),
                ),
            decreases n - pos,
        {
            match dec_value(s, pos, depth_left - 1, enf) {
                Err(err) => {
                    return Err(err);
                },
                Ok((v, e2)) => {
                    proof {
                        let pre = view_items(items@);
                        let rest = sp_items(s@, e2 as int, dd, enf);
                        lemma_view_items_push(items@, v);
                        if rest is Some {
                            assert(pre + (seq![v@] + (rest->0).0) =~= pre.push(v@) + (rest->0).0);
                        }
                    }
                    items.push(v);
                    pos = e2;
                },
            }
        }
        if pos >= n {
            return Err(BencodeParseError::InvalidByte { pos });
        }
        proof {
            assert(sp_items(s@, pos as int, dd, enf)
                == Some((Seq::<BenValue>::empty(), pos + 1 as int)));
            assert(view_items(items@) + Seq::<BenValue>::empty() =~= view_items(items@));
        }
        Ok((Bencode::List(items), pos + 1))
    } else if c == 100 {
        if depth_left == 0 {
            return Err(BencodeParseError::InvalidRecursionLimitExceeded { pos: i });
        }
        let ghost dd = (depth_left - 1) as nat;
        let ghost start = i + 1 as int;
        let mut entries: Vec<(Vec<u8>, Bencode)> = Vec::new();
        let mut pos: usize = i + 1;
        proof {
            assert(view_pairs(entries@) =~= Seq::<(Seq<u8>, BenValue)>::empty());
            assert(crate::model::keys_of(view_pairs(entries@)) =~= Seq::<Seq<u8>>::empty());
            assert(view_pairs(entries@) + (sp_pairs(s@, start, dd, enf, Seq::empty())->0).0
                =~= (sp_pairs(s@, start, dd, enf, Seq::empty())->0).0);
        }
        while pos < n && s[pos] != 101
            invariant
                i < pos <= n,
                sp_pairs(s@, start, dd, enf, Seq::empty()) == prepend_pairs(
                    view_pairs(entries@),
                    sp_pairs(s@, pos as int, dd, enf, crate::model::keys_of(view_pairs(entries@))),
                ),
            decreases n - pos,
        {
            let ghost prev = crate::model::keys_of(view_pairs(entries@));
            if s[pos] < 48 || s[pos] > 57 {
                proof {
                    assert(digit_run_end(s@, pos as int) == pos);
                }
                return Err(BencodeParseError::InvalidByte { pos });
            }
            let (kbytes, ke) = match dec_bstr(s, pos) {
                Err(err) => {
                    return Err(err);
                },
                Ok(p) => p,
            };
            proof {
                lemma_view_pairs(entries@);
                assert(forall|m: int| 0 <= m < entries@.len()
                    ==> #[trigger] prev[m] == entries@[m].0@);
            }
            if enf {
                if entries.len() > 0 {
                    let lastidx = entries.len() - 1;
                    if !bytes_less(&entries[lastidx].0, &kbytes) {
                        proof {
                            assert(prev.last() == entries@[lastidx as int].0@);
                            assert(!key_admissible(prev, kbytes@, enf));
                        }
                        if bytes_eq(&entries[lastidx].0, &kbytes) {
                            return Err(BencodeParseError::InvalidKeyDuplicates {
                                pos,
                                key: kbytes,
                            });
                        }
                        return Err(BencodeParseError::InvalidKeyOrdering { pos, key: kbytes });
                    }
                    proof {
                        assert(prev.last() == entries@[lastidx as int].0@);
                        assert(key_admissible(prev, kbytes@, enf));
                    }
                } else {
                    proof {
                        assert(prev.len() == 0);
                    }
                }
            } else {
                let en = entries.len();
                let mut t: usize = 0;
                while t < en
                    invariant
                        0 <= t <= en,
                        en == entries@.len(),
                        prev.len() == en,
                        forall|m: int| 0 <= m < en ==> #[trigger] prev[m] == entries@[m].0@,
                        forall|m: int| 0 <= m < t ==> #[trigger] prev[m] != kbytes@,
                    decreases en - t,
                {
                    if bytes_eq(&entries[t].0, &kbytes) {
                        proof {
                            assert(prev[t as int] == kbytes@);
                            assert(!key_admissible(prev, kbytes@, enf));
                        }
                        return Err(BencodeParseError::InvalidKeyDuplicates { pos, key: kbytes });
                    }
                    t += 1;
                }
                proof {
                    assert(!prev.contains(kbytes@));
                }
            }
            match dec_value(s, ke, depth_left - 1, enf) {
                Err(err) => {
                    return Err(err);
                },
                Ok((v, e2)) => {
                    proof {
                        let pre = view_pairs(entries@);
                        let rest = sp_pairs(s@, e2 as int, dd, enf, prev.push(kbytes@));
                        lemma_view_pairs_push(entries@, (kbytes, v));
                        assert(crate::model::keys_of(pre.push((kbytes@, v@)))
                            =~= prev.push(kbytes@));
                        if rest is Some {
                            assert(pre + (seq![(kbytes@, v@)] + (rest->0).0)
                                =~= pre.push((kbytes@, v@)) + (rest->0).0);
                        }
                    }
                    entries.push((kbytes, v));
                    pos = e2;
                },
            }
        }
        if pos >= n {
            return Err(BencodeParseError::InvalidByte { pos });
        }
        proof {
            assert(sp_pairs(s@, pos as int, dd, enf, crate::model::keys_of(view_pairs(entries@)))
                == Some((Seq::<(Seq<u8>, BenValue)>::empty(), pos + 1 as int)));
            assert(view_pairs(entries@) + Seq::<(Seq<u8>, BenValue)>::empty()
                =~= view_pairs(entries@));
        }
        Ok((Bencode::Dict(entries), pos + 1))
    } else {
        Err(BencodeParseError::InvalidByte { pos: i })
    }
}

impl Bencode {
    /// Decode one complete bencode value from the buffer. Trailing bytes
    /// after the outermost value are rejected.
    pub fn decode(bytes: &Vec<u8>, opts: BDecodeOpt) -> (r: Result<Bencode, BencodeParseError>)
        ensures
            ({
                let sp = sp_value(
                    bytes@,
                    0,
                    opts.max_recursion_depth as nat,
                    opts.enforce_sorted_keys,
                );
                match r {
                    Ok(t) => {
                        &&& sp == Some((t@, bytes@.len() as int))
                        &&& spec_encode(t@) == bytes@
                        &&& wf_ints(t@)
                        &&& depth(t@) <= opts.max_recursion_depth
                        &&& (opts.enforce_sorted_keys ==> wf(t@))
                    },
                    Err(_) => sp is None || (sp->0).1 != bytes@.len(),
                }
            }),
    {
        if bytes.len() == 0 {
            return Err(BencodeParseError::BytesEmpty { pos: 0 });
        }
        match dec_value(bytes, 0, opts.max_recursion_depth, opts.enforce_sorted_keys) {
            Ok((v, end)) => {
                if end != bytes.len() {
                    Err(BencodeParseError::BytesEmpty { pos: end })
                } else {
                    proof {
                        lemma_decode_encode_roundtrip(
                            bytes@,
                            opts.max_recursion_depth as nat,
                            opts.enforce_sorted_keys,
                            v@,
                        );
                    }
                    Ok(v)
                }
            },
            Err(err) => Err(err),
        }
    }
}

} // verus!
