//! Round-trip laws of the codec.
//!
//! Soundness: whatever the specification parser accepts re-encodes to
//! exactly the bytes it consumed. Completeness: the canonical encoding of
//! any well-formed tree of bounded depth parses back to that very tree.

use vstd::prelude::*;
use crate::bytes::{
    is_bencode_digit, bytes_lt, digits_val, dec_digits, digit_run_end,
    lemma_bytes_lt_irrefl, lemma_sorted_run_lt, lemma_digits_val_nonneg, lemma_digits_val_pos,
    lemma_digits_canonical, lemma_digit_run_end,
};
use crate::model::{
    BenValue, depth, items_depth, pairs_depth, keys_sorted, wf, wf_ints, int_bytes, bstr_bytes,
    spec_encode, encode_items, encode_pairs,
};
use crate::spec_parse::{sp_int, sp_bstr, key_admissible, sp_value, sp_items, sp_pairs};

verus! {

/// An accepted byte string re-encodes to the bytes consumed.
pub proof fn lemma_sp_bstr_sound(s: Seq<u8>, i: int)
    requires
        0 <= i,
        sp_bstr(s, i) is Some,
    ensures
        sp_bstr(s, i) matches Some((b, e)) ==> {
            &&& i < e <= s.len()
            &&& bstr_bytes(b) == s.subrange(i, e)
        },
{
    lemma_digit_run_end(s, i);
    let de = digit_run_end(s, i);
    let len = digits_val(s, i, de);
    lemma_digits_val_nonneg(s, i, de);
    lemma_digits_canonical(s, i, de);
    let b = s.subrange(de + 1, de + 1 + len);
    assert(b.len() == len);
    assert(bstr_bytes(b) =~= s.subrange(i, de + 1 + len));
}

/// An accepted integer literal re-encodes to the bytes consumed.
pub proof fn lemma_sp_int_sound(s: Seq<u8>, i: int)
    requires
        0 <= i < s.len(),
        s[i] == 105,
        sp_int(s, i) is Some,
    ensures
        sp_int(s, i) matches Some((n, e)) ==> {
            &&& i < e <= s.len()
            &&& i64::MIN <= n <= i64::MAX
            &&& seq![105u8] + int_bytes(n) + seq![101u8] == s.subrange(i, e)
        },
{
    let neg = i + 1 < s.len() && s[i + 1] == 45;
    let ds = if neg { i + 2 } else { i + 1 };
    let de = digit_run_end(s, ds);
    lemma_digit_run_end(s, ds);
    let m = digits_val(s, ds, de);
    lemma_digits_val_nonneg(s, ds, de);
    lemma_digits_canonical(s, ds, de);
    if neg {
        lemma_digits_val_pos(s, ds, de);
        let n: int = -m;
        assert(int_bytes(n) == seq![45u8] + dec_digits(m));
        assert(seq![105u8] + int_bytes(n) + seq![101u8] =~= s.subrange(i, de + 1));
    } else {
        assert(int_bytes(m) == dec_digits(m));
        assert(seq![105u8] + int_bytes(m) + seq![101u8] =~= s.subrange(i, de + 1));
    }
}

/// Soundness of the specification parser for one value: the parsed tree is
/// well formed, fits the depth budget, and re-encodes to the consumed bytes.
pub proof fn lemma_sp_value_sound(s: Seq<u8>, i: int, d: nat, enf: bool)
    requires
        0 <= i,
        sp_value(s, i, d, enf) is Some,
    ensures
        sp_value(s, i, d, enf) matches Some((v, e)) ==> {
            &&& i < e <= s.len()
            &&& spec_encode(v) == s.subrange(i, e)
            &&& depth(v) <= d
            &&& wf_ints(v)
            &&& (enf ==> wf(v))
        },
    decreases s.len() - i, 1int,
{
    if s[i] == 105 {
        lemma_sp_int_sound(s, i);
    } else if is_bencode_digit(s[i]) {
        lemma_sp_bstr_sound(s, i);
    } else if s[i] == 108 {
        lemma_sp_items_sound(s, i + 1, (d - 1) as nat, enf);
        let (vs, e) = sp_items(s, i + 1, (d - 1) as nat, enf)->0;
        assert(spec_encode(BenValue::List(vs)) =~= s.subrange(i, e));
        crate::model::lemma_wf_ints_items_iff(vs);
        if enf {
            crate::model::lemma_wf_items_iff(vs);
        }
    } else if s[i] == 100 {
        lemma_sp_pairs_sound(s, i + 1, (d - 1) as nat, enf, Seq::empty());
        let (ps, e) = sp_pairs(s, i + 1, (d - 1) as nat, enf, Seq::empty())->0;
        assert(spec_encode(BenValue::Dict(ps)) =~= s.subrange(i, e));
        crate::model::lemma_wf_ints_pair_values_iff(ps);
        if enf {
            crate::model::lemma_wf_pair_values_iff(ps);
        }
    }
}

/// Soundness for a run of list elements up to and including the closing `'e'`.
pub proof fn lemma_sp_items_sound(s: Seq<u8>, i: int, d: nat, enf: bool)
    requires
        0 <= i,
        sp_items(s, i, d, enf) is Some,
    ensures
        sp_items(s, i, d, enf) matches Some((vs, e)) ==> {
            &&& i < e <= s.len()
            &&& s[e - 1] == 101
            &&& encode_items(vs) == s.subrange(i, e - 1)
            &&& items_depth(vs) <= d
            &&& forall|m: int| 0 <= m < vs.len() ==> wf_ints(#[trigger] vs[m])
            &&& (enf ==> forall|m: int| 0 <= m < vs.len() ==> wf(#[trigger] vs[m]))
        },
    decreases s.len() - i, 2int,
{
    if s[i] == 101 {
        let (vs, e) = sp_items(s, i, d, enf)->0;
        assert(encode_items(vs) =~= s.subrange(i, i));
    } else {
        lemma_sp_value_sound(s, i, d, enf);
        let (v, e1) = sp_value(s, i, d, enf)->0;
        lemma_sp_items_sound(s, e1, d, enf);
        let (vs1, e2) = sp_items(s, e1, d, enf)->0;
        let vs = seq![v] + vs1;
        assert(vs.first() == v);
        assert(vs.drop_first() =~= vs1);
        assert(encode_items(vs) == spec_encode(v) + encode_items(vs1));
        assert(encode_items(vs) =~= s.subrange(i, e2 - 1));
        assert(forall|m: int| 1 <= m < vs.len() ==> vs[m] == vs1[m - 1]);
    }
}

/// Soundness for a run of dictionary entries up to and including the closing
/// `'e'`; under enforcement the keys come out strictly ascending and above
/// every previously seen key.
pub proof fn lemma_sp_pairs_sound(s: Seq<u8>, i: int, d: nat, enf: bool, prev: Seq<Seq<u8>>)
    requires
        0 <= i,
        sp_pairs(s, i, d, enf, prev) is Some,
    ensures
        sp_pairs(s, i, d, enf, prev) matches Some((ps, e)) ==> {
            &&& i < e <= s.len()
            &&& s[e - 1] == 101
            &&& encode_pairs(ps) == s.subrange(i, e - 1)
            &&& pairs_depth(ps) <= d
            &&& forall|m: int| 0 <= m < ps.len() ==> wf_ints(#[trigger] ps[m].1)
            &&& (enf ==> {
                &&& forall|m: int| 0 <= m < ps.len() ==> wf(#[trigger] ps[m].1)
                &&& keys_sorted(ps)
                &&& (prev.len() > 0 && ps.len() > 0 ==> bytes_lt(prev.last(), ps[0].0))
            })
        },
    decreases s.len() - i, 2int,
{
    if s[i] == 101 {
        let (ps, e) = sp_pairs(s, i, d, enf, prev)->0;
        assert(encode_pairs(ps) =~= s.subrange(i, i));
    } else {
        lemma_sp_bstr_sound(s, i);
        let (k, ke) = sp_bstr(s, i)->0;
        lemma_sp_value_sound(s, ke, d, enf);
        let (v, e1) = sp_value(s, ke, d, enf)->0;
        lemma_sp_pairs_sound(s, e1, d, enf, prev.push(k));
        let (ps1, e2) = sp_pairs(s, e1, d, enf, prev.push(k))->0;
        let ps = seq![(k, v)] + ps1;
        assert(ps.first() == (k, v));
        assert(ps.drop_first() =~= ps1);
        assert(encode_pairs(ps) == bstr_bytes(k) + spec_encode(v) + encode_pairs(ps1));
        assert(encode_pairs(ps) =~= s.subrange(i, e2 - 1));
        assert(forall|m: int| 1 <= m < ps.len() ==> ps[m] == ps1[m - 1]);
        if enf {
            assert(keys_sorted(ps)) by {
                if ps1.len() > 0 {
                    assert(prev.push(k).last() == k);
                    assert(bytes_lt(ps[0].0, ps[1].0));
                }
                assert(forall|m: int| 1 <= m < ps.len() - 1
                    ==> bytes_lt(#[trigger] ps[m].0, ps[m + 1].0));
            }
        }
    }
}

/// A window equality, restated pointwise with the enclosing sequence's
/// indexing as the trigger.
pub proof fn lemma_window_eq(s: Seq<u8>, w: Seq<u8>, i: int)
    requires
        0 <= i,
        i + w.len() <= s.len(),
        s.subrange(i, i + w.len()) == w,
    ensures
        forall|q: int| i <= q < i + w.len() ==> #[trigger] s[q] == w[q - i],
{
    assert forall|q: int| i <= q < i + w.len() implies #[trigger] s[q] == w[q - i] by {
        assert(w[q - i] == s.subrange(i, i + w.len())[q - i]);
    }
}

/// Shape of a canonical encoding: at least two bytes, and the first byte
/// identifies the variant (so no encoding starts with `'e'`).
pub proof fn lemma_spec_encode_shape(v: BenValue)
    ensures
        spec_encode(v).len() >= 2,
        v is Int ==> spec_encode(v)[0] == 105,
        v is Bytes ==> is_bencode_digit(spec_encode(v)[0]),
        v is List ==> spec_encode(v)[0] == 108,
        v is Dict ==> spec_encode(v)[0] == 100,
        spec_encode(v)[0] != 101,
{
    match v {
        BenValue::Int(n) => {
            let m: int = if n < 0 { -n } else { n };
            crate::bytes::lemma_dec_digits_props(m);
        },
        BenValue::Bytes(b) => {
            crate::bytes::lemma_dec_digits_props(b.len() as int);
            assert(spec_encode(v)[0] == dec_digits(b.len() as int)[0]);
        },
        BenValue::List(_) => {},
        BenValue::Dict(_) => {},
    }
}

/// The canonical encoding of a byte string, found at `i`, parses back to it.
pub proof fn lemma_sp_bstr_complete(s: Seq<u8>, i: int, b: Seq<u8>)
    requires
        0 <= i,
        i + bstr_bytes(b).len() <= s.len(),
        s.subrange(i, i + bstr_bytes(b).len()) == bstr_bytes(b),
    ensures
        sp_bstr(s, i) == Some((b, i + bstr_bytes(b).len())),
{
    let w = bstr_bytes(b);
    let ln = b.len() as int;
    let dd = dec_digits(ln);
    crate::bytes::lemma_dec_digits_props(ln);
    lemma_window_eq(s, w, i);
    let j = i + dd.len();
    assert forall|m: int| i <= m < j implies s[m] == dd[m - i] && is_bencode_digit(
        #[trigger] s[m],
    ) by {
        assert(s[m] == w[m - i]);
        assert(w[m - i] == dd[m - i]);
    }
    assert(w[j - i] == 58);
    assert(s[j] == 58);
    crate::bytes::lemma_digit_run_end_exact(s, i, j);
    crate::bytes::lemma_digits_val_offset(s, dd, i, j, i);
    assert(digits_val(s, i, j) == ln);
    if s[i] == 48 {
        assert(dd[0] == 48);
        assert(j == i + 1);
    }
    assert(s.subrange(j + 1, j + 1 + ln) =~= b) by {
        assert forall|m: int| 0 <= m < ln implies s.subrange(j + 1, j + 1 + ln)[m]
            == b[m] by {
            assert(s[j + 1 + m] == w[j + 1 + m - i]);
            assert(w[dd.len() + 1 + m] == b[m]);
        }
    }
}

/// The canonical encoding of an in-range integer, found at `i`, parses back
/// to it.
pub proof fn lemma_sp_int_complete(s: Seq<u8>, i: int, n: int)
    requires
        0 <= i,
        i64::MIN <= n <= i64::MAX,
        i + int_bytes(n).len() + 2 <= s.len(),
        s.subrange(i, i + int_bytes(n).len() + 2) == seq![105u8] + int_bytes(n) + seq![101u8],
    ensures
        sp_int(s, i) == Some((n, i + int_bytes(n).len() + 2)),
{
    let w = seq![105u8] + int_bytes(n) + seq![101u8];
    let m: int = if n < 0 { -n } else { n };
    let dd = dec_digits(m);
    crate::bytes::lemma_dec_digits_props(m);
    lemma_window_eq(s, w, i);
    let neg = n < 0;
    let ds = if neg { i + 2 } else { i + 1 };
    if neg {
        assert(w[1] == 45);
        assert(s[i + 1] == 45);
    } else {
        assert(w[1] == dd[0]);
        assert(s[i + 1] == dd[0]);
        assert(s[i + 1] != 45);
    }
    let j = ds + dd.len();
    assert forall|q: int| ds <= q < j implies s[q] == dd[q - ds] && is_bencode_digit(
        #[trigger] s[q],
    ) by {
        assert(s[q] == w[q - i]);
        if neg {
            assert(w[q - i] == dd[q - i - 2]);
        } else {
            assert(w[q - i] == dd[q - i - 1]);
        }
    }
    assert(w[j - i] == 101);
    assert(s[j] == 101);
    crate::bytes::lemma_digit_run_end_exact(s, ds, j);
    crate::bytes::lemma_digits_val_offset(s, dd, ds, j, ds);
    assert(digits_val(s, ds, j) == m);
    if s[ds] == 48 {
        assert(dd[0] == 48);
        assert(m == 0);
        assert(j == ds + 1);
    }
}

/// Completeness of the specification parser for one value: the canonical
/// encoding of a well-formed tree within the depth budget parses back to
/// that tree, whatever follows it in the buffer.
pub proof fn lemma_sp_value_complete(s: Seq<u8>, i: int, d: nat, enf: bool, v: BenValue)
    requires
        0 <= i,
        wf(v),
        depth(v) <= d,
        i + spec_encode(v).len() <= s.len(),
        s.subrange(i, i + spec_encode(v).len()) == spec_encode(v),
    ensures
        sp_value(s, i, d, enf) == Some((v, i + spec_encode(v).len())),
    decreases v,
{
    let w = spec_encode(v);
    lemma_spec_encode_shape(v);
    lemma_window_eq(s, w, i);
    assert(s[i] == w[i - i]);
    assert(w[i - i] == w[0]);
    match v {
        BenValue::Int(n) => {
            assert(w == seq![105u8] + int_bytes(n) + seq![101u8]);
            lemma_sp_int_complete(s, i, n);
        },
        BenValue::Bytes(b) => {
            lemma_sp_bstr_complete(s, i, b);
            assert(s[i] != 105);
        },
        BenValue::List(vs) => {
            let inner = encode_items(vs);
            assert(w == seq![108u8] + inner + seq![101u8]);
            assert(s.subrange(i + 1, i + 1 + inner.len()) =~= inner) by {
                assert forall|q: int| 0 <= q < inner.len() implies s.subrange(
                    i + 1,
                    i + 1 + inner.len(),
                )[q] == inner[q] by {
                    assert(s[i + 1 + q] == w[1 + q]);
                    assert(w[1 + q] == inner[q]);
                }
            }
            assert(w[1 + inner.len() as int] == 101);
            assert(s[i + 1 + inner.len()] == 101);
            crate::model::lemma_wf_items_iff(vs);
            lemma_sp_items_complete(s, i + 1, (d - 1) as nat, enf, vs);
        },
        BenValue::Dict(ps) => {
            let inner = encode_pairs(ps);
            assert(w == seq![100u8] + inner + seq![101u8]);
            assert(s.subrange(i + 1, i + 1 + inner.len()) =~= inner) by {
                assert forall|q: int| 0 <= q < inner.len() implies s.subrange(
                    i + 1,
                    i + 1 + inner.len(),
                )[q] == inner[q] by {
                    assert(s[i + 1 + q] == w[1 + q]);
                    assert(w[1 + q] == inner[q]);
                }
            }
            assert(w[1 + inner.len() as int] == 101);
            assert(s[i + 1 + inner.len()] == 101);
            crate::model::lemma_wf_pair_values_iff(ps);
            lemma_sp_pairs_complete(s, i + 1, (d - 1) as nat, enf, Seq::empty(), ps);
        },
    }
}

/// Completeness for a run of list elements followed by `'e'`.
pub proof fn lemma_sp_items_complete(s: Seq<u8>, i: int, d: nat, enf: bool, vs: Seq<BenValue>)
    requires
        0 <= i,
        forall|m: int| 0 <= m < vs.len() ==> wf(#[trigger] vs[m]),
        items_depth(vs) <= d,
        i + encode_items(vs).len() + 1 <= s.len(),
        s.subrange(i, i + encode_items(vs).len()) == encode_items(vs),
        s[i + encode_items(vs).len()] == 101,
    ensures
        sp_items(s, i, d, enf) == Some((vs, i + encode_items(vs).len() + 1)),
    decreases vs,
{
    let w = encode_items(vs);
    lemma_window_eq(s, w, i);
    if vs.len() == 0 {
        assert(s[i] == 101);
        assert(sp_items(s, i, d, enf) == Some((Seq::<BenValue>::empty(), i + 1)));
        assert(vs =~= Seq::<BenValue>::empty());
    } else {
        let v0 = vs.first();
        let rest = vs.drop_first();
        let w0 = spec_encode(v0);
        let wr = encode_items(rest);
        assert(w == w0 + wr);
        lemma_spec_encode_shape(v0);
        assert(s[i] == w[i - i]);
        assert(w[i - i] == w0[0]);
        assert(s[i] != 101);
        assert(s.subrange(i, i + w0.len()) =~= w0) by {
            assert forall|q: int| 0 <= q < w0.len() implies s.subrange(i, i + w0.len())[q]
                == w0[q] by {
                assert(s[i + q] == w[q]);
                assert(w[q] == w0[q]);
            }
        }
        assert(depth(v0) <= items_depth(vs));
        lemma_sp_value_complete(s, i, d, enf, v0);
        let e1 = i + w0.len();
        assert(s.subrange(e1, e1 + wr.len()) =~= wr) by {
            assert forall|q: int| 0 <= q < wr.len() implies s.subrange(e1, e1 + wr.len())[q]
                == wr[q] by {
                assert(s[e1 + q] == w[w0.len() + q]);
                assert(w[w0.len() + q] == wr[q]);
            }
        }
        assert(items_depth(rest) <= items_depth(vs));
        lemma_sp_items_complete(s, e1, d, enf, rest);
        assert(seq![v0] + rest =~= vs);
    }
}

/// Completeness for a run of dictionary entries followed by `'e'`: sorted
/// unique keys, all above every previously seen key, are admissible whether
/// or not ordering is enforced.
pub proof fn lemma_sp_pairs_complete(
    s: Seq<u8>,
    i: int,
    d: nat,
    enf: bool,
    prev: Seq<Seq<u8>>,
    ps: Seq<(Seq<u8>, BenValue)>,
)
    requires
        0 <= i,
        forall|m: int| 0 <= m < ps.len() ==> wf(#[trigger] ps[m].1),
        keys_sorted(ps),
        pairs_depth(ps) <= d,
        forall|a: int, b: int| 0 <= a < prev.len() && 0 <= b < ps.len()
            ==> bytes_lt(#[trigger] prev[a], #[trigger] ps[b].0),
        i + encode_pairs(ps).len() + 1 <= s.len(),
        s.subrange(i, i + encode_pairs(ps).len()) == encode_pairs(ps),
        s[i + encode_pairs(ps).len()] == 101,
    ensures
        sp_pairs(s, i, d, enf, prev) == Some((ps, i + encode_pairs(ps).len() + 1)),
    decreases ps,
{
    let w = encode_pairs(ps);
    lemma_window_eq(s, w, i);
    if ps.len() == 0 {
        assert(s[i] == 101);
        assert(sp_pairs(s, i, d, enf, prev)
            == Some((Seq::<(Seq<u8>, BenValue)>::empty(), i + 1)));
        assert(ps =~= Seq::<(Seq<u8>, BenValue)>::empty());
    } else {
        let k0 = ps.first().0;
        let v0 = ps.first().1;
        let rest = ps.drop_first();
        let wk = bstr_bytes(k0);
        let w0 = spec_encode(v0);
        let wr = encode_pairs(rest);
        assert(w == wk + w0 + wr);
        crate::bytes::lemma_dec_digits_props(k0.len() as int);
        assert(s[i] == w[i - i]);
        assert(w[i - i] == wk[0]);
        assert(wk[0] == dec_digits(k0.len() as int)[0]);
        assert(is_bencode_digit(s[i]));
        assert(s[i] != 101);
        assert(s.subrange(i, i + wk.len()) =~= wk) by {
            assert forall|q: int| 0 <= q < wk.len() implies s.subrange(i, i + wk.len())[q]
                == wk[q] by {
                assert(s[i + q] == w[q]);
                assert(w[q] == wk[q]);
            }
        }
        lemma_sp_bstr_complete(s, i, k0);
        let ke = i + wk.len();
        assert(key_admissible(prev, k0, enf)) by {
            if enf {
                if prev.len() > 0 {
                    assert(bytes_lt(prev[prev.len() - 1], ps[0].0));
                }
            } else {
                assert(forall|a: int| 0 <= a < prev.len() ==> prev[a] != k0) by {
                    lemma_bytes_lt_irrefl(k0);
                    assert(forall|a: int| 0 <= a < prev.len()
                        ==> bytes_lt(#[trigger] prev[a], ps[0].0));
                }
            }
        }
        assert(s.subrange(ke, ke + w0.len()) =~= w0) by {
            assert forall|q: int| 0 <= q < w0.len() implies s.subrange(ke, ke + w0.len())[q]
                == w0[q] by {
                assert(s[ke + q] == w[wk.len() + q]);
                assert(w[wk.len() + q] == w0[q]);
            }
        }
        assert(depth(v0) <= pairs_depth(ps));
        lemma_sp_value_complete(s, ke, d, enf, v0);
        let e1 = ke + w0.len();
        assert(s.subrange(e1, e1 + wr.len()) =~= wr) by {
            assert forall|q: int| 0 <= q < wr.len() implies s.subrange(e1, e1 + wr.len())[q]
                == wr[q] by {
                assert(s[e1 + q] == w[wk.len() + w0.len() + q]);
                assert(w[wk.len() + w0.len() + q] == wr[q]);
            }
        }
        assert(pairs_depth(rest) <= pairs_depth(ps));
        assert(keys_sorted(rest)) by {
            assert(forall|m: int| 0 <= m < rest.len() - 1
                ==> #[trigger] rest[m].0 == ps[m + 1].0 && rest[m + 1].0 == ps[m + 2].0);
        }
        assert(forall|a: int, b: int| 0 <= a < prev.push(k0).len() && 0 <= b < rest.len()
            ==> bytes_lt(#[trigger] prev.push(k0)[a], #[trigger] rest[b].0)) by {
            let ks = crate::model::keys_of(ps);
            assert(forall|m: int| 0 <= m < ps.len() ==> ks[m] == #[trigger] ps[m].0);
            assert(forall|m: int| 0 <= m < ks.len() - 1
                ==> bytes_lt(#[trigger] ks[m], ks[m + 1]));
            assert forall|b: int| 0 <= b < rest.len()
                implies bytes_lt(k0, #[trigger] rest[b].0) by {
                lemma_sorted_run_lt(ks, 0, b + 1);
                assert(rest[b].0 == ps[b + 1].0);
            }
        }
        lemma_sp_pairs_complete(s, e1, d, enf, prev.push(k0), rest);
        assert(seq![(k0, v0)] + rest =~= ps);
    }
}


/// The canonical encoding of a well-formed tree within the depth budget
/// decodes back to exactly that tree, consuming the whole buffer.
pub proof fn lemma_encode_decode_roundtrip(v: BenValue, d: nat, enf: bool)
    requires
        wf(v),
        depth(v) <= d,
    ensures
        sp_value(spec_encode(v), 0, d, enf) == Some((v, spec_encode(v).len() as int)),
{
    let s = spec_encode(v);
    assert(s.subrange(0, s.len() as int) =~= s);
    lemma_sp_value_complete(s, 0, d, enf, v);
}

/// A buffer that decodes as one complete value re-encodes to exactly that
/// buffer.
pub proof fn lemma_decode_encode_roundtrip(s: Seq<u8>, d: nat, enf: bool, v: BenValue)
    requires
        sp_value(s, 0, d, enf) == Some((v, s.len() as int)),
    ensures
        spec_encode(v) == s,
        wf_ints(v),
        depth(v) <= d,
        enf ==> wf(v),
{
    lemma_sp_value_sound(s, 0, d, enf);
    assert(s.subrange(0, s.len() as int) =~= s);
}

} // verus!
