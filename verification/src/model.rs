//! The mathematical model of a bencode tree and its canonical encoding.
//!
//! `BenValue` is the abstract tree; `spec_encode` is the canonical byte
//! rendering of a tree, with dictionary entries emitted in stored order
//! (decoding and the builder both keep entries in strictly ascending key
//! order, so stored order is canonical order for well-formed trees).

use vstd::prelude::*;
use crate::bytes::{bytes_lt, dec_digits};

verus! {

/// Abstract bencode value: a tagged tree with exactly four variants.
pub enum BenValue {
    Int(int),
    Bytes(Seq<u8>),
    List(Seq<BenValue>),
    Dict(Seq<(Seq<u8>, BenValue)>),
}

/// Nesting depth: atoms have depth 0, a container is one deeper than its
/// deepest child.
pub open spec fn depth(v: BenValue) -> nat
    decreases v,
{
    match v {
        BenValue::Int(_) => 0,
        BenValue::Bytes(_) => 0,
        BenValue::List(vs) => 1 + items_depth(vs),
        BenValue::Dict(ps) => 1 + pairs_depth(ps),
    }
}

pub open spec fn items_depth(vs: Seq<BenValue>) -> nat
    decreases vs,
{
    if vs.len() == 0 {
        0
    } else if depth(vs.first()) >= items_depth(vs.drop_first()) {
        depth(vs.first())
    } else {
        items_depth(vs.drop_first())
    }
}

pub open spec fn pairs_depth(ps: Seq<(Seq<u8>, BenValue)>) -> nat
    decreases ps,
{
    if ps.len() == 0 {
        0
    } else if depth(ps.first().1) >= pairs_depth(ps.drop_first()) {
        depth(ps.first().1)
    } else {
        pairs_depth(ps.drop_first())
    }
}

/// The keys of a dictionary's entries, in stored order.
pub open spec fn keys_of(ps: Seq<(Seq<u8>, BenValue)>) -> Seq<Seq<u8>> {
    ps.map_values(|p: (Seq<u8>, BenValue)| p.0)
}

/// Adjacent keys strictly ascending, byte-wise.
pub open spec fn keys_sorted(ps: Seq<(Seq<u8>, BenValue)>) -> bool {
    forall|m: int| 0 <= m < ps.len() - 1 ==> bytes_lt(#[trigger] ps[m].0, ps[m + 1].0)
}

/// Well-formed tree: every integer fits in a signed 64-bit value and every
/// dictionary's keys are strictly ascending (hence unique).
pub open spec fn wf(v: BenValue) -> bool
    decreases v,
{
    match v {
        BenValue::Int(n) => i64::MIN <= n <= i64::MAX,
        BenValue::Bytes(_) => true,
        BenValue::List(vs) => wf_items(vs),
        BenValue::Dict(ps) => keys_sorted(ps) && wf_pair_values(ps),
    }
}

pub open spec fn wf_items(vs: Seq<BenValue>) -> bool
    decreases vs,
{
    vs.len() == 0 || (wf(vs.first()) && wf_items(vs.drop_first()))
}

pub open spec fn wf_pair_values(ps: Seq<(Seq<u8>, BenValue)>) -> bool
    decreases ps,
{
    ps.len() == 0 || (wf(ps.first().1) && wf_pair_values(ps.drop_first()))
}

/// Every integer in the tree fits in a signed 64-bit value (key order not
/// constrained). Decoding guarantees this even when key order is not
/// enforced.
pub open spec fn wf_ints(v: BenValue) -> bool
    decreases v,
{
    match v {
        BenValue::Int(n) => i64::MIN <= n <= i64::MAX,
        BenValue::Bytes(_) => true,
        BenValue::List(vs) => wf_ints_items(vs),
        BenValue::Dict(ps) => wf_ints_pair_values(ps),
    }
}

pub open spec fn wf_ints_items(vs: Seq<BenValue>) -> bool
    decreases vs,
{
    vs.len() == 0 || (wf_ints(vs.first()) && wf_ints_items(vs.drop_first()))
}

pub open spec fn wf_ints_pair_values(ps: Seq<(Seq<u8>, BenValue)>) -> bool
    decreases ps,
{
    ps.len() == 0 || (wf_ints(ps.first().1) && wf_ints_pair_values(ps.drop_first()))
}

/// `wf_items` is well-formedness of every element.
pub proof fn lemma_wf_items_iff(vs: Seq<BenValue>)
    ensures
        wf_items(vs) <==> (forall|m: int| #![trigger vs[m]] 0 <= m < vs.len() ==> wf(vs[m])),
    decreases vs,
{
    if vs.len() > 0 {
        lemma_wf_items_iff(vs.drop_first());
        let rest = vs.drop_first();
        assert(forall|m: int| 1 <= m < vs.len() ==> #[trigger] vs[m] == rest[m - 1]);
        if forall|m: int| #![trigger vs[m]] 0 <= m < vs.len() ==> wf(vs[m]) {
            assert(wf(vs[0]));
            assert(forall|m: int| #![trigger rest[m]] 0 <= m < rest.len() ==> wf(rest[m]));
        }
    }
}

/// `wf_pair_values` is well-formedness of every entry value.
pub proof fn lemma_wf_pair_values_iff(ps: Seq<(Seq<u8>, BenValue)>)
    ensures
        wf_pair_values(ps) <==> (forall|m: int| #![trigger ps[m]]
            0 <= m < ps.len() ==> wf(ps[m].1)),
    decreases ps,
{
    if ps.len() > 0 {
        lemma_wf_pair_values_iff(ps.drop_first());
        let rest = ps.drop_first();
        assert(forall|m: int| 1 <= m < ps.len() ==> #[trigger] ps[m] == rest[m - 1]);
        if forall|m: int| #![trigger ps[m]] 0 <= m < ps.len() ==> wf(ps[m].1) {
            assert(wf(ps[0].1));
            assert(forall|m: int| #![trigger rest[m]] 0 <= m < rest.len() ==> wf(rest[m].1));
        }
    }
}

/// `wf_ints_items` is integer-range well-formedness of every element.
pub proof fn lemma_wf_ints_items_iff(vs: Seq<BenValue>)
    ensures
        wf_ints_items(vs) <==> (forall|m: int| #![trigger vs[m]]
            0 <= m < vs.len() ==> wf_ints(vs[m])),
    decreases vs,
{
    if vs.len() > 0 {
        lemma_wf_ints_items_iff(vs.drop_first());
        let rest = vs.drop_first();
        assert(forall|m: int| 1 <= m < vs.len() ==> #[trigger] vs[m] == rest[m - 1]);
        if forall|m: int| #![trigger vs[m]] 0 <= m < vs.len() ==> wf_ints(vs[m]) {
            assert(wf_ints(vs[0]));
            assert(forall|m: int| #![trigger rest[m]] 0 <= m < rest.len() ==> wf_ints(rest[m]));
        }
    }
}

/// `wf_ints_pair_values` is integer-range well-formedness of every entry
/// value.
pub proof fn lemma_wf_ints_pair_values_iff(ps: Seq<(Seq<u8>, BenValue)>)
    ensures
        wf_ints_pair_values(ps) <==> (forall|m: int| #![trigger ps[m]]
            0 <= m < ps.len() ==> wf_ints(ps[m].1)),
    decreases ps,
{
    if ps.len() > 0 {
        lemma_wf_ints_pair_values_iff(ps.drop_first());
        let rest = ps.drop_first();
        assert(forall|m: int| 1 <= m < ps.len() ==> #[trigger] ps[m] == rest[m - 1]);
        if forall|m: int| #![trigger ps[m]] 0 <= m < ps.len() ==> wf_ints(ps[m].1) {
            assert(wf_ints(ps[0].1));
            assert(forall|m: int| #![trigger rest[m]] 0 <= m < rest.len() ==> wf_ints(rest[m].1));
        }
    }
}

/// Canonical decimal rendering of a (possibly negative) integer.
pub open spec fn int_bytes(n: int) -> Seq<u8> {
    if n < 0 {
        seq![45u8] + dec_digits(-n)
    } else {
        dec_digits(n)
    }
}

/// Canonical encoding of a byte string: decimal length, `':'`, raw bytes.
pub open spec fn bstr_bytes(b: Seq<u8>) -> Seq<u8> {
    dec_digits(b.len() as int) + seq![58u8] + b
}

/// Canonical encoding of a tree, dictionary entries in stored order.
pub open spec fn spec_encode(v: BenValue) -> Seq<u8>
    decreases v,
{
    match v {
        BenValue::Int(n) => seq![105u8] + int_bytes(n) + seq![101u8],
        BenValue::Bytes(b) => bstr_bytes(b),
        BenValue::List(vs) => seq![108u8] + encode_items(vs) + seq![101u8],
        BenValue::Dict(ps) => seq![100u8] + encode_pairs(ps) + seq![101u8],
    }
}

pub open spec fn encode_items(vs: Seq<BenValue>) -> Seq<u8>
    decreases vs,
{
    if vs.len() == 0 {
        Seq::empty()
    } else {
        spec_encode(vs.first()) + encode_items(vs.drop_first())
    }
}

pub open spec fn encode_pairs(ps: Seq<(Seq<u8>, BenValue)>) -> Seq<u8>
    decreases ps,
{
    if ps.len() == 0 {
        Seq::empty()
    } else {
        bstr_bytes(ps.first().0) + spec_encode(ps.first().1) + encode_pairs(ps.drop_first())
    }
}

/// Appending an element to an item sequence appends its encoding.
pub proof fn lemma_encode_items_push(vs: Seq<BenValue>, v: BenValue)
    ensures
        encode_items(vs.push(v)) == encode_items(vs) + spec_encode(v),
    decreases vs,
{
    if vs.len() == 0 {
        assert(vs.push(v).drop_first() =~= vs);
        assert(encode_items(vs.push(v)) =~= encode_items(vs) + spec_encode(v));
    } else {
        assert(vs.push(v).drop_first() =~= vs.drop_first().push(v));
        lemma_encode_items_push(vs.drop_first(), v);
        assert(encode_items(vs.push(v)) =~= encode_items(vs) + spec_encode(v));
    }
}

/// Appending an entry to a dictionary appends its key and value encodings.
pub proof fn lemma_encode_pairs_push(ps: Seq<(Seq<u8>, BenValue)>, k: Seq<u8>, v: BenValue)
    ensures
        encode_pairs(ps.push((k, v))) == encode_pairs(ps) + bstr_bytes(k) + spec_encode(v),
    decreases ps,
{
    if ps.len() == 0 {
        assert(ps.push((k, v)).drop_first() =~= ps);
        assert(encode_pairs(ps.push((k, v))) =~= encode_pairs(ps) + bstr_bytes(k) + spec_encode(v));
    } else {
        assert(ps.push((k, v)).drop_first() =~= ps.drop_first().push((k, v)));
        lemma_encode_pairs_push(ps.drop_first(), k, v);
        assert(encode_pairs(ps.push((k, v))) =~= encode_pairs(ps) + bstr_bytes(k) + spec_encode(v));
    }
}

/// Entries with the given key inserted or replaced, keeping ascending order
/// when the entries were ascending.
pub open spec fn dict_set(ps: Seq<(Seq<u8>, BenValue)>, k: Seq<u8>, v: BenValue) -> Seq<
    (Seq<u8>, BenValue),
>
    decreases ps,
{
    if ps.len() == 0 {
        seq![(k, v)]
    } else if bytes_lt(k, ps.first().0) {
        seq![(k, v)] + ps
    } else if k == ps.first().0 {
        seq![(k, v)] + ps.drop_first()
    } else {
        seq![ps.first()] + dict_set(ps.drop_first(), k, v)
    }
}

/// Looking up after an insert: the inserted key maps to the new value and
/// every other key is unaffected.
pub proof fn lemma_dict_set_get(ps: Seq<(Seq<u8>, BenValue)>, k: Seq<u8>, v: BenValue, k2: Seq<u8>)
    ensures
        dict_get(dict_set(ps, k, v), k2) == if k2 == k {
            Some(v)
        } else {
            dict_get(ps, k2)
        },
    decreases ps,
{
    let r = dict_set(ps, k, v);
    if ps.len() == 0 {
        assert(r.drop_first() =~= ps);
    } else if bytes_lt(k, ps.first().0) {
        assert(r.drop_first() =~= ps);
    } else if k == ps.first().0 {
        assert(r.drop_first() =~= ps.drop_first());
    } else {
        lemma_dict_set_get(ps.drop_first(), k, v, k2);
        assert(r.first() == ps.first());
        assert(r.drop_first() =~= dict_set(ps.drop_first(), k, v));
    }
}

/// Where the insertion point lies: if the first `idx` keys are below `k` and
/// the key at `idx` (if any) is not, `dict_set` splices at `idx`.
pub proof fn lemma_dict_set_split(ps: Seq<(Seq<u8>, BenValue)>, k: Seq<u8>, v: BenValue, idx: int)
    requires
        0 <= idx <= ps.len(),
        forall|m: int| 0 <= m < idx ==> bytes_lt(#[trigger] ps[m].0, k),
        idx < ps.len() ==> !bytes_lt(ps[idx].0, k),
    ensures
        dict_set(ps, k, v) == if idx < ps.len() && ps[idx].0 == k {
            ps.take(idx) + seq![(k, v)] + ps.skip(idx + 1)
        } else {
            ps.take(idx) + seq![(k, v)] + ps.skip(idx)
        },
    decreases idx,
{
    if idx == 0 {
        if ps.len() == 0 {
            assert(dict_set(ps, k, v) =~= ps.take(0) + seq![(k, v)] + ps.skip(0));
        } else if ps[0].0 == k {
            crate::bytes::lemma_bytes_lt_irrefl(k);
            assert(dict_set(ps, k, v) =~= ps.take(0) + seq![(k, v)] + ps.skip(1));
        } else {
            if !bytes_lt(k, ps.first().0) {
                crate::bytes::lemma_bytes_lt_connected(k, ps.first().0);
            }
            assert(bytes_lt(k, ps.first().0));
            assert(dict_set(ps, k, v) =~= ps.take(0) + seq![(k, v)] + ps.skip(0));
        }
    } else {
        assert(bytes_lt(ps[0].0, k));
        if k == ps.first().0 {
            crate::bytes::lemma_bytes_lt_irrefl(k);
        }
        if bytes_lt(k, ps.first().0) {
            crate::bytes::lemma_bytes_lt_trans(k, ps.first().0, k);
            crate::bytes::lemma_bytes_lt_irrefl(k);
        }
        let rest = ps.drop_first();
        assert(forall|m: int| 0 <= m < idx - 1 ==> bytes_lt(#[trigger] rest[m].0, k)) by {
            assert(forall|m: int| 0 <= m < idx - 1 ==> #[trigger] rest[m] == ps[m + 1]);
        }
        assert(idx - 1 < rest.len() ==> !bytes_lt(rest[idx - 1].0, k));
        lemma_dict_set_split(rest, k, v, idx - 1);
        if idx < ps.len() && ps[idx].0 == k {
            assert(rest[idx - 1].0 == k);
            assert(dict_set(ps, k, v) =~= ps.take(idx) + seq![(k, v)] + ps.skip(idx + 1));
        } else {
            if idx - 1 < rest.len() {
                assert(rest[idx - 1] == ps[idx]);
            }
            assert(dict_set(ps, k, v) =~= ps.take(idx) + seq![(k, v)] + ps.skip(idx));
        }
    }
}

/// Inserting into a sorted dictionary keeps it sorted; the first key of the
/// result is the smaller of `k` and the old first key.
pub proof fn lemma_dict_set_sorted(ps: Seq<(Seq<u8>, BenValue)>, k: Seq<u8>, v: BenValue)
    requires
        keys_sorted(ps),
    ensures
        keys_sorted(dict_set(ps, k, v)),
        dict_set(ps, k, v).len() >= 1,
        dict_set(ps, k, v)[0].0 == k || (ps.len() > 0 && dict_set(ps, k, v)[0].0 == ps[0].0),
    decreases ps,
{
    let r = dict_set(ps, k, v);
    if ps.len() == 0 {
    } else if bytes_lt(k, ps.first().0) {
        assert(keys_sorted(r)) by {
            assert(forall|m: int| 1 <= m < r.len() ==> #[trigger] r[m] == ps[m - 1]);
        }
    } else if k == ps.first().0 {
        assert(keys_sorted(r)) by {
            assert(forall|m: int| 1 <= m < r.len() ==> #[trigger] r[m] == ps[m]);
        }
    } else {
        if !bytes_lt(ps.first().0, k) {
            crate::bytes::lemma_bytes_lt_connected(k, ps.first().0);
        }
        assert(bytes_lt(ps.first().0, k));
        let rest = ps.drop_first();
        assert(keys_sorted(rest)) by {
            assert(forall|m: int| 0 <= m < rest.len() ==> #[trigger] rest[m] == ps[m + 1]);
        }
        lemma_dict_set_sorted(rest, k, v);
        let rr = dict_set(rest, k, v);
        assert(r == seq![ps.first()] + rr);
        assert(keys_sorted(r)) by {
            assert(forall|m: int| 1 <= m < r.len() ==> #[trigger] r[m] == rr[m - 1]);
            if rr[0].0 == k {
                assert(bytes_lt(r[0].0, r[1].0));
            } else {
                assert(rest.len() > 0 && rr[0].0 == rest[0].0);
                assert(bytes_lt(ps[0].0, ps[1].0));
                assert(bytes_lt(r[0].0, r[1].0));
            }
        }
    }
}

/// Inserting a well-formed value into a well-formed dictionary keeps the
/// dictionary well formed.
pub proof fn lemma_dict_set_wf(ps: Seq<(Seq<u8>, BenValue)>, k: Seq<u8>, v: BenValue)
    requires
        wf(BenValue::Dict(ps)),
        wf(v),
    ensures
        wf(BenValue::Dict(dict_set(ps, k, v))),
    decreases ps,
{
    lemma_dict_set_sorted(ps, k, v);
    lemma_wf_pair_values_iff(ps);
    let r = dict_set(ps, k, v);
    lemma_wf_pair_values_iff(r);
    if ps.len() == 0 {
        assert(forall|m: int| 0 <= m < r.len() ==> wf(#[trigger] r[m].1));
    } else if bytes_lt(k, ps.first().0) {
        assert(forall|m: int| 0 <= m < r.len() ==> wf(#[trigger] r[m].1)) by {
            assert(forall|m: int| 1 <= m < r.len() ==> #[trigger] r[m] == ps[m - 1]);
        }
    } else if k == ps.first().0 {
        assert(forall|m: int| 0 <= m < r.len() ==> wf(#[trigger] r[m].1)) by {
            assert(forall|m: int| 1 <= m < r.len() ==> #[trigger] r[m] == ps[m]);
        }
    } else {
        let rest = ps.drop_first();
        lemma_wf_pair_values_iff(rest);
        assert(keys_sorted(rest) && forall|m: int| 0 <= m < rest.len()
            ==> wf(#[trigger] rest[m].1)) by {
            assert(forall|m: int| 0 <= m < rest.len() ==> #[trigger] rest[m] == ps[m + 1]);
        }
        lemma_dict_set_wf(rest, k, v);
        let rr = dict_set(rest, k, v);
        lemma_wf_pair_values_iff(rr);
        assert(r == seq![ps.first()] + rr);
        assert(forall|m: int| 0 <= m < r.len() ==> wf(#[trigger] r[m].1)) by {
            assert(forall|m: int| 1 <= m < r.len() ==> #[trigger] r[m] == rr[m - 1]);
        }
    }
}


/// Appending a well-formed element to a well-formed list keeps it well
/// formed.
pub proof fn lemma_list_push_wf(vs: Seq<BenValue>, v: BenValue)
    requires
        wf(BenValue::List(vs)),
        wf(v),
    ensures
        wf(BenValue::List(vs.push(v))),
{
    lemma_wf_items_iff(vs);
    lemma_wf_items_iff(vs.push(v));
    assert forall|m: int| 0 <= m < vs.push(v).len() implies wf(#[trigger] vs.push(v)[m]) by {
        if m < vs.len() {
            assert(vs.push(v)[m] == vs[m]);
        } else {
            assert(vs.push(v)[m] == v);
        }
    }
}

/// First entry with the given key, if any.
pub open spec fn dict_get(ps: Seq<(Seq<u8>, BenValue)>, k: Seq<u8>) -> Option<BenValue>
    decreases ps,
{
    if ps.len() == 0 {
        None
    } else if ps.first().0 == k {
        Some(ps.first().1)
    } else {
        dict_get(ps.drop_first(), k)
    }
}

} // verus!
