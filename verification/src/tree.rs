//! The owned bencode tree: constructors, read accessors, and mutation that
//! keeps dictionary entries in strictly ascending key order.

use vstd::prelude::*;
use crate::model::{BenValue, wf, dict_get, dict_set, lemma_dict_set_split, lemma_dict_set_wf};
use crate::bytes::{
    bytes_lt, lemma_bytes_lt_irrefl, lemma_bytes_lt_trans, lemma_bytes_lt_from_diff,
    lemma_bytes_lt_strict_prefix,
};

verus! {

/// An owned bencode value: integer, byte string, list, or dictionary.
/// Dictionary entries are kept in strictly ascending key order by the
/// mutation operations below, so encoding in stored order is canonical.
#[derive(Debug)]
pub enum Bencode {
    Int(i64),
    Bytes(Vec<u8>),
    List(Vec<Bencode>),
    Dict(Vec<(Vec<u8>, Bencode)>),
}

/// Abstract value of an owned tree.
pub open spec fn ben_view(b: Bencode) -> BenValue
    decreases b,
{
    match b {
        Bencode::Int(n) => BenValue::Int(n as int),
        Bencode::Bytes(v) => BenValue::Bytes(v@),
        Bencode::List(xs) => BenValue::List(view_items(xs@)),
        Bencode::Dict(ps) => BenValue::Dict(view_pairs(ps@)),
    }
}

pub open spec fn view_items(xs: Seq<Bencode>) -> Seq<BenValue>
    decreases xs,
{
    if xs.len() == 0 {
        Seq::empty()
    } else {
        seq![ben_view(xs.first())] + view_items(xs.drop_first())
    }
}

pub open spec fn view_pairs(ps: Seq<(Vec<u8>, Bencode)>) -> Seq<(Seq<u8>, BenValue)>
    decreases ps,
{
    if ps.len() == 0 {
        Seq::empty()
    } else {
        seq![(ps.first().0@, ben_view(ps.first().1))] + view_pairs(ps.drop_first())
    }
}

impl View for Bencode {
    type V = BenValue;

    open spec fn view(&self) -> BenValue {
        ben_view(*self)
    }
}

pub proof fn lemma_view_items(xs: Seq<Bencode>)
    ensures
        view_items(xs).len() == xs.len(),
        forall|m: int| 0 <= m < xs.len() ==> #[trigger] view_items(xs)[m] == ben_view(xs[m]),
    decreases xs,
{
    if xs.len() > 0 {
        lemma_view_items(xs.drop_first());
    }
}

pub proof fn lemma_view_pairs(ps: Seq<(Vec<u8>, Bencode)>)
    ensures
        view_pairs(ps).len() == ps.len(),
        forall|m: int| 0 <= m < ps.len()
            ==> #[trigger] view_pairs(ps)[m] == (ps[m].0@, ben_view(ps[m].1)),
    decreases ps,
{
    if ps.len() > 0 {
        lemma_view_pairs(ps.drop_first());
    }
}

pub proof fn lemma_view_items_push(xs: Seq<Bencode>, x: Bencode)
    ensures
        view_items(xs.push(x)) == view_items(xs).push(ben_view(x)),
{
    lemma_view_items(xs);
    lemma_view_items(xs.push(x));
    assert(view_items(xs.push(x)) =~= view_items(xs).push(ben_view(x)));
}

pub proof fn lemma_view_pairs_push(ps: Seq<(Vec<u8>, Bencode)>, p: (Vec<u8>, Bencode))
    ensures
        view_pairs(ps.push(p)) == view_pairs(ps).push((p.0@, ben_view(p.1))),
{
    lemma_view_pairs(ps);
    lemma_view_pairs(ps.push(p));
    assert(view_pairs(ps.push(p)) =~= view_pairs(ps).push((p.0@, ben_view(p.1))));
}

/// The variant a tree node currently holds.
#[derive(Clone, Copy, Debug, PartialEq, Eq, Structural)]
pub enum BencodeKind {
    Int,
    Bytes,
    List,
    Dict,
}

/// Byte-string equality.
pub fn bytes_eq(a: &Vec<u8>, b: &Vec<u8>) -> (r: bool)
    ensures
        r <==> a@ == b@,
{
    if a.len() != b.len() {
        assert(a@ != b@);
        return false;
    }
    let n = a.len();
    let mut i: usize = 0;
    while i < n
        invariant
            0 <= i <= n,
            n == a@.len() == b@.len(),
            forall|m: int| 0 <= m < i ==> a@[m] == b@[m],
        decreases n - i,
    {
        if a[i] != b[i] {
            return false;
        }
        i += 1;
    }
    assert(a@ =~= b@);
    true
}

/// Strict lexicographic comparison of byte strings.
pub fn bytes_less(a: &Vec<u8>, b: &Vec<u8>) -> (r: bool)
    ensures
        r <==> bytes_lt(a@, b@),
{
    let n = if a.len() < b.len() { a.len() } else { b.len() };
    let mut i: usize = 0;
    while i < n
        invariant
            0 <= i <= n,
            n <= a@.len(),
            n <= b@.len(),
            n == a@.len() || n == b@.len(),
            forall|m: int| 0 <= m < i ==> a@[m] == b@[m],
        decreases n - i,
    {
        if a[i] < b[i] {
            proof {
                lemma_bytes_lt_from_diff(a@, b@, i as int);
            }
            return true;
        }
        if a[i] > b[i] {
            proof {
                lemma_bytes_lt_from_diff(b@, a@, i as int);
                lemma_bytes_lt_asymm(a@, b@);
            }
            return false;
        }
        i += 1;
    }
    if a.len() < b.len() {
        proof {
            lemma_bytes_lt_strict_prefix(a@, b@);
        }
        true
    } else if b.len() < a.len() {
        proof {
            lemma_bytes_lt_strict_prefix(b@, a@);
            lemma_bytes_lt_asymm(a@, b@);
        }
        false
    } else {
        proof {
            assert(a@ =~= b@);
            lemma_bytes_lt_irrefl(a@);
        }
        false
    }
}

/// Two distinct byte strings cannot each precede the other.
proof fn lemma_bytes_lt_asymm(a: Seq<u8>, b: Seq<u8>)
    requires
        bytes_lt(b, a),
    ensures
        !bytes_lt(a, b),
{
    if bytes_lt(a, b) {
        lemma_bytes_lt_trans(a, b, a);
        lemma_bytes_lt_irrefl(a);
    }
}

/// First position whose key is not below `key` (the insertion point in an
/// ascending entry vector).
fn lower_bound(ps: &Vec<(Vec<u8>, Bencode)>, key: &Vec<u8>) -> (idx: usize)
    ensures
        0 <= idx <= ps@.len(),
        forall|m: int| 0 <= m < idx ==> bytes_lt(#[trigger] ps@[m].0@, key@),
        idx < ps@.len() ==> !bytes_lt(ps@[idx as int].0@, key@),
{
    let n = ps.len();
    let mut i: usize = 0;
    while i < n
        invariant
            0 <= i <= n,
            n == ps@.len(),
            forall|m: int| 0 <= m < i ==> bytes_lt(#[trigger] ps@[m].0@, key@),
        decreases n - i,
    {
        if !bytes_less(&ps[i].0, key) {
            return i;
        }
        i += 1;
    }
    i
}

/// Insert or replace an entry in an ascending entry vector, keeping the
/// ascending order.
fn dict_pairs_insert(ps: &mut Vec<(Vec<u8>, Bencode)>, key: Vec<u8>, value: Bencode)
    ensures
        view_pairs(final(ps)@) == dict_set(view_pairs(old(ps)@), key@, value@),
{
    proof {
        lemma_view_pairs(ps@);
    }
    let ghost vold = view_pairs(ps@);
    let idx = lower_bound(ps, &key);
    proof {
        assert(forall|m: int| 0 <= m < idx ==> bytes_lt(#[trigger] vold[m].0, key@));
        assert(idx < vold.len() ==> !bytes_lt(vold[idx as int].0, key@));
        lemma_dict_set_split(vold, key@, value@, idx as int);
    }
    let replace = idx < ps.len() && bytes_eq(&ps[idx].0, &key);
    if replace {
        ps.remove(idx);
        ps.insert(idx, (key, value));
    } else {
        ps.insert(idx, (key, value));
    }
    proof {
        lemma_view_pairs(ps@);
        let vnew = view_pairs(ps@);
        let target = dict_set(vold, key@, value@);
        if replace {
            assert(ps@ =~= old(ps)@.subrange(0, idx as int) + seq![(key, value)]
                + old(ps)@.subrange(idx + 1, old(ps)@.len() as int));
            assert(vnew =~= target);
        } else {
            assert(ps@ =~= old(ps)@.subrange(0, idx as int) + seq![(key, value)]
                + old(ps)@.subrange(idx as int, old(ps)@.len() as int));
            assert(vnew =~= target);
        }
    }
}

impl Bencode {
    /// Insert or replace a key in a dictionary node, keeping its entries in
    /// strictly ascending key order; any other node is returned unchanged.
    pub fn dict_insert(self, key: Vec<u8>, value: Bencode) -> (r: Bencode)
        ensures
            self@ matches BenValue::Dict(ps) ==> r@ == BenValue::Dict(
                dict_set(ps, key@, value@),
            ),
            !(self@ is Dict) ==> r == self,
            wf(self@) && wf(value@) ==> wf(r@),
    {
        match self {
            Bencode::Dict(mut ps) => {
                proof {
                    if wf(ben_view(Bencode::Dict(ps))) && wf(ben_view(value)) {
                        lemma_dict_set_wf(view_pairs(ps@), key@, ben_view(value));
                    }
                }
                dict_pairs_insert(&mut ps, key, value);
                Bencode::Dict(ps)
            },
            other => other,
        }
    }

    /// Append an element to a list node; any other node is returned
    /// unchanged.
    pub fn list_push(self, value: Bencode) -> (r: Bencode)
        ensures
            self@ matches BenValue::List(vs) ==> r@ == BenValue::List(vs.push(value@)),
            !(self@ is List) ==> r == self,
            wf(self@) && wf(value@) ==> wf(r@),
    {
        match self {
            Bencode::List(mut xs) => {
                let ghost gxs = xs@;
                let ghost gval = ben_view(value);
                xs.push(value);
                proof {
                    lemma_view_items_push(gxs, value);
                    let vs = view_items(gxs);
                    if wf(BenValue::List(vs)) && wf(gval) {
                        crate::model::lemma_list_push_wf(vs, gval);
                    }
                }
                Bencode::List(xs)
            },
            other => other,
        }
    }

    /// A new integer node.
    pub fn new_int(value: i64) -> (r: Bencode)
        ensures
            r@ == BenValue::Int(value as int),
    {
        Bencode::Int(value)
    }

    /// A new byte-string node owning the given bytes.
    pub fn new_bytes(value: Vec<u8>) -> (r: Bencode)
        ensures
            r@ == BenValue::Bytes(value@),
    {
        Bencode::Bytes(value)
    }

    /// A new empty list node.
    pub fn new_list() -> (r: Bencode)
        ensures
            r@ == BenValue::List(Seq::empty()),
    {
        Bencode::List(Vec::new())
    }

    /// A new empty dictionary node.
    pub fn new_dict() -> (r: Bencode)
        ensures
            r@ == BenValue::Dict(Seq::empty()),
    {
        Bencode::Dict(Vec::new())
    }

    /// The variant of this node.
    pub fn kind(&self) -> (k: BencodeKind)
        ensures
            k == BencodeKind::Int <==> self@ is Int,
            k == BencodeKind::Bytes <==> self@ is Bytes,
            k == BencodeKind::List <==> self@ is List,
            k == BencodeKind::Dict <==> self@ is Dict,
    {
        match self {
            Bencode::Int(_) => BencodeKind::Int,
            Bencode::Bytes(_) => BencodeKind::Bytes,
            Bencode::List(_) => BencodeKind::List,
            Bencode::Dict(_) => BencodeKind::Dict,
        }
    }

    /// The integer payload, if this node is an integer.
    pub fn as_int(&self) -> (r: Option<i64>)
        ensures
            r is Some <==> self@ is Int,
            r matches Some(n) ==> self@ == BenValue::Int(n as int),
    {
        match self {
            Bencode::Int(n) => Some(*n),
            _ => None,
        }
    }

    /// The byte-string payload, if this node is a byte string.
    pub fn bytes(&self) -> (r: Option<&Vec<u8>>)
        ensures
            r is Some <==> self@ is Bytes,
            r matches Some(bs) ==> self@ == BenValue::Bytes(bs@),
    {
        match self {
            Bencode::Bytes(bs) => Some(bs),
            _ => None,
        }
    }

    /// The element vector, if this node is a list.
    pub fn list(&self) -> (r: Option<&Vec<Bencode>>)
        ensures
            r is Some <==> self@ is List,
            r matches Some(xs) ==> self@ == BenValue::List(view_items(xs@)),
    {
        match self {
            Bencode::List(xs) => Some(xs),
            _ => None,
        }
    }

    /// The entry vector, if this node is a dictionary.
    pub fn dict(&self) -> (r: Option<&Vec<(Vec<u8>, Bencode)>>)
        ensures
            r is Some <==> self@ is Dict,
            r matches Some(ps) ==> self@ == BenValue::Dict(view_pairs(ps@)),
    {
        match self {
            Bencode::Dict(ps) => Some(ps),
            _ => None,
        }
    }

    /// Look a key up in a dictionary node (first match in stored order).
    /// Returns `None` on a non-dictionary node.
    pub fn dict_lookup<'a>(&'a self, key: &Vec<u8>) -> (r: Option<&'a Bencode>)
        ensures
            match self@ {
                BenValue::Dict(ps) => {
                    &&& (r is Some <==> dict_get(ps, key@) is Some)
                    &&& (r matches Some(b) ==> dict_get(ps, key@) == Some(b@))
                },
                _ => r is None,
            },
    {
        match self {
            Bencode::Dict(ps) => {
                proof {
                    lemma_view_pairs(ps@);
                    assert(view_pairs(ps@).subrange(0, ps@.len() as int) =~= view_pairs(ps@));
                }
                let ghost vps = view_pairs(ps@);
                let n = ps.len();
                let mut i: usize = 0;
                while i < n
                    invariant
                        0 <= i <= n,
                        n == ps@.len(),
                        vps == view_pairs(ps@),
                        self@ == BenValue::Dict(vps),
                        vps.len() == n,
                        forall|m: int| 0 <= m < n
                            ==> #[trigger] vps[m] == (ps@[m].0@, ben_view(ps@[m].1)),
                        forall|m: int| 0 <= m < i ==> (#[trigger] vps[m]).0 != key@,
                        dict_get(vps, key@) == dict_get(vps.subrange(i as int, n as int), key@),
                    decreases n - i,
                {
                    if bytes_eq(&ps[i].0, key) {
                        proof {
                            let tail = vps.subrange(i as int, n as int);
                            assert(tail.first() == vps[i as int]);
                            assert(vps[i as int].0 == key@);
                            assert(dict_get(tail, key@) == Some(vps[i as int].1));
                            assert(dict_get(vps, key@) == Some(vps[i as int].1));
                            assert(vps[i as int].1 == ben_view(ps@[i as int].1));
                            assert(self@ == BenValue::Dict(vps));
                        }
                        return Some(&ps[i].1);
                    }
                    proof {
                        let tail = vps.subrange(i as int, n as int);
                        assert(tail.first() == vps[i as int]);
                        assert(tail.drop_first() =~= vps.subrange(i as int + 1, n as int));
                    }
                    i += 1;
                }
                proof {
                    assert(vps.subrange(n as int, n as int) =~= Seq::<(Seq<u8>, BenValue)>::empty());
                }
                None
            },
            _ => None,
        }
    }
}

} // verus!
