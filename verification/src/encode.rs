//! The executable encoder: serializes an owned tree to its canonical
//! bencode bytes, dictionary entries in stored order.

use vstd::prelude::*;
use crate::model::{
    BenValue, spec_encode, encode_items, encode_pairs, int_bytes, bstr_bytes,
    lemma_encode_items_push, lemma_encode_pairs_push,
};
use crate::bytes::dec_digits;
use crate::tree::{Bencode, ben_view, view_items, view_pairs, lemma_view_items, lemma_view_pairs};

verus! {

/// Append the canonical decimal digits of `n`.
fn push_digits(n: u64, out: &mut Vec<u8>)
    ensures
        final(out)@ == old(out)@ + dec_digits(n as int),
    decreases n,
{
    if n <= 9 {
        out.push(48 + n as u8);
        assert(out@ =~= old(out)@ + dec_digits(n as int));
    } else {
        push_digits(n / 10, out);
        out.push(48 + (n % 10) as u8);
        assert(out@ =~= old(out)@ + dec_digits(n as int));
    }
}

/// Append the canonical encoding of a byte string: decimal length, `':'`,
/// raw bytes.
fn push_bstr(bs: &Vec<u8>, out: &mut Vec<u8>)
    ensures
        final(out)@ == old(out)@ + bstr_bytes(bs@),
{
    push_digits(bs.len() as u64, out);
    out.push(58);
    let ghost mid = out@;
    let n = bs.len();
    let mut i: usize = 0;
    while i < n
        invariant
            0 <= i <= n,
            n == bs@.len(),
            out@ == mid + bs@.take(i as int),
        decreases n - i,
    {
        out.push(bs[i]);
        assert(bs@.take(i + 1) =~= bs@.take(i as int).push(bs@[i as int]));
        i += 1;
    }
    assert(bs@.take(n as int) =~= bs@);
    assert(out@ =~= old(out)@ + bstr_bytes(bs@));
}

/// Append the canonical encoding of a tree.
#[verifier::loop_isolation(false)]
fn encode_into(v: &Bencode, out: &mut Vec<u8>)
    ensures
        final(out)@ == old(out)@ + spec_encode(v@),
    decreases v,
{
    match v {
        Bencode::Int(n) => {
            out.push(105);
            if *n < 0 {
                out.push(45);
                let m: u64 = if *n == i64::MIN {
                    9223372036854775808u64
                } else {
                    (-*n) as u64
                };
                push_digits(m, out);
                assert(int_bytes(*n as int) == seq![45u8] + dec_digits(m as int));
            } else {
                push_digits(*n as u64, out);
                assert(int_bytes(*n as int) == dec_digits(*n as int));
            }
            out.push(101);
            assert(out@ =~= old(out)@ + spec_encode(v@));
        },
        Bencode::Bytes(bs) => {
            push_bstr(bs, out);
            assert(out@ =~= old(out)@ + spec_encode(v@));
        },
        Bencode::List(xs) => {
            out.push(108);
            proof {
                lemma_view_items(xs@);
            }
            let ghost vitems = view_items(xs@);
            let ghost base = out@;
            let n = xs.len();
            let mut i: usize = 0;
            while i < n
                invariant
                    0 <= i <= n,
                    n == xs@.len(),
                    vitems == view_items(xs@),
                    vitems.len() == n,
                    forall|m: int| 0 <= m < n ==> #[trigger] vitems[m] == ben_view(xs@[m]),
                    out@ == base + encode_items(vitems.take(i as int)),
                decreases n - i,
            {
                encode_into(&xs[i], out);
                proof {
                    assert(vitems.take(i + 1) =~= vitems.take(i as int).push(vitems[i as int]));
                    lemma_encode_items_push(vitems.take(i as int), vitems[i as int]);
                }
                i += 1;
            }
            out.push(101);
            proof {
                assert(vitems.take(n as int) =~= vitems);
                assert(out@ =~= old(out)@ + spec_encode(v@));
            }
        },
        Bencode::Dict(ps) => {
            out.push(100);
            proof {
                lemma_view_pairs(ps@);
            }
            let ghost vpairs = view_pairs(ps@);
            let ghost base = out@;
            let n = ps.len();
            let mut i: usize = 0;
            while i < n
                invariant
                    0 <= i <= n,
                    n == ps@.len(),
                    vpairs == view_pairs(ps@),
                    vpairs.len() == n,
                    forall|m: int| 0 <= m < n
                        ==> #[trigger] vpairs[m] == (ps@[m].0@, ben_view(ps@[m].1)),
                    out@ == base + encode_pairs(vpairs.take(i as int)),
                decreases n - i,
            {
                push_bstr(&ps[i].0, out);
                encode_into(&ps[i].1, out);
                proof {
                    assert(vpairs.take(i + 1) =~= vpairs.take(i as int).push(vpairs[i as int]));
                    lemma_encode_pairs_push(
                        vpairs.take(i as int),
                        vpairs[i as int].0,
                        vpairs[i as int].1,
                    );
                    assert(vpairs[i as int] == (vpairs[i as int].0, vpairs[i as int].1));
                }
                i += 1;
            }
            out.push(101);
            proof {
                assert(vpairs.take(n as int) =~= vpairs);
                assert(out@ =~= old(out)@ + spec_encode(v@));
            }
        },
    }
}

impl Bencode {
    /// Serialize this tree to canonical bencode bytes.
    pub fn encode(&self) -> (r: Vec<u8>)
        ensures
            r@ == spec_encode(self@),
    {
        let mut out: Vec<u8> = Vec::new();
        encode_into(self, &mut out);
        assert(out@ =~= spec_encode(self@));
        out
    }
}

} // verus!
