//! The torrent's identity: the SHA-1 digest of the canonically encoded info
//! dictionary.

use vstd::prelude::*;

verus! {

/// The SHA-1 digest of a byte sequence, as the `sha1` crate computes it: a
/// function of the input bytes alone.
pub uninterp spec fn sha1_of(bytes: Seq<u8>) -> Seq<u8>;

/// A 20-byte SHA-1 digest identifying a swarm of peers.
#[derive(Clone, Copy, Debug, PartialEq, Eq, Hash)]
pub struct InfoHash {
    hash: [u8; 20],
}

impl View for InfoHash {
    type V = Seq<u8>;

    closed spec fn view(&self) -> Seq<u8> {
        self.hash@
    }
}

impl InfoHash {
    /// Relies on `sha1::Sha1::digest` (through the `Digest` trait): the
    /// 20-byte SHA-1 digest of the input, depending on the input alone.
    #[verifier::external_body]
    pub fn from_bytes(bytes: &Vec<u8>) -> (r: InfoHash)
        ensures
            r@ == sha1_of(bytes@),
            r@.len() == 20,
    {
        let digest = <sha1::Sha1 as sha1::Digest>::digest(bytes.as_slice());
        let mut hash = [0u8; 20];
        hash.copy_from_slice(&digest);
        InfoHash { hash }
    }

    /// The digest bytes.
    pub fn as_bytes(&self) -> (r: &[u8; 20])
        ensures
            r@ == self@,
    {
        &self.hash
    }
}

} // verus!
