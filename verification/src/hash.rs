//! Byte-string utilities and the 32-byte cryptographic hash type.

use vstd::prelude::*;

verus! {

/// Number of bytes in a [`CryptoHash`].
pub const HASH_LEN: usize = 32;

/// Compares two byte vectors for equality.
pub fn bytes_eq(a: &Vec<u8>, b: &Vec<u8>) -> (r: bool)
    ensures
        r == (a@ == b@),
{
    if a.len() != b.len() {
        assert(a@ != b@);
        return false;
    }
    let n = a.len();
    for i in 0..n
        invariant
            n == a.len() == b.len(),
            forall|j: int| 0 <= j < i ==> a@[j] == b@[j],
    {
        if a[i] != b[i] {
            return false;
        }
    }
    proof {
        assert(a@ =~= b@);
    }
    true
}

/// A 32-byte cryptographic hash, e.g. a block hash or a value hash.
#[derive(Debug, PartialEq, Eq, Hash)]
pub struct CryptoHash(pub Vec<u8>);

impl Clone for CryptoHash {
    fn clone(&self) -> (r: Self)
        ensures
            r@ == self@,
    {
        let v = self.0.clone();
        proof {
            assert(v@ =~= self.0@);
        }
        CryptoHash(v)
    }
}

impl View for CryptoHash {
    type V = Seq<u8>;

    open spec fn view(&self) -> Seq<u8> {
        self.0@
    }
}

impl CryptoHash {
    /// A hash value is well formed when it holds exactly 32 bytes.
    pub open spec fn wf(&self) -> bool {
        self@.len() == HASH_LEN
    }

    /// The all-zero hash, used as a placeholder block hash.
    pub fn zero() -> (r: CryptoHash)
        ensures
            r@ == Seq::new(HASH_LEN as nat, |i: int| 0u8),
            r.wf(),
    {
        let mut v: Vec<u8> = Vec::new();
        for i in 0..HASH_LEN
            invariant
                v@ =~= Seq::new(i as nat, |j: int| 0u8),
        {
            v.push(0u8);
        }
        proof {
            assert(v@ =~= Seq::new(HASH_LEN as nat, |i: int| 0u8));
        }
        CryptoHash(v)
    }

    /// Equality on the bytes of the hash.
    pub fn equals(&self, other: &CryptoHash) -> (r: bool)
        ensures
            r == (self@ == other@),
    {
        bytes_eq(&self.0, &other.0)
    }
}

} // verus!
