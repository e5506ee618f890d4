//! Flat state values: either an inlined byte string or a reference to a
//! value in the trie, identified by length and hash.

use vstd::prelude::*;
use crate::hash::CryptoHash;
use crate::hash::HASH_LEN;

verus! {

/// Values up to this many bytes are stored inline on disk; longer ones are
/// stored as a [`ValueRef`].
pub const INLINE_DISK_VALUE_THRESHOLD: usize = 4000;

/// In-memory footprint charged for a [`FlatStateValue`] besides the bytes of
/// an inlined value; used only for batch-size accounting.
pub const FLAT_STATE_VALUE_BASE_SIZE: usize = 40;

/// Serialized size of a [`ValueRef`]: 4 bytes of length plus 32 bytes of hash.
pub const VALUE_REF_SERIALIZED_LEN: usize = 36;

/// The SHA-256 digest of a byte string, as computed by the `sha2` crate.
pub uninterp spec fn sha256_of(data: Seq<u8>) -> Seq<u8>;

/// Relies on sha2's `Sha256::digest`: the 32-byte SHA-256 digest of the
/// input, a function of the input bytes alone.
#[verifier::external_body]
pub fn sha256(data: &Vec<u8>) -> (r: CryptoHash)
    ensures
        r@ == sha256_of(data@),
        r@.len() == HASH_LEN,
{
    CryptoHash(<sha2::Sha256 as sha2::Digest>::digest(data.as_slice()).to_vec())
}

/// Saturating addition on `usize`, for size accounting.
pub fn add_sat(a: usize, b: usize) -> (r: usize)
    ensures
        r == if a + b <= usize::MAX { a + b } else { usize::MAX as int },
{
    if a <= usize::MAX - b {
        a + b
    } else {
        usize::MAX
    }
}

/// Mathematical model of a [`ValueRef`].
pub struct ValueRefView {
    pub length: int,
    pub hash: Seq<u8>,
}

/// State value reference: length and hash of the referenced value.
#[derive(Debug, PartialEq, Eq, Hash)]
pub struct ValueRef {
    /// Value length in bytes.
    pub length: u32,
    /// Unique value hash.
    pub hash: CryptoHash,
}

impl Clone for ValueRef {
    fn clone(&self) -> (r: Self)
        ensures
            r@ == self@,
    {
        ValueRef { length: self.length, hash: self.hash.clone() }
    }
}

impl View for ValueRef {
    type V = ValueRefView;

    open spec fn view(&self) -> ValueRefView {
        ValueRefView { length: self.length as int, hash: self.hash@ }
    }
}

/// The little-endian number held in the first four bytes of `s`.
pub open spec fn le32(s: Seq<u8>) -> int {
    s[0] + 256 * (s[1] + 256 * (s[2] + 256 * s[3]))
}

/// The [`ValueRef`] described by a 36-byte serialization: 4 bytes of
/// little-endian length followed by the 32-byte hash.
pub open spec fn decoded_value_ref(s: Seq<u8>) -> ValueRefView {
    ValueRefView { length: le32(s), hash: s.subrange(4, 36) }
}

impl ValueRef {
    /// Well-formed: the hash holds exactly 32 bytes.
    pub open spec fn wf(&self) -> bool {
        self.hash.wf()
    }

    /// Creates the reference for a value: its length and its SHA-256 hash.
    pub fn new(value: &Vec<u8>) -> (r: ValueRef)
        requires
            value@.len() <= u32::MAX,
        ensures
            r@.length == value@.len(),
            r@.hash == sha256_of(value@),
            r.wf(),
    {
        ValueRef { length: value.len() as u32, hash: sha256(value) }
    }

    /// Decodes a value reference from its 36-byte serialization.
    pub fn decode(bytes: &Vec<u8>) -> (r: ValueRef)
        requires
            bytes@.len() == VALUE_REF_SERIALIZED_LEN,
        ensures
            r@ == decoded_value_ref(bytes@),
            r.wf(),
    {
        let length: u32 = bytes[0] as u32 + 256 * (bytes[1] as u32)
            + 65536 * (bytes[2] as u32) + 16777216 * (bytes[3] as u32);
        let mut h: Vec<u8> = Vec::new();
        for i in 4..VALUE_REF_SERIALIZED_LEN
            invariant
                bytes@.len() == VALUE_REF_SERIALIZED_LEN,
                h@ =~= bytes@.subrange(4, i as int),
        {
            h.push(bytes[i]);
        }
        proof {
            assert(h@ =~= bytes@.subrange(4, 36));
        }
        ValueRef { length, hash: CryptoHash(h) }
    }

    /// Serializes the reference: 4 bytes of little-endian length, then the hash.
    pub fn encode(&self) -> (r: Vec<u8>)
        requires
            self.wf(),
        ensures
            r@.len() == VALUE_REF_SERIALIZED_LEN,
            decoded_value_ref(r@) == self@,
    {
        let mut out: Vec<u8> = Vec::new();
        out.push((self.length % 256) as u8);
        out.push(((self.length / 256) % 256) as u8);
        out.push(((self.length / 65536) % 256) as u8);
        out.push(((self.length / 16777216) % 256) as u8);
        let n = self.hash.0.len();
        for i in 0..n
            invariant
                n == self.hash.0.len() == 32,
                out@.len() == 4 + i,
                out@.subrange(4, out@.len() as int) =~= self.hash.0@.subrange(0, i as int),
                le32(out@) == self.length,
        {
            out.push(self.hash.0[i]);
            assert(out@.subrange(4, out@.len() as int)
                =~= self.hash.0@.subrange(0, i as int).push(self.hash.0@[i as int]));
            assert(self.hash.0@.subrange(0, i as int).push(self.hash.0@[i as int])
                =~= self.hash.0@.subrange(0, i + 1));
        }
        proof {
            assert(out@.subrange(4, 36) =~= self.hash.0@);
        }
        out
    }

    /// Length of the referenced value.
    pub fn len(&self) -> (r: usize)
        ensures
            r == self@.length,
    {
        self.length as usize
    }

    /// Whether this reference describes the given value: same length and
    /// same SHA-256 hash.
    pub fn matches_value(&self, rhs: &Vec<u8>) -> (r: bool)
        ensures
            r == (self@.length == rhs@.len() && self@.hash == sha256_of(rhs@)),
    {
        self.len() == rhs.len() && self.hash.equals(&sha256(rhs))
    }
}

/// Mathematical model of a [`FlatStateValue`].
pub enum FlatValueView {
    Ref(ValueRefView),
    Inlined(Seq<u8>),
}

/// A value of flat storage: inlined bytes or a reference into the trie.
#[derive(Debug, PartialEq, Eq)]
pub enum FlatStateValue {
    Ref(ValueRef),
    Inlined(Vec<u8>),
}

impl Clone for FlatStateValue {
    fn clone(&self) -> (r: Self)
        ensures
            r@ == self@,
    {
        match self {
            FlatStateValue::Ref(value_ref) => FlatStateValue::Ref(value_ref.clone()),
            FlatStateValue::Inlined(v) => {
                let c = v.clone();
                proof {
                    assert(c@ =~= v@);
                }
                FlatStateValue::Inlined(c)
            },
        }
    }
}

impl View for FlatStateValue {
    type V = FlatValueView;

    open spec fn view(&self) -> FlatValueView {
        match self {
            FlatStateValue::Ref(r) => FlatValueView::Ref(r@),
            FlatStateValue::Inlined(v) => FlatValueView::Inlined(v@),
        }
    }
}

/// The value stored on disk for raw bytes `value`: inlined when short enough,
/// a reference otherwise.
pub open spec fn on_disk_view(value: Seq<u8>) -> FlatValueView {
    if value.len() <= INLINE_DISK_VALUE_THRESHOLD {
        FlatValueView::Inlined(value)
    } else {
        FlatValueView::Ref(ValueRefView { length: value.len() as int, hash: sha256_of(value) })
    }
}

impl FlatStateValue {
    /// Well-formed: a held hash has 32 bytes and an inlined value is short.
    pub open spec fn wf(&self) -> bool {
        match self {
            FlatStateValue::Ref(r) => r.wf(),
            FlatStateValue::Inlined(v) => v@.len() <= INLINE_DISK_VALUE_THRESHOLD,
        }
    }

    /// The representation of `value` on disk: inlined if within the
    /// threshold, a reference otherwise.
    pub fn on_disk(value: &Vec<u8>) -> (r: FlatStateValue)
        requires
            value@.len() <= u32::MAX,
        ensures
            r@ == on_disk_view(value@),
            r.wf(),
    {
        if value.len() <= INLINE_DISK_VALUE_THRESHOLD {
            Self::inlined(value)
        } else {
            Self::value_ref(value)
        }
    }

    /// A reference value for the given bytes.
    pub fn value_ref(value: &Vec<u8>) -> (r: FlatStateValue)
        requires
            value@.len() <= u32::MAX,
        ensures
            r@ == FlatValueView::Ref(
                ValueRefView { length: value@.len() as int, hash: sha256_of(value@) },
            ),
            r.wf(),
    {
        FlatStateValue::Ref(ValueRef::new(value))
    }

    /// An inlined copy of the given bytes.
    pub fn inlined(value: &Vec<u8>) -> (r: FlatStateValue)
        requires
            value@.len() <= INLINE_DISK_VALUE_THRESHOLD,
        ensures
            r@ == FlatValueView::Inlined(value@),
            r.wf(),
    {
        let c = value.clone();
        proof {
            assert(c@ =~= value@);
        }
        FlatStateValue::Inlined(c)
    }

    /// The [`ValueRef`] for this value, computing length and hash when the
    /// value is inlined.
    pub fn to_value_ref(&self) -> (r: ValueRef)
        requires
            self.wf(),
        ensures
            r@ == match self@ {
                FlatValueView::Ref(vr) => vr,
                FlatValueView::Inlined(v) => ValueRefView {
                    length: v.len() as int,
                    hash: sha256_of(v),
                },
            },
            r.wf(),
    {
        match self {
            FlatStateValue::Ref(value_ref) => value_ref.clone(),
            FlatStateValue::Inlined(value) => ValueRef::new(value),
        }
    }

    /// Length of the underlying value.
    pub fn value_len(&self) -> (r: usize)
        ensures
            r == match self@ {
                FlatValueView::Ref(vr) => vr.length,
                FlatValueView::Inlined(v) => v.len() as int,
            },
    {
        match self {
            FlatStateValue::Ref(value_ref) => value_ref.len(),
            FlatStateValue::Inlined(value) => value.len(),
        }
    }

    /// Approximate in-memory size, for batch accounting: a fixed base plus
    /// the bytes of an inlined value, saturating at `usize::MAX`.
    pub fn size(&self) -> (r: usize)
        ensures
            r == match self@ {
                FlatValueView::Ref(_) => FLAT_STATE_VALUE_BASE_SIZE as int,
                FlatValueView::Inlined(v) => if FLAT_STATE_VALUE_BASE_SIZE + v.len()
                    <= usize::MAX { FLAT_STATE_VALUE_BASE_SIZE + v.len() } else { usize::MAX as int },
            },
    {
        match self {
            FlatStateValue::Ref(_) => FLAT_STATE_VALUE_BASE_SIZE,
            FlatStateValue::Inlined(value) => add_sat(FLAT_STATE_VALUE_BASE_SIZE, value.len()),
        }
    }
}

/// Value to insert to a trie or to update an existing value in it.
#[derive(Clone, Debug)]
pub enum GenericTrieValue {
    /// Full value, required to update both the in-memory trie and trie storage.
    MemtrieAndDisk(Vec<u8>),
    /// Update only the in-memory trie, for which a [`FlatStateValue`] suffices.
    MemtrieOnly(FlatStateValue),
}

} // verus!
