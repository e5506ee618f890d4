//! Partial state-witness dissemination: compressing a witness, cutting it
//! into Reed-Solomon parts, fanning the parts out to the chunk validators,
//! reassembling them on the receiving side, and tracking acknowledgements.

use vstd::prelude::*;
use crate::account::AccountId;
use crate::hash::CryptoHash;
use crate::encoding::MAX_TOTAL_PARTS;
use crate::encoding::count_present;
use crate::encoding::decode_parts;
use crate::encoding::full_parts_of;
use crate::encoding::rs_parity_of;
use crate::encoding::padded_parts;

verus! {

/// The zstd compression of a byte string, a function of the bytes alone
/// (at the library's fixed compression level).
pub uninterp spec fn compress_of(data: Seq<u8>) -> Seq<u8>;

/// The zstd decompression of a byte string: `None` on malformed input.
pub uninterp spec fn decompress_of(data: Seq<u8>) -> Option<Seq<u8>>;

/// Relies on zstd's `encode_all`: compresses an in-memory buffer, which
/// does not fail, and `decode_all` restores the input exactly.
#[verifier::external_body]
pub fn zstd_compress(data: &Vec<u8>) -> (r: Vec<u8>)
    ensures
        r@ == compress_of(data@),
        decompress_of(r@) == Some(data@),
        1 <= r@.len() <= data@.len() + data@.len() / 128 + 1024,
{
    zstd::encode_all(data.as_slice(), 3).expect("compressing an in-memory buffer cannot fail")
}

/// Relies on zstd's `decode_all`: decompresses a buffer, failing exactly
/// on malformed input; the result depends on the bytes alone.
#[verifier::external_body]
pub fn zstd_decompress(data: &Vec<u8>) -> (r: Option<Vec<u8>>)
    ensures
        r is Some <==> decompress_of(data@) is Some,
        r is Some ==> r.unwrap()@ == decompress_of(data@).unwrap(),
{
    match zstd::decode_all(data.as_slice()) {
        Ok(v) => Some(v),
        Err(_) => None,
    }
}

/// Identifies one chunk/witness production: epoch, shard and height.
#[derive(Debug, PartialEq, Eq, Hash)]
pub struct ChunkProductionKey {
    pub epoch_id: CryptoHash,
    pub shard_id: u64,
    pub height_created: u64,
}

/// Mathematical model of a [`ChunkProductionKey`].
pub struct ChunkProductionKeyView {
    pub epoch_id: Seq<u8>,
    pub shard_id: u64,
    pub height_created: u64,
}

impl View for ChunkProductionKey {
    type V = ChunkProductionKeyView;

    open spec fn view(&self) -> ChunkProductionKeyView {
        ChunkProductionKeyView {
            epoch_id: self.epoch_id@,
            shard_id: self.shard_id,
            height_created: self.height_created,
        }
    }
}

impl Clone for ChunkProductionKey {
    fn clone(&self) -> (r: Self)
        ensures
            r@ == self@,
    {
        ChunkProductionKey {
            epoch_id: self.epoch_id.clone(),
            shard_id: self.shard_id,
            height_created: self.height_created,
        }
    }
}

impl ChunkProductionKey {
    /// Equality on the key's fields.
    pub fn equals(&self, other: &ChunkProductionKey) -> (r: bool)
        ensures
            r == (self@ == other@),
    {
        self.epoch_id.equals(&other.epoch_id) && self.shard_id == other.shard_id
            && self.height_created == other.height_created
    }
}

/// One Reed-Solomon part of an encoded state witness, addressed to the
/// validator whose index equals `part_ord`.
#[derive(Debug, PartialEq, Eq)]
pub struct PartialEncodedStateWitness {
    pub key: ChunkProductionKey,
    pub part_ord: usize,
    pub part: Vec<u8>,
    pub encoded_length: usize,
}

impl Clone for PartialEncodedStateWitness {
    fn clone(&self) -> (r: Self)
        ensures
            r.key@ == self.key@,
            r.part_ord == self.part_ord,
            r.part@ == self.part@,
            r.encoded_length == self.encoded_length,
    {
        let p = self.part.clone();
        proof {
            assert(p@ =~= self.part@);
        }
        PartialEncodedStateWitness {
            key: self.key.clone(),
            part_ord: self.part_ord,
            part: p,
            encoded_length: self.encoded_length,
        }
    }
}

/// The reassembly state of one production key: the sparse parts received
/// so far and whether the witness was already surfaced.
#[derive(Debug)]
pub struct PartsAssembly {
    pub key: ChunkProductionKey,
    pub parts: Vec<Option<Vec<u8>>>,
    pub data_parts: usize,
    pub encoded_length: usize,
    pub decoded: bool,
}

/// The part length an assembly expects: the encoded blob cut into
/// `data_parts` equal parts, rounded up.
pub open spec fn assembly_part_len(encoded_length: int, data_parts: int) -> int {
    (encoded_length + data_parts - 1) / data_parts
}

/// What storing one part into an assembly does: the whole contract of
/// [`PartsAssembly::insert_part`], relating the assembly before (`a0`) and
/// after (`a1`) and the surfaced result. An invalid part — already
/// decoded, bad index, bad size, occupied slot — changes nothing and
/// surfaces nothing; a valid one is retained, the decode fires exactly
/// when the stored parts reach the data-part count, and what it surfaces
/// reassembles the encoded blob exactly.
pub open spec fn insert_part_rel(
    a0: PartsAssembly,
    a1: PartsAssembly,
    part_ord: usize,
    bytes: Vec<u8>,
    r: Option<Vec<u8>>,
) -> bool {
    &&& a1.wf()
    &&& a1.key@ == a0.key@
    &&& a1.data_parts == a0.data_parts
    &&& a1.encoded_length == a0.encoded_length
    &&& a1.parts@.len() == a0.parts@.len()
    &&& ((a0.decoded || part_ord >= a0.parts@.len() || bytes@.len() != assembly_part_len(
        a0.encoded_length as int,
        a0.data_parts as int,
    ) || a0.parts@[part_ord as int] is Some) ==> (a1.parts@ == a0.parts@ && a1.decoded
        == a0.decoded && r is None))
    &&& ((!a0.decoded && part_ord < a0.parts@.len() && bytes@.len() == assembly_part_len(
        a0.encoded_length as int,
        a0.data_parts as int,
    ) && a0.parts@[part_ord as int] is None) ==> ({
        let stored = a0.parts@.update(part_ord as int, Some(bytes));
        &&& (r is Some <==> count_present(stored) >= a0.data_parts)
        &&& a1.decoded == (r is Some)
        &&& (r is None ==> a1.parts@ == stored)
        &&& (r is Some ==> crate::encoding::decoding_exact(
            stored,
            a0.data_parts as int,
            a0.encoded_length as int,
            r.unwrap()@,
        ))
    }))
}

/// An assembly as [`PartsAssembly::new`] builds it: the key recorded, all
/// slots empty, nothing decoded.
pub open spec fn fresh_assembly_of(
    a: PartsAssembly,
    key: ChunkProductionKeyView,
    total_parts: usize,
    data_parts: usize,
    encoded_length: usize,
) -> bool {
    &&& a.key@ == key
    &&& a.parts@.len() == total_parts
    &&& forall|i: int| 0 <= i < a.parts@.len() ==> (#[trigger] a.parts@[i]) is None
    &&& a.data_parts == data_parts
    &&& a.encoded_length == encoded_length
    &&& a.decoded == false
}

impl PartsAssembly {
    /// Well-formed: consistent sizes, every present part of the expected
    /// length.
    pub open spec fn wf(&self) -> bool {
        &&& 1 <= self.data_parts <= self.parts@.len()
        &&& self.parts@.len() <= MAX_TOTAL_PARTS
        &&& 1 <= self.encoded_length
        &&& self.encoded_length + self.data_parts <= usize::MAX
        &&& forall|i: int|
            0 <= i < self.parts@.len() && (#[trigger] self.parts@[i]) is Some ==> self.parts@[i].unwrap()@.len()
                == assembly_part_len(self.encoded_length as int, self.data_parts as int)
    }

    /// A fresh assembly with no parts.
    pub fn new(
        key: ChunkProductionKey,
        total_parts: usize,
        data_parts: usize,
        encoded_length: usize,
    ) -> (r: PartsAssembly)
        requires
            1 <= data_parts <= total_parts,
            total_parts <= MAX_TOTAL_PARTS,
            1 <= encoded_length,
            encoded_length + data_parts <= usize::MAX,
        ensures
            r.wf(),
            r.key@ == key@,
            r.parts@.len() == total_parts,
            forall|i: int| 0 <= i < total_parts ==> (#[trigger] r.parts@[i]) is None,
            r.data_parts == data_parts,
            r.encoded_length == encoded_length,
            r.decoded == false,
    {
        let mut parts: Vec<Option<Vec<u8>>> = Vec::new();
        let mut i: usize = 0;
        while i < total_parts
            invariant
                0 <= i <= total_parts,
                parts@.len() == i,
                forall|j: int| 0 <= j < i ==> (#[trigger] parts@[j]) is None,
            decreases total_parts - i,
        {
            parts.push(None);
            i = i + 1;
        }
        PartsAssembly { key, parts, data_parts, encoded_length, decoded: false }
    }

    /// Stores one part and decodes once at least `data_parts` distinct
    /// parts are present: the decoded blob is surfaced exactly once; an
    /// invalid part (bad index, bad size, duplicate) is discarded, and a
    /// slot that already decoded never surfaces again.
    pub fn insert_part(&mut self, part_ord: usize, bytes: Vec<u8>) -> (r: Option<Vec<u8>>)
        requires
            old(self).wf(),
        ensures
            insert_part_rel(*old(self), *final(self), part_ord, bytes, r),
    {
        if self.decoded {
            return None;
        }
        if part_ord >= self.parts.len() {
            return None;
        }
        let part_len = (self.encoded_length + self.data_parts - 1) / self.data_parts;
        if bytes.len() != part_len {
            return None;
        }
        if self.parts[part_ord].is_some() {
            return None;
        }
        self.parts.set(part_ord, Some(bytes));
        let ghost stored = self.parts@;
        let decoded_length = self.encoded_length;
        let data_parts = self.data_parts;
        let out = decode_parts(&mut self.parts, data_parts, decoded_length);
        match out {
            Some(witness) => {
                self.decoded = true;
                Some(witness)
            },
            None => {
                proof {
                    assert(self.parts@ == stored);
                }
                None
            },
        }
    }
}

/// The contract-code bookkeeping of one production key: the code hashes a
/// witness accessed that were missing from the compiled cache, and the
/// code blobs received for them.
#[derive(Debug)]
pub struct AccessedContractsEntry {
    pub key: ChunkProductionKey,
    pub hashes: Vec<CryptoHash>,
    pub codes: Vec<Vec<u8>>,
}

/// Index of the accessed-contracts entry of a key, `-1` when absent.
pub open spec fn find_accessed(s: Seq<AccessedContractsEntry>, k: ChunkProductionKeyView) -> int
    decreases s.len(),
{
    if s.len() == 0 {
        -1
    } else if s[0].key@ == k {
        0
    } else {
        let p = find_accessed(s.skip(1), k);
        if p < 0 {
            -1
        } else {
            1 + p
        }
    }
}

/// `find_accessed` names the first match.
proof fn lemma_find_accessed_found(s: Seq<AccessedContractsEntry>, k: ChunkProductionKeyView, i: int)
    requires
        0 <= i < s.len(),
        s[i].key@ == k,
        forall|j: int| 0 <= j < i ==> (#[trigger] s[j]).key@ != k,
    ensures
        find_accessed(s, k) == i,
    decreases i,
{
    if i > 0 {
        lemma_find_accessed_found(s.skip(1), k, i - 1);
    }
}

/// A found index is in range, carries the key, and is the first to do so.
proof fn lemma_find_accessed_prefix(s: Seq<AccessedContractsEntry>, k: ChunkProductionKeyView)
    ensures
        find_accessed(s, k) >= 0 ==> ({
            let f = find_accessed(s, k);
            &&& 0 <= f < s.len()
            &&& s[f].key@ == k
            &&& forall|j: int| 0 <= j < f ==> (#[trigger] s[j]).key@ != k
        }),
    decreases s.len(),
{
    if s.len() > 0 && s[0].key@ != k {
        lemma_find_accessed_prefix(s.skip(1), k);
        if find_accessed(s, k) >= 0 {
            let f = find_accessed(s, k);
            assert forall|j: int| 0 <= j < f implies (#[trigger] s[j]).key@ != k by {
                if j > 0 {
                    assert(s.skip(1)[j - 1] == s[j]);
                }
            }
            assert(s.skip(1)[f - 1] == s[f]);
        }
    }
}

/// An absent key matches no entry.
proof fn lemma_find_accessed_absent(s: Seq<AccessedContractsEntry>, k: ChunkProductionKeyView)
    requires
        find_accessed(s, k) < 0,
    ensures
        forall|j: int| 0 <= j < s.len() ==> (#[trigger] s[j]).key@ != k,
    decreases s.len(),
{
    if s.len() > 0 {
        lemma_find_accessed_absent(s.skip(1), k);
        assert forall|j: int| 0 <= j < s.len() implies (#[trigger] s[j]).key@ != k by {
            if j > 0 {
                assert(s.skip(1)[j - 1] == s[j]);
            }
        }
    }
}

/// `find_accessed` is `-1` exactly when the key has no entry.
proof fn lemma_find_accessed_none(s: Seq<AccessedContractsEntry>, k: ChunkProductionKeyView)
    requires
        forall|j: int| 0 <= j < s.len() ==> (#[trigger] s[j]).key@ != k,
    ensures
        find_accessed(s, k) == -1,
    decreases s.len(),
{
    if s.len() > 0 {
        lemma_find_accessed_none(s.skip(1), k);
    }
}

/// What storing one part into a keyed tracker does: the key's assembly —
/// found, or freshly created on first contact — takes the part as
/// [`insert_part_rel`] says, and every other assembly stays untouched.
pub open spec fn store_part_rel(
    e0: Seq<PartsAssembly>,
    e1: Seq<PartsAssembly>,
    key: ChunkProductionKeyView,
    part_ord: usize,
    part: Vec<u8>,
    encoded_length: usize,
    total_parts: usize,
    data_parts: usize,
    r: Option<Vec<u8>>,
) -> bool {
    let oi = find_assembly(e0, key);
    let fi = find_assembly(e1, key);
    &&& 0 <= fi < e1.len()
    &&& e1[fi].key@ == key
    &&& e1.len() == if oi >= 0 {
        e0.len() as int
    } else {
        e0.len() + 1int
    }
    &&& (oi >= 0 ==> fi == oi)
    &&& forall|j: int| 0 <= j < e0.len() && j != fi ==> e1[j] == e0[j]
    &&& (oi >= 0 ==> insert_part_rel(e0[oi], e1[fi], part_ord, part, r))
    &&& (oi < 0 ==> exists|a0: PartsAssembly|
        fresh_assembly_of(a0, key, total_parts, data_parts, encoded_length) && #[trigger] insert_part_rel(
            a0,
            e1[fi],
            part_ord,
            part,
            r,
        ))
}

/// Reassembles witness parts per production key and surfaces each decoded
/// witness exactly once.
#[derive(Debug)]
pub struct PartialEncodedStateWitnessTracker {
    pub entries: Vec<PartsAssembly>,
    /// Per production key, the missing contract hashes a chunk's witness
    /// accessed and the codes received for them.
    pub accessed: Vec<AccessedContractsEntry>,
}

/// Index of the assembly of a key, `-1` when absent.
pub open spec fn find_assembly(s: Seq<PartsAssembly>, k: ChunkProductionKeyView) -> int
    decreases s.len(),
{
    if s.len() == 0 {
        -1
    } else if s[0].key@ == k {
        0
    } else {
        let p = find_assembly(s.skip(1), k);
        if p < 0 {
            -1
        } else {
            1 + p
        }
    }
}

/// `find_assembly` names the first match.
pub proof fn lemma_find_assembly_found(s: Seq<PartsAssembly>, k: ChunkProductionKeyView, i: int)
    requires
        0 <= i < s.len(),
        s[i].key@ == k,
        forall|j: int| 0 <= j < i ==> (#[trigger] s[j]).key@ != k,
    ensures
        find_assembly(s, k) == i,
    decreases i,
{
    if i > 0 {
        lemma_find_assembly_found(s.skip(1), k, i - 1);
    }
}

/// `find_assembly` is `-1` exactly when the key has no assembly.
pub proof fn lemma_find_assembly_none(s: Seq<PartsAssembly>, k: ChunkProductionKeyView)
    requires
        forall|j: int| 0 <= j < s.len() ==> (#[trigger] s[j]).key@ != k,
    ensures
        find_assembly(s, k) == -1,
    decreases s.len(),
{
    if s.len() > 0 {
        lemma_find_assembly_none(s.skip(1), k);
    }
}

impl PartialEncodedStateWitnessTracker {
    /// Well-formed: every assembly well-formed.
    pub open spec fn wf(&self) -> bool {
        forall|i: int| 0 <= i < self.entries@.len() ==> (#[trigger] self.entries@[i]).wf()
    }

    /// An empty tracker.
    pub fn new() -> (r: PartialEncodedStateWitnessTracker)
        ensures
            r.wf(),
            r.entries@.len() == 0,
            r.accessed@.len() == 0,
    {
        PartialEncodedStateWitnessTracker { entries: Vec::new(), accessed: Vec::new() }
    }

    /// Stores one received part under its production key, creating the
    /// key's assembly on first contact, and returns the decoded witness
    /// when this part completes it; the witness of a key is surfaced at
    /// most once.
    pub fn store_partial_encoded_state_witness(
        &mut self,
        partial_witness: PartialEncodedStateWitness,
        total_parts: usize,
        data_parts: usize,
    ) -> (r: Option<Vec<u8>>)
        requires
            old(self).wf(),
            1 <= data_parts <= total_parts,
            total_parts <= MAX_TOTAL_PARTS,
            1 <= partial_witness.encoded_length,
            partial_witness.encoded_length + data_parts <= usize::MAX,
        ensures
            final(self).wf(),
            final(self).accessed@ == old(self).accessed@,
            store_part_rel(
                old(self).entries@,
                final(self).entries@,
                partial_witness.key@,
                partial_witness.part_ord,
                partial_witness.part,
                partial_witness.encoded_length,
                total_parts,
                data_parts,
                r,
            ),
            ({
                let k = partial_witness.key@;
                let oi = find_assembly(old(self).entries@, k);
                let fi = find_assembly(final(self).entries@, k);
                &&& (r is Some ==> final(self).entries@[fi].decoded)
                &&& (oi >= 0 && old(self).entries@[oi].decoded ==> r is None)
            }),
    {
        let ghost k = partial_witness.key@;
        let n = self.entries.len();
        let mut idx: usize = n;
        let mut i: usize = 0;
        while i < n
            invariant
                n == self.entries@.len(),
                0 <= i <= n,
                idx == n,
                forall|j: int| 0 <= j < i ==> (#[trigger] self.entries@[j]).key@ != k,
            decreases n - i,
        {
            if self.entries[i].key.equals(&partial_witness.key) {
                idx = i;
                break;
            }
            i = i + 1;
        }
        let ghost found = idx < n;
        proof {
            if idx < n {
                lemma_find_assembly_found(self.entries@, k, idx as int);
            } else {
                lemma_find_assembly_none(self.entries@, k);
            }
        }
        if idx == n {
            let assembly = PartsAssembly::new(
                partial_witness.key.clone(),
                total_parts,
                data_parts,
                partial_witness.encoded_length,
            );
            self.entries.push(assembly);
        }
        let ghost entries1 = self.entries@;
        let pos = idx;
        let mut a = self.entries.remove(pos);
        let ghost a0 = a;
        let out = a.insert_part(partial_witness.part_ord, partial_witness.part);
        self.entries.insert(pos, a);
        proof {
            assert(self.entries@ =~= entries1.update(pos as int, self.entries@[pos as int]));
            assert(self.entries@[pos as int].key@ == k);
            assert forall|j: int| 0 <= j < pos implies (#[trigger] self.entries@[j]).key@ != k by {
                assert(self.entries@[j] == entries1[j]);
            }
            lemma_find_assembly_found(self.entries@, k, pos as int);
            if found {
                assert(forall|j: int|
                    0 <= j < old(self).entries@.len() && j != pos ==> #[trigger] self.entries@[j]
                        == old(self).entries@[j]);
                assert(a0 == old(self).entries@[pos as int]);
                assert(insert_part_rel(
                    old(self).entries@[pos as int],
                    self.entries@[pos as int],
                    partial_witness.part_ord,
                    partial_witness.part,
                    out,
                ));
                if old(self).entries@[pos as int].decoded {
                    assert(a0.decoded);
                }
            } else {
                assert(fresh_assembly_of(
                    a0,
                    k,
                    total_parts,
                    data_parts,
                    partial_witness.encoded_length,
                ));
                assert(insert_part_rel(
                    a0,
                    self.entries@[pos as int],
                    partial_witness.part_ord,
                    partial_witness.part,
                    out,
                ));
            }
        }
        out
    }

    /// Records the contract hashes a chunk's witness accessed that were
    /// missing from the compiled cache: the key's entry holds exactly that
    /// set, with no codes yet; other keys stay untouched.
    pub fn store_accessed_contract_hashes(&mut self, key: ChunkProductionKey, hashes: Vec<
        CryptoHash,
    >)
        requires
            old(self).wf(),
        ensures
            final(self).wf(),
            final(self).entries@ == old(self).entries@,
            ({
                let k = key@;
                let oi = find_accessed(old(self).accessed@, k);
                let fi = find_accessed(final(self).accessed@, k);
                &&& 0 <= fi < final(self).accessed@.len()
                &&& final(self).accessed@[fi].key@ == k
                &&& hash_views(final(self).accessed@[fi].hashes@) == hash_views(hashes@)
                &&& final(self).accessed@[fi].codes@.len() == 0
                &&& final(self).accessed@.len() == if oi >= 0 {
                    old(self).accessed@.len() as int
                } else {
                    old(self).accessed@.len() + 1int
                }
                &&& (oi >= 0 ==> fi == oi)
                &&& forall|j: int|
                    0 <= j < old(self).accessed@.len() && j != fi ==> final(self).accessed@[j]
                        == old(self).accessed@[j]
            }),
    {
        let ghost k = key@;
        let pos = self.find_accessed_index(&key);
        let entry = AccessedContractsEntry { key, hashes, codes: Vec::new() };
        self.put_accessed_entry(pos, entry);
    }

    /// Records the code blobs received for a chunk's accessed contracts:
    /// the key's entry holds exactly those codes, keeping its hash set;
    /// other keys stay untouched.
    pub fn store_accessed_contract_codes(&mut self, key: ChunkProductionKey, codes: Vec<Vec<u8>>)
        requires
            old(self).wf(),
        ensures
            final(self).wf(),
            final(self).entries@ == old(self).entries@,
            ({
                let k = key@;
                let oi = find_accessed(old(self).accessed@, k);
                let fi = find_accessed(final(self).accessed@, k);
                &&& 0 <= fi < final(self).accessed@.len()
                &&& final(self).accessed@[fi].key@ == k
                &&& crate::encoding::shard_views(final(self).accessed@[fi].codes@)
                    == crate::encoding::shard_views(codes@)
                &&& (oi >= 0 ==> final(self).accessed@[fi].hashes == old(self).accessed@[oi].hashes)
                &&& (oi < 0 ==> final(self).accessed@[fi].hashes@.len() == 0)
                &&& final(self).accessed@.len() == if oi >= 0 {
                    old(self).accessed@.len() as int
                } else {
                    old(self).accessed@.len() + 1int
                }
                &&& (oi >= 0 ==> fi == oi)
                &&& forall|j: int|
                    0 <= j < old(self).accessed@.len() && j != fi ==> final(self).accessed@[j]
                        == old(self).accessed@[j]
            }),
    {
        let ghost k = key@;
        proof {
            lemma_find_accessed_prefix(self.accessed@, k);
            if find_accessed(self.accessed@, k) < 0 {
                lemma_find_accessed_absent(self.accessed@, k);
            }
        }
        let pos = self.find_accessed_index(&key);
        match pos {
            Some(i) => {
                let prev = self.accessed.remove(i);
                let entry = AccessedContractsEntry { key, hashes: prev.hashes, codes };
                self.accessed.insert(i, entry);
                proof {
                    assert(self.accessed@ =~= old(self).accessed@.update(
                        i as int,
                        self.accessed@[i as int],
                    ));
                    assert forall|j: int| 0 <= j < i implies (#[trigger] self.accessed@[j]).key@
                        != k by {
                        assert(self.accessed@[j] == old(self).accessed@[j]);
                    }
                    lemma_find_accessed_found(self.accessed@, k, i as int);
                }
            },
            None => {
                let entry = AccessedContractsEntry { key, hashes: Vec::new(), codes };
                self.accessed.push(entry);
                proof {
                    assert forall|j: int| 0 <= j < self.accessed@.len() - 1 implies (
                    #[trigger] self.accessed@[j]).key@ != k by {
                        assert(self.accessed@[j] == old(self).accessed@[j]);
                    }
                    lemma_find_accessed_found(self.accessed@, k, self.accessed@.len() - 1);
                }
            },
        }
    }

    /// First position of a key's accessed-contracts entry.
    fn find_accessed_index(&self, key: &ChunkProductionKey) -> (r: Option<usize>)
        ensures
            r is Some <==> find_accessed(self.accessed@, key@) >= 0,
            r is Some ==> r.unwrap() == find_accessed(self.accessed@, key@) && r.unwrap()
                < self.accessed@.len(),
    {
        let n = self.accessed.len();
        let mut i: usize = 0;
        while i < n
            invariant
                0 <= i <= n,
                n == self.accessed@.len(),
                forall|j: int| 0 <= j < i ==> (#[trigger] self.accessed@[j]).key@ != key@,
            decreases n - i,
        {
            if self.accessed[i].key.equals(key) {
                proof {
                    lemma_find_accessed_found(self.accessed@, key@, i as int);
                }
                return Some(i);
            }
            i = i + 1;
        }
        proof {
            lemma_find_accessed_none(self.accessed@, key@);
        }
        None
    }

    /// Replaces the entry at the found position, or appends a new one.
    fn put_accessed_entry(&mut self, pos: Option<usize>, entry: AccessedContractsEntry)
        requires
            match pos {
                Some(i) => i < old(self).accessed@.len() && i as int == find_accessed(
                    old(self).accessed@,
                    entry.key@,
                ),
                None => find_accessed(old(self).accessed@, entry.key@) < 0,
            },
        ensures
            final(self).entries@ == old(self).entries@,
            ({
                let k = entry.key@;
                let oi = find_accessed(old(self).accessed@, k);
                let fi = find_accessed(final(self).accessed@, k);
                &&& 0 <= fi < final(self).accessed@.len()
                &&& final(self).accessed@[fi] == entry
                &&& final(self).accessed@.len() == if oi >= 0 {
                    old(self).accessed@.len() as int
                } else {
                    old(self).accessed@.len() + 1int
                }
                &&& (oi >= 0 ==> fi == oi)
                &&& forall|j: int|
                    0 <= j < old(self).accessed@.len() && j != fi ==> final(self).accessed@[j]
                        == old(self).accessed@[j]
            }),
    {
        let ghost k = entry.key@;
        proof {
            lemma_find_accessed_prefix(old(self).accessed@, k);
            if find_accessed(old(self).accessed@, k) < 0 {
                lemma_find_accessed_absent(old(self).accessed@, k);
            }
        }
        match pos {
            Some(i) => {
                self.accessed.remove(i);
                self.accessed.insert(i, entry);
                proof {
                    assert(self.accessed@ =~= old(self).accessed@.update(
                        i as int,
                        self.accessed@[i as int],
                    ));
                    assert forall|j: int| 0 <= j < i implies (#[trigger] self.accessed@[j]).key@
                        != k by {
                        assert(self.accessed@[j] == old(self).accessed@[j]);
                    }
                    lemma_find_accessed_found(self.accessed@, k, i as int);
                }
            },
            None => {
                self.accessed.push(entry);
                proof {
                    assert forall|j: int| 0 <= j < self.accessed@.len() - 1 implies (
                    #[trigger] self.accessed@[j]).key@ != k by {
                        assert(self.accessed@[j] == old(self).accessed@[j]);
                    }
                    lemma_find_accessed_found(self.accessed@, k, self.accessed@.len() - 1);
                }
            },
        }
    }
}


/// Ratio of data parts for witness encoding: three fifths of the
/// validator count.
pub const WITNESS_RATIO_DATA_PARTS_NUM: usize = 3;

/// Denominator of the witness data-part ratio.
pub const WITNESS_RATIO_DATA_PARTS_DEN: usize = 5;

/// Ratio of data parts for contract-deploy encoding: three tenths of the
/// validator count.
pub const CONTRACT_DEPLOYS_RATIO_DATA_PARTS_NUM: usize = 3;

/// Denominator of the contract-deploy data-part ratio.
pub const CONTRACT_DEPLOYS_RATIO_DATA_PARTS_DEN: usize = 10;

/// The byte views of a list of account ids.
pub open spec fn account_views(s: Seq<AccountId>) -> Seq<Seq<u8>> {
    Seq::new(s.len(), |i: int| s[i]@)
}

/// The validators a part owner forwards to: every validator except the
/// producer of the chunk, in order.
pub open spec fn forward_targets_of(vs: Seq<Seq<u8>>, producer: Seq<u8>) -> Seq<Seq<u8>>
    decreases vs.len(),
{
    if vs.len() == 0 {
        Seq::empty()
    } else {
        let rest = forward_targets_of(vs.drop_last(), producer);
        if vs.last() != producer {
            rest.push(vs.last())
        } else {
            rest
        }
    }
}

/// Every validator other than the producer is among the forward targets:
/// together with the one direct send per part, each remaining validator
/// receives each part at least once, and the forward of a part is emitted
/// only by that part's owner.
pub proof fn lemma_owner_forward_exactness(vs: Seq<Seq<u8>>, producer: Seq<u8>, v: Seq<u8>)
    requires
        vs.contains(v),
        v != producer,
    ensures
        forward_targets_of(vs, producer).contains(v),
    decreases vs.len(),
{
    let i = choose|i: int| 0 <= i < vs.len() && vs[i] == v;
    if i == vs.len() - 1 {
        assert(forward_targets_of(vs, producer).last() == v);
    } else {
        assert(vs.drop_last()[i] == v);
        assert(vs.drop_last().contains(v));
        lemma_owner_forward_exactness(vs.drop_last(), producer, v);
        let rest = forward_targets_of(vs.drop_last(), producer);
        let j = choose|j: int| 0 <= j < rest.len() && rest[j] == v;
        assert(forward_targets_of(vs, producer)[j] == v);
    }
}

/// Computes the forward targets of a part: the chunk validators except
/// the chunk producer, keeping their order.
pub fn forward_targets(validators: &Vec<AccountId>, chunk_producer: &AccountId) -> (r: Vec<
    AccountId,
>)
    ensures
        account_views(r@) == forward_targets_of(account_views(validators@), chunk_producer@),
{
    let mut out: Vec<AccountId> = Vec::new();
    let n = validators.len();
    let mut i: usize = 0;
    proof {
        assert(account_views(validators@).take(0) =~= Seq::<Seq<u8>>::empty());
        assert(account_views(out@) =~= forward_targets_of(
            account_views(validators@).take(0),
            chunk_producer@,
        ));
    }
    while i < n
        invariant
            0 <= i <= n,
            n == validators@.len(),
            account_views(out@) =~= forward_targets_of(
                account_views(validators@).take(i as int),
                chunk_producer@,
            ),
        decreases n - i,
    {
        proof {
            assert(account_views(validators@).take(i + 1).drop_last() =~= account_views(
                validators@,
            ).take(i as int));
            assert(account_views(validators@).take(i + 1).last() == validators@[i as int]@);
        }
        if !crate::hash::bytes_eq(&validators[i].0, &chunk_producer.0) {
            out.push(validators[i].clone());
            proof {
                assert(account_views(out@) =~= forward_targets_of(
                    account_views(validators@).take(i + 1),
                    chunk_producer@,
                ));
            }
        } else {
            proof {
                assert(account_views(out@) =~= forward_targets_of(
                    account_views(validators@).take(i + 1),
                    chunk_producer@,
                ));
            }
        }
        i = i + 1;
    }
    proof {
        assert(account_views(validators@).take(n as int) =~= account_views(validators@));
    }
    out
}

/// One record of a witness sent out, for round-trip observability.
#[derive(Debug)]
pub struct WitnessSentRecord {
    pub chunk_hash: CryptoHash,
    pub witness_size: usize,
    pub num_validators: usize,
    pub acked: bool,
}

/// Index of the first record of a chunk hash not yet acknowledged, `-1`
/// when there is none.
pub open spec fn find_unacked(s: Seq<WitnessSentRecord>, h: Seq<u8>) -> int
    decreases s.len(),
{
    if s.len() == 0 {
        -1
    } else if s[0].chunk_hash@ == h && !s[0].acked {
        0
    } else {
        let p = find_unacked(s.skip(1), h);
        if p < 0 {
            -1
        } else {
            1 + p
        }
    }
}

/// `find_unacked` names the first match.
proof fn lemma_find_unacked_found(s: Seq<WitnessSentRecord>, h: Seq<u8>, i: int)
    requires
        0 <= i < s.len(),
        s[i].chunk_hash@ == h && !s[i].acked,
        forall|j: int| 0 <= j < i ==> !((#[trigger] s[j]).chunk_hash@ == h && !s[j].acked),
    ensures
        find_unacked(s, h) == i,
    decreases i,
{
    if i > 0 {
        lemma_find_unacked_found(s.skip(1), h, i - 1);
    }
}

/// `find_unacked` is `-1` exactly when every record of the hash is acked.
proof fn lemma_find_unacked_none(s: Seq<WitnessSentRecord>, h: Seq<u8>)
    requires
        forall|j: int| 0 <= j < s.len() ==> !((#[trigger] s[j]).chunk_hash@ == h && !s[j].acked),
    ensures
        find_unacked(s, h) == -1,
    decreases s.len(),
{
    if s.len() > 0 {
        lemma_find_unacked_none(s.skip(1), h);
    }
}

/// Tracks the witnesses sent from a chunk producer to its validators and
/// matches the incoming acknowledgements against them.
#[derive(Debug)]
pub struct ChunkStateWitnessTracker {
    pub records: Vec<WitnessSentRecord>,
}

impl ChunkStateWitnessTracker {
    /// An empty tracker.
    pub fn new() -> (r: ChunkStateWitnessTracker)
        ensures
            r.records@.len() == 0,
    {
        ChunkStateWitnessTracker { records: Vec::new() }
    }

    /// Records a witness that was just sent to `num_validators` validators.
    pub fn record_witness_sent(
        &mut self,
        chunk_hash: CryptoHash,
        witness_size: usize,
        num_validators: usize,
    )
        ensures
            final(self).records@.len() == old(self).records@.len() + 1,
            forall|j: int|
                0 <= j < old(self).records@.len() ==> final(self).records@[j] == old(self).records@[j],
            final(self).records@.last().chunk_hash@ == chunk_hash@,
            final(self).records@.last().witness_size == witness_size,
            final(self).records@.last().num_validators == num_validators,
            final(self).records@.last().acked == false,
    {
        self.records.push(
            WitnessSentRecord { chunk_hash, witness_size, num_validators, acked: false },
        );
    }

    /// Handles a witness acknowledgement: marks the first matching
    /// unacknowledged record and returns its witness size; `None` when no
    /// record of that chunk is waiting.
    pub fn on_witness_ack_received(&mut self, chunk_hash: &CryptoHash) -> (r: Option<usize>)
        ensures
            ({
                let fi = find_unacked(old(self).records@, chunk_hash@);
                &&& (r is Some <==> fi >= 0)
                &&& (fi >= 0 ==> r.unwrap() == old(self).records@[fi].witness_size && final(self).records@.len() == old(self).records@.len() && final(self).records@[fi].chunk_hash@
                    == old(self).records@[fi].chunk_hash@ && final(self).records@[fi].witness_size
                    == old(self).records@[fi].witness_size && final(self).records@[fi].num_validators
                    == old(self).records@[fi].num_validators && final(self).records@[fi].acked
                    == true && (forall|j: int|
                    0 <= j < old(self).records@.len() && j != fi ==> final(self).records@[j]
                        == old(self).records@[j]))
                &&& (fi < 0 ==> final(self).records@ == old(self).records@)
            }),
    {
        let n = self.records.len();
        let mut i: usize = 0;
        while i < n
            invariant
                0 <= i <= n,
                n == self.records@.len(),
                self.records@ == old(self).records@,
                forall|j: int|
                    0 <= j < i ==> !((#[trigger] self.records@[j]).chunk_hash@ == chunk_hash@
                        && !self.records@[j].acked),
            decreases n - i,
        {
            if !self.records[i].acked && self.records[i].chunk_hash.equals(chunk_hash) {
                proof {
                    lemma_find_unacked_found(self.records@, chunk_hash@, i as int);
                }
                let size = self.records[i].witness_size;
                let hash = self.records[i].chunk_hash.clone();
                let nv = self.records[i].num_validators;
                self.records.set(
                    i,
                    WitnessSentRecord {
                        chunk_hash: hash,
                        witness_size: size,
                        num_validators: nv,
                        acked: true,
                    },
                );
                return Some(size);
            }
            i = i + 1;
        }
        proof {
            lemma_find_unacked_none(self.records@, chunk_hash@);
        }
        None
    }
}

/// One Reed-Solomon part of a compressed batch of deployed contracts.
#[derive(Debug)]
pub struct PartialEncodedContractDeploys {
    pub key: ChunkProductionKey,
    pub part_ord: usize,
    pub data: Vec<u8>,
    pub encoded_length: usize,
}

/// Reassembles contract-deploy parts, one assembly per production key.
#[derive(Debug)]
pub struct PartialEncodedContractDeploysTracker {
    pub inner: PartialEncodedStateWitnessTracker,
}

impl PartialEncodedContractDeploysTracker {
    /// Well-formed: every assembly well-formed.
    pub open spec fn wf(&self) -> bool {
        self.inner.wf()
    }

    /// An empty tracker.
    pub fn new() -> (r: PartialEncodedContractDeploysTracker)
        ensures
            r.wf(),
            r.inner.entries@.len() == 0,
    {
        PartialEncodedContractDeploysTracker { inner: PartialEncodedStateWitnessTracker::new() }
    }

    /// Stores one deploy part and returns the reassembled compressed batch
    /// once enough parts are present; each batch is surfaced at most once.
    pub fn store_partial_encoded_contract_deploys(
        &mut self,
        partial_deploys: PartialEncodedContractDeploys,
        total_parts: usize,
        data_parts: usize,
    ) -> (r: Option<Vec<u8>>)
        requires
            old(self).wf(),
            1 <= data_parts <= total_parts,
            total_parts <= MAX_TOTAL_PARTS,
            1 <= partial_deploys.encoded_length,
            partial_deploys.encoded_length + data_parts <= usize::MAX,
        ensures
            final(self).wf(),
            final(self).inner.accessed@ == old(self).inner.accessed@,
            store_part_rel(
                old(self).inner.entries@,
                final(self).inner.entries@,
                partial_deploys.key@,
                partial_deploys.part_ord,
                partial_deploys.data,
                partial_deploys.encoded_length,
                total_parts,
                data_parts,
                r,
            ),
            ({
                let k = partial_deploys.key@;
                let oi = find_assembly(old(self).inner.entries@, k);
                let fi = find_assembly(final(self).inner.entries@, k);
                &&& (r is Some ==> final(self).inner.entries@[fi].decoded)
                &&& (oi >= 0 && old(self).inner.entries@[oi].decoded ==> r is None)
            }),
    {
        let pw = PartialEncodedStateWitness {
            key: partial_deploys.key,
            part_ord: partial_deploys.part_ord,
            part: partial_deploys.data,
            encoded_length: partial_deploys.encoded_length,
        };
        self.inner.store_partial_encoded_state_witness(pw, total_parts, data_parts)
    }
}


/// Compresses a state witness for distribution, returning the compressed
/// bytes and the raw size.
pub fn compress_witness(witness: &Vec<u8>) -> (r: (Vec<u8>, usize))
    ensures
        r.0@ == compress_of(witness@),
        decompress_of(r.0@) == Some(witness@),
        1 <= r.0@.len() <= witness@.len() + witness@.len() / 128 + 1024,
        r.1 == witness@.len(),
{
    let compressed = zstd_compress(witness);
    let raw_size = witness.len();
    (compressed, raw_size)
}

/// First index of an account in a list, `-1` when absent.
pub open spec fn find_account(s: Seq<AccountId>, v: Seq<u8>) -> int
    decreases s.len(),
{
    if s.len() == 0 {
        -1
    } else if s[0]@ == v {
        0
    } else {
        let p = find_account(s.skip(1), v);
        if p < 0 {
            -1
        } else {
            1 + p
        }
    }
}

/// `find_account` names the first match.
proof fn lemma_find_account_found(s: Seq<AccountId>, v: Seq<u8>, i: int)
    requires
        0 <= i < s.len(),
        s[i]@ == v,
        forall|j: int| 0 <= j < i ==> (#[trigger] s[j])@ != v,
    ensures
        find_account(s, v) == i,
    decreases i,
{
    if i > 0 {
        lemma_find_account_found(s.skip(1), v, i - 1);
    }
}

/// `find_account` is `-1` exactly when the account is absent.
proof fn lemma_find_account_none(s: Seq<AccountId>, v: Seq<u8>)
    requires
        forall|j: int| 0 <= j < s.len() ==> (#[trigger] s[j])@ != v,
    ensures
        find_account(s, v) == -1,
    decreases s.len(),
{
    if s.len() > 0 {
        lemma_find_account_none(s.skip(1), v);
    }
}

/// Position of an account in an ordered validator list.
pub fn index_of_account(validators: &Vec<AccountId>, account: &AccountId) -> (r: Option<usize>)
    ensures
        r is Some <==> find_account(validators@, account@) >= 0,
        r is Some ==> r.unwrap() == find_account(validators@, account@),
{
    let n = validators.len();
    let mut i: usize = 0;
    while i < n
        invariant
            0 <= i <= n,
            n == validators@.len(),
            forall|j: int| 0 <= j < i ==> (#[trigger] validators@[j])@ != account@,
        decreases n - i,
    {
        if crate::hash::bytes_eq(&validators[i].0, &account.0) {
            proof {
                lemma_find_account_found(validators@, account@, i as int);
            }
            return Some(i);
        }
        i = i + 1;
    }
    proof {
        lemma_find_account_none(validators@, account@);
    }
    None
}

/// The keys whose flag says they are missing from the compiled-contract
/// cache, in order.
pub open spec fn missing_of(hs: Seq<Seq<u8>>, cached: Seq<bool>) -> Seq<Seq<u8>>
    decreases hs.len(),
{
    if hs.len() == 0 {
        Seq::empty()
    } else {
        let rest = missing_of(hs.drop_last(), cached.drop_last());
        if !cached.last() {
            rest.push(hs.last())
        } else {
            rest
        }
    }
}

/// The byte views of a list of hashes.
pub open spec fn hash_views(s: Seq<CryptoHash>) -> Seq<Seq<u8>> {
    Seq::new(s.len(), |i: int| s[i]@)
}

/// Selects the contract hashes whose cache probe came back negative.
pub fn missing_contract_hashes(hashes: &Vec<CryptoHash>, cached: &Vec<bool>) -> (r: Vec<
    CryptoHash,
>)
    requires
        hashes@.len() == cached@.len(),
    ensures
        hash_views(r@) == missing_of(hash_views(hashes@), cached@),
{
    let mut out: Vec<CryptoHash> = Vec::new();
    let n = hashes.len();
    let mut i: usize = 0;
    proof {
        assert(hash_views(out@) =~= missing_of(
            hash_views(hashes@).take(0),
            cached@.take(0),
        ));
    }
    while i < n
        invariant
            0 <= i <= n,
            n == hashes@.len() == cached@.len(),
            hash_views(out@) =~= missing_of(hash_views(hashes@).take(i as int), cached@.take(i as int)),
        decreases n - i,
    {
        proof {
            assert(hash_views(hashes@).take(i + 1).drop_last() =~= hash_views(hashes@).take(
                i as int,
            ));
            assert(cached@.take(i + 1).drop_last() =~= cached@.take(i as int));
            assert(hash_views(hashes@).take(i + 1).last() == hashes@[i as int]@);
        }
        if !cached[i] {
            out.push(hashes[i].clone());
            proof {
                assert(hash_views(out@) =~= missing_of(
                    hash_views(hashes@).take(i + 1),
                    cached@.take(i + 1),
                ));
            }
        } else {
            proof {
                assert(hash_views(out@) =~= missing_of(
                    hash_views(hashes@).take(i + 1),
                    cached@.take(i + 1),
                ));
            }
        }
        i = i + 1;
    }
    proof {
        assert(hash_views(hashes@).take(n as int) =~= hash_views(hashes@));
        assert(cached@.take(n as int) =~= cached@);
    }
    out
}

/// Copies a list of hashes, keeping its model.
pub fn clone_hashes(v: &Vec<CryptoHash>) -> (r: Vec<CryptoHash>)
    ensures
        hash_views(r@) == hash_views(v@),
{
    let mut out: Vec<CryptoHash> = Vec::new();
    let n = v.len();
    let mut i: usize = 0;
    while i < n
        invariant
            0 <= i <= n,
            n == v@.len(),
            out@.len() == i,
            forall|j: int| 0 <= j < i ==> (#[trigger] out@[j])@ == v@[j]@,
        decreases n - i,
    {
        out.push(v[i].clone());
        i = i + 1;
    }
    proof {
        assert(hash_views(out@) =~= hash_views(v@));
    }
    out
}

/// Copies a list of byte blobs, keeping its model.
pub fn clone_blobs(v: &Vec<Vec<u8>>) -> (r: Vec<Vec<u8>>)
    ensures
        crate::encoding::shard_views(r@) == crate::encoding::shard_views(v@),
{
    let mut out: Vec<Vec<u8>> = Vec::new();
    let n = v.len();
    let mut i: usize = 0;
    while i < n
        invariant
            0 <= i <= n,
            n == v@.len(),
            out@.len() == i,
            forall|j: int| 0 <= j < i ==> (#[trigger] out@[j])@ == v@[j]@,
        decreases n - i,
    {
        let b = v[i].clone();
        proof {
            assert(b@ =~= v@[i as int]@);
        }
        out.push(b);
        i = i + 1;
    }
    proof {
        assert(crate::encoding::shard_views(out@) =~= crate::encoding::shard_views(v@));
    }
    out
}

/// The sorted order used for validator lists.
pub open spec fn accounts_sorted(s: Seq<Seq<u8>>) -> bool {
    forall|i: int, j: int| 0 <= i < j < s.len() ==> !crate::account::lex_lt(#[trigger] s[j], #[trigger] s[i])
}

/// Filters chunk producers out of the validator set and sorts the rest:
/// the ordered validator list for contract-deploy distribution.
pub fn ordered_contract_deploys_validators(
    all_validators: &Vec<AccountId>,
    chunk_producers: &Vec<AccountId>,
) -> (r: Vec<AccountId>)
    ensures
        accounts_sorted(account_views(r@)),
        account_views(r@).to_multiset() == account_views(all_validators@).filter(
            |v: Seq<u8>| find_account(chunk_producers@, v) < 0,
        ).to_multiset(),
{
    let mut kept: Vec<AccountId> = Vec::new();
    let n = all_validators.len();
    let mut i: usize = 0;
    proof {
        assert(account_views(kept@) =~= account_views(all_validators@).take(0).filter(
            |v: Seq<u8>| find_account(chunk_producers@, v) < 0,
        ));
    }
    while i < n
        invariant
            0 <= i <= n,
            n == all_validators@.len(),
            account_views(kept@) =~= account_views(all_validators@).take(i as int).filter(
                |v: Seq<u8>| find_account(chunk_producers@, v) < 0,
            ),
        decreases n - i,
    {
        proof {
            crate::witness::lemma_filter_push(
                account_views(all_validators@).take(i as int),
                all_validators@[i as int]@,
                |v: Seq<u8>| find_account(chunk_producers@, v) < 0,
            );
            assert(account_views(all_validators@).take(i + 1) =~= account_views(
                all_validators@,
            ).take(i as int).push(all_validators@[i as int]@));
        }
        match index_of_account(chunk_producers, &all_validators[i]) {
            Some(_) => {},
            None => {
                kept.push(all_validators[i].clone());
            },
        }
        proof {
            assert(account_views(kept@) =~= account_views(all_validators@).take(i + 1).filter(
                |v: Seq<u8>| find_account(chunk_producers@, v) < 0,
            ));
        }
        i = i + 1;
    }
    proof {
        assert(account_views(all_validators@).take(n as int) =~= account_views(all_validators@));
    }
    sort_accounts(kept)
}

/// Filtering after appending one element keeps or adds that element.
pub proof fn lemma_filter_push(s: Seq<Seq<u8>>, v: Seq<u8>, pred: spec_fn(Seq<u8>) -> bool)
    ensures
        s.push(v).filter(pred) == if pred(v) {
            s.filter(pred).push(v)
        } else {
            s.filter(pred)
        },
{
    reveal_with_fuel(Seq::filter, 2);
    assert(s.push(v).drop_last() =~= s);
}

/// Sorts a validator list lexicographically (selection sort), keeping
/// exactly its elements.
pub fn sort_accounts(input: Vec<AccountId>) -> (r: Vec<AccountId>)
    ensures
        accounts_sorted(account_views(r@)),
        account_views(r@).to_multiset() == account_views(input@).to_multiset(),
{
    let mut src = input;
    let mut out: Vec<AccountId> = Vec::new();
    proof {
        vstd::seq_lib::lemma_multiset_commutative(account_views(out@), account_views(src@));
        assert(account_views(out@) + account_views(src@) =~= account_views(src@));
    }
    while src.len() > 0
        invariant
            accounts_sorted(account_views(out@)),
            (account_views(out@) + account_views(src@)).to_multiset() == account_views(
                input@,
            ).to_multiset(),
            forall|a: int, b: int|
                0 <= a < account_views(out@).len() && 0 <= b < account_views(src@).len()
                    ==> !crate::account::lex_lt(
                    #[trigger] account_views(src@)[b],
                    #[trigger] account_views(out@)[a],
                ),
        decreases src@.len(),
    {
        let m = src.len();
        let mut best: usize = 0;
        let mut j: usize = 1;
        proof {
            crate::account::lemma_lex_lt_irrefl(src@[0]@);
        }
        while j < m
            invariant
                0 <= best < j <= m,
                m == src@.len(),
                forall|x: int|
                    0 <= x < j ==> !crate::account::lex_lt(
                        (#[trigger] src@[x])@,
                        src@[best as int]@,
                    ),
            decreases m - j,
        {
            if src[j].lt(&src[best]) {
                proof {
                    assert forall|x: int| 0 <= x < j implies !crate::account::lex_lt(
                        (#[trigger] src@[x])@,
                        src@[j as int]@,
                    ) by {
                        if crate::account::lex_lt(src@[x]@, src@[j as int]@) {
                            crate::account::lemma_lex_lt_trans(
                                src@[x]@,
                                src@[j as int]@,
                                src@[best as int]@,
                            );
                        }
                    }
                    crate::account::lemma_lex_lt_irrefl(src@[j as int]@);
                }
                best = j;
            }
            j = j + 1;
        }
        let ghost out0 = out@;
        let ghost src0 = src@;
        let picked = src.remove(best);
        out.push(picked);
        proof {
            broadcast use vstd::seq_lib::group_seq_properties;
            assert(account_views(out@) =~= account_views(out0).push(picked@));
            assert(account_views(src@) =~= account_views(src0).remove(best as int));
            account_views(src0).to_multiset_ensures();
            account_views(out0).to_multiset_ensures();
            account_views(out@).to_multiset_ensures();
            account_views(src@).to_multiset_ensures();
            lemma_concat_multiset(account_views(out@), account_views(src@));
            lemma_concat_multiset(account_views(out0), account_views(src0));
            assert(account_views(out@).to_multiset() =~= account_views(out0).to_multiset().insert(
                picked@,
            ));
            assert(account_views(src0)[best as int] == picked@);
            assert(account_views(src@).to_multiset() =~= account_views(src0).to_multiset().remove(
                picked@,
            ));
            assert(account_views(src0).to_multiset().contains(picked@)) by {
                assert(account_views(src0).contains(picked@)) by {
                    assert(account_views(src0)[best as int] == picked@);
                }
            }
            assert((account_views(out@) + account_views(src@)).to_multiset() =~= (account_views(
                out0,
            ) + account_views(src0)).to_multiset());
            assert forall|a: int, b: int|
                0 <= a < account_views(out@).len() && 0 <= b < account_views(src@).len() implies
                !crate::account::lex_lt(
                #[trigger] account_views(src@)[b],
                #[trigger] account_views(out@)[a],
            ) by {
                let sv = account_views(src@)[b];
                assert(sv == account_views(src0)[if b < best { b } else { b + 1 }]);
                if a < out0.len() {
                    assert(account_views(out@)[a] == account_views(out0)[a]);
                } else {
                    assert(account_views(out@)[a] == picked@);
                    assert(!crate::account::lex_lt(sv, picked@));
                }
            }
            assert(accounts_sorted(account_views(out@))) by {
                assert forall|x: int, y: int|
                    0 <= x < y < account_views(out@).len() implies !crate::account::lex_lt(
                    #[trigger] account_views(out@)[y],
                    #[trigger] account_views(out@)[x],
                ) by {
                    if y < out0.len() {
                        assert(account_views(out@)[x] == account_views(out0)[x]);
                        assert(account_views(out@)[y] == account_views(out0)[y]);
                    } else {
                        assert(account_views(out@)[y] == picked@);
                        assert(account_views(out@)[x] == account_views(out0)[x]);
                        assert(!crate::account::lex_lt(picked@, account_views(out0)[x]));
                    }
                }
            }
        }
    }
    proof {
        assert(account_views(src@).len() == 0);
        assert(account_views(out@) + account_views(src@) =~= account_views(out@));
    }
    out
}

/// The multiset of a concatenation is the sum of the multisets.
pub proof fn lemma_concat_multiset(a: Seq<Seq<u8>>, b: Seq<Seq<u8>>)
    ensures
        (a + b).to_multiset() == a.to_multiset().add(b.to_multiset()),
{
    vstd::seq_lib::lemma_multiset_commutative(a, b);
}


/// A request to distribute a chunk state witness: the production key, the
/// chunk hash, the raw witness, and the serialized batch of contracts the
/// chunk deployed (empty when none were).
#[derive(Debug)]
pub struct DistributeStateWitnessRequest {
    pub key: ChunkProductionKey,
    pub chunk_hash: CryptoHash,
    pub state_witness: Vec<u8>,
    pub contract_deploys: Vec<u8>,
}

/// Distributes state witnesses and contract deploys as Reed-Solomon parts
/// and reassembles what other producers send; the network, signer and
/// epoch services live outside and hand their answers in as plain values.
#[derive(Debug)]
pub struct PartialWitnessActor {
    /// Tracks the parts of state witnesses sent to this validator.
    pub partial_witness_tracker: PartialEncodedStateWitnessTracker,
    /// Tracks the parts of contract-deploy batches.
    pub partial_deploys_tracker: PartialEncodedContractDeploysTracker,
    /// Tracks sent witnesses awaiting acknowledgement.
    pub state_witness_tracker: ChunkStateWitnessTracker,
}

/// The parts of one encoded blob, paired with the validators owning them.
pub open spec fn parts_match(
    r: Seq<(AccountId, PartialEncodedStateWitness)>,
    validators: Seq<AccountId>,
    key: ChunkProductionKeyView,
    blob: Seq<u8>,
    data: int,
) -> bool {
    &&& r.len() == validators.len()
    &&& forall|i: int|
        0 <= i < r.len() ==> ((#[trigger] r[i]).0@ == validators[i]@ && r[i].1.key@ == key
            && r[i].1.part_ord == i && r[i].1.encoded_length == blob.len() && r[i].1.part@
            == full_parts_of(
            blob,
            (blob.len() + data - 1) / data,
            data,
            validators.len() as int,
        )[i])
}

impl PartialWitnessActor {
    /// A fresh actor with empty trackers.
    pub fn new() -> (r: PartialWitnessActor)
        ensures
            r.partial_witness_tracker.wf(),
            r.partial_deploys_tracker.wf(),
            r.partial_witness_tracker.entries@.len() == 0,
            r.partial_witness_tracker.accessed@.len() == 0,
            r.partial_deploys_tracker.inner.entries@.len() == 0,
            r.state_witness_tracker.records@.len() == 0,
    {
        PartialWitnessActor {
            partial_witness_tracker: PartialEncodedStateWitnessTracker::new(),
            partial_deploys_tracker: PartialEncodedContractDeploysTracker::new(),
            state_witness_tracker: ChunkStateWitnessTracker::new(),
        }
    }

    /// Handles a request to distribute a chunk state witness: compresses
    /// the witness, fans it out to the chunk validators, records it for
    /// acknowledgement tracking, and does the same for the accompanying
    /// contract-deploy batch when there is one. Returns the two message
    /// sets for the network layer to send.
    pub fn handle_distribute_state_witness_request(
        &mut self,
        msg: DistributeStateWitnessRequest,
        chunk_validators: &Vec<AccountId>,
        deploys_validators: &Vec<AccountId>,
    ) -> (r: (
        Vec<(AccountId, PartialEncodedStateWitness)>,
        Vec<(AccountId, PartialEncodedStateWitness)>,
    ))
        requires
            old(self).partial_witness_tracker.wf(),
            1 <= chunk_validators@.len() <= MAX_TOTAL_PARTS,
            deploys_validators@.len() <= MAX_TOTAL_PARTS,
            msg.state_witness@.len() <= usize::MAX / 2 - 2048,
            msg.contract_deploys@.len() <= usize::MAX / 2 - 2048,
        ensures
            final(self).partial_witness_tracker.wf(),
            parts_match(
                r.0@,
                chunk_validators@,
                msg.key@,
                compress_of(msg.state_witness@),
                data_parts_of_validators(chunk_validators@.len() as int),
            ),
            (msg.contract_deploys@.len() == 0 || deploys_validators@.len() == 0) ==> r.1@.len()
                == 0,
            (msg.contract_deploys@.len() > 0 && deploys_validators@.len() > 0) ==> parts_match(
                r.1@,
                deploys_validators@,
                msg.key@,
                compress_of(msg.contract_deploys@),
                deploys_data_parts_of_validators(deploys_validators@.len() as int),
            ),
            final(self).state_witness_tracker.records@.len() == old(self).state_witness_tracker.records@.len() + 1,
            final(self).state_witness_tracker.records@.last().chunk_hash@ == msg.chunk_hash@,
            final(self).state_witness_tracker.records@.last().witness_size == compress_of(
                msg.state_witness@,
            ).len(),
            final(self).state_witness_tracker.records@.last().num_validators
                == chunk_validators@.len(),
            forall|j: int|
                0 <= j < old(self).state_witness_tracker.records@.len() ==> final(self).state_witness_tracker.records@[j] == old(self).state_witness_tracker.records@[j],
    {
        let witness_messages = self.send_state_witness_parts(
            msg.key.clone(),
            msg.chunk_hash,
            &msg.state_witness,
            chunk_validators,
        );
        let deploys_messages = if msg.contract_deploys.len() > 0 && deploys_validators.len() > 0 {
            let compressed_deploys = zstd_compress(&msg.contract_deploys);
            self.generate_contract_deploys_parts(msg.key, &compressed_deploys, deploys_validators)
        } else {
            Vec::new()
        };
        (witness_messages, deploys_messages)
    }

    /// Breaks an encoded state witness into parts, one per chunk
    /// validator: part `i` belongs to validator `i` of the ordered set.
    pub fn generate_state_witness_parts(
        &mut self,
        key: ChunkProductionKey,
        witness_bytes: &Vec<u8>,
        chunk_validators: &Vec<AccountId>,
    ) -> (r: Vec<(AccountId, PartialEncodedStateWitness)>)
        requires
            1 <= chunk_validators@.len() <= MAX_TOTAL_PARTS,
            1 <= witness_bytes@.len(),
            witness_bytes@.len() + chunk_validators@.len() <= usize::MAX,
        ensures
            *final(self) == *old(self),
            parts_match(
                r@,
                chunk_validators@,
                key@,
                witness_bytes@,
                data_parts_of_validators(chunk_validators@.len() as int),
            ),
    {
        let total = chunk_validators.len();
        let data = crate::encoding::data_parts_for(
            total,
            WITNESS_RATIO_DATA_PARTS_NUM,
            WITNESS_RATIO_DATA_PARTS_DEN,
        );
        let parts = crate::encoding::encode_parts(witness_bytes, data, total);
        pair_parts_with_validators(key, witness_bytes.len(), parts, chunk_validators)
    }

    /// Breaks a compressed contract-deploy batch into parts, one per
    /// validator of the deploy distribution set.
    pub fn generate_contract_deploys_parts(
        &mut self,
        key: ChunkProductionKey,
        compressed_deploys: &Vec<u8>,
        validators: &Vec<AccountId>,
    ) -> (r: Vec<(AccountId, PartialEncodedStateWitness)>)
        requires
            1 <= validators@.len() <= MAX_TOTAL_PARTS,
            1 <= compressed_deploys@.len(),
            compressed_deploys@.len() + validators@.len() <= usize::MAX,
        ensures
            *final(self) == *old(self),
            parts_match(
                r@,
                validators@,
                key@,
                compressed_deploys@,
                deploys_data_parts_of_validators(validators@.len() as int),
            ),
    {
        let total = validators.len();
        let data = crate::encoding::data_parts_for(
            total,
            CONTRACT_DEPLOYS_RATIO_DATA_PARTS_NUM,
            CONTRACT_DEPLOYS_RATIO_DATA_PARTS_DEN,
        );
        let parts = crate::encoding::encode_parts(compressed_deploys, data, total);
        pair_parts_with_validators(key, compressed_deploys.len(), parts, validators)
    }

    /// Compresses a witness, breaks it into parts and records the witness
    /// hash, compressed size and fan-out for acknowledgement tracking; the
    /// returned messages are one unicast per validator, to be sent by the
    /// network layer as a single request.
    pub fn send_state_witness_parts(
        &mut self,
        key: ChunkProductionKey,
        chunk_hash: CryptoHash,
        witness: &Vec<u8>,
        chunk_validators: &Vec<AccountId>,
    ) -> (r: Vec<(AccountId, PartialEncodedStateWitness)>)
        requires
            1 <= chunk_validators@.len() <= MAX_TOTAL_PARTS,
            witness@.len() <= usize::MAX / 2 - 2048,
        ensures
            parts_match(
                r@,
                chunk_validators@,
                key@,
                compress_of(witness@),
                data_parts_of_validators(chunk_validators@.len() as int),
            ),
            decompress_of(compress_of(witness@)) == Some(witness@),
            final(self).state_witness_tracker.records@.len() == old(self).state_witness_tracker.records@.len() + 1,
            final(self).state_witness_tracker.records@.last().chunk_hash@ == chunk_hash@,
            final(self).state_witness_tracker.records@.last().witness_size == compress_of(
                witness@,
            ).len(),
            final(self).state_witness_tracker.records@.last().num_validators
                == chunk_validators@.len(),
            final(self).state_witness_tracker.records@.last().acked == false,
            forall|j: int|
                0 <= j < old(self).state_witness_tracker.records@.len() ==> final(self).state_witness_tracker.records@[j] == old(self).state_witness_tracker.records@[j],
            final(self).partial_witness_tracker == old(self).partial_witness_tracker,
            final(self).partial_deploys_tracker == old(self).partial_deploys_tracker,
    {
        let (witness_bytes, raw_size) = compress_witness(witness);
        let n = chunk_validators.len();
        let r = self.generate_state_witness_parts(key, &witness_bytes, chunk_validators);
        self.state_witness_tracker.record_witness_sent(chunk_hash, witness_bytes.len(), n);
        r
    }

    /// Handles a direct-sent witness part: when it is valid and this node
    /// owns it, the part is forwarded to every chunk validator except the
    /// chunk producer — the only place a forward is issued.
    pub fn handle_partial_encoded_state_witness(
        &mut self,
        partial_witness: &PartialEncodedStateWitness,
        valid: bool,
        chunk_validators: &Vec<AccountId>,
        chunk_producer: &AccountId,
    ) -> (r: Option<Vec<AccountId>>)
        ensures
            *final(self) == *old(self),
            r is Some <==> (valid && partial_witness.part_ord < chunk_validators@.len()),
            r is Some ==> account_views(r.unwrap()@) == forward_targets_of(
                account_views(chunk_validators@),
                chunk_producer@,
            ),
    {
        if !valid {
            return None;
        }
        if partial_witness.part_ord >= chunk_validators.len() {
            return None;
        }
        Some(forward_targets(chunk_validators, chunk_producer))
    }

    /// Handles a forwarded witness part: when valid, stores it into the
    /// key's assembly — retaining it below the data-part threshold — and
    /// surfaces the exactly reassembled witness, once, when the stored
    /// parts reach that threshold.
    pub fn handle_partial_encoded_state_witness_forward(
        &mut self,
        partial_witness: PartialEncodedStateWitness,
        valid: bool,
        total_parts: usize,
        data_parts: usize,
    ) -> (r: Option<Vec<u8>>)
        requires
            old(self).partial_witness_tracker.wf(),
            1 <= data_parts <= total_parts,
            total_parts <= MAX_TOTAL_PARTS,
            1 <= partial_witness.encoded_length,
            partial_witness.encoded_length + data_parts <= usize::MAX,
        ensures
            final(self).partial_witness_tracker.wf(),
            final(self).partial_deploys_tracker == old(self).partial_deploys_tracker,
            final(self).state_witness_tracker == old(self).state_witness_tracker,
            !valid ==> r is None && *final(self) == *old(self),
            valid ==> final(self).partial_witness_tracker.accessed@ == old(self).partial_witness_tracker.accessed@,
            valid ==> store_part_rel(
                old(self).partial_witness_tracker.entries@,
                final(self).partial_witness_tracker.entries@,
                partial_witness.key@,
                partial_witness.part_ord,
                partial_witness.part,
                partial_witness.encoded_length,
                total_parts,
                data_parts,
                r,
            ),
            valid ==> ({
                let k = partial_witness.key@;
                let oi = find_assembly(old(self).partial_witness_tracker.entries@, k);
                let fi = find_assembly(final(self).partial_witness_tracker.entries@, k);
                &&& (r is Some ==> final(self).partial_witness_tracker.entries@[fi].decoded)
                &&& (oi >= 0 && old(self).partial_witness_tracker.entries@[oi].decoded ==> r
                    is None)
            }),
    {
        if !valid {
            return None;
        }
        self.partial_witness_tracker.store_partial_encoded_state_witness(
            partial_witness,
            total_parts,
            data_parts,
        )
    }

    /// Handles a witness acknowledgement from a chunk validator.
    pub fn handle_chunk_state_witness_ack(&mut self, chunk_hash: &CryptoHash) -> (r: Option<usize>)
        ensures
            final(self).partial_witness_tracker == old(self).partial_witness_tracker,
            final(self).partial_deploys_tracker == old(self).partial_deploys_tracker,
            ({
                let fi = find_unacked(old(self).state_witness_tracker.records@, chunk_hash@);
                &&& (r is Some <==> fi >= 0)
                &&& (fi >= 0 ==> r.unwrap() == old(self).state_witness_tracker.records@[fi].witness_size
                    && final(self).state_witness_tracker.records@.len() == old(self).state_witness_tracker.records@.len() && final(self).state_witness_tracker.records@[fi].chunk_hash@ == old(self).state_witness_tracker.records@[fi].chunk_hash@ && final(self).state_witness_tracker.records@[fi].witness_size == old(self).state_witness_tracker.records@[fi].witness_size && final(self).state_witness_tracker.records@[fi].num_validators == old(self).state_witness_tracker.records@[fi].num_validators && final(self).state_witness_tracker.records@[fi].acked == true && (forall|j: int|
                    0 <= j < old(self).state_witness_tracker.records@.len() && j != fi ==> final(self).state_witness_tracker.records@[j] == old(self).state_witness_tracker.records@[j]))
                &&& (fi < 0 ==> final(self).state_witness_tracker.records@ == old(self).state_witness_tracker.records@)
            }),
    {
        self.state_witness_tracker.on_witness_ack_received(chunk_hash)
    }

    /// Handles a contract-deploy part: forwards it to the other validators
    /// exactly when this node owns it, stores it in the deploys tracker
    /// either way, and surfaces the reassembled batch once, decompressed
    /// for precompilation; a batch that fails to decompress is dropped.
    pub fn handle_partial_encoded_contract_deploys(
        &mut self,
        partial_deploys: PartialEncodedContractDeploys,
        valid: bool,
        validators: &Vec<AccountId>,
        my_account: &AccountId,
    ) -> (r: (Option<Vec<AccountId>>, Option<Vec<u8>>))
        requires
            old(self).partial_deploys_tracker.wf(),
            1 <= validators@.len() <= MAX_TOTAL_PARTS,
            1 <= partial_deploys.encoded_length,
            partial_deploys.encoded_length + validators@.len() <= usize::MAX,
        ensures
            final(self).partial_deploys_tracker.wf(),
            final(self).partial_witness_tracker == old(self).partial_witness_tracker,
            final(self).state_witness_tracker == old(self).state_witness_tracker,
            !valid ==> r.0 is None && r.1 is None && *final(self) == *old(self),
            r.0 is Some <==> (valid && find_account(validators@, my_account@) >= 0
                && partial_deploys.part_ord == find_account(validators@, my_account@)),
            r.0 is Some ==> account_views(r.0.unwrap()@) == forward_targets_of(
                account_views(validators@),
                my_account@,
            ),
            valid ==> (exists|rr: Option<Vec<u8>>, dp: usize|
                {
                    &&& dp as int == deploys_data_parts_of_validators(validators@.len() as int)
                    &&& #[trigger] store_part_rel(
                        old(self).partial_deploys_tracker.inner.entries@,
                        final(self).partial_deploys_tracker.inner.entries@,
                        partial_deploys.key@,
                        partial_deploys.part_ord,
                        partial_deploys.data,
                        partial_deploys.encoded_length,
                        validators@.len() as usize,
                        dp,
                        rr,
                    )
                    &&& match rr {
                        Some(c) => (r.1 is Some <==> decompress_of(c@) is Some) && (r.1 is Some
                            ==> r.1.unwrap()@ == decompress_of(c@).unwrap()),
                        None => r.1 is None,
                    }
                }),
    {
        if !valid {
            return (None, None);
        }
        let total = validators.len();
        let data = crate::encoding::data_parts_for(
            total,
            CONTRACT_DEPLOYS_RATIO_DATA_PARTS_NUM,
            CONTRACT_DEPLOYS_RATIO_DATA_PARTS_DEN,
        );
        // Forward to the other validators if the part received is my part.
        let forward = match index_of_account(validators, my_account) {
            Some(my_part_ord) if partial_deploys.part_ord == my_part_ord => Some(
                forward_targets(validators, my_account),
            ),
            _ => None,
        };
        let stored = self.partial_deploys_tracker.store_partial_encoded_contract_deploys(
            partial_deploys,
            total,
            data,
        );
        let ghost rrv = stored;
        let completed = match stored {
            Some(compressed) => zstd_decompress(&compressed),
            None => None,
        };
        proof {
            assert(data as int == deploys_data_parts_of_validators(validators@.len() as int));
            assert(store_part_rel(
                old(self).partial_deploys_tracker.inner.entries@,
                self.partial_deploys_tracker.inner.entries@,
                partial_deploys.key@,
                partial_deploys.part_ord,
                partial_deploys.data,
                partial_deploys.encoded_length,
                validators@.len() as usize,
                data,
                rrv,
            ));
            assert(match rrv {
                Some(c) => (completed is Some <==> decompress_of(c@) is Some) && (completed
                    is Some ==> completed.unwrap()@ == decompress_of(c@).unwrap()),
                None => completed is None,
            });
        }
        (forward, completed)
    }

    /// Handles the contract-access list of a chunk: computes the code
    /// hashes missing from the compiled cache (the probe results are
    /// handed in), records that set in the witness tracker under the
    /// production key, and returns it, to be requested from a chunk
    /// producer; `None`, with nothing stored, when nothing is missing or
    /// the message is invalid.
    pub fn handle_chunk_contract_accesses(
        &mut self,
        key: ChunkProductionKey,
        valid: bool,
        contracts: &Vec<CryptoHash>,
        cached: &Vec<bool>,
    ) -> (r: Option<Vec<CryptoHash>>)
        requires
            old(self).partial_witness_tracker.wf(),
            contracts@.len() == cached@.len(),
        ensures
            final(self).partial_witness_tracker.wf(),
            final(self).partial_deploys_tracker == old(self).partial_deploys_tracker,
            final(self).state_witness_tracker == old(self).state_witness_tracker,
            final(self).partial_witness_tracker.entries@ == old(self).partial_witness_tracker.entries@,
            r is Some <==> (valid && missing_of(hash_views(contracts@), cached@).len() > 0),
            r is Some ==> hash_views(r.unwrap()@) == missing_of(hash_views(contracts@), cached@),
            r is None ==> *final(self) == *old(self),
            r is Some ==> ({
                let acc0 = old(self).partial_witness_tracker.accessed@;
                let acc1 = final(self).partial_witness_tracker.accessed@;
                let oi = find_accessed(acc0, key@);
                let fi = find_accessed(acc1, key@);
                &&& 0 <= fi < acc1.len()
                &&& acc1[fi].key@ == key@
                &&& hash_views(acc1[fi].hashes@) == missing_of(hash_views(contracts@), cached@)
                &&& acc1[fi].codes@.len() == 0
                &&& (oi >= 0 ==> fi == oi)
                &&& forall|j: int| 0 <= j < acc0.len() && j != fi ==> acc1[j] == acc0[j]
            }),
    {
        if !valid {
            return None;
        }
        let missing = missing_contract_hashes(contracts, cached);
        if missing.len() == 0 {
            proof {
                assert(hash_views(missing@).len() == 0);
            }
            return None;
        }
        let stored = clone_hashes(&missing);
        self.partial_witness_tracker.store_accessed_contract_hashes(key, stored);
        Some(missing)
    }

    /// Handles a contract-code request: answers with the requested code
    /// bytes when every hash was found in storage (the lookups are handed
    /// in), and with nothing when any is missing.
    pub fn handle_contract_code_request(
        &mut self,
        lookups: Vec<Option<Vec<u8>>>,
    ) -> (r: Option<Vec<Vec<u8>>>)
        ensures
            *final(self) == *old(self),
            r is Some <==> (forall|i: int|
                0 <= i < lookups@.len() ==> (#[trigger] lookups@[i]) is Some),
            r is Some ==> r.unwrap()@.len() == lookups@.len() && (forall|i: int|
                0 <= i < lookups@.len() ==> (#[trigger] r.unwrap()@[i])@
                    == lookups@[i].unwrap()@),
    {
        let mut out: Vec<Vec<u8>> = Vec::new();
        let n = lookups.len();
        let mut i: usize = 0;
        while i < n
            invariant
                0 <= i <= n,
                n == lookups@.len(),
                out@.len() == i,
                forall|j: int| 0 <= j < i ==> (#[trigger] lookups@[j]) is Some,
                forall|j: int|
                    0 <= j < i ==> (#[trigger] out@[j])@ == lookups@[j].unwrap()@,
            decreases n - i,
        {
            match &lookups[i] {
                Some(code) => {
                    let c = code.clone();
                    proof {
                        assert(c@ =~= lookups@[i as int].unwrap()@);
                    }
                    out.push(c);
                },
                None => {
                    return None;
                },
            }
            i = i + 1;
        }
        Some(out)
    }

    /// Handles a contract-code response: decompresses each code blob and
    /// hands the codes to the witness tracker under the production key;
    /// `None`, with nothing stored, when any blob is malformed.
    pub fn handle_contract_code_response(
        &mut self,
        key: ChunkProductionKey,
        compressed_codes: &Vec<Vec<u8>>,
    ) -> (r: Option<Vec<Vec<u8>>>)
        requires
            old(self).partial_witness_tracker.wf(),
        ensures
            final(self).partial_witness_tracker.wf(),
            final(self).partial_deploys_tracker == old(self).partial_deploys_tracker,
            final(self).state_witness_tracker == old(self).state_witness_tracker,
            final(self).partial_witness_tracker.entries@ == old(self).partial_witness_tracker.entries@,
            r is None ==> *final(self) == *old(self),
            r is Some ==> r.unwrap()@.len() == compressed_codes@.len() && (forall|i: int|
                0 <= i < compressed_codes@.len() ==> decompress_of(
                    (#[trigger] compressed_codes@[i])@,
                ) == Some(r.unwrap()@[i]@)),
            r is Some ==> ({
                let acc0 = old(self).partial_witness_tracker.accessed@;
                let acc1 = final(self).partial_witness_tracker.accessed@;
                let oi = find_accessed(acc0, key@);
                let fi = find_accessed(acc1, key@);
                &&& 0 <= fi < acc1.len()
                &&& acc1[fi].key@ == key@
                &&& crate::encoding::shard_views(acc1[fi].codes@) == crate::encoding::shard_views(
                    r.unwrap()@,
                )
                &&& (oi >= 0 ==> acc1[fi].hashes == acc0[oi].hashes)
                &&& (oi >= 0 ==> fi == oi)
                &&& forall|j: int| 0 <= j < acc0.len() && j != fi ==> acc1[j] == acc0[j]
            }),
    {
        let mut out: Vec<Vec<u8>> = Vec::new();
        let n = compressed_codes.len();
        let mut i: usize = 0;
        while i < n
            invariant
                0 <= i <= n,
                n == compressed_codes@.len(),
                out@.len() == i,
                forall|j: int|
                    0 <= j < i ==> decompress_of((#[trigger] compressed_codes@[j])@) == Some(
                        out@[j]@,
                    ),
            decreases n - i,
        {
            match zstd_decompress(&compressed_codes[i]) {
                Some(code) => {
                    out.push(code);
                },
                None => {
                    return None;
                },
            }
            i = i + 1;
        }
        let stored = clone_blobs(&out);
        self.partial_witness_tracker.store_accessed_contract_codes(key, stored);
        Some(out)
    }
}

/// The witness data-part count of a validator-set size.
pub open spec fn data_parts_of_validators(total: int) -> int {
    crate::encoding::data_parts_of(
        total,
        WITNESS_RATIO_DATA_PARTS_NUM as int,
        WITNESS_RATIO_DATA_PARTS_DEN as int,
    )
}

/// The contract-deploy data-part count of a validator-set size.
pub open spec fn deploys_data_parts_of_validators(total: int) -> int {
    crate::encoding::data_parts_of(
        total,
        CONTRACT_DEPLOYS_RATIO_DATA_PARTS_NUM as int,
        CONTRACT_DEPLOYS_RATIO_DATA_PARTS_DEN as int,
    )
}

/// Pairs the parts of an encoded blob with the ordered validators: part
/// `i` is addressed to validator `i`.
fn pair_parts_with_validators(
    key: ChunkProductionKey,
    encoded_length: usize,
    parts: Vec<Vec<u8>>,
    validators: &Vec<AccountId>,
) -> (r: Vec<(AccountId, PartialEncodedStateWitness)>)
    requires
        parts@.len() == validators@.len(),
    ensures
        r@.len() == validators@.len(),
        forall|i: int|
            0 <= i < r@.len() ==> ((#[trigger] r@[i]).0@ == validators@[i]@ && r@[i].1.key@
                == key@ && r@[i].1.part_ord == i && r@[i].1.encoded_length == encoded_length
                && r@[i].1.part@ == parts@[i]@),
{
    let mut out: Vec<(AccountId, PartialEncodedStateWitness)> = Vec::new();
    let n = validators.len();
    let mut i: usize = 0;
    let mut rest = parts;
    while i < n
        invariant
            0 <= i <= n,
            n == validators@.len(),
            rest@.len() == n - i,
            forall|j: int| 0 <= j < rest@.len() ==> (#[trigger] rest@[j])@ == parts@[i + j]@,
            out@.len() == i,
            forall|j: int|
                0 <= j < i ==> ((#[trigger] out@[j]).0@ == validators@[j]@ && out@[j].1.key@
                    == key@ && out@[j].1.part_ord == j && out@[j].1.encoded_length
                    == encoded_length && out@[j].1.part@ == parts@[j]@),
        decreases n - i,
    {
        let part = rest.remove(0);
        let pw = PartialEncodedStateWitness {
            key: key.clone(),
            part_ord: i,
            part,
            encoded_length,
        };
        out.push((validators[i].clone(), pw));
        i = i + 1;
    }
    out
}

} // verus!
