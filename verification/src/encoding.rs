//! Reed-Solomon encoding of state witnesses: sizing, splitting a byte blob
//! into equally sized data parts, parity generation, and reassembly from
//! any sufficient subset of parts.

use vstd::prelude::*;

verus! {

/// Most shards a Reed-Solomon code over bytes can have.
pub const MAX_TOTAL_PARTS: usize = 256;

/// The parity shards reed_solomon_erasure computes for the given data
/// shards; a function of the data shards and the parity count alone.
pub uninterp spec fn rs_parity_of(data: Seq<Seq<u8>>, parity_count: int) -> Seq<Seq<u8>>;

/// The byte views of a list of shards.
pub open spec fn shard_views(s: Seq<Vec<u8>>) -> Seq<Seq<u8>> {
    Seq::new(s.len(), |i: int| s[i]@)
}

/// How many of a list of optional shards are present.
pub open spec fn count_present(s: Seq<Option<Vec<u8>>>) -> int
    decreases s.len(),
{
    if s.len() == 0 {
        0
    } else {
        count_present(s.drop_last()) + (if s.last() is Some {
            1int
        } else {
            0int
        })
    }
}

/// Relies on reed_solomon_erasure's `ReedSolomon::new` and
/// `ReedSolomon::encode`: overwrites the trailing parity slots with the
/// parity shards of the leading data shards, leaving the data shards and
/// every length unchanged.
#[verifier::external_body]
fn rs_encode_parity(shards: &mut Vec<Vec<u8>>, data_count: usize)
    requires
        1 <= data_count < old(shards)@.len(),
        old(shards)@.len() <= MAX_TOTAL_PARTS,
        forall|i: int|
            0 <= i < old(shards)@.len() ==> (#[trigger] old(shards)@[i])@.len()
                == old(shards)@[0]@.len(),
        old(shards)@[0]@.len() >= 1,
    ensures
        final(shards)@.len() == old(shards)@.len(),
        shard_views(final(shards)@) == shard_views(old(shards)@).take(data_count as int)
            + rs_parity_of(
            shard_views(old(shards)@).take(data_count as int),
            old(shards)@.len() - data_count,
        ),
        forall|i: int|
            0 <= i < final(shards)@.len() ==> (#[trigger] final(shards)@[i])@.len()
                == old(shards)@[0]@.len(),
{
    let total = shards.len();
    let rs = reed_solomon_erasure::galois_8::ReedSolomon::new(data_count, total - data_count)
        .unwrap();
    rs.encode(shards.as_mut_slice()).unwrap();
}

/// Relies on reed_solomon_erasure's `ReedSolomon::new` and
/// `ReedSolomon::reconstruct`: given at least `data_count` present shards
/// of equal nonzero length, fills every missing slot so that the whole
/// list is the unique codeword agreeing with the present shards; with
/// fewer present shards it fails and touches nothing.
#[verifier::external_body]
fn rs_reconstruct(shards: &mut Vec<Option<Vec<u8>>>, data_count: usize) -> (r: bool)
    requires
        1 <= data_count < old(shards)@.len(),
        old(shards)@.len() <= MAX_TOTAL_PARTS,
        forall|i: int, j: int|
            0 <= i < old(shards)@.len() && 0 <= j < old(shards)@.len() && (#[trigger] old(
                shards,
            )@[i]) is Some && (#[trigger] old(shards)@[j]) is Some ==> old(
                shards,
            )@[i].unwrap()@.len() == old(shards)@[j].unwrap()@.len(),
        forall|i: int|
            0 <= i < old(shards)@.len() && (#[trigger] old(shards)@[i]) is Some ==> old(
                shards,
            )@[i].unwrap()@.len() >= 1,
    ensures
        final(shards)@.len() == old(shards)@.len(),
        r == (count_present(old(shards)@) >= data_count),
        !r ==> final(shards)@ == old(shards)@,
        r ==> forall|i: int|
            0 <= i < final(shards)@.len() ==> (#[trigger] final(shards)@[i]) is Some,
        r ==> forall|i: int|
            0 <= i < final(shards)@.len() && (#[trigger] old(shards)@[i]) is Some ==> final(shards)@[i] == old(shards)@[i],
        r ==> forall|i: int, j: int|
            0 <= i < final(shards)@.len() && 0 <= j < old(shards)@.len() && (#[trigger] old(
                shards,
            )@[j]) is Some ==> (#[trigger] final(shards)@[i]).unwrap()@.len() == old(
                shards,
            )@[j].unwrap()@.len(),
        r ==> forall|full: Seq<Seq<u8>>|
            (full.len() == old(shards)@.len() && full.skip(data_count as int) == rs_parity_of(
                full.take(data_count as int),
                old(shards)@.len() - data_count,
            ) && (forall|i: int|
                0 <= i < old(shards)@.len() && (#[trigger] old(shards)@[i]) is Some ==> old(shards)@[i].unwrap()@ == full[i])) ==> (forall|i: int|
                0 <= i < final(shards)@.len() ==> (#[trigger] final(shards)@[i]).unwrap()@
                    == full[i]),
{
    let total = shards.len();
    let rs = reed_solomon_erasure::galois_8::ReedSolomon::new(data_count, total - data_count)
        .unwrap();
    match rs.reconstruct(shards.as_mut_slice()) {
        Ok(()) => true,
        Err(_) => false,
    }
}

/// How many data parts a total of `total` parts carries, at a ratio of
/// `num / den`: the ratio of the total, rounded up, and at least one.
pub open spec fn data_parts_of(total: int, num: int, den: int) -> int {
    let c = (total * num + den - 1) / den;
    if c < 1 {
        1
    } else {
        c
    }
}

/// Computes the data-part count for a validator-set size.
pub fn data_parts_for(total: usize, num: usize, den: usize) -> (r: usize)
    requires
        1 <= total <= MAX_TOTAL_PARTS,
        1 <= num <= den,
        den <= 1000,
    ensures
        r == data_parts_of(total as int, num as int, den as int),
        1 <= r <= total,
{
    proof {
        assert(total * num <= 256 * 1000) by (nonlinear_arith)
            requires total <= 256, num <= 1000, total >= 0, num >= 0;
    }
    let c = (total * num + den - 1) / den;
    proof {
        let t = total as int;
        let n = num as int;
        let dn = den as int;
        assert(t * n <= t * dn) by (nonlinear_arith)
            requires n <= dn, t >= 1;
        assert((t * n + dn - 1) / dn <= t) by (nonlinear_arith)
            requires t * n <= t * dn, dn >= 1;
    }
    if c < 1 {
        1
    } else {
        c
    }
}

/// The bytes `b` cut into `count` parts of `part_len` bytes each, the tail
/// padded with zeros.
pub open spec fn padded_parts(b: Seq<u8>, part_len: int, count: int) -> Seq<Seq<u8>> {
    Seq::new(
        count as nat,
        |i: int| Seq::new(part_len as nat, |j: int| if i * part_len + j < b.len() {
            b[i * part_len + j]
        } else {
            0u8
        }),
    )
}

/// All parts of an encoded blob: the data parts, then the parity parts
/// when there are any.
pub open spec fn full_parts_of(b: Seq<u8>, part_len: int, data: int, total: int) -> Seq<Seq<u8>> {
    if data < total {
        padded_parts(b, part_len, data) + rs_parity_of(padded_parts(b, part_len, data), total - data)
    } else {
        padded_parts(b, part_len, data)
    }
}

/// Reassembly is exact: whenever the stored parts all stem from the
/// encoding of a blob `original` of the given length, the output is that
/// blob.
pub open spec fn decoding_exact(
    parts0: Seq<Option<Vec<u8>>>,
    data: int,
    encoded_length: int,
    out: Seq<u8>,
) -> bool {
    forall|original: Seq<u8>|
        #![trigger full_parts_of(original, (encoded_length + data - 1) / data, data, parts0.len() as int)]
        (original.len() == encoded_length && (data < parts0.len() ==> rs_parity_of(
            padded_parts(original, (encoded_length + data - 1) / data, data),
            parts0.len() - data,
        ).len() == parts0.len() - data) && (forall|i: int|
            0 <= i < parts0.len() && (#[trigger] parts0[i]) is Some ==> parts0[i].unwrap()@
                == full_parts_of(
                original,
                (encoded_length + data - 1) / data,
                data,
                parts0.len() as int,
            )[i])) ==> out == original
}

/// The concatenation of a list of shards.
pub open spec fn concat_shards(s: Seq<Seq<u8>>) -> Seq<u8>
    decreases s.len(),
{
    if s.len() == 0 {
        Seq::empty()
    } else {
        concat_shards(s.drop_last()) + s.last()
    }
}

/// Concatenating the padded parts gives the bytes, padded with zeros.
pub proof fn lemma_concat_padded(b: Seq<u8>, part_len: int, count: int)
    requires
        part_len >= 0,
        count >= 0,
    ensures
        concat_shards(padded_parts(b, part_len, count)) == Seq::new(
            (count * part_len) as nat,
            |m: int| if m < b.len() {
                b[m]
            } else {
                0u8
            },
        ),
    decreases count,
{
    assert(count * part_len >= 0) by (nonlinear_arith)
        requires count >= 0, part_len >= 0;
    if count == 0 {
        assert(concat_shards(padded_parts(b, part_len, 0)) =~= Seq::new(0, |m: int| 0u8));
        assert(Seq::new((0 * part_len) as nat, |m: int| if m < b.len() { b[m] } else { 0u8 })
            =~= Seq::new(0, |m: int| 0u8));
    } else {
        lemma_concat_padded(b, part_len, count - 1);
        assert(padded_parts(b, part_len, count).drop_last() =~= padded_parts(b, part_len, count - 1));
        assert((count - 1) * part_len + part_len == count * part_len) by (nonlinear_arith);
        assert((count - 1) * part_len >= 0) by (nonlinear_arith)
            requires count >= 1, part_len >= 0;
        assert(concat_shards(padded_parts(b, part_len, count)) =~= Seq::new(
            (count * part_len) as nat,
            |m: int| if m < b.len() {
                b[m]
            } else {
                0u8
            },
        )) by {
            let lhs = concat_shards(padded_parts(b, part_len, count));
            let prev = concat_shards(padded_parts(b, part_len, count - 1));
            let last = padded_parts(b, part_len, count).last();
            assert(lhs == prev + last);
            assert forall|m: int| 0 <= m < count * part_len implies lhs[m] == (if m < b.len() {
                b[m]
            } else {
                0u8
            }) by {
                if m < (count - 1) * part_len {
                    assert(lhs[m] == prev[m]);
                } else {
                    assert(lhs[m] == last[m - (count - 1) * part_len]);
                    assert((count - 1) * part_len + (m - (count - 1) * part_len) == m);
                }
            }
        }
    }
}

/// Splits a blob into `data` parts of ceil(len / data) bytes, padding with
/// zeros, and appends the parity parts when `total > data`.
pub fn encode_parts(b: &Vec<u8>, data: usize, total: usize) -> (r: Vec<Vec<u8>>)
    requires
        1 <= data <= total,
        total <= MAX_TOTAL_PARTS,
        1 <= b@.len(),
        b@.len() + data <= usize::MAX,
    ensures
        r@.len() == total,
        shard_views(r@) == full_parts_of(
            b@,
            ((b@.len() + data - 1) / data as int) as int,
            data as int,
            total as int,
        ),
        forall|i: int|
            0 <= i < r@.len() ==> (#[trigger] r@[i])@.len() == (b@.len() + data - 1) / data as int,
{
    let part_len = (b.len() + data - 1) / data;
    proof {
        assert(part_len >= 1) by (nonlinear_arith)
            requires
                part_len == (b@.len() + data - 1) / data as int,
                b@.len() >= 1,
                data >= 1,
        ;
        assert(data * part_len >= b@.len()) by (nonlinear_arith)
            requires
                data >= 1,
                part_len == (b@.len() + data - 1) / data as int,
                b@.len() >= 1,
        ;
    }
    let mut shards: Vec<Vec<u8>> = Vec::new();
    let mut cursor: usize = 0;
    let mut i: usize = 0;
    while i < total
        invariant
            0 <= i <= total,
            shards@.len() == i,
            part_len == (b@.len() + data - 1) / data as int,
            part_len >= 1,
            cursor as int == if i * part_len <= b@.len() {
                i * part_len
            } else {
                b@.len() as int
            },
            forall|x: int|
                0 <= x < i ==> (#[trigger] shards@[x])@ == Seq::new(
                    part_len as nat,
                    |j: int| if x * part_len + j < b@.len() {
                        b@[x * part_len + j]
                    } else {
                        0u8
                    },
                ),
        decreases total - i,
    {
        proof {
            assert(i * part_len >= 0) by (nonlinear_arith)
                requires i >= 0, part_len >= 0;
        }
        let mut part: Vec<u8> = Vec::new();
        let mut j: usize = 0;
        while j < part_len
            invariant
                0 <= j <= part_len,
                part_len >= 1,
                i * part_len >= 0,
                cursor as int == if i * part_len + j <= b@.len() {
                    i * part_len + j
                } else {
                    b@.len() as int
                },
                part@ == Seq::new(
                    j as nat,
                    |x: int| if i * part_len + x < b@.len() {
                        b@[i * part_len + x]
                    } else {
                        0u8
                    },
                ),
            decreases part_len - j,
        {
            if cursor < b.len() {
                part.push(b[cursor]);
                cursor = cursor + 1;
            } else {
                part.push(0u8);
            }
            proof {
                assert(part@ =~= Seq::new(
                    (j + 1) as nat,
                    |x: int| if i * part_len + x < b@.len() {
                        b@[i * part_len + x]
                    } else {
                        0u8
                    },
                ));
            }
            j = j + 1;
        }
        shards.push(part);
        proof {
            assert(i * part_len + part_len == (i + 1) * part_len) by (nonlinear_arith);
        }
        i = i + 1;
    }
    proof {
        assert(shard_views(shards@) =~= padded_parts(b@, part_len as int, total as int));
    }
    if data < total {
        let ghost before = shards@;
        proof {
            assert forall|x: int| 0 <= x < shards@.len() implies (#[trigger] shards@[x])@.len()
                == shards@[0]@.len() by {}
        }
        rs_encode_parity(&mut shards, data);
        proof {
            assert(shard_views(before).take(data as int) =~= padded_parts(
                b@,
                part_len as int,
                data as int,
            ));
            assert(shard_views(shards@) == full_parts_of(
                b@,
                part_len as int,
                data as int,
                total as int,
            ));
            assert forall|i2: int| 0 <= i2 < shards@.len() implies (#[trigger] shards@[i2])@.len()
                == part_len by {}
        }
    } else {
        proof {
            assert(padded_parts(b@, part_len as int, total as int) =~= full_parts_of(
                b@,
                part_len as int,
                data as int,
                total as int,
            ));
        }
    }
    shards
}

/// Reassembles the original blob from the received parts: reconstructs the
/// missing shards when at least `data` are present, concatenates the data
/// shards and truncates to `encoded_length`. Returns `None`, touching
/// nothing, when fewer than `data` parts are present.
pub fn decode_parts(
    parts: &mut Vec<Option<Vec<u8>>>,
    data: usize,
    encoded_length: usize,
) -> (r: Option<Vec<u8>>)
    requires
        1 <= data <= old(parts)@.len(),
        old(parts)@.len() <= MAX_TOTAL_PARTS,
        forall|i: int|
            0 <= i < old(parts)@.len() && (#[trigger] old(parts)@[i]) is Some ==> old(parts)@[i].unwrap()@.len() == (encoded_length + data - 1) / data as int,
        encoded_length >= 1,
        encoded_length + data <= usize::MAX,
    ensures
        final(parts)@.len() == old(parts)@.len(),
        r is None ==> final(parts)@ == old(parts)@,
        r is Some ==> forall|i: int|
            0 <= i < final(parts)@.len() && (#[trigger] final(parts)@[i]) is Some ==> final(parts)@[i].unwrap()@.len() == (encoded_length + data - 1) / data as int,
        r is Some <==> count_present(old(parts)@) >= data,
        r is Some ==> decoding_exact(
            old(parts)@,
            data as int,
            encoded_length as int,
            r.unwrap()@,
        ),
{
    let ghost parts0 = parts@;
    let total = parts.len();
    let part_len = (encoded_length + data - 1) / data;
    proof {
        assert(part_len >= 1) by (nonlinear_arith)
            requires
                part_len == (encoded_length + data - 1) / data as int,
                encoded_length >= 1,
                data >= 1,
        ;
        assert(data * part_len >= encoded_length) by (nonlinear_arith)
            requires
                data >= 1,
                part_len == (encoded_length + data - 1) / data as int,
                encoded_length >= 1,
        ;
        assert(data * part_len <= encoded_length + data - 1) by (nonlinear_arith)
            requires
                data >= 1,
                part_len == (encoded_length + data - 1) / data as int,
                encoded_length >= 1,
        ;
    }
    if data == total {
        // No parity: every part must be present.
        let mut missing = false;
        let mut i: usize = 0;
        while i < total
            invariant
                0 <= i <= total,
                total == parts@.len(),
                parts@ == parts0,
                missing <==> exists|x: int| 0 <= x < i && (#[trigger] parts@[x]) is None,
            decreases total - i,
        {
            if parts[i].is_none() {
                missing = true;
            }
            i = i + 1;
        }
        if missing {
            proof {
                lemma_count_present_missing(parts0);
            }
            return None;
        }
        proof {
            lemma_count_present_all(parts0);
        }
        let out = concat_data_parts(parts, data, part_len, encoded_length);
        proof {
            lemma_decoded_exact(parts0, data as int, total as int, part_len as int, encoded_length as int, out@);
        }
        Some(out)
    } else {
        let ok = rs_reconstruct(parts, data);
        if !ok {
            return None;
        }
        proof {
            lemma_count_present_pos(parts0);
            let w = choose|w: int| 0 <= w < parts0.len() && (#[trigger] parts0[w]) is Some;
            assert forall|i: int| 0 <= i < parts@.len() implies (#[trigger] parts@[i]).unwrap()@.len()
                == part_len by {
                assert(parts0[w].unwrap()@.len() == part_len);
            }
        }
        let out = concat_data_parts(parts, data, part_len, encoded_length);
        proof {
            assert(decoding_exact(parts0, data as int, encoded_length as int, out@)) by {
                assert forall|original: Seq<u8>|
                    #![trigger full_parts_of(
                        original,
                        (encoded_length + data - 1) / data as int,
                        data as int,
                        parts0.len() as int,
                    )]
                    (original.len() == encoded_length && (data < parts0.len() ==> rs_parity_of(
                        padded_parts(
                            original,
                            (encoded_length + data - 1) / data as int,
                            data as int,
                        ),
                        parts0.len() - data,
                    ).len() == parts0.len() - data) && (forall|i: int|
                        0 <= i < parts0.len() && (#[trigger] parts0[i]) is Some ==> parts0[i].unwrap()@
                            == full_parts_of(
                            original,
                            (encoded_length + data - 1) / data as int,
                            data as int,
                            parts0.len() as int,
                        )[i])) implies out@ == original by {
                    let pp = padded_parts(original, part_len as int, data as int);
                    let full = full_parts_of(original, part_len as int, data as int, total as int);
                    assert(pp.len() == data);
                    assert(full == pp + rs_parity_of(pp, total - data));
                    assert(full.len() == total);
                    assert(full.take(data as int) =~= pp);
                    assert(full.skip(data as int) =~= rs_parity_of(pp, total - data));
                    assert(rs_parity_of(full.take(data as int), total - data) == rs_parity_of(
                        pp,
                        total - data,
                    ));
                    assert(forall|i: int|
                        0 <= i < parts@.len() ==> (#[trigger] parts@[i]).unwrap()@ == full[i]);
                    lemma_concat_reconstructed(parts@, full, original, data as int, part_len as int, encoded_length as int, out@);
                }
            }
        }
        Some(out)
    }
}

/// If some slot is empty, fewer parts are present than slots exist.
proof fn lemma_count_present_missing(s: Seq<Option<Vec<u8>>>)
    requires
        exists|x: int| 0 <= x < s.len() && (#[trigger] s[x]) is None,
    ensures
        count_present(s) < s.len(),
    decreases s.len(),
{
    lemma_count_present_le(s);
    let x = choose|x: int| 0 <= x < s.len() && (#[trigger] s[x]) is None;
    if x == s.len() - 1 {
        lemma_count_present_le(s.drop_last());
    } else {
        assert(s.drop_last()[x] is None);
        lemma_count_present_missing(s.drop_last());
    }
}

/// At most every slot is present.
proof fn lemma_count_present_le(s: Seq<Option<Vec<u8>>>)
    ensures
        count_present(s) <= s.len(),
    decreases s.len(),
{
    if s.len() > 0 {
        lemma_count_present_le(s.drop_last());
    }
}

/// A positive count means some slot is present.
proof fn lemma_count_present_pos(s: Seq<Option<Vec<u8>>>)
    requires
        count_present(s) >= 1,
    ensures
        exists|w: int| 0 <= w < s.len() && (#[trigger] s[w]) is Some,
    decreases s.len(),
{
    if s.last() is Some {
        assert(s[s.len() - 1] is Some);
    } else {
        lemma_count_present_pos(s.drop_last());
        let w = choose|w: int| 0 <= w < s.drop_last().len() && (#[trigger] s.drop_last()[w]) is Some;
        assert(s[w] is Some);
    }
}

/// With every slot filled, all parts are present.
proof fn lemma_count_present_all(s: Seq<Option<Vec<u8>>>)
    requires
        forall|x: int| 0 <= x < s.len() ==> (#[trigger] s[x]) is Some,
    ensures
        count_present(s) == s.len(),
    decreases s.len(),
{
    if s.len() > 0 {
        assert(forall|x: int|
            0 <= x < s.drop_last().len() ==> (#[trigger] s.drop_last()[x]) is Some);
        lemma_count_present_all(s.drop_last());
    }
}

/// Concatenates the first `data` (present) parts and truncates the result
/// to `encoded_length`.
fn concat_data_parts(
    parts: &Vec<Option<Vec<u8>>>,
    data: usize,
    part_len: usize,
    encoded_length: usize,
) -> (r: Vec<u8>)
    requires
        1 <= data <= parts@.len(),
        forall|i: int| 0 <= i < data ==> (#[trigger] parts@[i]) is Some,
        forall|i: int|
            0 <= i < data ==> (#[trigger] parts@[i]).unwrap()@.len() == part_len,
        encoded_length <= data * part_len,
        data * part_len <= usize::MAX,
    ensures
        r@ == concat_shards(
            Seq::new(data as nat, |i: int| parts@[i].unwrap()@),
        ).take(encoded_length as int),
{
    let ghost views = Seq::new(data as nat, |i: int| parts@[i].unwrap()@);
    let mut out: Vec<u8> = Vec::new();
    let mut i: usize = 0;
    proof {
        assert(concat_shards(views.take(0)) =~= Seq::<u8>::empty());
    }
    while i < data
        invariant
            0 <= i <= data,
            data <= parts@.len(),
            views == Seq::new(data as nat, |x: int| parts@[x].unwrap()@),
            forall|x: int| 0 <= x < data ==> (#[trigger] parts@[x]) is Some,
            forall|x: int|
                0 <= x < data ==> (#[trigger] parts@[x]).unwrap()@.len() == part_len,
            out@ == concat_shards(views.take(i as int)),
            out@.len() == i * part_len,
            data * part_len <= usize::MAX,
        decreases data - i,
    {
        proof {
            assert(i * part_len + part_len == (i + 1) * part_len) by (nonlinear_arith);
            assert((i + 1) * part_len <= data * part_len) by (nonlinear_arith)
                requires i + 1 <= data, part_len >= 0;
            assert(i * part_len >= 0) by (nonlinear_arith)
                requires i >= 0, part_len >= 0;
        }
        let ghost out0 = out@;
        match &parts[i] {
            Some(p) => {
                let mut j: usize = 0;
                while j < p.len()
                    invariant
                        0 <= j <= p@.len(),
                        p@ == parts@[i as int].unwrap()@,
                        i < data,
                        out@ == out0 + p@.take(j as int),
                        out0.len() + p@.len() <= usize::MAX,
                    decreases p@.len() - j,
                {
                    out.push(p[j]);
                    proof {
                        assert(out@ =~= out0 + p@.take(j + 1));
                    }
                    j = j + 1;
                }
                proof {
                    assert(p@.take(p@.len() as int) =~= p@);
                }
            },
            None => {
                proof {
                    assert(false);
                }
            },
        }
        proof {
            assert(views.take(i + 1).drop_last() =~= views.take(i as int));
            assert(views.take(i + 1).last() == views[i as int]);
            assert(views[i as int] == parts@[i as int].unwrap()@);
            assert(out@ == concat_shards(views.take(i + 1)));
        }
        i = i + 1;
    }
    proof {
        assert(views.take(data as int) =~= views);
    }
    out.truncate(encoded_length);
    proof {
        if encoded_length <= out@.len() {
        } else {
            assert(false);
        }
    }
    out
}

/// The concatenation of the data shards of a reconstructed codeword,
/// truncated to the blob length, is the original blob.
proof fn lemma_concat_reconstructed(
    parts: Seq<Option<Vec<u8>>>,
    full: Seq<Seq<u8>>,
    original: Seq<u8>,
    data: int,
    part_len: int,
    encoded_length: int,
    out: Seq<u8>,
)
    requires
        full.take(data) == padded_parts(original, part_len, data),
        original.len() == encoded_length,
        1 <= data <= parts.len(),
        part_len >= 1,
        encoded_length <= data * part_len,
        forall|i: int| 0 <= i < parts.len() ==> (#[trigger] parts[i]).unwrap()@ == full[i],
        forall|i: int| 0 <= i < parts.len() ==> (#[trigger] parts[i]) is Some,
        full.len() == parts.len(),
        out == concat_shards(Seq::new(data as nat, |i: int| parts[i].unwrap()@)).take(
            encoded_length,
        ),
    ensures
        out == original,
{
    let views = Seq::new(data as nat, |i: int| parts[i].unwrap()@);
    assert(views =~= padded_parts(original, part_len, data)) by {
        assert forall|i: int| 0 <= i < data implies views[i] == padded_parts(
            original,
            part_len,
            data,
        )[i] by {
            assert(views[i] == parts[i].unwrap()@);
            assert(parts[i].unwrap()@ == full[i]);
            assert(full.take(data)[i] == full[i]);
        }
    }
    lemma_concat_padded(original, part_len, data);
    assert(out =~= original);
}

/// The same helper for the no-parity case: every part present and equal to
/// its padded slice reassembles the blob.
proof fn lemma_decoded_exact(
    parts: Seq<Option<Vec<u8>>>,
    data: int,
    total: int,
    part_len: int,
    encoded_length: int,
    out: Seq<u8>,
)
    requires
        data == total,
        1 <= data <= parts.len(),
        parts.len() == total,
        part_len >= 1,
        part_len == (encoded_length + data - 1) / data,
        encoded_length <= data * part_len,
        forall|i: int| 0 <= i < parts.len() ==> (#[trigger] parts[i]) is Some,
        out == concat_shards(Seq::new(data as nat, |i: int| parts[i].unwrap()@)).take(
            encoded_length,
        ),
    ensures
        decoding_exact(parts, data, encoded_length, out),
{
    assert forall|original: Seq<u8>|
        #![trigger full_parts_of(original, (encoded_length + data - 1) / data, data, parts.len() as int)]
        (original.len() == encoded_length && (data < parts.len() ==> rs_parity_of(
            padded_parts(original, (encoded_length + data - 1) / data, data),
            parts.len() - data,
        ).len() == parts.len() - data) && (forall|i: int|
            0 <= i < parts.len() && (#[trigger] parts[i]) is Some ==> parts[i].unwrap()@
                == full_parts_of(
                original,
                (encoded_length + data - 1) / data,
                data,
                parts.len() as int,
            )[i])) implies out == original by {
        let full = full_parts_of(original, part_len, data, total);
        assert(full == padded_parts(original, part_len, data));
        assert(full.take(data) =~= full);
        lemma_concat_reconstructed(parts, full, original, data, part_len, encoded_length, out);
    }
}

} // verus!
