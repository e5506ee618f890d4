//! Tests of the partial witness pipeline: encoding sizes, part fan-out,
//! reassembly from a subset of parts, acknowledgement tracking, and the
//! ordered validator set for deploy distribution.

use flat_resharder::account::AccountId;
use flat_resharder::encoding::data_parts_for;
use flat_resharder::encoding::decode_parts;
use flat_resharder::encoding::encode_parts;
use flat_resharder::hash::CryptoHash;
use flat_resharder::witness::ChunkProductionKey;
use flat_resharder::witness::PartialEncodedStateWitness;
use flat_resharder::witness::PartialWitnessActor;
use flat_resharder::witness::forward_targets;
use flat_resharder::witness::missing_contract_hashes;
use flat_resharder::witness::ordered_contract_deploys_validators;
use flat_resharder::witness::zstd_compress;
use flat_resharder::witness::zstd_decompress;
use flat_resharder::witness::WITNESS_RATIO_DATA_PARTS_NUM;
use flat_resharder::witness::WITNESS_RATIO_DATA_PARTS_DEN;

fn account(s: &str) -> AccountId {
    AccountId::from_bytes(s.as_bytes().to_vec()).unwrap()
}

fn key() -> ChunkProductionKey {
    ChunkProductionKey { epoch_id: CryptoHash::zero(), shard_id: 0, height_created: 5 }
}

fn validators(n: usize) -> Vec<AccountId> {
    let names = ["aa", "bb", "cc", "dd", "ee", "ff", "gg", "hh", "ii", "jj"];
    names[..n].iter().map(|s| account(s)).collect()
}

#[test]
fn data_parts_follow_the_ratio() {
    // Ten validators at a ratio of three fifths: six data parts.
    assert_eq!(data_parts_for(10, WITNESS_RATIO_DATA_PARTS_NUM, WITNESS_RATIO_DATA_PARTS_DEN), 6);
    // Rounding up, with a floor of one.
    assert_eq!(data_parts_for(1, WITNESS_RATIO_DATA_PARTS_NUM, WITNESS_RATIO_DATA_PARTS_DEN), 1);
    assert_eq!(data_parts_for(2, WITNESS_RATIO_DATA_PARTS_NUM, WITNESS_RATIO_DATA_PARTS_DEN), 2);
    assert_eq!(data_parts_for(7, 3, 10), 3);
}

#[test]
fn encode_then_decode_from_all_data_parts() {
    let blob = b"the compressed witness bytes".to_vec();
    let data = 4;
    let total = 7;
    let parts = encode_parts(&blob, data, total);
    assert_eq!(parts.len(), total);
    // Hand only the data parts over.
    let mut received: Vec<Option<Vec<u8>>> = parts.iter().map(|_| None).collect();
    for i in 0..data {
        received[i] = Some(parts[i].clone());
    }
    let out = decode_parts(&mut received, data, blob.len()).expect("enough parts");
    assert_eq!(out, blob);
}

#[test]
fn decode_from_any_sufficient_subset() {
    let blob = vec![42u8; 100];
    let data = 4;
    let total = 7;
    let parts = encode_parts(&blob, data, total);
    // A subset holding parity parts instead of some data parts.
    let picked = [0usize, 2, 4, 6];
    let mut received: Vec<Option<Vec<u8>>> = parts.iter().map(|_| None).collect();
    for &i in picked.iter() {
        received[i] = Some(parts[i].clone());
    }
    let out = decode_parts(&mut received, data, blob.len()).expect("enough parts");
    assert_eq!(out, blob);
}

#[test]
fn too_few_parts_never_decode() {
    let blob = vec![9u8; 64];
    let data = 4;
    let total = 7;
    let parts = encode_parts(&blob, data, total);
    let mut received: Vec<Option<Vec<u8>>> = parts.iter().map(|_| None).collect();
    for i in 0..data - 1 {
        received[i] = Some(parts[i].clone());
    }
    assert!(decode_parts(&mut received, data, blob.len()).is_none());
}

#[test]
fn witness_fan_out_and_reassembly() {
    // Ten validators; six data parts at the witness ratio.
    let vs = validators(10);
    let mut producer_side = PartialWitnessActor::new();
    let witness = b"a rather large state witness, compressed before distribution".to_vec();
    let (compressed, raw_size) = flat_resharder::witness::compress_witness(&witness);
    assert_eq!(raw_size, witness.len());
    let messages = producer_side.generate_state_witness_parts(key(), &compressed, &vs);
    assert_eq!(messages.len(), 10);
    for (i, (owner, part)) in messages.iter().enumerate() {
        assert_eq!(owner, &vs[i]);
        assert_eq!(part.part_ord, i);
        assert_eq!(part.encoded_length, compressed.len());
    }

    // A validator reassembles from any six parts; the witness surfaces
    // exactly once.
    let mut validator_side = PartialWitnessActor::new();
    let picked = [9usize, 3, 5, 0, 7, 1];
    let mut surfaced: Vec<Vec<u8>> = Vec::new();
    for &i in picked.iter() {
        let pw = messages[i].1.clone();
        if let Some(bytes) =
            validator_side.handle_partial_encoded_state_witness_forward(pw, true, 10, 6)
        {
            surfaced.push(bytes);
        }
    }
    assert_eq!(surfaced.len(), 1);
    assert_eq!(surfaced[0], compressed);
    assert_eq!(zstd_decompress(&surfaced[0]), Some(witness));

    // Further parts cause no duplicate surfacing.
    let pw = messages[2].1.clone();
    assert!(validator_side
        .handle_partial_encoded_state_witness_forward(pw, true, 10, 6)
        .is_none());
}

#[test]
fn owner_forwards_to_everyone_but_the_producer() {
    let vs = validators(5);
    let producer = account("bb");
    let targets = forward_targets(&vs, &producer);
    let names: Vec<&AccountId> = targets.iter().collect();
    assert_eq!(names.len(), 4);
    for t in targets.iter() {
        assert_ne!(t, &producer);
        assert!(vs.contains(t));
    }

    // The direct handler forwards a valid part and refuses an invalid one.
    let mut actor = PartialWitnessActor::new();
    let pw = PartialEncodedStateWitness {
        key: key(),
        part_ord: 1,
        part: vec![1, 2, 3],
        encoded_length: 3,
    };
    let fwd = actor.handle_partial_encoded_state_witness(&pw, true, &vs, &producer);
    assert_eq!(fwd.unwrap().len(), 4);
    assert!(actor.handle_partial_encoded_state_witness(&pw, false, &vs, &producer).is_none());
}

#[test]
fn ack_round_trip_is_recorded_once() {
    let mut actor = PartialWitnessActor::new();
    let chunk_hash = CryptoHash(vec![5u8; 32]);
    let vs = validators(4);
    let witness = vec![1u8; 50];
    let msgs = actor.send_state_witness_parts(key(), chunk_hash.clone(), &witness, &vs);
    assert_eq!(msgs.len(), 4);
    // The first ack matches the record; a second one finds nothing.
    assert!(actor.handle_chunk_state_witness_ack(&chunk_hash).is_some());
    assert!(actor.handle_chunk_state_witness_ack(&chunk_hash).is_none());
    // An ack for an unknown chunk finds nothing.
    assert!(actor.handle_chunk_state_witness_ack(&CryptoHash::zero()).is_none());
}

#[test]
fn deploys_parts_forward_only_from_owner() {
    let vs = validators(6);
    let me = account("cc");
    let mut actor = PartialWitnessActor::new();
    let compressed = zstd_compress(&vec![8u8; 200]);
    let messages = actor.generate_contract_deploys_parts(key(), &compressed, &vs);
    assert_eq!(messages.len(), 6);

    // "cc" owns part 2: receiving it triggers a forward; part 3 does not.
    let deploys_part = |i: usize| flat_resharder::witness::PartialEncodedContractDeploys {
        key: key(),
        part_ord: i,
        data: messages[i].1.part.clone(),
        encoded_length: compressed.len(),
    };
    let (fwd, _) = actor.handle_partial_encoded_contract_deploys(deploys_part(2), true, &vs, &me);
    assert!(fwd.is_some());
    assert_eq!(fwd.unwrap().len(), 5);
    let (fwd, _) = actor.handle_partial_encoded_contract_deploys(deploys_part(3), true, &vs, &me);
    assert!(fwd.is_none());
}

#[test]
fn deploys_reassemble_and_decompress() {
    let vs = validators(10);
    let me = account("aa");
    let mut actor = PartialWitnessActor::new();
    let raw = b"contract code batch".to_vec();
    let compressed = zstd_compress(&raw);
    let messages = actor.generate_contract_deploys_parts(key(), &compressed, &vs);
    // Three data parts at the deploys ratio of three tenths.
    let mut completed = Vec::new();
    for i in 0..3 {
        let pd = flat_resharder::witness::PartialEncodedContractDeploys {
            key: key(),
            part_ord: i,
            data: messages[i].1.part.clone(),
            encoded_length: compressed.len(),
        };
        let (_, done) = actor.handle_partial_encoded_contract_deploys(pd, true, &vs, &me);
        if let Some(batch) = done {
            completed.push(batch);
        }
    }
    assert_eq!(completed.len(), 1);
    assert_eq!(completed[0], raw);
}

#[test]
fn missing_hashes_are_selected_and_requested() {
    let mut actor = PartialWitnessActor::new();
    let hashes = vec![CryptoHash(vec![1; 32]), CryptoHash(vec![2; 32]), CryptoHash(vec![3; 32])];
    let cached = vec![true, false, false];
    let missing = missing_contract_hashes(&hashes, &cached);
    assert_eq!(missing.len(), 2);
    assert_eq!(missing[0], hashes[1]);
    assert_eq!(missing[1], hashes[2]);

    let r = actor.handle_chunk_contract_accesses(key(), true, &hashes, &cached);
    assert_eq!(r.unwrap().len(), 2);
    // The tracker recorded exactly the missing set for the key.
    assert_eq!(actor.partial_witness_tracker.accessed.len(), 1);
    assert_eq!(actor.partial_witness_tracker.accessed[0].key, key());
    assert_eq!(actor.partial_witness_tracker.accessed[0].hashes, missing);
    assert!(actor.partial_witness_tracker.accessed[0].codes.is_empty());
    // Nothing missing: nothing to request.
    assert!(actor
        .handle_chunk_contract_accesses(key(), true, &hashes, &vec![true, true, true])
        .is_none());
    // Invalid message: discarded.
    assert!(actor.handle_chunk_contract_accesses(key(), false, &hashes, &cached).is_none());
}

#[test]
fn code_request_answers_only_when_complete() {
    let mut actor = PartialWitnessActor::new();
    let full = vec![Some(vec![1u8, 2]), Some(vec![3u8])];
    let r = actor.handle_contract_code_request(full).unwrap();
    assert_eq!(r, vec![vec![1u8, 2], vec![3u8]]);
    let incomplete = vec![Some(vec![1u8, 2]), None];
    assert!(actor.handle_contract_code_request(incomplete).is_none());
}

#[test]
fn code_response_is_decompressed() {
    let mut actor = PartialWitnessActor::new();
    let codes = vec![b"contract a".to_vec(), b"contract b".to_vec()];
    let compressed: Vec<Vec<u8>> = codes.iter().map(|c| zstd_compress(c)).collect();
    let r = actor.handle_contract_code_response(key(), &compressed).unwrap();
    assert_eq!(r, codes);
    // The decoded codes were handed to the tracker under the key.
    assert_eq!(actor.partial_witness_tracker.accessed.len(), 1);
    assert_eq!(actor.partial_witness_tracker.accessed[0].key, key());
    assert_eq!(actor.partial_witness_tracker.accessed[0].codes, codes);
    // A malformed blob fails the whole response.
    let bad = vec![vec![1u8, 2, 3]];
    assert!(actor.handle_contract_code_response(key(), &bad).is_none());
}

#[test]
fn deploy_validators_are_filtered_and_sorted() {
    let all = vec![account("vv"), account("aa"), account("mm"), account("bb")];
    let producers = vec![account("mm")];
    let ordered = ordered_contract_deploys_validators(&all, &producers);
    assert_eq!(ordered, vec![account("aa"), account("bb"), account("vv")]);
}

#[test]
fn compression_round_trips() {
    let data = b"witness payload".to_vec();
    let compressed = zstd_compress(&data);
    assert_eq!(zstd_decompress(&compressed), Some(data));
}

#[test]
fn distribute_request_emits_both_message_sets() {
    let mut actor = PartialWitnessActor::new();
    let vs = validators(5);
    let deploy_vs = validators(4);
    let msg = flat_resharder::witness::DistributeStateWitnessRequest {
        key: key(),
        chunk_hash: CryptoHash(vec![3u8; 32]),
        state_witness: b"the witness".to_vec(),
        contract_deploys: b"the deploys".to_vec(),
    };
    let (witness_msgs, deploy_msgs) = actor.handle_distribute_state_witness_request(msg, &vs, &deploy_vs);
    assert_eq!(witness_msgs.len(), 5);
    assert_eq!(deploy_msgs.len(), 4);

    // No deploys: no deploy messages.
    let msg = flat_resharder::witness::DistributeStateWitnessRequest {
        key: key(),
        chunk_hash: CryptoHash(vec![4u8; 32]),
        state_witness: b"witness two".to_vec(),
        contract_deploys: Vec::new(),
    };
    let (witness_msgs, deploy_msgs) = actor.handle_distribute_state_witness_request(msg, &vs, &deploy_vs);
    assert_eq!(witness_msgs.len(), 5);
    assert_eq!(deploy_msgs.len(), 0);
}
