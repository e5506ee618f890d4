//! Tests of the flat-storage split engine: status handling, routing of the
//! different key columns, batching, cancellation, resumption, and deltas.

use flat_resharder::account::AccountId;
use flat_resharder::hash::CryptoHash;
use flat_resharder::resharder::FlatStorageResharder;
use flat_resharder::resharder::FlatStorageResharderController;
use flat_resharder::resharder::FlatStorageReshardingEventStatus;
use flat_resharder::resharder::FlatStorageReshardingTaskStatus;
use flat_resharder::resharder::ReshardingConfig;
use flat_resharder::resharder::ReshardingEventType;
use flat_resharder::resharder::ReshardingSplitShardParams;
use flat_resharder::shard::ShardLayout;
use flat_resharder::shard::ShardUId;
use flat_resharder::state::FlatStateValue;
use flat_resharder::status::BlockInfo;
use flat_resharder::status::FlatStateDelta;
use flat_resharder::status::FlatStorageReadyStatus;
use flat_resharder::status::FlatStorageReshardingStatus;
use flat_resharder::status::FlatStorageStatus;
use flat_resharder::status::SplittingParentStatus;
use flat_resharder::store::FlatStore;

fn account(s: &str) -> AccountId {
    AccountId::from_bytes(s.as_bytes().to_vec()).unwrap()
}

fn hash_of_byte(b: u8) -> CryptoHash {
    CryptoHash(vec![b; 32])
}

/// Simple shard layout with two shards.
fn simple_shard_layout() -> ShardLayout {
    ShardLayout::v2(vec![account("ff")], vec![0, 1])
}

/// Derived from [simple_shard_layout] by splitting the second shard.
fn shard_layout_after_split() -> ShardLayout {
    ShardLayout::v2(vec![account("ff"), account("pp")], vec![0, 2, 3])
}

fn account_key(name: &str) -> Vec<u8> {
    let mut k = vec![0u8];
    k.extend_from_slice(name.as_bytes());
    k
}

fn access_key(name: &str, public_key: &[u8]) -> Vec<u8> {
    let mut k = vec![2u8];
    k.extend_from_slice(name.as_bytes());
    k.push(2u8);
    k.extend_from_slice(public_key);
    k
}

fn delayed_receipt_indices_key() -> Vec<u8> {
    vec![7u8]
}

fn delayed_receipt_key(index: u64) -> Vec<u8> {
    let mut k = vec![7u8];
    k.extend_from_slice(&index.to_le_bytes());
    k
}

fn buffered_receipt_indices_key() -> Vec<u8> {
    vec![13u8]
}

fn buffered_receipt_key(receiving_shard: u16, index: u64) -> Vec<u8> {
    let mut k = vec![14u8];
    k.extend_from_slice(&receiving_shard.to_le_bytes());
    k.extend_from_slice(&index.to_le_bytes());
    k
}

fn inlined(bytes: &[u8]) -> FlatStateValue {
    FlatStateValue::inlined(&bytes.to_vec())
}

/// Builds a store holding the two shards of the simple layout, both ready
/// at a zero flat head, the parent populated with the `mm` and `vv`
/// accounts and one access key each.
fn create_store_and_resharder() -> FlatStorageResharder {
    let parent = ShardUId { version: 3, shard_id: 1 };
    let shard0 = ShardUId { version: 3, shard_id: 0 };
    let flat_head = BlockInfo { hash: CryptoHash::zero(), height: 0, prev_hash: CryptoHash::zero() };
    let mut store = FlatStore::new();
    let mut update = store.store_update();
    update.set_flat_storage_status(
        shard0,
        FlatStorageStatus::Ready(FlatStorageReadyStatus { flat_head: flat_head.clone() }),
    );
    update.set_flat_storage_status(
        parent,
        FlatStorageStatus::Ready(FlatStorageReadyStatus { flat_head: flat_head.clone() }),
    );
    update.set(shard0, account_key("aa"), Some(inlined(b"aa")));
    update.set(parent, account_key("mm"), Some(inlined(b"mm")));
    update.set(parent, account_key("vv"), Some(inlined(b"vv")));
    update.set(parent, access_key("mm", b"ed25519:mm"), Some(inlined(b"mm-key")));
    update.set(parent, access_key("vv", b"ed25519:vv"), Some(inlined(b"vv-key")));
    store.commit(update);
    FlatStorageResharder::new(store, FlatStorageResharderController::new(), ReshardingConfig::test())
}

fn split_event() -> ReshardingEventType {
    ReshardingEventType::SplitShard(ReshardingSplitShardParams {
        parent_shard: ShardUId { version: 3, shard_id: 1 },
        left_child_shard: ShardUId { version: 3, shard_id: 2 },
        right_child_shard: ShardUId { version: 3, shard_id: 3 },
        block_hash: CryptoHash::zero(),
        prev_block_hash: CryptoHash::zero(),
    })
}

/// Verify that another resharding can't be triggered if one is ongoing.
#[test]
fn concurrent_reshardings_are_disallowed() {
    let mut resharder = create_store_and_resharder();
    let new_shard_layout = shard_layout_after_split();

    assert!(resharder.start_resharding(split_event(), &new_shard_layout).is_ok());

    // Immediately cancel the resharding.
    resharder.controller.handle.stop();

    assert!(resharder.resharding_event().is_some());
    assert!(resharder.start_resharding(split_event(), &new_shard_layout).is_err());
}

/// Flat storage shard status should be set correctly upon starting a shard split.
#[test]
fn flat_storage_split_status_set() {
    let mut resharder = create_store_and_resharder();
    let new_shard_layout = shard_layout_after_split();

    assert!(resharder.start_resharding(split_event(), &new_shard_layout).is_ok());

    let resharding_event = resharder.resharding_event();
    match resharding_event.unwrap() {
        FlatStorageReshardingEventStatus::SplitShard(parent, status) => {
            assert_eq!(
                resharder.store.get_flat_storage_status(parent),
                FlatStorageStatus::Resharding(FlatStorageReshardingStatus::SplittingParent(
                    status.clone()
                ))
            );
            assert_eq!(
                resharder.store.get_flat_storage_status(status.left_child_shard),
                FlatStorageStatus::Resharding(FlatStorageReshardingStatus::CreatingChild)
            );
            assert_eq!(
                resharder.store.get_flat_storage_status(status.right_child_shard),
                FlatStorageStatus::Resharding(FlatStorageReshardingStatus::CreatingChild)
            );
        }
    }
}

/// In this test we write some dirty state into children shards and then try to resume a shard split.
/// Verify that the dirty writes are cleaned up correctly.
#[test]
fn resume_split_starts_from_clean_state() {
    let mut resharder = create_store_and_resharder();
    let new_shard_layout = shard_layout_after_split();
    let parent_shard = ShardUId { version: 3, shard_id: 1 };
    let left_child_shard = ShardUId { version: 3, shard_id: 2 };
    let right_child_shard = ShardUId { version: 3, shard_id: 3 };

    let mut store_update = resharder.store.store_update();

    // Write some random key-values in children shards.
    let dirty_key: Vec<u8> = vec![1, 2, 3, 4];
    let dirty_value = Some(FlatStateValue::Inlined(dirty_key.clone()));
    for child_shard in [left_child_shard, right_child_shard] {
        store_update.set(child_shard, dirty_key.clone(), dirty_value.clone());
    }

    // Set parent state to ShardSplitting, manually, to simulate a forcibly cancelled resharding attempt.
    let resharding_status = FlatStorageReshardingStatus::SplittingParent(SplittingParentStatus {
        // Values don't matter.
        left_child_shard,
        right_child_shard,
        shard_layout: new_shard_layout,
        block_hash: CryptoHash::zero(),
        prev_block_hash: CryptoHash::zero(),
        flat_head: BlockInfo { hash: CryptoHash::zero(), height: 1, prev_hash: CryptoHash::zero() },
    });
    store_update.set_flat_storage_status(
        parent_shard,
        FlatStorageStatus::Resharding(resharding_status.clone()),
    );

    resharder.store.commit(store_update);

    // Resume resharding.
    resharder.resume(parent_shard, &resharding_status).unwrap();
    resharder.split_shard_task();

    // Children should not contain the random keys written before.
    for child_shard in [left_child_shard, right_child_shard] {
        assert_eq!(resharder.store.get(child_shard, &dirty_key), None);
    }
}

/// Tests a simple split shard scenario.
///
/// Old layout:
/// shard 0 -> accounts [aa]
/// shard 1 -> accounts [mm, vv]
///
/// New layout:
/// shard 0 -> accounts [aa]
/// shard 2 -> accounts [mm]
/// shard 3 -> accounts [vv]
///
/// Shard to split is shard 1.
#[test]
fn simple_split_shard() {
    let mut resharder = create_store_and_resharder();
    let new_shard_layout = shard_layout_after_split();

    // Perform resharding.
    assert!(resharder.start_resharding(split_event(), &new_shard_layout).is_ok());
    let status = resharder.split_shard_task();
    assert!(matches!(status, FlatStorageReshardingTaskStatus::Successful { .. }));

    // Check flat storages of children contain the correct accounts and access keys.
    let left_child = ShardUId { version: 3, shard_id: 2 };
    let right_child = ShardUId { version: 3, shard_id: 3 };
    assert!(resharder.store.get(left_child, &account_key("mm")).is_some());
    assert!(resharder.store.get(right_child, &account_key("vv")).is_some());
    assert!(resharder.store.get(left_child, &access_key("mm", b"ed25519:mm")).is_some());
    assert!(resharder.store.get(right_child, &access_key("vv", b"ed25519:vv")).is_some());

    // Check final status of parent flat storage.
    let parent = ShardUId { version: 3, shard_id: 1 };
    assert_eq!(resharder.store.get_flat_storage_status(parent), FlatStorageStatus::Empty);
    assert_eq!(resharder.store.iter(parent).len(), 0);

    // Check final status of children flat storages.
    let last_hash = CryptoHash::zero();
    assert_eq!(
        resharder.store.get_flat_storage_status(left_child),
        FlatStorageStatus::Resharding(FlatStorageReshardingStatus::CatchingUp(last_hash.clone()))
    );
    assert_eq!(
        resharder.store.get_flat_storage_status(right_child),
        FlatStorageStatus::Resharding(FlatStorageReshardingStatus::CatchingUp(last_hash))
    );
}

/// Split shard task should run in batches.
#[test]
fn split_shard_batching() {
    let mut resharder = create_store_and_resharder();
    let new_shard_layout = shard_layout_after_split();

    // Tweak the resharding config to make smaller batches.
    resharder.resharding_config = ReshardingConfig { batch_size: 1, batch_delay_millis: 0 };

    // Perform resharding.
    assert!(resharder.start_resharding(split_event(), &new_shard_layout).is_ok());

    // Check that more than one batch has been processed.
    let FlatStorageReshardingTaskStatus::Successful { num_batches_done } =
        resharder.split_shard_task()
    else {
        panic!("expected a successful split");
    };
    assert!(num_batches_done > 1);
}

#[test]
fn cancel_split_shard() {
    let mut resharder = create_store_and_resharder();
    let new_shard_layout = shard_layout_after_split();

    // Perform resharding.
    assert!(resharder.start_resharding(split_event(), &new_shard_layout).is_ok());
    let (parent_shard, status) = resharder.get_parent_shard_and_status().unwrap();
    let left_child_shard = status.left_child_shard;
    let right_child_shard = status.right_child_shard;
    let flat_head = status.flat_head.clone();

    // Cancel the task before it starts.
    resharder.controller.handle.stop();

    // Run the task.
    let outcome = resharder.split_shard_task();
    assert_eq!(outcome, FlatStorageReshardingTaskStatus::Cancelled);

    // Check that resharding was effectively cancelled.
    assert_eq!(
        resharder.store.get_flat_storage_status(parent_shard),
        FlatStorageStatus::Ready(FlatStorageReadyStatus { flat_head })
    );
    for child_shard in [left_child_shard, right_child_shard] {
        assert_eq!(
            resharder.store.get_flat_storage_status(child_shard),
            FlatStorageStatus::Empty
        );
        assert_eq!(resharder.store.iter(child_shard).len(), 0);
    }
}

/// A shard can't be split if it isn't in ready state.
#[test]
fn reject_split_shard_if_parent_is_not_ready() {
    let mut resharder = create_store_and_resharder();
    let new_shard_layout = shard_layout_after_split();

    // Make flat storage of parent shard not ready.
    let parent_shard = ShardUId { version: 3, shard_id: 1 };
    let mut store_update = resharder.store.store_update();
    store_update.set_flat_storage_status(parent_shard, FlatStorageStatus::Empty);
    resharder.store.commit(store_update);

    // Trigger resharding and it should fail.
    assert!(resharder.start_resharding(split_event(), &new_shard_layout).is_err());
}

/// Verify the correctness of a shard split in the presence of flat storage deltas in the parent
/// shard.
#[test]
fn split_shard_parent_flat_store_with_deltas() {
    let mut resharder = create_store_and_resharder();
    let new_shard_layout = shard_layout_after_split();
    let parent_shard = ShardUId { version: 3, shard_id: 1 };
    let left_child_shard = ShardUId { version: 3, shard_id: 2 };
    let right_child_shard = ShardUId { version: 3, shard_id: 3 };

    // Manually add deltas on top of parent's flat storage.
    // Pick different kind of keys and operations in order to maximize test coverage.
    let account_vv_key = account_key("vv");
    let account_vv_value = Some(inlined(b"vv-update"));
    let account_oo_key = account_key("oo");
    let account_oo_value = Some(inlined(b"oo"));
    let account_mm_key = account_key("mm");
    let delayed_receipt_0_key = delayed_receipt_key(0);
    let delayed_receipt_0_value_0 = Some(inlined(b"delayed0-0"));
    let delayed_receipt_0_value_1 = Some(inlined(b"delayed0-1"));
    let delayed_receipt_1_key = delayed_receipt_key(1);
    let delayed_receipt_1_value = Some(inlined(b"delayed1"));
    let buffered_receipt_0_key = buffered_receipt_key(0, 0);
    let buffered_receipt_0_value_0 = Some(inlined(b"buffered0-0"));
    let buffered_receipt_0_value_1 = Some(inlined(b"buffered0-1"));
    let buffered_receipt_1_key = buffered_receipt_key(0, 1);
    let buffered_receipt_1_value = Some(inlined(b"buffered1"));

    let h0 = CryptoHash::zero();
    let h1 = hash_of_byte(1);
    let h2 = hash_of_byte(2);

    // First set of deltas: additions and updates.
    let delta1 = FlatStateDelta {
        block: BlockInfo { hash: h1.clone(), height: 1, prev_hash: h0.clone() },
        changes: vec![
            (account_oo_key.clone(), account_oo_value.clone()),
            (account_vv_key.clone(), account_vv_value.clone()),
            (delayed_receipt_0_key.clone(), delayed_receipt_0_value_0),
            (delayed_receipt_1_key.clone(), delayed_receipt_1_value),
            (delayed_receipt_0_key.clone(), delayed_receipt_0_value_1.clone()),
            (buffered_receipt_0_key.clone(), buffered_receipt_0_value_0),
            (buffered_receipt_1_key.clone(), buffered_receipt_1_value),
            (buffered_receipt_0_key.clone(), buffered_receipt_0_value_1.clone()),
        ],
    };
    // Second set of deltas: removals.
    let delta2 = FlatStateDelta {
        block: BlockInfo { hash: h2.clone(), height: 2, prev_hash: h1.clone() },
        changes: vec![
            (account_mm_key.clone(), None),
            (delayed_receipt_1_key.clone(), None),
            (buffered_receipt_1_key.clone(), None),
        ],
    };
    let mut store_update = resharder.store.store_update();
    store_update.set_delta(parent_shard, delta1);
    store_update.set_delta(parent_shard, delta2);
    resharder.store.commit(store_update);

    // Do resharding, at the block whose delta was applied last.
    let event = ReshardingEventType::SplitShard(ReshardingSplitShardParams {
        parent_shard,
        left_child_shard,
        right_child_shard,
        block_hash: h2,
        prev_block_hash: h1,
    });
    assert!(resharder.start_resharding(event, &new_shard_layout).is_ok());
    let status = resharder.split_shard_task();
    assert!(matches!(status, FlatStorageReshardingTaskStatus::Successful { .. }));

    // Validate integrity of children shards.
    // Account 'oo' should exist only in the left child.
    assert_eq!(resharder.store.get(left_child_shard, &account_oo_key), account_oo_value);
    assert_eq!(resharder.store.get(right_child_shard, &account_oo_key), None);
    // Account 'vv' should exist with updated value only in the right child.
    assert_eq!(resharder.store.get(left_child_shard, &account_vv_key), None);
    assert_eq!(resharder.store.get(right_child_shard, &account_vv_key), account_vv_value);
    // Delayed receipt '1' shouldn't exist.
    // Delayed receipt '0' should exist with updated value in both children.
    for child in [left_child_shard, right_child_shard] {
        assert_eq!(
            resharder.store.get(child, &delayed_receipt_0_key),
            delayed_receipt_0_value_1.clone()
        );
        assert_eq!(resharder.store.get(child, &delayed_receipt_1_key), None);
    }
    // Buffered receipt '0' should exist with updated value only in the left child.
    assert_eq!(
        resharder.store.get(left_child_shard, &buffered_receipt_0_key),
        buffered_receipt_0_value_1
    );
    assert_eq!(resharder.store.get(right_child_shard, &buffered_receipt_0_key), None);
    // Buffered receipt '1' shouldn't exist.
    for child in [left_child_shard, right_child_shard] {
        assert_eq!(resharder.store.get(child, &buffered_receipt_1_key), None);
    }
}

/// Tests the split of "account-id based" keys that are not covered in [simple_split_shard].
///
/// Old layout:
/// shard 0 -> accounts [aa]
/// shard 1 -> accounts [mm, vv]
///
/// New layout:
/// shard 0 -> accounts [aa]
/// shard 2 -> accounts [mm]
/// shard 3 -> accounts [vv]
#[test]
fn split_shard_handle_account_id_keys() {
    let mut resharder = create_store_and_resharder();
    let new_shard_layout = shard_layout_after_split();
    let parent_shard = ShardUId { version: 3, shard_id: 1 };
    let left_child_shard = ShardUId { version: 3, shard_id: 2 };
    let right_child_shard = ShardUId { version: 3, shard_id: 3 };

    let mut store_update = resharder.store.store_update();
    let test_value = Some(FlatStateValue::Inlined(vec![0]));

    // Helper closure to create all test keys for a given account. Returns the created keys.
    let mut inject = |account: &str| -> Vec<Vec<u8>> {
        let mut keys = vec![];

        // Inject contract data.
        let mut key = vec![9u8];
        key.extend_from_slice(account.as_bytes());
        key.push(b',');
        store_update.set(parent_shard, key.clone(), test_value.clone());
        keys.push(key);

        // Inject contract code.
        let mut key = vec![1u8];
        key.extend_from_slice(account.as_bytes());
        store_update.set(parent_shard, key.clone(), test_value.clone());
        keys.push(key);

        // Inject received_data.
        let mut key = vec![3u8];
        key.extend_from_slice(account.as_bytes());
        key.push(b',');
        key.extend_from_slice(&[0u8; 32]);
        store_update.set(parent_shard, key.clone(), test_value.clone());
        keys.push(key);

        // Inject postponed receipt id, pending data count and postponed receipt.
        for col in [4u8, 5u8, 6u8] {
            let mut key = vec![col];
            key.extend_from_slice(account.as_bytes());
            key.push(b',');
            key.extend_from_slice(&[0u8; 32]);
            store_update.set(parent_shard, key.clone(), test_value.clone());
            keys.push(key);
        }

        keys
    };

    let account_mm_keys = inject("mm");
    let account_vv_keys = inject("vv");
    resharder.store.commit(store_update);

    // Do resharding.
    assert!(resharder.start_resharding(split_event(), &new_shard_layout).is_ok());
    let status = resharder.split_shard_task();
    assert!(matches!(status, FlatStorageReshardingTaskStatus::Successful { .. }));

    // Check each child has the correct keys assigned to itself.
    for key in &account_mm_keys {
        assert_eq!(resharder.store.get(left_child_shard, key), test_value.clone());
        assert_eq!(resharder.store.get(right_child_shard, key), None);
    }
    for key in &account_vv_keys {
        assert_eq!(resharder.store.get(left_child_shard, key), None);
        assert_eq!(resharder.store.get(right_child_shard, key), test_value.clone());
    }
}

/// Tests the split of delayed receipts.
#[test]
fn split_shard_handle_delayed_receipts() {
    let mut resharder = create_store_and_resharder();
    let new_shard_layout = shard_layout_after_split();
    let parent_shard = ShardUId { version: 3, shard_id: 1 };
    let left_child_shard = ShardUId { version: 3, shard_id: 2 };
    let right_child_shard = ShardUId { version: 3, shard_id: 3 };

    // Inject a delayed receipt into the parent flat storage.
    let mut store_update = resharder.store.store_update();

    let delayed_receipt_indices_key = delayed_receipt_indices_key();
    let delayed_receipt_indices_value = Some(FlatStateValue::Inlined(vec![0]));
    store_update.set(
        parent_shard,
        delayed_receipt_indices_key.clone(),
        delayed_receipt_indices_value.clone(),
    );

    let delayed_receipt_key = delayed_receipt_key(0);
    let delayed_receipt_value = Some(FlatStateValue::Inlined(vec![1]));
    store_update.set(parent_shard, delayed_receipt_key.clone(), delayed_receipt_value.clone());

    resharder.store.commit(store_update);

    // Do resharding.
    assert!(resharder.start_resharding(split_event(), &new_shard_layout).is_ok());
    let status = resharder.split_shard_task();
    assert!(matches!(status, FlatStorageReshardingTaskStatus::Successful { .. }));

    // Check that flat storages of both children contain the delayed receipt.
    for child_shard in [left_child_shard, right_child_shard] {
        assert_eq!(
            resharder.store.get(child_shard, &delayed_receipt_indices_key),
            delayed_receipt_indices_value.clone()
        );
        assert_eq!(
            resharder.store.get(child_shard, &delayed_receipt_key),
            delayed_receipt_value.clone()
        );
    }
}

/// Tests the split of promise yield receipts.
#[test]
fn split_shard_handle_promise_yield() {
    let mut resharder = create_store_and_resharder();
    let new_shard_layout = shard_layout_after_split();
    let parent_shard = ShardUId { version: 3, shard_id: 1 };
    let left_child_shard = ShardUId { version: 3, shard_id: 2 };
    let right_child_shard = ShardUId { version: 3, shard_id: 3 };

    // Inject a promise yield receipt into the parent flat storage.
    let mut store_update = resharder.store.store_update();

    let promise_yield_indices_key = vec![10u8];
    let promise_yield_indices_value = Some(FlatStateValue::Inlined(vec![0]));
    store_update.set(
        parent_shard,
        promise_yield_indices_key.clone(),
        promise_yield_indices_value.clone(),
    );

    let mut promise_yield_timeout_key = vec![11u8];
    promise_yield_timeout_key.extend_from_slice(&0u64.to_le_bytes());
    let promise_yield_timeout_value = Some(FlatStateValue::Inlined(vec![1]));
    store_update.set(
        parent_shard,
        promise_yield_timeout_key.clone(),
        promise_yield_timeout_value.clone(),
    );

    let mut promise_yield_receipt_key = vec![12u8];
    promise_yield_receipt_key.extend_from_slice(b"ff");
    promise_yield_receipt_key.push(b',');
    promise_yield_receipt_key.extend_from_slice(&[0u8; 32]);
    let promise_yield_receipt_value = Some(FlatStateValue::Inlined(vec![2]));
    store_update.set(
        parent_shard,
        promise_yield_receipt_key.clone(),
        promise_yield_receipt_value.clone(),
    );

    resharder.store.commit(store_update);

    // Do resharding.
    assert!(resharder.start_resharding(split_event(), &new_shard_layout).is_ok());
    let status = resharder.split_shard_task();
    assert!(matches!(status, FlatStorageReshardingTaskStatus::Successful { .. }));

    // Check that flat storages of both children contain the promise yield.
    for child_shard in [left_child_shard, right_child_shard] {
        assert_eq!(
            resharder.store.get(child_shard, &promise_yield_indices_key),
            promise_yield_indices_value.clone()
        );
        assert_eq!(
            resharder.store.get(child_shard, &promise_yield_timeout_key),
            promise_yield_timeout_value.clone()
        );
        assert_eq!(
            resharder.store.get(child_shard, &promise_yield_receipt_key),
            promise_yield_receipt_value.clone()
        );
    }
}

/// Tests the split of buffered receipts.
#[test]
fn split_shard_handle_buffered_receipts() {
    let mut resharder = create_store_and_resharder();
    let new_shard_layout = shard_layout_after_split();
    let parent_shard = ShardUId { version: 3, shard_id: 1 };
    let left_child_shard = ShardUId { version: 3, shard_id: 2 };
    let right_child_shard = ShardUId { version: 3, shard_id: 3 };

    // Inject a buffered receipt into the parent flat storage.
    let mut store_update = resharder.store.store_update();

    let buffered_receipt_indices_key = buffered_receipt_indices_key();
    let buffered_receipt_indices_value = Some(FlatStateValue::Inlined(vec![0]));
    store_update.set(
        parent_shard,
        buffered_receipt_indices_key.clone(),
        buffered_receipt_indices_value.clone(),
    );

    let buffered_receipt_key = buffered_receipt_key(0, 0);
    let buffered_receipt_value = Some(FlatStateValue::Inlined(vec![1]));
    store_update.set(parent_shard, buffered_receipt_key.clone(), buffered_receipt_value.clone());

    resharder.store.commit(store_update);

    // Do resharding.
    assert!(resharder.start_resharding(split_event(), &new_shard_layout).is_ok());
    let status = resharder.split_shard_task();
    assert!(matches!(status, FlatStorageReshardingTaskStatus::Successful { .. }));

    // Check that only the first child contains the buffered receipt.
    assert_eq!(
        resharder.store.get(left_child_shard, &buffered_receipt_indices_key),
        buffered_receipt_indices_value
    );
    assert_eq!(resharder.store.get(right_child_shard, &buffered_receipt_indices_key), None);
    assert_eq!(
        resharder.store.get(left_child_shard, &buffered_receipt_key),
        buffered_receipt_value
    );
    assert_eq!(resharder.store.get(right_child_shard, &buffered_receipt_key), None);
}

/// A split with an unroutable key in the parent fails and rolls back.
#[test]
fn split_shard_fails_on_unknown_column() {
    let mut resharder = create_store_and_resharder();
    let new_shard_layout = shard_layout_after_split();
    let parent_shard = ShardUId { version: 3, shard_id: 1 };

    let mut store_update = resharder.store.store_update();
    store_update.set(parent_shard, vec![200u8, 1, 2], Some(FlatStateValue::Inlined(vec![0])));
    resharder.store.commit(store_update);

    assert!(resharder.start_resharding(split_event(), &new_shard_layout).is_ok());
    let (_, status) = resharder.get_parent_shard_and_status().unwrap();
    let flat_head = status.flat_head.clone();
    assert_eq!(resharder.split_shard_task(), FlatStorageReshardingTaskStatus::Failed);

    // Rolled back: parent ready again, children empty.
    assert_eq!(
        resharder.store.get_flat_storage_status(parent_shard),
        FlatStorageStatus::Ready(FlatStorageReadyStatus { flat_head })
    );
    for child in [ShardUId { version: 3, shard_id: 2 }, ShardUId { version: 3, shard_id: 3 }] {
        assert_eq!(resharder.store.get_flat_storage_status(child), FlatStorageStatus::Empty);
        assert_eq!(resharder.store.iter(child).len(), 0);
    }
}

/// After a successful split the engine accepts a new resharding event.
#[test]
fn event_slot_cleared_after_task() {
    let mut resharder = create_store_and_resharder();
    let new_shard_layout = shard_layout_after_split();
    assert!(resharder.start_resharding(split_event(), &new_shard_layout).is_ok());
    resharder.split_shard_task();
    assert!(resharder.resharding_event().is_none());
}
