//! The split engine: starts, resumes, executes and rolls back the split of
//! one parent shard's flat storage into two children.

use vstd::prelude::*;
use crate::hash::CryptoHash;
use crate::shard::ShardUId;
use crate::shard::layout_wf;
use crate::state::FlatStateValue;
use crate::state::FlatValueView;
use crate::state::add_sat;
use crate::status::DeltaView;
use crate::status::FlatStorageReadyStatus;
use crate::status::FlatStorageReshardingStatus;
use crate::status::FlatStorageStatus;
use crate::status::FlatStorageStatusView;
use crate::status::ReshardingStatusView;
use crate::status::SplittingParentStatus;
use crate::status::SplittingParentStatusView;
use crate::status::opt_value_view;
use crate::store::FlatStore;
use crate::store::FlatStoreUpdate;
use crate::store::FlatStoreView;
use crate::store::StoreOpView;
use crate::store::apply_op;
use crate::store::apply_ops;
use crate::store::drop_shard_deltas;
use crate::store::drop_shard_values;
use crate::stream::FlatStorageAndDeltaIterItem;
use crate::stream::IterItemView;
use crate::stream::base_stream;
use crate::stream::deltas_stream;
use crate::stream::flat_storage_iterator;
use crate::stream::is_chain_path;
use crate::stream::item_views;
use crate::semantics::apply_entry;
use crate::semantics::apply_items;
use crate::semantics::child_result;
use crate::semantics::child_written;
use crate::semantics::key_ok;
use crate::semantics::shard_slice;
use crate::trie_key::RouteDecision;
use crate::trie_key::route;
use crate::trie_key::route_of;

verus! {

/// Errors of the split engine.
#[derive(Clone, Copy, Debug, PartialEq, Eq, Structural)]
pub enum ReshardingError {
    /// A resharding event is already in progress; only one may run.
    ReshardingAlreadyInProgress,
    /// The parent shard's flat storage is not in the ready state.
    ParentNotReady,
    /// An invariant of the split was broken: an empty key, an unknown
    /// column, or an account that maps to no child.
    InvariantViolation,
}

/// Configuration of the split engine.
#[derive(Clone, Copy, Debug, PartialEq, Eq, Structural)]
pub struct ReshardingConfig {
    /// Byte budget of one batch: the copy commits and pauses after at least
    /// this many bytes of key-values.
    pub batch_size: usize,
    /// Pause between batches, leaving resources to regular node operation.
    pub batch_delay_millis: u64,
}

impl ReshardingConfig {
    /// Defaults: medium batches, a short pause.
    pub fn test() -> (r: ReshardingConfig)
        ensures
            r.batch_size >= 1,
    {
        ReshardingConfig { batch_size: 500000, batch_delay_millis: 100 }
    }
}

/// Keeps a background resharding task running until asked to stop.
#[derive(Clone, Copy, Debug, PartialEq, Eq, Structural)]
pub struct ReshardingHandle {
    pub running: bool,
}

impl ReshardingHandle {
    /// A fresh handle, running.
    pub fn new() -> (r: ReshardingHandle)
        ensures
            r.running == true,
    {
        ReshardingHandle { running: true }
    }

    /// Whether the task may keep running.
    pub fn get(&self) -> (r: bool)
        ensures
            r == self.running,
    {
        self.running
    }

    /// Asks the task to stop.
    pub fn stop(&mut self)
        ensures
            final(self).running == false,
    {
        self.running = false;
    }
}

/// Controls cancellation of the split's background processing. Cancellation
/// is an on-demand request and is permanent for the event; an interruption
/// (a crash) is not, and is handled by `resume` instead.
#[derive(Clone, Copy, Debug, PartialEq, Eq, Structural)]
pub struct FlatStorageResharderController {
    /// Resharding handle to control cancellation.
    pub handle: ReshardingHandle,
}

impl FlatStorageResharderController {
    /// Creates a new controller with its own handle.
    pub fn new() -> (r: FlatStorageResharderController)
        ensures
            r.handle.running == true,
    {
        let handle = ReshardingHandle::new();
        FlatStorageResharderController { handle }
    }

    /// Wraps an existing handle.
    pub fn from_resharding_handle(handle: ReshardingHandle) -> (r: FlatStorageResharderController)
        ensures
            r.handle == handle,
    {
        FlatStorageResharderController { handle }
    }

    /// Whether the background task is cancelled.
    pub fn is_cancelled(&self) -> (r: bool)
        ensures
            r == !self.handle.running,
    {
        !self.handle.get()
    }
}

/// Everything a split needs: the parent, its two children and the
/// resharding block.
#[derive(Debug)]
pub struct ReshardingSplitShardParams {
    pub parent_shard: ShardUId,
    pub left_child_shard: ShardUId,
    pub right_child_shard: ShardUId,
    pub block_hash: CryptoHash,
    pub prev_block_hash: CryptoHash,
}

/// The kinds of resharding events; only splitting a shard is supported.
#[derive(Debug)]
pub enum ReshardingEventType {
    SplitShard(ReshardingSplitShardParams),
}

/// Mathematical model of a [`FlatStorageReshardingEventStatus`].
pub enum ReshardingEventView {
    SplitShard(ShardUId, SplittingParentStatusView),
}

/// The current in-progress resharding event: the parent shard under split
/// and the split's parameters.
#[derive(Debug)]
pub enum FlatStorageReshardingEventStatus {
    SplitShard(ShardUId, SplittingParentStatus),
}

impl View for FlatStorageReshardingEventStatus {
    type V = ReshardingEventView;

    open spec fn view(&self) -> ReshardingEventView {
        match self {
            FlatStorageReshardingEventStatus::SplitShard(p, st) => ReshardingEventView::SplitShard(
                *p,
                st@,
            ),
        }
    }
}

/// Status of a flat storage resharding task.
#[derive(Clone, Debug, Copy, Eq, PartialEq, Structural)]
pub enum FlatStorageReshardingTaskStatus {
    Successful { num_batches_done: usize },
    Failed,
    Cancelled,
}

/// The parent shard of the in-progress split; meaningful only when an
/// event is set.
pub open spec fn event_parent(o: Option<FlatStorageReshardingEventStatus>) -> ShardUId {
    match o {
        Some(FlatStorageReshardingEventStatus::SplitShard(p, _)) => p,
        None => arbitrary(),
    }
}

/// The parameters of the in-progress split; meaningful only when an event
/// is set.
pub open spec fn event_status(o: Option<FlatStorageReshardingEventStatus>) -> SplittingParentStatusView {
    match o {
        Some(FlatStorageReshardingEventStatus::SplitShard(_, st)) => st@,
        None => arbitrary(),
    }
}

/// Well-formed split parameters: a valid layout, two distinct children,
/// neither being the parent.
pub open spec fn split_params_wf(parent: ShardUId, st: SplittingParentStatusView) -> bool {
    &&& layout_wf(st.shard_layout)
    &&& st.left_child_shard != st.right_child_shard
    &&& parent != st.left_child_shard
    &&& parent != st.right_child_shard
}

/// Every key the split will meet can be routed: the parent's base keys and
/// every key of every delta along the path.
pub open spec fn split_keys_ok(
    pv: Map<Seq<u8>, FlatValueView>,
    d: Map<(ShardUId, Seq<u8>), DeltaView>,
    parent: ShardUId,
    bs: Seq<Seq<u8>>,
    layout: crate::shard::ShardLayoutView,
    left: ShardUId,
    right: ShardUId,
) -> bool {
    &&& forall|k: Seq<u8>| pv.dom().contains(k) ==> key_ok(k, layout, left, right)
    &&& forall|i: int, j: int|
        0 <= i < bs.len() && 0 <= j < d[(parent, #[trigger] bs[i])].changes.len() ==> key_ok(
            (#[trigger] d[(parent, bs[i])].changes[j]).0,
            layout,
            left,
            right,
        )
}

/// Appending one write to a batch applies it after the batch.
pub proof fn lemma_apply_ops_push(s: FlatStoreView, ops: Seq<StoreOpView>, op: StoreOpView)
    ensures
        apply_ops(s, ops.push(op)) == apply_op(apply_ops(s, ops), op),
{
    assert(ops.push(op).drop_last() =~= ops);
    assert(ops.push(op).last() == op);
}

/// Setting one value of one shard changes only that shard's slice, by
/// exactly that key.
pub proof fn lemma_slice_set(
    m: Map<(ShardUId, Seq<u8>), FlatValueView>,
    sh: ShardUId,
    k: Seq<u8>,
    v: Option<FlatValueView>,
)
    ensures
        shard_slice(
            match v {
                Some(val) => m.insert((sh, k), val),
                None => m.remove((sh, k)),
            },
            sh,
        ) == match v {
            Some(val) => shard_slice(m, sh).insert(k, val),
            None => shard_slice(m, sh).remove(k),
        },
        forall|c: ShardUId|
            c != sh ==> shard_slice(
                match v {
                    Some(val) => m.insert((sh, k), val),
                    None => m.remove((sh, k)),
                },
                c,
            ) == shard_slice(m, c),
{
    match v {
        Some(val) => {
            assert(shard_slice(m.insert((sh, k), val), sh) =~= shard_slice(m, sh).insert(k, val));
            assert forall|c: ShardUId| c != sh implies shard_slice(m.insert((sh, k), val), c)
                =~= shard_slice(m, c) by {}
        },
        None => {
            assert(shard_slice(m.remove((sh, k)), sh) =~= shard_slice(m, sh).remove(k));
            assert forall|c: ShardUId| c != sh implies shard_slice(m.remove((sh, k)), c)
                =~= shard_slice(m, c) by {}
        },
    }
}

/// Dropping a whole shard from the value map empties that shard's slice
/// and keeps every other slice.
pub proof fn lemma_slice_drop(m: Map<(ShardUId, Seq<u8>), FlatValueView>, sh: ShardUId)
    ensures
        shard_slice(drop_shard_values(m, sh), sh) == Map::<Seq<u8>, FlatValueView>::empty(),
        forall|c: ShardUId|
            c != sh ==> shard_slice(drop_shard_values(m, sh), c) == shard_slice(m, c),
{
    assert(shard_slice(drop_shard_values(m, sh), sh) =~= Map::<Seq<u8>, FlatValueView>::empty());
    assert forall|c: ShardUId| c != sh implies shard_slice(drop_shard_values(m, sh), c)
        =~= shard_slice(m, c) by {}
}


impl Clone for FlatStorageReshardingEventStatus {
    fn clone(&self) -> (r: Self)
        ensures
            r@ == self@,
    {
        match self {
            FlatStorageReshardingEventStatus::SplitShard(p, st) =>
                FlatStorageReshardingEventStatus::SplitShard(*p, st.clone()),
        }
    }
}

/// The model of an optional resharding event.
pub open spec fn opt_event_view(o: Option<FlatStorageReshardingEventStatus>) -> Option<
    ReshardingEventView,
> {
    match o {
        Some(e) => Some(e@),
        None => None,
    }
}

/// The split parameters carried by an event request.
pub open spec fn params_of(e: ReshardingEventType) -> ReshardingSplitShardParams {
    match e {
        ReshardingEventType::SplitShard(p) => p,
    }
}

/// Reads the flat head of a shard whose flat storage must be ready.
fn retrieve_shard_flat_head(shard: ShardUId, store: &FlatStore) -> (r: Result<
    crate::status::BlockInfo,
    ReshardingError,
>)
    requires
        store.wf(),
    ensures
        r is Ok <==> store@.statuses[shard] is Ready,
        r is Ok ==> r.unwrap()@ == store@.statuses[shard]->Ready_0,
        r is Err ==> r.unwrap_err() == ReshardingError::ParentNotReady,
{
    let status = store.get_flat_storage_status(shard);
    match status {
        FlatStorageStatus::Ready(ready) => Ok(ready.flat_head),
        _ => Err(ReshardingError::ParentNotReady),
    }
}

/// Routes one key-value pair of the parent to the children it belongs to,
/// appending the writes to the batch; fails exactly on a key the router
/// cannot place.
fn shard_split_handle_key_value(
    key: Vec<u8>,
    value: Option<FlatStateValue>,
    store_update: &mut FlatStoreUpdate,
    status: &SplittingParentStatus,
) -> (r: Result<(), ReshardingError>)
    requires
        layout_wf(status@.shard_layout),
        status@.left_child_shard != status@.right_child_shard,
    ensures
        r is Ok <==> key_ok(
            key@,
            status@.shard_layout,
            status@.left_child_shard,
            status@.right_child_shard,
        ),
        r is Err ==> final(store_update)@ == old(store_update)@ && r.unwrap_err()
            == ReshardingError::InvariantViolation,
        r is Ok ==> forall|s: FlatStoreView|
            ({
                let before = apply_ops(s, old(store_update)@);
                let after = #[trigger] apply_ops(s, final(store_update)@);
                &&& after.statuses == before.statuses
                &&& after.deltas == before.deltas
                &&& forall|c: ShardUId|
                    c != status@.left_child_shard && c != status@.right_child_shard
                        ==> shard_slice(after.values, c) == shard_slice(before.values, c)
                &&& shard_slice(after.values, status@.left_child_shard) == apply_entry(
                    shard_slice(before.values, status@.left_child_shard),
                    key@,
                    opt_value_view(value),
                    status@.shard_layout,
                    status@.left_child_shard,
                    status@.left_child_shard,
                    status@.right_child_shard,
                )
                &&& shard_slice(after.values, status@.right_child_shard) == apply_entry(
                    shard_slice(before.values, status@.right_child_shard),
                    key@,
                    opt_value_view(value),
                    status@.shard_layout,
                    status@.right_child_shard,
                    status@.left_child_shard,
                    status@.right_child_shard,
                )
            }),
{
    let left = status.left_child_shard;
    let right = status.right_child_shard;
    let ghost kv = key@;
    let ghost vv = opt_value_view(value);
    let ghost layout = status@.shard_layout;
    let ghost ops0 = store_update@;
    match route(&key, &status.shard_layout) {
        RouteDecision::ToChild(uid) => {
            if uid != left && uid != right {
                return Err(ReshardingError::InvariantViolation);
            }
            store_update.set(uid, key, value);
            proof {
                assert forall|s: FlatStoreView|
                    ({
                        let before = apply_ops(s, ops0);
                        let after = #[trigger] apply_ops(s, store_update@);
                        after.statuses == before.statuses && after.deltas == before.deltas
                            && (forall|c: ShardUId|
                            c != left && c != right ==> shard_slice(after.values, c) == shard_slice(
                                before.values,
                                c,
                            )) && shard_slice(after.values, left) == apply_entry(
                            shard_slice(before.values, left),
                            kv,
                            vv,
                            layout,
                            left,
                            left,
                            right,
                        ) && shard_slice(after.values, right) == apply_entry(
                            shard_slice(before.values, right),
                            kv,
                            vv,
                            layout,
                            right,
                            left,
                            right,
                        )
                    }) by {
                    lemma_apply_ops_push(s, ops0, StoreOpView::SetValue(uid, kv, vv));
                    lemma_slice_set(apply_ops(s, ops0).values, uid, kv, vv);
                }
            }
            Ok(())
        },
        RouteDecision::ToBoth => {
            let key2 = key.clone();
            proof {
                assert(key2@ =~= kv);
            }
            let value2 = crate::status::clone_opt_value(&value);
            store_update.set(left, key, value);
            let ghost ops1 = store_update@;
            store_update.set(right, key2, value2);
            proof {
                assert forall|s: FlatStoreView|
                    ({
                        let before = apply_ops(s, ops0);
                        let after = #[trigger] apply_ops(s, store_update@);
                        after.statuses == before.statuses && after.deltas == before.deltas
                            && (forall|c: ShardUId|
                            c != left && c != right ==> shard_slice(after.values, c) == shard_slice(
                                before.values,
                                c,
                            )) && shard_slice(after.values, left) == apply_entry(
                            shard_slice(before.values, left),
                            kv,
                            vv,
                            layout,
                            left,
                            left,
                            right,
                        ) && shard_slice(after.values, right) == apply_entry(
                            shard_slice(before.values, right),
                            kv,
                            vv,
                            layout,
                            right,
                            left,
                            right,
                        )
                    }) by {
                    lemma_apply_ops_push(s, ops0, StoreOpView::SetValue(left, kv, vv));
                    lemma_slice_set(apply_ops(s, ops0).values, left, kv, vv);
                    lemma_apply_ops_push(s, ops1, StoreOpView::SetValue(right, kv, vv));
                    lemma_slice_set(apply_ops(s, ops1).values, right, kv, vv);
                }
            }
            Ok(())
        },
        RouteDecision::ToLeft => {
            store_update.set(left, key, value);
            proof {
                assert forall|s: FlatStoreView|
                    ({
                        let before = apply_ops(s, ops0);
                        let after = #[trigger] apply_ops(s, store_update@);
                        after.statuses == before.statuses && after.deltas == before.deltas
                            && (forall|c: ShardUId|
                            c != left && c != right ==> shard_slice(after.values, c) == shard_slice(
                                before.values,
                                c,
                            )) && shard_slice(after.values, left) == apply_entry(
                            shard_slice(before.values, left),
                            kv,
                            vv,
                            layout,
                            left,
                            left,
                            right,
                        ) && shard_slice(after.values, right) == apply_entry(
                            shard_slice(before.values, right),
                            kv,
                            vv,
                            layout,
                            right,
                            left,
                            right,
                        )
                    }) by {
                    lemma_apply_ops_push(s, ops0, StoreOpView::SetValue(left, kv, vv));
                    lemma_slice_set(apply_ops(s, ops0).values, left, kv, vv);
                }
            }
            Ok(())
        },
        RouteDecision::Fatal => Err(ReshardingError::InvariantViolation),
    }
}

/// Takes care of updating flat storage when a resharding event happens:
/// holds the store, the single in-progress event, the cancellation
/// controller and the configuration, and performs the split itself.
pub struct FlatStorageResharder {
    /// The flat store the engine reads and writes.
    pub store: FlatStore,
    /// The current active resharding event.
    pub resharding_event: Option<FlatStorageReshardingEventStatus>,
    /// Controls cancellation of background processing.
    pub controller: FlatStorageResharderController,
    /// Configuration for resharding.
    pub resharding_config: ReshardingConfig,
    /// The one-shot hand-off to the background worker: set when a split
    /// task has been published and not yet run.
    pub scheduled_split: bool,
    /// The block path the last split task walked, for specification
    /// purposes.
    pub split_path: Ghost<Seq<Seq<u8>>>,
}

impl FlatStorageResharder {
    /// A well-formed engine: a well-formed store, a positive batch budget,
    /// and well-formed parameters in the event slot.
    pub open spec fn wf(&self) -> bool {
        &&& self.store.wf()
        &&& self.resharding_config.batch_size >= 1
        &&& match self.resharding_event {
            Some(_) => split_params_wf(
                event_parent(self.resharding_event),
                event_status(self.resharding_event),
            ),
            None => true,
        }
    }

    /// Creates a new engine over a store, with no event in progress.
    pub fn new(
        store: FlatStore,
        controller: FlatStorageResharderController,
        resharding_config: ReshardingConfig,
    ) -> (r: FlatStorageResharder)
        requires
            store.wf(),
            resharding_config.batch_size >= 1,
        ensures
            r.wf(),
            r.store@ == store@,
            r.resharding_event is None,
            r.controller == controller,
            r.resharding_config == resharding_config,
            r.scheduled_split == false,
    {
        FlatStorageResharder {
            store,
            resharding_event: None,
            controller,
            resharding_config,
            scheduled_split: false,
            split_path: Ghost(Seq::empty()),
        }
    }

    /// Returns the current in-progress resharding event, if any.
    pub fn resharding_event(&self) -> (r: Option<FlatStorageReshardingEventStatus>)
        ensures
            opt_event_view(r) == opt_event_view(self.resharding_event),
    {
        match &self.resharding_event {
            Some(e) => Some(e.clone()),
            None => None,
        }
    }

    /// Returns an error if a resharding event is in progress.
    fn check_no_resharding_in_progress(&self) -> (r: Result<(), ReshardingError>)
        ensures
            r is Ok <==> self.resharding_event is None,
            r is Err ==> r.unwrap_err() == ReshardingError::ReshardingAlreadyInProgress,
    {
        match &self.resharding_event {
            Some(_) => Err(ReshardingError::ReshardingAlreadyInProgress),
            None => Ok(()),
        }
    }

    /// Retrieves the parent shard and the split status of the in-progress
    /// event, if one is set.
    pub fn get_parent_shard_and_status(&self) -> (r: Option<(ShardUId, SplittingParentStatus)>)
        ensures
            r is Some <==> self.resharding_event is Some,
            r is Some ==> r.unwrap().0 == event_parent(self.resharding_event) && r.unwrap().1@
                == event_status(self.resharding_event),
    {
        match &self.resharding_event {
            Some(FlatStorageReshardingEventStatus::SplitShard(parent_shard, st)) => Some(
                (*parent_shard, st.clone()),
            ),
            None => None,
        }
    }

    /// Publishes the split task: records the event and hands the one-shot
    /// request to the worker.
    fn schedule_split_shard(&mut self, parent_shard: ShardUId, status: &SplittingParentStatus)
        requires
            split_params_wf(parent_shard, status@),
            old(self).store.wf(),
            old(self).resharding_config.batch_size >= 1,
        ensures
            final(self).wf(),
            final(self).store@ == old(self).store@,
            final(self).controller == old(self).controller,
            final(self).resharding_config == old(self).resharding_config,
            opt_event_view(final(self).resharding_event) == Some(
                ReshardingEventView::SplitShard(parent_shard, status@),
            ),
            final(self).scheduled_split == true,
    {
        let event = FlatStorageReshardingEventStatus::SplitShard(parent_shard, status.clone());
        self.resharding_event = Some(event);
        self.scheduled_split = true;
    }

    /// Cleans up children shards flat storage's content; their status slots
    /// are kept.
    fn clean_children_shards(&mut self, status: &SplittingParentStatus)
        requires
            old(self).store.wf(),
        ensures
            final(self).store.wf(),
            final(self).store@.statuses == old(self).store@.statuses,
            final(self).store@.values == drop_shard_values(
                drop_shard_values(old(self).store@.values, status@.left_child_shard),
                status@.right_child_shard,
            ),
            final(self).store@.deltas == drop_shard_deltas(
                drop_shard_deltas(old(self).store@.deltas, status@.left_child_shard),
                status@.right_child_shard,
            ),
            final(self).resharding_event == old(self).resharding_event,
            final(self).controller == old(self).controller,
            final(self).resharding_config == old(self).resharding_config,
            final(self).scheduled_split == old(self).scheduled_split,
            final(self).split_path == old(self).split_path,
    {
        let ghost s0 = self.store@;
        let left = status.left_child_shard;
        let right = status.right_child_shard;
        let mut store_update = self.store.store_update();
        store_update.remove_all_deltas(left);
        store_update.remove_all_values(left);
        store_update.remove_all_deltas(right);
        store_update.remove_all_values(right);
        let ghost ops = store_update@;
        self.store.commit(store_update);
        proof {
            let o1 = StoreOpView::RemoveAllDeltas(left);
            let o2 = StoreOpView::RemoveAllValues(left);
            let o3 = StoreOpView::RemoveAllDeltas(right);
            let o4 = StoreOpView::RemoveAllValues(right);
            let e = Seq::<StoreOpView>::empty();
            assert(ops =~= e.push(o1).push(o2).push(o3).push(o4));
            lemma_apply_ops_push(s0, e.push(o1).push(o2).push(o3), o4);
            lemma_apply_ops_push(s0, e.push(o1).push(o2), o3);
            lemma_apply_ops_push(s0, e.push(o1), o2);
            lemma_apply_ops_push(s0, e, o1);
            assert(apply_ops(s0, e) == s0);
        }
    }

    /// Starts a resharding event: flips the parent and both children into
    /// their resharding statuses in one atomic batch and publishes the
    /// split task. Fails if another event is in progress or the parent is
    /// not ready, leaving everything unchanged.
    pub fn start_resharding(
        &mut self,
        event_type: ReshardingEventType,
        shard_layout: &crate::shard::ShardLayout,
    ) -> (r: Result<(), ReshardingError>)
        requires
            old(self).wf(),
            shard_layout.wf(),
            params_of(event_type).left_child_shard != params_of(event_type).right_child_shard,
            params_of(event_type).parent_shard != params_of(event_type).left_child_shard,
            params_of(event_type).parent_shard != params_of(event_type).right_child_shard,
        ensures
            final(self).wf(),
            final(self).controller == old(self).controller,
            final(self).resharding_config == old(self).resharding_config,
            r is Err ==> final(self).store@ == old(self).store@ && opt_event_view(
                final(self).resharding_event,
            ) == opt_event_view(old(self).resharding_event) && final(self).scheduled_split == old(
                self,
            ).scheduled_split,
            (r == Err::<(), ReshardingError>(ReshardingError::ReshardingAlreadyInProgress)) <==> old(
                self,
            ).resharding_event is Some,
            (r == Err::<(), ReshardingError>(ReshardingError::ParentNotReady)) <==> (old(
                self,
            ).resharding_event is None && !(old(self).store@.statuses[params_of(
                event_type,
            ).parent_shard] is Ready)),
            r is Ok <==> (old(self).resharding_event is None && old(self).store@.statuses[params_of(
                event_type,
            ).parent_shard] is Ready),
            r is Ok ==> ({
                let params = params_of(event_type);
                let parent = params.parent_shard;
                let head = old(self).store@.statuses[parent]->Ready_0;
                let stv = (SplittingParentStatusView {
                    left_child_shard: params.left_child_shard,
                    right_child_shard: params.right_child_shard,
                    shard_layout: shard_layout@,
                    block_hash: params.block_hash@,
                    prev_block_hash: params.prev_block_hash@,
                    flat_head: head,
                });
                &&& final(self).store@.statuses == old(self).store@.statuses.insert(
                    parent,
                    FlatStorageStatusView::Resharding(ReshardingStatusView::SplittingParent(stv)),
                ).insert(
                    params.left_child_shard,
                    FlatStorageStatusView::Resharding(ReshardingStatusView::CreatingChild),
                ).insert(
                    params.right_child_shard,
                    FlatStorageStatusView::Resharding(ReshardingStatusView::CreatingChild),
                )
                &&& final(self).store@.values == old(self).store@.values
                &&& final(self).store@.deltas == old(self).store@.deltas
                &&& opt_event_view(final(self).resharding_event) == Some(
                    ReshardingEventView::SplitShard(parent, stv),
                )
                &&& final(self).scheduled_split == true
            }),
    {
        match event_type {
            ReshardingEventType::SplitShard(params) => self.split_shard(params, shard_layout),
        }
    }

    /// Starts the event of splitting a parent shard flat storage into two
    /// children.
    fn split_shard(
        &mut self,
        split_params: ReshardingSplitShardParams,
        shard_layout: &crate::shard::ShardLayout,
    ) -> (r: Result<(), ReshardingError>)
        requires
            old(self).wf(),
            shard_layout.wf(),
            split_params.left_child_shard != split_params.right_child_shard,
            split_params.parent_shard != split_params.left_child_shard,
            split_params.parent_shard != split_params.right_child_shard,
        ensures
            final(self).wf(),
            final(self).controller == old(self).controller,
            final(self).resharding_config == old(self).resharding_config,
            r is Err ==> final(self).store@ == old(self).store@ && opt_event_view(
                final(self).resharding_event,
            ) == opt_event_view(old(self).resharding_event) && final(self).scheduled_split == old(
                self,
            ).scheduled_split,
            (r == Err::<(), ReshardingError>(ReshardingError::ReshardingAlreadyInProgress)) <==> old(
                self,
            ).resharding_event is Some,
            (r == Err::<(), ReshardingError>(ReshardingError::ParentNotReady)) <==> (old(
                self,
            ).resharding_event is None && !(old(self).store@.statuses[split_params.parent_shard]
                is Ready)),
            r is Ok <==> (old(self).resharding_event is None && old(
                self,
            ).store@.statuses[split_params.parent_shard] is Ready),
            r is Ok ==> ({
                let parent = split_params.parent_shard;
                let head = old(self).store@.statuses[parent]->Ready_0;
                let stv = (SplittingParentStatusView {
                    left_child_shard: split_params.left_child_shard,
                    right_child_shard: split_params.right_child_shard,
                    shard_layout: shard_layout@,
                    block_hash: split_params.block_hash@,
                    prev_block_hash: split_params.prev_block_hash@,
                    flat_head: head,
                });
                &&& final(self).store@.statuses == old(self).store@.statuses.insert(
                    parent,
                    FlatStorageStatusView::Resharding(ReshardingStatusView::SplittingParent(stv)),
                ).insert(
                    split_params.left_child_shard,
                    FlatStorageStatusView::Resharding(ReshardingStatusView::CreatingChild),
                ).insert(
                    split_params.right_child_shard,
                    FlatStorageStatusView::Resharding(ReshardingStatusView::CreatingChild),
                )
                &&& final(self).store@.values == old(self).store@.values
                &&& final(self).store@.deltas == old(self).store@.deltas
                &&& opt_event_view(final(self).resharding_event) == Some(
                    ReshardingEventView::SplitShard(parent, stv),
                )
                &&& final(self).scheduled_split == true
            }),
    {
        match self.check_no_resharding_in_progress() {
            Ok(_) => {},
            Err(e) => {
                return Err(e);
            },
        }
        let parent_shard = split_params.parent_shard;
        let left_child_shard = split_params.left_child_shard;
        let right_child_shard = split_params.right_child_shard;
        let ghost s0 = self.store@;
        let flat_head = match retrieve_shard_flat_head(parent_shard, &self.store) {
            Ok(h) => h,
            Err(e) => {
                return Err(e);
            },
        };
        let status = SplittingParentStatus {
            left_child_shard,
            right_child_shard,
            shard_layout: shard_layout.clone_layout(),
            block_hash: split_params.block_hash,
            prev_block_hash: split_params.prev_block_hash,
            flat_head,
        };
        let mut store_update = self.store.store_update();
        store_update.set_flat_storage_status(
            parent_shard,
            FlatStorageStatus::Resharding(FlatStorageReshardingStatus::SplittingParent(
                status.clone(),
            )),
        );
        store_update.set_flat_storage_status(
            left_child_shard,
            FlatStorageStatus::Resharding(FlatStorageReshardingStatus::CreatingChild),
        );
        store_update.set_flat_storage_status(
            right_child_shard,
            FlatStorageStatus::Resharding(FlatStorageReshardingStatus::CreatingChild),
        );
        let ghost ops = store_update@;
        self.store.commit(store_update);
        proof {
            let o1 = StoreOpView::SetStatus(
                parent_shard,
                FlatStorageStatusView::Resharding(ReshardingStatusView::SplittingParent(status@)),
            );
            let o2 = StoreOpView::SetStatus(
                left_child_shard,
                FlatStorageStatusView::Resharding(ReshardingStatusView::CreatingChild),
            );
            let o3 = StoreOpView::SetStatus(
                right_child_shard,
                FlatStorageStatusView::Resharding(ReshardingStatusView::CreatingChild),
            );
            let e = Seq::<StoreOpView>::empty();
            assert(ops =~= e.push(o1).push(o2).push(o3));
            lemma_apply_ops_push(s0, e.push(o1).push(o2), o3);
            lemma_apply_ops_push(s0, e.push(o1), o2);
            lemma_apply_ops_push(s0, e, o1);
            assert(apply_ops(s0, e) == s0);
        }
        self.schedule_split_shard(parent_shard, &status);
        Ok(())
    }

    /// Resumes a resharding event that was interrupted by a node restart:
    /// for a splitting parent, wipes both children's contents to guarantee
    /// a clean slate and republishes the split task. Resuming a child's
    /// catch-up belongs to the downstream catch-up stage.
    pub fn resume(
        &mut self,
        shard_uid: ShardUId,
        status: &FlatStorageReshardingStatus,
    ) -> (r: Result<(), ReshardingError>)
        requires
            old(self).wf(),
            !(status@ is CatchingUp),
            status@ is SplittingParent ==> split_params_wf(shard_uid, status@->SplittingParent_0),
        ensures
            final(self).wf(),
            final(self).controller == old(self).controller,
            final(self).resharding_config == old(self).resharding_config,
            status@ is CreatingChild ==> r is Ok && final(self).store@ == old(self).store@
                && opt_event_view(final(self).resharding_event) == opt_event_view(
                old(self).resharding_event,
            ) && final(self).scheduled_split == old(self).scheduled_split,
            status@ is SplittingParent ==> ({
                let stv = status@->SplittingParent_0;
                &&& (r is Err <==> old(self).resharding_event is Some)
                &&& r is Err ==> r.unwrap_err() == ReshardingError::ReshardingAlreadyInProgress
                    && final(self).store@ == old(self).store@ && opt_event_view(
                    final(self).resharding_event,
                ) == opt_event_view(old(self).resharding_event) && final(self).scheduled_split
                    == old(self).scheduled_split
                &&& r is Ok ==> final(self).store@.statuses == old(self).store@.statuses
                    && final(self).store@.values == drop_shard_values(
                    drop_shard_values(old(self).store@.values, stv.left_child_shard),
                    stv.right_child_shard,
                ) && final(self).store@.deltas == drop_shard_deltas(
                    drop_shard_deltas(old(self).store@.deltas, stv.left_child_shard),
                    stv.right_child_shard,
                ) && opt_event_view(final(self).resharding_event) == Some(
                    ReshardingEventView::SplitShard(shard_uid, stv),
                ) && final(self).scheduled_split == true
            }),
    {
        match status {
            FlatStorageReshardingStatus::CreatingChild => {
                // Nothing to do here because the parent will take care of
                // resuming work.
                Ok(())
            },
            FlatStorageReshardingStatus::SplittingParent(st) => {
                let parent_shard = shard_uid;
                match self.check_no_resharding_in_progress() {
                    Ok(_) => {},
                    Err(e) => {
                        return Err(e);
                    },
                }
                // On resume flat storage status is already set. However, we
                // don't know the current state of children shards, so it's
                // better to clean them.
                self.clean_children_shards(st);
                self.schedule_split_shard(parent_shard, st);
                Ok(())
            },
            FlatStorageReshardingStatus::CatchingUp(_) => {
                // Catch-up resumption belongs to the downstream catch-up
                // stage; the caller keeps such shards away from the split
                // engine.
                proof {
                    assert(false);
                }
                Err(ReshardingError::InvariantViolation)
            },
        }
    }
}


/// Every stream element up to position `n` that is an entry carries a key
/// the router can place.
pub open spec fn items_ok_to(
    sv: Seq<IterItemView>,
    n: int,
    layout: crate::shard::ShardLayoutView,
    left: ShardUId,
    right: ShardUId,
) -> bool {
    forall|m: int|
        0 <= m < n ==> match #[trigger] sv[m] {
            IterItemView::Entry(k, _) => key_ok(k, layout, left, right),
            IterItemView::CommitPoint => true,
        }
}

/// Under the delta half of `split_keys_ok`, every entry of the deltas part
/// of the stream carries a placeable key.
proof fn lemma_deltas_stream_entry_ok(
    d: Map<(ShardUId, Seq<u8>), DeltaView>,
    parent: ShardUId,
    bs: Seq<Seq<u8>>,
    layout: crate::shard::ShardLayoutView,
    left: ShardUId,
    right: ShardUId,
    p: int,
)
    requires
        forall|i: int, j: int|
            0 <= i < bs.len() && 0 <= j < d[(parent, #[trigger] bs[i])].changes.len() ==> key_ok(
                (#[trigger] d[(parent, bs[i])].changes[j]).0,
                layout,
                left,
                right,
            ),
        0 <= p < deltas_stream(d, parent, bs).len(),
    ensures
        match deltas_stream(d, parent, bs)[p] {
            IterItemView::Entry(k, _) => key_ok(k, layout, left, right),
            IterItemView::CommitPoint => true,
        },
    decreases bs.len(),
{
    let full = deltas_stream(d, parent, bs);
    if bs.len() > 0 {
        let prefix = deltas_stream(d, parent, bs.drop_last());
        let changes = d[(parent, bs.last())].changes;
        let mid = prefix + seq![IterItemView::CommitPoint];
        assert(full == mid + crate::stream::changes_stream(changes));
        if p < prefix.len() {
            assert(full[p] == prefix[p]);
            assert(forall|i: int|
                0 <= i < bs.drop_last().len() ==> #[trigger] bs.drop_last()[i] == bs[i]);
            lemma_deltas_stream_entry_ok(d, parent, bs.drop_last(), layout, left, right, p);
        } else if p == prefix.len() {
            assert(full[p] == IterItemView::CommitPoint);
        } else {
            let j = p - prefix.len() - 1;
            assert(full[p] == crate::stream::changes_stream(changes)[j]);
            assert(crate::stream::changes_stream(changes)[j] == IterItemView::Entry(
                changes[j].0,
                changes[j].1,
            ));
            assert(bs.last() == bs[bs.len() - 1]);
            assert(key_ok(d[(parent, bs[bs.len() - 1])].changes[j].0, layout, left, right));
        }
    }
}

/// Each change of each delta along the path appears as an entry of the
/// deltas part of the stream.
proof fn lemma_change_in_deltas_stream(
    d: Map<(ShardUId, Seq<u8>), DeltaView>,
    parent: ShardUId,
    bs: Seq<Seq<u8>>,
    i: int,
    j: int,
)
    requires
        0 <= i < bs.len(),
        0 <= j < d[(parent, bs[i])].changes.len(),
    ensures
        exists|p: int|
            0 <= p < deltas_stream(d, parent, bs).len() && #[trigger] deltas_stream(
                d,
                parent,
                bs,
            )[p] == IterItemView::Entry(
                d[(parent, bs[i])].changes[j].0,
                d[(parent, bs[i])].changes[j].1,
            ),
    decreases bs.len(),
{
    let full = deltas_stream(d, parent, bs);
    let prefix = deltas_stream(d, parent, bs.drop_last());
    let changes = d[(parent, bs.last())].changes;
    let mid = prefix + seq![IterItemView::CommitPoint];
    assert(full == mid + crate::stream::changes_stream(changes));
    if i == bs.len() - 1 {
        let p = prefix.len() + 1 + j;
        assert(full[p] == crate::stream::changes_stream(changes)[j]);
        assert(full[p] == IterItemView::Entry(changes[j].0, changes[j].1));
        assert(bs.last() == bs[i]);
    } else {
        assert(bs.drop_last()[i] == bs[i]);
        lemma_change_in_deltas_stream(d, parent, bs.drop_last(), i, j);
        let p0 = choose|p0: int|
            0 <= p0 < prefix.len() && #[trigger] prefix[p0] == IterItemView::Entry(
                d[(parent, bs.drop_last()[i])].changes[j].0,
                d[(parent, bs.drop_last()[i])].changes[j].1,
            );
        assert(full[p0] == prefix[p0]);
    }
}

/// The size an entry's value contributes to the batch budget.
fn value_size_or_zero(v: &Option<FlatStateValue>) -> (r: usize) {
    match v {
        Some(value) => value.size(),
        None => 0,
    }
}

impl FlatStorageResharder {
    /// Task to perform the actual split of a flat storage shard: copies
    /// every key-value pair of the parent to the correct child in batches,
    /// then finalizes on success or rolls back on failure or cancellation.
    pub fn split_shard_task(&mut self) -> (r: FlatStorageReshardingTaskStatus)
        requires
            old(self).wf(),
            old(self).resharding_event is Some,
        ensures
            final(self).wf(),
            final(self).resharding_event is None,
            final(self).scheduled_split == false,
            final(self).controller == old(self).controller,
            final(self).resharding_config == old(self).resharding_config,
            ({
                let parent = event_parent(old(self).resharding_event);
                let stv = event_status(old(self).resharding_event);
                let left = stv.left_child_shard;
                let right = stv.right_child_shard;
                let layout = stv.shard_layout;
                let s0 = old(self).store@;
                let pv = shard_slice(s0.values, parent);
                &&& ((r is Cancelled) <==> !old(self).controller.handle.running)
                &&& ((r is Successful) <==> (old(self).controller.handle.running && is_chain_path(
                    s0.deltas,
                    parent,
                    stv.flat_head.hash,
                    stv.block_hash,
                    final(self).split_path@,
                ) && split_keys_ok(
                    pv,
                    s0.deltas,
                    parent,
                    final(self).split_path@,
                    layout,
                    left,
                    right,
                )))
                &&& ((old(self).controller.handle.running && (exists|bs2: Seq<Seq<u8>>|
                    is_chain_path(s0.deltas, parent, stv.flat_head.hash, stv.block_hash, bs2)
                        && crate::stream::heights_increasing(s0.deltas, parent, bs2)
                        && split_keys_ok(pv, s0.deltas, parent, bs2, layout, left, right)))
                    ==> r is Successful)
                &&& (r matches FlatStorageReshardingTaskStatus::Successful { num_batches_done }
                    ==> num_batches_done >= 1)
                &&& (r is Successful ==> ({
                    let bs = final(self).split_path@;
                    &&& final(self).store@.statuses == s0.statuses.insert(
                        parent,
                        FlatStorageStatusView::Empty,
                    ).insert(
                        left,
                        FlatStorageStatusView::Resharding(ReshardingStatusView::CatchingUp(
                            stv.flat_head.hash,
                        )),
                    ).insert(
                        right,
                        FlatStorageStatusView::Resharding(ReshardingStatusView::CatchingUp(
                            stv.flat_head.hash,
                        )),
                    )
                    &&& final(self).store@.deltas == drop_shard_deltas(s0.deltas, parent)
                    &&& shard_slice(final(self).store@.values, parent) == Map::<
                        Seq<u8>,
                        FlatValueView,
                    >::empty()
                    &&& shard_slice(final(self).store@.values, left) == child_result(
                        shard_slice(s0.values, left),
                        pv,
                        s0.deltas,
                        parent,
                        bs,
                        layout,
                        left,
                        left,
                        right,
                    )
                    &&& shard_slice(final(self).store@.values, right) == child_result(
                        shard_slice(s0.values, right),
                        pv,
                        s0.deltas,
                        parent,
                        bs,
                        layout,
                        right,
                        left,
                        right,
                    )
                    &&& forall|c: ShardUId|
                        c != parent && c != left && c != right ==> shard_slice(
                            final(self).store@.values,
                            c,
                        ) == shard_slice(s0.values, c)
                }))
                &&& ((r is Failed || r is Cancelled) ==> ({
                    &&& final(self).store@.statuses == s0.statuses.insert(
                        parent,
                        FlatStorageStatusView::Ready(stv.flat_head),
                    ).insert(left, FlatStorageStatusView::Empty).insert(
                        right,
                        FlatStorageStatusView::Empty,
                    )
                    &&& final(self).store@.deltas == drop_shard_deltas(
                        drop_shard_deltas(s0.deltas, left),
                        right,
                    )
                    &&& shard_slice(final(self).store@.values, left) == Map::<
                        Seq<u8>,
                        FlatValueView,
                    >::empty()
                    &&& shard_slice(final(self).store@.values, right) == Map::<
                        Seq<u8>,
                        FlatValueView,
                    >::empty()
                    &&& forall|c: ShardUId|
                        c != left && c != right ==> shard_slice(final(self).store@.values, c)
                            == shard_slice(s0.values, c)
                }))
            }),
    {
        self.scheduled_split = false;
        let ghost s0 = self.store@;
        let ghost parent = event_parent(self.resharding_event);
        let ghost stv = event_status(self.resharding_event);
        let task_status = self.split_shard_task_impl();
        let ghost s1 = self.store@;
        self.split_shard_task_postprocessing(task_status);
        proof {
            let left = stv.left_child_shard;
            let right = stv.right_child_shard;
            match task_status {
                FlatStorageReshardingTaskStatus::Successful { .. } => {
                    lemma_slice_drop(s1.values, parent);
                    assert(shard_slice(self.store@.values, left) == shard_slice(s1.values, left));
                    assert(shard_slice(self.store@.values, right) == shard_slice(s1.values, right));
                    assert forall|c: ShardUId| c != parent && c != left && c != right implies
                        shard_slice(self.store@.values, c) == shard_slice(s0.values, c) by {
                        lemma_slice_drop(s1.values, parent);
                    }
                },
                _ => {
                    lemma_slice_drop(s1.values, left);
                    lemma_slice_drop(drop_shard_values(s1.values, left), right);
                    assert forall|c: ShardUId| c != left && c != right implies shard_slice(
                        self.store@.values,
                        c,
                    ) == shard_slice(s0.values, c) by {
                        lemma_slice_drop(s1.values, left);
                        lemma_slice_drop(drop_shard_values(s1.values, left), right);
                    }
                },
            }
        }
        task_status
    }

    /// Performs the bulk of the split task: walks the merged stream of the
    /// parent and copies each entry to the children it belongs to, one
    /// committed batch at a time, breaking batches at commit points.
    #[verifier::loop_isolation(true)]
    #[verifier::rlimit(100)]
    fn split_shard_task_impl(&mut self) -> (r: FlatStorageReshardingTaskStatus)
        requires
            old(self).wf(),
            old(self).resharding_event is Some,
        ensures
            final(self).wf(),
            final(self).resharding_event == old(self).resharding_event,
            final(self).controller == old(self).controller,
            final(self).resharding_config == old(self).resharding_config,
            final(self).scheduled_split == old(self).scheduled_split,
            ({
                let parent = event_parent(old(self).resharding_event);
                let stv = event_status(old(self).resharding_event);
                let left = stv.left_child_shard;
                let right = stv.right_child_shard;
                let layout = stv.shard_layout;
                let s0 = old(self).store@;
                let pv = shard_slice(s0.values, parent);
                &&& ((r is Cancelled) <==> !old(self).controller.handle.running)
                &&& ((r is Successful) <==> (old(self).controller.handle.running && is_chain_path(
                    s0.deltas,
                    parent,
                    stv.flat_head.hash,
                    stv.block_hash,
                    final(self).split_path@,
                ) && split_keys_ok(
                    pv,
                    s0.deltas,
                    parent,
                    final(self).split_path@,
                    layout,
                    left,
                    right,
                )))
                &&& ((old(self).controller.handle.running && (exists|bs2: Seq<Seq<u8>>|
                    is_chain_path(s0.deltas, parent, stv.flat_head.hash, stv.block_hash, bs2)
                        && crate::stream::heights_increasing(s0.deltas, parent, bs2)
                        && split_keys_ok(pv, s0.deltas, parent, bs2, layout, left, right)))
                    ==> r is Successful)
                &&& (r matches FlatStorageReshardingTaskStatus::Successful { num_batches_done }
                    ==> num_batches_done >= 1)
                &&& (r is Cancelled ==> final(self).store@ == s0)
                &&& final(self).store@.statuses == s0.statuses
                &&& final(self).store@.deltas == s0.deltas
                &&& forall|c: ShardUId|
                    c != left && c != right ==> shard_slice(final(self).store@.values, c)
                        == shard_slice(s0.values, c)
                &&& (r is Successful ==> ({
                    let bs = final(self).split_path@;
                    &&& shard_slice(final(self).store@.values, left) == child_result(
                        shard_slice(s0.values, left),
                        pv,
                        s0.deltas,
                        parent,
                        bs,
                        layout,
                        left,
                        left,
                        right,
                    )
                    &&& shard_slice(final(self).store@.values, right) == child_result(
                        shard_slice(s0.values, right),
                        pv,
                        s0.deltas,
                        parent,
                        bs,
                        layout,
                        right,
                        left,
                        right,
                    )
                }))
            }),
    {
        if self.controller.is_cancelled() {
            return FlatStorageReshardingTaskStatus::Cancelled;
        }
        // Determines after how many bytes worth of key-values the process
        // stops to commit changes and to check cancellation.
        let batch_size = self.resharding_config.batch_size;
        let (parent_shard, status) = match self.get_parent_shard_and_status() {
            Some(t) => t,
            None => {
                proof {
                    assert(false);
                }
                return FlatStorageReshardingTaskStatus::Failed;
            },
        };
        let ghost s0 = self.store@;
        let ghost stv = status@;
        let ghost layout = stv.shard_layout;
        let left = status.left_child_shard;
        let right = status.right_child_shard;
        let ghost pv = shard_slice(s0.values, parent_shard);
        // Prepare the iterator over the parent's flat storage and deltas.
        let iter = match flat_storage_iterator(
            &self.store,
            parent_shard,
            &status.block_hash,
            &status.flat_head,
        ) {
            Some(t) => t,
            None => {
                // The chain between the flat head and the resharding block
                // cannot be walked: storage is inconsistent.
                self.split_path = Ghost(Seq::empty());
                proof {
                    let head = stv.flat_head.hash;
                    let target = stv.block_hash;
                    if target == head {
                        assert(is_chain_path(
                            s0.deltas,
                            parent_shard,
                            head,
                            target,
                            Seq::empty(),
                        ));
                        assert(crate::stream::heights_increasing(
                            s0.deltas,
                            parent_shard,
                            Seq::empty(),
                        ));
                        assert(crate::stream::walkable_path_exists(
                            s0.deltas,
                            parent_shard,
                            head,
                            target,
                        ));
                        assert(false);
                    }
                    assert(!is_chain_path(s0.deltas, parent_shard, head, target, Seq::empty()));
                    if exists|bs2: Seq<Seq<u8>>|
                        is_chain_path(s0.deltas, parent_shard, head, target, bs2)
                            && crate::stream::heights_increasing(s0.deltas, parent_shard, bs2)
                            && split_keys_ok(
                            pv,
                            s0.deltas,
                            parent_shard,
                            bs2,
                            layout,
                            left,
                            right,
                        ) {
                        let bs2 = choose|bs2: Seq<Seq<u8>>|
                            is_chain_path(s0.deltas, parent_shard, head, target, bs2)
                                && crate::stream::heights_increasing(s0.deltas, parent_shard, bs2)
                                && split_keys_ok(
                                pv,
                                s0.deltas,
                                parent_shard,
                                bs2,
                                layout,
                                left,
                                right,
                            );
                        assert(crate::stream::walkable_path_exists(
                            s0.deltas,
                            parent_shard,
                            head,
                            target,
                        ));
                        assert(false);
                    }
                }
                return FlatStorageReshardingTaskStatus::Failed;
            },
        };
        let items = iter.0;
        let ghost basev = iter.1@;
        let ghost bs = iter.2@;
        self.split_path = Ghost(bs);
        let ghost sv = item_views(items@);
        let ghost pre_left = shard_slice(s0.values, left);
        let ghost pre_right = shard_slice(s0.values, right);
        let mut num_batches_done: usize = 0;
        let mut iter_exhausted = false;
        let mut pos: usize = 0;
        proof {
            assert(sv.take(0) =~= Seq::<IterItemView>::empty());
        }
        loop
            invariant
                self.wf(),
                self.resharding_event == old(self).resharding_event,
                self.controller == old(self).controller,
                self.resharding_config == old(self).resharding_config,
                self.scheduled_split == old(self).scheduled_split,
                self.split_path@ == bs,
                old(self).controller.handle.running,
                self.resharding_event is Some,
                s0 == old(self).store@,
                event_parent(old(self).resharding_event) == parent_shard,
                event_status(old(self).resharding_event) == stv,
                batch_size == old(self).resharding_config.batch_size,
                batch_size >= 1,
                left == stv.left_child_shard,
                right == stv.right_child_shard,
                left != right,
                layout == stv.shard_layout,
                layout_wf(layout),
                status@ == stv,
                status.left_child_shard == left,
                status.right_child_shard == right,
                sv == item_views(items@),
                sv == base_stream(basev) + deltas_stream(s0.deltas, parent_shard, bs),
                is_chain_path(s0.deltas, parent_shard, stv.flat_head.hash, stv.block_hash, bs),
                pv == shard_slice(s0.values, parent_shard),
                pre_left == shard_slice(s0.values, left),
                pre_right == shard_slice(s0.values, right),
                forall|a: int, b: int|
                    0 <= a < b < basev.len() ==> (#[trigger] basev[a]).0@ != (
                    #[trigger] basev[b]).0@,
                forall|j: int|
                    0 <= j < basev.len() ==> s0.values.dom().contains(
                        (parent_shard, (#[trigger] basev[j]).0@),
                    ) && basev[j].1@ == s0.values[(parent_shard, basev[j].0@)],
                forall|k: Seq<u8>|
                    s0.values.dom().contains((parent_shard, k)) ==> crate::store::key_listed(
                        basev,
                        k,
                    ),
                0 <= pos <= sv.len(),
                !iter_exhausted,
                items_ok_to(sv, pos as int, layout, left, right),
                self.store@.statuses == s0.statuses,
                self.store@.deltas == s0.deltas,
                forall|c: ShardUId|
                    c != left && c != right ==> shard_slice(self.store@.values, c) == shard_slice(
                        s0.values,
                        c,
                    ),
                shard_slice(self.store@.values, left) == apply_items(
                    pre_left,
                    sv.take(pos as int),
                    layout,
                    left,
                    left,
                    right,
                ),
                shard_slice(self.store@.values, right) == apply_items(
                    pre_right,
                    sv.take(pos as int),
                    layout,
                    right,
                    left,
                    right,
                ),
            decreases sv.len() - pos,
        {
            let ghost pos0 = pos;
            let mut store_update = self.store.store_update();
            let mut processed_size: usize = 0;
            // Process a batch worth of key-value pairs.
            loop
                invariant_except_break
                    self.wf(),
                    self.resharding_event == old(self).resharding_event,
                    self.controller == old(self).controller,
                    self.resharding_config == old(self).resharding_config,
                    self.scheduled_split == old(self).scheduled_split,
                    self.split_path@ == bs,
                    old(self).controller.handle.running,
                    self.resharding_event is Some,
                    s0 == old(self).store@,
                    event_parent(old(self).resharding_event) == parent_shard,
                    event_status(old(self).resharding_event) == stv,
                    left == stv.left_child_shard,
                    right == stv.right_child_shard,
                    sv == item_views(items@),
                    sv == base_stream(basev) + deltas_stream(s0.deltas, parent_shard, bs),
                    is_chain_path(s0.deltas, parent_shard, stv.flat_head.hash, stv.block_hash, bs),
                    pv == shard_slice(s0.values, parent_shard),
                    pre_left == shard_slice(s0.values, left),
                    pre_right == shard_slice(s0.values, right),
                    layout == stv.shard_layout,
                    layout_wf(layout),
                    forall|j: int|
                        0 <= j < basev.len() ==> s0.values.dom().contains(
                            (parent_shard, (#[trigger] basev[j]).0@),
                        ) && basev[j].1@ == s0.values[(parent_shard, basev[j].0@)],
                    self.store@.statuses == s0.statuses,
                    self.store@.deltas == s0.deltas,
                    forall|c: ShardUId|
                        c != left && c != right ==> shard_slice(self.store@.values, c)
                            == shard_slice(s0.values, c),
                    pos0 <= pos <= sv.len(),
                    layout_wf(layout),
                    left != right,
                    status@ == stv,
                    status.left_child_shard == left,
                    status.right_child_shard == right,
                    batch_size >= 1,
                    !iter_exhausted,
                    pos > pos0 || processed_size == 0,
                    items_ok_to(sv, pos as int, layout, left, right),
                    apply_ops(self.store@, store_update@).statuses == self.store@.statuses,
                    apply_ops(self.store@, store_update@).deltas == self.store@.deltas,
                    forall|c: ShardUId|
                        c != left && c != right ==> shard_slice(
                            apply_ops(self.store@, store_update@).values,
                            c,
                        ) == shard_slice(self.store@.values, c),
                    shard_slice(apply_ops(self.store@, store_update@).values, left) == apply_items(
                        pre_left,
                        sv.take(pos as int),
                        layout,
                        left,
                        left,
                        right,
                    ),
                    shard_slice(apply_ops(self.store@, store_update@).values, right) == apply_items(
                        pre_right,
                        sv.take(pos as int),
                        layout,
                        right,
                        left,
                        right,
                    ),
                ensures
                    pos0 <= pos <= sv.len(),
                    pos > pos0 || iter_exhausted,
                    iter_exhausted ==> pos == sv.len(),
                    items_ok_to(sv, pos as int, layout, left, right),
                    apply_ops(self.store@, store_update@).statuses == self.store@.statuses,
                    apply_ops(self.store@, store_update@).deltas == self.store@.deltas,
                    forall|c: ShardUId|
                        c != left && c != right ==> shard_slice(
                            apply_ops(self.store@, store_update@).values,
                            c,
                        ) == shard_slice(self.store@.values, c),
                    shard_slice(apply_ops(self.store@, store_update@).values, left) == apply_items(
                        pre_left,
                        sv.take(pos as int),
                        layout,
                        left,
                        left,
                        right,
                    ),
                    shard_slice(apply_ops(self.store@, store_update@).values, right) == apply_items(
                        pre_right,
                        sv.take(pos as int),
                        layout,
                        right,
                        left,
                        right,
                    ),
                decreases sv.len() - pos,
            {
                if !(processed_size < batch_size) {
                    break;
                }
                if pos == items.len() {
                    iter_exhausted = true;
                    break;
                }
                let ghost preu = store_update@;
                let ghost prev_left = apply_items(pre_left, sv.take(pos as int), layout, left, left, right);
                let ghost prev_right = apply_items(pre_right, sv.take(pos as int), layout, right, left, right);
                proof {
                    assert(sv.take(pos + 1).drop_last() =~= sv.take(pos as int));
                    assert(sv.take(pos + 1).last() == sv[pos as int]);
                }
                match &items[pos] {
                    FlatStorageAndDeltaIterItem::CommitPoint => {
                        // Stop iterating and commit the batch.
                        proof {
                            assert(sv[pos as int] == IterItemView::CommitPoint);
                        }
                        pos = pos + 1;
                        break;
                    },
                    FlatStorageAndDeltaIterItem::Entry(k, v) => {
                        let key = k.clone();
                        let value = crate::status::clone_opt_value(v);
                        proof {
                            assert(key@ =~= k@);
                            assert(sv[pos as int] == IterItemView::Entry(k@, opt_value_view(*v)));
                            assert(opt_value_view(value) == opt_value_view(*v));
                        }
                        processed_size = add_sat(
                            processed_size,
                            add_sat(key.len(), value_size_or_zero(&value)),
                        );
                        let ghost kv = key@;
                        let ghost vv = opt_value_view(value);
                        match shard_split_handle_key_value(key, value, &mut store_update, &status) {
                            Ok(_) => {
                                proof {
                                    assert(apply_ops(self.store@, store_update@).statuses
                                        == apply_ops(self.store@, preu).statuses);
                                    assert(shard_slice(
                                        apply_ops(self.store@, store_update@).values,
                                        left,
                                    ) == apply_entry(prev_left, kv, vv, layout, left, left, right));
                                    assert(shard_slice(
                                        apply_ops(self.store@, store_update@).values,
                                        right,
                                    ) == apply_entry(prev_right, kv, vv, layout, right, left, right));
                                    assert(apply_items(
                                        pre_left,
                                        sv.take(pos + 1),
                                        layout,
                                        left,
                                        left,
                                        right,
                                    ) == apply_entry(prev_left, kv, vv, layout, left, left, right));
                                    assert(apply_items(
                                        pre_right,
                                        sv.take(pos + 1),
                                        layout,
                                        right,
                                        left,
                                        right,
                                    ) == apply_entry(prev_right, kv, vv, layout, right, left, right));
                                }
                                pos = pos + 1;
                            },
                            Err(_) => {
                                // A key could not be placed: the split must
                                // abort; the pending batch is discarded.
                                proof {
                                    assert(sv[pos as int] == IterItemView::Entry(kv, vv));
                                    assert(!key_ok(kv, layout, left, right));
                                    if split_keys_ok(pv, s0.deltas, parent_shard, bs, layout, left, right) {
                                        lemma_split_keys_ok_entry(
                                            pv,
                                            s0.deltas,
                                            parent_shard,
                                            bs,
                                            layout,
                                            left,
                                            right,
                                            basev,
                                            s0,
                                            pos as int,
                                        );
                                        assert(false);
                                    }
                                    let head = stv.flat_head.hash;
                                    let target = stv.block_hash;
                                    if exists|bs2: Seq<Seq<u8>>|
                                        is_chain_path(s0.deltas, parent_shard, head, target, bs2)
                                            && crate::stream::heights_increasing(
                                            s0.deltas,
                                            parent_shard,
                                            bs2,
                                        ) && split_keys_ok(
                                            pv,
                                            s0.deltas,
                                            parent_shard,
                                            bs2,
                                            layout,
                                            left,
                                            right,
                                        ) {
                                        let bs2 = choose|bs2: Seq<Seq<u8>>|
                                            is_chain_path(s0.deltas, parent_shard, head, target, bs2)
                                                && crate::stream::heights_increasing(
                                                s0.deltas,
                                                parent_shard,
                                                bs2,
                                            ) && split_keys_ok(
                                                pv,
                                                s0.deltas,
                                                parent_shard,
                                                bs2,
                                                layout,
                                                left,
                                                right,
                                            );
                                        crate::semantics::lemma_chain_path_unique(
                                            s0.deltas,
                                            parent_shard,
                                            head,
                                            target,
                                            bs2,
                                            bs,
                                        );
                                        assert(false);
                                    }
                                }
                                return FlatStorageReshardingTaskStatus::Failed;
                            },
                        }
                    },
                }
            }
            // Make a pause to commit and check if the routine should stop.
            self.store.commit(store_update);
            num_batches_done = if num_batches_done < usize::MAX {
                num_batches_done + 1
            } else {
                num_batches_done
            };
            // If the iterator is exhausted the copy is complete.
            if iter_exhausted {
                proof {
                    assert(sv.take(sv.len() as int) =~= sv);
                    assert(sv == base_stream(basev) + deltas_stream(s0.deltas, parent_shard, bs));
                    lemma_pv_facts(pv, s0, parent_shard, basev);
                    crate::semantics::lemma_apply_items_full(
                        pre_left,
                        basev,
                        pv,
                        s0.deltas,
                        parent_shard,
                        bs,
                        layout,
                        left,
                        left,
                        right,
                    );
                    crate::semantics::lemma_apply_items_full(
                        pre_right,
                        basev,
                        pv,
                        s0.deltas,
                        parent_shard,
                        bs,
                        layout,
                        right,
                        left,
                        right,
                    );
                    lemma_all_items_ok_to_split_keys_ok(
                        pv,
                        s0.deltas,
                        parent_shard,
                        bs,
                        layout,
                        left,
                        right,
                        basev,
                        s0,
                        sv,
                    );
                }
                return FlatStorageReshardingTaskStatus::Successful { num_batches_done };
            }
            if self.controller.is_cancelled() {
                return FlatStorageReshardingTaskStatus::Cancelled;
            }
        }
    }

    /// Post-processing of the split task: on success, removes the parent's
    /// flat storage and flips both children to catch-up; on failure or
    /// cancellation, resets the parent to ready and erases both children.
    /// The in-progress event slot is cleared last.
    fn split_shard_task_postprocessing(&mut self, task_status: FlatStorageReshardingTaskStatus)
        requires
            old(self).wf(),
            old(self).resharding_event is Some,
        ensures
            final(self).wf(),
            final(self).resharding_event is None,
            final(self).controller == old(self).controller,
            final(self).resharding_config == old(self).resharding_config,
            final(self).scheduled_split == old(self).scheduled_split,
            final(self).split_path == old(self).split_path,
            ({
                let parent = event_parent(old(self).resharding_event);
                let stv = event_status(old(self).resharding_event);
                let left = stv.left_child_shard;
                let right = stv.right_child_shard;
                let s1 = old(self).store@;
                match task_status {
                    FlatStorageReshardingTaskStatus::Successful { .. } => {
                        &&& final(self).store@.statuses == s1.statuses.insert(
                            parent,
                            FlatStorageStatusView::Empty,
                        ).insert(
                            left,
                            FlatStorageStatusView::Resharding(ReshardingStatusView::CatchingUp(
                                stv.flat_head.hash,
                            )),
                        ).insert(
                            right,
                            FlatStorageStatusView::Resharding(ReshardingStatusView::CatchingUp(
                                stv.flat_head.hash,
                            )),
                        )
                        &&& final(self).store@.values == drop_shard_values(s1.values, parent)
                        &&& final(self).store@.deltas == drop_shard_deltas(s1.deltas, parent)
                    },
                    _ => {
                        &&& final(self).store@.statuses == s1.statuses.insert(
                            parent,
                            FlatStorageStatusView::Ready(stv.flat_head),
                        ).insert(left, FlatStorageStatusView::Empty).insert(
                            right,
                            FlatStorageStatusView::Empty,
                        )
                        &&& final(self).store@.values == drop_shard_values(
                            drop_shard_values(s1.values, left),
                            right,
                        )
                        &&& final(self).store@.deltas == drop_shard_deltas(
                            drop_shard_deltas(s1.deltas, left),
                            right,
                        )
                    },
                }
            }),
    {
        let (parent_shard, split_status) = match self.get_parent_shard_and_status() {
            Some(t) => t,
            None => {
                proof {
                    assert(false);
                }
                return;
            },
        };
        let ghost s1 = self.store@;
        let left_child_shard = split_status.left_child_shard;
        let right_child_shard = split_status.right_child_shard;
        let mut store_update = self.store.store_update();
        match task_status {
            FlatStorageReshardingTaskStatus::Successful { .. } => {
                // Split shard completed successfully. Parent flat storage
                // can be deleted; children must perform catch-up.
                store_update.remove_flat_storage(parent_shard);
                store_update.set_flat_storage_status(
                    left_child_shard,
                    FlatStorageStatus::Resharding(FlatStorageReshardingStatus::CatchingUp(
                        split_status.flat_head.hash.clone(),
                    )),
                );
                store_update.set_flat_storage_status(
                    right_child_shard,
                    FlatStorageStatus::Resharding(FlatStorageReshardingStatus::CatchingUp(
                        split_status.flat_head.hash.clone(),
                    )),
                );
                let ghost ops = store_update@;
                self.store.commit(store_update);
                proof {
                    let o1 = StoreOpView::RemoveAllValues(parent_shard);
                    let o2 = StoreOpView::RemoveAllDeltas(parent_shard);
                    let o3 = StoreOpView::RemoveStatus(parent_shard);
                    let o4 = StoreOpView::SetStatus(
                        left_child_shard,
                        FlatStorageStatusView::Resharding(ReshardingStatusView::CatchingUp(
                            split_status@.flat_head.hash,
                        )),
                    );
                    let o5 = StoreOpView::SetStatus(
                        right_child_shard,
                        FlatStorageStatusView::Resharding(ReshardingStatusView::CatchingUp(
                            split_status@.flat_head.hash,
                        )),
                    );
                    let e = Seq::<StoreOpView>::empty();
                    assert(ops =~= e.push(o1).push(o2).push(o3).push(o4).push(o5));
                    lemma_apply_ops_push(s1, e.push(o1).push(o2).push(o3).push(o4), o5);
                    lemma_apply_ops_push(s1, e.push(o1).push(o2).push(o3), o4);
                    lemma_apply_ops_push(s1, e.push(o1).push(o2), o3);
                    lemma_apply_ops_push(s1, e.push(o1), o2);
                    lemma_apply_ops_push(s1, e, o1);
                    assert(apply_ops(s1, e) == s1);
                }
            },
            FlatStorageReshardingTaskStatus::Failed
            | FlatStorageReshardingTaskStatus::Cancelled => {
                // We got an error or a cancellation request: reset the
                // parent and remove the children shards' leftovers.
                store_update.set_flat_storage_status(
                    parent_shard,
                    FlatStorageStatus::Ready(FlatStorageReadyStatus {
                        flat_head: split_status.flat_head.clone(),
                    }),
                );
                store_update.remove_flat_storage(left_child_shard);
                store_update.remove_flat_storage(right_child_shard);
                let ghost ops = store_update@;
                self.store.commit(store_update);
                proof {
                    let o1 = StoreOpView::SetStatus(
                        parent_shard,
                        FlatStorageStatusView::Ready(split_status@.flat_head),
                    );
                    let o2 = StoreOpView::RemoveAllValues(left_child_shard);
                    let o3 = StoreOpView::RemoveAllDeltas(left_child_shard);
                    let o4 = StoreOpView::RemoveStatus(left_child_shard);
                    let o5 = StoreOpView::RemoveAllValues(right_child_shard);
                    let o6 = StoreOpView::RemoveAllDeltas(right_child_shard);
                    let o7 = StoreOpView::RemoveStatus(right_child_shard);
                    let e = Seq::<StoreOpView>::empty();
                    assert(ops =~= e.push(o1).push(o2).push(o3).push(o4).push(o5).push(o6).push(
                        o7,
                    ));
                    lemma_apply_ops_push(s1, e.push(o1).push(o2).push(o3).push(o4).push(o5).push(o6), o7);
                    lemma_apply_ops_push(s1, e.push(o1).push(o2).push(o3).push(o4).push(o5), o6);
                    lemma_apply_ops_push(s1, e.push(o1).push(o2).push(o3).push(o4), o5);
                    lemma_apply_ops_push(s1, e.push(o1).push(o2).push(o3), o4);
                    lemma_apply_ops_push(s1, e.push(o1).push(o2), o3);
                    lemma_apply_ops_push(s1, e.push(o1), o2);
                    lemma_apply_ops_push(s1, e, o1);
                    assert(apply_ops(s1, e) == s1);
                }
            },
        }
        // Terminate the resharding event.
        self.resharding_event = None;
    }
}

/// The parent slice and the base listing agree, in the form the split
/// theorem needs.
proof fn lemma_pv_facts(
    pv: Map<Seq<u8>, FlatValueView>,
    s0: FlatStoreView,
    parent: ShardUId,
    basev: Seq<(Vec<u8>, FlatStateValue)>,
)
    requires
        pv == shard_slice(s0.values, parent),
        forall|j: int|
            0 <= j < basev.len() ==> s0.values.dom().contains(
                (parent, (#[trigger] basev[j]).0@),
            ) && basev[j].1@ == s0.values[(parent, basev[j].0@)],
        forall|k: Seq<u8>|
            s0.values.dom().contains((parent, k)) ==> crate::store::key_listed(basev, k),
    ensures
        forall|j: int|
            0 <= j < basev.len() ==> pv.dom().contains((#[trigger] basev[j]).0@) && basev[j].1@
                == pv[basev[j].0@],
        forall|k: Seq<u8>| pv.dom().contains(k) ==> crate::store::key_listed(basev, k),
{
}

/// If every key of the split can be routed, so can the key of any one
/// stream entry.
proof fn lemma_split_keys_ok_entry(
    pv: Map<Seq<u8>, FlatValueView>,
    d: Map<(ShardUId, Seq<u8>), DeltaView>,
    parent: ShardUId,
    bs: Seq<Seq<u8>>,
    layout: crate::shard::ShardLayoutView,
    left: ShardUId,
    right: ShardUId,
    basev: Seq<(Vec<u8>, FlatStateValue)>,
    s0: FlatStoreView,
    p: int,
)
    requires
        split_keys_ok(pv, d, parent, bs, layout, left, right),
        pv == shard_slice(s0.values, parent),
        forall|j: int|
            0 <= j < basev.len() ==> s0.values.dom().contains(
                (parent, (#[trigger] basev[j]).0@),
            ) && basev[j].1@ == s0.values[(parent, basev[j].0@)],
        0 <= p < (base_stream(basev) + deltas_stream(d, parent, bs)).len(),
    ensures
        match (base_stream(basev) + deltas_stream(d, parent, bs))[p] {
            IterItemView::Entry(k, _) => key_ok(k, layout, left, right),
            IterItemView::CommitPoint => true,
        },
{
    let full = base_stream(basev) + deltas_stream(d, parent, bs);
    if p < basev.len() {
        assert(full[p] == base_stream(basev)[p]);
        assert(base_stream(basev)[p] == IterItemView::Entry(basev[p].0@, Some(basev[p].1@)));
        assert(pv.dom().contains(basev[p].0@));
    } else {
        assert(full[p] == deltas_stream(d, parent, bs)[p - basev.len()]);
        lemma_deltas_stream_entry_ok(d, parent, bs, layout, left, right, p - basev.len());
    }
}

/// If every stream entry's key can be routed, every key the split meets
/// can: the parent's base keys and every delta key along the path.
proof fn lemma_all_items_ok_to_split_keys_ok(
    pv: Map<Seq<u8>, FlatValueView>,
    d: Map<(ShardUId, Seq<u8>), DeltaView>,
    parent: ShardUId,
    bs: Seq<Seq<u8>>,
    layout: crate::shard::ShardLayoutView,
    left: ShardUId,
    right: ShardUId,
    basev: Seq<(Vec<u8>, FlatStateValue)>,
    s0: FlatStoreView,
    sv: Seq<IterItemView>,
)
    requires
        sv == base_stream(basev) + deltas_stream(d, parent, bs),
        items_ok_to(sv, sv.len() as int, layout, left, right),
        pv == shard_slice(s0.values, parent),
        forall|k: Seq<u8>|
            s0.values.dom().contains((parent, k)) ==> crate::store::key_listed(basev, k),
    ensures
        split_keys_ok(pv, d, parent, bs, layout, left, right),
{
    assert forall|k: Seq<u8>| pv.dom().contains(k) implies key_ok(k, layout, left, right) by {
        assert(s0.values.dom().contains((parent, k)));
        assert(crate::store::key_listed(basev, k));
        let m = choose|m: int| 0 <= m < basev.len() && (#[trigger] basev[m]).0@ == k;
        assert(sv[m] == base_stream(basev)[m]);
        assert(sv[m] == IterItemView::Entry(basev[m].0@, Some(basev[m].1@)));
    }
    assert forall|i: int, j: int|
        0 <= i < bs.len() && 0 <= j < d[(parent, #[trigger] bs[i])].changes.len() implies key_ok(
        (#[trigger] d[(parent, bs[i])].changes[j]).0,
        layout,
        left,
        right,
    ) by {
        lemma_change_in_deltas_stream(d, parent, bs, i, j);
        let p = choose|p: int|
            0 <= p < deltas_stream(d, parent, bs).len() && #[trigger] deltas_stream(
                d,
                parent,
                bs,
            )[p] == IterItemView::Entry(
                d[(parent, bs[i])].changes[j].0,
                d[(parent, bs[i])].changes[j].1,
            );
        assert(sv[basev.len() + p] == deltas_stream(d, parent, bs)[p]);
    }
}

} // verus!
