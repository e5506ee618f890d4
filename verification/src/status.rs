//! Per-shard flat storage statuses, block descriptors and deltas.

use vstd::prelude::*;
use crate::hash::CryptoHash;
use crate::shard::ShardLayout;
use crate::shard::ShardLayoutView;
use crate::shard::ShardUId;
use crate::shard::layout_wf;
use crate::state::FlatStateValue;
use crate::state::FlatValueView;

verus! {

/// Mathematical model of a [`BlockInfo`].
pub struct BlockInfoView {
    pub hash: Seq<u8>,
    pub height: u64,
    pub prev_hash: Seq<u8>,
}

/// Describes a block: its hash, height, and parent hash.
#[derive(Debug, PartialEq, Eq)]
pub struct BlockInfo {
    pub hash: CryptoHash,
    pub height: u64,
    pub prev_hash: CryptoHash,
}

impl View for BlockInfo {
    type V = BlockInfoView;

    open spec fn view(&self) -> BlockInfoView {
        BlockInfoView { hash: self.hash@, height: self.height, prev_hash: self.prev_hash@ }
    }
}

impl Clone for BlockInfo {
    fn clone(&self) -> (r: Self)
        ensures
            r@ == self@,
    {
        BlockInfo {
            hash: self.hash.clone(),
            height: self.height,
            prev_hash: self.prev_hash.clone(),
        }
    }
}

/// Mathematical model of a [`SplittingParentStatus`].
pub struct SplittingParentStatusView {
    pub left_child_shard: ShardUId,
    pub right_child_shard: ShardUId,
    pub shard_layout: ShardLayoutView,
    pub block_hash: Seq<u8>,
    pub prev_block_hash: Seq<u8>,
    pub flat_head: BlockInfoView,
}

impl SplittingParentStatusView {
    /// The layout carried by the status is well formed.
    pub open spec fn wf(&self) -> bool {
        layout_wf(self.shard_layout)
    }
}

/// Everything a split of a parent shard needs to resume: the two children,
/// the new layout, the resharding block and the parent's flat head.
#[derive(Debug, PartialEq, Eq)]
pub struct SplittingParentStatus {
    pub left_child_shard: ShardUId,
    pub right_child_shard: ShardUId,
    pub shard_layout: ShardLayout,
    pub block_hash: CryptoHash,
    pub prev_block_hash: CryptoHash,
    pub flat_head: BlockInfo,
}

impl View for SplittingParentStatus {
    type V = SplittingParentStatusView;

    open spec fn view(&self) -> SplittingParentStatusView {
        SplittingParentStatusView {
            left_child_shard: self.left_child_shard,
            right_child_shard: self.right_child_shard,
            shard_layout: self.shard_layout@,
            block_hash: self.block_hash@,
            prev_block_hash: self.prev_block_hash@,
            flat_head: self.flat_head@,
        }
    }
}

impl Clone for SplittingParentStatus {
    fn clone(&self) -> (r: Self)
        ensures
            r@ == self@,
    {
        SplittingParentStatus {
            left_child_shard: self.left_child_shard,
            right_child_shard: self.right_child_shard,
            shard_layout: self.shard_layout.clone_layout(),
            block_hash: self.block_hash.clone(),
            prev_block_hash: self.prev_block_hash.clone(),
            flat_head: self.flat_head.clone(),
        }
    }
}

/// Mathematical model of a [`FlatStorageReshardingStatus`].
pub enum ReshardingStatusView {
    SplittingParent(SplittingParentStatusView),
    CreatingChild,
    CatchingUp(Seq<u8>),
}

/// Resharding state of a shard: a parent being split, a child being
/// created, or a child catching up to the target block.
#[derive(Debug, PartialEq, Eq)]
pub enum FlatStorageReshardingStatus {
    /// The shard is the parent of a split.
    SplittingParent(SplittingParentStatus),
    /// The shard is a child under construction; the parent drives the work.
    CreatingChild,
    /// The split finished; the child must catch up to the given block hash.
    CatchingUp(CryptoHash),
}

impl View for FlatStorageReshardingStatus {
    type V = ReshardingStatusView;

    open spec fn view(&self) -> ReshardingStatusView {
        match self {
            FlatStorageReshardingStatus::SplittingParent(s) => ReshardingStatusView::SplittingParent(
                s@,
            ),
            FlatStorageReshardingStatus::CreatingChild => ReshardingStatusView::CreatingChild,
            FlatStorageReshardingStatus::CatchingUp(h) => ReshardingStatusView::CatchingUp(h@),
        }
    }
}

impl Clone for FlatStorageReshardingStatus {
    fn clone(&self) -> (r: Self)
        ensures
            r@ == self@,
    {
        match self {
            FlatStorageReshardingStatus::SplittingParent(s) =>
                FlatStorageReshardingStatus::SplittingParent(s.clone()),
            FlatStorageReshardingStatus::CreatingChild => FlatStorageReshardingStatus::CreatingChild,
            FlatStorageReshardingStatus::CatchingUp(h) => FlatStorageReshardingStatus::CatchingUp(
                h.clone(),
            ),
        }
    }
}

/// Status of a shard's flat storage when it is ready for reads.
#[derive(Debug, PartialEq, Eq)]
pub struct FlatStorageReadyStatus {
    pub flat_head: BlockInfo,
}

impl Clone for FlatStorageReadyStatus {
    fn clone(&self) -> (r: Self)
        ensures
            r@ == self@,
    {
        FlatStorageReadyStatus { flat_head: self.flat_head.clone() }
    }
}

impl View for FlatStorageReadyStatus {
    type V = BlockInfoView;

    open spec fn view(&self) -> BlockInfoView {
        self.flat_head@
    }
}

/// Mathematical model of a [`FlatStorageStatus`].
pub enum FlatStorageStatusView {
    Empty,
    Ready(BlockInfoView),
    Resharding(ReshardingStatusView),
}

/// Per-shard flat storage status: exactly one variant at any committed
/// moment.
#[derive(Debug, PartialEq, Eq)]
pub enum FlatStorageStatus {
    /// No flat storage present.
    Empty,
    /// Consistent as of the contained flat head.
    Ready(FlatStorageReadyStatus),
    /// A resharding involving this shard is underway.
    Resharding(FlatStorageReshardingStatus),
}

impl View for FlatStorageStatus {
    type V = FlatStorageStatusView;

    open spec fn view(&self) -> FlatStorageStatusView {
        match self {
            FlatStorageStatus::Empty => FlatStorageStatusView::Empty,
            FlatStorageStatus::Ready(s) => FlatStorageStatusView::Ready(s@),
            FlatStorageStatus::Resharding(s) => FlatStorageStatusView::Resharding(s@),
        }
    }
}

impl Clone for FlatStorageStatus {
    fn clone(&self) -> (r: Self)
        ensures
            r@ == self@,
    {
        match self {
            FlatStorageStatus::Empty => FlatStorageStatus::Empty,
            FlatStorageStatus::Ready(s) => FlatStorageStatus::Ready(s.clone()),
            FlatStorageStatus::Resharding(s) => FlatStorageStatus::Resharding(s.clone()),
        }
    }
}

/// A single keyed mutation of a delta: the new value, or `None` for a
/// deletion.
pub type FlatChange = (Vec<u8>, Option<FlatStateValue>);

/// Mathematical model of a [`FlatChange`].
pub type FlatChangeView = (Seq<u8>, Option<FlatValueView>);

/// The model of an optional flat state value.
pub open spec fn opt_value_view(o: Option<FlatStateValue>) -> Option<FlatValueView> {
    match o {
        Some(v) => Some(v@),
        None => None,
    }
}

/// The model of a change list.
pub open spec fn change_views(s: Seq<FlatChange>) -> Seq<FlatChangeView> {
    Seq::new(s.len(), |i: int| (s[i].0@, opt_value_view(s[i].1)))
}

/// Clones an optional flat state value.
pub fn clone_opt_value(o: &Option<FlatStateValue>) -> (r: Option<FlatStateValue>)
    ensures
        opt_value_view(r) == opt_value_view(*o),
{
    match o {
        Some(v) => Some(v.clone()),
        None => None,
    }
}

/// Mathematical model of a [`FlatStateDelta`].
pub struct DeltaView {
    pub block: BlockInfoView,
    pub changes: Seq<FlatChangeView>,
}

/// The mutations a single block applied to a shard's flat storage, together
/// with that block's descriptor.
#[derive(Debug, PartialEq, Eq)]
pub struct FlatStateDelta {
    pub block: BlockInfo,
    pub changes: Vec<FlatChange>,
}

impl View for FlatStateDelta {
    type V = DeltaView;

    open spec fn view(&self) -> DeltaView {
        DeltaView { block: self.block@, changes: change_views(self.changes@) }
    }
}

impl Clone for FlatStateDelta {
    fn clone(&self) -> (r: Self)
        ensures
            r@ == self@,
    {
        let mut changes: Vec<FlatChange> = Vec::new();
        let n = self.changes.len();
        for i in 0..n
            invariant
                n == self.changes@.len(),
                changes@.len() == i,
                forall|j: int|
                    0 <= j < i ==> (#[trigger] changes@[j]).0@ == self.changes@[j].0@
                        && opt_value_view(changes@[j].1) == opt_value_view(self.changes@[j].1),
        {
            let (k, v) = &self.changes[i];
            let kc = k.clone();
            proof {
                assert(kc@ =~= k@);
            }
            changes.push((kc, clone_opt_value(v)));
        }
        let r = FlatStateDelta { block: self.block.clone(), changes };
        proof {
            assert(change_views(r.changes@) =~= change_views(self.changes@));
        }
        r
    }
}

impl ShardLayout {
    /// Clones a layout, keeping its model.
    pub fn clone_layout(&self) -> (r: ShardLayout)
        ensures
            r@ == self@,
    {
        let mut boundary_accounts: Vec<crate::account::AccountId> = Vec::new();
        let n = self.boundary_accounts.len();
        for i in 0..n
            invariant
                n == self.boundary_accounts@.len(),
                boundary_accounts@.len() == i,
                forall|j: int|
                    0 <= j < i ==> (#[trigger] boundary_accounts@[j])@
                        == self.boundary_accounts@[j]@,
        {
            boundary_accounts.push(self.boundary_accounts[i].clone());
        }
        let ids = self.shard_ids.clone();
        proof {
            assert(ids@ =~= self.shard_ids@);
        }
        let r = ShardLayout { version: self.version, boundary_accounts, shard_ids: ids };
        proof {
            assert(r@.boundary_accounts =~= self@.boundary_accounts);
            assert(r@.shard_ids == self@.shard_ids);
            assert(r@ == self@);
        }
        r
    }
}

} // verus!
