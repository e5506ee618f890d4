//! The flat store: a typed, transactional key-value model with per-shard
//! values, statuses and delta logs. Writes accumulate on a batch
//! ([`FlatStoreUpdate`]) and `commit` applies them atomically, in order.

use vstd::prelude::*;
use crate::hash::CryptoHash;
use crate::hash::bytes_eq;
use crate::shard::ShardUId;
use crate::state::FlatStateValue;
use crate::state::FlatValueView;
use crate::status::DeltaView;
use crate::status::FlatStateDelta;
use crate::status::FlatStorageStatus;
use crate::status::FlatStorageStatusView;
use crate::status::clone_opt_value;
use crate::status::opt_value_view;

verus! {

/// One keyed value of one shard.
#[derive(Debug)]
pub struct FlatKV {
    pub shard: ShardUId,
    pub key: Vec<u8>,
    pub value: FlatStateValue,
}

/// Whether an entry carries the given shard and key.
pub open spec fn kv_matches(kv: FlatKV, shard: ShardUId, k: Seq<u8>) -> bool {
    kv.shard == shard && kv.key@ == k
}

/// No two entries carry the same shard and key.
pub open spec fn kv_distinct(s: Seq<FlatKV>) -> bool {
    forall|i: int, j: int|
        0 <= i < j < s.len() ==> !((#[trigger] s[i]).shard == (#[trigger] s[j]).shard
            && s[i].key@ == s[j].key@)
}

/// Whether some entry carries the given shard and key.
pub open spec fn has_kv(s: Seq<FlatKV>, shard: ShardUId, k: Seq<u8>) -> bool {
    exists|i: int| 0 <= i < s.len() && kv_matches(#[trigger] s[i], shard, k)
}

/// The value carried for the given shard and key.
pub open spec fn kv_value_of(s: Seq<FlatKV>, shard: ShardUId, k: Seq<u8>) -> FlatValueView {
    s[choose|i: int| 0 <= i < s.len() && kv_matches(#[trigger] s[i], shard, k)].value@
}

/// The map described by a distinct entry list.
pub open spec fn vals_map(s: Seq<FlatKV>) -> Map<(ShardUId, Seq<u8>), FlatValueView> {
    Map::new(
        |p: (ShardUId, Seq<u8>)| has_kv(s, p.0, p.1),
        |p: (ShardUId, Seq<u8>)| kv_value_of(s, p.0, p.1),
    )
}

/// On a distinct list, any matching entry gives the map's value.
pub proof fn lemma_kv_value_unique(s: Seq<FlatKV>, shard: ShardUId, k: Seq<u8>, i: int)
    requires
        kv_distinct(s),
        0 <= i < s.len(),
        kv_matches(s[i], shard, k),
    ensures
        has_kv(s, shard, k),
        kv_value_of(s, shard, k) == s[i].value@,
{
    assert(kv_matches(s[i], shard, k));
    let j = choose|j: int| 0 <= j < s.len() && kv_matches(#[trigger] s[j], shard, k);
    if i != j {
        assert(false);
    }
}

/// A per-shard status entry.
pub open spec fn st_distinct(s: Seq<(ShardUId, FlatStorageStatus)>) -> bool {
    forall|i: int, j: int|
        0 <= i < j < s.len() ==> (#[trigger] s[i]).0 != (#[trigger] s[j]).0
}

/// Whether some entry carries the given shard's status.
pub open spec fn has_status(s: Seq<(ShardUId, FlatStorageStatus)>, shard: ShardUId) -> bool {
    exists|i: int| 0 <= i < s.len() && (#[trigger] s[i]).0 == shard
}

/// The status recorded for a shard; a shard with no entry is `Empty`.
pub open spec fn status_value_of(
    s: Seq<(ShardUId, FlatStorageStatus)>,
    shard: ShardUId,
) -> FlatStorageStatusView {
    if has_status(s, shard) {
        s[choose|i: int| 0 <= i < s.len() && (#[trigger] s[i]).0 == shard].1@
    } else {
        FlatStorageStatusView::Empty
    }
}

/// The total status map described by an entry list.
pub open spec fn statuses_map(s: Seq<(ShardUId, FlatStorageStatus)>) -> Map<
    ShardUId,
    FlatStorageStatusView,
> {
    Map::new(|sh: ShardUId| true, |sh: ShardUId| status_value_of(s, sh))
}

/// On a distinct list, any entry of a shard gives the shard's status.
pub proof fn lemma_status_unique(s: Seq<(ShardUId, FlatStorageStatus)>, shard: ShardUId, i: int)
    requires
        st_distinct(s),
        0 <= i < s.len(),
        s[i].0 == shard,
    ensures
        has_status(s, shard),
        status_value_of(s, shard) == s[i].1@,
{
    assert(s[i].0 == shard);
    let j = choose|j: int| 0 <= j < s.len() && (#[trigger] s[j]).0 == shard;
    if i != j {
        assert(false);
    }
}

/// Whether a delta entry carries the given shard and block hash.
pub open spec fn delta_matches(e: (ShardUId, FlatStateDelta), shard: ShardUId, h: Seq<u8>) -> bool {
    e.0 == shard && e.1.block.hash@ == h
}

/// No two delta entries carry the same shard and block hash.
pub open spec fn dl_distinct(s: Seq<(ShardUId, FlatStateDelta)>) -> bool {
    forall|i: int, j: int|
        0 <= i < j < s.len() ==> !((#[trigger] s[i]).0 == (#[trigger] s[j]).0
            && s[i].1.block.hash@ == s[j].1.block.hash@)
}

/// Whether some delta entry carries the given shard and block hash.
pub open spec fn has_delta(s: Seq<(ShardUId, FlatStateDelta)>, shard: ShardUId, h: Seq<u8>) -> bool {
    exists|i: int| 0 <= i < s.len() && delta_matches(#[trigger] s[i], shard, h)
}

/// The delta carried for the given shard and block hash.
pub open spec fn delta_value_of(
    s: Seq<(ShardUId, FlatStateDelta)>,
    shard: ShardUId,
    h: Seq<u8>,
) -> DeltaView {
    s[choose|i: int| 0 <= i < s.len() && delta_matches(#[trigger] s[i], shard, h)].1@
}

/// The delta map described by a distinct entry list.
pub open spec fn deltas_map(s: Seq<(ShardUId, FlatStateDelta)>) -> Map<
    (ShardUId, Seq<u8>),
    DeltaView,
> {
    Map::new(
        |p: (ShardUId, Seq<u8>)| has_delta(s, p.0, p.1),
        |p: (ShardUId, Seq<u8>)| delta_value_of(s, p.0, p.1),
    )
}

/// On a distinct list, any matching delta entry gives the map's delta.
pub proof fn lemma_delta_unique(s: Seq<(ShardUId, FlatStateDelta)>, shard: ShardUId, h: Seq<u8>, i: int)
    requires
        dl_distinct(s),
        0 <= i < s.len(),
        delta_matches(s[i], shard, h),
    ensures
        has_delta(s, shard, h),
        delta_value_of(s, shard, h) == s[i].1@,
{
    assert(delta_matches(s[i], shard, h));
    let j = choose|j: int| 0 <= j < s.len() && delta_matches(#[trigger] s[j], shard, h);
    if i != j {
        assert(false);
    }
}

/// Mathematical model of a [`FlatStore`]: three maps. The status map is
/// total, with `Empty` for shards that were never written.
pub struct FlatStoreView {
    pub statuses: Map<ShardUId, FlatStorageStatusView>,
    pub values: Map<(ShardUId, Seq<u8>), FlatValueView>,
    pub deltas: Map<(ShardUId, Seq<u8>), DeltaView>,
}

/// One write of a batch.
#[derive(Debug)]
pub enum StoreOp {
    /// Sets (`Some`) or removes (`None`) one value of one shard.
    SetValue { shard: ShardUId, key: Vec<u8>, value: Option<FlatStateValue> },
    /// Sets a shard's status.
    SetStatus { shard: ShardUId, status: FlatStorageStatus },
    /// Stores a block's delta for a shard, keyed by the block hash.
    SetDelta { shard: ShardUId, delta: FlatStateDelta },
    /// Removes every value of a shard.
    RemoveAllValues { shard: ShardUId },
    /// Removes every delta of a shard.
    RemoveAllDeltas { shard: ShardUId },
    /// Erases a shard's status slot, leaving the shard `Empty`.
    RemoveStatus { shard: ShardUId },
}

/// Mathematical model of a [`StoreOp`].
pub enum StoreOpView {
    SetValue(ShardUId, Seq<u8>, Option<FlatValueView>),
    SetStatus(ShardUId, FlatStorageStatusView),
    SetDelta(ShardUId, DeltaView),
    RemoveAllValues(ShardUId),
    RemoveAllDeltas(ShardUId),
    RemoveStatus(ShardUId),
}

impl View for StoreOp {
    type V = StoreOpView;

    open spec fn view(&self) -> StoreOpView {
        match self {
            StoreOp::SetValue { shard, key, value } => StoreOpView::SetValue(
                *shard,
                key@,
                opt_value_view(*value),
            ),
            StoreOp::SetStatus { shard, status } => StoreOpView::SetStatus(*shard, status@),
            StoreOp::SetDelta { shard, delta } => StoreOpView::SetDelta(*shard, delta@),
            StoreOp::RemoveAllValues { shard } => StoreOpView::RemoveAllValues(*shard),
            StoreOp::RemoveAllDeltas { shard } => StoreOpView::RemoveAllDeltas(*shard),
            StoreOp::RemoveStatus { shard } => StoreOpView::RemoveStatus(*shard),
        }
    }
}

/// The value map with every entry of one shard dropped.
pub open spec fn drop_shard_values(
    m: Map<(ShardUId, Seq<u8>), FlatValueView>,
    shard: ShardUId,
) -> Map<(ShardUId, Seq<u8>), FlatValueView> {
    Map::new(|p: (ShardUId, Seq<u8>)| m.dom().contains(p) && p.0 != shard, |p: (ShardUId, Seq<u8>)| m[p])
}

/// The delta map with every entry of one shard dropped.
pub open spec fn drop_shard_deltas(
    m: Map<(ShardUId, Seq<u8>), DeltaView>,
    shard: ShardUId,
) -> Map<(ShardUId, Seq<u8>), DeltaView> {
    Map::new(|p: (ShardUId, Seq<u8>)| m.dom().contains(p) && p.0 != shard, |p: (ShardUId, Seq<u8>)| m[p])
}

/// The effect of one write on the store model.
pub open spec fn apply_op(v: FlatStoreView, op: StoreOpView) -> FlatStoreView {
    match op {
        StoreOpView::SetValue(shard, k, Some(val)) => FlatStoreView {
            values: v.values.insert((shard, k), val),
            ..v
        },
        StoreOpView::SetValue(shard, k, None) => FlatStoreView {
            values: v.values.remove((shard, k)),
            ..v
        },
        StoreOpView::SetStatus(shard, st) => FlatStoreView {
            statuses: v.statuses.insert(shard, st),
            ..v
        },
        StoreOpView::SetDelta(shard, d) => FlatStoreView {
            deltas: v.deltas.insert((shard, d.block.hash), d),
            ..v
        },
        StoreOpView::RemoveAllValues(shard) => FlatStoreView {
            values: drop_shard_values(v.values, shard),
            ..v
        },
        StoreOpView::RemoveAllDeltas(shard) => FlatStoreView {
            deltas: drop_shard_deltas(v.deltas, shard),
            ..v
        },
        StoreOpView::RemoveStatus(shard) => FlatStoreView {
            statuses: v.statuses.insert(shard, FlatStorageStatusView::Empty),
            ..v
        },
    }
}

/// The effect of a batch: its writes applied in order.
pub open spec fn apply_ops(v: FlatStoreView, ops: Seq<StoreOpView>) -> FlatStoreView
    decreases ops.len(),
{
    if ops.len() == 0 {
        v
    } else {
        apply_op(apply_ops(v, ops.drop_last()), ops.last())
    }
}

/// A batch of writes; nothing is visible until the batch is committed.
#[derive(Debug)]
pub struct FlatStoreUpdate {
    pub ops: Vec<StoreOp>,
}

impl View for FlatStoreUpdate {
    type V = Seq<StoreOpView>;

    open spec fn view(&self) -> Seq<StoreOpView> {
        Seq::new(self.ops@.len(), |i: int| self.ops@[i]@)
    }
}

impl FlatStoreUpdate {
    /// An empty batch.
    pub fn new() -> (r: FlatStoreUpdate)
        ensures
            r@ == Seq::<StoreOpView>::empty(),
    {
        let r = FlatStoreUpdate { ops: Vec::new() };
        proof {
            assert(r@ =~= Seq::<StoreOpView>::empty());
        }
        r
    }

    /// Records setting (`Some`) or removing (`None`) one value of one shard.
    pub fn set(&mut self, shard: ShardUId, key: Vec<u8>, value: Option<FlatStateValue>)
        ensures
            final(self)@ == old(self)@.push(StoreOpView::SetValue(shard, key@, opt_value_view(value))),
    {
        let ghost prev = self@;
        let ghost kv = key@;
        let ghost vv = opt_value_view(value);
        self.ops.push(StoreOp::SetValue { shard, key, value });
        proof {
            assert(self@ =~= prev.push(StoreOpView::SetValue(shard, kv, vv)));
        }
    }

    /// Records setting a shard's status.
    pub fn set_flat_storage_status(&mut self, shard: ShardUId, status: FlatStorageStatus)
        ensures
            final(self)@ == old(self)@.push(StoreOpView::SetStatus(shard, status@)),
    {
        let ghost prev = self@;
        let ghost sv = status@;
        self.ops.push(StoreOp::SetStatus { shard, status });
        proof {
            assert(self@ =~= prev.push(StoreOpView::SetStatus(shard, sv)));
        }
    }

    /// Records storing a block's delta for a shard.
    pub fn set_delta(&mut self, shard: ShardUId, delta: FlatStateDelta)
        ensures
            final(self)@ == old(self)@.push(StoreOpView::SetDelta(shard, delta@)),
    {
        let ghost prev = self@;
        let ghost dv = delta@;
        self.ops.push(StoreOp::SetDelta { shard, delta });
        proof {
            assert(self@ =~= prev.push(StoreOpView::SetDelta(shard, dv)));
        }
    }

    /// Records removing every value of a shard.
    pub fn remove_all_values(&mut self, shard: ShardUId)
        ensures
            final(self)@ == old(self)@.push(StoreOpView::RemoveAllValues(shard)),
    {
        let ghost prev = self@;
        self.ops.push(StoreOp::RemoveAllValues { shard });
        proof {
            assert(self@ =~= prev.push(StoreOpView::RemoveAllValues(shard)));
        }
    }

    /// Records removing every delta of a shard.
    pub fn remove_all_deltas(&mut self, shard: ShardUId)
        ensures
            final(self)@ == old(self)@.push(StoreOpView::RemoveAllDeltas(shard)),
    {
        let ghost prev = self@;
        self.ops.push(StoreOp::RemoveAllDeltas { shard });
        proof {
            assert(self@ =~= prev.push(StoreOpView::RemoveAllDeltas(shard)));
        }
    }

    /// Records erasing a shard's whole flat storage: values, deltas, status.
    pub fn remove_flat_storage(&mut self, shard: ShardUId)
        ensures
            final(self)@ == old(self)@.push(StoreOpView::RemoveAllValues(shard)).push(
                StoreOpView::RemoveAllDeltas(shard),
            ).push(StoreOpView::RemoveStatus(shard)),
    {
        self.remove_all_values(shard);
        self.remove_all_deltas(shard);
        let ghost prev = self@;
        self.ops.push(StoreOp::RemoveStatus { shard });
        proof {
            assert(self@ =~= prev.push(StoreOpView::RemoveStatus(shard)));
        }
    }
}

/// The in-memory flat store: per-shard statuses, values and delta logs.
#[derive(Debug)]
pub struct FlatStore {
    pub statuses: Vec<(ShardUId, FlatStorageStatus)>,
    pub values: Vec<FlatKV>,
    pub deltas: Vec<(ShardUId, FlatStateDelta)>,
}

impl View for FlatStore {
    type V = FlatStoreView;

    open spec fn view(&self) -> FlatStoreView {
        FlatStoreView {
            statuses: statuses_map(self.statuses@),
            values: vals_map(self.values@),
            deltas: deltas_map(self.deltas@),
        }
    }
}

impl FlatStore {
    /// Each internal list holds at most one entry per key.
    pub open spec fn wf(&self) -> bool {
        st_distinct(self.statuses@) && kv_distinct(self.values@) && dl_distinct(self.deltas@)
    }

    /// An empty store: every shard `Empty`, no values, no deltas.
    pub fn new() -> (r: FlatStore)
        ensures
            r.wf(),
            forall|sh: ShardUId| r@.statuses[sh] == FlatStorageStatusView::Empty,
            r@.values == Map::<(ShardUId, Seq<u8>), FlatValueView>::empty(),
            r@.deltas == Map::<(ShardUId, Seq<u8>), DeltaView>::empty(),
    {
        let r = FlatStore { statuses: Vec::new(), values: Vec::new(), deltas: Vec::new() };
        proof {
            assert(r@.values =~= Map::<(ShardUId, Seq<u8>), FlatValueView>::empty());
            assert(r@.deltas =~= Map::<(ShardUId, Seq<u8>), DeltaView>::empty());
        }
        r
    }

    /// A fresh, empty batch.
    pub fn store_update(&self) -> (r: FlatStoreUpdate)
        ensures
            r@ == Seq::<StoreOpView>::empty(),
    {
        FlatStoreUpdate::new()
    }

    /// Reads a shard's status.
    pub fn get_flat_storage_status(&self, shard: ShardUId) -> (r: FlatStorageStatus)
        requires
            self.wf(),
        ensures
            r@ == self@.statuses[shard],
    {
        let n = self.statuses.len();
        for i in 0..n
            invariant
                n == self.statuses@.len(),
                forall|j: int| 0 <= j < i ==> (#[trigger] self.statuses@[j]).0 != shard,
        {
            if self.statuses[i].0 == shard {
                proof {
                    lemma_status_unique(self.statuses@, shard, i as int);
                }
                return self.statuses[i].1.clone();
            }
        }
        proof {
            assert(!has_status(self.statuses@, shard));
        }
        FlatStorageStatus::Empty
    }

    /// Reads one value of one shard.
    pub fn get(&self, shard: ShardUId, key: &Vec<u8>) -> (r: Option<FlatStateValue>)
        requires
            self.wf(),
        ensures
            r is Some <==> self@.values.dom().contains((shard, key@)),
            r is Some ==> r.unwrap()@ == self@.values[(shard, key@)],
    {
        let n = self.values.len();
        for i in 0..n
            invariant
                n == self.values@.len(),
                forall|j: int| 0 <= j < i ==> !kv_matches(#[trigger] self.values@[j], shard, key@),
        {
            if self.values[i].shard == shard && bytes_eq(&self.values[i].key, key) {
                proof {
                    lemma_kv_value_unique(self.values@, shard, key@, i as int);
                }
                return Some(self.values[i].value.clone());
            }
        }
        proof {
            assert(!has_kv(self.values@, shard, key@));
        }
        None
    }

    /// Reads the delta a block applied to a shard, if one is stored.
    pub fn get_delta(&self, shard: ShardUId, block_hash: &CryptoHash) -> (r: Option<FlatStateDelta>)
        requires
            self.wf(),
        ensures
            r is Some <==> self@.deltas.dom().contains((shard, block_hash@)),
            r is Some ==> r.unwrap()@ == self@.deltas[(shard, block_hash@)],
    {
        let n = self.deltas.len();
        for i in 0..n
            invariant
                n == self.deltas@.len(),
                forall|j: int| 0 <= j < i ==> !delta_matches(#[trigger] self.deltas@[j], shard, block_hash@),
        {
            if self.deltas[i].0 == shard && bytes_eq(&self.deltas[i].1.block.hash.0, &block_hash.0) {
                proof {
                    lemma_delta_unique(self.deltas@, shard, block_hash@, i as int);
                }
                return Some(self.deltas[i].1.clone());
            }
        }
        proof {
            assert(!has_delta(self.deltas@, shard, block_hash@));
        }
        None
    }

    /// Lists a shard's base entries: each stored key exactly once with its
    /// value, no deltas.
    #[verifier::rlimit(50)]
    pub fn iter(&self, shard: ShardUId) -> (r: Vec<(Vec<u8>, FlatStateValue)>)
        requires
            self.wf(),
        ensures
            forall|a: int, b: int|
                0 <= a < b < r@.len() ==> (#[trigger] r@[a]).0@ != (#[trigger] r@[b]).0@,
            forall|j: int|
                0 <= j < r@.len() ==> self@.values.dom().contains((shard, (#[trigger] r@[j]).0@))
                    && r@[j].1@ == self@.values[(shard, r@[j].0@)],
            forall|k: Seq<u8>|
                self@.values.dom().contains((shard, k)) ==> key_listed(r@, k),
    {
        let ghost s = self.values@;
        let n = self.values.len();
        let mut out: Vec<(Vec<u8>, FlatStateValue)> = Vec::new();
        let mut i: usize = 0;
        while i < n
            invariant
                n == s.len(),
                self.values@ == s,
                0 <= i <= n,
                keys_distinct(out@),
                iter_sourced(s, out@, i as int, shard),
                iter_complete(s, out@, i as int, shard),
            decreases n - i,
        {
            if self.values[i].shard == shard {
                let ghost out0 = out@;
                let k = self.values[i].key.clone();
                proof {
                    assert(k@ =~= s[i as int].key@);
                }
                out.push((k, self.values[i].value.clone()));
                proof {
                    lemma_iter_step_keep(s, out0, out@, i as int, shard);
                }
            } else {
                proof {
                    lemma_iter_step_skip(s, out@, i as int, shard);
                }
            }
            i = i + 1;
        }
        proof {
            lemma_iter_post(s, out@, shard);
        }
        out
    }

    /// Applies a batch: every write, in order, atomically.
    pub fn commit(&mut self, update: FlatStoreUpdate)
        requires
            old(self).wf(),
        ensures
            final(self).wf(),
            final(self)@ == apply_ops(old(self)@, update@),
    {
        let ghost orig = self@;
        let ghost opsv = update@;
        let n = update.ops.len();
        let mut i: usize = 0;
        proof {
            assert(opsv.take(0) =~= Seq::<StoreOpView>::empty());
        }
        while i < n
            invariant
                n == update.ops@.len(),
                0 <= i <= n,
                self.wf(),
                self@ == apply_ops(orig, opsv.take(i as int)),
            decreases n - i,
        {
            proof {
                assert(opsv.take(i + 1).drop_last() =~= opsv.take(i as int));
                assert(opsv.take(i + 1).last() == opsv[i as int]);
            }
            match &update.ops[i] {
                StoreOp::SetValue { shard, key, value } => {
                    let k = key.clone();
                    proof {
                        assert(k@ =~= key@);
                    }
                    self.apply_set_value(*shard, k, clone_opt_value(value));
                },
                StoreOp::SetStatus { shard, status } => {
                    self.apply_set_status(*shard, status.clone());
                },
                StoreOp::SetDelta { shard, delta } => {
                    self.apply_set_delta(*shard, delta.clone());
                },
                StoreOp::RemoveAllValues { shard } => {
                    self.apply_remove_all_values(*shard);
                },
                StoreOp::RemoveAllDeltas { shard } => {
                    self.apply_remove_all_deltas(*shard);
                },
                StoreOp::RemoveStatus { shard } => {
                    self.apply_set_status(*shard, FlatStorageStatus::Empty);
                },
            }
            i = i + 1;
        }
        proof {
            assert(opsv.take(n as int) =~= opsv);
        }
    }

    /// Applies one value write.
    fn apply_set_value(&mut self, shard: ShardUId, key: Vec<u8>, value: Option<FlatStateValue>)
        requires
            old(self).wf(),
        ensures
            final(self).wf(),
            final(self)@ == apply_op(
                old(self)@,
                StoreOpView::SetValue(shard, key@, opt_value_view(value)),
            ),
    {
        let ghost s0 = self.values@;
        let n = self.values.len();
        let mut found: Option<usize> = None;
        for i in 0..n
            invariant
                n == self.values@.len(),
                self.values@ == s0,
                match found {
                    Some(fi) => fi < i && kv_matches(s0[fi as int], shard, key@),
                    None => forall|j: int| 0 <= j < i ==> !kv_matches(#[trigger] s0[j], shard, key@),
                },
        {
            if found.is_none() && self.values[i].shard == shard && bytes_eq(&self.values[i].key, &key) {
                found = Some(i);
            }
        }
        match value {
            Some(v) => {
                match found {
                    Some(fi) => {
                        let ghost old_vals = self.values@;
                        self.values.set(fi, FlatKV { shard, key, value: v });
                        proof {
                            lemma_vals_update_same_key(old_vals, fi as int, self.values@[fi as int]);
                            assert(self@.statuses =~= old(self)@.statuses);
                            assert(self@.deltas =~= old(self)@.deltas);
                        }
                    },
                    None => {
                        let ghost old_vals = self.values@;
                        self.values.push(FlatKV { shard, key, value: v });
                        proof {
                            assert(!has_kv(old_vals, shard, self.values@.last().key@));
                            lemma_vals_push_new(old_vals, self.values@.last());
                            assert(self.values@ =~= old_vals.push(self.values@.last()));
                            assert(self@.statuses =~= old(self)@.statuses);
                            assert(self@.deltas =~= old(self)@.deltas);
                        }
                    },
                }
            },
            None => {
                match found {
                    Some(fi) => {
                        let ghost old_vals = self.values@;
                        self.values.remove(fi);
                        proof {
                            lemma_vals_remove_at(old_vals, fi as int);
                            assert(vals_map(old_vals).remove((old_vals[fi as int].shard, old_vals[fi as int].key@))
                                =~= vals_map(old_vals).remove((shard, key@)));
                            assert(self@.statuses =~= old(self)@.statuses);
                            assert(self@.deltas =~= old(self)@.deltas);
                        }
                    },
                    None => {
                        proof {
                            assert(!has_kv(self.values@, shard, key@));
                            assert(!vals_map(self.values@).dom().contains((shard, key@)));
                            assert(vals_map(self.values@).remove((shard, key@)) =~= vals_map(
                                self.values@,
                            ));
                        }
                    },
                }
            },
        }
    }

    /// Applies one status write.
    fn apply_set_status(&mut self, shard: ShardUId, status: FlatStorageStatus)
        requires
            old(self).wf(),
        ensures
            final(self).wf(),
            final(self)@ == apply_op(old(self)@, StoreOpView::SetStatus(shard, status@)),
    {
        let ghost s0 = self.statuses@;
        let ghost stv = status@;
        let n = self.statuses.len();
        let mut found: Option<usize> = None;
        for i in 0..n
            invariant
                n == self.statuses@.len(),
                self.statuses@ == s0,
                match found {
                    Some(fi) => fi < i && s0[fi as int].0 == shard,
                    None => forall|j: int| 0 <= j < i ==> (#[trigger] s0[j]).0 != shard,
                },
        {
            if found.is_none() && self.statuses[i].0 == shard {
                found = Some(i);
            }
        }
        match found {
            Some(fi) => {
                self.statuses.set(fi, (shard, status));
                proof {
                    lemma_statuses_update(s0, fi as int, self.statuses@[fi as int]);
                    assert(self@.values =~= old(self)@.values);
                    assert(self@.deltas =~= old(self)@.deltas);
                }
            },
            None => {
                self.statuses.push((shard, status));
                proof {
                    assert(!has_status(s0, shard));
                    lemma_statuses_push_new(s0, self.statuses@.last());
                    assert(self.statuses@ =~= s0.push(self.statuses@.last()));
                    assert(self@.values =~= old(self)@.values);
                    assert(self@.deltas =~= old(self)@.deltas);
                }
            },
        }
    }

    /// Applies one delta write.
    fn apply_set_delta(&mut self, shard: ShardUId, delta: FlatStateDelta)
        requires
            old(self).wf(),
        ensures
            final(self).wf(),
            final(self)@ == apply_op(old(self)@, StoreOpView::SetDelta(shard, delta@)),
    {
        let ghost s0 = self.deltas@;
        let ghost h = delta.block.hash@;
        let n = self.deltas.len();
        let mut found: Option<usize> = None;
        for i in 0..n
            invariant
                n == self.deltas@.len(),
                self.deltas@ == s0,
                match found {
                    Some(fi) => fi < i && delta_matches(s0[fi as int], shard, h),
                    None => forall|j: int| 0 <= j < i ==> !delta_matches(#[trigger] s0[j], shard, h),
                },
        {
            if found.is_none() && self.deltas[i].0 == shard && bytes_eq(
                &self.deltas[i].1.block.hash.0,
                &delta.block.hash.0,
            ) {
                found = Some(i);
            }
        }
        match found {
            Some(fi) => {
                self.deltas.set(fi, (shard, delta));
                proof {
                    lemma_deltas_update_same_key(s0, fi as int, self.deltas@[fi as int]);
                    assert(self@.values =~= old(self)@.values);
                    assert(self@.statuses =~= old(self)@.statuses);
                }
            },
            None => {
                self.deltas.push((shard, delta));
                proof {
                    assert(!has_delta(s0, shard, h));
                    lemma_deltas_push_new(s0, self.deltas@.last());
                    assert(self.deltas@ =~= s0.push(self.deltas@.last()));
                    assert(self@.values =~= old(self)@.values);
                    assert(self@.statuses =~= old(self)@.statuses);
                }
            },
        }
    }

    /// Removes every value of one shard.
    fn apply_remove_all_values(&mut self, shard: ShardUId)
        requires
            old(self).wf(),
        ensures
            final(self).wf(),
            final(self)@ == apply_op(old(self)@, StoreOpView::RemoveAllValues(shard)),
    {
        let ghost s0 = self.values@;
        let n = self.values.len();
        let mut out: Vec<FlatKV> = Vec::new();
        for i in 0..n
            invariant
                n == s0.len(),
                self.values@ == s0,
                kv_distinct(out@),
                forall|sh: ShardUId, k: Seq<u8>|
                    has_kv(out@, sh, k) <==> has_kv(s0.take(i as int), sh, k) && sh != shard,
                forall|sh: ShardUId, k: Seq<u8>|
                    has_kv(out@, sh, k) ==> kv_value_of(out@, sh, k) == kv_value_of(
                        s0.take(i as int),
                        sh,
                        k,
                    ),
        {
            proof {
                assert(s0.take(i + 1).drop_last() =~= s0.take(i as int));
            }
            if self.values[i].shard != shard {
                let ghost out0 = out@;
                let kv = clone_kv(&self.values[i]);
                out.push(kv);
                proof {
                    lemma_remove_all_step_keep(s0, i as int, shard, out0, out@);
                }
            } else {
                proof {
                    lemma_remove_all_step_skip(s0, i as int, out@, shard);
                }
            }
        }
        self.values = out;
        proof {
            assert(s0.take(n as int) =~= s0);
            assert(vals_map(self.values@) =~= drop_shard_values(vals_map(s0), shard));
            assert(self@.statuses =~= old(self)@.statuses);
            assert(self@.deltas =~= old(self)@.deltas);
        }
    }

    /// Removes every delta of one shard.
    fn apply_remove_all_deltas(&mut self, shard: ShardUId)
        requires
            old(self).wf(),
        ensures
            final(self).wf(),
            final(self)@ == apply_op(old(self)@, StoreOpView::RemoveAllDeltas(shard)),
    {
        let ghost s0 = self.deltas@;
        let n = self.deltas.len();
        let mut out: Vec<(ShardUId, FlatStateDelta)> = Vec::new();
        for i in 0..n
            invariant
                n == s0.len(),
                self.deltas@ == s0,
                dl_distinct(out@),
                forall|sh: ShardUId, h: Seq<u8>|
                    has_delta(out@, sh, h) <==> has_delta(s0.take(i as int), sh, h) && sh != shard,
                forall|sh: ShardUId, h: Seq<u8>|
                    has_delta(out@, sh, h) ==> delta_value_of(out@, sh, h) == delta_value_of(
                        s0.take(i as int),
                        sh,
                        h,
                    ),
        {
            proof {
                assert(s0.take(i + 1).drop_last() =~= s0.take(i as int));
            }
            if self.deltas[i].0 != shard {
                let ghost out0 = out@;
                let d = self.deltas[i].1.clone();
                let sh = self.deltas[i].0;
                out.push((sh, d));
                proof {
                    lemma_remove_all_deltas_step_keep(s0, i as int, shard, out0, out@);
                }
            } else {
                proof {
                    lemma_remove_all_deltas_step_skip(s0, i as int, out@, shard);
                }
            }
        }
        self.deltas = out;
        proof {
            assert(s0.take(n as int) =~= s0);
            assert(deltas_map(self.deltas@) =~= drop_shard_deltas(deltas_map(s0), shard));
            assert(self@.statuses =~= old(self)@.statuses);
            assert(self@.values =~= old(self)@.values);
        }
    }
}

/// No two listed entries carry the same key.
pub open spec fn keys_distinct(out: Seq<(Vec<u8>, FlatStateValue)>) -> bool {
    forall|a: int, b: int|
        0 <= a < b < out.len() ==> (#[trigger] out[a]).0@ != (#[trigger] out[b]).0@
}

/// The listed entry stems from one of the first `i` entries, carrying the
/// wanted shard and the listed key and value.
pub open spec fn entry_sourced(
    s: Seq<FlatKV>,
    e: (Vec<u8>, FlatStateValue),
    i: int,
    shard: ShardUId,
) -> bool {
    exists|j: int|
        0 <= j < i && (#[trigger] s[j]).shard == shard && s[j].key@ == e.0@ && s[j].value@ == e.1@
}

/// The key appears somewhere in the listing.
pub open spec fn key_listed(out: Seq<(Vec<u8>, FlatStateValue)>, k: Seq<u8>) -> bool {
    exists|m: int| 0 <= m < out.len() && (#[trigger] out[m]).0@ == k
}

/// Every listed entry stems from an entry of the first `i` positions.
pub open spec fn iter_sourced(
    s: Seq<FlatKV>,
    out: Seq<(Vec<u8>, FlatStateValue)>,
    i: int,
    shard: ShardUId,
) -> bool {
    forall|m: int| 0 <= m < out.len() ==> entry_sourced(s, #[trigger] out[m], i, shard)
}

/// Every entry of the first `i` positions that carries the shard appears in
/// the listing.
pub open spec fn iter_complete(
    s: Seq<FlatKV>,
    out: Seq<(Vec<u8>, FlatStateValue)>,
    i: int,
    shard: ShardUId,
) -> bool {
    forall|j: int|
        0 <= j < i && (#[trigger] s[j]).shard == shard ==> key_listed(out, s[j].key@)
}

/// Introduces `entry_sourced` from a concrete source position.
pub proof fn lemma_entry_sourced_intro(
    s: Seq<FlatKV>,
    e: (Vec<u8>, FlatStateValue),
    j: int,
    i: int,
    shard: ShardUId,
)
    requires
        0 <= j < i <= s.len(),
        s[j].shard == shard,
        s[j].key@ == e.0@,
        s[j].value@ == e.1@,
    ensures
        entry_sourced(s, e, i, shard),
{
    assert(0 <= j < i && s[j].shard == shard && s[j].key@ == e.0@ && s[j].value@ == e.1@);
}

/// A source among the first `i` entries is one among the first `i2 >= i`.
pub proof fn lemma_entry_sourced_widen(
    s: Seq<FlatKV>,
    e: (Vec<u8>, FlatStateValue),
    i: int,
    i2: int,
    shard: ShardUId,
)
    requires
        entry_sourced(s, e, i, shard),
        i <= i2,
    ensures
        entry_sourced(s, e, i2, shard),
{
    let j = choose|j: int|
        0 <= j < i && (#[trigger] s[j]).shard == shard && s[j].key@ == e.0@ && s[j].value@ == e.1@;
    assert(0 <= j < i2 && s[j].shard == shard && s[j].key@ == e.0@ && s[j].value@ == e.1@);
}

/// Listing an entry of the wanted shard keeps the listing distinct,
/// sourced and complete.
pub proof fn lemma_iter_step_keep(
    s: Seq<FlatKV>,
    out0: Seq<(Vec<u8>, FlatStateValue)>,
    out1: Seq<(Vec<u8>, FlatStateValue)>,
    i: int,
    shard: ShardUId,
)
    requires
        kv_distinct(s),
        0 <= i < s.len(),
        s[i].shard == shard,
        out1.len() == out0.len() + 1,
        forall|m: int| 0 <= m < out0.len() ==> out1[m] == out0[m],
        out1.last().0@ == s[i].key@,
        out1.last().1@ == s[i].value@,
        keys_distinct(out0),
        iter_sourced(s, out0, i, shard),
        iter_complete(s, out0, i, shard),
    ensures
        keys_distinct(out1),
        iter_sourced(s, out1, i + 1, shard),
        iter_complete(s, out1, i + 1, shard),
{
    let li = out0.len() as int;
    assert forall|a: int, b: int| 0 <= a < b < out1.len() implies (#[trigger] out1[a]).0@
        != (#[trigger] out1[b]).0@ by {
        if b == li && out1[a].0@ == out1[b].0@ {
            assert(entry_sourced(s, out0[a], i, shard));
            let j = choose|j: int|
                0 <= j < i && (#[trigger] s[j]).shard == shard && s[j].key@ == out0[a].0@
                    && s[j].value@ == out0[a].1@;
            assert(s[j].shard == s[i].shard && s[j].key@ == s[i].key@);
            assert(false);
        }
    }
    assert forall|m: int| 0 <= m < out1.len() implies entry_sourced(
        s,
        #[trigger] out1[m],
        i + 1,
        shard,
    ) by {
        if m < li {
            assert(entry_sourced(s, out0[m], i, shard));
            lemma_entry_sourced_widen(s, out0[m], i, i + 1, shard);
            assert(out1[m] == out0[m]);
        } else {
            lemma_entry_sourced_intro(s, out1[m], i, i + 1, shard);
        }
    }
    assert forall|j: int| 0 <= j < i + 1 && (#[trigger] s[j]).shard == shard implies key_listed(
        out1,
        s[j].key@,
    ) by {
        if j < i {
            assert(key_listed(out0, s[j].key@));
            let m = choose|m: int| 0 <= m < out0.len() && (#[trigger] out0[m]).0@ == s[j].key@;
            assert(out1[m].0@ == s[j].key@);
        } else {
            assert(out1[li].0@ == s[j].key@);
        }
    }
}

/// Skipping an entry of another shard keeps the listing sourced and
/// complete.
pub proof fn lemma_iter_step_skip(
    s: Seq<FlatKV>,
    out: Seq<(Vec<u8>, FlatStateValue)>,
    i: int,
    shard: ShardUId,
)
    requires
        0 <= i < s.len(),
        s[i].shard != shard,
        iter_sourced(s, out, i, shard),
        iter_complete(s, out, i, shard),
    ensures
        iter_sourced(s, out, i + 1, shard),
        iter_complete(s, out, i + 1, shard),
{
    assert forall|m: int| 0 <= m < out.len() implies entry_sourced(
        s,
        #[trigger] out[m],
        i + 1,
        shard,
    ) by {
        lemma_entry_sourced_widen(s, out[m], i, i + 1, shard);
    }
    assert forall|j: int| 0 <= j < i + 1 && (#[trigger] s[j]).shard == shard implies key_listed(
        out,
        s[j].key@,
    ) by {
        assert(j < i);
    }
}

/// A sourced, complete listing of a distinct entry list describes exactly
/// the shard's slice of the value map.
pub proof fn lemma_iter_post(
    s: Seq<FlatKV>,
    out: Seq<(Vec<u8>, FlatStateValue)>,
    shard: ShardUId,
)
    requires
        kv_distinct(s),
        iter_sourced(s, out, s.len() as int, shard),
        iter_complete(s, out, s.len() as int, shard),
    ensures
        forall|m: int|
            0 <= m < out.len() ==> vals_map(s).dom().contains((shard, (#[trigger] out[m]).0@))
                && out[m].1@ == vals_map(s)[(shard, out[m].0@)],
        forall|k: Seq<u8>|
            vals_map(s).dom().contains((shard, k)) ==> key_listed(out, k),
{
    let n = s.len() as int;
    assert forall|m: int| 0 <= m < out.len() implies vals_map(s).dom().contains(
        (shard, (#[trigger] out[m]).0@),
    ) && out[m].1@ == vals_map(s)[(shard, out[m].0@)] by {
        assert(entry_sourced(s, out[m], n, shard));
        let j = choose|j: int|
            0 <= j < n && (#[trigger] s[j]).shard == shard && s[j].key@ == out[m].0@ && s[j].value@
                == out[m].1@;
        assert(kv_matches(s[j], shard, out[m].0@));
        lemma_kv_value_unique(s, shard, out[m].0@, j);
    }
    assert forall|k: Seq<u8>| vals_map(s).dom().contains((shard, k)) implies key_listed(
        out,
        k,
    ) by {
        let w = choose|w: int| 0 <= w < s.len() && kv_matches(#[trigger] s[w], shard, k);
        assert(s[w].shard == shard);
        assert(key_listed(out, s[w].key@));
    }
}

/// Clones a value entry, keeping its model.
fn clone_kv(kv: &FlatKV) -> (r: FlatKV)
    ensures
        r.shard == kv.shard,
        r.key@ == kv.key@,
        r.value@ == kv.value@,
{
    let k = kv.key.clone();
    proof {
        assert(k@ =~= kv.key@);
    }
    FlatKV { shard: kv.shard, key: k, value: kv.value.clone() }
}

/// Updating the entry that carries a key replaces that key's value.
pub proof fn lemma_vals_update_same_key(s: Seq<FlatKV>, i: int, kv: FlatKV)
    requires
        kv_distinct(s),
        0 <= i < s.len(),
        kv.shard == s[i].shard,
        kv.key@ == s[i].key@,
    ensures
        kv_distinct(s.update(i, kv)),
        vals_map(s.update(i, kv)) == vals_map(s).insert((kv.shard, kv.key@), kv.value@),
{
    let t = s.update(i, kv);
    let p0 = (kv.shard, kv.key@);
    assert forall|a: int, b: int| 0 <= a < b < t.len() implies !((#[trigger] t[a]).shard
        == (#[trigger] t[b]).shard && t[a].key@ == t[b].key@) by {
        assert(s[a].shard == t[a].shard && s[a].key@ == t[a].key@);
        assert(s[b].shard == t[b].shard && s[b].key@ == t[b].key@);
    }
    assert forall|sh: ShardUId, k: Seq<u8>| has_kv(t, sh, k) implies ((sh, k) == p0 || has_kv(
        s,
        sh,
        k,
    )) by {
        let j = choose|j: int| 0 <= j < t.len() && kv_matches(#[trigger] t[j], sh, k);
        if j != i {
            assert(kv_matches(s[j], sh, k));
        }
    }
    assert forall|sh: ShardUId, k: Seq<u8>| has_kv(s, sh, k) implies has_kv(t, sh, k) by {
        let j = choose|j: int| 0 <= j < s.len() && kv_matches(#[trigger] s[j], sh, k);
        if j == i {
            assert(kv_matches(t[i], sh, k));
        } else {
            assert(kv_matches(t[j], sh, k));
        }
    }
    assert(kv_matches(t[i], p0.0, p0.1));
    lemma_kv_value_unique(t, p0.0, p0.1, i);
    assert forall|sh: ShardUId, k: Seq<u8>| has_kv(s, sh, k) && (sh, k) != p0 implies kv_value_of(
        t,
        sh,
        k,
    ) == kv_value_of(s, sh, k) by {
        let j = choose|j: int| 0 <= j < s.len() && kv_matches(#[trigger] s[j], sh, k);
        if j == i {
            assert((sh, k) == p0);
        } else {
            lemma_kv_value_unique(s, sh, k, j);
            lemma_kv_value_unique(t, sh, k, j);
        }
    }
    assert(vals_map(t) =~= vals_map(s).insert(p0, kv.value@));
}

/// Pushing an entry with a fresh key adds that key.
pub proof fn lemma_vals_push_new(s: Seq<FlatKV>, kv: FlatKV)
    requires
        kv_distinct(s),
        !has_kv(s, kv.shard, kv.key@),
    ensures
        kv_distinct(s.push(kv)),
        vals_map(s.push(kv)) == vals_map(s).insert((kv.shard, kv.key@), kv.value@),
{
    let t = s.push(kv);
    let p0 = (kv.shard, kv.key@);
    assert forall|a: int, b: int| 0 <= a < b < t.len() implies !((#[trigger] t[a]).shard
        == (#[trigger] t[b]).shard && t[a].key@ == t[b].key@) by {
        if b == s.len() {
            assert(t[b] == kv);
            if t[a].shard == kv.shard && t[a].key@ == kv.key@ {
                assert(kv_matches(s[a], kv.shard, kv.key@));
            }
        } else {
            assert(s[a].shard == t[a].shard && s[a].key@ == t[a].key@);
            assert(s[b].shard == t[b].shard && s[b].key@ == t[b].key@);
        }
    }
    assert forall|sh: ShardUId, k: Seq<u8>| has_kv(t, sh, k) implies ((sh, k) == p0 || has_kv(
        s,
        sh,
        k,
    )) by {
        let j = choose|j: int| 0 <= j < t.len() && kv_matches(#[trigger] t[j], sh, k);
        if j < s.len() {
            assert(kv_matches(s[j], sh, k));
        }
    }
    assert forall|sh: ShardUId, k: Seq<u8>| has_kv(s, sh, k) implies has_kv(t, sh, k) by {
        let j = choose|j: int| 0 <= j < s.len() && kv_matches(#[trigger] s[j], sh, k);
        assert(kv_matches(t[j], sh, k));
    }
    assert(kv_matches(t[s.len() as int], p0.0, p0.1));
    lemma_kv_value_unique(t, p0.0, p0.1, s.len() as int);
    assert forall|sh: ShardUId, k: Seq<u8>| has_kv(s, sh, k) implies kv_value_of(t, sh, k)
        == kv_value_of(s, sh, k) by {
        let j = choose|j: int| 0 <= j < s.len() && kv_matches(#[trigger] s[j], sh, k);
        lemma_kv_value_unique(s, sh, k, j);
        lemma_kv_value_unique(t, sh, k, j);
    }
    assert(vals_map(t) =~= vals_map(s).insert(p0, kv.value@));
}

/// Removing the entry that carries a key removes that key.
pub proof fn lemma_vals_remove_at(s: Seq<FlatKV>, i: int)
    requires
        kv_distinct(s),
        0 <= i < s.len(),
    ensures
        kv_distinct(s.remove(i)),
        vals_map(s.remove(i)) == vals_map(s).remove((s[i].shard, s[i].key@)),
{
    let t = s.remove(i);
    let p0 = (s[i].shard, s[i].key@);
    assert forall|a: int, b: int| 0 <= a < b < t.len() implies !((#[trigger] t[a]).shard
        == (#[trigger] t[b]).shard && t[a].key@ == t[b].key@) by {
        let a0 = if a < i { a } else { a + 1 };
        let b0 = if b < i { b } else { b + 1 };
        assert(t[a] == s[a0]);
        assert(t[b] == s[b0]);
    }
    assert forall|sh: ShardUId, k: Seq<u8>| has_kv(t, sh, k) implies has_kv(s, sh, k) && (sh, k)
        != p0 by {
        let j = choose|j: int| 0 <= j < t.len() && kv_matches(#[trigger] t[j], sh, k);
        let j0 = if j < i { j } else { j + 1 };
        assert(t[j] == s[j0]);
        assert(kv_matches(s[j0], sh, k));
        if (sh, k) == p0 {
            assert(kv_matches(s[i], sh, k));
            assert(false);
        }
    }
    assert forall|sh: ShardUId, k: Seq<u8>| has_kv(s, sh, k) && (sh, k) != p0 implies has_kv(
        t,
        sh,
        k,
    ) && kv_value_of(t, sh, k) == kv_value_of(s, sh, k) by {
        let j = choose|j: int| 0 <= j < s.len() && kv_matches(#[trigger] s[j], sh, k);
        if j == i {
            assert((sh, k) == p0);
            assert(false);
        }
        let j1 = if j < i { j } else { j - 1 };
        assert(t[j1] == s[j]);
        assert(kv_matches(t[j1], sh, k));
        lemma_kv_value_unique(s, sh, k, j);
        lemma_kv_value_unique(t, sh, k, j1);
    }
    assert(vals_map(t) =~= vals_map(s).remove(p0));
}

/// While filtering one shard out: keeping an entry of another shard
/// extends the filtered view by exactly that entry's key.
pub proof fn lemma_remove_all_step_keep(
    s0: Seq<FlatKV>,
    i: int,
    shard: ShardUId,
    out0: Seq<FlatKV>,
    out1: Seq<FlatKV>,
)
    requires
        kv_distinct(s0),
        0 <= i < s0.len(),
        s0[i].shard != shard,
        kv_distinct(out0),
        out1.len() == out0.len() + 1,
        forall|j: int| 0 <= j < out0.len() ==> out1[j] == out0[j],
        out1.last().shard == s0[i].shard,
        out1.last().key@ == s0[i].key@,
        out1.last().value@ == s0[i].value@,
        forall|sh: ShardUId, k: Seq<u8>|
            has_kv(out0, sh, k) <==> has_kv(s0.take(i), sh, k) && sh != shard,
        forall|sh: ShardUId, k: Seq<u8>|
            has_kv(out0, sh, k) ==> kv_value_of(out0, sh, k) == kv_value_of(s0.take(i), sh, k),
    ensures
        kv_distinct(out1),
        forall|sh: ShardUId, k: Seq<u8>|
            has_kv(out1, sh, k) <==> has_kv(s0.take(i + 1), sh, k) && sh != shard,
        forall|sh: ShardUId, k: Seq<u8>|
            has_kv(out1, sh, k) ==> kv_value_of(out1, sh, k) == kv_value_of(s0.take(i + 1), sh, k),
{
    let last = out1.last();
    let li = out0.len() as int;
    assert(kv_distinct(s0.take(i + 1)));
    assert(kv_distinct(s0.take(i)));
    assert forall|a: int, b: int| 0 <= a < b < out1.len() implies !((#[trigger] out1[a]).shard
        == (#[trigger] out1[b]).shard && out1[a].key@ == out1[b].key@) by {
        if b == li {
            if out1[a].shard == last.shard && out1[a].key@ == last.key@ {
                assert(kv_matches(out0[a], last.shard, last.key@));
                assert(has_kv(out0, last.shard, last.key@));
                let w = choose|w: int|
                    0 <= w < s0.take(i).len() && kv_matches(#[trigger] s0.take(i)[w], last.shard, last.key@);
                assert(kv_matches(s0[w], s0[i].shard, s0[i].key@));
                assert(w < i);
                assert(false);
            }
        }
    }
    assert forall|sh: ShardUId, k: Seq<u8>| has_kv(out1, sh, k) implies has_kv(s0.take(i + 1), sh, k)
        && sh != shard by {
        let j = choose|j: int| 0 <= j < out1.len() && kv_matches(#[trigger] out1[j], sh, k);
        if j == li {
            assert(kv_matches(s0.take(i + 1)[i], sh, k));
        } else {
            assert(kv_matches(out0[j], sh, k));
            assert(has_kv(out0, sh, k));
            let w = choose|w: int|
                0 <= w < s0.take(i).len() && kv_matches(#[trigger] s0.take(i)[w], sh, k);
            assert(kv_matches(s0.take(i + 1)[w], sh, k));
        }
    }
    assert forall|sh: ShardUId, k: Seq<u8>| has_kv(s0.take(i + 1), sh, k) && sh != shard implies
        has_kv(out1, sh, k) by {
        let j = choose|j: int|
            0 <= j < s0.take(i + 1).len() && kv_matches(#[trigger] s0.take(i + 1)[j], sh, k);
        if j == i {
            assert(kv_matches(out1[li], sh, k));
        } else {
            assert(kv_matches(s0.take(i)[j], sh, k));
            assert(has_kv(out0, sh, k));
            let w = choose|w: int| 0 <= w < out0.len() && kv_matches(#[trigger] out0[w], sh, k);
            assert(kv_matches(out1[w], sh, k));
        }
    }
    assert forall|sh: ShardUId, k: Seq<u8>| has_kv(out1, sh, k) implies kv_value_of(out1, sh, k)
        == kv_value_of(s0.take(i + 1), sh, k) by {
        let j = choose|j: int| 0 <= j < out1.len() && kv_matches(#[trigger] out1[j], sh, k);
        lemma_kv_value_unique(out1, sh, k, j);
        if j == li {
            assert(kv_matches(s0.take(i + 1)[i], sh, k));
            lemma_kv_value_unique(s0.take(i + 1), sh, k, i);
        } else {
            assert(kv_matches(out0[j], sh, k));
            lemma_kv_value_unique(out0, sh, k, j);
            let w = choose|w: int|
                0 <= w < s0.take(i).len() && kv_matches(#[trigger] s0.take(i)[w], sh, k);
            lemma_kv_value_unique(s0.take(i), sh, k, w);
            assert(kv_matches(s0.take(i + 1)[w], sh, k));
            lemma_kv_value_unique(s0.take(i + 1), sh, k, w);
        }
    }
}

/// While filtering one shard out: skipping an entry of that shard leaves
/// the filtered view unchanged.
pub proof fn lemma_remove_all_step_skip(
    s0: Seq<FlatKV>,
    i: int,
    out: Seq<FlatKV>,
    shard: ShardUId,
)
    requires
        kv_distinct(s0),
        0 <= i < s0.len(),
        s0[i].shard == shard,
        kv_distinct(out),
        forall|sh: ShardUId, k: Seq<u8>|
            has_kv(out, sh, k) <==> has_kv(s0.take(i), sh, k) && sh != shard,
        forall|sh: ShardUId, k: Seq<u8>|
            has_kv(out, sh, k) ==> kv_value_of(out, sh, k) == kv_value_of(s0.take(i), sh, k),
    ensures
        forall|sh: ShardUId, k: Seq<u8>|
            has_kv(out, sh, k) <==> has_kv(s0.take(i + 1), sh, k) && sh != shard,
        forall|sh: ShardUId, k: Seq<u8>|
            has_kv(out, sh, k) ==> kv_value_of(out, sh, k) == kv_value_of(s0.take(i + 1), sh, k),
{
    assert(kv_distinct(s0.take(i + 1)));
    assert(kv_distinct(s0.take(i)));
    assert forall|sh: ShardUId, k: Seq<u8>| has_kv(s0.take(i + 1), sh, k) && sh != shard implies
        has_kv(s0.take(i), sh, k) by {
        let j = choose|j: int|
            0 <= j < s0.take(i + 1).len() && kv_matches(#[trigger] s0.take(i + 1)[j], sh, k);
        assert(j != i);
        assert(kv_matches(s0.take(i)[j], sh, k));
    }
    assert forall|sh: ShardUId, k: Seq<u8>| has_kv(s0.take(i), sh, k) implies has_kv(
        s0.take(i + 1),
        sh,
        k,
    ) by {
        let j = choose|j: int|
            0 <= j < s0.take(i).len() && kv_matches(#[trigger] s0.take(i)[j], sh, k);
        assert(kv_matches(s0.take(i + 1)[j], sh, k));
    }
    assert forall|sh: ShardUId, k: Seq<u8>| has_kv(out, sh, k) implies kv_value_of(out, sh, k)
        == kv_value_of(s0.take(i + 1), sh, k) by {
        let j = choose|j: int|
            0 <= j < s0.take(i).len() && kv_matches(#[trigger] s0.take(i)[j], sh, k);
        lemma_kv_value_unique(s0.take(i), sh, k, j);
        assert(kv_matches(s0.take(i + 1)[j], sh, k));
        lemma_kv_value_unique(s0.take(i + 1), sh, k, j);
    }
}

/// While filtering one shard's deltas out: keeping an entry of another
/// shard extends the filtered view by exactly that entry's key.
pub proof fn lemma_remove_all_deltas_step_keep(
    s0: Seq<(ShardUId, FlatStateDelta)>,
    i: int,
    shard: ShardUId,
    out0: Seq<(ShardUId, FlatStateDelta)>,
    out1: Seq<(ShardUId, FlatStateDelta)>,
)
    requires
        dl_distinct(s0),
        0 <= i < s0.len(),
        s0[i].0 != shard,
        dl_distinct(out0),
        out1.len() == out0.len() + 1,
        forall|j: int| 0 <= j < out0.len() ==> out1[j] == out0[j],
        out1.last().0 == s0[i].0,
        out1.last().1.block.hash@ == s0[i].1.block.hash@,
        out1.last().1@ == s0[i].1@,
        forall|sh: ShardUId, h: Seq<u8>|
            has_delta(out0, sh, h) <==> has_delta(s0.take(i), sh, h) && sh != shard,
        forall|sh: ShardUId, h: Seq<u8>|
            has_delta(out0, sh, h) ==> delta_value_of(out0, sh, h) == delta_value_of(
                s0.take(i),
                sh,
                h,
            ),
    ensures
        dl_distinct(out1),
        forall|sh: ShardUId, h: Seq<u8>|
            has_delta(out1, sh, h) <==> has_delta(s0.take(i + 1), sh, h) && sh != shard,
        forall|sh: ShardUId, h: Seq<u8>|
            has_delta(out1, sh, h) ==> delta_value_of(out1, sh, h) == delta_value_of(
                s0.take(i + 1),
                sh,
                h,
            ),
{
    let last = out1.last();
    let li = out0.len() as int;
    assert(dl_distinct(s0.take(i + 1)));
    assert(dl_distinct(s0.take(i)));
    assert forall|a: int, b: int| 0 <= a < b < out1.len() implies !((#[trigger] out1[a]).0
        == (#[trigger] out1[b]).0 && out1[a].1.block.hash@ == out1[b].1.block.hash@) by {
        if b == li {
            if out1[a].0 == last.0 && out1[a].1.block.hash@ == last.1.block.hash@ {
                assert(delta_matches(out0[a], last.0, last.1.block.hash@));
                assert(has_delta(out0, last.0, last.1.block.hash@));
                let w = choose|w: int|
                    0 <= w < s0.take(i).len() && delta_matches(
                        #[trigger] s0.take(i)[w],
                        last.0,
                        last.1.block.hash@,
                    );
                assert(delta_matches(s0[w], s0[i].0, s0[i].1.block.hash@));
                assert(w < i);
                assert(false);
            }
        }
    }
    assert forall|sh: ShardUId, h: Seq<u8>| has_delta(out1, sh, h) implies has_delta(
        s0.take(i + 1),
        sh,
        h,
    ) && sh != shard by {
        let j = choose|j: int| 0 <= j < out1.len() && delta_matches(#[trigger] out1[j], sh, h);
        if j == li {
            assert(delta_matches(s0.take(i + 1)[i], sh, h));
        } else {
            assert(delta_matches(out0[j], sh, h));
            assert(has_delta(out0, sh, h));
            let w = choose|w: int|
                0 <= w < s0.take(i).len() && delta_matches(#[trigger] s0.take(i)[w], sh, h);
            assert(delta_matches(s0.take(i + 1)[w], sh, h));
        }
    }
    assert forall|sh: ShardUId, h: Seq<u8>| has_delta(s0.take(i + 1), sh, h) && sh != shard implies
        has_delta(out1, sh, h) by {
        let j = choose|j: int|
            0 <= j < s0.take(i + 1).len() && delta_matches(#[trigger] s0.take(i + 1)[j], sh, h);
        if j == i {
            assert(delta_matches(out1[li], sh, h));
        } else {
            assert(delta_matches(s0.take(i)[j], sh, h));
            assert(has_delta(out0, sh, h));
            let w = choose|w: int| 0 <= w < out0.len() && delta_matches(#[trigger] out0[w], sh, h);
            assert(delta_matches(out1[w], sh, h));
        }
    }
    assert forall|sh: ShardUId, h: Seq<u8>| has_delta(out1, sh, h) implies delta_value_of(
        out1,
        sh,
        h,
    ) == delta_value_of(s0.take(i + 1), sh, h) by {
        let j = choose|j: int| 0 <= j < out1.len() && delta_matches(#[trigger] out1[j], sh, h);
        lemma_delta_unique(out1, sh, h, j);
        if j == li {
            assert(delta_matches(s0.take(i + 1)[i], sh, h));
            lemma_delta_unique(s0.take(i + 1), sh, h, i);
        } else {
            assert(delta_matches(out0[j], sh, h));
            lemma_delta_unique(out0, sh, h, j);
            let w = choose|w: int|
                0 <= w < s0.take(i).len() && delta_matches(#[trigger] s0.take(i)[w], sh, h);
            lemma_delta_unique(s0.take(i), sh, h, w);
            assert(delta_matches(s0.take(i + 1)[w], sh, h));
            lemma_delta_unique(s0.take(i + 1), sh, h, w);
        }
    }
}

/// While filtering one shard's deltas out: skipping an entry of that shard
/// leaves the filtered view unchanged.
pub proof fn lemma_remove_all_deltas_step_skip(
    s0: Seq<(ShardUId, FlatStateDelta)>,
    i: int,
    out: Seq<(ShardUId, FlatStateDelta)>,
    shard: ShardUId,
)
    requires
        dl_distinct(s0),
        0 <= i < s0.len(),
        s0[i].0 == shard,
        dl_distinct(out),
        forall|sh: ShardUId, h: Seq<u8>|
            has_delta(out, sh, h) <==> has_delta(s0.take(i), sh, h) && sh != shard,
        forall|sh: ShardUId, h: Seq<u8>|
            has_delta(out, sh, h) ==> delta_value_of(out, sh, h) == delta_value_of(
                s0.take(i),
                sh,
                h,
            ),
    ensures
        forall|sh: ShardUId, h: Seq<u8>|
            has_delta(out, sh, h) <==> has_delta(s0.take(i + 1), sh, h) && sh != shard,
        forall|sh: ShardUId, h: Seq<u8>|
            has_delta(out, sh, h) ==> delta_value_of(out, sh, h) == delta_value_of(
                s0.take(i + 1),
                sh,
                h,
            ),
{
    assert(dl_distinct(s0.take(i + 1)));
    assert(dl_distinct(s0.take(i)));
    assert forall|sh: ShardUId, h: Seq<u8>| has_delta(s0.take(i + 1), sh, h) && sh != shard implies
        has_delta(s0.take(i), sh, h) by {
        let j = choose|j: int|
            0 <= j < s0.take(i + 1).len() && delta_matches(#[trigger] s0.take(i + 1)[j], sh, h);
        assert(j != i);
        assert(delta_matches(s0.take(i)[j], sh, h));
    }
    assert forall|sh: ShardUId, h: Seq<u8>| has_delta(s0.take(i), sh, h) implies has_delta(
        s0.take(i + 1),
        sh,
        h,
    ) by {
        let j = choose|j: int|
            0 <= j < s0.take(i).len() && delta_matches(#[trigger] s0.take(i)[j], sh, h);
        assert(delta_matches(s0.take(i + 1)[j], sh, h));
    }
    assert forall|sh: ShardUId, h: Seq<u8>| has_delta(out, sh, h) implies delta_value_of(
        out,
        sh,
        h,
    ) == delta_value_of(s0.take(i + 1), sh, h) by {
        let j = choose|j: int|
            0 <= j < s0.take(i).len() && delta_matches(#[trigger] s0.take(i)[j], sh, h);
        lemma_delta_unique(s0.take(i), sh, h, j);
        assert(delta_matches(s0.take(i + 1)[j], sh, h));
        lemma_delta_unique(s0.take(i + 1), sh, h, j);
    }
}

/// Updating the entry of a shard replaces that shard's status.
pub proof fn lemma_statuses_update(
    s: Seq<(ShardUId, FlatStorageStatus)>,
    i: int,
    e: (ShardUId, FlatStorageStatus),
)
    requires
        st_distinct(s),
        0 <= i < s.len(),
        e.0 == s[i].0,
    ensures
        st_distinct(s.update(i, e)),
        statuses_map(s.update(i, e)) == statuses_map(s).insert(e.0, e.1@),
{
    let t = s.update(i, e);
    assert forall|a: int, b: int| 0 <= a < b < t.len() implies (#[trigger] t[a]).0
        != (#[trigger] t[b]).0 by {
        assert(s[a].0 == t[a].0);
        assert(s[b].0 == t[b].0);
    }
    assert(t[i].0 == e.0);
    lemma_status_unique(t, e.0, i);
    assert forall|sh: ShardUId| sh != e.0 implies status_value_of(t, sh) == status_value_of(
        s,
        sh,
    ) by {
        if has_status(s, sh) {
            let j = choose|j: int| 0 <= j < s.len() && (#[trigger] s[j]).0 == sh;
            assert(j != i);
            assert(t[j].0 == sh);
            lemma_status_unique(s, sh, j);
            lemma_status_unique(t, sh, j);
        } else {
            if has_status(t, sh) {
                let j = choose|j: int| 0 <= j < t.len() && (#[trigger] t[j]).0 == sh;
                assert(j != i);
                assert(s[j].0 == sh);
                assert(false);
            }
        }
    }
    assert(statuses_map(t) =~= statuses_map(s).insert(e.0, e.1@));
}

/// Pushing an entry for a shard with none sets that shard's status.
pub proof fn lemma_statuses_push_new(
    s: Seq<(ShardUId, FlatStorageStatus)>,
    e: (ShardUId, FlatStorageStatus),
)
    requires
        st_distinct(s),
        !has_status(s, e.0),
    ensures
        st_distinct(s.push(e)),
        statuses_map(s.push(e)) == statuses_map(s).insert(e.0, e.1@),
{
    let t = s.push(e);
    assert forall|a: int, b: int| 0 <= a < b < t.len() implies (#[trigger] t[a]).0
        != (#[trigger] t[b]).0 by {
        if b == s.len() {
            if t[a].0 == e.0 {
                assert(s[a].0 == e.0);
            }
        } else {
            assert(s[a].0 == t[a].0);
            assert(s[b].0 == t[b].0);
        }
    }
    assert(t[s.len() as int].0 == e.0);
    lemma_status_unique(t, e.0, s.len() as int);
    assert forall|sh: ShardUId| sh != e.0 implies status_value_of(t, sh) == status_value_of(
        s,
        sh,
    ) by {
        if has_status(s, sh) {
            let j = choose|j: int| 0 <= j < s.len() && (#[trigger] s[j]).0 == sh;
            assert(t[j].0 == sh);
            lemma_status_unique(s, sh, j);
            lemma_status_unique(t, sh, j);
        } else {
            if has_status(t, sh) {
                let j = choose|j: int| 0 <= j < t.len() && (#[trigger] t[j]).0 == sh;
                assert(j == s.len());
                assert(false);
            }
        }
    }
    assert(statuses_map(t) =~= statuses_map(s).insert(e.0, e.1@));
}

/// Updating the entry that carries a block's delta replaces that delta.
pub proof fn lemma_deltas_update_same_key(
    s: Seq<(ShardUId, FlatStateDelta)>,
    i: int,
    e: (ShardUId, FlatStateDelta),
)
    requires
        dl_distinct(s),
        0 <= i < s.len(),
        e.0 == s[i].0,
        e.1.block.hash@ == s[i].1.block.hash@,
    ensures
        dl_distinct(s.update(i, e)),
        deltas_map(s.update(i, e)) == deltas_map(s).insert((e.0, e.1.block.hash@), e.1@),
{
    let t = s.update(i, e);
    let p0 = (e.0, e.1.block.hash@);
    assert forall|a: int, b: int| 0 <= a < b < t.len() implies !((#[trigger] t[a]).0
        == (#[trigger] t[b]).0 && t[a].1.block.hash@ == t[b].1.block.hash@) by {
        assert(s[a].0 == t[a].0 && s[a].1.block.hash@ == t[a].1.block.hash@);
        assert(s[b].0 == t[b].0 && s[b].1.block.hash@ == t[b].1.block.hash@);
    }
    assert(delta_matches(t[i], p0.0, p0.1));
    lemma_delta_unique(t, p0.0, p0.1, i);
    assert forall|sh: ShardUId, h: Seq<u8>| has_delta(t, sh, h) implies ((sh, h) == p0
        || has_delta(s, sh, h)) by {
        let j = choose|j: int| 0 <= j < t.len() && delta_matches(#[trigger] t[j], sh, h);
        if j != i {
            assert(delta_matches(s[j], sh, h));
        }
    }
    assert forall|sh: ShardUId, h: Seq<u8>| has_delta(s, sh, h) implies has_delta(t, sh, h) by {
        let j = choose|j: int| 0 <= j < s.len() && delta_matches(#[trigger] s[j], sh, h);
        if j == i {
            assert(delta_matches(t[i], sh, h));
        } else {
            assert(delta_matches(t[j], sh, h));
        }
    }
    assert forall|sh: ShardUId, h: Seq<u8>| has_delta(s, sh, h) && (sh, h) != p0 implies
        delta_value_of(t, sh, h) == delta_value_of(s, sh, h) by {
        let j = choose|j: int| 0 <= j < s.len() && delta_matches(#[trigger] s[j], sh, h);
        if j == i {
            assert((sh, h) == p0);
        } else {
            lemma_delta_unique(s, sh, h, j);
            lemma_delta_unique(t, sh, h, j);
        }
    }
    assert(deltas_map(t) =~= deltas_map(s).insert(p0, e.1@));
}

/// Pushing a delta entry with a fresh key adds that delta.
pub proof fn lemma_deltas_push_new(
    s: Seq<(ShardUId, FlatStateDelta)>,
    e: (ShardUId, FlatStateDelta),
)
    requires
        dl_distinct(s),
        !has_delta(s, e.0, e.1.block.hash@),
    ensures
        dl_distinct(s.push(e)),
        deltas_map(s.push(e)) == deltas_map(s).insert((e.0, e.1.block.hash@), e.1@),
{
    let t = s.push(e);
    let p0 = (e.0, e.1.block.hash@);
    assert forall|a: int, b: int| 0 <= a < b < t.len() implies !((#[trigger] t[a]).0
        == (#[trigger] t[b]).0 && t[a].1.block.hash@ == t[b].1.block.hash@) by {
        if b == s.len() {
            assert(t[b] == e);
            if t[a].0 == e.0 && t[a].1.block.hash@ == e.1.block.hash@ {
                assert(delta_matches(s[a], e.0, e.1.block.hash@));
            }
        } else {
            assert(s[a].0 == t[a].0 && s[a].1.block.hash@ == t[a].1.block.hash@);
            assert(s[b].0 == t[b].0 && s[b].1.block.hash@ == t[b].1.block.hash@);
        }
    }
    assert(delta_matches(t[s.len() as int], p0.0, p0.1));
    lemma_delta_unique(t, p0.0, p0.1, s.len() as int);
    assert forall|sh: ShardUId, h: Seq<u8>| has_delta(t, sh, h) implies ((sh, h) == p0
        || has_delta(s, sh, h)) by {
        let j = choose|j: int| 0 <= j < t.len() && delta_matches(#[trigger] t[j], sh, h);
        if j < s.len() {
            assert(delta_matches(s[j], sh, h));
        }
    }
    assert forall|sh: ShardUId, h: Seq<u8>| has_delta(s, sh, h) implies has_delta(t, sh, h)
        && delta_value_of(t, sh, h) == delta_value_of(s, sh, h) by {
        let j = choose|j: int| 0 <= j < s.len() && delta_matches(#[trigger] s[j], sh, h);
        assert(delta_matches(t[j], sh, h));
        lemma_delta_unique(s, sh, h, j);
        lemma_delta_unique(t, sh, h, j);
    }
    assert(deltas_map(t) =~= deltas_map(s).insert(p0, e.1@));
}

} // verus!
