//! The merging iterator: an ordered stream of the parent shard's base
//! entries followed by each block's deltas between the flat head and the
//! resharding block, with explicit commit points between delta transactions.

use vstd::prelude::*;
use crate::hash::CryptoHash;
use crate::shard::ShardUId;
use crate::state::FlatStateValue;
use crate::state::FlatValueView;
use crate::status::BlockInfo;
use crate::status::DeltaView;
use crate::status::FlatChangeView;
use crate::status::clone_opt_value;
use crate::status::opt_value_view;
use crate::store::FlatStore;
use crate::store::key_listed;

verus! {

/// One element of the merged stream: a keyed entry (`None` value is a
/// tombstone) or a commit point forcing a batch boundary.
#[derive(Debug)]
pub enum FlatStorageAndDeltaIterItem {
    Entry(Vec<u8>, Option<FlatStateValue>),
    CommitPoint,
}

/// Mathematical model of a stream element.
pub enum IterItemView {
    Entry(Seq<u8>, Option<FlatValueView>),
    CommitPoint,
}

impl View for FlatStorageAndDeltaIterItem {
    type V = IterItemView;

    open spec fn view(&self) -> IterItemView {
        match self {
            FlatStorageAndDeltaIterItem::Entry(k, v) => IterItemView::Entry(k@, opt_value_view(*v)),
            FlatStorageAndDeltaIterItem::CommitPoint => IterItemView::CommitPoint,
        }
    }
}

/// The models of the stream's elements.
pub open spec fn item_views(items: Seq<FlatStorageAndDeltaIterItem>) -> Seq<IterItemView> {
    Seq::new(items.len(), |i: int| items[i]@)
}

/// The stream of a base listing: each pair as an entry with a present value.
pub open spec fn base_stream(base: Seq<(Vec<u8>, FlatStateValue)>) -> Seq<IterItemView> {
    Seq::new(base.len(), |i: int| IterItemView::Entry(base[i].0@, Some(base[i].1@)))
}

/// The stream of one delta's change list.
pub open spec fn changes_stream(changes: Seq<FlatChangeView>) -> Seq<IterItemView> {
    Seq::new(changes.len(), |i: int| IterItemView::Entry(changes[i].0, changes[i].1))
}

/// The stream of the deltas of the blocks `bs`, in order, each preceded by
/// a commit point.
pub open spec fn deltas_stream(
    d: Map<(ShardUId, Seq<u8>), DeltaView>,
    shard: ShardUId,
    bs: Seq<Seq<u8>>,
) -> Seq<IterItemView>
    decreases bs.len(),
{
    if bs.len() == 0 {
        Seq::empty()
    } else {
        deltas_stream(d, shard, bs.drop_last()) + seq![IterItemView::CommitPoint]
            + changes_stream(d[(shard, bs.last())].changes)
    }
}

/// `bs` lists, in ascending height order, the blocks whose deltas lie
/// between the flat head and the target block: the first block builds on
/// the flat head, each next one on the previous, and the last one is the
/// target. An empty list means the target is the flat head itself.
pub open spec fn is_chain_path(
    d: Map<(ShardUId, Seq<u8>), DeltaView>,
    shard: ShardUId,
    head_hash: Seq<u8>,
    target: Seq<u8>,
    bs: Seq<Seq<u8>>,
) -> bool {
    &&& (bs.len() == 0 ==> target == head_hash)
    &&& (bs.len() > 0 ==> bs.last() == target)
    &&& forall|i: int| 0 <= i < bs.len() ==> d.dom().contains((shard, #[trigger] bs[i]))
    &&& forall|i: int|
        0 <= i < bs.len() ==> d[(shard, #[trigger] bs[i])].block.prev_hash == if i == 0 {
            head_hash
        } else {
            bs[i - 1]
        }
    &&& forall|i: int| 0 <= i < bs.len() ==> d[(shard, #[trigger] bs[i])].block.hash == bs[i]
    &&& forall|i: int| 0 <= i < bs.len() ==> #[trigger] bs[i] != head_hash
}

/// The blocks of a path carry strictly increasing heights, all below the
/// largest height; this is what the backward walk needs to terminate.
pub open spec fn heights_increasing(
    d: Map<(ShardUId, Seq<u8>), DeltaView>,
    shard: ShardUId,
    bs: Seq<Seq<u8>>,
) -> bool {
    &&& forall|i: int, j: int|
        0 <= i && j == i + 1 && j < bs.len() ==> d[(shard, #[trigger] bs[i])].block.height < d[(
            shard,
            #[trigger] bs[j],
        )].block.height
    &&& (bs.len() > 0 ==> d[(shard, bs[bs.len() - 1])].block.height < u64::MAX)
}

/// Some chain path with increasing heights leads from the flat head to the
/// target block.
pub open spec fn walkable_path_exists(
    d: Map<(ShardUId, Seq<u8>), DeltaView>,
    shard: ShardUId,
    head_hash: Seq<u8>,
    target: Seq<u8>,
) -> bool {
    exists|bs: Seq<Seq<u8>>|
        is_chain_path(d, shard, head_hash, target, bs) && heights_increasing(d, shard, bs)
}

/// Mid-walk bookkeeping: any path from the head to the target ends with
/// the blocks walked so far (in reverse), its remainder is a path to the
/// walk's current block, and the remainder stays below the walk's fuel.
pub open spec fn walk_consistent(
    d: Map<(ShardUId, Seq<u8>), DeltaView>,
    shard: ShardUId,
    head_hash: Seq<u8>,
    cur: Seq<u8>,
    fuel: u64,
    down: Seq<CryptoHash>,
    bs: Seq<Seq<u8>>,
) -> bool {
    let pl = bs.len() - down.len();
    &&& bs.len() >= down.len()
    &&& forall|m: int| 0 <= m < down.len() ==> bs[bs.len() - 1 - m] == (#[trigger] down[m])@
    &&& is_chain_path(d, shard, head_hash, cur, bs.take(pl))
    &&& (pl > 0 ==> d[(shard, bs[pl - 1])].block.height < fuel)
}

/// Mid-walk, any path from the head to the target has its remainder end
/// exactly at the walk's current block, whose delta the path guarantees.
proof fn lemma_prefix_ends_at_cur(
    d: Map<(ShardUId, Seq<u8>), DeltaView>,
    shard: ShardUId,
    head_hash: Seq<u8>,
    target: Seq<u8>,
    cur: Seq<u8>,
    fuel: u64,
    down: Seq<CryptoHash>,
    p: Seq<Seq<u8>>,
)
    requires
        cur != head_hash,
        is_chain_path(d, shard, head_hash, target, p),
        walk_consistent(d, shard, head_hash, cur, fuel, down, p),
    ensures
        p.len() - down.len() >= 1,
        p[p.len() - down.len() - 1] == cur,
        d.dom().contains((shard, cur)),
        d[(shard, cur)].block.hash == cur,
        d[(shard, cur)].block.height < fuel,
{
    let pl = p.len() - down.len();
    let prefix = p.take(pl);
    if pl == 0 {
        assert(prefix.len() == 0);
        assert(cur == head_hash);
        assert(false);
    }
    assert(prefix.last() == cur);
    assert(prefix[pl - 1] == p[pl - 1]);
    assert(d.dom().contains((shard, prefix[pl - 1])));
    assert(d[(shard, prefix[pl - 1])].block.hash == prefix[pl - 1]);
}

/// When the walk cannot take a step — the current block's delta is missing
/// or its height does not go down — no path with increasing heights leads
/// from the head to the target at all.
proof fn lemma_no_walkable_path(
    d: Map<(ShardUId, Seq<u8>), DeltaView>,
    shard: ShardUId,
    head_hash: Seq<u8>,
    target: Seq<u8>,
    cur: Seq<u8>,
    fuel: u64,
    down: Seq<CryptoHash>,
    missing: bool,
)
    requires
        cur != head_hash,
        forall|p: Seq<Seq<u8>>|
            is_chain_path(d, shard, head_hash, target, p) && heights_increasing(d, shard, p)
                ==> #[trigger] walk_consistent(d, shard, head_hash, cur, fuel, down, p),
        missing ==> !d.dom().contains((shard, cur)),
        !missing ==> d.dom().contains((shard, cur)) && d[(shard, cur)].block.height >= fuel,
    ensures
        !walkable_path_exists(d, shard, head_hash, target),
{
    if walkable_path_exists(d, shard, head_hash, target) {
        let p = choose|p: Seq<Seq<u8>>|
            is_chain_path(d, shard, head_hash, target, p) && heights_increasing(d, shard, p);
        assert(walk_consistent(d, shard, head_hash, cur, fuel, down, p));
        lemma_prefix_ends_at_cur(d, shard, head_hash, target, cur, fuel, down, p);
        assert(false);
    }
}

/// Stripping the last block of a chain path leaves a chain path to that
/// block's parent.
#[verifier::spinoff_prover]
proof fn lemma_chain_path_shrink(
    d: Map<(ShardUId, Seq<u8>), DeltaView>,
    shard: ShardUId,
    head_hash: Seq<u8>,
    c: Seq<u8>,
    q: Seq<Seq<u8>>,
    t: Seq<u8>,
)
    requires
        is_chain_path(d, shard, head_hash, t, q),
        q.len() >= 1,
        c == d[(shard, q.last())].block.prev_hash,
    ensures
        is_chain_path(d, shard, head_hash, c, q.drop_last()),
{
    let q1 = q.drop_last();
    assert(q.last() == q[q.len() - 1]);
    if q1.len() == 0 {
        assert(c == head_hash);
    } else {
        assert(q1.last() == q[q.len() - 2]);
        assert(d[(shard, q[q.len() - 1])].block.prev_hash == q[q.len() - 2]);
    }
    assert forall|i: int| 0 <= i < q1.len() implies d.dom().contains((shard, #[trigger] q1[i]))
        && d[(shard, q1[i])].block.prev_hash == (if i == 0 {
        head_hash
    } else {
        q1[i - 1]
    }) && d[(shard, q1[i])].block.hash == q1[i] && q1[i] != head_hash by {
        assert(q1[i] == q[i]);
        if i > 0 {
            assert(q1[i - 1] == q[i - 1]);
        }
    }
}

/// One successful step of the walk keeps one path consistent with it.
#[verifier::rlimit(100)]
#[verifier::spinoff_prover]
proof fn lemma_walk_step_one(
    d: Map<(ShardUId, Seq<u8>), DeltaView>,
    shard: ShardUId,
    head_hash: Seq<u8>,
    target: Seq<u8>,
    cur0: Seq<u8>,
    fuel0: u64,
    down0: Seq<CryptoHash>,
    cur1: Seq<u8>,
    fuel1: u64,
    down1: Seq<CryptoHash>,
    p: Seq<Seq<u8>>,
)
    requires
        cur0 != head_hash,
        d.dom().contains((shard, cur0)),
        d[(shard, cur0)].block.height < fuel0,
        fuel1 == d[(shard, cur0)].block.height,
        cur1 == d[(shard, cur0)].block.prev_hash,
        down1.len() == down0.len() + 1,
        forall|m: int| 0 <= m < down0.len() ==> #[trigger] down1[m] == down0[m],
        down1[down0.len() as int]@ == cur0,
        is_chain_path(d, shard, head_hash, target, p),
        heights_increasing(d, shard, p),
        walk_consistent(d, shard, head_hash, cur0, fuel0, down0, p),
    ensures
        walk_consistent(d, shard, head_hash, cur1, fuel1, down1, p),
{
    lemma_prefix_ends_at_cur(d, shard, head_hash, target, cur0, fuel0, down0, p);
    let pl = p.len() - down0.len();
    let prefix0 = p.take(pl);
    assert(prefix0[pl - 1] == p[pl - 1]);
    assert(prefix0.last() == cur0);
    lemma_chain_path_shrink(d, shard, head_hash, cur1, prefix0, cur0);
    assert(prefix0.drop_last() =~= p.take(pl - 1));
    assert forall|m: int| 0 <= m < down1.len() implies p[p.len() - 1 - m]
        == (#[trigger] down1[m])@ by {
        if m < down0.len() {
            assert(down1[m] == down0[m]);
        } else {
            assert(down1[m]@ == cur0);
        }
    }
    if pl - 1 > 0 {
        assert(p.take(pl - 1)[pl - 2] == p[pl - 2]);
        assert(d[(shard, p[pl - 2])].block.height < d[(shard, p[pl - 1])].block.height);
    }
}

/// One successful step of the walk preserves its bookkeeping/// One successful step of the walk preserves its bookkeeping: after
/// recording the current block and moving to its parent, every path from
/// the head to the target is still consistent with the walk.
#[verifier::spinoff_prover]
proof fn lemma_walk_step(
    d: Map<(ShardUId, Seq<u8>), DeltaView>,
    shard: ShardUId,
    head_hash: Seq<u8>,
    target: Seq<u8>,
    cur0: Seq<u8>,
    fuel0: u64,
    down0: Seq<CryptoHash>,
    cur1: Seq<u8>,
    fuel1: u64,
    down1: Seq<CryptoHash>,
)
    requires
        cur0 != head_hash,
        d.dom().contains((shard, cur0)),
        d[(shard, cur0)].block.height < fuel0,
        fuel1 == d[(shard, cur0)].block.height,
        cur1 == d[(shard, cur0)].block.prev_hash,
        down1.len() == down0.len() + 1,
        forall|m: int| 0 <= m < down0.len() ==> #[trigger] down1[m] == down0[m],
        down1[down0.len() as int]@ == cur0,
        forall|p: Seq<Seq<u8>>|
            is_chain_path(d, shard, head_hash, target, p) && heights_increasing(d, shard, p)
                ==> #[trigger] walk_consistent(d, shard, head_hash, cur0, fuel0, down0, p),
    ensures
        forall|p: Seq<Seq<u8>>|
            is_chain_path(d, shard, head_hash, target, p) && heights_increasing(d, shard, p)
                ==> #[trigger] walk_consistent(d, shard, head_hash, cur1, fuel1, down1, p),
{
    assert forall|p: Seq<Seq<u8>>|
        is_chain_path(d, shard, head_hash, target, p) && heights_increasing(d, shard, p) implies
        #[trigger] walk_consistent(d, shard, head_hash, cur1, fuel1, down1, p) by {
        assert(walk_consistent(d, shard, head_hash, cur0, fuel0, down0, p));
        lemma_walk_step_one(
            d,
            shard,
            head_hash,
            target,
            cur0,
            fuel0,
            down0,
            cur1,
            fuel1,
            down1,
            p,
        );
    }
}

/// Walks the delta log backwards from `block_hash` to the flat head and
/// returns the traversed block hashes in ascending height order. `None`,
/// which the split treats as storage inconsistency, means a delta was
/// missing or the heights did not decrease: no chain path with increasing
/// heights leads from the flat head to the block.
#[verifier::rlimit(100)]
#[verifier::spinoff_prover]
pub fn blocks_to_head(
    store: &FlatStore,
    shard: ShardUId,
    block_hash: &CryptoHash,
    flat_head: &BlockInfo,
) -> (r: Option<Vec<CryptoHash>>)
    requires
        store.wf(),
    ensures
        match r {
            Some(bs) => is_chain_path(
                store@.deltas,
                shard,
                flat_head@.hash,
                block_hash@,
                Seq::new(bs@.len(), |i: int| bs@[i]@),
            ),
            None => !walkable_path_exists(store@.deltas, shard, flat_head@.hash, block_hash@),
        },
{
    let ghost d = store@.deltas;
    let ghost head = flat_head@.hash;
    let ghost target = block_hash@;
    let mut down: Vec<CryptoHash> = Vec::new();
    let mut cur: CryptoHash = block_hash.clone();
    let mut fuel: u64 = u64::MAX;
    proof {
        assert forall|p: Seq<Seq<u8>>|
            is_chain_path(d, shard, head, target, p) && heights_increasing(d, shard, p) implies
            #[trigger] walk_consistent(d, shard, head, cur@, fuel, down@, p) by {
            assert(p.take(p.len() as int) =~= p);
        }
    }
    // Walk down the chain: `down` collects hashes in descending height
    // order; entry `m` builds on entry `m + 1`, the last entry on `cur`.
    while !cur.equals(&flat_head.hash)
        invariant
            store.wf(),
            forall|p: Seq<Seq<u8>>|
                is_chain_path(d, shard, head, target, p) && heights_increasing(d, shard, p)
                    ==> #[trigger] walk_consistent(d, shard, head, cur@, fuel, down@, p),
            down@.len() > 0 ==> down@[0]@ == block_hash@,
            down@.len() == 0 ==> cur@ == block_hash@,
            down@.len() > 0 ==> block_hash@ != flat_head@.hash,
            forall|m: int| 0 <= m < down@.len() ==> (#[trigger] down@[m])@ != flat_head@.hash,
            forall|m: int|
                0 <= m < down@.len() ==> store@.deltas.dom().contains(
                    (shard, (#[trigger] down@[m])@),
                ) && store@.deltas[(shard, down@[m]@)].block.hash == down@[m]@
                    && store@.deltas[(shard, down@[m]@)].block.prev_hash == (if m
                    == down@.len() - 1 {
                    cur@
                } else {
                    down@[m + 1]@
                }),
        decreases fuel,
    {
        let ghost cur0 = cur@;
        let ghost fuel0 = fuel;
        let delta = match store.get_delta(shard, &cur) {
            Some(dl) => dl,
            None => {
                proof {
                    lemma_no_walkable_path(d, shard, head, target, cur0, fuel0, down@, true);
                }
                return None;
            },
        };
        if delta.block.height >= fuel {
            proof {
                lemma_no_walkable_path(d, shard, head, target, cur0, fuel0, down@, false);
            }
            return None;
        }
        if !bytes_eq_hash(&delta.block.hash, &cur) {
            proof {
                assert forall|p: Seq<Seq<u8>>| !(is_chain_path(d, shard, head, target, p)
                    && heights_increasing(d, shard, p)) by {
                    if is_chain_path(d, shard, head, target, p) && heights_increasing(d, shard, p) {
                        assert(walk_consistent(d, shard, head, cur0, fuel0, down@, p));
                        lemma_prefix_ends_at_cur(d, shard, head, target, cur0, fuel0, down@, p);
                        let pl = p.len() - down@.len();
                        assert(d[(shard, p[pl - 1])].block.hash == p[pl - 1]);
                        assert(false);
                    }
                }
            }
            return None;
        }
        fuel = delta.block.height;
        let ghost down0 = down@;
        down.push(cur);
        cur = delta.block.prev_hash.clone();
        proof {
            assert(down@[down@.len() - 1]@ == cur0);
            lemma_walk_step(d, shard, head, target, cur0, fuel0, down0, cur@, fuel, down@);
            assert(down@[down@.len() - 1]@ == store@.deltas[(shard, down@.last()@)].block.hash);
            assert forall|m: int| 0 <= m < down@.len() implies store@.deltas.dom().contains(
                (shard, (#[trigger] down@[m])@),
            ) && store@.deltas[(shard, down@[m]@)].block.hash == down@[m]@
                && store@.deltas[(shard, down@[m]@)].block.prev_hash == (if m == down@.len() - 1 {
                cur@
            } else {
                down@[m + 1]@
            }) by {
                if m < down0.len() {
                    assert(down@[m] == down0[m]);
                    if m < down0.len() - 1 {
                        assert(down@[m + 1] == down0[m + 1]);
                    }
                }
            }
        }
    }
    // Reverse into ascending height order.
    let n = down.len();
    let mut bs: Vec<CryptoHash> = Vec::new();
    let mut i = n;
    while i > 0
        invariant
            n == down@.len(),
            0 <= i <= n,
            bs@.len() == n - i,
            forall|m: int| 0 <= m < bs@.len() ==> (#[trigger] bs@[m])@ == down@[n - 1 - m]@,
        decreases i,
    {
        i = i - 1;
        bs.push(down[i].clone());
    }
    proof {
        let bsv = Seq::new(bs@.len(), |m: int| bs@[m]@);
        let d = store@.deltas;
        let head = flat_head@.hash;
        assert forall|m: int| 0 <= m < bsv.len() implies d.dom().contains(
            (shard, #[trigger] bsv[m]),
        ) && d[(shard, bsv[m])].block.hash == bsv[m] && d[(shard, bsv[m])].block.prev_hash == (
        if m == 0 {
            head
        } else {
            bsv[m - 1]
        }) by {
            assert(bsv[m] == down@[n - 1 - m]@);
            if m > 0 {
                assert(bsv[m - 1] == down@[n - m]@);
            }
        }
        if bsv.len() > 0 {
            assert(bsv.last() == down@[0]@);
        }
    }
    Some(bs)
}

/// Compares two hashes through their byte vectors.
fn bytes_eq_hash(a: &CryptoHash, b: &CryptoHash) -> (r: bool)
    ensures
        r == (a@ == b@),
{
    a.equals(b)
}

/// Appends the base listing to the stream, each pair as a present entry.
fn append_base(
    items: &mut Vec<FlatStorageAndDeltaIterItem>,
    base: &Vec<(Vec<u8>, FlatStateValue)>,
)
    ensures
        item_views(final(items)@) == item_views(old(items)@) + base_stream(base@),
{
    let ghost items0 = old(items)@;
    let n = base.len();
    let mut i: usize = 0;
    proof {
        assert(item_views(items@) =~= item_views(items0) + base_stream(base@.take(0)));
    }
    while i < n
        invariant
            n == base@.len(),
            0 <= i <= n,
            item_views(items@) =~= item_views(items0) + base_stream(base@.take(i as int)),
        decreases n - i,
    {
        let ghost prev = items@;
        let k = base[i].0.clone();
        let v = base[i].1.clone();
        proof {
            assert(k@ =~= base@[i as int].0@);
        }
        items.push(FlatStorageAndDeltaIterItem::Entry(k, Some(v)));
        proof {
            let iv = item_views(items@);
            let target = item_views(items0) + base_stream(base@.take(i + 1));
            assert(iv.len() == target.len());
            assert forall|j: int| 0 <= j < iv.len() implies iv[j] == target[j] by {
                if j < iv.len() - 1 {
                    assert(items@[j] == prev[j]);
                    assert(item_views(prev)[j] == prev[j]@);
                    assert(base_stream(base@.take(i as int)).len() == i);
                    if j >= items0.len() {
                        assert(base_stream(base@.take(i as int))[j - items0.len()]
                            == base_stream(base@.take(i + 1))[j - items0.len()]);
                    }
                } else {
                    assert(items@[j] == items@.last());
                    assert(items@.last()@ == IterItemView::Entry(
                        base@[i as int].0@,
                        Some(base@[i as int].1@),
                    ));
                }
            }
            assert(iv =~= target);
        }
        i = i + 1;
    }
    proof {
        assert(base@.take(n as int) =~= base@);
    }
}

/// Appends one delta's change list to the stream.
fn append_changes(items: &mut Vec<FlatStorageAndDeltaIterItem>, changes: &Vec<crate::status::FlatChange>)
    ensures
        item_views(final(items)@) == item_views(old(items)@) + changes_stream(
            crate::status::change_views(changes@),
        ),
{
    let ghost items0 = old(items)@;
    let ghost cv = crate::status::change_views(changes@);
    let n = changes.len();
    let mut i: usize = 0;
    proof {
        assert(item_views(items@) =~= item_views(items0) + changes_stream(cv.take(0)));
    }
    while i < n
        invariant
            n == changes@.len(),
            cv == crate::status::change_views(changes@),
            0 <= i <= n,
            item_views(items@) =~= item_views(items0) + changes_stream(cv.take(i as int)),
        decreases n - i,
    {
        let ghost prev = items@;
        let k = changes[i].0.clone();
        let v = clone_opt_value(&changes[i].1);
        proof {
            assert(k@ =~= changes@[i as int].0@);
            assert(cv[i as int] == (changes@[i as int].0@, opt_value_view(changes@[i as int].1)));
        }
        items.push(FlatStorageAndDeltaIterItem::Entry(k, v));
        proof {
            let iv = item_views(items@);
            let target = item_views(items0) + changes_stream(cv.take(i + 1));
            assert(iv.len() == target.len());
            assert forall|j: int| 0 <= j < iv.len() implies iv[j] == target[j] by {
                if j < iv.len() - 1 {
                    assert(items@[j] == prev[j]);
                    assert(item_views(prev)[j] == prev[j]@);
                    assert(changes_stream(cv.take(i as int)).len() == i);
                    if j >= items0.len() {
                        assert(changes_stream(cv.take(i as int))[j - items0.len()]
                            == changes_stream(cv.take(i + 1))[j - items0.len()]);
                    }
                } else {
                    assert(items@[j] == items@.last());
                    assert(items@.last()@ == IterItemView::Entry(cv[i as int].0, cv[i as int].1));
                }
            }
            assert(iv =~= target);
        }
        i = i + 1;
    }
    proof {
        assert(cv.take(n as int) =~= cv);
    }
}

/// Builds the merged stream over a shard at the given block: the base
/// entries, then each block's delta in ascending height order, preceded by
/// a commit point. Returns the stream together with the (ghost) base
/// listing and block path it was built from; `None` on storage
/// inconsistency.
#[verifier::rlimit(100)]
pub fn flat_storage_iterator(
    store: &FlatStore,
    shard: ShardUId,
    block_hash: &CryptoHash,
    flat_head: &BlockInfo,
) -> (r: Option<(Vec<FlatStorageAndDeltaIterItem>, Ghost<Seq<(Vec<u8>, FlatStateValue)>>, Ghost<
    Seq<Seq<u8>>,
>)>)
    requires
        store.wf(),
    ensures
        match r {
            Some(t) => {
                let items = t.0;
                let base = t.1@;
                let bs = t.2@;
                &&& is_chain_path(store@.deltas, shard, flat_head@.hash, block_hash@, bs)
                &&& item_views(items@) == base_stream(base) + deltas_stream(
                    store@.deltas,
                    shard,
                    bs,
                )
                &&& forall|a: int, b: int|
                    0 <= a < b < base.len() ==> (#[trigger] base[a]).0@ != (#[trigger] base[b]).0@
                &&& forall|j: int|
                    0 <= j < base.len() ==> store@.values.dom().contains(
                        (shard, (#[trigger] base[j]).0@),
                    ) && base[j].1@ == store@.values[(shard, base[j].0@)]
                &&& forall|k: Seq<u8>|
                    store@.values.dom().contains((shard, k)) ==> key_listed(base, k)
            },
            None => !walkable_path_exists(store@.deltas, shard, flat_head@.hash, block_hash@),
        },
{
    let blocks = match blocks_to_head(store, shard, block_hash, flat_head) {
        Some(bs) => bs,
        None => {
            return None;
        },
    };
    let base = store.iter(shard);
    let ghost basev = base@;
    let ghost bsv = Seq::new(blocks@.len(), |i: int| blocks@[i]@);
    let mut items: Vec<FlatStorageAndDeltaIterItem> = Vec::new();
    proof {
        assert(item_views(items@) =~= Seq::<IterItemView>::empty());
    }
    append_base(&mut items, &base);
    proof {
        assert(item_views(items@) =~= base_stream(basev));
    }
    let nblocks = blocks.len();
    let mut bi: usize = 0;
    while bi < nblocks
        invariant
            nblocks == blocks@.len(),
            bsv == Seq::new(blocks@.len(), |i: int| blocks@[i]@),
            store.wf(),
            0 <= bi <= nblocks,
            is_chain_path(store@.deltas, shard, flat_head@.hash, block_hash@, bsv),
            item_views(items@) =~= base_stream(basev) + deltas_stream(
                store@.deltas,
                shard,
                bsv.take(bi as int),
            ),
        decreases nblocks - bi,
    {
        let delta = match store.get_delta(shard, &blocks[bi]) {
            Some(d) => d,
            None => {
                // The path was walked a moment ago: every block on it has a
                // stored delta.
                proof {
                    assert(store@.deltas.dom().contains((shard, bsv[bi as int])));
                    assert(false);
                }
                return None;
            },
        };
        let ghost prev = items@;
        items.push(FlatStorageAndDeltaIterItem::CommitPoint);
        let ghost dv = store@.deltas[(shard, bsv[bi as int])];
        proof {
            assert(bsv[bi as int] == blocks@[bi as int]@);
            assert(delta@ == dv);
            let iv = item_views(items@);
            let target = item_views(prev) + seq![IterItemView::CommitPoint];
            assert(iv.len() == target.len());
            assert forall|j: int| 0 <= j < iv.len() implies iv[j] == target[j] by {
                if j < iv.len() - 1 {
                    assert(items@[j] == prev[j]);
                } else {
                    assert(items@[j] == items@.last());
                }
            }
            assert(iv =~= target);
        }
        append_changes(&mut items, &delta.changes);
        proof {
            assert(crate::status::change_views(delta.changes@) == dv.changes);
            assert(bsv.take(bi + 1).drop_last() =~= bsv.take(bi as int));
            assert(bsv.take(bi + 1).last() == bsv[bi as int]);
            assert(deltas_stream(store@.deltas, shard, bsv.take(bi + 1)) == deltas_stream(
                store@.deltas,
                shard,
                bsv.take(bi as int),
            ) + seq![IterItemView::CommitPoint] + changes_stream(dv.changes));
            assert(item_views(items@) =~= base_stream(basev) + deltas_stream(
                store@.deltas,
                shard,
                bsv.take(bi + 1),
            ));
        }
        bi = bi + 1;
    }
    proof {
        assert(bsv.take(nblocks as int) =~= bsv);
    }
    Some((items, Ghost(basev), Ghost(bsv)))
}

} // verus!
