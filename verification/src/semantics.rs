//! The mathematical meaning of a shard split: what the two children hold
//! after the merged stream of the parent's base entries and deltas has been
//! routed and applied.

use vstd::prelude::*;
use crate::shard::ShardLayoutView;
use crate::shard::ShardUId;
use crate::state::FlatValueView;
use crate::status::DeltaView;
use crate::status::FlatChangeView;
use crate::store::FlatKV;
use crate::stream::IterItemView;
use crate::stream::base_stream;
use crate::stream::changes_stream;
use crate::stream::deltas_stream;
use crate::stream::is_chain_path;
use crate::trie_key::RouteDecision;
use crate::trie_key::route_of;

verus! {

/// The values a store holds for one shard, keyed by key alone.
pub open spec fn shard_slice(
    m: Map<(ShardUId, Seq<u8>), FlatValueView>,
    shard: ShardUId,
) -> Map<Seq<u8>, FlatValueView> {
    Map::new(
        |k: Seq<u8>| m.dom().contains((shard, k)),
        |k: Seq<u8>| m[(shard, k)],
    )
}

/// Whether an entry with the given routing decision is written to `child`
/// (one of the two children of a split).
pub open spec fn child_written(
    r: RouteDecision,
    child: ShardUId,
    left: ShardUId,
    right: ShardUId,
) -> bool {
    match r {
        RouteDecision::ToChild(u) => u == child,
        RouteDecision::ToBoth => true,
        RouteDecision::ToLeft => child == left,
        RouteDecision::Fatal => false,
    }
}

/// A key the split can handle: its column is known, its account id parses,
/// and an account-routed key lands in one of the two children.
pub open spec fn key_ok(k: Seq<u8>, layout: ShardLayoutView, left: ShardUId, right: ShardUId) -> bool {
    match route_of(k, layout) {
        RouteDecision::ToChild(u) => u == left || u == right,
        RouteDecision::ToBoth => true,
        RouteDecision::ToLeft => true,
        RouteDecision::Fatal => false,
    }
}

/// One stream entry applied to a child's key-value map.
pub open spec fn apply_entry(
    m: Map<Seq<u8>, FlatValueView>,
    k: Seq<u8>,
    v: Option<FlatValueView>,
    layout: ShardLayoutView,
    child: ShardUId,
    left: ShardUId,
    right: ShardUId,
) -> Map<Seq<u8>, FlatValueView> {
    if child_written(route_of(k, layout), child, left, right) {
        match v {
            Some(val) => m.insert(k, val),
            None => m.remove(k),
        }
    } else {
        m
    }
}

/// The stream applied to a child's key-value map, in order; commit points
/// do not change contents.
pub open spec fn apply_items(
    m: Map<Seq<u8>, FlatValueView>,
    items: Seq<IterItemView>,
    layout: ShardLayoutView,
    child: ShardUId,
    left: ShardUId,
    right: ShardUId,
) -> Map<Seq<u8>, FlatValueView>
    decreases items.len(),
{
    if items.len() == 0 {
        m
    } else {
        let prev = apply_items(m, items.drop_last(), layout, child, left, right);
        match items.last() {
            IterItemView::Entry(k, v) => apply_entry(prev, k, v, layout, child, left, right),
            IterItemView::CommitPoint => prev,
        }
    }
}

/// The last write the stream makes to a key: `None` when the stream never
/// touches it, otherwise the final value (`Some(None)` is a tombstone).
pub open spec fn last_entry_write(items: Seq<IterItemView>, k: Seq<u8>) -> Option<
    Option<FlatValueView>,
>
    decreases items.len(),
{
    if items.len() == 0 {
        None
    } else {
        match items.last() {
            IterItemView::Entry(k2, v) => if k2 == k {
                Some(v)
            } else {
                last_entry_write(items.drop_last(), k)
            },
            IterItemView::CommitPoint => last_entry_write(items.drop_last(), k),
        }
    }
}

/// The last write a single delta's change list makes to a key.
pub open spec fn last_change(changes: Seq<FlatChangeView>, k: Seq<u8>) -> Option<
    Option<FlatValueView>,
>
    decreases changes.len(),
{
    if changes.len() == 0 {
        None
    } else if changes.last().0 == k {
        Some(changes.last().1)
    } else {
        last_change(changes.drop_last(), k)
    }
}

/// The last write the deltas of the blocks `bs`, applied in order, make to
/// a key.
pub open spec fn last_delta_write(
    d: Map<(ShardUId, Seq<u8>), DeltaView>,
    shard: ShardUId,
    bs: Seq<Seq<u8>>,
    k: Seq<u8>,
) -> Option<Option<FlatValueView>>
    decreases bs.len(),
{
    if bs.len() == 0 {
        None
    } else {
        match last_change(d[(shard, bs.last())].changes, k) {
            Some(w) => Some(w),
            None => last_delta_write(d, shard, bs.drop_last(), k),
        }
    }
}

/// What the merged stream leaves at a key: the deltas' last write when one
/// exists, otherwise the parent's base value.
pub open spec fn stream_final(
    pv: Map<Seq<u8>, FlatValueView>,
    d: Map<(ShardUId, Seq<u8>), DeltaView>,
    parent: ShardUId,
    bs: Seq<Seq<u8>>,
    k: Seq<u8>,
) -> Option<Option<FlatValueView>> {
    match last_delta_write(d, parent, bs, k) {
        Some(w) => Some(w),
        None => if pv.dom().contains(k) {
            Some(Some(pv[k]))
        } else {
            None
        },
    }
}

/// What a child holds after a successful split, over its pre-split
/// contents `pre`: every key the stream routes to the child carries the
/// stream's final value (a tombstone erases it), every other key is
/// untouched.
pub open spec fn child_result(
    pre: Map<Seq<u8>, FlatValueView>,
    pv: Map<Seq<u8>, FlatValueView>,
    d: Map<(ShardUId, Seq<u8>), DeltaView>,
    parent: ShardUId,
    bs: Seq<Seq<u8>>,
    layout: ShardLayoutView,
    child: ShardUId,
    left: ShardUId,
    right: ShardUId,
) -> Map<Seq<u8>, FlatValueView> {
    Map::new(
        |k: Seq<u8>| if child_written(route_of(k, layout), child, left, right) {
            match stream_final(pv, d, parent, bs, k) {
                Some(w) => w is Some,
                None => pre.dom().contains(k),
            }
        } else {
            pre.dom().contains(k)
        },
        |k: Seq<u8>| match stream_final(pv, d, parent, bs, k) {
            Some(w) => if child_written(route_of(k, layout), child, left, right) {
                w.unwrap()
            } else {
                pre[k]
            },
            None => pre[k],
        },
    )
}

/// The map a stream prefix leaves at a key is the last write of that
/// prefix, or the starting map's value where the prefix never writes it.
pub proof fn lemma_apply_items_last(
    m: Map<Seq<u8>, FlatValueView>,
    items: Seq<IterItemView>,
    layout: ShardLayoutView,
    child: ShardUId,
    left: ShardUId,
    right: ShardUId,
    k: Seq<u8>,
)
    ensures
        ({
            let a = apply_items(m, items, layout, child, left, right);
            match last_entry_write(items, k) {
                Some(w) => if child_written(route_of(k, layout), child, left, right) {
                    a.dom().contains(k) == (w is Some) && (w is Some ==> a[k] == w.unwrap())
                } else {
                    a.dom().contains(k) == m.dom().contains(k) && (m.dom().contains(k) ==> a[k]
                        == m[k])
                },
                None => a.dom().contains(k) == m.dom().contains(k) && (m.dom().contains(k) ==> a[k]
                    == m[k]),
            }
        }),
    decreases items.len(),
{
    if items.len() > 0 {
        lemma_apply_items_last(m, items.drop_last(), layout, child, left, right, k);
    }
}

/// Splitting a stream in two: the second part's last write wins; the first
/// part's only counts where the second never writes the key.
pub proof fn lemma_last_entry_write_concat(a: Seq<IterItemView>, b: Seq<IterItemView>, k: Seq<u8>)
    ensures
        last_entry_write(a + b, k) == match last_entry_write(b, k) {
            Some(w) => Some(w),
            None => last_entry_write(a, k),
        },
    decreases b.len(),
{
    if b.len() == 0 {
        assert(a + b =~= a);
    } else {
        assert((a + b).drop_last() =~= a + b.drop_last());
        assert((a + b).last() == b.last());
        lemma_last_entry_write_concat(a, b.drop_last(), k);
    }
}

/// A change list's stream writes exactly what the change list writes.
pub proof fn lemma_last_entry_write_changes(changes: Seq<FlatChangeView>, k: Seq<u8>)
    ensures
        last_entry_write(changes_stream(changes), k) == last_change(changes, k),
    decreases changes.len(),
{
    if changes.len() > 0 {
        assert(changes_stream(changes).drop_last() =~= changes_stream(changes.drop_last()));
        assert(changes_stream(changes).last() == IterItemView::Entry(
            changes.last().0,
            changes.last().1,
        ));
        lemma_last_entry_write_changes(changes.drop_last(), k);
    } else {
        assert(changes_stream(changes).len() == 0);
    }
}

/// The delta part of the stream writes exactly what the deltas write.
pub proof fn lemma_last_entry_write_deltas(
    d: Map<(ShardUId, Seq<u8>), DeltaView>,
    shard: ShardUId,
    bs: Seq<Seq<u8>>,
    k: Seq<u8>,
)
    ensures
        last_entry_write(deltas_stream(d, shard, bs), k) == last_delta_write(d, shard, bs, k),
    decreases bs.len(),
{
    if bs.len() == 0 {
        assert(deltas_stream(d, shard, bs).len() == 0);
    } else {
        let head = deltas_stream(d, shard, bs.drop_last()) + seq![IterItemView::CommitPoint];
        let tail = changes_stream(d[(shard, bs.last())].changes);
        assert(deltas_stream(d, shard, bs) == head + tail);
        lemma_last_entry_write_concat(head, tail, k);
        lemma_last_entry_write_changes(d[(shard, bs.last())].changes, k);
        lemma_last_entry_write_concat(
            deltas_stream(d, shard, bs.drop_last()),
            seq![IterItemView::CommitPoint],
            k,
        );
        assert(deltas_stream(d, shard, bs.drop_last()) + seq![IterItemView::CommitPoint] == head);
        assert(last_entry_write(seq![IterItemView::CommitPoint], k) == last_entry_write(
            Seq::<IterItemView>::empty(),
            k,
        )) by {
            assert(seq![IterItemView::CommitPoint].drop_last() =~= Seq::<IterItemView>::empty());
        }
        lemma_last_entry_write_deltas(d, shard, bs.drop_last(), k);
    }
}

/// The base part of the stream writes each base key once, with its value.
pub proof fn lemma_last_entry_write_base(
    base: Seq<(Vec<u8>, crate::state::FlatStateValue)>,
    pv: Map<Seq<u8>, FlatValueView>,
    k: Seq<u8>,
)
    requires
        forall|a: int, b: int|
            0 <= a < b < base.len() ==> (#[trigger] base[a]).0@ != (#[trigger] base[b]).0@,
        forall|j: int|
            0 <= j < base.len() ==> pv.dom().contains((#[trigger] base[j]).0@) && base[j].1@
                == pv[base[j].0@],
        forall|k2: Seq<u8>|
            pv.dom().contains(k2) ==> crate::store::key_listed(base, k2),
    ensures
        last_entry_write(base_stream(base), k) == if pv.dom().contains(k) {
            Some(Some(pv[k]))
        } else {
            None
        },
{
    if pv.dom().contains(k) {
        assert(crate::store::key_listed(base, k));
        let m = choose|m: int| 0 <= m < base.len() && (#[trigger] base[m]).0@ == k;
        lemma_last_entry_write_base_found(base, pv, k, m);
    } else {
        lemma_last_entry_write_base_missing(base, pv, k);
    }
}

/// Helper: a base key's stream write carries the parent's value.
proof fn lemma_last_entry_write_base_found(
    base: Seq<(Vec<u8>, crate::state::FlatStateValue)>,
    pv: Map<Seq<u8>, FlatValueView>,
    k: Seq<u8>,
    m: int,
)
    requires
        forall|a: int, b: int|
            0 <= a < b < base.len() ==> (#[trigger] base[a]).0@ != (#[trigger] base[b]).0@,
        forall|j: int|
            0 <= j < base.len() ==> pv.dom().contains((#[trigger] base[j]).0@) && base[j].1@
                == pv[base[j].0@],
        0 <= m < base.len(),
        base[m].0@ == k,
    ensures
        last_entry_write(base_stream(base), k) == Some(Some(pv[k])),
    decreases base.len(),
{
    assert(base_stream(base).last() == IterItemView::Entry(
        base.last().0@,
        Some(base.last().1@),
    ));
    if m == base.len() - 1 {
        assert(pv.dom().contains(k) && base[m].1@ == pv[k]);
    } else {
        assert(base.last().0@ != k);
        assert(base_stream(base).drop_last() =~= base_stream(base.drop_last()));
        assert(base.drop_last()[m] == base[m]);
        lemma_last_entry_write_base_found(base.drop_last(), pv, k, m);
    }
}

/// Helper: the base stream never writes a key the parent does not hold.
proof fn lemma_last_entry_write_base_missing(
    base: Seq<(Vec<u8>, crate::state::FlatStateValue)>,
    pv: Map<Seq<u8>, FlatValueView>,
    k: Seq<u8>,
)
    requires
        forall|j: int| 0 <= j < base.len() ==> pv.dom().contains((#[trigger] base[j]).0@),
        !pv.dom().contains(k),
    ensures
        last_entry_write(base_stream(base), k) == None::<Option<FlatValueView>>,
    decreases base.len(),
{
    if base.len() > 0 {
        assert(base_stream(base).last() == IterItemView::Entry(
            base.last().0@,
            Some(base.last().1@),
        ));
        assert(base.last().0@ != k);
        assert(base_stream(base).drop_last() =~= base_stream(base.drop_last()));
        assert(forall|j: int|
            0 <= j < base.drop_last().len() ==> (#[trigger] base.drop_last()[j]) == base[j]);
        lemma_last_entry_write_base_missing(base.drop_last(), pv, k);
    }
}

/// The split theorem: applying the whole merged stream to a child's
/// pre-split contents yields exactly `child_result` — for every key the
/// stream's final routed value, tombstones erased, untouched keys kept.
pub proof fn lemma_apply_items_full(
    pre: Map<Seq<u8>, FlatValueView>,
    base: Seq<(Vec<u8>, crate::state::FlatStateValue)>,
    pv: Map<Seq<u8>, FlatValueView>,
    d: Map<(ShardUId, Seq<u8>), DeltaView>,
    parent: ShardUId,
    bs: Seq<Seq<u8>>,
    layout: ShardLayoutView,
    child: ShardUId,
    left: ShardUId,
    right: ShardUId,
)
    requires
        forall|a: int, b: int|
            0 <= a < b < base.len() ==> (#[trigger] base[a]).0@ != (#[trigger] base[b]).0@,
        forall|j: int|
            0 <= j < base.len() ==> pv.dom().contains((#[trigger] base[j]).0@) && base[j].1@
                == pv[base[j].0@],
        forall|k2: Seq<u8>|
            pv.dom().contains(k2) ==> crate::store::key_listed(base, k2),
    ensures
        apply_items(pre, base_stream(base) + deltas_stream(d, parent, bs), layout, child, left, right)
            == child_result(pre, pv, d, parent, bs, layout, child, left, right),
{
    let items = base_stream(base) + deltas_stream(d, parent, bs);
    let a = apply_items(pre, items, layout, child, left, right);
    let c = child_result(pre, pv, d, parent, bs, layout, child, left, right);
    assert forall|k: Seq<u8>| a.dom().contains(k) implies c.dom().contains(k) && a[k] == c[k] by {
        lemma_apply_items_last(pre, items, layout, child, left, right, k);
        lemma_last_entry_write_concat(base_stream(base), deltas_stream(d, parent, bs), k);
        lemma_last_entry_write_deltas(d, parent, bs, k);
        lemma_last_entry_write_base(base, pv, k);
        assert(last_entry_write(items, k) == stream_final(pv, d, parent, bs, k));
    }
    assert forall|k: Seq<u8>| c.dom().contains(k) implies a.dom().contains(k) by {
        lemma_apply_items_last(pre, items, layout, child, left, right, k);
        lemma_last_entry_write_concat(base_stream(base), deltas_stream(d, parent, bs), k);
        lemma_last_entry_write_deltas(d, parent, bs, k);
        lemma_last_entry_write_base(base, pv, k);
        assert(last_entry_write(items, k) == stream_final(pv, d, parent, bs, k));
    }
    assert forall|k: Seq<u8>| #![all_triggers] a.dom().contains(k) == c.dom().contains(k) by {
        lemma_apply_items_last(pre, items, layout, child, left, right, k);
        lemma_last_entry_write_concat(base_stream(base), deltas_stream(d, parent, bs), k);
        lemma_last_entry_write_deltas(d, parent, bs, k);
        lemma_last_entry_write_base(base, pv, k);
        assert(last_entry_write(items, k) == stream_final(pv, d, parent, bs, k));
    }
    assert(a.dom() =~= c.dom());
    assert(a =~= c);
}

/// A chain path between a flat head and a target block is unique: walking
/// the `prev` links backwards from the target forces every element.
#[verifier::rlimit(100)]
#[verifier::spinoff_prover]
pub proof fn lemma_chain_path_unique(
    d: Map<(ShardUId, Seq<u8>), DeltaView>,
    shard: ShardUId,
    head_hash: Seq<u8>,
    target: Seq<u8>,
    bs1: Seq<Seq<u8>>,
    bs2: Seq<Seq<u8>>,
)
    requires
        is_chain_path(d, shard, head_hash, target, bs1),
        is_chain_path(d, shard, head_hash, target, bs2),
    ensures
        bs1 == bs2,
    decreases bs1.len(),
{
    if bs1.len() == 0 {
        assert(target == head_hash);
        if bs2.len() > 0 {
            assert(bs2.last() == head_hash);
            assert(bs2[bs2.len() - 1] != head_hash);
            assert(false);
        }
        assert(bs1 =~= bs2);
    } else {
        assert(bs1.last() == target);
        assert(bs1[bs1.len() - 1] != head_hash);
        if bs2.len() == 0 {
            assert(target == head_hash);
            assert(false);
        }
        assert(bs2.last() == target);
        let prev = d[(shard, target)].block.prev_hash;
        if bs1.len() == 1 {
            assert(prev == head_hash);
            if bs2.len() > 1 {
                assert(d[(shard, bs2[bs2.len() - 1])].block.prev_hash == bs2[bs2.len() - 2]);
                assert(bs2[bs2.len() - 2] == head_hash);
                assert(false);
            }
            assert(bs1[0] == target);
            assert(bs2[0] == target);
            assert(bs1 =~= bs2);
        } else {
            assert(d[(shard, bs1[bs1.len() - 1])].block.prev_hash == bs1[bs1.len() - 2]);
            assert(prev == bs1[bs1.len() - 2]);
            assert(prev != head_hash);
            if bs2.len() == 1 {
                assert(d[(shard, bs2[0])].block.prev_hash == head_hash);
                assert(false);
            }
            assert(d[(shard, bs2[bs2.len() - 1])].block.prev_hash == bs2[bs2.len() - 2]);
            let t1 = bs1.drop_last();
            let t2 = bs2.drop_last();
            assert(is_chain_path(d, shard, head_hash, prev, t1)) by {
                assert(t1.last() == bs1[bs1.len() - 2]);
                assert(forall|i: int|
                    0 <= i < t1.len() ==> #[trigger] t1[i] == bs1[i]);
            }
            assert(is_chain_path(d, shard, head_hash, prev, t2)) by {
                assert(t2.last() == bs2[bs2.len() - 2]);
                assert(forall|i: int|
                    0 <= i < t2.len() ==> #[trigger] t2[i] == bs2[i]);
            }
            lemma_chain_path_unique(d, shard, head_hash, prev, t1, t2);
            assert(bs1.len() == bs2.len());
            assert forall|i: int| 0 <= i < bs1.len() implies bs1[i] == bs2[i] by {
                if i < bs1.len() - 1 {
                    assert(bs1[i] == t1[i]);
                    assert(bs2[i] == t2[i]);
                } else {
                    assert(bs1[i] == target);
                    assert(bs2[i] == target);
                }
            }
            assert(bs1 =~= bs2);
        }
    }
}

} // verus!
