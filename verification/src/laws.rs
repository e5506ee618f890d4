//! The split's guarantees, stated and proved over the engine's
//! mathematical model: where each kind of entry lands after a successful
//! split, how deltas fold into the result, and why a resumed split agrees
//! with a fresh one.

use vstd::prelude::*;
use crate::semantics::child_result;
use crate::semantics::child_written;
use crate::semantics::last_change;
use crate::semantics::stream_final;
use crate::semantics::lemma_chain_path_unique;
use crate::shard::ShardLayoutView;
use crate::shard::ShardUId;
use crate::state::FlatValueView;
use crate::status::DeltaView;
use crate::stream::is_chain_path;
use crate::trie_key::RouteDecision;
use crate::trie_key::is_both_children_column;
use crate::trie_key::is_left_child_column;
use crate::trie_key::route_of;

verus! {

/// Routing correctness: an account-keyed entry whose account id maps to
/// child `u` under the new layout ends up in `u` with the stream's final
/// value, and not in the other child (both children starting empty).
pub proof fn lemma_routing_correctness(
    pv: Map<Seq<u8>, FlatValueView>,
    d: Map<(ShardUId, Seq<u8>), DeltaView>,
    parent: ShardUId,
    bs: Seq<Seq<u8>>,
    layout: ShardLayoutView,
    left: ShardUId,
    right: ShardUId,
    k: Seq<u8>,
    v: FlatValueView,
    u: ShardUId,
    other: ShardUId,
)
    requires
        route_of(k, layout) == RouteDecision::ToChild(u),
        u == left || u == right,
        other == left || other == right,
        other != u,
        stream_final(pv, d, parent, bs, k) == Some(Some(v)),
    ensures
        child_result(Map::empty(), pv, d, parent, bs, layout, u, left, right).dom().contains(k),
        child_result(Map::empty(), pv, d, parent, bs, layout, u, left, right)[k] == v,
        !child_result(Map::empty(), pv, d, parent, bs, layout, other, left, right).dom().contains(
            k,
        ),
{
    assert(child_written(route_of(k, layout), u, left, right));
    assert(!child_written(route_of(k, layout), other, left, right));
}

/// Both-children columns: an entry whose column is copied to both children
/// ends up in both, with the stream's final value.
pub proof fn lemma_both_children_columns(
    pv: Map<Seq<u8>, FlatValueView>,
    d: Map<(ShardUId, Seq<u8>), DeltaView>,
    parent: ShardUId,
    bs: Seq<Seq<u8>>,
    layout: ShardLayoutView,
    left: ShardUId,
    right: ShardUId,
    k: Seq<u8>,
    v: FlatValueView,
)
    requires
        k.len() > 0,
        is_both_children_column(k[0]),
        stream_final(pv, d, parent, bs, k) == Some(Some(v)),
    ensures
        child_result(Map::empty(), pv, d, parent, bs, layout, left, left, right).dom().contains(k),
        child_result(Map::empty(), pv, d, parent, bs, layout, left, left, right)[k] == v,
        child_result(Map::empty(), pv, d, parent, bs, layout, right, left, right).dom().contains(
            k,
        ),
        child_result(Map::empty(), pv, d, parent, bs, layout, right, left, right)[k] == v,
{
    assert(route_of(k, layout) == RouteDecision::ToBoth);
}

/// Left-only columns: a buffered-receipt entry ends up in the left child
/// only (both children starting empty, the children distinct).
pub proof fn lemma_left_only_columns(
    pv: Map<Seq<u8>, FlatValueView>,
    d: Map<(ShardUId, Seq<u8>), DeltaView>,
    parent: ShardUId,
    bs: Seq<Seq<u8>>,
    layout: ShardLayoutView,
    left: ShardUId,
    right: ShardUId,
    k: Seq<u8>,
    v: FlatValueView,
)
    requires
        k.len() > 0,
        is_left_child_column(k[0]),
        left != right,
        stream_final(pv, d, parent, bs, k) == Some(Some(v)),
    ensures
        child_result(Map::empty(), pv, d, parent, bs, layout, left, left, right).dom().contains(k),
        child_result(Map::empty(), pv, d, parent, bs, layout, left, left, right)[k] == v,
        !child_result(Map::empty(), pv, d, parent, bs, layout, right, left, right).dom().contains(
            k,
        ),
{
    assert(route_of(k, layout) == RouteDecision::ToLeft);
    assert(child_written(route_of(k, layout), left, left, right));
    assert(!child_written(route_of(k, layout), right, left, right));
}

/// The base value and the deltas `d1, d2, ...` of the path, folded in
/// ascending block order with later writes superseding earlier ones and
/// tombstones erasing.
pub open spec fn folded_value(
    base: Option<FlatValueView>,
    d: Map<(ShardUId, Seq<u8>), DeltaView>,
    parent: ShardUId,
    bs: Seq<Seq<u8>>,
    k: Seq<u8>,
) -> Option<FlatValueView>
    decreases bs.len(),
{
    if bs.len() == 0 {
        base
    } else {
        match last_change(d[(parent, bs.last())].changes, k) {
            Some(w) => w,
            None => folded_value(base, d, parent, bs.drop_last(), k),
        }
    }
}

/// Delta integrity: for every key routed to a child, the child's content
/// after a successful split is the base value folded through the deltas in
/// order, honouring tombstones — present exactly when the fold ends on a
/// value.
pub proof fn lemma_delta_integrity(
    pv: Map<Seq<u8>, FlatValueView>,
    d: Map<(ShardUId, Seq<u8>), DeltaView>,
    parent: ShardUId,
    bs: Seq<Seq<u8>>,
    layout: ShardLayoutView,
    left: ShardUId,
    right: ShardUId,
    c: ShardUId,
    k: Seq<u8>,
)
    requires
        child_written(route_of(k, layout), c, left, right),
    ensures
        ({
            let base = if pv.dom().contains(k) {
                Some(pv[k])
            } else {
                None
            };
            let folded = folded_value(base, d, parent, bs, k);
            let res = child_result(Map::empty(), pv, d, parent, bs, layout, c, left, right);
            &&& (res.dom().contains(k) <==> folded is Some)
            &&& (folded is Some ==> res[k] == folded.unwrap())
        }),
{
    let base = if pv.dom().contains(k) {
        Some(pv[k])
    } else {
        None
    };
    lemma_folded_is_stream_final(base, pv, d, parent, bs, k);
}

/// The fold over the deltas agrees with the stream's final value.
proof fn lemma_folded_is_stream_final(
    base: Option<FlatValueView>,
    pv: Map<Seq<u8>, FlatValueView>,
    d: Map<(ShardUId, Seq<u8>), DeltaView>,
    parent: ShardUId,
    bs: Seq<Seq<u8>>,
    k: Seq<u8>,
)
    requires
        base == if pv.dom().contains(k) {
            Some(pv[k])
        } else {
            None::<FlatValueView>
        },
    ensures
        folded_value(base, d, parent, bs, k) == match stream_final(pv, d, parent, bs, k) {
            Some(w) => w,
            None => None::<FlatValueView>,
        },
    decreases bs.len(),
{
    if bs.len() > 0 {
        match last_change(d[(parent, bs.last())].changes, k) {
            Some(_) => {},
            None => {
                lemma_folded_is_stream_final(base, pv, d, parent, bs.drop_last(), k);
            },
        }
    }
}

/// Idempotent resume: a resumed split (children wiped clean) and a fresh
/// split (children created empty) over the same parent contents, delta
/// log, flat head and resharding block produce identical children — the
/// block path between head and target is unique, so both runs fold the
/// same stream.
pub proof fn lemma_idempotent_resume(
    pv: Map<Seq<u8>, FlatValueView>,
    d: Map<(ShardUId, Seq<u8>), DeltaView>,
    parent: ShardUId,
    head_hash: Seq<u8>,
    target: Seq<u8>,
    bs_resumed: Seq<Seq<u8>>,
    bs_fresh: Seq<Seq<u8>>,
    layout: ShardLayoutView,
    left: ShardUId,
    right: ShardUId,
    c: ShardUId,
)
    requires
        is_chain_path(d, parent, head_hash, target, bs_resumed),
        is_chain_path(d, parent, head_hash, target, bs_fresh),
    ensures
        child_result(Map::empty(), pv, d, parent, bs_resumed, layout, c, left, right)
            == child_result(Map::empty(), pv, d, parent, bs_fresh, layout, c, left, right),
{
    lemma_chain_path_unique(d, parent, head_hash, target, bs_resumed, bs_fresh);
}

} // verus!
