//! Trie-key columns and the key router: every flat-storage key starts with a
//! one-byte column tag, and the router decides which child shard of a split
//! receives the entry.

use vstd::prelude::*;
use crate::account::AccountId;
use crate::account::is_valid_account_id;
use crate::account::validate_account_bytes;
use crate::shard::ShardLayout;
use crate::shard::ShardLayoutView;
use crate::shard::ShardUId;
use crate::shard::account_id_to_shard_id;
use crate::shard::shard_id_of_account;

verus! {

/// Column tag of account entries.
pub const COL_ACCOUNT: u8 = 0;

/// Column tag of contract code, keyed by account id.
pub const COL_CONTRACT_CODE: u8 = 1;

/// Column tag of access keys; the tag byte doubles as the separator between
/// account id and public key.
pub const COL_ACCESS_KEY: u8 = 2;

/// Column tag of received data, keyed by account id and data id.
pub const COL_RECEIVED_DATA: u8 = 3;

/// Column tag of postponed receipt ids.
pub const COL_POSTPONED_RECEIPT_ID: u8 = 4;

/// Column tag of pending data counts.
pub const COL_PENDING_DATA_COUNT: u8 = 5;

/// Column tag of postponed receipts.
pub const COL_POSTPONED_RECEIPT: u8 = 6;

/// Column tag of the delayed-receipt queue and its indices.
pub const COL_DELAYED_RECEIPT_OR_INDICES: u8 = 7;

/// Column tag of contract data, keyed by account id and a data key.
pub const COL_CONTRACT_DATA: u8 = 9;

/// Column tag of promise-yield indices.
pub const COL_PROMISE_YIELD_INDICES: u8 = 10;

/// Column tag of promise-yield timeouts.
pub const COL_PROMISE_YIELD_TIMEOUT: u8 = 11;

/// Column tag of promise-yield receipts.
pub const COL_PROMISE_YIELD_RECEIPT: u8 = 12;

/// Column tag of buffered-receipt indices.
pub const COL_BUFFERED_RECEIPT_INDICES: u8 = 13;

/// Column tag of buffered receipts.
pub const COL_BUFFERED_RECEIPT: u8 = 14;

/// Separator between the account id and the rest of the key, in the columns
/// that use one (a comma).
pub const ACCOUNT_DATA_SEPARATOR: u8 = 44;

/// Columns whose keys embed an account id; their entries are routed to the
/// child that owns the account under the new layout.
pub open spec fn is_account_column(c: u8) -> bool {
    c == COL_ACCOUNT || c == COL_CONTRACT_CODE || c == COL_ACCESS_KEY || c == COL_RECEIVED_DATA
        || c == COL_POSTPONED_RECEIPT_ID || c == COL_PENDING_DATA_COUNT
        || c == COL_POSTPONED_RECEIPT || c == COL_CONTRACT_DATA
}

/// Columns copied to both children verbatim.
pub open spec fn is_both_children_column(c: u8) -> bool {
    c == COL_DELAYED_RECEIPT_OR_INDICES || c == COL_PROMISE_YIELD_INDICES
        || c == COL_PROMISE_YIELD_TIMEOUT || c == COL_PROMISE_YIELD_RECEIPT
}

/// Columns copied to the left child only.
pub open spec fn is_left_child_column(c: u8) -> bool {
    c == COL_BUFFERED_RECEIPT_INDICES || c == COL_BUFFERED_RECEIPT
}

/// Index of the first occurrence of `b` in `s`, or `-1` when absent.
pub open spec fn first_pos(s: Seq<u8>, b: u8) -> int
    decreases s.len(),
{
    if s.len() == 0 {
        -1
    } else if s[0] == b {
        0
    } else {
        let p = first_pos(s.skip(1), b);
        if p < 0 {
            -1
        } else {
            1 + p
        }
    }
}

/// `first_pos` names the first match.
pub proof fn lemma_first_pos_found(s: Seq<u8>, b: u8, k: int)
    requires
        0 <= k < s.len(),
        s[k] == b,
        forall|j: int| 0 <= j < k ==> s[j] != b,
    ensures
        first_pos(s, b) == k,
    decreases k,
{
    if k > 0 {
        lemma_first_pos_found(s.skip(1), b, k - 1);
    }
}

/// `first_pos` is `-1` exactly when the byte does not occur.
pub proof fn lemma_first_pos_none(s: Seq<u8>, b: u8)
    requires
        forall|j: int| 0 <= j < s.len() ==> s[j] != b,
    ensures
        first_pos(s, b) == -1,
    decreases s.len(),
{
    if s.len() > 0 {
        lemma_first_pos_none(s.skip(1), b);
    }
}

/// Finds the first occurrence of `b` in `v` at or after `start`.
pub fn find_byte(v: &Vec<u8>, start: usize, b: u8) -> (r: Option<usize>)
    requires
        start <= v@.len(),
    ensures
        match r {
            Some(j) => start <= j < v@.len() && j - start == first_pos(v@.skip(start as int), b),
            None => first_pos(v@.skip(start as int), b) == -1,
        },
{
    let n = v.len();
    let mut i = start;
    while i < n
        invariant
            start <= i <= n,
            forall|j: int| start <= j < i ==> v@[j] != b,
        decreases n - i,
    {
        if v[i] == b {
            proof {
                let s = v@.skip(start as int);
                assert forall|j: int| 0 <= j < i - start implies s[j] != b by {
                    assert(s[j] == v@[start + j]);
                }
                assert(s[i - start] == v@[i as int]);
                lemma_first_pos_found(s, b, i - start);
            }
            return Some(i);
        }
        i = i + 1;
    }
    proof {
        let s = v@.skip(start as int);
        assert forall|j: int| 0 <= j < s.len() implies s[j] != b by {
            assert(s[j] == v@[start + j]);
        }
        lemma_first_pos_none(s, b);
    }
    None
}

/// Copies `v[from..to]` into a fresh vector.
pub fn copy_range(v: &Vec<u8>, from: usize, to: usize) -> (r: Vec<u8>)
    requires
        from <= to <= v@.len(),
    ensures
        r@ == v@.subrange(from as int, to as int),
{
    let mut out: Vec<u8> = Vec::new();
    let mut i = from;
    while i < to
        invariant
            from <= i <= to,
            out@ =~= v@.subrange(from as int, i as int),
        decreases to - i,
    {
        out.push(v[i]);
        proof {
            assert(out@ =~= v@.subrange(from as int, i + 1));
        }
        i = i + 1;
    }
    proof {
        assert(out@ =~= v@.subrange(from as int, to as int));
    }
    out
}

/// The byte region of an account-column key that holds the account id:
/// everything after the tag for the plain columns, or the bytes up to the
/// column's separator for the compound ones; `None` when the separator is
/// missing.
pub open spec fn account_part_of_key(key: Seq<u8>) -> Option<Seq<u8>> {
    let c = key[0];
    let rest = key.skip(1);
    if c == COL_ACCOUNT || c == COL_CONTRACT_CODE {
        Some(rest)
    } else {
        let sep = if c == COL_ACCESS_KEY {
            COL_ACCESS_KEY
        } else {
            ACCOUNT_DATA_SEPARATOR
        };
        let p = first_pos(rest, sep);
        if p < 0 {
            None
        } else {
            Some(rest.take(p))
        }
    }
}

/// Extracts the account id embedded in an account-column key, `None` when
/// the key's separator is missing or the id is invalid.
pub fn parse_account_id_from_key(key: &Vec<u8>) -> (r: Option<AccountId>)
    requires
        key@.len() >= 1,
        is_account_column(key@[0]),
    ensures
        match r {
            Some(a) => account_part_of_key(key@) == Some(a@) && a.wf(),
            None => match account_part_of_key(key@) {
                Some(part) => !is_valid_account_id(part),
                None => true,
            },
        },
{
    let c = key[0];
    let bytes: Vec<u8> = if c == COL_ACCOUNT || c == COL_CONTRACT_CODE {
        let b = copy_range(key, 1, key.len());
        proof {
            assert(b@ =~= key@.skip(1));
        }
        b
    } else {
        let sep = if c == COL_ACCESS_KEY {
            COL_ACCESS_KEY
        } else {
            ACCOUNT_DATA_SEPARATOR
        };
        match find_byte(key, 1, sep) {
            None => {
                return None;
            },
            Some(p) => {
                let b = copy_range(key, 1, p);
                proof {
                    assert(b@ =~= key@.skip(1).take(p - 1));
                }
                b
            },
        }
    };
    AccountId::from_bytes(bytes)
}

/// Where the router sends an entry during a split.
#[derive(Clone, Copy, Debug, PartialEq, Eq, Structural)]
pub enum RouteDecision {
    /// The entry belongs to a single child: the one owning its account id
    /// under the new layout.
    ToChild(ShardUId),
    /// The entry is copied to both children.
    ToBoth,
    /// The entry is copied to the left child only.
    ToLeft,
    /// The key is empty, its column tag is unknown, or its account id does
    /// not parse: the split must abort.
    Fatal,
}

/// The routing decision for a key under the new layout.
pub open spec fn route_of(key: Seq<u8>, layout: ShardLayoutView) -> RouteDecision {
    if key.len() == 0 {
        RouteDecision::Fatal
    } else {
        let c = key[0];
        if is_account_column(c) {
            match account_part_of_key(key) {
                Some(part) => if is_valid_account_id(part) {
                    RouteDecision::ToChild(
                        ShardUId {
                            version: layout.version,
                            shard_id: shard_id_of_account(layout, part),
                        },
                    )
                } else {
                    RouteDecision::Fatal
                },
                None => RouteDecision::Fatal,
            }
        } else if is_both_children_column(c) {
            RouteDecision::ToBoth
        } else if is_left_child_column(c) {
            RouteDecision::ToLeft
        } else {
            RouteDecision::Fatal
        }
    }
}

/// Classifies a flat-storage key by its column tag and decides which
/// child(ren) of a split receive it under `layout`; the single place where
/// layout-boundary knowledge lives.
pub fn route(key: &Vec<u8>, layout: &ShardLayout) -> (r: RouteDecision)
    requires
        layout.wf(),
    ensures
        r == route_of(key@, layout@),
{
    if key.len() == 0 {
        return RouteDecision::Fatal;
    }
    let c = key[0];
    let account_col = c == COL_ACCOUNT || c == COL_CONTRACT_CODE || c == COL_ACCESS_KEY || c
        == COL_RECEIVED_DATA || c == COL_POSTPONED_RECEIPT_ID || c == COL_PENDING_DATA_COUNT || c
        == COL_POSTPONED_RECEIPT || c == COL_CONTRACT_DATA;
    if account_col {
        match parse_account_id_from_key(key) {
            Some(account) => {
                let shard_id = account_id_to_shard_id(&account, layout);
                RouteDecision::ToChild(ShardUId::from_shard_id_and_layout(shard_id, layout))
            },
            None => RouteDecision::Fatal,
        }
    } else if c == COL_DELAYED_RECEIPT_OR_INDICES || c == COL_PROMISE_YIELD_INDICES || c
        == COL_PROMISE_YIELD_TIMEOUT || c == COL_PROMISE_YIELD_RECEIPT {
        RouteDecision::ToBoth
    } else if c == COL_BUFFERED_RECEIPT_INDICES || c == COL_BUFFERED_RECEIPT {
        RouteDecision::ToLeft
    } else {
        RouteDecision::Fatal
    }
}

} // verus!
