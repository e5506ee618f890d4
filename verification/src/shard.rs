//! Shard identifiers and the shard layout: the function from account id to
//! shard id at a given layout generation.

use vstd::prelude::*;
use crate::account::AccountId;
use crate::account::is_valid_account_id;
use crate::account::lex_lt;

verus! {

/// Layout generation of shard layouts with explicit boundary accounts.
pub const BOUNDARY_LAYOUT_VERSION: u32 = 3;

/// Identifies a shard within a specific layout generation.
#[derive(Clone, Copy, Debug, PartialEq, Eq, Hash, Structural)]
pub struct ShardUId {
    pub version: u32,
    pub shard_id: u64,
}

/// Mathematical model of a [`ShardLayout`].
pub struct ShardLayoutView {
    pub version: u32,
    pub boundary_accounts: Seq<Seq<u8>>,
    pub shard_ids: Seq<u64>,
}

/// A shard layout: `n` boundary accounts split the account space into
/// `n + 1` intervals, each assigned one shard id.
#[derive(Debug, PartialEq, Eq)]
pub struct ShardLayout {
    pub version: u32,
    pub boundary_accounts: Vec<AccountId>,
    pub shard_ids: Vec<u64>,
}

impl View for ShardLayout {
    type V = ShardLayoutView;

    open spec fn view(&self) -> ShardLayoutView {
        ShardLayoutView {
            version: self.version,
            boundary_accounts: Seq::new(
                self.boundary_accounts@.len(),
                |i: int| self.boundary_accounts@[i]@,
            ),
            shard_ids: self.shard_ids@,
        }
    }
}

/// A layout is well formed when each boundary account is valid, the
/// boundaries are strictly increasing, and there is one more shard id than
/// there are boundaries.
pub open spec fn layout_wf(l: ShardLayoutView) -> bool {
    &&& l.shard_ids.len() == l.boundary_accounts.len() + 1
    &&& forall|i: int|
        0 <= i < l.boundary_accounts.len() ==> is_valid_account_id(#[trigger] l.boundary_accounts[i])
    &&& forall|i: int|
        0 <= i && i + 1 < l.boundary_accounts.len() ==> lex_lt(
            #[trigger] l.boundary_accounts[i],
            l.boundary_accounts[i + 1],
        )
}

/// Index of the interval an account falls into: the number of boundary
/// accounts that are less than or equal to it.
pub open spec fn shard_index_of(boundaries: Seq<Seq<u8>>, account: Seq<u8>) -> int
    decreases boundaries.len(),
{
    if boundaries.len() == 0 {
        0
    } else if lex_lt(account, boundaries[0]) {
        0
    } else {
        1 + shard_index_of(boundaries.skip(1), account)
    }
}

/// The interval index stays within the boundary count.
pub proof fn lemma_shard_index_bounds(boundaries: Seq<Seq<u8>>, account: Seq<u8>)
    ensures
        0 <= shard_index_of(boundaries, account) <= boundaries.len(),
    decreases boundaries.len(),
{
    if boundaries.len() > 0 && !lex_lt(account, boundaries[0]) {
        lemma_shard_index_bounds(boundaries.skip(1), account);
    }
}

/// The shard id an account maps to under a layout.
pub open spec fn shard_id_of_account(l: ShardLayoutView, account: Seq<u8>) -> u64 {
    l.shard_ids[shard_index_of(l.boundary_accounts, account)]
}

impl ShardLayout {
    /// Well-formed: see [`layout_wf`].
    pub open spec fn wf(&self) -> bool {
        layout_wf(self@)
    }

    /// Builds a boundary-account layout; the caller supplies sorted, valid
    /// boundaries and one shard id per interval.
    pub fn v2(boundary_accounts: Vec<AccountId>, shard_ids: Vec<u64>) -> (r: ShardLayout)
        requires
            shard_ids@.len() == boundary_accounts@.len() + 1,
            forall|i: int|
                0 <= i < boundary_accounts@.len() ==> is_valid_account_id(
                    #[trigger] boundary_accounts@[i]@,
                ),
            forall|i: int|
                0 <= i && i + 1 < boundary_accounts@.len() ==> lex_lt(
                    #[trigger] boundary_accounts@[i]@,
                    boundary_accounts@[i + 1]@,
                ),
        ensures
            r@.version == BOUNDARY_LAYOUT_VERSION,
            r@.boundary_accounts.len() == boundary_accounts@.len(),
            forall|i: int|
                0 <= i < boundary_accounts@.len() ==> #[trigger] r@.boundary_accounts[i]
                    == boundary_accounts@[i]@,
            r@.shard_ids == shard_ids@,
            r.wf(),
    {
        let r = ShardLayout { version: BOUNDARY_LAYOUT_VERSION, boundary_accounts, shard_ids };
        proof {
            let bs = r@.boundary_accounts;
            assert forall|i: int| 0 <= i < bs.len() implies is_valid_account_id(#[trigger] bs[i]) by {
                assert(bs[i] == r.boundary_accounts@[i]@);
            }
            assert forall|i: int| 0 <= i && i + 1 < bs.len() implies lex_lt(
                #[trigger] bs[i],
                bs[i + 1],
            ) by {
                assert(bs[i] == r.boundary_accounts@[i]@);
                assert(bs[i + 1] == r.boundary_accounts@[i + 1]@);
            }
        }
        r
    }
}

/// Maps an account id to its shard id under the given layout.
pub fn account_id_to_shard_id(account: &AccountId, layout: &ShardLayout) -> (r: u64)
    requires
        layout.wf(),
    ensures
        r == shard_id_of_account(layout@, account@),
{
    let n = layout.boundary_accounts.len();
    let mut i: usize = 0;
    proof {
        assert(layout@.boundary_accounts.skip(0) =~= layout@.boundary_accounts);
    }
    while i < n && !account.lt(&layout.boundary_accounts[i])
        invariant
            n == layout.boundary_accounts@.len(),
            0 <= i <= n,
            shard_index_of(layout@.boundary_accounts, account@) == i as int + shard_index_of(
                layout@.boundary_accounts.skip(i as int),
                account@,
            ),
            layout.wf(),
        decreases n - i,
    {
        proof {
            let bs = layout@.boundary_accounts;
            assert(bs.skip(i as int)[0] == bs[i as int]);
            assert(bs.skip(i as int).skip(1) =~= bs.skip(i as int + 1));
        }
        i = i + 1;
    }
    proof {
        let bs = layout@.boundary_accounts;
        if i == n {
            assert(bs.skip(n as int).len() == 0);
        } else {
            assert(bs.skip(i as int)[0] == bs[i as int]);
        }
        lemma_shard_index_bounds(bs, account@);
    }
    layout.shard_ids[i]
}

impl ShardUId {
    /// The versioned shard identifier of a shard id under a layout.
    pub fn from_shard_id_and_layout(shard_id: u64, layout: &ShardLayout) -> (r: ShardUId)
        ensures
            r == (ShardUId { version: layout@.version, shard_id }),
    {
        ShardUId { version: layout.version, shard_id }
    }
}

} // verus!
