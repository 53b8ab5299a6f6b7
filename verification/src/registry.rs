//! The transfer registry: active transfers keyed by a monotonically
//! assigned index.
//!
//! The registry is a sequence of (index, transfer) pairs with pairwise
//! distinct indices, in storage order. [`transfer_pos`] gives the position
//! of an index in the registry, and is the spec-side meaning of every
//! registry lookup.

use vstd::prelude::*;
use crate::types::{Address, TokenId};
use crate::schedule::{
    ReleaseMilestone,
    MilestoneView,
    schedule_view,
    milestones_wf,
    epochs_strictly_ascending,
    duplicate_schedule,
};

verus! {

/// The mathematical content of a transfer.
#[verifier::ext_equal]
pub struct TransferView {
    pub sender: Seq<u8>,
    pub receiver: Seq<u8>,
    pub token_id: Seq<u8>,
    pub token_nonce: u64,
    pub release_schedule: Seq<MilestoneView>,
}

/// An outstanding scheduled-release transfer: a sender's deposit of one
/// asset, released to the receiver milestone by milestone.
pub struct Transfer {
    pub sender: Address,
    pub receiver: Address,
    pub token_id: TokenId,
    pub token_nonce: u64,
    pub release_schedule: Vec<ReleaseMilestone>,
}

impl View for Transfer {
    type V = TransferView;

    open spec fn view(&self) -> TransferView {
        TransferView {
            sender: self.sender@,
            receiver: self.receiver@,
            token_id: self.token_id@,
            token_nonce: self.token_nonce,
            release_schedule: schedule_view(self.release_schedule@),
        }
    }
}

impl Transfer {
    /// Stored amounts are canonical and the schedule's epochs rise strictly.
    pub open spec fn wf(&self) -> bool {
        milestones_wf(self.release_schedule@) && epochs_strictly_ascending(
            schedule_view(self.release_schedule@),
        )
    }

    /// An identical copy of the transfer.
    pub fn duplicate(&self) -> (r: Transfer)
        requires
            self.wf(),
        ensures
            r@ == self@,
            r.wf(),
    {
        let r = Transfer {
            sender: self.sender.duplicate(),
            receiver: self.receiver.duplicate(),
            token_id: self.token_id.duplicate(),
            token_nonce: self.token_nonce,
            release_schedule: duplicate_schedule(&self.release_schedule),
        };
        proof {
            assert(r@ =~= self@);
        }
        r
    }
}

/// The views of a registry's (index, transfer) pairs.
pub open spec fn registry_view(s: Seq<(u64, Transfer)>) -> Seq<(u64, TransferView)> {
    s.map_values(|p: (u64, Transfer)| (p.0, p.1@))
}

/// Every stored transfer is well-formed.
pub open spec fn transfers_wf(s: Seq<(u64, Transfer)>) -> bool {
    forall|i: int| 0 <= i < s.len() ==> (#[trigger] s[i]).1.wf()
}

/// No two registry rows share an index.
pub open spec fn indices_distinct(ts: Seq<(u64, TransferView)>) -> bool {
    forall|i: int, j: int| 0 <= i < j < ts.len() ==> (#[trigger] ts[i]).0 != (#[trigger] ts[j]).0
}

/// The position of `index` in the registry, or -1 when absent.
pub open spec fn transfer_pos(ts: Seq<(u64, TransferView)>, index: u64) -> int
    decreases ts.len(),
{
    if ts.len() == 0 {
        -1
    } else if ts[0].0 == index {
        0
    } else {
        let p = transfer_pos(ts.drop_first(), index);
        if p < 0 {
            -1
        } else {
            p + 1
        }
    }
}

/// Whether the registry holds a transfer under `index`.
pub open spec fn has_transfer(ts: Seq<(u64, TransferView)>, index: u64) -> bool {
    transfer_pos(ts, index) >= 0
}

/// The transfer stored under `index` (meaningful when present).
pub open spec fn transfer_at(ts: Seq<(u64, TransferView)>, index: u64) -> TransferView
    recommends
        has_transfer(ts, index),
{
    ts[transfer_pos(ts, index)].1
}

/// What `transfer_pos` finds: a position in range holding `index`, with no
/// earlier row holding it; or no row holding `index` at all.
pub proof fn lemma_transfer_pos_spec(ts: Seq<(u64, TransferView)>, index: u64)
    ensures
        -1 <= transfer_pos(ts, index) < ts.len(),
        transfer_pos(ts, index) >= 0 ==> ts[transfer_pos(ts, index)].0 == index,
        transfer_pos(ts, index) < 0 ==> forall|j: int|
            0 <= j < ts.len() ==> (#[trigger] ts[j]).0 != index,
    decreases ts.len(),
{
    if ts.len() > 0 && ts[0].0 != index {
        lemma_transfer_pos_spec(ts.drop_first(), index);
        if transfer_pos(ts.drop_first(), index) < 0 {
            assert forall|j: int| 0 <= j < ts.len() implies (#[trigger] ts[j]).0 != index by {
                if j > 0 {
                    assert(ts.drop_first()[j - 1] == ts[j]);
                }
            }
        } else {
            assert(ts.drop_first()[transfer_pos(ts.drop_first(), index)] == ts[transfer_pos(
                ts,
                index,
            )]);
        }
    }
}

/// A first match at position `i` is what `transfer_pos` finds.
pub proof fn lemma_transfer_pos_found(ts: Seq<(u64, TransferView)>, index: u64, i: int)
    requires
        0 <= i < ts.len(),
        ts[i].0 == index,
        forall|j: int| 0 <= j < i ==> (#[trigger] ts[j]).0 != index,
    ensures
        transfer_pos(ts, index) == i,
    decreases i,
{
    if i > 0 {
        let d = ts.drop_first();
        assert(d[i - 1] == ts[i]);
        assert forall|j: int| 0 <= j < i - 1 implies (#[trigger] d[j]).0 != index by {
            assert(d[j] == ts[j + 1]);
        }
        lemma_transfer_pos_found(d, index, i - 1);
    }
}

/// A registry with no row for `index` has no position for it.
pub proof fn lemma_transfer_pos_absent(ts: Seq<(u64, TransferView)>, index: u64)
    requires
        forall|j: int| 0 <= j < ts.len() ==> (#[trigger] ts[j]).0 != index,
    ensures
        transfer_pos(ts, index) < 0,
    decreases ts.len(),
{
    if ts.len() > 0 {
        let d = ts.drop_first();
        assert(forall|j: int| 0 <= j < d.len() ==> (#[trigger] d[j]).0 != index) by {
            assert(forall|j: int| 0 <= j < d.len() ==> #[trigger] d[j] == ts[j + 1]);
        }
        lemma_transfer_pos_absent(d, index);
    }
}

/// Removing the row that holds `index` leaves no row holding `index`.
pub proof fn lemma_removed_transfer_absent(ts: Seq<(u64, TransferView)>, index: u64)
    requires
        indices_distinct(ts),
        has_transfer(ts, index),
    ensures
        !has_transfer(ts.remove(transfer_pos(ts, index)), index),
{
    let p = transfer_pos(ts, index);
    lemma_transfer_pos_spec(ts, index);
    let rest = ts.remove(p);
    assert forall|j: int| 0 <= j < rest.len() implies (#[trigger] rest[j]).0 != index by {
        let j0 = if j < p {
            j
        } else {
            j + 1
        };
        assert(rest[j] == ts[j0]);
        assert(ts[j0].0 != ts[p].0);
    }
    lemma_transfer_pos_absent(rest, index);
}

/// Replacing the payload of the row holding `index` keeps it at the same
/// position.
pub proof fn lemma_transfer_pos_update_same(ts: Seq<(u64, TransferView)>, index: u64, t: TransferView)
    requires
        indices_distinct(ts),
        has_transfer(ts, index),
    ensures
        transfer_pos(ts.update(transfer_pos(ts, index), (index, t)), index) == transfer_pos(
            ts,
            index,
        ),
{
    let p = transfer_pos(ts, index);
    lemma_transfer_pos_spec(ts, index);
    let upd = ts.update(p, (index, t));
    assert forall|j: int| 0 <= j < p implies (#[trigger] upd[j]).0 != index by {
        assert(upd[j] == ts[j]);
        assert(ts[j].0 != ts[p].0);
    }
    lemma_transfer_pos_found(upd, index, p);
}

/// The position of the row holding `index`, as a first match.
#[verifier::loop_isolation(false)]
pub fn position_of(transfers: &Vec<(u64, Transfer)>, index: u64) -> (r: Option<usize>)
    ensures
        match r {
            Some(i) => {
                &&& i < transfers@.len()
                &&& registry_view(transfers@)[i as int].0 == index
                &&& forall|j: int|
                    0 <= j < i ==> (#[trigger] registry_view(transfers@)[j]).0 != index
            },
            None => forall|j: int|
                0 <= j < transfers@.len() ==> (#[trigger] registry_view(transfers@)[j]).0 != index,
        },
{
    let n = transfers.len();
    let mut i: usize = 0;
    while i < n
        invariant
            0 <= i <= n,
            forall|j: int| 0 <= j < i ==> (#[trigger] registry_view(transfers@)[j]).0 != index,
        decreases n - i,
    {
        if transfers[i].0 == index {
            return Some(i);
        }
        i = i + 1;
    }
    None
}

} // verus!
