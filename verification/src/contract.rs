//! The scheduled-release transfer contract.
//!
//! A `Contract` value is the whole durable state: the transfer registry,
//! the monotonically increasing index counter, and the balance ledger. The
//! entrypoints take the caller identity and the current epoch explicitly —
//! both are supplied by the surrounding runtime — and return the outbound
//! payments they owe, so every state change is verified here while fund
//! custody stays with the caller.

use vstd::prelude::*;
use crate::amount::Amount;
use crate::types::{Address, TokenId, AssetKey, Payment, asset_keys_view};
use crate::schedule::{
    ReleaseMilestone,
    MilestoneView,
    schedule_view,
    milestones_wf,
    schedule_sum,
    matured_count,
    matured_sum,
    swept_schedule,
    epochs_valid_from,
    epochs_strictly_ascending,
    lemma_valid_from_ascending,
    lemma_ascending_skip,
    lemma_matured_count_le_len,
    lemma_sum_take_succ,
    total_of,
};
use crate::ledger::{
    BalanceKey,
    BalanceEntry,
    BalanceEntryView,
    ledger_view,
    entries_wf,
    keys_distinct,
    credited,
    owner_balances,
    claimed_ledger,
    claimed_payouts,
    asset_key_of,
    payments_view_of,
    credit,
    drain,
    balances_for,
    lemma_credited_merge,
};
use crate::registry::{
    Transfer,
    TransferView,
    registry_view,
    transfers_wf,
    indices_distinct,
    transfer_pos,
    has_transfer,
    transfer_at,
    position_of,
    lemma_transfer_pos_found,
    lemma_transfer_pos_absent,
};

verus! {

/// The largest number of milestones a release schedule may carry.
pub const MAX_MILESTONES: usize = 20;

/// Why a call was rejected. A rejected call changes no state.
#[derive(Clone, Copy, Debug, PartialEq, Eq, Structural)]
pub enum TransferError {
    /// The proposed schedule has more than `MAX_MILESTONES` milestones.
    TooManyMilestones,
    /// Some milestone's epoch is not strictly above the previous checkpoint
    /// (the creation epoch, or the previous milestone's epoch).
    EpochsNotStrictlyIncreasing,
    /// The milestone amounts do not sum to the attached deposit exactly.
    ScheduleSumMismatch,
    /// No transfer is registered under the given index.
    NoSuchTransfer,
    /// Only the sender of a transfer may cancel it.
    CallerNotSender,
}

impl TransferError {
    /// A human-readable description of the rejection.
    pub fn message(&self) -> (r: &'static str)
        ensures
            *self == TransferError::TooManyMilestones ==> r@ == "Too many milestones."@,
            *self == TransferError::EpochsNotStrictlyIncreasing ==> r@
                == "Milestones epochs are not in strictly increasing order from current epoch."@,
            *self == TransferError::ScheduleSumMismatch ==> r@
                == "Release schedule amounts don't sum up to total amount."@,
            *self == TransferError::NoSuchTransfer ==> r@ == "No transfer with this index."@,
            *self == TransferError::CallerNotSender ==> r@
                == "Caller is not the sender of the transfer."@,
    {
        match self {
            TransferError::TooManyMilestones => "Too many milestones.",
            TransferError::EpochsNotStrictlyIncreasing => "Milestones epochs are not in strictly increasing order from current epoch.",
            TransferError::ScheduleSumMismatch => "Release schedule amounts don't sum up to total amount.",
            TransferError::NoSuchTransfer => "No transfer with this index.",
            TransferError::CallerNotSender => "Caller is not the sender of the transfer.",
        }
    }
}

/// The mathematical content of the whole contract state.
#[verifier::ext_equal]
pub struct ContractView {
    pub transfers: Seq<(u64, TransferView)>,
    pub max_transfer_index: u64,
    pub balances: Seq<BalanceEntryView>,
}

/// The state invariant of the contract, over its mathematical view.
pub open spec fn view_wf(c: ContractView) -> bool {
    &&& indices_distinct(c.transfers)
    &&& forall|i: int|
        0 <= i < c.transfers.len() ==> 1 <= (#[trigger] c.transfers[i]).0
            <= c.max_transfer_index
    &&& forall|i: int|
        0 <= i < c.transfers.len() ==> epochs_strictly_ascending(
            (#[trigger] c.transfers[i]).1.release_schedule,
        )
    &&& keys_distinct(c.balances)
}

/// The balance-ledger key under which a transfer's receiver is credited.
pub open spec fn receiver_key(t: TransferView) -> BalanceKey {
    BalanceKey { owner: t.receiver, token_id: t.token_id, token_nonce: t.token_nonce }
}

/// The balance-ledger key under which a transfer's sender is refunded.
pub open spec fn sender_key(t: TransferView) -> BalanceKey {
    BalanceKey { owner: t.sender, token_id: t.token_id, token_nonce: t.token_nonce }
}

/// The ledger after a maturity sweep of schedule `s` at epoch `e` credits
/// key `k`: unchanged when nothing has matured, else one combined credit of
/// the matured total.
pub open spec fn swept_ledger(
    bs: Seq<BalanceEntryView>,
    k: BalanceKey,
    s: Seq<MilestoneView>,
    e: u64,
) -> Seq<BalanceEntryView> {
    if matured_count(s, e) == 0 {
        bs
    } else {
        credited(bs, k, matured_sum(s, e))
    }
}

/// Whether `createTransfer` accepts a schedule at epoch `e` against a
/// deposit of `deposit`: at most `MAX_MILESTONES` milestones, epochs
/// strictly increasing from `e`, and amounts summing to the deposit.
pub open spec fn schedule_acceptable(sv: Seq<MilestoneView>, e: u64, deposit: nat) -> bool {
    &&& sv.len() <= MAX_MILESTONES
    &&& epochs_valid_from(sv, e)
    &&& schedule_sum(sv) == deposit
}

/// The transfer `t` with its schedule replaced by `s`.
pub open spec fn with_schedule(t: TransferView, s: Seq<MilestoneView>) -> TransferView {
    TransferView {
        sender: t.sender,
        receiver: t.receiver,
        token_id: t.token_id,
        token_nonce: t.token_nonce,
        release_schedule: s,
    }
}

/// The state transition of `executeTransfer`. On a missing index the state
/// is unchanged (and the call fails); otherwise the transfer's schedule is
/// swept at the current epoch, the receiver is credited with the matured
/// total, and the transfer is re-persisted with the reduced schedule, or
/// deleted when the schedule is exhausted.
pub open spec fn spec_execute(c: ContractView, e: u64, index: u64) -> ContractView {
    let p = transfer_pos(c.transfers, index);
    if p < 0 {
        c
    } else {
        let t = c.transfers[p].1;
        let s2 = swept_schedule(t.release_schedule, e);
        ContractView {
            transfers: if s2.len() > 0 {
                c.transfers.update(p, (index, with_schedule(t, s2)))
            } else {
                c.transfers.remove(p)
            },
            max_transfer_index: c.max_transfer_index,
            balances: swept_ledger(c.balances, receiver_key(t), t.release_schedule, e),
        }
    }
}


/// The state transition of `cancelTransfer` once authorized. The matured
/// milestones are swept to the receiver first — a sender cannot race a
/// cancellation to claw back value the receiver has already matured into —
/// then the whole remainder is credited to the sender and the transfer is
/// deleted unconditionally.
pub open spec fn spec_cancel(c: ContractView, e: u64, index: u64) -> ContractView {
    let p = transfer_pos(c.transfers, index);
    if p < 0 {
        c
    } else {
        let t = c.transfers[p].1;
        let bs1 = swept_ledger(c.balances, receiver_key(t), t.release_schedule, e);
        ContractView {
            transfers: c.transfers.remove(p),
            max_transfer_index: c.max_transfer_index,
            balances: credited(
                bs1,
                sender_key(t),
                schedule_sum(swept_schedule(t.release_schedule, e)),
            ),
        }
    }
}

/// The whole contract state: transfer registry, index counter and balance
/// ledger.
pub struct Contract {
    transfers: Vec<(u64, Transfer)>,
    max_transfer_index: u64,
    balances: Vec<BalanceEntry>,
}

impl View for Contract {
    type V = ContractView;

    closed spec fn view(&self) -> ContractView {
        ContractView {
            transfers: registry_view(self.transfers@),
            max_transfer_index: self.max_transfer_index,
            balances: ledger_view(self.balances@),
        }
    }
}

impl Contract {
    /// The state invariant: the view invariant, plus canonical stored
    /// amounts.
    pub closed spec fn wf(&self) -> bool {
        &&& view_wf(self@)
        &&& transfers_wf(self.transfers@)
        &&& entries_wf(self.balances@)
    }

    /// A well-formed contract satisfies the view-level invariant.
    pub proof fn lemma_wf_view(&self)
        requires
            self.wf(),
        ensures
            view_wf(self@),
    {
    }

    /// A freshly deployed contract: no transfers, no balances, counter at
    /// zero (the first assigned index is 1).
    pub fn init() -> (r: Contract)
        ensures
            r@.transfers == Seq::<(u64, TransferView)>::empty(),
            r@.balances == Seq::<BalanceEntryView>::empty(),
            r@.max_transfer_index == 0,
            r.wf(),
    {
        let r = Contract { transfers: Vec::new(), max_transfer_index: 0, balances: Vec::new() };
        proof {
            assert(r@.transfers =~= Seq::<(u64, TransferView)>::empty());
            assert(r@.balances =~= Seq::<BalanceEntryView>::empty());
        }
        r
    }

    /// The highest transfer index assigned so far.
    pub fn max_transfer_index(&self) -> (r: u64)
        ensures
            r == self@.max_transfer_index,
    {
        self.max_transfer_index
    }

    /// Adds `amount` to the claimable balance of `address` for the given
    /// asset, creating the entry if absent. Never fails.
    pub fn increase_balance(
        &mut self,
        address: &Address,
        token_id: &TokenId,
        token_nonce: u64,
        amount: &Amount,
    )
        requires
            old(self).wf(),
            amount.wf(),
        ensures
            final(self).wf(),
            final(self)@.balances == credited(
                old(self)@.balances,
                BalanceKey { owner: address@, token_id: token_id@, token_nonce: token_nonce },
                amount@,
            ),
            final(self)@.transfers == old(self)@.transfers,
            final(self)@.max_transfer_index == old(self)@.max_transfer_index,
    {
        credit(&mut self.balances, address, token_id, token_nonce, amount);
    }

    /// The maturity sweep: consumes every leading milestone whose epoch has
    /// been reached and credits its amount to the transfer's receiver. Pure
    /// accounting — custody moves only when the receiver later claims.
    #[verifier::loop_isolation(false)]
    pub fn claim_transfer_past_milestones(&mut self, current_epoch: u64, transfer: &mut Transfer)
        requires
            old(self).wf(),
            old(transfer).wf(),
        ensures
            final(self).wf(),
            final(transfer).wf(),
            final(transfer)@.release_schedule == swept_schedule(
                old(transfer)@.release_schedule,
                current_epoch,
            ),
            final(transfer)@.sender == old(transfer)@.sender,
            final(transfer)@.receiver == old(transfer)@.receiver,
            final(transfer)@.token_id == old(transfer)@.token_id,
            final(transfer)@.token_nonce == old(transfer)@.token_nonce,
            final(self)@.balances == swept_ledger(
                old(self)@.balances,
                receiver_key(old(transfer)@),
                old(transfer)@.release_schedule,
                current_epoch,
            ),
            final(self)@.transfers == old(self)@.transfers,
            final(self)@.max_transfer_index == old(self)@.max_transfer_index,
    {
        let ghost s0 = old(transfer)@.release_schedule;
        let ghost bs0 = old(self)@.balances;
        let ghost k = receiver_key(old(transfer)@);
        let ghost mut j: int = 0;
        proof {
            assert(s0.skip(0) =~= s0);
        }
        while transfer.release_schedule.len() > 0 && transfer.release_schedule[0].epoch
            <= current_epoch
            invariant
                0 <= j <= s0.len(),
                schedule_view(transfer.release_schedule@) == s0.skip(j),
                milestones_wf(transfer.release_schedule@),
                transfer.sender@ == old(transfer)@.sender,
                transfer.receiver@ == old(transfer)@.receiver,
                transfer.token_id@ == old(transfer)@.token_id,
                transfer.token_nonce == old(transfer)@.token_nonce,
                matured_count(s0, current_epoch) == j + matured_count(s0.skip(j), current_epoch),
                j == 0 ==> ledger_view(self.balances@) == bs0,
                j > 0 ==> ledger_view(self.balances@) == credited(
                    bs0,
                    k,
                    schedule_sum(s0.take(j)),
                ),
                entries_wf(self.balances@),
                keys_distinct(ledger_view(self.balances@)),
                registry_view(self.transfers@) == old(self)@.transfers,
                transfers_wf(self.transfers@),
                self.max_transfer_index == old(self)@.max_transfer_index,
            decreases transfer.release_schedule@.len(),
        {
            proof {
                assert(schedule_view(transfer.release_schedule@)[0] == transfer.release_schedule@[0]@);
                assert(s0.skip(j)[0] == s0[j]);
                assert(s0.skip(j).drop_first() =~= s0.skip(j + 1));
                assert(matured_count(s0.skip(j), current_epoch) == 1 + matured_count(
                    s0.skip(j + 1),
                    current_epoch,
                ));
            }
            let ghost pre_sched = transfer.release_schedule@;
            let m = transfer.release_schedule.remove(0);
            proof {
                assert(m@ == s0[j]);
                assert(schedule_view(transfer.release_schedule@) =~= s0.skip(j + 1));
                assert(forall|q: int|
                    0 <= q < transfer.release_schedule@.len()
                        ==> #[trigger] transfer.release_schedule@[q] == pre_sched[q + 1]);
            }
            self.increase_balance(&transfer.receiver, &transfer.token_id, transfer.token_nonce, &m.amount);
            proof {
                assert(BalanceKey {
                    owner: transfer.receiver@,
                    token_id: transfer.token_id@,
                    token_nonce: transfer.token_nonce,
                } =~= k);
                lemma_sum_take_succ(s0, j);
                if j == 0 {
                    assert(s0.take(0).len() == 0);
                    assert(schedule_sum(s0.take(0)) == 0);
                    assert(schedule_sum(s0.take(1)) == s0[0].amount);
                } else {
                    lemma_credited_merge(bs0, k, schedule_sum(s0.take(j)), m@.amount);
                }
                assert(ledger_view(self.balances@) == credited(
                    bs0,
                    k,
                    schedule_sum(s0.take(j + 1)),
                ));
                j = j + 1;
            }
        }
        proof {
            assert(matured_count(s0.skip(j), current_epoch) == 0);
            assert(matured_count(s0, current_epoch) == j);
            assert(swept_schedule(s0, current_epoch) == s0.skip(j));
            if j > 0 {
                assert(matured_sum(s0, current_epoch) == schedule_sum(s0.take(j)));
            }
        }
    }

    /// The total value still locked in a transfer: the sum of its remaining
    /// milestone amounts.
    pub fn get_transfer_remaining_amount(&self, transfer: &Transfer) -> (r: Amount)
        ensures
            r@ == schedule_sum(transfer@.release_schedule),
            r.wf(),
    {
        total_of(&transfer.release_schedule)
    }

    /// Sweeps the matured milestones of the transfer under `index`,
    /// crediting the receiver, then re-persists the reduced transfer or
    /// deletes it when its schedule is exhausted. Callable by anyone: it
    /// only ever moves value toward the already-designated receiver.
    #[verifier::rlimit(100)]
    pub fn execute_transfer(&mut self, current_epoch: u64, index: u64) -> (r: Result<
        (),
        TransferError,
    >)
        requires
            old(self).wf(),
        ensures
            final(self).wf(),
            final(self)@ == spec_execute(old(self)@, current_epoch, index),
            r is Ok <==> has_transfer(old(self)@.transfers, index),
            r is Err ==> r == Err::<(), TransferError>(TransferError::NoSuchTransfer)
                && final(self)@ == old(self)@,
    {
        let ghost c0 = old(self)@;
        match position_of(&self.transfers, index) {
            None => {
                proof {
                    lemma_transfer_pos_absent(c0.transfers, index);
                    assert(spec_execute(c0, current_epoch, index) =~= c0);
                }
                Err(TransferError::NoSuchTransfer)
            },
            Some(i) => {
                proof {
                    lemma_transfer_pos_found(c0.transfers, index, i as int);
                }
                let (ix, mut transfer) = self.transfers.remove(i);
                let ghost t0 = c0.transfers[i as int].1;
                proof {
                    assert(transfer@ == t0);
                    assert(ix == index);
                    assert(registry_view(self.transfers@) =~= c0.transfers.remove(i as int));
                    assert(transfer.wf()) by {
                        assert(old(self).transfers@[i as int].1.wf());
                    }
                    assert forall|q: int|
                        0 <= q < self.transfers@.len() implies (#[trigger] self.transfers@[q]).1.wf() by {
                        if q < i {
                            assert(self.transfers@[q] == old(self).transfers@[q]);
                        } else {
                            assert(self.transfers@[q] == old(self).transfers@[q + 1]);
                        }
                    }
                    let ts = registry_view(self.transfers@);
                    assert forall|p: int, q: int| 0 <= p < q < ts.len() implies (#[trigger] ts[p]).0
                        != (#[trigger] ts[q]).0 by {
                        let p0 = if p < i { p } else { p + 1 };
                        let q0 = if q < i { q } else { q + 1 };
                        assert(ts[p] == c0.transfers[p0]);
                        assert(ts[q] == c0.transfers[q0]);
                    }
                    assert forall|q: int|
                        0 <= q < ts.len() implies 1 <= (#[trigger] ts[q]).0
                        <= self@.max_transfer_index && epochs_strictly_ascending(
                        ts[q].1.release_schedule,
                    ) by {
                        let q0 = if q < i { q } else { q + 1 };
                        assert(ts[q] == c0.transfers[q0]);
                    }
                    assert(self.wf());
                }
                self.claim_transfer_past_milestones(current_epoch, &mut transfer);
                let ghost s2 = swept_schedule(t0.release_schedule, current_epoch);
                proof {
                    assert(transfer@ =~= with_schedule(t0, s2));
                }
                if transfer.release_schedule.len() > 0 {
                    let ghost mid = self.transfers@;
                    self.transfers.insert(i, (ix, transfer));
                    proof {
                        assert(registry_view(mid) == c0.transfers.remove(i as int));
                        assert(self.transfers@ == mid.insert(i as int, (ix, transfer)));
                        assert forall|q: int|
                            0 <= q < self.transfers@.len() implies (
                        #[trigger] self.transfers@[q]).1.wf() by {
                            if q < i {
                                assert(self.transfers@[q] == mid[q]);
                            } else if q > i {
                                assert(self.transfers@[q] == mid[q - 1]);
                            }
                        }
                        let ghost tgt = c0.transfers.update(
                            i as int,
                            (index, with_schedule(t0, s2)),
                        );
                        assert forall|q: int|
                            0 <= q < self.transfers@.len() implies registry_view(self.transfers@)[q]
                            == tgt[q] by {
                            if q < i {
                                assert(self.transfers@[q] == mid[q]);
                                assert(registry_view(self.transfers@)[q] == registry_view(mid)[q]);
                                assert(registry_view(mid)[q] == c0.transfers.remove(i as int)[q]);
                            } else if q > i {
                                assert(self.transfers@[q] == mid[q - 1]);
                                assert(registry_view(self.transfers@)[q] == registry_view(
                                    mid,
                                )[q - 1]);
                                assert(registry_view(mid)[q - 1] == c0.transfers.remove(
                                    i as int,
                                )[q - 1]);
                                assert(c0.transfers.remove(i as int)[q - 1] == c0.transfers[q]);
                            } else {
                                assert(registry_view(self.transfers@)[q] == (ix, transfer@));
                            }
                        }
                        assert(registry_view(self.transfers@) =~= tgt);
                        let ts = registry_view(self.transfers@);
                        assert(epochs_strictly_ascending(s2)) by {
                            assert(epochs_strictly_ascending(t0.release_schedule));
                            lemma_matured_count_le_len(t0.release_schedule, current_epoch);
                            lemma_ascending_skip(
                                t0.release_schedule,
                                matured_count(t0.release_schedule, current_epoch) as int,
                            );
                        }
                        assert forall|p: int, q: int| 0 <= p < q < ts.len() implies (
                        #[trigger] ts[p]).0 != (#[trigger] ts[q]).0 by {
                            assert(ts[p].0 == c0.transfers[p].0);
                            assert(ts[q].0 == c0.transfers[q].0);
                        }
                        assert forall|q: int|
                            0 <= q < ts.len() implies 1 <= (#[trigger] ts[q]).0
                            <= self@.max_transfer_index && epochs_strictly_ascending(
                            ts[q].1.release_schedule,
                        ) by {
                            assert(ts[q] == tgt[q]);
                        }
                        assert(self.wf());
                        assert(self@ =~= spec_execute(c0, current_epoch, index));
                    }
                } else {
                    proof {
                        assert(self@ =~= spec_execute(c0, current_epoch, index));
                    }
                }
                Ok(())
            },
        }
    }

}


impl Contract {
    /// Registers a new scheduled-release transfer of the attached deposit.
    /// The schedule is validated against the current epoch and the deposit;
    /// any failure aborts with no state change. On success the next index
    /// (`max_transfer_index + 1`) is assigned and returned; the deposit is
    /// understood to be custodied by the caller's runtime from this moment,
    /// with the stored schedule as the only claim on it.
    #[verifier::loop_isolation(false)]
    pub fn create_transfer(
        &mut self,
        caller: &Address,
        current_epoch: u64,
        receiver: Address,
        release_schedule: Vec<ReleaseMilestone>,
        payment: Payment,
    ) -> (r: Result<u64, TransferError>)
        requires
            old(self).wf(),
            milestones_wf(release_schedule@),
            payment.wf(),
            old(self)@.max_transfer_index < u64::MAX,
        ensures
            final(self).wf(),
            r is Ok <==> schedule_acceptable(
                schedule_view(release_schedule@),
                current_epoch,
                payment@.amount,
            ),
            r == Result::<u64, TransferError>::Err(TransferError::TooManyMilestones)
                <==> release_schedule@.len() > MAX_MILESTONES,
            r == Result::<u64, TransferError>::Err(TransferError::EpochsNotStrictlyIncreasing)
                <==> release_schedule@.len() <= MAX_MILESTONES && !epochs_valid_from(
                schedule_view(release_schedule@),
                current_epoch,
            ),
            r == Result::<u64, TransferError>::Err(TransferError::ScheduleSumMismatch)
                <==> release_schedule@.len() <= MAX_MILESTONES && epochs_valid_from(
                schedule_view(release_schedule@),
                current_epoch,
            ) && schedule_sum(schedule_view(release_schedule@)) != payment@.amount,
            r is Err ==> final(self)@ == old(self)@,
            r matches Ok(ix) ==> {
                &&& ix == old(self)@.max_transfer_index + 1
                &&& final(self)@.max_transfer_index == ix
                &&& final(self)@.balances == old(self)@.balances
                &&& final(self)@.transfers == old(self)@.transfers.push(
                    (
                        ix,
                        TransferView {
                            sender: caller@,
                            receiver: receiver@,
                            token_id: payment@.token_id,
                            token_nonce: payment@.token_nonce,
                            release_schedule: schedule_view(release_schedule@),
                        },
                    ),
                )
            },
    {
        let ghost c0 = old(self)@;
        let ghost sv = schedule_view(release_schedule@);
        if release_schedule.len() > MAX_MILESTONES {
            return Err(TransferError::TooManyMilestones);
        }
        let n = release_schedule.len();
        let mut last_epoch = current_epoch;
        let mut i: usize = 0;
        while i < n
            invariant
                0 <= i <= n,
                forall|j: int|
                    0 <= j < i ==> (#[trigger] sv[j]).epoch > (if j == 0 {
                        current_epoch
                    } else {
                        sv[j - 1].epoch
                    }),
                last_epoch == if i == 0 {
                    current_epoch
                } else {
                    sv[i - 1].epoch
                },
            decreases n - i,
        {
            if release_schedule[i].epoch <= last_epoch {
                proof {
                    assert((sv[i as int]).epoch <= (if i == 0 {
                        current_epoch
                    } else {
                        sv[i as int - 1].epoch
                    }));
                    assert(!epochs_valid_from(sv, current_epoch));
                }
                return Err(TransferError::EpochsNotStrictlyIncreasing);
            }
            last_epoch = release_schedule[i].epoch;
            i = i + 1;
        }
        proof {
            assert(epochs_valid_from(sv, current_epoch));
        }
        let total = total_of(&release_schedule);
        if !total.equals(&payment.amount) {
            return Err(TransferError::ScheduleSumMismatch);
        }
        let index = self.max_transfer_index + 1;
        let transfer = Transfer {
            sender: caller.duplicate(),
            receiver,
            token_id: payment.token_id,
            token_nonce: payment.token_nonce,
            release_schedule,
        };
        proof {
            lemma_valid_from_ascending(sv, current_epoch);
            assert(transfer.wf());
        }
        self.transfers.push((index, transfer));
        self.max_transfer_index = index;
        proof {
            assert(registry_view(self.transfers@) =~= c0.transfers.push((index, transfer@)));
            let ts = registry_view(self.transfers@);
            assert forall|q: int|
                0 <= q < self.transfers@.len() implies (#[trigger] self.transfers@[q]).1.wf() by {
                if q < self.transfers@.len() - 1 {
                    assert(self.transfers@[q] == old(self).transfers@[q]);
                }
            }
            assert forall|p: int, q: int| 0 <= p < q < ts.len() implies (#[trigger] ts[p]).0 != (
            #[trigger] ts[q]).0 by {
                if q < ts.len() - 1 {
                    assert(ts[p] == c0.transfers[p]);
                    assert(ts[q] == c0.transfers[q]);
                } else {
                    assert(ts[p] == c0.transfers[p]);
                    assert(ts[q].0 == index);
                }
            }
            assert forall|q: int|
                0 <= q < ts.len() implies 1 <= (#[trigger] ts[q]).0 <= self@.max_transfer_index
                && epochs_strictly_ascending(ts[q].1.release_schedule) by {
                if q < ts.len() - 1 {
                    assert(ts[q] == c0.transfers[q]);
                }
            }
            assert(self.wf());
        }
        Ok(index)
    }

    /// Cancels an outstanding transfer. Only the sender may cancel. The
    /// matured milestones are swept to the receiver first; the whole
    /// remainder is then credited back to the sender and the transfer is
    /// deleted unconditionally.
    #[verifier::rlimit(100)]
    pub fn cancel_transfer(&mut self, caller: &Address, current_epoch: u64, index: u64) -> (r:
        Result<(), TransferError>)
        requires
            old(self).wf(),
        ensures
            final(self).wf(),
            r is Ok <==> has_transfer(old(self)@.transfers, index) && transfer_at(
                old(self)@.transfers,
                index,
            ).sender == caller@,
            !has_transfer(old(self)@.transfers, index) ==> r == Result::<
                (),
                TransferError,
            >::Err(TransferError::NoSuchTransfer),
            has_transfer(old(self)@.transfers, index) && transfer_at(
                old(self)@.transfers,
                index,
            ).sender != caller@ ==> r == Result::<(), TransferError>::Err(
                TransferError::CallerNotSender,
            ),
            r is Err ==> final(self)@ == old(self)@,
            r is Ok ==> final(self)@ == spec_cancel(old(self)@, current_epoch, index),
    {
        let ghost c0 = old(self)@;
        match position_of(&self.transfers, index) {
            None => {
                proof {
                    lemma_transfer_pos_absent(c0.transfers, index);
                }
                Err(TransferError::NoSuchTransfer)
            },
            Some(i) => {
                proof {
                    lemma_transfer_pos_found(c0.transfers, index, i as int);
                    assert(transfer_at(c0.transfers, index) == c0.transfers[i as int].1);
                }
                if !self.transfers[i].1.sender.equals(caller) {
                    return Err(TransferError::CallerNotSender);
                }
                let (ix, mut transfer) = self.transfers.remove(i);
                let ghost t0 = c0.transfers[i as int].1;
                proof {
                    assert(transfer@ == t0);
                    assert(registry_view(self.transfers@) =~= c0.transfers.remove(i as int));
                    assert(transfer.wf()) by {
                        assert(old(self).transfers@[i as int].1.wf());
                    }
                    assert forall|q: int|
                        0 <= q < self.transfers@.len() implies (
                    #[trigger] self.transfers@[q]).1.wf() by {
                        if q < i {
                            assert(self.transfers@[q] == old(self).transfers@[q]);
                        } else {
                            assert(self.transfers@[q] == old(self).transfers@[q + 1]);
                        }
                    }
                    let ts = registry_view(self.transfers@);
                    assert forall|p: int, q: int| 0 <= p < q < ts.len() implies (
                    #[trigger] ts[p]).0 != (#[trigger] ts[q]).0 by {
                        let p0 = if p < i {
                            p
                        } else {
                            p + 1
                        };
                        let q0 = if q < i {
                            q
                        } else {
                            q + 1
                        };
                        assert(ts[p] == c0.transfers[p0]);
                        assert(ts[q] == c0.transfers[q0]);
                    }
                    assert forall|q: int|
                        0 <= q < ts.len() implies 1 <= (#[trigger] ts[q]).0
                        <= self@.max_transfer_index && epochs_strictly_ascending(
                        ts[q].1.release_schedule,
                    ) by {
                        let q0 = if q < i {
                            q
                        } else {
                            q + 1
                        };
                        assert(ts[q] == c0.transfers[q0]);
                    }
                    assert(self.wf());
                }
                self.claim_transfer_past_milestones(current_epoch, &mut transfer);
                let remaining = self.get_transfer_remaining_amount(&transfer);
                self.increase_balance(
                    &transfer.sender,
                    &transfer.token_id,
                    transfer.token_nonce,
                    &remaining,
                );
                proof {
                    assert(BalanceKey {
                        owner: transfer.sender@,
                        token_id: transfer.token_id@,
                        token_nonce: transfer.token_nonce,
                    } =~= sender_key(t0));
                    assert(self@ =~= spec_cancel(c0, current_epoch, index));
                }
                Ok(())
            },
        }
    }

    /// Withdraws the caller's full accumulated balance for each listed
    /// asset, deleting the entries; assets with no entry are silently
    /// skipped. Returns the payments the runtime must now send to the
    /// caller, in claim order.
    #[verifier::loop_isolation(false)]
    pub fn claim_balances(&mut self, caller: &Address, tokens: Vec<AssetKey>) -> (r: Vec<Payment>)
        requires
            old(self).wf(),
        ensures
            final(self).wf(),
            final(self)@.balances == claimed_ledger(
                old(self)@.balances,
                caller@,
                asset_keys_view(tokens@),
            ),
            payments_view_of(r@) == claimed_payouts(
                old(self)@.balances,
                caller@,
                asset_keys_view(tokens@),
            ),
            final(self)@.transfers == old(self)@.transfers,
            final(self)@.max_transfer_index == old(self)@.max_transfer_index,
            forall|i: int| 0 <= i < r@.len() ==> (#[trigger] r@[i]).wf(),
    {
        let ghost bs0 = old(self)@.balances;
        let ghost kv = asset_keys_view(tokens@);
        let n = tokens.len();
        let mut out: Vec<Payment> = Vec::new();
        let mut i: usize = 0;
        proof {
            assert(kv.take(0).len() == 0);
            assert(claimed_ledger(bs0, caller@, kv.take(0)) == bs0);
            assert(payments_view_of(out@) =~= claimed_payouts(bs0, caller@, kv.take(0)));
        }
        while i < n
            invariant
                0 <= i <= n,
                ledger_view(self.balances@) == claimed_ledger(bs0, caller@, kv.take(i as int)),
                payments_view_of(out@) == claimed_payouts(bs0, caller@, kv.take(i as int)),
                entries_wf(self.balances@),
                keys_distinct(ledger_view(self.balances@)),
                self.transfers@ == old(self).transfers@,
                self.max_transfer_index == old(self)@.max_transfer_index,
                forall|j: int| 0 <= j < out@.len() ==> (#[trigger] out@[j]).wf(),
            decreases n - i,
        {
            proof {
                assert(kv.take(i + 1).drop_last() =~= kv.take(i as int));
                assert(kv.take(i + 1).last() == kv[i as int]);
            }
            let tok = &tokens[i];
            let ghost pre = ledger_view(self.balances@);
            let res = drain(&mut self.balances, caller, &tok.token_id, tok.token_nonce);
            proof {
                assert(asset_key_of(caller@, kv[i as int]) =~= BalanceKey {
                    owner: caller@,
                    token_id: tok.token_id@,
                    token_nonce: tok.token_nonce,
                });
                assert(ledger_view(self.balances@) == claimed_ledger(
                    bs0,
                    caller@,
                    kv.take(i + 1),
                ));
            }
            match res {
                Some(p) => {
                    out.push(p);
                    proof {
                        assert(payments_view_of(out@) =~= claimed_payouts(
                            bs0,
                            caller@,
                            kv.take(i + 1),
                        ));
                    }
                },
                None => {
                    proof {
                        assert(payments_view_of(out@) =~= claimed_payouts(
                            bs0,
                            caller@,
                            kv.take(i + 1),
                        ));
                    }
                },
            }
            i = i + 1;
        }
        proof {
            assert(kv.take(n as int) =~= kv);
        }
        out
    }

    /// All (index, transfer) pairs currently registered, in storage order.
    #[verifier::loop_isolation(false)]
    pub fn get_transfers(&self) -> (r: Vec<(u64, Transfer)>)
        requires
            self.wf(),
        ensures
            registry_view(r@) == self@.transfers,
            transfers_wf(r@),
    {
        let n = self.transfers.len();
        let mut out: Vec<(u64, Transfer)> = Vec::new();
        let mut i: usize = 0;
        while i < n
            invariant
                0 <= i <= n,
                out@.len() == i,
                forall|j: int| 0 <= j < i ==> #[trigger] registry_view(out@)[j] == self@.transfers[j],
                forall|j: int| 0 <= j < i ==> (#[trigger] out@[j]).1.wf(),
            decreases n - i,
        {
            let pair = &self.transfers[i];
            proof {
                assert(self.transfers@[i as int].1.wf());
            }
            let copy = (pair.0, pair.1.duplicate());
            let ghost prev = out@;
            out.push(copy);
            proof {
                assert forall|j: int|
                    0 <= j < i + 1 implies #[trigger] registry_view(out@)[j]
                    == self@.transfers[j] by {
                    if j < i {
                        assert(out@[j] == prev[j]);
                        assert(registry_view(out@)[j] == registry_view(prev)[j]);
                    } else {
                        assert(out@[j] == copy);
                        assert(registry_view(out@)[j] == (copy.0, copy.1@));
                        assert(self@.transfers[j] == (self.transfers@[j].0, self.transfers@[j].1@));
                    }
                }
            }
            i = i + 1;
        }
        proof {
            assert(registry_view(out@) =~= self@.transfers);
        }
        out
    }

    /// All (asset, amount) claimable balances of `address`, in ledger order.
    pub fn get_address_balances(&self, address: &Address) -> (r: Vec<Payment>)
        requires
            self.wf(),
        ensures
            payments_view_of(r@) == owner_balances(self@.balances, address@),
            forall|i: int| 0 <= i < r@.len() ==> (#[trigger] r@[i]).wf(),
    {
        balances_for(&self.balances, address)
    }
}

} // verus!
