//! The laws of the ledger: properties that hold of every state and every
//! call, proved once and for all over the spec-level transitions.

use vstd::prelude::*;
use crate::types::{AssetKeyView, PaymentView};
use crate::schedule::{
    MilestoneView,
    schedule_sum,
    matured_count,
    matured_sum,
    swept_schedule,
    epochs_strictly_ascending,
    lemma_matured_count_le_len,
    lemma_sum_split,
    lemma_full_maturity,
    lemma_sweep_idempotent,
    lemma_ascending_skip,
};
use crate::ledger::{
    BalanceEntryView,
    balance_of,
    balance_or_zero,
    keys_distinct,
    credited,
    drained,
    claimed_ledger,
    claimed_payouts,
    asset_key_of,
    lemma_balance_of_credited_same,
    lemma_balance_of_credited_other,
    lemma_balance_of_drained_same,
    lemma_drained_absent,
};
use crate::registry::{
    transfer_pos,
    has_transfer,
    transfer_at,
    lemma_transfer_pos_spec,
    lemma_removed_transfer_absent,
    lemma_transfer_pos_update_same,
};
use crate::contract::{
    ContractView,
    view_wf,
    spec_execute,
    spec_cancel,
    swept_ledger,
    receiver_key,
    sender_key,
    with_schedule,
    schedule_acceptable,
};

verus! {

/// Conservation at creation: an accepted schedule releases, milestone by
/// milestone, exactly the deposited amount.
pub proof fn lemma_creation_conserves_deposit(sv: Seq<MilestoneView>, e: u64, deposit: nat)
    requires
        schedule_acceptable(sv, e, deposit),
    ensures
        schedule_sum(sv) == deposit,
{
}

/// Conservation at every sweep: the value credited by a maturity sweep plus
/// the value still locked afterwards is exactly the schedule's total. No
/// value is created or destroyed by `executeTransfer` or by the sweep half
/// of `cancelTransfer`.
pub proof fn lemma_sweep_conserves_value(s: Seq<MilestoneView>, e: u64)
    ensures
        matured_sum(s, e) + schedule_sum(swept_schedule(s, e)) == schedule_sum(s),
{
    lemma_matured_count_le_len(s, e);
    lemma_sum_split(s, matured_count(s, e) as int);
}

/// Idempotent maturity sweep: executing a transfer twice at one epoch
/// leaves exactly the state of executing it once. The second call either
/// finds the transfer gone or finds nothing further matured.
pub proof fn lemma_execute_idempotent(c: ContractView, e: u64, index: u64)
    requires
        view_wf(c),
    ensures
        spec_execute(spec_execute(c, e, index), e, index) == spec_execute(c, e, index),
{
    let p = transfer_pos(c.transfers, index);
    lemma_transfer_pos_spec(c.transfers, index);
    if p >= 0 {
        let t = c.transfers[p].1;
        let s = t.release_schedule;
        let s2 = swept_schedule(s, e);
        let c1 = spec_execute(c, e, index);
        lemma_sweep_idempotent(s, e);
        lemma_matured_count_le_len(s, e);
        if s2.len() > 0 {
            lemma_transfer_pos_update_same(c.transfers, index, with_schedule(t, s2));
            assert(transfer_pos(c1.transfers, index) == p);
            let t1 = c1.transfers[p].1;
            assert(t1 == with_schedule(t, s2));
            assert(swept_schedule(s2, e) =~= s2);
            assert(with_schedule(t1, swept_schedule(s2, e)) =~= t1);
            assert(c1.transfers.update(p, (index, t1)) =~= c1.transfers);
            assert(swept_ledger(c1.balances, receiver_key(t1), s2, e) == c1.balances);
            assert(spec_execute(c1, e, index) =~= c1);
        } else {
            lemma_removed_transfer_absent(c.transfers, index);
            assert(transfer_pos(c1.transfers, index) < 0);
            assert(spec_execute(c1, e, index) == c1);
        }
    }
}

/// Full maturation: once the current epoch has reached the last milestone's
/// epoch, one `executeTransfer` removes the transfer entirely and credits
/// the receiver with the whole remaining total. Together with
/// [`lemma_sweep_conserves_value`], partial executions and the final one
/// credit exactly the deposited amount overall.
pub proof fn lemma_full_maturation(c: ContractView, e: u64, index: u64)
    requires
        view_wf(c),
        has_transfer(c.transfers, index),
        transfer_at(c.transfers, index).release_schedule.len() > 0,
        transfer_at(c.transfers, index).release_schedule.last().epoch <= e,
    ensures
        !has_transfer(spec_execute(c, e, index).transfers, index),
        balance_or_zero(spec_execute(c, e, index).balances, receiver_key(transfer_at(c.transfers, index)))
            == balance_or_zero(c.balances, receiver_key(transfer_at(c.transfers, index)))
            + schedule_sum(transfer_at(c.transfers, index).release_schedule),
{
    let p = transfer_pos(c.transfers, index);
    lemma_transfer_pos_spec(c.transfers, index);
    let t = c.transfers[p].1;
    let s = t.release_schedule;
    assert(epochs_strictly_ascending(s)) by {
        assert(c.transfers[p].0 <= c.max_transfer_index);
    }
    lemma_full_maturity(s, e);
    assert(swept_schedule(s, e).len() == 0) by {
        assert(s.skip(s.len() as int).len() == 0);
    }
    lemma_removed_transfer_absent(c.transfers, index);
    assert(matured_sum(s, e) == schedule_sum(s)) by {
        assert(s.take(s.len() as int) =~= s);
    }
    lemma_balance_of_credited_same(c.balances, receiver_key(t), matured_sum(s, e));
}

/// Staged maturation: a partial execution at an earlier epoch followed by
/// an execution at or after the last milestone's epoch removes the transfer
/// and credits the receiver, across the two calls, with exactly the
/// schedule's whole total.
pub proof fn lemma_staged_maturation(c: ContractView, e1: u64, e2: u64, index: u64)
    requires
        view_wf(c),
        has_transfer(c.transfers, index),
        transfer_at(c.transfers, index).release_schedule.len() > 0,
        transfer_at(c.transfers, index).release_schedule.last().epoch <= e2,
    ensures
        !has_transfer(spec_execute(spec_execute(c, e1, index), e2, index).transfers, index),
        balance_or_zero(
            spec_execute(spec_execute(c, e1, index), e2, index).balances,
            receiver_key(transfer_at(c.transfers, index)),
        ) == balance_or_zero(c.balances, receiver_key(transfer_at(c.transfers, index)))
            + schedule_sum(transfer_at(c.transfers, index).release_schedule),
{
    let p = transfer_pos(c.transfers, index);
    lemma_transfer_pos_spec(c.transfers, index);
    let t = c.transfers[p].1;
    let s = t.release_schedule;
    let rk = receiver_key(t);
    let total = schedule_sum(s);
    let k1 = matured_count(s, e1);
    let s2 = swept_schedule(s, e1);
    let c1 = spec_execute(c, e1, index);
    assert(epochs_strictly_ascending(s)) by {
        assert(c.transfers[p].0 <= c.max_transfer_index);
    }
    lemma_matured_count_le_len(s, e1);
    lemma_sweep_conserves_value(s, e1);
    if s2.len() == 0 {
        assert(k1 == s.len());
        assert(matured_sum(s, e1) == total) by {
            assert(s.take(s.len() as int) =~= s);
        }
        assert(k1 > 0);
        lemma_balance_of_credited_same(c.balances, rk, matured_sum(s, e1));
        lemma_removed_transfer_absent(c.transfers, index);
        assert(spec_execute(c1, e2, index) == c1);
    } else {
        lemma_transfer_pos_update_same(c.transfers, index, with_schedule(t, s2));
        assert(transfer_pos(c1.transfers, index) == p);
        let t1 = c1.transfers[p].1;
        assert(t1 == with_schedule(t, s2));
        assert(s2.last() == s[s.len() - 1]) by {
            assert(s2[s2.len() - 1] == s[k1 + (s2.len() - 1)]);
        }
        lemma_ascending_skip(s, k1 as int);
        lemma_full_maturity(s2, e2);
        assert(swept_schedule(s2, e2).len() == 0) by {
            assert(s2.skip(s2.len() as int).len() == 0);
        }
        assert(matured_sum(s2, e2) == schedule_sum(s2)) by {
            assert(s2.take(s2.len() as int) =~= s2);
        }
        assert(receiver_key(t1) == rk);
        assert(matured_count(s2, e2) > 0);
        let c2 = spec_execute(c1, e2, index);
        assert(c2.balances == credited(c1.balances, rk, schedule_sum(s2)));
        if k1 == 0 {
            assert(matured_sum(s, e1) == 0) by {
                assert(s.take(0).len() == 0);
                assert(schedule_sum(s.take(0)) == 0);
            }
            assert(c1.balances == c.balances);
            lemma_balance_of_credited_same(c1.balances, rk, schedule_sum(s2));
        } else {
            assert(c1.balances == credited(c.balances, rk, matured_sum(s, e1)));
            lemma_balance_of_credited_same(c.balances, rk, matured_sum(s, e1));
            lemma_balance_of_credited_same(c1.balances, rk, schedule_sum(s2));
        }
        assert forall|a: int, b: int| 0 <= a < b < c1.transfers.len() implies (
        #[trigger] c1.transfers[a]).0 != (#[trigger] c1.transfers[b]).0 by {
            assert(c.transfers[a].0 != c.transfers[b].0);
            if a != p {
                assert(c1.transfers[a] == c.transfers[a]);
            }
            if b != p {
                assert(c1.transfers[b] == c.transfers[b]);
            }
        }
        lemma_removed_transfer_absent(c1.transfers, index);
    }
}

/// Cancellation split: cancelling removes the transfer and credits the
/// receiver with the matured-but-unclaimed total and the sender with the
/// remainder; when sender and receiver share the balance key, the whole
/// total lands there. Nothing else in the ledger moves.
pub proof fn lemma_cancellation_split(c: ContractView, e: u64, index: u64)
    requires
        view_wf(c),
        has_transfer(c.transfers, index),
    ensures
        !has_transfer(spec_cancel(c, e, index).transfers, index),
        ({
            let t = transfer_at(c.transfers, index);
            let c2 = spec_cancel(c, e, index);
            let total = schedule_sum(t.release_schedule);
            let matured = matured_sum(t.release_schedule, e);
            &&& sender_key(t) == receiver_key(t) ==> balance_or_zero(c2.balances, sender_key(t))
                == balance_or_zero(c.balances, sender_key(t)) + total
            &&& sender_key(t) != receiver_key(t) ==> {
                &&& balance_or_zero(c2.balances, receiver_key(t)) == balance_or_zero(
                    c.balances,
                    receiver_key(t),
                ) + matured
                &&& balance_or_zero(c2.balances, sender_key(t)) == balance_or_zero(
                    c.balances,
                    sender_key(t),
                ) + (total - matured)
            }
        }),
{
    let p = transfer_pos(c.transfers, index);
    lemma_transfer_pos_spec(c.transfers, index);
    lemma_removed_transfer_absent(c.transfers, index);
    let t = c.transfers[p].1;
    let s = t.release_schedule;
    let total = schedule_sum(s);
    let matured = matured_sum(s, e);
    let remaining = schedule_sum(swept_schedule(s, e));
    lemma_sweep_conserves_value(s, e);
    let bs1 = swept_ledger(c.balances, receiver_key(t), s, e);
    if matured_count(s, e) == 0 {
        assert(matured == 0) by {
            assert(s.take(0).len() == 0);
            assert(schedule_sum(s.take(0)) == 0);
        }
        lemma_balance_of_credited_same(bs1, sender_key(t), remaining);
        if sender_key(t) != receiver_key(t) {
            lemma_balance_of_credited_other(bs1, sender_key(t), remaining, receiver_key(t));
        }
    } else {
        lemma_balance_of_credited_same(c.balances, receiver_key(t), matured);
        if sender_key(t) == receiver_key(t) {
            lemma_balance_of_credited_same(bs1, sender_key(t), remaining);
        } else {
            lemma_balance_of_credited_same(bs1, sender_key(t), remaining);
            lemma_balance_of_credited_other(c.balances, receiver_key(t), matured, sender_key(t));
            lemma_balance_of_credited_other(bs1, sender_key(t), remaining, receiver_key(t));
        }
    }
}

/// A claim drains exactly once: claiming an asset key removes its whole
/// entry, and a repeated claim for the same key is a no-op with no payout.
/// The first claim pays out exactly the recorded balance, or nothing when
/// no entry exists.
pub proof fn lemma_claim_drains_once(bs: Seq<BalanceEntryView>, owner: Seq<u8>, k: AssetKeyView)
    requires
        keys_distinct(bs),
    ensures
        ({
            let key = asset_key_of(owner, k);
            let bs1 = claimed_ledger(bs, owner, seq![k]);
            let pay1 = claimed_payouts(bs, owner, seq![k]);
            &&& balance_of(bs1, key) is None
            &&& claimed_ledger(bs1, owner, seq![k]) == bs1
            &&& claimed_payouts(bs1, owner, seq![k]) == Seq::<PaymentView>::empty()
            &&& (balance_of(bs, key) matches Some(a) ==> pay1 == seq![
                PaymentView {
                    token_id: k.token_id,
                    token_nonce: k.token_nonce,
                    amount: a,
                },
            ])
            &&& (balance_of(bs, key) is None ==> pay1 == Seq::<
                PaymentView,
            >::empty() && bs1 == bs)
        }),
{
    let key = asset_key_of(owner, k);
    let keys = seq![k];
    assert(keys.drop_last() =~= Seq::<AssetKeyView>::empty());
    assert(keys.last() == k);
    assert(claimed_ledger(bs, owner, Seq::<AssetKeyView>::empty()) == bs);
    assert(claimed_payouts(bs, owner, Seq::<AssetKeyView>::empty()) == Seq::<
        PaymentView,
    >::empty());
    let bs1 = claimed_ledger(bs, owner, keys);
    assert(bs1 == drained(bs, key));
    lemma_balance_of_drained_same(bs, key);
    assert(claimed_ledger(bs1, owner, Seq::<AssetKeyView>::empty()) == bs1);
    assert(claimed_payouts(bs1, owner, Seq::<AssetKeyView>::empty()) == Seq::<
        PaymentView,
    >::empty());
    lemma_drained_absent(bs1, key);
    assert(claimed_ledger(bs1, owner, keys) == bs1);
    let pay1 = claimed_payouts(bs, owner, keys);
    if balance_of(bs, key) is Some {
        assert(pay1 =~= seq![
            PaymentView {
                token_id: k.token_id,
                token_nonce: k.token_nonce,
                amount: balance_of(bs, key)->Some_0,
            },
        ]);
    } else {
        assert(pay1 =~= Seq::<PaymentView>::empty());
        lemma_drained_absent(bs, key);
    }
    assert(claimed_payouts(bs1, owner, keys) =~= Seq::<PaymentView>::empty());
}

} // verus!
