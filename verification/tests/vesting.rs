use vested_transfers::amount::Amount;
use vested_transfers::contract::{Contract, TransferError, MAX_MILESTONES};
use vested_transfers::schedule::ReleaseMilestone;
use vested_transfers::types::{Address, AssetKey, Payment, TokenId};

fn addr(name: &str) -> Address {
    Address::new(name.as_bytes().to_vec())
}

fn token(name: &str) -> TokenId {
    TokenId::new(name.as_bytes().to_vec())
}

fn milestone(epoch: u64, amount: u64) -> ReleaseMilestone {
    ReleaseMilestone::new(epoch, Amount::from_u64(amount))
}

fn deposit(token_name: &str, nonce: u64, amount: u64) -> Payment {
    Payment { token_id: token(token_name), token_nonce: nonce, amount: Amount::from_u64(amount) }
}

fn asset(token_name: &str, nonce: u64) -> AssetKey {
    AssetKey { token_id: token(token_name), token_nonce: nonce }
}

/// The single balance of `who` for the given asset, as a plain number;
/// None when no entry exists.
fn balance_of(c: &Contract, who: &Address, token_name: &str, nonce: u64) -> Option<u64> {
    let t = token(token_name);
    for p in c.get_address_balances(who) {
        if p.token_id.equals(&t) && p.token_nonce == nonce {
            return Some(p.amount.to_u64().unwrap());
        }
    }
    None
}

#[test]
fn scenario_execute_then_cancel() {
    // Sender deposits 300 units at epoch 0 with schedule
    // [(10,100),(20,100),(30,100)].
    let mut c = Contract::init();
    let sender = addr("sender");
    let receiver = addr("receiver");
    let schedule = vec![milestone(10, 100), milestone(20, 100), milestone(30, 100)];
    let ix = c
        .create_transfer(&sender, 0, receiver.duplicate(), schedule, deposit("gold", 0, 300))
        .unwrap();
    assert_eq!(ix, 1);
    assert_eq!(c.max_transfer_index(), 1);

    // At epoch 15, executeTransfer credits the receiver 100 and leaves
    // schedule [(20,100),(30,100)].
    c.execute_transfer(15, ix).unwrap();
    assert_eq!(balance_of(&c, &receiver, "gold", 0), Some(100));
    let listed = c.get_transfers();
    assert_eq!(listed.len(), 1);
    assert_eq!(listed[0].0, 1);
    assert_eq!(listed[0].1.release_schedule.len(), 2);
    assert_eq!(listed[0].1.release_schedule[0].epoch, 20);

    // At epoch 25 the sender cancels: the sweep credits the receiver another
    // 100 (the milestone at 20), the remaining 100 goes to the sender, and
    // the transfer is deleted.
    c.cancel_transfer(&sender, 25, ix).unwrap();
    assert_eq!(balance_of(&c, &receiver, "gold", 0), Some(200));
    assert_eq!(balance_of(&c, &sender, "gold", 0), Some(100));
    assert_eq!(c.get_transfers().len(), 0);

    // The receiver withdraws 200; the sender withdraws 100.
    let rp = c.claim_balances(&receiver, vec![asset("gold", 0)]);
    assert_eq!(rp.len(), 1);
    assert_eq!(rp[0].amount.to_u64(), Some(200));
    let sp = c.claim_balances(&sender, vec![asset("gold", 0)]);
    assert_eq!(sp.len(), 1);
    assert_eq!(sp[0].amount.to_u64(), Some(100));
    assert_eq!(balance_of(&c, &receiver, "gold", 0), None);
    assert_eq!(balance_of(&c, &sender, "gold", 0), None);
}

#[test]
fn create_rejects_more_than_twenty_milestones() {
    let mut c = Contract::init();
    let mut schedule = Vec::new();
    let mut total: u64 = 0;
    for i in 0..(MAX_MILESTONES as u64 + 1) {
        schedule.push(milestone(10 + i, 5));
        total += 5;
    }
    let r = c.create_transfer(&addr("s"), 0, addr("r"), schedule, deposit("gold", 0, total));
    assert_eq!(r, Err(TransferError::TooManyMilestones));
    assert_eq!(c.get_transfers().len(), 0);
    assert_eq!(c.max_transfer_index(), 0);
}

#[test]
fn create_accepts_exactly_twenty_milestones() {
    let mut c = Contract::init();
    let mut schedule = Vec::new();
    let mut total: u64 = 0;
    for i in 0..(MAX_MILESTONES as u64) {
        schedule.push(milestone(10 + i, 5));
        total += 5;
    }
    let r = c.create_transfer(&addr("s"), 0, addr("r"), schedule, deposit("gold", 0, total));
    assert_eq!(r, Ok(1));
}

#[test]
fn create_rejects_epoch_not_above_current() {
    let mut c = Contract::init();
    // First milestone epoch equals the creation epoch: rejected.
    let r = c.create_transfer(
        &addr("s"),
        10,
        addr("r"),
        vec![milestone(10, 50)],
        deposit("gold", 0, 50),
    );
    assert_eq!(r, Err(TransferError::EpochsNotStrictlyIncreasing));
}

#[test]
fn error_messages_match_the_rejections() {
    assert_eq!(
        TransferError::EpochsNotStrictlyIncreasing.message(),
        "Milestones epochs are not in strictly increasing order from current epoch."
    );
    assert_eq!(
        TransferError::ScheduleSumMismatch.message(),
        "Release schedule amounts don't sum up to total amount."
    );
}

#[test]
fn create_rejects_equal_consecutive_epochs() {
    let mut c = Contract::init();
    let r = c.create_transfer(
        &addr("s"),
        0,
        addr("r"),
        vec![milestone(10, 50), milestone(10, 50)],
        deposit("gold", 0, 100),
    );
    assert_eq!(r, Err(TransferError::EpochsNotStrictlyIncreasing));
}

#[test]
fn create_rejects_decreasing_epochs() {
    let mut c = Contract::init();
    let r = c.create_transfer(
        &addr("s"),
        0,
        addr("r"),
        vec![milestone(20, 50), milestone(10, 50)],
        deposit("gold", 0, 100),
    );
    assert_eq!(r, Err(TransferError::EpochsNotStrictlyIncreasing));
}

#[test]
fn create_rejects_sum_mismatch() {
    let mut c = Contract::init();
    let r = c.create_transfer(
        &addr("s"),
        0,
        addr("r"),
        vec![milestone(10, 100), milestone(20, 100)],
        deposit("gold", 0, 300),
    );
    assert_eq!(r, Err(TransferError::ScheduleSumMismatch));
    let r2 = c.create_transfer(
        &addr("s"),
        0,
        addr("r"),
        vec![milestone(10, 100), milestone(20, 100)],
        deposit("gold", 0, 150),
    );
    assert_eq!(r2, Err(TransferError::ScheduleSumMismatch));
}

#[test]
fn conservation_accepted_schedule_sums_to_deposit() {
    // An accepted createTransfer implies the milestone amounts summed to the
    // deposit; listing the stored schedule shows the same amounts.
    let mut c = Contract::init();
    let ix = c
        .create_transfer(
            &addr("s"),
            0,
            addr("r"),
            vec![milestone(5, 1), milestone(6, 2), milestone(7, 3)],
            deposit("gold", 0, 6),
        )
        .unwrap();
    let listed = c.get_transfers();
    assert_eq!(listed[0].0, ix);
    let stored: u64 =
        listed[0].1.release_schedule.iter().map(|m| m.amount.to_u64().unwrap()).sum();
    assert_eq!(stored, 6);
}

#[test]
fn execute_unknown_index_fails() {
    let mut c = Contract::init();
    assert_eq!(c.execute_transfer(5, 1), Err(TransferError::NoSuchTransfer));
    assert_eq!(
        TransferError::NoSuchTransfer.message(),
        "No transfer with this index."
    );
}

#[test]
fn execute_is_idempotent_at_one_epoch() {
    let mut c = Contract::init();
    let ix = c
        .create_transfer(
            &addr("s"),
            0,
            addr("r"),
            vec![milestone(10, 40), milestone(20, 60)],
            deposit("gold", 0, 100),
        )
        .unwrap();
    c.execute_transfer(12, ix).unwrap();
    let first = balance_of(&c, &addr("r"), "gold", 0);
    let first_len = c.get_transfers()[0].1.release_schedule.len();
    // No epoch advance: the second call credits nothing further.
    c.execute_transfer(12, ix).unwrap();
    assert_eq!(balance_of(&c, &addr("r"), "gold", 0), first);
    assert_eq!(c.get_transfers()[0].1.release_schedule.len(), first_len);
    assert_eq!(first, Some(40));
    assert_eq!(first_len, 1);
}

#[test]
fn execute_before_first_epoch_credits_nothing() {
    let mut c = Contract::init();
    let ix = c
        .create_transfer(&addr("s"), 0, addr("r"), vec![milestone(10, 40)], deposit("gold", 0, 40))
        .unwrap();
    c.execute_transfer(9, ix).unwrap();
    assert_eq!(balance_of(&c, &addr("r"), "gold", 0), None);
    assert_eq!(c.get_transfers().len(), 1);
}

#[test]
fn full_maturation_removes_transfer_and_credits_total() {
    let mut c = Contract::init();
    let r = addr("r");
    let ix = c
        .create_transfer(
            &addr("s"),
            0,
            r.duplicate(),
            vec![milestone(10, 40), milestone(20, 60)],
            deposit("gold", 0, 100),
        )
        .unwrap();
    // A prior partial execution, then one at the last milestone's epoch.
    c.execute_transfer(10, ix).unwrap();
    c.execute_transfer(20, ix).unwrap();
    assert_eq!(balance_of(&c, &r, "gold", 0), Some(100));
    assert_eq!(c.get_transfers().len(), 0);
    // The index is gone: executing it again fails.
    assert_eq!(c.execute_transfer(20, ix), Err(TransferError::NoSuchTransfer));
}

#[test]
fn cancel_requires_sender() {
    let mut c = Contract::init();
    let ix = c
        .create_transfer(&addr("s"), 0, addr("r"), vec![milestone(10, 40)], deposit("gold", 0, 40))
        .unwrap();
    assert_eq!(c.cancel_transfer(&addr("intruder"), 5, ix), Err(TransferError::CallerNotSender));
    assert_eq!(c.get_transfers().len(), 1);
    assert_eq!(c.cancel_transfer(&addr("s"), 5, 99), Err(TransferError::NoSuchTransfer));
    assert_eq!(
        TransferError::CallerNotSender.message(),
        "Caller is not the sender of the transfer."
    );
}

#[test]
fn cancel_before_any_maturity_refunds_everything() {
    let mut c = Contract::init();
    let s = addr("s");
    let ix = c
        .create_transfer(
            &s,
            0,
            addr("r"),
            vec![milestone(10, 40), milestone(20, 60)],
            deposit("gold", 0, 100),
        )
        .unwrap();
    c.cancel_transfer(&s, 5, ix).unwrap();
    assert_eq!(balance_of(&c, &s, "gold", 0), Some(100));
    assert_eq!(balance_of(&c, &addr("r"), "gold", 0), None);
    assert_eq!(c.get_transfers().len(), 0);
}

#[test]
fn cancel_after_full_maturity_refunds_nothing() {
    // The sweep runs first: everything matured goes to the receiver, and the
    // sender's refund entry is created with zero.
    let mut c = Contract::init();
    let s = addr("s");
    let r = addr("r");
    let ix = c
        .create_transfer(&s, 0, r.duplicate(), vec![milestone(10, 40)], deposit("gold", 0, 40))
        .unwrap();
    c.cancel_transfer(&s, 10, ix).unwrap();
    assert_eq!(balance_of(&c, &r, "gold", 0), Some(40));
    assert_eq!(balance_of(&c, &s, "gold", 0), Some(0));
    assert_eq!(c.get_transfers().len(), 0);
}

#[test]
fn claim_drains_exactly_once() {
    let mut c = Contract::init();
    let s = addr("s");
    let ix = c
        .create_transfer(&s, 0, addr("r"), vec![milestone(10, 40)], deposit("gold", 0, 40))
        .unwrap();
    c.cancel_transfer(&s, 0, ix).unwrap();
    assert_eq!(balance_of(&c, &s, "gold", 0), Some(40));
    let first = c.claim_balances(&s, vec![asset("gold", 0)]);
    assert_eq!(first.len(), 1);
    assert_eq!(first[0].amount.to_u64(), Some(40));
    assert_eq!(balance_of(&c, &s, "gold", 0), None);
    // Repeating the claim is a silent no-op with no payout.
    let second = c.claim_balances(&s, vec![asset("gold", 0)]);
    assert_eq!(second.len(), 0);
}

#[test]
fn claim_skips_absent_keys_and_duplicates() {
    let mut c = Contract::init();
    let s = addr("s");
    let ix = c
        .create_transfer(&s, 0, addr("r"), vec![milestone(10, 7)], deposit("gold", 3, 7))
        .unwrap();
    c.cancel_transfer(&s, 0, ix).unwrap();
    // Unknown asset, the real one, then the real one again in one call.
    let payouts = c.claim_balances(
        &s,
        vec![asset("iron", 0), asset("gold", 3), asset("gold", 3)],
    );
    assert_eq!(payouts.len(), 1);
    assert_eq!(payouts[0].amount.to_u64(), Some(7));
    assert_eq!(payouts[0].token_nonce, 3);
}

#[test]
fn balances_accumulate_per_owner_and_asset() {
    let mut c = Contract::init();
    let s = addr("s");
    let r = addr("r");
    let i1 = c
        .create_transfer(&s, 0, r.duplicate(), vec![milestone(5, 10)], deposit("gold", 0, 10))
        .unwrap();
    let i2 = c
        .create_transfer(&s, 0, r.duplicate(), vec![milestone(6, 20)], deposit("gold", 0, 20))
        .unwrap();
    let i3 = c
        .create_transfer(&s, 0, r.duplicate(), vec![milestone(6, 5)], deposit("iron", 1, 5))
        .unwrap();
    assert_eq!((i1, i2, i3), (1, 2, 3));
    c.execute_transfer(6, i1).unwrap();
    c.execute_transfer(6, i2).unwrap();
    c.execute_transfer(6, i3).unwrap();
    assert_eq!(balance_of(&c, &r, "gold", 0), Some(30));
    assert_eq!(balance_of(&c, &r, "iron", 1), Some(5));
    let all = c.get_address_balances(&r);
    assert_eq!(all.len(), 2);
}

#[test]
fn empty_schedule_with_zero_deposit_is_accepted() {
    let mut c = Contract::init();
    let ix = c
        .create_transfer(&addr("s"), 7, addr("r"), Vec::new(), deposit("gold", 0, 0))
        .unwrap();
    assert_eq!(ix, 1);
    // Executing it deletes it at once and credits nothing.
    c.execute_transfer(7, ix).unwrap();
    assert_eq!(c.get_transfers().len(), 0);
    assert_eq!(balance_of(&c, &addr("r"), "gold", 0), None);
}

#[test]
fn indices_are_assigned_monotonically() {
    let mut c = Contract::init();
    let s = addr("s");
    let a = c
        .create_transfer(&s, 0, addr("r"), vec![milestone(5, 1)], deposit("gold", 0, 1))
        .unwrap();
    let b = c
        .create_transfer(&s, 0, addr("r"), vec![milestone(5, 1)], deposit("gold", 0, 1))
        .unwrap();
    c.cancel_transfer(&s, 0, a).unwrap();
    // Cancelling does not free the index: the counter only grows.
    let d = c
        .create_transfer(&s, 0, addr("r"), vec![milestone(5, 1)], deposit("gold", 0, 1))
        .unwrap();
    assert_eq!((a, b, d), (1, 2, 3));
    assert_eq!(c.max_transfer_index(), 3);
}

#[test]
fn rejected_create_changes_nothing() {
    let mut c = Contract::init();
    let ok = c
        .create_transfer(&addr("s"), 0, addr("r"), vec![milestone(5, 1)], deposit("gold", 0, 1))
        .unwrap();
    assert_eq!(ok, 1);
    let r = c.create_transfer(
        &addr("s"),
        0,
        addr("r"),
        vec![milestone(5, 1)],
        deposit("gold", 0, 2),
    );
    assert!(r.is_err());
    assert_eq!(c.max_transfer_index(), 1);
    assert_eq!(c.get_transfers().len(), 1);
    assert_eq!(
        TransferError::TooManyMilestones.message(),
        "Too many milestones."
    );
}

#[test]
fn registry_keeps_storage_order_across_partial_execution() {
    let mut c = Contract::init();
    let s = addr("s");
    for _ in 0..3 {
        c.create_transfer(
            &s,
            0,
            addr("r"),
            vec![milestone(10, 1), milestone(20, 1)],
            deposit("gold", 0, 2),
        )
        .unwrap();
    }
    // Partially executing the middle transfer re-persists it in place.
    c.execute_transfer(10, 2).unwrap();
    let listed = c.get_transfers();
    assert_eq!(listed.len(), 3);
    assert_eq!((listed[0].0, listed[1].0, listed[2].0), (1, 2, 3));
    assert_eq!(listed[1].1.release_schedule.len(), 1);
    assert_eq!(listed[0].1.release_schedule.len(), 2);
}

#[test]
fn cancel_when_sender_is_receiver_returns_the_whole_total() {
    let mut c = Contract::init();
    let party = addr("both");
    let ix = c
        .create_transfer(
            &party,
            0,
            party.duplicate(),
            vec![milestone(10, 30), milestone(20, 70)],
            deposit("gold", 0, 100),
        )
        .unwrap();
    // One milestone has matured; the sweep and the refund land on the same
    // balance entry.
    c.cancel_transfer(&party, 10, ix).unwrap();
    assert_eq!(balance_of(&c, &party, "gold", 0), Some(100));
}

#[test]
fn amounts_add_without_overflow() {
    // Amounts are arbitrary precision: adding past u64::MAX is exact.
    let big = Amount::from_u64(u64::MAX);
    let sum = big.plus(&Amount::from_u64(1));
    assert_eq!(sum.to_u64(), None);
    assert!(!sum.is_zero());
    assert!(sum.equals(&Amount::from_u64(u64::MAX).plus(&Amount::from_u64(1))));
    assert!(!sum.equals(&Amount::from_u64(u64::MAX)));
    let zero = Amount::zero();
    assert!(zero.is_zero());
    assert_eq!(zero.to_u64(), Some(0));
    assert!(zero.equals(&Amount::from_u64(0)));
    assert_eq!(big.plus(&zero).to_u64(), Some(u64::MAX));
}

#[test]
fn large_deposits_conserve_value() {
    // A deposit beyond u64 range, split into two milestones, is released
    // exactly: receiver ends with max+max, checked by claiming.
    let mut c = Contract::init();
    let s = addr("s");
    let r = addr("r");
    let m1 = ReleaseMilestone::new(10, Amount::from_u64(u64::MAX));
    let m2 = ReleaseMilestone::new(20, Amount::from_u64(u64::MAX));
    let total = Amount::from_u64(u64::MAX).plus(&Amount::from_u64(u64::MAX));
    let pay = Payment { token_id: token("gold"), token_nonce: 0, amount: total };
    let ix = c.create_transfer(&s, 0, r.duplicate(), vec![m1, m2], pay).unwrap();
    c.execute_transfer(20, ix).unwrap();
    let payouts = c.claim_balances(&r, vec![asset("gold", 0)]);
    assert_eq!(payouts.len(), 1);
    let expect = Amount::from_u64(u64::MAX).plus(&Amount::from_u64(u64::MAX));
    assert!(payouts[0].amount.equals(&expect));
}
