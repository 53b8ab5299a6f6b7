//! The balance ledger: durable claimable balances per (owner, asset).
//!
//! The ledger is a sequence of entries with pairwise-distinct keys. An entry
//! is created on first credit, increased by further credits, and deleted
//! (not merely zeroed) when drained by a claim. The spec functions
//! [`credited`], [`drained`] and [`balance_of`] give the mathematical
//! meaning of every ledger operation.

use vstd::prelude::*;
use crate::amount::Amount;
use crate::types::{Address, TokenId, Payment, PaymentView, AssetKeyView, bytes_equal};

verus! {

/// The key of a balance entry: owner identity and asset.
#[verifier::ext_equal]
pub struct BalanceKey {
    pub owner: Seq<u8>,
    pub token_id: Seq<u8>,
    pub token_nonce: u64,
}

/// The mathematical content of a balance entry.
#[verifier::ext_equal]
pub struct BalanceEntryView {
    pub owner: Seq<u8>,
    pub token_id: Seq<u8>,
    pub token_nonce: u64,
    pub amount: nat,
}

/// The key under which an entry is stored.
pub open spec fn entry_key(e: BalanceEntryView) -> BalanceKey {
    BalanceKey { owner: e.owner, token_id: e.token_id, token_nonce: e.token_nonce }
}

/// The same entry with another amount.
pub open spec fn with_amount(e: BalanceEntryView, a: nat) -> BalanceEntryView {
    BalanceEntryView { owner: e.owner, token_id: e.token_id, token_nonce: e.token_nonce, amount: a }
}

/// The entry holding `a` under key `k`.
pub open spec fn entry_for(k: BalanceKey, a: nat) -> BalanceEntryView {
    BalanceEntryView { owner: k.owner, token_id: k.token_id, token_nonce: k.token_nonce, amount: a }
}

/// The balance key of `owner` for the given asset.
pub open spec fn asset_key_of(owner: Seq<u8>, k: AssetKeyView) -> BalanceKey {
    BalanceKey { owner: owner, token_id: k.token_id, token_nonce: k.token_nonce }
}

/// One accumulated claimable balance.
pub struct BalanceEntry {
    pub owner: Address,
    pub token_id: TokenId,
    pub token_nonce: u64,
    pub amount: Amount,
}

impl View for BalanceEntry {
    type V = BalanceEntryView;

    open spec fn view(&self) -> BalanceEntryView {
        BalanceEntryView {
            owner: self.owner@,
            token_id: self.token_id@,
            token_nonce: self.token_nonce,
            amount: self.amount@,
        }
    }
}

impl BalanceEntry {
    /// The stored amount is canonical.
    pub open spec fn wf(&self) -> bool {
        self.amount.wf()
    }
}

/// The views of a sequence of entries.
pub open spec fn ledger_view(s: Seq<BalanceEntry>) -> Seq<BalanceEntryView> {
    s.map_values(|e: BalanceEntry| e@)
}

/// Every stored amount is canonical.
pub open spec fn entries_wf(s: Seq<BalanceEntry>) -> bool {
    forall|i: int| 0 <= i < s.len() ==> (#[trigger] s[i]).wf()
}

/// No two entries share a key.
pub open spec fn keys_distinct(bs: Seq<BalanceEntryView>) -> bool {
    forall|i: int, j: int|
        0 <= i < j < bs.len() ==> entry_key(#[trigger] bs[i]) != entry_key(#[trigger] bs[j])
}

/// The claimable amount recorded for a key, if an entry exists.
pub open spec fn balance_of(bs: Seq<BalanceEntryView>, k: BalanceKey) -> Option<nat>
    decreases bs.len(),
{
    if bs.len() == 0 {
        None
    } else if entry_key(bs[0]) == k {
        Some(bs[0].amount)
    } else {
        balance_of(bs.drop_first(), k)
    }
}

/// The recorded amount for a key, counting a missing entry as zero.
pub open spec fn balance_or_zero(bs: Seq<BalanceEntryView>, k: BalanceKey) -> nat {
    match balance_of(bs, k) {
        Some(a) => a,
        None => 0,
    }
}

/// The ledger after crediting `amt` to key `k`: the existing entry is
/// increased, or a new entry is appended at the back.
pub open spec fn credited(bs: Seq<BalanceEntryView>, k: BalanceKey, amt: nat) -> Seq<
    BalanceEntryView,
>
    decreases bs.len(),
{
    if bs.len() == 0 {
        seq![entry_for(k, amt)]
    } else if entry_key(bs[0]) == k {
        seq![with_amount(bs[0], (bs[0].amount + amt) as nat)] + bs.drop_first()
    } else {
        seq![bs[0]] + credited(bs.drop_first(), k, amt)
    }
}

/// The ledger with the first entry for key `k` removed, if one exists.
pub open spec fn drained(bs: Seq<BalanceEntryView>, k: BalanceKey) -> Seq<BalanceEntryView>
    decreases bs.len(),
{
    if bs.len() == 0 {
        bs
    } else if entry_key(bs[0]) == k {
        bs.drop_first()
    } else {
        seq![bs[0]] + drained(bs.drop_first(), k)
    }
}

/// The claimable balances of one owner, in ledger order.
pub open spec fn owner_balances(bs: Seq<BalanceEntryView>, owner: Seq<u8>) -> Seq<PaymentView>
    decreases bs.len(),
{
    if bs.len() == 0 {
        Seq::<PaymentView>::empty()
    } else {
        let rest = owner_balances(bs.drop_last(), owner);
        if bs.last().owner == owner {
            rest.push(
                PaymentView {
                    token_id: bs.last().token_id,
                    token_nonce: bs.last().token_nonce,
                    amount: bs.last().amount,
                },
            )
        } else {
            rest
        }
    }
}

/// The ledger after an owner claims the listed assets, in order. Every
/// listed asset with an entry is drained; the others are skipped.
pub open spec fn claimed_ledger(
    bs: Seq<BalanceEntryView>,
    owner: Seq<u8>,
    keys: Seq<AssetKeyView>,
) -> Seq<BalanceEntryView>
    decreases keys.len(),
{
    if keys.len() == 0 {
        bs
    } else {
        drained(claimed_ledger(bs, owner, keys.drop_last()), asset_key_of(owner, keys.last()))
    }
}

/// The payouts owed for a claim of the listed assets, in claim order.
pub open spec fn claimed_payouts(
    bs: Seq<BalanceEntryView>,
    owner: Seq<u8>,
    keys: Seq<AssetKeyView>,
) -> Seq<PaymentView>
    decreases keys.len(),
{
    if keys.len() == 0 {
        Seq::<PaymentView>::empty()
    } else {
        let prev_ledger = claimed_ledger(bs, owner, keys.drop_last());
        let prev_payouts = claimed_payouts(bs, owner, keys.drop_last());
        match balance_of(prev_ledger, asset_key_of(owner, keys.last())) {
            Some(a) => prev_payouts.push(
                PaymentView {
                    token_id: keys.last().token_id,
                    token_nonce: keys.last().token_nonce,
                    amount: a,
                },
            ),
            None => prev_payouts,
        }
    }
}

/// Crediting a key sets its balance to the previous balance plus the credit.
pub proof fn lemma_balance_of_credited_same(bs: Seq<BalanceEntryView>, k: BalanceKey, amt: nat)
    ensures
        balance_of(credited(bs, k, amt), k) == Some((balance_or_zero(bs, k) + amt) as nat),
    decreases bs.len(),
{
    if bs.len() == 0 {
        assert(entry_key(credited(bs, k, amt)[0]) == k);
    } else if entry_key(bs[0]) == k {
        assert(entry_key(credited(bs, k, amt)[0]) == k);
    } else {
        lemma_balance_of_credited_same(bs.drop_first(), k, amt);
        assert(credited(bs, k, amt)[0] == bs[0]);
        assert(credited(bs, k, amt).drop_first() =~= credited(bs.drop_first(), k, amt));
    }
}

/// Crediting one key leaves every other key's balance unchanged.
pub proof fn lemma_balance_of_credited_other(
    bs: Seq<BalanceEntryView>,
    k: BalanceKey,
    amt: nat,
    k2: BalanceKey,
)
    requires
        k2 != k,
    ensures
        balance_of(credited(bs, k, amt), k2) == balance_of(bs, k2),
    decreases bs.len(),
{
    if bs.len() == 0 {
        assert(entry_key(entry_for(k, amt)) =~= k);
        assert(credited(bs, k, amt)[0] == entry_for(k, amt));
        assert(credited(bs, k, amt).drop_first() =~= Seq::<BalanceEntryView>::empty());
        assert(balance_of(Seq::<BalanceEntryView>::empty(), k2) is None);
    } else if entry_key(bs[0]) == k {
        assert(credited(bs, k, amt).drop_first() =~= bs.drop_first());
        assert(entry_key(credited(bs, k, amt)[0]) =~= k);
    } else {
        lemma_balance_of_credited_other(bs.drop_first(), k, amt, k2);
        assert(credited(bs, k, amt)[0] == bs[0]);
        assert(credited(bs, k, amt).drop_first() =~= credited(bs.drop_first(), k, amt));
    }
}

/// Draining a key removes its balance entirely.
pub proof fn lemma_balance_of_drained_same(bs: Seq<BalanceEntryView>, k: BalanceKey)
    requires
        keys_distinct(bs),
    ensures
        balance_of(drained(bs, k), k) is None,
    decreases bs.len(),
{
    if bs.len() == 0 {
    } else if entry_key(bs[0]) == k {
        lemma_balance_of_distinct_head_absent(bs, k);
    } else {
        assert(keys_distinct(bs.drop_first())) by {
            lemma_keys_distinct_drop_first(bs);
        }
        lemma_balance_of_drained_same(bs.drop_first(), k);
        assert(drained(bs, k)[0] == bs[0]);
        assert(drained(bs, k).drop_first() =~= drained(bs.drop_first(), k));
    }
}

/// In a distinct-key ledger whose head has key `k`, the tail has no entry
/// for `k`.
proof fn lemma_balance_of_distinct_head_absent(bs: Seq<BalanceEntryView>, k: BalanceKey)
    requires
        keys_distinct(bs),
        bs.len() > 0,
        entry_key(bs[0]) == k,
    ensures
        balance_of(bs.drop_first(), k) is None,
{
    lemma_balance_of_no_match(bs.drop_first(), k);
}

/// A ledger with no entry for `k` reports no balance for `k`.
pub proof fn lemma_balance_of_no_match(bs: Seq<BalanceEntryView>, k: BalanceKey)
    requires
        forall|i: int| 0 <= i < bs.len() ==> entry_key(#[trigger] bs[i]) != k,
    ensures
        balance_of(bs, k) is None,
    decreases bs.len(),
{
    if bs.len() > 0 {
        lemma_balance_of_no_match(bs.drop_first(), k);
    }
}

/// Dropping the head of a distinct-key ledger keeps the keys distinct.
pub proof fn lemma_keys_distinct_drop_first(bs: Seq<BalanceEntryView>)
    requires
        keys_distinct(bs),
        bs.len() > 0,
    ensures
        keys_distinct(bs.drop_first()),
{
    assert forall|i: int, j: int| 0 <= i < j < bs.drop_first().len() implies entry_key(
        #[trigger] bs.drop_first()[i],
    ) != entry_key(#[trigger] bs.drop_first()[j]) by {
        assert(bs.drop_first()[i] == bs[i + 1]);
        assert(bs.drop_first()[j] == bs[j + 1]);
    }
}

/// Draining one key leaves every other key's balance unchanged.
pub proof fn lemma_balance_of_drained_other(bs: Seq<BalanceEntryView>, k: BalanceKey, k2: BalanceKey)
    requires
        k2 != k,
    ensures
        balance_of(drained(bs, k), k2) == balance_of(bs, k2),
    decreases bs.len(),
{
    if bs.len() == 0 {
    } else if entry_key(bs[0]) == k {
    } else {
        lemma_balance_of_drained_other(bs.drop_first(), k, k2);
        assert(drained(bs, k)[0] == bs[0]);
        assert(drained(bs, k).drop_first() =~= drained(bs.drop_first(), k));
    }
}

/// Draining an absent key is a no-op.
pub proof fn lemma_drained_absent(bs: Seq<BalanceEntryView>, k: BalanceKey)
    requires
        balance_of(bs, k) is None,
    ensures
        drained(bs, k) == bs,
    decreases bs.len(),
{
    if bs.len() > 0 {
        lemma_drained_absent(bs.drop_first(), k);
        assert(drained(bs, k) =~= bs);
    }
}

/// Two consecutive credits to one key merge into a single credit of the sum.
pub proof fn lemma_credited_merge(bs: Seq<BalanceEntryView>, k: BalanceKey, a: nat, b: nat)
    ensures
        credited(credited(bs, k, a), k, b) == credited(bs, k, (a + b) as nat),
    decreases bs.len(),
{
    if bs.len() == 0 {
        let c1 = credited(bs, k, a);
        assert(entry_key(c1[0]) == k);
        assert(credited(c1, k, b) =~= credited(bs, k, (a + b) as nat));
    } else if entry_key(bs[0]) == k {
        let c1 = credited(bs, k, a);
        assert(c1[0] == with_amount(bs[0], (bs[0].amount + a) as nat));
        assert(entry_key(c1[0]) == k);
        assert(c1.drop_first() =~= bs.drop_first());
        assert(credited(c1, k, b) =~= credited(bs, k, (a + b) as nat));
    } else {
        lemma_credited_merge(bs.drop_first(), k, a, b);
        let c1 = credited(bs, k, a);
        assert(c1[0] == bs[0]);
        assert(c1.drop_first() =~= credited(bs.drop_first(), k, a));
        assert(credited(c1, k, b) =~= credited(bs, k, (a + b) as nat));
    }
}

/// When the first entry for `k` stands at position `i`, a credit is exactly
/// an update at `i`.
pub proof fn lemma_credited_is_update(bs: Seq<BalanceEntryView>, k: BalanceKey, amt: nat, i: int)
    requires
        0 <= i < bs.len(),
        entry_key(bs[i]) == k,
        forall|j: int| 0 <= j < i ==> entry_key(#[trigger] bs[j]) != k,
    ensures
        credited(bs, k, amt) == bs.update(i, with_amount(bs[i], (bs[i].amount + amt) as nat)),
    decreases i,
{
    if i == 0 {
        assert(credited(bs, k, amt) =~= bs.update(
            0,
            with_amount(bs[0], (bs[0].amount + amt) as nat),
        ));
    } else {
        let d = bs.drop_first();
        assert(d[i - 1] == bs[i]);
        assert forall|j: int| 0 <= j < i - 1 implies entry_key(#[trigger] d[j]) != k by {
            assert(d[j] == bs[j + 1]);
        }
        lemma_credited_is_update(d, k, amt, i - 1);
        assert(credited(bs, k, amt) =~= bs.update(
            i,
            with_amount(bs[i], (bs[i].amount + amt) as nat),
        ));
    }
}

/// When no entry has key `k`, a credit is exactly a push of a new entry.
pub proof fn lemma_credited_is_push(bs: Seq<BalanceEntryView>, k: BalanceKey, amt: nat)
    requires
        forall|j: int| 0 <= j < bs.len() ==> entry_key(#[trigger] bs[j]) != k,
    ensures
        credited(bs, k, amt) == bs.push(entry_for(k, amt)),
    decreases bs.len(),
{
    if bs.len() == 0 {
        assert(credited(bs, k, amt) =~= bs.push(entry_for(k, amt)));
    } else {
        let d = bs.drop_first();
        assert(forall|j: int| 0 <= j < d.len() ==> entry_key(#[trigger] d[j]) != k) by {
            assert(forall|j: int| 0 <= j < d.len() ==> #[trigger] d[j] == bs[j + 1]);
        }
        lemma_credited_is_push(d, k, amt);
        assert(credited(bs, k, amt) =~= bs.push(entry_for(k, amt)));
    }
}

/// When the first entry for `k` stands at position `i`, a drain is exactly
/// a removal at `i`.
pub proof fn lemma_drained_is_remove(bs: Seq<BalanceEntryView>, k: BalanceKey, i: int)
    requires
        0 <= i < bs.len(),
        entry_key(bs[i]) == k,
        forall|j: int| 0 <= j < i ==> entry_key(#[trigger] bs[j]) != k,
    ensures
        drained(bs, k) == bs.remove(i),
    decreases i,
{
    if i == 0 {
        assert(drained(bs, k) =~= bs.remove(0));
    } else {
        let d = bs.drop_first();
        assert(d[i - 1] == bs[i]);
        assert forall|j: int| 0 <= j < i - 1 implies entry_key(#[trigger] d[j]) != k by {
            assert(d[j] == bs[j + 1]);
        }
        lemma_drained_is_remove(d, k, i - 1);
        assert(drained(bs, k) =~= bs.remove(i));
    }
}

/// When the first entry for `k` stands at position `i`, that entry's amount
/// is the key's balance.
pub proof fn lemma_balance_of_found(bs: Seq<BalanceEntryView>, k: BalanceKey, i: int)
    requires
        0 <= i < bs.len(),
        entry_key(bs[i]) == k,
        forall|j: int| 0 <= j < i ==> entry_key(#[trigger] bs[j]) != k,
    ensures
        balance_of(bs, k) == Some(bs[i].amount),
    decreases i,
{
    if i > 0 {
        let d = bs.drop_first();
        assert(d[i - 1] == bs[i]);
        assert forall|j: int| 0 <= j < i - 1 implies entry_key(#[trigger] d[j]) != k by {
            assert(d[j] == bs[j + 1]);
        }
        lemma_balance_of_found(d, k, i - 1);
    }
}

/// The position of the first entry of the ledger with the given key.
#[verifier::loop_isolation(false)]
fn find_entry(
    balances: &Vec<BalanceEntry>,
    owner: &Address,
    token_id: &TokenId,
    token_nonce: u64,
) -> (r: Option<usize>)
    ensures
        match r {
            Some(i) => {
                &&& i < balances@.len()
                &&& entry_key(ledger_view(balances@)[i as int]) == (BalanceKey {
                    owner: owner@,
                    token_id: token_id@,
                    token_nonce: token_nonce,
                })
                &&& forall|j: int|
                    0 <= j < i ==> entry_key(#[trigger] ledger_view(balances@)[j]) != (BalanceKey {
                        owner: owner@,
                        token_id: token_id@,
                        token_nonce: token_nonce,
                    })
            },
            None => forall|j: int|
                0 <= j < balances@.len() ==> entry_key(#[trigger] ledger_view(balances@)[j])
                    != (BalanceKey {
                    owner: owner@,
                    token_id: token_id@,
                    token_nonce: token_nonce,
                }),
        },
{
    let ghost k = BalanceKey { owner: owner@, token_id: token_id@, token_nonce: token_nonce };
    let n = balances.len();
    let mut i: usize = 0;
    while i < n
        invariant
            0 <= i <= n,
            forall|j: int| 0 <= j < i ==> entry_key(#[trigger] ledger_view(balances@)[j]) != k,
        decreases n - i,
    {
        let e = &balances[i];
        if e.token_nonce == token_nonce && bytes_equal(&e.owner.bytes, &owner.bytes) && bytes_equal(
            &e.token_id.bytes,
            &token_id.bytes,
        ) {
            proof {
                assert(entry_key(ledger_view(balances@)[i as int]) == k);
            }
            return Some(i);
        }
        proof {
            assert(entry_key(ledger_view(balances@)[i as int]) != k);
        }
        i = i + 1;
    }
    None
}

/// Adds `amount` to the entry for (owner, asset), creating the entry with
/// that value if it is absent. Never fails.
#[verifier::loop_isolation(false)]
pub fn credit(
    balances: &mut Vec<BalanceEntry>,
    owner: &Address,
    token_id: &TokenId,
    token_nonce: u64,
    amount: &Amount,
)
    requires
        entries_wf(old(balances)@),
        amount.wf(),
    ensures
        ledger_view(final(balances)@) == credited(
            ledger_view(old(balances)@),
            BalanceKey { owner: owner@, token_id: token_id@, token_nonce: token_nonce },
            amount@,
        ),
        entries_wf(final(balances)@),
        keys_distinct(ledger_view(old(balances)@)) ==> keys_distinct(ledger_view(final(balances)@)),
{
    let ghost k = BalanceKey { owner: owner@, token_id: token_id@, token_nonce: token_nonce };
    let ghost bs0 = ledger_view(balances@);
    match find_entry(balances, owner, token_id, token_nonce) {
        Some(i) => {
            proof {
                lemma_credited_is_update(bs0, k, amount@, i as int);
            }
            let mut e = balances.remove(i);
            e.amount = e.amount.plus(amount);
            balances.insert(i, e);
            proof {
                assert(balances@ =~= old(balances)@.update(i as int, balances@[i as int]));
                assert(ledger_view(balances@) =~= credited(bs0, k, amount@));
                lemma_distinct_update(bs0, i as int, ledger_view(balances@)[i as int]);
            }
        },
        None => {
            proof {
                lemma_credited_is_push(bs0, k, amount@);
            }
            let e = BalanceEntry {
                owner: owner.duplicate(),
                token_id: token_id.duplicate(),
                token_nonce: token_nonce,
                amount: amount.duplicate(),
            };
            balances.push(e);
            proof {
                assert(ledger_view(balances@) =~= credited(bs0, k, amount@));
                lemma_distinct_push_fresh(bs0, ledger_view(balances@).last());
            }
        },
    }
}

/// Updating one entry without changing its key keeps the keys distinct.
proof fn lemma_distinct_update(bs: Seq<BalanceEntryView>, i: int, e: BalanceEntryView)
    requires
        0 <= i < bs.len(),
        entry_key(e) == entry_key(bs[i]),
    ensures
        keys_distinct(bs) ==> keys_distinct(bs.update(i, e)),
{
    if keys_distinct(bs) {
        assert forall|p: int, q: int| 0 <= p < q < bs.update(i, e).len() implies entry_key(
            #[trigger] bs.update(i, e)[p],
        ) != entry_key(#[trigger] bs.update(i, e)[q]) by {
            assert(entry_key(bs[p]) != entry_key(bs[q]));
        }
    }
}

/// Appending an entry with a fresh key keeps the keys distinct.
proof fn lemma_distinct_push_fresh(bs: Seq<BalanceEntryView>, e: BalanceEntryView)
    requires
        forall|j: int| 0 <= j < bs.len() ==> entry_key(#[trigger] bs[j]) != entry_key(e),
    ensures
        keys_distinct(bs) ==> keys_distinct(bs.push(e)),
{
    if keys_distinct(bs) {
        assert forall|p: int, q: int| 0 <= p < q < bs.push(e).len() implies entry_key(
            #[trigger] bs.push(e)[p],
        ) != entry_key(#[trigger] bs.push(e)[q]) by {
            if q < bs.len() {
                assert(entry_key(bs[p]) != entry_key(bs[q]));
            } else {
                assert(bs.push(e)[q] == e);
                assert(bs.push(e)[p] == bs[p]);
            }
        }
    }
}

/// Removes the whole entry for (owner, asset) and returns the payment it
/// stood for; returns nothing, changing nothing, when no entry exists.
pub fn drain(
    balances: &mut Vec<BalanceEntry>,
    owner: &Address,
    token_id: &TokenId,
    token_nonce: u64,
) -> (r: Option<Payment>)
    requires
        entries_wf(old(balances)@),
    ensures
        ledger_view(final(balances)@) == drained(
            ledger_view(old(balances)@),
            BalanceKey { owner: owner@, token_id: token_id@, token_nonce: token_nonce },
        ),
        entries_wf(final(balances)@),
        keys_distinct(ledger_view(old(balances)@)) ==> keys_distinct(ledger_view(final(balances)@)),
        match balance_of(
            ledger_view(old(balances)@),
            BalanceKey { owner: owner@, token_id: token_id@, token_nonce: token_nonce },
        ) {
            Some(a) => r matches Some(p) && p@ == (PaymentView {
                token_id: token_id@,
                token_nonce: token_nonce,
                amount: a,
            }) && p.wf(),
            None => r is None,
        },
{
    let ghost k = BalanceKey { owner: owner@, token_id: token_id@, token_nonce: token_nonce };
    let ghost bs0 = ledger_view(balances@);
    match find_entry(balances, owner, token_id, token_nonce) {
        Some(i) => {
            proof {
                lemma_drained_is_remove(bs0, k, i as int);
                lemma_balance_of_found(bs0, k, i as int);
            }
            let e = balances.remove(i);
            proof {
                assert(ledger_view(balances@) =~= drained(bs0, k));
                lemma_distinct_remove(bs0, i as int);
            }
            Some(Payment { token_id: e.token_id, token_nonce: e.token_nonce, amount: e.amount })
        },
        None => {
            proof {
                lemma_balance_of_no_match(bs0, k);
                lemma_drained_absent(bs0, k);
            }
            None
        },
    }
}

/// Removing an entry keeps the keys distinct.
proof fn lemma_distinct_remove(bs: Seq<BalanceEntryView>, i: int)
    requires
        0 <= i < bs.len(),
    ensures
        keys_distinct(bs) ==> keys_distinct(bs.remove(i)),
{
    if keys_distinct(bs) {
        assert forall|p: int, q: int| 0 <= p < q < bs.remove(i).len() implies entry_key(
            #[trigger] bs.remove(i)[p],
        ) != entry_key(#[trigger] bs.remove(i)[q]) by {
            let p0 = if p < i {
                p
            } else {
                p + 1
            };
            let q0 = if q < i {
                q
            } else {
                q + 1
            };
            assert(bs.remove(i)[p] == bs[p0]);
            assert(bs.remove(i)[q] == bs[q0]);
            assert(entry_key(bs[p0]) != entry_key(bs[q0]));
        }
    }
}

/// All claimable balances of one owner, in ledger order.
#[verifier::loop_isolation(false)]
pub fn balances_for(balances: &Vec<BalanceEntry>, owner: &Address) -> (r: Vec<Payment>)
    requires
        entries_wf(balances@),
    ensures
        payments_view_of(r@) == owner_balances(ledger_view(balances@), owner@),
        forall|i: int| 0 <= i < r@.len() ==> (#[trigger] r@[i]).wf(),
{
    let ghost bs = ledger_view(balances@);
    let n = balances.len();
    let mut out: Vec<Payment> = Vec::new();
    let mut i: usize = 0;
    while i < n
        invariant
            0 <= i <= n,
            payments_view_of(out@) == owner_balances(bs.take(i as int), owner@),
            forall|j: int| 0 <= j < out@.len() ==> (#[trigger] out@[j]).wf(),
        decreases n - i,
    {
        proof {
            assert(bs.take(i + 1).drop_last() =~= bs.take(i as int));
            assert(bs.take(i + 1).last() == bs[i as int]);
        }
        let e = &balances[i];
        if bytes_equal(&e.owner.bytes, &owner.bytes) {
            let p = Payment {
                token_id: e.token_id.duplicate(),
                token_nonce: e.token_nonce,
                amount: e.amount.duplicate(),
            };
            out.push(p);
            proof {
                assert(payments_view_of(out@) =~= owner_balances(bs.take(i + 1), owner@));
            }
        } else {
            proof {
                assert(payments_view_of(out@) =~= owner_balances(bs.take(i + 1), owner@));
            }
        }
        i = i + 1;
    }
    proof {
        assert(bs.take(n as int) =~= bs);
    }
    out
}

/// The views of a sequence of payments.
pub open spec fn payments_view_of(s: Seq<Payment>) -> Seq<PaymentView> {
    s.map_values(|p: Payment| p@)
}

} // verus!
