//! Release schedules: ordered sequences of time-gated milestones.
//!
//! A schedule is a sequence of milestones, front = earliest. The spec
//! functions here give the mathematical meaning of a schedule: its total
//! value, how many of its leading milestones have matured at a given epoch,
//! and the strict ordering of its epochs.

use vstd::prelude::*;
use crate::amount::Amount;

verus! {

/// The mathematical content of a milestone.
pub struct MilestoneView {
    pub epoch: u64,
    pub amount: nat,
}

/// One time-gated release step: `amount` becomes claimable by the
/// transfer's receiver once the current epoch reaches `epoch`.
pub struct ReleaseMilestone {
    pub epoch: u64,
    pub amount: Amount,
}

impl View for ReleaseMilestone {
    type V = MilestoneView;

    open spec fn view(&self) -> MilestoneView {
        MilestoneView { epoch: self.epoch, amount: self.amount@ }
    }
}

impl ReleaseMilestone {
    /// The stored amount is canonical.
    pub open spec fn wf(&self) -> bool {
        self.amount.wf()
    }

    /// A milestone releasing `amount` at `epoch`.
    pub fn new(epoch: u64, amount: Amount) -> (r: ReleaseMilestone)
        ensures
            r@.epoch == epoch,
            r@.amount == amount@,
            r.wf() == amount.wf(),
    {
        ReleaseMilestone { epoch, amount }
    }

    /// An identical copy of the milestone.
    pub fn duplicate(&self) -> (r: ReleaseMilestone)
        ensures
            r@ == self@,
            r.wf() == self.wf(),
    {
        ReleaseMilestone { epoch: self.epoch, amount: self.amount.duplicate() }
    }
}

/// The views of a sequence of milestones.
pub open spec fn schedule_view(s: Seq<ReleaseMilestone>) -> Seq<MilestoneView> {
    s.map_values(|m: ReleaseMilestone| m@)
}

/// Every stored milestone amount is canonical.
pub open spec fn milestones_wf(s: Seq<ReleaseMilestone>) -> bool {
    forall|i: int| 0 <= i < s.len() ==> (#[trigger] s[i]).wf()
}

/// The total value released by a schedule.
pub open spec fn schedule_sum(s: Seq<MilestoneView>) -> nat
    decreases s.len(),
{
    if s.len() == 0 {
        0nat
    } else {
        s[0].amount + schedule_sum(s.drop_first())
    }
}

/// How many leading milestones have matured at epoch `e`: the length of the
/// longest prefix whose epochs are all at most `e`.
pub open spec fn matured_count(s: Seq<MilestoneView>, e: u64) -> nat
    decreases s.len(),
{
    if s.len() == 0 || s[0].epoch > e {
        0nat
    } else {
        1 + matured_count(s.drop_first(), e)
    }
}

/// The schedule left after consuming every matured milestone at epoch `e`.
pub open spec fn swept_schedule(s: Seq<MilestoneView>, e: u64) -> Seq<MilestoneView> {
    s.skip(matured_count(s, e) as int)
}

/// The total value of the milestones matured at epoch `e`.
pub open spec fn matured_sum(s: Seq<MilestoneView>, e: u64) -> nat {
    schedule_sum(s.take(matured_count(s, e) as int))
}

/// The milestone epochs rise strictly along the schedule.
pub open spec fn epochs_strictly_ascending(s: Seq<MilestoneView>) -> bool {
    forall|i: int| 1 <= i < s.len() ==> #[trigger] s[i].epoch > s[i - 1].epoch
}

/// The milestone epochs rise strictly, starting strictly above `e0` (the
/// epoch at which the schedule is created).
pub open spec fn epochs_valid_from(s: Seq<MilestoneView>, e0: u64) -> bool {
    forall|i: int|
        0 <= i < s.len() ==> (#[trigger] s[i]).epoch > (if i == 0 {
            e0
        } else {
            s[i - 1].epoch
        })
}

/// A schedule validated at creation is strictly ascending.
pub proof fn lemma_valid_from_ascending(s: Seq<MilestoneView>, e0: u64)
    requires
        epochs_valid_from(s, e0),
    ensures
        epochs_strictly_ascending(s),
{
}

/// The matured prefix is never longer than the schedule.
pub proof fn lemma_matured_count_le_len(s: Seq<MilestoneView>, e: u64)
    ensures
        matured_count(s, e) <= s.len(),
    decreases s.len(),
{
    if s.len() > 0 && s[0].epoch <= e {
        lemma_matured_count_le_len(s.drop_first(), e);
    }
}

/// In a strictly ascending schedule, epochs grow with the index.
pub proof fn lemma_ascending_pair(s: Seq<MilestoneView>, i: int, j: int)
    requires
        epochs_strictly_ascending(s),
        0 <= i < j < s.len(),
    ensures
        s[i].epoch < s[j].epoch,
    decreases j - i,
{
    if j > i + 1 {
        lemma_ascending_pair(s, i, j - 1);
    }
}

/// A suffix of a strictly ascending schedule is strictly ascending.
pub proof fn lemma_ascending_skip(s: Seq<MilestoneView>, k: int)
    requires
        epochs_strictly_ascending(s),
        0 <= k <= s.len(),
    ensures
        epochs_strictly_ascending(s.skip(k)),
{
    assert forall|i: int| 1 <= i < s.skip(k).len() implies #[trigger] s.skip(k)[i].epoch > s.skip(
        k,
    )[i - 1].epoch by {
        assert(s.skip(k)[i] == s[k + i]);
        assert(s.skip(k)[i - 1] == s[k + i - 1]);
    }
}

/// Splitting a schedule splits its total value.
pub proof fn lemma_sum_split(s: Seq<MilestoneView>, k: int)
    requires
        0 <= k <= s.len(),
    ensures
        schedule_sum(s) == schedule_sum(s.take(k)) + schedule_sum(s.skip(k)),
    decreases k,
{
    if k == 0 {
        assert(s.take(0) =~= Seq::<MilestoneView>::empty());
        assert(s.skip(0) =~= s);
    } else {
        lemma_sum_split(s.drop_first(), k - 1);
        assert(s.take(k).drop_first() =~= s.drop_first().take(k - 1));
        assert(s.skip(k) =~= s.drop_first().skip(k - 1));
        assert(s.take(k)[0] == s[0]);
        assert(s.take(k).len() == k);
    }
}

/// Extending a prefix by one milestone adds its amount to the prefix sum.
pub proof fn lemma_sum_take_succ(s: Seq<MilestoneView>, j: int)
    requires
        0 <= j < s.len(),
    ensures
        schedule_sum(s.take(j + 1)) == schedule_sum(s.take(j)) + s[j].amount,
    decreases j,
{
    if j == 0 {
        assert(s.take(0) =~= Seq::<MilestoneView>::empty());
        assert(s.take(1).drop_first() =~= Seq::<MilestoneView>::empty());
        assert(s.take(1)[0] == s[0]);
    } else {
        lemma_sum_take_succ(s.drop_first(), j - 1);
        assert(s.take(j + 1).drop_first() =~= s.drop_first().take(j));
        assert(s.take(j).drop_first() =~= s.drop_first().take(j - 1));
        assert(s.take(j + 1)[0] == s[0]);
        assert(s.take(j)[0] == s[0]);
        assert(s.drop_first()[j - 1] == s[j]);
    }
}

/// Once the current epoch reaches the last milestone's epoch of a strictly
/// ascending schedule, every milestone has matured.
pub proof fn lemma_full_maturity(s: Seq<MilestoneView>, e: u64)
    requires
        epochs_strictly_ascending(s),
        s.len() > 0,
        s.last().epoch <= e,
    ensures
        matured_count(s, e) == s.len(),
    decreases s.len(),
{
    if s.len() == 1 {
        assert(s[0] == s.last());
        assert(s[0].epoch <= e);
        assert(s.drop_first().len() == 0);
        assert(matured_count(s.drop_first(), e) == 0);
        assert(matured_count(s, e) == 1);
    } else {
        lemma_ascending_pair(s, 0, s.len() - 1);
        let d = s.drop_first();
        assert forall|i: int| 1 <= i < d.len() implies #[trigger] d[i].epoch > d[i - 1].epoch by {
            assert(d[i] == s[i + 1]);
            assert(d[i - 1] == s[i]);
        }
        assert(d.last() == s.last());
        lemma_full_maturity(d, e);
        assert(s[0].epoch <= e);
        assert(matured_count(s, e) == 1 + matured_count(d, e));
    }
}

/// After a sweep at epoch `e`, nothing further matures at epoch `e`: the
/// sweep is idempotent until the clock advances.
pub proof fn lemma_sweep_idempotent(s: Seq<MilestoneView>, e: u64)
    ensures
        matured_count(swept_schedule(s, e), e) == 0,
    decreases s.len(),
{
    let k = matured_count(s, e) as int;
    lemma_matured_count_le_len(s, e);
    if s.len() == 0 || s[0].epoch > e {
        assert(s.skip(0) =~= s);
    } else {
        lemma_matured_count_le_len(s.drop_first(), e);
        lemma_sweep_idempotent(s.drop_first(), e);
        assert(s.skip(k) =~= s.drop_first().skip(k - 1));
    }
}

/// The total value of a schedule, as an amount.
#[verifier::loop_isolation(false)]
pub fn total_of(v: &Vec<ReleaseMilestone>) -> (r: Amount)
    ensures
        r@ == schedule_sum(schedule_view(v@)),
        r.wf(),
{
    let ghost sv = schedule_view(v@);
    let n = v.len();
    let mut total = Amount::zero();
    let mut i: usize = 0;
    while i < n
        invariant
            0 <= i <= n,
            total@ == schedule_sum(sv.take(i as int)),
            total.wf(),
        decreases n - i,
    {
        proof {
            lemma_sum_take_succ(sv, i as int);
        }
        total = total.plus(&v[i].amount);
        i = i + 1;
    }
    proof {
        assert(sv.take(n as int) =~= sv);
    }
    total
}

/// An identical copy of a schedule.
#[verifier::loop_isolation(false)]
pub fn duplicate_schedule(v: &Vec<ReleaseMilestone>) -> (r: Vec<ReleaseMilestone>)
    requires
        milestones_wf(v@),
    ensures
        schedule_view(r@) == schedule_view(v@),
        milestones_wf(r@),
{
    let n = v.len();
    let mut out: Vec<ReleaseMilestone> = Vec::new();
    let mut i: usize = 0;
    while i < n
        invariant
            0 <= i <= n,
            out@.len() == i,
            forall|j: int| 0 <= j < i ==> #[trigger] out@[j]@ == v@[j]@,
            forall|j: int| 0 <= j < i ==> (#[trigger] out@[j]).wf(),
        decreases n - i,
    {
        let m = v[i].duplicate();
        out.push(m);
        i = i + 1;
    }
    proof {
        assert(schedule_view(out@) =~= schedule_view(v@));
    }
    out
}

} // verus!
