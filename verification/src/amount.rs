//! Arbitrary-precision non-negative amounts.
//!
//! Every quantity of value in the ledger (milestone amounts, deposits,
//! claimable balances) is an [`Amount`]: an unbounded natural number stored
//! as little-endian base-2^64 limbs. The view of an `Amount` is the
//! mathematical natural number it denotes, so all contracts elsewhere in the
//! crate speak of exact sums with no overflow and no truncation.

use vstd::prelude::*;
use vstd::arithmetic::div_mod::lemma_fundamental_div_mod_converse;

verus! {

/// The radix of one limb.
pub open spec fn base() -> nat {
    0x1_0000_0000_0000_0000
}

/// `base()` raised to the power `i`.
pub open spec fn base_pow(i: nat) -> nat
    decreases i,
{
    if i == 0 {
        1
    } else {
        base() * base_pow((i - 1) as nat)
    }
}

/// The natural number denoted by a little-endian limb sequence.
pub open spec fn nat_of(s: Seq<u64>) -> nat
    decreases s.len(),
{
    if s.len() == 0 {
        0nat
    } else {
        (s[0] + base() * nat_of(s.drop_first())) as nat
    }
}

/// A limb sequence is canonical when it carries no redundant leading zero.
pub open spec fn canonical(s: Seq<u64>) -> bool {
    s.len() == 0 || s.last() != 0
}

/// An unbounded non-negative integer quantity of an asset.
pub struct Amount {
    limbs: Vec<u64>,
}

impl View for Amount {
    type V = nat;

    closed spec fn view(&self) -> nat {
        nat_of(self.limbs@)
    }
}

impl Amount {
    /// The stored limbs are canonical, so equal values have equal limbs.
    pub closed spec fn wf(&self) -> bool {
        canonical(self.limbs@)
    }

    /// The zero amount.
    pub fn zero() -> (r: Amount)
        ensures
            r@ == 0,
            r.wf(),
    {
        Amount { limbs: Vec::new() }
    }

    /// The amount with the value of a machine integer.
    pub fn from_u64(v: u64) -> (r: Amount)
        ensures
            r@ == v,
            r.wf(),
    {
        let mut limbs: Vec<u64> = Vec::new();
        if v != 0 {
            limbs.push(v);
        }
        proof {
            lemma_nat_of_empty();
            if v != 0 {
                assert(limbs@.drop_first() =~= Seq::<u64>::empty());
            }
        }
        Amount { limbs }
    }

    /// Whether the amount is zero.
    pub fn is_zero(&self) -> (r: bool)
        requires
            self.wf(),
        ensures
            r <==> self@ == 0,
    {
        proof {
            if self.limbs@.len() > 0 {
                lemma_nat_of_lower_bound(self.limbs@);
                lemma_base_pow_positive((self.limbs@.len() - 1) as nat);
            }
        }
        self.limbs.len() == 0
    }

    /// Whether two amounts denote the same value.
    #[verifier::loop_isolation(false)]
    pub fn equals(&self, other: &Amount) -> (r: bool)
        requires
            self.wf(),
            other.wf(),
        ensures
            r <==> self@ == other@,
    {
        proof {
            if nat_of(self.limbs@) == nat_of(other.limbs@) {
                lemma_canonical_unique(self.limbs@, other.limbs@);
            }
        }
        if self.limbs.len() != other.limbs.len() {
            return false;
        }
        let n = self.limbs.len();
        let mut i: usize = 0;
        while i < n
            invariant
                n == self.limbs@.len() == other.limbs@.len(),
                0 <= i <= n,
                forall|j: int| 0 <= j < i ==> self.limbs@[j] == other.limbs@[j],
            decreases n - i,
        {
            if self.limbs[i] != other.limbs[i] {
                proof {
                    assert(self.limbs@ != other.limbs@);
                }
                return false;
            }
            i = i + 1;
        }
        proof {
            assert(self.limbs@ =~= other.limbs@);
        }
        true
    }

    /// An identical copy of the amount.
    pub fn duplicate(&self) -> (r: Amount)
        ensures
            r@ == self@,
            r.wf() == self.wf(),
    {
        let n = self.limbs.len();
        let mut limbs: Vec<u64> = Vec::new();
        let mut i: usize = 0;
        while i < n
            invariant
                n == self.limbs@.len(),
                0 <= i <= n,
                limbs@ =~= self.limbs@.take(i as int),
            decreases n - i,
        {
            limbs.push(self.limbs[i]);
            i = i + 1;
        }
        proof {
            assert(limbs@ =~= self.limbs@);
        }
        Amount { limbs }
    }

    /// The value as a machine integer, if it fits.
    pub fn to_u64(&self) -> (r: Option<u64>)
        requires
            self.wf(),
        ensures
            self@ <= u64::MAX ==> r == Some(self@ as u64),
            self@ > u64::MAX ==> r is None,
    {
        if self.limbs.len() == 0 {
            Some(0)
        } else if self.limbs.len() == 1 {
            proof {
                lemma_nat_of_empty();
                assert(self.limbs@.drop_first() =~= Seq::<u64>::empty());
            }
            Some(self.limbs[0])
        } else {
            proof {
                lemma_nat_of_lower_bound(self.limbs@);
                lemma_base_pow_at_least_base((self.limbs@.len() - 1) as nat);
            }
            None
        }
    }

    /// The sum of two amounts. Addition is exact: amounts cannot overflow.
    pub fn plus(&self, other: &Amount) -> (r: Amount)
        ensures
            r@ == self@ + other@,
            r.wf(),
    {
        let alen = self.limbs.len();
        let blen = other.limbs.len();
        let maxlen = if alen < blen { blen } else { alen };
        let mut out: Vec<u64> = Vec::new();
        let mut carry: u64 = 0;
        let mut i: usize = 0;
        while i < maxlen
            invariant
                alen == self.limbs@.len(),
                blen == other.limbs@.len(),
                maxlen == if alen < blen { blen } else { alen },
                carry <= 1,
                i <= maxlen,
                out@.len() == i,
                nat_of(out@) + carry * base_pow(i as nat) == nat_of(
                    self.limbs@.take(if i <= alen { i as int } else { alen as int }),
                ) + nat_of(other.limbs@.take(if i <= blen { i as int } else { blen as int })),
            decreases maxlen - i,
        {
            let av: u64 = if i < alen { self.limbs[i] } else { 0 };
            let bv: u64 = if i < blen { other.limbs[i] } else { 0 };
            let s1 = av.wrapping_add(bv);
            let c1: u64 = if s1 < av { 1 } else { 0 };
            let s2 = s1.wrapping_add(carry);
            let c2: u64 = if s2 < s1 { 1 } else { 0 };
            proof {
                assert(s1 + c1 * base() == av + bv);
                assert(s2 + c2 * base() == s1 + carry);
                assert(c1 + c2 <= 1);
                assert(s2 + (c1 + c2) * base() == av + bv + carry);
                lemma_add_limb_step(
                    self.limbs@,
                    other.limbs@,
                    out@,
                    i as nat,
                    carry as nat,
                    av,
                    bv,
                    s2,
                    (c1 + c2) as nat,
                );
            }
            out.push(s2);
            carry = c1 + c2;
            i = i + 1;
        }
        if carry != 0 {
            proof {
                lemma_nat_of_push(out@, carry);
            }
            out.push(carry);
        }
        proof {
            assert(self.limbs@.take(alen as int) =~= self.limbs@);
            assert(other.limbs@.take(blen as int) =~= other.limbs@);
        }
        let mut r = Amount { limbs: out };
        r.normalize();
        r
    }

    /// Removes redundant leading zero limbs, keeping the value.
    fn normalize(&mut self)
        ensures
            final(self)@ == old(self)@,
            final(self).wf(),
    {
        while self.limbs.len() > 0 && self.limbs[self.limbs.len() - 1] == 0
            invariant
                nat_of(self.limbs@) == old(self)@,
            decreases self.limbs@.len(),
        {
            proof {
                lemma_nat_of_drop_last_zero(self.limbs@);
            }
            let _ = self.limbs.pop();
            proof {
                assert(nat_of(self.limbs@) == old(self)@);
            }
        }
    }
}

/// The empty limb sequence denotes zero.
pub proof fn lemma_nat_of_empty()
    ensures
        nat_of(Seq::<u64>::empty()) == 0,
{
}

/// Every power of the base is positive.
pub proof fn lemma_base_pow_positive(i: nat)
    ensures
        base_pow(i) >= 1,
    decreases i,
{
    if i > 0 {
        lemma_base_pow_positive((i - 1) as nat);
        assert(base() * base_pow((i - 1) as nat) >= base_pow((i - 1) as nat)) by (nonlinear_arith)
            requires
                base_pow((i - 1) as nat) >= 1,
        ;
    }
}

/// Every positive power of the base is at least the base.
pub proof fn lemma_base_pow_at_least_base(i: nat)
    requires
        i >= 1,
    ensures
        base_pow(i) >= base(),
    decreases i,
{
    if i == 1 {
        assert(base_pow(1) == base() * base_pow(0));
    } else {
        lemma_base_pow_at_least_base((i - 1) as nat);
        assert(base() * base_pow((i - 1) as nat) >= base_pow((i - 1) as nat)) by (nonlinear_arith)
            requires
                base_pow((i - 1) as nat) >= 1,
        ;
        lemma_base_pow_positive((i - 1) as nat);
    }
}

/// Appending a limb adds its value at the next power of the base.
pub proof fn lemma_nat_of_push(s: Seq<u64>, x: u64)
    ensures
        nat_of(s.push(x)) == nat_of(s) + x * base_pow(s.len()),
    decreases s.len(),
{
    if s.len() == 0 {
        lemma_nat_of_empty();
        assert(s.push(x).drop_first() =~= Seq::<u64>::empty());
        assert(s.push(x)[0] == x);
        assert(nat_of(s) == 0);
        assert(base_pow(0) == 1);
    } else {
        assert(s.push(x).drop_first() =~= s.drop_first().push(x));
        lemma_nat_of_push(s.drop_first(), x);
        let b = base();
        let p = base_pow((s.len() - 1) as nat);
        assert(base_pow(s.len()) == b * p);
        assert(b * (nat_of(s.drop_first()) + x * p) == b * nat_of(s.drop_first()) + x * (b * p))
            by (nonlinear_arith);
    }
}

/// Extending a prefix by one element adds that element's weighted value.
pub proof fn lemma_nat_of_take_succ(s: Seq<u64>, j: int)
    requires
        0 <= j < s.len(),
    ensures
        nat_of(s.take(j + 1)) == nat_of(s.take(j)) + s[j] * base_pow(j as nat),
{
    assert(s.take(j + 1) =~= s.take(j).push(s[j]));
    lemma_nat_of_push(s.take(j), s[j]);
}

/// A canonical non-empty limb sequence denotes at least the weight of its
/// highest limb position.
pub proof fn lemma_nat_of_lower_bound(s: Seq<u64>)
    requires
        s.len() > 0,
        s.last() != 0,
    ensures
        nat_of(s) >= base_pow((s.len() - 1) as nat),
    decreases s.len(),
{
    if s.len() == 1 {
        assert(s.drop_first() =~= Seq::<u64>::empty());
    } else {
        let d = s.drop_first();
        assert(d.last() == s.last());
        lemma_nat_of_lower_bound(d);
        let b = base();
        let p = base_pow((d.len() - 1) as nat);
        assert(b * nat_of(d) >= b * p) by (nonlinear_arith)
            requires
                nat_of(d) >= p,
                b >= 1,
        ;
        assert(base_pow((s.len() - 1) as nat) == b * p);
    }
}

/// Dropping a zero last limb keeps the value.
pub proof fn lemma_nat_of_drop_last_zero(s: Seq<u64>)
    requires
        s.len() > 0,
        s.last() == 0,
    ensures
        nat_of(s.drop_last()) == nat_of(s),
    decreases s.len(),
{
    if s.len() == 1 {
        lemma_nat_of_empty();
        assert(s.drop_last() =~= Seq::<u64>::empty());
        assert(s.drop_first() =~= Seq::<u64>::empty());
    } else {
        let d = s.drop_first();
        assert(d.last() == s.last());
        lemma_nat_of_drop_last_zero(d);
        assert(s.drop_last().drop_first() =~= d.drop_last());
        assert(s.drop_last()[0] == s[0]);
        assert(s.drop_last().len() > 0);
    }
}

/// Canonical limb sequences denoting the same value are identical.
pub proof fn lemma_canonical_unique(a: Seq<u64>, b: Seq<u64>)
    requires
        canonical(a),
        canonical(b),
        nat_of(a) == nat_of(b),
    ensures
        a == b,
    decreases a.len(),
{
    if a.len() == 0 {
        if b.len() > 0 {
            lemma_nat_of_lower_bound(b);
            lemma_base_pow_positive((b.len() - 1) as nat);
        }
        assert(a =~= b);
    } else if b.len() == 0 {
        lemma_nat_of_lower_bound(a);
        lemma_base_pow_positive((a.len() - 1) as nat);
    } else {
        let x = nat_of(a) as int;
        let d = base() as int;
        lemma_fundamental_div_mod_converse(x, d, nat_of(a.drop_first()) as int, a[0] as int);
        lemma_fundamental_div_mod_converse(x, d, nat_of(b.drop_first()) as int, b[0] as int);
        assert(a[0] == b[0]);
        assert(nat_of(a.drop_first()) == nat_of(b.drop_first()));
        if a.len() == 1 {
            lemma_nat_of_empty();
            assert(a.drop_first() =~= Seq::<u64>::empty());
            if b.len() > 1 {
                let bd = b.drop_first();
                assert(bd.last() == b.last());
                lemma_nat_of_lower_bound(bd);
                lemma_base_pow_positive((bd.len() - 1) as nat);
            }
        } else if b.len() == 1 {
            lemma_nat_of_empty();
            assert(b.drop_first() =~= Seq::<u64>::empty());
            let ad = a.drop_first();
            assert(ad.last() == a.last());
            lemma_nat_of_lower_bound(ad);
            lemma_base_pow_positive((ad.len() - 1) as nat);
        } else {
            assert(a.drop_first().last() == a.last());
            assert(b.drop_first().last() == b.last());
            lemma_canonical_unique(a.drop_first(), b.drop_first());
            assert(a.len() == b.len());
            assert forall|i: int| 0 <= i < a.len() implies a[i] == b[i] by {
                if i >= 1 {
                    assert(a[i] == a.drop_first()[i - 1]);
                    assert(b[i] == b.drop_first()[i - 1]);
                }
            }
        }
        assert(a =~= b);
    }
}

/// One limb of the carry-propagating addition: pushing the low limb and
/// keeping the carry preserves the running-sum equation.
proof fn lemma_add_limb_step(
    a: Seq<u64>,
    b: Seq<u64>,
    out: Seq<u64>,
    i: nat,
    carry: nat,
    av: u64,
    bv: u64,
    low: u64,
    carry2: nat,
)
    requires
        out.len() == i,
        carry <= 1,
        av == if i < a.len() { a[i as int] } else { 0u64 },
        bv == if i < b.len() { b[i as int] } else { 0u64 },
        low + carry2 * base() == av + bv + carry,
        nat_of(out) + carry * base_pow(i) == nat_of(
            a.take(if i <= a.len() { i as int } else { a.len() as int }),
        ) + nat_of(b.take(if i <= b.len() { i as int } else { b.len() as int })),
    ensures
        nat_of(out.push(low)) + carry2 * base_pow((i + 1) as nat) == nat_of(
            a.take(if i + 1 <= a.len() { (i + 1) as int } else { a.len() as int }),
        ) + nat_of(b.take(if i + 1 <= b.len() { (i + 1) as int } else { b.len() as int })),
{
    let p = base_pow(i);
    let bs = base();
    lemma_nat_of_push(out, low);
    assert(base_pow((i + 1) as nat) == bs * p);
    if i < a.len() {
        lemma_nat_of_take_succ(a, i as int);
    } else {
        assert(a.take(a.len() as int) =~= a.take(a.len() as int));
    }
    if i < b.len() {
        lemma_nat_of_take_succ(b, i as int);
    }
    assert((low + carry2 * bs) * p == low * p + carry2 * (bs * p)) by (nonlinear_arith);
    assert((av + bv + carry) * p == av * p + bv * p + carry * p) by (nonlinear_arith);
    assert((low + carry2 * bs) * p == (av + bv + carry) * p) by (nonlinear_arith)
        requires
            low + carry2 * bs == av + bv + carry,
    ;
}

} // verus!
