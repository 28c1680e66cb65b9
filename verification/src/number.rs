//! The signed arbitrary-precision integer: a sign flag and a sequence
//! of base-2^64 limbs, least significant first, with the canonical-form
//! invariant, total order, negation, addition and subtraction.

use crate::limbs::{
    base, lemma_limbs_bound, lemma_limbs_injective, lemma_limbs_longer_greater,
    lemma_limbs_ms_compare, lemma_limbs_positive, lemma_limbs_push, lemma_limbs_singleton,
    lemma_limbs_strip_zeros, lemma_prefix_step, limb_at, limbs_as_nat, pow_base, prefix_up_to,
};
use core::cmp::Ordering;
use vstd::prelude::*;

verus! {

/// A whole number in sign-magnitude form, base 2^64.
/// The least-significant limb is stored first.
/// Zero is represented as a single, non-negative zero limb.
#[derive(Debug)]
pub struct Number {
    /// `true` means the number is non-negative.
    pub positive: bool,
    /// The magnitude's limbs, least significant first.
    pub digits: Vec<u64>,
}

impl Number {
    /// The magnitude this value denotes, ignoring the sign.
    pub open spec fn magnitude(self) -> nat {
        limbs_as_nat(self.digits@)
    }

    /// The signed integer this value denotes.
    pub open spec fn value(self) -> int {
        if self.positive {
            self.magnitude() as int
        } else {
            -(self.magnitude() as int)
        }
    }

    /// The canonical-form invariant: at least one limb, no leading
    /// (most-significant) zero limb beyond the first, and zero is
    /// never negative. Every operation expects and re-establishes it.
    pub open spec fn well_formed(self) -> bool {
        &&& self.digits@.len() >= 1
        &&& (self.digits@.len() > 1 ==> self.digits@.last() != 0)
        &&& (self.magnitude() == 0 ==> self.positive)
    }
}

/// The integer denoted by a raw (sign, limb sequence) pair before
/// normalization; an empty sequence denotes zero.
pub open spec fn raw_value(positive: bool, digits: Seq<u64>) -> int {
    if positive {
        limbs_as_nat(digits) as int
    } else {
        -(limbs_as_nat(digits) as int)
    }
}

/// A canonical negative value denotes a strictly negative integer:
/// its magnitude cannot be zero, since zero is never negative.
pub proof fn lemma_wf_negative_nonzero(a: Number)
    requires
        a.well_formed(),
        !a.positive,
    ensures
        a.magnitude() > 0,
        a.value() < 0,
{
}

impl Number {
    /// Constructs the canonical value denoting the given raw pair.
    /// Total: every input is accepted and silently canonicalized.
    pub fn new(positive: bool, digits: Vec<u64>) -> (r: Self)
        ensures
            r.well_formed(),
            r.value() == raw_value(positive, digits@),
    {
        let n = Number { positive, digits };
        n.normalize()
    }

    /// Removes leading zero limbs and canonicalizes a zero value to a
    /// single non-negative zero limb. The denoted integer is kept, and
    /// an already-normalized value comes back unchanged.
    pub fn normalize(self) -> (r: Self)
        ensures
            r.well_formed(),
            r.value() == raw_value(self.positive, self.digits@),
            self.well_formed() ==> r.positive == self.positive && r.digits@ == self.digits@,
    {
        let mut n = self;
        if n.digits.len() == 0 {
            n.digits.push(0);
            n.positive = true;
            proof {
                assert(n.digits@ =~= seq![0u64]);
                lemma_limbs_singleton(0u64);
                assert(limbs_as_nat(self.digits@) == 0);
                assert(n.magnitude() == 0);
            }
            n
        } else {
            let ghost orig = n.digits@;
            let mut keep: usize = n.digits.len();
            while keep > 1 && n.digits[keep - 1] == 0
                invariant
                    1 <= keep <= n.digits@.len(),
                    n.digits@ == orig,
                    forall|i: int| keep <= i < orig.len() ==> orig[i] == 0,
                decreases keep,
            {
                keep = keep - 1;
            }
            n.digits.truncate(keep);
            proof {
                lemma_limbs_strip_zeros(orig, keep as int);
                assert(n.digits@ == orig.take(keep as int));
                assert(n.magnitude() == limbs_as_nat(orig));
            }
            if n.digits.len() == 1 && n.digits[0] == 0 {
                proof {
                    assert(n.digits@ =~= seq![0u64]);
                    lemma_limbs_singleton(0u64);
                    assert(n.magnitude() == 0);
                    if self.well_formed() {
                        // a canonical input denoting zero was already positive
                        if orig.len() > 1 {
                            lemma_limbs_positive(orig);
                            assert(false);
                        }
                        assert(keep == 1);
                        assert(n.digits@ =~= orig);
                    }
                }
                n.positive = true;
                n
            } else {
                proof {
                    if n.digits@.len() > 1 {
                        assert(keep > 1);
                        assert(orig[keep - 1] != 0);
                        assert(n.digits@.last() == orig[keep - 1]);
                        lemma_limbs_positive(n.digits@);
                    } else {
                        // a single limb that is not zero denotes itself
                        assert(n.digits@ =~= seq![n.digits@[0]]);
                        lemma_limbs_singleton(n.digits@[0]);
                        assert(n.magnitude() != 0);
                    }
                    if self.well_formed() {
                        if orig.len() > 1 {
                            assert(orig.last() != 0);
                            assert(keep == orig.len());
                        }
                        assert(n.digits@ =~= orig);
                    }
                }
                n
            }
        }
    }

    /// Compares the magnitudes of two values, ignoring their signs:
    /// the result orders `self`'s absolute value against `other`'s.
    pub fn cmp_abs(&self, other: &Self) -> (r: Ordering)
        requires
            self.well_formed(),
            other.well_formed(),
        ensures
            r == Ordering::Less <==> self.magnitude() < other.magnitude(),
            r == Ordering::Equal <==> self.magnitude() == other.magnitude(),
            r == Ordering::Greater <==> self.magnitude() > other.magnitude(),
    {
        if self.digits.len() < other.digits.len() {
            proof {
                lemma_limbs_longer_greater(self.digits@, other.digits@);
            }
            Ordering::Less
        } else if other.digits.len() < self.digits.len() {
            proof {
                lemma_limbs_longer_greater(other.digits@, self.digits@);
            }
            Ordering::Greater
        } else {
            // equal limb counts: the most-significant differing limb decides
            let n = self.digits.len();
            let mut i: usize = n;
            while i > 0
                invariant
                    i <= n,
                    n == self.digits@.len(),
                    n == other.digits@.len(),
                    forall|j: int| i <= j < n ==> self.digits@[j] == other.digits@[j],
                decreases i,
            {
                i = i - 1;
                if self.digits[i] < other.digits[i] {
                    proof {
                        lemma_limbs_ms_compare(self.digits@, other.digits@, i as int);
                    }
                    return Ordering::Less;
                }
                if other.digits[i] < self.digits[i] {
                    proof {
                        lemma_limbs_ms_compare(other.digits@, self.digits@, i as int);
                    }
                    return Ordering::Greater;
                }
            }
            proof {
                assert(self.digits@ =~= other.digits@);
            }
            Ordering::Equal
        }
    }

    /// The strict total order on values: signs first, then magnitudes,
    /// with the magnitude order reversed for two negative numbers.
    pub fn compare(&self, other: &Self) -> (r: Ordering)
        requires
            self.well_formed(),
            other.well_formed(),
        ensures
            r == Ordering::Less <==> self.value() < other.value(),
            r == Ordering::Equal <==> self.value() == other.value(),
            r == Ordering::Greater <==> self.value() > other.value(),
    {
        match (self.positive, other.positive) {
            (true, false) => {
                proof {
                    // a negative value is canonical, so its magnitude is nonzero
                    lemma_wf_negative_nonzero(*other);
                }
                Ordering::Greater
            },
            (false, true) => {
                proof {
                    lemma_wf_negative_nonzero(*self);
                }
                Ordering::Less
            },
            (true, true) => self.cmp_abs(other),
            (false, false) => match self.cmp_abs(other) {
                Ordering::Less => Ordering::Greater,
                Ordering::Equal => Ordering::Equal,
                Ordering::Greater => Ordering::Less,
            },
        }
    }

    /// Drops the sign: turns the value into its absolute value in
    /// place, leaving the limbs untouched.
    pub fn abs(&mut self)
        ensures
            final(self).positive,
            final(self).digits@ == old(self).digits@,
            final(self).value() == old(self).magnitude(),
    {
        self.positive = true;
    }
}

impl PartialEq for Number {
    /// Structural equality: same sign and identical limb sequence.
    /// On canonical values this coincides with equality of the
    /// denoted integers, there being one representation per integer.
    fn eq(&self, other: &Self) -> (r: bool) {
        if self.positive != other.positive || self.digits.len() != other.digits.len() {
            return false;
        }
        let mut i: usize = 0;
        while i < self.digits.len()
            invariant
                i <= self.digits@.len(),
                self.digits@.len() == other.digits@.len(),
                self.positive == other.positive,
                forall|j: int| 0 <= j < i ==> self.digits@[j] == other.digits@[j],
            decreases self.digits@.len() - i,
        {
            if self.digits[i] != other.digits[i] {
                return false;
            }
            i = i + 1;
        }
        proof {
            assert(self.digits@ =~= other.digits@);
        }
        true
    }
}

impl vstd::std_specs::cmp::PartialEqSpecImpl for Number {
    open spec fn obeys_eq_spec() -> bool {
        true
    }

    open spec fn eq_spec(&self, other: &Self) -> bool {
        self.positive == other.positive && self.digits@ == other.digits@
    }
}

/// Between canonical values, the one denoting no larger a magnitude
/// has no more limbs, since a canonical value has no leading zeros.
proof fn lemma_wf_len_le(a: Number, b: Number)
    requires
        a.well_formed(),
        b.well_formed(),
        a.magnitude() <= b.magnitude(),
    ensures
        a.digits@.len() <= b.digits@.len(),
{
    if a.digits@.len() > b.digits@.len() {
        lemma_limbs_longer_greater(b.digits@, a.digits@);
        assert(false);
    }
}

impl Number {
    /// Adds two values: the result is the canonical form of the
    /// mathematical sum. The operand with the larger magnitude drives
    /// the sign and the limb loop; on a magnitude tie the second
    /// operand takes that role, which makes no difference to the sum.
    /// Same signs add the magnitudes with carries; opposite signs
    /// subtract the smaller magnitude from the larger with borrows.
    pub fn add(self, rhs: Self) -> (r: Self)
        requires
            self.well_formed(),
            rhs.well_formed(),
        ensures
            r.well_formed(),
            r.value() == self.value() + rhs.value(),
    {
        let self_bigger = match self.cmp_abs(&rhs) {
            Ordering::Greater => true,
            _ => false,
        };
        let (bigger, smaller) = if self_bigger {
            (self, rhs)
        } else {
            (rhs, self)
        };
        proof {
            lemma_wf_len_le(smaller, bigger);
        }
        let digits = if bigger.positive == smaller.positive {
            mag_add(&bigger.digits, &smaller.digits)
        } else {
            mag_sub(&bigger.digits, &smaller.digits)
        };
        let sum = Number { positive: bigger.positive, digits };
        proof {
            assert(raw_value(sum.positive, sum.digits@) == self.value() + rhs.value());
        }
        sum.normalize()
    }

    /// Flips the sign, re-normalizing so that negating zero yields
    /// the canonical non-negative zero.
    pub fn negate(self) -> (r: Self)
        requires
            self.well_formed(),
        ensures
            r.well_formed(),
            r.value() == -self.value(),
    {
        let mut n = self;
        n.positive = !n.positive;
        n.normalize()
    }

    /// Subtracts `rhs` from `self`, composed as the sum with the
    /// negation of `rhs`; there is no separate subtraction algorithm.
    pub fn subtract(self, rhs: Self) -> (r: Self)
        requires
            self.well_formed(),
            rhs.well_formed(),
        ensures
            r.well_formed(),
            r.value() == self.value() - rhs.value(),
    {
        self.add(rhs.negate())
    }
}

/// Uniqueness of the canonical form: two canonical values denoting
/// the same integer are identical in sign and limbs. In particular,
/// raw inputs written differently but denoting the same integer
/// construct identical values.
pub proof fn lemma_canonical_unique(a: Number, b: Number)
    requires
        a.well_formed(),
        b.well_formed(),
        a.value() == b.value(),
    ensures
        a.positive == b.positive,
        a.digits@ == b.digits@,
{
    if a.positive != b.positive {
        if a.positive {
            lemma_wf_negative_nonzero(b);
        } else {
            lemma_wf_negative_nonzero(a);
        }
        assert(false);
    }
    assert(a.magnitude() == b.magnitude());
    lemma_wf_len_le(a, b);
    lemma_wf_len_le(b, a);
    lemma_limbs_injective(a.digits@, b.digits@);
}

/// The only canonical value denoting zero is the single non-negative
/// zero limb.
pub proof fn lemma_zero_canonical(a: Number)
    requires
        a.well_formed(),
        a.value() == 0,
    ensures
        a.positive,
        a.digits@ == seq![0u64],
{
    if !a.positive {
        lemma_wf_negative_nonzero(a);
        assert(false);
    }
    assert(a.magnitude() == 0);
    if a.digits@.len() > 1 {
        lemma_limbs_positive(a.digits@);
        assert(false);
    }
    lemma_limbs_singleton(a.digits@[0]);
    assert(a.digits@ =~= seq![a.digits@[0]]);
    assert(a.digits@[0] == 0);
    assert(a.digits@ =~= seq![0u64]);
}

/// The order on values is total: between any two canonical values
/// exactly one of less, equal and greater holds; it is transitive;
/// and it is antisymmetric, with equal values being identical.
pub proof fn lemma_order_total(a: Number, b: Number, c: Number)
    requires
        a.well_formed(),
        b.well_formed(),
        c.well_formed(),
    ensures
        a.value() < b.value() || a.value() == b.value() || a.value() > b.value(),
        !(a.value() < b.value() && a.value() == b.value()),
        !(a.value() < b.value() && a.value() > b.value()),
        !(a.value() == b.value() && a.value() > b.value()),
        a.value() < b.value() && b.value() < c.value() ==> a.value() < c.value(),
        a.value() <= b.value() && b.value() <= a.value() ==> a.positive == b.positive
            && a.digits@ == b.digits@,
{
    if a.value() == b.value() {
        lemma_canonical_unique(a, b);
    }
}

/// Additive identity: a canonical sum with a zero operand is
/// identical to the other operand.
pub proof fn lemma_add_identity(a: Number, zero: Number, sum: Number)
    requires
        a.well_formed(),
        zero.well_formed(),
        zero.value() == 0,
        sum.well_formed(),
        sum.value() == a.value() + zero.value(),
    ensures
        sum.positive == a.positive,
        sum.digits@ == a.digits@,
{
    lemma_canonical_unique(sum, a);
}

/// Additive inverse: a value and its negation cancel, their
/// canonical sum being the canonical zero.
pub proof fn lemma_add_inverse(a: Number, sum: Number)
    requires
        a.well_formed(),
        sum.well_formed(),
        sum.value() == a.value() + (-a.value()),
    ensures
        sum.positive,
        sum.digits@ == seq![0u64],
{
    lemma_zero_canonical(sum);
}

/// Commutativity: canonical sums of the same two values taken in
/// either order are identical.
pub proof fn lemma_add_commutes(a: Number, b: Number, r1: Number, r2: Number)
    requires
        a.well_formed(),
        b.well_formed(),
        r1.well_formed(),
        r1.value() == a.value() + b.value(),
        r2.well_formed(),
        r2.value() == b.value() + a.value(),
    ensures
        r1.positive == r2.positive,
        r1.digits@ == r2.digits@,
{
    lemma_canonical_unique(r1, r2);
}

/// Zero canonicalization under negation: the canonical negation of a
/// value denoting zero is the canonical zero itself, never a
/// negative zero.
pub proof fn lemma_negate_zero(zero: Number, r: Number)
    requires
        zero.well_formed(),
        zero.value() == 0,
        r.well_formed(),
        r.value() == -zero.value(),
    ensures
        r.positive,
        r.digits@ == seq![0u64],
{
    lemma_zero_canonical(r);
}

/// One limb of a carry-propagating addition: the low 64 bits and the
/// outgoing carry bit of `a + b + carry`, computed in a wider domain
/// so that overflow is absorbed by the carry, never dropped.
fn carrying_add_limb(a: u64, b: u64, carry: bool) -> (r: (u64, bool))
    ensures
        r.0 as int + (if r.1 { base() as int } else { 0int }) == a as int + b as int + (if carry {
            1int
        } else {
            0int
        }),
{
    let s: u128 = a as u128 + b as u128 + (if carry { 1u128 } else { 0u128 });
    if s >= 0x1_0000_0000_0000_0000u128 {
        ((s - 0x1_0000_0000_0000_0000u128) as u64, true)
    } else {
        (s as u64, false)
    }
}

/// One limb of a borrow-propagating subtraction: the low 64 bits and
/// the outgoing borrow bit of `a - b - borrow`, a deficit being made
/// up from the next more-significant position.
fn borrowing_sub_limb(a: u64, b: u64, borrow: bool) -> (r: (u64, bool))
    ensures
        r.0 as int == a as int - b as int - (if borrow { 1int } else { 0int }) + (if r.1 {
            base() as int
        } else {
            0int
        }),
{
    let d: u128 = 0x1_0000_0000_0000_0000u128 + a as u128 - b as u128 - (if borrow {
        1u128
    } else {
        0u128
    });
    if d >= 0x1_0000_0000_0000_0000u128 {
        ((d - 0x1_0000_0000_0000_0000u128) as u64, false)
    } else {
        (d as u64, true)
    }
}

/// Adds two magnitudes limb by limb from the least-significant end,
/// propagating the carry; the chain may extend the result one limb
/// past the longer operand. The shorter operand reads as zero beyond
/// its length.
fn mag_add(big: &Vec<u64>, small: &Vec<u64>) -> (r: Vec<u64>)
    requires
        small@.len() <= big@.len(),
    ensures
        limbs_as_nat(r@) == limbs_as_nat(big@) + limbs_as_nat(small@),
{
    let mut res: Vec<u64> = Vec::new();
    let mut carry: bool = false;
    let mut i: usize = 0;
    proof {
        assert(prefix_up_to(big@, 0) =~= Seq::<u64>::empty());
        assert(prefix_up_to(small@, 0) =~= Seq::<u64>::empty());
    }
    while i < big.len()
        invariant
            i <= big@.len(),
            small@.len() <= big@.len(),
            res@.len() == i,
            limbs_as_nat(res@) as int + pow_base(i as nat) as int * (if carry {
                1int
            } else {
                0int
            }) == limbs_as_nat(prefix_up_to(big@, i as int)) as int + limbs_as_nat(
                prefix_up_to(small@, i as int),
            ) as int,
        decreases big@.len() - i,
    {
        let sd = if i < small.len() {
            small[i]
        } else {
            0
        };
        let carry_was = carry;
        let (lo, c) = carrying_add_limb(big[i], sd, carry);
        let ghost res_was = res@;
        res.push(lo);
        carry = c;
        proof {
            let p = pow_base(i as nat) as int;
            let pnext = pow_base((i + 1) as nat) as int;
            let b = base() as int;
            assert(pnext == b * p);
            lemma_limbs_push(res_was, lo);
            lemma_prefix_step(big@, i as int);
            lemma_prefix_step(small@, i as int);
            assert(sd == limb_at(small@, i as int));
            assert(big@[i as int] == limb_at(big@, i as int));
            let rold = limbs_as_nat(res_was) as int;
            let rnew = limbs_as_nat(res@) as int;
            let gold = limbs_as_nat(prefix_up_to(big@, i as int)) as int;
            let gnew = limbs_as_nat(prefix_up_to(big@, i + 1)) as int;
            let sold = limbs_as_nat(prefix_up_to(small@, i as int)) as int;
            let snew = limbs_as_nat(prefix_up_to(small@, i + 1)) as int;
            let cin = if carry_was {
                1int
            } else {
                0int
            };
            let cout = if carry {
                1int
            } else {
                0int
            };
            assert(rnew + pnext * cout == gnew + snew) by (nonlinear_arith)
                requires
                    rnew == rold + lo * p,
                    gnew == gold + big@[i as int] * p,
                    snew == sold + sd * p,
                    rold + p * cin == gold + sold,
                    lo + b * cout == big@[i as int] + sd + cin,
                    pnext == b * p,
            {
            }
        }
        i = i + 1;
    }
    proof {
        assert(prefix_up_to(big@, i as int) =~= big@);
        assert(prefix_up_to(small@, i as int) =~= small@);
    }
    if carry {
        let ghost res_was = res@;
        res.push(1);
        proof {
            lemma_limbs_push(res_was, 1);
            assert(limbs_as_nat(res@) == limbs_as_nat(res_was) + 1 * pow_base(res_was.len()));
        }
    }
    res
}

/// Subtracts the smaller magnitude from the larger, limb by limb from
/// the least-significant end, propagating the borrow. Because the
/// minuend is no smaller, the final borrow is always clear.
fn mag_sub(big: &Vec<u64>, small: &Vec<u64>) -> (r: Vec<u64>)
    requires
        small@.len() <= big@.len(),
        limbs_as_nat(small@) <= limbs_as_nat(big@),
    ensures
        limbs_as_nat(r@) == limbs_as_nat(big@) - limbs_as_nat(small@),
{
    let mut res: Vec<u64> = Vec::new();
    let mut borrow: bool = false;
    let mut i: usize = 0;
    proof {
        assert(prefix_up_to(big@, 0) =~= Seq::<u64>::empty());
        assert(prefix_up_to(small@, 0) =~= Seq::<u64>::empty());
    }
    while i < big.len()
        invariant
            i <= big@.len(),
            small@.len() <= big@.len(),
            res@.len() == i,
            limbs_as_nat(res@) as int == limbs_as_nat(prefix_up_to(big@, i as int)) as int
                - limbs_as_nat(prefix_up_to(small@, i as int)) as int + pow_base(i as nat) as int
                * (if borrow {
                1int
            } else {
                0int
            }),
        decreases big@.len() - i,
    {
        let sd = if i < small.len() {
            small[i]
        } else {
            0
        };
        let borrow_was = borrow;
        let (lo, bo) = borrowing_sub_limb(big[i], sd, borrow);
        let ghost res_was = res@;
        res.push(lo);
        borrow = bo;
        proof {
            let p = pow_base(i as nat) as int;
            let pnext = pow_base((i + 1) as nat) as int;
            let b = base() as int;
            assert(pnext == b * p);
            lemma_limbs_push(res_was, lo);
            lemma_prefix_step(big@, i as int);
            lemma_prefix_step(small@, i as int);
            assert(sd == limb_at(small@, i as int));
            assert(big@[i as int] == limb_at(big@, i as int));
            let rold = limbs_as_nat(res_was) as int;
            let rnew = limbs_as_nat(res@) as int;
            let gold = limbs_as_nat(prefix_up_to(big@, i as int)) as int;
            let gnew = limbs_as_nat(prefix_up_to(big@, i + 1)) as int;
            let sold = limbs_as_nat(prefix_up_to(small@, i as int)) as int;
            let snew = limbs_as_nat(prefix_up_to(small@, i + 1)) as int;
            let bin = if borrow_was {
                1int
            } else {
                0int
            };
            let bout = if borrow {
                1int
            } else {
                0int
            };
            assert(rnew == gnew - snew + pnext * bout) by (nonlinear_arith)
                requires
                    rnew == rold + lo * p,
                    gnew == gold + big@[i as int] * p,
                    snew == sold + sd * p,
                    rold == gold - sold + p * bin,
                    lo == big@[i as int] - sd - bin + b * bout,
                    pnext == b * p,
            {
            }
        }
        i = i + 1;
    }
    proof {
        assert(prefix_up_to(big@, i as int) =~= big@);
        assert(prefix_up_to(small@, i as int) =~= small@);
        if borrow {
            // a set borrow would mean the subtrahend was larger
            lemma_limbs_bound(res@);
            assert(false);
        }
    }
    res
}

} // verus!
