//! The mathematical model of a limb sequence: the natural number that a
//! little-endian sequence of base-2^64 digits denotes, and the lemmas
//! about it that the arithmetic operations are proved against.

use vstd::arithmetic::mul::{
    lemma_mul_basics, lemma_mul_inequality, lemma_mul_is_commutative,
    lemma_mul_is_distributive_add, lemma_mul_is_distributive_add_other_way,
    lemma_mul_is_associative, lemma_mul_strictly_positive,
};
use vstd::prelude::*;

verus! {

/// The radix: each limb is a digit in base 2^64.
pub open spec fn base() -> nat {
    0x1_0000_0000_0000_0000nat
}

/// The natural number denoted by a limb sequence, least-significant
/// limb first.
pub open spec fn limbs_as_nat(s: Seq<u64>) -> nat
    decreases s.len(),
{
    if s.len() == 0 {
        0
    } else {
        s[0] as nat + base() * limbs_as_nat(s.skip(1))
    }
}

/// base() raised to the power n: the weight of the limb at position n.
pub open spec fn pow_base(n: nat) -> nat
    decreases n,
{
    if n == 0 {
        1
    } else {
        base() * pow_base((n - 1) as nat)
    }
}

/// The limb at position i, reading positions past the end as zero.
pub open spec fn limb_at(s: Seq<u64>, i: int) -> u64 {
    if 0 <= i < s.len() {
        s[i]
    } else {
        0
    }
}

/// The prefix of the first i limbs, or the whole sequence when i
/// exceeds its length.
pub open spec fn prefix_up_to(s: Seq<u64>, i: int) -> Seq<u64> {
    if i <= s.len() {
        s.take(i)
    } else {
        s
    }
}

/// Extending a prefix by one position adds that position's weighted
/// limb, with positions past the end of the sequence counting as zero.
pub proof fn lemma_prefix_step(s: Seq<u64>, i: int)
    requires
        0 <= i,
    ensures
        limbs_as_nat(prefix_up_to(s, i + 1)) == limbs_as_nat(prefix_up_to(s, i)) + limb_at(s, i)
            * pow_base(i as nat),
{
    if i < s.len() {
        assert(prefix_up_to(s, i + 1) == s.take(i + 1));
        assert(s.take(i + 1) =~= s.take(i).push(s[i]));
        lemma_limbs_push(s.take(i), s[i]);
        assert(s.take(i).len() == i);
    } else {
        assert(prefix_up_to(s, i + 1) == s);
        assert(prefix_up_to(s, i) == s);
        assert(limb_at(s, i) == 0);
        lemma_mul_basics(pow_base(i as nat) as int);
    }
}

pub proof fn lemma_pow_base_pos(n: nat)
    ensures
        pow_base(n) >= 1,
    decreases n,
{
    if n > 0 {
        lemma_pow_base_pos((n - 1) as nat);
        lemma_mul_strictly_positive(base() as int, pow_base((n - 1) as nat) as int);
    }
}

pub proof fn lemma_pow_base_mono(m: nat, n: nat)
    requires
        m <= n,
    ensures
        pow_base(m) <= pow_base(n),
    decreases n,
{
    if m < n {
        lemma_pow_base_mono(m, (n - 1) as nat);
        lemma_pow_base_pos((n - 1) as nat);
        lemma_mul_inequality(1, base() as int, pow_base((n - 1) as nat) as int);
    }
}

/// Appending a limb on the most-significant end adds its weighted value.
pub proof fn lemma_limbs_push(s: Seq<u64>, x: u64)
    ensures
        limbs_as_nat(s.push(x)) == limbs_as_nat(s) + x * pow_base(s.len()),
    decreases s.len(),
{
    let sp = s.push(x);
    assert(sp.len() == s.len() + 1);
    if s.len() == 0 {
        assert(sp[0] == x);
        assert(sp.skip(1) =~= Seq::<u64>::empty());
        assert(limbs_as_nat(sp) == x as nat + base() * limbs_as_nat(sp.skip(1)));
        assert(limbs_as_nat(sp.skip(1)) == 0);
        assert(pow_base(0) == 1);
        lemma_mul_basics(x as int);
        assert(x * pow_base(0) == x);
    } else {
        assert(sp[0] == s[0]);
        assert(sp.skip(1) =~= s.skip(1).push(x));
        lemma_limbs_push(s.skip(1), x);
        let t = limbs_as_nat(s.skip(1)) as int;
        let p = pow_base((s.len() - 1) as nat) as int;
        let b = base() as int;
        assert(limbs_as_nat(sp.skip(1)) == t + x * p);
        assert(limbs_as_nat(sp) == s[0] + b * (t + x * p));
        assert(b * (t + x * p) == b * t + b * (x * p)) by {
            lemma_mul_is_distributive_add(b, t, x * p);
        }
        assert(b * (x * p) == x * (b * p)) by {
            lemma_mul_is_associative(b, x as int, p);
            lemma_mul_is_associative(x as int, b, p);
        }
        assert(pow_base(s.len()) == b * p);
        assert(limbs_as_nat(s) == s[0] + b * t);
        assert(limbs_as_nat(sp) == limbs_as_nat(s) + x * (b * p));
    }
}

/// A limb sequence splits at any position i: the low i limbs plus the
/// rest weighted by the position's power of the base.
pub proof fn lemma_limbs_split(s: Seq<u64>, i: int)
    requires
        0 <= i <= s.len(),
    ensures
        limbs_as_nat(s) == limbs_as_nat(s.take(i)) + pow_base(i as nat) * limbs_as_nat(s.skip(i)),
    decreases i,
{
    if i == 0 {
        assert(s.take(0) =~= Seq::<u64>::empty());
        assert(s.skip(0) =~= s);
        assert(limbs_as_nat(s.take(0)) == 0);
        assert(pow_base(0) == 1);
        lemma_mul_basics(limbs_as_nat(s) as int);
        assert(pow_base(0) * limbs_as_nat(s) == limbs_as_nat(s));
    } else {
        lemma_limbs_split(s, i - 1);
        let lo = limbs_as_nat(s.take(i - 1)) as int;
        let hi = limbs_as_nat(s.skip(i)) as int;
        let d = s[i - 1] as int;
        let p = pow_base((i - 1) as nat) as int;
        let b = base() as int;
        assert(s.skip(i - 1).len() > 0);
        assert(s.skip(i - 1)[0] == s[i - 1]);
        assert(s.skip(i - 1).skip(1) =~= s.skip(i));
        assert(limbs_as_nat(s.skip(i - 1)) == d + b * hi);
        assert(s.take(i) =~= s.take(i - 1).push(s[i - 1]));
        lemma_limbs_push(s.take(i - 1), s[i - 1]);
        assert(limbs_as_nat(s.take(i)) == lo + d * p);
        assert(limbs_as_nat(s) == lo + p * (d + b * hi));
        assert(p * (d + b * hi) == p * d + p * (b * hi)) by {
            lemma_mul_is_distributive_add(p, d, b * hi);
        }
        assert(p * d == d * p);
        assert(p * (b * hi) == (b * p) * hi) by {
            lemma_mul_is_associative(p, b, hi);
            lemma_mul_is_associative(b, p, hi);
            assert(p * b == b * p);
        }
        assert(pow_base(i as nat) == b * p);
        assert(limbs_as_nat(s) == (lo + d * p) + (b * p) * hi);
    }
}

/// A sequence of n limbs denotes a value below base^n.
pub proof fn lemma_limbs_bound(s: Seq<u64>)
    ensures
        limbs_as_nat(s) < pow_base(s.len()),
    decreases s.len(),
{
    if s.len() == 0 {
    } else {
        lemma_limbs_bound(s.skip(1));
        let t = limbs_as_nat(s.skip(1)) as int;
        let p = pow_base((s.len() - 1) as nat) as int;
        let b = base() as int;
        lemma_mul_inequality(t, p - 1, b);
        assert(t * b == b * t);
        assert((p - 1) * b == p * b - b) by {
            lemma_mul_is_distributive_add_other_way(b, p - 1, 1);
        }
        assert(limbs_as_nat(s) == s[0] + b * t);
        assert(s[0] + b * t <= b - 1 + (p * b - b));
        assert(pow_base(s.len()) == b * p);
        assert(p * b == b * p);
    }
}

/// A sequence of zero limbs denotes zero.
pub proof fn lemma_limbs_all_zero(s: Seq<u64>)
    requires
        forall|i: int| 0 <= i < s.len() ==> s[i] == 0,
    ensures
        limbs_as_nat(s) == 0,
    decreases s.len(),
{
    if s.len() > 0 {
        lemma_limbs_all_zero(s.skip(1));
    }
}

/// Dropping most-significant zero limbs does not change the value.
pub proof fn lemma_limbs_strip_zeros(s: Seq<u64>, k: int)
    requires
        0 <= k <= s.len(),
        forall|i: int| k <= i < s.len() ==> s[i] == 0,
    ensures
        limbs_as_nat(s.take(k)) == limbs_as_nat(s),
{
    lemma_limbs_split(s, k);
    assert(forall|i: int| 0 <= i < s.skip(k).len() ==> s.skip(k)[i] == 0);
    lemma_limbs_all_zero(s.skip(k));
}

/// A single limb denotes its own value.
pub proof fn lemma_limbs_singleton(x: u64)
    ensures
        limbs_as_nat(seq![x]) == x,
{
    assert(seq![x].skip(1) =~= Seq::<u64>::empty());
    assert(limbs_as_nat(seq![x].skip(1)) == 0);
}

/// The value is at least the most-significant limb times its weight.
pub proof fn lemma_limbs_top_bound(s: Seq<u64>)
    requires
        s.len() >= 1,
    ensures
        limbs_as_nat(s) >= s.last() * pow_base((s.len() - 1) as nat),
{
    let n = s.len() as int;
    lemma_limbs_split(s, n - 1);
    assert(s.skip(n - 1).len() == 1);
    assert(s.skip(n - 1)[0] == s.last());
    assert(s.skip(n - 1).skip(1) =~= Seq::<u64>::empty());
    assert(limbs_as_nat(s.skip(n - 1).skip(1)) == 0);
    assert(limbs_as_nat(s.skip(n - 1)) == s.last() as nat);
    let p = pow_base((s.len() - 1) as nat) as int;
    lemma_mul_is_commutative(p, s.last() as int);
    assert(limbs_as_nat(s.take(n - 1)) >= 0);
}

/// A sequence whose most-significant limb is nonzero denotes a value
/// no smaller than that limb's weight, hence nonzero.
pub proof fn lemma_limbs_positive(s: Seq<u64>)
    requires
        s.len() >= 1,
        s.last() != 0,
    ensures
        limbs_as_nat(s) >= pow_base((s.len() - 1) as nat),
        limbs_as_nat(s) >= 1,
{
    lemma_limbs_top_bound(s);
    lemma_pow_base_pos((s.len() - 1) as nat);
    lemma_mul_inequality(1, s.last() as int, pow_base((s.len() - 1) as nat) as int);
}

/// Among sequences without leading zeros, more limbs means a strictly
/// larger value.
pub proof fn lemma_limbs_longer_greater(s: Seq<u64>, t: Seq<u64>)
    requires
        s.len() < t.len(),
        t.len() >= 1,
        t.last() != 0,
    ensures
        limbs_as_nat(s) < limbs_as_nat(t),
{
    lemma_limbs_bound(s);
    lemma_pow_base_mono(s.len(), (t.len() - 1) as nat);
    lemma_limbs_top_bound(t);
    let p = pow_base((t.len() - 1) as nat) as int;
    lemma_mul_inequality(1, t.last() as int, p);
}

/// For equal-length sequences that agree above position k, the limb at
/// k decides the order.
pub proof fn lemma_limbs_ms_compare(s: Seq<u64>, t: Seq<u64>, k: int)
    requires
        s.len() == t.len(),
        0 <= k < s.len(),
        s[k] < t[k],
        forall|i: int| k < i < s.len() ==> s[i] == t[i],
    ensures
        limbs_as_nat(s) < limbs_as_nat(t),
{
    let n = s.len() as int;
    lemma_limbs_split(s, k + 1);
    lemma_limbs_split(t, k + 1);
    assert(s.skip(k + 1) =~= t.skip(k + 1));
    assert(s.take(k + 1) =~= s.take(k).push(s[k]));
    assert(t.take(k + 1) =~= t.take(k).push(t[k]));
    lemma_limbs_push(s.take(k), s[k]);
    lemma_limbs_push(t.take(k), t[k]);
    lemma_limbs_bound(s.take(k));
    let p = pow_base(k as nat) as int;
    assert(limbs_as_nat(s.take(k)) < p);
    lemma_mul_inequality(s[k] + 1, t[k] as int, p);
    assert((s[k] + 1) * p == s[k] * p + p) by {
        lemma_mul_is_distributive_add_other_way(p, s[k] as int, 1);
    }
    assert(limbs_as_nat(t.take(k)) >= 0);
    assert(limbs_as_nat(s.take(k + 1)) < limbs_as_nat(t.take(k + 1)));
}

/// Two equal-length sequences denoting the same value are identical:
/// the fixed-length base-2^64 representation is unique.
pub proof fn lemma_limbs_injective(s: Seq<u64>, t: Seq<u64>)
    requires
        s.len() == t.len(),
        limbs_as_nat(s) == limbs_as_nat(t),
    ensures
        s == t,
    decreases s.len(),
{
    if s.len() == 0 {
        assert(s =~= t);
    } else {
        let m1 = limbs_as_nat(s.skip(1)) as int;
        let m2 = limbs_as_nat(t.skip(1)) as int;
        let b = base() as int;
        assert(s[0] + b * m1 == t[0] + b * m2);
        assert(s[0] == t[0] && m1 == m2) by (nonlinear_arith)
            requires
                s[0] + b * m1 == t[0] + b * m2,
                0 <= s[0] < b,
                0 <= t[0] < b,
                m1 >= 0,
                m2 >= 0,
                b == 0x1_0000_0000_0000_0000,
        {
        }
        lemma_limbs_injective(s.skip(1), t.skip(1));
        assert forall|i: int| 0 <= i < s.len() implies s[i] == t[i] by {
            if i > 0 {
                assert(s.skip(1)[i - 1] == s[i]);
                assert(t.skip(1)[i - 1] == t[i]);
            }
        }
        assert(s =~= t);
    }
}

} // verus!
