//! Arbitrary-precision natural numbers, just large enough to compare exact
//! products of machine-word factors.
//!
//! The classifiers in this crate rank candidate splits by comparing sums of
//! `k * log2(k)` terms.  Such a comparison is equivalent to comparing the
//! integer products `prod k^k`, which overflow any fixed-width type, so they
//! are held here as little-endian sequences of 64-bit limbs.

use vstd::prelude::*;

verus! {

use vstd::arithmetic::power2::pow2;
use vstd::arithmetic::power2::lemma_pow2_adds;
use vstd::arithmetic::power2::lemma_pow2_strictly_increases;
use vstd::arithmetic::power2::lemma2_to64;
use vstd::arithmetic::div_mod::lemma_fundamental_div_mod;
use vstd::arithmetic::mul::lemma_mul_inequality;
use vstd::arithmetic::mul::lemma_mul_upper_bound;

/// Value of a little-endian limb sequence: limb `i` weighs `2^(64*i)`.
pub open spec fn limbs_val(s: Seq<u64>) -> nat
    decreases s.len(),
{
    if s.len() == 0 {
        0
    } else {
        limbs_val(s.drop_last()) + (s.last() as nat) * pow2((64 * (s.len() - 1)) as nat)
    }
}

/// A canonical representation: at least one limb, no leading zero limb.
pub open spec fn normalized(s: Seq<u64>) -> bool {
    s.len() > 0 && s.last() != 0
}

/// Product of a sequence of factors, as an unbounded natural.
pub open spec fn seq_prod(s: Seq<u64>) -> nat
    decreases s.len(),
{
    if s.len() == 0 {
        1
    } else {
        seq_prod(s.drop_last()) * (s.last() as nat)
    }
}

pub proof fn lemma_seq_prod_push(s: Seq<u64>, k: u64)
    ensures
        seq_prod(s.push(k)) == seq_prod(s) * (k as nat),
{
    assert(s.push(k).drop_last() =~= s);
    assert(s.push(k).last() == k);
}

/// Every value fits under `2^(64 * len)`.
pub proof fn lemma_val_upper(s: Seq<u64>)
    ensures
        limbs_val(s) < pow2((64 * s.len()) as nat),
    decreases s.len(),
{
    if s.len() == 0 {
        lemma2_to64();
        assert(pow2(0) == 1);
    } else {
        let n = s.len();
        lemma_val_upper(s.drop_last());
        let p = pow2((64 * (n - 1)) as nat);
        lemma_pow2_adds((64 * (n - 1)) as nat, 64);
        lemma2_to64();
        // limbs_val(s) < p + last * p <= p * 2^64 = pow2(64 * n)
        assert(limbs_val(s) == limbs_val(s.drop_last()) + (s.last() as nat) * p);
        assert((s.last() as nat) * p <= 0xffff_ffff_ffff_ffff * p) by {
            lemma_mul_inequality(s.last() as int, 0xffff_ffff_ffff_ffff, p as int);
        }
        assert(p + 0xffff_ffff_ffff_ffff * p == p * 0x1_0000_0000_0000_0000) by (nonlinear_arith);
        assert(pow2((64 * n) as nat) == p * pow2(64));
    }
}

/// A normalized value reaches at least the weight of its top limb.
pub proof fn lemma_val_lower(s: Seq<u64>)
    requires
        normalized(s),
    ensures
        limbs_val(s) >= pow2((64 * (s.len() - 1)) as nat),
{
    let p = pow2((64 * (s.len() - 1)) as nat);
    assert((s.last() as nat) * p >= 1 * p) by {
        lemma_mul_inequality(1, s.last() as int, p as int);
    }
}

/// Comparing at the top limb decides when everything above is absent.
proof fn lemma_val_top_lt(a: Seq<u64>, b: Seq<u64>)
    requires
        a.len() == b.len(),
        a.len() > 0,
        a.last() < b.last(),
    ensures
        limbs_val(a) < limbs_val(b),
{
    let n = a.len();
    let p = pow2((64 * (n - 1)) as nat);
    lemma_val_upper(a.drop_last());
    // limbs_val(a) < p + a.last * p = (a.last + 1) * p <= b.last * p <= limbs_val(b)
    assert(p + (a.last() as nat) * p == (a.last() as nat + 1) * p) by (nonlinear_arith);
    lemma_mul_inequality(a.last() as int + 1, b.last() as int, p as int);
}

/// Limbs strictly above position `j` contribute the same amount to both sides.
proof fn lemma_val_tail_eq(a: Seq<u64>, b: Seq<u64>, j: int)
    requires
        a.len() == b.len(),
        0 <= j < a.len(),
        forall|k: int| j < k < a.len() ==> a[k] == b[k],
    ensures
        limbs_val(a) - limbs_val(a.take(j + 1)) == limbs_val(b) - limbs_val(b.take(j + 1)),
    decreases a.len(),
{
    let n = a.len() as int;
    if j == n - 1 {
        assert(a.take(j + 1) =~= a);
        assert(b.take(j + 1) =~= b);
    } else {
        assert(a.last() == b.last());
        assert(a.drop_last().take(j + 1) =~= a.take(j + 1));
        assert(b.drop_last().take(j + 1) =~= b.take(j + 1));
        lemma_val_tail_eq(a.drop_last(), b.drop_last(), j);
    }
}

/// The first differing limb from the top decides the comparison.
proof fn lemma_val_lt_at(a: Seq<u64>, b: Seq<u64>, j: int)
    requires
        a.len() == b.len(),
        0 <= j < a.len(),
        forall|k: int| j < k < a.len() ==> a[k] == b[k],
        a[j] < b[j],
    ensures
        limbs_val(a) < limbs_val(b),
{
    let ta = a.take(j + 1);
    let tb = b.take(j + 1);
    assert(ta.last() == a[j]);
    assert(tb.last() == b[j]);
    lemma_val_top_lt(ta, tb);
    lemma_val_tail_eq(a, b, j);
}

/// A fresh big natural holding the value one.
pub fn big_one() -> (r: Vec<u64>)
    ensures
        limbs_val(r@) == 1,
        normalized(r@),
{
    let mut v: Vec<u64> = Vec::new();
    v.push(1);
    proof {
        lemma2_to64();
        let s = v@;
        assert(s.drop_last() =~= Seq::<u64>::empty());
        assert(limbs_val(s.drop_last()) == 0);
        assert(limbs_val(s) == limbs_val(s.drop_last()) + (s.last() as nat) * pow2(
            (64 * (s.len() - 1)) as nat,
        ));
        assert(pow2(0) == 1);
    }
    v
}

/// Multiply a big natural in place by a non-zero machine word.
pub fn big_mul(a: &mut Vec<u64>, m: u64)
    requires
        m >= 1,
        normalized(old(a)@),
    ensures
        limbs_val(final(a)@) == limbs_val(old(a)@) * (m as nat),
        normalized(final(a)@),
{
    let ghost orig = a@;
    let mut out: Vec<u64> = Vec::new();
    let mut carry: u64 = 0;
    let n = a.len();
    proof {
        assert(orig.take(0) =~= Seq::<u64>::empty());
        assert(limbs_val(orig.take(0)) == 0);
    }
    let mut i: usize = 0;
    while i < n
        invariant
            a@ == orig,
            n == a@.len(),
            i <= n,
            out@.len() == i,
            limbs_val(out@) + (carry as nat) * pow2((64 * i) as nat) == limbs_val(
                orig.take(i as int),
            ) * (m as nat),
        decreases n - i,
    {
        let limb = a[i];
        proof {
            lemma_mul_upper_bound(
                limb as int,
                0xffff_ffff_ffff_ffff,
                m as int,
                0xffff_ffff_ffff_ffff,
            );
        }
        let p: u128 = (limb as u128) * (m as u128) + (carry as u128);
        proof {
            lemma_fundamental_div_mod(p as int, 0x1_0000_0000_0000_0000);
            if p / 0x1_0000_0000_0000_0000u128 >= 0x1_0000_0000_0000_0000u128 {
                lemma_mul_inequality(
                    0x1_0000_0000_0000_0000,
                    (p / 0x1_0000_0000_0000_0000u128) as int,
                    0x1_0000_0000_0000_0000,
                );
                assert(false);
            }
        }
        let lo: u64 = (p % 0x1_0000_0000_0000_0000u128) as u64;
        let hi: u64 = (p / 0x1_0000_0000_0000_0000u128) as u64;
        proof {
            let ghost pv = pow2((64 * i) as nat);
            let ghost pv1 = pow2((64 * (i + 1)) as nat);
            lemma_pow2_adds((64 * i) as nat, 64);
            lemma2_to64();
            assert(pv1 == pv * 0x1_0000_0000_0000_0000);
            assert(orig.take(i + 1).drop_last() =~= orig.take(i as int));
            assert(orig.take(i + 1).last() == orig[i as int]);
            assert(limbs_val(orig.take(i + 1)) == limbs_val(orig.take(i as int)) + (
            orig[i as int] as nat) * pv);
            assert(out@.push(lo).drop_last() =~= out@);
            assert(limbs_val(out@.push(lo)) == limbs_val(out@) + (lo as nat) * pv);
            let ghost vo = limbs_val(out@) as int;
            let ghost vt = limbs_val(orig.take(i as int)) as int;
            let ghost vt1 = limbs_val(orig.take(i + 1)) as int;
            assert(vt1 == vt + (limb as int) * pv);
            assert((p as int) == (limb as int) * (m as int) + (carry as int));
            assert((p as int) == (lo as int) + 0x1_0000_0000_0000_0000 * (hi as int));
            assert(vo + (carry as int) * pv == vt * (m as int));
            assert(vo + (lo as int) * pv + (hi as int) * (pv1 as int) == vt1 * (m as int))
                by (nonlinear_arith)
                requires
                    vt1 == vt + (limb as int) * pv,
                    (p as int) == (limb as int) * (m as int) + (carry as int),
                    (p as int) == (lo as int) + 0x1_0000_0000_0000_0000 * (hi as int),
                    vo + (carry as int) * pv == vt * (m as int),
                    (pv1 as int) == (pv as int) * 0x1_0000_0000_0000_0000,
            ;
        }
        out.push(lo);
        carry = hi;
        i += 1;
    }
    proof {
        assert(orig.take(n as int) =~= orig);
    }
    if carry != 0 {
        proof {
            assert(out@.push(carry).drop_last() =~= out@);
        }
        out.push(carry);
    } else {
        proof {
            lemma_val_lower(orig);
            assert(limbs_val(orig) * (m as nat) >= limbs_val(orig)) by (nonlinear_arith)
                requires
                    m >= 1,
            ;
            if out@.last() == 0 {
                lemma_val_upper(out@.drop_last());
                assert(limbs_val(out@) == limbs_val(out@.drop_last()) + 0 * pow2(
                    (64 * (out@.len() - 1)) as nat,
                ));
                assert(false);
            }
        }
    }
    *a = out;
}

/// Strict comparison of two normalized big naturals.
pub fn big_lt(a: &Vec<u64>, b: &Vec<u64>) -> (r: bool)
    requires
        normalized(a@),
        normalized(b@),
    ensures
        r == (limbs_val(a@) < limbs_val(b@)),
{
    if a.len() != b.len() {
        proof {
            let (s, t) = if a@.len() < b@.len() {
                (a@, b@)
            } else {
                (b@, a@)
            };
            lemma_val_upper(s);
            lemma_val_lower(t);
            if 64 * s.len() < 64 * (t.len() - 1) {
                lemma_pow2_strictly_increases((64 * s.len()) as nat, (64 * (t.len() - 1)) as nat);
            }
        }
        return a.len() < b.len();
    }
    let n = a.len();
    let mut j: usize = n;
    while j > 0
        invariant
            n == a@.len(),
            n == b@.len(),
            j <= n,
            forall|k: int| j <= k < n ==> a@[k] == b@[k],
        decreases j,
    {
        j = j - 1;
        if a[j] != b[j] {
            proof {
                if a@[j as int] < b@[j as int] {
                    lemma_val_lt_at(a@, b@, j as int);
                } else {
                    lemma_val_lt_at(b@, a@, j as int);
                }
            }
            return a[j] < b[j];
        }
    }
    proof {
        assert(a@ =~= b@);
    }
    false
}

/// Expand a list of non-zero factors into the big natural holding its product.
pub fn big_from_factors(fs: &Vec<u64>) -> (r: Vec<u64>)
    requires
        forall|i: int| 0 <= i < fs@.len() ==> fs@[i] >= 1,
    ensures
        limbs_val(r@) == seq_prod(fs@),
        normalized(r@),
{
    let mut big = big_one();
    let mut i: usize = 0;
    while i < fs.len()
        invariant
            i <= fs@.len(),
            forall|k: int| 0 <= k < fs@.len() ==> fs@[k] >= 1,
            limbs_val(big@) == seq_prod(fs@.take(i as int)),
            normalized(big@),
        decreases fs@.len() - i,
    {
        proof {
            assert(fs@.take(i + 1).drop_last() =~= fs@.take(i as int));
            assert(fs@.take(i + 1).last() == fs@[i as int]);
        }
        big_mul(&mut big, fs[i]);
        i += 1;
    }
    proof {
        assert(fs@.take(fs@.len() as int) =~= fs@);
    }
    big
}

/// Decide `prod(fa) < prod(fb)` exactly, for factor lists of non-zero words.
pub fn prod_lt(fa: &Vec<u64>, fb: &Vec<u64>) -> (r: bool)
    requires
        forall|i: int| 0 <= i < fa@.len() ==> fa@[i] >= 1,
        forall|i: int| 0 <= i < fb@.len() ==> fb@[i] >= 1,
    ensures
        r == (seq_prod(fa@) < seq_prod(fb@)),
{
    let ba = big_from_factors(fa);
    let bb = big_from_factors(fb);
    big_lt(&ba, &bb)
}

} // verus!
