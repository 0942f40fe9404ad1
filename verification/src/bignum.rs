//! Unsigned integers of several 64-bit limbs, least significant first:
//! enough to multiply a handful of `u64` factors and compare the products
//! exactly.

use vstd::prelude::*;

verus! {

/// The weight of one limb: 2^64.
pub open spec fn limb_base() -> nat {
    0x1_0000_0000_0000_0000
}

/// The weight of the limb at position `k`: 2^(64 k).
pub open spec fn limb_weight(k: nat) -> nat
    decreases k,
{
    if k == 0 {
        1
    } else {
        limb_base() * limb_weight((k - 1) as nat)
    }
}

/// The number that the limbs `s` stand for.
pub open spec fn limbs_value(s: Seq<u64>) -> nat
    decreases s.len(),
{
    if s.len() == 0 {
        0
    } else {
        limbs_value(s.drop_last()) + (s.last() as nat) * limb_weight((s.len() - 1) as nat)
    }
}

/// Limbs below position `k` stand for less than the weight of position `k`.
proof fn lemma_value_below_weight(s: Seq<u64>)
    ensures
        limbs_value(s) < limb_weight(s.len()),
    decreases s.len(),
{
    if s.len() > 0 {
        let k = (s.len() - 1) as nat;
        lemma_value_below_weight(s.drop_last());
        let w = limb_weight(k);
        let x = s.last() as int;
        let v = limbs_value(s.drop_last()) as int;
        assert(v + x * w < limb_base() * w) by (nonlinear_arith)
            requires
                v < w,
                0 <= x < limb_base(),
                w > 0,
        ;
    }
}

/// The limbs of `a * k`, one limb longer than `a`.
pub fn mul_limb(a: &Vec<u64>, k: u64) -> (r: Vec<u64>)
    ensures
        r@.len() == a@.len() + 1,
        limbs_value(r@) == limbs_value(a@) * k,
{
    let mut r: Vec<u64> = Vec::new();
    let mut carry: u64 = 0;
    let mut i: usize = 0;
    assert(a@.take(0) =~= Seq::<u64>::empty());
    assert(r@ =~= Seq::<u64>::empty());
    assert(limbs_value(Seq::<u64>::empty()) == 0);
    assert(limbs_value(a@.take(0)) == 0);
    while i < a.len()
        invariant
            i <= a@.len(),
            r@.len() == i,
            limbs_value(r@) + carry * limb_weight(i as nat) == limbs_value(a@.take(i as int)) * k,
        decreases a@.len() - i,
    {
        let x = a[i];
        assert((x as int) * (k as int) <= 0xffff_ffff_ffff_fffe_0000_0000_0000_0001) by (nonlinear_arith)
            requires
                0 <= x <= 0xffff_ffff_ffff_ffff,
                0 <= k <= 0xffff_ffff_ffff_ffff,
        ;
        let prod: u128 = (x as u128) * (k as u128) + (carry as u128);
        let lo: u64 = (prod % 0x1_0000_0000_0000_0000u128) as u64;
        let hi: u64 = (prod / 0x1_0000_0000_0000_0000u128) as u64;
        let ghost w = limb_weight(i as nat);
        let ghost before = r@;
        r.push(lo);
        proof {
            assert(r@.drop_last() =~= before);
            assert(a@.take(i + 1).drop_last() =~= a@.take(i as int));
            assert(limbs_value(r@) == limbs_value(before) + lo * w);
            assert(limbs_value(a@.take(i + 1)) == limbs_value(a@.take(i as int)) + x * w);
            assert(limb_weight((i + 1) as nat) == limb_base() * w);
            let p = prod as int;
            assert(p == lo + hi * limb_base());
            assert(lo * w + hi * (limb_base() * w) == (x * k + carry) * w) by (nonlinear_arith)
                requires
                    lo + hi * limb_base() == x * k + carry,
            ;
            assert(limbs_value(a@.take(i as int)) * k + x * w * k == (limbs_value(a@.take(i as int)) + x * w) * k) by (nonlinear_arith);
            assert((x * k + carry) * w == x * w * k + carry * w) by (nonlinear_arith);
        }
        carry = hi;
        i = i + 1;
    }
    let ghost before = r@;
    r.push(carry);
    proof {
        assert(r@.drop_last() =~= before);
        assert(a@.take(i as int) =~= a@);
    }
    r
}

/// The limbs of the product of `factors`, `factors.len() + 1` limbs long.
pub fn product_limbs(factors: &Vec<u64>) -> (r: Vec<u64>)
    ensures
        r@.len() == factors@.len() + 1,
        limbs_value(r@) == product(factors@),
{
    let mut r: Vec<u64> = vec![1u64];
    proof {
        assert(r@ =~= seq![1u64]);
        assert(r@.drop_last() =~= Seq::<u64>::empty());
        assert(limb_weight(0) == 1);
        assert(limbs_value(Seq::<u64>::empty()) == 0);
        assert(r@.last() == 1u64);
        assert(limbs_value(r@) == 1);
        assert(factors@.take(0) =~= Seq::<u64>::empty());
    }
    let mut i: usize = 0;
    while i < factors.len()
        invariant
            i <= factors@.len(),
            r@.len() == i + 1,
            limbs_value(r@) == product(factors@.take(i as int)),
        decreases factors@.len() - i,
    {
        r = mul_limb(&r, factors[i]);
        assert(factors@.take(i + 1).drop_last() =~= factors@.take(i as int));
        i = i + 1;
    }
    assert(factors@.take(i as int) =~= factors@);
    r
}

/// The product of a list of factors.
pub open spec fn product(s: Seq<u64>) -> nat
    decreases s.len(),
{
    if s.len() == 0 {
        1
    } else {
        product(s.drop_last()) * (s.last() as nat)
    }
}

/// Whether `a` stands for a larger number than `b`, of the same length.
pub fn limbs_greater(a: &Vec<u64>, b: &Vec<u64>) -> (r: bool)
    requires
        a@.len() == b@.len(),
    ensures
        r == (limbs_value(a@) > limbs_value(b@)),
{
    let mut j: usize = a.len();
    assert(a@.take(j as int) =~= a@);
    assert(b@.take(j as int) =~= b@);
    while j > 0
        invariant
            j <= a@.len() == b@.len(),
            (limbs_value(a@) > limbs_value(b@)) == (limbs_value(a@.take(j as int)) > limbs_value(b@.take(j as int))),
        decreases j,
    {
        let x = a[j - 1];
        let y = b[j - 1];
        let ghost sa = a@.take(j as int);
        let ghost sb = b@.take(j as int);
        let ghost w = limb_weight((j - 1) as nat);
        proof {
            assert(sa.drop_last() =~= a@.take(j - 1));
            assert(sb.drop_last() =~= b@.take(j - 1));
            assert(limbs_value(sa) == limbs_value(a@.take(j - 1)) + x * w);
            assert(limbs_value(sb) == limbs_value(b@.take(j - 1)) + y * w);
            lemma_value_below_weight(a@.take(j - 1));
            lemma_value_below_weight(b@.take(j - 1));
        }
        if x != y {
            proof {
                let va = limbs_value(a@.take(j - 1)) as int;
                let vb = limbs_value(b@.take(j - 1)) as int;
                if x > y {
                    assert(va + x * w > vb + y * w) by (nonlinear_arith)
                        requires
                            x > y,
                            0 <= va,
                            vb < w,
                    ;
                } else {
                    assert(va + x * w < vb + y * w) by (nonlinear_arith)
                        requires
                            x < y,
                            0 <= vb,
                            va < w,
                    ;
                }
            }
            return x > y;
        }
        j = j - 1;
    }
    false
}

} // verus!
