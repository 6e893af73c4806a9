//! Just enough exact big-number arithmetic for the cutoff formula:
//! little-endian base-2^64 limb vectors with scalar multiplication and
//! comparison. The geometric cutoffs need N-th powers of frequencies,
//! which overflow every machine integer, and nothing less than exact
//! comparison decides a rounded N-th root.

use vstd::prelude::*;

use vstd::arithmetic::power::pow;

verus! {

/// The limb at position i, zero beyond the end.
pub open spec fn limb(s: Seq<u64>, i: int) -> int {
    if 0 <= i < s.len() {
        s[i] as int
    } else {
        0
    }
}

/// The value carried by limbs i..hi, little-endian in base 2^64.
pub open spec fn bn_part(s: Seq<u64>, i: int, hi: int) -> int
    decreases hi - i,
{
    if i >= hi {
        0
    } else {
        limb(s, i) + 0x1_0000_0000_0000_0000 * bn_part(s, i + 1, hi)
    }
}

/// The value of a whole limb vector.
pub open spec fn bn_val(s: Seq<u64>) -> int {
    bn_part(s, 0, s.len() as int)
}

/// pow specialized to the limb base.
pub open spec fn limb_pow(e: nat) -> int {
    pow(0x1_0000_0000_0000_0000, e)
}

proof fn lemma_bn_part_nonneg(s: Seq<u64>, i: int, hi: int)
    ensures
        bn_part(s, i, hi) >= 0,
    decreases hi - i,
{
    if i < hi {
        lemma_bn_part_nonneg(s, i + 1, hi);
        assert(0x1_0000_0000_0000_0000 * bn_part(s, i + 1, hi) >= 0) by (nonlinear_arith)
            requires
                bn_part(s, i + 1, hi) >= 0,
        ;
    }
}

/// Limbs at or beyond the end carry nothing.
proof fn lemma_bn_part_zero(s: Seq<u64>, i: int, hi: int)
    requires
        i >= s.len(),
    ensures
        bn_part(s, i, hi) == 0,
    decreases hi - i,
{
    if i < hi {
        lemma_bn_part_zero(s, i + 1, hi);
    }
}

/// Extending the upper bound past the end changes nothing.
proof fn lemma_bn_part_pad(s: Seq<u64>, i: int, hi1: int, hi2: int)
    requires
        s.len() <= hi1 <= hi2,
    ensures
        bn_part(s, i, hi1) == bn_part(s, i, hi2),
    decreases hi1 - i,
{
    if i >= hi1 {
        lemma_bn_part_zero(s, i, hi1);
        lemma_bn_part_zero(s, i, hi2);
    } else {
        lemma_bn_part_pad(s, i + 1, hi1, hi2);
    }
}

/// Two vectors with the same limbs over a range carry the same value
/// there.
proof fn lemma_bn_part_eq(s: Seq<u64>, t: Seq<u64>, i: int, hi: int)
    requires
        forall|j: int| i <= j < hi ==> limb(s, j) == limb(t, j),
    ensures
        bn_part(s, i, hi) == bn_part(t, i, hi),
    decreases hi - i,
{
    if i < hi {
        lemma_bn_part_eq(s, t, i + 1, hi);
    }
}

/// Split a limb range at mid.
proof fn lemma_bn_part_split(s: Seq<u64>, lo: int, mid: int, hi: int)
    requires
        lo <= mid <= hi,
    ensures
        bn_part(s, lo, hi) == bn_part(s, lo, mid) + limb_pow((mid - lo) as nat) * bn_part(
            s,
            mid,
            hi,
        ),
    decreases mid - lo,
{
    let b = 0x1_0000_0000_0000_0000int;
    if lo == mid {
        assert(limb_pow(0) == 1) by {
            vstd::arithmetic::power::lemma_pow0(b);
        }
        assert(1 * bn_part(s, mid, hi) == bn_part(s, mid, hi)) by (nonlinear_arith);
    } else {
        lemma_bn_part_split(s, lo + 1, mid, hi);
        let e = (mid - lo - 1) as nat;
        assert(limb_pow((mid - lo) as nat) == b * limb_pow(e)) by {
            vstd::arithmetic::power::lemma_pow_adds(b, 1nat, e);
            vstd::arithmetic::power::lemma_pow1(b);
        }
        assert(limb(s, lo) + b * (bn_part(s, lo + 1, mid) + limb_pow(e) * bn_part(s, mid, hi))
            == (limb(s, lo) + b * bn_part(s, lo + 1, mid)) + (b * limb_pow(e)) * bn_part(
            s,
            mid,
            hi,
        )) by (nonlinear_arith);
    }
}

/// A range of k limbs carries less than the k-th power of the base.
proof fn lemma_bn_part_bound(s: Seq<u64>, lo: int, hi: int)
    requires
        lo <= hi,
    ensures
        bn_part(s, lo, hi) < limb_pow((hi - lo) as nat),
    decreases hi - lo,
{
    let b = 0x1_0000_0000_0000_0000int;
    if lo == hi {
        assert(limb_pow(0) == 1) by {
            vstd::arithmetic::power::lemma_pow0(b);
        }
    } else {
        lemma_bn_part_bound(s, lo + 1, hi);
        lemma_bn_part_nonneg(s, lo + 1, hi);
        let e = (hi - lo - 1) as nat;
        assert(limb_pow((hi - lo) as nat) == b * limb_pow(e)) by {
            vstd::arithmetic::power::lemma_pow_adds(b, 1nat, e);
            vstd::arithmetic::power::lemma_pow1(b);
        }
        assert(limb(s, lo) + b * bn_part(s, lo + 1, hi) < b * limb_pow(e)) by (nonlinear_arith)
            requires
                0 <= limb(s, lo) < b,
                0 <= bn_part(s, lo + 1, hi) <= limb_pow(e) - 1,
        ;
    }
}

/// A one-limb number.
pub fn bn_from(x: u64) -> (r: Vec<u64>)
    ensures
        bn_val(r@) == x,
{
    let mut r: Vec<u64> = Vec::new();
    r.push(x);
    proof {
        assert(bn_part(r@, 1, 1) == 0);
    }
    r
}

/// Multiply by a machine word, exactly.
pub fn bn_mul_small(a: &Vec<u64>, m: u64) -> (r: Vec<u64>)
    ensures
        bn_val(r@) == bn_val(a@) * m,
{
    let n = a.len();
    let mut out: Vec<u64> = Vec::new();
    let mut carry: u64 = 0;
    let mut i: usize = 0;
    proof {
        assert(limb_pow(0) == 1) by {
            vstd::arithmetic::power::lemma_pow0(0x1_0000_0000_0000_0000int);
        }
        assert(bn_part(out@, 0, 0) + limb_pow(0) * 0 == bn_part(a@, 0, 0) * m)
            by (nonlinear_arith)
            requires
                limb_pow(0) == 1,
                bn_part(out@, 0, 0) == 0,
                bn_part(a@, 0, 0) == 0,
        ;
    }
    while i < n
        invariant
            0 <= i <= n,
            n == a@.len(),
            out@.len() == i,
            bn_part(out@, 0, i as int) + limb_pow(i as nat) * carry == bn_part(a@, 0, i as int)
                * m,
        decreases n - i,
    {
        proof {
            assert((a@[i as int] as int) * (m as int) + carry
                < 0x1_0000_0000_0000_0000_0000_0000_0000_0000int) by (nonlinear_arith)
                requires
                    0 <= a@[i as int] < 0x1_0000_0000_0000_0000int,
                    0 <= m < 0x1_0000_0000_0000_0000int,
                    0 <= carry < 0x1_0000_0000_0000_0000int,
            ;
        }
        let prod: u128 = (a[i] as u128) * (m as u128) + (carry as u128);
        let low: u64 = (prod % 0x1_0000_0000_0000_0000u128) as u64;
        let new_carry: u64 = (prod / 0x1_0000_0000_0000_0000u128) as u64;
        proof {
            let b = 0x1_0000_0000_0000_0000int;
            vstd::arithmetic::div_mod::lemma_fundamental_div_mod(prod as int, b);
            assert((prod as int) / b < b) by (nonlinear_arith)
                requires
                    0 <= prod < b * b,
                    b >= 1,
            ;
            assert(low == (prod as int) % b);
            assert(new_carry == (prod as int) / b);
            assert(prod as int == low + b * new_carry);
            // One more limb on each side of the invariant.
            assert(bn_part(a@, 0, i + 1) == bn_part(a@, 0, i as int) + limb_pow(i as nat) * limb(
                a@,
                i as int,
            )) by {
                lemma_bn_part_split(a@, 0, i as int, i + 1);
                assert(bn_part(a@, i + 1, i + 1) == 0);
                assert(bn_part(a@, i as int, i + 1) == limb(a@, i as int));
            }
        }
        let ghost pre_out = out@;
        out.push(low);
        proof {
            let b = 0x1_0000_0000_0000_0000int;
            assert(bn_part(out@, 0, i as int) == bn_part(pre_out, 0, i as int)) by {
                lemma_bn_part_eq(out@, pre_out, 0, i as int);
            }
            assert(bn_part(out@, 0, i + 1) == bn_part(out@, 0, i as int) + limb_pow(i as nat)
                * limb(out@, i as int)) by {
                lemma_bn_part_split(out@, 0, i as int, i + 1);
                assert(bn_part(out@, i + 1, i + 1) == 0);
                assert(bn_part(out@, i as int, i + 1) == limb(out@, i as int));
            }
            assert(limb(out@, i as int) == low);
            assert(limb_pow((i + 1) as nat) == b * limb_pow(i as nat)) by {
                vstd::arithmetic::power::lemma_pow_adds(b, 1nat, i as nat);
                vstd::arithmetic::power::lemma_pow1(b);
            }
            assert(bn_part(out@, 0, i + 1) + limb_pow((i + 1) as nat) * new_carry == bn_part(
                a@,
                0,
                i + 1,
            ) * m) by (nonlinear_arith)
                requires
                    bn_part(out@, 0, i + 1) == bn_part(pre_out, 0, i as int) + limb_pow(i as nat)
                        * low,
                    limb_pow((i + 1) as nat) == b * limb_pow(i as nat),
                    bn_part(pre_out, 0, i as int) + limb_pow(i as nat) * carry == bn_part(
                        a@,
                        0,
                        i as int,
                    ) * m,
                    bn_part(a@, 0, i + 1) == bn_part(a@, 0, i as int) + limb_pow(i as nat) * limb(
                        a@,
                        i as int,
                    ),
                    limb(a@, i as int) * m + carry == low + b * new_carry,
                    b == 0x1_0000_0000_0000_0000int,
            ;
        }
        carry = new_carry;
        i += 1;
    }
    if carry > 0 {
        let ghost pre_out = out@;
        out.push(carry);
        proof {
            assert(bn_part(out@, 0, n as int) == bn_part(pre_out, 0, n as int)) by {
                lemma_bn_part_eq(out@, pre_out, 0, n as int);
            }
            lemma_bn_part_split(out@, 0, n as int, n + 1);
            assert(bn_part(out@, n + 1, n + 1) == 0);
            assert(bn_part(out@, n as int, n + 1) == limb(out@, n as int));
        }
    }
    proof {
        if carry == 0 {
            assert(bn_val(out@) == bn_part(out@, 0, n as int));
            assert(limb_pow(n as nat) * 0 == 0) by (nonlinear_arith);
        }
    }
    out
}

/// Whether the first value is at most the second, exactly.
pub fn bn_le(a: &Vec<u64>, b: &Vec<u64>) -> (r: bool)
    ensures
        r == (bn_val(a@) <= bn_val(b@)),
{
    let hi = if a.len() > b.len() {
        a.len()
    } else {
        b.len()
    };
    proof {
        lemma_bn_part_pad(a@, 0, a@.len() as int, hi as int);
        lemma_bn_part_pad(b@, 0, b@.len() as int, hi as int);
    }
    let mut i = hi;
    while i > 0
        invariant
            0 <= i <= hi,
            hi >= a@.len(),
            hi >= b@.len(),
            bn_val(a@) == bn_part(a@, 0, hi as int),
            bn_val(b@) == bn_part(b@, 0, hi as int),
            forall|j: int| i <= j < hi ==> limb(a@, j) == limb(b@, j),
        decreases i,
    {
        i -= 1;
        let la: u64 = if i < a.len() {
            a[i]
        } else {
            0
        };
        let lb: u64 = if i < b.len() {
            b[i]
        } else {
            0
        };
        proof {
            assert(la == limb(a@, i as int) && lb == limb(b@, i as int));
        }
        if la != lb {
            proof {
                let big = if la < lb {
                    b@
                } else {
                    a@
                };
                let small = if la < lb {
                    a@
                } else {
                    b@
                };
                lemma_bn_part_split(big, 0, i as int, hi as int);
                lemma_bn_part_split(small, 0, i as int, hi as int);
                lemma_bn_part_bound(small, 0, i as int);
                lemma_bn_part_nonneg(big, 0, i as int);
                lemma_bn_part_nonneg(small, 0, i as int);
                lemma_bn_part_nonneg(big, i + 1, hi as int);
                vstd::arithmetic::power::lemma_pow_positive(
                    0x1_0000_0000_0000_0000int,
                    i as nat,
                );
                lemma_bn_part_eq(big, small, i + 1, hi as int);
                assert(bn_part(big, i as int, hi as int) == limb(big, i as int)
                    + 0x1_0000_0000_0000_0000 * bn_part(big, i + 1, hi as int));
                assert(bn_part(small, i as int, hi as int) == limb(small, i as int)
                    + 0x1_0000_0000_0000_0000 * bn_part(small, i + 1, hi as int));
                assert(limb(big, i as int) >= limb(small, i as int) + 1);
                assert(bn_part(big, 0, hi as int) > bn_part(small, 0, hi as int))
                    by (nonlinear_arith)
                    requires
                        bn_part(big, 0, hi as int) == bn_part(big, 0, i as int) + limb_pow(
                            i as nat,
                        ) * bn_part(big, i as int, hi as int),
                        bn_part(small, 0, hi as int) == bn_part(small, 0, i as int) + limb_pow(
                            i as nat,
                        ) * bn_part(small, i as int, hi as int),
                        bn_part(big, i as int, hi as int) >= bn_part(small, i as int, hi as int)
                            + 1,
                        0 <= bn_part(big, 0, i as int),
                        0 <= bn_part(small, 0, i as int) < limb_pow(i as nat),
                        limb_pow(i as nat) >= 1,
                ;
            }
            return la < lb;
        }
    }
    proof {
        lemma_bn_part_eq(a@, b@, 0, hi as int);
    }
    true
}

/// Multiply by base^e, exactly.
pub fn bn_scale_pow(v: Vec<u64>, base: u64, e: usize) -> (r: Vec<u64>)
    ensures
        bn_val(r@) == bn_val(v@) * pow(base as int, e as nat),
{
    let ghost v0 = bn_val(v@);
    let mut r = v;
    let mut j: usize = 0;
    proof {
        vstd::arithmetic::power::lemma_pow0(base as int);
        assert(v0 * pow(base as int, 0nat) == v0) by (nonlinear_arith)
            requires
                pow(base as int, 0nat) == 1,
        ;
    }
    while j < e
        invariant
            0 <= j <= e,
            bn_val(r@) == v0 * pow(base as int, j as nat),
        decreases e - j,
    {
        let ghost prev = bn_val(r@);
        r = bn_mul_small(&r, base);
        proof {
            assert(pow(base as int, (j + 1) as nat) == (base as int) * pow(base as int, j as nat))
                by {
                vstd::arithmetic::power::lemma_pow_adds(base as int, 1nat, j as nat);
                vstd::arithmetic::power::lemma_pow1(base as int);
            }
            assert(prev * base == v0 * ((base as int) * pow(base as int, j as nat)))
                by (nonlinear_arith)
                requires
                    prev == v0 * pow(base as int, j as nat),
            ;
        }
        j += 1;
    }
    r
}

} // verus!
