//! Integer arithmetic helpers shared by the spectral pipeline: powers of
//! two and three, binary logarithm, integer square root, and truncating
//! division for fixed-point rescaling.

use vstd::prelude::*;

use vstd::arithmetic::power::pow;

verus! {

/// 3^l.
pub open spec fn pow3(l: nat) -> nat
    decreases l,
{
    if l == 0 {
        1
    } else {
        3 * pow3((l - 1) as nat)
    }
}

/// Binary logarithm, rounded down; lg(0) == lg(1) == 0.
pub open spec fn lg(n: nat) -> nat
    decreases n,
{
    if n <= 1 {
        0
    } else {
        1 + lg(n / 2)
    }
}

/// n is a power of two (n >= 1).
pub open spec fn is_pow2(n: nat) -> bool
    decreases n,
{
    if n == 0 {
        false
    } else if n == 1 {
        true
    } else {
        n % 2 == 0 && is_pow2(n / 2)
    }
}

pub proof fn lemma_pow3_pos(l: nat)
    ensures
        pow3(l) >= 1,
    decreases l,
{
    if l > 0 {
        lemma_pow3_pos((l - 1) as nat);
    }
}

/// lg is monotone.
pub proof fn lemma_lg_mono(a: nat, b: nat)
    requires
        a <= b,
    ensures
        lg(a) <= lg(b),
    decreases b,
{
    if a > 1 {
        lemma_lg_mono(a / 2, b / 2);
    }
}

/// pow3 is monotone.
pub proof fn lemma_pow3_mono(a: nat, b: nat)
    requires
        a <= b,
    ensures
        pow3(a) <= pow3(b),
    decreases b,
{
    if a > 0 {
        lemma_pow3_mono((a - 1) as nat, (b - 1) as nat);
    } else if b > 0 {
        lemma_pow3_mono(0, (b - 1) as nat);
        lemma_pow3_pos((b - 1) as nat);
    }
}

/// A power of two above one is even.
pub proof fn lemma_pow2_even(n: nat)
    requires
        is_pow2(n),
        n >= 2,
    ensures
        n % 2 == 0,
{
}

/// The square-root floor of x, defined by counting up.
pub open spec fn sqrt_floor(x: nat) -> nat
    decreases x,
{
    if x == 0 {
        0
    } else {
        let r = sqrt_floor((x - 1) as nat);
        if (r + 1) * (r + 1) <= x {
            r + 1
        } else {
            r
        }
    }
}

/// sqrt_floor really is the square-root floor.
#[verifier::rlimit(60)]
pub proof fn lemma_sqrt_floor(x: nat)
    ensures
        sqrt_floor(x) * sqrt_floor(x) <= x,
        x < (sqrt_floor(x) + 1) * (sqrt_floor(x) + 1),
    decreases x,
{
    let r = sqrt_floor(x);
    if x == 0 {
        assert(r == 0);
        assert(r * r <= x && x < (r + 1) * (r + 1)) by (nonlinear_arith)
            requires
                x == 0,
                r == 0,
        ;
    } else {
        lemma_sqrt_floor((x - 1) as nat);
        let p = sqrt_floor((x - 1) as nat);
        assert(p * p <= x - 1);
        assert(x - 1 < (p + 1) * (p + 1));
        if (p + 1) * (p + 1) <= x {
            assert(r == p + 1);
            assert(r * r <= x);
            assert(x == (p + 1) * (p + 1));
            assert((p + 1) * (p + 1) < (p + 2) * (p + 2)) by (nonlinear_arith)
                requires
                    p >= 0,
            ;
            assert(x < (r + 1) * (r + 1));
        } else {
            assert(r == p);
            assert(r * r <= x);
            assert(x < (r + 1) * (r + 1));
        }
    }
}

/// Any r with r*r <= x < (r+1)*(r+1) is sqrt_floor(x).
pub proof fn lemma_sqrt_floor_unique(x: nat, r: nat)
    requires
        r * r <= x,
        x < (r + 1) * (r + 1),
    ensures
        r == sqrt_floor(x),
{
    lemma_sqrt_floor(x);
    let s = sqrt_floor(x);
    if r < s {
        assert((r + 1) * (r + 1) <= s * s) by (nonlinear_arith)
            requires
                r + 1 <= s,
                r >= 0,
        ;
    }
    if s < r {
        assert((s + 1) * (s + 1) <= r * r) by (nonlinear_arith)
            requires
                s + 1 <= r,
                s >= 0,
        ;
    }
}

/// Integer square root by bisection.
pub fn isqrt(x: u128) -> (r: u64)
    requires
        x < 0x4000_0000_0000_0000_0000_0000_0000_0000u128,
    ensures
        r as nat == sqrt_floor(x as nat),
        (r as int) * (r as int) <= x,
        x < (r as int + 1) * (r as int + 1),
{
    let mut lo: u128 = 0;
    let mut hi: u128 = 0x8000_0000_0000_0000u128;
    assert(0x8000_0000_0000_0000u128 * 0x8000_0000_0000_0000u128
        == 0x4000_0000_0000_0000_0000_0000_0000_0000u128) by (nonlinear_arith);
    assert(x < hi * hi);
    while lo + 1 < hi
        invariant
            lo < hi,
            hi <= 0x8000_0000_0000_0000u128,
            lo * lo <= x,
            x < hi * hi,
        decreases hi - lo,
    {
        let mid = lo + (hi - lo) / 2;
        proof {
            assert(mid * mid < hi * hi) by (nonlinear_arith)
                requires
                    0 <= mid < hi,
            ;
            assert(hi * hi <= 0x4000_0000_0000_0000_0000_0000_0000_0000u128) by (nonlinear_arith)
                requires
                    hi <= 0x8000_0000_0000_0000u128,
            ;
        }
        if mid * mid <= x {
            lo = mid;
        } else {
            hi = mid;
        }
    }
    proof {
        lemma_sqrt_floor_unique(x as nat, lo as nat);
        assert(lo < 0x1_0000_0000_0000_0000u128);
    }
    lo as u64
}

/// Division of a signed value by a positive one, truncated toward zero
/// (both halves of a fixed-point rescale round toward zero).
pub open spec fn div_trunc(x: int, d: int) -> int {
    if x >= 0 {
        x / d
    } else {
        -((-x) / d)
    }
}

/// |div_trunc(x, d)| never exceeds |x| / d.
pub proof fn lemma_div_trunc_bound(x: int, d: int, m: int)
    requires
        d >= 1,
        m >= 0,
        -(d * m) <= x <= d * m,
    ensures
        -m <= div_trunc(x, d) <= m,
{
    if x >= 0 {
        assert(x / d <= m) by (nonlinear_arith)
            requires
                d >= 1,
                m >= 0,
                x <= d * m,
                x >= 0,
        ;
        assert(x / d >= 0) by (nonlinear_arith)
            requires
                d >= 1,
                x >= 0,
        ;
    } else {
        let v = -x;
        assert(v / d <= m) by (nonlinear_arith)
            requires
                d >= 1,
                m >= 0,
                v <= d * m,
                v >= 0,
        ;
        assert(v / d >= 0) by (nonlinear_arith)
            requires
                d >= 1,
                v >= 0,
        ;
    }
}

/// Truncating division squares do not grow: (x/d)^2 * d^2 <= x^2.
pub proof fn lemma_div_trunc_sq(x: int, d: int)
    requires
        d >= 1,
    ensures
        div_trunc(x, d) * div_trunc(x, d) * (d * d) <= x * x,
{
    let q = div_trunc(x, d);
    if x >= 0 {
        assert(q * d <= x && q >= 0) by (nonlinear_arith)
            requires
                d >= 1,
                x >= 0,
                q == x / d,
        ;
        assert(q * q * (d * d) <= x * x) by (nonlinear_arith)
            requires
                q >= 0,
                d >= 1,
                q * d <= x,
        ;
    } else {
        let v = -x;
        let p = v / d;
        assert(p * d <= v && p >= 0) by (nonlinear_arith)
            requires
                d >= 1,
                v >= 0,
                p == v / d,
        ;
        assert(q == -p);
        assert(p * p * (d * d) <= v * v) by (nonlinear_arith)
            requires
                p >= 0,
                d >= 1,
                p * d <= v,
        ;
        assert(q * q == p * p) by (nonlinear_arith)
            requires
                q == -p,
        ;
        assert(v * v == x * x) by (nonlinear_arith)
            requires
                v == -x,
        ;
    }
}

/// Truncating division of an i64 by a positive divisor.
pub fn div_trunc_i64(x: i64, d: i64) -> (r: i64)
    requires
        d >= 1,
        x > i64::MIN,
    ensures
        r as int == div_trunc(x as int, d as int),
{
    if x >= 0 {
        x / d
    } else {
        proof {
            assert((-x as int) / (d as int) <= -x) by (nonlinear_arith)
                requires
                    d >= 1,
                    -x >= 0,
            ;
            assert((-x as int) / (d as int) >= 0) by (nonlinear_arith)
                requires
                    d >= 1,
                    -x >= 0,
            ;
        }
        -((-x) / d)
    }
}


/// pow is monotone in a nonnegative base.
pub proof fn lemma_pow_base_mono(a: int, b: int, e: nat)
    requires
        0 <= a <= b,
    ensures
        0 <= pow(a, e) <= pow(b, e),
    decreases e,
{
    if e == 0 {
        vstd::arithmetic::power::lemma_pow0(a);
        vstd::arithmetic::power::lemma_pow0(b);
    } else {
        lemma_pow_base_mono(a, b, (e - 1) as nat);
        assert(pow(a, e) == a * pow(a, (e - 1) as nat) && pow(b, e) == b * pow(b, (e - 1) as nat))
            by {
            vstd::arithmetic::power::lemma_pow_adds(a, 1nat, (e - 1) as nat);
            vstd::arithmetic::power::lemma_pow_adds(b, 1nat, (e - 1) as nat);
            vstd::arithmetic::power::lemma_pow1(a);
            vstd::arithmetic::power::lemma_pow1(b);
        }
        assert(0 <= a * pow(a, (e - 1) as nat) <= b * pow(b, (e - 1) as nat)) by (nonlinear_arith)
            requires
                0 <= a <= b,
                0 <= pow(a, (e - 1) as nat) <= pow(b, (e - 1) as nat),
        ;
    }
}

/// Strictly so, once the exponent is positive.
pub proof fn lemma_pow_base_strict(a: int, b: int, e: nat)
    requires
        0 <= a < b,
        e >= 1,
    ensures
        pow(a, e) < pow(b, e),
{
    lemma_pow_base_mono(a, b, (e - 1) as nat);
    vstd::arithmetic::power::lemma_pow_positive(b, (e - 1) as nat);
    assert(pow(a, e) == a * pow(a, (e - 1) as nat) && pow(b, e) == b * pow(b, (e - 1) as nat))
        by {
        vstd::arithmetic::power::lemma_pow_adds(a, 1nat, (e - 1) as nat);
        vstd::arithmetic::power::lemma_pow_adds(b, 1nat, (e - 1) as nat);
        vstd::arithmetic::power::lemma_pow1(a);
        vstd::arithmetic::power::lemma_pow1(b);
    }
    assert(a * pow(a, (e - 1) as nat) < b * pow(b, (e - 1) as nat)) by (nonlinear_arith)
        requires
            0 <= a < b,
            0 <= pow(a, (e - 1) as nat) <= pow(b, (e - 1) as nat),
            pow(b, (e - 1) as nat) >= 1,
    ;
}

/// The n-th-root floor of k, defined by counting up.
pub open spec fn nth_root_floor(k: nat, n: nat) -> nat
    decreases k,
{
    if k == 0 {
        0
    } else {
        let r = nth_root_floor((k - 1) as nat, n);
        if pow((r + 1) as int, n) <= k {
            r + 1
        } else {
            r
        }
    }
}

/// nth_root_floor really is the n-th-root floor.
pub proof fn lemma_nth_root_floor(k: nat, n: nat)
    requires
        n >= 1,
    ensures
        pow(nth_root_floor(k, n) as int, n) <= k,
        k < pow((nth_root_floor(k, n) + 1) as int, n),
    decreases k,
{
    let r = nth_root_floor(k, n);
    if k == 0 {
        assert(r == 0);
        vstd::arithmetic::power::lemma0_pow(n);
        vstd::arithmetic::power::lemma1_pow(n);
    } else {
        lemma_nth_root_floor((k - 1) as nat, n);
        let p = nth_root_floor((k - 1) as nat, n);
        if pow((p + 1) as int, n) <= k {
            assert(r == p + 1);
            assert(pow(r as int, n) <= k);
            assert(k == pow((p + 1) as int, n));
            lemma_pow_base_strict((p + 1) as int, (p + 2) as int, n);
            assert(k < pow((r + 1) as int, n));
        } else {
            assert(r == p);
            assert(pow(r as int, n) <= k);
            assert(k < pow((r + 1) as int, n));
        }
    }
}

/// Any r whose n-th power brackets k is nth_root_floor(k, n).
pub proof fn lemma_nth_root_unique(k: nat, n: nat, r: nat)
    requires
        n >= 1,
        pow(r as int, n) <= k,
        k < pow((r + 1) as int, n),
    ensures
        r == nth_root_floor(k, n),
{
    lemma_nth_root_floor(k, n);
    let s = nth_root_floor(k, n);
    if r < s {
        lemma_pow_base_mono((r + 1) as int, s as int, n);
    }
    if s < r {
        lemma_pow_base_mono((s + 1) as int, r as int, n);
    }
}

} // verus!
