//! The spectral analyzer and the band mapper.
//!
//! `process` turns a time-domain window into a compressed magnitude
//! spectrum; `update_colors` folds a spectrum into the persistent
//! per-band colors. Spectrum magnitudes and color components share the
//! scale of [`crate::color::UNIT`].

use vstd::prelude::*;

use crate::color::Hwb;
use crate::color::UNIT;
use crate::fft::all_bounded;
use crate::fft::cseq;
use crate::fft::cview;
use crate::fft::fft;
use crate::fft::fft_spec;
use crate::fft::lemma_fft_spec_bound;
use crate::fft::lemma_fft_spec_zero;
use crate::fft::lemma_twiddles_spec_bound;
use crate::fft::pad_zero;
use crate::fft::twiddles_spec;
use crate::fft::Cpx;
use crate::fft::AMP_ONE;
use crate::fft::MAX_WINDOW;
use crate::fft::VAL_CAP;
use crate::bignum::bn_from;
use crate::bignum::bn_le;
use crate::bignum::bn_scale_pow;
use crate::bignum::bn_val;
use crate::math::isqrt;
use crate::math::lg;
use crate::math::pow3;
use crate::math::sqrt_floor;
use crate::math::lemma_nth_root_floor;
use crate::math::lemma_nth_root_unique;
use crate::math::lemma_pow_base_mono;
use crate::math::lemma_pow_base_strict;
use crate::math::nth_root_floor;
use vstd::arithmetic::power::pow;

verus! {

/// Fixed-point gain scale: a gain of 1.0 is this many units.
pub const GAIN_ONE: u32 = 100;

/// How much one keypress changes the gain.
pub const GAIN_STEP: u32 = 5;

/// Raise the gain one step; unbounded above up to the integer limit.
pub fn gain_up(g: u32) -> (r: u32)
    ensures
        r == if g + GAIN_STEP <= u32::MAX {
            g + GAIN_STEP
        } else {
            u32::MAX as int
        },
{
    if g <= u32::MAX - GAIN_STEP {
        g + GAIN_STEP
    } else {
        u32::MAX
    }
}

/// Lower the gain one step, floor-clamped at zero.
pub fn gain_down(g: u32) -> (r: u32)
    ensures
        r == if g >= GAIN_STEP {
            g - GAIN_STEP
        } else {
            0int
        },
{
    if g >= GAIN_STEP {
        g - GAIN_STEP
    } else {
        0
    }
}

/// The magnitude of one spectrum entry of an n-point transform,
/// normalized by sqrt(n): sqrt((re^2 + im^2) / n), still in amplitude
/// units.
pub open spec fn mag_spec(v: (int, int), n: nat) -> int {
    sqrt_floor((((v.0 * v.0 + v.1 * v.1) / (n as int)) as nat)) as int
}

/// The bounded compression curve: x / (1 + x) on the gained amplitude
/// x = gain * mag, rescaled so the result lies in [0, UNIT). It is
/// monotone both in the gain and in the magnitude.
pub open spec fn compress_spec(gain: int, mag: int) -> int {
    let u = gain * mag / (GAIN_ONE as int);
    u * (UNIT as int) / ((AMP_ONE as int) + u)
}

/// The whole analyzer on an n2-point padded window: the first n2 / 2
/// compressed magnitudes of the transform.
pub open spec fn process_spec(s: Seq<i32>, gain: int, n2: nat) -> Seq<int> {
    let f = fft_spec(
        pad_zero(Seq::new(s.len(), |i: int| (s[i] as int, 0int)), n2),
        0,
        1,
        n2,
        twiddles_spec(n2),
        1,
    );
    Seq::new((n2 / 2) as nat, |i: int| compress_spec(gain, mag_spec(f[i], n2)))
}

/// Every sample is a fixed-point amplitude in [-1.0, 1.0].
pub open spec fn samples_bounded(s: Seq<i32>) -> bool {
    forall|i: int| 0 <= i < s.len() ==> -AMP_ONE <= #[trigger] s[i] <= AMP_ONE
}

fn magnitude(c: &Cpx, n: usize) -> (r: u64)
    requires
        n >= 1,
        -VAL_CAP <= c.re <= VAL_CAP,
        -VAL_CAP <= c.im <= VAL_CAP,
    ensures
        r as int == mag_spec(cview(*c), n as nat),
{
    proof {
        assert(0 <= (c.re as int) * (c.re as int) <= (VAL_CAP as int) * (VAL_CAP as int) && 0 <= (
        c.im as int) * (c.im as int) <= (VAL_CAP as int) * (VAL_CAP as int)) by (nonlinear_arith)
            requires
                -VAL_CAP <= c.re <= VAL_CAP,
                -VAL_CAP <= c.im <= VAL_CAP,
        ;
        assert((VAL_CAP as int) * (VAL_CAP as int) < 0x1_0000_0000_0000_0000_0000_0000int)
            by (nonlinear_arith)
            requires
                VAL_CAP == 0x4000_0000_0000i64,
        ;
    }
    let sq_re: i128 = (c.re as i128) * (c.re as i128);
    let sq_im: i128 = (c.im as i128) * (c.im as i128);
    let sq: u128 = (sq_re + sq_im) as u128;
    let d: u128 = sq / (n as u128);
    proof {
        assert(d <= sq) by (nonlinear_arith)
            requires
                n >= 1,
                d == sq / (n as u128),
                sq >= 0,
        ;
    }
    isqrt(d)
}

fn compress(gain: u32, mag: u64) -> (r: u16)
    ensures
        r as int == compress_spec(gain as int, mag as int),
        r < UNIT,
{
    proof {
        assert(0 <= (gain as int) * (mag as int) <= 0x1_0000_0000_0000_0000_0000_0000int)
            by (nonlinear_arith)
            requires
                0 <= gain <= 0xffff_ffffu32,
                0 <= mag <= 0xffff_ffff_ffff_ffffu64,
        ;
    }
    let u: u128 = (gain as u128) * (mag as u128) / (GAIN_ONE as u128);
    proof {
        assert(u <= (gain as int) * (mag as int)) by (nonlinear_arith)
            requires
                u == (gain as int) * (mag as int) / (GAIN_ONE as int),
                (gain as int) * (mag as int) >= 0,
                GAIN_ONE == 100,
        ;
        assert(u * (UNIT as u128) <= 0x1_0000_0000_0000_0000_0000_0000int * 1024)
            by (nonlinear_arith)
            requires
                0 <= u <= 0x1_0000_0000_0000_0000_0000_0000int,
                UNIT == 1024,
        ;
    }
    let out: u128 = u * (UNIT as u128) / ((AMP_ONE as u128) + u);
    proof {
        assert(out < UNIT) by (nonlinear_arith)
            requires
                out == u * (UNIT as u128) / ((AMP_ONE as u128) + u),
                u >= 0,
                UNIT >= 1,
                AMP_ONE >= 1,
        ;
    }
    out as u16
}

/// The spectral analyzer: zero-pad the window to the next power of two,
/// transform it, and return the first half of the magnitude spectrum,
/// normalized and compressed into [0, UNIT). A pure function of the
/// samples and the gain.
pub fn process(samples: &Vec<i32>, gain: u32) -> (r: Vec<u16>)
    requires
        1 <= samples@.len() <= MAX_WINDOW,
        samples_bounded(samples@),
    ensures
        samples@.len() == 1 ==> r@.len() == 0,
        samples@.len() >= 2 ==> crate::math::is_pow2((2 * r@.len()) as nat) && samples@.len() <= 2
            * r@.len() < 2 * samples@.len(),
        forall|i: int|
            0 <= i < r@.len() ==> #[trigger] r@[i] as int == process_spec(
                samples@,
                gain as int,
                (2 * r@.len()) as nat,
            )[i],
        forall|i: int| 0 <= i < r@.len() ==> #[trigger] r@[i] < UNIT,
        (forall|i: int| 0 <= i < samples@.len() ==> #[trigger] samples@[i] == 0) ==> (forall|i: int|
            0 <= i < r@.len() ==> #[trigger] r@[i] == 0),
{
    let n = samples.len();
    let mut cs: Vec<Cpx> = Vec::new();
    let mut i: usize = 0;
    while i < n
        invariant
            0 <= i <= n,
            n == samples@.len(),
            samples_bounded(samples@),
            cs@.len() == i,
            forall|j: int|
                0 <= j < i ==> #[trigger] cs@[j] == (Cpx {
                    re: samples@[j] as i64,
                    im: 0i64,
                }),
        decreases n - i,
    {
        cs.push(Cpx { re: samples[i] as i64, im: 0 });
        i += 1;
    }
    proof {
        assert(cseq(cs@) =~= Seq::new(samples@.len(), |j: int| (samples@[j] as int, 0int)));
        assert(all_bounded(cseq(cs@), AMP_ONE as int));
    }
    let f = fft(&cs);
    let n2 = f.len();
    let half = n2 / 2;
    let ghost xs = pad_zero(Seq::new(samples@.len(), |j: int| (samples@[j] as int, 0int)), n2 as nat);
    let ghost fs = fft_spec(xs, 0, 1, n2 as nat, twiddles_spec(n2 as nat), 1);
    proof {
        crate::fft::lemma_window_cap(n2 as nat);
        lemma_twiddles_spec_bound(n2 as nat);
        assert((n2 - 1) * 1 == n2 - 1 && (n2 / 2 - 1) * 1 == n2 / 2 - 1) by (nonlinear_arith);
        assert(xs.len() == n2);
        lemma_fft_spec_bound(xs, 0, 1, n2 as nat, twiddles_spec(n2 as nat), 1, AMP_ONE as int);
        crate::fft::lemma_fft_spec_len(xs, 0, 1, n2 as nat, twiddles_spec(n2 as nat), 1);
    }
    let mut r: Vec<u16> = Vec::new();
    let mut k: usize = 0;
    while k < half
        invariant
            0 <= k <= half,
            half == n2 / 2,
            n2 >= 1,
            f@.len() == n2,
            cseq(f@) == fs,
            fs.len() == if n2 == 1 {
                1int
            } else {
                n2 as int
            },
            all_bounded(fs, pow3(lg(n2 as nat)) * (AMP_ONE as int)),
            pow3(lg(n2 as nat)) * (AMP_ONE as int) <= VAL_CAP as int,
            r@.len() == k,
            forall|j: int|
                0 <= j < k ==> #[trigger] r@[j] as int == compress_spec(
                    gain as int,
                    mag_spec(fs[j], n2 as nat),
                ),
            forall|j: int| 0 <= j < k ==> #[trigger] r@[j] < UNIT,
        decreases half - k,
    {
        let c = f[k];
        proof {
            assert(cview(c) == fs[k as int]);
            assert(crate::fft::bounded1(fs[k as int], pow3(lg(n2 as nat)) * (AMP_ONE as int)));
        }
        let m = magnitude(&c, n2);
        let v = compress(gain, m);
        r.push(v);
        k += 1;
    }
    proof {
        if n2 >= 2 {
            crate::math::lemma_pow2_even(n2 as nat);
            assert(2 * r@.len() == n2);
            assert(forall|i: int|
                0 <= i < r@.len() ==> #[trigger] r@[i] as int == process_spec(
                    samples@,
                    gain as int,
                    (2 * r@.len()) as nat,
                )[i]);
        } else {
            assert(r@.len() == 0);
            assert(samples@.len() <= 1);
        }
        if forall|i: int| 0 <= i < samples@.len() ==> #[trigger] samples@[i] == 0 {
            assert(forall|i: int| 0 <= i < xs.len() ==> #[trigger] xs[i] == (0int, 0int));
            lemma_fft_spec_zero(xs, 0, 1, n2 as nat, twiddles_spec(n2 as nat), 1);
            assert forall|i: int| 0 <= i < r@.len() implies #[trigger] r@[i] == 0 by {
                assert(fs[i] == (0int, 0int));
                assert(mag_spec((0int, 0int), n2 as nat) == 0) by {
                    assert(0int * 0int == 0) by (nonlinear_arith);
                    assert(0int / (n2 as int) == 0);
                    assert(sqrt_floor(0nat) == 0);
                }
                assert(compress_spec(gain as int, 0) == 0) by {
                    assert(gain as int * 0 == 0) by (nonlinear_arith);
                    assert(0int / (GAIN_ONE as int) == 0);
                    assert(0int * (UNIT as int) == 0) by (nonlinear_arith);
                    assert(0int / ((AMP_ONE as int) + 0) == 0);
                }
            }
        }
    }
    r
}

/// The i-th of n logarithmically spaced raw cutoffs between min and
/// max: min * (max/min)^(i/n), rounded to the nearest integer. Stated
/// without fractional powers: twice that real value is the n-th root
/// of 2^n * min^(n-i) * max^i, so with y the integer floor of that
/// root, the rounded cutoff is (y + 1) / 2.
pub open spec fn cutoff_formula(min: int, max: int, n: nat, i: int) -> int {
    let scaled = pow(2, n) * pow(min, (n - i) as nat) * pow(max, i as nat);
    ((nth_root_floor(scaled as nat, n) + 1) / 2) as int
}

/// The raw cutoff scale: index 0 carries min, index i in 1..=n the
/// rounded geometric value of exponent i/n; index n lands exactly on
/// max.
pub open spec fn raw_seq(min: u32, max: u32, n: nat) -> Seq<u32> {
    Seq::new(
        (n + 1) as nat,
        |k: int|
            if k == 0 {
                min
            } else {
                cutoff_formula(min as int, max as int, n, k) as u32
            },
    )
}

/// The power the formula roots stays between the n-th powers of 2*min
/// and 2*max, and is positive.
proof fn lemma_cutoff_scaled_bounds(min: int, max: int, n: nat, i: int)
    requires
        1 <= min <= max,
        1 <= i <= n,
    ensures
        1 <= pow(2, n) * pow(min, (n - i) as nat) * pow(max, i as nat),
        pow(2 * min, n) <= pow(2, n) * pow(min, (n - i) as nat) * pow(max, i as nat),
        pow(2, n) * pow(min, (n - i) as nat) * pow(max, i as nat) <= pow(2 * max, n),
{
    let scaled = pow(2, n) * pow(min, (n - i) as nat) * pow(max, i as nat);
    vstd::arithmetic::power::lemma_pow_positive(2, n);
    vstd::arithmetic::power::lemma_pow_positive(min, (n - i) as nat);
    vstd::arithmetic::power::lemma_pow_positive(min, i as nat);
    vstd::arithmetic::power::lemma_pow_positive(max, (n - i) as nat);
    vstd::arithmetic::power::lemma_pow_positive(max, i as nat);
    vstd::arithmetic::power::lemma_pow_distributes(2, min, n);
    vstd::arithmetic::power::lemma_pow_distributes(2, max, n);
    vstd::arithmetic::power::lemma_pow_adds(min, (n - i) as nat, i as nat);
    vstd::arithmetic::power::lemma_pow_adds(max, (n - i) as nat, i as nat);
    lemma_pow_base_mono(min, max, i as nat);
    lemma_pow_base_mono(min, max, (n - i) as nat);
    assert(1 <= scaled && pow(2 * min, n) <= scaled && scaled <= pow(2 * max, n))
        by (nonlinear_arith)
        requires
            scaled == pow(2, n) * pow(min, (n - i) as nat) * pow(max, i as nat),
            pow(2 * min, n) == pow(2, n) * pow(min, n),
            pow(2 * max, n) == pow(2, n) * pow(max, n),
            pow(min, n) == pow(min, (n - i) as nat) * pow(min, i as nat),
            pow(max, n) == pow(max, (n - i) as nat) * pow(max, i as nat),
            1 <= pow(min, i as nat) <= pow(max, i as nat),
            1 <= pow(min, (n - i) as nat) <= pow(max, (n - i) as nat),
            pow(2, n) >= 1,
    ;
}

/// Every raw cutoff lies between min and max.
pub proof fn lemma_cutoff_formula_range(min: int, max: int, n: nat, i: int)
    requires
        1 <= min <= max,
        1 <= i <= n,
    ensures
        min <= cutoff_formula(min, max, n, i) <= max,
{
    let scaled = pow(2, n) * pow(min, (n - i) as nat) * pow(max, i as nat);
    let root = nth_root_floor(scaled as nat, n);
    lemma_cutoff_scaled_bounds(min, max, n, i);
    lemma_nth_root_floor(scaled as nat, n);
    if root < 2 * min {
        lemma_pow_base_mono((root + 1) as int, 2 * min, n);
        assert(false);
    }
    if root > 2 * max {
        lemma_pow_base_mono(2 * max + 1, root as int, n);
        lemma_pow_base_strict(2 * max, 2 * max + 1, n);
        assert(false);
    }
    assert(min <= ((root + 1) / 2) as int <= max) by (nonlinear_arith)
        requires
            2 * min <= root <= 2 * max,
            min >= 1,
    ;
}

/// The last raw cutoff is exactly max.
pub proof fn lemma_cutoff_formula_last(min: int, max: int, n: nat)
    requires
        1 <= min <= max,
        n >= 1,
    ensures
        cutoff_formula(min, max, n, n as int) == max,
{
    let scaled = pow(2, n) * pow(min, (n - n as int) as nat) * pow(max, n);
    vstd::arithmetic::power::lemma_pow0(min);
    vstd::arithmetic::power::lemma_pow_distributes(2, max, n);
    assert(scaled == pow(2 * max, n)) by (nonlinear_arith)
        requires
            scaled == pow(2, n) * pow(min, 0nat) * pow(max, n),
            pow(min, 0nat) == 1,
            pow(2 * max, n) == pow(2, n) * pow(max, n),
    ;
    vstd::arithmetic::power::lemma_pow_positive(2 * max, n);
    lemma_pow_base_strict(2 * max, 2 * max + 1, n);
    lemma_pow_base_mono(2 * max, 2 * max, n);
    lemma_nth_root_unique(scaled as nat, n, (2 * max) as nat);
    assert(nth_root_floor(scaled as nat, n) == 2 * max);
    assert((((2 * max + 1) as nat) / 2) as int == max) by (nonlinear_arith)
        requires
            max >= 1,
    ;
}

/// The enforced cutoff with 1-based index i: the raw rounded value,
/// lifted so it exceeds its predecessor, and capped so the remaining
/// cutoffs still fit strictly below max. With i == n the cap is max
/// itself, and the raw endpoint is already max, so the last cutoff is
/// exactly max.
pub open spec fn enforced(raw: Seq<u32>, min: int, max: int, i: int) -> int
    decreases i,
{
    let n = raw.len() - 1;
    let prev = if i <= 1 {
        min
    } else {
        enforced(raw, min, max, i - 1)
    };
    let lifted = if raw[i] > prev + 1 {
        raw[i] as int
    } else {
        prev + 1
    };
    let cap = max - (n - i);
    if lifted < cap {
        lifted
    } else {
        cap
    }
}

/// Each enforced cutoff strictly exceeds its predecessor and leaves
/// room for those after it.
pub proof fn lemma_enforced_range(raw: Seq<u32>, min: int, max: int, i: int)
    requires
        raw.len() >= 2,
        1 <= i <= raw.len() - 1,
        1 <= min,
        max >= min + raw.len() - 1,
    ensures
        enforced(raw, min, max, i) > if i <= 1 {
            min
        } else {
            enforced(raw, min, max, i - 1)
        },
        enforced(raw, min, max, i) <= max - (raw.len() - 1 - i),
    decreases i,
{
    if i > 1 {
        lemma_enforced_range(raw, min, max, i - 1);
    }
}

/// The n band cutoffs between min_freq and max_freq: the rounded
/// logarithmically spaced values min * (max/min)^(i/n), then a pass
/// that makes the sequence strictly increasing within (min, max] and
/// ends it exactly at max.
pub open spec fn cutoffs_spec(min: u32, max: u32, n: nat) -> Seq<u32> {
    let raw = raw_seq(min, max, n);
    Seq::new(n, |j: int| enforced(raw, min as int, max as int, j + 1) as u32)
}

/// One raw cutoff, exactly: big-number powers bracket the n-th root of
/// 2^n * min^(n-i) * max^i by bisection, and the rounded geometric
/// value follows.
fn cutoff_raw(min_freq: u32, max_freq: u32, n: usize, i: usize) -> (r: u32)
    requires
        1 <= min_freq <= max_freq,
        1 <= i <= n,
    ensures
        r as int == cutoff_formula(min_freq as int, max_freq as int, n as nat, i as int),
        min_freq <= r <= max_freq,
{
    let ghost minv = min_freq as int;
    let ghost maxv = max_freq as int;
    let ghost scaled = pow(2, n as nat) * pow(minv, (n - i) as nat) * pow(maxv, i as nat);
    let k0 = bn_from(1);
    let k1 = bn_scale_pow(k0, 2, n);
    let k2 = bn_scale_pow(k1, min_freq as u64, n - i);
    let k = bn_scale_pow(k2, max_freq as u64, i);
    proof {
        assert(bn_val(k@) == scaled) by (nonlinear_arith)
            requires
                bn_val(k@) == ((1 * pow(2, n as nat)) * pow(minv, (n - i) as nat)) * pow(
                    maxv,
                    i as nat,
                ),
                scaled == pow(2, n as nat) * pow(minv, (n - i) as nat) * pow(maxv, i as nat),
        ;
        lemma_cutoff_scaled_bounds(minv, maxv, n as nat, i as int);
        lemma_pow_base_strict(2 * maxv, 2 * maxv + 1, n as nat);
    }
    let mut lo: u64 = 2 * (min_freq as u64);
    let mut hi: u64 = 2 * (max_freq as u64) + 1;
    while lo + 1 < hi
        invariant
            2 * min_freq <= lo < hi <= 2 * (max_freq as u64) + 1,
            n >= 1,
            scaled >= 0,
            bn_val(k@) == scaled,
            pow(lo as int, n as nat) <= scaled,
            scaled < pow(hi as int, n as nat),
        decreases hi - lo,
    {
        let mid = lo + (hi - lo) / 2;
        let m0 = bn_from(1);
        let mp = bn_scale_pow(m0, mid, n);
        proof {
            assert(bn_val(mp@) == pow(mid as int, n as nat)) by (nonlinear_arith)
                requires
                    bn_val(mp@) == 1 * pow(mid as int, n as nat),
            ;
        }
        if bn_le(&mp, &k) {
            lo = mid;
        } else {
            hi = mid;
        }
    }
    proof {
        lemma_nth_root_unique(scaled as nat, n as nat, lo as nat);
        lemma_cutoff_formula_range(minv, maxv, n as nat, i as int);
    }
    ((lo + 1) / 2) as u32
}

/// Compute the band cutoffs. They are strictly increasing, all within
/// (min_freq, max_freq], and the last one is exactly max_freq.
pub fn compute_cutoffs(min_freq: u32, max_freq: u32, n: usize) -> (r: Vec<u32>)
    requires
        1 <= min_freq,
        1 <= n,
        n < usize::MAX,
        min_freq + n <= max_freq,
    ensures
        r@ == cutoffs_spec(min_freq, max_freq, n as nat),
        r@.len() == n,
        forall|i: int| 0 <= i < n ==> min_freq < #[trigger] r@[i] <= max_freq,
        forall|i: int, j: int| 0 <= i < j < n ==> r@[i] < r@[j],
        r@[n - 1] == max_freq,
{
    let ghost raw = raw_seq(min_freq, max_freq, n as nat);
    proof {
        lemma_cutoff_formula_last(min_freq as int, max_freq as int, n as nat);
        assert(raw[n as int] == max_freq);
        assert(raw.len() == n + 1);
    }
    let mut r: Vec<u32> = Vec::new();
    let mut prev: u32 = min_freq;
    let mut i: usize = 1;
    while i <= n
        invariant
            1 <= i <= n + 1,
            n < usize::MAX,
            1 <= min_freq,
            min_freq + n <= max_freq,
            raw == raw_seq(min_freq, max_freq, n as nat),
            raw.len() == n + 1,
            r@.len() == i - 1,
            prev as int == if i <= 1 {
                min_freq as int
            } else {
                enforced(raw, min_freq as int, max_freq as int, i - 1)
            },
            min_freq <= prev,
            prev as int <= max_freq - (n + 1 - i),
            forall|j: int|
                0 <= j < i - 1 ==> #[trigger] r@[j] == enforced(
                    raw,
                    min_freq as int,
                    max_freq as int,
                    j + 1,
                ) as u32 && r@[j] as int == enforced(raw, min_freq as int, max_freq as int, j + 1),
            forall|j: int| 0 <= j < i - 1 ==> min_freq < #[trigger] r@[j] <= max_freq,
            forall|a: int, b: int| 0 <= a < b < i - 1 ==> r@[a] < r@[b],
            i >= 2 ==> r@[i - 2] == prev,
        decreases n + 1 - i,
    {
        proof {
            lemma_enforced_range(raw, min_freq as int, max_freq as int, i as int);
            lemma_cutoff_formula_range(min_freq as int, max_freq as int, n as nat, i as int);
        }
        let rawv = cutoff_raw(min_freq, max_freq, n, i);
        proof {
            assert(rawv == raw[i as int]);
        }
        let lifted: u32 = if rawv > prev {
            if rawv > prev + 1 {
                rawv
            } else {
                prev + 1
            }
        } else {
            prev + 1
        };
        let cap: u32 = max_freq - ((n - i) as u32);
        let c: u32 = if lifted < cap {
            lifted
        } else {
            cap
        };
        proof {
            assert(c as int == enforced(raw, min_freq as int, max_freq as int, i as int));
        }
        r.push(c);
        prev = c;
        i += 1;
    }
    proof {
        assert(r@ =~= cutoffs_spec(min_freq, max_freq, n as nat));
        if n >= 2 {
            lemma_enforced_range(raw, min_freq as int, max_freq as int, n - 1);
        }
        assert(enforced(raw, min_freq as int, max_freq as int, n as int) == max_freq);
        assert(r@[n - 1] as int == enforced(raw, min_freq as int, max_freq as int, n as int));
        assert(r@[n - 1] == max_freq);
    }
    r
}

/// How fast whiteness falls when the band gets louder: three quarters
/// of the distance, but always at least one step.
pub open spec fn rate_loud(d: int) -> int {
    if 3 * d / 4 >= 1 {
        3 * d / 4
    } else {
        1
    }
}

/// How fast whiteness recovers when the band gets quieter: half the
/// distance, but always at least one step. Slower than the loudness
/// response, as the smoothing policy demands.
pub open spec fn rate_calm(d: int) -> int {
    if d / 2 >= 1 {
        d / 2
    } else {
        1
    }
}

/// One smoothing step of a band's whiteness: move toward the target
/// UNIT - peak, quickly when the band got louder, slowly when it got
/// quieter, never overshooting and never leaving [0, UNIT].
pub open spec fn white_step(w: int, peak: int) -> int {
    let t = UNIT - peak;
    if t < w {
        w - rate_loud(w - t)
    } else if t > w {
        w + rate_calm(t - w)
    } else {
        w
    }
}

/// The rate functions stay between one step and the whole distance.
proof fn lemma_rate_range(d: int)
    requires
        d >= 1,
    ensures
        1 <= rate_loud(d) <= d,
        1 <= rate_calm(d) <= d,
{
    assert(3 * d / 4 <= d && 3 * d / 4 >= 0 && d / 2 <= d && d / 2 >= 0) by (nonlinear_arith)
        requires
            d >= 1,
    ;
}

/// A whiteness step never overshoots its target and keeps the value in
/// range.
pub proof fn lemma_white_step_range(w: int, peak: int)
    requires
        0 <= w <= UNIT,
        0 <= peak < UNIT,
    ensures
        0 <= white_step(w, peak) <= UNIT,
        UNIT - peak < w ==> UNIT - peak <= white_step(w, peak) < w,
        UNIT - peak > w ==> w < white_step(w, peak) <= UNIT - peak,
        UNIT - peak == w ==> white_step(w, peak) == w,
{
    let t = UNIT - peak;
    if t < w {
        lemma_rate_range(w - t);
    } else if t > w {
        lemma_rate_range(t - w);
    }
}

/// Law: a silent band drives whiteness monotonically toward full white,
/// strictly while it is not there yet, and keeps it there once reached.
pub proof fn lemma_silence_whitens(w: int)
    requires
        0 <= w <= UNIT,
    ensures
        w <= white_step(w, 0) <= UNIT,
        w < UNIT ==> w < white_step(w, 0),
        white_step(UNIT as int, 0) == UNIT,
{
    lemma_white_step_range(w, 0);
    lemma_white_step_range(UNIT as int, 0);
}

/// A band's whiteness after k consecutive silent frames.
pub open spec fn whiteness_after_silence(w: int, k: nat) -> int
    decreases k,
{
    if k == 0 {
        w
    } else {
        white_step(whiteness_after_silence(w, (k - 1) as nat), 0)
    }
}

/// Law: repeated silent frames drive whiteness monotonically up, by at
/// least one per frame, until it reaches full white, where it stays.
pub proof fn lemma_silence_whitens_repeated(w: int, k: nat)
    requires
        0 <= w <= UNIT,
    ensures
        whiteness_after_silence(w, k) <= whiteness_after_silence(w, k + 1) <= UNIT,
        w <= whiteness_after_silence(w, k) <= UNIT,
        whiteness_after_silence(w, k) >= w + k || whiteness_after_silence(w, k) == UNIT,
    decreases k,
{
    if k == 0 {
        lemma_silence_whitens(w);
    } else {
        lemma_silence_whitens_repeated(w, (k - 1) as nat);
        lemma_silence_whitens(whiteness_after_silence(w, (k - 1) as nat));
        lemma_silence_whitens(whiteness_after_silence(w, k));
    }
}

/// The representative frequency of bin i.
pub open spec fn bin_freq(i: int, hz: int) -> int {
    i * hz + hz / 2
}

/// Bin frequencies grow with the bin index.
proof fn lemma_bin_freq_mono(i: int, j: int, hz: int)
    requires
        0 <= i <= j,
        hz >= 1,
    ensures
        bin_freq(i, hz) <= bin_freq(j, hz),
{
    assert(i * hz <= j * hz) by (nonlinear_arith)
        requires
            0 <= i <= j,
            hz >= 1,
    ;
}

/// The greatest magnitude among the first n bins whose frequency lies
/// in (lo, hi]; zero when no bin does.
pub open spec fn band_peak_upto(s: Seq<u16>, hz: int, lo: int, hi: int, n: int) -> int
    decreases n,
{
    if n <= 0 {
        0
    } else {
        let p = band_peak_upto(s, hz, lo, hi, n - 1);
        if lo < bin_freq(n - 1, hz) <= hi && s[n - 1] > p {
            s[n - 1] as int
        } else {
            p
        }
    }
}

/// The greatest magnitude of the band (lo, hi] over the whole spectrum.
pub open spec fn band_peak(s: Seq<u16>, hz: int, lo: int, hi: int) -> int {
    band_peak_upto(s, hz, lo, hi, s.len() as int)
}

/// Bins below the band contribute nothing.
proof fn lemma_band_peak_prefix(s: Seq<u16>, hz: int, lo: int, hi: int, m: int)
    requires
        0 <= m <= s.len(),
        forall|i: int| 0 <= i < m ==> #[trigger] bin_freq(i, hz) <= lo,
    ensures
        band_peak_upto(s, hz, lo, hi, m) == 0,
    decreases m,
{
    if m > 0 {
        lemma_band_peak_prefix(s, hz, lo, hi, m - 1);
    }
}

/// Bins above the band contribute nothing either.
proof fn lemma_band_peak_rest(s: Seq<u16>, hz: int, lo: int, hi: int, m: int, n: int)
    requires
        0 <= m <= n <= s.len(),
        forall|i: int| m <= i < s.len() ==> #[trigger] bin_freq(i, hz) > hi,
    ensures
        band_peak_upto(s, hz, lo, hi, n) == band_peak_upto(s, hz, lo, hi, m),
    decreases n - m,
{
    if n > m {
        lemma_band_peak_rest(s, hz, lo, hi, m, n - 1);
    }
}

/// Law: an all-zero spectrum has silent bands everywhere.
pub proof fn lemma_band_peak_silent(s: Seq<u16>, hz: int, lo: int, hi: int, n: int)
    requires
        n <= s.len(),
        forall|i: int| 0 <= i < s.len() ==> #[trigger] s[i] == 0,
    ensures
        band_peak_upto(s, hz, lo, hi, n) == 0,
    decreases n,
{
    if n > 0 {
        lemma_band_peak_silent(s, hz, lo, hi, n - 1);
    }
}

/// The lower frequency edge of band j: the previous cutoff, or below
/// every frequency for the first band.
pub open spec fn band_lo(cuts: Seq<u32>, j: int) -> int {
    if j == 0 {
        -1
    } else {
        cuts[j - 1] as int
    }
}

fn step_rate_loud(d: u16) -> (r: u16)
    requires
        1 <= d <= UNIT,
    ensures
        r as int == rate_loud(d as int),
        1 <= r <= d,
{
    proof {
        lemma_rate_range(d as int);
    }
    let q: u16 = 3 * d / 4;
    if q >= 1 {
        q
    } else {
        1
    }
}

fn step_rate_calm(d: u16) -> (r: u16)
    requires
        1 <= d <= UNIT,
    ensures
        r as int == rate_calm(d as int),
        1 <= r <= d,
{
    proof {
        lemma_rate_range(d as int);
    }
    let q: u16 = d / 2;
    if q >= 1 {
        q
    } else {
        1
    }
}

/// One executable whiteness step; see [`white_step`].
pub fn step_whiteness(w: u16, peak: u16) -> (r: u16)
    requires
        w <= UNIT,
        peak < UNIT,
    ensures
        r as int == white_step(w as int, peak as int),
        r <= UNIT,
{
    proof {
        lemma_white_step_range(w as int, peak as int);
    }
    let t: u16 = UNIT - peak;
    if t < w {
        w - step_rate_loud(w - t)
    } else if t > w {
        w + step_rate_calm(t - w)
    } else {
        w
    }
}

/// The band mapper: split the spectrum into one logarithmic band per
/// color, take the loudest bin of each band, and move that band's
/// whiteness toward UNIT - peak. Exactly one commit per color: hue and
/// blackness never change, and bins past the last cutoff are ignored.
pub fn update_colors(
    colors: &mut Vec<Hwb>,
    spectrum: &Vec<u16>,
    min_freq: u32,
    max_freq: u32,
    hz_per_bin: u32,
)
    requires
        1 <= old(colors)@.len() < usize::MAX,
        forall|j: int|
            0 <= j < old(colors)@.len() ==> (#[trigger] old(colors)@[j]).wf() && old(
                colors,
            )@[j].blackness == 0,
        forall|i: int| 0 <= i < spectrum@.len() ==> #[trigger] spectrum@[i] < UNIT,
        spectrum@.len() <= MAX_WINDOW,
        hz_per_bin >= 1,
        min_freq >= 1,
        min_freq + old(colors)@.len() <= max_freq,
    ensures
        final(colors)@.len() == old(colors)@.len(),
        forall|j: int|
            0 <= j < old(colors)@.len() ==> {
                let cuts = cutoffs_spec(min_freq, max_freq, old(colors)@.len());
                let peak = band_peak(
                    spectrum@,
                    hz_per_bin as int,
                    band_lo(cuts, j),
                    cuts[j] as int,
                );
                (#[trigger] final(colors)@[j]) == (Hwb {
                    hue: old(colors)@[j].hue,
                    whiteness: white_step(old(colors)@[j].whiteness as int, peak) as u16,
                    blackness: old(colors)@[j].blackness,
                })
            },
        forall|j: int| 0 <= j < final(colors)@.len() ==> (#[trigger] final(colors)@[j]).wf(),
{
    let n = colors.len();
    let cuts = compute_cutoffs(min_freq, max_freq, n);
    let ghost cuts_s = cutoffs_spec(min_freq, max_freq, n as nat);
    let nb = spectrum.len();
    let hz = hz_per_bin;
    let mut bi: usize = 0;
    let mut fq: u64 = (hz as u64) / 2;
    let mut j: usize = 0;
    while j < n
        invariant
            0 <= j <= n,
            n == old(colors)@.len(),
            colors@.len() == n,
            cuts@ == cuts_s,
            cuts@.len() == n,
            forall|a: int, b: int| 0 <= a < b < n ==> cuts_s[a] < cuts_s[b],
            nb == spectrum@.len(),
            nb <= MAX_WINDOW,
            hz == hz_per_bin,
            hz >= 1,
            0 <= bi <= nb,
            fq == bin_freq(bi as int, hz as int),
            forall|q: int|
                0 <= q < n ==> (#[trigger] old(colors)@[q]).wf() && old(colors)@[q].blackness
                    == 0,
            forall|i: int| 0 <= i < nb ==> #[trigger] spectrum@[i] < UNIT,
            forall|i: int|
                0 <= i < bi ==> #[trigger] bin_freq(i, hz as int) <= band_lo(cuts_s, j as int),
            bi < nb ==> bin_freq(bi as int, hz as int) > band_lo(cuts_s, j as int),
            forall|q: int| j <= q < n ==> #[trigger] colors@[q] == old(colors)@[q],
            forall|q: int|
                0 <= q < j ==> (#[trigger] colors@[q]) == (Hwb {
                    hue: old(colors)@[q].hue,
                    whiteness: white_step(
                        old(colors)@[q].whiteness as int,
                        band_peak(
                            spectrum@,
                            hz as int,
                            band_lo(cuts_s, q),
                            cuts_s[q] as int,
                        ),
                    ) as u16,
                    blackness: old(colors)@[q].blackness,
                }),
            forall|q: int| 0 <= q < j ==> (#[trigger] colors@[q]).whiteness <= UNIT,
        decreases n - j,
    {
        let ghost lo_j = band_lo(cuts_s, j as int);
        let hi_j: u32 = cuts[j];
        proof {
            lemma_band_peak_prefix(spectrum@, hz as int, lo_j, hi_j as int, bi as int);
            assert(lo_j < hi_j as int);
            assert forall|i: int| bi <= i < nb implies #[trigger] bin_freq(i, hz as int)
                > lo_j by {
                lemma_bin_freq_mono(bi as int, i, hz as int);
            }
        }
        let mut peak: u16 = 0;
        while bi < nb && fq <= hi_j as u64
            invariant
                0 <= bi <= nb,
                nb == spectrum@.len(),
                nb <= MAX_WINDOW,
                hz >= 1,
                fq == bin_freq(bi as int, hz as int),
                forall|i: int| 0 <= i < nb ==> #[trigger] spectrum@[i] < UNIT,
                forall|i: int| bi <= i < nb ==> #[trigger] bin_freq(i, hz as int) > lo_j,
                forall|i: int|
                    0 <= i < bi ==> #[trigger] bin_freq(i, hz as int) <= hi_j as int,
                peak as int == band_peak_upto(spectrum@, hz as int, lo_j, hi_j as int, bi as int),
                peak < UNIT,
            decreases nb - bi,
        {
            let v = spectrum[bi];
            if v > peak {
                peak = v;
            }
            proof {
                assert forall|i: int|
                    bi + 1 <= i < nb implies #[trigger] bin_freq(i, hz as int) > lo_j by {
                    lemma_bin_freq_mono(bi as int, i, hz as int);
                }
                assert(bin_freq(bi + 1, hz as int) == fq + hz) by (nonlinear_arith)
                    requires
                        fq == (bi as int) * (hz as int) + (hz as int) / 2,
                        bin_freq(bi + 1, hz as int) == (bi + 1) * (hz as int) + (hz as int) / 2,
                ;
                assert(fq + hz <= 0x40_0000_0000_0000_0000int + 0x1_0000_0000int)
                    by (nonlinear_arith)
                    requires
                        fq == (bi as int) * (hz as int) + (hz as int) / 2,
                        0 <= bi < 0x10_0000int,
                        1 <= hz < 0x1_0000_0000int,
                ;
            }
            bi += 1;
            fq = fq + (hz as u64);
        }
        proof {
            assert forall|i: int| bi <= i < nb implies #[trigger] bin_freq(i, hz as int)
                > hi_j as int by {
                lemma_bin_freq_mono(bi as int, i, hz as int);
            }
            lemma_band_peak_rest(spectrum@, hz as int, lo_j, hi_j as int, bi as int, nb as int);
            assert(peak as int == band_peak(spectrum@, hz as int, lo_j, hi_j as int));
            assert(band_lo(cuts_s, j + 1) == hi_j as int);
            assert forall|i: int|
                0 <= i < bi implies #[trigger] bin_freq(i, hz as int) <= band_lo(
                cuts_s,
                j + 1,
            ) by {}
        }
        let c = colors[j];
        proof {
            assert(old(colors)@[j as int].wf());
        }
        let new_w = step_whiteness(c.whiteness, peak);
        colors.set(j, Hwb { hue: c.hue, whiteness: new_w, blackness: c.blackness });
        j += 1;
    }
    proof {
        assert forall|q: int| 0 <= q < colors@.len() implies (#[trigger] colors@[q]).wf() by {
            assert(colors@[q].whiteness <= UNIT);
            assert(colors@[q].blackness == old(colors)@[q].blackness);
            assert(colors@[q].hue == old(colors)@[q].hue);
            assert(old(colors)@[q].wf() && old(colors)@[q].blackness == 0);
        }
    }
}

/// Law: for a fixed magnitude, a larger gain never lowers the
/// compressed output.
pub proof fn lemma_compress_monotone(g1: int, g2: int, m: int)
    requires
        0 <= g1 <= g2,
        0 <= m,
    ensures
        compress_spec(g1, m) <= compress_spec(g2, m),
{
    let go = GAIN_ONE as int;
    let a = AMP_ONE as int;
    let uu = UNIT as int;
    let u1 = g1 * m / go;
    let u2 = g2 * m / go;
    assert(0 <= g1 * m <= g2 * m) by (nonlinear_arith)
        requires
            0 <= g1 <= g2,
            0 <= m,
    ;
    vstd::arithmetic::div_mod::lemma_div_is_ordered(g1 * m, g2 * m, go);
    assert(u1 >= 0) by (nonlinear_arith)
        requires
            u1 == g1 * m / go,
            g1 * m >= 0,
            go >= 1,
    ;
    assert(u1 * uu * (a + u2) <= u2 * uu * (a + u1)) by (nonlinear_arith)
        requires
            0 <= u1 <= u2,
            uu >= 1,
            a >= 1,
    ;
    lemma_div_cross(u1 * uu, a + u1, u2 * uu, a + u2);
    assert(u1 * uu >= 0 && u2 * uu >= 0) by (nonlinear_arith)
        requires
            0 <= u1 <= u2,
            uu >= 1,
    ;
}

/// From a*d <= c*b (all positive denominators) follows a/b <= c/d.
proof fn lemma_div_cross(a: int, b: int, c: int, d: int)
    requires
        a >= 0,
        c >= 0,
        b >= 1,
        d >= 1,
        a * d <= c * b,
    ensures
        a / b <= c / d,
{
    let q1 = a / b;
    let q2 = c / d;
    vstd::arithmetic::div_mod::lemma_fundamental_div_mod(a, b);
    vstd::arithmetic::div_mod::lemma_fundamental_div_mod(c, d);
    if q1 > q2 {
        assert(false) by (nonlinear_arith)
            requires
                a == b * q1 + a % b,
                c == d * q2 + c % d,
                0 <= a % b < b,
                0 <= c % d < d,
                q1 >= q2 + 1,
                a * d <= c * b,
                b >= 1,
                d >= 1,
                q2 >= 0,
        ;
    }
}

/// Law: raising the gain never lowers any bin of the analyzer's
/// compressed spectrum.
pub proof fn lemma_process_gain_monotone(s: Seq<i32>, g1: int, g2: int, n2: nat, i: int)
    requires
        0 <= g1 <= g2,
        0 <= i < process_spec(s, g1, n2).len(),
    ensures
        process_spec(s, g1, n2)[i] <= process_spec(s, g2, n2)[i],
{
    let f = fft_spec(
        pad_zero(Seq::new(s.len(), |k: int| (s[k] as int, 0int)), n2),
        0,
        1,
        n2,
        twiddles_spec(n2),
        1,
    );
    lemma_compress_monotone(g1, g2, mag_spec(f[i], n2));
}

} // verus!
