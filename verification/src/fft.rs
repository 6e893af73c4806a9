//! Radix-2 FFT over fixed-point complex numbers.
//!
//! Amplitude 1.0 is [`AMP_ONE`]; twiddle factors carry [`TW_ONE`] as 1.0
//! and are generated internally from half-angle square roots, so the
//! whole transform is integer arithmetic. The recursion works on an
//! explicit ping-pong pair of buffers addressed by (offset, stride,
//! length), reading one and writing the other.

use vstd::prelude::*;

use crate::math::div_trunc;
use crate::math::div_trunc_i64;
use crate::math::is_pow2;
use crate::math::isqrt;
use crate::math::lemma_div_trunc_bound;
use crate::math::lemma_div_trunc_sq;
use crate::math::lemma_lg_mono;
use crate::math::lemma_pow3_mono;
use crate::math::lemma_pow3_pos;
use crate::math::lg;
use crate::math::pow3;
use crate::math::sqrt_floor;

verus! {

/// Fixed-point sample scale: an amplitude of 1.0 is this many units.
pub const AMP_ONE: i32 = 16384;

/// Fixed-point twiddle scale used by the transform itself.
pub const TW_ONE: i64 = 16384;

/// Finer fixed-point scale used while generating twiddles, so that the
/// repeated complex products lose almost nothing.
pub const TWG_ONE: i64 = 1073741824;

/// Longest window the transform accepts (2^20 samples).
pub const MAX_WINDOW: usize = 1048576;

/// Every intermediate of the transform stays within this many units
/// (3^20 levels of growth from AMP_ONE), comfortably inside i64.
pub const VAL_CAP: i64 = 0x4000_0000_0000;

/// A complex number in fixed-point.
#[derive(Debug, Clone, Copy, PartialEq, Eq, Structural)]
pub struct Cpx {
    pub re: i64,
    pub im: i64,
}

/// The mathematical value of a complex fixed-point number.
pub open spec fn cview(c: Cpx) -> (int, int) {
    (c.re as int, c.im as int)
}

/// The mathematical values of a buffer.
pub open spec fn cseq(s: Seq<Cpx>) -> Seq<(int, int)> {
    Seq::new(s.len(), |i: int| cview(s[i]))
}

pub open spec fn cadd(a: (int, int), b: (int, int)) -> (int, int) {
    (a.0 + b.0, a.1 + b.1)
}

pub open spec fn csub(a: (int, int), b: (int, int)) -> (int, int) {
    (a.0 - b.0, a.1 - b.1)
}

/// Complex product with the twiddle scale divided back out, truncating
/// toward zero.
pub open spec fn ctmul(w: (int, int), b: (int, int)) -> (int, int) {
    (
        div_trunc(w.0 * b.0 - w.1 * b.1, TW_ONE as int),
        div_trunc(w.0 * b.1 + w.1 * b.0, TW_ONE as int),
    )
}

/// Both components lie within b.
pub open spec fn bounded1(v: (int, int), b: int) -> bool {
    -b <= v.0 <= b && -b <= v.1 <= b
}

/// Every entry of s has both components within b.
pub open spec fn all_bounded(s: Seq<(int, int)>, b: int) -> bool {
    forall|i: int| 0 <= i < s.len() ==> bounded1(#[trigger] s[i], b)
}

/// The decimation-in-time transform of the n entries of x starting at
/// xoff with stride xstep. tw holds the twiddles of the outermost level;
/// level k of size n uses tw[k * twmul]. The even-index half transforms
/// to e, the odd half to o, and entry k combines e[k] with the twiddled
/// o[k].
pub open spec fn fft_spec(
    x: Seq<(int, int)>,
    xoff: int,
    xstep: int,
    n: nat,
    tw: Seq<(int, int)>,
    twmul: int,
) -> Seq<(int, int)>
    decreases n,
{
    if n <= 1 {
        seq![x[xoff]]
    } else {
        let h = (n / 2) as nat;
        let e = fft_spec(x, xoff, 2 * xstep, h, tw, 2 * twmul);
        let o = fft_spec(x, xoff + xstep, 2 * xstep, h, tw, 2 * twmul);
        Seq::new(
            n,
            |k: int|
                if k < h {
                    cadd(e[k], ctmul(tw[k * twmul], o[k]))
                } else {
                    csub(e[k - h], ctmul(tw[(k - h) * twmul], o[k - h]))
                },
        )
    }
}

pub proof fn lemma_fft_spec_len(
    x: Seq<(int, int)>,
    xoff: int,
    xstep: int,
    n: nat,
    tw: Seq<(int, int)>,
    twmul: int,
)
    ensures
        fft_spec(x, xoff, xstep, n, tw, twmul).len() == if n <= 1 {
            1nat
        } else {
            n
        },
{
}

/// A product scaled back down by the twiddle unit keeps components
/// within twice the operand bound when the twiddle is within its unit.
proof fn lemma_ctmul_bound(w: (int, int), b: (int, int), m: int)
    requires
        bounded1(w, TW_ONE as int),
        0 <= m,
        bounded1(b, m),
    ensures
        bounded1(ctmul(w, b), 2 * m),
{
    let t = TW_ONE as int;
    assert(-(t * m) <= w.0 * b.0 <= t * m && -(t * m) <= w.1 * b.1 <= t * m && -(t * m) <= w.0 * b.1
        <= t * m && -(t * m) <= w.1 * b.0 <= t * m) by (nonlinear_arith)
        requires
            -t <= w.0 <= t,
            -t <= w.1 <= t,
            -m <= b.0 <= m,
            -m <= b.1 <= m,
            t >= 0,
            m >= 0,
    ;
    lemma_div_trunc_bound(w.0 * b.0 - w.1 * b.1, t, 2 * m);
    lemma_div_trunc_bound(w.0 * b.1 + w.1 * b.0, t, 2 * m);
}

/// Each level of the transform grows the value bound by at most 3x.
pub proof fn lemma_fft_spec_bound(
    x: Seq<(int, int)>,
    xoff: int,
    xstep: int,
    n: nat,
    tw: Seq<(int, int)>,
    twmul: int,
    b: int,
)
    requires
        n >= 1,
        is_pow2(n),
        0 <= xoff,
        1 <= xstep,
        xoff + (n - 1) * xstep < x.len(),
        b >= 0,
        all_bounded(x, b),
        all_bounded(tw, TW_ONE as int),
        1 <= twmul,
        n >= 2 ==> (n / 2 - 1) * twmul < tw.len(),
    ensures
        all_bounded(fft_spec(x, xoff, xstep, n, tw, twmul), pow3(lg(n)) * b),
    decreases n,
{
    let r = fft_spec(x, xoff, xstep, n, tw, twmul);
    if n == 1 {
        assert(r =~= seq![x[xoff]]);
        assert(bounded1(x[xoff], b));
        assert(pow3(lg(n)) * b == b) by (nonlinear_arith)
            requires
                pow3(lg(n)) == 1,
        ;
    } else {
        let h = (n / 2) as nat;
        assert(is_pow2(h));
        assert(h >= 1);
        assert(xoff + (h - 1) * (2 * xstep) < x.len()) by (nonlinear_arith)
            requires
                xoff + (n - 1) * xstep < x.len(),
                n >= 2,
                h == n / 2,
                n % 2 == 0,
                xstep >= 1,
        ;
        assert((xoff + xstep) + (h - 1) * (2 * xstep) < x.len()) by (nonlinear_arith)
            requires
                xoff + (n - 1) * xstep < x.len(),
                n >= 2,
                h == n / 2,
                n % 2 == 0,
                xstep >= 1,
        ;
        assert(h >= 2 ==> (h / 2 - 1) * (2 * twmul) < tw.len()) by (nonlinear_arith)
            requires
                n >= 2 ==> (n / 2 - 1) * twmul < tw.len(),
                n >= 2,
                h == n / 2,
                twmul >= 1,
        ;
        lemma_fft_spec_bound(x, xoff, 2 * xstep, h, tw, 2 * twmul, b);
        lemma_fft_spec_bound(x, xoff + xstep, 2 * xstep, h, tw, 2 * twmul, b);
        let e = fft_spec(x, xoff, 2 * xstep, h, tw, 2 * twmul);
        let o = fft_spec(x, xoff + xstep, 2 * xstep, h, tw, 2 * twmul);
        let bh = pow3(lg(h)) * b;
        assert(lg(n) == 1 + lg(h));
        assert(pow3(lg(n)) == 3 * pow3(lg(h)));
        lemma_pow3_pos(lg(h));
        assert(pow3(lg(n)) * b == 3 * bh) by (nonlinear_arith)
            requires
                pow3(lg(n)) == 3 * pow3(lg(h)),
                bh == pow3(lg(h)) * b,
        ;
        assert(bh >= 0) by (nonlinear_arith)
            requires
                pow3(lg(h)) >= 1,
                b >= 0,
                bh == pow3(lg(h)) * b,
        ;
        lemma_fft_spec_len(x, xoff, 2 * xstep, h, tw, 2 * twmul);
        lemma_fft_spec_len(x, xoff + xstep, 2 * xstep, h, tw, 2 * twmul);
        assert forall|k: int| 0 <= k < r.len() implies bounded1(#[trigger] r[k], 3 * bh) by {
            let j = if k < h {
                k
            } else {
                k - h
            };
            assert(0 <= j * twmul <= (h - 1) * twmul) by (nonlinear_arith)
                requires
                    0 <= j <= h - 1,
                    twmul >= 1,
            ;
            assert(j * twmul < tw.len());
            assert(bounded1(tw[j * twmul], TW_ONE as int));
            assert(bounded1(e[j], bh));
            assert(bounded1(o[j], bh));
            lemma_ctmul_bound(tw[j * twmul], o[j], bh);
            if k < h {
                assert(r[k] == cadd(e[j], ctmul(tw[j * twmul], o[j])));
            } else {
                assert(r[k] == csub(e[j], ctmul(tw[j * twmul], o[j])));
            }
        }
    }
}

/// The transform of an all-zero buffer is all zero, whatever the
/// twiddles hold.
pub proof fn lemma_fft_spec_zero(
    x: Seq<(int, int)>,
    xoff: int,
    xstep: int,
    n: nat,
    tw: Seq<(int, int)>,
    twmul: int,
)
    requires
        forall|i: int| 0 <= i < x.len() ==> #[trigger] x[i] == (0int, 0int),
        n >= 1,
        is_pow2(n),
        0 <= xoff,
        1 <= xstep,
        xoff + (n - 1) * xstep < x.len(),
    ensures
        forall|k: int|
            0 <= k < fft_spec(x, xoff, xstep, n, tw, twmul).len() ==> #[trigger] fft_spec(
                x,
                xoff,
                xstep,
                n,
                tw,
                twmul,
            )[k] == (0int, 0int),
    decreases n,
{
    let r = fft_spec(x, xoff, xstep, n, tw, twmul);
    if n <= 1 {
        assert(r =~= seq![x[xoff]]);
    } else {
        let h = (n / 2) as nat;
        assert(xoff + (h - 1) * (2 * xstep) < x.len()) by (nonlinear_arith)
            requires
                xoff + (n - 1) * xstep < x.len(),
                n >= 2,
                h == n / 2,
                n % 2 == 0,
                xstep >= 1,
        ;
        assert((xoff + xstep) + (h - 1) * (2 * xstep) < x.len()) by (nonlinear_arith)
            requires
                xoff + (n - 1) * xstep < x.len(),
                n >= 2,
                h == n / 2,
                n % 2 == 0,
                xstep >= 1,
        ;
        lemma_fft_spec_zero(x, xoff, 2 * xstep, h, tw, 2 * twmul);
        lemma_fft_spec_zero(x, xoff + xstep, 2 * xstep, h, tw, 2 * twmul);
        let e = fft_spec(x, xoff, 2 * xstep, h, tw, 2 * twmul);
        let o = fft_spec(x, xoff + xstep, 2 * xstep, h, tw, 2 * twmul);
        assert forall|k: int| 0 <= k < r.len() implies #[trigger] r[k] == (0int, 0int) by {
            let j = if k < h {
                k
            } else {
                k - h
            };
            assert(o[j] == (0int, 0int));
            assert(e[j] == (0int, 0int));
            let w = tw[j * twmul];
            assert(w.0 * 0 - w.1 * 0 == 0) by (nonlinear_arith);
            assert(w.0 * 0 + w.1 * 0 == 0) by (nonlinear_arith);
            assert(div_trunc(0, TW_ONE as int) == 0);
            assert(ctmul(w, (0int, 0int)) == (0int, 0int));
        }
    }
}

/// Q30 cosine and sine of pi / 2^l, from l half-angle steps: each step
/// takes cos(t/2) = sqrt((1 + cos t) / 2) and sin(t/2) = sqrt((1 - cos
/// t) / 2), with integer square roots.
pub open spec fn cos_sin_tw(l: nat) -> (int, int)
    decreases l,
{
    if l == 0 {
        (-(TWG_ONE as int), 0int)
    } else {
        let p = cos_sin_tw((l - 1) as nat);
        (
            sqrt_floor(((((TWG_ONE as int) + p.0) * (TWG_ONE as int)) / 2) as nat) as int,
            sqrt_floor(((((TWG_ONE as int) - p.0) * (TWG_ONE as int)) / 2) as nat) as int,
        )
    }
}

/// Complex product at the generation scale, truncating toward zero.
pub open spec fn cgmul(a: (int, int), b: (int, int)) -> (int, int) {
    (
        div_trunc(a.0 * b.0 - a.1 * b.1, TWG_ONE as int),
        div_trunc(a.0 * b.1 + a.1 * b.0, TWG_ONE as int),
    )
}

/// The unit twiddle of an n-point transform, exp(-2 pi i / n), in Q30:
/// the cosine and minus the sine of 2 pi / n == pi / 2^(lg n - 1).
pub open spec fn unit_tw(n: nat) -> (int, int) {
    let cs = cos_sin_tw((lg(n) - 1) as nat);
    (cs.0, -cs.1)
}

/// The k-th power of the unit twiddle in Q30.
pub open spec fn tw_pow(n: nat, k: nat) -> (int, int)
    decreases k,
{
    if k == 0 {
        ((TWG_ONE as int), 0int)
    } else {
        cgmul(tw_pow(n, (k - 1) as nat), unit_tw(n))
    }
}

/// The transform's twiddle table: the first n/2 powers of the unit
/// twiddle, rescaled from Q30 down to the transform scale.
pub open spec fn twiddles_spec(n: nat) -> Seq<(int, int)> {
    Seq::new(
        (n / 2) as nat,
        |k: int|
            {
                let w = tw_pow(n, k as nat);
                (div_trunc(w.0, 65536), div_trunc(w.1, 65536))
            },
    )
}

/// The half-angle values stay inside the Q30 unit circle, with
/// nonnegative sine.
pub proof fn lemma_cos_sin_tw_bound(l: nat)
    ensures
        -(TWG_ONE as int) <= cos_sin_tw(l).0 <= TWG_ONE as int,
        0 <= cos_sin_tw(l).1 <= TWG_ONE as int,
        cos_sin_tw(l).0 * cos_sin_tw(l).0 + cos_sin_tw(l).1 * cos_sin_tw(l).1 <= (TWG_ONE as int) * (
        TWG_ONE as int),
    decreases l,
{
    let g = TWG_ONE as int;
    if l == 0 {
        assert(g * g + 0 * 0 <= g * g) by (nonlinear_arith);
        assert(cos_sin_tw(l).0 * cos_sin_tw(l).0 + cos_sin_tw(l).1 * cos_sin_tw(l).1 == g * g + 0
            * 0) by (nonlinear_arith)
            requires
                cos_sin_tw(l) == (-g, 0int),
        ;
    } else {
        lemma_cos_sin_tw_bound((l - 1) as nat);
        let p = cos_sin_tw((l - 1) as nat);
        let ca = ((g + p.0) * g) / 2;
        let sa = ((g - p.0) * g) / 2;
        assert(0 <= (g + p.0) * g && (g + p.0) * g <= 2 * (g * g) && 0 <= (g - p.0) * g && (g - p.0)
            * g <= 2 * (g * g)) by (nonlinear_arith)
            requires
                -g <= p.0 <= g,
                g >= 1,
        ;
        let c = sqrt_floor(ca as nat) as int;
        let s = sqrt_floor(sa as nat) as int;
        crate::math::lemma_sqrt_floor(ca as nat);
        crate::math::lemma_sqrt_floor(sa as nat);
        assert(c * c <= ca && s * s <= sa);
        assert(ca + sa <= g * g);
        assert(c * c + s * s <= g * g);
        assert(c <= g && s <= g) by (nonlinear_arith)
            requires
                c * c <= g * g,
                s * s <= g * g,
                c >= 0,
                s >= 0,
                g >= 1,
                c * c + s * s <= g * g,
        ;
    }
}

/// A Q30 product of two values inside the unit circle stays inside it.
pub proof fn lemma_cgmul_norm(a: (int, int), b: (int, int))
    requires
        a.0 * a.0 + a.1 * a.1 <= (TWG_ONE as int) * (TWG_ONE as int),
        b.0 * b.0 + b.1 * b.1 <= (TWG_ONE as int) * (TWG_ONE as int),
    ensures
        cgmul(a, b).0 * cgmul(a, b).0 + cgmul(a, b).1 * cgmul(a, b).1 <= (TWG_ONE as int) * (
        TWG_ONE as int),
        bounded1(cgmul(a, b), TWG_ONE as int),
{
    let g = TWG_ONE as int;
    let x = a.0 * b.0 - a.1 * b.1;
    let y = a.0 * b.1 + a.1 * b.0;
    assert(a.0 * a.0 >= 0 && a.1 * a.1 >= 0 && b.0 * b.0 >= 0 && b.1 * b.1 >= 0)
        by (nonlinear_arith);
    let p = a.0 * b.0;
    let q = a.1 * b.1;
    let w = a.0 * b.1;
    let z = a.1 * b.0;
    assert(x * x == p * p - 2 * (p * q) + q * q) by (nonlinear_arith)
        requires
            x == p - q,
    ;
    assert(y * y == w * w + 2 * (w * z) + z * z) by (nonlinear_arith)
        requires
            y == w + z,
    ;
    assert(p * q == w * z) by (nonlinear_arith)
        requires
            p == a.0 * b.0,
            q == a.1 * b.1,
            w == a.0 * b.1,
            z == a.1 * b.0,
    ;
    let aa0 = a.0 * a.0;
    let aa1 = a.1 * a.1;
    let bb0 = b.0 * b.0;
    let bb1 = b.1 * b.1;
    assert((aa0 + aa1) * (bb0 + bb1) == aa0 * bb0 + aa0 * bb1 + aa1 * bb0 + aa1 * bb1)
        by (nonlinear_arith);
    assert(p * p == aa0 * bb0) by (nonlinear_arith)
        requires
            p == a.0 * b.0,
            aa0 == a.0 * a.0,
            bb0 == b.0 * b.0,
    ;
    assert(q * q == aa1 * bb1) by (nonlinear_arith)
        requires
            q == a.1 * b.1,
            aa1 == a.1 * a.1,
            bb1 == b.1 * b.1,
    ;
    assert(w * w == aa0 * bb1) by (nonlinear_arith)
        requires
            w == a.0 * b.1,
            aa0 == a.0 * a.0,
            bb1 == b.1 * b.1,
    ;
    assert(z * z == aa1 * bb0) by (nonlinear_arith)
        requires
            z == a.1 * b.0,
            aa1 == a.1 * a.1,
            bb0 == b.0 * b.0,
    ;
    assert(x * x + y * y == (a.0 * a.0 + a.1 * a.1) * (b.0 * b.0 + b.1 * b.1));
    assert((a.0 * a.0 + a.1 * a.1) * (b.0 * b.0 + b.1 * b.1) <= (g * g) * (g * g))
        by (nonlinear_arith)
        requires
            0 <= a.0 * a.0 + a.1 * a.1 <= g * g,
            0 <= b.0 * b.0 + b.1 * b.1 <= g * g,
    ;
    let u = cgmul(a, b).0;
    let v = cgmul(a, b).1;
    lemma_div_trunc_sq(x, g);
    lemma_div_trunc_sq(y, g);
    assert(u * u * (g * g) + v * v * (g * g) <= x * x + y * y);
    assert(u * u >= 0 && v * v >= 0) by (nonlinear_arith);
    assert(u * u + v * v <= g * g) by (nonlinear_arith)
        requires
            u * u * (g * g) + v * v * (g * g) <= (g * g) * (g * g),
            g >= 1,
            u * u >= 0,
            v * v >= 0,
    ;
    assert(-g <= u <= g && -g <= v <= g) by (nonlinear_arith)
        requires
            u * u + v * v <= g * g,
            g >= 1,
    ;
}

/// Every power of the unit twiddle stays inside the Q30 unit circle.
pub proof fn lemma_tw_pow_norm(n: nat, k: nat)
    ensures
        tw_pow(n, k).0 * tw_pow(n, k).0 + tw_pow(n, k).1 * tw_pow(n, k).1 <= (TWG_ONE as int) * (
        TWG_ONE as int),
        bounded1(tw_pow(n, k), TWG_ONE as int),
    decreases k,
{
    let g = TWG_ONE as int;
    if k == 0 {
        assert(g * g + 0 * 0 <= g * g && 0 * 0 == 0) by (nonlinear_arith);
    } else {
        lemma_tw_pow_norm(n, (k - 1) as nat);
        lemma_cos_sin_tw_bound((lg(n) - 1) as nat);
        let cs = cos_sin_tw((lg(n) - 1) as nat);
        let u = unit_tw(n);
        assert(u.0 * u.0 + u.1 * u.1 == cs.0 * cs.0 + cs.1 * cs.1) by (nonlinear_arith)
            requires
                u.0 == cs.0,
                u.1 == -cs.1,
        ;
        lemma_cgmul_norm(tw_pow(n, (k - 1) as nat), u);
    }
}

/// The rescaled twiddle table stays within the transform's unit.
pub proof fn lemma_twiddles_spec_bound(n: nat)
    ensures
        all_bounded(twiddles_spec(n), TW_ONE as int),
{
    assert forall|i: int|
        0 <= i < twiddles_spec(n).len() implies bounded1(
        #[trigger] twiddles_spec(n)[i],
        TW_ONE as int,
    ) by {
        lemma_tw_pow_norm(n, i as nat);
        let w = tw_pow(n, i as nat);
        assert((65536int) * (TW_ONE as int) == TWG_ONE as int) by (nonlinear_arith);
        lemma_div_trunc_bound(w.0, 65536, TW_ONE as int);
        lemma_div_trunc_bound(w.1, 65536, TW_ONE as int);
    }
}

fn cgmul_exec(a: Cpx, b: Cpx) -> (r: Cpx)
    requires
        bounded1(cview(a), TWG_ONE as int),
        bounded1(cview(b), TWG_ONE as int),
    ensures
        cview(r) == cgmul(cview(a), cview(b)),
{
    proof {
        let g = TWG_ONE as int;
        assert(-(g * g) <= a.re * b.re <= g * g && -(g * g) <= a.im * b.im <= g * g && -(g * g)
            <= a.re * b.im <= g * g && -(g * g) <= a.im * b.re <= g * g) by (nonlinear_arith)
            requires
                -g <= a.re <= g,
                -g <= a.im <= g,
                -g <= b.re <= g,
                -g <= b.im <= g,
        ;
    }
    let x = a.re * b.re - a.im * b.im;
    let y = a.re * b.im + a.im * b.re;
    Cpx { re: div_trunc_i64(x, TWG_ONE), im: div_trunc_i64(y, TWG_ONE) }
}

/// Generate the twiddle table of an n-point transform: the unit angle by
/// repeated half-angle square roots, then its powers by complex
/// products, rescaled to the transform scale.
fn gen_twiddles(n: usize) -> (tw: Vec<Cpx>)
    requires
        is_pow2(n as nat),
        2 <= n <= MAX_WINDOW,
    ensures
        tw@.len() == n / 2,
        cseq(tw@) == twiddles_spec(n as nat),
        all_bounded(cseq(tw@), TW_ONE as int),
{
    let mut c: i64 = -TWG_ONE;
    let mut s: i64 = 0;
    let mut m: usize = n;
    while m > 2
        invariant
            is_pow2(m as nat),
            is_pow2(n as nat),
            2 <= m <= n,
            lg(m as nat) <= lg(n as nat),
            (c as int, s as int) == cos_sin_tw((lg(n as nat) - lg(m as nat)) as nat),
            -TWG_ONE <= c <= TWG_ONE,
            0 <= s <= TWG_ONE,
        decreases m,
    {
        let ghost l = (lg(n as nat) - lg(m as nat)) as nat;
        let ca = (TWG_ONE + c) * TWG_ONE / 2;
        let sa = (TWG_ONE - c) * TWG_ONE / 2;
        proof {
            let g = TWG_ONE as int;
            assert(0 <= (g + c) * g <= 2 * (g * g) && 0 <= (g - c) * g <= 2 * (g * g))
                by (nonlinear_arith)
                requires
                    -g <= c <= g,
                    g >= 1,
            ;
        }
        let c2 = isqrt(ca as u128);
        let s2 = isqrt(sa as u128);
        proof {
            let g = TWG_ONE as int;
            assert(c2 as int <= g && s2 as int <= g) by (nonlinear_arith)
                requires
                    (c2 as int) * (c2 as int) <= ca,
                    (s2 as int) * (s2 as int) <= sa,
                    ca <= g * g,
                    sa <= g * g,
                    c2 >= 0,
                    s2 >= 0,
                    g >= 1,
            ;
            assert(cos_sin_tw((l + 1) as nat) == (c2 as int, s2 as int));
            assert(lg((m / 2) as nat) + 1 == lg(m as nat));
            lemma_lg_mono((m / 2) as nat, n as nat);
        }
        c = c2 as i64;
        s = s2 as i64;
        m = m / 2;
    }
    assert(m == 2);
    assert(lg(2) == 1) by {
        reveal_with_fuel(lg, 3);
    }
    let unit = Cpx { re: c, im: -s };
    proof {
        assert((lg(n as nat) - lg(2)) as nat == (lg(n as nat) - 1) as nat);
        assert(cview(unit) == unit_tw(n as nat));
        lemma_cos_sin_tw_bound((lg(n as nat) - 1) as nat);
        let cs = cos_sin_tw((lg(n as nat) - 1) as nat);
        assert(unit.re as int * (unit.re as int) + unit.im as int * (unit.im as int) == cs.0 * cs.0
            + cs.1 * cs.1) by (nonlinear_arith)
            requires
                unit.re as int == cs.0,
                unit.im as int == -cs.1,
        ;
    }
    let half = n / 2;
    let mut tw: Vec<Cpx> = Vec::new();
    let mut cur = Cpx { re: TWG_ONE, im: 0 };
    proof {
        assert(cview(cur) == tw_pow(n as nat, 0));
    }
    let mut k: usize = 0;
    while k < half
        invariant
            half == n / 2,
            2 <= n,
            is_pow2(n as nat),
            0 <= k <= half,
            tw@.len() == k,
            cview(cur) == tw_pow(n as nat, k as nat),
            cview(unit) == unit_tw(n as nat),
            unit.re as int * (unit.re as int) + unit.im as int * (unit.im as int) <= (
            TWG_ONE as int) * (TWG_ONE as int),
            forall|j: int| 0 <= j < k ==> #[trigger] cseq(tw@)[j] == twiddles_spec(n as nat)[j],
        decreases half - k,
    {
        proof {
            lemma_tw_pow_norm(n as nat, k as nat);
            assert((65536int) * (TW_ONE as int) == TWG_ONE as int) by (nonlinear_arith);
            lemma_div_trunc_bound(cur.re as int, 65536, TW_ONE as int);
            lemma_div_trunc_bound(cur.im as int, 65536, TW_ONE as int);
        }
        let ghost old_tw = tw@;
        tw.push(Cpx { re: div_trunc_i64(cur.re, 65536), im: div_trunc_i64(cur.im, 65536) });
        proof {
            assert(cseq(tw@)[k as int] == twiddles_spec(n as nat)[k as int]);
            assert(forall|j: int| 0 <= j < k ==> #[trigger] cseq(tw@)[j] == cseq(old_tw)[j]);
        }
        proof {
            let g = TWG_ONE as int;
            let w = tw_pow(n as nat, k as nat);
            assert(-g <= unit.re <= g && -g <= unit.im <= g) by (nonlinear_arith)
                requires
                    unit.re as int * (unit.re as int) + unit.im as int * (unit.im as int) <= g * g,
                    g >= 1,
            ;
        }
        cur = cgmul_exec(cur, unit);
        k += 1;
    }
    proof {
        assert(cseq(tw@) =~= twiddles_spec(n as nat));
        lemma_twiddles_spec_bound(n as nat);
    }
    tw
}

fn ctmul_exec(w: &Cpx, b: &Cpx, Ghost(m): Ghost<int>) -> (r: Cpx)
    requires
        bounded1(cview(*w), TW_ONE as int),
        bounded1(cview(*b), m),
        0 <= m,
        2 * m <= VAL_CAP as int,
    ensures
        cview(r) == ctmul(cview(*w), cview(*b)),
        bounded1(cview(r), 2 * m),
{
    proof {
        let t = TW_ONE as int;
        assert(-(t * m) <= w.re * b.re <= t * m && -(t * m) <= w.im * b.im <= t * m && -(t * m)
            <= w.re * b.im <= t * m && -(t * m) <= w.im * b.re <= t * m) by (nonlinear_arith)
            requires
                -t <= w.re <= t,
                -t <= w.im <= t,
                -m <= b.re <= m,
                -m <= b.im <= m,
                t >= 0,
                m >= 0,
        ;
        assert(t * m <= t * (VAL_CAP as int)) by (nonlinear_arith)
            requires
                0 <= m,
                2 * m <= VAL_CAP as int,
                t >= 1,
        ;
        lemma_div_trunc_bound(w.re as int * (b.re as int) - w.im as int * (b.im as int), t, 2 * m);
        lemma_div_trunc_bound(w.re as int * (b.im as int) + w.im as int * (b.re as int), t, 2 * m);
    }
    let x = w.re * b.re - w.im * b.im;
    let y = w.re * b.im + w.im * b.re;
    Cpx { re: div_trunc_i64(x, TW_ONE), im: div_trunc_i64(y, TW_ONE) }
}

/// One level of the transform: read the n strided entries of x, write
/// their transform into y[yoff .. yoff + n]. The rest of y is untouched.
#[verifier::rlimit(60)]
fn fft_rec(
    x: &Vec<Cpx>,
    xoff: usize,
    xstep: usize,
    y: &mut Vec<Cpx>,
    yoff: usize,
    n: usize,
    tw: &Vec<Cpx>,
    twmul: usize,
)
    requires
        is_pow2(n as nat),
        1 <= xstep,
        n * xstep <= MAX_WINDOW,
        xoff + (n - 1) * xstep < x@.len(),
        1 <= twmul,
        n * twmul <= 2 * MAX_WINDOW,
        n >= 2 ==> (n / 2 - 1) * twmul < tw@.len(),
        yoff + n <= old(y)@.len(),
        all_bounded(cseq(x@), AMP_ONE as int),
        all_bounded(cseq(tw@), TW_ONE as int),
        pow3(lg(n as nat)) * (AMP_ONE as int) <= VAL_CAP as int,
    ensures
        final(y)@.len() == old(y)@.len(),
        forall|k: int|
            0 <= k < n ==> cview(#[trigger] final(y)@[yoff + k]) == fft_spec(
                cseq(x@),
                xoff as int,
                xstep as int,
                n as nat,
                cseq(tw@),
                twmul as int,
            )[k],
        forall|i: int|
            0 <= i < old(y)@.len() && !(yoff <= i < yoff + n) ==> final(y)@[i] == old(y)@[i],
    decreases n,
{
    let ghost spec_out = fft_spec(
        cseq(x@),
        xoff as int,
        xstep as int,
        n as nat,
        cseq(tw@),
        twmul as int,
    );
    if n <= 1 {
        y.set(yoff, x[xoff]);
        assert(spec_out =~= seq![cseq(x@)[xoff as int]]);
        return ;
    }
    let h = n / 2;
    proof {
        assert(xoff + (h - 1) * (2 * xstep) < x@.len() && (xoff + xstep) + (h - 1) * (2 * xstep)
            < x@.len() && (h >= 2 ==> (h / 2 - 1) * (2 * twmul) < tw@.len()) && h * (2 * xstep) == n
            * xstep && h * (2 * twmul) == n * twmul && xstep <= (n - 1) * xstep && twmul <= n
            * twmul && 2 * xstep <= n * xstep && 2 * twmul <= n * twmul) by (nonlinear_arith)
            requires
                xoff + (n - 1) * xstep < x@.len(),
                n >= 2,
                h == n / 2,
                n % 2 == 0,
                xstep >= 1,
                twmul >= 1,
                n >= 2 ==> (n / 2 - 1) * twmul < tw@.len(),
        ;
        assert(lg(n as nat) == 1 + lg(h as nat));
        assert(pow3(lg(h as nat)) * (AMP_ONE as int) <= VAL_CAP as int) by (nonlinear_arith)
            requires
                pow3(lg(n as nat)) == 3 * pow3(lg(h as nat)),
                pow3(lg(n as nat)) * (AMP_ONE as int) <= VAL_CAP as int,
                pow3(lg(h as nat)) >= 0,
                AMP_ONE >= 1,
        ;
    }
    let ylen = y.len();
    let twlen = tw.len();
    let xlen = x.len();
    assert(yoff + n <= ylen);
    assert(xoff + (n - 1) * xstep < xlen);
    fft_rec(x, xoff, 2 * xstep, y, yoff, h, tw, 2 * twmul);
    fft_rec(x, xoff + xstep, 2 * xstep, y, yoff + h, h, tw, 2 * twmul);
    proof {
        lemma_fft_spec_len(cseq(x@), xoff as int, xstep as int, n as nat, cseq(tw@), twmul as int);
    }
    let ghost e = fft_spec(
        cseq(x@),
        xoff as int,
        2 * xstep as int,
        h as nat,
        cseq(tw@),
        2 * twmul as int,
    );
    let ghost o = fft_spec(
        cseq(x@),
        xoff + xstep as int,
        2 * xstep as int,
        h as nat,
        cseq(tw@),
        2 * twmul as int,
    );
    let ghost bh = pow3(lg(h as nat)) * (AMP_ONE as int);
    let ghost y_mid = y@;
    proof {
        lemma_fft_spec_len(cseq(x@), xoff as int, 2 * xstep as int, h as nat, cseq(tw@), 2 * twmul);
        lemma_fft_spec_len(
            cseq(x@),
            xoff + xstep as int,
            2 * xstep as int,
            h as nat,
            cseq(tw@),
            2 * twmul,
        );
        lemma_fft_spec_bound(
            cseq(x@),
            xoff as int,
            2 * xstep as int,
            h as nat,
            cseq(tw@),
            2 * twmul,
            AMP_ONE as int,
        );
        lemma_fft_spec_bound(
            cseq(x@),
            xoff + xstep as int,
            2 * xstep as int,
            h as nat,
            cseq(tw@),
            2 * twmul,
            AMP_ONE as int,
        );
        crate::math::lemma_pow3_pos(lg(h as nat));
        assert(bh >= 0 && 3 * bh == pow3(lg(n as nat)) * (AMP_ONE as int)) by (nonlinear_arith)
            requires
                bh == pow3(lg(h as nat)) * (AMP_ONE as int),
                pow3(lg(n as nat)) == 3 * pow3(lg(h as nat)),
                pow3(lg(h as nat)) >= 1,
                AMP_ONE >= 1,
        ;
        assert(spec_out == Seq::new(
            n as nat,
            |kk: int|
                (if kk < h as int {
                    cadd(e[kk], ctmul(cseq(tw@)[kk * (twmul as int)], o[kk]))
                } else {
                    csub(e[kk - h], ctmul(cseq(tw@)[(kk - h) * (twmul as int)], o[kk - h]))
                }),
        ));
    }
    let mut k: usize = 0;
    while k < h
        invariant
            0 <= k <= h,
            h == n / 2,
            n >= 2,
            h >= 1,
            yoff + n <= y@.len(),
            y@.len() == y_mid.len(),
            twmul >= 1,
            y@.len() == ylen,
            tw@.len() == twlen,
            h >= 1 ==> (h - 1) * twmul < tw@.len(),
            all_bounded(cseq(tw@), TW_ONE as int),
            e.len() == h,
            o.len() == h,
            all_bounded(e, bh),
            all_bounded(o, bh),
            0 <= bh,
            3 * bh <= VAL_CAP as int,
            spec_out == fft_spec(
                cseq(x@),
                xoff as int,
                xstep as int,
                n as nat,
                cseq(tw@),
                twmul as int,
            ),
            spec_out.len() == n,
            forall|j: int|
                0 <= j < h ==> #[trigger] spec_out[j] == cadd(
                    e[j],
                    ctmul(cseq(tw@)[j * (twmul as int)], o[j]),
                ),
            forall|j: int|
                0 <= j < h ==> #[trigger] spec_out[h + j] == csub(
                    e[j],
                    ctmul(cseq(tw@)[j * (twmul as int)], o[j]),
                ),
            forall|j: int| k <= j < h ==> cview(#[trigger] y@[yoff + j]) == e[j],
            forall|j: int| k <= j < h ==> cview(#[trigger] y@[yoff + h + j]) == o[j],
            forall|j: int| 0 <= j < k ==> cview(#[trigger] y@[yoff + j]) == spec_out[j],
            forall|j: int| 0 <= j < k ==> cview(#[trigger] y@[yoff + h + j]) == spec_out[h + j],
            forall|i: int| 0 <= i < y@.len() && !(yoff <= i < yoff + n) ==> y@[i] == y_mid[i],
        decreases h - k,
    {
        proof {
            assert(0 <= k * twmul <= (h - 1) * twmul) by (nonlinear_arith)
                requires
                    0 <= k <= h - 1,
                    twmul >= 1,
            ;
        }
        let wt = tw[k * twmul];
        let ok = y[yoff + h + k];
        let ek = y[yoff + k];
        proof {
            assert(cview(ek) == e[k as int] && cview(ok) == o[k as int]);
            assert(bounded1(e[k as int], bh) && bounded1(o[k as int], bh));
            assert(bounded1(cseq(tw@)[k * twmul], TW_ONE as int));
            assert(cview(wt) == cseq(tw@)[k * twmul]);
        }
        let t = ctmul_exec(&wt, &ok, Ghost(bh));
        y.set(yoff + k, Cpx { re: ek.re + t.re, im: ek.im + t.im });
        y.set(yoff + h + k, Cpx { re: ek.re - t.re, im: ek.im - t.im });
        k += 1;
    }
    proof {
        lemma_fft_spec_len(cseq(x@), xoff as int, xstep as int, n as nat, cseq(tw@), twmul as int);
        assert forall|kk: int| 0 <= kk < n implies cview(#[trigger] y@[yoff + kk]) == spec_out[kk] by {
            if kk < h {
                assert(cview(y@[yoff + kk]) == spec_out[kk]);
            } else {
                let j = kk - h;
                assert(cview(y@[yoff + h + j]) == spec_out[h + j]);
                assert(yoff + h + j == yoff + kk);
            }
        }
    }
}

/// s extended with zeros up to length n.
pub open spec fn pad_zero(s: Seq<(int, int)>, n: nat) -> Seq<(int, int)> {
    Seq::new(
        n,
        |i: int|
            if 0 <= i < s.len() {
                s[i]
            } else {
                (0int, 0int)
            },
    )
}

/// Between two powers of two there is at least a factor of two.
proof fn lemma_pow2_gap(a: nat, b: nat)
    requires
        is_pow2(a),
        is_pow2(b),
        a < b,
    ensures
        2 * a <= b,
    decreases b,
{
    if a > 1 {
        lemma_pow2_gap(a / 2, b / 2);
    }
}

/// The smallest power of two that holds len samples.
pub fn next_pow2(len: usize) -> (p: usize)
    requires
        1 <= len <= MAX_WINDOW,
    ensures
        is_pow2(p as nat),
        len <= p,
        p < 2 * len,
        p <= MAX_WINDOW,
{
    proof {
        assert(is_pow2(MAX_WINDOW as nat)) by {
            reveal_with_fuel(is_pow2, 22);
        }
    }
    let mut p: usize = 1;
    while p < len
        invariant
            1 <= p,
            is_pow2(p as nat),
            p < 2 * len,
            len <= MAX_WINDOW,
            p <= MAX_WINDOW,
            is_pow2(MAX_WINDOW as nat),
        decreases 2 * len - p,
    {
        proof {
            if p < MAX_WINDOW {
                lemma_pow2_gap(p as nat, MAX_WINDOW as nat);
            }
        }
        p = p * 2;
    }
    p
}

/// Any window within the size limit keeps the transform's value growth
/// under the i64 headroom.
pub proof fn lemma_window_cap(n: nat)
    requires
        n <= MAX_WINDOW as nat,
    ensures
        pow3(lg(n)) * (AMP_ONE as int) <= VAL_CAP as int,
{
    assert(lg(MAX_WINDOW as nat) == 20) by {
        reveal_with_fuel(lg, 22);
    }
    lemma_lg_mono(n, MAX_WINDOW as nat);
    lemma_pow3_mono(lg(n), 20);
    assert(pow3(20) == 3486784401) by {
        reveal_with_fuel(pow3, 22);
    }
    assert(pow3(lg(n)) * (AMP_ONE as int) <= VAL_CAP as int) by (nonlinear_arith)
        requires
            pow3(lg(n)) <= 3486784401,
            pow3(lg(n)) >= 0,
            AMP_ONE == 16384,
            VAL_CAP == 0x4000_0000_0000i64,
    ;
}

/// The transform of a window: the samples are zero-padded up to the
/// next power of two and transformed with internally generated
/// twiddles. The result length is that padded length.
pub fn fft(samples: &Vec<Cpx>) -> (r: Vec<Cpx>)
    requires
        1 <= samples@.len() <= MAX_WINDOW,
        all_bounded(cseq(samples@), AMP_ONE as int),
    ensures
        is_pow2(r@.len() as nat),
        samples@.len() <= r@.len() < 2 * samples@.len(),
        r@.len() <= MAX_WINDOW,
        cseq(r@) == fft_spec(
            pad_zero(cseq(samples@), r@.len() as nat),
            0,
            1,
            r@.len() as nat,
            twiddles_spec(r@.len() as nat),
            1,
        ),
{
    let n = samples.len();
    let n2 = next_pow2(n);
    let mut x: Vec<Cpx> = Vec::new();
    let mut i: usize = 0;
    while i < n
        invariant
            0 <= i <= n,
            n == samples@.len(),
            x@.len() == i,
            forall|j: int| 0 <= j < i ==> x@[j] == samples@[j],
        decreases n - i,
    {
        x.push(samples[i]);
        i += 1;
    }
    while x.len() < n2
        invariant
            n <= x@.len() <= n2,
            n == samples@.len(),
            forall|j: int| 0 <= j < n ==> x@[j] == samples@[j],
            forall|j: int| n <= j < x@.len() ==> x@[j] == (Cpx { re: 0i64, im: 0i64 }),
        decreases n2 - x@.len(),
    {
        x.push(Cpx { re: 0, im: 0 });
    }
    proof {
        assert(cseq(x@) =~= pad_zero(cseq(samples@), n2 as nat));
        assert(all_bounded(cseq(x@), AMP_ONE as int));
    }
    if n2 == 1 {
        proof {
            assert(fft_spec(cseq(x@), 0, 1, 1nat, twiddles_spec(1nat), 1) =~= seq![cseq(x@)[0]]);
            assert(cseq(x@) =~= seq![cseq(x@)[0]]);
        }
        return x;
    }
    let tw = gen_twiddles(n2);
    let mut y: Vec<Cpx> = Vec::new();
    while y.len() < n2
        invariant
            y@.len() <= n2,
        decreases n2 - y@.len(),
    {
        y.push(Cpx { re: 0, im: 0 });
    }
    proof {
        assert((n2 - 1) * 1 == n2 - 1 && (n2 / 2 - 1) * 1 == n2 / 2 - 1 && n2 * 1 == n2)
            by (nonlinear_arith);
        lemma_window_cap(n2 as nat);
    }
    fft_rec(&x, 0, 1, &mut y, 0, n2, &tw, 1);
    proof {
        lemma_fft_spec_len(cseq(x@), 0, 1, n2 as nat, cseq(tw@), 1);
        assert forall|kk: int| 0 <= kk < n2 implies cseq(y@)[kk] == fft_spec(
            cseq(x@),
            0,
            1,
            n2 as nat,
            cseq(tw@),
            1,
        )[kk] by {
            assert(cview(y@[0 + kk]) == fft_spec(cseq(x@), 0, 1, n2 as nat, cseq(tw@), 1)[kk]);
        }
        assert(cseq(y@) =~= fft_spec(cseq(x@), 0, 1, n2 as nat, cseq(tw@), 1));
    }
    y
}

} // verus!
