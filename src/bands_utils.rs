//! Integer helpers of band decoding: bit-exact trigonometry, the theta resolution and its
//! decoding, pulse counts and the folding estimate.
use vstd::prelude::*;
use crate::consts::BANDS;
use crate::entdec::EntropyCoder;
use crate::utils::{p2, ilog, lemma_p2_pos, lemma_p2_mono, lemma_p2_values, lemma_ilog_bounds,
    lemma_ilog_le, pow2_u32, ec_ilog};

verus! {

/// The spread setting that disables folding from lower bands.
pub const SPREAD_AGGRESSIVE: i32 = 3;

/// `floor(x / 2^s)`, as an arithmetic right shift computes it.
pub fn shr_floor(x: i32, s: u32) -> (r: i32)
    requires
        s <= 30,
    ensures
        r == (x as int) / (p2(s as nat) as int),
        x >= 0 ==> 0 <= r <= x,
        x < 0 ==> x <= r < 0,
{
    proof {
        lemma_p2_values();
        lemma_p2_mono(s as nat, 30);
        lemma_p2_pos(s as nat);
        reveal_with_fuel(p2, 31);
    }
    let p = pow2_u32(s) as i64;
    let xi = x as i64;
    if xi >= 0 {
        (xi / p) as i32
    } else {
        let m = -xi;
        let c = (m + p - 1) / p;
        proof {
            let pi = p as int;
            let mi = m as int;
            let ci = c as int;
            vstd::arithmetic::div_mod::lemma_fundamental_div_mod(mi + pi - 1, pi);
            vstd::arithmetic::div_mod::lemma_mod_bound(mi + pi - 1, pi);
            assert(pi * ci <= mi + pi - 1 < pi * ci + pi);
            assert((-ci) * pi == -(pi * ci)) by (nonlinear_arith);
            vstd::arithmetic::div_mod::lemma_fundamental_div_mod_converse(
                x as int,
                pi,
                -ci,
                x as int - (-ci) * pi,
            );
            assert(ci <= mi) by (nonlinear_arith)
                requires
                    pi * ci <= mi + pi - 1,
                    pi >= 1,
                    mi >= 1,
            ;
        }
        (-c) as i32
    }
}

/// `(16384 + a * b) >> 15`: a Q15 product, rounded.
pub open spec fn frac_mul16_spec(a: int, b: int) -> int {
    (16384 + a * b) / 32768
}

/// A Q15 product, rounded: `(16384 + a * b) >> 15`.
pub fn frac_mul16(a: i32, b: i32) -> (r: i32)
    requires
        i32::MIN <= a * b,
        a * b + 16384 <= i32::MAX,
    ensures
        r == frac_mul16_spec(a as int, b as int),
{
    proof {
        lemma_p2_values();
        reveal_with_fuel(p2, 16);
    }
    shr_floor(16384 + a * b, 15)
}

/// The pulse count of the `i`-th entry of a pulse cache: `i` below eight, then eight
/// steps per octave.
pub open spec fn pulses_of(i: int) -> int {
    if i < 8 {
        i
    } else {
        (8 + i % 8) * p2((i / 8 - 1) as nat)
    }
}

/// The pulse count of the `i`-th entry of a pulse cache.
pub fn get_pulses(i: usize) -> (r: usize)
    requires
        i < 208,
    ensures
        r == pulses_of(i as int),
{
    if i < 8 {
        i
    } else {
        proof {
            lemma_p2_values();
            lemma_p2_mono((i / 8 - 1) as nat, 24);
        }
        let p = pow2_u32((i / 8 - 1) as u32);
        assert(p <= 0x100_0000);
        assert((8 + i % 8) * p <= 16 * 0x100_0000) by (nonlinear_arith)
            requires
                p <= 0x100_0000,
                8 + i % 8 <= 16,
        ;
        (8 + i % 8) * p as usize
    }
}

/// The polynomial of `bitexact_cos` on `t = (4096 + x^2) >> 13`.
pub open spec fn cos_poly(t: int) -> int {
    32767 - t + frac_mul16_spec(
        t,
        -7651 + frac_mul16_spec(t, 8277 + frac_mul16_spec(-626, t)),
    )
}

/// `cos(pi/2 * x / 16384)` in Q15, bit-exact.
pub open spec fn cos_spec(x: int) -> int {
    if x == 0 {
        32767
    } else if x == 16384 {
        0
    } else {
        1 + cos_poly((4096 + x * x) / 8192)
    }
}

/// The bit-exact cosine is non-negative on the coded angles: on `t = (4096 + x^2) >> 13`
/// for `64 <= x < 16384`.
proof fn lemma_cos_poly_nonneg(t: int)
    requires
        1 <= t <= 32764,
    ensures
        cos_poly(t) >= -1,
{
    let c = frac_mul16_spec(-626, t);
    let b1 = 8277 + c;
    let d = frac_mul16_spec(t, b1);
    let a1 = -7651 + d;
    let e = frac_mul16_spec(t, a1);
    assert(cos_poly(t) == 32767 - t + e);
    if 32749 <= t {
        vstd::arithmetic::div_mod::lemma_div_is_ordered(-20493880int, 16384 - 626 * t, 32768);
        assert(c >= -626);
        assert(t * b1 >= 32749 * 7651) by (nonlinear_arith)
            requires
                32749 <= t,
                b1 >= 7651,
        ;
        vstd::arithmetic::div_mod::lemma_div_is_ordered(250578983int, 16384 + t * b1, 32768);
        assert(d >= 7647);
        assert(t * a1 >= -131056) by (nonlinear_arith)
            requires
                32749 <= t <= 32764,
                a1 >= -4,
        ;
        vstd::arithmetic::div_mod::lemma_div_is_ordered(-114672int, 16384 + t * a1, 32768);
        assert(e >= -4);
    } else if 32681 <= t {
        vstd::arithmetic::div_mod::lemma_div_is_ordered(-20483864int, 16384 - 626 * t, 32768);
        assert(c >= -626);
        assert(t * b1 >= 32681 * 7651) by (nonlinear_arith)
            requires
                32681 <= t,
                b1 >= 7651,
        ;
        vstd::arithmetic::div_mod::lemma_div_is_ordered(250058715int, 16384 + t * b1, 32768);
        assert(d >= 7631);
        assert(t * a1 >= -654960) by (nonlinear_arith)
            requires
                32681 <= t <= 32748,
                a1 >= -20,
        ;
        vstd::arithmetic::div_mod::lemma_div_is_ordered(-638576int, 16384 + t * a1, 32768);
        assert(e >= -20);
    } else if 32381 <= t {
        vstd::arithmetic::div_mod::lemma_div_is_ordered(-20441296int, 16384 - 626 * t, 32768);
        assert(c >= -624);
        assert(t * b1 >= 32381 * 7653) by (nonlinear_arith)
            requires
                32381 <= t,
                b1 >= 7653,
        ;
        vstd::arithmetic::div_mod::lemma_div_is_ordered(247828177int, 16384 + t * b1, 32768);
        assert(d >= 7563);
        assert(t * a1 >= -2875840) by (nonlinear_arith)
            requires
                32381 <= t <= 32680,
                a1 >= -88,
        ;
        vstd::arithmetic::div_mod::lemma_div_is_ordered(-2859456int, 16384 + t * a1, 32768);
        assert(e >= -88);
    } else if 31055 <= t {
        vstd::arithmetic::div_mod::lemma_div_is_ordered(-20253496int, 16384 - 626 * t, 32768);
        assert(c >= -619);
        assert(t * b1 >= 31055 * 7658) by (nonlinear_arith)
            requires
                31055 <= t,
                b1 >= 7658,
        ;
        vstd::arithmetic::div_mod::lemma_div_is_ordered(237835574int, 16384 + t * b1, 32768);
        assert(d >= 7258);
        assert(t * a1 >= -12725340) by (nonlinear_arith)
            requires
                31055 <= t <= 32380,
                a1 >= -393,
        ;
        vstd::arithmetic::div_mod::lemma_div_is_ordered(-12708956int, 16384 + t * a1, 32768);
        assert(e >= -388);
    } else if 24911 <= t {
        vstd::arithmetic::div_mod::lemma_div_is_ordered(-19423420int, 16384 - 626 * t, 32768);
        assert(c >= -593);
        assert(t * b1 >= 24911 * 7684) by (nonlinear_arith)
            requires
                24911 <= t,
                b1 >= 7684,
        ;
        vstd::arithmetic::div_mod::lemma_div_is_ordered(191432508int, 16384 + t * b1, 32768);
        assert(d >= 5842);
        assert(t * a1 >= -56176686) by (nonlinear_arith)
            requires
                24911 <= t <= 31054,
                a1 >= -1809,
        ;
        vstd::arithmetic::div_mod::lemma_div_is_ordered(-56160302int, 16384 + t * a1, 32768);
        assert(e >= -1714);
    } else if 1 <= t {
        vstd::arithmetic::div_mod::lemma_div_is_ordered(-15577276int, 16384 - 626 * t, 32768);
        assert(c >= -476);
        assert(t * b1 >= 1 * 7801) by (nonlinear_arith)
            requires
                1 <= t,
                b1 >= 7801,
        ;
        vstd::arithmetic::div_mod::lemma_div_is_ordered(24185int, 16384 + t * b1, 32768);
        assert(d >= 0);
        assert(t * a1 >= -190586410) by (nonlinear_arith)
            requires
                1 <= t <= 24910,
                a1 >= -7651,
        ;
        vstd::arithmetic::div_mod::lemma_div_is_ordered(-190570026int, 16384 + t * a1, 32768);
        assert(e >= -5816);
    }
}


/// The bit-exact cosine of the band splits: `cos(pi/2 * x / 16384)` in Q15. Angles
/// strictly between `0` and `64` are not coded (they fall below the finest resolution).
pub fn bitexact_cos(x: i16) -> (r: i16)
    requires
        0 <= x <= 16384,
        x == 0 || x >= 64,
    ensures
        r == cos_spec(x as int),
        x == 0 ==> r == 32767,
        x == 16384 ==> r == 0,
        0 <= r <= 32767,
{
    if x == 0 {
        return 32767;
    }
    if x == 16384 {
        return 0;
    }
    let xi = x as i32;
    assert(64 * 64 <= xi * xi <= 16383 * 16383) by (nonlinear_arith)
        requires
            64 <= xi <= 16383,
    ;
    let t: i32 = (4096 + xi * xi) / 8192;
    assert(1 <= t <= 32764);
    assert(-626 * 32764 <= -626 * t <= -626) by (nonlinear_arith)
        requires
            1 <= t <= 32764,
    ;
    let c = frac_mul16(-626, t);
    assert(-626 <= c <= 0);
    let b1 = 8277 + c;
    assert(0 <= t * b1 <= 32764 * 8277) by (nonlinear_arith)
        requires
            1 <= t <= 32764,
            7651 <= b1 <= 8277,
    ;
    let d = frac_mul16(t, b1);
    assert(0 <= d <= 8277);
    let a1 = -7651 + d;
    assert(-7651 * 32764 <= t * a1 <= 626 * 32764) by (nonlinear_arith)
        requires
            1 <= t <= 32764,
            -7651 <= a1 <= 626,
    ;
    assert(16384 + t * a1 < 32768 * t) by (nonlinear_arith)
        requires
            1 <= t <= 32764,
            -7651 <= a1 <= 626,
    ;
    let e = frac_mul16(t, a1);
    assert(e <= t - 1);
    assert(e >= -7651);
    proof {
        lemma_cos_poly_nonneg(t as int);
    }
    let x2 = 32767 - t + e;
    (1 + x2) as i16
}

/// `log2(isin / icos)` in Q11, bit-exact.
pub open spec fn log2tan_spec(isin: int, icos: int) -> int {
    if isin == 0 {
        -32768
    } else if icos == 0 {
        32768
    } else {
        let lc = ilog(icos as nat);
        let ls = ilog(isin as nat);
        let c = icos * p2((15 - lc) as nat);
        let s = isin * p2((15 - ls) as nat);
        (ls - lc) * 2048 + frac_mul16_spec(s, frac_mul16_spec(s, -2597) + 7932) - frac_mul16_spec(
            c,
            frac_mul16_spec(c, -2597) + 7932,
        )
    }
}

proof fn lemma_normalise15(v: int)
    requires
        1 <= v <= 32767,
    ensures
        1 <= ilog(v as nat) <= 15,
        16384 <= v * p2((15 - ilog(v as nat)) as nat) <= 32767,
        p2((15 - ilog(v as nat)) as nat) <= 16384,
{
    lemma_p2_values();
    lemma_ilog_le(v as nat, 15);
    lemma_ilog_bounds(v as nat);
    let l = ilog(v as nat);
    crate::utils::lemma_p2_adds((l - 1) as nat, (15 - l) as nat);
    crate::utils::lemma_p2_adds(l, (15 - l) as nat);
    lemma_p2_mono((15 - l) as nat, 14);
    reveal_with_fuel(p2, 15);
    let m = p2((15 - l) as nat) as int;
    assert(p2((l - 1) as nat) * m <= v * m) by (nonlinear_arith)
        requires
            p2((l - 1) as nat) <= v,
            m >= 1,
    ;
    assert(v * m < p2(l) * m) by (nonlinear_arith)
        requires
            v < p2(l),
            m >= 1,
    ;
}

/// `log2(isin / icos)` in Q11, bit-exact: each argument is scaled to Q15 and its
/// mantissa's logarithm approximated by a quadratic.
pub fn bitexact_log2tan(isin: i32, icos: i32) -> (r: i32)
    requires
        0 <= isin <= 32767,
        0 <= icos <= 32767,
    ensures
        r == log2tan_spec(isin as int, icos as int),
        isin == 0 ==> r == -32768,
        0 < isin && isin == icos ==> r == 0,
        -40000 <= r <= 40000,
{
    if isin == 0 {
        return -32768;
    }
    if icos == 0 {
        return 32768;
    }
    let lc = ec_ilog(icos as u32);
    let ls = ec_ilog(isin as u32);
    proof {
        lemma_normalise15(icos as int);
        lemma_normalise15(isin as int);
    }
    let c = icos * pow2_u32(15 - lc) as i32;
    let s = isin * pow2_u32(15 - ls) as i32;
    assert(s * (-2597) >= -32767 * 2597) by (nonlinear_arith)
        requires
            16384 <= s <= 32767,
    ;
    assert(c * (-2597) >= -32767 * 2597) by (nonlinear_arith)
        requires
            16384 <= c <= 32767,
    ;
    let fs = frac_mul16(s, -2597);
    let fc = frac_mul16(c, -2597);
    assert(-2597 <= fs <= 0 && -2597 <= fc <= 0);
    assert(0 <= s * (fs + 7932) <= 32767 * 7932) by (nonlinear_arith)
        requires
            16384 <= s <= 32767,
            -2597 <= fs <= 0,
    ;
    assert(0 <= c * (fc + 7932) <= 32767 * 7932) by (nonlinear_arith)
        requires
            16384 <= c <= 32767,
            -2597 <= fc <= 0,
    ;
    let gs = frac_mul16(s, fs + 7932);
    let gc = frac_mul16(c, fc + 7932);
    assert(0 <= gs <= 7932 && 0 <= gc <= 7932);
    (ls as i32 - lc as i32) * 2048 + gs - gc
}

/// `x^8`.
pub open spec fn pow8(x: int) -> int {
    x * x * x * x * x * x * x * x
}

/// `x^8` for `x < 256`.
fn pow8_u64(x: u64) -> (r: u64)
    requires
        x <= 255,
    ensures
        r == pow8(x as int),
{
    assert(x * x <= 255 * 255) by (nonlinear_arith)
        requires
            x <= 255,
    ;
    let x2 = x * x;
    assert(x2 * x2 <= 65025 * 65025) by (nonlinear_arith)
        requires
            x2 <= 65025,
    ;
    let x4 = x2 * x2;
    assert(x4 * x4 <= 4228250625 * 4228250625) by (nonlinear_arith)
        requires
            x4 <= 4228250625,
    ;
    assert(x4 * x4 == pow8(x as int)) by (nonlinear_arith)
        requires
            x2 == x * x,
            x4 == x2 * x2,
    ;
    x4 * x4
}

/// `ceil(8 * log2(n))`: the least `t` with `n^8 <= 2^t`.
pub open spec fn is_log2_frac(n: int, t: int) -> bool {
    &&& t >= 0
    &&& pow8(n) <= p2(t as nat)
    &&& t > 0 ==> p2((t - 1) as nat) < pow8(n)
}

/// `ceil(8 * log2(n))`.
pub open spec fn log2_frac_spec(n: int) -> int {
    choose|t: int| is_log2_frac(n, t)
}

/// `ceil(8 * log2(n))` is one number.
pub proof fn lemma_log2_frac_unique(n: int, t1: int, t2: int)
    requires
        is_log2_frac(n, t1),
        is_log2_frac(n, t2),
    ensures
        t1 == t2,
{
    if t1 < t2 {
        lemma_p2_mono(t1 as nat, (t2 - 1) as nat);
    } else if t2 < t1 {
        lemma_p2_mono(t2 as nat, (t1 - 1) as nat);
    }
}

/// `ceil(8 * log2(n))`, the base-2 logarithm of `n` in 1/8 bits, rounded up.
pub fn log2_frac(n: u64) -> (r: u32)
    requires
        1 <= n <= 255,
    ensures
        is_log2_frac(n as int, r as int),
        r == log2_frac_spec(n as int),
        r <= 64,
{
    let n8 = pow8_u64(n) as u128;
    let mut p: u128 = 1;
    let mut t: u32 = 0;
    proof {
        lemma_p2_values();
        reveal_with_fuel(p2, 2);
        assert(pow8(n as int) >= 1) by (nonlinear_arith)
            requires
                n >= 1,
        ;
    }
    while p < n8
        invariant
            p == p2(t as nat),
            t > 0 ==> p2((t - 1) as nat) < n8,
            n8 == pow8(n as int),
            n8 < 0x1_0000_0000_0000_0000,
            t <= 64,
        decreases 64 - t,
    {
        proof {
            lemma_p2_pos(t as nat);
            lemma_p2_values();
            if t >= 64 {
                lemma_p2_mono(64, t as nat);
                crate::utils::lemma_p2_adds(32, 32);
            }
        }
        p = p * 2;
        t = t + 1;
    }
    proof {
        assert(is_log2_frac(n as int, t as int));
        let c = log2_frac_spec(n as int);
        assert(is_log2_frac(n as int, c));
        lemma_log2_frac_unique(n as int, c, t as int);
    }
    t
}

/// `round(2^(qb/8) / 2) * 2`, at most 256: even, with `(r-1)^8 <= 2^qb < (r+1)^8`.
pub open spec fn is_theta_res(qb: int, r: int) -> bool {
    &&& r % 2 == 0
    &&& 0 <= r <= 256
    &&& qb < 0 ==> r == 0
    &&& qb >= 64 ==> r == 256
    &&& 0 <= qb < 64 ==> pow8(r - 1) <= p2(qb as nat) < pow8(r + 1)
}

/// Rust's division, which truncates toward zero.
pub open spec fn tdiv(a: int, b: int) -> int {
    if a >= 0 {
        a / b
    } else {
        -((-a) / b)
    }
}

/// The resolution argument `qb` of `compute_qn`: the bits per dimension of the split plus
/// an offset from the band's pulse cap.
pub open spec fn qb_of(log2_bw: int, n: int, b: int, lm: int) -> int {
    tdiv(b, 2 * n - 1) + tdiv(log2_bw + lm * 8, 2) - 4
}

proof fn lemma_pow8_mono(a: int, b: int)
    requires
        0 <= a <= b,
    ensures
        pow8(a) <= pow8(b),
{
    assert(a * a <= b * b) by (nonlinear_arith)
        requires
            0 <= a <= b,
    ;
    let a2 = a * a;
    let b2 = b * b;
    assert(a2 * a2 <= b2 * b2) by (nonlinear_arith)
        requires
            0 <= a2 <= b2,
    ;
    let a4 = a2 * a2;
    let b4 = b2 * b2;
    assert(a4 * a4 <= b4 * b4) by (nonlinear_arith)
        requires
            0 <= a4 <= b4,
    ;
    assert(a4 * a4 == pow8(a)) by (nonlinear_arith)
        requires
            a2 == a * a,
            a4 == a2 * a2,
    ;
    assert(b4 * b4 == pow8(b)) by (nonlinear_arith)
        requires
            b2 == b * b,
            b4 == b2 * b2,
    ;
}

/// The resolution of the theta split of a sub-vector of `n` samples with `b` 1/8 bits in a
/// band `band_width` bins wide: `round(2^(qb/8) / 2) * 2`, at most 256.
pub fn compute_qn(band_width: usize, n: i32, b: i32, lm: i32) -> (r: i32)
    requires
        1 <= band_width <= 255,
        1 <= n <= 0x1000_0000,
        -0x7000_0000 <= b <= 0x7000_0000,
        -1 <= lm <= 3,
    ensures
        is_theta_res(qb_of(log2_frac_spec(band_width as int), n as int, b as int, lm as int), r as int),
{
    let l = log2_frac(band_width as u64);
    let pulse_cap = l as i32 + lm * 8;
    let offset = pulse_cap / 2 - 4;
    let qb = b / (2 * n - 1) + offset;
    let ghost qbs = qb_of(l as int, n as int, b as int, lm as int);
    assert(qb == qbs);
    let r: i32;
    if qb < 0 {
        r = 0;
    } else if qb >= 64 {
        r = 256;
    } else {
        proof {
            lemma_p2_values();
            lemma_p2_mono(qb as nat, 63);
            crate::utils::lemma_p2_adds(31, 32);
            lemma_p2_pos(qb as nat);
        }
        let mut p: u64 = 1;
        let mut e: i32 = 0;
        while e < qb
            invariant
                0 <= e <= qb < 64,
                p == p2(e as nat),
            decreases qb - e,
        {
            proof {
                lemma_p2_mono((e + 1) as nat, 63);
                crate::utils::lemma_p2_adds(31, 32);
                lemma_p2_values();
            }
            p = p * 2;
            e = e + 1;
        }
        proof {
            assert(pow8(255) > 0x8000_0000_0000_0000) by (nonlinear_arith);
            lemma_p2_mono(qb as nat, 63);
            crate::utils::lemma_p2_adds(31, 32);
        }
        let mut o: u64 = 1;
        let mut m: i32 = 0;
        while o <= 255 && pow8_u64(o) <= p
            invariant
                o == 2 * m + 1,
                0 <= m <= 128,
                p == p2(qb as nat),
                p < pow8(255),
                m > 0 ==> pow8(o - 2) <= p,
            decreases 257 - o,
        {
            m = m + 1;
            o = o + 2;
        }
        proof {
            assert(pow8(1) == 1);
            if o > 255 {
                lemma_pow8_mono(255, o - 2);
            }
        }
        r = 2 * m;
    }
    r
}

/// `m (m + 1) / 2`.
pub open spec fn tri(m: int) -> int {
    m * (m + 1) / 2
}

proof fn lemma_tri_step(m: int)
    requires
        m >= 0,
    ensures
        2 * tri(m) == m * (m + 1),
        tri(m + 1) == tri(m) + m + 1,
        tri(m) >= 0,
{
    vstd::arithmetic::div_mod::lemma_mod_bound(m, 2);
    vstd::arithmetic::div_mod::lemma_fundamental_div_mod(m, 2);
    let q = m / 2;
    let w = m * (m + 1);
    let w1 = (m + 1) * (m + 2);
    assert(w1 == w + 2 * (m + 1)) by (nonlinear_arith)
        requires
            w == m * (m + 1),
            w1 == (m + 1) * (m + 2),
    ;
    let hw: int;
    if m % 2 == 0 {
        assert(w == 2 * (q * (m + 1))) by (nonlinear_arith)
            requires
                m == 2 * q,
                w == m * (m + 1),
        ;
        hw = q * (m + 1);
    } else {
        assert(w == 2 * (m * (q + 1))) by (nonlinear_arith)
            requires
                m == 2 * q + 1,
                w == m * (m + 1),
        ;
        hw = m * (q + 1);
    }
    vstd::arithmetic::div_mod::lemma_div_multiples_vanish(hw, 2);
    vstd::arithmetic::div_mod::lemma_div_multiples_vanish(hw + m + 1, 2);
    assert(w1 == 2 * (hw + m + 1));
    assert(w >= 0) by (nonlinear_arith)
        requires
            m >= 0,
            w == m * (m + 1),
    ;
}

/// The total that the angle of a split of resolution `qn` is coded with: a step density
/// for stereo splits, uniform for split time blocks, triangular otherwise.
pub open spec fn theta_ft(qn: int, b0: int, is_stereo: bool) -> int {
    if is_stereo {
        3 * (qn / 2 + 1) + qn / 2
    } else if b0 > 1 {
        qn + 1
    } else {
        (qn / 2 + 1) * (qn / 2 + 1)
    }
}

/// The start of the symbol of angle `k`.
pub open spec fn theta_fl(qn: int, is_stereo: bool, k: int) -> int {
    let h = qn / 2;
    if is_stereo {
        if k <= h {
            3 * k
        } else {
            3 * (h + 1) + (k - h - 1)
        }
    } else if k <= h {
        tri(k)
    } else {
        (h + 1) * (h + 1) - tri(qn + 1 - k)
    }
}

/// The size of the symbol of angle `k`.
pub open spec fn theta_fs(qn: int, is_stereo: bool, k: int) -> int {
    let h = qn / 2;
    if is_stereo {
        if k <= h {
            3
        } else {
            1
        }
    } else if k <= h {
        k + 1
    } else {
        qn + 1 - k
    }
}

proof fn lemma_theta_steps(qn: int, is_stereo: bool, k: int)
    requires
        qn % 2 == 0,
        0 <= k <= qn,
    ensures
        theta_fl(qn, is_stereo, k + 1) == theta_fl(qn, is_stereo, k) + theta_fs(qn, is_stereo, k),
        theta_fl(qn, is_stereo, 0) == 0,
        theta_fs(qn, is_stereo, k) >= 1,
        theta_fl(qn, is_stereo, qn) + theta_fs(qn, is_stereo, qn) == theta_ft(qn, 0, is_stereo),
        theta_fl(qn, is_stereo, k) >= 0,
{
    let h = qn / 2;
    lemma_tri_step(0);
    lemma_tri_step(h);
    if !is_stereo {
        if k <= h {
            lemma_tri_step(k);
        } else {
            lemma_tri_step(qn - k);
            lemma_tri_step(qn + 1 - k);
            assert(2 * tri(qn + 1 - k) <= 2 * tri(h)) by (nonlinear_arith)
                requires
                    2 * tri(qn + 1 - k) == (qn + 1 - k) * (qn + 2 - k),
                    2 * tri(h) == h * (h + 1),
                    0 <= qn + 1 - k <= h,
            ;
        }
        if qn > 0 {
            lemma_tri_step(1);
            assert(tri(1) == 1);
        }
        assert((h + 1) * (h + 1) == h * (h + 1) + h + 1) by (nonlinear_arith);
        assert((h + 1) * (h + 1) >= 2 * tri(h)) by (nonlinear_arith)
            requires
                2 * tri(h) == h * (h + 1),
                h >= 0,
        ;
    }
}

proof fn lemma_theta_upper(qn: int, is_stereo: bool, k: int)
    requires
        qn % 2 == 0,
        0 <= k <= qn,
    ensures
        theta_fl(qn, is_stereo, k) + theta_fs(qn, is_stereo, k) <= theta_ft(qn, 0, is_stereo),
    decreases qn - k,
{
    lemma_theta_steps(qn, is_stereo, k);
    if k < qn {
        lemma_theta_upper(qn, is_stereo, k + 1);
        lemma_theta_steps(qn, is_stereo, k + 1);
    }
}

/// `s2` follows `s` by decoding the angle index `r` of a split of resolution `qn`, as
/// `get_theta` does.
pub open spec fn theta_step<'a>(s: EntropyCoder<'a>, s2: EntropyCoder<'a>, qn: int, b0: int, is_stereo: bool, r: int) -> bool {
    &&& 0 <= r <= qn
    &&& !is_stereo && b0 > 1 ==> r == EntropyCoder::uint_value(s, (qn + 1) as u32) && s2
        == EntropyCoder::uint_next(s, (qn + 1) as u32)
    &&& is_stereo || b0 <= 1 ==> ({
        let ft = theta_ft(qn, b0, is_stereo);
        let fl = theta_fl(qn, is_stereo, r);
        let fs = theta_fs(qn, is_stereo, r);
        let fm = EntropyCoder::sym(s, ft as u32);
        &&& fl <= fm < fl + fs
        &&& s2 == EntropyCoder::step(s, fl as u32, (fl + fs) as u32, ft as u32)
    })
}

/// Decodes the angle index of a split with resolution `qn`, in `[0, qn]`: uniformly when
/// a mono split divides time blocks (`b0 > 1`), else by the stereo step density or the
/// triangular density, whose symbol `[theta_fl, theta_fl + theta_fs)` holds the decoded value.
pub fn get_theta(ec: &mut EntropyCoder, qn: i32, b0: i32, is_stereo: bool) -> (r: i32)
    requires
        old(ec).wf(),
        0 <= qn <= 256,
        qn % 2 == 0,
        !is_stereo && b0 > 1 && EntropyCoder::uint_bits((qn + 1) as u32) > 8 ==> old(ec).raw_room()
            >= EntropyCoder::uint_bits((qn + 1) as u32) - 8,
    ensures
        final(ec).wf(),
        0 <= r <= qn,
        !is_stereo && b0 > 1 ==> r == EntropyCoder::uint_value(*old(ec), (qn + 1) as u32)
            && *final(ec) == EntropyCoder::uint_next(*old(ec), (qn + 1) as u32),
        is_stereo || b0 <= 1 ==> ({
            let ft = theta_ft(qn as int, b0 as int, is_stereo);
            let fl = theta_fl(qn as int, is_stereo, r as int);
            let fs = theta_fs(qn as int, is_stereo, r as int);
            let fm = EntropyCoder::sym(*old(ec), ft as u32);
            &&& fl <= fm < fl + fs
            &&& *final(ec) == EntropyCoder::step(*old(ec), fl as u32, (fl + fs) as u32, ft as u32)
        }),
        final(ec).nbits_total >= old(ec).nbits_total,
        final(ec).nbits_total <= old(ec).nbits_total + 48,
        theta_step(*old(ec), *final(ec), qn as int, b0 as int, is_stereo, r as int),
{
    if !is_stereo && b0 > 1 {
        return ec.decode_uint(qn as u32 + 1) as i32;
    }
    let ghost g = is_stereo;
    let h = qn / 2;
    assert((h + 1) * (h + 1) <= 129 * 129) by (nonlinear_arith)
        requires
            0 <= h <= 128,
    ;
    assert((h + 1) * (h + 1) >= 1) by (nonlinear_arith)
        requires
            0 <= h,
    ;
    let ft: i32 = if is_stereo {
        3 * (h + 1) + h
    } else {
        (h + 1) * (h + 1)
    };
    assert(ft == theta_ft(qn as int, b0 as int, is_stereo));
    proof {
        lemma_p2_values();
    }
    let fm = ec.decode(ft as u32) as i32;
    let mut k: i32 = 0;
    let mut fl: i32 = 0;
    let mut fs: i32 = if is_stereo {
        3
    } else {
        1
    };
    proof {
        lemma_theta_steps(qn as int, is_stereo, 0);
    }
    while k < qn && fm >= fl + fs
        invariant
            0 <= k <= qn,
            qn % 2 == 0,
            qn <= 256,
            h == qn / 2,
            fl == theta_fl(qn as int, is_stereo, k as int),
            fs == theta_fs(qn as int, is_stereo, k as int),
            fl <= fm,
            fm < ft,
            ft <= 129 * 129,
            1 <= fs <= 257,
            ft == theta_ft(qn as int, 0, is_stereo),
        decreases qn - k,
    {
        proof {
            lemma_theta_steps(qn as int, is_stereo, k as int);
            lemma_theta_steps(qn as int, is_stereo, (k + 1) as int);
        }
        fl = fl + fs;
        k = k + 1;
        fs = if is_stereo {
            if k <= h {
                3
            } else {
                1
            }
        } else if k <= h {
            k + 1
        } else {
            qn + 1 - k
        };
    }
    proof {
        lemma_theta_steps(qn as int, is_stereo, k as int);
        lemma_theta_upper(qn as int, is_stereo, k as int);
    }
    ec.update(fl as u32, (fl + fs) as u32, ft as u32);
    k
}

/// `8 * BANDS[offset] - n`, at least zero: where the folding source of a band of `n`
/// samples starts.
pub open spec fn fold_start(offset: int, n: int) -> int {
    if 8 * BANDS@[offset] - n > 0 {
        8 * BANDS@[offset] - n
    } else {
        0
    }
}

/// The collapse masks of channel `c` of the bands from `i` down, while they lie above
/// `lowband`, OR-ed.
pub open spec fn fold_mask(masks: Seq<u8>, lowband: int, i: int, c: int) -> u8
    decreases i + 1,
{
    if i >= 0 && 8 * BANDS@[i] > lowband {
        masks[2 * i + c] | fold_mask(masks, lowband, i - 1, c)
    } else {
        0
    }
}

/// Where the folding source of a band starts (`-1` for none, so that noise is used) and
/// the fill masks that it brings: with no earlier source, or aggressive spreading without a
/// time resolution decrease, all blocks (transient) or the single block are filled; else
/// the masks of the bands the source covers are OR-ed.
pub fn get_estimate(
    offset: usize,
    collapse_masks: &[u8],
    spread: i32,
    tf_change: i32,
    n: usize,
    transient: bool,
    x_cm: &mut u8,
    y_cm: &mut u8,
    lowband: &mut i32,
)
    requires
        offset <= 21,
        collapse_masks@.len() >= 2 * offset + 2,
        n <= 0x1000_0000,
    ensures
        offset == 0 || (spread == 3 && tf_change >= 0) ==> *final(lowband) == -1
            && *final(x_cm) == (if transient { 255u8 } else { 1u8 })
            && *final(y_cm) == *final(x_cm),
        !(offset == 0 || (spread == 3 && tf_change >= 0)) ==> *final(lowband) == fold_start(
            offset as int,
            n as int,
        ) && *final(x_cm) == fold_mask(collapse_masks@, *final(lowband) as int, offset as int, 0)
            && *final(y_cm) == fold_mask(collapse_masks@, *final(lowband) as int, offset as int, 1),
{
    if offset == 0 || (spread == SPREAD_AGGRESSIVE && tf_change >= 0) {
        *lowband = -1;
        if transient {
            *x_cm = 255;
            *y_cm = 255;
        } else {
            *x_cm = 1;
            *y_cm = 1;
        }
    } else {
        let start = 8 * BANDS[offset] as i64 - n as i64;
        let lb: i32 = if start > 0 {
            start as i32
        } else {
            0
        };
        *lowband = lb;
        let mut xm: u8 = 0;
        let mut ym: u8 = 0;
        let mut i: usize = offset;
        let ghost fx = fold_mask(collapse_masks@, lb as int, offset as int, 0);
        let ghost fy = fold_mask(collapse_masks@, lb as int, offset as int, 1);
        assert(0u8 | fx == fx) by (bit_vector);
        assert(0u8 | fy == fy) by (bit_vector);
        while 8 * BANDS[i] as i32 > lb
            invariant
                i <= offset <= 21,
                lb >= 0,
                collapse_masks@.len() >= 2 * offset + 2,
                fold_mask(collapse_masks@, lb as int, offset as int, 0) == xm | fold_mask(
                    collapse_masks@,
                    lb as int,
                    i as int,
                    0,
                ),
                fold_mask(collapse_masks@, lb as int, offset as int, 1) == ym | fold_mask(
                    collapse_masks@,
                    lb as int,
                    i as int,
                    1,
                ),
            decreases i,
        {
            let ghost xm0 = xm;
            let ghost ym0 = ym;
            let ghost rx = fold_mask(collapse_masks@, lb as int, i - 1, 0);
            let ghost ry = fold_mask(collapse_masks@, lb as int, i - 1, 1);
            let mx = collapse_masks[i * 2];
            let my = collapse_masks[i * 2 + 1];
            xm = xm | mx;
            ym = ym | my;
            assert(xm0 | (mx | rx) == (xm0 | mx) | rx) by (bit_vector);
            assert(ym0 | (my | ry) == (ym0 | my) | ry) by (bit_vector);
            i = i - 1;
        }
        assert(xm | 0u8 == xm) by (bit_vector);
        assert(ym | 0u8 == ym) by (bit_vector);
        *x_cm = xm;
        *y_cm = ym;
    }
}

/// The Hadamard ordering of `stride` blocks, for strides 1, 2, 4, 8 and 16, at
/// `stride - 1 .. 2 * stride - 1`.
pub const ORDERY_TABLE: [usize; 31] = [
    0, 1, 0, 3, 0, 2, 1, 7, 0, 4, 3, 6, 1, 5, 2, 15, 0, 8, 7, 12, 3, 11, 4, 14, 1, 9, 6, 13, 2, 10, 5,
];

/// The block that position `i` of `stride` takes: in Hadamard order, or as it stands.
pub open spec fn order_of(stride: int, i: int, hadamard: bool) -> int {
    if hadamard {
        ORDERY_TABLE@[stride - 1 + i] as int
    } else {
        i
    }
}

/// The position that block `p` takes: the inverse of `order_of`.
pub open spec fn order_inv(stride: int, p: int, hadamard: bool) -> int {
    if hadamard {
        ORDERY_INV@[stride - 1 + p] as int
    } else {
        p
    }
}

/// A layout of `len` samples in `stride` interleaved blocks.
pub open spec fn layout_ok(len: int, stride: int, hadamard: bool) -> bool {
    &&& 1 <= stride <= 16
    &&& len % stride == 0
    &&& hadamard ==> (stride == 1 || stride == 2 || stride == 4 || stride == 8 || stride == 16)
}

/// `b` is `a` with its blocks interleaved: sample `j` of block `order_of(i)` of `a` (blocks
/// of `len / stride` samples) is sample `stride * j + i` of `b`.
pub open spec fn is_interleaved<T>(a: Seq<T>, b: Seq<T>, stride: int, hadamard: bool) -> bool {
    let n0 = (a.len() as int) / stride;
    &&& b.len() == a.len()
    &&& forall|i: int, j: int|
        0 <= i < stride && 0 <= j < n0 ==> #[trigger] b[stride * j + i] == a[n0 * order_of(stride, i, hadamard) + j]
}

/// `b` is `a` with its samples deinterleaved into blocks: sample `stride * j + i` of `a` is
/// sample `j` of block `order_of(i)` of `b`.
pub open spec fn is_deinterleaved<T>(a: Seq<T>, b: Seq<T>, stride: int, hadamard: bool) -> bool {
    let n0 = (a.len() as int) / stride;
    &&& b.len() == a.len()
    &&& forall|i: int, j: int|
        0 <= i < stride && 0 <= j < n0 ==> #[trigger] b[n0 * order_of(stride, i, hadamard) + j] == a[stride * j + i]
}

/// The inverse of each segment of `ORDERY_TABLE`: the position that holds each block.
pub const ORDERY_INV: [usize; 31] = [
    0, 1, 0, 1, 3, 2, 0, 1, 5, 7, 3, 2, 6, 4, 0, 1, 9, 13, 5, 7, 15, 11, 3, 2, 10, 14, 6, 4, 12, 8, 0,
];

/// Each Hadamard ordering segment of `ORDERY_TABLE` is a permutation of `0..stride`, and
/// `ORDERY_INV` holds its inverse.
pub proof fn lemma_ordery_perm(stride: int)
    requires
        stride == 1 || stride == 2 || stride == 4 || stride == 8 || stride == 16,
    ensures
        forall|i: int| 0 <= i < stride ==> #[trigger] ORDERY_TABLE@[stride - 1 + i] < stride,
        forall|i: int| 0 <= i < stride ==> #[trigger] ORDERY_INV@[stride - 1 + i] < stride,
        forall|i: int|
            0 <= i < stride ==> #[trigger] ORDERY_INV@[stride - 1 + ORDERY_TABLE@[stride - 1 + i]] == i,
{
    if stride == 1 {
        assert forall|i: int| 0 <= i < 1 implies #[trigger] ORDERY_INV@[0 + ORDERY_TABLE@[0 + i]] == i by {
            if i == 0 {
                assert(ORDERY_TABLE@[0int] == 0);
                assert(ORDERY_INV@[0int] == 0);
            }
        }
        assert forall|i: int| 0 <= i < 1 implies #[trigger] ORDERY_TABLE@[0 + i] < 1 && ORDERY_INV@[0 + i] < 1 by {
            if i == 0 {
                assert(ORDERY_TABLE@[0int] == 0);
                assert(ORDERY_INV@[0int] == 0);
            }
        }
    } else if stride == 2 {
        assert forall|i: int| 0 <= i < 2 implies #[trigger] ORDERY_INV@[1 + ORDERY_TABLE@[1 + i]] == i by {
            if i == 0 {
                assert(ORDERY_TABLE@[1int] == 1);
                assert(ORDERY_INV@[2int] == 0);
            } else if i == 1 {
                assert(ORDERY_TABLE@[2int] == 0);
                assert(ORDERY_INV@[1int] == 1);
            }
        }
        assert forall|i: int| 0 <= i < 2 implies #[trigger] ORDERY_TABLE@[1 + i] < 2 && ORDERY_INV@[1 + i] < 2 by {
            if i == 0 {
                assert(ORDERY_TABLE@[1int] == 1);
                assert(ORDERY_INV@[1int] == 1);
            } else if i == 1 {
                assert(ORDERY_TABLE@[2int] == 0);
                assert(ORDERY_INV@[2int] == 0);
            }
        }
    } else if stride == 4 {
        assert forall|i: int| 0 <= i < 4 implies #[trigger] ORDERY_INV@[3 + ORDERY_TABLE@[3 + i]] == i by {
            if i == 0 {
                assert(ORDERY_TABLE@[3int] == 3);
                assert(ORDERY_INV@[6int] == 0);
            } else if i == 1 {
                assert(ORDERY_TABLE@[4int] == 0);
                assert(ORDERY_INV@[3int] == 1);
            } else if i == 2 {
                assert(ORDERY_TABLE@[5int] == 2);
                assert(ORDERY_INV@[5int] == 2);
            } else if i == 3 {
                assert(ORDERY_TABLE@[6int] == 1);
                assert(ORDERY_INV@[4int] == 3);
            }
        }
        assert forall|i: int| 0 <= i < 4 implies #[trigger] ORDERY_TABLE@[3 + i] < 4 && ORDERY_INV@[3 + i] < 4 by {
            if i == 0 {
                assert(ORDERY_TABLE@[3int] == 3);
                assert(ORDERY_INV@[3int] == 1);
            } else if i == 1 {
                assert(ORDERY_TABLE@[4int] == 0);
                assert(ORDERY_INV@[4int] == 3);
            } else if i == 2 {
                assert(ORDERY_TABLE@[5int] == 2);
                assert(ORDERY_INV@[5int] == 2);
            } else if i == 3 {
                assert(ORDERY_TABLE@[6int] == 1);
                assert(ORDERY_INV@[6int] == 0);
            }
        }
    } else if stride == 8 {
        assert forall|i: int| 0 <= i < 8 implies #[trigger] ORDERY_INV@[7 + ORDERY_TABLE@[7 + i]] == i by {
            if i == 0 {
                assert(ORDERY_TABLE@[7int] == 7);
                assert(ORDERY_INV@[14int] == 0);
            } else if i == 1 {
                assert(ORDERY_TABLE@[8int] == 0);
                assert(ORDERY_INV@[7int] == 1);
            } else if i == 2 {
                assert(ORDERY_TABLE@[9int] == 4);
                assert(ORDERY_INV@[11int] == 2);
            } else if i == 3 {
                assert(ORDERY_TABLE@[10int] == 3);
                assert(ORDERY_INV@[10int] == 3);
            } else if i == 4 {
                assert(ORDERY_TABLE@[11int] == 6);
                assert(ORDERY_INV@[13int] == 4);
            } else if i == 5 {
                assert(ORDERY_TABLE@[12int] == 1);
                assert(ORDERY_INV@[8int] == 5);
            } else if i == 6 {
                assert(ORDERY_TABLE@[13int] == 5);
                assert(ORDERY_INV@[12int] == 6);
            } else if i == 7 {
                assert(ORDERY_TABLE@[14int] == 2);
                assert(ORDERY_INV@[9int] == 7);
            }
        }
        assert forall|i: int| 0 <= i < 8 implies #[trigger] ORDERY_TABLE@[7 + i] < 8 && ORDERY_INV@[7 + i] < 8 by {
            if i == 0 {
                assert(ORDERY_TABLE@[7int] == 7);
                assert(ORDERY_INV@[7int] == 1);
            } else if i == 1 {
                assert(ORDERY_TABLE@[8int] == 0);
                assert(ORDERY_INV@[8int] == 5);
            } else if i == 2 {
                assert(ORDERY_TABLE@[9int] == 4);
                assert(ORDERY_INV@[9int] == 7);
            } else if i == 3 {
                assert(ORDERY_TABLE@[10int] == 3);
                assert(ORDERY_INV@[10int] == 3);
            } else if i == 4 {
                assert(ORDERY_TABLE@[11int] == 6);
                assert(ORDERY_INV@[11int] == 2);
            } else if i == 5 {
                assert(ORDERY_TABLE@[12int] == 1);
                assert(ORDERY_INV@[12int] == 6);
            } else if i == 6 {
                assert(ORDERY_TABLE@[13int] == 5);
                assert(ORDERY_INV@[13int] == 4);
            } else if i == 7 {
                assert(ORDERY_TABLE@[14int] == 2);
                assert(ORDERY_INV@[14int] == 0);
            }
        }
    } else if stride == 16 {
        assert forall|i: int| 0 <= i < 16 implies #[trigger] ORDERY_INV@[15 + ORDERY_TABLE@[15 + i]] == i by {
            if i == 0 {
                assert(ORDERY_TABLE@[15int] == 15);
                assert(ORDERY_INV@[30int] == 0);
            } else if i == 1 {
                assert(ORDERY_TABLE@[16int] == 0);
                assert(ORDERY_INV@[15int] == 1);
            } else if i == 2 {
                assert(ORDERY_TABLE@[17int] == 8);
                assert(ORDERY_INV@[23int] == 2);
            } else if i == 3 {
                assert(ORDERY_TABLE@[18int] == 7);
                assert(ORDERY_INV@[22int] == 3);
            } else if i == 4 {
                assert(ORDERY_TABLE@[19int] == 12);
                assert(ORDERY_INV@[27int] == 4);
            } else if i == 5 {
                assert(ORDERY_TABLE@[20int] == 3);
                assert(ORDERY_INV@[18int] == 5);
            } else if i == 6 {
                assert(ORDERY_TABLE@[21int] == 11);
                assert(ORDERY_INV@[26int] == 6);
            } else if i == 7 {
                assert(ORDERY_TABLE@[22int] == 4);
                assert(ORDERY_INV@[19int] == 7);
            } else if i == 8 {
                assert(ORDERY_TABLE@[23int] == 14);
                assert(ORDERY_INV@[29int] == 8);
            } else if i == 9 {
                assert(ORDERY_TABLE@[24int] == 1);
                assert(ORDERY_INV@[16int] == 9);
            } else if i == 10 {
                assert(ORDERY_TABLE@[25int] == 9);
                assert(ORDERY_INV@[24int] == 10);
            } else if i == 11 {
                assert(ORDERY_TABLE@[26int] == 6);
                assert(ORDERY_INV@[21int] == 11);
            } else if i == 12 {
                assert(ORDERY_TABLE@[27int] == 13);
                assert(ORDERY_INV@[28int] == 12);
            } else if i == 13 {
                assert(ORDERY_TABLE@[28int] == 2);
                assert(ORDERY_INV@[17int] == 13);
            } else if i == 14 {
                assert(ORDERY_TABLE@[29int] == 10);
                assert(ORDERY_INV@[25int] == 14);
            } else if i == 15 {
                assert(ORDERY_TABLE@[30int] == 5);
                assert(ORDERY_INV@[20int] == 15);
            }
        }
        assert forall|i: int| 0 <= i < 16 implies #[trigger] ORDERY_TABLE@[15 + i] < 16 && ORDERY_INV@[15 + i] < 16 by {
            if i == 0 {
                assert(ORDERY_TABLE@[15int] == 15);
                assert(ORDERY_INV@[15int] == 1);
            } else if i == 1 {
                assert(ORDERY_TABLE@[16int] == 0);
                assert(ORDERY_INV@[16int] == 9);
            } else if i == 2 {
                assert(ORDERY_TABLE@[17int] == 8);
                assert(ORDERY_INV@[17int] == 13);
            } else if i == 3 {
                assert(ORDERY_TABLE@[18int] == 7);
                assert(ORDERY_INV@[18int] == 5);
            } else if i == 4 {
                assert(ORDERY_TABLE@[19int] == 12);
                assert(ORDERY_INV@[19int] == 7);
            } else if i == 5 {
                assert(ORDERY_TABLE@[20int] == 3);
                assert(ORDERY_INV@[20int] == 15);
            } else if i == 6 {
                assert(ORDERY_TABLE@[21int] == 11);
                assert(ORDERY_INV@[21int] == 11);
            } else if i == 7 {
                assert(ORDERY_TABLE@[22int] == 4);
                assert(ORDERY_INV@[22int] == 3);
            } else if i == 8 {
                assert(ORDERY_TABLE@[23int] == 14);
                assert(ORDERY_INV@[23int] == 2);
            } else if i == 9 {
                assert(ORDERY_TABLE@[24int] == 1);
                assert(ORDERY_INV@[24int] == 10);
            } else if i == 10 {
                assert(ORDERY_TABLE@[25int] == 9);
                assert(ORDERY_INV@[25int] == 14);
            } else if i == 11 {
                assert(ORDERY_TABLE@[26int] == 6);
                assert(ORDERY_INV@[26int] == 6);
            } else if i == 12 {
                assert(ORDERY_TABLE@[27int] == 13);
                assert(ORDERY_INV@[27int] == 4);
            } else if i == 13 {
                assert(ORDERY_TABLE@[28int] == 2);
                assert(ORDERY_INV@[28int] == 12);
            } else if i == 14 {
                assert(ORDERY_TABLE@[29int] == 10);
                assert(ORDERY_INV@[29int] == 8);
            } else if i == 15 {
                assert(ORDERY_TABLE@[30int] == 5);
                assert(ORDERY_INV@[30int] == 0);
            }
        }
    }
}


proof fn lemma_split_index(k: int, d: int)
    requires
        0 <= k,
        1 <= d,
    ensures
        k == d * (k / d) + k % d,
        0 <= k % d < d,
        0 <= k / d,
{
    vstd::arithmetic::div_mod::lemma_fundamental_div_mod(k, d);
    vstd::arithmetic::div_mod::lemma_mod_bound(k, d);
    vstd::arithmetic::div_mod::lemma_div_pos_is_pos(k, d);
}

proof fn lemma_index_bound(a: int, b: int, i: int, j: int)
    requires
        0 <= i < a,
        0 <= j < b,
    ensures
        0 <= a * j + i < a * b,
        0 <= b * i + j < a * b,
{
    assert(a * j + i < a * b) by (nonlinear_arith)
        requires
            0 <= i < a,
            0 <= j < b,
    ;
    assert(b * i + j < a * b) by (nonlinear_arith)
        requires
            0 <= i < a,
            0 <= j < b,
    ;
    assert(0 <= a * j) by (nonlinear_arith)
        requires
            0 <= j,
            0 <= a,
    ;
    assert(0 <= b * i) by (nonlinear_arith)
        requires
            0 <= i,
            0 <= b,
    ;
}

proof fn lemma_index_unique(a: int, i1: int, j1: int, i2: int, j2: int)
    requires
        0 <= i1 < a,
        0 <= i2 < a,
        0 <= j1,
        0 <= j2,
        a * j1 + i1 == a * j2 + i2,
    ensures
        i1 == i2,
        j1 == j2,
{
    assert(j1 * a == a * j1) by (nonlinear_arith);
    assert(j2 * a == a * j2) by (nonlinear_arith);
    vstd::arithmetic::div_mod::lemma_fundamental_div_mod_converse(a * j1 + i1, a, j1, i1);
    vstd::arithmetic::div_mod::lemma_fundamental_div_mod_converse(a * j2 + i2, a, j2, i2);
    assert(j1 * a == a * j1) by (nonlinear_arith);
    assert(j2 * a == a * j2) by (nonlinear_arith);
}

/// Moves the samples of `x` from frequency order (blocks of `len / stride` samples, taken
/// in Hadamard order when `hadamard`) to time order (`stride` interleaved blocks).
pub fn interleave_hadamard<T: Copy>(x: &mut [T], stride: usize, hadamard: bool)
    requires
        layout_ok(old(x)@.len() as int, stride as int, hadamard),
    ensures
        is_interleaved(old(x)@, final(x)@, stride as int, hadamard),
{
    let len = x.len();
    let n0 = len / stride;
    let mut y: Vec<T> = Vec::new();
    let mut k: usize = 0;
    proof {
        lemma_split_index(len as int, stride as int);
        if hadamard {
            lemma_ordery_perm(stride as int);
        }
    }
    while k < len
        invariant
            0 <= k <= len,
            len == x@.len(),
            x@ == old(x)@,
            n0 == (len as int) / (stride as int),
            len == stride * n0,
            layout_ok(len as int, stride as int, hadamard),
            hadamard ==> forall|i: int| 0 <= i < stride ==> #[trigger] ORDERY_TABLE@[stride - 1 + i] < stride,
            y@.len() == k,
            forall|m: int| 0 <= m < k ==> #[trigger] y@[m] == x@[n0 * order_of(stride as int, m % stride as int, hadamard) + m / stride as int],
        decreases len - k,
    {
        let i = k % stride;
        let j = k / stride;
        proof {
            lemma_split_index(k as int, stride as int);
            assert(j < n0) by (nonlinear_arith)
                requires
                    k == stride * j + i,
                    k < stride * n0,
                    0 <= i,
            ;
        }
        let o = if hadamard {
            ORDERY_TABLE[stride - 1 + i]
        } else {
            i
        };
        proof {
            lemma_index_bound(n0 as int, stride as int, j as int, o as int);
            lemma_index_bound(stride as int, n0 as int, o as int, j as int);
        }
        y.push(x[n0 * o + j]);
        k = k + 1;
    }
    let ghost src = x@;
    let mut k: usize = 0;
    while k < len
        invariant
            0 <= k <= len,
            len == x@.len(),
            y@.len() == len,
            forall|m: int| 0 <= m < k ==> #[trigger] x@[m] == y@[m],
            forall|m: int| k <= m < len ==> #[trigger] x@[m] == src[m],
        decreases len - k,
    {
        x[k] = y[k];
        k = k + 1;
    }
    assert forall|i: int, j: int| 0 <= i < stride && 0 <= j < n0 implies #[trigger] x@[stride * j + i] == src[n0
        * order_of(stride as int, i, hadamard) + j] by {
        let m = stride * j + i;
        lemma_index_bound(stride as int, n0 as int, i, j);
        lemma_split_index(m, stride as int);
        lemma_index_unique(stride as int, i, j, m % stride as int, m / stride as int);
    }
}

/// Moves the samples of `x` from time order back to frequency order: the inverse of
/// `interleave_hadamard` with the same stride and ordering.
pub fn deinterleave_hadamard<T: Copy>(x: &mut [T], stride: usize, hadamard: bool)
    requires
        layout_ok(old(x)@.len() as int, stride as int, hadamard),
    ensures
        is_deinterleaved(old(x)@, final(x)@, stride as int, hadamard),
{
    let len = x.len();
    let n0 = len / stride;
    let mut y: Vec<T> = Vec::new();
    let mut m: usize = 0;
    proof {
        lemma_split_index(len as int, stride as int);
        if hadamard {
            lemma_ordery_perm(stride as int);
        }
    }
    while m < len
        invariant
            0 <= m <= len,
            len == x@.len(),
            x@ == old(x)@,
            n0 == (len as int) / (stride as int),
            len == stride * n0,
            layout_ok(len as int, stride as int, hadamard),
            hadamard ==> forall|i: int| 0 <= i < stride ==> #[trigger] ORDERY_INV@[stride - 1 + i] < stride,
            y@.len() == m,
            forall|q: int|
                0 <= q < m ==> #[trigger] y@[q] == x@[stride * (q % n0 as int) + order_inv(
                    stride as int,
                    q / n0 as int,
                    hadamard,
                )],
        decreases len - m,
    {
        proof {
            assert(n0 >= 1) by (nonlinear_arith)
                requires
                    len == stride * n0,
                    m < len,
                    stride >= 1,
            ;
        }
        let p = m / n0;
        let j = m % n0;
        proof {
            lemma_split_index(m as int, n0 as int);
            assert(p < stride) by (nonlinear_arith)
                requires
                    m == n0 * p + j,
                    m < stride * n0,
                    0 <= j,
            ;
        }
        let i = if hadamard {
            ORDERY_INV[stride - 1 + p]
        } else {
            p
        };
        proof {
            lemma_index_bound(stride as int, n0 as int, i as int, j as int);
        }
        y.push(x[stride * j + i]);
        m = m + 1;
    }
    let ghost src = x@;
    let mut k: usize = 0;
    while k < len
        invariant
            0 <= k <= len,
            len == x@.len(),
            y@.len() == len,
            forall|q: int| 0 <= q < k ==> #[trigger] x@[q] == y@[q],
            forall|q: int| k <= q < len ==> #[trigger] x@[q] == src[q],
        decreases len - k,
    {
        x[k] = y[k];
        k = k + 1;
    }
    assert forall|i: int, j: int| 0 <= i < stride && 0 <= j < n0 implies #[trigger] x@[n0 * order_of(
        stride as int,
        i,
        hadamard,
    ) + j] == src[stride * j + i] by {
        let o = order_of(stride as int, i, hadamard);
        let q = n0 * o + j;
        lemma_index_bound(n0 as int, stride as int, j, o);
        lemma_split_index(q, n0 as int);
        lemma_index_unique(n0 as int, j, o, q % n0 as int, q / n0 as int);
        assert(y@[q] == src[stride * (q % n0 as int) + order_inv(stride as int, q / n0 as int, hadamard)]);
    }
}

/// Interleaving after deinterleaving with the same stride and ordering gives back the
/// original samples.
pub proof fn lemma_interleave_deinterleave<T>(a: Seq<T>, b: Seq<T>, c: Seq<T>, stride: int, hadamard: bool)
    requires
        layout_ok(a.len() as int, stride, hadamard),
        is_deinterleaved(a, b, stride, hadamard),
        is_interleaved(b, c, stride, hadamard),
    ensures
        c == a,
{
    let n0 = (a.len() as int) / stride;
    lemma_split_index(a.len() as int, stride);
    assert forall|k: int| 0 <= k < a.len() implies #[trigger] c[k] == a[k] by {
        lemma_split_index(k, stride);
        let i = k % stride;
        let j = k / stride;
        assert(a.len() == stride * n0);
        assert(j < n0) by (nonlinear_arith)
            requires
                k == stride * j + i,
                k < stride * n0,
                0 <= i,
                stride >= 1,
        ;
        lemma_index_bound(n0, stride, j, order_of(stride, i, hadamard));
        assert(c[stride * j + i] == b[n0 * order_of(stride, i, hadamard) + j]);
    }
    assert(c =~= a);
}

} // verus!
