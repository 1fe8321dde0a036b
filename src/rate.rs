//! Bit allocation: the static allocation interpolated between two qualities, band skipping,
//! intensity and dual stereo, and the split of each band's budget between shape and fine
//! energy.
use vstd::prelude::*;
use crate::consts::{BANDS, BAND_WIDTHS, BAND_ALLOCATION, NUM_BANDS, NUM_QUALITIES};
use crate::entdec::EntropyCoder;
use crate::bands_utils::{log2_frac, is_log2_frac, tdiv, pow8};
use crate::utils::{p2, lemma_p2_values};

verus! {

/// The largest allocation, in 1/8 bits, that the functions of this module accept for one band.
pub const MAX_BAND_BITS: i32 = 0x20_0000;

/// Allocations in range: each of the 21 bands at most `MAX_BAND_BITS` in size.
pub open spec fn bits_in_range(b: Seq<i32>) -> bool {
    &&& b.len() == 21
    &&& forall|i: int| 0 <= i < 21 ==> -MAX_BAND_BITS <= #[trigger] b[i] <= MAX_BAND_BITS
}

/// The allocation of band `i` at `t/64` of the way from `bits1` to `bits2`.
pub open spec fn interp(bits1: Seq<i32>, bits2: Seq<i32>, t: int, i: int) -> int {
    bits1[i] + tdiv((bits2[i] - bits1[i]) * t, 64)
}

/// What band `i` costs at `t`: its allocation, or the 16 1/8 bits of its fine energy when
/// the allocation is below the band's threshold.
pub open spec fn lerp_term(bits1: Seq<i32>, bits2: Seq<i32>, thresh: Seq<i32>, t: int, i: int) -> int {
    if interp(bits1, bits2, t, i) >= thresh[i] {
        interp(bits1, bits2, t, i)
    } else {
        16
    }
}

/// The cost of the first `n` bands at `t`.
pub open spec fn lerp_sum(bits1: Seq<i32>, bits2: Seq<i32>, thresh: Seq<i32>, t: int, n: int) -> int
    decreases n,
{
    if n <= 0 {
        0
    } else {
        lerp_sum(bits1, bits2, thresh, t, n - 1) + lerp_term(bits1, bits2, thresh, t, n - 1)
    }
}

proof fn lemma_interp_bounds(bits1: Seq<i32>, bits2: Seq<i32>, t: int, i: int)
    requires
        bits_in_range(bits1),
        bits_in_range(bits2),
        0 <= t <= 64,
        0 <= i < 21,
    ensures
        -3 * MAX_BAND_BITS - 1 <= interp(bits1, bits2, t, i) <= 3 * MAX_BAND_BITS + 1,
        -2 * MAX_BAND_BITS * 64 <= (bits2[i] - bits1[i]) * t <= 2 * MAX_BAND_BITS * 64,
{
    let d = bits2[i] - bits1[i];
    assert(-2 * MAX_BAND_BITS * 64 <= d * t <= 2 * MAX_BAND_BITS * 64) by (nonlinear_arith)
        requires
            -2 * MAX_BAND_BITS <= d <= 2 * MAX_BAND_BITS,
            0 <= t <= 64,
    ;
    let q = d * t;
    if q >= 0 {
        assert(0 <= q / 64 <= 2 * MAX_BAND_BITS);
    } else {
        assert(0 <= (-q) / 64 <= 2 * MAX_BAND_BITS);
    }
}

proof fn lemma_lerp_sum_bounds(bits1: Seq<i32>, bits2: Seq<i32>, thresh: Seq<i32>, t: int, n: int)
    requires
        bits_in_range(bits1),
        bits_in_range(bits2),
        0 <= t <= 64,
        0 <= n <= 21,
    ensures
        -n * 6291457 <= lerp_sum(bits1, bits2, thresh, t, n) <= n * 6291457,
    decreases n,
{
    if n > 0 {
        lemma_lerp_sum_bounds(bits1, bits2, thresh, t, n - 1);
        lemma_interp_bounds(bits1, bits2, t, n - 1);
    }
}

/// The cost of all bands at `t/64` of the way from `bits1` to `bits2`.
pub fn lerp(bits1: &[i32], bits2: &[i32], thresh: &[i32], t: i32) -> (r: i32)
    requires
        bits_in_range(bits1@),
        bits_in_range(bits2@),
        thresh@.len() == 21,
        0 <= t <= 64,
    ensures
        r == lerp_sum(bits1@, bits2@, thresh@, t as int, 21),
{
    let mut sum: i32 = 0;
    let mut i: usize = 0;
    while i < NUM_BANDS
        invariant
            0 <= i <= 21,
            bits_in_range(bits1@),
            bits_in_range(bits2@),
            thresh@.len() == 21,
            0 <= t <= 64,
            sum == lerp_sum(bits1@, bits2@, thresh@, t as int, i as int),
        decreases 21 - i,
    {
        proof {
            lemma_interp_bounds(bits1@, bits2@, t as int, i as int);
            lemma_lerp_sum_bounds(bits1@, bits2@, thresh@, t as int, i as int);
            lemma_lerp_sum_bounds(bits1@, bits2@, thresh@, t as int, i as int + 1);
        }
        let bits = bits1[i] + (bits2[i] - bits1[i]) * t / 64;
        assert(bits == interp(bits1@, bits2@, t as int, i as int));
        if bits >= thresh[i] {
            sum = sum + bits;
        } else {
            sum = sum + 16;
        }
        i = i + 1;
    }
    sum
}

/// The interpolation step, in 64ths, that the quality search settles on: the highest step
/// whose cost fits in `total`, found by bisection.
pub fn get_lo(bits1: &[i32], bits2: &[i32], thresh: &[i32], total: i32) -> (r: i32)
    requires
        bits_in_range(bits1@),
        bits_in_range(bits2@),
        thresh@.len() == 21,
    ensures
        0 <= r < 64,
        r > 0 ==> lerp_sum(bits1@, bits2@, thresh@, r as int, 21) <= total,
        r < 63 ==> lerp_sum(bits1@, bits2@, thresh@, r + 1, 21) > total,
{
    let mut lo: i32 = 0;
    let mut hi: i32 = 64;
    let mut k: usize = 0;
    proof {
        reveal_with_fuel(p2, 7);
    }
    while k < 6
        invariant
            k <= 6,
            0 <= lo < hi <= 64,
            hi - lo == p2((6 - k) as nat),
            bits_in_range(bits1@),
            bits_in_range(bits2@),
            thresh@.len() == 21,
            lo > 0 ==> lerp_sum(bits1@, bits2@, thresh@, lo as int, 21) <= total,
            hi < 64 ==> lerp_sum(bits1@, bits2@, thresh@, hi as int, 21) > total,
        decreases 6 - k,
    {
        proof {
            reveal_with_fuel(p2, 7);
        }
        let mid = (lo + hi) / 2;
        let sum = lerp(bits1, bits2, thresh, mid);
        if sum > total {
            hi = mid;
        } else {
            lo = mid;
        }
        k = k + 1;
    }
    proof {
        reveal_with_fuel(p2, 2);
    }
    lo
}

/// Band `i`'s allocation at `t`, with a band below its threshold given the 16 1/8 bits of
/// its fine energy if it has that many, and nothing otherwise.
pub open spec fn bits_at(bits1: Seq<i32>, bits2: Seq<i32>, thresh: Seq<i32>, t: int, i: int) -> int {
    let b = interp(bits1, bits2, t, i);
    if b < thresh[i] {
        if b >= 16 {
            16
        } else {
            0
        }
    } else {
        b
    }
}

/// Writes each band's allocation at `t/64` of the way from `bits1` to `bits2`.
pub fn get_bits(ebits: &mut [i32], t: i32, bits1: &[i32], bits2: &[i32], thresh: &[i32])
    requires
        old(ebits)@.len() == 21,
        bits_in_range(bits1@),
        bits_in_range(bits2@),
        thresh@.len() == 21,
        0 <= t <= 64,
    ensures
        final(ebits)@.len() == 21,
        forall|i: int| 0 <= i < 21 ==> #[trigger] final(ebits)@[i] == bits_at(bits1@, bits2@, thresh@, t as int, i),
{
    let mut i: usize = 0;
    while i < NUM_BANDS
        invariant
            0 <= i <= 21,
            ebits@.len() == 21,
            bits_in_range(bits1@),
            bits_in_range(bits2@),
            thresh@.len() == 21,
            0 <= t <= 64,
            forall|j: int| 0 <= j < i ==> #[trigger] ebits@[j] == bits_at(bits1@, bits2@, thresh@, t as int, j),
        decreases 21 - i,
    {
        proof {
            lemma_interp_bounds(bits1@, bits2@, t as int, i as int);
        }
        let mut bits = bits1[i] + (bits2[i] - bits1[i]) * t / 64;
        if bits < thresh[i] {
            if bits >= 16 {
                bits = 16;
            } else {
                bits = 0;
            }
        }
        ebits[i] = bits;
        i = i + 1;
    }
}

/// Allocations after interpolation: 21 bands, each well inside `i32`.
pub open spec fn alloc_bounded(b: Seq<i32>) -> bool {
    &&& b.len() == 21
    &&& forall|i: int| 0 <= i < 21 ==> -13_000_000 <= #[trigger] b[i] <= 13_000_000
}

/// Rust's remainder, with the sign of the dividend.
pub open spec fn trem(a: int, b: int) -> int {
    a - tdiv(a, b) * b
}

/// The part of a remainder `left` that band `i` receives when it is handed out one bin at a
/// time from the lowest band (a negative remainder all goes to band 0).
pub open spec fn share(left: int, i: int) -> int {
    if left < 0 {
        if i == 0 {
            left
        } else {
            0
        }
    } else if left - BANDS@[i] <= 0 {
        0
    } else if left - BANDS@[i] < BAND_WIDTHS@[i] {
        left - BANDS@[i]
    } else {
        BAND_WIDTHS@[i] as int
    }
}

proof fn lemma_tdiv_scaled(x: int, d: int, w: int)
    requires
        1 <= w <= d,
        -300_000_000 <= x <= 300_000_000,
    ensures
        x >= 0 ==> 0 <= tdiv(x, d) * w <= x,
        x < 0 ==> x <= tdiv(x, d) * w <= 0,
        -d < trem(x, d) < d,
        x >= 0 ==> trem(x, d) >= 0,
        x < 0 ==> trem(x, d) <= 0,
{
    if x >= 0 {
        vstd::arithmetic::div_mod::lemma_fundamental_div_mod(x, d);
        vstd::arithmetic::div_mod::lemma_mod_bound(x, d);
        assert(0 <= (x / d) * w <= (x / d) * d) by (nonlinear_arith)
            requires
                x / d >= 0,
                1 <= w <= d,
        ;
        assert((x / d) * d == d * (x / d)) by (nonlinear_arith);
        assert(tdiv(x, d) * d == d * (x / d)) by (nonlinear_arith)
            requires
                tdiv(x, d) == x / d,
        ;
    } else {
        vstd::arithmetic::div_mod::lemma_fundamental_div_mod(-x, d);
        vstd::arithmetic::div_mod::lemma_mod_bound(-x, d);
        assert(0 <= ((-x) / d) * w <= ((-x) / d) * d) by (nonlinear_arith)
            requires
                (-x) / d >= 0,
                1 <= w <= d,
        ;
        assert(((-x) / d) * d == d * ((-x) / d)) by (nonlinear_arith);
        assert(-((-x) / d) * w == -(((-x) / d) * w)) by (nonlinear_arith);
        assert(-((-x) / d) * d == -(((-x) / d) * d)) by (nonlinear_arith);
        assert(tdiv(x, d) * w == -(((-x) / d) * w)) by (nonlinear_arith)
            requires
                tdiv(x, d) == -((-x) / d),
        ;
        assert(tdiv(x, d) * d == -(((-x) / d) * d)) by (nonlinear_arith)
            requires
                tdiv(x, d) == -((-x) / d),
        ;
    }
}

/// Adds to each of the first `coded_bands` bands its share of `budget`: an equal amount per
/// bin, then the remainder one bin at a time from the lowest band.
fn distribute(bits: &mut [i32], coded_bands: usize, budget: i32)
    requires
        1 <= coded_bands <= 21,
        alloc_bounded(old(bits)@),
        -280_000_000 <= budget <= 280_000_000,
    ensures
        final(bits)@.len() == 21,
        forall|i: int|
            0 <= i < coded_bands ==> #[trigger] final(bits)@[i] == old(bits)@[i] + tdiv(
                budget as int,
                BANDS@[coded_bands as int] as int,
            ) * BAND_WIDTHS@[i] + share(trem(budget as int, BANDS@[coded_bands as int] as int), i),
        forall|i: int| coded_bands <= i < 21 ==> #[trigger] final(bits)@[i] == old(bits)@[i],
        forall|i: int| 0 <= i < 21 ==> -300_000_000 <= #[trigger] final(bits)@[i] <= 300_000_000,
{
    proof {
        crate::consts::lemma_bands();
    }
    let percoeff = budget / BANDS[coded_bands] as i32;
    proof {
        lemma_tdiv_scaled(budget as int, BANDS@[coded_bands as int] as int, 1);
        lemma_tdiv_scaled(budget as int, BANDS@[coded_bands as int] as int, BANDS@[coded_bands as int] as int);
    }
    let mut left = budget - percoeff * BANDS[coded_bands] as i32;
    let ghost left0 = left as int;
    let ghost d = BANDS@[coded_bands as int] as int;
    assert(left0 == trem(budget as int, d));
    let mut i: usize = 0;
    while i < coded_bands
        invariant
            0 <= i <= coded_bands <= 21,
            bits@.len() == 21,
            d == BANDS@[coded_bands as int],
            percoeff == tdiv(budget as int, d),
            left0 == trem(budget as int, d),
            -d < left0 < d,
            left0 >= 0 ==> left == (if left0 - BANDS@[i as int] > 0 {
                left0 - BANDS@[i as int]
            } else {
                0
            }),
            left0 < 0 ==> left == (if i == 0 {
                left0
            } else {
                0
            }),
            alloc_bounded(old(bits)@),
            -280_000_000 <= budget <= 280_000_000,
            forall|j: int|
                0 <= j < i ==> #[trigger] bits@[j] == old(bits)@[j] + percoeff * BAND_WIDTHS@[j] + share(
                    left0,
                    j,
                ),
            forall|j: int| i <= j < 21 ==> #[trigger] bits@[j] == old(bits)@[j],
            forall|j: int| 0 <= j < i ==> -300_000_000 <= #[trigger] bits@[j] <= 300_000_000,
            forall|j: int| i <= j < 21 ==> -300_000_000 <= #[trigger] bits@[j] <= 300_000_000,
        decreases coded_bands - i,
    {
        proof {
            crate::consts::lemma_bands();
            lemma_tdiv_scaled(budget as int, d, BAND_WIDTHS@[i as int] as int);
            assert(BANDS@[i as int] + BAND_WIDTHS@[i as int] <= d) by {
                assert(BANDS@[i as int + 1] <= BANDS@[coded_bands as int]);
            }
        }
        let w = BAND_WIDTHS[i] as i32;
        let tmp = if left < w {
            left
        } else {
            w
        };
        bits[i] = bits[i] + percoeff * w + tmp;
        left = left - tmp;
        i = i + 1;
    }
}

/// The shape and fine-energy split of a band holding `d` 1/8 bits: `den` is the band's
/// number of coded coefficients plus one unless the band is dual stereo, and `l` is the
/// band's `ceil(8 log2 n)`.
pub open spec fn fine_offset(d: int, den: int, l: int) -> int {
    let nc = den * l;
    let off0 = nc / 2 - den * 21;
    if d + off0 < den * 16 {
        off0 + nc / 4
    } else if d + off0 < den * 24 {
        off0 + nc / 8
    } else {
        off0
    }
}

/// The fine energy bits of a band holding `d` 1/8 bits.
pub open spec fn fine_ebits(d: int, den: int, l: int) -> int {
    let v = d + fine_offset(d, den, l) + den * 4;
    (if v > 0 {
        v
    } else {
        0
    }) / den / 8
}

/// Whether the rounding of the fine energy bits favoured the band: it then gets a final
/// bit in the first priority pass.
pub open spec fn fine_prio(d: int, den: int, l: int) -> int {
    if fine_ebits(d, den, l) * den * 8 >= d + fine_offset(d, den, l) {
        1
    } else {
        0
    }
}

/// `2N`, or `2N + 1` when not dual stereo, for a band of width `w`.
pub open spec fn band_den(w: int, dual: bool) -> int {
    16 * w + if dual {
        0int
    } else {
        1int
    }
}

/// The fine energy bits, the priority and the shape bits of a band of width `w` holding
/// `b` 1/8 bits.
fn fine_band(b: i32, w: usize, dual: bool) -> (r: (i32, u32, i32))
    requires
        1 <= w <= 22,
        -300_000_000 <= b <= 300_000_000,
    ensures
        ({
            let den = band_den(w as int, dual);
            let l = crate::bands_utils::log2_frac_spec(8 * w);
            &&& r.0 == fine_ebits(b as int, den, l)
            &&& r.1 == fine_prio(b as int, den, l)
            &&& r.2 == b - 16 * r.0
        }),
{
    let n = w as i32 * 8;
    let den: i32 = 2 * n + if dual {
        0
    } else {
        1
    };
    let l = log2_frac(n as u64) as i32;
    assert(den * l <= 353 * 64) by (nonlinear_arith)
        requires
            0 <= den <= 353,
            0 <= l <= 64,
    ;
    assert(den * l >= 0) by (nonlinear_arith)
        requires
            0 <= den,
            0 <= l,
    ;
    let nc_logn = den * l;
    let mut offset = nc_logn / 2 - den * 21;
    if b + offset < den * 2 * 8 {
        offset = offset + nc_logn / 4;
    } else if b + offset < den * 3 * 8 {
        offset = offset + nc_logn / 8;
    }
    let v = b + offset + den * 4;
    let vv = if v > 0 {
        v
    } else {
        0
    };
    let e = vv / den / 8;
    assert(e * den * 8 <= vv) by (nonlinear_arith)
        requires
            e == vv / den / 8,
            vv >= 0,
            den >= 1,
    {
        vstd::arithmetic::div_mod::lemma_fundamental_div_mod(vv as int, den as int);
        vstd::arithmetic::div_mod::lemma_fundamental_div_mod((vv / den) as int, 8);
        vstd::arithmetic::div_mod::lemma_mod_bound(vv as int, den as int);
        vstd::arithmetic::div_mod::lemma_mod_bound((vv / den) as int, 8);
    }
    assert(e >= 0);
    let prio: u32 = if e * den * 8 >= b + offset {
        1
    } else {
        0
    };
    (e, prio, b - 2 * e * 8)
}

/// Splits each of the first `coded_bands` budgets between fine energy (`ebits`, per
/// channel, in whole bits) and shape (what stays in `bits`).
fn fine_split(bits: &mut [i32], ebits: &mut [i32], fine_priority: &mut [u32], coded_bands: usize, dual: bool)
    requires
        coded_bands <= 21,
        old(bits)@.len() == 21,
        old(ebits)@.len() == 21,
        old(fine_priority)@.len() == 21,
        forall|i: int| 0 <= i < 21 ==> -300_000_000 <= #[trigger] old(bits)@[i] <= 300_000_000,
    ensures
        final(bits)@.len() == 21,
        final(ebits)@.len() == 21,
        final(fine_priority)@.len() == 21,
        forall|i: int|
            0 <= i < coded_bands ==> {
                let den = band_den(BAND_WIDTHS@[i] as int, dual);
                let l = crate::bands_utils::log2_frac_spec(8 * BAND_WIDTHS@[i]);
                &&& #[trigger] final(ebits)@[i] == fine_ebits(old(bits)@[i] as int, den, l)
                &&& final(fine_priority)@[i] == fine_prio(old(bits)@[i] as int, den, l)
                &&& final(bits)@[i] == old(bits)@[i] - 16 * final(ebits)@[i]
            },
        forall|i: int|
            coded_bands <= i < 21 ==> #[trigger] final(bits)@[i] == old(bits)@[i] && final(ebits)@[i]
                == old(ebits)@[i] && final(fine_priority)@[i] == old(fine_priority)@[i],
{
    let mut i: usize = 0;
    while i < coded_bands
        invariant
            0 <= i <= coded_bands <= 21,
            bits@.len() == 21,
            ebits@.len() == 21,
            fine_priority@.len() == 21,
            forall|j: int| 0 <= j < 21 ==> -300_000_000 <= #[trigger] old(bits)@[j] <= 300_000_000,
            forall|j: int|
                0 <= j < i ==> {
                    let den = band_den(BAND_WIDTHS@[j] as int, dual);
                    let l = crate::bands_utils::log2_frac_spec(8 * BAND_WIDTHS@[j]);
                    &&& #[trigger] ebits@[j] == fine_ebits(old(bits)@[j] as int, den, l)
                    &&& fine_priority@[j] == fine_prio(old(bits)@[j] as int, den, l)
                    &&& bits@[j] == old(bits)@[j] - 16 * ebits@[j]
                },
            forall|j: int|
                i <= j < 21 ==> #[trigger] bits@[j] == old(bits)@[j] && ebits@[j] == old(ebits)@[j]
                    && fine_priority@[j] == old(fine_priority)@[j],
        decreases coded_bands - i,
    {
        proof {
            crate::consts::lemma_bands();
        }
        let (e, prio, rest) = fine_band(bits[i], BAND_WIDTHS[i], dual);
        ebits[i] = e;
        fine_priority[i] = prio;
        bits[i] = rest;
        i = i + 1;
    }
}

/// The sum of the first `n` allocations.
pub open spec fn psum(b: Seq<i32>, n: int) -> int
    decreases n,
{
    if n <= 0 {
        0
    } else {
        psum(b, n - 1) + b[n - 1]
    }
}

proof fn lemma_psum_bounds(b: Seq<i32>, n: int)
    requires
        0 <= n <= 21,
        b.len() == 21,
        forall|i: int| 0 <= i < 21 ==> -6_300_000 <= #[trigger] b[i] <= 6_300_000,
    ensures
        -n * 6_300_000 <= psum(b, n) <= n * 6_300_000,
    decreases n,
{
    if n > 0 {
        lemma_psum_bounds(b, n - 1);
    }
}

/// Decodes, from the highest band down, which bands are skipped: a band above
/// `skip_start` whose share of the budget reaches its threshold reads a flag, and a `1`
/// keeps it and all below. A skipped band keeps 16 1/8 bits for fine energy if it can.
/// Returns the coded band count, the budget, the running sum and the intensity reservation.
fn skip_bands(
    skip_start: usize,
    thresh: &[i32],
    total: i32,
    intensity_rsv: i32,
    bits: &mut [i32],
    sum: i32,
    ec: &mut EntropyCoder,
) -> (r: (usize, i32, i32, i32))
    requires
        skip_start <= 20,
        thresh@.len() == 21,
        old(bits)@.len() == 21,
        forall|j: int| 0 <= j < 21 ==> -6_300_000 <= #[trigger] old(bits)@[j] <= 6_300_000,
        sum == psum(old(bits)@, 21),
        -8 <= total <= 0x100_0000,
        0 <= intensity_rsv <= 64,
        old(ec).wf(),
    ensures
        skip_start < r.0 <= 21,
        final(bits)@.len() == 21,
        forall|j: int| 0 <= j < r.0 ==> #[trigger] final(bits)@[j] == old(bits)@[j],
        forall|j: int| r.0 <= j < 21 ==> #[trigger] final(bits)@[j] == 0 || final(bits)@[j] == 16,
        psum(old(bits)@, r.0 as int) - 4400 <= r.2 <= psum(old(bits)@, r.0 as int) + 4400,
        -8 <= r.1 <= 0x100_0000 + 8,
        0 <= r.3 <= 64,
        intensity_rsv == 0 ==> r.3 == 0,
        final(ec).wf(),
        final(ec).nbits_total >= old(ec).nbits_total,
{
    let ghost g = bits@;
    let ghost irsv0 = intensity_rsv;
    let mut sum = sum;
    let mut total = total;
    let mut intensity_rsv = intensity_rsv;
    let mut coded_bands: usize = 0;
    let mut stop = false;
    let mut i: usize = 21;
    while !stop && i > 0
        invariant
            0 <= i <= 21,
            skip_start <= 20,
            thresh@.len() == 21,
            bits@.len() == 21,
            g.len() == 21,
            forall|j: int| 0 <= j < 21 ==> -6_300_000 <= #[trigger] g[j] <= 6_300_000,
            stop ==> skip_start < coded_bands <= 21 && coded_bands == i,
            !stop ==> skip_start < i,
            forall|j: int| 0 <= j < (if stop { coded_bands as int } else { i as int }) ==> #[trigger] bits@[j] == g[j],
            forall|j: int| (if stop { coded_bands as int } else { i as int }) <= j < 21 ==> #[trigger] bits@[j] == 0 || bits@[j] == 16,
            psum(g, i as int) - 200 * (22 - i) <= sum <= psum(g, i as int) + 200 * (22 - i),
            -8 <= total <= 0x100_0000 + (if stop { 8int } else { 0int }),
            0 <= intensity_rsv <= 64,
            irsv0 == 0 ==> intensity_rsv == 0,
            ec.wf(),
            ec.nbits_total >= old(ec).nbits_total,
        decreases i + (if stop { 0int } else { 1int }),
    {
        let j = i - 1;
        proof {
            lemma_psum_bounds(g, i as int);
            lemma_psum_bounds(g, j as int);
            crate::consts::lemma_bands();
        }
        if j <= skip_start {
            total = total + 8;
            coded_bands = i;
            stop = true;
        } else {
            let d = BANDS[j + 1] as i32;
            let x = total - sum;
            proof {
                lemma_tdiv_scaled(x as int, d as int, BAND_WIDTHS@[j as int] as int);
            }
            let percoeff = x / d;
            let left = x - percoeff * d;
            let over = left - BANDS[j] as i32;
            let mut band_bits = bits[j] + percoeff * BAND_WIDTHS[j] as i32 + if over > 0 {
                over
            } else {
                0
            };
            let mut decided = false;
            if band_bits >= thresh[j] {
                if ec.decode_bit_logp(1) == 1 {
                    coded_bands = i;
                    stop = true;
                    decided = true;
                } else {
                    sum = sum + 8;
                    band_bits = band_bits - 8;
                }
            }
            if !decided {
                sum = sum - (bits[j] + intensity_rsv);
                if intensity_rsv > 0 {
                    intensity_rsv = log2_frac((j + 1) as u64) as i32;
                }
                sum = sum + intensity_rsv;
                if band_bits >= 16 {
                    sum = sum + 16;
                    bits[j] = 16;
                } else {
                    bits[j] = 0;
                }
                i = j;
            }
        }
    }
    (coded_bands, total, sum, intensity_rsv)
}

/// Gives each band from `coded_bands` up its whole budget (0 or 16) as fine energy bits.
fn clear_uncoded(bits: &mut [i32], ebits: &mut [i32], fine_priority: &mut [u32], coded_bands: usize)
    requires
        coded_bands <= 21,
        old(bits)@.len() == 21,
        old(ebits)@.len() == 21,
        old(fine_priority)@.len() == 21,
        forall|j: int| coded_bands <= j < 21 ==> #[trigger] old(bits)@[j] == 0 || old(bits)@[j] == 16,
    ensures
        final(bits)@.len() == 21,
        final(ebits)@.len() == 21,
        final(fine_priority)@.len() == 21,
        forall|j: int| coded_bands <= j < 21 ==> #[trigger] final(bits)@[j] == 0,
        forall|j: int| coded_bands <= j < 21 ==> #[trigger] final(fine_priority)@[j] == 0,
        forall|j: int| coded_bands <= j < 21 ==> #[trigger] final(ebits)@[j] == old(bits)@[j] / 16,
        forall|j: int| 0 <= j < coded_bands ==> #[trigger] final(bits)@[j] == old(bits)@[j],
        forall|j: int| 0 <= j < coded_bands ==> #[trigger] final(ebits)@[j] == old(ebits)@[j],
        forall|j: int| 0 <= j < coded_bands ==> #[trigger] final(fine_priority)@[j] == old(fine_priority)@[j],
{
    let mut k: usize = coded_bands;
    while k < NUM_BANDS
        invariant
            coded_bands <= k <= 21,
            old(bits)@.len() == 21,
            old(ebits)@.len() == 21,
            old(fine_priority)@.len() == 21,
            forall|j: int| coded_bands <= j < 21 ==> #[trigger] old(bits)@[j] == 0 || old(bits)@[j] == 16,
            bits@.len() == 21,
            ebits@.len() == 21,
            fine_priority@.len() == 21,
            forall|j: int| coded_bands <= j < k ==> #[trigger] bits@[j] == 0,
            forall|j: int| coded_bands <= j < k ==> #[trigger] fine_priority@[j] == 0,
            forall|j: int| coded_bands <= j < k ==> #[trigger] ebits@[j] == old(bits)@[j] / 16,
            forall|j: int| k <= j < 21 ==> #[trigger] bits@[j] == old(bits)@[j],
            forall|j: int| 0 <= j < coded_bands ==> #[trigger] bits@[j] == old(bits)@[j],
            forall|j: int| 0 <= j < coded_bands ==> #[trigger] ebits@[j] == old(ebits)@[j],
            forall|j: int| 0 <= j < coded_bands ==> #[trigger] fine_priority@[j] == old(fine_priority)@[j],
        decreases 21 - k,
    {
        let v = bits[k];
        assert(v == old(bits)@[k as int]);
        assert(v == 0 || v == 16);
        let e = v / 16;
        assert(e == old(bits)@[k as int] / 16);
        ebits[k] = e;
        bits[k] = 0;
        fine_priority[k] = 0;
        k = k + 1;
    }
}

#[verifier::rlimit(40)]
/// Interpolates the allocation between two qualities, decodes which high bands are skipped
/// and the intensity and dual stereo parameters, hands out what is left, and splits each
/// coded band's budget between fine energy (`ebits`) and shape (`bits`). Returns the number
/// of coded bands: a band below it keeps `ebits` and `fine_priority` as its whole budget
/// `bits + 16 * ebits` gives them; a band above it has no shape bits, at most one fine bit,
/// and no priority.
pub fn interp_bits2pulses(
    skip_start: usize,
    bits1: &[i32],
    bits2: &[i32],
    thresh: &[i32],
    total: i32,
    intensity: &mut usize,
    intensity_rsv: i32,
    is_dual_stereo: &mut bool,
    dual_stereo_rsv: i32,
    bits: &mut [i32],
    ebits: &mut [i32],
    fine_priority: &mut [u32],
    ec: &mut EntropyCoder,
) -> (r: usize)
    requires
        skip_start <= 20,
        bits_in_range(bits1@),
        bits_in_range(bits2@),
        thresh@.len() == 21,
        -8 <= total <= 0x100_0000,
        0 <= intensity_rsv <= 64,
        0 <= dual_stereo_rsv <= 8,
        old(bits)@.len() == 21,
        old(ebits)@.len() == 21,
        old(fine_priority)@.len() == 21,
        old(ec).wf(),
    ensures
        skip_start < r <= 21,
        *final(intensity) <= r,
        intensity_rsv == 0 ==> *final(intensity) == 0,
        *final(is_dual_stereo) ==> dual_stereo_rsv > 0 && *final(intensity) > 0,
        final(bits)@.len() == 21,
        final(ebits)@.len() == 21,
        final(fine_priority)@.len() == 21,
        forall|i: int|
            0 <= i < r ==> {
                let d = final(bits)@[i] + 16 * final(ebits)@[i];
                let den = band_den(BAND_WIDTHS@[i] as int, *final(is_dual_stereo));
                let l = crate::bands_utils::log2_frac_spec(8 * BAND_WIDTHS@[i]);
                &&& #[trigger] final(ebits)@[i] == fine_ebits(d, den, l)
                &&& final(fine_priority)@[i] == fine_prio(d, den, l)
            },
        forall|i: int| r <= i < 21 ==> #[trigger] final(bits)@[i] == 0,
        forall|i: int| r <= i < 21 ==> #[trigger] final(fine_priority)@[i] == 0,
        forall|i: int| r <= i < 21 ==> 0 <= #[trigger] final(ebits)@[i] <= 1,
        final(ec).wf(),
        final(ec).nbits_total >= old(ec).nbits_total,
{
    let t = get_lo(bits1, bits2, thresh, total);
    get_bits(bits, t, bits1, bits2, thresh);
    let ghost g = bits@;
    proof {
        assert forall|i: int| 0 <= i < 21 implies -6_300_000 <= #[trigger] g[i] <= 6_300_000 by {
            lemma_interp_bounds(bits1@, bits2@, t as int, i);
        }
    }
    let mut sum: i32 = 0;
    let mut k: usize = 0;
    while k < NUM_BANDS
        invariant
            0 <= k <= 21,
            bits@ == g,
            g.len() == 21,
            forall|i: int| 0 <= i < 21 ==> -6_300_000 <= #[trigger] g[i] <= 6_300_000,
            sum == psum(g, k as int),
        decreases 21 - k,
    {
        proof {
            lemma_psum_bounds(g, k as int);
        }
        sum = sum + bits[k];
        k = k + 1;
    }
    let (coded_bands, total, sum, intensity_rsv) = skip_bands(
        skip_start,
        thresh,
        total,
        intensity_rsv,
        bits,
        sum,
        ec,
    );
    let mut total = total;
    let mut dual_stereo_rsv = dual_stereo_rsv;
    proof {
        crate::consts::lemma_bands();
        crate::utils::lemma_p2_values();
        reveal_with_fuel(p2, 6);
        crate::utils::lemma_ilog_le(coded_bands as nat, 5);
    }
    let ghost before_uint = *ec;
    *intensity = if intensity_rsv > 0 {
        ec.decode_uint(coded_bands as u32 + 1) as usize
    } else {
        0
    };
    if *intensity == 0 {
        total = total + dual_stereo_rsv;
        dual_stereo_rsv = 0;
    }
    *is_dual_stereo = if dual_stereo_rsv > 0 {
        ec.decode_bit_logp(1) == 1
    } else {
        false
    };
    proof {
        lemma_psum_bounds(g, coded_bands as int);
        assert forall|j: int| 0 <= j < 21 implies -13_000_000 <= #[trigger] bits@[j] <= 13_000_000 by {
            if j < coded_bands {
                assert(bits@[j] == g[j]);
            } else {
                assert(bits@[j] == 0 || bits@[j] == 16);
            }
        }
    }
    let ghost skipped = bits@;
    distribute(bits, coded_bands, total - sum);
    fine_split(bits, ebits, fine_priority, coded_bands, *is_dual_stereo);
    assert forall|j: int| coded_bands <= j < 21 implies #[trigger] bits@[j] == 0 || bits@[j] == 16 by {
        assert(bits@[j] == skipped[j]);
    }
    let ghost split = bits@;
    let ghost split_e = ebits@;
    clear_uncoded(bits, ebits, fine_priority, coded_bands);
    assert forall|j: int| coded_bands <= j < 21 implies 0 <= #[trigger] ebits@[j] <= 1 by {
        assert(split[j] == 0 || split[j] == 16);
        assert(ebits@[j] == split[j] / 16);
    }
    coded_bands
}

/// The static allocation of band `i` at quality `q` with trim `trim` and boost `boost`:
/// `channels * N * alloc[q][i] << LM >> 2`, tilted by the trim and floored at zero, plus
/// the boost.
pub open spec fn static_bits(q: int, i: int, trim: int, boost: int) -> int {
    let base = 4 * BAND_WIDTHS@[i] * BAND_ALLOCATION@[q]@[i] + trim_offset(i, trim);
    (if base > 0 {
        base
    } else {
        0
    }) + boost
}

/// The per-band tilt of the allocation trim.
pub open spec fn trim_offset(i: int, trim: int) -> int {
    BAND_WIDTHS@[i] * (trim - 8) * 2 * (20 - i)
}

/// The minimum shape allocation of band `i`: one bit per channel, or 1.5 bits per MDCT bin
/// of the shortest frame (48 1/128 bits per bin), whichever is more.
pub open spec fn band_thresh(i: int) -> int {
    if 12 * BAND_WIDTHS@[i] > 16 {
        12 * BAND_WIDTHS@[i]
    } else {
        16
    }
}

/// The cost of quality `q`: a band reaching its threshold costs its allocation, any other
/// the 16 1/8 bits of its fine energy.
pub open spec fn quality_cost(q: int, trim: int, boosts: Seq<i32>, n: int) -> int
    decreases n,
{
    if n <= 0 {
        0
    } else {
        let b = static_bits(q, n - 1, trim, boosts[n - 1] as int);
        quality_cost(q, trim, boosts, n - 1) + if b >= band_thresh(n - 1) {
            b
        } else {
            16
        }
    }
}

/// Boosts in range: 21 bands, each in `[0, 2^20]`.
pub open spec fn boosts_in_range(b: Seq<i32>) -> bool {
    &&& b.len() == 21
    &&& forall|i: int| 0 <= i < 21 ==> 0 <= #[trigger] b[i] <= 0x10_0000
}

proof fn lemma_static_bounds(q: int, i: int, trim: int, boost: int)
    requires
        0 <= q < 11,
        0 <= i < 21,
        0 <= trim <= 10,
        0 <= boost <= 0x10_0000,
    ensures
        0 <= static_bits(q, i, trim, boost) <= 0x10_0000 + 20_000,
        -8 * 22 * 2 * 20 <= trim_offset(i, trim) <= 2 * 22 * 2 * 20,
{
    crate::consts::lemma_bands();
    let w = BAND_WIDTHS@[i] as int;
    let a = BAND_ALLOCATION@[q]@[i] as int;
    assert(0 <= a <= 200);
    assert(0 <= 4 * w * a <= 4 * 22 * 200) by (nonlinear_arith)
        requires
            1 <= w <= 22,
            0 <= a <= 200,
    ;
    assert(-8 * 22 * 2 * 20 <= w * (trim - 8) * 2 * (20 - i) <= 2 * 22 * 2 * 20) by (nonlinear_arith)
        requires
            1 <= w <= 22,
            0 <= trim <= 10,
            0 <= i < 21,
    ;
}

proof fn lemma_quality_cost_bounds(q: int, trim: int, boosts: Seq<i32>, n: int)
    requires
        0 <= q < 11,
        0 <= trim <= 10,
        boosts_in_range(boosts),
        0 <= n <= 21,
    ensures
        0 <= quality_cost(q, trim, boosts, n) <= n * (0x10_0000 + 20_000),
    decreases n,
{
    if n > 0 {
        lemma_quality_cost_bounds(q, trim, boosts, n - 1);
        lemma_static_bounds(q, n - 1, trim, boosts[n - 1] as int);
        assert((n - 1) * (0x10_0000 + 20_000) + (0x10_0000 + 20_000) == n * (0x10_0000 + 20_000)) by (nonlinear_arith);
    }
}

/// The cost of quality `q` for all bands.
fn quality_sum(q: usize, trim: i32, boosts: &[i32]) -> (r: i32)
    requires
        q < 11,
        0 <= trim <= 10,
        boosts_in_range(boosts@),
    ensures
        r == quality_cost(q as int, trim as int, boosts@, 21),
{
    let mut sum: i32 = 0;
    let mut i: usize = 0;
    while i < NUM_BANDS
        invariant
            0 <= i <= 21,
            q < 11,
            0 <= trim <= 10,
            boosts_in_range(boosts@),
            sum == quality_cost(q as int, trim as int, boosts@, i as int),
        decreases 21 - i,
    {
        proof {
            lemma_static_bounds(q as int, i as int, trim as int, boosts@[i as int] as int);
            lemma_quality_cost_bounds(q as int, trim as int, boosts@, i as int);
            crate::consts::lemma_bands();
        }
        let bits = static_band(q, i, trim, boosts[i]);
        let th = thresh_of(i);
        if bits >= th {
            sum = sum + bits;
        } else {
            sum = sum + 16;
        }
        i = i + 1;
    }
    sum
}

/// The static allocation of band `i` at quality `q`.
fn static_band(q: usize, i: usize, trim: i32, boost: i32) -> (r: i32)
    requires
        q < 11,
        i < 21,
        0 <= trim <= 10,
        0 <= boost <= 0x10_0000,
    ensures
        r == static_bits(q as int, i as int, trim as int, boost as int),
{
    proof {
        lemma_static_bounds(q as int, i as int, trim as int, boost as int);
        crate::consts::lemma_bands();
    }
    let w = BAND_WIDTHS[i] as i32;
    let a = BAND_ALLOCATION[q][i];
    assert(0 <= 4 * w * a <= 4 * 22 * 200) by (nonlinear_arith)
        requires
            1 <= w <= 22,
            0 <= a <= 200,
    ;
    let ti = trim - 8;
    assert(-8 * 22 <= w * ti <= 2 * 22) by (nonlinear_arith)
        requires
            1 <= w <= 22,
            -8 <= ti <= 2,
    ;
    let wt = w * ti * 2;
    let k = 20 - i as i32;
    assert(-8 * 22 * 2 * 20 <= wt * k <= 2 * 22 * 2 * 20) by (nonlinear_arith)
        requires
            -8 * 22 * 2 <= wt <= 2 * 22 * 2,
            0 <= k <= 20,
    ;
    assert(wt * k == trim_offset(i as int, trim as int)) by (nonlinear_arith)
        requires
            wt == w * ti * 2,
            ti == trim - 8,
            k == 20 - i,
            w == BAND_WIDTHS@[i as int],
    ;
    let base = 4 * w * a + wt * k;
    (if base > 0 {
        base
    } else {
        0
    }) + boost
}

/// The minimum shape allocation of band `i`.
fn thresh_of(i: usize) -> (r: i32)
    requires
        i < 21,
    ensures
        r == band_thresh(i as int),
{
    let t = 12 * BAND_WIDTHS[i] as i32;
    if t > 16 {
        t
    } else {
        16
    }
}

/// The allocation of a frame of `length` bytes: reserves room for the anti-collapse flag,
/// the skip flag and the intensity and dual stereo parameters, searches the highest quality
/// of the static table whose cost fits, and interpolates between it and the one below (see
/// `interp_bits2pulses` for the outputs). Returns the number of coded bands.
pub fn compute_allocation(
    boosts: &[i32],
    allocation_trim: i32,
    intensity: &mut usize,
    is_dual_stereo: &mut bool,
    length: usize,
    is_transient: bool,
    pulses: &mut [i32],
    ebits: &mut [i32],
    fine_priority: &mut [u32],
    ec: &mut EntropyCoder,
) -> (r: usize)
    requires
        boosts_in_range(boosts@),
        0 <= allocation_trim <= 10,
        length <= 0x1_0000,
        old(pulses)@.len() == 21,
        old(ebits)@.len() == 21,
        old(fine_priority)@.len() == 21,
        old(ec).wf(),
    ensures
        1 <= r <= 21,
        *final(intensity) <= r,
        *final(is_dual_stereo) ==> *final(intensity) > 0,
        final(pulses)@.len() == 21,
        final(ebits)@.len() == 21,
        final(fine_priority)@.len() == 21,
        forall|i: int|
            0 <= i < r ==> {
                let d = final(pulses)@[i] + 16 * final(ebits)@[i];
                let den = band_den(BAND_WIDTHS@[i] as int, *final(is_dual_stereo));
                let l = crate::bands_utils::log2_frac_spec(8 * BAND_WIDTHS@[i]);
                &&& #[trigger] final(ebits)@[i] == fine_ebits(d, den, l)
                &&& final(fine_priority)@[i] == fine_prio(d, den, l)
            },
        forall|i: int| r <= i < 21 ==> #[trigger] final(pulses)@[i] == 0,
        forall|i: int| r <= i < 21 ==> #[trigger] final(fine_priority)@[i] == 0,
        forall|i: int| r <= i < 21 ==> 0 <= #[trigger] final(ebits)@[i] <= 1,
        final(ec).wf(),
        final(ec).nbits_total >= old(ec).nbits_total,
{
    let tf = ec.tell_frac();
    let mut total: i32 = if tf <= length * 64 {
        (length * 64 - tf) as i32 - 1
    } else {
        -1
    };
    let anti_collapse_rsv: i32 = if is_transient && total >= 5 * 8 {
        8
    } else {
        0
    };
    total = total - anti_collapse_rsv;
    if total < 0 {
        total = 0;
    }
    let skip_rsv: i32 = if total > 8 {
        8
    } else {
        0
    };
    total = total - skip_rsv;
    let mut dual_stereo_rsv: i32 = 0;
    let mut intensity_rsv = log2_frac((NUM_BANDS + 1) as u64) as i32;
    if intensity_rsv > total {
        intensity_rsv = 0;
    } else {
        dual_stereo_rsv = 8;
        total = total - (intensity_rsv + 8);
    }
    let mut thresh: [i32; 21] = [0; 21];
    let mut i: usize = 0;
    while i < NUM_BANDS
        invariant
            0 <= i <= 21,
            thresh@.len() == 21,
            forall|j: int| 0 <= j < i ==> #[trigger] thresh@[j] == band_thresh(j),
        decreases 21 - i,
    {
        thresh[i] = thresh_of(i);
        i = i + 1;
    }
    let mut lo: usize = 1;
    let mut hi: usize = NUM_QUALITIES - 1;
    while lo <= hi
        invariant
            1 <= lo <= 11,
            hi <= 10,
            lo <= hi + 1,
            0 <= allocation_trim <= 10,
            boosts_in_range(boosts@),
        decreases hi + 1 - lo,
    {
        let mid = (lo + hi) / 2;
        let sum = quality_sum(mid, allocation_trim, boosts);
        if sum > total {
            hi = mid - 1;
        } else {
            lo = mid + 1;
        }
    }
    let q2: usize = if lo > 10 {
        10
    } else {
        lo
    };
    let q1: usize = lo - 1;
    let mut bits1: [i32; 21] = [0; 21];
    let mut bits2: [i32; 21] = [0; 21];
    let mut skip_start: usize = 0;
    let mut i: usize = 0;
    while i < NUM_BANDS
        invariant
            0 <= i <= 21,
            q1 < 11,
            q2 < 11,
            0 <= allocation_trim <= 10,
            boosts_in_range(boosts@),
            bits1@.len() == 21,
            bits2@.len() == 21,
            skip_start <= 20,
            forall|j: int| 0 <= j < i ==> 0 <= #[trigger] bits1@[j] <= MAX_BAND_BITS,
            forall|j: int| 0 <= j < i ==> 0 <= #[trigger] bits2@[j] <= MAX_BAND_BITS,
            forall|j: int| i <= j < 21 ==> #[trigger] bits1@[j] == 0,
            forall|j: int| i <= j < 21 ==> #[trigger] bits2@[j] == 0,
        decreases 21 - i,
    {
        proof {
            lemma_static_bounds(q1 as int, i as int, allocation_trim as int, boosts@[i as int] as int);
            lemma_static_bounds(q2 as int, i as int, allocation_trim as int, boosts@[i as int] as int);
        }
        bits1[i] = static_band(q1, i, allocation_trim, boosts[i]);
        bits2[i] = static_band(q2, i, allocation_trim, boosts[i]);
        if boosts[i] > 0 {
            skip_start = i;
        }
        i = i + 1;
    }
    let r = interp_bits2pulses(
        skip_start,
        &bits1,
        &bits2,
        &thresh,
        total,
        intensity,
        intensity_rsv,
        is_dual_stereo,
        dual_stereo_rsv,
        pulses,
        ebits,
        fine_priority,
        ec,
    );
    r
}

} // verus!
