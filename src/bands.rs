//! Integer parts of band decoding: the pulse count search, the theta split and its bit
//! budget, collapse masks, and the time/frequency reordering of a band's samples.
use vstd::prelude::*;
use crate::entdec::{EntropyCoder, NBITS_CAP};
use crate::bands_utils::{get_theta, theta_step, bitexact_cos, bitexact_log2tan, cos_spec, log2tan_spec, shr_floor};
use crate::utils::{p2, lemma_p2_pos, lemma_p2_values, lemma_p2_mono, pow2_u32};

verus! {

/// The default spreading.
pub const SPREAD_NORMAL: i32 = 2;

/// What band decoding carries from one band to the next.
pub struct BandCtx {
    pub i: usize,
    pub intensity: usize,
    pub spread: i32,
    pub tf_change: i32,
    pub remaining_bits: i32,
    pub seed: u32,
}

/// The result of a theta split.
pub struct SplitCtx {
    pub is_inv: bool,
    pub imid: i32,
    pub iside: i32,
    pub delta: i32,
    pub itheta: i32,
    pub qalloc: i32,
}

/// `lo` is where the bisection of `bits2pulses` ends: the first entry of `cache` of at
/// least `bits`, or the last entry.
pub open spec fn is_first_at_least(cache: Seq<i32>, bits: int, lo: int) -> bool {
    &&& 0 <= lo < cache.len()
    &&& (lo == cache.len() - 1 || cache[lo] >= bits)
    &&& (lo == 0 || cache[lo - 1] < bits)
}

/// The count `bits2pulses` returns after its bisection ends at `lo`: `lo`, or `lo + 1` when
/// the cost of entry `lo` is strictly nearer to `bits` than the one below (ties round down).
pub open spec fn nearest_count(cache: Seq<i32>, bits: int, lo: int) -> int {
    let below = if lo == 0 {
        0
    } else {
        cache[lo - 1] as int
    };
    if bits - below <= cache[lo] - bits {
        lo
    } else {
        lo + 1
    }
}

/// A pulse cache: the cost, in 1/8 bits less one, of each permitted pulse count.
pub open spec fn cache_ok(cache: Seq<i32>) -> bool {
    &&& 1 <= cache.len() <= 64
    &&& forall|i: int| 0 <= i < cache.len() ==> -1 <= #[trigger] cache[i] <= 0x10_0000
}

/// Where the bisection of `bits2pulses` ends, searching `lo..=hi`: it halves toward the
/// first entry of at least `bits`.
pub open spec fn bisect(cache: Seq<i32>, bits: int, lo: int, hi: int) -> int
    decreases hi - lo,
{
    if hi > lo {
        let mid = (lo + hi) / 2;
        if cache[mid] >= bits {
            bisect(cache, bits, lo, mid)
        } else {
            bisect(cache, bits, mid + 1, hi)
        }
    } else {
        lo
    }
}

/// What `bits2pulses(cache, bits)` returns.
pub open spec fn pulse_top(cache: Seq<i32>, bits: int) -> int {
    nearest_count(cache, bits, bisect(cache, bits, 0, cache.len() - 1))
}

/// The highest entry below `q` whose cost is at most `rem`.
pub open spec fn pick_down(cache: Seq<i32>, q: int, rem: int) -> Option<int>
    decreases q,
{
    if q <= 0 {
        None
    } else if cache[q - 1] <= rem {
        Some(q - 1)
    } else {
        pick_down(cache, q - 1, rem)
    }
}

/// The pulse count entry that a piece with budget `b` and `rem` bits left takes, if any.
pub open spec fn pulse_choice(cache: Seq<i32>, b: int, rem: int) -> Option<int> {
    pick_down(cache, pulse_top(cache, b), rem)
}

pub proof fn lemma_pick_down(cache: Seq<i32>, q: int, rem: int)
    requires
        q <= cache.len(),
    ensures
        pick_down(cache, q, rem) is Some ==> 0 <= pick_down(cache, q, rem)->0 < q && cache[pick_down(
            cache,
            q,
            rem,
        )->0] <= rem,
    decreases q,
{
    if q > 0 && cache[q - 1] > rem {
        lemma_pick_down(cache, q - 1, rem);
    }
}

/// The number of cache entries whose cost is nearest to `bits`, rounding down at ties:
/// entries `0..r` are the pulse counts the band may take.
pub fn bits2pulses(cache: &[i32], bits: i32) -> (r: usize)
    requires
        cache_ok(cache@),
        -0x1000_0000 <= bits <= 0x1000_0000,
    ensures
        exists|lo: int| #[trigger] is_first_at_least(cache@, bits as int, lo) && r == nearest_count(cache@, bits as int, lo),
        r == pulse_top(cache@, bits as int),
        r <= cache@.len(),
{
    let mut lo: usize = 0;
    let mut hi: usize = cache.len() - 1;
    while hi > lo
        invariant
            0 <= lo <= hi < cache@.len(),
            cache_ok(cache@),
            bisect(cache@, bits as int, 0, cache@.len() - 1) == bisect(cache@, bits as int, lo as int, hi as int),
            hi == cache@.len() - 1 || cache@[hi as int] >= bits,
            lo == 0 || cache@[lo - 1] < bits,
        decreases hi - lo,
    {
        let mid = (lo + hi) / 2;
        if cache[mid] >= bits {
            hi = mid;
        } else {
            lo = mid + 1;
        }
    }
    assert(is_first_at_least(cache@, bits as int, lo as int));
    let below: i32 = if lo == 0 {
        0
    } else {
        cache[lo - 1]
    };
    if bits - below <= cache[lo] - bits {
        lo
    } else {
        lo + 1
    }
}

/// How a split shares `b` 1/8 bits between its halves: the mid half gets
/// `clamp((b - delta) / 2, 0, b)` (division truncating toward zero), the side half the rest.
pub open spec fn split_mid(b: int, delta: int) -> int {
    let h = crate::bands_utils::tdiv(b - delta, 2);
    let m = if b < h {
        b
    } else {
        h
    };
    if m > 0 {
        m
    } else {
        0
    }
}

/// The mid and side budgets of a split of `b` 1/8 bits with bias `delta`.
pub fn split_bits(b: i32, delta: i32) -> (r: (i32, i32))
    requires
        -0x3000_0000 <= b <= 0x3000_0000,
        -0x3000_0000 <= delta <= 0x3000_0000,
    ensures
        r.0 == split_mid(b as int, delta as int),
        r.0 + r.1 == b,
        r.0 >= 0,
        b >= 0 ==> r.0 <= b,
{
    let h = (b - delta) / 2;
    let m = if b < h {
        b
    } else {
        h
    };
    let mbits = if m > 0 {
        m
    } else {
        0
    };
    (mbits, b - mbits)
}

/// At each split the bits are conserved: the two halves' budgets and the cost of the angle
/// make up the budget the split started with.
pub proof fn lemma_split_conserves(b_initial: int, qalloc: int, delta: int)
    ensures
        split_mid(b_initial - qalloc, delta) + (b_initial - qalloc - split_mid(b_initial - qalloc, delta))
            + qalloc == b_initial,
{
}

/// The angle of a split in Q14 (`16384` is a right angle) from its index `t` of `qn`.
pub open spec fn theta_of(t: int, qn: int) -> int {
    t * 16384 / qn
}

/// An angle index `t` of `qn` lands on a coded angle: `0`, a right angle, or between 64 and
/// `16384 - 64`.
proof fn lemma_theta_range(t: int, qn: int)
    requires
        1 <= qn <= 256,
        0 <= t <= qn,
    ensures
        0 <= theta_of(t, qn) <= 16384,
        t == 0 ==> theta_of(t, qn) == 0,
        t == qn ==> theta_of(t, qn) == 16384,
        0 < t < qn ==> 64 <= theta_of(t, qn) <= 16384 - 64,
{
    assert(0 <= t * 16384 <= qn * 16384) by (nonlinear_arith)
        requires
            0 <= t <= qn,
    ;
    vstd::arithmetic::div_mod::lemma_div_is_ordered(t * 16384, qn * 16384, qn);
    vstd::arithmetic::div_mod::lemma_div_multiples_vanish(16384, qn);
    assert(qn * 16384 == 16384 * qn) by (nonlinear_arith);
    vstd::arithmetic::div_mod::lemma_div_is_ordered(0, t * 16384, qn);
    if t == 0 {
        assert(t * 16384 == 0);
    }
    if t >= 1 {
        vstd::arithmetic::div_mod::lemma_div_is_ordered(16384, t * 16384, qn);
        vstd::arithmetic::div_mod::lemma_div_is_ordered_by_denominator(16384, qn, 256);
    }
    if 0 < t < qn {
        let a = t * 16384;
        let x = a / qn;
        assert(a <= qn * 16384 - 16384) by (nonlinear_arith)
            requires
                t <= qn - 1,
                a == t * 16384,
        ;
        vstd::arithmetic::div_mod::lemma_fundamental_div_mod(a, qn);
        vstd::arithmetic::div_mod::lemma_mod_bound(a, qn);
        assert(qn * x <= qn * 16384 - 16384);
        assert(x <= 16384 - 64) by (nonlinear_arith)
            requires
                qn * x <= qn * 16384 - 16384,
                1 <= qn <= 256,
        ;
    }
}

/// Decodes the angle of a split of a band of `n` samples per half and computes what the
/// split needs: `imid` and `iside`, the Q15 cosine and sine of the angle; `delta`, the
/// bias of the bit split from their log ratio; and `qalloc`, the 1/8 bits the angle cost,
/// which `b` pays. In the intensity stereo bands the angle is zero and, with more than two
/// bits, a bit says whether the side is inverted. A zero resolution codes nothing.
pub fn compute_theta(
    qn: i32,
    ec: &mut EntropyCoder,
    ctx: &mut BandCtx,
    sctx: &mut SplitCtx,
    n: usize,
    b: &mut i32,
    b0: i32,
    is_stereo: bool,
)
    requires
        old(ec).wf(),
        0 <= qn <= 256,
        qn % 2 == 0,
        1 <= n <= 0x4000,
        -0x2000_0000 <= *old(b) <= 0x2000_0000,
        qn == 256 && !is_stereo && b0 > 1 ==> old(ec).raw_room() >= 1,
    ensures
        final(ec).wf(),
        final(ec).nbits_total >= old(ec).nbits_total,
        *final(ctx) == *old(ctx),
        final(sctx).qalloc == final(ec).tell_frac_spec() - old(ec).tell_frac_spec(),
        -263 <= final(sctx).qalloc <= 647,
        final(ec).nbits_total <= old(ec).nbits_total + 48,
        *final(b) == *old(b) - final(sctx).qalloc,
        0 <= final(sctx).itheta <= 16384,
        is_stereo && old(ctx).i >= old(ctx).intensity ==> final(sctx).itheta == 0,
        qn == 0 ==> final(sctx).itheta == 0,
        final(sctx).is_inv ==> is_stereo && old(ctx).i >= old(ctx).intensity && *old(b) > 16,
        is_stereo && old(ctx).i >= old(ctx).intensity && *old(b) > 16 ==> final(sctx).is_inv == (
        EntropyCoder::bit_value(*old(ec), 2) == 1) && *final(ec) == EntropyCoder::bit_next(*old(ec), 2),
        (is_stereo && old(ctx).i >= old(ctx).intensity && *old(b) <= 16) || (!(is_stereo && old(ctx).i
            >= old(ctx).intensity) && qn == 0) ==> *final(ec) == *old(ec) && final(sctx).qalloc == 0,
        !(is_stereo && old(ctx).i >= old(ctx).intensity) && qn > 0 ==> exists|t: int|
            #[trigger] theta_step(*old(ec), *final(ec), qn as int, b0 as int, is_stereo, t)
                && final(sctx).itheta == theta_of(t, qn as int),
        final(sctx).imid == cos_spec(final(sctx).itheta as int),
        final(sctx).iside == cos_spec(16384 - final(sctx).itheta),
        final(sctx).delta == ((n - 1) * log2tan_spec(final(sctx).iside as int, final(sctx).imid as int) + 128) / 256,
        -0x400_0000 <= final(sctx).delta <= 0x400_0000,
{
    let tell = ec.tell_frac() as i32;
    let ghost t0 = ec.tell_frac_spec();
    sctx.is_inv = false;
    if is_stereo && ctx.i >= ctx.intensity {
        if *b > 16 {
            sctx.is_inv = ec.decode_bit_logp(2) == 1;
        }
        sctx.itheta = 0;
    } else if qn == 0 {
        sctx.itheta = 0;
    } else {
        proof {
            lemma_p2_values();
            if qn < 256 {
                crate::utils::lemma_ilog_le(qn as nat, 8);
            } else {
                crate::utils::lemma_ilog_le(256, 9);
                crate::utils::lemma_ilog_gt(256, 8);
            }
        }
        let ghost s0 = *ec;
        let t = get_theta(ec, qn, b0, is_stereo);
        assert(theta_step(s0, *ec, qn as int, b0 as int, is_stereo, t as int));
        assert(0 <= t * 16384 <= qn * 16384) by (nonlinear_arith)
            requires
                0 <= t <= qn,
        ;
        sctx.itheta = t * 16384 / qn;
        proof {
            lemma_theta_range(t as int, qn as int);
        }
    }
    let tell2 = ec.tell_frac() as i32;
    sctx.qalloc = tell2 - tell;
    *b = *b - sctx.qalloc;
    let it = sctx.itheta;
    sctx.imid = bitexact_cos(it as i16) as i32;
    sctx.iside = bitexact_cos((16384 - it) as i16) as i32;
    let l = bitexact_log2tan(sctx.iside, sctx.imid);
    let m = n as i32 - 1;
    assert(-16383 * 40000 <= m * l <= 16383 * 40000) by (nonlinear_arith)
        requires
            0 <= m <= 16383,
            -40000 <= l <= 40000,
    ;
    proof {
        lemma_p2_values();
    }
    sctx.delta = shr_floor(m * l + 128, 8);
}

/// The pulse count entry a band without a split takes: the highest entry below
/// `bits2pulses(cache, b)` whose cost fits in `remaining_bits`, if any.
pub fn choose_pulses(cache: &[i32], b: i32, remaining_bits: i32) -> (r: Option<usize>)
    requires
        cache_ok(cache@),
        -0x1000_0000 <= b <= 0x1000_0000,
    ensures
        exists|lo: int|
            #[trigger] is_first_at_least(cache@, b as int, lo) && ({
                let top = nearest_count(cache@, b as int, lo);
                &&& r is Some ==> r->0 < top && cache@[r->0 as int] <= remaining_bits && forall|q: int|
                    r->0 < q < top ==> #[trigger] cache@[q] > remaining_bits
                &&& r is None ==> forall|q: int| 0 <= q < top ==> #[trigger] cache@[q] > remaining_bits
            }),
        r is Some <==> pulse_choice(cache@, b as int, remaining_bits as int) is Some,
        r is Some ==> r->0 == pulse_choice(cache@, b as int, remaining_bits as int)->0,
{
    let top = bits2pulses(cache, b);
    let ghost lo = choose|lo: int| #[trigger] is_first_at_least(cache@, b as int, lo) && top == nearest_count(cache@, b as int, lo);
    let mut q: usize = top;
    while q > 0
        invariant
            q <= top <= cache@.len(),
            is_first_at_least(cache@, b as int, lo),
            top == nearest_count(cache@, b as int, lo),
            forall|q2: int| q <= q2 < top ==> #[trigger] cache@[q2] > remaining_bits,
            top == pulse_top(cache@, b as int),
            pick_down(cache@, top as int, remaining_bits as int) == pick_down(cache@, q as int, remaining_bits as int),
        decreases q,
    {
        if cache[q - 1] <= remaining_bits {
            assert(is_first_at_least(cache@, b as int, lo));
            return Some(q - 1);
        }
        q = q - 1;
    }
    assert(is_first_at_least(cache@, b as int, lo));
    None
}

/// Biases the bit split of a split with time blocks (`b0 > 0`, after halving) toward the half
/// that carries the energy: for `itheta > 8192` `delta` loses `delta >> (4 - lm)`, otherwise
/// it becomes `min(0, delta + (n >> (2 - lm)))`.
pub fn adjust_delta(delta: i32, itheta: i32, n: usize, lm: i32) -> (r: i32)
    requires
        -1 <= lm <= 2,
        n <= 0x1_0000,
        -0x1000_0000 <= delta <= 0x1000_0000,
    ensures
        itheta > 8192 ==> r == delta - (delta as int) / (p2((4 - lm) as nat) as int),
        itheta <= 8192 ==> r == (if delta + (n as int) / (p2((2 - lm) as nat) as int) < 0 {
            delta + (n as int) / (p2((2 - lm) as nat) as int)
        } else {
            0
        }),
        -0x1000_0000 <= r <= 0x1000_0000,
{
    proof {
        lemma_p2_values();
        reveal_with_fuel(p2, 6);
    }
    if itheta > 8192 {
        delta - shr_floor(delta, (4 - lm) as u32)
    } else {
        let d = delta + (n / pow2_u32((2 - lm) as u32) as usize) as i32;
        if d < 0 {
            d
        } else {
            0
        }
    }
}

/// The fill mask of the halves of a split whose angle is `itheta`: an angle of zero leaves
/// only the mid's `b0` blocks, a right angle only the side's.
pub fn split_fill(fill: u32, itheta: i32, b0: u32) -> (r: u32)
    requires
        b0 <= 15,
    ensures
        itheta == 0 ==> r == fill & ((p2(b0 as nat) - 1) as u32),
        itheta == 16384 ==> r == fill & ((p2(b0 as nat) - 1) * p2(b0 as nat)) as u32,
        itheta != 0 && itheta != 16384 ==> r == fill,
{
    proof {
        lemma_p2_values();
        lemma_p2_mono(b0 as nat, 15);
        lemma_p2_pos(b0 as nat);
    }
    let p = pow2_u32(b0);
    let m = p - 1;
    assert(m * p <= 0x8000 * 0x8000) by (nonlinear_arith)
        requires
            m < 0x8000,
            p <= 0x8000,
    ;
    if itheta == 0 {
        fill & m
    } else if itheta == 16384 {
        fill & (m * p)
    } else {
        fill
    }
}

/// The budget of the second half of a split: `other` plus what the first half left unspent
/// beyond three bits (`first - spent - 24`), when the angle lets the second half code
/// anything.
pub fn rebalance(other: i32, first: i32, spent: i32, allowed: bool) -> (r: i32)
    requires
        -0x1000_0000 <= other <= 0x1000_0000,
        -0x1000_0000 <= first <= 0x1000_0000,
        -0x1000_0000 <= spent <= 0x1000_0000,
    ensures
        r == (if first - spent > 3 * 8 && allowed {
            other + first - spent - 3 * 8
        } else {
            other as int
        }),
{
    let left = first - spent;
    if left > 3 * 8 && allowed {
        other + left - 3 * 8
    } else {
        other
    }
}

/// How the fill mask of a band changes with one time-resolution recombination: each pair
/// of blocks becomes one block, filled if either was.
pub const BIT_INTERLEAVE_TABLE: [u32; 16] = [0, 1, 1, 1, 2, 3, 3, 3, 2, 3, 3, 3, 2, 3, 3, 3];

/// How a collapse mask changes when a recombination is undone: each block becomes two.
pub const BIT_DEINTERLEAVE_TABLE: [u8; 16] = [
    0x00, 0x03, 0x0C, 0x0F, 0x30, 0x33, 0x3C, 0x3F, 0xC0, 0xC3, 0xCC, 0xCF, 0xF0, 0xF3, 0xFC, 0xFF,
];

/// The fill mask after one recombination.
pub fn recombine_fill(fill: u32) -> (r: u32)
    requires
        fill < 256,
    ensures
        r == BIT_INTERLEAVE_TABLE@[fill as int % 16] + 4 * BIT_INTERLEAVE_TABLE@[fill as int / 16],
        r < 16,
{
    BIT_INTERLEAVE_TABLE[(fill % 16) as usize] + BIT_INTERLEAVE_TABLE[(fill / 16) as usize] * 4
}

/// The collapse mask after one recombination is undone.
pub fn split_mask(cm: u32) -> (r: u32)
    requires
        cm < 16,
    ensures
        r == BIT_DEINTERLEAVE_TABLE@[cm as int],
        r < 256,
{
    BIT_DEINTERLEAVE_TABLE[cm as usize] as u32
}

/// The budget of band `i` of `coded_bands`: its allocation plus a share of the running
/// balance, a third while three or more coded bands remain, half for the one before last
/// and all of it for the last; nothing for uncoded bands.
pub fn band_budget(pulses: i32, balance: i32, coded_bands: usize, i: usize) -> (r: i32)
    requires
        -0x1000_0000 <= pulses <= 0x1000_0000,
        -0x1000_0000 <= balance <= 0x1000_0000,
    ensures
        i >= coded_bands ==> r == 0,
        i < coded_bands ==> r == pulses + crate::bands_utils::tdiv(
            balance as int,
            if coded_bands - i < 3 {
                (coded_bands - i) as int
            } else {
                3int
            },
        ),
{
    if i < coded_bands {
        let d = if coded_bands - i < 3 {
            (coded_bands - i) as i32
        } else {
            3
        };
        pulses + balance / d
    } else {
        0
    }
}

/// The fill mask after `n` recombinations.
pub open spec fn recombine_n(fill: u32, n: nat) -> u32
    decreases n,
{
    if n == 0 {
        fill
    } else {
        let f = recombine_n(fill, (n - 1) as nat);
        (BIT_INTERLEAVE_TABLE@[f as int % 16] + 4 * BIT_INTERLEAVE_TABLE@[(f as int % 256) / 16]) as u32
    }
}

/// The time divisions of a band of `len` samples in `b0` blocks with time-frequency change
/// `tf`: the block count doubles while `tf < 0` and the blocks hold an even count of samples.
pub open spec fn divide_steps(len: int, b0: int, tf: int) -> nat
    decreases (if tf < 0 { -tf } else { 0 }),
{
    if tf < 0 && b0 >= 1 && (len / b0) % 2 == 0 {
        1 + divide_steps(len, 2 * b0, tf + 1)
    } else {
        0
    }
}

/// The fill mask after `n` time divisions starting at `b0` blocks: each copies the mask
/// onto the new blocks.
pub open spec fn widen_fill(fill: u32, b0: nat, n: nat) -> u32
    decreases n,
{
    if n == 0 {
        fill
    } else {
        widen_fill(fill | (fill << b0 as u32), 2 * b0, (n - 1) as nat)
    }
}

/// The time/frequency layout of a mono band of `len` samples: `tf_change > 0` recombines
/// blocks that many times, `tf_change < 0` divides them (`divide_steps`). Returns the
/// recombinations, the block count after both, the divisions, and the fill mask after both.
pub fn mono_layout(len: usize, tf_change: i32, transient: bool, fill: u32) -> (r: (usize, usize, usize, u32))
    requires
        -3 <= tf_change <= 3,
        transient ==> tf_change >= -1,
        fill < 256,
    ensures
        r.0 == (if tf_change > 0 { tf_change as int } else { 0 }),
        r.2 == divide_steps(len as int, (if transient { 8int } else { 1int }) / p2(r.0 as nat) as int, tf_change as int),
        r.1 == (if transient { 8int } else { 1int }) / p2(r.0 as nat) as int * p2(r.2 as nat) as int,
        r.3 == widen_fill(recombine_n(fill, r.0 as nat), ((if transient { 8int } else { 1int }) / p2(r.0 as nat) as int) as nat, r.2 as nat),
        r.1 <= 16,
        r.3 < 0x1_0000,
        r.2 <= 3,
        r.0 > 0 ==> r.2 == 0,
{
    let recombine: usize = if tf_change > 0 {
        tf_change as usize
    } else {
        0
    };
    let mut f = fill;
    let mut k: usize = 0;
    while k < recombine
        invariant
            k <= recombine <= 3,
            recombine == (if tf_change > 0 { tf_change as int } else { 0 }),
            -3 <= tf_change <= 3,
            transient ==> tf_change >= -1,
            f == recombine_n(fill, k as nat),
            f < 256,
        decreases recombine - k,
    {
        f = recombine_fill(f);
        k = k + 1;
    }
    proof {
        lemma_p2_values();
        reveal_with_fuel(p2, 4);
    }
    let blocks: usize = if transient {
        8
    } else {
        1
    };
    let p = pow2_u32(recombine as u32);
    assert(recombine == 0 ==> p == 1);
    assert(p >= 1);
    let base: usize = if recombine == 0 {
        blocks
    } else {
        blocks / p as usize
    };
    assert(p2(0) == 1);
    assert(blocks == (if transient { 8int } else { 1int }));
    assert(p == p2(recombine as nat));
    proof {
        let d = p2(recombine as nat) as int;
        let bl = if transient { 8int } else { 1int };
        if recombine == 0 {
            assert(d == 1);
            assert(bl / d == bl) by (nonlinear_arith)
                requires
                    d == 1,
            ;
        } else {
            assert(base == bl / d);
        }
    }
    assert(base == (if transient { 8int } else { 1int }) / p2(recombine as nat) as int);
    let mut b0 = base;
    let mut tf = tf_change;
    let mut td: usize = 0;
    let ghost f0 = f;
    assert(p2(0) == 1);
    assert(b0 == base * p2(0)) by (nonlinear_arith)
        requires
            b0 == base,
            p2(0) == 1,
    ;
    assert(transient ==> (base == 8 || tf_change > 0));
    while b0 >= 1 && (len / b0) % 2 == 0 && tf < 0
        invariant
            base == (if transient { 8int } else { 1int }) / p2(recombine as nat) as int,
            recombine == (if tf_change > 0 { tf_change as int } else { 0 }),
            f0 == recombine_n(fill, recombine as nat),
            tf_change < 0 ==> tf == tf_change + td,
            tf_change >= 0 ==> td == 0 && tf == tf_change,
            -3 <= tf_change <= 3,
            transient ==> tf_change >= -1,
            transient && tf_change < 0 ==> base == 8,
            !transient ==> base <= 1,
            !transient && tf_change < 0 ==> base == 1,
            b0 == base * p2(td as nat),
            td <= 3,
            divide_steps(len as int, base as int, tf_change as int) == td + divide_steps(len as int, b0 as int, tf as int),
            widen_fill(f0, base as nat, divide_steps(len as int, base as int, tf_change as int)) == widen_fill(
                f,
                b0 as nat,
                divide_steps(len as int, b0 as int, tf as int),
            ),
            transient && td == 0 ==> f < 256,
            transient && td == 1 ==> f < 0x1_0000,
            !transient && td == 0 ==> f < 256,
            !transient && td == 1 ==> f < 512,
            !transient && td == 2 ==> f < 2048,
            !transient && td == 3 ==> f < 0x8000,
            b0 <= 16,
        decreases -tf,
    {
        proof {
            reveal_with_fuel(p2, 4);
        }
        assert(tf_change < 0);
        assert(recombine == 0);
        assert(p2(0) == 1);
        assert(base == (if transient { 8int } else { 1int }));
        let ghost q = p2(td as nat);
        assert(td == 0 ==> q == 1);
        assert(td == 1 ==> q == 2);
        assert(td == 2 ==> q == 4);
        assert(b0 == base * q);
        assert(b0 == (if transient { 8int } else { 1int }) * q);
        assert(td == 0 ==> b0 == base) by (nonlinear_arith)
            requires
                b0 == base * q,
                td == 0 ==> q == 1,
        ;
        assert(td == 1 ==> b0 == 2 * base) by (nonlinear_arith)
            requires
                b0 == base * q,
                td == 1 ==> q == 2,
        ;
        assert(td == 2 ==> b0 == 4 * base) by (nonlinear_arith)
            requires
                b0 == base * q,
                td == 2 ==> q == 4,
        ;
        let s = b0 as u32;
        if transient {
            assert(s == 8 && f < 256);
            assert(f | (f << s) < 0x1_0000) by (bit_vector)
                requires
                    s == 8,
                    f < 256,
            ;
        } else if td == 0 {
            assert(s == 1);
            assert(f | (f << s) < 512) by (bit_vector)
                requires
                    s == 1,
                    f < 256,
            ;
        } else if td == 1 {
            assert(s == 2);
            assert(f | (f << s) < 2048) by (bit_vector)
                requires
                    s == 2,
                    f < 512,
            ;
        } else {
            assert(td == 2 && s == 4);
            assert(f | (f << s) < 0x8000) by (bit_vector)
                requires
                    s == 4,
                    f < 2048,
            ;
        }
        f = f | (f << s);
        b0 = b0 * 2;
        td = td + 1;
        tf = tf + 1;
    }
    (recombine, b0, td, f)
}

} // verus!
