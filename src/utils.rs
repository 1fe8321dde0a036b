//! Small integer helpers shared by the decoder.
use vstd::prelude::*;

verus! {

/// The multiplier of the noise generator.
pub const LCG_MUL: u64 = 1664525;

/// The increment of the noise generator.
pub const LCG_ADD: u64 = 1013904223;

/// One step of the linear congruential generator `x' = (a * x + c) mod 2^32`.
pub open spec fn lcg_next(seed: u32) -> u32 {
    ((LCG_MUL * seed + LCG_ADD) % 0x1_0000_0000) as u32
}

/// The generator state after `n` steps from `seed`.
pub open spec fn lcg_iter(seed: u32, n: nat) -> u32
    decreases n,
{
    if n == 0 {
        seed
    } else {
        lcg_next(lcg_iter(seed, (n - 1) as nat))
    }
}

/// Linear congruential generator with `a = 1664525`, `c = 1013904223` and `m = 2^32`.
pub fn lcg_rand(seed: u32) -> (r: u32)
    ensures
        r == lcg_next(seed),
{
    ((LCG_MUL * seed as u64 + LCG_ADD) % 0x1_0000_0000u64) as u32
}

/// `2^e`.
pub open spec fn p2(e: nat) -> nat
    decreases e,
{
    if e == 0 {
        1
    } else {
        2 * p2((e - 1) as nat)
    }
}

/// The number of significant bits of `x`: `0` for `0`, else `floor(log2(x)) + 1`.
pub open spec fn ilog(x: nat) -> nat
    decreases x,
{
    if x == 0 {
        0
    } else {
        1 + ilog(x / 2)
    }
}

pub proof fn lemma_p2_pos(e: nat)
    ensures
        p2(e) >= 1,
    decreases e,
{
    if e > 0 {
        lemma_p2_pos((e - 1) as nat);
    }
}

pub proof fn lemma_p2_adds(a: nat, b: nat)
    ensures
        p2(a + b) == p2(a) * p2(b),
    decreases a,
{
    if a > 0 {
        lemma_p2_adds((a - 1) as nat, b);
        assert(p2(a + b) == 2 * p2((a - 1 + b) as nat));
        assert(p2(a) == 2 * p2((a - 1) as nat));
        assert(2 * (p2((a - 1) as nat) * p2(b)) == (2 * p2((a - 1) as nat)) * p2(b)) by (nonlinear_arith);
    } else {
        assert(p2(a) == 1);
        assert(a + b == b);
    }
}

pub proof fn lemma_p2_mono(a: nat, b: nat)
    requires
        a <= b,
    ensures
        p2(a) <= p2(b),
    decreases b,
{
    if a < b {
        lemma_p2_mono(a, (b - 1) as nat);
        lemma_p2_pos((b - 1) as nat);
    }
}

/// `x` has `k` significant bits exactly when `2^(k-1) <= x < 2^k`.
pub proof fn lemma_ilog_bounds(x: nat)
    ensures
        x < p2(ilog(x)),
        x > 0 ==> p2((ilog(x) - 1) as nat) <= x,
    decreases x,
{
    if x > 0 {
        lemma_ilog_bounds(x / 2);
        if x / 2 > 0 {
            assert(p2((ilog(x / 2) - 1) as nat) <= x / 2);
        }
    }
}

/// A value below `2^k` has at most `k` significant bits.
pub proof fn lemma_ilog_le(x: nat, k: nat)
    requires
        x < p2(k),
    ensures
        ilog(x) <= k,
    decreases x,
{
    if x > 0 {
        assert(k > 0);
        lemma_ilog_le(x / 2, (k - 1) as nat);
    }
}

/// A value of at least `2^k` has more than `k` significant bits.
pub proof fn lemma_ilog_gt(x: nat, k: nat)
    requires
        p2(k) <= x,
    ensures
        ilog(x) > k,
    decreases k,
{
    lemma_p2_pos(k);
    if k > 0 {
        lemma_ilog_gt(x / 2, (k - 1) as nat);
    }
}

/// The powers of two that the bounds of the decoder use.
pub proof fn lemma_p2_values()
    ensures
        p2(8) == 256,
        p2(15) == 0x8000,
        p2(16) == 0x1_0000,
        p2(23) == 0x80_0000,
        p2(24) == 0x100_0000,
        p2(31) == 0x8000_0000,
        p2(32) == 0x1_0000_0000,
{
    reveal_with_fuel(p2, 33);
}

/// `2^e` for `e < 32`.
pub fn pow2_u32(e: u32) -> (r: u32)
    requires
        e < 32,
    ensures
        r == p2(e as nat),
{
    let mut r: u32 = 1;
    let mut i: u32 = 0;
    while i < e
        invariant
            i <= e < 32,
            r == p2(i as nat),
        decreases e - i,
    {
        proof {
            lemma_p2_mono((i + 1) as nat, 31);
            lemma_p2_values();
        }
        r = r * 2;
        i = i + 1;
    }
    r
}

/// The number of significant bits of `x`.
pub fn ec_ilog(x: u32) -> (r: u32)
    ensures
        r == ilog(x as nat),
        r <= 32,
{
    let mut v: u32 = x;
    let mut n: u32 = 0;
    proof {
        lemma_p2_values();
        lemma_ilog_le(x as nat, 32);
    }
    while v > 0
        invariant
            n + ilog(v as nat) == ilog(x as nat),
            ilog(x as nat) <= 32,
        decreases v,
    {
        v = v / 2;
        n = n + 1;
    }
    n
}

} // verus!
