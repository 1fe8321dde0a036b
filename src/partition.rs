//! The recursive split of a band into the pieces that are coded as one codeword: the angle
//! and bit budget of each split, and how each piece is filled. The samples themselves are
//! floating point; this module decides everything that the bitstream decides and lists the
//! pieces (`Leaf`) for the caller to fill in order.
use vstd::prelude::*;
use crate::bands::{BandCtx, SplitCtx, cache_ok, choose_pulses, pulse_choice, compute_theta, split_bits, adjust_delta,
    split_fill, rebalance, mono_layout, split_mask, band_budget, BIT_DEINTERLEAVE_TABLE};
use crate::bands_utils::get_estimate;
use crate::bands_utils::{compute_qn, get_pulses};
use crate::consts::BAND_WIDTHS;
use crate::cwrs::{decode_pulses, pvq_table_ok, PVQ_SIZE, lemma_pvq_entry, lemma_pvq_mono, pvq_count, pvq_decode};
use crate::entdec::EntropyCoder;
use crate::utils::{lcg_rand, p2, pow2_u32, ec_ilog, lemma_p2_values, lemma_p2_pos, lemma_p2_mono};
use crate::vq::extract_collapse_mask;

verus! {

/// How a piece of a band is filled.
pub enum LeafFill {
    /// A codeword of `k` pulses, to be scaled to the piece's gain and spread.
    Pulses(Vec<i32>, usize),
    /// Nothing: all zero.
    Zero,
    /// Noise: one generator value per sample, read as a signed integer.
    Noise(Vec<u32>),
    /// The folded lower band with a dither of `+-1/256`, positive where bit 15 of the
    /// generator value is set.
    Fold(Vec<u32>),
}

/// A piece of a band: samples `offset .. offset + len`, `stride` time blocks, the Q15
/// gains of the splits above it (mid or side), outermost first, its fill, and its collapse
/// mask `mask`, which sits at bit `shift` of the band's mask.
pub struct Leaf {
    pub offset: usize,
    pub len: usize,
    pub stride: usize,
    pub gains: Vec<i32>,
    pub fill: LeafFill,
    pub mask: u32,
    pub shift: u32,
}

/// The codeword of a `Pulses` fill (empty for the others).
pub open spec fn fill_pulses(f: LeafFill) -> Seq<i32> {
    match f {
        LeafFill::Pulses(p, _) => p@,
        _ => Seq::empty(),
    }
}

/// `f` is a codeword of `k` pulses.
pub open spec fn fill_is_pulses(f: LeafFill, k: int) -> bool {
    match f {
        LeafFill::Pulses(_, kk) => kk == k,
        _ => false,
    }
}

/// `f` is a noise (or, with `fold`, a folded) fill of `n` generator values following `seed`.
pub open spec fn fill_is_seeded(f: LeafFill, fold: bool, seed: u32, n: nat) -> bool {
    match f {
        LeafFill::Noise(s) => !fold && s@.len() == n && forall|j: int|
            0 <= j < n ==> #[trigger] s@[j] == crate::utils::lcg_iter(seed, (j + 1) as nat),
        LeafFill::Fold(s) => fold && s@.len() == n && forall|j: int|
            0 <= j < n ==> #[trigger] s@[j] == crate::utils::lcg_iter(seed, (j + 1) as nat),
        _ => false,
    }
}

/// The codeword that a piece of `len` samples can take from pulse count entry `q`: its
/// pulse count is in the table, its size fits in 32 bits and the frame has the raw bits.
pub open spec fn pulses_decodable(s: EntropyCoder, len: nat, q: int) -> bool {
    let k = crate::bands_utils::pulses_of(q + 1);
    let ft = pvq_count(len, k as nat);
    &&& 0 <= q < 207
    &&& 0 <= k < PVQ_SIZE
    &&& ft < 0x1_0000_0000
    &&& EntropyCoder::uint_bits(ft as u32) > 8 ==> s.raw_room() >= EntropyCoder::uint_bits(ft as u32) - 8
}

/// The collapse mask of a codeword `p` of `stride` blocks (`vq::extract_collapse_mask`).
pub open spec fn is_collapse_mask(p: Seq<i32>, stride: int, r: u32) -> bool {
    &&& stride <= 1 ==> r == 1
    &&& stride > 1 ==> (r as int) < p2(stride as nat) && forall|i: int|
        0 <= i < stride ==> (crate::vq::bit_set(r as int, i) <==> crate::vq::block_nonzero(p, (p.len() as int) / stride, i))
}

/// The pulse caches, by `lm + 1` and band.
pub open spec fn caches_ok(caches: Seq<Vec<Vec<i32>>>) -> bool {
    &&& caches.len() == 5
    &&& forall|l: int| 0 <= l < 5 ==> #[trigger] caches[l]@.len() == 21
    &&& forall|l: int, i: int| 0 <= l < 5 && 0 <= i < 21 ==> cache_ok(#[trigger] caches[l]@[i]@)
}

/// The largest budget, in 1/8 bits, that a piece may carry.
pub const MAX_PIECE_BITS: i32 = 0x400_0000;

#[verifier::rlimit(100)]
/// Decodes a piece that is not split. When the pulse count entry `q` that `b` and the
/// remaining bits allow (`pulse_choice`) gives a decodable codeword, the remaining bits pay
/// `cache[q]` and the piece is that codeword of `get_pulses(q + 1)` pulses; otherwise the
/// blocks that `fill` marks get noise (folded from the lower band when there is one) and an
/// empty fill gives zeros, with nothing decoded. Appends the piece (its mask at bit `shift`)
/// and returns its collapse mask.
fn nosplit_plan(
    cache: &Vec<i32>,
    v: &Vec<Vec<Option<u32>>>,
    ec: &mut EntropyCoder,
    ctx: &mut BandCtx,
    offset: usize,
    len: usize,
    b: i32,
    stride: usize,
    has_lowband: bool,
    gains: Vec<i32>,
    fill: u32,
    shift: u32,
    leaves: &mut Vec<Leaf>,
) -> (r: u32)
    requires
        old(ec).wf(),
        pvq_table_ok(v@),
        cache_ok(cache@),
        1 <= len < PVQ_SIZE,
        1 <= stride <= 16,
        -MAX_PIECE_BITS <= b <= MAX_PIECE_BITS,
        -MAX_PIECE_BITS <= old(ctx).remaining_bits <= MAX_PIECE_BITS,
    ensures
        final(ec).wf(),
        final(ec).nbits_total >= old(ec).nbits_total,
        -0x800_0000 <= final(ctx).remaining_bits <= 0x800_0000,
        final(ctx).i == old(ctx).i,
        final(ctx).intensity == old(ctx).intensity,
        final(ctx).spread == old(ctx).spread,
        final(ctx).tf_change == old(ctx).tf_change,
        (r as int) < p2(stride as nat),
        final(leaves)@.len() == old(leaves)@.len() + 1,
        final(leaves)@.subrange(0, old(leaves)@.len() as int) == old(leaves)@,
        ({
            let leaf = final(leaves)@[old(leaves)@.len() as int];
            &&& leaf.offset == offset
            &&& leaf.len == len
            &&& leaf.stride == stride
            &&& leaf.gains@ == gains@
            &&& leaf.mask == r
            &&& leaf.shift == shift
        }),
        ({
            let leaf = final(leaves)@[old(leaves)@.len() as int];
            let c = pulse_choice(cache@, b as int, old(ctx).remaining_bits as int);
            let ok = c is Some && pulses_decodable(*old(ec), len as nat, c->0);
            let k = crate::bands_utils::pulses_of(c->0 + 1);
            let ft = pvq_count(len as nat, k as nat) as u32;
            let m = fill & ((p2(stride as nat) - 1) as u32);
            &&& ok ==> final(ctx).remaining_bits == old(ctx).remaining_bits - cache@[c->0]
                && final(ctx).seed == old(ctx).seed
                && *final(ec) == EntropyCoder::uint_next(*old(ec), ft)
                && fill_is_pulses(leaf.fill, k)
                && fill_pulses(leaf.fill).len() == len
                && (forall|j: int| 0 <= j < len ==> #[trigger] fill_pulses(leaf.fill)[j] as int == pvq_decode(
                    len as nat,
                    k as nat,
                    EntropyCoder::uint_value(*old(ec), ft) as nat,
                )[j])
                && is_collapse_mask(fill_pulses(leaf.fill), stride as int, r)
            &&& !ok ==> *final(ec) == *old(ec) && final(ctx).remaining_bits == old(ctx).remaining_bits
                && r == m
            &&& !ok && m == 0 ==> leaf.fill is Zero && final(ctx).seed == old(ctx).seed
            &&& !ok && m != 0 ==> fill_is_seeded(leaf.fill, has_lowband, old(ctx).seed, len as nat)
                && final(ctx).seed == crate::utils::lcg_iter(old(ctx).seed, len as nat)
        }),
{
    proof {
        lemma_p2_values();
        lemma_p2_mono(stride as nat, 16);
        lemma_p2_pos(stride as nat);
    }
    let ghost c = pulse_choice(cache@, b as int, ctx.remaining_bits as int);
    let ghost s0 = *ec;
    let ghost rem0 = ctx.remaining_bits;
    let choice = choose_pulses(cache.as_slice(), b, ctx.remaining_bits);
    if let Some(q) = choice {
        assert(-1 <= cache@[q as int] <= 0x10_0000);
        if q + 1 < 208 {
            let k = get_pulses(q + 1);
            if k < PVQ_SIZE {
                proof {
                    lemma_pvq_entry(len as nat, k as nat);
                    lemma_pvq_mono(len as nat, k as nat);
                }
                if let Some(ft) = v[len][k] {
                    let ftb = ec_ilog(ft - 1);
                    if ftb <= 8 || ec.raw_bits_left() >= (ftb - 8) as usize {
                        assert(pulses_decodable(s0, len as nat, q as int));
                        ctx.remaining_bits = ctx.remaining_bits - cache[q];
                        let mut pulses: Vec<i32> = vec![0i32; len];
                        decode_pulses(pulses.as_mut_slice(), k, ec, v);
                        let mask = extract_collapse_mask(pulses.as_slice(), stride);
                        leaves.push(Leaf { offset, len, stride, gains, fill: LeafFill::Pulses(pulses, k), mask, shift });
                        return mask;
                    }
                }
            }
        }
    }
    assert(!(c is Some && pulses_decodable(s0, len as nat, c->0)));
    let m = pow2_u32(stride as u32) - 1;
    let f = fill & m;
    assert(f <= m) by (bit_vector)
        requires
            f == fill & m,
    ;
    if f == 0 {
        leaves.push(Leaf { offset, len, stride, gains, fill: LeafFill::Zero, mask: 0, shift });
        return 0;
    }
    let ghost seed0 = ctx.seed;
    let mut seeds: Vec<u32> = Vec::new();
    let mut i: usize = 0;
    while i < len
        invariant
            i <= len,
            seeds@.len() == i,
            ctx.seed == crate::utils::lcg_iter(seed0, i as nat),
            forall|j: int| 0 <= j < i ==> #[trigger] seeds@[j] == crate::utils::lcg_iter(seed0, (j + 1) as nat),
            ctx.remaining_bits == rem0,
            ctx.i == old(ctx).i,
            ctx.intensity == old(ctx).intensity,
            ctx.spread == old(ctx).spread,
            ctx.tf_change == old(ctx).tf_change,
        decreases len - i,
    {
        ctx.seed = lcg_rand(ctx.seed);
        seeds.push(ctx.seed);
        i = i + 1;
    }
    let fl = if has_lowband {
        LeafFill::Fold(seeds)
    } else {
        LeafFill::Noise(seeds)
    };
    leaves.push(Leaf { offset, len, stride, gains, fill: fl, mask: f, shift });
    f
}

/// `1 << s` is `2^s`.
pub proof fn lemma_shl_p2(s: u32)
    requires
        s < 32,
    ensures
        (1u32 << s) as int == p2(s as nat),
    decreases s,
{
    if s == 0 {
        assert(1u32 << 0u32 == 1u32) by (bit_vector);
    } else {
        lemma_shl_p2((s - 1) as u32);
        let t = (s - 1) as u32;
        assert(1u32 << s == (1u32 << t) * 2) by (bit_vector)
            requires
                t < 31,
                s == t + 1,
        ;
    }
}

/// The masks of `ls`, each at its bit `shift`, OR-ed.
pub open spec fn leaves_or(ls: Seq<Leaf>) -> u32
    decreases ls.len(),
{
    if ls.len() == 0 {
        0
    } else {
        leaves_or(ls.drop_last()) | (ls.last().mask << ls.last().shift)
    }
}

/// The samples that the pieces `ls` hold.
pub open spec fn leaves_len(ls: Seq<Leaf>) -> int
    decreases ls.len(),
{
    if ls.len() == 0 {
        0
    } else {
        leaves_len(ls.drop_last()) + ls.last().len
    }
}

/// Every piece of `ls` lies in `offset .. offset + len`.
pub open spec fn leaves_within(ls: Seq<Leaf>, offset: int, len: int) -> bool {
    forall|j: int| 0 <= j < ls.len() ==> offset <= #[trigger] ls[j].offset && ls[j].offset + ls[j].len <= offset + len
}

proof fn lemma_leaves_concat(a: Seq<Leaf>, b: Seq<Leaf>)
    ensures
        leaves_or(a + b) == leaves_or(a) | leaves_or(b),
        leaves_len(a + b) == leaves_len(a) + leaves_len(b),
    decreases b.len(),
{
    if b.len() == 0 {
        assert(a + b =~= a);
        let x = leaves_or(a);
        assert(x | 0u32 == x) by (bit_vector);
    } else {
        lemma_leaves_concat(a, b.drop_last());
        assert((a + b).drop_last() =~= a + b.drop_last());
        let x = leaves_or(a);
        let y = leaves_or(b.drop_last());
        let z = b.last().mask << b.last().shift;
        assert((x | y) | z == x | (y | z)) by (bit_vector);
    }
}

/// The mask bits of a piece of `b0` time blocks: one per block, and one for a single block.
pub open spec fn width(b0: int) -> u32 {
    if b0 <= 0 {
        1u32
    } else {
        b0 as u32
    }
}

#[verifier::rlimit(100)]
/// Splits a piece of `len` samples at `offset` with `b` 1/8 bits, `b0` time blocks and
/// depth `lm`, recursively, appending its pieces to `leaves` in decoding order: a piece is
/// split while `lm >= 0`, it is longer than two samples and its budget exceeds the cost of
/// the largest pulse count by more than 11; each split decodes its angle, biases and shares
/// the bits, and decodes the half with more bits first, giving the other what it left beyond
/// three bits. Returns the collapse mask: at a split, the mid's mask OR the side's mask
/// shifted by `b0 / 2`, so that the appended pieces' masks (each at its `shift`) make up the
/// returned mask shifted by `shift`. The appended pieces hold `len` samples within
/// `offset .. offset + len`. Budgets and remaining bits beyond `MAX_PIECE_BITS`, which no
/// frame reaches, are held at that bound; an angle of the finest resolution for which the
/// frame has no raw bit left is read at the next coarser one.
pub fn partition_plan(
    caches: &Vec<Vec<Vec<i32>>>,
    v: &Vec<Vec<Option<u32>>>,
    ec: &mut EntropyCoder,
    ctx: &mut BandCtx,
    offset: usize,
    len: usize,
    b: i32,
    b0: i32,
    has_lowband: bool,
    lm: i32,
    gains: Vec<i32>,
    fill: u32,
    shift: u32,
    leaves: &mut Vec<Leaf>,
) -> (r: u32)
    requires
        old(ec).wf(),
        pvq_table_ok(v@),
        caches_ok(caches@),
        old(ctx).i < 21,
        1 <= len < PVQ_SIZE,
        offset + len <= 0x1_0000,
        0 <= b0 <= 16,
        shift + width(b0 as int) <= 16,
        -1 <= lm <= 3,
        -0x800_0000 <= old(ctx).remaining_bits <= 0x800_0000,
    ensures
        final(ec).wf(),
        final(ec).nbits_total >= old(ec).nbits_total,
        -0x800_0000 <= final(ctx).remaining_bits <= 0x800_0000,
        final(ctx).i == old(ctx).i,
        final(ctx).intensity == old(ctx).intensity,
        final(ctx).spread == old(ctx).spread,
        final(ctx).tf_change == old(ctx).tf_change,
        r < (1u32 << width(b0 as int)),
        final(leaves)@.len() > old(leaves)@.len(),
        final(leaves)@.subrange(0, old(leaves)@.len() as int) == old(leaves)@,
        leaves_or(final(leaves)@.subrange(old(leaves)@.len() as int, final(leaves)@.len() as int)) == r << shift,
        leaves_len(final(leaves)@.subrange(old(leaves)@.len() as int, final(leaves)@.len() as int)) == len,
        leaves_within(
            final(leaves)@.subrange(old(leaves)@.len() as int, final(leaves)@.len() as int),
            offset as int,
            len as int,
        ),
    decreases lm + 1,
{
    let b = if b < -MAX_PIECE_BITS {
        -MAX_PIECE_BITS
    } else if b > MAX_PIECE_BITS {
        MAX_PIECE_BITS
    } else {
        b
    };
    if ctx.remaining_bits < -MAX_PIECE_BITS {
        ctx.remaining_bits = -MAX_PIECE_BITS;
    } else if ctx.remaining_bits > MAX_PIECE_BITS {
        ctx.remaining_bits = MAX_PIECE_BITS;
    }
    let ghost l0 = leaves@.len();
    let ghost old_leaves = leaves@;
    let cache = &caches[(lm + 1) as usize][ctx.i];
    let last = cache[cache.len() - 1];
    if lm == -1 || len <= 2 || b <= last + 11 {
        let stride: usize = if b0 == 0 {
            1
        } else {
            b0 as usize
        };
        let r = nosplit_plan(cache, v, ec, ctx, offset, len, b, stride, has_lowband, gains, fill, shift, leaves);
        proof {
            lemma_shl_p2(stride as u32);
            let nl = leaves@.subrange(l0 as int, leaves@.len() as int);
            assert(nl.drop_last() =~= Seq::<Leaf>::empty());
            assert(leaves_or(Seq::<Leaf>::empty()) == 0);
            assert(leaves_len(Seq::<Leaf>::empty()) == 0);
            assert(nl.last() == leaves@[l0 as int]);
            assert(leaves_or(nl) == leaves_or(nl.drop_last()) | (nl.last().mask << nl.last().shift));
            let x = r << shift;
            assert(0u32 | x == x) by (bit_vector);
            assert(leaves_within(nl, offset as int, len as int)) by {
                assert forall|j: int| 0 <= j < nl.len() implies offset <= #[trigger] nl[j].offset
                    && nl[j].offset + nl[j].len <= offset + len by {
                    assert(j == 0);
                }
            }
        }
        return r;
    }
    let n = len / 2;
    let lm1 = lm - 1;
    let fill0 = fill & 0xFFFF;
    assert(fill0 <= 0xFFFF) by (bit_vector)
        requires
            fill0 == fill & 0xFFFF,
    ;
    let fill1 = fill0 % 2 + fill0 * 2;
    let mut b = b;
    let mut sctx = SplitCtx { is_inv: false, imid: 0, iside: 0, delta: 0, itheta: 0, qalloc: 0 };
    proof {
        crate::consts::lemma_bands();
    }
    let qn0 = compute_qn(BAND_WIDTHS[ctx.i], n as i32, b, lm1);
    let qn = if qn0 == 256 && b0 > 1 && ec.raw_bits_left() < 1 {
        254
    } else {
        qn0
    };
    compute_theta(qn, ec, ctx, &mut sctx, n, &mut b, b0, false);
    let b0h = b0 / 2;
    if b0h > 0 {
        sctx.delta = adjust_delta(sctx.delta, sctx.itheta, n, lm1);
    }
    let fill2 = split_fill(fill1, sctx.itheta, b0h as u32);
    let (mbits, sbits) = split_bits(b, sctx.delta);
    ctx.remaining_bits = ctx.remaining_bits - sctx.qalloc;
    let before = ctx.remaining_bits;
    let mut gm = gains.clone();
    gm.push(sctx.imid);
    let mut gs = gains;
    gs.push(sctx.iside);
    proof {
        lemma_p2_values();
        lemma_p2_mono(b0h as nat, 8);
        lemma_p2_pos(b0h as nat);
    }
    let sfill = fill2 / pow2_u32(b0h as u32);
    let bh = b0h as u32;
    let sh2 = shift + bh;
    let c1: u32;
    let c2: u32;
    let ghost mut l1: int = 0;
    let ghost mut st1: Seq<Leaf> = Seq::empty();
    if mbits >= sbits {
        c1 = partition_plan(caches, v, ec, ctx, offset, n, mbits, b0h, has_lowband, lm1, gm, fill2, shift, leaves);
        proof {
            l1 = leaves@.len() as int;
            st1 = leaves@;
        }
        let s2 = rebalance(sbits, mbits, before - ctx.remaining_bits, sctx.itheta != 0);
        c2 = partition_plan(caches, v, ec, ctx, offset + n, len - n, s2, b0h, has_lowband, lm1, gs, sfill, sh2, leaves);
    } else {
        c2 = partition_plan(caches, v, ec, ctx, offset + n, len - n, sbits, b0h, has_lowband, lm1, gs, sfill, sh2, leaves);
        proof {
            l1 = leaves@.len() as int;
            st1 = leaves@;
        }
        let m2 = rebalance(mbits, sbits, before - ctx.remaining_bits, sctx.itheta != 16384);
        c1 = partition_plan(caches, v, ec, ctx, offset, n, m2, b0h, has_lowband, lm1, gm, fill2, shift, leaves);
    }
    let r = c1 | (c2 << bh);
    proof {
        let all = leaves@;
        assert(all.subrange(0, l1) == st1);
        let na = all.subrange(l0 as int, l1);
        assert(na =~= st1.subrange(l0 as int, l1));
        let nb = all.subrange(l1, all.len() as int);
        assert(all.subrange(l0 as int, all.len() as int) =~= na + nb);
        assert(all.subrange(0, l0 as int) =~= st1.subrange(0, l0 as int));
        lemma_leaves_concat(na, nb);
        if mbits >= sbits {
            assert(leaves_or(na) == c1 << shift);
            assert(leaves_or(nb) == c2 << sh2);
        } else {
            assert(leaves_or(na) == c2 << sh2);
            assert(leaves_or(nb) == c1 << shift);
            let x = c1 << shift;
            let y = c2 << sh2;
            assert(y | x == x | y) by (bit_vector);
        }
        let w = width(b0 as int);
        let w1 = width(b0h as int);
        assert(r < (1u32 << w)) by (bit_vector)
            requires
                r == c1 | (c2 << bh),
                c1 < (1u32 << w1),
                c2 < (1u32 << w1),
                bh == 0 ==> w1 == 1,
                bh > 0 ==> w1 == bh && 2 * bh <= w,
                1 <= w <= 16,
                w1 >= 1,
        ;
        assert(r << shift == (c1 << shift) | (c2 << sh2)) by (bit_vector)
            requires
                r == c1 | (c2 << bh),
                sh2 == shift + bh,
                shift + bh <= 16,
        ;
        let ab = na + nb;
        assert forall|j: int| 0 <= j < ab.len() implies offset <= #[trigger] ab[j].offset && ab[j].offset
            + ab[j].len <= offset + len by {
            if j < na.len() {
                assert(ab[j] == na[j]);
            } else {
                assert(ab[j] == nb[j - na.len()]);
            }
        }
    }
    r
}

/// The split of a stereo band of `n` samples per channel with `b` 1/8 bits and `b0` time
/// blocks into mid and side: decodes the angle (`compute_theta`, stereo), charges its cost
/// to the remaining bits, and returns the split, the mid and side budgets (`split_bits`)
/// and the fill mask (`split_fill`). Budgets and remaining bits beyond `MAX_PIECE_BITS`,
/// which no frame reaches, are held at that bound.
pub fn stereo_split(
    ec: &mut EntropyCoder,
    ctx: &mut BandCtx,
    n: usize,
    b: i32,
    b0: i32,
    fill: u32,
) -> (r: (SplitCtx, i32, i32, u32))
    requires
        old(ec).wf(),
        old(ctx).i < 21,
        1 <= n <= 0x4000,
        0 <= b0 <= 8,
    ensures
        final(ec).wf(),
        final(ec).nbits_total >= old(ec).nbits_total,
        final(ctx).i == old(ctx).i,
        final(ctx).intensity == old(ctx).intensity,
        final(ctx).tf_change == old(ctx).tf_change,
        final(ctx).spread == old(ctx).spread,
        final(ctx).seed == old(ctx).seed,
        -MAX_PIECE_BITS - 647 <= final(ctx).remaining_bits <= MAX_PIECE_BITS + 263,
        ({
            let bb = if b < -MAX_PIECE_BITS { -MAX_PIECE_BITS as int } else if b > MAX_PIECE_BITS {
                MAX_PIECE_BITS as int
            } else {
                b as int
            };
            let rem = if old(ctx).remaining_bits < -MAX_PIECE_BITS { -MAX_PIECE_BITS as int } else if old(
                ctx,
            ).remaining_bits > MAX_PIECE_BITS {
                MAX_PIECE_BITS as int
            } else {
                old(ctx).remaining_bits as int
            };
            &&& r.1 + r.2 + r.0.qalloc == bb
            &&& r.1 == crate::bands::split_mid(bb - r.0.qalloc, r.0.delta as int)
            &&& final(ctx).remaining_bits == rem - r.0.qalloc
            &&& -263 <= r.0.qalloc <= 647
            &&& r.0.qalloc == final(ec).tell_frac_spec() - old(ec).tell_frac_spec()
            &&& (old(ctx).i >= old(ctx).intensity ==> r.0.itheta == 0)
            &&& r.0.imid == crate::bands_utils::cos_spec(r.0.itheta as int)
            &&& r.0.iside == crate::bands_utils::cos_spec(16384 - r.0.itheta)
            &&& r.3 <= fill
        }),
{
    let b = if b < -MAX_PIECE_BITS {
        -MAX_PIECE_BITS
    } else if b > MAX_PIECE_BITS {
        MAX_PIECE_BITS
    } else {
        b
    };
    if ctx.remaining_bits < -MAX_PIECE_BITS {
        ctx.remaining_bits = -MAX_PIECE_BITS;
    } else if ctx.remaining_bits > MAX_PIECE_BITS {
        ctx.remaining_bits = MAX_PIECE_BITS;
    }
    proof {
        crate::consts::lemma_bands();
    }
    let qn = compute_qn(BAND_WIDTHS[ctx.i], n as i32, b, 3);
    let mut b = b;
    let mut sctx = SplitCtx { is_inv: false, imid: 0, iside: 0, delta: 0, itheta: 0, qalloc: 0 };
    compute_theta(qn, ec, ctx, &mut sctx, n, &mut b, b0, true);
    let fill2 = split_fill(fill, sctx.itheta, b0 as u32);
    assert(fill2 <= fill) by (bit_vector)
        requires
            fill2 == fill || exists|m: u32| fill2 == fill & m,
    ;
    let (mbits, sbits) = split_bits(b, sctx.delta);
    ctx.remaining_bits = ctx.remaining_bits - sctx.qalloc;
    (sctx, mbits, sbits, fill2)
}

/// The decoding of a mono band (or one channel of a stereo band): its time/frequency
/// layout (`mono_layout`), its pieces, and its collapse mask in the band's own time blocks.
pub struct MonoPlan {
    pub recombine: usize,
    pub b0: usize,
    pub time_divide: usize,
    pub leaves: Vec<Leaf>,
    pub cm: u32,
}

proof fn lemma_deinterleave_small(c: u32)
    ensures
        c < 2 ==> BIT_DEINTERLEAVE_TABLE@[c as int] < 4,
        c < 4 ==> BIT_DEINTERLEAVE_TABLE@[c as int] < 16,
        c < 16 ==> BIT_DEINTERLEAVE_TABLE@[c as int] < 256,
{
    if c == 0 {
        assert(BIT_DEINTERLEAVE_TABLE@[0] == 0);
    } else if c == 1 {
        assert(BIT_DEINTERLEAVE_TABLE@[1] == 3);
    } else if c == 2 {
        assert(BIT_DEINTERLEAVE_TABLE@[2] == 0x0C);
    } else if c == 3 {
        assert(BIT_DEINTERLEAVE_TABLE@[3] == 0x0F);
    }
}

/// The mask after undoing `k` time divisions from `bb` blocks: each merges block pairs.
pub open spec fn undo_divide(c: u32, bb: nat, k: nat) -> u32
    decreases k,
{
    if k == 0 {
        c
    } else {
        let h = bb / 2;
        undo_divide(c | (c >> h as u32), h, (k - 1) as nat)
    }
}

/// The mask after undoing `n` recombinations: each splits every block in two.
pub open spec fn undo_recombine(c: u32, n: nat) -> u32
    decreases n,
{
    if n == 0 {
        c
    } else {
        undo_recombine(BIT_DEINTERLEAVE_TABLE@[c as int] as u32, (n - 1) as nat)
    }
}

/// The collapse mask of a mono band from the mask `c` of its pieces: the time divisions
/// and recombinations undone, and a single bit for a non-transient band.
pub open spec fn band_mask(c: u32, b0: nat, time_divide: nat, recombine: nat, transient: bool) -> u32 {
    let m = undo_recombine(undo_divide(c, b0, time_divide), recombine);
    if transient {
        m
    } else {
        m & 1
    }
}

/// Decodes a mono band of `len` samples with `b` 1/8 bits: lays out its blocks
/// (`mono_layout`), splits it (`partition_plan` at depth 3, whose pieces' masks make up
/// `leaves_or(leaves)`), and brings that mask back to the band's blocks (`band_mask`).
pub fn mono_plan(
    caches: &Vec<Vec<Vec<i32>>>,
    v: &Vec<Vec<Option<u32>>>,
    ec: &mut EntropyCoder,
    ctx: &mut BandCtx,
    len: usize,
    b: i32,
    transient: bool,
    has_lowband: bool,
    fill: u32,
) -> (r: MonoPlan)
    requires
        old(ec).wf(),
        pvq_table_ok(v@),
        caches_ok(caches@),
        old(ctx).i < 21,
        1 <= len < PVQ_SIZE,
        -3 <= old(ctx).tf_change <= 3,
        transient ==> old(ctx).tf_change >= -1,
        fill < 256,
        -0x800_0000 <= old(ctx).remaining_bits <= 0x800_0000,
    ensures
        final(ec).wf(),
        final(ec).nbits_total >= old(ec).nbits_total,
        -0x800_0000 <= final(ctx).remaining_bits <= 0x800_0000,
        final(ctx).i == old(ctx).i,
        final(ctx).intensity == old(ctx).intensity,
        final(ctx).spread == old(ctx).spread,
        final(ctx).tf_change == old(ctx).tf_change,
        ({
            let tf = old(ctx).tf_change as int;
            let rc = if tf > 0 { tf } else { 0 };
            let base = (if transient { 8int } else { 1int }) / p2(rc as nat) as int;
            &&& r.recombine == rc
            &&& r.time_divide == crate::bands::divide_steps(len as int, base, tf)
            &&& r.b0 == base * p2(r.time_divide as nat) as int
        }),
        leaves_len(r.leaves@) == len,
        leaves_within(r.leaves@, 0, len as int),
        r.cm == band_mask(leaves_or(r.leaves@), r.b0 as nat, r.time_divide as nat, r.recombine as nat, transient),
        r.cm < 0x1_0000,
        !transient ==> r.cm <= 1,
{
    let (recombine, b0, td, f) = mono_layout(len, ctx.tf_change, transient, fill);
    let mut leaves: Vec<Leaf> = Vec::new();
    proof {
        lemma_p2_values();
        reveal_with_fuel(p2, 5);
    }
    let c = partition_plan(caches, v, ec, ctx, 0, len, b, b0 as i32, has_lowband, 3, Vec::new(), f, 0, &mut leaves);
    proof {
        assert(leaves@.subrange(0, leaves@.len() as int) =~= leaves@);
        assert(c << 0u32 == c) by (bit_vector);
        let w = width(b0 as int);
        lemma_shl_p2(w);
    }
    let mut cm = c;
    let mut bb = b0;
    let mut k: usize = 0;
    while k < td
        invariant
            k <= td <= 3,
            bb <= 16,
            cm < 0x1_0000,
            k == 0 ==> cm == c,
            undo_divide(c, b0 as nat, td as nat) == undo_divide(cm, bb as nat, (td - k) as nat),
        decreases td - k,
    {
        bb = bb / 2;
        assert(cm | (cm >> bb as u32) < 0x1_0000) by (bit_vector)
            requires
                cm < 0x1_0000,
        ;
        cm = cm | (cm >> bb as u32);
        k = k + 1;
    }
    let ghost d = cm;
    if recombine > 0 {
        assert(td == 0);
        proof {
            let bl = if transient { 8int } else { 1int };
            let dd = p2(recombine as nat) as int;
            assert(b0 == bl / dd * p2(0) as int);
            assert(b0 == bl / dd) by (nonlinear_arith)
                requires
                    b0 == bl / dd * p2(0) as int,
                    p2(0) == 1,
            ;
            assert(recombine == 1 ==> dd == 2);
            assert(recombine == 2 ==> dd == 4);
            assert(recombine == 3 ==> dd == 8);
            assert(1u32 << 1u32 == 2 && 1u32 << 2u32 == 4 && 1u32 << 4u32 == 16) by (bit_vector);
        }
        assert(cm == c);
        let ghost w = width(b0 as int);
        assert(w <= 4);
        assert(recombine >= 2 ==> w <= 2);
        assert(recombine >= 3 ==> w == 1);
        assert(c < 16) by (bit_vector)
            requires
                c < (1u32 << w),
                w <= 4,
        ;
        assert(w <= 2 ==> c < 4) by (bit_vector)
            requires
                c < (1u32 << w),
        ;
        assert(w == 1 ==> c < 2) by (bit_vector)
            requires
                c < (1u32 << w),
        ;
        proof {
            lemma_deinterleave_small(cm);
        }
        cm = split_mask(cm);
        if recombine >= 2 {
            proof {
                lemma_deinterleave_small(cm);
            }
            cm = split_mask(cm);
        }
        if recombine >= 3 {
            proof {
                lemma_deinterleave_small(cm);
            }
            cm = split_mask(cm);
        }
        proof {
            reveal_with_fuel(undo_recombine, 4);
        }
    }
    assert(cm == undo_recombine(d, recombine as nat)) by {
        reveal_with_fuel(undo_recombine, 4);
    }
    if !transient {
        assert(cm & 1 <= 1) by (bit_vector);
        cm = cm & 1;
    }
    MonoPlan { recombine, b0, time_divide: td, leaves, cm }
}

/// The decoding of a stereo band: its split into mid and side, the two channels' plans
/// and their joint collapse mask.
pub struct StereoPlan {
    pub split: SplitCtx,
    pub mid: MonoPlan,
    pub side: MonoPlan,
    pub cm: u32,
}

/// Decodes a stereo band of `n` samples per channel with `b` 1/8 bits: the mid/side split
/// (`stereo_split`), then the channel with more bits first, the other receiving what the
/// first left beyond three bits (for the side, only when the angle is not zero). The side
/// has no folding source. The band's mask is the OR of the two channels' masks.
pub fn stereo_plan(
    caches: &Vec<Vec<Vec<i32>>>,
    v: &Vec<Vec<Option<u32>>>,
    ec: &mut EntropyCoder,
    ctx: &mut BandCtx,
    n: usize,
    b: i32,
    transient: bool,
    has_lowband: bool,
    fill: u32,
) -> (r: StereoPlan)
    requires
        old(ec).wf(),
        pvq_table_ok(v@),
        caches_ok(caches@),
        old(ctx).i < 21,
        1 <= n < PVQ_SIZE,
        -3 <= old(ctx).tf_change <= 3,
        transient ==> old(ctx).tf_change >= -1,
        fill < 256,
    ensures
        final(ec).wf(),
        final(ec).nbits_total >= old(ec).nbits_total,
        final(ctx).i == old(ctx).i,
        final(ctx).intensity == old(ctx).intensity,
        final(ctx).spread == old(ctx).spread,
        final(ctx).tf_change == old(ctx).tf_change,
        -0x800_0000 <= final(ctx).remaining_bits <= 0x800_0000,
        r.cm == r.mid.cm | r.side.cm,
        r.cm < 0x1_0000,
        !transient ==> r.cm <= 1,
        old(ctx).i >= old(ctx).intensity ==> r.split.itheta == 0,
        leaves_len(r.mid.leaves@) == n && leaves_len(r.side.leaves@) == n,
{
    let b0: i32 = if transient {
        8
    } else {
        1
    };
    let (sctx, mbits, sbits, fill2) = stereo_split(ec, ctx, n, b, b0, fill);
    let before = ctx.remaining_bits;
    let side_fill = fill2 >> b0 as u32;
    assert(side_fill <= fill2) by (bit_vector)
        requires
            side_fill == fill2 >> b0 as u32,
    ;
    let mid: MonoPlan;
    let side: MonoPlan;
    if mbits >= sbits {
        mid = mono_plan(caches, v, ec, ctx, n, mbits, transient, has_lowband, fill2);
        let s2 = rebalance(sbits, mbits, before - ctx.remaining_bits, sctx.itheta != 0);
        side = mono_plan(caches, v, ec, ctx, n, s2, transient, false, side_fill);
    } else {
        side = mono_plan(caches, v, ec, ctx, n, sbits, transient, false, side_fill);
        let m2 = rebalance(mbits, sbits, before - ctx.remaining_bits, true);
        mid = mono_plan(caches, v, ec, ctx, n, m2, transient, has_lowband, fill2);
    }
    let c1 = mid.cm;
    let c2 = side.cm;
    assert(c1 | c2 < 0x1_0000) by (bit_vector)
        requires
            c1 < 0x1_0000,
            c2 < 0x1_0000,
    ;
    assert(c1 <= 1 && c2 <= 1 ==> c1 | c2 <= 1) by (bit_vector);
    StereoPlan { split: sctx, mid, side, cm: c1 | c2 }
}

/// How a band's two channels are coded.
pub enum BandShape {
    /// Jointly, as mid and side.
    Stereo(StereoPlan),
    /// Separately, left then right (dual stereo).
    Dual(MonoPlan, MonoPlan),
}

/// The decoding of one band: where its folding source starts in the normalised lower
/// bands (`-1` for none), whether dual stereo ends here (the two channels' lower bands are
/// then averaged before the band), and its channels.
pub struct BandPlan {
    pub lowband: i32,
    pub merge_norms: bool,
    pub shape: BandShape,
}

/// The decoding of all bands of a frame: each band's plan, the collapse masks
/// (`[2 * band + channel]`) and the noise seed after the frame.
pub struct FramePlan {
    pub bands: Vec<BandPlan>,
    pub collapse_masks: Vec<u8>,
    pub seed: u32,
}

/// The collapse masks of the two channels of band plan `bp`: the band's mask for both when
/// coded jointly, each channel's own in dual stereo.
pub open spec fn band_masks_of(bp: BandPlan, x: u8, y: u8) -> bool {
    match bp.shape {
        BandShape::Stereo(sp) => x == sp.cm as u8 && y == x,
        BandShape::Dual(xp, yp) => x == xp.cm as u8 && y == yp.cm as u8,
    }
}

/// The largest balance, in 1/8 bits, that the band walk carries.
pub const MAX_BALANCE: i32 = 0x100_0000;

/// Decodes the shapes of all 21 bands: each coded band gets its allocation plus its share
/// of the running balance (`band_budget`) and the remaining bits of the frame; the folding
/// source is the last band that had more than one bit per sample (`get_estimate`); bands
/// are coded as mid/side except in dual stereo below the intensity band. The collapse
/// masks are the bands' masks. A balance or allocation beyond `MAX_BALANCE`, which no frame
/// reaches, is held at that bound, as is a time-frequency change beyond the table's range.
pub fn quant_all_bands(
    caches: &Vec<Vec<Vec<i32>>>,
    v: &Vec<Vec<Option<u32>>>,
    ec: &mut EntropyCoder,
    seed: u32,
    pulses: &[i32],
    transient: bool,
    spread: i32,
    is_dual_stereo: bool,
    intensity: usize,
    tf_res: &[i32],
    total_bits: usize,
    coded_bands: usize,
) -> (r: FramePlan)
    requires
        old(ec).wf(),
        pvq_table_ok(v@),
        caches_ok(caches@),
        pulses@.len() == 21,
        tf_res@.len() == 21,
        total_bits <= 0x40_0000,
    ensures
        final(ec).wf(),
        final(ec).nbits_total >= old(ec).nbits_total,
        r.bands@.len() == 21,
        r.collapse_masks@.len() == 42,
        forall|i: int| 0 <= i < 21 ==> band_masks_of(#[trigger] r.bands@[i], r.collapse_masks@[2 * i], r.collapse_masks@[2 * i + 1]),
        !is_dual_stereo ==> forall|i: int| 0 <= i < 21 ==> #[trigger] r.collapse_masks@[2 * i] == r.collapse_masks@[2 * i + 1],
        !transient ==> forall|j: int| 0 <= j < 42 ==> #[trigger] r.collapse_masks@[j] <= 1,
{
    let mut ctx = BandCtx { i: 0, intensity, spread, tf_change: 0, remaining_bits: 0, seed };
    let mut lowband_offset: usize = 0;
    let mut balance: i32 = ec.tell_frac() as i32;
    let mut update = true;
    let mut masks: Vec<u8> = vec![0u8; 42];
    let mut dual = is_dual_stereo;
    let mut bands: Vec<BandPlan> = Vec::new();
    let mut i: usize = 0;
    proof {
        crate::consts::lemma_bands();
    }
    while i < 21
        invariant
            0 <= i <= 21,
            ec.wf(),
            ec.nbits_total >= old(ec).nbits_total,
            pvq_table_ok(v@),
            caches_ok(caches@),
            pulses@.len() == 21,
            tf_res@.len() == 21,
            total_bits <= 0x40_0000,
            masks@.len() == 42,
            bands@.len() == i,
            lowband_offset <= i,
            lowband_offset <= 20,
            !is_dual_stereo ==> !dual,
            forall|j: int| 0 <= j < 21 ==> 1 <= #[trigger] BAND_WIDTHS@[j] <= 22,
            forall|j: int| 0 <= j < i ==> band_masks_of(#[trigger] bands@[j], masks@[2 * j], masks@[2 * j + 1]),
            !is_dual_stereo ==> forall|j: int| 0 <= j < i ==> #[trigger] masks@[2 * j] == masks@[2 * j + 1],
            !transient ==> forall|j: int| 0 <= j < 2 * i ==> #[trigger] masks@[j] <= 1,
        decreases 21 - i,
    {
        let n = 8 * BAND_WIDTHS[i];
        let tell = ec.tell_frac() as i32;
        let tf0 = tf_res[i];
        let lo_tf: i32 = if transient {
            -1
        } else {
            -3
        };
        let tf = if tf0 < lo_tf {
            lo_tf
        } else if tf0 > 3 {
            3
        } else {
            tf0
        };
        let p = if pulses[i] < -MAX_BALANCE {
            -MAX_BALANCE
        } else if pulses[i] > MAX_BALANCE {
            MAX_BALANCE
        } else {
            pulses[i]
        };
        if balance < -MAX_BALANCE {
            balance = -MAX_BALANCE;
        } else if balance > MAX_BALANCE {
            balance = MAX_BALANCE;
        }
        assert(0 <= tell <= 8 * crate::entdec::NBITS_CAP);
        ctx.i = i;
        let rem = total_bits as i32 - tell - 1;
        ctx.remaining_bits = if rem < -0x800_0000 {
            -0x800_0000
        } else {
            rem
        };
        ctx.tf_change = tf;
        let bal0 = balance - tell;
        let bal = if bal0 < -MAX_BALANCE {
            -MAX_BALANCE
        } else {
            bal0
        };
        let b = band_budget(p, bal, coded_bands, i);
        if update {
            lowband_offset = i;
        }
        let mut x_cm: u8 = 0;
        let mut y_cm: u8 = 0;
        let mut lowband: i32 = 0;
        get_estimate(lowband_offset, masks.as_slice(), spread, tf, n, transient, &mut x_cm, &mut y_cm, &mut lowband);
        let merge = dual && i == intensity;
        if merge {
            dual = false;
        }
        let has_lowband = lowband != -1;
        let shape: BandShape;
        let ghost old_masks = masks@;
        if dual {
            let xp = mono_plan(caches, v, ec, &mut ctx, n, b / 2, transient, has_lowband, x_cm as u32);
            let yp = mono_plan(caches, v, ec, &mut ctx, n, b / 2, transient, has_lowband, y_cm as u32);
            x_cm = xp.cm as u8;
            y_cm = yp.cm as u8;
            shape = BandShape::Dual(xp, yp);
        } else {
            let sp = stereo_plan(caches, v, ec, &mut ctx, n, b, transient, has_lowband, (x_cm | y_cm) as u32);
            x_cm = sp.cm as u8;
            y_cm = x_cm;
            shape = BandShape::Stereo(sp);
        }
        masks[2 * i] = x_cm;
        masks[2 * i + 1] = y_cm;
        balance = bal + p + tell;
        update = b > n as i32 * 8;
        let bp = BandPlan { lowband, merge_norms: merge, shape };
        assert(band_masks_of(bp, x_cm, y_cm));
        bands.push(bp);
        proof {
            assert forall|j: int| 0 <= j < i + 1 implies band_masks_of(#[trigger] bands@[j], masks@[2 * j], masks@[2 * j + 1]) by {
                if j < i {
                    assert(bands@[j] == bands@.drop_last()[j]);
                }
            }
        }
        i = i + 1;
    }
    FramePlan { bands, collapse_masks: masks, seed: ctx.seed }
}

} // verus!
