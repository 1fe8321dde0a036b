//! The symbols of the band energies: Laplace-coded coarse energies, raw fine energies and
//! the final priority bits. The predictor that turns them into log energies works on
//! floating point and stands outside the library.
use vstd::prelude::*;
use crate::entdec::EntropyCoder;

verus! {

/// Symbols of magnitude below this all have the minimum probability.
pub const LAPLACE_NMIN: u32 = 16;

/// The frequency of the symbols of magnitude `k` (each sign), for a Laplace distribution
/// with frequency `fs0` at zero and decay `decay` (Q14).
pub open spec fn lap_fs(fs0: int, decay: int, k: nat) -> int
    decreases k,
{
    if k == 0 {
        fs0
    } else if k == 1 {
        (32768 - 2 * LAPLACE_NMIN - fs0) * (16384 - decay) / 32768 + 1
    } else {
        (2 * lap_fs(fs0, decay, (k - 1) as nat) - 2) * decay / 32768 + 1
    }
}

/// Where the symbols of magnitude `k` start (the negative one first).
pub open spec fn lap_fl(fs0: int, decay: int, k: nat) -> int
    decreases k,
{
    if k == 0 {
        0
    } else if k == 1 {
        fs0
    } else {
        lap_fl(fs0, decay, (k - 1) as nat) + 2 * lap_fs(fs0, decay, (k - 1) as nat)
    }
}

/// Where the symbol of value `v` starts.
pub open spec fn lap_lo(fs0: int, decay: int, v: int) -> int {
    if v == 0 {
        0
    } else if v < 0 {
        lap_fl(fs0, decay, (-v) as nat)
    } else {
        lap_fl(fs0, decay, v as nat) + lap_fs(fs0, decay, v as nat)
    }
}

/// The size of the symbol of value `v`.
pub open spec fn lap_size(fs0: int, decay: int, v: int) -> int {
    if v < 0 {
        lap_fs(fs0, decay, (-v) as nat)
    } else {
        lap_fs(fs0, decay, v as nat)
    }
}

proof fn lemma_lap_fs_pos(fs0: int, decay: int, k: nat)
    requires
        0 <= fs0 <= 32768 - 2 * LAPLACE_NMIN,
        0 <= decay < 16384,
        k >= 1,
    ensures
        lap_fs(fs0, decay, k) >= 1,
    decreases k,
{
    if k > 1 {
        lemma_lap_fs_pos(fs0, decay, (k - 1) as nat);
        let f = lap_fs(fs0, decay, (k - 1) as nat);
        assert((2 * f - 2) * decay >= 0) by (nonlinear_arith)
            requires
                f >= 1,
                decay >= 0,
        ;
    } else {
        assert((32768 - 2 * LAPLACE_NMIN - fs0) * (16384 - decay) >= 0) by (nonlinear_arith)
            requires
                0 <= fs0 <= 32768 - 2 * LAPLACE_NMIN,
                0 <= decay < 16384,
        ;
    }
}

/// Once the frequency has fallen to one it stays one, and the symbols are evenly spaced.
proof fn lemma_lap_flat(fs0: int, decay: int, k: nat, j: nat)
    requires
        k >= 1,
        lap_fs(fs0, decay, k) == 1,
    ensures
        lap_fs(fs0, decay, k + j) == 1,
        lap_fl(fs0, decay, k + j) == lap_fl(fs0, decay, k) + 2 * j,
    decreases j,
{
    if j > 0 {
        lemma_lap_flat(fs0, decay, k, (j - 1) as nat);
        assert((2 * lap_fs(fs0, decay, (k + j - 1) as nat) - 2) * decay == 0) by (nonlinear_arith)
            requires
                lap_fs(fs0, decay, (k + j - 1) as nat) == 1,
        ;
        assert(lap_fs(fs0, decay, k + j) == (2 * lap_fs(fs0, decay, (k + j - 1) as nat) - 2) * decay / 32768 + 1);
    }
}

/// Decodes a Laplace-distributed integer: `0` has frequency `fs0` (of 32768), and each
/// magnitude `k` has, for each sign, a frequency that decays geometrically by `decay/16384`
/// down to a floor of one. The decoded symbol holds what `decode(32768)` finds.
pub fn ec_laplace_decode(ec: &mut EntropyCoder, fs: u32, decay: u32) -> (r: i32)
    requires
        old(ec).wf(),
        1 <= fs <= 32768 - 2 * LAPLACE_NMIN,
        decay < 16384,
    ensures
        final(ec).wf(),
        final(ec).nbits_total >= old(ec).nbits_total,
        -32768 <= r <= 32768,
        ({
            let fm = EntropyCoder::sym(*old(ec), 32768);
            let lo = lap_lo(fs as int, decay as int, r as int);
            let hi = lo + lap_size(fs as int, decay as int, r as int);
            &&& lo <= fm < hi
            &&& *final(ec) == EntropyCoder::step(
                *old(ec),
                lo as u32,
                (if hi < 32768 {
                    hi
                } else {
                    32768
                }) as u32,
                32768,
            )
        }),
{
    proof {
        crate::utils::lemma_p2_values();
    }
    let fm = ec.decode(32768);
    let fs0 = fs;
    if fm < fs {
        ec.update(0, fs, 32768);
        return 0;
    }
    let mut fl = fs;
    let mut val: i32 = 1;
    assert((32768 - 2 * LAPLACE_NMIN - fs) * (16384 - decay) <= 32768 * 16384) by (nonlinear_arith)
        requires
            0 <= 32768 - 2 * LAPLACE_NMIN - fs <= 32768,
            0 <= 16384 - decay <= 16384,
    ;
    let mut fs = (32768 - 2 * LAPLACE_NMIN - fs) * (16384 - decay) / 32768 + 1;
    proof {
        lemma_lap_fs_pos(fs0 as int, decay as int, 1);
    }
    while fs > 1 && fm >= fl + fs * 2
        invariant
            1 <= val <= 32768,
            fl == lap_fl(fs0 as int, decay as int, val as nat),
            fs == lap_fs(fs0 as int, decay as int, val as nat),
            1 <= fs <= 32768,
            val <= fl <= fm,
            fm < 32768,
            1 <= fs0 <= 32768 - 2 * LAPLACE_NMIN,
            decay < 16384,
        decreases 32768 - fl,
    {
        proof {
            lemma_lap_fs_pos(fs0 as int, decay as int, (val + 1) as nat);
        }
        assert((fs * 2 - 2) * decay <= 65536 * 16384) by (nonlinear_arith)
            requires
                1 <= fs <= 32768,
                decay < 16384,
        ;
        assert((fs * 2 - 2) * decay < fs * 32768) by (nonlinear_arith)
            requires
                1 <= fs <= 32768,
                decay < 16384,
        ;
        fl = fl + fs * 2;
        fs = (fs * 2 - 2) * decay / 32768 + 1;
        val = val + 1;
    }
    if fs <= 1 {
        let di = (fm - fl) / 2;
        proof {
            lemma_lap_flat(fs0 as int, decay as int, val as nat, di as nat);
        }
        val = val + di as i32;
        fl = fl + 2 * di;
    }
    let ghost k = val;
    if fm < fl + fs {
        val = -val;
    } else {
        fl = fl + fs;
    }
    let fh = if fl + fs < 32768 {
        fl + fs
    } else {
        32768
    };
    ec.update(fl, fh, 32768);
    val
}

/// Probability of a zero coarse energy step, per band, in 1/256 (intra frames).
pub const PROB_INTRA: [u32; 21] = [
    22, 63, 74, 84, 92, 103, 96, 96, 101, 107, 113, 118, 125, 118, 117, 135, 137, 157, 145, 97, 77,
];

/// Probability of a zero coarse energy step, per band, in 1/256 (inter frames).
pub const PROB_INTER: [u32; 21] = [
    42, 96, 108, 111, 117, 123, 120, 119, 127, 134, 139, 147, 152, 158, 154, 166, 173, 184, 184, 150, 139,
];

/// Decay of the coarse energy step distribution, per band, in 1/256 (intra frames).
pub const DECAY_INTRA: [u32; 21] = [
    178, 114, 82, 83, 82, 62, 72, 67, 73, 72, 55, 52, 52, 52, 55, 49, 39, 32, 29, 33, 40,
];

/// Decay of the coarse energy step distribution, per band, in 1/256 (inter frames).
pub const DECAY_INTER: [u32; 21] = [
    121, 66, 43, 40, 44, 32, 36, 33, 33, 34, 21, 23, 20, 25, 26, 21, 16, 13, 10, 13, 15,
];

/// `s2` follows `s` by the Laplace symbol `r` of a distribution with frequency `fs` at
/// zero and decay `decay`: the symbol's interval holds what `decode(32768)` finds.
#[verifier::opaque]
pub open spec fn lap_step<'a>(s: EntropyCoder<'a>, s2: EntropyCoder<'a>, fs: int, decay: int, r: int) -> bool {
    let fm = EntropyCoder::sym(s, 32768);
    let lo = lap_lo(fs, decay, r);
    let hi = lo + lap_size(fs, decay, r);
    &&& lo <= fm < hi
    &&& s2 == EntropyCoder::step(
        s,
        lo as u32,
        (if hi < 32768 {
            hi
        } else {
            32768
        }) as u32,
        32768,
    )
}

/// The Laplace frequency at zero of band `i`.
pub open spec fn coarse_fs(intra: bool, i: int) -> int {
    (if intra {
        PROB_INTRA@[i]
    } else {
        PROB_INTER@[i]
    }) * 128
}

/// The Laplace decay of band `i`.
pub open spec fn coarse_decay(intra: bool, i: int) -> int {
    (if intra {
        DECAY_INTRA@[i]
    } else {
        DECAY_INTER@[i]
    }) * 64
}

/// `tr` is the run of decoder states of the coarse energy symbols in `q`: symbol `j` is
/// band `j / 2`, channel `j % 2`.
pub open spec fn coarse_trace<'a>(tr: Seq<EntropyCoder<'a>>, q: Seq<i32>, intra: bool) -> bool {
    &&& tr.len() == 43
    &&& forall|j: int|
        0 <= j < 42 ==> lap_step(
            #[trigger] tr[j],
            tr[j + 1],
            coarse_fs(intra, j / 2),
            coarse_decay(intra, j / 2),
            q[21 * (j % 2) + j / 2] as int,
        )
}

/// Decodes the 42 coarse energy steps, band by band and within a band channel by channel,
/// into `q[21 * c + i]`, each from the Laplace distribution of its band (intra or inter).
pub fn decode_coarse_energy(intra: bool, ec: &mut EntropyCoder, q: &mut [i32])
    requires
        old(ec).wf(),
        old(q)@.len() == 42,
    ensures
        final(ec).wf(),
        final(ec).nbits_total >= old(ec).nbits_total,
        final(q)@.len() == 42,
        forall|j: int| 0 <= j < 42 ==> -32768 <= #[trigger] final(q)@[j] <= 32768,
        exists|tr: Seq<EntropyCoder>|
            #[trigger] coarse_trace(tr, final(q)@, intra) && tr[0] == *old(ec) && tr[42] == *final(ec),
{
    let ghost mut tr: Seq<EntropyCoder> = seq![*ec];
    let mut i: usize = 0;
    while i < 21
        invariant
            0 <= i <= 21,
            q@.len() == 42,
            ec.wf(),
            ec.nbits_total >= old(ec).nbits_total,
            forall|j: int| 0 <= j < 21 && (j < i) ==> -32768 <= #[trigger] q@[j] <= 32768,
            forall|j: int| 21 <= j < 42 && (j - 21 < i) ==> -32768 <= #[trigger] q@[j] <= 32768,
            forall|j: int| 0 <= j < 21 && !(j < i) ==> #[trigger] q@[j] == old(q)@[j],
            forall|j: int| 21 <= j < 42 && !(j - 21 < i) ==> #[trigger] q@[j] == old(q)@[j],
            old(q)@.len() == 42,
            tr.len() == 2 * i + 1,
            tr[0] == *old(ec),
            tr[2 * i as int] == *ec,
            forall|j: int|
                0 <= j < 2 * i ==> lap_step(
                    #[trigger] tr[j],
                    tr[j + 1],
                    coarse_fs(intra, j / 2),
                    coarse_decay(intra, j / 2),
                    q@[21 * (j % 2) + j / 2] as int,
                ),
        decreases 21 - i,
    {
        let fs = if intra {
            PROB_INTRA[i] * 128
        } else {
            PROB_INTER[i] * 128
        };
        let decay = if intra {
            DECAY_INTRA[i] * 64
        } else {
            DECAY_INTER[i] * 64
        };
        let ghost s0 = *ec;
        let a = ec_laplace_decode(ec, fs, decay);
        assert(lap_step(s0, *ec, fs as int, decay as int, a as int)) by {
            reveal(lap_step);
        }
        q[i] = a;
        proof {
            tr = tr.push(*ec);
        }
        let ghost s1 = *ec;
        let b = ec_laplace_decode(ec, fs, decay);
        assert(lap_step(s1, *ec, fs as int, decay as int, b as int)) by {
            reveal(lap_step);
        }
        q[21 + i] = b;
        proof {
            tr = tr.push(*ec);
            assert forall|j: int|
                0 <= j < 2 * (i + 1) implies lap_step(
                    #[trigger] tr[j],
                    tr[j + 1],
                    coarse_fs(intra, j / 2),
                    coarse_decay(intra, j / 2),
                    q@[21 * (j % 2) + j / 2] as int,
                ) by {
                if j == 2 * i {
                    assert(21 * (j % 2) + j / 2 == i);
                } else if j == 2 * i + 1 {
                    assert(21 * (j % 2) + j / 2 == 21 + i);
                } else {
                    assert(21 * (j % 2) + j / 2 != i && 21 * (j % 2) + j / 2 != 21 + i);
                }
            }
        }
        i = i + 1;
    }
    assert(coarse_trace(tr, q@, intra));
    assert forall|j: int| 0 <= j < 42 implies -32768 <= #[trigger] q@[j] <= 32768 by {
        if j < 21 {
            assert(j < 21 && j < i);
        } else {
            assert(j - 21 < i);
        }
    }
}

/// The raw bits that the fine energy of `fine_quant` takes: two per bit of each band.
pub open spec fn fine_bits_total(fine_quant: Seq<i32>, n: int) -> int
    decreases n,
{
    if n <= 0 {
        0
    } else {
        fine_bits_total(fine_quant, n - 1) + 2 * fine_quant[n - 1]
    }
}

/// `s2` follows `s` by reading `n` raw bits, which are `r`.
#[verifier::opaque]
pub open spec fn raw_step<'a>(s: EntropyCoder<'a>, s2: EntropyCoder<'a>, n: nat, r: nat) -> bool {
    &&& s2 == EntropyCoder::bits_next(s, n)
    &&& r == EntropyCoder::bits_value(s, n)
}

/// `tr` is the run of decoder states of the fine energy values in `q`: value `j` is band
/// `j / 2`, channel `j % 2`, read with `fine_quant[j / 2]` raw bits.
pub open spec fn fine_trace<'a>(tr: Seq<EntropyCoder<'a>>, q: Seq<u32>, fine_quant: Seq<i32>) -> bool {
    &&& tr.len() == 43
    &&& forall|j: int|
        0 <= j < 42 ==> raw_step(
            #[trigger] tr[j],
            tr[j + 1],
            fine_quant[j / 2] as nat,
            q[21 * (j % 2) + j / 2] as nat,
        )
}

/// Decodes the fine energy: `fine_quant[i]` raw bits per channel for each band, into
/// `q[21 * c + i]`.
pub fn decode_fine_energy(fine_quant: &[i32], ec: &mut EntropyCoder, q: &mut [u32])
    requires
        old(ec).wf(),
        fine_quant@.len() == 21,
        forall|i: int| 0 <= i < 21 ==> 0 <= #[trigger] fine_quant@[i] <= 25,
        old(ec).raw_room() >= fine_bits_total(fine_quant@, 21),
        old(q)@.len() == 42,
    ensures
        final(ec).wf(),
        final(ec).nbits_total >= old(ec).nbits_total,
        final(q)@.len() == 42,
        forall|i: int| 0 <= i < 21 ==> (#[trigger] final(q)@[i] as int) < crate::utils::p2(fine_quant@[i] as nat),
        forall|i: int| 0 <= i < 21 ==> (#[trigger] final(q)@[21 + i] as int) < crate::utils::p2(fine_quant@[i] as nat),
        exists|tr: Seq<EntropyCoder>|
            #[trigger] fine_trace(tr, final(q)@, fine_quant@) && tr[0] == *old(ec) && tr[42] == *final(ec),
{
    let ghost mut tr: Seq<EntropyCoder> = seq![*ec];
    let mut i: usize = 0;
    while i < 21
        invariant
            0 <= i <= 21,
            q@.len() == 42,
            fine_quant@.len() == 21,
            forall|j: int| 0 <= j < 21 ==> 0 <= #[trigger] fine_quant@[j] <= 25,
            ec.wf(),
            ec.nbits_total >= old(ec).nbits_total,
            ec.raw_room() >= fine_bits_total(fine_quant@, 21) - fine_bits_total(fine_quant@, i as int),
            forall|j: int| 0 <= j < i ==> (#[trigger] q@[j] as int) < crate::utils::p2(fine_quant@[j] as nat),
            forall|j: int| 0 <= j < i ==> (#[trigger] q@[21 + j] as int) < crate::utils::p2(fine_quant@[j] as nat),
            tr.len() == 2 * i + 1,
            tr[0] == *old(ec),
            tr[2 * i as int] == *ec,
            forall|j: int|
                0 <= j < 2 * i ==> raw_step(
                    #[trigger] tr[j],
                    tr[j + 1],
                    fine_quant@[j / 2] as nat,
                    q@[21 * (j % 2) + j / 2] as nat,
                ),
        decreases 21 - i,
    {
        proof {
            lemma_fine_total_mono(fine_quant@, i as int + 1);
            crate::utils::lemma_p2_pos(fine_quant@[i as int] as nat);
        }
        let bits = fine_quant[i] as u32;
        let ghost s0 = *ec;
        let a = ec.decode_bits(bits);
        assert(raw_step(s0, *ec, bits as nat, a as nat)) by {
            reveal(raw_step);
        }
        proof {
            vstd::arithmetic::div_mod::lemma_mod_bound(
                (crate::entdec::tail_stream(
                    ec.buffer@,
                    ec.tail as nat,
                ) / crate::utils::p2((ec.raw_pos() - bits) as nat)) as int,
                crate::utils::p2(bits as nat) as int,
            );
        }
        q[i] = a;
        proof {
            tr = tr.push(*ec);
        }
        let ghost s1 = *ec;
        let b = ec.decode_bits(bits);
        assert(raw_step(s1, *ec, bits as nat, b as nat)) by {
            reveal(raw_step);
        }
        q[21 + i] = b;
        proof {
            tr = tr.push(*ec);
            assert forall|j: int|
                0 <= j < 2 * (i + 1) implies raw_step(
                    #[trigger] tr[j],
                    tr[j + 1],
                    fine_quant@[j / 2] as nat,
                    q@[21 * (j % 2) + j / 2] as nat,
                ) by {
                if j == 2 * i {
                    assert(21 * (j % 2) + j / 2 == i);
                } else if j == 2 * i + 1 {
                    assert(21 * (j % 2) + j / 2 == 21 + i);
                } else {
                    assert(21 * (j % 2) + j / 2 != i && 21 * (j % 2) + j / 2 != 21 + i);
                }
            }
        }
        i = i + 1;
    }
    assert(fine_trace(tr, q@, fine_quant@));
}

proof fn lemma_fine_total_mono(f: Seq<i32>, n: int)
    requires
        0 <= n <= 21,
        f.len() == 21,
        forall|i: int| 0 <= i < 21 ==> 0 <= #[trigger] f[i] <= 25,
    ensures
        fine_bits_total(f, n) <= fine_bits_total(f, 21),
        fine_bits_total(f, n) >= 0,
    decreases 21 - n,
{
    if n < 21 {
        lemma_fine_total_mono(f, n + 1);
    }
    lemma_fine_total_nonneg(f, n);
}

proof fn lemma_fine_total_nonneg(f: Seq<i32>, n: int)
    requires
        0 <= n <= 21,
        f.len() == 21,
        forall|i: int| 0 <= i < 21 ==> 0 <= #[trigger] f[i] <= 25,
    ensures
        fine_bits_total(f, n) >= 0,
    decreases n,
{
    if n > 0 {
        lemma_fine_total_nonneg(f, n - 1);
    }
}

/// The bands before `n` of priority `v`.
pub open spec fn count_prio(p: Seq<u32>, v: u32, n: int) -> int
    decreases n,
{
    if n <= 0 {
        0
    } else {
        count_prio(p, v, n - 1) + if p[n - 1] == v {
            1int
        } else {
            0int
        }
    }
}

/// Where band `i` comes in the order of the final passes: the bands of priority 0 first,
/// then those of priority 1, each pass from the lowest band.
pub open spec fn final_rank(p: Seq<u32>, i: int) -> int {
    if p[i] == 0 {
        count_prio(p, 0, i)
    } else {
        count_prio(p, 0, 21) + count_prio(p, 1, i)
    }
}

/// The bands the final passes reach with `bits_left` bits: one per two bits.
pub open spec fn final_reach(bits_left: int) -> int {
    if bits_left >= 2 {
        bits_left / 2
    } else {
        0
    }
}

/// The bands of the final passes met before position `pos` (pass `pos / 21`, band `pos % 21`).
pub open spec fn final_seen(p: Seq<u32>, pos: int) -> int {
    if pos <= 21 {
        count_prio(p, 0, pos)
    } else {
        count_prio(p, 0, 21) + count_prio(p, 1, pos - 21)
    }
}

/// Band `j` has been met before position `pos` of the final passes.
pub open spec fn final_met(p: Seq<u32>, j: int, pos: int) -> bool {
    (p[j] == 0 && j < pos) || (p[j] == 1 && 21 + j < pos)
}

proof fn lemma_count_bound(p: Seq<u32>, v: u32, n: int)
    requires
        0 <= n <= p.len(),
    ensures
        0 <= count_prio(p, v, n) <= n,
    decreases n,
{
    if n > 0 {
        lemma_count_bound(p, v, n - 1);
    }
}

/// Decodes the final fine energy bits: two passes, the first over the bands of priority 0,
/// the second over those of priority 1, each band taking one raw bit per channel while at
/// least two bits are left. `q[21 * c + i]` is the bit, or `-1` where none was read: a band
/// is read exactly when its priority is 0 or 1 and its place in the passes is below
/// `bits_left / 2`.
pub fn decode_energy_finalise(
    fine_priority: &[u32],
    bits_left: i32,
    ec: &mut EntropyCoder,
    q: &mut [i32],
)
    requires
        old(ec).wf(),
        fine_priority@.len() == 21,
        old(ec).raw_room() >= bits_left,
        old(q)@.len() == 42,
    ensures
        final(ec).wf(),
        final(ec).nbits_total >= old(ec).nbits_total,
        final(q)@.len() == 42,
        forall|j: int| 0 <= j < 42 ==> -1 <= #[trigger] final(q)@[j] <= 1,
        forall|i: int|
            0 <= i < 21 ==> ((#[trigger] final(q)@[i] != -1) <==> (fine_priority@[i] <= 1 && final_rank(
                fine_priority@,
                i,
            ) < final_reach(bits_left as int))),
        forall|i: int| 0 <= i < 21 ==> (#[trigger] final(q)@[i] == -1) == (final(q)@[21 + i] == -1),
{
    let mut k: usize = 0;
    while k < 42
        invariant
            0 <= k <= 42,
            q@.len() == 42,
            forall|j: int| 0 <= j < k ==> #[trigger] q@[j] == -1,
        decreases 42 - k,
    {
        q[k] = -1;
        k = k + 1;
    }
    let ghost p = fine_priority@;
    let ghost reach = final_reach(bits_left as int);
    let ghost b0 = bits_left as int;
    let mut bits_left = bits_left;
    let mut prio: u32 = 0;
    while prio < 2
        invariant
            prio <= 2,
            q@.len() == 42,
            p == fine_priority@,
            p.len() == 21,
            reach == final_reach(b0),
            ec.wf(),
            ec.nbits_total >= old(ec).nbits_total,
            ec.raw_room() >= bits_left,
            bits_left == b0 - 2 * (if final_seen(p, 21 * prio) < reach {
                final_seen(p, 21 * prio)
            } else {
                reach
            }),
            forall|j: int| 0 <= j < 42 ==> -1 <= #[trigger] q@[j] <= 1,
            forall|i: int| 0 <= i < 21 ==> (#[trigger] q@[i] == -1) == (q@[21 + i] == -1),
            forall|j: int|
                0 <= j < 21 ==> ((#[trigger] q@[j] != -1) <==> (final_met(p, j, 21 * prio) && final_rank(p, j)
                    < reach)),
        decreases 2 - prio,
    {
        let mut i: usize = 0;
        while i < 21
            invariant
                0 <= i <= 21,
                prio < 2,
                q@.len() == 42,
                p == fine_priority@,
                p.len() == 21,
                reach == final_reach(b0),
                ec.wf(),
                ec.nbits_total >= old(ec).nbits_total,
                ec.raw_room() >= bits_left,
                bits_left == b0 - 2 * (if final_seen(p, 21 * prio + i) < reach {
                    final_seen(p, 21 * prio + i)
                } else {
                    reach
                }),
                forall|j: int| 0 <= j < 42 ==> -1 <= #[trigger] q@[j] <= 1,
                forall|i: int| 0 <= i < 21 ==> (#[trigger] q@[i] == -1) == (q@[21 + i] == -1),
                forall|j: int|
                    0 <= j < 21 ==> ((#[trigger] q@[j] != -1) <==> (final_met(p, j, 21 * prio + i)
                        && final_rank(p, j) < reach)),
            decreases 21 - i,
        {
            let pos = 21 * prio as usize + i;
            proof {
                lemma_count_bound(p, 0, i as int);
                lemma_count_bound(p, 1, i as int);
                lemma_count_bound(p, 0, 21);
                assert(final_seen(p, pos as int + 1) == final_seen(p, pos as int) + if p[i as int] == prio {
                    1int
                } else {
                    0int
                });
                assert(p[i as int] == prio ==> final_rank(p, i as int) == final_seen(p, pos as int));
                assert((bits_left >= 2) <==> (final_seen(p, pos as int) < reach));
            }
            if bits_left >= 2 && fine_priority[i] == prio {
                let a = ec.decode_bits(1);
                proof {
                    crate::utils::lemma_p2_values();
                    reveal_with_fuel(crate::utils::p2, 2);
                }
                q[i] = a as i32;
                let b = ec.decode_bits(1);
                q[21 + i] = b as i32;
                bits_left = bits_left - 2;
            }
            i = i + 1;
        }
        prio = prio + 1;
    }
    assert forall|j: int|
        0 <= j < 21 implies ((#[trigger] q@[j] != -1) <==> (fine_priority@[j] <= 1 && final_rank(
            fine_priority@,
            j,
        ) < final_reach(b0))) by {
        assert(final_met(p, j, 42) <==> p[j] <= 1);
    }
}

} // verus!
