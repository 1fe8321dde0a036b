//! The frame-level symbols: post-filter parameters, time-frequency changes and band boosts.
use vstd::prelude::*;
use crate::consts::BAND_WIDTHS;
use crate::entdec::EntropyCoder;

verus! {

/// The time-frequency change of each decoded flag: rows for non-transient and transient
/// frames, indexed by `2 * tf_select + flag`.
pub const TF_SELECT_TABLE: [[i8; 4]; 2] = [[0, -2, 0, -3], [3, 0, 1, -1]];

/// The decoder state after the time-frequency flag of band `j` and that flag, decoding from
/// `s0` in a frame of `len8` bits: band 0 reads a flag of cost 2 (transient) or 4 bits, and
/// each later band a change of cost 4 or 5 bits against the band before, each only while
/// the frame has room; a flag that is not read is 0 for band 0 and the band before's
/// otherwise.
pub open spec fn tf_state<'a>(s0: EntropyCoder<'a>, is_transient: bool, j: nat, len8: int) -> (EntropyCoder<'a>, int)
    decreases j,
{
    if j == 0 {
        let logp: nat = if is_transient {
            2
        } else {
            4
        };
        if s0.tell_spec() + logp <= len8 {
            (EntropyCoder::bit_next(s0, logp), EntropyCoder::bit_value(s0, logp) as int)
        } else {
            (s0, 0)
        }
    } else {
        let prev = tf_state(s0, is_transient, (j - 1) as nat, len8);
        let s = prev.0;
        let logp: nat = if is_transient {
            4
        } else {
            5
        };
        if s.tell_spec() + logp <= len8 {
            (
                EntropyCoder::bit_next(s, logp),
                if EntropyCoder::bit_value(s, logp) as int == prev.1 {
                    0
                } else {
                    1
                },
            )
        } else {
            prev
        }
    }
}

/// Whether any flag up to band `j` is set.
pub open spec fn tf_any(s0: EntropyCoder, is_transient: bool, j: nat, len8: int) -> bool
    decreases j,
{
    tf_state(s0, is_transient, j, len8).1 == 1 || (j > 0 && tf_any(s0, is_transient, (j - 1) as nat, len8))
}

/// Whether the select bit is coded: the two tables differ for the flags that occur.
pub open spec fn tf_select_coded(is_transient: bool, changed: bool) -> bool {
    let row = if is_transient {
        1int
    } else {
        0int
    };
    let c = if changed {
        1int
    } else {
        0int
    };
    TF_SELECT_TABLE@[row]@[c] != TF_SELECT_TABLE@[row]@[2 + c]
}

proof fn lemma_tf_flag_bit(s0: EntropyCoder, is_transient: bool, j: nat, len8: int)
    ensures
        0 <= tf_state(s0, is_transient, j, len8).1 <= 1,
    decreases j,
{
    if j > 0 {
        lemma_tf_flag_bit(s0, is_transient, (j - 1) as nat, len8);
    }
}

/// Decodes the per-band time-frequency changes: a flag per band (`tf_state`), then a select
/// bit where it matters, and maps each flag through `TF_SELECT_TABLE`.
pub fn tf_decode(is_transient: bool, tf_res: &mut [i32], ec: &mut EntropyCoder)
    requires
        old(ec).wf(),
        1 <= old(tf_res)@.len() <= 64,
    ensures
        final(ec).wf(),
        final(ec).nbits_total >= old(ec).nbits_total,
        final(tf_res)@.len() == old(tf_res)@.len(),
        ({
            let n = old(tf_res)@.len();
            let len8 = (old(ec).buffer@.len() * 8) as int;
            let last = tf_state(*old(ec), is_transient, (n - 1) as nat, len8).0;
            let coded = tf_select_coded(is_transient, tf_any(*old(ec), is_transient, (n - 1) as nat, len8));
            let sel = if coded {
                EntropyCoder::bit_value(last, 1) as int
            } else {
                0
            };
            let row = if is_transient {
                1int
            } else {
                0int
            };
            &&& *final(ec) == (if coded {
                EntropyCoder::bit_next(last, 1)
            } else {
                last
            })
            &&& forall|j: int|
                0 <= j < n ==> #[trigger] final(tf_res)@[j] == TF_SELECT_TABLE@[row]@[2 * sel + tf_state(
                    *old(ec),
                    is_transient,
                    j as nat,
                    len8,
                ).1] as int
        }),
{
    let ghost s0 = *ec;
    let t: usize = if is_transient {
        1
    } else {
        0
    };
    let n = tf_res.len();
    let len8 = ec.buffer.len() * 8;
    let ghost l8 = len8 as int;
    let mut tf_changed: i32 = 0;
    let mut logp: usize = if is_transient {
        2
    } else {
        4
    };
    tf_res[0] = 0;
    if ec.tell() + logp <= len8 {
        tf_res[0] = ec.decode_bit_logp(logp as u32) as i32;
        tf_changed = tf_res[0];
    }
    logp = if is_transient {
        4
    } else {
        5
    };
    let mut i: usize = 1;
    while i < n
        invariant
            1 <= i <= n,
            n == tf_res@.len(),
            len8 == ec.buffer@.len() * 8,
            l8 == len8,
            s0.buffer == ec.buffer,
            logp == (if is_transient { 4usize } else { 5usize }),
            ec.wf(),
            ec.nbits_total >= old(ec).nbits_total,
            tf_state(s0, is_transient, (i - 1) as nat, l8) == (*ec, tf_res@[i - 1] as int),
            forall|j: int| 0 <= j < i ==> #[trigger] tf_res@[j] == tf_state(s0, is_transient, j as nat, l8).1,
            (tf_changed == 1) == tf_any(s0, is_transient, (i - 1) as nat, l8),
            0 <= tf_changed <= 1,
            forall|j: int| 0 <= j < i ==> 0 <= #[trigger] tf_res@[j] <= 1,
        decreases n - i,
    {
        proof {
            lemma_tf_flag_bit(s0, is_transient, (i - 1) as nat, l8);
        }
        tf_res[i] = tf_res[i - 1];
        if ec.tell() + logp <= len8 {
            let bit = ec.decode_bit_logp(logp as u32) as i32;
            let prev = tf_res[i];
            tf_res[i] = if bit == prev {
                0
            } else {
                1
            };
            tf_changed = if tf_changed == 1 || tf_res[i] == 1 {
                1
            } else {
                0
            };
        }
        i = i + 1;
    }
    let mut tf_select: usize = 0;
    if TF_SELECT_TABLE[t][tf_changed as usize] != TF_SELECT_TABLE[t][2 + tf_changed as usize] {
        tf_select = ec.decode_bit_logp(1) as usize;
    }
    let ghost flags = tf_res@;
    let mut i: usize = 0;
    while i < n
        invariant
            0 <= i <= n,
            n == tf_res@.len(),
            flags.len() == n,
            t == (if is_transient { 1usize } else { 0usize }),
            tf_select <= 1,
            forall|j: int| 0 <= j < n ==> 0 <= #[trigger] flags[j] <= 1,
            forall|j: int| i <= j < n ==> #[trigger] tf_res@[j] == flags[j],
            forall|j: int| 0 <= j < i ==> #[trigger] tf_res@[j] == TF_SELECT_TABLE@[t as int]@[2 * tf_select + flags[j]] as int,
        decreases n - i,
    {
        tf_res[i] = TF_SELECT_TABLE[t][2 * tf_select + tf_res[i] as usize] as i32;
        i = i + 1;
    }
}

/// The boost quantum of band `i` in 1/8 bits: its coefficient count over both channels,
/// at least six bits and at most one bit per coefficient.
pub open spec fn boost_quanta(i: int) -> int {
    let width = 16 * BAND_WIDTHS@[i];
    if 8 * width < (if width > 48 { width } else { 48 }) {
        8 * width
    } else if width > 48 {
        width
    } else {
        48
    }
}

/// The sum of the first `n` boosts.
pub open spec fn boost_sum(boosts: Seq<i32>, n: int) -> int
    decreases n,
{
    if n <= 0 {
        0
    } else {
        boost_sum(boosts, n - 1) + boosts[n - 1]
    }
}

/// Each of non-negative boosts is at most their sum.
pub proof fn lemma_boost_le_sum(boosts: Seq<i32>, n: int, i: int)
    requires
        0 <= i < n <= boosts.len(),
        forall|j: int| 0 <= j < n ==> 0 <= #[trigger] boosts[j],
    ensures
        boosts[i] <= boost_sum(boosts, n),
        boost_sum(boosts, n) >= 0,
    decreases n,
{
    lemma_boost_sum_nonneg(boosts, n);
    if i < n - 1 {
        lemma_boost_le_sum(boosts, n - 1, i);
    } else {
        lemma_boost_sum_nonneg(boosts, n - 1);
    }
}

proof fn lemma_boost_sum_nonneg(boosts: Seq<i32>, n: int)
    requires
        0 <= n <= boosts.len(),
        forall|j: int| 0 <= j < n ==> 0 <= #[trigger] boosts[j],
    ensures
        boost_sum(boosts, n) >= 0,
    decreases n,
{
    if n > 0 {
        lemma_boost_sum_nonneg(boosts, n - 1);
    }
}

proof fn lemma_boost_sum_prefix(a: Seq<i32>, b: Seq<i32>, n: int)
    requires
        0 <= n <= a.len(),
        n <= b.len(),
        forall|j: int| 0 <= j < n ==> #[trigger] a[j] == b[j],
    ensures
        boost_sum(a, n) == boost_sum(b, n),
    decreases n,
{
    if n > 0 {
        lemma_boost_sum_prefix(a, b, n - 1);
    }
}

/// The run of boost flags of one band from state `s`: while a flag of cost `logp` fits in
/// what the budget leaves after `tell` (in 1/8 bits), a flag is read; a `1` adds `quanta`
/// to the boost, takes it from the budget and makes the next flag cost one bit. Returns the
/// boost, the state and `tell_frac` after the run.
pub open spec fn boost_loop<'a>(s: EntropyCoder<'a>, budget: int, logp: nat, tell: int, boost: int, quanta: int) -> (int, EntropyCoder<'a>, int)
    decreases (if budget > 0 { budget } else { 0 }),
{
    if 0 <= tell && logp * 8 + tell < budget && quanta >= 1 {
        let s2 = EntropyCoder::bit_next(s, logp);
        let tell2 = s2.tell_frac_spec();
        if EntropyCoder::bit_value(s, logp) == 0 {
            (boost, s2, tell2)
        } else {
            boost_loop(s2, budget - quanta, 1, tell2, boost + quanta, quanta)
        }
    } else {
        (boost, s, tell)
    }
}

/// What the boost decoding carries into band `i` of a frame of `total_bits` 1/8 bits from
/// state `s0`: the state, the cost of the first flag (6 bits, one less after each boosted
/// band, down to 2), `tell_frac` and the boosts so far.
pub open spec fn boost_pre<'a>(s0: EntropyCoder<'a>, total_bits: int, i: nat) -> (EntropyCoder<'a>, nat, int, int)
    decreases i,
{
    if i == 0 {
        (s0, 6, s0.tell_frac_spec(), 0)
    } else {
        let p = boost_pre(s0, total_bits, (i - 1) as nat);
        let r = boost_loop(p.0, total_bits - p.3, p.1, p.2, 0, boost_quanta(i - 1));
        (r.1, if r.0 != 0 && p.1 > 2 {
            (p.1 - 1) as nat
        } else {
            p.1
        }, r.2, p.3 + r.0)
    }
}

/// The boost of band `i`.
pub open spec fn boost_of(s0: EntropyCoder, total_bits: int, i: nat) -> int {
    let p = boost_pre(s0, total_bits, i);
    boost_loop(p.0, total_bits - p.3, p.1, p.2, 0, boost_quanta(i as int)).0
}

proof fn lemma_boost_loop_bounds(s: EntropyCoder, budget: int, logp: nat, tell: int, boost: int, quanta: int)
    requires
        quanta >= 1,
    ensures
        boost_loop(s, budget, logp, tell, boost, quanta).0 >= boost,
        boost_loop(s, budget, logp, tell, boost, quanta).0 <= boost + (if budget > 0 { budget } else { 0 }) + quanta,
        (boost_loop(s, budget, logp, tell, boost, quanta).0 - boost) % quanta == 0,
    decreases (if budget > 0 { budget } else { 0 }),
{
    if 0 <= tell && logp * 8 + tell < budget {
        let s2 = EntropyCoder::bit_next(s, logp);
        if EntropyCoder::bit_value(s, logp) != 0 {
            lemma_boost_loop_bounds(s2, budget - quanta, 1, s2.tell_frac_spec(), boost + quanta, quanta);
            let r = boost_loop(s2, budget - quanta, 1, s2.tell_frac_spec(), boost + quanta, quanta).0;
            vstd::arithmetic::div_mod::lemma_mod_adds(r - boost - quanta, quanta, quanta);
            vstd::arithmetic::div_mod::lemma_mod_self_0(quanta);
        }
    } else {
        vstd::arithmetic::div_mod::lemma_mod_self_0(quanta);
        assert(0int % quanta == 0) by {
            vstd::arithmetic::div_mod::lemma_small_mod(0, quanta as nat);
        }
    }
}

/// Decodes the band boosts of a frame of `length` bytes: band `i` gets `boost_of(.., i)`,
/// a run of flags, the first costing `dynalloc_logp` bits (6, one less after each boosted
/// band, down to 2) and the next ones 1 bit, each `1` adding a quantum; a run stops at a `0`
/// or when the budget less the boosts so far cannot pay for another flag. Returns the total
/// boost.
pub fn decode_band_boosts(length: usize, ec: &mut EntropyCoder, boosts: &mut [i32]) -> (r: usize)
    requires
        old(ec).wf(),
        old(boosts)@.len() == 21,
        length <= 0x2000,
    ensures
        final(ec).wf(),
        final(ec).nbits_total >= old(ec).nbits_total,
        final(boosts)@.len() == 21,
        forall|i: int| 0 <= i < 21 ==> #[trigger] final(boosts)@[i] == boost_of(*old(ec), length * 64, i as nat),
        forall|i: int| 0 <= i < 21 ==> 0 <= #[trigger] final(boosts)@[i] && (final(boosts)@[i] as int) % boost_quanta(i) == 0,
        *final(ec) == boost_pre(*old(ec), length * 64, 21).0,
        r == boost_sum(final(boosts)@, 21),
        r <= length * 64 + 352,
{
    let ghost s0 = *ec;
    let total_bits: usize = length * 64;
    let mut dynalloc_logp: usize = 6;
    let mut total_boost: usize = 0;
    let mut tell = ec.tell_frac();
    let mut i: usize = 0;
    while i < 21
        invariant
            0 <= i <= 21,
            boosts@.len() == 21,
            total_bits == length * 64,
            length <= 0x2000,
            2 <= dynalloc_logp <= 6,
            total_boost <= total_bits + 352,
            total_boost == boost_sum(boosts@, i as int),
            tell <= 8 * crate::entdec::NBITS_CAP,
            ec.wf(),
            ec.nbits_total >= old(ec).nbits_total,
            boost_pre(s0, total_bits as int, i as nat) == (*ec, dynalloc_logp as nat, tell as int, total_boost as int),
            forall|j: int| 0 <= j < i ==> #[trigger] boosts@[j] == boost_of(s0, total_bits as int, j as nat),
            forall|j: int| 0 <= j < i ==> 0 <= #[trigger] boosts@[j] && (boosts@[j] as int) % boost_quanta(j) == 0,
        decreases 21 - i,
    {
        proof {
            crate::consts::lemma_bands();
        }
        let width = 16 * BAND_WIDTHS[i];
        let quanta = if 8 * width < (if width > 48 { width } else { 48 }) {
            8 * width
        } else if width > 48 {
            width
        } else {
            48
        };
        let ghost pre = *ec;
        let ghost tell0 = tell as int;
        let ghost budget0 = total_bits as int - total_boost as int;
        let ghost logp0 = dynalloc_logp as nat;
        let mut boost: usize = 0;
        let mut loop_logp = dynalloc_logp;
        let mut budget: i64 = total_bits as i64 - total_boost as i64;
        let mut done = false;
        proof {
            lemma_boost_loop_bounds(pre, budget0, logp0, tell0, 0, quanta as int);
        }
        while !done && ((loop_logp * 8 + tell) as i64) < budget
            invariant
                1 <= loop_logp <= 6,
                quanta == boost_quanta(i as int),
                48 <= quanta <= 352,
                budget + total_boost + boost == total_bits,
                total_boost + boost <= total_bits + 352,
                tell <= 8 * crate::entdec::NBITS_CAP,
                total_bits <= 0x8_0000,
                boost % quanta == 0,
                ec.wf(),
                ec.nbits_total >= old(ec).nbits_total,
                done ==> boost_loop(pre, budget0, logp0, tell0, 0, quanta as int) == (boost as int, *ec, tell as int),
                !done ==> boost_loop(pre, budget0, logp0, tell0, 0, quanta as int) == boost_loop(
                    *ec,
                    budget as int,
                    loop_logp as nat,
                    tell as int,
                    boost as int,
                    quanta as int,
                ),
            decreases budget + 352 + (if done { 0int } else { 1int }),
        {
            let bit = ec.decode_bit_logp(loop_logp as u32);
            tell = ec.tell_frac();
            if bit == 0 {
                done = true;
            } else {
                proof {
                    vstd::arithmetic::div_mod::lemma_mod_adds(boost as int, quanta as int, quanta as int);
                    vstd::arithmetic::div_mod::lemma_mod_self_0(quanta as int);
                }
                boost = boost + quanta;
                budget = budget - quanta as i64;
                loop_logp = 1;
            }
        }
        let ghost before = boosts@;
        boosts[i] = boost as i32;
        proof {
            lemma_boost_sum_prefix(before, boosts@, i as int);
        }
        total_boost = total_boost + boost;
        if boost != 0 && dynalloc_logp > 2 {
            dynalloc_logp = dynalloc_logp - 1;
        }
        i = i + 1;
    }
    total_boost
}

/// The tapset symbol of a decoded value `fs` of 4: the inverse cumulative table `[2, 1, 0]`.
pub open spec fn tapset_of(fs: int) -> int {
    if fs < 2 {
        0
    } else if fs < 3 {
        1
    } else {
        2
    }
}

/// The decoder state and values of the post-filter parameters, read from `s` once the
/// filter flag is on: octave, pitch bits, gain bits and the state before the tapset.
#[verifier::opaque]
pub open spec fn post_filter_fields<'a>(s: EntropyCoder<'a>) -> (int, int, int, EntropyCoder<'a>) {
    let octave = EntropyCoder::uint_value(s, 6);
    let s2 = EntropyCoder::uint_next(s, 6);
    let pb = EntropyCoder::bits_value(s2, (4 + octave) as nat);
    let s3 = EntropyCoder::bits_next(s2, (4 + octave) as nat);
    let g = EntropyCoder::bits_value(s3, 3);
    let s4 = EntropyCoder::bits_next(s3, 3);
    (octave, pb as int, g as int, s4)
}

#[verifier::rlimit(40)]
/// Decodes the post-filter parameters when the frame has 16 bits of room (`tell + 16 <=
/// total_bits`) and the filter flag is on: an octave (uniform in `0..6`), `4 + octave` raw
/// bits of pitch within it, three raw bits of gain and a tapset (`0..3`). `pitch` becomes
/// `(16 << octave) + bits - 1` and `gain` the three gain bits `g` (the filter gain is
/// `3 (g + 1) / 32`). Returns whether the filter is on; nothing changes when it is off.
pub fn decode_post_filter_params(
    total_bits: usize,
    pitch: &mut usize,
    tapset: &mut usize,
    gain: &mut u32,
    ec: &mut EntropyCoder,
) -> (r: bool)
    requires
        old(ec).wf(),
        old(ec).raw_room() >= 12,
    ensures
        final(ec).wf(),
        final(ec).nbits_total >= old(ec).nbits_total,
        r == (old(ec).tell_spec() + 16 <= total_bits && EntropyCoder::bit_value(*old(ec), 1) == 1),
        !r ==> *final(pitch) == *old(pitch) && *final(tapset) == *old(tapset) && *final(gain) == *old(gain),
        r ==> 15 <= *final(pitch) <= 1022 && *final(tapset) <= 2 && *final(gain) <= 7,
        r ==> ({
            let f = post_filter_fields(EntropyCoder::bit_next(*old(ec), 1));
            let fs = EntropyCoder::sym(f.3, 4);
            &&& *final(pitch) == 16 * crate::utils::p2(f.0 as nat) + f.1 - 1
            &&& *final(gain) == f.2
            &&& *final(tapset) == tapset_of(fs)
        }),
{
    if ec.tell() + 16 <= total_bits {
        let ghost s0 = *ec;
        if ec.decode_bit_logp(1) == 1 {
            proof {
                crate::utils::lemma_p2_values();
                reveal_with_fuel(crate::utils::p2, 4);
                crate::utils::lemma_ilog_le(5, 3);
            }
            let ghost s1 = *ec;
            let octave = ec.decode_uint(6);
            let ghost s2 = *ec;
            assert(octave <= 5);
            let pitch_in_octave = ec.decode_bits(4 + octave);
            let ghost s3 = *ec;
            proof {
                crate::utils::lemma_p2_mono((4 + octave) as nat, 9);
            }
            let p = crate::utils::pow2_u32(octave);
            *pitch = ((16 * p + pitch_in_octave) - 1) as usize;
            let g = ec.decode_bits(3);
            let ghost s4 = *ec;
            assert(post_filter_fields(s1) == (octave as int, pitch_in_octave as int, g as int, s4)) by {
                reveal(post_filter_fields);
            }
            *gain = g;
            let icdf: [u8; 3] = [2, 1, 0];
            let t = ec.decode_icdf(&icdf, 2);
            proof {
                reveal_with_fuel(crate::utils::p2, 3);
            }
            *tapset = t as usize;
            return true;
        }
    }
    false
}

} // verus!
