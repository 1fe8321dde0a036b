//! The symbols of a whole frame, in bitstream order. What the decoder computes from them
//! (energies, samples, filters) works on floating point and stands outside the library.
use vstd::prelude::*;
use crate::cwrs::pvq_table_ok;
use crate::decoder::{decode_band_boosts, decode_post_filter_params, tf_decode};
use crate::entdec::{EntropyCoder, MAX_FRAME};
use crate::partition::{caches_ok, quant_all_bands, FramePlan};
use crate::quant_bands::{decode_coarse_energy, decode_energy_finalise, decode_fine_energy, fine_bits_total};
use crate::rate::compute_allocation;

verus! {

/// The spread decisions, as an inverse cumulative table of 32.
pub const SPREAD_ICDF: [u8; 4] = [25, 23, 2, 0];

/// The allocation trims `0..11`, as an inverse cumulative table of 128.
pub const TRIM_ICDF: [u8; 11] = [126, 124, 119, 109, 87, 41, 19, 9, 4, 2, 0];

/// Everything a frame codes: the silence flag, the post-filter parameters (pitch, tapset,
/// gain bits) when on, the transient and intra flags, the coarse energy steps, the
/// time-frequency changes, the spread, the allocation (shape bits per band, fine energy bits
/// and priorities), the fine energy values, the band shapes, the anti-collapse flag, the
/// final energy bits and the range after the frame.
pub struct FrameSymbols {
    pub silence: bool,
    pub post_filter: Option<(usize, usize, u32)>,
    pub transient: bool,
    pub intra: bool,
    pub coarse: Vec<i32>,
    pub tf_res: Vec<i32>,
    pub spread: i32,
    pub pulses: Vec<i32>,
    pub fine_quant: Vec<i32>,
    pub fine_priority: Vec<u32>,
    pub fine: Vec<u32>,
    pub bands: FramePlan,
    pub anti_collapse: bool,
    pub finalise: Vec<i32>,
    pub range: u32,
}

/// The raw bits that the fine energy of `fine_quant` takes, when each band takes at most 25.
fn fine_bits_needed(fine_quant: &[i32]) -> (r: Option<usize>)
    requires
        fine_quant@.len() == 21,
    ensures
        r is Some ==> r->0 == fine_bits_total(fine_quant@, 21) && forall|i: int|
            0 <= i < 21 ==> 0 <= #[trigger] fine_quant@[i] <= 25,
{
    let mut total: usize = 0;
    let mut i: usize = 0;
    while i < 21
        invariant
            0 <= i <= 21,
            fine_quant@.len() == 21,
            total == fine_bits_total(fine_quant@, i as int),
            total <= 50 * i,
            forall|j: int| 0 <= j < i ==> 0 <= #[trigger] fine_quant@[j] <= 25,
        decreases 21 - i,
    {
        if fine_quant[i] < 0 || fine_quant[i] > 25 {
            return None;
        }
        total = total + 2 * fine_quant[i] as usize;
        i = i + 1;
    }
    Some(total)
}

/// The frame header: the silence flag, the post-filter parameters when on, and the
/// transient and intra flags, each flag only while the frame has room.
fn read_header(ec: &mut EntropyCoder, length: usize) -> (r: (bool, Option<(usize, usize, u32)>, bool, bool))
    requires
        old(ec).wf(),
        length <= 0x2000,
    ensures
        final(ec).wf(),
        final(ec).nbits_total >= old(ec).nbits_total,
        r.0 == (EntropyCoder::bit_value(*old(ec), 15) == 1),
{
    let silence = ec.decode_bit_logp(15) == 1;
    let mut pitch: usize = 0;
    let mut tapset: usize = 0;
    let mut gain: u32 = 0;
    let mut post_filter = None;
    if ec.raw_bits_left() >= 12 && decode_post_filter_params(length * 8, &mut pitch, &mut tapset, &mut gain, ec) {
        post_filter = Some((pitch, tapset, gain));
    }
    let transient = ec.tell() + 3 <= length * 8 && ec.decode_bit_logp(3) == 1;
    let intra = ec.tell() + 3 <= length * 8 && ec.decode_bit_logp(3) == 1;
    (silence, post_filter, transient, intra)
}

/// The spread decision, `SPREAD_NORMAL` when the frame has no room for it.
fn read_spread(ec: &mut EntropyCoder, length: usize) -> (r: i32)
    requires
        old(ec).wf(),
        length <= 0x2000,
    ensures
        final(ec).wf(),
        final(ec).nbits_total >= old(ec).nbits_total,
{
    proof {
        crate::utils::lemma_p2_values();
        reveal_with_fuel(crate::utils::p2, 8);
    }
    if ec.tell() + 4 <= length * 8 {
        ec.decode_icdf(&SPREAD_ICDF, 5) as i32
    } else {
        crate::bands::SPREAD_NORMAL
    }
}

/// The allocation trim, 5 when the frame has no room for it after the boosts.
fn read_trim(ec: &mut EntropyCoder, length: usize, total_boost: usize) -> (r: i32)
    requires
        old(ec).wf(),
        length <= 0x2000,
        total_boost <= 0x10_0000,
    ensures
        final(ec).wf(),
        final(ec).nbits_total >= old(ec).nbits_total,
        0 <= r <= 10,
{
    proof {
        crate::utils::lemma_p2_values();
        reveal_with_fuel(crate::utils::p2, 8);
    }
    if ec.tell_frac() + 6 * 8 + total_boost <= length * 8 * 8 {
        ec.decode_icdf(&TRIM_ICDF, 7) as i32
    } else {
        5
    }
}

/// The allocation of a frame: the band boosts, the trim and `compute_allocation`. Returns
/// the shape bits, fine energy bits and priorities per band, the intensity band, the dual
/// stereo flag and the coded band count.
fn read_allocation(ec: &mut EntropyCoder, length: usize, transient: bool) -> (r: (Vec<i32>, Vec<i32>, Vec<u32>, usize, bool, usize))
    requires
        old(ec).wf(),
        1 <= length <= 0x2000,
    ensures
        final(ec).wf(),
        final(ec).nbits_total >= old(ec).nbits_total,
        r.0@.len() == 21,
        r.1@.len() == 21,
        r.2@.len() == 21,
        1 <= r.5 <= 21,
        r.3 <= r.5,
{
    let mut boosts: Vec<i32> = vec![0i32; 21];
    let total_boost = decode_band_boosts(length, ec, boosts.as_mut_slice());
    proof {
        assert forall|j: int| 0 <= j < 21 implies 0 <= #[trigger] boosts@[j] <= 0x10_0000 by {
            crate::decoder::lemma_boost_le_sum(boosts@, 21, j);
        }
    }
    let allocation_trim = read_trim(ec, length, total_boost);
    let mut intensity: usize = 0;
    let mut is_dual_stereo = false;
    let mut pulses: Vec<i32> = vec![0i32; 21];
    let mut fine_quant: Vec<i32> = vec![0i32; 21];
    let mut fine_priority: Vec<u32> = vec![0u32; 21];
    let coded_bands = compute_allocation(
        boosts.as_slice(),
        allocation_trim,
        &mut intensity,
        &mut is_dual_stereo,
        length,
        transient,
        pulses.as_mut_slice(),
        fine_quant.as_mut_slice(),
        fine_priority.as_mut_slice(),
        ec,
    );
    (pulses, fine_quant, fine_priority, intensity, is_dual_stereo, coded_bands)
}

/// The final energy bits, with the bits left in the frame bounded by the raw bits left.
fn read_finalise(ec: &mut EntropyCoder, length: usize, fine_priority: &Vec<u32>) -> (r: Vec<i32>)
    requires
        old(ec).wf(),
        length <= 0x2000,
        fine_priority@.len() == 21,
    ensures
        final(ec).wf(),
        r@.len() == 42,
{
    let tell = ec.tell();
    let room = ec.raw_bits_left();
    let bits_left: i32 = if tell >= length * 8 {
        0
    } else if length * 8 - tell < room {
        (length * 8 - tell) as i32
    } else {
        room as i32
    };
    let mut finalise: Vec<i32> = vec![0i32; 42];
    decode_energy_finalise(fine_priority.as_slice(), bits_left, ec, finalise.as_mut_slice());
    finalise
}

/// Decodes all symbols of a frame of `data` (the bytes after the table-of-contents byte),
/// with the noise seed `seed` of the frame before, in bitstream order: header, coarse
/// energy, time-frequency changes, spread, allocation, fine energy, band shapes,
/// anti-collapse flag (transient frames) and final energy bits. Every frame of 1 to 8192
/// bytes decodes (reads past the front give zero bytes); the silence flag is the first
/// symbol of the decoder `EntropyCoder::started(data)`. Fine energy that the frame has no
/// raw bits (or more than 25 bits per value) for is left at zero, unread.
pub fn decode_frame(
    caches: &Vec<Vec<Vec<i32>>>,
    v: &Vec<Vec<Option<u32>>>,
    data: &[u8],
    seed: u32,
) -> (r: Option<FrameSymbols>)
    requires
        pvq_table_ok(v@),
        caches_ok(caches@),
    ensures
        r is Some <==> 1 <= data@.len() <= 0x2000,
        r is Some ==> r->0.coarse@.len() == 42 && r->0.tf_res@.len() == 21 && r->0.pulses@.len() == 21
            && r->0.fine@.len() == 42 && r->0.finalise@.len() == 42 && r->0.bands.bands@.len() == 21
            && r->0.bands.collapse_masks@.len() == 42,
        r is Some ==> r->0.silence == (EntropyCoder::bit_value(EntropyCoder::started(data), 15) == 1),
{
    let length = data.len();
    if length < 1 || length > 0x2000 {
        return None;
    }
    let mut ec = EntropyCoder::new(data);
    let (silence, post_filter, transient, intra) = read_header(&mut ec, length);
    let mut coarse: Vec<i32> = vec![0i32; 42];
    decode_coarse_energy(intra, &mut ec, coarse.as_mut_slice());
    let mut tf_res: Vec<i32> = vec![0i32; 21];
    tf_decode(transient, tf_res.as_mut_slice(), &mut ec);
    let spread = read_spread(&mut ec, length);
    let (pulses, fine_quant, fine_priority, intensity, is_dual_stereo, coded_bands) = read_allocation(
        &mut ec,
        length,
        transient,
    );
    let mut fine: Vec<u32> = vec![0u32; 42];
    match fine_bits_needed(fine_quant.as_slice()) {
        Some(needed) => {
            if ec.raw_bits_left() >= needed {
                decode_fine_energy(fine_quant.as_slice(), &mut ec, fine.as_mut_slice());
            }
        },
        None => {},
    }
    let total_bits = length * 8 * 8 - if transient {
        8
    } else {
        0
    };
    let bands = quant_all_bands(
        caches,
        v,
        &mut ec,
        seed,
        pulses.as_slice(),
        transient,
        spread,
        is_dual_stereo,
        intensity,
        tf_res.as_slice(),
        total_bits,
        coded_bands,
    );
    let anti_collapse = transient && ec.raw_bits_left() >= 1 && ec.decode_bits(1) == 1;
    let finalise = read_finalise(&mut ec, length, &fine_priority);
    let range = ec.range;
    Some(FrameSymbols {
        silence,
        post_filter,
        transient,
        intra,
        coarse,
        tf_res,
        spread,
        pulses,
        fine_quant,
        fine_priority,
        fine,
        bands,
        anti_collapse,
        finalise,
        range,
    })
}

} // verus!
