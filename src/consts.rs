//! The fixed layout of a 20 ms full-band stereo frame.
use vstd::prelude::*;

verus! {

/// Samples per channel in a frame.
pub const FRAME_SIZE: usize = 960;

/// Coded bands.
pub const NUM_BANDS: usize = 21;

/// Channels.
pub const NUM_CHANNELS: i32 = 2;

/// log2 of the frame size over 120 samples.
pub const LM: i32 = 3;

/// Rows of the static allocation table.
pub const NUM_QUALITIES: usize = 11;

/// Band edges in MDCT bins of the shortest (2.5 ms) frame; a band of a 20 ms frame holds
/// eight times as many samples.
pub const BANDS: [usize; 22] = [
    0, 1, 2, 3, 4, 5, 6, 7, 8, 10, 12, 14, 16, 20, 24, 28, 34, 40, 48, 60, 78, 100,
];

/// `BANDS[i + 1] - BANDS[i]`.
pub const BAND_WIDTHS: [usize; 21] = [
    1, 1, 1, 1, 1, 1, 1, 1, 2, 2, 2, 2, 4, 4, 4, 6, 6, 8, 12, 18, 22,
];

/// The static allocation, in 1/32 bit per MDCT bin, for each quality and band.
pub const BAND_ALLOCATION: [[i32; 21]; 11] = [
    [0, 0, 0, 0, 0, 0, 0, 0, 0, 0, 0, 0, 0, 0, 0, 0, 0, 0, 0, 0, 0],
    [90, 80, 75, 69, 63, 56, 49, 40, 34, 29, 20, 18, 10, 0, 0, 0, 0, 0, 0, 0, 0],
    [110, 100, 90, 84, 78, 71, 65, 58, 51, 45, 39, 32, 26, 20, 12, 0, 0, 0, 0, 0, 0],
    [118, 110, 103, 93, 86, 80, 75, 70, 65, 59, 53, 47, 40, 31, 23, 15, 4, 0, 0, 0, 0],
    [126, 119, 112, 104, 95, 89, 83, 78, 72, 66, 60, 54, 47, 39, 32, 25, 17, 12, 1, 0, 0],
    [134, 127, 120, 114, 103, 97, 91, 85, 78, 72, 66, 60, 54, 47, 41, 35, 29, 23, 16, 10, 1],
    [144, 137, 130, 124, 113, 107, 101, 95, 88, 82, 76, 70, 64, 57, 51, 45, 39, 33, 26, 15, 1],
    [152, 145, 138, 132, 123, 117, 111, 105, 98, 92, 86, 80, 74, 67, 61, 55, 49, 43, 36, 20, 1],
    [162, 155, 148, 142, 133, 127, 121, 115, 108, 102, 96, 90, 84, 77, 71, 65, 59, 53, 46, 30, 1],
    [172, 165, 158, 152, 143, 137, 131, 125, 118, 112, 106, 100, 94, 87, 81, 75, 69, 63, 56, 45, 20],
    [200, 200, 200, 200, 200, 200, 200, 200, 198, 193, 188, 183, 178, 173, 168, 163, 158, 153, 148, 129, 104],
];

/// The band edges rise, and each width is the distance between two edges.
pub proof fn lemma_bands()
    ensures
        forall|i: int| 0 <= i < 21 ==> #[trigger] BANDS@[i] < BANDS@[i + 1],
        forall|i: int| 0 <= i < 21 ==> #[trigger] BAND_WIDTHS@[i] == BANDS@[i + 1] - BANDS@[i],
        forall|i: int| 0 <= i < 21 ==> 1 <= #[trigger] BAND_WIDTHS@[i] <= 22,
        forall|i: int| 0 <= i <= 21 ==> #[trigger] BANDS@[i] <= 100,
        BANDS@[0] == 0,
        BANDS@[21] == 100,
{
}

} // verus!
