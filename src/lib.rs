//! The CELT layer of the Opus decoder: entropy decoding, bit allocation, energy symbols,
//! pulse vector decoding and the integer side of band decoding, with contracts proved by
//! Verus.

pub mod consts;
pub mod utils;
pub mod entdec;
pub mod bands_utils;
pub mod rate;
pub mod quant_bands;
pub mod decoder;
pub mod bands;
pub mod vq;
pub mod cwrs;
pub mod partition;
pub mod frame;
