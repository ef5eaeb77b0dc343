//! Real-time lip-sync analysis: converts frames of audio samples into a
//! stream of vowel (viseme) estimates for animation.
//!
//! All signal values are carried as fixed-point integers with 16 fractional
//! bits ("ticks", see [`fixed::SCALE`]): an amplitude of 1.0 is `SCALE`
//! ticks. This keeps the whole analysis pipeline in exact integer
//! arithmetic, so every stage carries a proved contract.
//!
//! - [`fixed`] holds the scalar ground: division, square root, cosine and
//!   the decibel scale.
//! - [`algorithm`] holds the numeric kernel: loudness, normalization,
//!   windowing, the radix-2 transform, band-pass and liftering.
//! - [`model`] holds the data shapes and the fixed vowel template tables.
//! - [`job`] holds the per-frame pipeline, the classifier, the smoothing
//!   state machine and the worker's message handling.
//! - [`lip_sync`] holds the producer side of the channel protocol.
//!
//! The channels, the worker thread and the float boundary live outside
//! the library.

use vstd::prelude::*;

pub mod algorithm;
pub mod fixed;
pub mod job;
pub mod lip_sync;
pub mod model;

verus! {

/// Number of time-domain samples consumed by one analysis frame.
pub const FFT_SAMPLES: usize = 1024;

} // verus!
