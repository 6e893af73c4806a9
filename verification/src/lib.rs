//! Core of an audio visualizer for Nanoleaf light panels.
//!
//! Audio amplitudes, gain and color components are carried as fixed-point
//! integers throughout; the unverified shell converts the audio device's
//! floating-point samples at the boundary.

use vstd::prelude::*;

pub mod audio;
pub mod bignum;
pub mod capture;
pub mod fft;
pub mod math;
pub mod color;
pub mod config;
pub mod nanoleaf;

verus! {

/// Errors the core itself can raise. I/O failures (pairing, capture, UDP)
/// arise outside the core and are reported by the shell.
#[derive(Debug, Clone, Copy, PartialEq, Eq, Structural)]
pub enum CoreError {
    /// Structurally invalid runtime parameters (bad panel index, bad
    /// frequency range, zero transition time).
    Configuration,
    /// An upstream invariant was broken (display index out of range).
    Contract,
}

} // verus!
