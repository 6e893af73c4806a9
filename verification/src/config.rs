//! Runtime parameters of the visualizer and their validation.
//!
//! The on-disk representation is owned by the unverified shell; the core
//! receives already-parsed values and checks them for structural validity
//! before the pipeline starts.

use vstd::prelude::*;

use crate::CoreError;

verus! {

/// Primary sort axis for deriving the panels' display order.
#[derive(Debug, Clone, Copy, PartialEq, Eq, Structural)]
pub enum Axis {
    X,
    Y,
}

/// Sort direction for one axis.
#[derive(Debug, Clone, Copy, PartialEq, Eq, Structural)]
pub enum Sort {
    Asc,
    Desc,
}

/// Device-related parameters.
#[derive(Debug, Clone)]
pub struct NlConfig {
    pub primary_axis: Axis,
    pub sort_primary: Sort,
    pub sort_secondary: Sort,
    /// 1-based display indices of the panels that receive commands.
    pub active_panels: Vec<usize>,
    /// Where the pairing token is persisted (a path, kept as text here).
    pub token_file_path: String,
    pub ip: String,
    pub port: u16,
}

/// All runtime parameters. `default_gain` is a fixed-point gain in
/// hundredths (100 == 1.0).
#[derive(Debug, Clone)]
pub struct Config {
    pub nl_config: NlConfig,
    pub audio_device: String,
    pub min_freq: u32,
    pub max_freq: u32,
    pub default_gain: u32,
    pub transition_time: u16,
    pub hues: Vec<u16>,
}

/// Make sure at least one hue and one active panel are present, so the
/// pipeline always drives at least one band; anything already present is
/// left untouched.
pub fn ensure_defaults(config: &mut Config)
    ensures
        final(config).hues@ == if old(config).hues@.len() == 0 {
            seq![0u16]
        } else {
            old(config).hues@
        },
        final(config).nl_config.active_panels@ == if old(
            config,
        ).nl_config.active_panels@.len() == 0 {
            seq![1usize]
        } else {
            old(config).nl_config.active_panels@
        },
        final(config).hues@.len() >= 1,
        final(config).nl_config.active_panels@.len() >= 1,
        final(config).nl_config.primary_axis == old(config).nl_config.primary_axis,
        final(config).nl_config.sort_primary == old(config).nl_config.sort_primary,
        final(config).nl_config.sort_secondary == old(config).nl_config.sort_secondary,
        final(config).min_freq == old(config).min_freq,
        final(config).max_freq == old(config).max_freq,
        final(config).default_gain == old(config).default_gain,
        final(config).transition_time == old(config).transition_time,
{
    if config.hues.len() == 0 {
        config.hues.push(0);
        assert(config.hues@ =~= seq![0u16]);
    }
    if config.nl_config.active_panels.len() == 0 {
        config.nl_config.active_panels.push(1);
        assert(config.nl_config.active_panels@ =~= seq![1usize]);
    }
}

/// Pad the hue list by repeating its last entry, or truncate it, until one
/// hue per active panel remains. This normalization is explicit policy.
pub fn normalize_hues(hues: &mut Vec<u16>, n: usize)
    requires
        old(hues)@.len() >= 1,
        n >= 1,
    ensures
        final(hues)@.len() == n,
        forall|i: int|
            0 <= i < n ==> final(hues)@[i] == if i < old(hues)@.len() {
                old(hues)@[i]
            } else {
                old(hues)@.last()
            },
{
    while hues.len() < n
        invariant
            n >= 1,
            old(hues)@.len() >= 1,
            hues@.len() >= old(hues)@.len(),
            forall|i: int|
                0 <= i < hues@.len() ==> hues@[i] == if i < old(hues)@.len() {
                    old(hues)@[i]
                } else {
                    old(hues)@.last()
                },
        decreases n - hues@.len(),
    {
        let last = hues[hues.len() - 1];
        hues.push(last);
    }
    while hues.len() > n
        invariant
            n >= 1,
            old(hues)@.len() >= 1,
            hues@.len() >= n,
            forall|i: int|
                0 <= i < hues@.len() ==> hues@[i] == if i < old(hues)@.len() {
                    old(hues)@[i]
                } else {
                    old(hues)@.last()
                },
        decreases hues@.len(),
    {
        hues.pop();
    }
}

/// All listed display indices lie in 1..=n_panels.
pub open spec fn active_panels_valid(active: Seq<usize>, n_panels: int) -> bool {
    forall|i: int| 0 <= i < active.len() ==> 1 <= #[trigger] active[i] <= n_panels
}

/// Check the configured display indices against the number of panels the
/// device reported: zero and out-of-range indices are fatal configuration
/// errors, exactly as the startup checks demand.
pub fn validate_active_panels(active: &Vec<usize>, n_panels: usize) -> (r: Result<
    (),
    CoreError,
>)
    ensures
        r is Ok <==> active_panels_valid(active@, n_panels as int),
        r is Err ==> r == Err::<(), CoreError>(CoreError::Configuration),
{
    let mut i: usize = 0;
    while i < active.len()
        invariant
            0 <= i <= active@.len(),
            forall|j: int| 0 <= j < i ==> 1 <= #[trigger] active@[j] <= n_panels,
        decreases active@.len() - i,
    {
        if active[i] == 0 || active[i] > n_panels {
            return Err(CoreError::Configuration);
        }
        i += 1;
    }
    Ok(())
}

/// The frequency range and transition time are structurally valid for
/// `n_bands` logarithmic bands at the given sample rate: the minimum is
/// positive, the range leaves room for `n_bands` strictly increasing
/// integer cutoffs, the maximum respects the Nyquist limit, and the
/// transition time is positive.
pub open spec fn audio_params_valid(
    min_freq: int,
    max_freq: int,
    n_bands: int,
    sample_rate: int,
    transition_time: int,
) -> bool {
    &&& min_freq >= 1
    &&& max_freq >= min_freq + n_bands
    &&& max_freq <= sample_rate / 2
    &&& transition_time >= 1
}

/// Check the audio-side parameters; any violation is a fatal
/// configuration error, reported before a single frame is sent.
pub fn check_audio_params(
    min_freq: u32,
    max_freq: u32,
    n_bands: usize,
    sample_rate: u32,
    transition_time: u16,
) -> (r: Result<(), CoreError>)
    ensures
        r is Ok <==> audio_params_valid(
            min_freq as int,
            max_freq as int,
            n_bands as int,
            sample_rate as int,
            transition_time as int,
        ),
        r is Err ==> r == Err::<(), CoreError>(CoreError::Configuration),
{
    if min_freq < 1 {
        return Err(CoreError::Configuration);
    }
    if (max_freq as u128) < (min_freq as u128) + (n_bands as u128) {
        return Err(CoreError::Configuration);
    }
    if max_freq > sample_rate / 2 {
        return Err(CoreError::Configuration);
    }
    if transition_time < 1 {
        return Err(CoreError::Configuration);
    }
    Ok(())
}

} // verus!
