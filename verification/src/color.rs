//! Hue/whiteness/blackness color model over fixed-point integers.
//!
//! A component value of [`UNIT`] stands for 1.0. Colors stay in this model
//! through the whole pipeline and are converted to 8-bit RGB only right
//! before a frame is encoded for the wire.

use vstd::prelude::*;

verus! {

/// Fixed-point scale for color components and spectrum magnitudes: 1.0 == UNIT.
pub const UNIT: u16 = 1024;

/// A color as hue (degrees, 0..360), whiteness and blackness (0..=UNIT each).
#[derive(Debug, Clone, Copy, PartialEq, Eq, Structural)]
pub struct Hwb {
    pub hue: u16,
    pub whiteness: u16,
    pub blackness: u16,
}

impl Hwb {
    /// Well-formed: hue is a valid angle and white + black do not exceed 1.0.
    pub open spec fn wf(self) -> bool {
        self.hue < 360 && self.whiteness + self.blackness <= UNIT
    }

    /// A fully white color with the given base hue: the silence baseline.
    pub fn new(hue: u16) -> (c: Hwb)
        requires
            hue < 360,
        ensures
            c.wf(),
            c.hue == hue,
            c.whiteness == UNIT,
            c.blackness == 0,
    {
        Hwb { hue, whiteness: UNIT, blackness: 0 }
    }
}

/// The pure color of a hue angle as (red, green, blue), each in 0..=UNIT:
/// the usual six-sector piecewise-linear hue ramp.
pub open spec fn hue_channels(hue: int) -> (int, int, int) {
    let f = (hue % 60) * (UNIT as int) / 60;
    let d = UNIT - f;
    if hue < 60 {
        (UNIT as int, f, 0)
    } else if hue < 120 {
        (d, UNIT as int, 0)
    } else if hue < 180 {
        (0, UNIT as int, f)
    } else if hue < 240 {
        (0, d, UNIT as int)
    } else if hue < 300 {
        (f, 0, UNIT as int)
    } else {
        (UNIT as int, 0, d)
    }
}

/// One RGB channel of a whitened/blackened hue, scaled to 0..=255:
/// the hue channel is compressed into the band left between whiteness
/// and blackness, as hue/whiteness/blackness prescribes.
pub open spec fn mix_channel(hc: int, w: int, b: int) -> int {
    (w + hc * (UNIT - w - b) / (UNIT as int)) * 255 / (UNIT as int)
}

/// The 8-bit RGB value a well-formed color encodes to.
pub open spec fn rgb8_of(c: Hwb) -> (int, int, int) {
    let (hr, hg, hb) = hue_channels(c.hue as int);
    (
        mix_channel(hr, c.whiteness as int, c.blackness as int),
        mix_channel(hg, c.whiteness as int, c.blackness as int),
        mix_channel(hb, c.whiteness as int, c.blackness as int),
    )
}

fn hue_rgb(hue: u16) -> (rgb: (u16, u16, u16))
    requires
        hue < 360,
    ensures
        (rgb.0 as int, rgb.1 as int, rgb.2 as int) == hue_channels(hue as int),
        rgb.0 <= UNIT && rgb.1 <= UNIT && rgb.2 <= UNIT,
{
    let f: u16 = (hue % 60) * UNIT / 60;
    let d: u16 = UNIT - f;
    if hue < 60 {
        (UNIT, f, 0)
    } else if hue < 120 {
        (d, UNIT, 0)
    } else if hue < 180 {
        (0, UNIT, f)
    } else if hue < 240 {
        (0, d, UNIT)
    } else if hue < 300 {
        (f, 0, UNIT)
    } else {
        (UNIT, 0, d)
    }
}

fn mix(hc: u16, w: u16, b: u16) -> (v: u8)
    requires
        hc <= UNIT,
        w + b <= UNIT,
    ensures
        v as int == mix_channel(hc as int, w as int, b as int),
{
    let range: u32 = (UNIT - w - b) as u32;
    proof {
        assert((hc as int) * (range as int) <= (UNIT as int) * (UNIT as int)) by (nonlinear_arith)
            requires
                hc <= UNIT,
                range <= UNIT,
        ;
        assert((hc as int) * (range as int) / (UNIT as int) <= range) by (nonlinear_arith)
            requires
                hc <= UNIT,
                range >= 0,
        ;
    }
    let unit_value: u32 = w as u32 + (hc as u32) * range / (UNIT as u32);
    assert(unit_value <= UNIT);
    proof {
        assert((unit_value as int) * 255 / (UNIT as int) <= 255) by (nonlinear_arith)
            requires
                unit_value <= UNIT,
        ;
    }
    (unit_value * 255 / (UNIT as u32)) as u8
}

/// Convert a well-formed color to the 8-bit RGB triple sent on the wire.
pub fn hwb_to_rgb8(c: &Hwb) -> (rgb: (u8, u8, u8))
    requires
        c.wf(),
    ensures
        (rgb.0 as int, rgb.1 as int, rgb.2 as int) == rgb8_of(*c),
{
    let (hr, hg, hb) = hue_rgb(c.hue);
    (
        mix(hr, c.whiteness, c.blackness),
        mix(hg, c.whiteness, c.blackness),
        mix(hb, c.whiteness, c.blackness),
    )
}

} // verus!
