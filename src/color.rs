//! Colors, and the two conversions that the strip relies on: rendering a
//! hue as a color and gamma-correcting a frame before it is sent.
use vstd::prelude::*;

verus! {

/// An 8-bit-per-channel color.
#[derive(Clone, Copy, Debug, PartialEq, Eq, Structural)]
pub struct Rgb {
    pub r: u8,
    pub g: u8,
    pub b: u8,
}

/// Saturation with which every hue is rendered.
pub const SATURATION: u8 = 0xFF;

/// Brightness with which every hue is rendered.
pub const NORMAL_BRIGHTNESS: u8 = 0xA0;

/// Color shown on a highlighted pixel: white at full channel value, which no
/// hue rendered at normal brightness can produce.
pub open spec fn focus_color() -> Rgb {
    Rgb { r: 0xFF, g: 0xFF, b: 0xFF }
}

impl Rgb {
    pub open spec fn channels(self) -> (u8, u8, u8) {
        (self.r, self.g, self.b)
    }

    /// The highlight color.
    pub fn focus() -> (c: Rgb)
        ensures
            c == focus_color(),
    {
        Rgb { r: 0xFF, g: 0xFF, b: 0xFF }
    }

    /// The color of a pixel that has not been set.
    pub fn black() -> (c: Rgb)
        ensures
            c == (Rgb { r: 0, g: 0, b: 0 }),
    {
        Rgb { r: 0, g: 0, b: 0 }
    }
}

/// The channels (red, green, blue) that `smart_leds::hsv::hsv2rgb` gives for a
/// hue, a saturation and a value.
pub uninterp spec fn hsv_channels(hue: u8, sat: u8, val: u8) -> (u8, u8, u8);

/// The gamma-corrected value that `smart_leds::gamma` gives for one channel.
pub uninterp spec fn gamma_channel(c: u8) -> u8;

/// The color of `hue` at the given saturation and value.
pub open spec fn hsv_render(hue: u8, sat: u8, val: u8) -> Rgb {
    let c = hsv_channels(hue, sat, val);
    Rgb { r: c.0, g: c.1, b: c.2 }
}

/// A color with each channel gamma-corrected.
pub open spec fn gamma_rgb(c: Rgb) -> Rgb {
    Rgb { r: gamma_channel(c.r), g: gamma_channel(c.g), b: gamma_channel(c.b) }
}

/// Relies on `smart_leds::hsv::hsv2rgb`: it is a total function of the hue,
/// the saturation and the value, and no channel it gives exceeds the value.
#[verifier::external_body]
pub(crate) fn hsv_to_rgb(hue: u8, sat: u8, val: u8) -> (r: Rgb)
    ensures
        r.channels() == hsv_channels(hue, sat, val),
        r.r <= val && r.g <= val && r.b <= val,
{
    let c = smart_leds::hsv::hsv2rgb(smart_leds::hsv::Hsv { hue, sat, val });
    Rgb { r: c.r, g: c.g, b: c.b }
}

/// Relies on `smart_leds::gamma`: it yields one color for each color it is
/// given, in order, each channel mapped through the same table.
#[verifier::external_body]
pub(crate) fn gamma_frame(frame: &Vec<Rgb>) -> (r: Vec<Rgb>)
    ensures
        r@.len() == frame@.len(),
        forall|i: int|
            0 <= i < frame@.len() ==> (#[trigger] r@[i]).r == gamma_channel(frame@[i].r)
                && r@[i].g == gamma_channel(frame@[i].g) && r@[i].b == gamma_channel(frame@[i].b),
{
    smart_leds::gamma(frame.iter().map(|c| smart_leds::RGB8::new(c.r, c.g, c.b))).map(
        |c| Rgb { r: c.r, g: c.g, b: c.b },
    ).collect()
}

} // verus!
