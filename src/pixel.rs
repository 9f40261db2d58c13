//! A single element of the strip: a hue, which is its sort key, and the
//! color shown for it.
use vstd::prelude::*;
use crate::color::{focus_color, hsv_render, hsv_to_rgb, Rgb, NORMAL_BRIGHTNESS, SATURATION};

verus! {

#[derive(Clone, Copy, Debug, PartialEq, Eq, Structural)]
pub struct Pixel {
    pub hue: u8,
    pub led: Rgb,
}

impl Default for Pixel {
    /// A pixel with hue 0 that shows no light.
    fn default() -> (p: Pixel)
        ensures
            p == Pixel::default_spec(),
    {
        Pixel { hue: 0, led: Rgb::black() }
    }
}

impl Pixel {
    /// The pixel shows the normal render of its own hue.
    pub open spec fn rendered(self) -> bool {
        self.led == hsv_render(self.hue, SATURATION, NORMAL_BRIGHTNESS)
    }

    /// The unset pixel: hue 0, no light.
    pub open spec fn default_spec() -> Pixel {
        Pixel { hue: 0, led: Rgb { r: 0, g: 0, b: 0 } }
    }

    /// Stores `hue` and shows it rendered at `sat` and `val`.
    pub fn set(&mut self, hue: u8, sat: u8, val: u8)
        ensures
            final(self).hue == hue,
            final(self).led == hsv_render(hue, sat, val),
            final(self).led.r <= val && final(self).led.g <= val && final(self).led.b <= val,
    {
        self.hue = hue;
        self.led = hsv_to_rgb(hue, sat, val);
    }

    /// A pixel that shows `hue` at the strip's saturation and brightness.
    pub fn with_hue(hue: u8) -> (p: Pixel)
        ensures
            p.hue == hue,
            p.rendered(),
            p.led != focus_color(),
    {
        let mut p = Pixel::default();
        p.set(hue, SATURATION, NORMAL_BRIGHTNESS);
        p
    }

    pub fn hue(&self) -> (h: u8)
        ensures
            h == self.hue,
    {
        self.hue
    }

    pub fn color(&self) -> (c: Rgb)
        ensures
            c == self.led,
    {
        self.led
    }
}

} // verus!
