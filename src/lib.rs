//! Animates sorting algorithms on an addressable LED strip.
//!
//! The strip holds a buffer of pixels, each with a hue that is its sort key
//! and a color rendered from that hue. The animators reorder the buffer and
//! highlight each comparison on the strip as they go.

pub mod animation;
pub mod color;
pub mod order;
pub mod pixel;
pub mod random;
pub mod strip;

pub use color::Rgb;
pub use pixel::Pixel;
pub use random::RandomSource;
pub use strip::{focus_frame, FrameLog, LedSink, RainbowSortStrip, NUM_LEDS};
