use ledsort::{focus_frame, FrameLog, LedSink, Pixel, RainbowSortStrip, RandomSource, Rgb, NUM_LEDS};
use rand::SeedableRng;
use smart_leds::hsv::{hsv2rgb, Hsv};

/// Hands out a fixed cycle of positions.
struct Cycle {
    values: Vec<usize>,
    next: usize,
}

impl RandomSource for Cycle {
    fn uniform(&mut self, n: usize) -> usize {
        let v = self.values[self.next % self.values.len()] % n;
        self.next += 1;
        v
    }
}

fn strip_with(hues: &[u8]) -> RainbowSortStrip<FrameLog, ()> {
    let mut strip = RainbowSortStrip::new(FrameLog::new(), ());
    strip.pixels = hues.iter().map(|h| Pixel::with_hue(*h)).collect();
    strip
}

fn hues_of<W: LedSink, U>(strip: &RainbowSortStrip<W, U>) -> Vec<u8> {
    strip.pixels.iter().map(|p| p.hue()).collect()
}

fn render(hue: u8) -> Rgb {
    let c = hsv2rgb(Hsv { hue, sat: 0xFF, val: 0xA0 });
    Rgb { r: c.r, g: c.g, b: c.b }
}

fn gamma(c: Rgb) -> Rgb {
    let g = smart_leds::gamma(core::iter::once(smart_leds::RGB8::new(c.r, c.g, c.b)))
        .next()
        .unwrap();
    Rgb { r: g.r, g: g.g, b: g.b }
}

fn sorted_copy(hues: &[u8]) -> Vec<u8> {
    let mut v = hues.to_vec();
    v.sort();
    v
}

const WHITE: Rgb = Rgb { r: 0xFF, g: 0xFF, b: 0xFF };

#[test]
fn new_strip_is_unset() {
    let strip = RainbowSortStrip::new(FrameLog::new(), ());
    assert!(strip.write.frames.is_empty());
    assert_eq!(strip.pixels.len(), NUM_LEDS);
    for p in &strip.pixels {
        assert_eq!(p.hue(), 0);
        assert_eq!(p.color(), Rgb { r: 0, g: 0, b: 0 });
    }
}

#[test]
fn pixel_set_renders_hue() {
    let mut p = Pixel::default();
    p.set(89, 230, 42);
    assert_eq!(p.hue(), 89);
    assert_eq!(p.color(), Rgb { r: 4, g: 42, b: 7 });
    let q = Pixel::with_hue(0);
    assert_eq!(q.color(), Rgb { r: 0xA0, g: 0, b: 0 });
}

#[test]
fn rainbow_hues_round_to_nearest() {
    let mut strip = strip_with(&[7; NUM_LEDS]);
    strip.fill_rainbow_effect();
    let hues = hues_of(&strip);
    assert_eq!(hues[0], 0);
    assert_eq!(hues[1], 4);
    assert_eq!(hues[2], 9);
    assert_eq!(hues[30], 128);
    assert_eq!(hues[59], 251);
    for (i, h) in hues.iter().enumerate() {
        let expected = ((i * 510 + NUM_LEDS) / (2 * NUM_LEDS)) as u8;
        assert_eq!(*h, expected);
    }
    for p in &strip.pixels {
        assert_eq!(p.color(), render(p.hue()));
    }
}

#[test]
fn rainbow_ignores_prior_contents() {
    let mut a = strip_with(&[200, 3, 3, 90, 17]);
    let mut b = strip_with(&[0, 0, 0, 0, 0]);
    b.pixels = vec![Pixel::default(); 5];
    a.fill_rainbow_effect();
    b.fill_rainbow_effect();
    assert_eq!(hues_of(&a), vec![0, 51, 102, 153, 204]);
    assert_eq!(a.pixels, b.pixels);
}

#[test]
fn rainbow_sends_one_gamma_corrected_frame() {
    let mut strip = strip_with(&[]);
    strip.pixels = vec![Pixel::default(); 3];
    strip.fill_rainbow_effect();
    assert_eq!(strip.write.frames.len(), 1);
    assert!(strip.write.waits.is_empty());
    let frame = &strip.write.frames[0];
    assert_eq!(frame.len(), 3);
    for (i, c) in frame.iter().enumerate() {
        assert_eq!(*c, gamma(strip.pixels[i].color()));
    }
    // red at the normal brightness is dimmed by the correction
    assert_eq!(strip.pixels[0].color(), Rgb { r: 0xA0, g: 0, b: 0 });
    assert_ne!(frame[0], strip.pixels[0].color());
}

#[test]
fn focus_frame_highlights_listed_positions() {
    let pixels: Vec<Pixel> = [10u8, 20, 30, 40].iter().map(|h| Pixel::with_hue(*h)).collect();
    let frame = focus_frame(&pixels, &vec![2, 0, 2]);
    assert_eq!(frame, vec![WHITE, render(20), WHITE, render(40)]);
    let plain = focus_frame(&pixels, &vec![]);
    assert_eq!(plain, vec![render(10), render(20), render(30), render(40)]);
}

#[test]
fn focus_restores_buffer_with_repeated_indices() {
    let mut strip = strip_with(&[10, 20, 30]);
    let before = strip.pixels.clone();
    strip.focus(&vec![1, 1], 25);
    assert_eq!(strip.pixels, before);
    for p in &strip.pixels {
        assert_eq!(p.color(), render(p.hue()));
    }
    assert_eq!(strip.write.frames.len(), 1);
    assert_eq!(strip.write.waits, vec![25]);
    assert_eq!(strip.write.frames[0], vec![gamma(render(10)), WHITE, gamma(render(30))]);
}

#[test]
fn focus_on_unset_pixels_leaves_them_unset() {
    let mut strip = strip_with(&[]);
    strip.pixels = vec![Pixel::default(); 4];
    strip.focus(&vec![0, 3, 0], 1);
    assert_eq!(strip.pixels, vec![Pixel::default(); 4]);
}

fn check_sorts(hues: &[u8]) {
    let expected = sorted_copy(hues);
    let mut a = strip_with(hues);
    a.bubblesort_effect(0);
    assert_eq!(hues_of(&a), expected);
    let mut b = strip_with(hues);
    b.selection_sort_effect(0);
    assert_eq!(hues_of(&b), expected);
    let mut c = strip_with(hues);
    c.quicksort_effect(0);
    assert_eq!(hues_of(&c), expected);
    for s in [&a, &b, &c] {
        for p in &s.pixels {
            assert_eq!(p.color(), render(p.hue()));
        }
    }
}

#[test]
fn sorts_small_example_with_duplicate() {
    check_sorts(&[3, 1, 4, 1, 5]);
    let mut s = strip_with(&[3, 1, 4, 1, 5]);
    s.quicksort_effect(0);
    assert_eq!(hues_of(&s), vec![1, 1, 3, 4, 5]);
}

#[test]
fn sorts_shuffled_rainbow() {
    let mut strip = strip_with(&[]);
    strip.pixels = vec![Pixel::default(); NUM_LEDS];
    strip.fill_rainbow_effect();
    let rainbow = strip.pixels.clone();
    let mut rng = rand::rngs::SmallRng::seed_from_u64(42);
    strip.shuffle_effect(&mut rng, 0);
    let shuffled = hues_of(&strip);
    check_sorts(&shuffled);
    strip.quicksort_effect(0);
    assert_eq!(strip.pixels, rainbow);
}

#[test]
fn sorts_empty_and_single() {
    check_sorts(&[]);
    check_sorts(&[9]);
    check_sorts(&[2, 2, 2]);
}

#[test]
fn sorted_input_is_left_unchanged() {
    let hues = [1u8, 5, 9, 40, 41, 200];
    let mut a = strip_with(&hues);
    let before = a.pixels.clone();
    a.bubblesort_effect(3);
    assert_eq!(a.pixels, before);
    // every comparison is still shown: 5 + 4 + 3 + 2 + 1, then the final frame
    assert_eq!(a.write.frames.len(), 16);
    assert_eq!(a.write.waits.len(), 15);
    let mut b = strip_with(&hues);
    b.selection_sort_effect(3);
    assert_eq!(b.pixels, before);
    let mut c = strip_with(&hues);
    c.quicksort_effect(3);
    assert_eq!(c.pixels, before);
}

#[test]
fn descending_input_worst_case() {
    let hues: Vec<u8> = (0..20u8).rev().map(|h| h * 10).collect();
    let mut a = strip_with(&hues);
    a.bubblesort_effect(0);
    assert_eq!(hues_of(&a), sorted_copy(&hues));
    assert_eq!(a.write.waits.len(), 20 * 19 / 2);
    let mut c = strip_with(&hues);
    c.quicksort_effect(0);
    assert_eq!(hues_of(&c), sorted_copy(&hues));
    // the last element is the smallest, so every partition splits off one
    assert_eq!(c.write.waits.len(), 20 * 19 / 2);
}

#[test]
fn selection_sort_highlights_three_positions() {
    let mut s = strip_with(&[30, 10, 20]);
    s.selection_sort_effect(7);
        // i = 0: j = 1, 2; i = 1: j = 2; then the final frame
    assert_eq!(s.write.frames.len(), 4);
    assert_eq!(s.write.waits, vec![7, 7, 7]);
    // first step: position 0 is filled, 0 is the best so far, 1 is inspected
    assert_eq!(s.write.frames[0], vec![WHITE, WHITE, gamma(render(20))]);
    assert_eq!(hues_of(&s), vec![10, 20, 30]);
}

#[test]
fn quicksort_highlights_pivot_candidate_and_boundary() {
    let mut s = strip_with(&[20, 30, 10]);
    s.quicksort_effect(0);
        // pivot 2, candidate 0, boundary 0
    assert_eq!(s.write.frames[0], vec![WHITE, gamma(render(30)), WHITE]);
    assert_eq!(hues_of(&s), vec![10, 20, 30]);
}

#[test]
fn shuffle_keeps_the_hues() {
    let hues = [5u8, 60, 60, 7, 200, 13, 99];
    let mut s = strip_with(&hues);
    let values = vec![3, 0, 6, 2, 5, 5, 1];
    let mut rng = Cycle { values: values.clone(), next: 0 };
    s.shuffle_effect(&mut rng, 10);
    let mut expected = hues.to_vec();
    for k in 0..7 * 8 {
        expected.swap(values[(2 * k) % 7], values[(2 * k + 1) % 7]);
    }
    assert_eq!(hues_of(&s), expected);
    assert_eq!(sorted_copy(&hues_of(&s)), sorted_copy(&hues));
    assert_ne!(hues_of(&s), hues.to_vec());
    // one round per pixel, each shown and held
    assert_eq!(s.write.frames.len(), 7);
    assert_eq!(s.write.waits, vec![10; 7]);
    assert_eq!(rng.next, 7 * 8 * 2);
}

#[test]
fn shuffle_with_seeded_rng_keeps_the_hues() {
    let hues: Vec<u8> = (0..NUM_LEDS as u8).collect();
    let mut s = strip_with(&hues);
    let mut rng = rand::rngs::SmallRng::seed_from_u64(7);
    s.shuffle_effect(&mut rng, 0);
    assert_eq!(sorted_copy(&hues_of(&s)), hues);
    assert_ne!(hues_of(&s), hues);
}

#[test]
fn shuffle_of_empty_strip_does_nothing() {
    let mut s = strip_with(&[]);
    let mut rng = Cycle { values: vec![0], next: 0 };
    s.shuffle_effect(&mut rng, 10);
    assert!(s.pixels.is_empty());
    assert!(s.write.frames.is_empty());
}

/// A display that only counts what it is sent.
#[derive(Default)]
struct Counter {
    frames: usize,
    waits: usize,
}

impl LedSink for Counter {
    fn write_frame(&mut self, _frame: &Vec<Rgb>) {
        self.frames += 1;
    }

    fn delay_ms(&mut self, _ms: u16) {
        self.waits += 1;
    }
}

#[test]
fn a_sink_of_ones_own_sees_every_frame() {
    let mut strip = RainbowSortStrip::new(Counter::default(), ());
    strip.pixels = [4u8, 3, 2, 1].iter().map(|h| Pixel::with_hue(*h)).collect();
    strip.bubblesort_effect(1);
    assert_eq!(strip.write.frames, 4 * 3 / 2 + 1);
    assert_eq!(strip.write.waits, 4 * 3 / 2);
}

#[test]
fn shuffle_with_applies_pairs_in_order() {
    let mut s = strip_with(&[10, 20]);
    // round one: 0<->1 once (then seven no-ops); round two: 0<->1 twice
    let mut pairs = vec![(0usize, 1usize)];
    pairs.extend(vec![(1, 1); 7]);
    pairs.extend(vec![(0, 1), (1, 0)]);
    pairs.extend(vec![(0, 0); 6]);
    s.shuffle_with(&pairs, 4);
    assert_eq!(hues_of(&s), vec![20, 10]);
    let swapped = vec![gamma(render(20)), gamma(render(10))];
    assert_eq!(s.write.frames, vec![swapped.clone(), swapped]);
    assert_eq!(s.write.waits, vec![4, 4]);
}

#[test]
fn shuffle_with_equal_pairs_changes_nothing() {
    let mut s = strip_with(&[10, 20, 30]);
    let before = s.pixels.clone();
    let pairs: Vec<(usize, usize)> = (0..24).map(|k| (k % 3, k % 3)).collect();
    s.shuffle_with(&pairs, 0);
    assert_eq!(s.pixels, before);
    let shown: Vec<Rgb> = before.iter().map(|p| gamma(p.color())).collect();
    assert_eq!(s.write.frames, vec![shown; 3]);
}

#[test]
fn shuffle_with_always_zero_rng_changes_nothing() {
    let mut s = strip_with(&[1, 2, 3, 4]);
    let before = s.pixels.clone();
    let mut rng = Cycle { values: vec![0], next: 0 };
    s.shuffle_effect(&mut rng, 0);
    assert_eq!(s.pixels, before);
    assert_eq!(rng.next, 4 * 16);
}

#[test]
fn focus_with_repeat_sends_same_frame_as_single() {
    let mut a = strip_with(&[10, 20, 30]);
    let mut b = strip_with(&[10, 20, 30]);
    a.focus(&vec![2, 2], 9);
    b.focus(&vec![2], 9);
    assert_eq!(a.write.frames, b.write.frames);
    assert_eq!(a.pixels, b.pixels);
}

#[test]
fn quicksort_of_single_pixel_sends_only_final_frame() {
    let mut s = strip_with(&[77]);
    s.quicksort_effect(5);
    assert_eq!(s.write.frames, vec![vec![gamma(render(77))]]);
    assert!(s.write.waits.is_empty());
}

#[test]
fn highlight_never_matches_a_rendered_hue() {
    for h in 0..=255u8 {
        assert_ne!(Pixel::with_hue(h).color(), WHITE);
    }
}

#[test]
fn sorted_equal_hues_with_different_colors_stay_put() {
    let mut dim = Pixel::default();
    dim.set(50, 0xFF, 0x10);
    let bright = Pixel::with_hue(50);
    let start = vec![Pixel::with_hue(10), dim, bright, Pixel::with_hue(90)];
    let mut a = strip_with(&[]);
    a.pixels = start.clone();
    a.bubblesort_effect(0);
    assert_eq!(a.pixels, start);
    let mut b = strip_with(&[]);
    b.pixels = start.clone();
    b.selection_sort_effect(0);
    assert_eq!(b.pixels, start);
}
