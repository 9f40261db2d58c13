//! The strip controller: the pixel buffer, the display it is shown on, and
//! the animations that reorder it.
use vstd::prelude::*;
use crate::animation::{
    bubble_events, bubble_pass, bubble_pass_events, bubble_passes, bubble_passes_events,
    bubble_ref, display_of, focus_events, focused_frame, frame_of, gamma_seq, marked, partition,
    partition_events, quicksort_ref, rounds, sel_min, sel_scan_events, sel_steps, sel_steps_events,
    selection_events, selection_ref, shuffle_events, draw_events, lemma_full_sort_steps, lemma_quicksort_descending, lemma_quicksort_steps,
    strictly_descending, Event,
};
use crate::color::{focus_color, gamma_frame, Rgb, NORMAL_BRIGHTNESS, SATURATION};
use crate::order::{
    apply_swaps, lemma_full_range, lemma_range_bounds, lemma_range_widen, lemma_swap_keeps_range,
    pairs_below, range_multiset, sorted_by_hue, sorted_range, swap_pixels, swapped,
};
use crate::pixel::Pixel;
use crate::random::RandomSource;

verus! {

/// Number of pixels on the strip.
pub const NUM_LEDS: usize = 60;

/// Where frames go: a display that shows one color per pixel, and the clock
/// that holds each frame on it.
pub trait LedSink {
    /// Shows `frame`, already gamma-corrected, one color per pixel.
    fn write_frame(&mut self, frame: &Vec<Rgb>);

    /// Waits `ms` milliseconds.
    fn delay_ms(&mut self, ms: u16);
}

/// A display that keeps what it was shown and asked to hold.
pub struct FrameLog {
    pub frames: Vec<Vec<Rgb>>,
    pub waits: Vec<u16>,
}

impl FrameLog {
    /// A log with nothing in it.
    pub fn new() -> (l: FrameLog)
        ensures
            l.frames@.len() == 0,
            l.waits@.len() == 0,
    {
        FrameLog { frames: Vec::new(), waits: Vec::new() }
    }
}

impl LedSink for FrameLog {
    fn write_frame(&mut self, frame: &Vec<Rgb>) {
        let copy = frame.clone();
        self.frames.push(copy);
    }

    fn delay_ms(&mut self, ms: u16) {
        self.waits.push(ms);
    }
}

/// The hue that the rainbow gives position `i` of `n`: `i * 255 / n`,
/// rounded to the nearest integer, halves up.
pub open spec fn rainbow_hue(i: int, n: int) -> int {
    (510 * i + n) / (2 * n)
}

/// The rainbow hue of a position is a byte.
pub proof fn lemma_rainbow_hue_bounded(i: int, n: int)
    requires
        0 <= i < n,
    ensures
        0 <= rainbow_hue(i, n) <= 255,
{
    assert(510 * i + n < 256 * (2 * n)) by (nonlinear_arith)
        requires
            0 <= i < n,
    ;
    assert(0 <= (510 * i + n) / (2 * n) < 256) by (nonlinear_arith)
        requires
            510 * i + n < 256 * (2 * n),
            0 <= i,
            0 < n,
    ;
}

/// The colors that the pixels show, in order.
pub fn current_frame(pixels: &Vec<Pixel>) -> (r: Vec<Rgb>)
    ensures
        r@ == frame_of(pixels@),
{
    let mut frame: Vec<Rgb> = Vec::new();
    let mut p: usize = 0;
    while p < pixels.len()
        invariant
            p <= pixels@.len(),
            frame@ == frame_of(pixels@).subrange(0, p as int),
        decreases pixels@.len() - p,
    {
        frame.push(pixels[p].led);
        p += 1;
        assert(frame@ =~= frame_of(pixels@).subrange(0, p as int));
    }
    assert(frame@ =~= frame_of(pixels@));
    frame
}

/// The colors to show while the positions in `indexes` are highlighted:
/// those positions show the highlight color, every other one its own color.
pub fn focus_frame(pixels: &Vec<Pixel>, indexes: &Vec<usize>) -> (r: Vec<Rgb>)
    requires
        forall|k: int| 0 <= k < indexes@.len() ==> #[trigger] indexes@[k] < pixels@.len(),
    ensures
        r@ == focused_frame(pixels@, indexes@),
{
    let mut frame = current_frame(pixels);
    assert(frame@ =~= frame_of(pixels@).subrange(0, pixels@.len() as int));
    let mut k: usize = 0;
    while k < indexes.len()
        invariant
            forall|k: int| 0 <= k < indexes@.len() ==> #[trigger] indexes@[k] < pixels@.len(),
            k <= indexes@.len(),
            frame@.len() == pixels@.len(),
            forall|q: int|
                0 <= q < pixels@.len() ==> #[trigger] frame@[q] == if marked(indexes@, k as int, q) {
                    focus_color()
                } else {
                    pixels@[q].led
                },
        decreases indexes@.len() - k,
    {
        let target = indexes[k];
        frame.set(target, Rgb::focus());
        assert(indexes@[k as int] as int == target as int);
        k += 1;
        assert forall|q: int| 0 <= q < pixels@.len() implies #[trigger] frame@[q] == if marked(
            indexes@,
            k as int,
            q,
        ) {
            focus_color()
        } else {
            pixels@[q].led
        } by {
            if q != target as int {
                if marked(indexes@, k as int, q) {
                    let m = choose|m: int| 0 <= m < k && indexes@[m] as int == q;
                    assert(m != k - 1);
                }
            }
        }
    }
    assert(frame@ =~= focused_frame(pixels@, indexes@));
    frame
}

/// A strip of pixels shown on a display, with the sorting animations.
pub struct RainbowSortStrip<W, U> {
    pub pixels: Vec<Pixel>,
    pub write: W,
    pub serial: U,
    /// Everything asked of `write` and of the random source, oldest first.
    pub log: Ghost<Seq<Event>>,
}

/// Drawing the first `k` pairs depends only on those pairs.
proof fn lemma_draws_prefix(a: Seq<(usize, usize)>, b: Seq<(usize, usize)>, bound: usize, k: nat)
    requires
        k <= a.len() <= b.len(),
        forall|i: int| 0 <= i < a.len() ==> a[i] == b[i],
    ensures
        draw_events(b, bound, k) == draw_events(a, bound, k),
    decreases k,
{
    if k > 0 {
        lemma_draws_prefix(a, b, bound, (k - 1) as nat);
    }
}

impl<W, U> View for RainbowSortStrip<W, U> {
    type V = Seq<Pixel>;

    /// The pixel buffer.
    open spec fn view(&self) -> Seq<Pixel> {
        self.pixels@
    }
}

impl<W: LedSink, U> RainbowSortStrip<W, U> {
    /// Everything asked of the display and the random source so far, oldest
    /// first.
    pub open spec fn events(&self) -> Seq<Event> {
        self.log@
    }

    /// Hands `frame` to the display.
    fn send(&mut self, frame: &Vec<Rgb>)
        ensures
            final(self)@ == old(self)@,
            final(self).events() == old(self).events().push(Event::Frame(frame@)),
    {
        self.write.write_frame(frame);
        proof {
            self.log@ = self.log@.push(Event::Frame(frame@));
        }
    }

    /// Holds what the display shows for `ms` milliseconds.
    fn hold(&mut self, ms: u16)
        ensures
            final(self)@ == old(self)@,
            final(self).events() == old(self).events().push(Event::Hold(ms)),
    {
        self.write.delay_ms(ms);
        proof {
            self.log@ = self.log@.push(Event::Hold(ms));
        }
    }

    /// A strip of `NUM_LEDS` unset pixels shown on `write`. Nothing is sent
    /// to the display.
    pub fn new(write: W, serial: U) -> (s: Self)
        ensures
            s.write == write,
            s.serial == serial,
            s.events().len() == 0,
            s@.len() == NUM_LEDS,
            forall|i: int| 0 <= i < NUM_LEDS ==> #[trigger] s@[i] == Pixel::default_spec(),
    {
        let mut pixels: Vec<Pixel> = Vec::new();
        let mut i: usize = 0;
        while i < NUM_LEDS
            invariant
                i <= NUM_LEDS,
                pixels@.len() == i,
                forall|j: int| 0 <= j < i ==> #[trigger] pixels@[j] == Pixel::default_spec(),
            decreases NUM_LEDS - i,
        {
            pixels.push(Pixel::default());
            i += 1;
        }
        RainbowSortStrip { pixels, write, serial, log: Ghost(Seq::empty()) }
    }

    /// Sends the pixels' colors, gamma-corrected, to the display.
    fn write_pixels(&mut self)
        ensures
            final(self)@ == old(self)@,
            final(self).events() == old(self).events().push(Event::Frame(display_of(old(self)@))),
    {
        let frame = current_frame(&self.pixels);
        let corrected = gamma_frame(&frame);
        assert(corrected@ =~= display_of(self.pixels@));
        self.send(&corrected);
    }

    /// Highlights the pixels at `indexes` on the display for `delay_ms`
    /// milliseconds: one frame, then one hold. The buffer itself is left as
    /// it was.
    pub fn focus(&mut self, indexes: &Vec<usize>, delay_ms: u16)
        requires
            forall|k: int| 0 <= k < indexes@.len() ==> #[trigger] indexes@[k] < old(self)@.len(),
        ensures
            final(self)@ == old(self)@,
            final(self).events() == old(self).events() + focus_events(
                old(self)@,
                indexes@,
                delay_ms,
            ),
    {
        let frame = focus_frame(&self.pixels, indexes);
        let corrected = gamma_frame(&frame);
        assert(corrected@ =~= gamma_seq(focused_frame(self.pixels@, indexes@)));
        self.send(&corrected);
        self.hold(delay_ms);
        assert(self.events() =~= old(self).events() + focus_events(old(self)@, indexes@, delay_ms));
    }

    /// Gives each pixel its place on the hue circle, evenly spaced from hue 0,
    /// rendered at the strip's saturation and brightness, then shows the
    /// buffer.
    pub fn fill_rainbow_effect(&mut self)
        requires
            old(self)@.len() * 511 <= usize::MAX,
        ensures
            final(self)@.len() == old(self)@.len(),
            forall|i: int|
                0 <= i < final(self)@.len() ==> (#[trigger] final(self)@[i]).hue == rainbow_hue(
                    i,
                    final(self)@.len() as int,
                ) && final(self)@[i].rendered(),
            final(self).events() == old(self).events().push(Event::Frame(display_of(final(self)@))),
    {
        let n = self.pixels.len();
        let mut index: usize = 0;
        while index < n
            invariant
                index <= n,
                n * 511 <= usize::MAX,
                self.pixels@.len() == n,
                self.log == old(self).log,
                forall|i: int|
                    0 <= i < index ==> (#[trigger] self.pixels@[i]).hue == rainbow_hue(i, n as int)
                        && self.pixels@[i].rendered(),
            decreases n - index,
        {
            proof {
                lemma_rainbow_hue_bounded(index as int, n as int);
                assert(index * 510 + n <= n * 511) by (nonlinear_arith)
                    requires
                        index < n,
                ;
            }
            let hue = ((index * 510 + n) / (2 * n)) as u8;
            let mut pixel = self.pixels[index];
            pixel.set(hue, SATURATION, NORMAL_BRIGHTNESS);
            self.pixels.set(index, pixel);
            index += 1;
        }
        self.write_pixels();
    }

    /// Shuffles the buffer: one round per pixel, each round exchanging eight
    /// pairs of positions drawn from `rng`, then showing the buffer and
    /// holding it for `delay_ms` milliseconds.
    pub fn shuffle_effect<R: RandomSource>(&mut self, rng: &mut R, delay_ms: u16)
        ensures
            final(self)@.len() == old(self)@.len(),
            final(self)@.to_multiset() == old(self)@.to_multiset(),
            exists|pairs: Seq<(usize, usize)>|
                pairs.len() == 8 * old(self)@.len() && pairs_below(pairs, old(self)@.len() as int)
                    && #[trigger] apply_swaps(old(self)@, pairs) == final(self)@
                    && final(self).events() == old(self).events() + draw_events(
                    pairs,
                    old(self)@.len() as usize,
                    pairs.len(),
                ) + shuffle_events(old(self)@, pairs, delay_ms, old(self)@.len()),
    {
        let n = self.pixels.len();
        let mut pairs: Vec<(usize, usize)> = Vec::new();
        let mut round: usize = 0;
        while round < n
            invariant
                round <= n,
                n == old(self)@.len(),
                pairs@.len() == 8 * round,
                pairs_below(pairs@, n as int),
                self@ == old(self)@,
                self.events() == old(self).events() + draw_events(pairs@, n, pairs@.len()),
            decreases n - round,
        {
            let mut draws: usize = 0;
            while draws < 8
                invariant
                    draws <= 8,
                    round < n,
                    n == old(self)@.len(),
                    pairs@.len() == 8 * round + draws,
                    pairs_below(pairs@, n as int),
                    self@ == old(self)@,
                    self.events() == old(self).events() + draw_events(pairs@, n, pairs@.len()),
                decreases 8 - draws,
            {
                let a = rng.uniform(n);
                proof {
                    self.log@ = self.log@.push(Event::Draw { bound: n, value: a });
                }
                let b = rng.uniform(n);
                proof {
                    self.log@ = self.log@.push(Event::Draw { bound: n, value: b });
                }
                let ghost before = pairs@;
                pairs.push((a, b));
                proof {
                    assert forall|k: nat| k <= before.len() implies draw_events(pairs@, n, k)
                        == draw_events(before, n, k) by {
                        lemma_draws_prefix(before, pairs@, n, k);
                    }
                }
                assert(self.events() =~= old(self).events() + draw_events(pairs@, n, pairs@.len()));
                draws += 1;
            }
            round += 1;
        }
        self.shuffle_with(&pairs, delay_ms);
        assert(self.events() =~= old(self).events() + draw_events(pairs@, n, pairs@.len())
            + shuffle_events(old(self)@, pairs@, delay_ms, n as nat));
    }

    /// Shuffles the buffer with the given exchanges: one round per pixel, each
    /// round applying the next eight pairs in order, then showing the buffer
    /// and holding it for `delay_ms` milliseconds.
    pub fn shuffle_with(&mut self, pairs: &Vec<(usize, usize)>, delay_ms: u16)
        requires
            pairs@.len() == 8 * old(self)@.len(),
            pairs_below(pairs@, old(self)@.len() as int),
        ensures
            final(self)@.len() == old(self)@.len(),
            final(self)@ == apply_swaps(old(self)@, pairs@),
            final(self)@.to_multiset() == old(self)@.to_multiset(),
            final(self).events() == old(self).events() + shuffle_events(
                old(self)@,
                pairs@,
                delay_ms,
                old(self)@.len(),
            ),
    {
        let n = self.pixels.len();
        let ghost s0 = self.pixels@;
        let mut round: usize = 0;
        let mut t: usize = 0;
        let total = pairs.len();
        while round < n
            invariant
                total == pairs@.len(),
                round <= n,
                t == 8 * round,
                n == s0.len(),
                self.pixels@.len() == n,
                pairs@.len() == 8 * n,
                pairs_below(pairs@, n as int),
                s0 == old(self)@,
                self.pixels@ == apply_swaps(s0, pairs@.take(8 * round)),
                self.pixels@.to_multiset() == s0.to_multiset(),
                self.events() == old(self).events() + shuffle_events(
                    s0,
                    pairs@,
                    delay_ms,
                    round as nat,
                ),
            decreases n - round,
        {
            let mut w: usize = 0;
            while w < 8
                invariant
                    w <= 8,
                    round < n,
                    total == pairs@.len(),
                    t == 8 * round + w,
                    n == s0.len(),
                    pairs@.len() == 8 * n,
                    pairs_below(pairs@, n as int),
                    self.pixels@.len() == n,
                    self.pixels@ == apply_swaps(s0, pairs@.take(8 * round + w)),
                    self.pixels@.to_multiset() == s0.to_multiset(),
                    self.events() == old(self).events() + shuffle_events(
                        s0,
                        pairs@,
                        delay_ms,
                        round as nat,
                    ),
                decreases 8 - w,
            {
                let (a, b) = pairs[t];
                assert(pairs@.take(t + 1).drop_last() =~= pairs@.take(t as int));
                assert(pairs@.take(t + 1).last() == pairs@[t as int]);
                self.swap(a, b);
                w += 1;
                t += 1;
            }
            let ghost before = self.events();
            self.write_pixels();
            self.hold(delay_ms);
            round += 1;
            assert(self.events() =~= old(self).events() + shuffle_events(
                s0,
                pairs@,
                delay_ms,
                round as nat,
            ));
        }
        assert(pairs@.take(8 * n) =~= pairs@);
    }

    /// Exchanges the pixels at `i` and `j`.
    fn swap(&mut self, i: usize, j: usize)
        requires
            i < old(self)@.len(),
            j < old(self)@.len(),
        ensures
            final(self)@ == swapped(old(self)@, i as int, j as int),
            final(self)@.to_multiset() == old(self)@.to_multiset(),
            final(self).log == old(self).log,
    {
        proof {
            let s = self.pixels@;
            lemma_swap_keeps_range(s, i as int, j as int, 0, s.len() as int);
            lemma_full_range(s);
            lemma_full_range(swapped(s, i as int, j as int));
        }
        swap_pixels(&mut self.pixels, i, j);
    }

    /// Sorts the buffer by hue with bubble sort, passes of decreasing length
    /// exchanging neighbours whose left hue is greater; after each comparison
    /// the compared pair is highlighted for `delay_ms` milliseconds. Then the
    /// result is shown.
    pub fn bubblesort_effect(&mut self, delay_ms: u16)
        ensures
            final(self)@ == bubble_ref(old(self)@),
            final(self).events().len() == old(self).events().len() + old(self)@.len() * (
            old(self)@.len() - 1) + 1,
            final(self).events() == (old(self).events() + bubble_events(old(self)@, delay_ms)).push(
                Event::Frame(display_of(final(self)@)),
            ),
            final(self)@.len() == old(self)@.len(),
            final(self)@.to_multiset() == old(self)@.to_multiset(),
            sorted_by_hue(final(self)@),
            sorted_by_hue(old(self)@) ==> final(self)@ == old(self)@,
    {
        let n = self.pixels.len();
        let mut len: usize = n;
        while len >= 2
            invariant
                self.pixels@.len() == n,
                n == old(self)@.len(),
                len <= n,
                n >= 1 ==> len >= 1,
                self.pixels@ == bubble_passes(old(self)@, n as nat, (n - len) as nat),
                self.events() == old(self).events() + bubble_passes_events(
                    old(self)@,
                    n as nat,
                    (n - len) as nat,
                    delay_ms,
                ),
                self.pixels@.to_multiset() == old(self)@.to_multiset(),
                sorted_range(self.pixels@, len as int, n as int),
                forall|a: int, b: int|
                    0 <= a < len <= b < n ==> (#[trigger] self.pixels@[a]).hue
                        <= (#[trigger] self.pixels@[b]).hue,
                sorted_by_hue(old(self)@) ==> self.pixels@ == old(self)@,
            decreases len,
        {
            let ghost t = self.pixels@;
            let ghost e0 = self.events();
            let mut index: usize = 0;
            while index < len - 1
                invariant
                    2 <= len <= n,
                    n == old(self)@.len(),
                    index <= len - 1,
                    self.pixels@.len() == n,
                    t.len() == n,
                    self.pixels@ == bubble_pass(t, index as nat),
                    self.events() == e0 + bubble_pass_events(t, index as nat, delay_ms),
                    self.pixels@.to_multiset() == old(self)@.to_multiset(),
                    sorted_range(self.pixels@, len as int, n as int),
                    forall|a: int, b: int|
                        0 <= a < len <= b < n ==> (#[trigger] self.pixels@[a]).hue
                            <= (#[trigger] self.pixels@[b]).hue,
                    forall|k: int|
                        0 <= k <= index ==> (#[trigger] self.pixels@[k]).hue
                            <= self.pixels@[index as int].hue,
                    sorted_by_hue(old(self)@) ==> self.pixels@ == old(self)@,
                decreases len - 1 - index,
            {
                if self.pixels[index].hue > self.pixels[index + 1].hue {
                    self.swap(index, index + 1);
                }
                assert(self.pixels@ == bubble_pass(t, (index + 1) as nat));
                let idx = vec![index, index + 1];
                assert(idx@ =~= seq![index, (index + 1) as usize]);
                self.focus(&idx, delay_ms);
                assert(self.events() =~= e0 + bubble_pass_events(t, (index + 1) as nat, delay_ms));
                index += 1;
            }
            len -= 1;
            assert(self.events() =~= old(self).events() + bubble_passes_events(
                old(self)@,
                n as nat,
                (n - len) as nat,
                delay_ms,
            ));
        }
        proof {
            lemma_full_sort_steps(old(self)@, delay_ms);
        }
        self.write_pixels();
    }

    /// Sorts the buffer by hue with quicksort: the last position of each
    /// range is the pivot, and before each candidate is compared the pivot,
    /// the candidate and the partition boundary are highlighted for
    /// `delay_ms` milliseconds. Then the result is shown.
    pub fn quicksort_effect(&mut self, delay_ms: u16)
        ensures
            final(self)@ == quicksort_ref(old(self)@, 0, old(self)@.len() as int, delay_ms).0,
            final(self).events() == (old(self).events() + quicksort_ref(
                old(self)@,
                0,
                old(self)@.len() as int,
                delay_ms,
            ).1).push(Event::Frame(display_of(final(self)@))),
            final(self).events().len() <= old(self).events().len() + old(self)@.len() * (
            old(self)@.len() - 1) + 1,
            strictly_descending(old(self)@, 0, old(self)@.len() as int) ==> final(self).events().len()
                == old(self).events().len() + old(self)@.len() * (old(self)@.len() - 1) + 1,
            final(self)@.len() == old(self)@.len(),
            final(self)@.to_multiset() == old(self)@.to_multiset(),
            sorted_by_hue(final(self)@),
    {
        let n = self.pixels.len();
        self.quicksort_effect_inner(0, n, delay_ms);
        proof {
            lemma_quicksort_steps(old(self)@, 0, n as int, delay_ms);
            if strictly_descending(old(self)@, 0, n as int) {
                lemma_quicksort_descending(old(self)@, delay_ms);
            }
            lemma_full_range(old(self)@);
            lemma_full_range(self.pixels@);
        }
        self.write_pixels();
    }

    /// Sorts positions `start .. end` by hue, partitioning around the last
    /// of them and recursing on both sides of it.
    fn quicksort_effect_inner(&mut self, start: usize, end: usize, delay_ms: u16)
        requires
            end <= old(self)@.len(),
        ensures
            final(self)@ == quicksort_ref(old(self)@, start as int, end as int, delay_ms).0,
            final(self).events() == old(self).events() + quicksort_ref(
                old(self)@,
                start as int,
                end as int,
                delay_ms,
            ).1,
            final(self)@.len() == old(self)@.len(),
            forall|k: int|
                0 <= k < old(self)@.len() && !(start <= k < end) ==> #[trigger] final(self)@[k]
                    == old(self)@[k],
            start <= end ==> range_multiset(final(self)@, start as int, end as int)
                == range_multiset(old(self)@, start as int, end as int),
            sorted_range(final(self)@, start as int, end as int),
        decreases end - start,
    {
        if end <= start || end - start < 2 {
            assert(self.events() =~= old(self).events() + Seq::<Event>::empty());
            return;
        }
        let ghost s0 = self.pixels@;
        let ghost e0 = self.events();
        let pivot_i = end - 1;
        let mut greater_start = start;
        let mut candidate_i = start;
        while candidate_i < pivot_i
            invariant
                start <= greater_start <= candidate_i <= pivot_i,
                pivot_i == end - 1,
                end <= self.pixels@.len(),
                self.pixels@.len() == s0.len(),
                self.pixels@[pivot_i as int] == s0[pivot_i as int],
                self.pixels@ == partition(s0, start as int, pivot_i as int, candidate_i as int).0,
                greater_start == partition(s0, start as int, pivot_i as int, candidate_i as int).1,
                self.events() == e0 + partition_events(
                    s0,
                    start as int,
                    pivot_i as int,
                    candidate_i as int,
                    delay_ms,
                ),
                forall|k: int|
                    0 <= k < s0.len() && !(start <= k < end) ==> #[trigger] self.pixels@[k]
                        == s0[k],
                range_multiset(self.pixels@, start as int, end as int) == range_multiset(
                    s0,
                    start as int,
                    end as int,
                ),
                forall|k: int|
                    start <= k < greater_start ==> (#[trigger] self.pixels@[k]).hue
                        < s0[pivot_i as int].hue,
                forall|k: int|
                    greater_start <= k < candidate_i ==> (#[trigger] self.pixels@[k]).hue
                        >= s0[pivot_i as int].hue,
            decreases pivot_i - candidate_i,
        {
            let idx = vec![pivot_i, candidate_i, greater_start];
            assert(idx@ =~= seq![pivot_i, candidate_i, greater_start]);
            self.focus(&idx, delay_ms);
            assert(self.events() =~= e0 + partition_events(
                s0,
                start as int,
                pivot_i as int,
                (candidate_i + 1) as int,
                delay_ms,
            ));
            if self.pixels[pivot_i].hue > self.pixels[candidate_i].hue {
                proof {
                    lemma_swap_keeps_range(
                        self.pixels@,
                        candidate_i as int,
                        greater_start as int,
                        start as int,
                        end as int,
                    );
                }
                swap_pixels(&mut self.pixels, candidate_i, greater_start);
                greater_start += 1;
            }
            candidate_i += 1;
        }
        let ghost e1 = self.events();
        proof {
            lemma_swap_keeps_range(
                self.pixels@,
                greater_start as int,
                pivot_i as int,
                start as int,
                end as int,
            );
        }
        swap_pixels(&mut self.pixels, greater_start, pivot_i);
        let ghost p = s0[pivot_i as int].hue as int;
        let ghost s1 = self.pixels@;
        assert(s1[greater_start as int].hue == p);
        assert(forall|k: int| start <= k < greater_start ==> 0 <= (#[trigger] s1[k]).hue <= p - 1);
        assert(forall|k: int| greater_start < k < end ==> p <= (#[trigger] s1[k]).hue <= 255);

        self.quicksort_effect_inner(start, greater_start, delay_ms);
        let ghost e2 = self.events();
        let ghost s2 = self.pixels@;
        proof {
            lemma_range_bounds(s1, s2, start as int, greater_start as int, 0, p - 1);
            lemma_range_widen(s1, s2, start as int, greater_start as int, start as int, end as int);
        }
        self.quicksort_effect_inner(greater_start + 1, end, delay_ms);
        proof {
            let s3 = self.pixels@;
            lemma_range_bounds(s2, s3, greater_start + 1, end as int, p, 255);
            lemma_range_widen(s2, s3, greater_start + 1, end as int, start as int, end as int);
            assert(s3[greater_start as int].hue == p);
            assert forall|i: int, j: int| start <= i <= j < end implies (#[trigger] s3[i]).hue
                <= (#[trigger] s3[j]).hue by {
                if j < greater_start {
                } else if i > greater_start {
                } else {
                    assert(s3[i].hue <= p);
                    assert(s3[j].hue >= p);
                }
            }
        }
    assert(self.events() =~= old(self).events() + quicksort_ref(
            old(self)@,
            start as int,
            end as int,
            delay_ms,
        ).1);
    }

    /// Sorts the buffer by hue with selection sort: each position in turn
    /// takes the first smallest hue from there on. While scanning, the
    /// position being filled, the best so far and the position under
    /// inspection are highlighted for `delay_ms` milliseconds. Then the
    /// result is shown.
    pub fn selection_sort_effect(&mut self, delay_ms: u16)
        ensures
            final(self)@ == selection_ref(old(self)@),
            final(self).events().len() == old(self).events().len() + old(self)@.len() * (
            old(self)@.len() - 1) + 1,
            final(self).events() == (old(self).events() + selection_events(
                old(self)@,
                delay_ms,
            )).push(Event::Frame(display_of(final(self)@))),
            final(self)@.len() == old(self)@.len(),
            final(self)@.to_multiset() == old(self)@.to_multiset(),
            sorted_by_hue(final(self)@),
            sorted_by_hue(old(self)@) ==> final(self)@ == old(self)@,
    {
        let n = self.pixels.len();
        let mut i: usize = 0;
        while n - i > 1
            invariant
                self.pixels@.len() == n,
                n == old(self)@.len(),
                i <= n,
                n == 0 ==> i == 0,
                n >= 1 ==> i <= n - 1,
                self.pixels@ == sel_steps(old(self)@, i as nat),
                self.events() == old(self).events() + sel_steps_events(
                    old(self)@,
                    i as nat,
                    delay_ms,
                ),
                self.pixels@.to_multiset() == old(self)@.to_multiset(),
                sorted_range(self.pixels@, 0, i as int),
                forall|a: int, b: int|
                    0 <= a < i <= b < n ==> (#[trigger] self.pixels@[a]).hue
                        <= (#[trigger] self.pixels@[b]).hue,
                sorted_by_hue(old(self)@) ==> self.pixels@ == old(self)@,
            decreases n - i,
        {
            let ghost t = self.pixels@;
            let ghost e0 = self.events();
            let mut j_min: usize = i;
            let mut j: usize = i + 1;
            while j < n
                invariant
                    i < j <= n,
                    i <= j_min < j,
                    n == old(self)@.len(),
                    self.pixels@.len() == n,
                    self.pixels@ == t,
                    j_min == sel_min(t, i as int, j as int),
                    self.events() == e0 + sel_scan_events(t, i as int, j as int, delay_ms),
                    self.pixels@.to_multiset() == old(self)@.to_multiset(),
                    sorted_range(self.pixels@, 0, i as int),
                    forall|a: int, b: int|
                        0 <= a < i <= b < n ==> (#[trigger] self.pixels@[a]).hue
                            <= (#[trigger] self.pixels@[b]).hue,
                    forall|k: int|
                        i <= k < j ==> self.pixels@[j_min as int].hue
                            <= (#[trigger] self.pixels@[k]).hue,
                    sorted_by_hue(old(self)@) ==> self.pixels@ == old(self)@ && j_min == i,
                decreases n - j,
            {
                let idx = vec![i, j_min, j];
                assert(idx@ =~= seq![i, j_min, j]);
                self.focus(&idx, delay_ms);
                assert(self.events() =~= e0 + sel_scan_events(t, i as int, (j + 1) as int, delay_ms));
                if self.pixels[j].hue < self.pixels[j_min].hue {
                    j_min = j;
                }
                j += 1;
            }
            if j_min != i {
                self.swap(i, j_min);
            }
            i += 1;
            assert(self.pixels@ == sel_steps(old(self)@, i as nat));
            assert(self.events() =~= old(self).events() + sel_steps_events(
                old(self)@,
                i as nat,
                delay_ms,
            ));
        }
        proof {
            lemma_full_sort_steps(old(self)@, delay_ms);
        }
        self.write_pixels();
    }
}

} // verus!
