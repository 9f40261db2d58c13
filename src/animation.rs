//! What the animations show: the events the display receives, and the run
//! of each sorting animation, step by step, as a function of the buffer it
//! starts from.
use vstd::prelude::*;
use crate::color::{gamma_rgb, Rgb};
use crate::order::{apply_swaps, swapped};
use crate::pixel::Pixel;

verus! {

/// Something the display or the random source is asked for.
pub enum Event {
    /// Show these colors, one per pixel.
    Frame(Seq<Rgb>),
    /// Hold what is shown for this many milliseconds.
    Hold(u16),
    /// A position drawn below `bound` came out as `value`.
    Draw { bound: usize, value: usize },
}

/// Drawing the first `k` of `pairs`, each position below `bound`: both
/// positions of a pair, in order.
pub open spec fn draw_events(pairs: Seq<(usize, usize)>, bound: usize, k: nat) -> Seq<Event>
    decreases k,
{
    if k == 0 {
        Seq::empty()
    } else {
        draw_events(pairs, bound, (k - 1) as nat) + seq![
            Event::Draw { bound, value: pairs[k - 1].0 },
            Event::Draw { bound, value: pairs[k - 1].1 },
        ]
    }
}

/// What the display receives for the colors `c`: each gamma-corrected.
pub open spec fn gamma_seq(c: Seq<Rgb>) -> Seq<Rgb> {
    c.map_values(|x: Rgb| gamma_rgb(x))
}

/// The colors that the pixels of `s` show, in order.
pub open spec fn frame_of(s: Seq<Pixel>) -> Seq<Rgb> {
    s.map_values(|p: Pixel| p.led)
}

/// What the display receives for the buffer `s`.
pub open spec fn display_of(s: Seq<Pixel>) -> Seq<Rgb> {
    gamma_seq(frame_of(s))
}

/// Position `p` is among the first `n` entries of `idx`.
pub open spec fn marked(idx: Seq<usize>, n: int, p: int) -> bool {
    exists|m: int| 0 <= m < n && #[trigger] idx[m] as int == p
}

/// The colors shown while the positions in `idx` are highlighted.
pub open spec fn focused_frame(s: Seq<Pixel>, idx: Seq<usize>) -> Seq<Rgb> {
    Seq::new(
        s.len(),
        |p: int|
            if marked(idx, idx.len() as int, p) {
                crate::color::focus_color()
            } else {
                s[p].led
            },
    )
}

/// Highlighting `idx` on the buffer `s` for `d` milliseconds: one frame,
/// then one hold.
pub open spec fn focus_events(s: Seq<Pixel>, idx: Seq<usize>, d: u16) -> Seq<Event> {
    seq![Event::Frame(gamma_seq(focused_frame(s, idx))), Event::Hold(d)]
}

/// The first `r` rounds of a shuffle of `s` by `pairs`: after round `k` the
/// buffer with the first `8 * k` pairs exchanged is shown, then held.
pub open spec fn shuffle_events(s: Seq<Pixel>, pairs: Seq<(usize, usize)>, d: u16, r: nat) -> Seq<
    Event,
>
    decreases r,
{
    if r == 0 {
        Seq::empty()
    } else {
        shuffle_events(s, pairs, d, (r - 1) as nat) + seq![
            Event::Frame(display_of(apply_swaps(s, pairs.take(8 * r as int)))),
            Event::Hold(d),
        ]
    }
}

/// How many outer steps bubble and selection sort take on `n` pixels.
pub open spec fn rounds(n: nat) -> nat {
    if n >= 1 {
        (n - 1) as nat
    } else {
        0
    }
}

/// One bubble comparison at `i`: exchange `i` and `i + 1` when the left hue
/// is greater.
pub open spec fn bubble_step(s: Seq<Pixel>, i: int) -> Seq<Pixel> {
    if s[i].hue > s[i + 1].hue {
        swapped(s, i, i + 1)
    } else {
        s
    }
}

/// `s` after the first `k` comparisons of a bubble pass.
pub open spec fn bubble_pass(s: Seq<Pixel>, k: nat) -> Seq<Pixel>
    decreases k,
{
    if k == 0 {
        s
    } else {
        bubble_step(bubble_pass(s, (k - 1) as nat), k - 1)
    }
}

/// What the first `k` comparisons of a bubble pass show: after comparison
/// `i`, positions `i` and `i + 1` highlighted.
pub open spec fn bubble_pass_events(s: Seq<Pixel>, k: nat, d: u16) -> Seq<Event>
    decreases k,
{
    if k == 0 {
        Seq::empty()
    } else {
        bubble_pass_events(s, (k - 1) as nat, d) + focus_events(
            bubble_pass(s, k),
            seq![(k - 1) as usize, k as usize],
            d,
        )
    }
}

/// `s` (of length `n`) after `m` bubble passes; pass `m` makes `n - m`
/// comparisons.
pub open spec fn bubble_passes(s: Seq<Pixel>, n: nat, m: nat) -> Seq<Pixel>
    decreases m,
{
    if m == 0 {
        s
    } else {
        bubble_pass(bubble_passes(s, n, (m - 1) as nat), (n - m) as nat)
    }
}

/// What the first `m` bubble passes show.
pub open spec fn bubble_passes_events(s: Seq<Pixel>, n: nat, m: nat, d: u16) -> Seq<Event>
    decreases m,
{
    if m == 0 {
        Seq::empty()
    } else {
        bubble_passes_events(s, n, (m - 1) as nat, d) + bubble_pass_events(
            bubble_passes(s, n, (m - 1) as nat),
            (n - m) as nat,
            d,
        )
    }
}

/// The buffer a bubble sort of `s` ends with.
pub open spec fn bubble_ref(s: Seq<Pixel>) -> Seq<Pixel> {
    bubble_passes(s, s.len(), rounds(s.len()))
}

/// What a bubble sort of `s` shows before its final frame.
pub open spec fn bubble_events(s: Seq<Pixel>, d: u16) -> Seq<Event> {
    bubble_passes_events(s, s.len(), rounds(s.len()), d)
}

/// The position of the first smallest hue among positions `i .. j` of `s`.
pub open spec fn sel_min(s: Seq<Pixel>, i: int, j: int) -> int
    decreases j - i,
{
    if j <= i + 1 {
        i
    } else {
        let m = sel_min(s, i, j - 1);
        if s[j - 1].hue < s[m].hue {
            j - 1
        } else {
            m
        }
    }
}

/// What the scan for position `i` shows while inspecting `i + 1 .. j`:
/// at each `k`, positions `i`, the best so far, and `k` highlighted.
pub open spec fn sel_scan_events(s: Seq<Pixel>, i: int, j: int, d: u16) -> Seq<Event>
    decreases j - i,
{
    if j <= i + 1 {
        Seq::empty()
    } else {
        sel_scan_events(s, i, j - 1, d) + focus_events(
            s,
            seq![i as usize, sel_min(s, i, j - 1) as usize, (j - 1) as usize],
            d,
        )
    }
}

/// Filling position `i`: the first smallest hue from `i` on moves there.
pub open spec fn sel_place(s: Seq<Pixel>, i: int) -> Seq<Pixel> {
    let m = sel_min(s, i, s.len() as int);
    if m != i {
        swapped(s, i, m)
    } else {
        s
    }
}

/// `s` after its first `k` positions are filled.
pub open spec fn sel_steps(s: Seq<Pixel>, k: nat) -> Seq<Pixel>
    decreases k,
{
    if k == 0 {
        s
    } else {
        sel_place(sel_steps(s, (k - 1) as nat), k - 1)
    }
}

/// What filling the first `k` positions shows.
pub open spec fn sel_steps_events(s: Seq<Pixel>, k: nat, d: u16) -> Seq<Event>
    decreases k,
{
    if k == 0 {
        Seq::empty()
    } else {
        let t = sel_steps(s, (k - 1) as nat);
        sel_steps_events(s, (k - 1) as nat, d) + sel_scan_events(t, k - 1, t.len() as int, d)
    }
}

/// The buffer a selection sort of `s` ends with.
pub open spec fn selection_ref(s: Seq<Pixel>) -> Seq<Pixel> {
    sel_steps(s, rounds(s.len()))
}

/// What a selection sort of `s` shows before its final frame.
pub open spec fn selection_events(s: Seq<Pixel>, d: u16) -> Seq<Event> {
    sel_steps_events(s, rounds(s.len()), d)
}

/// The partition of `start .. p` around the pivot at `p` after candidates
/// `start .. c` are seen: the buffer, and where the hues not below the
/// pivot's begin.
pub open spec fn partition(s: Seq<Pixel>, start: int, p: int, c: int) -> (Seq<Pixel>, int)
    decreases c - start,
{
    if c <= start {
        (s, start)
    } else {
        let (t, g) = partition(s, start, p, c - 1);
        if t[p].hue > t[c - 1].hue {
            (swapped(t, c - 1, g), g + 1)
        } else {
            (t, g)
        }
    }
}

/// What the partition shows: before candidate `k` is compared, the pivot,
/// `k` and the boundary highlighted.
pub open spec fn partition_events(s: Seq<Pixel>, start: int, p: int, c: int, d: u16) -> Seq<
    Event,
>
    decreases c - start,
{
    if c <= start {
        Seq::empty()
    } else {
        let (t, g) = partition(s, start, p, c - 1);
        partition_events(s, start, p, c - 1, d) + focus_events(
            t,
            seq![p as usize, (c - 1) as usize, g as usize],
            d,
        )
    }
}

/// A quicksort of positions `start .. end` of `s`: the buffer it ends with
/// and what it shows.
pub open spec fn quicksort_ref(s: Seq<Pixel>, start: int, end: int, d: u16) -> (
    Seq<Pixel>,
    Seq<Event>,
)
    decreases end - start,
{
    if end - start < 2 {
        (s, Seq::empty())
    } else {
        let p = end - 1;
        let (t, g) = partition(s, start, p, p);
        let shown = partition_events(s, start, p, p, d);
        let u = swapped(t, g, p);
        if start <= g && g < end {
            let (v, left) = quicksort_ref(u, start, g, d);
            let (w, right) = quicksort_ref(v, g + 1, end, d);
            (w, shown + left + right)
        } else {
            (u, shown)
        }
    }
}

/// Partitioning up to candidate `c` keeps the length, leaves the boundary
/// between `start` and `c`, and shows one highlight step per candidate.
pub proof fn lemma_partition_shape(s: Seq<Pixel>, start: int, p: int, c: int, d: u16)
    requires
        0 <= start <= c <= p < s.len(),
    ensures
        partition(s, start, p, c).0.len() == s.len(),
        start <= partition(s, start, p, c).1 <= c,
        partition_events(s, start, p, c, d).len() == 2 * (c - start),
    decreases c - start,
{
    if c > start {
        lemma_partition_shape(s, start, p, c - 1, d);
    }
}

/// A quicksort of `start .. end` keeps the length and shows at most
/// `(end - start) * (end - start - 1) / 2` highlight steps (a frame and a
/// hold each).
pub proof fn lemma_quicksort_steps(s: Seq<Pixel>, start: int, end: int, d: u16)
    requires
        0 <= start <= end <= s.len(),
    ensures
        quicksort_ref(s, start, end, d).0.len() == s.len(),
        quicksort_ref(s, start, end, d).1.len() <= (end - start) * (end - start - 1),
    decreases end - start,
{
    if end - start >= 2 {
        let p = end - 1;
        lemma_partition_shape(s, start, p, p, d);
        let (t, g) = partition(s, start, p, p);
        let u = swapped(t, g, p);
        lemma_quicksort_steps(u, start, g, d);
        let (v, left) = quicksort_ref(u, start, g, d);
        lemma_quicksort_steps(v, g + 1, end, d);
        let (w, right) = quicksort_ref(v, g + 1, end, d);
        assert(quicksort_ref(s, start, end, d).1 == partition_events(s, start, p, p, d) + left
            + right);
        assert(quicksort_ref(s, start, end, d).0 == w);
        let l1 = g - start;
        let l2 = end - g - 1;
        let l = end - start;
        assert(l1 * (l1 - 1) + l2 * (l2 - 1) + 2 * (l - 1) <= l * (l - 1)) by (nonlinear_arith)
            requires
                l1 >= 0,
                l2 >= 0,
                l1 + l2 == l - 1,
        ;
    } else {
        assert((end - start) * (end - start - 1) >= 0) by (nonlinear_arith)
            requires
                0 <= end - start < 2,
        ;
    }
}

/// A bubble pass of `k` comparisons keeps the length and shows `k`
/// highlight steps.
pub proof fn lemma_bubble_pass_shape(s: Seq<Pixel>, k: nat, d: u16)
    requires
        k < s.len(),
    ensures
        bubble_pass(s, k).len() == s.len(),
        bubble_pass_events(s, k, d).len() == 2 * k,
    decreases k,
{
    if k > 0 {
        lemma_bubble_pass_shape(s, (k - 1) as nat, d);
    }
}

/// `m` bubble passes over `n` pixels show `m * (2n - m - 1) / 2` highlight
/// steps; all `n - 1` passes show `n * (n - 1) / 2`.
pub proof fn lemma_bubble_steps(s: Seq<Pixel>, n: nat, m: nat, d: u16)
    requires
        n == s.len(),
        m <= rounds(n),
    ensures
        bubble_passes(s, n, m).len() == n,
        bubble_passes_events(s, n, m, d).len() == 2 * m * n - m * (m + 1),
    decreases m,
{
    if m > 0 {
        lemma_bubble_steps(s, n, (m - 1) as nat, d);
        let t = bubble_passes(s, n, (m - 1) as nat);
        lemma_bubble_pass_shape(t, (n - m) as nat, d);
        assert(bubble_passes_events(s, n, m, d) == bubble_passes_events(s, n, (m - 1) as nat, d)
            + bubble_pass_events(t, (n - m) as nat, d));
        assert(bubble_passes(s, n, m) == bubble_pass(t, (n - m) as nat));
        let m1 = (m - 1) as nat;
        assert(bubble_passes_events(s, n, m1, d).len() == 2 * m1 * n - m1 * (m1 + 1));
        assert(bubble_pass_events(t, (n - m) as nat, d).len() == 2 * (n - m));
        assert(2 * m1 * n - m1 * (m1 + 1) + 2 * (n - m) == 2 * m * n - m * (m + 1))
            by (nonlinear_arith)
            requires
                m1 == m - 1,
        ;
        assert(bubble_passes_events(s, n, m, d).len() == bubble_passes_events(s, n, m1, d).len()
            + bubble_pass_events(t, (n - m) as nat, d).len());
    } else {
        assert(bubble_passes_events(s, n, m, d) =~= Seq::<Event>::empty());
        assert(2 * m * n - m * (m + 1) == 0) by (nonlinear_arith)
            requires
                m == 0,
        ;
    }
}

/// The scan for position `i` up to `j` shows one highlight step for each
/// position after `i`.
pub proof fn lemma_sel_scan_shape(s: Seq<Pixel>, i: int, j: int, d: u16)
    requires
        0 <= i < j,
    ensures
        sel_scan_events(s, i, j, d).len() == 2 * (j - i - 1),
        i <= sel_min(s, i, j) < j,
    decreases j - i,
{
    if j > i + 1 {
        lemma_sel_scan_shape(s, i, j - 1, d);
    }
}

/// Filling the first `k` positions of `n` keeps the length and shows
/// `k * (2n - k - 1) / 2` highlight steps; all `n - 1` show
/// `n * (n - 1) / 2`.
pub proof fn lemma_selection_steps(s: Seq<Pixel>, k: nat, d: u16)
    requires
        k <= rounds(s.len()),
    ensures
        sel_steps(s, k).len() == s.len(),
        sel_steps_events(s, k, d).len() == 2 * k * s.len() - k * (k + 1),
    decreases k,
{
    if k > 0 {
        let n = s.len();
        lemma_selection_steps(s, (k - 1) as nat, d);
        let t = sel_steps(s, (k - 1) as nat);
        lemma_sel_scan_shape(t, k - 1, t.len() as int, d);
        assert(sel_steps_events(s, k, d) == sel_steps_events(s, (k - 1) as nat, d)
            + sel_scan_events(t, k - 1, t.len() as int, d));
        assert(sel_steps(s, k) == sel_place(t, k - 1));
        let k1 = (k - 1) as nat;
        assert(2 * k1 * n - k1 * (k1 + 1) + 2 * (n - k) == 2 * k * n - k * (k + 1))
            by (nonlinear_arith)
            requires
                k1 == k - 1,
        ;
        assert(sel_steps_events(s, k, d).len() == sel_steps_events(s, k1, d).len()
            + sel_scan_events(t, k - 1, t.len() as int, d).len());
    } else {
        assert(sel_steps_events(s, k, d) =~= Seq::<Event>::empty());
        assert(2 * k * s.len() - k * (k + 1) == 0) by (nonlinear_arith)
            requires
                k == 0,
        ;
    }
}

/// Both full sorts of `n` pixels show `n * (n - 1) / 2` highlight steps.
pub proof fn lemma_full_sort_steps(s: Seq<Pixel>, d: u16)
    ensures
        bubble_events(s, d).len() == s.len() * (s.len() - 1),
        selection_events(s, d).len() == s.len() * (s.len() - 1),
{
    let n = s.len();
    let m = rounds(n);
    lemma_bubble_steps(s, n, m, d);
    lemma_selection_steps(s, m, d);
    if n >= 1 {
        assert(2 * (n - 1) * n - (n - 1) * n == n * (n - 1)) by (nonlinear_arith);
    }
}

/// The hues of `s` strictly decrease over positions `lo .. hi`.
pub open spec fn strictly_descending(s: Seq<Pixel>, lo: int, hi: int) -> bool {
    forall|i: int, j: int| lo <= i < j < hi ==> (#[trigger] s[i]).hue > (#[trigger] s[j]).hue
}

proof fn lemma_partition_below_all(s: Seq<Pixel>, start: int, p: int, c: int)
    requires
        0 <= start <= c <= p < s.len(),
        strictly_descending(s, start, p + 1),
    ensures
        partition(s, start, p, c) == (s, start),
    decreases c - start,
{
    if c > start {
        lemma_partition_below_all(s, start, p, c - 1);
        assert(s[c - 1].hue > s[p].hue);
    }
}

proof fn lemma_partition_above_all(s: Seq<Pixel>, start: int, p: int, c: int)
    requires
        0 <= start <= c <= p < s.len(),
        forall|k: int| start <= k < p ==> (#[trigger] s[k]).hue < s[p].hue,
    ensures
        partition(s, start, p, c) == (s, c),
    decreases c - start,
{
    if c > start {
        lemma_partition_above_all(s, start, p, c - 1);
        assert(s[c - 1].hue < s[p].hue);
        assert(swapped(s, c - 1, c - 1) =~= s);
    }
}

proof fn lemma_quicksort_descending_steps(s: Seq<Pixel>, start: int, end: int, d: u16, top: bool)
    requires
        0 <= start <= end <= s.len(),
        !top ==> strictly_descending(s, start, end),
        top ==> start < end && strictly_descending(s, start, end - 1) && forall|k: int|
            start <= k < end - 1 ==> (#[trigger] s[k]).hue < s[end - 1].hue,
    ensures
        quicksort_ref(s, start, end, d).1.len() == (end - start) * (end - start - 1),
    decreases end - start,
{
    let l = end - start;
    if l < 2 {
        assert(l * (l - 1) == 0) by (nonlinear_arith)
            requires
                0 <= l < 2,
        ;
    } else {
        let p = end - 1;
        lemma_partition_shape(s, start, p, p, d);
        if !top {
            lemma_partition_below_all(s, start, p, p);
            let u = swapped(s, start, p);
            assert(quicksort_ref(u, start, start, d).1 =~= Seq::<Event>::empty());
            lemma_quicksort_descending_steps(u, start + 1, end, d, true);
            assert(quicksort_ref(s, start, end, d).1 == partition_events(s, start, p, p, d)
                + quicksort_ref(u, start, start, d).1 + quicksort_ref(u, start + 1, end, d).1);
        } else {
            lemma_partition_above_all(s, start, p, p);
            assert(swapped(s, p, p) =~= s);
            lemma_quicksort_descending_steps(s, start, p, d, false);
            let v = quicksort_ref(s, start, p, d).0;
            assert(quicksort_ref(v, p + 1, end, d).1 =~= Seq::<Event>::empty());
            assert(quicksort_ref(s, start, end, d).1 == partition_events(s, start, p, p, d)
                + quicksort_ref(s, start, p, d).1 + quicksort_ref(v, p + 1, end, d).1);
        }
        assert(2 * (l - 1) + (l - 1) * (l - 2) == l * (l - 1)) by (nonlinear_arith);
    }
}

/// On a buffer whose hues strictly decrease, quicksort shows exactly
/// `n * (n - 1) / 2` highlight steps: every pivot is the smallest or the
/// largest of its range.
pub proof fn lemma_quicksort_descending(s: Seq<Pixel>, d: u16)
    requires
        strictly_descending(s, 0, s.len() as int),
    ensures
        quicksort_ref(s, 0, s.len() as int, d).1.len() == s.len() * (s.len() - 1),
{
    lemma_quicksort_descending_steps(s, 0, s.len() as int, d, false);
}

} // verus!
