//! Facts about the order of hues in a buffer and about rearranging one.
use vstd::prelude::*;
use vstd::multiset::Multiset;
use crate::pixel::Pixel;

verus! {

broadcast use {vstd::seq_lib::group_to_multiset_ensures, vstd::multiset::group_multiset_axioms};

/// The hues of `s` do not decrease over positions `lo .. hi`.
pub open spec fn sorted_range(s: Seq<Pixel>, lo: int, hi: int) -> bool {
    forall|i: int, j: int| lo <= i <= j < hi ==> (#[trigger] s[i]).hue <= (#[trigger] s[j]).hue
}

/// The hues of `s` do not decrease from start to end.
pub open spec fn sorted_by_hue(s: Seq<Pixel>) -> bool {
    sorted_range(s, 0, s.len() as int)
}

/// What positions `lo .. hi` of `s` hold, without regard to order.
pub open spec fn range_multiset(s: Seq<Pixel>, lo: int, hi: int) -> Multiset<Pixel> {
    s.subrange(lo, hi).to_multiset()
}

/// `s` with positions `i` and `j` exchanged.
pub open spec fn swapped(s: Seq<Pixel>, i: int, j: int) -> Seq<Pixel> {
    s.update(i, s[j]).update(j, s[i])
}

/// `s` after exchanging each pair of positions in `pairs`, first to last.
pub open spec fn apply_swaps(s: Seq<Pixel>, pairs: Seq<(usize, usize)>) -> Seq<Pixel>
    decreases pairs.len(),
{
    if pairs.len() == 0 {
        s
    } else {
        let last = pairs.last();
        swapped(apply_swaps(s, pairs.drop_last()), last.0 as int, last.1 as int)
    }
}

/// Every position named in `pairs` is below `n`.
pub open spec fn pairs_below(pairs: Seq<(usize, usize)>, n: int) -> bool {
    forall|k: int| 0 <= k < pairs.len() ==> (#[trigger] pairs[k]).0 < n && pairs[k].1 < n
}

/// Exchanges positions `i` and `j` of `v`.
pub fn swap_pixels(v: &mut Vec<Pixel>, i: usize, j: usize)
    requires
        i < old(v)@.len(),
        j < old(v)@.len(),
    ensures
        final(v)@ == swapped(old(v)@, i as int, j as int),
{
    let a = v[i];
    let b = v[j];
    v.set(i, b);
    v.set(j, a);
}

/// Exchanging two positions inside `lo .. hi` keeps what that range holds.
pub proof fn lemma_swap_keeps_range(s: Seq<Pixel>, i: int, j: int, lo: int, hi: int)
    requires
        0 <= lo <= i < hi <= s.len(),
        lo <= j < hi,
    ensures
        range_multiset(swapped(s, i, j), lo, hi) == range_multiset(s, lo, hi),
{
    let t = s.subrange(lo, hi);
    let u = swapped(s, i, j).subrange(lo, hi);
    assert(u =~= swapped(t, i - lo, j - lo));
    let t1 = t.update(i - lo, t[j - lo]);
    vstd::seq_lib::to_multiset_update(t, i - lo, t[j - lo]);
    vstd::seq_lib::to_multiset_update(t1, j - lo, t[i - lo]);
    assert(t1[j - lo] == t[j - lo]);
    assert(u.to_multiset() =~= t.to_multiset());
}

/// Positions `lo .. hi` of a buffer are the whole buffer when they span it.
pub proof fn lemma_full_range(s: Seq<Pixel>)
    ensures
        range_multiset(s, 0, s.len() as int) == s.to_multiset(),
{
    assert(s.subrange(0, s.len() as int) =~= s);
}

/// Where two buffers agree outside `lo .. hi` and hold the same within it,
/// they hold the same within any wider range.
pub proof fn lemma_range_widen(a: Seq<Pixel>, b: Seq<Pixel>, lo: int, hi: int, wlo: int, whi: int)
    requires
        0 <= wlo <= lo <= hi <= whi <= a.len(),
        a.len() == b.len(),
        forall|k: int| wlo <= k < whi && !(lo <= k < hi) ==> a[k] == b[k],
        range_multiset(a, lo, hi) == range_multiset(b, lo, hi),
    ensures
        range_multiset(a, wlo, whi) == range_multiset(b, wlo, whi),
{
    assert(a.subrange(wlo, lo) =~= b.subrange(wlo, lo));
    assert(a.subrange(hi, whi) =~= b.subrange(hi, whi));
    assert(a.subrange(wlo, whi) =~= a.subrange(wlo, lo) + a.subrange(lo, hi) + a.subrange(hi, whi));
    assert(b.subrange(wlo, whi) =~= b.subrange(wlo, lo) + b.subrange(lo, hi) + b.subrange(hi, whi));
    vstd::seq_lib::lemma_multiset_commutative(a.subrange(wlo, lo), a.subrange(lo, hi));
    vstd::seq_lib::lemma_multiset_commutative(a.subrange(wlo, lo) + a.subrange(lo, hi), a.subrange(hi, whi));
    vstd::seq_lib::lemma_multiset_commutative(b.subrange(wlo, lo), b.subrange(lo, hi));
    vstd::seq_lib::lemma_multiset_commutative(b.subrange(wlo, lo) + b.subrange(lo, hi), b.subrange(hi, whi));
}

/// Where a range holds the same pixels as before, bounds on the hues found
/// there still hold.
pub proof fn lemma_range_bounds(a: Seq<Pixel>, b: Seq<Pixel>, lo: int, hi: int, low: int, high: int)
    requires
        0 <= lo <= hi <= a.len(),
        hi <= b.len(),
        range_multiset(a, lo, hi) == range_multiset(b, lo, hi),
        forall|k: int| lo <= k < hi ==> low <= (#[trigger] a[k]).hue <= high,
    ensures
        forall|k: int| lo <= k < hi ==> low <= (#[trigger] b[k]).hue <= high,
{
    assert forall|k: int| lo <= k < hi implies low <= (#[trigger] b[k]).hue <= high by {
        let bs = b.subrange(lo, hi);
        let as_ = a.subrange(lo, hi);
        assert(bs[k - lo] == b[k]);
        assert(bs.contains(b[k]));
        assert(as_.to_multiset().count(b[k]) > 0);
        assert(as_.contains(b[k]));
        let m = choose|m: int| 0 <= m < as_.len() && as_[m] == b[k];
        assert(a[lo + m] == b[k]);
    }
}

/// Two buffers sorted by hue that hold the same pixels have the same hue at
/// every position: sorting a buffer that is already sorted leaves its hues
/// where they were.
pub proof fn lemma_sorted_same_hues(a: Seq<Pixel>, b: Seq<Pixel>)
    requires
        sorted_by_hue(a),
        sorted_by_hue(b),
        a.to_multiset() == b.to_multiset(),
    ensures
        a.len() == b.len(),
        forall|i: int| 0 <= i < a.len() ==> (#[trigger] a[i]).hue == b[i].hue,
    decreases a.len(),
{
    vstd::seq_lib::to_multiset_len(a);
    vstd::seq_lib::to_multiset_len(b);
    if a.len() > 0 {
        let a0 = a[0];
        let b0 = b[0];
        vstd::seq_lib::to_multiset_contains(a, a0);
        vstd::seq_lib::to_multiset_contains(b, a0);
        vstd::seq_lib::to_multiset_contains(a, b0);
        vstd::seq_lib::to_multiset_contains(b, b0);
        assert(a[0] == a0);
        assert(b[0] == b0);
        let j = choose|j: int| 0 <= j < b.len() && b[j] == a0;
        let i = choose|i: int| 0 <= i < a.len() && a[i] == b0;
        assert(a0.hue <= a[i].hue);
        assert(b0.hue <= b[j].hue);
        assert(a0.hue == b0.hue);
        let ar = a.remove(0);
        let br = b.remove(j);
        vstd::seq_lib::to_multiset_remove(a, 0);
        vstd::seq_lib::to_multiset_remove(b, j);
        assert forall|x: int, y: int| 0 <= x <= y < ar.len() implies (#[trigger] ar[x]).hue
            <= (#[trigger] ar[y]).hue by {
            assert(ar[x] == a[x + 1]);
            assert(ar[y] == a[y + 1]);
        }
        assert forall|x: int, y: int| 0 <= x <= y < br.len() implies (#[trigger] br[x]).hue
            <= (#[trigger] br[y]).hue by {
            let x1 = if x < j { x } else { x + 1 };
            let y1 = if y < j { y } else { y + 1 };
            assert(br[x] == b[x1]);
            assert(br[y] == b[y1]);
        }
        lemma_sorted_same_hues(ar, br);
        assert forall|k: int| 0 <= k < a.len() implies (#[trigger] a[k]).hue == b[k].hue by {
            if k > 0 {
                assert(a[k] == ar[k - 1]);
                if k <= j {
                    assert(br[k - 1] == b[k - 1]);
                    assert(b0.hue <= b[k - 1].hue <= b[j].hue);
                    assert(b0.hue <= b[k].hue <= b[j].hue);
                } else {
                    assert(br[k - 1] == b[k]);
                }
            }
        }
    }
}

/// Rearranging a buffer whose pixels each show their own hue leaves every
/// pixel showing its own hue.
pub proof fn lemma_rearranged_still_rendered(a: Seq<Pixel>, b: Seq<Pixel>)
    requires
        a.to_multiset() == b.to_multiset(),
        forall|i: int| 0 <= i < a.len() ==> (#[trigger] a[i]).rendered(),
    ensures
        forall|i: int| 0 <= i < b.len() ==> (#[trigger] b[i]).rendered(),
{
    assert forall|i: int| 0 <= i < b.len() implies (#[trigger] b[i]).rendered() by {
        vstd::seq_lib::to_multiset_contains(b, b[i]);
        vstd::seq_lib::to_multiset_contains(a, b[i]);
        assert(b[i] == b[i]);
        assert(b.contains(b[i]));
        let k = choose|k: int| 0 <= k < a.len() && a[k] == b[i];
        assert(a[k].rendered());
    }
}

/// A buffer of rendered pixels that is sorted by hue is the only sorted
/// arrangement of what it holds: sorting it again gives it back unchanged.
pub proof fn lemma_sorted_rendered_unique(a: Seq<Pixel>, b: Seq<Pixel>)
    requires
        sorted_by_hue(a),
        sorted_by_hue(b),
        a.to_multiset() == b.to_multiset(),
        forall|i: int| 0 <= i < a.len() ==> (#[trigger] a[i]).rendered(),
    ensures
        a == b,
{
    lemma_rearranged_still_rendered(a, b);
    lemma_sorted_same_hues(a, b);
    assert forall|i: int| 0 <= i < a.len() implies #[trigger] a[i] == b[i] by {
        assert(a[i].rendered());
        assert(b[i].rendered());
    }
    assert(a =~= b);
}

} // verus!
