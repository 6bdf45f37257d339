use vstd::prelude::*;

use crate::raster::{Image, Rgb};

verus! {

/// Derived intensity of a pixel: the mean of its channels, rounded down.
pub open spec fn pix_mean(p: Rgb) -> int {
    (p.r as int + p.g as int + p.b as int) / 3
}

/// Derived intensities of a sequence of pixels.
pub open spec fn intensities(pixels: Seq<Rgb>) -> Seq<int> {
    pixels.map_values(|p: Rgb| pix_mean(p))
}

/// Number of occurrences of `v` in `s`.
pub open spec fn count_of(s: Seq<int>, v: int) -> nat
    decreases s.len(),
{
    if s.len() == 0 {
        0
    } else {
        count_of(s.drop_last(), v) + if s.last() == v {
            1nat
        } else {
            0nat
        }
    }
}

/// Frequency table of the values `0..m` in `s`.
pub open spec fn counts_spec(s: Seq<int>, m: nat) -> Seq<int> {
    Seq::new(m, |b: int| count_of(s, b) as int)
}

/// Histogram of the derived intensities of `pixels`.
pub open spec fn histogram_spec(pixels: Seq<Rgb>) -> Seq<int> {
    counts_spec(intensities(pixels), 256)
}

/// Sum of `h[b]` for `lo <= b < hi`.
pub open spec fn range_sum(h: Seq<int>, lo: int, hi: int) -> int
    decreases hi - lo,
{
    if hi <= lo {
        0
    } else {
        range_sum(h, lo, hi - 1) + h[hi - 1]
    }
}

/// Sum of `h[b] * b` for `lo <= b < hi`.
pub open spec fn range_weighted(h: Seq<int>, lo: int, hi: int) -> int
    decreases hi - lo,
{
    if hi <= lo {
        0
    } else {
        range_weighted(h, lo, hi - 1) + h[hi - 1] * (hi - 1)
    }
}

pub open spec fn as_ints(s: Seq<u64>) -> Seq<int> {
    s.map_values(|c: u64| c as int)
}

pub proof fn lemma_count_push(s: Seq<int>, v: int, b: int)
    ensures
        count_of(s.push(v), b) == count_of(s, b) + if v == b {
            1nat
        } else {
            0nat
        },
{
    assert(s.push(v).drop_last() =~= s);
}

pub proof fn lemma_count_le_len(s: Seq<int>, v: int)
    ensures
        count_of(s, v) <= s.len(),
    decreases s.len(),
{
    if s.len() > 0 {
        lemma_count_le_len(s.drop_last(), v);
    }
}

/// Raising one term of a range by one raises the sum by one.
pub proof fn lemma_range_sum_bump(h1: Seq<int>, h2: Seq<int>, i: int, lo: int, hi: int)
    requires
        h1.len() == h2.len(),
        0 <= lo,
        hi <= h1.len(),
        0 <= i < h1.len(),
        h2[i] == h1[i] + 1,
        forall|j: int| 0 <= j < h1.len() && j != i ==> h2[j] == h1[j],
    ensures
        range_sum(h2, lo, hi) == range_sum(h1, lo, hi) + if lo <= i < hi {
            1int
        } else {
            0int
        },
    decreases hi - lo,
{
    if hi > lo {
        lemma_range_sum_bump(h1, h2, i, lo, hi - 1);
    }
}

/// A sum over `[lo, hi)` splits at any `mid` between the bounds.
pub proof fn lemma_range_sum_split(h: Seq<int>, lo: int, mid: int, hi: int)
    requires
        lo <= mid <= hi,
    ensures
        range_sum(h, lo, hi) == range_sum(h, lo, mid) + range_sum(h, mid, hi),
    decreases hi - mid,
{
    if hi > mid {
        lemma_range_sum_split(h, lo, mid, hi - 1);
    }
}

/// A sum of non-negative terms over a sub-range is at most the sum over the range.
pub proof fn lemma_range_sum_nonneg(h: Seq<int>, lo: int, hi: int)
    requires
        0 <= lo,
        hi <= h.len(),
        forall|j: int| 0 <= j < h.len() ==> h[j] >= 0,
    ensures
        range_sum(h, lo, hi) >= 0,
    decreases hi - lo,
{
    if hi > lo {
        lemma_range_sum_nonneg(h, lo, hi - 1);
    }
}

/// The frequencies of the values `0..m` add up to the length of a sequence whose
/// values all lie in `0..m`.
pub proof fn lemma_counts_total(s: Seq<int>, m: nat)
    requires
        forall|i: int| 0 <= i < s.len() ==> 0 <= #[trigger] s[i] < m,
    ensures
        range_sum(counts_spec(s, m), 0, m as int) == s.len(),
    decreases s.len(),
{
    if s.len() == 0 {
        lemma_range_sum_zero(counts_spec(s, m), 0, m as int);
    } else {
        let t = s.drop_last();
        let v = s.last();
        assert(t.push(v) =~= s);
        assert forall|i: int| 0 <= i < t.len() implies 0 <= #[trigger] t[i] < m by {
            assert(t[i] == s[i]);
        }
        lemma_counts_total(t, m);
        assert forall|b: int| 0 <= b < m implies #[trigger] counts_spec(s, m)[b] == counts_spec(t, m)[b]
            + if b == v {
            1int
        } else {
            0int
        } by {
            lemma_count_push(t, v, b);
        }
        lemma_range_sum_bump(counts_spec(t, m), counts_spec(s, m), v, 0, m as int);
    }
}

pub proof fn lemma_range_sum_zero(h: Seq<int>, lo: int, hi: int)
    requires
        forall|j: int| lo <= j < hi ==> h[j] == 0,
    ensures
        range_sum(h, lo, hi) == 0,
    decreases hi - lo,
{
    if hi > lo {
        lemma_range_sum_zero(h, lo, hi - 1);
    }
}

/// Returns the derived intensity of a pixel, `(r + g + b) / 3`.
pub fn get_pix_mean(pixel: &Rgb) -> (r: u8)
    ensures
        r == pix_mean(*pixel),
{
    ((pixel.r as u16 + pixel.g as u16 + pixel.b as u16) / 3) as u8
}

/// Frequency table of the derived intensities of an image's pixels.
pub struct Histogram {
    array: Vec<u64>,
}

impl View for Histogram {
    type V = Seq<int>;

    closed spec fn view(&self) -> Seq<int> {
        as_ints(self.array@)
    }
}

impl Histogram {
    #[verifier::type_invariant]
    spec fn inv(self) -> bool {
        self.array@.len() == 256
    }

    /// Counts, for each intensity, the pixels of `img` that have it.
    pub fn new(img: &Image) -> (r: Self)
        ensures
            r@ == histogram_spec(img@.pixels),
    {
        let mut array: Vec<u64> = Vec::new();
        while array.len() < 256
            invariant
                array@.len() <= 256,
                forall|b: int| 0 <= b < array@.len() ==> array@[b] == 0,
            decreases 256 - array@.len(),
        {
            array.push(0);
        }
        let width = img.width();
        let height = img.height();
        let len = img.pixel_count();
        let ghost s = intensities(img@.pixels);
        proof {
            assert(s.take(0) =~= Seq::<int>::empty());
        }
        let mut y: u32 = 0;
        while y < height
            invariant
                img@.wf(),
                width == img@.width,
                height == img@.height,
                len == img@.pixels.len(),
                s == intensities(img@.pixels),
                y <= height,
                array@.len() == 256,
                forall|b: int| 0 <= b < 256 ==> #[trigger] array@[b] == count_of(s.take(y * width), b),
            decreases height - y,
        {
            let mut x: u32 = 0;
            while x < width
                invariant
                    img@.wf(),
                    width == img@.width,
                    height == img@.height,
                    len == img@.pixels.len(),
                    s == intensities(img@.pixels),
                    y < height,
                    x <= width,
                    array@.len() == 256,
                    forall|b: int| 0 <= b < 256 ==> #[trigger] array@[b] == count_of(s.take(y * width + x), b),
                decreases width - x,
            {
                let ghost k = y * width + x;
                proof {
                    crate::raster::lemma_offset_in_bounds(width as int, height as int, x as int, y as int);
                    assert(s.take(k + 1) =~= s.take(k).push(s[k]));
                    assert forall|b: int| 0 <= b < 256 implies count_of(s.take(k + 1), b) == count_of(s.take(k), b)
                        + if s[k] == b { 1nat } else { 0nat } by {
                        lemma_count_push(s.take(k), s[k], b);
                    }
                    lemma_count_le_len(s.take(k), s[k]);
                }
                let m = get_pix_mean(&img.get_pixel(x, y)) as usize;
                let c = array[m];
                array.set(m, c + 1);
                x = x + 1;
            }
            proof {
                assert(y * width + width == (y + 1) * width) by (nonlinear_arith);
            }
            y = y + 1;
        }
        proof {
            assert(height * width == width * height) by (nonlinear_arith);
            assert(s.take(height * width) =~= s);
        }
        let r = Histogram { array };
        assert(r@ =~= histogram_spec(img@.pixels));
        r
    }

    /// Number of pixels whose derived intensity is `index`.
    pub fn get(&self, index: usize) -> (r: u64)
        requires
            index < 256,
        ensures
            r == self@[index as int],
            self@.len() == 256,
    {
        proof {
            use_type_invariant(self);
        }
        self.array[index]
    }

    /// The histogram has one bucket for each intensity.
    pub fn len(&self) -> (r: usize)
        ensures
            r == 256,
            self@.len() == 256,
            forall|j: int| 0 <= j < 256 ==> 0 <= #[trigger] self@[j] <= u64::MAX,
    {
        proof {
            use_type_invariant(self);
        }
        self.array.len()
    }
}

} // verus!
