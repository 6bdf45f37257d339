use vstd::prelude::*;

use crate::classes::{center_spec, initial_centroid, stable_spec, Classes};
use crate::error::KmeansError;
use crate::classify::{class_at, closest_class, colormap, colormap_spec, get_components, get_components_sq_norm};
use crate::histogram::{
    as_ints, count_of, counts_spec, histogram_spec, intensities, lemma_count_le_len, lemma_count_push,
    lemma_counts_total, lemma_range_sum_nonneg, lemma_range_sum_split, pix_mean, range_sum, range_weighted,
    Histogram,
};
use crate::raster::{Image, ImageModel, Rgb};

verus! {

/// Largest number of iterations of the k-means loop.
pub const ITERATION_LIMIT: u32 = 30;

/// Lowest intensity scanned to update class `i`.
pub open spec fn band_lower(c: Seq<u8>, i: int) -> int {
    if i == 0 {
        0
    } else {
        center_spec(c[i - 1] as int, c[i] as int)
    }
}

/// Highest intensity scanned to update class `i`; the band of a class and the one
/// of the next share one intensity, and no band goes past 255.
pub open spec fn band_upper(c: Seq<u8>, i: int) -> int {
    if i == c.len() - 1 {
        255
    } else if center_spec(c[i] as int, c[i + 1] as int) + 1 > 255 {
        255
    } else {
        center_spec(c[i] as int, c[i + 1] as int) + 1
    }
}

/// New centroid of class `i`: the mean intensity of the histogram over its band,
/// rounded down, or `i` itself when the band is empty.
pub open spec fn update_spec(h: Seq<int>, c: Seq<u8>, i: int) -> int {
    let lo = band_lower(c, i);
    let hi = band_upper(c, i) + 1;
    if range_sum(h, lo, hi) == 0 {
        i
    } else {
        range_weighted(h, lo, hi) / range_sum(h, lo, hi)
    }
}

/// The generation of classes that one iteration computes from `c`.
pub open spec fn next_gen(h: Seq<int>, c: Seq<u8>) -> Seq<u8> {
    Seq::new(c.len(), |i: int| update_spec(h, c, i) as u8)
}

/// Initial generation of `n` classes.
pub open spec fn initial_gen(n: nat) -> Seq<u8> {
    Seq::new(n, |i: int| initial_centroid(n as int, i) as u8)
}

/// Generation `k` of `n` classes on histogram `h`.
pub open spec fn generation(h: Seq<int>, n: nat, k: nat) -> Seq<u8>
    decreases k,
{
    if k == 0 {
        initial_gen(n)
    } else {
        next_gen(h, generation(h, n, (k - 1) as nat))
    }
}

/// Number of iterations performed, counting from iteration `k` on: the loop stops
/// after the first iteration whose result is similar to its input, or at the limit.
pub open spec fn stop_iteration(h: Seq<int>, n: nat, k: nat) -> nat
    decreases 30 - k,
{
    if k >= 30 || stable_spec(generation(h, n, (k - 1) as nat), generation(h, n, k)) {
        k
    } else {
        stop_iteration(h, n, k + 1)
    }
}

/// Number of iterations that the k-means loop performs for `n` classes on `h`.
pub open spec fn iterations_spec(h: Seq<int>, n: nat) -> nat {
    stop_iteration(h, n, 1)
}

proof fn lemma_stop_iteration_bounds(h: Seq<int>, n: nat, k: nat)
    requires
        1 <= k <= 30,
    ensures
        k <= stop_iteration(h, n, k) <= 30,
    decreases 30 - k,
{
    if !(k >= 30 || stable_spec(generation(h, n, (k - 1) as nat), generation(h, n, k))) {
        lemma_stop_iteration_bounds(h, n, k + 1);
    }
}

/// The loop performs at least one iteration and at most [`ITERATION_LIMIT`].
pub proof fn lemma_iterations_bounded(h: Seq<int>, n: nat)
    ensures
        1 <= iterations_spec(h, n) <= 30,
{
    lemma_stop_iteration_bounds(h, n, 1);
}

/// A generation is always similar to itself.
pub proof fn lemma_identical_is_stable(a: Seq<u8>)
    ensures
        stable_spec(a, a),
{
}

/// When iteration `k` leaves the classes unchanged, the loop stops at iteration `k`
/// at the latest.
pub proof fn lemma_identical_generations_stop(h: Seq<int>, n: nat, k: nat)
    requires
        1 <= k,
        generation(h, n, (k - 1) as nat) == generation(h, n, k),
    ensures
        iterations_spec(h, n) <= k,
{
    lemma_identical_is_stable(generation(h, n, k));
    lemma_stop_before(h, n, 1, k);
}

proof fn lemma_stop_before(h: Seq<int>, n: nat, j: nat, k: nat)
    requires
        1 <= j <= k,
        stable_spec(generation(h, n, (k - 1) as nat), generation(h, n, k)),
    ensures
        stop_iteration(h, n, j) <= k,
    decreases k - j,
{
    if j < k && !(j >= 30 || stable_spec(generation(h, n, (j - 1) as nat), generation(h, n, j))) {
        lemma_stop_before(h, n, j + 1, k);
    }
}

/// On a histogram whose whole mass lies at intensity `b`, the update of a class
/// whose band holds `b` yields `b`, and the update of any other class yields its
/// own index.
pub proof fn lemma_single_bucket_update(h: Seq<int>, c: Seq<u8>, i: int, b: int)
    requires
        h.len() == 256,
        0 <= b < 256,
        h[b] > 0,
        forall|j: int| 0 <= j < 256 && j != b ==> h[j] == 0,
        0 <= i < c.len(),
    ensures
        update_spec(h, c, i) == if band_lower(c, i) <= b <= band_upper(c, i) {
            b
        } else {
            i
        },
{
    let lo = band_lower(c, i);
    let hi = band_upper(c, i) + 1;
    lemma_single_bucket_sums(h, b, lo, hi);
    if lo <= b < hi {
        assert(h[b] * b / h[b] == b) by (nonlinear_arith)
            requires
                h[b] > 0,
        ;
    }
}

proof fn lemma_single_bucket_sums(h: Seq<int>, b: int, lo: int, hi: int)
    requires
        h.len() == 256,
        0 <= b < 256,
        0 <= lo,
        hi <= 256,
        forall|j: int| 0 <= j < 256 && j != b ==> h[j] == 0,
    ensures
        range_sum(h, lo, hi) == if lo <= b < hi {
            h[b]
        } else {
            0
        },
        range_weighted(h, lo, hi) == if lo <= b < hi {
            h[b] * b
        } else {
            0
        },
    decreases hi - lo,
{
    if hi > lo {
        lemma_single_bucket_sums(h, b, lo, hi - 1);
        if hi - 1 != b {
            assert(h[hi - 1] == 0);
            assert(h[hi - 1] * (hi - 1) == 0);
        }
    }
}

/// Computes the new centroid of the class at `index` from the histogram mass in its band.
pub fn kmeans_mod(histogram: &Histogram, classes: &Classes, index: usize) -> (r: u8)
    requires
        index < classes@.len() <= 256,
    ensures
        r == update_spec(histogram@, classes@, index as int),
{
    let n = classes.len();
    let _ = histogram.len();
    let index_min: u8 = if index > 0 {
        classes.center(index - 1, index)
    } else {
        0
    };
    let index_max: u8 = if index < n - 1 {
        let c = classes.center(index, index + 1);
        if c == 255 {
            255
        } else {
            c + 1
        }
    } else {
        255
    };
    let ghost h = histogram@;
    let ghost lo = index_min as int;
    assert(index_min == band_lower(classes@, index as int));
    assert(index_max == band_upper(classes@, index as int));
    let mut mean: u128 = 0;
    let mut sum: u128 = 0;
    let mut pixel_index: u16 = index_min as u16;
    while pixel_index <= index_max as u16
        invariant
            h == histogram@,
            h.len() == 256,
            lo == index_min as int,
            lo == band_lower(classes@, index as int),
            index_max == band_upper(classes@, index as int),
            lo <= pixel_index <= 256,
            lo <= index_max + 1 ==> pixel_index <= index_max + 1,
            lo > index_max + 1 ==> pixel_index == lo,
            index_max <= 255,
            sum == range_sum(h, lo, pixel_index as int),
            mean == range_weighted(h, lo, pixel_index as int),
            0 <= sum <= (pixel_index - lo) * u64::MAX,
            0 <= mean <= 255 * sum,
        decreases 256 - pixel_index,
    {
        let count = histogram.get(pixel_index as usize);
        proof {
            assert(count as int * pixel_index as int <= 255 * count as int) by (nonlinear_arith)
                requires
                    pixel_index <= 255,
                    count >= 0,
            ;
            assert(sum + count <= (pixel_index - lo + 1) * u64::MAX) by (nonlinear_arith)
                requires
                    sum <= (pixel_index - lo) * u64::MAX,
                    count <= u64::MAX,
            ;
            assert((pixel_index - lo + 1) * u64::MAX <= 256 * u64::MAX) by (nonlinear_arith)
                requires
                    pixel_index - lo + 1 <= 256,
                    pixel_index - lo >= 0,
            ;
        }
        sum = sum + count as u128;
        mean = mean + count as u128 * pixel_index as u128;
        pixel_index = pixel_index + 1;
    }
    proof {
        if index_min > index_max as int + 1 {
            assert(pixel_index == lo);
            assert(range_sum(h, lo, index_max + 1) == 0);
            assert(range_weighted(h, lo, index_max + 1) == 0);
        } else {
            assert(pixel_index == index_max + 1);
        }
    }
    assert(sum == range_sum(h, band_lower(classes@, index as int), band_upper(classes@, index as int) + 1));
    assert(mean == range_weighted(h, band_lower(classes@, index as int), band_upper(classes@, index as int) + 1));
    if sum == 0 {
        return index as u8;
    }
    proof {
        assert(mean / sum <= 255) by (nonlinear_arith)
            requires
                mean <= 255 * sum,
                sum > 0,
        ;
    }
    (mean / sum) as u8
}

/// One iteration: every centroid updated from the previous generation, which is
/// left untouched.
pub fn next_generation(histogram: &Histogram, classes: &Classes) -> (r: Classes)
    requires
        classes@.len() <= 256,
    ensures
        r@ == next_gen(histogram@, classes@),
{
    let mut new_classes = classes.clone();
    let n = classes.len();
    let mut index: usize = 0;
    while index < n
        invariant
            n == classes@.len() <= 256,
            index <= n,
            new_classes@.len() == n,
            forall|j: int| 0 <= j < index ==> #[trigger] new_classes@[j] == update_spec(histogram@, classes@, j) as u8,
        decreases n - index,
    {
        let value = kmeans_mod(histogram, classes, index);
        new_classes.set(index, value);
        index = index + 1;
    }
    assert(new_classes@ =~= next_gen(histogram@, classes@));
    new_classes
}

/// Runs the k-means loop for `classes` classes on `histogram`: from the initial
/// generation, iterates until two consecutive generations are similar or the
/// iteration limit is reached, and returns the last generation and the number of
/// iterations performed.
pub fn cluster(histogram: &Histogram, classes: usize) -> (r: (Classes, u32))
    requires
        1 <= classes <= 256,
    ensures
        r.1 == iterations_spec(histogram@, classes as nat),
        1 <= r.1 <= ITERATION_LIMIT,
        r.0@ == generation(histogram@, classes as nat, r.1 as nat),
        r.0@.len() == classes,
{
    let ghost h = histogram@;
    let ghost n = classes as nat;
    let mut current = Classes::new(classes);
    proof {
        assert(current@ =~= generation(h, n, 0));
    }
    let mut stable = false;
    let mut iterations: u32 = 0;
    while !stable && iterations < ITERATION_LIMIT
        invariant
            h == histogram@,
            n == classes,
            1 <= classes <= 256,
            iterations <= 30,
            current@ == generation(h, n, iterations as nat),
            current@.len() == n,
            iterations == 0 ==> !stable,
            iterations >= 1 ==> stable == stable_spec(
                generation(h, n, (iterations - 1) as nat),
                generation(h, n, iterations as nat),
            ),
            iterations >= 1 ==> iterations_spec(h, n) == stop_iteration(h, n, iterations as nat),
        decreases 30 - iterations,
    {
        let next = next_generation(histogram, &current);
        proof {
            if iterations >= 1 {
                assert(stop_iteration(h, n, iterations as nat) == stop_iteration(h, n, (iterations + 1) as nat));
            }
        }
        iterations = iterations + 1;
        stable = current.is_stable(&next);
        current = next;
    }
    proof {
        lemma_iterations_bounded(h, n);
    }
    (current, iterations)
}

/// How classified pixels are rendered, and so how the coverage is estimated.
#[derive(Clone, Copy, PartialEq, Eq, Structural, Debug)]
pub enum KmeansColor {
    /// Each pixel becomes the grey level of its class centroid.
    Grayscale,
    /// Each pixel becomes an entry of a ten-colour map.
    Rgb,
}

/// Output pixel for class `k` of `c`.
pub open spec fn render_spec(format: KmeansColor, c: Seq<u8>, k: int) -> Rgb {
    match format {
        KmeansColor::Grayscale => Rgb { r: c[k], g: c[k], b: c[k] },
        KmeansColor::Rgb => colormap_spec(k * 10 / c.len() as int),
    }
}

/// Tally bucket of the output pixel for class `k` of `c`: its grey level, or its
/// colour-map entry.
pub open spec fn bucket_spec(format: KmeansColor, c: Seq<u8>, k: int) -> int {
    match format {
        KmeansColor::Grayscale => c[k] as int,
        KmeansColor::Rgb => k * 10 / c.len() as int,
    }
}

/// Class of the pixel at position `k`, row after row, of `img`.
pub open spec fn class_at_offset(c: Seq<u8>, img: ImageModel, k: int) -> int {
    class_at(c, img, k % img.width as int, k / img.width as int)
}

/// The output pixels of `img` classified with `c`, row after row.
pub open spec fn rendered_spec(format: KmeansColor, c: Seq<u8>, img: ImageModel) -> Seq<Rgb> {
    Seq::new(img.pixels.len(), |k: int| render_spec(format, c, class_at_offset(c, img, k)))
}

/// The tally buckets of the pixels of `img` classified with `c`, row after row.
pub open spec fn buckets_spec(format: KmeansColor, c: Seq<u8>, img: ImageModel) -> Seq<int> {
    Seq::new(img.pixels.len(), |k: int| bucket_spec(format, c, class_at_offset(c, img, k)))
}

/// Largest element of `t`, 0 when it is empty.
pub open spec fn seq_max(t: Seq<int>) -> int
    decreases t.len(),
{
    if t.len() == 0 {
        0
    } else if seq_max(t.drop_last()) >= t.last() {
        seq_max(t.drop_last())
    } else {
        t.last()
    }
}

/// When every classified pixel falls in one tally bucket, that bucket holds all of
/// them and the coverage of the highest band is 100 percent.
pub proof fn lemma_one_bucket_full_coverage(t: Seq<int>, b: int)
    requires
        0 <= b < t.len(),
        t[b] > 0,
        forall|j: int| 0 <= j < t.len() && j != b ==> t[j] == 0,
    ensures
        seq_max(t) == t[b],
        range_sum(t, 0, t.len() as int) == t[b],
        percent_spec(seq_max(t), range_sum(t, 0, t.len() as int) - seq_max(t)) == 100,
{
    lemma_one_bucket_max(t, b, t.len() as int);
    lemma_one_bucket_sum(t, b, t.len() as int);
    assert(t.take(t.len() as int) =~= t);
    assert(t[b] * 100 / t[b] == 100) by (nonlinear_arith)
        requires
            t[b] > 0,
    ;
}

proof fn lemma_one_bucket_max(t: Seq<int>, b: int, m: int)
    requires
        0 <= b < t.len(),
        0 <= m <= t.len(),
        t[b] > 0,
        forall|j: int| 0 <= j < t.len() && j != b ==> t[j] == 0,
    ensures
        seq_max(t.take(m)) == if b < m {
            t[b]
        } else {
            0
        },
    decreases m,
{
    if m > 0 {
        assert(t.take(m).drop_last() =~= t.take(m - 1));
        lemma_one_bucket_max(t, b, m - 1);
    }
}

proof fn lemma_one_bucket_sum(t: Seq<int>, b: int, m: int)
    requires
        0 <= b < t.len(),
        0 <= m <= t.len(),
        forall|j: int| 0 <= j < t.len() && j != b ==> t[j] == 0,
    ensures
        range_sum(t, 0, m) == if b < m {
            t[b]
        } else {
            0
        },
    decreases m,
{
    if m > 0 {
        lemma_one_bucket_sum(t, b, m - 1);
    }
}

/// Grey level from which a rendered pixel belongs to the highest band: the midpoint
/// of the last two centroids, or 0 when there is a single class, which is then the
/// highest band.
pub open spec fn frontier_spec(c: Seq<u8>) -> int {
    if c.len() >= 2 {
        center_spec(c[c.len() - 2] as int, c[c.len() - 1] as int)
    } else {
        0
    }
}

/// Share of classified pixels in the highest band: `highest` pixels in it, `other`
/// pixels outside it.
#[derive(Clone, Copy, PartialEq, Eq, Structural, Debug)]
pub struct Coverage {
    pub highest: u64,
    pub other: u64,
}

pub open spec fn percent_spec(highest: int, other: int) -> int {
    highest * 100 / (highest + other)
}

impl Coverage {
    /// Coverage in percent, rounded down: `highest * 100 / (highest + other)`.
    pub fn percent(&self) -> (r: u64)
        requires
            self.highest + self.other > 0,
        ensures
            r == percent_spec(self.highest as int, self.other as int),
            r <= 100,
    {
        let total: u128 = self.highest as u128 + self.other as u128;
        proof {
            assert(self.highest as int * 100 / total as int <= 100) by (nonlinear_arith)
                requires
                    self.highest <= total,
                    total > 0,
            ;
            assert(self.highest as int * 100 / total as int >= 0) by (nonlinear_arith)
                requires
                    self.highest >= 0,
                    total > 0,
            ;
        }
        ((self.highest as u128 * 100) / total) as u64
    }
}

/// Coverage from the per-bucket tallies: the densest bucket is the highest band,
/// the other buckets make the rest.
pub fn color_bucket_coverage(tallies: &Vec<u64>) -> (r: Result<Coverage, KmeansError>)
    requires
        range_sum(as_ints(tallies@), 0, tallies@.len() as int) <= u64::MAX,
    ensures
        r is Err <==> range_sum(as_ints(tallies@), 0, tallies@.len() as int) == 0,
        r is Err ==> r->Err_0 == KmeansError::NoData,
        r is Ok ==> r->Ok_0.highest == seq_max(as_ints(tallies@)),
        r is Ok ==> r->Ok_0.highest + r->Ok_0.other == range_sum(as_ints(tallies@), 0, tallies@.len() as int),
{
    let ghost t = as_ints(tallies@);
    let ghost len = tallies@.len() as int;
    proof {
        assert(t.take(0) =~= Seq::<int>::empty());
    }
    let mut highest: u64 = 0;
    let mut total: u64 = 0;
    let mut i: usize = 0;
    while i < tallies.len()
        invariant
            t == as_ints(tallies@),
            len == tallies@.len(),
            range_sum(t, 0, len) <= u64::MAX,
            i <= len,
            total == range_sum(t, 0, i as int),
            highest == seq_max(t.take(i as int)),
            highest <= total,
        decreases len - i,
    {
        let count = tallies[i];
        proof {
            lemma_range_sum_split(t, 0, i + 1, len);
            lemma_range_sum_nonneg(t, i + 1, len);
            assert(t.take(i + 1).drop_last() =~= t.take(i as int));
        }
        if count > highest {
            highest = count;
        }
        total = total + count;
        i = i + 1;
    }
    proof {
        assert(t.take(len) =~= t);
    }
    if total == 0 {
        return Err(KmeansError::NoData);
    }
    Ok(Coverage { highest, other: total - highest })
}

/// Coverage from the histogram of a rendered grey-level image: the grey levels from
/// the midpoint of the last two centroids on are the highest band.
pub fn grayscale_coverage(histogram: &Histogram, classes: &Classes) -> (r: Result<Coverage, KmeansError>)
    requires
        classes@.len() >= 1,
        range_sum(histogram@, 0, 256) <= u64::MAX,
    ensures
        r is Err <==> range_sum(histogram@, 0, 256) == 0,
        r is Err ==> r->Err_0 == KmeansError::NoData,
        r is Ok ==> r->Ok_0.highest == range_sum(histogram@, frontier_spec(classes@), 256),
        r is Ok ==> r->Ok_0.other == range_sum(histogram@, 0, frontier_spec(classes@)),
{
    let ghost h = histogram@;
    let _ = histogram.len();
    let n = classes.len();
    let frontier: u16 = if n >= 2 {
        classes.center(n - 2, n - 1) as u16
    } else {
        0
    };
    proof {
        lemma_range_sum_split(h, 0, frontier as int, 256);
        lemma_range_sum_nonneg(h, 0, frontier as int);
        lemma_range_sum_nonneg(h, frontier as int, 256);
    }
    let mut other: u64 = 0;
    let mut highest: u64 = 0;
    let mut i: u16 = 0;
    while i < 256
        invariant
            h == histogram@,
            h.len() == 256,
            forall|j: int| 0 <= j < 256 ==> 0 <= #[trigger] h[j],
            frontier <= 255,
            range_sum(h, 0, frontier as int) + range_sum(h, frontier as int, 256) == range_sum(h, 0, 256),
            range_sum(h, 0, frontier as int) >= 0,
            range_sum(h, frontier as int, 256) >= 0,
            range_sum(h, 0, 256) <= u64::MAX,
            i <= 256,
            i <= frontier ==> other == range_sum(h, 0, i as int) && highest == 0,
            i > frontier ==> other == range_sum(h, 0, frontier as int) && highest == range_sum(h, frontier as int, i as int),
        decreases 256 - i,
    {
        let count = histogram.get(i as usize);
        proof {
            if i < frontier {
                lemma_range_sum_split(h, 0, i + 1, frontier as int);
                lemma_range_sum_nonneg(h, i + 1, frontier as int);
            } else {
                assert(range_sum(h, frontier as int, frontier as int) == 0);
                lemma_range_sum_split(h, frontier as int, i + 1, 256);
                lemma_range_sum_nonneg(h, i + 1, 256);
            }
        }
        if i < frontier {
            other = other + count;
        } else {
            highest = highest + count;
        }
        i = i + 1;
    }
    if highest as u128 + other as u128 == 0 {
        return Err(KmeansError::NoData);
    }
    Ok(Coverage { highest, other })
}

/// Coverage that [`Kmeans::compute_image`] reports for classes `c` on `img`, with `out`
/// the rendered image.
pub open spec fn coverage_spec(format: KmeansColor, c: Seq<u8>, img: ImageModel, out: ImageModel) -> Coverage {
    match format {
        KmeansColor::Grayscale => {
            let h = histogram_spec(out.pixels);
            Coverage {
                highest: range_sum(h, frontier_spec(c), 256) as u64,
                other: range_sum(h, 0, frontier_spec(c)) as u64,
            }
        },
        KmeansColor::Rgb => {
            let t = counts_spec(buckets_spec(format, c, img), 256);
            Coverage { highest: seq_max(t) as u64, other: (img.pixels.len() - seq_max(t)) as u64 }
        },
    }
}

/// The classification of an image, with the output mode and the last coverage found.
pub struct Kmeans {
    format_out: KmeansColor,
    cloud_coverage: Option<Coverage>,
}

impl Kmeans {
    pub closed spec fn spec_format(&self) -> KmeansColor {
        self.format_out
    }

    pub closed spec fn spec_coverage(&self) -> Option<Coverage> {
        self.cloud_coverage
    }

    /// A classification with the given output mode and no coverage yet.
    pub fn new(format_out: KmeansColor) -> (r: Self)
        ensures
            r.spec_format() == format_out,
            r.spec_coverage() is None,
    {
        Self { format_out, cloud_coverage: None }
    }

    /// Coverage found by the last successful [`Kmeans::compute_image`], if any.
    pub fn get_cloud_coverage(&self) -> (r: Option<Coverage>)
        ensures
            r == self.spec_coverage(),
    {
        self.cloud_coverage
    }

    /// Classifies pixel `(x, y)` of `img_in` into its nearest class, writes the
    /// rendered pixel at `(x, y)` of `img_out` and returns its tally bucket.
    pub fn set_closest_class(&self, classes: &Classes, img_in: &Image, img_out: &mut Image, x: u32, y: u32) -> (r: usize)
        requires
            1 <= classes@.len() <= 256,
            img_in@.in_bounds(x as int, y as int),
            old(img_out)@.in_bounds(x as int, y as int),
        ensures
            r == bucket_spec(self.spec_format(), classes@, class_at(classes@, img_in@, x as int, y as int)),
            r < 256,
            final(img_out)@.width == old(img_out)@.width,
            final(img_out)@.height == old(img_out)@.height,
            final(img_out)@.pixels == old(img_out)@.pixels.update(
                old(img_out)@.offset(x as int, y as int),
                render_spec(self.spec_format(), classes@, class_at(classes@, img_in@, x as int, y as int)),
            ),
    {
        let components = get_components(img_in, x, y);
        let norm = get_components_sq_norm(&components);
        let base_index = closest_class(classes, norm);
        let n = classes.len();
        let (pixel, index) = match self.format_out {
            KmeansColor::Grayscale => {
                let g = classes.index(base_index);
                (Rgb { r: g, g: g, b: g }, g as usize)
            },
            KmeansColor::Rgb => {
                proof {
                    assert(base_index as int * 10 / n as int <= 9) by (nonlinear_arith)
                        requires
                            base_index < n,
                    ;
                }
                let colormap_index: usize = base_index * 10 / n;
                (colormap(colormap_index), colormap_index)
            },
        };
        img_out.put_pixel(x, y, pixel);
        index
    }

    /// Classifies every pixel of `img_in`, writes the rendered pixels to `img_out`
    /// and returns the number of pixels written to each of the 256 tally buckets.
    pub fn classify_image(&self, classes: &Classes, img_in: &Image, img_out: &mut Image) -> (r: Vec<u64>)
        requires
            1 <= classes@.len() <= 256,
            old(img_out)@.width == img_in@.width,
            old(img_out)@.height == img_in@.height,
        ensures
            final(img_out)@.width == img_in@.width,
            final(img_out)@.height == img_in@.height,
            final(img_out)@.pixels == rendered_spec(self.spec_format(), classes@, img_in@),
            as_ints(r@) == counts_spec(buckets_spec(self.spec_format(), classes@, img_in@), 256),
    {
        let ghost c = classes@;
        let ghost fmt = self.spec_format();
        let ghost rendered = rendered_spec(fmt, c, img_in@);
        let ghost buckets = buckets_spec(fmt, c, img_in@);
        let mut tallies: Vec<u64> = Vec::new();
        while tallies.len() < 256
            invariant
                tallies@.len() <= 256,
                forall|b: int| 0 <= b < tallies@.len() ==> tallies@[b] == 0,
            decreases 256 - tallies@.len(),
        {
            tallies.push(0);
        }
        let width = img_in.width();
        let height = img_in.height();
        let len = img_in.pixel_count();
        let _ = img_out.pixel_count();
        proof {
            assert(buckets.take(0) =~= Seq::<int>::empty());
        }
        let mut y: u32 = 0;
        while y < height
            invariant
                c == classes@,
                1 <= c.len() <= 256,
                fmt == self.spec_format(),
                rendered == rendered_spec(fmt, c, img_in@),
                buckets == buckets_spec(fmt, c, img_in@),
                img_in@.wf(),
                width == img_in@.width,
                height == img_in@.height,
                len == img_in@.pixels.len(),
                img_out@.width == width,
                img_out@.height == height,
                img_out@.pixels.len() == len,
                y <= height,
                forall|k: int| 0 <= k < y * width ==> #[trigger] img_out@.pixels[k] == rendered[k],
                tallies@.len() == 256,
                forall|b: int| 0 <= b < 256 ==> #[trigger] tallies@[b] == count_of(buckets.take(y * width), b),
            decreases height - y,
        {
            let mut x: u32 = 0;
            while x < width
                invariant
                    c == classes@,
                    1 <= c.len() <= 256,
                    fmt == self.spec_format(),
                    rendered == rendered_spec(fmt, c, img_in@),
                    buckets == buckets_spec(fmt, c, img_in@),
                    img_in@.wf(),
                    width == img_in@.width,
                    height == img_in@.height,
                    len == img_in@.pixels.len(),
                    img_out@.width == width,
                    img_out@.height == height,
                    img_out@.pixels.len() == len,
                    y < height,
                    x <= width,
                    forall|k: int| 0 <= k < y * width + x ==> #[trigger] img_out@.pixels[k] == rendered[k],
                    tallies@.len() == 256,
                    forall|b: int| 0 <= b < 256 ==> #[trigger] tallies@[b] == count_of(buckets.take(y * width + x), b),
                decreases width - x,
            {
                let ghost k = y * width + x;
                proof {
                    crate::raster::lemma_offset_in_bounds(width as int, height as int, x as int, y as int);
                    vstd::arithmetic::div_mod::lemma_fundamental_div_mod_converse(k, width as int, y as int, x as int);
                    assert(buckets.take(k + 1) =~= buckets.take(k).push(buckets[k]));
                    assert forall|b: int| 0 <= b < 256 implies count_of(buckets.take(k + 1), b) == count_of(buckets.take(k), b)
                        + if buckets[k] == b { 1nat } else { 0nat } by {
                        lemma_count_push(buckets.take(k), buckets[k], b);
                    }
                    lemma_count_le_len(buckets.take(k), buckets[k]);
                }
                let bucket = self.set_closest_class(classes, img_in, img_out, x, y);
                let t = tallies[bucket];
                tallies.set(bucket, t + 1);
                x = x + 1;
            }
            proof {
                assert(y * width + width == (y + 1) * width) by (nonlinear_arith);
            }
            y = y + 1;
        }
        proof {
            assert(height * width == width * height) by (nonlinear_arith);
            assert(buckets.take(height * width) =~= buckets);
            assert(img_out@.pixels =~= rendered);
            assert(as_ints(tallies@) =~= counts_spec(buckets, 256));
        }
        tallies
    }

    /// Classifies `img_in` into `classes` intensity bands: builds its histogram, runs
    /// the k-means loop on it, renders every pixel into `img_out` and records the
    /// coverage of the highest band. Returns the number of iterations performed.
    pub fn compute_image(&mut self, img_in: &Image, img_out: &mut Image, classes: usize) -> (r: Result<u32, KmeansError>)
        ensures
            final(self).spec_format() == old(self).spec_format(),
            !(1 <= classes <= 256) ==> r == Err::<u32, KmeansError>(KmeansError::Configuration),
            1 <= classes <= 256 && (old(img_out)@.width != img_in@.width || old(img_out)@.height != img_in@.height)
                ==> r == Err::<u32, KmeansError>(KmeansError::DimensionMismatch),
            r is Err ==> *final(img_out) == *old(img_out) && final(self).spec_coverage() == old(self).spec_coverage(),
            1 <= classes <= 256 && old(img_out)@.width == img_in@.width && old(img_out)@.height == img_in@.height
                ==> ({
                let fmt = old(self).spec_format();
                let h = histogram_spec(img_in@.pixels);
                let it = iterations_spec(h, classes as nat);
                let c = generation(h, classes as nat, it);
                &&& img_in@.pixels.len() == 0 ==> r == Err::<u32, KmeansError>(KmeansError::NoData)
                &&& img_in@.pixels.len() > 0 ==> r == Ok::<u32, KmeansError>(it as u32)
                &&& r is Ok ==> final(img_out)@.width == img_in@.width
                &&& r is Ok ==> final(img_out)@.height == img_in@.height
                &&& r is Ok ==> final(img_out)@.pixels == rendered_spec(fmt, c, img_in@)
                &&& r is Ok ==> final(self).spec_coverage() == Some(coverage_spec(fmt, c, img_in@, final(img_out)@))
                &&& r is Ok ==> coverage_spec(fmt, c, img_in@, final(img_out)@).highest + coverage_spec(fmt, c, img_in@, final(img_out)@).other == img_in@.pixels.len()
            }),
    {
        if classes == 0 || classes > 256 {
            return Err(KmeansError::Configuration);
        }
        if img_in.width() != img_out.width() || img_in.height() != img_out.height() {
            return Err(KmeansError::DimensionMismatch);
        }
        let len = img_in.pixel_count();
        if len == 0 {
            return Err(KmeansError::NoData);
        }
        let histo = Histogram::new(img_in);
        let (converged, iterations) = cluster(&histo, classes);
        let ghost c = converged@;
        let ghost fmt = self.format_out;
        let tallies = self.classify_image(&converged, img_in, img_out);
        let coverage = match self.format_out {
            KmeansColor::Grayscale => {
                let out_histo = Histogram::new(img_out);
                proof {
                    let s = intensities(img_out@.pixels);
                    assert forall|i: int| 0 <= i < s.len() implies 0 <= #[trigger] s[i] < 256 by {
                        assert(s[i] == pix_mean(img_out@.pixels[i]));
                    }
                    lemma_counts_total(s, 256);
                    lemma_range_sum_split(histogram_spec(img_out@.pixels), 0, frontier_spec(c), 256);
                }
                grayscale_coverage(&out_histo, &converged)
            },
            KmeansColor::Rgb => {
                proof {
                    let b = buckets_spec(fmt, c, img_in@);
                    assert forall|i: int| 0 <= i < b.len() implies 0 <= #[trigger] b[i] < 256 by {
                        let k = class_at_offset(c, img_in@, i);
                        crate::classify::lemma_nearest_class_in_range(c, img_in@, i % img_in@.width as int, i / img_in@.width as int);
                        assert(0 <= k * 10 / c.len() as int <= 9) by (nonlinear_arith)
                            requires
                                0 <= k < c.len(),
                        ;
                    }
                    lemma_counts_total(b, 256);
                    assert(as_ints(tallies@) == counts_spec(b, 256));
                    assert(tallies@.len() == 256);
                    assert(b.len() == len);
                }
                color_bucket_coverage(&tallies)
            },
        };
        match coverage {
            Ok(cov) => {
                self.cloud_coverage = Some(cov);
                Ok(iterations)
            },
            Err(e) => Err(e),
        }
    }
}

} // verus!
