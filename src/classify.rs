use vstd::prelude::*;

use crate::classes::Classes;
use crate::histogram::{get_pix_mean, pix_mean};
use crate::raster::{Image, ImageModel, Rgb};

verus! {

/// Derived intensity of pixel `(x, y)`, or 0 outside the image.
pub open spec fn intensity_or_zero(img: ImageModel, x: int, y: int) -> int {
    if img.in_bounds(x, y) {
        pix_mean(img.pixel(x, y))
    } else {
        0
    }
}

/// Feature of pixel `(x, y)`: the intensities of the pixel above, on the left, the
/// pixel itself, below and on the right, with 0 for a neighbour outside the image.
pub open spec fn feature_spec(img: ImageModel, x: int, y: int) -> Seq<int> {
    seq![
        intensity_or_zero(img, x, y - 1),
        intensity_or_zero(img, x - 1, y),
        intensity_or_zero(img, x, y),
        intensity_or_zero(img, x, y + 1),
        intensity_or_zero(img, x + 1, y),
    ]
}

/// Squared Euclidean norm of a feature.
pub open spec fn sq_norm_spec(f: Seq<int>) -> int {
    f[0] * f[0] + f[1] * f[1] + f[2] * f[2] + f[3] * f[3] + f[4] * f[4]
}

/// Centroid `a` is strictly nearer than centroid `b` to a feature of squared norm
/// `s`, comparing `|sqrt(5 * a * a) - sqrt(s)|` with `|sqrt(5 * b * b) - sqrt(s)|`.
/// Both distances are measured to `t = sqrt(s / 5)` scaled by `sqrt(5)`, and `a` is
/// nearer exactly when `t` lies strictly on `a`'s side of the midpoint `(a + b) / 2`,
/// which squaring turns into integer arithmetic.
pub open spec fn closer(a: int, b: int, s: int) -> bool {
    ||| (a < b && 5 * ((a + b) * (a + b)) > 4 * s)
    ||| (a > b && 5 * ((a + b) * (a + b)) < 4 * s)
}

/// Class `k` is the first of the classes `c` at the least distance from a feature of
/// squared norm `s`: no class is nearer, and every class before it is farther.
pub open spec fn is_first_nearest(c: Seq<u8>, s: int, k: int) -> bool {
    &&& 0 <= k < c.len()
    &&& forall|j: int| 0 <= j < c.len() ==> !closer(#[trigger] c[j] as int, c[k] as int, s)
    &&& forall|j: int| 0 <= j < k ==> closer(c[k] as int, #[trigger] c[j] as int, s)
}

/// The class chosen for a feature of squared norm `s`.
pub open spec fn nearest_class(c: Seq<u8>, s: int) -> int {
    choose|k: int| is_first_nearest(c, s, k)
}

/// The class chosen for pixel `(x, y)` of `img`.
pub open spec fn class_at(c: Seq<u8>, img: ImageModel, x: int, y: int) -> int {
    nearest_class(c, sq_norm_spec(feature_spec(img, x, y)))
}

proof fn lemma_sq_order(u: int, v: int)
    requires
        u >= 0,
        v >= 0,
    ensures
        u < v <==> u * u < v * v,
{
    if u < v {
        assert(u * u < v * v) by (nonlinear_arith)
            requires
                0 <= u < v,
        ;
    } else {
        assert(v * v <= u * u) by (nonlinear_arith)
            requires
                0 <= v <= u,
        ;
    }
}

/// Nearness is a strict weak order: if `x` is nearer than `y` and `z` is not, `x`
/// is nearer than `z`.
pub proof fn lemma_closer_transitive(x: int, y: int, z: int, s: int)
    requires
        x >= 0,
        y >= 0,
        z >= 0,
        closer(x, y, s),
        !closer(z, y, s),
    ensures
        closer(x, z, s),
{
    lemma_sq_order(x + y, x + z);
    lemma_sq_order(x + z, x + y);
    lemma_sq_order(x + y, y + z);
    lemma_sq_order(y + z, x + y);
    lemma_sq_order(x + z, y + z);
    lemma_sq_order(y + z, x + z);
}

/// Nearness is asymmetric.
pub proof fn lemma_closer_asymmetric(x: int, y: int, s: int)
    ensures
        !(closer(x, y, s) && closer(y, x, s)),
{
}

/// At most one class is the first nearest.
pub proof fn lemma_first_nearest_unique(c: Seq<u8>, s: int, k1: int, k2: int)
    requires
        is_first_nearest(c, s, k1),
        is_first_nearest(c, s, k2),
    ensures
        k1 == k2,
{
    if k1 < k2 {
        assert(closer(c[k2] as int, c[k1] as int, s));
    } else if k2 < k1 {
        assert(closer(c[k1] as int, c[k2] as int, s));
    }
}

/// The class chosen for a pixel is one of the classes.
pub proof fn lemma_nearest_class_in_range(c: Seq<u8>, img: ImageModel, x: int, y: int)
    requires
        c.len() >= 1,
    ensures
        0 <= class_at(c, img, x, y) < c.len(),
{
    let s = sq_norm_spec(feature_spec(img, x, y));
    lemma_first_nearest_exists(c, s, c.len() as int);
}

/// Some class is the first nearest among the first `m` classes.
proof fn lemma_first_nearest_exists(c: Seq<u8>, s: int, m: int)
    requires
        1 <= m <= c.len(),
    ensures
        m == c.len() ==> exists|k: int| is_first_nearest(c, s, k),
        exists|k: int| is_first_nearest(c.take(m), s, k),
    decreases m,
{
    if m == 1 {
        let t = c.take(1);
        assert(is_first_nearest(t, s, 0));
    } else {
        lemma_first_nearest_exists(c, s, m - 1);
        let p = c.take(m - 1);
        let t = c.take(m);
        let b = choose|k: int| is_first_nearest(p, s, k);
        let i = m - 1;
        if closer(c[i] as int, c[b] as int, s) {
            assert forall|j: int| 0 <= j < m implies !closer(#[trigger] t[j] as int, t[i] as int, s) by {
                if j < i && closer(c[j] as int, c[i] as int, s) {
                    assert(p[j] == c[j]);
                    lemma_closer_asymmetric(c[i] as int, c[b] as int, s);
                    lemma_closer_transitive(c[j] as int, c[i] as int, c[b] as int, s);
                }
            }
            assert forall|j: int| 0 <= j < i implies closer(t[i] as int, #[trigger] t[j] as int, s) by {
                assert(p[j] == c[j]);
                lemma_closer_transitive(c[i] as int, c[b] as int, c[j] as int, s);
            }
            assert(is_first_nearest(t, s, i));
        } else {
            assert forall|j: int| 0 <= j < m implies !closer(#[trigger] t[j] as int, t[b] as int, s) by {
                if j < i {
                    assert(p[j] == c[j]);
                }
            }
            assert forall|j: int| 0 <= j < b implies closer(t[b] as int, #[trigger] t[j] as int, s) by {
                assert(p[j] == c[j]);
            }
            assert(is_first_nearest(t, s, b));
        }
    }
    if m == c.len() {
        assert(c.take(m) =~= c);
    }
}

/// Returns the pixel's intensity and the ones of its 4 neighbours, in the order
/// above, left, self, below, right; a neighbour outside the image counts as 0.
pub fn get_components(img: &Image, x: u32, y: u32) -> (r: [u8; 5])
    requires
        img@.in_bounds(x as int, y as int),
    ensures
        r@.map_values(|v: u8| v as int) == feature_spec(img@, x as int, y as int),
{
    let width = img.width();
    let height = img.height();
    let up: u8 = if y > 0 {
        get_pix_mean(&img.get_pixel(x, y - 1))
    } else {
        0
    };
    let left: u8 = if x > 0 {
        get_pix_mean(&img.get_pixel(x - 1, y))
    } else {
        0
    };
    let center: u8 = get_pix_mean(&img.get_pixel(x, y));
    let down: u8 = if y < height - 1 {
        get_pix_mean(&img.get_pixel(x, y + 1))
    } else {
        0
    };
    let right: u8 = if x < width - 1 {
        get_pix_mean(&img.get_pixel(x + 1, y))
    } else {
        0
    };
    let r = [up, left, center, down, right];
    assert(r@.map_values(|v: u8| v as int) =~= feature_spec(img@, x as int, y as int));
    r
}

/// Squared Euclidean norm of a feature.
pub fn get_components_sq_norm(components: &[u8; 5]) -> (r: u32)
    ensures
        r == sq_norm_spec(components@.map_values(|v: u8| v as int)),
{
    let ghost f = components@.map_values(|v: u8| v as int);
    let c0 = components[0] as u32;
    let c1 = components[1] as u32;
    let c2 = components[2] as u32;
    let c3 = components[3] as u32;
    let c4 = components[4] as u32;
    proof {
        assert(c0 * c0 <= 65025 && c1 * c1 <= 65025 && c2 * c2 <= 65025 && c3 * c3 <= 65025
            && c4 * c4 <= 65025) by (nonlinear_arith)
            requires
                c0 <= 255,
                c1 <= 255,
                c2 <= 255,
                c3 <= 255,
                c4 <= 255,
        ;
    }
    c0 * c0 + c1 * c1 + c2 * c2 + c3 * c3 + c4 * c4
}

/// Whether centroid `a` is strictly nearer than centroid `b` to a feature of squared
/// norm `s`.
pub fn is_closer(a: u8, b: u8, s: u32) -> (r: bool)
    ensures
        r == closer(a as int, b as int, s as int),
{
    let sum = a as u64 + b as u64;
    proof {
        assert(sum * sum <= 510 * 510) by (nonlinear_arith)
            requires
                sum <= 510,
        ;
    }
    let lhs = 5 * (sum * sum);
    let rhs = 4 * (s as u64);
    (a < b && lhs > rhs) || (a > b && lhs < rhs)
}

/// Index of the first class whose centroid is nearest to a feature of squared norm
/// `sq_norm`.
pub fn closest_class(classes: &Classes, sq_norm: u32) -> (r: usize)
    requires
        classes@.len() >= 1,
    ensures
        is_first_nearest(classes@, sq_norm as int, r as int),
        r == nearest_class(classes@, sq_norm as int),
{
    let ghost c = classes@;
    let ghost s = sq_norm as int;
    let n = classes.len();
    let mut base_index: usize = 0;
    let mut curr_index: usize = 1;
    while curr_index < n
        invariant
            c == classes@,
            s == sq_norm as int,
            n == c.len(),
            base_index < curr_index <= n,
            forall|j: int| 0 <= j < curr_index ==> !closer(#[trigger] c[j] as int, c[base_index as int] as int, s),
            forall|j: int| 0 <= j < base_index ==> closer(c[base_index as int] as int, #[trigger] c[j] as int, s),
        decreases n - curr_index,
    {
        let curr = classes.index(curr_index);
        let base = classes.index(base_index);
        if is_closer(curr, base, sq_norm) {
            proof {
                let i = curr_index as int;
                let b = base_index as int;
                assert forall|j: int| 0 <= j < i + 1 implies !closer(#[trigger] c[j] as int, c[i] as int, s) by {
                    if j < i && closer(c[j] as int, c[i] as int, s) {
                        lemma_closer_asymmetric(c[i] as int, c[b] as int, s);
                        lemma_closer_transitive(c[j] as int, c[i] as int, c[b] as int, s);
                    }
                }
                assert forall|j: int| 0 <= j < i implies closer(c[i] as int, #[trigger] c[j] as int, s) by {
                    lemma_closer_transitive(c[i] as int, c[b] as int, c[j] as int, s);
                }
            }
            base_index = curr_index;
        }
        curr_index = curr_index + 1;
    }
    proof {
        assert(is_first_nearest(c, s, base_index as int));
        let k = nearest_class(c, s);
        lemma_first_nearest_unique(c, s, k, base_index as int);
    }
    base_index
}

/// Colour of entry `i` of the ten-entry colour map, from blue to red.
pub open spec fn colormap_spec(i: int) -> Rgb {
    if i == 0 {
        Rgb { r: 0, g: 0, b: 255 }
    } else if i == 1 {
        Rgb { r: 0, g: 127, b: 255 }
    } else if i == 2 {
        Rgb { r: 0, g: 255, b: 255 }
    } else if i == 3 {
        Rgb { r: 0, g: 255, b: 127 }
    } else if i == 4 {
        Rgb { r: 0, g: 255, b: 0 }
    } else if i == 5 {
        Rgb { r: 127, g: 255, b: 0 }
    } else if i == 6 {
        Rgb { r: 255, g: 255, b: 0 }
    } else if i == 7 {
        Rgb { r: 255, g: 127, b: 0 }
    } else if i == 8 {
        Rgb { r: 255, g: 0, b: 0 }
    } else {
        Rgb { r: 127, g: 0, b: 55 }
    }
}

/// Entry `i` of the colour map.
pub fn colormap(i: usize) -> (r: Rgb)
    requires
        i < 10,
    ensures
        r == colormap_spec(i as int),
{
    if i == 0 {
        Rgb { r: 0, g: 0, b: 255 }
    } else if i == 1 {
        Rgb { r: 0, g: 127, b: 255 }
    } else if i == 2 {
        Rgb { r: 0, g: 255, b: 255 }
    } else if i == 3 {
        Rgb { r: 0, g: 255, b: 127 }
    } else if i == 4 {
        Rgb { r: 0, g: 255, b: 0 }
    } else if i == 5 {
        Rgb { r: 127, g: 255, b: 0 }
    } else if i == 6 {
        Rgb { r: 255, g: 255, b: 0 }
    } else if i == 7 {
        Rgb { r: 255, g: 127, b: 0 }
    } else if i == 8 {
        Rgb { r: 255, g: 0, b: 0 }
    } else {
        Rgb { r: 127, g: 0, b: 55 }
    }
}

} // verus!
