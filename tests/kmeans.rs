use cloud_kmeans::classes::Classes;
use cloud_kmeans::classify::{closest_class, colormap, get_components, get_components_sq_norm, is_closer};
use cloud_kmeans::error::KmeansError;
use cloud_kmeans::histogram::{get_pix_mean, Histogram};
use cloud_kmeans::kmeans::{
    cluster, color_bucket_coverage, grayscale_coverage, kmeans_mod, next_generation, Coverage, Kmeans,
    KmeansColor,
};
use cloud_kmeans::raster::{Image, Rgb};

fn grey(v: u8) -> Rgb {
    Rgb { r: v, g: v, b: v }
}

fn image(width: u32, height: u32, pixels: Vec<Rgb>) -> Image {
    Image::from_pixels(width, height, pixels).unwrap()
}

fn two_by_two() -> Image {
    image(2, 2, vec![grey(10), grey(10), grey(200), grey(200)])
}

#[test]
fn classes_are_equidistant() {
    let c = Classes::new(5);
    assert_eq!(c.len(), 5);
    let values: Vec<u8> = (0..5).map(|i| c.index(i)).collect();
    assert_eq!(values, vec![25, 76, 127, 178, 229]);
    for i in 0..4 {
        assert_eq!(c.index(i + 1) - c.index(i), 51);
    }
}

#[test]
fn classes_single_and_largest_count() {
    let one = Classes::new(1);
    assert_eq!(one.index(0), 127);
    let many = Classes::new(256);
    assert_eq!(many.len(), 256);
    assert!((0..256).all(|i| many.index(i) == 0));
    let two = Classes::new(2);
    assert_eq!((two.index(0), two.index(1)), (63, 190));
}

#[test]
fn center_is_order_independent() {
    let mut c = Classes::new(3);
    c.set(0, 200);
    c.set(1, 11);
    assert_eq!(c.center(0, 1), 105);
    assert_eq!(c.center(1, 0), 105);
    assert_eq!(c.center(2, 2), c.index(2));
}

#[test]
fn stability_threshold_is_strict() {
    let a = Classes::new(3);
    let mut b = a.clone();
    assert!(a.is_stable(&b));
    b.set(1, a.index(1) + 2);
    assert!(a.is_stable(&b));
    b.set(1, a.index(1) + 3);
    assert!(!a.is_stable(&b));
    assert!(!b.is_stable(&a));
}

#[test]
fn clone_is_independent() {
    let a = Classes::new(4);
    let mut b = a.clone();
    b.set(0, 99);
    assert_eq!(a.index(0), 31);
    assert_eq!(b.index(0), 99);
}

#[test]
fn pixel_mean_truncates() {
    assert_eq!(get_pix_mean(&Rgb { r: 1, g: 1, b: 2 }), 1);
    assert_eq!(get_pix_mean(&Rgb { r: 255, g: 255, b: 255 }), 255);
    assert_eq!(get_pix_mean(&Rgb { r: 30, g: 60, b: 91 }), 60);
}

#[test]
fn histogram_counts_intensities() {
    let img = image(3, 1, vec![grey(7), Rgb { r: 6, g: 7, b: 8 }, grey(200)]);
    let h = Histogram::new(&img);
    assert_eq!(h.get(7), 2);
    assert_eq!(h.get(200), 1);
    assert_eq!((0..256).map(|b| h.get(b)).sum::<u64>(), 3);
}

#[test]
fn single_bucket_update_moves_to_bucket() {
    let img = image(2, 1, vec![grey(180), grey(180)]);
    let h = Histogram::new(&img);
    let c = Classes::new(5);
    // bands: [0, 51] [50, 102] [101, 153] [152, 204] [203, 255]
    assert_eq!(kmeans_mod(&h, &c, 3), 180);
    assert_eq!(kmeans_mod(&h, &c, 0), 0);
    assert_eq!(kmeans_mod(&h, &c, 1), 1);
    assert_eq!(kmeans_mod(&h, &c, 2), 2);
    assert_eq!(kmeans_mod(&h, &c, 4), 4);
}

#[test]
fn shared_band_boundary_counts_twice() {
    // With centroids 63 and 190 the bands are [0, 127] and [126, 255]: intensity
    // 126 and 127 belong to both.
    let img = image(2, 1, vec![grey(127), grey(127)]);
    let h = Histogram::new(&img);
    let c = Classes::new(2);
    assert_eq!(kmeans_mod(&h, &c, 0), 127);
    assert_eq!(kmeans_mod(&h, &c, 1), 127);
}

#[test]
fn next_generation_keeps_previous() {
    let img = two_by_two();
    let h = Histogram::new(&img);
    let c = Classes::new(2);
    let n = next_generation(&h, &c);
    assert_eq!((n.index(0), n.index(1)), (10, 200));
    assert_eq!((c.index(0), c.index(1)), (63, 190));
}

#[test]
fn cluster_two_by_two() {
    let img = two_by_two();
    let h = Histogram::new(&img);
    let (c, iterations) = cluster(&h, 2);
    assert_eq!(iterations, 2);
    assert_eq!((c.index(0), c.index(1)), (10, 200));
}

#[test]
fn cluster_iterations_within_limits() {
    let pixels: Vec<Rgb> = (0..64u32).map(|i| grey((i * 4) as u8)).collect();
    let img = image(8, 8, pixels);
    let h = Histogram::new(&img);
    for n in [1usize, 2, 5, 10, 256] {
        let (c, iterations) = cluster(&h, n);
        assert!(iterations >= 1 && iterations <= 30);
        assert_eq!(c.len(), n);
    }
}

#[test]
fn identical_generations_stop_loop() {
    // On an empty histogram every band is empty: after the first iteration the
    // centroids are their own indices and the second iteration changes nothing.
    let img = image(0, 0, vec![]);
    let h = Histogram::new(&img);
    let (c, iterations) = cluster(&h, 3);
    assert_eq!(iterations, 2);
    assert_eq!((c.index(0), c.index(1), c.index(2)), (0, 1, 2));
    let again = next_generation(&h, &c);
    assert!(c.is_stable(&again));
}

#[test]
fn corner_uses_zero_neighbours() {
    let img = two_by_two();
    assert_eq!(get_components(&img, 0, 0), [0, 0, 10, 200, 10]);
    assert_eq!(get_components(&img, 1, 1), [10, 200, 200, 0, 0]);
    let single = image(1, 1, vec![grey(42)]);
    assert_eq!(get_components(&single, 0, 0), [0, 0, 42, 0, 0]);
}

#[test]
fn squared_norm_of_components() {
    assert_eq!(get_components_sq_norm(&[0, 0, 10, 200, 10]), 40200);
    assert_eq!(get_components_sq_norm(&[255, 255, 255, 255, 255]), 325125);
}

#[test]
fn nearness_compares_midpoints() {
    // sqrt(40200 / 5) is about 89.7, below the midpoint 105 of 10 and 200.
    assert!(is_closer(10, 200, 40200));
    assert!(!is_closer(200, 10, 40200));
    // Exact tie: sqrt(s / 5) == 15, the midpoint of 10 and 20.
    assert!(!is_closer(10, 20, 1125));
    assert!(!is_closer(20, 10, 1125));
    assert!(!is_closer(7, 7, 0));
}

#[test]
fn closest_class_keeps_first_minimum() {
    let mut c = Classes::new(3);
    c.set(0, 20);
    c.set(1, 10);
    c.set(2, 10);
    assert_eq!(closest_class(&c, 1125), 0);
    assert_eq!(closest_class(&c, 0), 1);
    c.set(0, 200);
    assert_eq!(closest_class(&c, 40200), 1);
}

#[test]
fn colormap_entries() {
    assert_eq!(colormap(0), Rgb { r: 0, g: 0, b: 255 });
    assert_eq!(colormap(5), Rgb { r: 127, g: 255, b: 0 });
    assert_eq!(colormap(9), Rgb { r: 127, g: 0, b: 55 });
}

#[test]
fn two_by_two_scenario_colour() {
    let img = two_by_two();
    let mut out = img.clone();
    let mut k = Kmeans::new(KmeansColor::Rgb);
    assert_eq!(k.get_cloud_coverage(), None);
    assert_eq!(k.compute_image(&img, &mut out, 2), Ok(2));
    let blue = colormap(0);
    let green = colormap(5);
    assert_eq!(out.get_pixel(0, 0), blue);
    assert_eq!(out.get_pixel(1, 0), blue);
    assert_eq!(out.get_pixel(0, 1), green);
    assert_eq!(out.get_pixel(1, 1), green);
    let cov = k.get_cloud_coverage().unwrap();
    assert_eq!(cov, Coverage { highest: 2, other: 2 });
    assert_eq!(cov.percent(), 50);
}

#[test]
fn two_by_two_scenario_grayscale() {
    let img = two_by_two();
    let mut out = image(2, 2, vec![grey(0); 4]);
    let mut k = Kmeans::new(KmeansColor::Grayscale);
    assert_eq!(k.compute_image(&img, &mut out, 2), Ok(2));
    assert_eq!(out.get_pixel(1, 0), grey(10));
    assert_eq!(out.get_pixel(0, 1), grey(200));
    let cov = k.get_cloud_coverage().unwrap();
    assert_eq!(cov, Coverage { highest: 2, other: 2 });
    assert_eq!(cov.percent(), 50);
}

#[test]
fn uniform_image_full_coverage() {
    let img = image(3, 3, vec![Rgb { r: 90, g: 100, b: 110 }; 9]);
    for format in [KmeansColor::Rgb, KmeansColor::Grayscale] {
        let mut out = img.clone();
        let mut k = Kmeans::new(format);
        assert_eq!(k.compute_image(&img, &mut out, 5), Ok(3));
        let cov = k.get_cloud_coverage().unwrap();
        assert_eq!(cov, Coverage { highest: 9, other: 0 });
        assert_eq!(cov.percent(), 100);
    }
}

#[test]
fn uniform_image_single_pixel() {
    let img = image(1, 1, vec![Rgb { r: 30, g: 60, b: 90 }]);
    let mut out = img.clone();
    let mut k = Kmeans::new(KmeansColor::Grayscale);
    assert_eq!(k.compute_image(&img, &mut out, 1), Ok(2));
    assert_eq!(out.get_pixel(0, 0), grey(60));
    assert_eq!(k.get_cloud_coverage().unwrap().percent(), 100);
}

#[test]
fn empty_image_has_no_data() {
    let img = image(0, 3, vec![]);
    let mut out = img.clone();
    let mut k = Kmeans::new(KmeansColor::Rgb);
    assert_eq!(k.compute_image(&img, &mut out, 5), Err(KmeansError::NoData));
    assert_eq!(k.get_cloud_coverage(), None);
}

#[test]
fn invalid_class_count() {
    let img = two_by_two();
    let mut out = img.clone();
    let mut k = Kmeans::new(KmeansColor::Rgb);
    assert_eq!(k.compute_image(&img, &mut out, 0), Err(KmeansError::Configuration));
    assert_eq!(k.compute_image(&img, &mut out, 257), Err(KmeansError::Configuration));
    assert_eq!(out.get_pixel(0, 0), grey(10));
    assert_eq!(k.compute_image(&img, &mut out, 256), Ok(4));
}

#[test]
fn mismatched_output_size() {
    let img = two_by_two();
    let mut out = image(1, 4, vec![grey(0); 4]);
    let mut k = Kmeans::new(KmeansColor::Rgb);
    assert_eq!(k.compute_image(&img, &mut out, 2), Err(KmeansError::DimensionMismatch));
    assert_eq!(out.get_pixel(0, 3), grey(0));
}

#[test]
fn pixel_buffer_must_match_size() {
    assert_eq!(Image::from_pixels(2, 2, vec![grey(1); 3]).err(), Some(KmeansError::DimensionMismatch));
    let img = image(3, 2, vec![grey(9); 6]);
    assert_eq!((img.width(), img.height(), img.pixel_count()), (3, 2, 6));
    let mut other = img.clone();
    other.put_pixel(2, 1, grey(4));
    assert_eq!(other.get_pixel(2, 1), grey(4));
    assert_eq!(img.get_pixel(2, 1), grey(9));
}

#[test]
fn colour_coverage_takes_densest_bucket() {
    let mut tallies = vec![0u64; 256];
    tallies[1] = 3;
    tallies[4] = 5;
    tallies[9] = 2;
    let cov = color_bucket_coverage(&tallies).unwrap();
    assert_eq!(cov, Coverage { highest: 5, other: 5 });
    assert_eq!(cov.percent(), 50);
    assert_eq!(color_bucket_coverage(&vec![0u64; 256]), Err(KmeansError::NoData));
    assert_eq!(color_bucket_coverage(&vec![]), Err(KmeansError::NoData));
}

#[test]
fn grayscale_coverage_splits_at_frontier() {
    let out = image(4, 1, vec![grey(10), grey(104), grey(105), grey(200)]);
    let h = Histogram::new(&out);
    let mut c = Classes::new(2);
    c.set(0, 10);
    c.set(1, 200);
    let cov = grayscale_coverage(&h, &c).unwrap();
    assert_eq!(cov, Coverage { highest: 2, other: 2 });
    let empty = Histogram::new(&image(0, 0, vec![]));
    assert_eq!(grayscale_coverage(&empty, &c), Err(KmeansError::NoData));
}

#[test]
fn percent_rounds_down() {
    assert_eq!(Coverage { highest: 1, other: 2 }.percent(), 33);
    assert_eq!(Coverage { highest: 2, other: 1 }.percent(), 66);
    assert_eq!(Coverage { highest: 0, other: 7 }.percent(), 0);
}

#[test]
fn uniform_strip_with_many_classes_splits() {
    // A one-row strip has fewer neighbours at its ends than in its middle; with one
    // class per intensity the two kinds of pixels land in different colour buckets.
    let img = image(3, 1, vec![grey(255); 3]);
    let mut out = img.clone();
    let mut k = Kmeans::new(KmeansColor::Rgb);
    assert_eq!(k.compute_image(&img, &mut out, 256), Ok(2));
    assert_eq!(out.get_pixel(0, 0), colormap(6));
    assert_eq!(out.get_pixel(1, 0), colormap(7));
    assert_eq!(k.get_cloud_coverage().unwrap(), Coverage { highest: 2, other: 1 });
}
