use entropy_wasm::histogram::Histogram;
use entropy_wasm::scan::{sample_image, sample_image_downsampled, scan_full, scan_strided, Sampling};

fn entropy(sampling: &Sampling) -> f64 {
    let mut entropy = 0.0;
    for count in sampling.histogram.occupied() {
        let probability = count as f64 / sampling.samples as f64;
        entropy -= probability * probability.log2();
    }
    entropy
}

fn counts(h: &Histogram) -> Vec<u64> {
    (0..=255u8).map(|b| h.count(b)).collect()
}

fn solid(width: u32, height: u32, r: u8, g: u8, b: u8) -> Vec<u8> {
    let mut pixels = Vec::new();
    for _ in 0..width * height {
        pixels.extend_from_slice(&[r, g, b, 255]);
    }
    pixels
}

/// A grey image whose pixel (x, y) has the value `y * width + x`.
fn ramp(width: u32, height: u32) -> Vec<u8> {
    let mut pixels = Vec::new();
    for k in 0..width * height {
        let g = k as u8;
        pixels.extend_from_slice(&[g, g, g, 255]);
    }
    pixels
}

fn occupied_buckets(h: &Histogram) -> Vec<u8> {
    (0..=255u8).filter(|b| h.count(*b) > 0).collect()
}

#[test]
fn monochrome_image_has_no_entropy() {
    let pixels = solid(10, 10, 0, 0, 0);
    let s = sample_image(&pixels, 10, 10);
    assert_eq!(s.samples, 100);
    assert_eq!(s.histogram.count(0), 100);
    assert_eq!(s.histogram.total(), 100);
    assert_eq!(entropy(&s), 0.0);
}

#[test]
fn two_tones_make_one_bit() {
    let mut pixels = solid(8, 4, 0, 0, 0);
    pixels.extend_from_slice(&solid(8, 4, 255, 255, 255));
    let s = sample_image(&pixels, 8, 8);
    assert_eq!(s.samples, 64);
    assert_eq!(s.histogram.count(0), 32);
    assert_eq!(s.histogram.count(255), 32);
    assert_eq!(s.histogram.occupied(), vec![32, 32]);
    assert_eq!(entropy(&s), 1.0);
}

#[test]
fn even_spread_reaches_eight_bits() {
    let pixels = ramp(16, 16);
    let s = sample_image(&pixels, 16, 16);
    assert_eq!(counts(&s.histogram), vec![1u64; 256]);
    assert!((entropy(&s) - 8.0).abs() < 1e-9);
}

#[test]
fn entropy_stays_within_bounds() {
    let mut pixels = Vec::new();
    for k in 0..600u32 {
        pixels.extend_from_slice(&[(k * 37 % 256) as u8, (k * 11 % 256) as u8, (k % 5) as u8, 9]);
    }
    let s = sample_image(&pixels, 30, 20);
    let e = entropy(&s);
    assert!(e > 0.0 && e <= 8.0);
    for rate in 2..9u32 {
        let e = entropy(&sample_image_downsampled(&pixels, 30, 20, rate));
        assert!(e >= 0.0 && e <= 8.0);
    }
}

#[test]
fn full_scan_counts_every_pixel() {
    let pixels = vec![255, 0, 0, 255, 0, 255, 0, 255, 0, 0, 255, 255, 255, 0, 0, 0];
    let h = scan_full(&pixels);
    assert_eq!(h.total(), 4);
    assert_eq!(h.count(75), 2);
    assert_eq!(h.count(149), 1);
    assert_eq!(h.count(29), 1);
    assert_eq!(occupied_buckets(&h), vec![29, 75, 149]);
}

#[test]
fn full_scan_of_nothing() {
    let h = scan_full(&[]);
    assert_eq!(h.total(), 0);
    assert_eq!(counts(&h), vec![0u64; 256]);
    let s = sample_image(&[], 0, 0);
    assert_eq!(s.samples, 0);
    assert_eq!(entropy(&s), 0.0);
}

#[test]
fn partial_pixel_is_passed_over() {
    let whole = vec![10, 20, 30, 255];
    for extra in 1..=2usize {
        let mut pixels = whole.clone();
        pixels.extend_from_slice(&[200, 200][..extra]);
        let h = scan_full(&pixels);
        assert_eq!(h.total(), 1);
        assert_eq!(counts(&h), counts(&scan_full(&whole)));
    }
    assert_eq!(scan_full(&[200]).total(), 0);
    assert_eq!(scan_full(&[200, 200]).total(), 0);
}

#[test]
fn three_colour_bytes_make_a_pixel() {
    let h = scan_full(&[10, 20, 30, 255, 200, 200, 200]);
    assert_eq!(h.total(), 2);
    assert_eq!(h.count(18), 1);
    assert_eq!(h.count(200), 1);
    assert_eq!(scan_full(&[10, 20, 30]).count(18), 1);
}

#[test]
fn counted_pixels_are_the_divisor_of_a_full_scan() {
    // Fewer pixels than declared.
    let pixels = solid(2, 2, 9, 9, 9);
    let s = sample_image(&pixels, 4, 2);
    assert_eq!(s.samples, 4);
    assert_eq!(s.histogram.total(), 4);
    assert_eq!(s.histogram.occupied(), vec![4]);
    assert_eq!(entropy(&s), 0.0);
    // More pixels than declared.
    let s = sample_image(&[0, 0, 0, 255, 0, 0, 0, 255], 1, 1);
    assert_eq!(s.samples, 2);
    assert_eq!(s.histogram.count(0), 2);
    assert_eq!(entropy(&s), 0.0);
    // No pixels declared, one there.
    let s = sample_image(&[255, 255, 255, 255], 0, 7);
    assert_eq!(s.samples, 1);
    assert_eq!(s.histogram.count(255), 1);
    assert_eq!(entropy(&s), 0.0);
    // Pixels declared, none there.
    let s = sample_image(&[], u32::MAX, u32::MAX);
    assert_eq!(s.samples, 0);
    assert!(s.histogram.occupied().is_empty());
    assert_eq!(entropy(&s), 0.0);
}

#[test]
fn partial_pixel_is_not_a_sample() {
    let s = sample_image(&[0, 0, 0, 255, 0, 0], 2, 1);
    assert_eq!(s.samples, 1);
    assert_eq!(s.histogram.count(0), 1);
    assert_eq!(s.histogram.total(), 1);
    assert_eq!(entropy(&s), 0.0);
    // A black pixel, a white one and a stray byte: two samples, one bit.
    let s = sample_image(&[0, 0, 0, 255, 255, 255, 255, 255, 7], 3, 1);
    assert_eq!(s.samples, 2);
    assert_eq!(entropy(&s), 1.0);
}

#[test]
fn degenerate_stride_is_the_full_scan() {
    let pixels = ramp(7, 5);
    let full = sample_image(&pixels, 7, 5);
    assert_eq!(full.samples, 35);
    for rate in 0..=1u32 {
        let s = sample_image_downsampled(&pixels, 7, 5, rate);
        assert_eq!(s.samples, full.samples);
        assert_eq!(counts(&s.histogram), counts(&full.histogram));
        assert_eq!(entropy(&s), entropy(&full));
    }
    // Also where the buffer does not fit the dimensions.
    let short = &pixels[..50];
    let full = sample_image(short, 7, 5);
    assert_eq!(full.samples, 12);
    assert_eq!(full.histogram.total(), 12);
    for rate in 0..=1u32 {
        let s = sample_image_downsampled(short, 7, 5, rate);
        assert_eq!(s.samples, 12);
        assert_eq!(counts(&s.histogram), counts(&full.histogram));
        assert_eq!(entropy(&s), entropy(&full));
    }
}

#[test]
fn strided_scan_visits_the_grid() {
    let pixels = ramp(4, 3);
    let h = scan_strided(&pixels, 4, 3, 2);
    assert_eq!(h.total(), 4);
    assert_eq!(occupied_buckets(&h), vec![0, 2, 8, 10]);
    let h = scan_strided(&pixels, 4, 3, 3);
    assert_eq!(occupied_buckets(&h), vec![0, 3]);
    let h = scan_strided(&pixels, 4, 3, 4);
    assert_eq!(occupied_buckets(&h), vec![0]);
    let h = scan_strided(&pixels, 4, 3, 1);
    assert_eq!(counts(&h), counts(&scan_full(&pixels)));
}

#[test]
fn sample_count_is_the_number_of_grid_points() {
    let pixels = ramp(5, 5);
    let s = sample_image_downsampled(&pixels, 5, 5, 2);
    assert_eq!(s.samples, 9);
    assert_eq!(occupied_buckets(&s.histogram), vec![0, 2, 4, 10, 12, 14, 20, 22, 24]);
    assert!((entropy(&s) - 9f64.log2()).abs() < 1e-12);
    let s = sample_image_downsampled(&pixels, 5, 5, 3);
    assert_eq!(s.samples, 4);
    assert_eq!(entropy(&s), 2.0);
    let s = sample_image_downsampled(&pixels, 5, 5, u32::MAX);
    assert_eq!(s.samples, 1);
    assert_eq!(s.histogram.count(0), 1);
}

#[test]
fn strided_scan_passes_over_unreadable_grid_points() {
    let pixels = ramp(4, 3);
    // Five whole pixels and the colour bytes of a sixth.
    let s = sample_image_downsampled(&pixels[..23], 4, 3, 2);
    assert_eq!(s.samples, 2);
    assert_eq!(occupied_buckets(&s.histogram), vec![0, 2]);
    let s = sample_image_downsampled(&pixels[..11], 4, 3, 2);
    assert_eq!(s.samples, 2);
    let s = sample_image_downsampled(&pixels[..10], 4, 3, 2);
    assert_eq!(s.samples, 1);
    let s = sample_image_downsampled(&[], 4, 3, 2);
    assert_eq!(s.samples, 0);
    assert_eq!(entropy(&s), 0.0);
}

#[test]
fn strided_scan_of_an_empty_image() {
    let s = sample_image_downsampled(&[], 0, 0, 3);
    assert_eq!(s.samples, 0);
    let s = sample_image_downsampled(&[1, 2, 3, 4], 0, 5, 3);
    assert_eq!(s.samples, 0);
    let s = sample_image_downsampled(&[1, 2, 3, 4], 5, 0, 3);
    assert_eq!(s.samples, 0);
}

#[test]
fn uniform_image_has_no_entropy_at_any_stride() {
    for (width, height) in [(1u32, 1u32), (3, 7), (16, 9), (10, 10)] {
        let pixels = solid(width, height, 12, 200, 77);
        let bucket = entropy_wasm::luma::luma_bucket(12, 200, 77);
        for rate in 1..=12u32 {
            let s = sample_image_downsampled(&pixels, width, height, rate);
            assert_eq!(s.histogram.count(bucket), s.samples);
            assert_eq!(s.histogram.occupied(), vec![s.samples]);
            assert_eq!(entropy(&s), 0.0);
        }
    }
}

#[test]
fn order_of_rows_does_not_matter() {
    let (width, height) = (6usize, 4usize);
    let mut pixels = Vec::new();
    for k in 0..width * height {
        pixels.extend_from_slice(&[(k * 40 % 256) as u8, (k * 3) as u8, (k % 3 * 100) as u8, 255]);
    }
    let mut flipped = Vec::new();
    for row in pixels.chunks(width * 4).rev() {
        flipped.extend_from_slice(row);
    }
    assert_ne!(pixels, flipped);
    let a = sample_image(&pixels, 6, 4);
    let b = sample_image(&flipped, 6, 4);
    assert_eq!(counts(&a.histogram), counts(&b.histogram));
    assert_eq!(entropy(&a), entropy(&b));
}

#[test]
fn order_of_pixels_does_not_matter() {
    let pixels = ramp(9, 3);
    let mut reversed = Vec::new();
    for pixel in pixels.chunks(4).rev() {
        reversed.extend_from_slice(pixel);
    }
    assert_eq!(counts(&scan_full(&pixels)), counts(&scan_full(&reversed)));
}

#[test]
fn counts_add_up_to_samples_of_a_whole_image() {
    let pixels = ramp(13, 11);
    let s = sample_image(&pixels, 13, 11);
    assert_eq!(s.samples, 143);
    assert_eq!(s.histogram.total(), s.samples);
    assert_eq!(counts(&s.histogram).iter().sum::<u64>(), 143);
    for rate in 2..=14u32 {
        let s = sample_image_downsampled(&pixels, 13, 11, rate);
        assert_eq!(s.histogram.total(), s.samples);
        assert_eq!(counts(&s.histogram).iter().sum::<u64>(), s.samples);
    }
}

#[test]
fn dimensions_far_beyond_the_buffer() {
    let pixels = ramp(4, 3);
    let s = sample_image_downsampled(&pixels, u32::MAX, u32::MAX, 2);
    // One row of pixels 0, 2, ..., 10; the next row starts beyond the buffer.
    assert_eq!(s.samples, 6);
    assert_eq!(occupied_buckets(&s.histogram), vec![0, 2, 4, 6, 8, 10]);
    let s = sample_image_downsampled(&pixels, 5, u32::MAX, 3);
    // Rows start at pixels 0, 15, ...; columns 0 and 3.
    assert_eq!(s.samples, 2);
    assert_eq!(occupied_buckets(&s.histogram), vec![0, 3]);
    let s = sample_image_downsampled(&pixels, 2, u32::MAX, 4);
    // Rows start at pixels 0, 8, 16, ...; column 0.
    assert_eq!(s.samples, 2);
    assert_eq!(occupied_buckets(&s.histogram), vec![0, 8]);
}
