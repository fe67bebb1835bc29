//! Comparing, searching, cutting and sizing images.
use vision_core::diff::diff_images;
use vision_core::media::jpeg_of;
use vision_core::raster::RgbaImage;
use vision_core::screen::{magnified_side, magnify, take_screenshot_region};
use vision_core::template::find_template_match;

fn next(seed: &mut u64) -> u64 {
    *seed = seed.wrapping_mul(6364136223846793005).wrapping_add(1442695040888963407);
    *seed >> 33
}

fn noise(width: u32, height: u32, seed: &mut u64) -> RgbaImage {
    let data = (0..width * height * 4).map(|_| next(seed) as u8).collect();
    RgbaImage { width, height, data }
}

fn copy(img: &RgbaImage) -> RgbaImage {
    RgbaImage { width: img.width, height: img.height, data: img.data.clone() }
}

fn outside(img: &RgbaImage) -> image::RgbaImage {
    image::RgbaImage::from_raw(img.width, img.height, img.data.clone()).unwrap()
}

fn machine_diff(a: &RgbaImage, b: &image::RgbaImage, threshold: u8) -> f64 {
    let mut count = 0u64;
    for (i, p) in b.pixels().enumerate() {
        let far = (0..3).any(|c| (a.data[i * 4 + c] as i32 - p[c] as i32).abs() > threshold as i32);
        if far {
            count += 1;
        }
    }
    (count as f64 / (a.width as u64 * a.height as u64) as f64) * 100.0
}

#[test]
fn an_image_equals_itself() {
    let mut seed = 1u64;
    let a = noise(9, 7, &mut seed);
    assert_eq!(diff_images(&a, &copy(&a), 0), (0.0f64.to_bits(), 9, 7));
}

#[test]
fn one_pixel_of_four_is_a_quarter() {
    let a = RgbaImage { width: 2, height: 2, data: vec![100; 16] };
    let mut b = copy(&a);
    b.data[4] = 131;
    // Alpha does not count.
    b.data[11] = 0;
    assert_eq!(diff_images(&a, &b, 30).0, 25.0f64.to_bits());
    // A difference of just the threshold is none.
    assert_eq!(diff_images(&a, &b, 31).0, 0.0f64.to_bits());
    assert_eq!(diff_images(&b, &a, 30).0, 25.0f64.to_bits());
}

#[test]
fn images_that_differ_everywhere_differ_by_a_hundred() {
    let a = RgbaImage { width: 3, height: 2, data: vec![0; 24] };
    let b = RgbaImage { width: 3, height: 2, data: vec![255; 24] };
    assert_eq!(diff_images(&a, &b, 254).0, 100.0f64.to_bits());
    assert_eq!(diff_images(&a, &b, 255).0, 0.0f64.to_bits());
}

#[test]
fn a_higher_threshold_finds_less() {
    let mut seed = 5u64;
    let a = noise(12, 12, &mut seed);
    let b = noise(12, 12, &mut seed);
    let mut before = 100.0f64;
    for threshold in 0..=255u8 {
        let percent = f64::from_bits(diff_images(&a, &b, threshold).0);
        assert!(percent <= before);
        before = percent;
    }
}

#[test]
fn empty_images_have_no_percentage() {
    let a = RgbaImage { width: 0, height: 0, data: vec![] };
    let b = RgbaImage { width: 0, height: 0, data: vec![] };
    assert!(f64::from_bits(diff_images(&a, &b, 3).0).is_nan());
}

#[test]
fn images_of_other_sizes_are_compared_by_nearest_pixels() {
    let mut seed = 9u64;
    for _ in 0..60 {
        let a = noise(1 + next(&mut seed) as u32 % 20, 1 + next(&mut seed) as u32 % 20, &mut seed);
        let b = noise(1 + next(&mut seed) as u32 % 20, 1 + next(&mut seed) as u32 % 20, &mut seed);
        let sized = image::imageops::resize(
            &outside(&b),
            a.width,
            a.height,
            image::imageops::FilterType::Nearest,
        );
        let threshold = next(&mut seed) as u8;
        let expected = machine_diff(&a, &sized, threshold);
        assert_eq!(
            diff_images(&a, &b, threshold),
            (expected.to_bits(), a.width, a.height)
        );
    }
}

#[test]
fn a_template_is_found_where_it_was_cut() {
    let mut seed = 21u64;
    let haystack = noise(20, 15, &mut seed);
    let mut needle = RgbaImage { width: 4, height: 3, data: vec![] };
    for y in 0..3usize {
        for x in 0..4usize {
            let at = ((y + 6) * 20 + x + 11) * 4;
            needle.data.extend_from_slice(&haystack.data[at..at + 3]);
            needle.data.push(255);
        }
    }
    let found = find_template_match(&haystack, &needle, 0.8f64.to_bits());
    assert_eq!(found, Some((11, 6, 1.0f64.to_bits())));
}

#[test]
fn the_first_of_equal_matches_is_taken() {
    let haystack = RgbaImage { width: 5, height: 4, data: vec![90; 80] };
    let needle = RgbaImage { width: 2, height: 2, data: vec![90; 16] };
    // Half transparent pixels do not count, and here none is left.
    assert_eq!(find_template_match(&haystack, &needle, 0.0f64.to_bits()), None);
    let mut solid = needle;
    for i in 0..4 {
        solid.data[i * 4 + 3] = 128;
    }
    let found = find_template_match(&haystack, &solid, 0.5f64.to_bits());
    assert_eq!(found, Some((0, 0, 1.0f64.to_bits())));
}

#[test]
fn a_template_larger_than_the_image_is_not_found() {
    let haystack = RgbaImage { width: 2, height: 2, data: vec![255; 16] };
    let wide = RgbaImage { width: 3, height: 1, data: vec![255; 12] };
    let high = RgbaImage { width: 1, height: 3, data: vec![255; 12] };
    assert_eq!(find_template_match(&haystack, &wide, 0.0f64.to_bits()), None);
    assert_eq!(find_template_match(&haystack, &high, 0.0f64.to_bits()), None);
}

#[test]
fn matches_agree_with_machine_arithmetic() {
    let mut seed = 33u64;
    for _ in 0..120 {
        let haystack =
            noise(1 + next(&mut seed) as u32 % 9, 1 + next(&mut seed) as u32 % 9, &mut seed);
        let needle =
            noise(1 + next(&mut seed) as u32 % 5, 1 + next(&mut seed) as u32 % 5, &mut seed);
        let threshold = (next(&mut seed) % 1000) as f64 / 1000.0;
        let mut best: Option<(u32, u32, f64)> = None;
        if needle.width <= haystack.width && needle.height <= haystack.height {
            for y in 0..=haystack.height - needle.height {
                for x in 0..=haystack.width - needle.width {
                    let mut sum = 0u64;
                    let mut total = 0u64;
                    for ny in 0..needle.height {
                        for nx in 0..needle.width {
                            let n = ((ny * needle.width + nx) * 4) as usize;
                            let h = (((y + ny) * haystack.width + x + nx) * 4) as usize;
                            if needle.data[n + 3] < 128 {
                                continue;
                            }
                            total += 1;
                            let apart: i32 = (0..3)
                                .map(|c| {
                                    (haystack.data[h + c] as i32 - needle.data[n + c] as i32).abs()
                                })
                                .sum();
                            sum += (765 - apart) as u64;
                        }
                    }
                    if total == 0 {
                        continue;
                    }
                    let confidence = (sum as f64) / (total as f64 * 765.0);
                    assert!((0.0..=1.0).contains(&confidence));
                    if confidence >= threshold
                        && (best.is_none() || confidence > best.unwrap().2)
                    {
                        best = Some((x, y, confidence));
                    }
                }
            }
        }
        assert_eq!(
            find_template_match(&haystack, &needle, threshold.to_bits()),
            best.map(|(x, y, c)| (x, y, c.to_bits()))
        );
    }
}

#[test]
fn only_colours_that_count_are_compared() {
    let mut seed = 71u64;
    for _ in 0..40 {
        let haystack = noise(9, 8, &mut seed);
        let needle = noise(3, 2, &mut seed);
        let mut other = copy(&haystack);
        for i in 0..72 {
            other.data[i * 4 + 3] = next(&mut seed) as u8;
        }
        let mut twin = copy(&needle);
        for i in 0..6 {
            if twin.data[i * 4 + 3] >= 128 {
                twin.data[i * 4 + 3] = 128 + next(&mut seed) as u8 % 128;
            } else {
                for c in 0..3 {
                    twin.data[i * 4 + c] = next(&mut seed) as u8;
                }
                twin.data[i * 4 + 3] = next(&mut seed) as u8 % 128;
            }
        }
        let asked = 0.3f64.to_bits();
        assert_eq!(
            find_template_match(&haystack, &needle, asked),
            find_template_match(&other, &twin, asked)
        );
    }
}

#[test]
fn a_lower_threshold_finds_the_same() {
    let mut seed = 72u64;
    for _ in 0..40 {
        let haystack = noise(9, 8, &mut seed);
        let needle = noise(3, 2, &mut seed);
        let found = find_template_match(&haystack, &needle, 0.6f64.to_bits());
        for lower in [0.6f64, 0.5, 0.0, -1.0] {
            if found.is_some() {
                assert_eq!(find_template_match(&haystack, &needle, lower.to_bits()), found);
            }
        }
    }
}

#[test]
fn a_region_is_cut_out_of_the_screen() {
    let mut seed = 2u64;
    let full = noise(10, 8, &mut seed);
    let expected = image::imageops::crop_imm(&outside(&full), 3, 2, 4, 5).to_image();
    let kept = Some("here.png".to_string());
    let (part, path) =
        take_screenshot_region(Ok(copy(&full)), kept, "/tmp/", 3, 2, 4, 5).unwrap();
    assert_eq!(path, "here.png");
    assert_eq!((part.width, part.height), (4, 5));
    assert_eq!(part.data, expected.into_raw());
}

#[test]
fn a_region_ends_at_the_edge_of_the_screen() {
    let mut seed = 2u64;
    let full = noise(10, 8, &mut seed);
    let cut = |x, y, w, h| {
        let kept = Some("p.png".to_string());
        take_screenshot_region(Ok(copy(&full)), kept, "/tmp/", x, y, w, h).unwrap().0
    };
    let part = cut(-5, -7, 1000, 1000);
    assert_eq!(part, full);
    let part = cut(8, 6, 100, 100);
    assert_eq!((part.width, part.height), (2, 2));
    let part = cut(50, 50, 3, 3);
    assert_eq!((part.width, part.height), (0, 0));
    let part = cut(-2, 0, 3, 1);
    assert_eq!((part.width, part.height), (3, 1));
    assert_eq!(part.data, full.data[..12].to_vec());
}

#[test]
fn sides_are_magnified_as_in_machine_arithmetic() {
    assert_eq!(magnified_side(300, 2.0f64.to_bits()), 600);
    assert_eq!(magnified_side(7, 1.5f64.to_bits()), 10);
    assert_eq!(magnified_side(1, 0.3f64.to_bits()), 0);
    assert_eq!(magnified_side(u32::MAX, 10.0f64.to_bits()), u32::MAX);
    for k in 0..=10u32 {
        assert_eq!(magnified_side(12345, (k as f64).to_bits()), 12345 * k);
    }
    let mut seed = 8u64;
    for _ in 0..5000 {
        let side = next(&mut seed) as u32;
        let scale = (next(&mut seed) % 1_000_000) as f64 / 100_000.0;
        assert_eq!(magnified_side(side, scale.to_bits()), (side as f64 * scale) as u32);
    }
}

#[test]
fn a_magnified_image_is_that_of_the_filter() {
    let mut seed = 4u64;
    let img = noise(6, 5, &mut seed);
    let big = magnify(&img, 12, 10);
    let expected =
        image::imageops::resize(&outside(&img), 12, 10, image::imageops::FilterType::Lanczos3);
    assert_eq!((big.width, big.height), (12, 10));
    assert_eq!(big.data, expected.into_raw());
    assert_eq!(magnify(&img, 6, 5), img);
}

#[test]
fn a_jpeg_file_holds_the_colours() {
    let mut seed = 6u64;
    let img = noise(16, 8, &mut seed);
    let file = jpeg_of(&img, 80).unwrap();
    let plain = image::DynamicImage::ImageRgba8(outside(&img)).to_rgb8();
    let mut expected: Vec<u8> = Vec::new();
    image::codecs::jpeg::JpegEncoder::new_with_quality(&mut expected, 80)
        .encode_image(&plain)
        .unwrap();
    assert_eq!(file, expected);
    let other = jpeg_of(&img, 10).unwrap();
    assert_ne!(file, other);
    // Alpha makes no difference.
    let mut clear = copy(&img);
    for i in 0..16 * 8 {
        clear.data[i * 4 + 3] = 0;
    }
    assert_eq!(jpeg_of(&clear, 80).unwrap(), file);
}

#[test]
fn a_side_too_long_for_jpeg_is_refused() {
    let img = RgbaImage { width: 65536, height: 1, data: vec![0; 65536 * 4] };
    assert_eq!(
        jpeg_of(&img, 80),
        Err("JPEG encode failed: The Image's dimensions are either too small or too large"
            .to_string())
    );
    let img = RgbaImage { width: 65535, height: 1, data: vec![0; 65535 * 4] };
    assert!(jpeg_of(&img, 80).is_ok());
}

#[test]
fn an_empty_image_and_any_quality_make_a_jpeg_file() {
    let none = RgbaImage { width: 0, height: 0, data: vec![] };
    assert!(jpeg_of(&none, 80).is_ok());
    let mut seed = 6u64;
    let img = noise(8, 8, &mut seed);
    assert_eq!(jpeg_of(&img, 0), jpeg_of(&img, 1));
    assert_eq!(jpeg_of(&img, 255), jpeg_of(&img, 100));
}
