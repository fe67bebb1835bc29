//! Boxes of text from a probability map.
use vision_core::boxes::{boxes_from_prob_map, DetBox};
use vision_core::detect::det_target_size;
use vision_core::flood::Mask;
use vision_core::recognize::detector_input;
use vision_core::raster::RgbImage;
use vision_core::tensor::Tensor;

fn next(seed: &mut u64) -> u64 {
    *seed = seed.wrapping_mul(6364136223846793005).wrapping_add(1442695040888963407);
    *seed >> 33
}

fn map(shape: Vec<usize>, values: &[f32]) -> Tensor {
    Tensor { shape, data: values.iter().map(|v| v.to_bits()).collect() }
}

/// The same boxes in machine arithmetic.
fn machine_boxes(values: &[f32], w: usize, h: usize, src_w: u32, src_h: u32) -> Vec<DetBox> {
    let mut visited = vec![false; w * h];
    let mut boxes = Vec::new();
    let sx = src_w as f32 / w as f32;
    let sy = src_h as f32 / h as f32;
    for start in 0..w * h {
        if visited[start] || values[start] < 0.3 {
            continue;
        }
        let mut stack = vec![(start / w, start % w)];
        let (mut x0, mut y0, mut x1, mut y1) = (w, h, 0usize, 0usize);
        let mut sum = 0.0f32;
        let mut count = 0u32;
        while let Some((y, x)) = stack.pop() {
            let i = y * w + x;
            if visited[i] || values[i] < 0.3 {
                continue;
            }
            visited[i] = true;
            sum += values[i];
            count += 1;
            x0 = x0.min(x);
            y0 = y0.min(y);
            x1 = x1.max(x);
            y1 = y1.max(y);
            if x > 0 {
                stack.push((y, x - 1));
            }
            if x + 1 < w {
                stack.push((y, x + 1));
            }
            if y > 0 {
                stack.push((y - 1, x));
            }
            if y + 1 < h {
                stack.push((y + 1, x));
            }
        }
        let mean = sum / count as f32;
        if !(mean > 0.5) || x1 - x0 < 2 || y1 - y0 < 2 {
            continue;
        }
        let left = (((x0 as f32) * sx).floor().max(0.0) as u32).saturating_sub(1);
        let top = (((y0 as f32) * sy).floor().max(0.0) as u32).saturating_sub(1);
        let right = ((((x1 + 1) as f32) * sx).ceil().min(src_w as f32) as u32 + 1).min(src_w);
        let bottom = ((((y1 + 1) as f32) * sy).ceil().min(src_h as f32) as u32 + 1).min(src_h);
        boxes.push(DetBox {
            x: left,
            y: top,
            w: right.saturating_sub(left).max(1),
            h: bottom.saturating_sub(top).max(1),
        });
    }
    boxes
}

#[test]
fn one_box_is_scaled_and_padded() {
    let mut values = vec![0.0f32; 8 * 8];
    for y in 2..5 {
        for x in 3..7 {
            values[y * 8 + x] = 0.9;
        }
    }
    let expected = vec![DetBox { x: 5, y: 3, w: 10, h: 8 }];
    assert_eq!(boxes_from_prob_map(&map(vec![1, 1, 8, 8], &values), 8, 8, 16, 16), expected);
    assert_eq!(boxes_from_prob_map(&map(vec![1, 8, 8], &values), 8, 8, 16, 16), expected);
    assert_eq!(boxes_from_prob_map(&map(vec![8, 8], &values), 8, 8, 16, 16), expected);
}

#[test]
fn a_box_is_cut_at_the_edge() {
    let values = vec![1.0f32; 4 * 4];
    let boxes = boxes_from_prob_map(&map(vec![4, 4], &values), 4, 4, 4, 4);
    assert_eq!(boxes, vec![DetBox { x: 0, y: 0, w: 4, h: 4 }]);
}

#[test]
fn specks_and_faint_regions_are_dropped() {
    let mut values = vec![0.0f32; 6 * 6];
    // Two columns wide.
    for y in 0..5 {
        values[y * 6] = 0.9;
        values[y * 6 + 1] = 0.9;
    }
    assert!(boxes_from_prob_map(&map(vec![6, 6], &values), 6, 6, 6, 6).is_empty());
    // Above the first threshold, below the second.
    assert!(boxes_from_prob_map(&map(vec![6, 6], &[0.4f32; 36]), 6, 6, 6, 6).is_empty());
    // The mean has to exceed what is asked for.
    assert!(boxes_from_prob_map(&map(vec![3, 3], &[0.5f32; 9]), 3, 3, 3, 3).is_empty());
    assert!(boxes_from_prob_map(&map(vec![6, 6], &[0.5f32; 36]), 6, 6, 6, 6).is_empty());
    assert_eq!(boxes_from_prob_map(&map(vec![6, 6], &[0.51f32; 36]), 6, 6, 6, 6).len(), 1);
    assert!(boxes_from_prob_map(&map(vec![6, 6], &[f32::NAN; 36]), 6, 6, 6, 6).is_empty());
}

#[test]
fn corners_do_not_connect() {
    let mut values = vec![0.0f32; 6 * 6];
    for y in 0..3 {
        for x in 0..3 {
            values[y * 6 + x] = 0.9;
            values[(y + 3) * 6 + x + 3] = 0.9;
        }
    }
    let boxes = boxes_from_prob_map(&map(vec![6, 6], &values), 6, 6, 6, 6);
    assert_eq!(
        boxes,
        vec![DetBox { x: 0, y: 0, w: 4, h: 4 }, DetBox { x: 2, y: 2, w: 4, h: 4 }]
    );
}

#[test]
fn arrays_of_other_ranks_hold_no_boxes() {
    assert!(boxes_from_prob_map(&map(vec![36], &[0.9f32; 36]), 6, 6, 6, 6).is_empty());
    assert!(boxes_from_prob_map(&map(vec![1, 1, 1, 6, 6], &[0.9f32; 36]), 6, 6, 6, 6).is_empty());
}

#[test]
fn boxes_agree_with_machine_arithmetic() {
    let mut seed = 7u64;
    for _ in 0..300 {
        let w = 3 + (next(&mut seed) % 14) as usize;
        let h = 3 + (next(&mut seed) % 14) as usize;
        let dense = next(&mut seed) % 2 == 0;
        let values: Vec<f32> = (0..w * h)
            .map(|_| {
                let v = (next(&mut seed) % 1000) as f32 / 999.0;
                if dense {
                    0.2 + v * 0.8
                } else {
                    v
                }
            })
            .collect();
        let src_w = 1 + (next(&mut seed) % 3000) as u32;
        let src_h = 1 + (next(&mut seed) % 3000) as u32;
        let boxes =
            boxes_from_prob_map(&map(vec![1, 1, h, w], &values), w as u32, h as u32, src_w, src_h);
        assert_eq!(boxes, machine_boxes(&values, w, h, src_w, src_h));
        for b in boxes {
            assert!(b.w >= 1 && b.x + b.w <= src_w && b.h >= 1 && b.y + b.h <= src_h);
        }
    }
}

#[test]
fn detector_sizes_are_multiples_within_the_bound() {
    assert_eq!(det_target_size(100, 50), (128, 64));
    assert_eq!(det_target_size(960, 960), (960, 960));
    assert_eq!(det_target_size(1920, 1080), (960, 544));
    assert_eq!(det_target_size(1, 1), (32, 32));
    assert_eq!(det_target_size(100000, 1), (960, 32));
}

#[test]
fn the_detector_takes_the_resized_and_normalized_image() {
    let (w, h) = (50u32, 40u32);
    let data: Vec<u8> = (0..w * h * 3).map(|i| (i * 7 % 251) as u8).collect();
    let (input, net_w, net_h) =
        detector_input(&RgbImage { width: w, height: h, data: data.clone() });
    assert_eq!((net_w, net_h), (64, 64));
    assert_eq!(input.shape, vec![1, 3, 64, 64]);
    let source = image::RgbImage::from_raw(w, h, data).unwrap();
    let sized =
        image::imageops::resize(&source, 64, 64, image::imageops::FilterType::Triangle);
    let mean = [0.485f32, 0.456, 0.406];
    let deviation = [0.229f32, 0.224, 0.225];
    for c in 0..3usize {
        for y in 0..64u32 {
            for x in 0..64u32 {
                let v = sized.get_pixel(x, y)[c] as f32 / 255.0;
                let expected = (v - mean[c]) / deviation[c];
                let i = (c * 64 + y as usize) * 64 + x as usize;
                assert_eq!(input.data[i], expected.to_bits());
            }
        }
    }
}

#[test]
fn regions_are_connected_by_their_sides() {
    let rows = ["##..#", "#...#", "..#..", "###.#"];
    let set: Vec<bool> = rows.iter().flat_map(|r| r.chars().map(|c| c == '#')).collect();
    let mask = Mask { width: 5, height: 4, set };
    let mut regions = mask.regions();
    for r in regions.iter_mut() {
        r.sort();
    }
    assert_eq!(
        regions,
        vec![
            vec![(0, 0), (0, 1), (1, 0)],
            vec![(0, 4), (1, 4)],
            vec![(2, 2), (3, 0), (3, 1), (3, 2)],
            vec![(3, 4)],
        ]
    );
}
