//! What the recognizer is given, and the text in what it gives.
use vision_core::decode::ctc_greedy_decode;
use vision_core::normalize::{to_nchw_normalized, to_nchw_rec_normalized};
use vision_core::raster::RgbImage;
use vision_core::recognize::{rec_target_width, recognizer_input};
use vision_core::tensor::Tensor;

fn next(seed: &mut u64) -> u64 {
    *seed = seed.wrapping_mul(6364136223846793005).wrapping_add(1442695040888963407);
    *seed >> 33
}

fn dictionary() -> Vec<String> {
    vec!["a".to_string(), "b".to_string(), "ch".to_string()]
}

/// Rows in which one class stands out.
fn rows(classes: &[usize], columns: usize) -> Tensor {
    let mut data = Vec::new();
    for c in classes {
        for j in 0..columns {
            let v = if j == *c { 0.9f32 } else { 0.1f32 };
            data.push(v.to_bits());
        }
    }
    Tensor { shape: vec![1, classes.len(), columns], data }
}

#[test]
fn runs_collapse_and_blanks_are_dropped() {
    assert_eq!(ctc_greedy_decode(&rows(&[1, 1, 0, 2, 2, 2], 4), &dictionary()), "ab");
    assert_eq!(ctc_greedy_decode(&rows(&[0, 0, 0], 4), &dictionary()), "");
    assert_eq!(ctc_greedy_decode(&rows(&[3, 1], 4), &dictionary()), "cha");
}

#[test]
fn a_repeated_class_spells_one_letter() {
    assert_eq!(ctc_greedy_decode(&rows(&[1, 2], 4), &dictionary()), "ab");
    assert_eq!(ctc_greedy_decode(&rows(&[1, 1, 2], 4), &dictionary()), "ab");
    assert_eq!(ctc_greedy_decode(&rows(&[1, 2, 2], 4), &dictionary()), "ab");
}

#[test]
fn a_blank_changes_nothing_but_between_equals() {
    assert_eq!(ctc_greedy_decode(&rows(&[1, 0, 2], 4), &dictionary()), "ab");
    assert_eq!(ctc_greedy_decode(&rows(&[0, 1, 2, 0], 4), &dictionary()), "ab");
    assert_eq!(ctc_greedy_decode(&rows(&[1, 1], 4), &dictionary()), "a");
    assert_eq!(ctc_greedy_decode(&rows(&[1, 0, 1], 4), &dictionary()), "aa");
}

#[test]
fn a_class_beyond_the_dictionary_spells_nothing() {
    assert_eq!(ctc_greedy_decode(&rows(&[1, 4, 1], 5), &dictionary()), "aa");
}

#[test]
fn a_plane_without_a_batch_is_read_alike() {
    let mut t = rows(&[1, 0, 2], 4);
    t.shape = vec![3, 4];
    assert_eq!(ctc_greedy_decode(&t, &dictionary()), "ab");
}

#[test]
fn other_shapes_hold_no_text() {
    let t = Tensor { shape: vec![4], data: vec![0x3f80_0000; 4] };
    assert_eq!(ctc_greedy_decode(&t, &dictionary()), "");
    let t = Tensor { shape: vec![1, 1, 2, 2], data: vec![0x3f80_0000; 4] };
    assert_eq!(ctc_greedy_decode(&t, &dictionary()), "");
    let t = Tensor { shape: vec![1, 0, 4], data: vec![] };
    assert_eq!(ctc_greedy_decode(&t, &dictionary()), "");
    let t = Tensor { shape: vec![0, 0, 4], data: vec![] };
    assert_eq!(ctc_greedy_decode(&t, &dictionary()), "");
    let t = Tensor { shape: vec![1, 4, 0], data: vec![] };
    assert_eq!(ctc_greedy_decode(&t, &dictionary()), "");
}

#[test]
fn the_first_of_equal_numbers_wins_and_nan_never_does() {
    let row = |values: [f32; 4]| Tensor {
        shape: vec![1, 1, 4],
        data: values.iter().map(|v| v.to_bits()).collect(),
    };
    assert_eq!(ctc_greedy_decode(&row([0.1, 0.7, 0.7, 0.2]), &dictionary()), "a");
    assert_eq!(ctc_greedy_decode(&row([0.1, f32::NAN, 0.7, 0.2]), &dictionary()), "b");
    assert_eq!(ctc_greedy_decode(&row([f32::NAN, f32::NAN, -5.0, -6.0]), &dictionary()), "b");
    assert_eq!(ctc_greedy_decode(&row([f32::NEG_INFINITY; 4]), &dictionary()), "");
    assert_eq!(ctc_greedy_decode(&row([-1.0, -2.0, -3.0, f32::INFINITY]), &dictionary()), "ch");
}

#[test]
fn decoding_agrees_with_machine_arithmetic() {
    let dict = dictionary();
    let mut seed = 11u64;
    for _ in 0..400 {
        let steps = 1 + (next(&mut seed) % 12) as usize;
        let columns = 1 + (next(&mut seed) % 6) as usize;
        let values: Vec<f32> =
            (0..steps * columns).map(|_| (next(&mut seed) % 9) as f32 - 4.0).collect();
        let mut expected = String::new();
        let mut before = usize::MAX;
        for t in 0..steps {
            let mut class = 0;
            let mut top = f32::NEG_INFINITY;
            for c in 0..columns {
                let v = values[t * columns + c];
                if v > top {
                    top = v;
                    class = c;
                }
            }
            if class != 0 && class != before {
                if let Some(s) = dict.get(class - 1) {
                    expected.push_str(s);
                }
            }
            before = class;
        }
        let t = Tensor {
            shape: vec![1, steps, columns],
            data: values.iter().map(|v| v.to_bits()).collect(),
        };
        assert_eq!(ctc_greedy_decode(&t, &dict), expected);
    }
}

#[test]
fn strip_widths_agree_with_machine_arithmetic() {
    assert_eq!(rec_target_width(100, 48), 100);
    assert_eq!(rec_target_width(100, 50), 96);
    assert_eq!(rec_target_width(1, 1000), 1);
    assert_eq!(rec_target_width(10000, 10), 320);
    for cw in 1..=320u32 {
        assert_eq!(rec_target_width(cw, 48), cw);
    }
    let mut seed = 3u64;
    for _ in 0..20000 {
        let cw = next(&mut seed) as u32 % 5000;
        let ch = 1 + next(&mut seed) as u32 % 5000;
        let scaled = ((cw as f32) * 48.0 / (ch as f32)).ceil() as u32;
        assert_eq!(rec_target_width(cw, ch), scaled.clamp(1, 320));
    }
    let big = ((u32::MAX as f32) * 48.0 / 3.0f32).ceil() as u32;
    assert_eq!(rec_target_width(u32::MAX, 3), big.clamp(1, 320));
}

#[test]
fn every_byte_is_normalized_as_in_machine_arithmetic() {
    let data: Vec<u8> = (0..=255u8).flat_map(|b| [b, b, b]).collect();
    let img = RgbImage { width: 256, height: 1, data };
    let det = to_nchw_normalized(&img, 256, 1);
    let rec = to_nchw_rec_normalized(&img, 256, 1);
    assert_eq!(det.shape, vec![1, 3, 1, 256]);
    let mean = [0.485f32, 0.456, 0.406];
    let deviation = [0.229f32, 0.224, 0.225];
    for c in 0..3usize {
        for b in 0..256usize {
            let v = b as f32 / 255.0;
            assert_eq!(det.data[c * 256 + b], ((v - mean[c]) / deviation[c]).to_bits());
            let r = (v - 0.5) / 0.5;
            assert_eq!(rec.data[c * 256 + b], r.to_bits());
            assert!((-1.0..=1.0).contains(&f32::from_bits(rec.data[c * 256 + b])));
        }
    }
    assert_eq!(f32::from_bits(rec.data[0]), -1.0);
    assert_eq!(f32::from_bits(rec.data[255]), 1.0);
}

#[test]
fn zeros_stand_where_the_image_does_not_reach() {
    let img = RgbImage { width: 1, height: 1, data: vec![255, 255, 255] };
    let t = to_nchw_rec_normalized(&img, 2, 2);
    let one = 1.0f32.to_bits();
    assert_eq!(t.data, vec![one, 0, 0, 0, one, 0, 0, 0, one, 0, 0, 0]);
}

#[test]
fn the_recognizer_takes_the_resized_and_normalized_strip() {
    let (w, h) = (60u32, 30u32);
    let data: Vec<u8> = (0..w * h * 3).map(|i| (i * 13 % 256) as u8).collect();
    let input = recognizer_input(&RgbImage { width: w, height: h, data: data.clone() }).unwrap();
    assert_eq!(input.shape, vec![1, 3, 48, 96]);
    let source = image::RgbImage::from_raw(w, h, data).unwrap();
    let sized = image::imageops::resize(&source, 96, 48, image::imageops::FilterType::Triangle);
    for c in 0..3usize {
        for y in 0..48u32 {
            for x in 0..96u32 {
                let v = sized.get_pixel(x, y)[c] as f32 / 255.0;
                let i = (c * 48 + y as usize) * 96 + x as usize;
                assert_eq!(input.data[i], ((v - 0.5) / 0.5).to_bits());
            }
        }
    }
}

#[test]
fn an_empty_strip_has_no_input() {
    assert!(recognizer_input(&RgbImage { width: 0, height: 5, data: vec![] }).is_none());
    assert!(recognizer_input(&RgbImage { width: 5, height: 0, data: vec![] }).is_none());
}
