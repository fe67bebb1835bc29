//! Words that an engine found.
use vision_core::words::{placed_words, widen, PlacedWord, Word};

fn word(text: &str, x: f32, y: f32) -> Word {
    Word {
        text: text.to_string(),
        x: x.to_bits(),
        y: y.to_bits(),
        width: 7.25f32.to_bits(),
        height: 0.1f32.to_bits(),
    }
}

fn placed(text: &str, x: f32, y: f32) -> PlacedWord {
    PlacedWord {
        text: text.to_string(),
        x: (x as f64).to_bits(),
        y: (y as f64).to_bits(),
        width: 7.25f64.to_bits(),
        height: (0.1f32 as f64).to_bits(),
    }
}

#[test]
fn words_come_line_after_line() {
    let lines = vec![
        vec![word("a", 1.5, 2.0), word("b", 0.3, -4.0)],
        vec![],
        vec![word("c", 1e30, 1e-40)],
    ];
    assert_eq!(
        placed_words(&lines),
        vec![placed("a", 1.5, 2.0), placed("b", 0.3, -4.0), placed("c", 1e30, 1e-40)]
    );
    assert!(placed_words(&Vec::new()).is_empty());
}

#[test]
fn numbers_are_widened_without_loss() {
    let mut bits = 1u32;
    for _ in 0..100_000 {
        bits = bits.wrapping_mul(1664525).wrapping_add(1013904223);
        let v = f32::from_bits(bits);
        if v.is_nan() {
            assert!(f64::from_bits(widen(bits)).is_nan());
        } else {
            assert_eq!(widen(bits), (v as f64).to_bits());
        }
    }
    for v in [0.0f32, -0.0, f32::MAX, f32::MIN_POSITIVE, f32::INFINITY, f32::NEG_INFINITY] {
        assert_eq!(widen(v.to_bits()), (v as f64).to_bits());
    }
    assert_eq!(widen(1), (f32::from_bits(1) as f64).to_bits());
}
