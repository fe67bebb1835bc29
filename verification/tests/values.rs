//! JSON values.
use vision_core::answers::to_hundredths;
use vision_core::json::{number_value, Json};

fn with(v: Json) -> Json {
    Json::Object(vec![("a".to_string(), Json::Null), ("k".to_string(), v)])
}

#[test]
fn numbers_are_read_as_asked() {
    let big = with(Json::Unsigned(u64::MAX));
    assert_eq!(big.u64_at("k"), Some(u64::MAX));
    assert_eq!(big.i64_at("k"), None);
    assert_eq!(big.double_at("k"), Some((u64::MAX as f64).to_bits()));
    let low = with(Json::Signed(i64::MIN));
    assert_eq!(low.u64_at("k"), None);
    assert_eq!(low.i64_at("k"), Some(i64::MIN));
    assert_eq!(low.double_at("k"), Some((i64::MIN as f64).to_bits()));
    let odd = with(Json::Signed(-9007199254740993));
    assert_eq!(odd.double_at("k"), Some((-9007199254740993i64 as f64).to_bits()));
    let half = with(Json::Float(0.5f64.to_bits()));
    assert_eq!(half.u64_at("k"), None);
    assert_eq!(half.i64_at("k"), None);
    assert_eq!(half.double_at("k"), Some(0.5f64.to_bits()));
}

#[test]
fn fields_are_found_by_name() {
    let v = with(Json::Text("x".to_string()));
    assert_eq!(v.text_at("k"), Some("x".to_string()));
    assert_eq!(v.text_at("a"), None);
    assert_eq!(v.field("a"), Some(&Json::Null));
    assert_eq!(v.field("z"), None);
    assert_eq!(Json::Bool(true).field("k"), None);
    assert_eq!(with(Json::Bool(true)).bool_at("k"), Some(true));
    assert_eq!(with(Json::Unsigned(1)).bool_at("k"), None);
}

#[test]
fn only_finite_numbers_are_values() {
    assert_eq!(number_value(1.5f64.to_bits()), Json::Float(1.5f64.to_bits()));
    assert_eq!(number_value(f64::NAN.to_bits()), Json::Null);
    assert_eq!(number_value(f64::INFINITY.to_bits()), Json::Null);
}

#[test]
fn hundredths_agree_with_machine_arithmetic() {
    for i in 0..20_000u64 {
        let v = i as f64 * 100.0 / 19_999.0;
        let expected = (v * 100.0).round() / 100.0;
        assert_eq!(to_hundredths(v.to_bits()), expected.to_bits());
    }
    assert!(f64::from_bits(to_hundredths(f64::NAN.to_bits())).is_nan());
}
