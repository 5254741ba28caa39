use cityparquet::attributes::{
    bldg_forced_kind, is_date_shaped, is_unwritable_string, plan_attributes, AttrElement, AttrEmit,
    ValueKind,
};
use cityparquet::json::{JsonNumber, JsonValue};
use cityparquet::report::WriteReport;

fn s(x: &str) -> JsonValue {
    JsonValue::String(x.to_string())
}

fn float(v: f64) -> JsonValue {
    JsonValue::Number(JsonNumber::Float(
        serde_json::Number::from_f64(v).unwrap().to_string(),
    ))
}

fn integer(v: i64) -> JsonValue {
    if v >= 0 {
        JsonValue::Number(JsonNumber::PosInt(v as u64))
    } else {
        JsonValue::Number(JsonNumber::NegInt(v))
    }
}

fn emit(pairs: Vec<(&str, JsonValue)>) -> (Vec<AttrEmit>, WriteReport) {
    let attrs: Vec<(String, JsonValue)> = pairs.into_iter().map(|(k, v)| (k.to_string(), v)).collect();
    let mut report = WriteReport::default();
    let out = plan_attributes(&attrs, &mut report);
    assert_eq!(out.len(), report.attributes_written, "every planned element is counted as written");
    (out, report)
}

fn one(out: &[AttrEmit]) -> (&str, &AttrElement, &str) {
    assert_eq!(out.len(), 1);
    (out[0].name.as_str(), &out[0].element, out[0].text.as_str())
}

#[test]
fn known_bldg_name_with_matching_type_uses_bldg_element() {
    let (out, r) = emit(vec![("measuredHeight", float(8.0))]);
    assert_eq!(one(&out), ("measuredHeight", &AttrElement::BldgMetres, "8.0"));
    assert_eq!(r.attributes_written, 1);
    assert_eq!(r.attributes_skipped, 0);
}

#[test]
fn string_forced_bldg_name_uses_bldg_element() {
    let (out, _) = emit(vec![("roofType", s("1000"))]);
    assert_eq!(one(&out), ("roofType", &AttrElement::Bldg, "1000"));
}

#[test]
fn integer_storeys_uses_bldg_element() {
    let (out, _) = emit(vec![("storeysAboveGround", integer(3))]);
    assert_eq!(one(&out), ("storeysAboveGround", &AttrElement::Bldg, "3"));
}

#[test]
fn known_name_with_mismatched_type_falls_back_to_gen() {
    let (out, _) = emit(vec![("yearOfConstruction", integer(1985))]);
    assert_eq!(one(&out), ("yearOfConstruction", &AttrElement::GenInt, "1985"));
}

#[test]
fn unknown_string_uses_gen_string_attribute() {
    let (out, _) = emit(vec![("owner", s("Acme & Co <x>"))]);
    assert_eq!(one(&out), ("owner", &AttrElement::GenString, "Acme & Co <x>"));
}

#[test]
fn unknown_float_uses_gen_double_attribute() {
    let (out, _) = emit(vec![("area", float(12.5))]);
    assert_eq!(one(&out), ("area", &AttrElement::GenDouble, "12.5"));
}

#[test]
fn date_shaped_string_uses_gen_date_attribute() {
    let (out, _) = emit(vec![("built", s("1985-06-17"))]);
    assert_eq!(one(&out), ("built", &AttrElement::GenDate, "1985-06-17"));
}

#[test]
fn multi_element_string_list_emits_one_per_item_in_order() {
    let (out, r) = emit(vec![("function", JsonValue::Array(vec![s("1000"), s("1610")]))]);
    assert_eq!(out.len(), 2);
    assert_eq!((out[0].text.as_str(), &out[0].element), ("1000", &AttrElement::Bldg));
    assert_eq!((out[1].text.as_str(), &out[1].element), ("1610", &AttrElement::Bldg));
    assert_eq!(r.attributes_written, 2);
}

#[test]
fn boolean_is_skipped() {
    let (out, r) = emit(vec![("flag", JsonValue::Bool(true))]);
    assert!(out.is_empty());
    assert_eq!(r.attributes_written, 0);
    assert_eq!(r.attributes_skipped, 1);
}

#[test]
fn nested_object_is_skipped() {
    let nested = JsonValue::Object(vec![("a".to_string(), integer(1))]);
    let (_, r) = emit(vec![("meta", nested)]);
    assert_eq!(r.attributes_skipped, 1);
    assert_eq!(r.attributes_written, 0);
}

#[test]
fn single_element_string_list_is_skipped() {
    let (_, r) = emit(vec![("tags", JsonValue::Array(vec![s("a")]))]);
    assert_eq!(r.attributes_skipped, 1);
    assert_eq!(r.attributes_written, 0);
}

#[test]
fn empty_and_whitespace_strings_are_skipped() {
    let (_, r) = emit(vec![("a", s("")), ("b", s("   "))]);
    assert_eq!(r.attributes_skipped, 2);
    assert_eq!(r.attributes_written, 0);
}

#[test]
fn control_char_string_is_skipped() {
    let (_, r) = emit(vec![("bad", s("x\u{0007}y"))]);
    assert_eq!(r.attributes_skipped, 1);
}

#[test]
fn float_formatting_is_shortest_round_trip() {
    for v in [8.0_f64, -0.0, 1.0 / 3.0, 1e21] {
        let (out, _) = emit(vec![("x", float(v))]);
        let text = out[0].text.as_str();
        let parsed: f64 = text.parse().unwrap();
        assert!(parsed.to_bits() == v.to_bits() || (parsed == v), "{v} -> {text}");
    }
}

#[test]
fn date_shape_and_unwritable_string_rules() {
    assert!(is_date_shaped("2024-01-31"));
    assert!(!is_date_shaped("2024-1-31"));
    assert!(!is_date_shaped("2024/01/31"));
    assert!(!is_date_shaped("２０２４-01-31"));
    assert!(is_unwritable_string(""));
    assert!(is_unwritable_string(" \t\n"));
    assert!(is_unwritable_string("a\u{0001}"));
    assert!(!is_unwritable_string("tab\tand\nnewline\r"));
    assert!(!is_unwritable_string(" x "));
}

#[test]
fn forced_kinds_of_typed_bldg_names() {
    assert_eq!(bldg_forced_kind("function"), Some(ValueKind::Str));
    assert_eq!(bldg_forced_kind("yearOfDemolition"), Some(ValueKind::Str));
    assert_eq!(bldg_forced_kind("measuredHeight"), Some(ValueKind::Float));
    assert_eq!(bldg_forced_kind("storeysBelowGround"), Some(ValueKind::Int));
    assert_eq!(bldg_forced_kind("owner"), None);
}

#[test]
fn negative_storeys_fall_back_to_gen_int() {
    let (out, _) = emit(vec![("storeysBelowGround", integer(-1))]);
    assert_eq!(one(&out), ("storeysBelowGround", &AttrElement::GenInt, "-1"));
}

#[test]
fn string_list_with_a_non_string_item_is_skipped_whole() {
    let (out, r) = emit(vec![("mixed", JsonValue::Array(vec![s("a"), integer(1)]))]);
    assert!(out.is_empty());
    assert_eq!(r.attributes_skipped, 1);
}

#[test]
fn only_the_attribute_counters_change() {
    let attrs = vec![("a".to_string(), s("x")), ("b".to_string(), JsonValue::Null)];
    let mut report = WriteReport::default();
    report.buildings_written = 7;
    let out = plan_attributes(&attrs, &mut report);
    assert_eq!(out.len(), 1);
    let mut expected = WriteReport::default();
    expected.buildings_written = 7;
    expected.attributes_written = 1;
    expected.attributes_skipped = 1;
    assert_eq!(report, expected);
}
