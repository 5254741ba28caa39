use cityparquet::coerce::{days_since_epoch, encode_attribute, AttributeType, Cell};
use cityparquet::json::{JsonNumber, JsonValue};
use cityparquet::report::EncodeStats;

fn s(x: &str) -> JsonValue {
    JsonValue::String(x.to_string())
}

fn enc(ty: AttributeType, v: Option<&JsonValue>, stats: &mut EncodeStats) -> String {
    format!("{:?}", encode_attribute(ty, v, stats))
}

#[test]
fn values_of_the_column_type_are_stored() {
    let mut st = EncodeStats::default();
    assert_eq!(enc(AttributeType::Boolean, Some(&JsonValue::Bool(true)), &mut st), "Boolean(true)");
    assert_eq!(enc(AttributeType::Int64, Some(&JsonValue::Number(JsonNumber::NegInt(-3))), &mut st), "Int64(-3)");
    assert_eq!(enc(AttributeType::Int64, Some(&JsonValue::Number(JsonNumber::PosInt(42))), &mut st), "Int64(42)");
    assert_eq!(
        enc(AttributeType::Float64, Some(&JsonValue::Number(JsonNumber::Float("2.5".to_string()))), &mut st),
        "Float64(Float(\"2.5\"))"
    );
    assert_eq!(enc(AttributeType::Float64, Some(&JsonValue::Number(JsonNumber::PosInt(7))), &mut st), "Float64(PosInt(7))");
    assert_eq!(enc(AttributeType::String, Some(&s("brick")), &mut st), "String(\"brick\")");
    assert_eq!(
        enc(AttributeType::StringList, Some(&JsonValue::Array(vec![s("a"), s("b")])), &mut st),
        "StringList([\"a\", \"b\"])"
    );
    assert!(matches!(encode_attribute(AttributeType::Json, Some(&JsonValue::Bool(false)), &mut st), Cell::Json(_)));
    assert_eq!(st, EncodeStats::default());
}

#[test]
fn dates_and_timestamps_are_stored_as_epoch_counts() {
    let mut st = EncodeStats::default();
    assert_eq!(enc(AttributeType::Date, Some(&s("1970-01-02")), &mut st), "Date(1)");
    assert_eq!(enc(AttributeType::Date, Some(&s("1969-12-31")), &mut st), "Date(-1)");
    assert_eq!(enc(AttributeType::Date, Some(&s("2024-02-29")), &mut st), "Date(19782)");
    assert_eq!(enc(AttributeType::Timestamp, Some(&s("2024-01-01T00:00:00Z")), &mut st), "Timestamp(1704067200000)");
    assert_eq!(enc(AttributeType::Timestamp, Some(&s("2024-01-01T01:00:00.5+01:00")), &mut st), "Timestamp(1704067200500)");
    assert_eq!(st.attribute_coercion_nulls, 0);
}

#[test]
fn unreadable_values_become_counted_nulls_and_absent_ones_uncounted_nulls() {
    let mut st = EncodeStats::default();
    assert_eq!(enc(AttributeType::Int64, None, &mut st), "Null");
    assert_eq!(enc(AttributeType::Json, Some(&JsonValue::Null), &mut st), "Null");
    assert_eq!(st.attribute_coercion_nulls, 0);
    assert_eq!(enc(AttributeType::Boolean, Some(&s("true")), &mut st), "Null");
    assert_eq!(enc(AttributeType::Int64, Some(&JsonValue::Number(JsonNumber::PosInt(u64::MAX))), &mut st), "Null");
    assert_eq!(enc(AttributeType::Int64, Some(&JsonValue::Number(JsonNumber::Float("1.5".to_string()))), &mut st), "Null");
    assert_eq!(enc(AttributeType::Date, Some(&s("2023-02-30")), &mut st), "Null");
    assert_eq!(enc(AttributeType::Timestamp, Some(&s("2024-01-01")), &mut st), "Null");
    assert_eq!(enc(AttributeType::StringList, Some(&JsonValue::Array(vec![s("a"), JsonValue::Null])), &mut st), "Null");
    assert_eq!(enc(AttributeType::String, Some(&JsonValue::Number(JsonNumber::PosInt(1))), &mut st), "Null");
    assert_eq!(st.attribute_coercion_nulls, 7);
}

#[test]
fn days_since_epoch_counts_calendar_days() {
    assert_eq!(days_since_epoch(1970, 1, 1), 0);
    assert_eq!(days_since_epoch(2000, 3, 1), 11017);
    assert_eq!(days_since_epoch(1900, 1, 1), -25567);
    assert_eq!(days_since_epoch(0, 1, 1), -719528);
    assert_eq!(days_since_epoch(-1, 12, 31), -719529);
}
