use cityparquet::decode::{merge_other_attributes, object_members};
use cityparquet::error::CityParquetError;
use cityparquet::json::{JsonNumber, JsonValue};

fn to_json(v: &serde_json::Value) -> JsonValue {
    match v {
        serde_json::Value::Null => JsonValue::Null,
        serde_json::Value::Bool(b) => JsonValue::Bool(*b),
        serde_json::Value::Number(n) => JsonValue::Number(if let Some(u) = n.as_u64() {
            JsonNumber::PosInt(u)
        } else if let Some(i) = n.as_i64() {
            JsonNumber::NegInt(i)
        } else {
            JsonNumber::Float(n.to_string())
        }),
        serde_json::Value::String(s) => JsonValue::String(s.clone()),
        serde_json::Value::Array(items) => JsonValue::Array(items.iter().map(to_json).collect()),
        serde_json::Value::Object(m) => {
            JsonValue::Object(m.iter().map(|(k, v)| (k.clone(), to_json(v))).collect())
        }
    }
}

fn j(text: &str) -> JsonValue {
    to_json(&serde_json::from_str::<serde_json::Value>(text).unwrap())
}

fn same(a: &JsonValue, b: &JsonValue) -> bool {
    format!("{a:?}") == format!("{b:?}")
}

fn get<'a>(json: &'a [(String, JsonValue)], key: &str) -> Option<&'a JsonValue> {
    json.iter().find(|(k, _)| k == key).map(|(_, v)| v)
}

#[test]
fn merge_other_attributes_restores_into_attributes() {
    let mut json: Vec<(String, JsonValue)> = Vec::new();
    let cell = j(r#"{"bbox":"x","id":42}"#);
    merge_other_attributes(&mut json, Some(&cell), "o").unwrap();
    assert!(same(get(&json, "attributes").unwrap(), &j(r#"{"bbox": "x", "id": 42}"#)));
    assert!(get(&json, "bbox").is_none(), "diverted attrs must not land at the top level");
}

#[test]
fn merge_other_attributes_null_is_a_no_op() {
    let mut json: Vec<(String, JsonValue)> = Vec::new();
    merge_other_attributes(&mut json, None, "o").unwrap();
    assert!(json.is_empty());
}

#[test]
fn merge_other_attributes_guards() {
    // Non-object cell -> error.
    let mut json: Vec<(String, JsonValue)> = Vec::new();
    let cell = j("\"nope\"");
    assert!(
        merge_other_attributes(&mut json, Some(&cell), "o").is_err(),
        "a non-object other_attributes cell must error"
    );
    // A diverted name duplicating a decoded column attribute -> error.
    let mut json: Vec<(String, JsonValue)> = vec![("attributes".to_string(), j(r#"{"bbox": "from-column"}"#))];
    let cell = j(r#"{"bbox":"x"}"#);
    assert!(
        merge_other_attributes(&mut json, Some(&cell), "o").is_err(),
        "a diverted attr colliding with a column attr must error"
    );
}

#[test]
fn merge_appends_after_existing_attributes_and_keeps_other_members() {
    let mut json: Vec<(String, JsonValue)> = vec![
        ("type".to_string(), j(r#""Building""#)),
        ("attributes".to_string(), j(r#"{"height": 10}"#)),
    ];
    let cell = j(r#"{"id": 42}"#);
    merge_other_attributes(&mut json, Some(&cell), "o").unwrap();
    assert_eq!(json.len(), 2);
    assert!(same(get(&json, "type").unwrap(), &j(r#""Building""#)));
    assert!(same(get(&json, "attributes").unwrap(), &j(r#"{"height": 10, "id": 42}"#)));
}

#[test]
fn merge_errors_are_metadata_and_leave_the_object_alone() {
    let start: Vec<(String, JsonValue)> = vec![("attributes".to_string(), j("[1]"))];
    let mut json: Vec<(String, JsonValue)> = vec![("attributes".to_string(), j("[1]"))];
    let cell = j(r#"{"a": 1}"#);
    let r = merge_other_attributes(&mut json, Some(&cell), "obj-9");
    match r {
        Err(CityParquetError::Metadata(m)) => assert!(m.contains("obj-9")),
        other => panic!("expected a Metadata error, got {other:?}"),
    }
    assert_eq!(format!("{json:?}"), format!("{start:?}"));
}

#[test]
fn an_empty_cell_still_creates_attributes() {
    let mut json: Vec<(String, JsonValue)> = Vec::new();
    let cell = j("{}");
    merge_other_attributes(&mut json, Some(&cell), "o").unwrap();
    assert!(same(get(&json, "attributes").unwrap(), &j("{}")));
}

#[test]
fn a_clashing_name_stops_the_merge_and_is_named() {
    let mut json: Vec<(String, JsonValue)> = vec![("attributes".to_string(), j(r#"{"b": 1}"#))];
    let cell = JsonValue::Object(vec![
        ("a".to_string(), JsonValue::Number(JsonNumber::PosInt(2))),
        ("b".to_string(), JsonValue::Number(JsonNumber::PosInt(3))),
        ("c".to_string(), JsonValue::Number(JsonNumber::PosInt(4))),
    ]);
    match merge_other_attributes(&mut json, Some(&cell), "o-1") {
        Err(CityParquetError::Metadata(m)) => {
            assert_eq!(m, "object 'o-1': diverted attribute 'b' duplicates a column attribute")
        }
        other => panic!("expected a Metadata error, got {other:?}"),
    }
    // The members before the clash have joined, the rest have not.
    let expected = JsonValue::Object(vec![
        ("b".to_string(), JsonValue::Number(JsonNumber::PosInt(1))),
        ("a".to_string(), JsonValue::Number(JsonNumber::PosInt(2))),
    ]);
    assert!(same(get(&json, "attributes").unwrap(), &expected));
}

#[test]
fn a_row_gives_its_type_present_attributes_and_lists() {
    let cells = vec![
        ("height".to_string(), Some(JsonValue::Number(JsonNumber::PosInt(10)))),
        ("roof".to_string(), None),
    ];
    let parents = vec!["b1".to_string()];
    let m = object_members("BuildingPart", &cells, Some(&parents), None, None);
    assert_eq!(m.len(), 3);
    assert_eq!(m[0].0, "type");
    assert!(same(&m[0].1, &JsonValue::String("BuildingPart".to_string())));
    assert_eq!(m[1].0, "attributes");
    assert!(same(
        &m[1].1,
        &JsonValue::Object(vec![("height".to_string(), JsonValue::Number(JsonNumber::PosInt(10)))])
    ));
    assert_eq!(m[2].0, "parents");
    assert!(same(&m[2].1, &JsonValue::Array(vec![JsonValue::String("b1".to_string())])));
    let bare = object_members("Building", &vec![("roof".to_string(), None)], None, None, None);
    assert_eq!(bare.len(), 1);
}
