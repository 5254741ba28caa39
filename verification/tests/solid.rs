use cityparquet::error::CityParquetError;
use cityparquet::json::{JsonNumber, JsonValue};
use cityparquet::shells::solid_shells;

fn solid_props(fields: Vec<(&str, JsonValue)>) -> JsonValue {
    JsonValue::Object(fields.into_iter().map(|(k, v)| (k.to_string(), v)).collect())
}

fn solid_counts(v: &[u64]) -> JsonValue {
    JsonValue::Array(v.iter().map(|x| JsonValue::Number(JsonNumber::PosInt(*x))).collect())
}

fn solid_type(t: &str) -> (&'static str, JsonValue) {
    ("type", JsonValue::String(t.to_string()))
}

#[test]
fn solid_shells_partitions_exterior_and_interior() {
    let faces = vec![vec![vec![0usize, 1, 2]], vec![vec![3usize, 4, 5]]];
    let props = solid_props(vec![solid_type("Solid"), ("shells", solid_counts(&[1, 1]))]);
    let shells = solid_shells(faces, Some(&props)).unwrap();
    assert_eq!(shells.len(), 2);
    assert_eq!(shells[0], vec![vec![vec![0usize, 1, 2]]]);
    assert_eq!(shells[1], vec![vec![vec![3usize, 4, 5]]]);
}

#[test]
fn solid_shells_rejects_non_solid_or_missing_type() {
    let faces = vec![vec![vec![0usize, 1, 2]]];
    assert!(matches!(solid_shells(faces.clone(), None), Err(CityParquetError::Schema(_))));
    let props = solid_props(vec![solid_type("MultiSurface")]);
    assert!(matches!(solid_shells(faces, Some(&props)), Err(CityParquetError::Schema(_))));
}

#[test]
fn solid_shells_single_shell_without_counts() {
    let faces = vec![vec![vec![0usize, 1, 2]], vec![vec![2usize, 1, 3]]];
    let props = solid_props(vec![solid_type("Solid")]);
    let shells = solid_shells(faces.clone(), Some(&props)).unwrap();
    assert_eq!(shells, vec![faces]);
}

#[test]
fn solid_shells_count_mismatch_errors() {
    let faces = vec![vec![vec![0usize, 1, 2]]];
    let props = solid_props(vec![solid_type("Solid"), ("shells", solid_counts(&[1, 1]))]);
    assert!(matches!(solid_shells(faces, Some(&props)), Err(CityParquetError::Schema(_))));
}

#[test]
fn solid_shells_empty_count_list_has_no_exterior() {
    let props = solid_props(vec![solid_type("Solid"), ("shells", solid_counts(&[]))]);
    assert!(matches!(solid_shells(Vec::new(), Some(&props)), Err(CityParquetError::Geometry(_))));
}
