use cityparquet::canonical::{
    canonicalise_attrs, children_roles_pairs, realign_nested_themes, realign_nested_values,
    solid_face_nesting_depth, strip_nulls,
};
use cityparquet::json::{JsonNumber, JsonValue};
use cityparquet::shape::GeometryType;

fn to_json(v: &serde_json::Value) -> JsonValue {
    match v {
        serde_json::Value::Null => JsonValue::Null,
        serde_json::Value::Bool(b) => JsonValue::Bool(*b),
        serde_json::Value::Number(n) => JsonValue::Number(if let Some(u) = n.as_u64() {
            JsonNumber::PosInt(u)
        } else if let Some(i) = n.as_i64() {
            JsonNumber::NegInt(i)
        } else {
            JsonNumber::Float(n.to_string())
        }),
        serde_json::Value::String(s) => JsonValue::String(s.clone()),
        serde_json::Value::Array(items) => JsonValue::Array(items.iter().map(to_json).collect()),
        serde_json::Value::Object(m) => {
            JsonValue::Object(m.iter().map(|(k, v)| (k.clone(), to_json(v))).collect())
        }
    }
}

fn j(text: &str) -> JsonValue {
    to_json(&serde_json::from_str::<serde_json::Value>(text).unwrap())
}

fn same(a: &JsonValue, b: &JsonValue) -> bool {
    format!("{a:?}") == format!("{b:?}")
}

#[test]
fn strip_nulls_drops_null_members_at_every_depth() {
    let v = j(r#"{"a": null, "b": 1, "c": {"d": null, "e": [null, {"f": null, "g": "x"}]}}"#);
    let out = strip_nulls(&v);
    // Array elements that are null stay: only object members are dropped.
    assert!(same(&out, &j(r#"{"b": 1, "c": {"e": [null, {"g": "x"}]}}"#)));
}

#[test]
fn strip_nulls_leaves_scalars_alone() {
    assert!(same(&strip_nulls(&JsonValue::Null), &JsonValue::Null));
    assert!(same(&strip_nulls(&j("3")), &j("3")));
    assert!(same(&strip_nulls(&j(r#""s""#)), &j(r#""s""#)));
}

#[test]
fn canonicalise_attrs_treats_absent_and_null_as_empty() {
    let empty = j("{}");
    assert!(same(&canonicalise_attrs(None), &empty));
    assert!(same(&canonicalise_attrs(Some(&JsonValue::Null)), &empty));
    let only_nulls = j(r#"{"a": null}"#);
    assert!(same(&canonicalise_attrs(Some(&only_nulls)), &empty));
    let some = j(r#"{"a": null, "b": true}"#);
    assert!(same(&canonicalise_attrs(Some(&some)), &j(r#"{"b": true}"#)));
}

#[test]
fn solid_face_nesting_depth_per_type() {
    assert_eq!(solid_face_nesting_depth(GeometryType::Solid), Some(1));
    assert_eq!(solid_face_nesting_depth(GeometryType::MultiSolid), Some(2));
    assert_eq!(solid_face_nesting_depth(GeometryType::CompositeSolid), Some(2));
    assert_eq!(solid_face_nesting_depth(GeometryType::MultiSurface), None);
    assert_eq!(solid_face_nesting_depth(GeometryType::CompositeSurface), None);
}

#[test]
fn realign_nested_values_solid_counts_faces_across_shells() {
    // Solid: two shells of 3 and 2 faces, flat positions 0..5.
    let mut values = j("[[10, 11, 12], [13, 14]]");
    realign_nested_values(&mut values, 1, &[1, 3]);
    assert!(same(&values, &j("[[10, 12], [14]]")));
}

#[test]
fn realign_nested_values_multisolid_counts_across_solids() {
    // MultiSolid: solid 0 has shells [2 faces, 1 face]; solid 1 has one shell of 2 faces.
    let mut values = j("[[[0, 1], [2]], [[3, 4]]]");
    realign_nested_values(&mut values, 2, &[2, 3]);
    assert!(same(&values, &j("[[[0, 1], []], [[4]]]")));
}

#[test]
fn realign_nested_values_with_nothing_dropped_is_unchanged() {
    let mut values = j("[[null, 1, 2]]");
    realign_nested_values(&mut values, 1, &[]);
    assert!(same(&values, &j("[[null, 1, 2]]")));
}

#[test]
fn realign_nested_values_leaves_a_non_array_alone() {
    let mut values = JsonValue::Null;
    realign_nested_values(&mut values, 1, &[0]);
    assert!(same(&values, &JsonValue::Null));
    // A non-array where a shell is expected is skipped without counting faces.
    let mut values = j("[null, [5, 6]]");
    realign_nested_values(&mut values, 1, &[0]);
    assert!(same(&values, &j("[null, [6]]")));
}

#[test]
fn children_roles_pair_aligned_children_and_roles() {
    let children = vec!["a".to_string(), "b".to_string()];
    let roles = j(r#"["main", "annex"]"#);
    let pairs = children_roles_pairs("CityObjectGroup", Some(&children), Some(&roles));
    assert_eq!(
        pairs,
        vec![("a".to_string(), "main".to_string()), ("b".to_string(), "annex".to_string())]
    );
}

#[test]
fn children_roles_surplus_and_missing_roles_show_as_sentinels() {
    let children = vec!["a".to_string(), "b".to_string()];
    let roles = j(r#"["main", 7, "x"]"#);
    let pairs = children_roles_pairs("CityObjectGroup", Some(&children), Some(&roles));
    assert_eq!(
        pairs,
        vec![
            ("a".to_string(), "main".to_string()),
            ("b".to_string(), "\u{0}missing_or_nonstring_1".to_string()),
            ("\u{0}surplus_role_2".to_string(), "x".to_string()),
        ]
    );
    let no_roles = children_roles_pairs("CityObjectGroup", Some(&children), None);
    assert_eq!(no_roles[1].1, "\u{0}missing_or_nonstring_1");
}

#[test]
fn children_roles_only_for_groups() {
    let children = vec!["a".to_string()];
    let roles = j(r#"["main"]"#);
    assert!(children_roles_pairs("Building", Some(&children), Some(&roles)).is_empty());
}

#[test]
fn realign_nested_themes_walks_each_theme() {
    let map = j(r#"{"a": {"values": [[0, 1]]}, "b": {"value": 3}}"#);
    let out = realign_nested_themes(&map, 1, &[0]);
    assert!(same(&out, &j(r#"{"a": {"values": [[1]]}, "b": {"value": 3}}"#)));
}
