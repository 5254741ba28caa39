use cityparquet::json::{JsonNumber, JsonValue};
use cityparquet::properties::{
    geometry_properties_json, realign_appearance_themes, remove_dropped_entries, solid_shell_info,
};
use cityparquet::shape::GeometryType;

fn to_json(v: &serde_json::Value) -> JsonValue {
    match v {
        serde_json::Value::Null => JsonValue::Null,
        serde_json::Value::Bool(b) => JsonValue::Bool(*b),
        serde_json::Value::Number(n) => JsonValue::Number(if let Some(u) = n.as_u64() {
            JsonNumber::PosInt(u)
        } else if let Some(i) = n.as_i64() {
            JsonNumber::NegInt(i)
        } else {
            JsonNumber::Float(n.to_string())
        }),
        serde_json::Value::String(s) => JsonValue::String(s.clone()),
        serde_json::Value::Array(items) => JsonValue::Array(items.iter().map(to_json).collect()),
        serde_json::Value::Object(m) => {
            JsonValue::Object(m.iter().map(|(k, v)| (k.clone(), to_json(v))).collect())
        }
    }
}

fn j(text: &str) -> JsonValue {
    to_json(&serde_json::from_str::<serde_json::Value>(text).unwrap())
}

fn same(a: &JsonValue, b: &JsonValue) -> bool {
    format!("{a:?}") == format!("{b:?}")
}

#[test]
fn multisolid_shell_faces_nest_per_solid() {
    let boundaries = j("[[[[[0, 1, 2]]], [[[0, 1, 2]], [[0, 1, 3]]]], [[[[0, 2, 3]]]]]");
    let info = solid_shell_info(GeometryType::MultiSolid, &boundaries, &[]).unwrap().expect("MultiSolid info");
    assert_eq!(info.counts, vec![2, 1]);
    assert!(same(&info.faces, &j("[[1, 2], [1]]")));

    let props = geometry_properties_json(GeometryType::MultiSolid, None, &boundaries, 0, &[]).unwrap();
    assert!(same(props.get("solid_shell_counts").unwrap(), &j("[2, 1]")));
    assert!(same(props.get("solid_shell_faces").unwrap(), &j("[[1, 2], [1]]")));

    let info = solid_shell_info(GeometryType::MultiSolid, &boundaries, &[1, 3]).unwrap().expect("MultiSolid info");
    assert!(same(&info.faces, &j("[[1, 1], [0]]")));
}

#[test]
fn solid_shell_faces_are_flat_and_other_types_have_none() {
    let solid = j("[[[[0, 1, 2]], [[0, 1, 3]]], [[[4, 5, 6]]]]");
    let info = solid_shell_info(GeometryType::Solid, &solid, &[0]).unwrap().unwrap();
    assert_eq!(info.counts, vec![2]);
    assert!(same(&info.faces, &j("[1, 1]")));
    assert!(solid_shell_info(GeometryType::MultiSurface, &j("[[[0, 1, 2]]]"), &[]).unwrap().is_none());
    assert!(solid_shell_info(GeometryType::Solid, &j("[[[0, 1, 2]]]"), &[]).is_err());
    assert!(solid_shell_info(GeometryType::Solid, &j("[[[[0, -1, 2]]]]"), &[]).is_err());
}

#[test]
fn dropped_surfaces_realign_semantics_and_are_recorded() {
    let boundaries = j("[[[0, 1, 0]], [[0, 1, 2, 3]]]");
    let semantics = j(r#"{"surfaces": [{"type": "WallSurface"}, {"type": "RoofSurface"}], "values": [0, 1]}"#);
    let props = geometry_properties_json(GeometryType::MultiSurface, Some(&semantics), &boundaries, 1, &[0]).unwrap();
    assert!(same(props.get("dropped_degenerate").unwrap(), &j(r#"{"rings": 1, "surfaces": [0]}"#)));
    let sem = props.get("semantics").unwrap();
    assert!(same(sem.get("values").unwrap(), &j("[1]")));
    assert!(same(sem.get("surfaces").unwrap(), &j(r#"[{"type": "WallSurface"}, {"type": "RoofSurface"}]"#)));
    assert!(same(props.get("type").unwrap(), &j(r#""MultiSurface""#)));
    // A Solid's semantics nest per shell: left as they are.
    let solid = j("[[[[0, 1, 2]], [[0, 1, 3]]]]");
    let nested = j(r#"{"surfaces": [], "values": [[0, 1]]}"#);
    let p = geometry_properties_json(GeometryType::Solid, Some(&nested), &solid, 0, &[1]).unwrap();
    assert!(same(p.get("semantics").unwrap(), &nested));
    assert!(same(p.get("solid_shell_faces").unwrap(), &j("[1]")));
    // Nothing dropped: no dropped_degenerate member.
    let plain = geometry_properties_json(GeometryType::MultiSurface, None, &boundaries, 0, &[]).unwrap();
    assert!(plain.get("dropped_degenerate").is_none());
    assert!(same(&plain, &j(r#"{"type": "MultiSurface"}"#)));
}

#[test]
fn appearance_themes_lose_the_dropped_entries() {
    let mut material = j(r#"{"visual": {"values": [5, 7]}, "other": {"value": 2}}"#);
    realign_appearance_themes(&mut material, &[0]);
    assert!(same(&material, &j(r#"{"visual": {"values": [7]}, "other": {"value": 2}}"#)));
    let mut texture = j(r#"{"visual": {"values": [[[0, 0, 1, 2]], [[1, 0, 1, 2, 3]]]}}"#);
    realign_appearance_themes(&mut texture, &[0]);
    assert!(same(&texture, &j(r#"{"visual": {"values": [[[1, 0, 1, 2, 3]]]}}"#)));
    let mut scalar = j("3");
    realign_appearance_themes(&mut scalar, &[0]);
    assert!(same(&scalar, &j("3")));
}

#[test]
fn entries_beyond_the_array_are_ignored() {
    let mut values = vec![j("0"), j("1"), j("2")];
    remove_dropped_entries(&mut values, &[1, 5]);
    assert!(same(&JsonValue::Array(values), &j("[0, 2]")));
}
