use cityparquet::error::CityParquetError;
use cityparquet::interner::AppearanceInterner;
use cityparquet::json::{JsonNumber, JsonValue};

/// A JSON document in the library's model, members in serde_json's order.
fn to_json(v: &serde_json::Value) -> JsonValue {
    match v {
        serde_json::Value::Null => JsonValue::Null,
        serde_json::Value::Bool(b) => JsonValue::Bool(*b),
        serde_json::Value::Number(n) => JsonValue::Number(if let Some(u) = n.as_u64() {
            JsonNumber::PosInt(u)
        } else if let Some(i) = n.as_i64() {
            JsonNumber::NegInt(i)
        } else {
            JsonNumber::Float(n.to_string())
        }),
        serde_json::Value::String(s) => JsonValue::String(s.clone()),
        serde_json::Value::Array(items) => JsonValue::Array(items.iter().map(to_json).collect()),
        serde_json::Value::Object(m) => {
            JsonValue::Object(m.iter().map(|(k, v)| (k.clone(), to_json(v))).collect())
        }
    }
}

fn j(text: &str) -> JsonValue {
    to_json(&serde_json::from_str::<serde_json::Value>(text).unwrap())
}

fn same(a: &JsonValue, b: &JsonValue) -> bool {
    format!("{a:?}") == format!("{b:?}")
}

fn get<'a>(v: &'a JsonValue, key: &str) -> &'a JsonValue {
    v.get(key).unwrap()
}

fn at(v: &JsonValue, i: usize) -> &JsonValue {
    &v.as_array().unwrap()[i]
}

#[test]
fn intern_material_dedupes_identical_definitions() {
    let mut interner = AppearanceInterner::new();
    let a = j(r#"{"name": "roof", "diffuseColor": [1.0, 0.0, 0.0]}"#);
    let b = j(r#"{"diffuseColor": [1.0, 0.0, 0.0], "name": "roof"}"#);
    let id_a = interner.intern_material(&a);
    let id_b = interner.intern_material(&b);
    assert_eq!(id_a, id_b, "same content (different key order) must dedupe");
    assert_eq!(interner.materials().len(), 1);
    assert!(same(&interner.materials()[id_a], &a));
}

#[test]
fn intern_texture_dedupes_identical_definitions() {
    let mut interner = AppearanceInterner::new();
    let a = j(r#"{"type": "PNG", "image": "a.png"}"#);
    let b = j(r#"{"type": "PNG", "image": "b.png"}"#);
    let id_a = interner.intern_texture(&a);
    let id_b = interner.intern_texture(&b);
    assert_ne!(id_a, id_b);
    assert_eq!(interner.textures().len(), 2);
    assert_eq!(interner.intern_texture(&a), id_a, "re-interning must return the same id");
}

#[test]
fn rewrite_material_map_scalar_value_form() {
    let mut interner = AppearanceInterner::new();
    let local_defs = vec![j(r#"{"name": "m0"}"#), j(r#"{"name": "m1"}"#)];
    let map = j(r#"{"visual": {"value": 1}}"#);
    let rewritten = interner.rewrite_material_map(&map, &local_defs).unwrap();
    let gid = get(get(&rewritten, "visual"), "value").as_u64().unwrap() as usize;
    assert!(same(&interner.materials()[gid], &local_defs[1]));
}

#[test]
fn rewrite_material_map_nested_values_preserves_nulls_and_structure() {
    let mut interner = AppearanceInterner::new();
    let local_defs = vec![j(r#"{"name": "m0"}"#), j(r#"{"name": "m1"}"#)];
    let map = j(r#"{"visual": {"values": [[0, null, 1], [1, 0]]}}"#);
    let rewritten = interner.rewrite_material_map(&map, &local_defs).unwrap();
    let values = get(get(&rewritten, "visual"), "values");
    assert!(at(at(values, 0), 1).is_null());
    let g0 = at(at(values, 0), 0).as_u64().unwrap() as usize;
    let g1 = at(at(values, 0), 2).as_u64().unwrap() as usize;
    assert!(same(&interner.materials()[g0], &local_defs[0]));
    assert!(same(&interner.materials()[g1], &local_defs[1]));
}

#[test]
fn rewrite_material_map_out_of_range_index_is_schema_error() {
    let mut interner = AppearanceInterner::new();
    let local_defs = vec![j(r#"{"name": "m0"}"#)];
    let map = j(r#"{"visual": {"value": 5}}"#);
    let err = interner.rewrite_material_map(&map, &local_defs).unwrap_err();
    match err {
        CityParquetError::Schema(msg) => assert!(msg.contains("visual"), "{msg}"),
        other => panic!("expected Schema error, got {other:?}"),
    }
}

#[test]
fn rewrite_texture_map_inlines_uvs_and_preserves_null_ring() {
    let mut interner = AppearanceInterner::new();
    let local_defs = vec![j(r#"{"image": "t0.png"}"#)];
    let local_uvs: Vec<Vec<JsonValue>> = [[0.0, 0.0], [1.0, 0.0], [1.0, 1.0]]
        .iter()
        .map(|p| p.iter().map(|c| to_json(&serde_json::Value::from(*c))).collect())
        .collect();
    let map = j(r#"{"visual": {"values": [[[0, 0, 1, 2]], [[null]]]}}"#);
    let rewritten = interner.rewrite_texture_map(&map, &local_defs, &local_uvs).unwrap();
    let values = get(get(&rewritten, "visual"), "values");
    let ring0 = at(at(values, 0), 0);
    assert!(same(at(ring0, 0), &j("0")));
    assert!(same(at(ring0, 1), &j("[0.0, 0.0]")));
    assert!(same(at(ring0, 2), &j("[1.0, 0.0]")));
    assert!(same(at(ring0, 3), &j("[1.0, 1.0]")));
    let ring1 = at(at(values, 1), 0);
    assert!(same(ring1, &j("[null]")));
}

#[test]
fn rewrite_texture_map_out_of_range_uv_is_schema_error() {
    let mut interner = AppearanceInterner::new();
    let local_defs = vec![j(r#"{"image": "t0.png"}"#)];
    let local_uvs: Vec<Vec<JsonValue>> = vec![vec![j("0.0"), j("0.0")]];
    let map = j(r#"{"visual": {"values": [[[0, 99]]]}}"#);
    let err = interner.rewrite_texture_map(&map, &local_defs, &local_uvs).unwrap_err();
    match err {
        CityParquetError::Schema(msg) => assert!(msg.contains("visual"), "{msg}"),
        other => panic!("expected Schema error, got {other:?}"),
    }
}

#[test]
fn ids_follow_first_use_across_maps_and_a_refused_map_interns_nothing() {
    let mut interner = AppearanceInterner::new();
    let defs = vec![j(r#"{"name": "a"}"#), j(r#"{"name": "b"}"#)];
    let first = interner.rewrite_material_map(&j(r#"{"t": {"values": [1, 0, 1]}}"#), &defs).unwrap();
    assert!(same(&first, &j(r#"{"t": {"values": [0, 1, 0]}}"#)));
    let bad = interner.rewrite_material_map(&j(r#"{"t": {"values": [0, 7]}}"#), &defs);
    assert!(bad.is_err());
    assert_eq!(interner.materials().len(), 2);
    let more = vec![j(r#"{"name": "c"}"#), j(r#"{"name": "a"}"#)];
    let second = interner.rewrite_material_map(&j(r#"{"t": {"value": 1, "values": [[0], [null]]}}"#), &more).unwrap();
    assert!(same(&second, &j(r#"{"t": {"value": 1, "values": [[2], [null]]}}"#)));
    assert!(interner.rewrite_material_map(&j("[1]"), &defs).is_err());
    assert!(interner.rewrite_material_map(&j(r#"{"t": 3}"#), &defs).is_err());
}

#[test]
fn texture_trees_need_rings_and_values() {
    let mut interner = AppearanceInterner::new();
    let defs = vec![j(r#"{"image": "a.png"}"#)];
    let uvs: Vec<Vec<JsonValue>> = vec![vec![j("0.5"), j("0.25")], vec![j("1.0")]];
    assert!(interner.rewrite_texture_map(&j(r#"{"t": {"value": 0}}"#), &defs, &uvs).is_err());
    assert!(interner.rewrite_texture_map(&j(r#"{"t": {"values": [5]}}"#), &defs, &uvs).is_err());
    assert!(interner.rewrite_texture_map(&j(r#"{"t": {"values": [[[0, 1]]]}}"#), &defs, &uvs).is_err());
    assert_eq!(interner.textures().len(), 0);
    let ok = interner.rewrite_texture_map(&j(r#"{"t": {"values": [[[null, 0]]]}}"#), &defs, &uvs).unwrap();
    assert!(same(&ok, &j(r#"{"t": {"values": [[[null, [0.5, 0.25]]]]}}"#)));
    assert_eq!(interner.textures().len(), 0);
}
