use cityparquet::error::CityParquetError;
use cityparquet::interner::AppearanceInterner;
use cityparquet::json::{clone_json, JsonNumber, JsonValue};
use cityparquet::resolve::{
    is_texture_ring, realigned_material, realigned_nested_material, realigned_nested_texture,
    realigned_texture, resolve_material_index, resolve_material_map, resolve_material_tree,
    resolve_texture_map, resolve_texture_tree, AppearanceDefs,
};

fn to_json(v: &serde_json::Value) -> JsonValue {
    match v {
        serde_json::Value::Null => JsonValue::Null,
        serde_json::Value::Bool(b) => JsonValue::Bool(*b),
        serde_json::Value::Number(n) => JsonValue::Number(if let Some(u) = n.as_u64() {
            JsonNumber::PosInt(u)
        } else if let Some(i) = n.as_i64() {
            JsonNumber::NegInt(i)
        } else {
            JsonNumber::Float(n.to_string())
        }),
        serde_json::Value::String(s) => JsonValue::String(s.clone()),
        serde_json::Value::Array(items) => JsonValue::Array(items.iter().map(to_json).collect()),
        serde_json::Value::Object(m) => {
            JsonValue::Object(m.iter().map(|(k, v)| (k.clone(), to_json(v))).collect())
        }
    }
}

fn j(text: &str) -> JsonValue {
    to_json(&serde_json::from_str::<serde_json::Value>(text).unwrap())
}

fn items(text: &str) -> Vec<JsonValue> {
    match j(text) {
        JsonValue::Array(xs) => xs,
        _ => panic!("not an array"),
    }
}

fn same(a: &JsonValue, b: &JsonValue) -> bool {
    format!("{a:?}") == format!("{b:?}")
}

fn defs() -> AppearanceDefs {
    AppearanceDefs {
        materials: items(r#"[{"name": "brick"}, {"name": "glass"}]"#),
        textures: items(r#"[{"image": "a.png"}]"#),
        vertices_texture: vec![items("[0.5, 0.25]"), items("[1.0, 0.0]"), items("[0.75]")],
    }
}

fn is_schema<T>(r: &Result<T, CityParquetError>) -> bool {
    matches!(r, Err(CityParquetError::Schema(_)))
}

#[test]
fn material_index_resolves_to_its_definition() {
    let d = defs();
    let r = resolve_material_index(&j("1"), &d).unwrap();
    assert!(same(&r, &j(r#"{"name": "glass"}"#)));
    assert!(same(&resolve_material_index(&JsonValue::Null, &d).unwrap(), &JsonValue::Null));
}

#[test]
fn material_index_errors() {
    let d = defs();
    assert!(is_schema(&resolve_material_index(&j("2"), &d)));
    assert!(is_schema(&resolve_material_index(&j("-1"), &d)));
    assert!(is_schema(&resolve_material_index(&j("0.5"), &d)));
    assert!(is_schema(&resolve_material_index(&j(r#""0""#), &d)));
}

#[test]
fn material_index_passes_through_without_definitions() {
    let d = AppearanceDefs::empty();
    assert!(same(&resolve_material_index(&j("7"), &d).unwrap(), &j("7")));
    assert!(same(&resolve_material_index(&j("-3"), &d).unwrap(), &j("-3")));
}

#[test]
fn material_tree_resolves_every_leaf_and_keeps_nesting() {
    let d = defs();
    let r = resolve_material_tree(&j("[[0, null], [1]]"), &d).unwrap();
    assert!(same(&r, &j(r#"[[{"name": "brick"}, null], [{"name": "glass"}]]"#)));
    assert!(is_schema(&resolve_material_tree(&j("[[0, 5]]"), &d)));
}

#[test]
fn material_map_resolves_value_and_values() {
    let d = defs();
    let map = j(r#"{"roof": {"value": 1}, "walls": {"values": [0, null]}}"#);
    let r = resolve_material_map(&map, &d).unwrap();
    let want = j(r#"{"roof": {"value": {"name": "glass"}}, "walls": {"values": [{"name": "brick"}, null]}}"#);
    assert!(same(&r, &want));
}

#[test]
fn material_map_shape_errors() {
    let d = defs();
    assert!(is_schema(&resolve_material_map(&j("[1]"), &d)));
    assert!(is_schema(&resolve_material_map(&j(r#"{"roof": 1}"#), &d)));
    assert!(is_schema(&resolve_material_map(&j(r#"{"roof": {"value": 9}}"#), &d)));
}

#[test]
fn texture_ring_recognition() {
    assert!(is_texture_ring(&items("[0, 1, 2]")));
    assert!(is_texture_ring(&items("[null]")));
    assert!(!is_texture_ring(&items("[]")));
    assert!(!is_texture_ring(&items("[[0, 1]]")));
}

#[test]
fn texture_tree_resolves_texture_and_uv_pairs() {
    let d = defs();
    let r = resolve_texture_tree(&j("[[[0, 1, 0]], [[null]]]"), &d).unwrap();
    let want = j(r#"[[[{"image": "a.png"}, [1.0, 0.0], [0.5, 0.25]]], [[null]]]"#);
    assert!(same(&r, &want));
}

#[test]
fn texture_tree_errors() {
    let d = defs();
    // A UV index out of range.
    assert!(is_schema(&resolve_texture_tree(&j("[[0, 3]]"), &d)));
    // A UV entry with a single coordinate.
    assert!(is_schema(&resolve_texture_tree(&j("[[0, 2]]"), &d)));
    // A texture index out of range.
    assert!(is_schema(&resolve_texture_tree(&j("[[4, 0]]"), &d)));
    // A non-array node.
    assert!(is_schema(&resolve_texture_tree(&j("[3]"), &d)));
    assert!(is_schema(&resolve_texture_tree(&j("{}"), &d)));
}

#[test]
fn texture_map_requires_values() {
    let d = defs();
    let map = j(r#"{"winter": {"values": [[[0, 0, 1]]]}}"#);
    let r = resolve_texture_map(&map, &d).unwrap();
    let want = j(r#"{"winter": {"values": [[[{"image": "a.png"}, [0.5, 0.25], [1.0, 0.0]]]]}}"#);
    assert!(same(&r, &want));
    assert!(is_schema(&resolve_texture_map(&j(r#"{"winter": {}}"#), &d)));
}

#[test]
fn realigned_material_drops_before_resolving() {
    let d = defs();
    // The dangling index 9 sits only at the dropped position 1.
    let map = j(r#"{"walls": {"values": [0, 9, 1]}}"#);
    let r = realigned_material(Some(&map), &[1], Some(&d)).unwrap().unwrap();
    assert!(same(&r, &j(r#"{"walls": {"values": [{"name": "brick"}, {"name": "glass"}]}}"#)));
    // Without the drop it does not resolve.
    assert!(is_schema(&realigned_material(Some(&map), &[], Some(&d))));
}

#[test]
fn realigned_maps_are_none_without_map_or_defs() {
    let d = defs();
    let map = j(r#"{"walls": {"values": [0]}}"#);
    assert!(realigned_material(None, &[], Some(&d)).unwrap().is_none());
    assert!(realigned_material(Some(&map), &[], None).unwrap().is_none());
    assert!(realigned_texture(None, &[], Some(&d)).unwrap().is_none());
    assert!(realigned_nested_material(Some(&map), 1, &[0], None).unwrap().is_none());
    assert!(realigned_nested_texture(None, 1, &[0], Some(&d)).unwrap().is_none());
}

#[test]
fn realigned_texture_drops_a_surface() {
    let d = defs();
    let map = j(r#"{"t": {"values": [[[0, 0]], [[0, 1]]]}}"#);
    let r = realigned_texture(Some(&map), &[0], Some(&d)).unwrap().unwrap();
    assert!(same(&r, &j(r#"{"t": {"values": [[[{"image": "a.png"}, [1.0, 0.0]]]]}}"#)));
}

#[test]
fn realigned_nested_material_counts_faces_across_shells() {
    let d = defs();
    // A Solid: shells of 2 and 1 faces; flat position 2 (the second shell's face) is dropped.
    let map = j(r#"{"m": {"values": [[0, 1], [9]]}}"#);
    let r = realigned_nested_material(Some(&map), 1, &[2], Some(&d)).unwrap().unwrap();
    assert!(same(&r, &j(r#"{"m": {"values": [[{"name": "brick"}, {"name": "glass"}], []]}}"#)));
}

#[test]
fn realigned_nested_texture_counts_faces_across_solids() {
    let d = defs();
    // A MultiSolid with one shell per solid, one face each: drop flat position 0.
    let map = j(r#"{"t": {"values": [[[[[5, 0]]]], [[[[0, 1]]]]]}}"#);
    let r = realigned_nested_texture(Some(&map), 2, &[0], Some(&d)).unwrap().unwrap();
    let want = j(r#"{"t": {"values": [[[]], [[[[{"image": "a.png"}, [1.0, 0.0]]]]]]}}"#);
    assert!(same(&r, &want));
}

#[test]
fn interned_maps_resolve_to_the_same_definitions() {
    let mut interner = AppearanceInterner::new();
    // A first feature interns its own definitions.
    let first = items(r#"[{"name": "glass"}, {"name": "slate"}]"#);
    interner.rewrite_material_map(&j(r#"{"m": {"values": [1, 0]}}"#), &first).unwrap();
    // A second feature numbers the same kind of definitions differently.
    let local = items(r#"[{"name": "brick"}, {"name": "glass"}]"#);
    let map = j(r#"{"m": {"values": [[0, 1], [null, 1]]}, "n": {"value": 0}}"#);
    let global = interner.rewrite_material_map(&map, &local).unwrap();
    let local_defs = AppearanceDefs { materials: local, textures: Vec::new(), vertices_texture: Vec::new() };
    let pool: Vec<JsonValue> = interner.materials().iter().map(clone_json).collect();
    let global_defs = AppearanceDefs { materials: pool, textures: Vec::new(), vertices_texture: Vec::new() };
    let a = resolve_material_map(&global, &global_defs).unwrap();
    let b = resolve_material_map(&map, &local_defs).unwrap();
    assert!(same(&a, &b));
    assert!(same(&b, &j(r#"{"m": {"values": [[{"name": "brick"}, {"name": "glass"}], [null, {"name": "glass"}]]}, "n": {"value": {"name": "brick"}}}"#)));
}

#[test]
fn interned_texture_maps_resolve_to_the_same_definitions() {
    let mut interner = AppearanceInterner::new();
    let local = items(r#"[{"image": "a.png"}, {"image": "b.png"}]"#);
    let uvs = vec![items("[0.0, 0.0]"), items("[1.0, 0.5]"), items("[0.25, 0.75]")];
    let map = j(r#"{"t": {"values": [[[1, 0, 1, 2]], [[null]], [[0, 2, 2, 1]]]}}"#);
    let global = interner.rewrite_texture_map(&map, &local, &uvs).unwrap();
    let pool: Vec<JsonValue> = interner.textures().iter().map(clone_json).collect();
    let global_defs = AppearanceDefs { materials: Vec::new(), textures: pool, vertices_texture: Vec::new() };
    let local_defs = AppearanceDefs { materials: Vec::new(), textures: local, vertices_texture: uvs };
    let a = resolve_texture_map(&global, &global_defs).unwrap();
    let b = resolve_texture_map(&map, &local_defs).unwrap();
    assert!(same(&a, &b));
}
