use cityparquet::error::CityParquetError;
use cityparquet::json::{clone_json, JsonNumber, JsonValue};
use cityparquet::interner::AppearanceInterner;
use cityparquet::localise::LocalAppearance;

fn to_json(v: &serde_json::Value) -> JsonValue {
    match v {
        serde_json::Value::Null => JsonValue::Null,
        serde_json::Value::Bool(b) => JsonValue::Bool(*b),
        serde_json::Value::Number(n) => JsonValue::Number(if let Some(u) = n.as_u64() {
            JsonNumber::PosInt(u)
        } else if let Some(i) = n.as_i64() {
            JsonNumber::NegInt(i)
        } else {
            JsonNumber::Float(n.to_string())
        }),
        serde_json::Value::String(s) => JsonValue::String(s.clone()),
        serde_json::Value::Array(items) => JsonValue::Array(items.iter().map(to_json).collect()),
        serde_json::Value::Object(m) => {
            JsonValue::Object(m.iter().map(|(k, v)| (k.clone(), to_json(v))).collect())
        }
    }
}

fn j(text: &str) -> JsonValue {
    to_json(&serde_json::from_str::<serde_json::Value>(text).unwrap())
}

fn items(text: &str) -> Vec<JsonValue> {
    match j(text) {
        JsonValue::Array(xs) => xs,
        _ => panic!("not an array"),
    }
}

fn same(a: &JsonValue, b: &JsonValue) -> bool {
    format!("{a:?}") == format!("{b:?}")
}

fn bits(c: &JsonValue) -> u64 {
    match c {
        JsonValue::Number(JsonNumber::PosInt(u)) => (*u as f64).to_bits(),
        JsonValue::Number(JsonNumber::NegInt(i)) => (*i as f64).to_bits(),
        JsonValue::Number(JsonNumber::Float(t)) => t.parse::<f64>().unwrap().to_bits(),
        _ => panic!("not a number"),
    }
}

fn uv_table(local: &LocalAppearance, map: &JsonValue) -> Vec<(JsonValue, u64)> {
    local.uv_coordinates(map).into_iter().map(|c| {
        let b = bits(&c);
        (c, b)
    }).collect()
}

fn localise_texture(local: &mut LocalAppearance, map: &JsonValue) -> Result<JsonValue, CityParquetError> {
    let table = uv_table(local, map);
    local.localise_texture_map(map, &table)
}

fn member<'a>(v: &'a JsonValue, key: &str) -> &'a JsonValue {
    v.get(key).expect("member")
}

#[test]
fn into_appearance_is_not_none_when_only_local_uvs_are_populated() {
    let mut local = LocalAppearance::new(&[], &[]);
    let map = j(r#"{"visual": {"values": [[null, [0.1, 0.2], [0.3, 0.4]]]}}"#);
    let localised = localise_texture(&mut local, &map).unwrap();
    assert!(local.local_materials().is_empty());
    assert!(local.local_textures().is_empty());
    assert_eq!(local.local_uvs().len(), 2, "both UV pairs must be interned");
    let values = member(member(&localised, "visual"), "values");
    match values {
        JsonValue::Array(rings) => assert!(same(&rings[0], &j("[null, 0, 1]"))),
        _ => panic!("values must stay an array"),
    }

    let appearance = local
        .into_appearance(None)
        .expect("local_uvs alone must be enough to keep the appearance block");
    assert_eq!(
        appearance.vertices_texture,
        Some(vec![(0.1f64.to_bits(), 0.2f64.to_bits()), (0.3f64.to_bits(), 0.4f64.to_bits())])
    );
    assert!(appearance.materials.is_none());
    assert!(appearance.textures.is_none());
}

#[test]
fn into_appearance_with_an_empty_slicer_and_defaults_is_some_with_only_default_members() {
    let local = LocalAppearance::new(&[], &[]);
    let defaults = j(r#"{"default-theme-material": "theme-a", "default-theme-texture": "theme-b"}"#);
    let appearance = local
        .into_appearance(Some(&defaults))
        .expect("defaults alone must be enough to keep the appearance block");
    assert!(appearance.materials.is_none());
    assert!(appearance.textures.is_none());
    assert!(appearance.vertices_texture.is_none());
    assert_eq!(appearance.default_theme_material.as_deref(), Some("theme-a"));
    assert_eq!(appearance.default_theme_texture.as_deref(), Some("theme-b"));
}

#[test]
fn into_appearance_with_an_empty_slicer_and_no_defaults_is_none() {
    let local = LocalAppearance::new(&[], &[]);
    assert!(local.into_appearance(None).is_none());
}

#[test]
fn materials_are_renumbered_in_first_use_order_and_sliced() {
    let globals = items(r#"[{"name": "a"}, {"name": "b"}, {"name": "c"}]"#);
    let mut local = LocalAppearance::new(&globals, &[]);
    let map = j(r#"{"irradiation": {"values": [2, null, [0, 2]]}, "visual": {"value": 0}}"#);
    let out = local.localise_material_map(&map).unwrap();
    assert!(same(&out, &j(r#"{"irradiation": {"values": [0, null, [1, 0]]}, "visual": {"value": 1}}"#)));
    assert_eq!(local.local_materials().len(), 2);
    assert!(same(&local.local_materials()[0], &j(r#"{"name": "c"}"#)));
    assert!(same(&local.local_materials()[1], &j(r#"{"name": "a"}"#)));
    // A second geometry of the same feature reuses the ids already assigned.
    let again = local.localise_material_map(&j(r#"{"visual": {"values": [1, 2]}}"#)).unwrap();
    assert!(same(&again, &j(r#"{"visual": {"values": [2, 0]}}"#)));
    let appearance = local.into_appearance(None).unwrap();
    let mats = appearance.materials.unwrap();
    assert_eq!(mats.len(), 3);
    assert!(same(&mats[2], &j(r#"{"name": "b"}"#)));
    assert!(appearance.textures.is_none());
}

#[test]
fn a_refused_material_map_assigns_nothing() {
    let globals = items(r#"[{"name": "a"}]"#);
    let mut local = LocalAppearance::new(&globals, &[]);
    for bad in [
        r#"{"visual": {"values": [0, 1]}}"#,
        r#"{"visual": {"values": [0, -1]}}"#,
        r#"{"visual": {"value": [0]}}"#,
        r#"{"visual": 0}"#,
        r#"[0]"#,
    ] {
        let r = local.localise_material_map(&j(bad));
        assert!(matches!(r, Err(CityParquetError::Schema(_))), "{bad}");
        assert!(local.local_materials().is_empty(), "{bad}");
    }
}

#[test]
fn texture_rings_are_renumbered_and_uv_pairs_interned_once() {
    let textures = items(r#"[{"image": "a.png"}, {"image": "b.png"}]"#);
    let mut local = LocalAppearance::new(&[], &textures);
    let map = j(r#"{"winter": {"values": [[[1, [0.5, 0.5], [1.0, 0.0]], [null]], [[0, [1.0, 0.0], [1, 0]]]]}}"#);
    let out = localise_texture(&mut local, &map).unwrap();
    // `1.0` and `1` are the same coordinate value, so `[1.0, 0.0]` and
    // `[1, 0]` share one pool entry.
    assert!(same(&out, &j(r#"{"winter": {"values": [[[0, 0, 1], [null]], [[1, 1, 1]]]}}"#)));
    assert_eq!(local.local_uvs(), &[(0.5f64.to_bits(), 0.5f64.to_bits()), (1.0f64.to_bits(), 0.0f64.to_bits())]);
    assert_eq!(local.local_textures().len(), 2);
    assert!(same(&local.local_textures()[0], &j(r#"{"image": "b.png"}"#)));
}

#[test]
fn refused_texture_maps_assign_nothing() {
    let textures = items(r#"[{"image": "a.png"}]"#);
    let mut local = LocalAppearance::new(&[], &textures);
    for bad in [
        r#"{"winter": {"values": [[1, [0.5, 0.5]]]}}"#,
        r#"{"winter": {"values": [[0, [0.5]]]}}"#,
        r#"{"winter": {"values": [[0, 3]]}}"#,
        r#"{"winter": {"values": [5]}}"#,
        r#"{"winter": {"value": [[0]]}}"#,
        r#"{"winter": [[0]]}"#,
    ] {
        let r = localise_texture(&mut local, &j(bad));
        assert!(matches!(r, Err(CityParquetError::Schema(_))), "{bad}");
        assert!(local.local_textures().is_empty() && local.local_uvs().is_empty(), "{bad}");
    }
    // A coordinate the caller gave no bit pattern for is refused too.
    let map = j(r#"{"winter": {"values": [[0, [0.5, 0.25]]]}}"#);
    let r = local.localise_texture_map(&map, &[(j("0.5"), 0.5f64.to_bits())]);
    assert!(matches!(r, Err(CityParquetError::Schema(_))));
    assert!(local.local_textures().is_empty() && local.local_uvs().is_empty());
}

#[test]
fn uv_coordinates_lists_every_pair_u_before_v() {
    let textures = items(r#"[{"image": "a.png"}]"#);
    let local = LocalAppearance::new(&[], &textures);
    let map = j(r#"{"winter": {"values": [[0, [0.5, 0.25], [1, 2]]]}}"#);
    let coords = local.uv_coordinates(&map);
    assert_eq!(coords.len(), 4);
    for (c, want) in coords.iter().zip(["0.5", "0.25", "1", "2"]) {
        assert!(same(c, &j(want)));
    }
    assert!(local.uv_coordinates(&j(r#"{"winter": {"values": [[4, [0.5, 0.25]]]}}"#)).is_empty());
}

#[test]
fn into_appearance_carries_defaults_beside_the_slice() {
    let globals = items(r#"[{"name": "a"}]"#);
    let mut local = LocalAppearance::new(&globals, &[]);
    local.localise_material_map(&j(r#"{"visual": {"value": 0}}"#)).unwrap();
    let defaults = j(r#"{"default-theme-material": "visual", "default-theme-texture": 3}"#);
    let appearance = local.into_appearance(Some(&defaults)).unwrap();
    assert_eq!(appearance.materials.map(|m| m.len()), Some(1));
    assert_eq!(appearance.default_theme_material.as_deref(), Some("visual"));
    assert_eq!(appearance.default_theme_texture, None);
}

#[test]
fn slicing_the_interned_maps_gives_back_the_features_own_appearance() {
    // Two features share the dataset-global pools; the second is sliced back.
    let mut interner = AppearanceInterner::new();
    interner.rewrite_material_map(&j(r#"{"visual": {"value": 0}}"#), &items(r#"[{"name": "other"}]"#)).unwrap();
    let mats = items(r#"[{"name": "a"}, {"name": "b"}]"#);
    let texs = items(r#"[{"image": "x.png"}]"#);
    let uvs: Vec<Vec<JsonValue>> = vec![items("[0.5, 0.5]"), items("[1.0, 0.0]"), items("[0.0, 1.0]")];
    let mat_map = j(r#"{"visual": {"values": [1, null, 0]}}"#);
    let tex_map = j(r#"{"winter": {"values": [[[0, 0, 1, 2]], [[null]]]}}"#);
    let global_mat = interner.rewrite_material_map(&mat_map, &mats).unwrap();
    let global_tex = interner.rewrite_texture_map(&tex_map, &texs, &uvs).unwrap();
    assert!(same(&global_mat, &j(r#"{"visual": {"values": [1, null, 2]}}"#)));

    let gm: Vec<JsonValue> = interner.materials().iter().map(clone_json).collect();
    let gt: Vec<JsonValue> = interner.textures().iter().map(clone_json).collect();
    let mut local = LocalAppearance::new(&gm, &gt);
    let local_mat = local.localise_material_map(&global_mat).unwrap();
    let local_tex = localise_texture(&mut local, &global_tex).unwrap();
    // Each index resolves to the definition the feature's own index named.
    assert!(same(&local_mat, &j(r#"{"visual": {"values": [0, null, 1]}}"#)));
    assert!(same(&local.local_materials()[0], &mats[1]));
    assert!(same(&local.local_materials()[1], &mats[0]));
    assert!(same(&local_tex, &j(r#"{"winter": {"values": [[[0, 0, 1, 2]], [[null]]]}}"#)));
    assert!(same(&local.local_textures()[0], &texs[0]));
    let want: Vec<(u64, u64)> = [[0.5f64, 0.5], [1.0, 0.0], [0.0, 1.0]]
        .iter()
        .map(|p| (p[0].to_bits(), p[1].to_bits()))
        .collect();
    assert_eq!(local.local_uvs(), &want[..]);
}
