use cityparquet::appearance::{material_face_maps, material_union, resolve_materials, AppearanceAcc};
use cityparquet::error::CityParquetError;
use cityparquet::json::{JsonNumber, JsonValue};
use cityparquet::report::WriteReport;
use cityparquet::shape::DecodedKind;

fn n(v: u64) -> JsonValue {
    JsonValue::Number(JsonNumber::PosInt(v))
}

fn arr(items: Vec<JsonValue>) -> JsonValue {
    JsonValue::Array(items)
}

fn obj(fields: Vec<(&str, JsonValue)>) -> JsonValue {
    JsonValue::Object(fields.into_iter().map(|(k, v)| (k.to_string(), v)).collect())
}

fn three_faces() -> DecodedKind {
    DecodedKind::PolyhedralSurface(vec![vec![vec![0usize, 1, 2]], vec![vec![0, 2, 3]], vec![vec![1, 2, 3]]])
}

fn table(len: usize) -> Vec<JsonValue> {
    (0..len).map(|i| obj(vec![("name", n(i as u64))])).collect()
}

#[test]
fn material_maps_flatten_values_and_broadcast_value() {
    let map = obj(vec![
        ("visual", obj(vec![("values", arr(vec![arr(vec![n(1), JsonValue::Null, n(0)])]))])),
        ("winter", obj(vec![("value", n(2))])),
    ]);
    let maps = material_face_maps(&map, 3, 3).unwrap();
    assert_eq!(maps[0], ("visual".to_string(), vec![Some(1), None, Some(0)]));
    assert_eq!(maps[1], ("winter".to_string(), vec![Some(2), Some(2), Some(2)]));
    assert_eq!(material_union(&maps, 3), vec![true, true, true]);
    let only_visual = vec![maps[0].clone()];
    assert_eq!(material_union(&only_visual, 3), vec![true, false, true]);
}

#[test]
fn an_out_of_range_material_id_is_a_geometry_error() {
    let map = obj(vec![("visual", obj(vec![("values", arr(vec![n(0), n(5), n(0)]))]))]);
    assert!(matches!(material_face_maps(&map, 3, 3), Err(CityParquetError::Geometry(_))));
}

#[test]
fn resolve_materials_reports_each_fallback() {
    let kind = three_faces();
    let map = obj(vec![("visual", obj(vec![("values", arr(vec![n(0), JsonValue::Null, n(1)]))]))]);
    let defs = table(2);

    let mut report = WriteReport::default();
    let (maps, union) = resolve_materials(None, Some(&defs), &kind, &mut report);
    assert!(maps.is_empty() && union.is_empty());
    assert_eq!(report, WriteReport::default());

    let (maps, union) = resolve_materials(Some(&map), None, &kind, &mut report);
    assert!(maps.is_empty() && union.is_empty());
    assert_eq!(report.appearance_skipped_core_profile, 1);

    let (maps, union) = resolve_materials(Some(&map), Some(&defs[..1]), &kind, &mut report);
    assert!(maps.is_empty() && union.is_empty());
    assert_eq!(report.material_geometries_dropped, 1);

    let (maps, union) = resolve_materials(Some(&map), Some(&defs), &kind, &mut report);
    assert_eq!(maps, vec![("visual".to_string(), vec![Some(0), None, Some(1)])]);
    assert_eq!(union, vec![true, false, true]);
    assert_eq!(report.appearance_skipped_core_profile, 1);
    assert_eq!(report.material_geometries_dropped, 1);
}

#[test]
fn the_accumulator_orders_themes_and_ids_and_keeps_face_order() {
    let mut acc = AppearanceAcc::new();
    assert!(acc.is_empty());
    let maps = vec![
        ("winter".to_string(), vec![Some(3), Some(1), None]),
        ("summer".to_string(), vec![Some(1), None, Some(1)]),
    ];
    let ids = vec![Some("f0".to_string()), Some("f1".to_string()), Some("f2".to_string())];
    acc.add(&maps, &ids);
    let themes = acc.themes();
    assert_eq!(themes[0].0, "summer");
    assert_eq!(themes[0].1, vec![(1, vec!["f0".to_string(), "f2".to_string()])]);
    assert_eq!(themes[1].0, "winter");
    assert_eq!(themes[1].1, vec![(1, vec!["f1".to_string()]), (3, vec!["f0".to_string()])]);
    assert!(!acc.is_empty());
}

#[test]
fn a_face_without_an_id_records_nothing() {
    let mut acc = AppearanceAcc::new();
    assert!(acc.is_empty());
    let maps = vec![("visual".to_string(), vec![Some(0)])];
    acc.add(&maps, &[None]);
    assert!(acc.is_empty());
    acc.add(&maps, &[Some("p0".to_string())]);
    assert!(!acc.is_empty());
}
