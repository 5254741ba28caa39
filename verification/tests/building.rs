use std::collections::HashSet;

use cityparquet::building::{
    emittable_semantics, has_nonnull_value, lod_entry, plain_face_ids, route_geometry, select_lods,
    GeomRoute, Lod, LodEntry,
};
use cityparquet::json::{JsonNumber, JsonValue};
use cityparquet::semantics::IdAlloc;
use cityparquet::shape::DecodedKind;
use cityparquet::xml::is_ncname;

fn s(x: &str) -> JsonValue {
    JsonValue::String(x.to_string())
}

fn n(v: u64) -> JsonValue {
    JsonValue::Number(JsonNumber::PosInt(v))
}

fn arr(items: Vec<JsonValue>) -> JsonValue {
    JsonValue::Array(items)
}

fn obj(fields: Vec<(&str, JsonValue)>) -> JsonValue {
    JsonValue::Object(fields.into_iter().map(|(k, v)| (k.to_string(), v)).collect())
}

fn lod(major: u8, minor: u8) -> Lod {
    Lod { major, minor }
}

fn tri() -> DecodedKind {
    DecodedKind::PolyhedralSurface(vec![vec![vec![0usize, 1, 2]]])
}

fn geometry_collection() -> DecodedKind {
    DecodedKind::GeometryCollection(vec![tri()])
}

fn sem_props(values: JsonValue) -> JsonValue {
    obj(vec![
        ("type", s("Solid")),
        (
            "semantics",
            obj(vec![
                ("surfaces", arr(vec![obj(vec![("type", s("RoofSurface"))])])),
                ("values", values),
            ]),
        ),
    ])
}

#[test]
fn is_ncname_accepts_3dbag_ids_rejects_bad() {
    assert!(is_ncname("NL.IMBAG.Pand.0503100000013175-0"));
    assert!(is_ncname("_x"));
    assert!(!is_ncname("3leadingdigit"));
    assert!(!is_ncname("has:colon"));
    assert!(!is_ncname(""));
}

#[test]
fn multi_solid_is_routed_to_skip() {
    let props = obj(vec![("type", s("MultiSolid")), ("shells", arr(vec![arr(vec![n(1)])]))]);
    let route = route_geometry(Some(lod(2, 0)), &geometry_collection(), Some(&props));
    assert!(matches!(route, GeomRoute::MultiSolid));
}

#[test]
fn composite_solid_is_routed_to_emit() {
    let props = obj(vec![("type", s("CompositeSolid")), ("shells", arr(vec![arr(vec![n(1)])]))]);
    let route = route_geometry(Some(lod(2, 0)), &geometry_collection(), Some(&props));
    assert!(matches!(route, GeomRoute::Emit(..)));
}

#[test]
fn plain_solid_is_routed_to_emit() {
    let props = obj(vec![("type", s("Solid"))]);
    let route = route_geometry(Some(lod(2, 0)), &tri(), Some(&props));
    assert!(matches!(route, GeomRoute::Emit(..)));
}

#[test]
fn lodless_geometry_is_routed_to_skip() {
    let props = obj(vec![("type", s("Solid"))]);
    let route = route_geometry(None, &tri(), Some(&props));
    assert!(matches!(route, GeomRoute::Lodless));
}

#[test]
fn major_lod_collision_keeps_the_highest_minor_and_counts_the_rest() {
    let es = vec![
        LodEntry { lod: lod(2, 0), representable: true, semantic: false },
        LodEntry { lod: lod(2, 2), representable: true, semantic: false },
    ];
    let sel = select_lods(&es);
    assert_eq!(sel.kept, vec![(2, 1)]);
    assert_eq!(sel.skipped, 1);
    assert_eq!(sel.semantic_major, None);
}

#[test]
fn majors_are_kept_in_ascending_order() {
    let es = vec![
        LodEntry { lod: lod(2, 0), representable: true, semantic: false },
        LodEntry { lod: lod(1, 0), representable: true, semantic: false },
    ];
    let sel = select_lods(&es);
    assert_eq!(sel.kept, vec![(1, 1), (2, 0)]);
    assert_eq!(sel.skipped, 0);
}

#[test]
fn lod0_and_unrepresentable_columns_are_skipped() {
    let es = vec![
        LodEntry { lod: lod(0, 0), representable: true, semantic: false },
        LodEntry { lod: lod(3, 0), representable: false, semantic: false },
        LodEntry { lod: lod(5, 0), representable: true, semantic: false },
    ];
    let sel = select_lods(&es);
    assert!(sel.kept.is_empty());
    assert_eq!(sel.skipped, 3);
}

#[test]
fn only_the_highest_semantic_major_carries_semantics() {
    let es = vec![
        LodEntry { lod: lod(2, 0), representable: true, semantic: true },
        LodEntry { lod: lod(3, 0), representable: true, semantic: true },
        LodEntry { lod: lod(4, 0), representable: true, semantic: false },
    ];
    let sel = select_lods(&es);
    assert_eq!(sel.kept, vec![(2, 0), (3, 1), (4, 2)]);
    assert_eq!(sel.semantic_major, Some(3));
}

#[test]
fn equal_lods_keep_the_first() {
    let es = vec![
        LodEntry { lod: lod(2, 1), representable: true, semantic: false },
        LodEntry { lod: lod(2, 1), representable: true, semantic: true },
    ];
    let sel = select_lods(&es);
    assert_eq!(sel.kept, vec![(2, 0)]);
    assert_eq!(sel.semantic_major, None);
}

#[test]
fn emittable_semantics_needs_a_major_of_two_to_four_and_a_real_face() {
    let real = sem_props(arr(vec![arr(vec![n(0)])]));
    assert!(emittable_semantics(2, &tri(), Some(&real)).is_some());
    assert!(emittable_semantics(1, &tri(), Some(&real)).is_none());
    let stamped = sem_props(arr(vec![arr(vec![JsonValue::Null])]));
    assert!(emittable_semantics(2, &tri(), Some(&stamped)).is_none());
    let points = DecodedKind::MultiPoint(vec![0]);
    assert!(emittable_semantics(2, &points, Some(&real)).is_none());
}

#[test]
fn a_multisurface_is_representable_only_with_emittable_semantics() {
    let surface = DecodedKind::MultiPolygon(vec![vec![vec![0usize, 1, 2]]]);
    let real = sem_props(arr(vec![n(0)]));
    assert!(lod_entry(lod(2, 0), &surface, Some(&real)).representable);
    assert!(!lod_entry(lod(2, 0), &surface, None).representable);
    assert!(lod_entry(lod(2, 0), &tri(), None).representable);
}

#[test]
fn nonnull_leaf_search_walks_nested_arrays() {
    assert!(!has_nonnull_value(&arr(vec![arr(vec![JsonValue::Null]), arr(vec![])])));
    assert!(has_nonnull_value(&arr(vec![arr(vec![JsonValue::Null]), arr(vec![n(3)])])));
    assert!(!has_nonnull_value(&JsonValue::Null));
}

#[test]
fn plain_face_ids_stamp_only_faces_with_appearance() {
    let mut seen = HashSet::new();
    let mut ids = IdAlloc::new(&mut seen);
    let out = plain_face_ids(&[true, false], &[vec![false], vec![true, false]], &mut ids);
    assert_eq!(out.len(), 2);
    assert_eq!(out[0].poly.as_deref(), Some("_cpq_p0"));
    assert!(out[0].rings.iter().all(|r| r.is_none()));
    assert_eq!(out[1].poly.as_deref(), Some("_cpq_p1"));
    assert_eq!(out[1].rings[0].as_deref(), Some("_cpq_p1_r0"));
    assert_eq!(out[1].rings[1], None);
}
