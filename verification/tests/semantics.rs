use std::collections::HashSet;

use cityparquet::json::{JsonNumber, JsonValue};
use cityparquet::semantics::{
    composite_face_surfaces, multisurface_face_surfaces, parse_semantics, solid_face_surfaces,
    surfaces_emittable, IdAlloc, Semantics,
};
use cityparquet::shape::Face;

fn s(x: &str) -> JsonValue {
    JsonValue::String(x.to_string())
}

fn n(v: u64) -> JsonValue {
    JsonValue::Number(JsonNumber::PosInt(v))
}

fn arr(items: Vec<JsonValue>) -> JsonValue {
    JsonValue::Array(items)
}

fn obj(fields: Vec<(&str, JsonValue)>) -> JsonValue {
    JsonValue::Object(fields.into_iter().map(|(k, v)| (k.to_string(), v)).collect())
}

fn f() -> Face {
    vec![vec![0, 1, 2]]
}

#[test]
fn parse_extracts_surfaces_and_values() {
    let props = obj(vec![
        ("type", s("Solid")),
        (
            "semantics",
            obj(vec![
                (
                    "surfaces",
                    arr(vec![obj(vec![("type", s("WallSurface"))]), obj(vec![("type", s("RoofSurface"))])]),
                ),
                ("values", arr(vec![arr(vec![n(0), n(1)])])),
            ]),
        ),
    ]);
    let sem = parse_semantics(Some(&props)).unwrap();
    assert_eq!(sem.surfaces, vec!["WallSurface", "RoofSurface"]);
    assert!(surfaces_emittable(&sem));
}

#[test]
fn parse_none_when_absent() {
    assert!(parse_semantics(Some(&obj(vec![("type", s("Solid"))]))).is_none());
    assert!(parse_semantics(None).is_none());
}

#[test]
fn extension_type_is_not_emittable() {
    let sem = Semantics {
        surfaces: vec!["+Custom".into()],
        values: arr(vec![arr(vec![n(0)])]),
    };
    assert!(!surfaces_emittable(&sem));
}

#[test]
fn solid_values_map_faces_to_surfaces_with_null() {
    let shells = vec![vec![f(), f()], vec![f()]];
    let values = arr(vec![arr(vec![n(0), JsonValue::Null]), arr(vec![n(1)])]);
    let out = solid_face_surfaces(&values, &shells, 2).unwrap();
    assert_eq!(out, vec![Some(0), None, Some(1)]);
}

#[test]
fn solid_nesting_mismatch_errors() {
    let shells = vec![vec![f(), f()]];
    assert!(solid_face_surfaces(&arr(vec![arr(vec![n(0)])]), &shells, 2).is_err());
}

#[test]
fn solid_index_out_of_range_errors() {
    let shells = vec![vec![f()]];
    assert!(solid_face_surfaces(&arr(vec![arr(vec![n(5)])]), &shells, 2).is_err());
}

#[test]
fn composite_values_per_member() {
    let m = vec![vec![f()]];
    let members = vec![m.clone(), m];
    let values = arr(vec![
        arr(vec![arr(vec![n(0)])]),
        arr(vec![arr(vec![JsonValue::Null])]),
    ]);
    let out = composite_face_surfaces(&values, &members, 1).unwrap();
    assert_eq!(out, vec![vec![Some(0)], vec![None]]);
}

#[test]
fn multisurface_flat_values() {
    let out = multisurface_face_surfaces(&arr(vec![n(0), n(1), n(0)]), 3, 2).unwrap();
    assert_eq!(out, vec![Some(0), Some(1), Some(0)]);
}

#[test]
fn multisurface_length_mismatch_errors() {
    assert!(multisurface_face_surfaces(&arr(vec![n(0), n(1)]), 3, 2).is_err());
}

#[test]
fn id_alloc_is_unique_and_avoids_seen() {
    let mut seen = HashSet::from(["_cpq_p0".to_string()]);
    let mut a = IdAlloc::new(&mut seen);
    assert_eq!(a.next_id(), "_cpq_p1");
    assert_eq!(a.next_id(), "_cpq_p2");
    assert!(seen.contains("_cpq_p1") && seen.contains("_cpq_p2"));
}

#[test]
fn id_alloc_skips_every_taken_id() {
    let mut seen = HashSet::from(["_cpq_p0".to_string(), "_cpq_p1".to_string(), "_cpq_p3".to_string()]);
    let mut a = IdAlloc::new(&mut seen);
    assert_eq!(a.next_id(), "_cpq_p2");
    assert_eq!(a.next_id(), "_cpq_p4");
    assert_eq!(seen.len(), 5);
}

#[test]
fn negative_or_fractional_value_is_an_error() {
    let shells = vec![vec![f()]];
    let neg = arr(vec![arr(vec![JsonValue::Number(JsonNumber::NegInt(-1))])]);
    assert!(solid_face_surfaces(&neg, &shells, 2).is_err());
    let frac = arr(vec![JsonValue::Number(JsonNumber::Float("0.5".into()))]);
    assert!(multisurface_face_surfaces(&frac, 1, 2).is_err());
}
