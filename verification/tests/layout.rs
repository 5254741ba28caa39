use std::collections::HashSet;

use cityparquet::error::CityParquetError;
use cityparquet::json::{JsonNumber, JsonValue};
use cityparquet::layout::{
    boundedby_groups, plan_multisurface_semantics, plan_solid_semantics, solid_layout,
};
use cityparquet::report::WriteReport;
use cityparquet::semantics::{IdAlloc, Semantics};
use cityparquet::shape::DecodedKind;

fn to_json(v: &serde_json::Value) -> JsonValue {
    match v {
        serde_json::Value::Null => JsonValue::Null,
        serde_json::Value::Bool(b) => JsonValue::Bool(*b),
        serde_json::Value::Number(n) => JsonValue::Number(if let Some(u) = n.as_u64() {
            JsonNumber::PosInt(u)
        } else if let Some(i) = n.as_i64() {
            JsonNumber::NegInt(i)
        } else {
            JsonNumber::Float(n.to_string())
        }),
        serde_json::Value::String(s) => JsonValue::String(s.clone()),
        serde_json::Value::Array(items) => JsonValue::Array(items.iter().map(to_json).collect()),
        serde_json::Value::Object(m) => {
            JsonValue::Object(m.iter().map(|(k, v)| (k.clone(), to_json(v))).collect())
        }
    }
}

fn j(text: &str) -> JsonValue {
    to_json(&serde_json::from_str::<serde_json::Value>(text).unwrap())
}

fn sem(surfaces: &[&str], values: &str) -> Semantics {
    Semantics { surfaces: surfaces.iter().map(|s| s.to_string()).collect(), values: j(values) }
}

fn three_faces() -> DecodedKind {
    DecodedKind::PolyhedralSurface(vec![vec![vec![0, 1, 2]], vec![vec![3, 4, 5]], vec![vec![6, 7, 8]]])
}

#[test]
fn solid_plan_gives_ids_to_semantic_faces_only() {
    // 1 shell, 3 faces; values [[0, null, 1]]; surfaces [Wall, Roof].
    let mut seen = HashSet::new();
    let mut ids = IdAlloc::new(&mut seen);
    let s = sem(&["WallSurface", "RoofSurface"], "[[0, null, 1]]");
    let plan = plan_solid_semantics(&three_faces(), Some(&j(r#"{"type": "Solid"}"#)), &s, &mut ids).unwrap();
    assert!(!plan.composite);
    assert_eq!(plan.members.len(), 1);
    assert_eq!(plan.members[0].len(), 1);
    assert_eq!(plan.members[0][0].len(), 3);
    assert_eq!(plan.surfaces, vec![vec![Some(0), None, Some(1)]]);
    assert_eq!(
        plan.face_ids,
        vec![vec![Some("_cpq_p0".to_string()), None, Some("_cpq_p1".to_string())]]
    );
    let groups = boundedby_groups(&plan.surfaces, 2);
    assert_eq!(groups, vec![vec![(0, 0)], vec![(0, 2)]]);
    drop(ids);
    assert!(seen.contains("_cpq_p0") && seen.contains("_cpq_p1"));
    assert_eq!(seen.len(), 2);
}

#[test]
fn solid_plan_splits_shells_by_counts() {
    let mut seen = HashSet::new();
    let mut ids = IdAlloc::new(&mut seen);
    let s = sem(&["WallSurface"], "[[0, 0], [null]]");
    let plan = plan_solid_semantics(&three_faces(), Some(&j(r#"{"shells": [2, 1]}"#)), &s, &mut ids).unwrap();
    assert_eq!(plan.members[0].len(), 2);
    assert_eq!((plan.members[0][0].len(), plan.members[0][1].len()), (2, 1));
    assert_eq!(plan.surfaces, vec![vec![Some(0), Some(0), None]]);
    assert_eq!(boundedby_groups(&plan.surfaces, 1), vec![vec![(0, 0), (0, 1)]]);
}

#[test]
fn zero_face_surface_has_an_empty_group() {
    let mut seen = HashSet::new();
    let mut ids = IdAlloc::new(&mut seen);
    let kind = DecodedKind::PolyhedralSurface(vec![vec![vec![0, 1, 2]]]);
    let s = sem(&["WallSurface", "RoofSurface"], "[[0]]");
    let plan = plan_solid_semantics(&kind, None, &s, &mut ids).unwrap();
    assert_eq!(boundedby_groups(&plan.surfaces, 2), vec![vec![(0, 0)], vec![]]);
}

#[test]
fn composite_plan_spans_members_and_skips_taken_ids() {
    let mut seen = HashSet::from(["_cpq_p0".to_string()]);
    let mut ids = IdAlloc::new(&mut seen);
    let kind = DecodedKind::GeometryCollection(vec![
        DecodedKind::PolyhedralSurface(vec![vec![vec![0, 1, 2]]]),
        DecodedKind::PolyhedralSurface(vec![vec![vec![3, 4, 5]]]),
    ]);
    let s = sem(&["WallSurface", "RoofSurface"], "[[[0]], [[1]]]");
    let plan = plan_solid_semantics(&kind, Some(&j(r#"{"type": "CompositeSolid"}"#)), &s, &mut ids).unwrap();
    assert!(plan.composite);
    assert_eq!(plan.members.len(), 2);
    assert_eq!(plan.surfaces, vec![vec![Some(0)], vec![Some(1)]]);
    assert_eq!(
        plan.face_ids,
        vec![vec![Some("_cpq_p1".to_string())], vec![Some("_cpq_p2".to_string())]]
    );
    assert_eq!(boundedby_groups(&plan.surfaces, 2), vec![vec![(0, 0)], vec![(1, 0)]]);
}

#[test]
fn refused_plans_allocate_nothing() {
    let mut seen = HashSet::new();
    let mut ids = IdAlloc::new(&mut seen);
    // Values that do not fit the shell: a Geometry error.
    let s = sem(&["WallSurface"], "[[0, 0]]");
    let r = plan_solid_semantics(&three_faces(), None, &s, &mut ids);
    assert!(matches!(r, Err(CityParquetError::Geometry(_))));
    // Counts that do not add up to the faces: a Schema error.
    let s = sem(&["WallSurface"], "[[0, 0, 0]]");
    let r = plan_solid_semantics(&three_faces(), Some(&j(r#"{"shells": [2]}"#)), &s, &mut ids);
    assert!(matches!(r, Err(CityParquetError::Schema(_))));
    // Not a solid at all.
    let r = plan_solid_semantics(&DecodedKind::MultiPoint(vec![0]), None, &s, &mut ids);
    assert!(matches!(r, Err(CityParquetError::Geometry(_))));
    drop(ids);
    assert!(seen.is_empty());
}

#[test]
fn composite_layout_errors() {
    let kind = DecodedKind::GeometryCollection(vec![
        DecodedKind::PolyhedralSurface(vec![vec![vec![0, 1, 2]]]),
        DecodedKind::MultiPoint(vec![0]),
    ]);
    let r = solid_layout(&kind, None, &j("[[[0]], [[0]]]"), 1);
    assert!(matches!(r, Err(CityParquetError::Geometry(_))));
    let kind = DecodedKind::GeometryCollection(vec![DecodedKind::PolyhedralSurface(vec![vec![vec![0, 1, 2]]])]);
    // Counts for two solids against a one-member collection.
    let r = solid_layout(&kind, Some(&j(r#"{"shells": [[1], [1]]}"#)), &j("[[[0]]]"), 1);
    assert!(matches!(r, Err(CityParquetError::Geometry(_))));
    // Malformed counts.
    let r = solid_layout(&kind, Some(&j(r#"{"shells": [1]}"#)), &j("[[[0]]]"), 1);
    assert!(matches!(r, Err(CityParquetError::Schema(_))));
}

#[test]
fn multisurface_plan_groups_faces_by_surface() {
    let mut report = WriteReport::default();
    let g = plan_multisurface_semantics(&j("[0, 0, 1]"), 3, 2, &mut report).unwrap();
    assert_eq!(g, vec![vec![0, 1], vec![2]]);
    assert_eq!(report.multisurface_null_faces_dropped, 0);
}

#[test]
fn multisurface_plan_drops_and_counts_null_faces() {
    let mut report = WriteReport::default();
    let g = plan_multisurface_semantics(&j("[0, null]"), 2, 1, &mut report).unwrap();
    assert_eq!(g, vec![vec![0]]);
    assert_eq!(report.multisurface_null_faces_dropped, 1);
}

#[test]
fn multisurface_plan_zero_face_surface_is_empty() {
    let mut report = WriteReport::default();
    let g = plan_multisurface_semantics(&j("[0]"), 1, 2, &mut report).unwrap();
    assert_eq!(g, vec![vec![0], vec![]]);
}

#[test]
fn multisurface_plan_length_mismatch_is_a_geometry_error() {
    let mut report = WriteReport::default();
    let r = plan_multisurface_semantics(&j("[0]"), 2, 1, &mut report);
    assert!(matches!(r, Err(CityParquetError::Geometry(_))));
    assert_eq!(report, WriteReport::default());
}
