use cityparquet::boundaries::{
    partition_face_semantics, rebuild_semantics, reconstruct_boundaries, remap_face_list, remap_idx,
    remap_ring_list,
};
use cityparquet::error::CityParquetError;
use cityparquet::json::{clone_json, JsonNumber, JsonValue};
use cityparquet::pools::{vertex_map, OrderedGroups, RawVertexInterner, VertexInterner};
use cityparquet::shape::{DecodedKind, Face, GeometryType};
use cityparquet::shells::{dropped_in_shell, partition_shells, shell_faces_flat, shell_faces_nested};

fn s(x: &str) -> JsonValue {
    JsonValue::String(x.to_string())
}

fn n(v: u64) -> JsonValue {
    JsonValue::Number(JsonNumber::PosInt(v))
}

fn arr(items: Vec<JsonValue>) -> JsonValue {
    JsonValue::Array(items)
}

fn obj(fields: Vec<(&str, JsonValue)>) -> JsonValue {
    JsonValue::Object(fields.into_iter().map(|(k, v)| (k.to_string(), v)).collect())
}

fn ints(v: &[u64]) -> JsonValue {
    arr(v.iter().map(|x| n(*x)).collect())
}

fn triangle_faces(count: usize) -> Vec<Face> {
    (0..count).map(|i| vec![vec![3 * i, 3 * i + 1, 3 * i + 2]]).collect()
}

fn tri_member() -> DecodedKind {
    DecodedKind::PolyhedralSurface(vec![vec![vec![0, 1, 2]]])
}

#[test]
fn partition_shells_rejects_a_count_face_mismatch() {
    let err = partition_shells(triangle_faces(4), Some(&[2, 1])).unwrap_err();
    assert!(matches!(err, CityParquetError::Schema(_)), "expected Schema error, got {err:?}");
    let msg = err.to_string();
    assert!(msg.contains('3') && msg.contains('4'), "error must name the mismatched counts, got: {msg}");
    let shells = partition_shells(triangle_faces(3), Some(&[2, 1])).unwrap();
    assert_eq!(shells.len(), 2);
    assert_eq!((shells[0].len(), shells[1].len()), (2, 1));
}

#[test]
fn multisolid_with_too_few_nested_counts_is_an_error_not_a_panic() {
    let kind = DecodedKind::GeometryCollection(vec![tri_member(), tri_member()]);
    let props = obj(vec![("type", s("MultiSolid")), ("shells", arr(vec![ints(&[1])]))]);
    let err = reconstruct_boundaries(&kind, GeometryType::MultiSolid, Some(&props), &[0, 1, 2]).unwrap_err();
    assert!(matches!(err, CityParquetError::Schema(_)), "expected Schema error, got {err:?}");
}

#[test]
fn geometry_instance_type_in_properties_is_an_error_not_a_panic() {
    let err = reconstruct_boundaries(&DecodedKind::MultiPoint(vec![0]), GeometryType::GeometryInstance, None, &[0])
        .unwrap_err();
    assert!(matches!(err, CityParquetError::Schema(_)), "expected Schema error, got {err:?}");
}

#[test]
fn multisolid_reconstruction_nests_solids_and_shells() {
    // Two solids: the first with two single-face shells, the second with one.
    let kind = DecodedKind::GeometryCollection(vec![
        DecodedKind::PolyhedralSurface(vec![vec![vec![0, 1, 2, 3]], vec![vec![0, 1, 4]]]),
        DecodedKind::PolyhedralSurface(vec![vec![vec![1, 2, 4]]]),
    ]);
    let props = obj(vec![("type", s("MultiSolid")), ("shells", arr(vec![ints(&[1, 1]), ints(&[1])]))]);
    let vmap = [10, 11, 12, 13, 14];
    let rebuilt = reconstruct_boundaries(&kind, GeometryType::MultiSolid, Some(&props), &vmap).unwrap();
    let expected = arr(vec![
        arr(vec![arr(vec![arr(vec![ints(&[10, 11, 12, 13])])]), arr(vec![arr(vec![ints(&[10, 11, 14])])])]),
        arr(vec![arr(vec![arr(vec![ints(&[11, 12, 14])])])]),
    ]);
    assert_eq!(format!("{rebuilt:?}"), format!("{expected:?}"));
}

#[test]
fn solid_without_shells_is_one_shell() {
    let kind = DecodedKind::PolyhedralSurface(triangle_faces(2));
    let rebuilt = reconstruct_boundaries(&kind, GeometryType::Solid, None, &[5, 4, 3, 2, 1, 0]).unwrap();
    let expected = arr(vec![arr(vec![arr(vec![ints(&[5, 4, 3])]), arr(vec![ints(&[2, 1, 0])])])]);
    assert_eq!(format!("{rebuilt:?}"), format!("{expected:?}"));
}

#[test]
fn mismatched_type_and_shape_is_an_error() {
    let kind = DecodedKind::MultiPoint(vec![0]);
    assert!(reconstruct_boundaries(&kind, GeometryType::Solid, None, &[0]).is_err());
    let props = obj(vec![("shells", s("nope"))]);
    let solid = DecodedKind::PolyhedralSurface(triangle_faces(1));
    assert!(reconstruct_boundaries(&solid, GeometryType::Solid, Some(&props), &[0, 1, 2]).is_err());
}

#[test]
fn points_lines_and_surfaces_are_remapped_flat() {
    let vmap = [7, 8, 9];
    let pts = reconstruct_boundaries(&DecodedKind::MultiPoint(vec![2, 0]), GeometryType::MultiPoint, None, &vmap).unwrap();
    assert_eq!(format!("{pts:?}"), format!("{:?}", ints(&[9, 7])));
    let lines = DecodedKind::MultiLineString(vec![vec![0, 1], vec![1, 2]]);
    let l = reconstruct_boundaries(&lines, GeometryType::MultiLineString, None, &vmap).unwrap();
    assert_eq!(format!("{l:?}"), format!("{:?}", arr(vec![ints(&[7, 8]), ints(&[8, 9])])));
    let surf = DecodedKind::MultiPolygon(vec![vec![vec![0, 1, 2]]]);
    let m = reconstruct_boundaries(&surf, GeometryType::CompositeSurface, None, &vmap).unwrap();
    assert_eq!(format!("{m:?}"), format!("{:?}", arr(vec![arr(vec![ints(&[7, 8, 9])])])));
}

#[test]
fn remapping_maps_every_index() {
    assert_eq!(remap_idx(&[2, 0, 1], &[5, 6, 7]), vec![7, 5, 6]);
    assert_eq!(remap_ring_list(&[vec![0], vec![1, 1]], &[3, 4]), vec![vec![3], vec![4, 4]]);
    assert_eq!(remap_face_list(&[vec![vec![1, 0]]], &[3, 4]), vec![vec![vec![4, 3]]]);
}

#[test]
fn shell_counts_are_read_from_properties() {
    let props = obj(vec![("shells", ints(&[2, 1]))]);
    assert_eq!(shell_faces_flat(Some(&props)).unwrap(), Some(vec![2, 1]));
    assert_eq!(shell_faces_flat(None).unwrap(), None);
    assert!(shell_faces_flat(Some(&obj(vec![("shells", arr(vec![s("x")]))]))).is_err());
    let nested = obj(vec![("shells", arr(vec![ints(&[1, 1]), ints(&[3])]))]);
    assert_eq!(shell_faces_nested(Some(&nested)).unwrap(), Some(vec![vec![1, 1], vec![3]]));
    assert!(shell_faces_nested(Some(&props)).is_err());
}

#[test]
fn partition_face_semantics_splits_in_order() {
    let fs = vec![n(0), JsonValue::Null, n(1)];
    let out = partition_face_semantics(&fs, &[2, 1]).unwrap();
    assert_eq!(format!("{out:?}"), format!("{:?}", vec![arr(vec![n(0), JsonValue::Null]), arr(vec![n(1)])]));
    assert!(partition_face_semantics(&fs, &[2, 2]).is_err());
    assert!(partition_face_semantics(&fs, &[usize::MAX, 4]).is_err());
}

fn sem_props(extra: Vec<(&str, JsonValue)>) -> JsonValue {
    let mut fields = vec![
        ("surfaces", arr(vec![obj(vec![("type", s("WallSurface"))])])),
        ("face_semantics", arr(vec![n(0), JsonValue::Null, n(0)])),
    ];
    fields.extend(extra);
    obj(fields)
}

#[test]
fn rebuild_semantics_nests_values_per_geometry_type() {
    let surfaces = arr(vec![obj(vec![("type", s("WallSurface"))])]);
    let flat = rebuild_semantics(Some(&sem_props(vec![])), GeometryType::MultiSurface).unwrap().unwrap();
    let expected_flat = obj(vec![("surfaces", clone_json(&surfaces)), ("values", arr(vec![n(0), JsonValue::Null, n(0)]))]);
    assert_eq!(format!("{flat:?}"), format!("{expected_flat:?}"));

    let solid = rebuild_semantics(Some(&sem_props(vec![("shells", ints(&[1, 2]))])), GeometryType::Solid)
        .unwrap()
        .unwrap();
    let expected_solid = obj(vec![
        ("surfaces", clone_json(&surfaces)),
        ("values", arr(vec![arr(vec![n(0)]), arr(vec![JsonValue::Null, n(0)])])),
    ]);
    assert_eq!(format!("{solid:?}"), format!("{expected_solid:?}"));

    let one_shell = rebuild_semantics(Some(&sem_props(vec![])), GeometryType::Solid).unwrap().unwrap();
    let expected_one = obj(vec![
        ("surfaces", clone_json(&surfaces)),
        ("values", arr(vec![arr(vec![n(0), JsonValue::Null, n(0)])])),
    ]);
    assert_eq!(format!("{one_shell:?}"), format!("{expected_one:?}"));

    let multi = rebuild_semantics(
        Some(&sem_props(vec![("shells", arr(vec![ints(&[1]), ints(&[1, 1])]))])),
        GeometryType::MultiSolid,
    )
    .unwrap()
    .unwrap();
    let expected_multi = obj(vec![
        ("surfaces", clone_json(&surfaces)),
        (
            "values",
            arr(vec![arr(vec![arr(vec![n(0)])]), arr(vec![arr(vec![JsonValue::Null]), arr(vec![n(0)])])]),
        ),
    ]);
    assert_eq!(format!("{multi:?}"), format!("{expected_multi:?}"));
}

#[test]
fn rebuild_semantics_errors_and_absences() {
    assert!(rebuild_semantics(None, GeometryType::Solid).unwrap().is_none());
    let no_surfaces = obj(vec![("face_semantics", arr(vec![n(0)]))]);
    assert!(rebuild_semantics(Some(&no_surfaces), GeometryType::Solid).unwrap().is_none());
    assert!(rebuild_semantics(Some(&sem_props(vec![])), GeometryType::GeometryInstance).unwrap().is_none());
    // A MultiSolid needs its shells.
    assert!(rebuild_semantics(Some(&sem_props(vec![])), GeometryType::MultiSolid).is_err());
    // Shells that under- or over-count the faces.
    let under = sem_props(vec![("shells", arr(vec![ints(&[1]), ints(&[1])]))]);
    assert!(rebuild_semantics(Some(&under), GeometryType::CompositeSolid).is_err());
    let over = sem_props(vec![("shells", arr(vec![ints(&[2]), ints(&[2])]))]);
    assert!(rebuild_semantics(Some(&over), GeometryType::MultiSolid).is_err());
    let solid_over = sem_props(vec![("shells", ints(&[4]))]);
    assert!(rebuild_semantics(Some(&solid_over), GeometryType::Solid).is_err());
}

#[test]
fn dropped_faces_are_counted_per_shell() {
    let dropped = [0, 3, 4, 9];
    let mut pos = 0;
    assert_eq!(dropped_in_shell(&dropped, &mut pos, 3), 1);
    assert_eq!(pos, 3);
    assert_eq!(dropped_in_shell(&dropped, &mut pos, 2), 2);
    assert_eq!(dropped_in_shell(&dropped, &mut pos, 4), 0);
    assert_eq!(pos, 9);
}

#[test]
fn vertex_interner_dedups_and_keeps_first_appearance_order() {
    let mut pool = VertexInterner::new();
    let coords = [[0, 0, 0], [1000, 0, 0], [0, 0, 0], [1000, 1000, 0], [1000, 0, 0]];
    let vmap = vertex_map(&coords, &mut pool);
    assert_eq!(vmap, vec![0, 1, 0, 2, 1]);
    assert_eq!(pool.intern([1000, 1000, 0]), 2);
    assert_eq!(pool.intern([-1, -1, -1]), 3);
    assert_eq!(
        pool.finish(),
        vec![vec![0, 0, 0], vec![1000, 0, 0], vec![1000, 1000, 0], vec![-1, -1, -1]]
    );
}

#[test]
fn ordered_groups_keep_first_appearance_order() {
    let mut g: OrderedGroups<u32> = OrderedGroups::new();
    g.push("b".to_string(), 1);
    g.push("a".to_string(), 2);
    g.push("b".to_string(), 3);
    g.push("c".to_string(), 4);
    g.push("a".to_string(), 5);
    let out = g.into_ordered();
    assert_eq!(
        out,
        vec![
            ("b".to_string(), vec![1, 3]),
            ("a".to_string(), vec![2, 5]),
            ("c".to_string(), vec![4]),
        ]
    );
}

#[test]
fn raw_template_vertices_are_interned_by_bit_pattern() {
    let key = |c: [f64; 3]| (c[0].to_bits(), c[1].to_bits(), c[2].to_bits());
    let mut pool = RawVertexInterner::new();
    assert_eq!(pool.intern(key([0.5, 1.0, 2.0])), 0);
    assert_eq!(pool.intern(key([0.0, 0.0, 0.0])), 1);
    assert_eq!(pool.intern(key([0.5, 1.0, 2.0])), 0);
    // 0.0 and -0.0 differ bitwise, so they are distinct template vertices.
    assert_eq!(pool.intern(key([-0.0, 0.0, 0.0])), 2);
    let out: Vec<[f64; 3]> = pool
        .finish()
        .into_iter()
        .map(|(x, y, z)| [f64::from_bits(x), f64::from_bits(y), f64::from_bits(z)])
        .collect();
    assert_eq!(out, vec![[0.5, 1.0, 2.0], [0.0, 0.0, 0.0], [-0.0, 0.0, 0.0]]);
}
