use cityparquet::encoding::{resolve_geometry_encoding, ColumnEntry, ColumnType, GeometryEncoding, SchemaField};
use cityparquet::error::CityParquetError;

const WKB_TOKEN: &str = "WKB";
const ARROW_NATIVE_V1_TOKEN: &str = "CityParquetArrowNative-v1";

fn field(name: &str, kind: ColumnType, text: &str) -> SchemaField {
    SchemaField { name: name.to_string(), kind, type_text: text.to_string() }
}

fn declaring(name: &str, token: &str, encoding: Option<GeometryEncoding>) -> Vec<ColumnEntry> {
    vec![ColumnEntry { name: name.to_string(), encoding, token: token.to_string() }]
}

fn wkb_schema() -> Vec<SchemaField> {
    vec![field("geometry_lod2_2", ColumnType::Binary, "Binary")]
}

fn arrow_native_schema() -> Vec<SchemaField> {
    vec![
        field("geometry_lod2_2", ColumnType::NativeGeometry, "List(List(List(UInt32)))"),
        field("geometry_vertices_lod2_2", ColumnType::NativeVertices, "List(Struct(x, y, z))"),
    ]
}

#[test]
fn a_declared_encoding_matching_its_columns_resolves() {
    for (token, encoding, schema, expected) in [
        (WKB_TOKEN, GeometryEncoding::Wkb, wkb_schema(), GeometryEncoding::Wkb),
        (ARROW_NATIVE_V1_TOKEN, GeometryEncoding::ArrowNative, arrow_native_schema(), GeometryEncoding::ArrowNative),
    ] {
        let meta = declaring("geometry_lod2_2", token, Some(encoding));
        let resolved =
            resolve_geometry_encoding(&meta, &schema, "geometry_lod2_2", "geometry_vertices_lod2_2").unwrap();
        assert_eq!(resolved, expected);
    }
}

#[test]
fn an_undeclared_list_column_that_is_not_todays_shape_is_refused() {
    let schema = vec![field("geometry_lod2_2", ColumnType::Other, "List(Int32)")];
    let err = resolve_geometry_encoding(&[], &schema, "geometry_lod2_2", "geometry_vertices_lod2_2")
        .expect_err("a list column of an unknown shape must not be assumed to be v1");
    assert!(err.to_string().contains("matches neither encoding"));
}

#[test]
fn a_declared_arrow_native_column_without_its_vertex_pool_is_refused() {
    let schema = vec![field("geometry_lod2_2", ColumnType::NativeGeometry, "List(List(List(UInt32)))")];
    let meta = declaring("geometry_lod2_2", ARROW_NATIVE_V1_TOKEN, Some(GeometryEncoding::ArrowNative));
    let err = resolve_geometry_encoding(&meta, &schema, "geometry_lod2_2", "geometry_vertices_lod2_2")
        .expect_err("a missing vertex-pool sibling must be an error");
    assert!(err.to_string().contains("vertex-pool sibling is absent"));
}

#[test]
fn undeclared_columns_fall_back_to_their_exact_physical_shape() {
    let wkb = resolve_geometry_encoding(&[], &wkb_schema(), "geometry_lod2_2", "geometry_vertices_lod2_2");
    assert_eq!(wkb.unwrap(), GeometryEncoding::Wkb);
    let native =
        resolve_geometry_encoding(&[], &arrow_native_schema(), "geometry_lod2_2", "geometry_vertices_lod2_2");
    assert_eq!(native.unwrap(), GeometryEncoding::ArrowNative);
}

#[test]
fn an_unknown_token_is_refused_even_over_a_recognisable_column() {
    let meta = declaring("geometry_lod2_2", "CityParquetArrowNative-v2", None);
    let err = resolve_geometry_encoding(&meta, &arrow_native_schema(), "geometry_lod2_2", "geometry_vertices_lod2_2")
        .unwrap_err();
    assert!(matches!(err, CityParquetError::Metadata(_)));
    assert!(err.to_string().contains("CityParquetArrowNative-v2"));
}

#[test]
fn a_declaration_contradicting_the_physical_column_is_refused() {
    let meta = declaring("geometry_lod2_2", WKB_TOKEN, Some(GeometryEncoding::Wkb));
    let err = resolve_geometry_encoding(&meta, &arrow_native_schema(), "geometry_lod2_2", "geometry_vertices_lod2_2")
        .unwrap_err();
    assert!(err.to_string().contains("not the Binary a WKB column must be"));
    let meta = declaring("geometry_lod2_2", ARROW_NATIVE_V1_TOKEN, Some(GeometryEncoding::ArrowNative));
    let err = resolve_geometry_encoding(&meta, &wkb_schema(), "geometry_lod2_2", "geometry_vertices_lod2_2")
        .unwrap_err();
    assert!(err.to_string().contains("arrow-native geometry type"));
}

#[test]
fn a_wrong_vertex_pool_type_or_a_missing_geometry_column_is_refused() {
    let schema = vec![
        field("geometry_lod2_2", ColumnType::NativeGeometry, "List(List(List(UInt32)))"),
        field("geometry_vertices_lod2_2", ColumnType::Other, "Binary"),
    ];
    let err = resolve_geometry_encoding(&[], &schema, "geometry_lod2_2", "geometry_vertices_lod2_2").unwrap_err();
    assert!(err.to_string().contains("vertex-pool column 'geometry_vertices_lod2_2'"));
    let err = resolve_geometry_encoding(&[], &wkb_schema(), "geometry_lod1", "geometry_vertices_lod1").unwrap_err();
    assert!(matches!(err, CityParquetError::Metadata(_)));
    assert!(err.to_string().contains("absent from its actual schema"));
}
