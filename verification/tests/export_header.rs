use std::path::Path;

use cityparquet::error::CityParquetError;
use cityparquet::export::{
    format_for_extension, has_appearance_for_lod, is_localised_texture_ring, output_format,
    reference_system, OutputFormat,
};
use cityparquet::json::{JsonNumber, JsonValue};

fn to_json(v: &serde_json::Value) -> JsonValue {
    match v {
        serde_json::Value::Null => JsonValue::Null,
        serde_json::Value::Bool(b) => JsonValue::Bool(*b),
        serde_json::Value::Number(n) => JsonValue::Number(if let Some(u) = n.as_u64() {
            JsonNumber::PosInt(u)
        } else if let Some(i) = n.as_i64() {
            JsonNumber::NegInt(i)
        } else {
            JsonNumber::Float(n.to_string())
        }),
        serde_json::Value::String(s) => JsonValue::String(s.clone()),
        serde_json::Value::Array(items) => JsonValue::Array(items.iter().map(to_json).collect()),
        serde_json::Value::Object(m) => {
            JsonValue::Object(m.iter().map(|(k, v)| (k.clone(), to_json(v))).collect())
        }
    }
}

fn j(text: &str) -> JsonValue {
    to_json(&serde_json::from_str::<serde_json::Value>(text).unwrap())
}

#[test]
fn reference_system_rebuilds_the_ogc_crs84_url() {
    // A package whose CRS is OGC:CRS84 (a lon/lat dataset) must still export a
    // referenceSystem, not silently drop it.
    let crs = j(r#"{
        "type": "GeographicCRS",
        "name": "WGS 84 (CRS84)",
        "id": { "authority": "OGC", "code": "CRS84" }
    }"#);
    let rs = reference_system(Some(&crs))
        .expect("resolution must not error")
        .expect("OGC:CRS84 must yield a referenceSystem");
    assert_eq!(rs.to_url(), "https://www.opengis.net/def/crs/OGC/1.3/CRS84");
}

#[test]
fn reference_system_from_an_epsg_projjson_id() {
    let crs = j(r#"{"id": {"authority": "EPSG", "code": 7415}}"#);
    let rs = reference_system(Some(&crs)).unwrap().unwrap();
    assert_eq!(rs.to_url(), "https://www.opengis.net/def/crs/EPSG/0/7415");
    let crs = j(r#"{"id": {"authority": "EPSG", "code": "28992"}}"#);
    let rs = reference_system(Some(&crs)).unwrap().unwrap();
    assert_eq!(rs.to_url(), "https://www.opengis.net/def/crs/EPSG/0/28992");
}

#[test]
fn reference_system_crs84h_and_others() {
    let crs = j(r#"{"id": {"authority": "OGC", "code": "CRS84h"}}"#);
    let rs = reference_system(Some(&crs)).unwrap().unwrap();
    assert_eq!(rs.to_url(), "https://www.opengis.net/def/crs/OGC/0/CRS84h");
    // Another authority, a missing id, and no CRS at all yield nothing.
    let crs = j(r#"{"id": {"authority": "IGNF", "code": "LAMB93"}}"#);
    assert!(reference_system(Some(&crs)).unwrap().is_none());
    let crs = j(r#"{"name": "unknown"}"#);
    assert!(reference_system(Some(&crs)).unwrap().is_none());
    assert!(reference_system(None).unwrap().is_none());
}

#[test]
fn reference_system_legacy_url_string() {
    let crs = j(r#""https://www.opengis.net/def/crs/EPSG/0/7415""#);
    let rs = reference_system(Some(&crs)).unwrap().unwrap();
    assert_eq!(rs.base_url, "https://www.opengis.net/def/crs");
    assert_eq!((rs.authority.as_str(), rs.version.as_str(), rs.code.as_str()), ("EPSG", "0", "7415"));
    let bad = j(r#""EPSG:7415""#);
    assert!(matches!(reference_system(Some(&bad)), Err(CityParquetError::Schema(_))));
    let too_short = j(r#""https://www.opengis.net/def/crs/EPSG/7415""#);
    assert!(matches!(reference_system(Some(&too_short)), Err(CityParquetError::Schema(_))));
}

#[test]
fn output_format_by_extension() {
    assert_eq!(output_format(Path::new("out/city.city.jsonl")).unwrap(), OutputFormat::Sequence);
    assert_eq!(output_format(Path::new("out/city.city.json")).unwrap(), OutputFormat::Document);
    assert!(matches!(output_format(Path::new("out/city.gml")), Err(CityParquetError::Schema(_))));
    assert!(matches!(output_format(Path::new("out/city")), Err(CityParquetError::Schema(_))));
    assert!(format_for_extension(None).is_err());
    assert_eq!(format_for_extension(Some("jsonl")).unwrap(), OutputFormat::Sequence);
}

#[test]
fn appearance_entry_lookup_and_ring_shape() {
    let map = j(r#"{"2": {"visual": {"values": [0]}}}"#);
    assert!(has_appearance_for_lod(Some(&map), "2"));
    assert!(!has_appearance_for_lod(Some(&map), "1"));
    assert!(!has_appearance_for_lod(None, "2"));
    let ring = match j("[3, [0.5, 0.5], [1.0, 0.0]]") {
        JsonValue::Array(xs) => xs,
        _ => unreachable!(),
    };
    assert!(is_localised_texture_ring(&ring));
    assert!(!is_localised_texture_ring(&Vec::new()));
    let not_ring = match j("[[3, 0]]") {
        JsonValue::Array(xs) => xs,
        _ => unreachable!(),
    };
    assert!(!is_localised_texture_ring(&not_ring));
}

#[test]
fn unknown_output_extension_names_the_expected_ones() {
    let e = format_for_extension(Some("txt")).unwrap_err();
    assert_eq!(
        e.message(),
        "unsupported export output extension: expected .city.jsonl or .city.json"
    );
}
