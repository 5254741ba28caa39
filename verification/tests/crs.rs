use cityparquet::crs::{resolve, reference_system, srs_name_for, CrsResolution};
use cityparquet::json::{JsonNumber, JsonValue};

fn s(x: &str) -> JsonValue {
    JsonValue::String(x.to_string())
}

fn obj(fields: Vec<(&str, JsonValue)>) -> JsonValue {
    JsonValue::Object(fields.into_iter().map(|(k, v)| (k.to_string(), v)).collect())
}

#[test]
fn epsg_short_and_urn_and_url_forms() {
    assert_eq!(resolve("EPSG:25832").unwrap(), CrsResolution::Epsg("25832".into()));
    assert_eq!(
        resolve("urn:ogc:def:crs:EPSG::25833").unwrap(),
        CrsResolution::Epsg("25833".into())
    );
    assert_eq!(
        resolve("urn:ogc:def:crs:EPSG:8.9:28992").unwrap(),
        CrsResolution::Epsg("28992".into())
    );
    assert_eq!(
        resolve("https://www.opengis.net/def/crs/EPSG/0/7415").unwrap(),
        CrsResolution::Epsg("7415".into())
    );
}

#[test]
fn adv_urns_map_to_compound_or_horizontal_epsg() {
    assert_eq!(
        resolve("urn:adv:crs:ETRS89_UTM32*DE_DHHN92_NH").unwrap(),
        CrsResolution::Epsg("5555".into())
    );
    assert_eq!(
        resolve("urn:adv:crs:ETRS89_UTM33*DE_DHHN92_NH").unwrap(),
        CrsResolution::Epsg("5556".into())
    );
    assert_eq!(
        resolve("urn:adv:crs:ETRS89_UTM32").unwrap(),
        CrsResolution::Epsg("25832".into())
    );
}

#[test]
fn geographic_crs_is_rejected() {
    assert!(resolve("EPSG:4326").is_err());
    assert!(resolve("urn:ogc:def:crs:EPSG::4979").is_err());
    assert!(resolve("EPSG:4267").is_err());
    assert!(resolve("urn:ogc:def:crs:OGC:1.3:CRS84").is_err());
}

#[test]
fn unknown_names_are_unresolved_not_errors() {
    assert_eq!(resolve("urn:adv:crs:GK_3").unwrap(), CrsResolution::Unresolved);
    assert_eq!(
        resolve("urn:adv:crs:ETRS89_UTM32*SOMETHING_ELSE").unwrap(),
        CrsResolution::Unresolved
    );
    assert_eq!(resolve("some-local-engineering-crs").unwrap(), CrsResolution::Unresolved);
    assert_eq!(resolve("not-EPSG:25832").unwrap(), CrsResolution::Unresolved);
}

#[test]
fn reference_system_builds_opengis_epsg_url() {
    assert_eq!(
        reference_system("5555").to_url(),
        "https://www.opengis.net/def/crs/EPSG/0/5555"
    );
}

#[test]
fn srs_name_from_epsg_url_round_trips_through_resolve() {
    let crs = s("https://www.opengis.net/def/crs/EPSG/0/28992");
    let srs = srs_name_for(Some(&crs)).unwrap().unwrap();
    assert_eq!(srs, "urn:ogc:def:crs:EPSG::28992");
    assert!(matches!(resolve(&srs).unwrap(), CrsResolution::Epsg(c) if c == "28992"));
}

#[test]
fn srs_name_from_projjson_epsg_object() {
    let crs = obj(vec![(
        "id",
        obj(vec![
            ("authority", s("EPSG")),
            ("code", JsonValue::Number(JsonNumber::PosInt(28992))),
        ]),
    )]);
    assert_eq!(
        srs_name_for(Some(&crs)).unwrap().unwrap(),
        "urn:ogc:def:crs:EPSG::28992"
    );
}

#[test]
fn srs_name_none_when_no_crs() {
    assert_eq!(srs_name_for(None).unwrap(), None);
}

#[test]
fn srs_name_geographic_crs_errors() {
    let crs = s("https://www.opengis.net/def/crs/EPSG/0/4326");
    assert!(srs_name_for(Some(&crs)).is_err());
}

#[test]
fn srs_name_non_epsg_authority_errors() {
    let crs = obj(vec![(
        "id",
        obj(vec![
            ("authority", s("ESRI")),
            ("code", JsonValue::Number(JsonNumber::PosInt(102100))),
        ]),
    )]);
    assert!(srs_name_for(Some(&crs)).is_err());
}

#[test]
fn srs_name_unparseable_crs_errors() {
    let crs = s("some-local-engineering-crs");
    assert!(srs_name_for(Some(&crs)).is_err());
}

#[test]
fn projjson_code_as_digit_string_and_any_authority_case() {
    let crs = obj(vec![(
        "id",
        obj(vec![("authority", s("epsg")), ("code", s("7415"))]),
    )]);
    assert_eq!(
        srs_name_for(Some(&crs)).unwrap().unwrap(),
        "urn:ogc:def:crs:EPSG::7415"
    );
}
