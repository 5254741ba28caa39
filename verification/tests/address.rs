use cityparquet::address::{map_postal_fields, postal_to_members, AddressPostal};
use cityparquet::json::JsonValue;

fn s(x: &str) -> JsonValue {
    JsonValue::String(x.to_string())
}

fn obj(fields: Vec<(&str, JsonValue)>) -> JsonValue {
    JsonValue::Object(fields.into_iter().map(|(k, v)| (k.to_string(), v)).collect())
}

#[test]
fn maps_recognised_members_only() {
    let entry = obj(vec![
        ("countryName", s("Finland")),
        ("locality", s("Helsinki")),
        ("administrativeArea", s("Uusimaa")),
        ("thoroughfareName", s("Mannerheimintie")),
        ("thoroughfareNumber", s("1")),
        ("postalCode", s("00100")),
        ("postBox", s("PO 1")),
        ("freeText", s("note")),
        ("Country", s("unrecognised-casing-must-not-map")),
    ]);
    let postal = map_postal_fields(&entry);
    assert_eq!(postal.country.as_deref(), Some("Finland"));
    assert_eq!(postal.city.as_deref(), Some("Helsinki"));
    assert_eq!(postal.state.as_deref(), Some("Uusimaa"));
    assert_eq!(postal.street.as_deref(), Some("Mannerheimintie"));
    assert_eq!(postal.house_number.as_deref(), Some("1"));
    assert_eq!(postal.zip_code.as_deref(), Some("00100"));
    assert_eq!(postal.po_box.as_deref(), Some("PO 1"));
    assert_eq!(postal.free_text.as_deref(), Some("note"));
}

#[test]
fn non_object_entry_maps_to_all_none() {
    assert_eq!(map_postal_fields(&s("just a string")), AddressPostal::default());
    assert_eq!(map_postal_fields(&JsonValue::Null), AddressPostal::default());
}

#[test]
fn unrecognised_member_names_do_not_corrupt_recognised_ones() {
    let entry = obj(vec![("Locality", s("Espoo")), ("locality", s("Helsinki"))]);
    let postal = map_postal_fields(&entry);
    assert_eq!(postal.city.as_deref(), Some("Helsinki"));
}

#[test]
fn postal_to_members_round_trips_the_recognised_names() {
    let entry = obj(vec![("countryName", s("Finland")), ("locality", s("Helsinki"))]);
    let postal = map_postal_fields(&entry);
    let members = postal_to_members(&postal);
    assert_eq!(map_postal_fields(&JsonValue::Object(members)), postal);
}

#[test]
fn non_string_member_is_absent() {
    let entry = obj(vec![("locality", JsonValue::Bool(true)), ("postalCode", s("2611"))]);
    let postal = map_postal_fields(&entry);
    assert_eq!(postal.city, None);
    assert_eq!(postal.zip_code.as_deref(), Some("2611"));
}

#[test]
fn members_come_out_in_key_order_and_skip_absent_fields() {
    let postal = AddressPostal {
        street: Some("Oude Delft".to_string()),
        city: Some("Delft".to_string()),
        country: Some("NL".to_string()),
        ..AddressPostal::default()
    };
    let members = postal_to_members(&postal);
    let names: Vec<&str> = members.iter().map(|(k, _)| k.as_str()).collect();
    assert_eq!(names, vec!["countryName", "locality", "thoroughfareName"]);
    let full_round_trip = AddressPostal {
        street: Some("a".into()),
        house_number: Some("b".into()),
        po_box: Some("c".into()),
        zip_code: Some("d".into()),
        city: Some("e".into()),
        state: Some("f".into()),
        country: Some("g".into()),
        free_text: Some("h".into()),
    };
    let back = map_postal_fields(&JsonValue::Object(postal_to_members(&full_round_trip)));
    assert_eq!(back, full_round_trip);
}
