//! CityJSON <-> CityParquet address mapping.
//!
//! CityJSON does not prescribe address member names; the reserved `address`
//! column keeps a lean, named subset. This module is the single source of
//! truth for which source member name maps to which reserved struct field,
//! so the encoder, the exporter and the comparator cannot diverge on what
//! counts as a recognised postal member. Recognised names follow CityJSON's
//! documented address example: `countryName`, `locality`,
//! `administrativeArea`, `thoroughfareName`, `thoroughfareNumber`,
//! `postalCode`, `postBox`, `freeText` (and `location`, a geometry handled by
//! the caller). Other spellings simply do not map.

use vstd::prelude::*;
use crate::json::{JsonValue, JsonView, member, get_spec, fields_view, json_view};
use crate::text::{owned, opt_str};

verus! {

pub const STREET_KEY: &'static str = "thoroughfareName";
pub const HOUSE_NUMBER_KEY: &'static str = "thoroughfareNumber";
pub const PO_BOX_KEY: &'static str = "postBox";
pub const ZIP_CODE_KEY: &'static str = "postalCode";
pub const CITY_KEY: &'static str = "locality";
pub const STATE_KEY: &'static str = "administrativeArea";
pub const COUNTRY_KEY: &'static str = "countryName";
pub const FREE_TEXT_KEY: &'static str = "freeText";
pub const LOCATION_KEY: &'static str = "location";

/// One address entry's postal fields. A field is `None` when the source
/// object has no member under the matching key, or the member is not a
/// string (treated as absent: an address is best-effort metadata).
#[derive(Debug, Default, PartialEq, Eq)]
pub struct AddressPostal {
    pub street: Option<std::string::String>,
    pub house_number: Option<std::string::String>,
    pub po_box: Option<std::string::String>,
    pub zip_code: Option<std::string::String>,
    pub city: Option<std::string::String>,
    pub state: Option<std::string::String>,
    pub country: Option<std::string::String>,
    pub free_text: Option<std::string::String>,
}

/// One `address` list item decoded off the reserved struct column: the
/// postal strings, plus `location` still as raw WKB `MultiPointZ` bytes.
#[derive(Debug, Clone, PartialEq)]
pub struct AddressEntry {
    pub street: Option<std::string::String>,
    pub house_number: Option<std::string::String>,
    pub po_box: Option<std::string::String>,
    pub zip_code: Option<std::string::String>,
    pub city: Option<std::string::String>,
    pub state: Option<std::string::String>,
    pub country: Option<std::string::String>,
    pub free_text: Option<std::string::String>,
    pub location: Option<Vec<u8>>,
}

/// The recognised member names, in their lexicographic (object member) order.
pub open spec fn postal_keys() -> Seq<Seq<char>> {
    seq![
        "administrativeArea"@, "countryName"@, "freeText"@, "locality"@,
        "postBox"@, "postalCode"@, "thoroughfareName"@, "thoroughfareNumber"@,
    ]
}

/// The postal fields in the order of [`postal_keys`].
pub open spec fn postal_values(p: AddressPostal) -> Seq<Option<Seq<char>>> {
    seq![
        opt_str(p.state), opt_str(p.country), opt_str(p.free_text), opt_str(p.city),
        opt_str(p.po_box), opt_str(p.zip_code), opt_str(p.street), opt_str(p.house_number),
    ]
}

/// The string member of an object under `key`; `None` when absent, not a
/// string, or when the entry is not an object.
pub open spec fn str_member_spec(entry: JsonView, key: Seq<char>) -> Option<Seq<char>> {
    match get_spec(entry, key) {
        Some(JsonView::Str(s)) => Some(s),
        _ => None,
    }
}

/// The object members of present fields, in key order.
pub open spec fn members_spec(vals: Seq<Option<Seq<char>>>, keys: Seq<Seq<char>>) -> Seq<(Seq<char>, JsonView)>
    decreases vals.len(),
{
    if vals.len() == 0 {
        Seq::empty()
    } else {
        let rest = members_spec(vals.drop_last(), keys.drop_last());
        match vals.last() {
            Some(v) => rest.push((keys[vals.len() - 1], JsonView::Str(v))),
            None => rest,
        }
    }
}

fn str_member(entry: &JsonValue, key: &str) -> (r: Option<std::string::String>)
    ensures
        opt_str(r) == str_member_spec(entry@, key@),
{
    match entry.get(key) {
        Some(v) => match v.as_str() {
            Some(s) => Some(owned(s)),
            None => None,
        },
        None => None,
    }
}

/// Map one source `address[]` entry's recognised members onto
/// [`AddressPostal`]; a non-object entry maps to every field `None`.
pub fn map_postal_fields(entry: &JsonValue) -> (r: AddressPostal)
    ensures
        forall|k: int| 0 <= k < 8 ==> #[trigger] postal_values(r)[k] == str_member_spec(entry@, postal_keys()[k]),
{
    let r = AddressPostal {
        street: str_member(entry, STREET_KEY),
        house_number: str_member(entry, HOUSE_NUMBER_KEY),
        po_box: str_member(entry, PO_BOX_KEY),
        zip_code: str_member(entry, ZIP_CODE_KEY),
        city: str_member(entry, CITY_KEY),
        state: str_member(entry, STATE_KEY),
        country: str_member(entry, COUNTRY_KEY),
        free_text: str_member(entry, FREE_TEXT_KEY),
    };
    r
}

fn push_member(map: &mut Vec<(std::string::String, JsonValue)>, key: &str, value: &Option<std::string::String>)
    ensures
        fields_view(final(map)@) == match value {
            Some(v) => fields_view(old(map)@).push((key@, JsonView::Str(v@))),
            None => fields_view(old(map)@),
        },
{
    if let Some(v) = value {
        let ghost before = map@;
        let k = owned(key);
        let sv = owned(v.as_str());
        map.push((k, JsonValue::String(sv)));
        assert(map@.drop_last() =~= before);
        assert(map@.last() == (k, JsonValue::String(sv)));
        assert(map@.len() > 0);
        assert(json_view(JsonValue::String(sv)) == JsonView::Str(sv@));
        assert(k@ == key@ && sv@ == v@);
        assert(fields_view(map@) == fields_view(before).push((key@, JsonView::Str(v@))));
    }
}

/// Render one [`AddressPostal`] back into a CityJSON address object's
/// recognised members, skipping absent fields: the inverse of
/// [`map_postal_fields`]'s key mapping.
pub fn postal_to_members(postal: &AddressPostal) -> (r: Vec<(std::string::String, JsonValue)>)
    ensures
        fields_view(r@) == members_spec(postal_values(*postal), postal_keys()),
{
    let mut map: Vec<(std::string::String, JsonValue)> = Vec::new();
    let ghost vals = postal_values(*postal);
    let ghost keys = postal_keys();
    assert(fields_view(map@) =~= members_spec(vals.take(0), keys.take(0)));
    push_member(&mut map, STATE_KEY, &postal.state);
    assert(vals.take(1).drop_last() =~= vals.take(0));
    push_member(&mut map, COUNTRY_KEY, &postal.country);
    assert(vals.take(2).drop_last() =~= vals.take(1));
    push_member(&mut map, FREE_TEXT_KEY, &postal.free_text);
    assert(vals.take(3).drop_last() =~= vals.take(2));
    push_member(&mut map, CITY_KEY, &postal.city);
    assert(vals.take(4).drop_last() =~= vals.take(3));
    push_member(&mut map, PO_BOX_KEY, &postal.po_box);
    assert(vals.take(5).drop_last() =~= vals.take(4));
    push_member(&mut map, ZIP_CODE_KEY, &postal.zip_code);
    assert(vals.take(6).drop_last() =~= vals.take(5));
    push_member(&mut map, STREET_KEY, &postal.street);
    assert(vals.take(7).drop_last() =~= vals.take(6));
    push_member(&mut map, HOUSE_NUMBER_KEY, &postal.house_number);
    assert(vals.take(8).drop_last() =~= vals.take(7));
    proof {
        reveal_strlit("thoroughfareName");
        reveal_strlit("thoroughfareNumber");
        reveal_strlit("postBox");
        reveal_strlit("postalCode");
        reveal_strlit("locality");
        reveal_strlit("administrativeArea");
        reveal_strlit("countryName");
        reveal_strlit("freeText");
        lemma_members_take(vals, keys);
        assert(vals.take(8) =~= vals);
        assert(keys.take(8) =~= keys);
    }
    map
}

proof fn lemma_members_take(vals: Seq<Option<Seq<char>>>, keys: Seq<Seq<char>>)
    requires
        vals.len() == 8,
        keys.len() == 8,
    ensures
        forall|n: int| 1 <= n <= 8 ==> #[trigger] members_spec(vals.take(n), keys.take(n))
            == match vals[n - 1] {
                Some(v) => members_spec(vals.take(n - 1), keys.take(n - 1)).push((keys[n - 1], JsonView::Str(v))),
                None => members_spec(vals.take(n - 1), keys.take(n - 1)),
            },
{
    assert forall|n: int| 1 <= n <= 8 implies #[trigger] members_spec(vals.take(n), keys.take(n))
        == match vals[n - 1] {
            Some(v) => members_spec(vals.take(n - 1), keys.take(n - 1)).push((keys[n - 1], JsonView::Str(v))),
            None => members_spec(vals.take(n - 1), keys.take(n - 1)),
        } by {
        assert(vals.take(n).drop_last() =~= vals.take(n - 1));
        assert(keys.take(n).drop_last() =~= keys.take(n - 1));
    }
}

/// Looking up a member after one more is appended.
proof fn lemma_member_push(s: Seq<(Seq<char>, JsonView)>, x: (Seq<char>, JsonView), key: Seq<char>)
    ensures
        member(s.push(x), key) == match member(s, key) {
            Some(v) => Some(v),
            None => if x.0 == key { Some(x.1) } else { None },
        },
    decreases s.len(),
{
    if s.len() > 0 {
        assert(s.push(x)[0] == s[0]);
        assert(s.push(x).drop_first() =~= s.drop_first().push(x));
        lemma_member_push(s.drop_first(), x, key);
    } else {
        assert(s.push(x)[0] == x);
        assert(s.push(x).drop_first() =~= Seq::<(Seq<char>, JsonView)>::empty());
        assert(member(s.push(x).drop_first(), key) is None);
    }
}

/// Looking up key `keys[k]` among the members of distinct keys finds field `k`.
proof fn lemma_members_lookup(vals: Seq<Option<Seq<char>>>, keys: Seq<Seq<char>>, k: int)
    requires
        vals.len() <= keys.len(),
        0 <= k < keys.len(),
        forall|i: int, j: int| 0 <= i < keys.len() && 0 <= j < keys.len() && i != j ==> keys[i] != keys[j],
    ensures
        member(members_spec(vals, keys.take(vals.len() as int)), keys[k]) == if k < vals.len() {
            match vals[k] {
                Some(v) => Some(JsonView::Str(v)),
                None => None,
            }
        } else {
            None
        },
    decreases vals.len(),
{
    if vals.len() > 0 {
        let n = vals.len() - 1;
        assert(keys.take(vals.len() as int).drop_last() =~= keys.take(n));
        assert(keys.take(vals.len() as int)[n] == keys[n]);
        lemma_members_lookup(vals.drop_last(), keys, k);
        match vals.last() {
            Some(v) => {
                lemma_member_push(members_spec(vals.drop_last(), keys.take(n)), (keys[n], JsonView::Str(v)), keys[k]);
            },
            None => {},
        }
    }
}

/// Round trip: the members rendered from a postal record map back onto
/// exactly that record's fields.
pub proof fn lemma_postal_round_trip(p: AddressPostal)
    ensures
        forall|k: int| 0 <= k < 8 ==> #[trigger] str_member_spec(
            JsonView::Object(members_spec(postal_values(p), postal_keys())), postal_keys()[k]) == postal_values(p)[k],
{
    reveal_strlit("thoroughfareName");
    reveal_strlit("thoroughfareNumber");
    reveal_strlit("postBox");
    reveal_strlit("postalCode");
    reveal_strlit("locality");
    reveal_strlit("administrativeArea");
    reveal_strlit("countryName");
    reveal_strlit("freeText");
    let keys = postal_keys();
    let vals = postal_values(p);
    assert(keys.take(8) =~= keys);
    assert forall|i: int, j: int| 0 <= i < keys.len() && 0 <= j < keys.len() && i != j implies keys[i] != keys[j] by {
        if keys[i] == keys[j] {
            assert(keys[i].len() == keys[j].len());
            assert(keys[i][0] == keys[j][0]);
            assert(keys[i][4] == keys[j][4]);
            assert(keys[i][10] == keys[j][10]);
            assert(keys[i][12] == keys[j][12]);
        }
    }
    assert forall|k: int| 0 <= k < 8 implies #[trigger] str_member_spec(
        JsonView::Object(members_spec(vals, keys)), keys[k]) == vals[k] by {
        lemma_members_lookup(vals, keys, k);
    }
}

} // verus!
