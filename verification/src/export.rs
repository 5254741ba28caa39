//! Decisions of the package export: the output format an output path asks
//! for, the `referenceSystem` rebuilt from the package CRS, and the shape
//! checks the appearance re-attachment relies on.

use vstd::prelude::*;
use crate::crs::{ReferenceSystem, default_crs_base_url, from_url_defined, from_url_spec, number_text, number_to_string, ogc_url_parts, reference_system as epsg_reference_system};
use crate::error::{CityParquetError, Result, message_of};
use crate::json::{JsonValue, JsonView, items_view, lemma_items_view, get_spec};
use crate::text::{owned, str_eq};

verus! {

/// The document form an export writes.
#[derive(Debug, Clone, Copy, PartialEq, Eq)]
pub enum OutputFormat {
    /// CityJSONSeq: a header line, then one feature per line.
    Sequence,
    /// One CityJSON document.
    Document,
}

/// The extension of a path as text (`Path::extension`, then `OsStr::to_str`):
/// a function of the path alone.
pub uninterp spec fn path_extension(path: &std::path::Path) -> Option<Seq<char>>;

/// `Path::extension` read as UTF-8 (`OsStr::to_str`). The result is named
/// [`path_extension`]; what a path's extension is belongs to std's path
/// grammar and is not stated further.
#[verifier::external_body]
fn extension_utf8(path: &std::path::Path) -> (r: Option<&str>)
    ensures
        match r {
            Some(e) => path_extension(path) == Some(e@),
            None => path_extension(path) is None,
        },
{
    path.extension().and_then(|e| e.to_str())
}

/// The format an extension asks for; `None` when it asks for none.
pub open spec fn format_spec(ext: Option<Seq<char>>) -> Option<OutputFormat> {
    match ext {
        Some(e) => if e == "jsonl"@ {
            Some(OutputFormat::Sequence)
        } else if e == "json"@ {
            Some(OutputFormat::Document)
        } else {
            None
        },
        None => None,
    }
}

/// The error for an output path whose extension asks for no known format.
pub open spec fn format_refusal(e: CityParquetError) -> bool {
    e is Schema && message_of(e) == "unsupported export output extension: expected .city.jsonl or .city.json"@
}

/// The format an output file extension asks for: `jsonl` is CityJSONSeq,
/// `json` a CityJSON document; anything else (or none) is a `Schema` error.
pub fn format_for_extension(ext: Option<&str>) -> (r: Result<OutputFormat>)
    ensures
        match ext {
            Some(e) => if e@ == "jsonl"@ {
                r == Ok::<OutputFormat, CityParquetError>(OutputFormat::Sequence)
            } else if e@ == "json"@ {
                r == Ok::<OutputFormat, CityParquetError>(OutputFormat::Document)
            } else {
                r matches Err(e) && format_refusal(e)
            },
            None => r matches Err(e) && format_refusal(e),
        },
{
    match ext {
        Some(e) => {
            if str_eq(e, "jsonl") {
                Ok(OutputFormat::Sequence)
            } else if str_eq(e, "json") {
                Ok(OutputFormat::Document)
            } else {
                Err(CityParquetError::Schema(owned("unsupported export output extension: expected .city.jsonl or .city.json")))
            }
        },
        None => Err(CityParquetError::Schema(owned("unsupported export output extension: expected .city.jsonl or .city.json"))),
    }
}

/// The format of an export output path, by its extension (see
/// [`format_for_extension`]).
pub fn output_format(output: &std::path::Path) -> (r: Result<OutputFormat>)
    ensures
        match format_spec(path_extension(output)) {
            Some(f) => r == Ok::<OutputFormat, CityParquetError>(f),
            None => r matches Err(e) && format_refusal(e),
        },
{
    format_for_extension(extension_utf8(output))
}

/// The rebuilt appearance map (`{"<lod>": {...}}`) has an entry for `lod_key`.
pub fn has_appearance_for_lod(map: Option<&JsonValue>, lod_key: &str) -> (r: bool)
    ensures
        r == (map matches Some(m) && get_spec(m@, lod_key@) is Some),
{
    match map {
        Some(m) => m.get(lod_key).is_some(),
        None => false,
    }
}

/// A texture ring as stored: a non-empty array whose first element (the
/// texture index) is a number or `null`; what follows it (inlined `[u, v]`
/// pairs) does not matter.
pub fn is_localised_texture_ring(items: &Vec<JsonValue>) -> (r: bool)
    ensures
        r == (items@.len() > 0 && (items@[0]@ is Number || items@[0]@ is Null)),
{
    if items.len() == 0 {
        return false;
    }
    match &items[0] {
        JsonValue::Number(_) | JsonValue::Null => true,
        _ => false,
    }
}

/// The text of a PROJJSON `id.code`: a number's JSON text, or a string.
pub open spec fn code_text(code: JsonView) -> Option<Seq<char>> {
    match code {
        JsonView::Number(n) => Some(number_text(n)),
        JsonView::Str(s) => Some(s),
        _ => None,
    }
}

/// The `referenceSystem` parts (base URL, authority, version, code) rebuilt
/// from the package CRS: `None` when the CRS is refused, `Some(None)` when
/// it yields no `referenceSystem`. A string is a legacy OGC CRS URL; a
/// PROJJSON object yields the EPSG URL of an `EPSG` id, the OGC URLs of
/// `OGC:CRS84` (version `1.3`) and `OGC:CRS84h` (version `0`), and nothing
/// for any other id.
pub open spec fn reference_system_spec(crs: Option<JsonView>) -> Option<Option<(Seq<char>, Seq<char>, Seq<char>, Seq<char>)>> {
    match crs {
        None => Some(None),
        Some(JsonView::Str(url)) => match from_url_spec(url) {
            Some(p) => Some(Some(p)),
            None => None,
        },
        Some(c) => {
            let authority = match get_spec(c, "id"@) {
                Some(id) => match get_spec(id, "authority"@) {
                    Some(JsonView::Str(a)) => Some(a),
                    _ => None,
                },
                None => None,
            };
            let code = match get_spec(c, "id"@) {
                Some(id) => match get_spec(id, "code"@) {
                    Some(k) => code_text(k),
                    None => None,
                },
                None => None,
            };
            match (authority, code) {
                (Some(a), Some(k)) => if a == "EPSG"@ {
                    Some(Some((default_crs_base_url(), "EPSG"@, "0"@, k)))
                } else if a == "OGC"@ && k == "CRS84"@ {
                    Some(Some((default_crs_base_url(), "OGC"@, "1.3"@, k)))
                } else if a == "OGC"@ && k == "CRS84h"@ {
                    Some(Some((default_crs_base_url(), "OGC"@, "0"@, k)))
                } else {
                    Some(None)
                },
                _ => Some(None),
            }
        },
    }
}

pub open spec fn parts_of(rs: ReferenceSystem) -> (Seq<char>, Seq<char>, Seq<char>, Seq<char>) {
    (rs.base_url@, rs.authority@, rs.version@, rs.code@)
}

/// The header `metadata.referenceSystem`, rebuilt from the package CRS
/// metadata (see [`reference_system_spec`]). A string that is not an OGC
/// CRS URL is a `Schema` error.
pub fn reference_system(crs: Option<&JsonValue>) -> (r: Result<Option<ReferenceSystem>>)
    requires
        crs is Some && crs.unwrap()@ is Str ==> from_url_defined(crs.unwrap()@->Str_0),
    ensures
        match reference_system_spec(match crs { Some(c) => Some(c@), None => None }) {
            None => r matches Err(CityParquetError::Schema(_)),
            Some(None) => r matches Ok(None),
            Some(Some(p)) => r matches Ok(Some(rs)) && parts_of(rs) == p,
        },
{
    let c = match crs {
        None => return Ok(None),
        Some(c) => c,
    };
    if let JsonValue::String(url) = c {
        return match ogc_url_parts(url.as_str()) {
            Some(rs) => Ok(Some(rs)),
            None => Err(CityParquetError::Schema(owned("invalid referenceSystem URL"))),
        };
    }
    let id = c.get("id");
    let authority: Option<&str> = match id {
        Some(idv) => match idv.get("authority") {
            Some(JsonValue::String(a)) => Some(a.as_str()),
            _ => None,
        },
        None => None,
    };
    let code: Option<std::string::String> = match id {
        Some(idv) => match idv.get("code") {
            Some(JsonValue::Number(n)) => Some(number_to_string(n)),
            Some(JsonValue::String(s)) => Some(owned(s.as_str())),
            _ => None,
        },
        None => None,
    };
    match (authority, code) {
        (Some(a), Some(k)) => {
            if str_eq(a, "EPSG") {
                let rs = epsg_reference_system(k.as_str());
                Ok(Some(rs))
            } else if str_eq(a, "OGC") && str_eq(k.as_str(), "CRS84") {
                Ok(Some(ReferenceSystem::new(None, owned("OGC"), owned("1.3"), k)))
            } else if str_eq(a, "OGC") && str_eq(k.as_str(), "CRS84h") {
                Ok(Some(ReferenceSystem::new(None, owned("OGC"), owned("0"), k)))
            } else {
                Ok(None)
            }
        },
        _ => Ok(None),
    }
}

} // verus!
