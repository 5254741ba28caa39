//! Which physical encoding a `geometry_lod*` column carries.
//!
//! The footer's own `city.columns[].encoding` declaration decides it; a token
//! this build does not understand is refused, never guessed from the column's
//! arrow type. Only a column the footer declares nothing for falls back to its
//! physical shape, and then strictly: `Binary` is WKB, today's exact nested
//! arrow-native shape is arrow-native, anything else is refused. Whatever
//! decided, the physical geometry column (and, for arrow-native, its
//! `geometry_vertices_*` sibling) must then match that encoding exactly.
//!
//! The arrow types themselves are classified by the caller into
//! [`ColumnType`]; the footer tokens are parsed by the caller into
//! [`ColumnEntry::encoding`].

use vstd::prelude::*;
use crate::error::{CityParquetError, Result, message_of};
use crate::text::{owned, str_eq};

verus! {

/// How a geometry column's values are laid out.
#[derive(Debug, Clone, Copy, PartialEq, Eq, Structural)]
pub enum GeometryEncoding {
    /// One WKB blob per row (a `Binary` column).
    Wkb,
    /// Nested arrow lists over a per-row vertex-pool sibling column.
    ArrowNative,
}

/// A physical arrow type, as far as the encoding decision reads it.
#[derive(Debug, Clone, Copy, PartialEq, Eq, Structural)]
pub enum ColumnType {
    /// `Binary`.
    Binary,
    /// Exactly this build's arrow-native geometry type.
    NativeGeometry,
    /// Exactly this build's arrow-native vertex-pool type.
    NativeVertices,
    /// Anything else.
    Other,
}

/// One field of the file's physical schema.
pub struct SchemaField {
    pub name: std::string::String,
    pub kind: ColumnType,
    /// The arrow type as text, for messages.
    pub type_text: std::string::String,
}

/// One `city.columns[]` entry of the footer.
pub struct ColumnEntry {
    pub name: std::string::String,
    /// The encoding its token names, or `None` for a token this build does
    /// not understand.
    pub encoding: Option<GeometryEncoding>,
    /// The token as written.
    pub token: std::string::String,
}

/// Why an encoding is refused.
pub enum EncodingRefusal {
    /// The geometry column is not in the physical schema.
    MissingGeometry,
    /// The footer declares a token this build does not understand.
    UnknownToken,
    /// Nothing is declared and the physical type is neither encoding's.
    UnrecognisedShape,
    /// The physical geometry type is not the declared encoding's.
    GeometryMismatch,
    /// An arrow-native column has no vertex-pool sibling.
    MissingVertices,
    /// The vertex-pool sibling's type is not this build's.
    VerticesMismatch,
}

/// The type of the first schema field called `name`.
pub open spec fn field_kind(schema: Seq<(Seq<char>, ColumnType)>, name: Seq<char>) -> Option<ColumnType>
    decreases schema.len(),
{
    if schema.len() == 0 {
        None
    } else if schema[0].0 == name {
        Some(schema[0].1)
    } else {
        field_kind(schema.drop_first(), name)
    }
}

/// What the first footer entry called `name` declares: `None` when no entry
/// names it, `Some(None)` for a token this build does not understand.
pub open spec fn declared(columns: Seq<(Seq<char>, Option<GeometryEncoding>)>, name: Seq<char>) -> Option<Option<GeometryEncoding>>
    decreases columns.len(),
{
    if columns.len() == 0 {
        None
    } else if columns[0].0 == name {
        Some(columns[0].1)
    } else {
        declared(columns.drop_first(), name)
    }
}

/// The encoding a physical type stands for when nothing is declared.
pub open spec fn shape_encoding(k: ColumnType) -> Option<GeometryEncoding> {
    match k {
        ColumnType::Binary => Some(GeometryEncoding::Wkb),
        ColumnType::NativeGeometry => Some(GeometryEncoding::ArrowNative),
        _ => None,
    }
}

/// Whether the physical columns are what `e` says they are.
pub open spec fn shape_check(e: GeometryEncoding, geometry: ColumnType, vertices: Option<ColumnType>) -> Option<EncodingRefusal> {
    match e {
        GeometryEncoding::Wkb => if geometry == ColumnType::Binary { None } else { Some(EncodingRefusal::GeometryMismatch) },
        GeometryEncoding::ArrowNative => if geometry != ColumnType::NativeGeometry {
            Some(EncodingRefusal::GeometryMismatch)
        } else {
            match vertices {
                None => Some(EncodingRefusal::MissingVertices),
                Some(k) => if k == ColumnType::NativeVertices { None } else { Some(EncodingRefusal::VerticesMismatch) },
            }
        },
    }
}

/// The encoding of geometry column `g` (vertex-pool sibling `v`), or why it
/// is refused.
pub open spec fn encoding_decision(
    columns: Seq<(Seq<char>, Option<GeometryEncoding>)>,
    schema: Seq<(Seq<char>, ColumnType)>,
    g: Seq<char>,
    v: Seq<char>,
) -> std::result::Result<GeometryEncoding, EncodingRefusal> {
    match field_kind(schema, g) {
        None => Err(EncodingRefusal::MissingGeometry),
        Some(k) => {
            let chosen = match declared(columns, g) {
                Some(Some(e)) => Ok(e),
                Some(None) => Err(EncodingRefusal::UnknownToken),
                None => match shape_encoding(k) {
                    Some(e) => Ok(e),
                    None => Err(EncodingRefusal::UnrecognisedShape),
                },
            };
            match chosen {
                Err(r) => Err(r),
                Ok(e) => match shape_check(e, k, field_kind(schema, v)) {
                    None => Ok(e),
                    Some(r) => Err(r),
                },
            }
        },
    }
}

/// The schema's fields as (name, type) pairs.
pub open spec fn schema_view(schema: Seq<SchemaField>) -> Seq<(Seq<char>, ColumnType)> {
    schema.map_values(|f: SchemaField| (f.name@, f.kind))
}

/// The footer's entries as (name, encoding) pairs.
pub open spec fn columns_view(columns: Seq<ColumnEntry>) -> Seq<(Seq<char>, Option<GeometryEncoding>)> {
    columns.map_values(|c: ColumnEntry| (c.name@, c.encoding))
}

/// The pieces of a message, joined in order.
pub open spec fn joined(parts: Seq<&str>) -> Seq<char>
    decreases parts.len(),
{
    if parts.len() == 0 {
        Seq::empty()
    } else {
        joined(parts.drop_last()) + parts.last()@
    }
}

fn metadata_err(parts: &[&str]) -> (e: CityParquetError)
    ensures
        e is Metadata,
        message_of(e) == joined(parts@),
{
    let mut m = owned("");
    let mut i: usize = 0;
    proof {
        reveal_strlit("");
        assert(parts@.take(0) =~= Seq::<&str>::empty());
    }
    while i < parts.len()
        invariant
            i <= parts.len(),
            m@ == joined(parts@.take(i as int)),
        decreases parts.len() - i,
    {
        assert(parts@.take(i as int + 1).drop_last() =~= parts@.take(i as int));
        m.push_str(parts[i]);
        i = i + 1;
    }
    assert(parts@.take(parts@.len() as int) =~= parts@);
    CityParquetError::Metadata(m)
}

/// The position of the first schema field called `name`.
fn find_field(schema: &[SchemaField], name: &str) -> (r: Option<usize>)
    ensures
        match r {
            None => field_kind(schema_view(schema@), name@) is None,
            Some(i) => i < schema@.len() && field_kind(schema_view(schema@), name@) == Some(schema@[i as int].kind),
        },
{
    let ghost sv = schema_view(schema@);
    let mut i: usize = 0;
    assert(sv.skip(0) =~= sv);
    while i < schema.len()
        invariant
            i <= schema@.len(),
            sv == schema_view(schema@),
            sv.len() == schema@.len(),
            field_kind(sv, name@) == field_kind(sv.skip(i as int), name@),
        decreases schema.len() - i,
    {
        assert(sv.skip(i as int).drop_first() =~= sv.skip(i + 1));
        assert(sv.skip(i as int)[0] == sv[i as int]);
        if str_eq(schema[i].name.as_str(), name) {
            return Some(i);
        }
        i = i + 1;
    }
    None
}

/// The position of the first footer entry called `name`.
fn find_entry(columns: &[ColumnEntry], name: &str) -> (r: Option<usize>)
    ensures
        match r {
            None => declared(columns_view(columns@), name@) is None,
            Some(i) => i < columns@.len() && declared(columns_view(columns@), name@) == Some(columns@[i as int].encoding),
        },
{
    let ghost cv = columns_view(columns@);
    let mut i: usize = 0;
    assert(cv.skip(0) =~= cv);
    while i < columns.len()
        invariant
            i <= columns@.len(),
            cv == columns_view(columns@),
            cv.len() == columns@.len(),
            declared(cv, name@) == declared(cv.skip(i as int), name@),
        decreases columns.len() - i,
    {
        assert(cv.skip(i as int).drop_first() =~= cv.skip(i + 1));
        assert(cv.skip(i as int)[0] == cv[i as int]);
        if str_eq(columns[i].name.as_str(), name) {
            return Some(i);
        }
        i = i + 1;
    }
    None
}

/// Resolve one geometry column's encoding: the footer's declaration for
/// `geometry_name` decides it (a token this build does not understand is
/// refused), falling back to a strict match of the physical type only when
/// nothing is declared; then the physical geometry column, and for
/// arrow-native its `vertices_name` sibling, must match that encoding
/// exactly. Every refusal is a `Metadata` error.
pub fn resolve_geometry_encoding(
    columns: &[ColumnEntry],
    schema: &[SchemaField],
    geometry_name: &str,
    vertices_name: &str,
) -> (r: Result<GeometryEncoding>)
    ensures
        match encoding_decision(columns_view(columns@), schema_view(schema@), geometry_name@, vertices_name@) {
            Ok(e) => r == Ok::<GeometryEncoding, CityParquetError>(e),
            Err(_) => r matches Err(CityParquetError::Metadata(_)),
        },
{
    let gi = match find_field(schema, geometry_name) {
        Some(i) => i,
        None => return Err(metadata_err(&[
            "geometry column '", geometry_name,
            "' is expected by this file's metadata but absent from its actual schema",
        ])),
    };
    let field = &schema[gi];
    let encoding = match find_entry(columns, geometry_name) {
        Some(ci) => match columns[ci].encoding {
            Some(e) => e,
            None => return Err(metadata_err(&[
                "geometry column '", geometry_name,
                "' declares city.columns[].encoding \"", columns[ci].token.as_str(),
                "\", which this build does not understand — refusing to guess it from the column's physical arrow type",
            ])),
        },
        None => match field.kind {
            ColumnType::Binary => GeometryEncoding::Wkb,
            ColumnType::NativeGeometry => GeometryEncoding::ArrowNative,
            _ => return Err(metadata_err(&[
                "geometry column '", geometry_name,
                "' has no city.columns[] entry declaring its encoding, and its arrow type matches neither encoding this build renders: ",
                field.type_text.as_str(),
                " (expected Binary for WKB, or the nested List shape for arrow-native)",
            ])),
        },
    };
    match encoding {
        GeometryEncoding::Wkb => {
            if field.kind != ColumnType::Binary {
                return Err(metadata_err(&[
                    "geometry column '", geometry_name, "' is declared as WKB but its arrow type is ",
                    field.type_text.as_str(), ", not the Binary a WKB column must be",
                ]));
            }
        },
        GeometryEncoding::ArrowNative => {
            if field.kind != ColumnType::NativeGeometry {
                return Err(metadata_err(&[
                    "geometry column '", geometry_name, "' is declared as arrow-native but its arrow type ",
                    field.type_text.as_str(), " does not match this build's arrow-native geometry type",
                ]));
            }
            let vi = match find_field(schema, vertices_name) {
                Some(i) => i,
                None => return Err(metadata_err(&[
                    "geometry column '", geometry_name, "' is declared as arrow-native but its '",
                    vertices_name, "' vertex-pool sibling is absent from the file's schema",
                ])),
            };
            if schema[vi].kind != ColumnType::NativeVertices {
                return Err(metadata_err(&[
                    "vertex-pool column '", vertices_name, "' has arrow type ", schema[vi].type_text.as_str(),
                    ", which does not match this build's arrow-native vertex-pool type",
                ]));
            }
        },
    }
    Ok(encoding)
}

} // verus!
