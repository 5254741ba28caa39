//! Options and per-run counters of the package conversions.

use vstd::prelude::*;
use crate::text::{decimal, decimal_string, owned};

verus! {

/// A file-system path; opaque to the conversion logic, which only carries it.
#[verifier::external_type_specification]
#[verifier::external_body]
pub struct ExPathBuf(std::path::PathBuf);

/// A borrowed file-system path.
#[verifier::external_type_specification]
#[verifier::external_body]
pub struct ExPath(std::path::Path);

/// The last component of a path as text (`Path::file_name`, then
/// `OsStr::to_str`): a function of the path alone.
pub uninterp spec fn path_file_name(path: &std::path::Path) -> Option<Seq<char>>;

/// `Path::file_name` read as UTF-8 (`OsStr::to_str`): the last component of
/// `path`, when there is one and it is valid UTF-8. The result is named
/// [`path_file_name`]; what a path's last component is belongs to std's path
/// grammar and is not stated further.
#[verifier::external_body]
fn file_name_utf8(path: &std::path::Path) -> (r: Option<&str>)
    ensures
        match r {
            Some(n) => path_file_name(path) == Some(n@),
            None => path_file_name(path) is None,
        },
{
    path.file_name().and_then(|n| n.to_str())
}

/// The name shown for a table: its file name, or `<table>` when it has
/// none that can be shown.
pub fn display_name(file_name: Option<&str>) -> (r: &str)
    ensures
        r@ == match file_name {
            Some(n) => n@,
            None => "<table>"@,
        },
{
    match file_name {
        Some(n) => n,
        None => "<table>",
    }
}

/// Short file name of a table path, for user-facing messages: echoing the
/// whole path would leak environment detail that is not part of the
/// package's own naming.
pub fn table_display_name(path: &std::path::Path) -> (r: &str)
    ensures
        r@ == match path_file_name(path) {
            Some(n) => n,
            None => "<table>"@,
        },
{
    display_name(file_name_utf8(path))
}

/// Options for one CityParquet package -> CityGML 2.0 `.gml` conversion.
pub struct WriteOptions {
    pub package_dir: std::path::PathBuf,
    /// The `.gml` file to write (truncated if it exists, matching export).
    pub output: std::path::PathBuf,
}

/// Per-conversion counts of the CityGML writer, in the drop-counter style of
/// the export report.
#[derive(Debug, Default, PartialEq, Eq, Structural)]
pub struct WriteReport {
    /// `bldg:Building` elements emitted.
    pub buildings_written: usize,
    /// Rows skipped because `object_type` is not `Building`.
    pub non_building_skipped: usize,
    /// Building rows with no emittable Solid in any major LoD, skipped whole.
    pub buildings_without_solid_skipped: usize,
    /// `gml:CompositeSolid` geometries emitted.
    pub composite_solids_written: usize,
    /// MultiSolid geometry columns skipped: a CityGML 2.0 `Building` has no
    /// `lodNMultiSolid` slot and `gml:MultiSolid` is not a `gml:_Solid`.
    pub multi_solids_skipped: usize,
    /// LoD columns skipped: a collision on a major LoD already kept, an
    /// unrepresentable LoD (0, above 4, lodless), or a non-Solid geometry.
    pub lod_columns_skipped: usize,
    /// Attribute values emitted as `bldg:`/`gen:` elements.
    pub attributes_written: usize,
    /// Attribute values skipped as unrepresentable in CityGML 2.0.
    pub attributes_skipped: usize,
    /// `bldg:boundedBy` semantic surfaces emitted.
    pub semantic_surfaces_written: usize,
    /// Semantic surfaces dropped when a geometry falls back to geometry-only.
    pub semantic_surfaces_dropped: usize,
    /// `null`-value faces of a no-solid MultiSurface, which have no CityGML
    /// 2.0 home.
    pub multisurface_null_faces_dropped: usize,
    /// `bldg:BuildingPart`s emitted.
    pub building_parts_written: usize,
    /// BuildingParts skipped because they rendered empty.
    pub building_parts_skipped: usize,
    /// BuildingPart rows whose first parent names no Building/BuildingPart row.
    pub building_parts_orphaned: usize,
    /// A Building's `children` entry with no matching part row.
    pub children_unresolved: usize,
    /// `app:X3DMaterial` elements emitted.
    pub materials_written: usize,
    /// Geometries whose `material` map could not be resolved.
    pub material_geometries_dropped: usize,
    /// Geometries carrying a `material` map on a Core-profile package.
    pub appearance_skipped_core_profile: usize,
    /// `app:ParameterizedTexture` elements emitted.
    pub textures_written: usize,
    /// Geometries whose `texture` map could not be resolved.
    pub texture_geometries_dropped: usize,
}

/// Options controlling one package -> CityJSON/CityJSONSeq export.
pub struct ExportOptions {
    pub package_dir: std::path::PathBuf,
    /// Output path; `.city.jsonl` writes CityJSONSeq, `.city.json` a single
    /// whole CityJSON document.
    pub output: std::path::PathBuf,
}

/// Outcome of one export.
#[derive(Debug, Clone, Copy, PartialEq, Eq, Structural)]
pub struct ExportReport {
    pub feature_count: usize,
    pub object_count: usize,
    /// Objects whose `GeometryInstance` geometry was dropped because no
    /// geometry-templates sidecar was available to resolve it against.
    pub instance_geometries_dropped: usize,
    /// Geometries whose material/texture index maps were dropped because the
    /// package stores the maps but not the definitions they index.
    pub appearance_refs_dropped: usize,
}

/// Counters for the row-population edge cases that are tracked rather than
/// surfaced as errors.
#[derive(Debug, Clone, Copy, Default, PartialEq, Eq, Structural)]
pub struct EncodeStats {
    /// Extra geometries for an (object, LoD) pair beyond the first one kept.
    pub skipped_same_lod_geometries: usize,
    /// Attribute values present but not representable as the column's
    /// inferred type; encoded as null instead.
    pub attribute_coercion_nulls: usize,
    /// Structurally degenerate rings the writer dropped, over stored geometries.
    pub degenerate_rings_dropped: usize,
    /// Surfaces dropped because their exterior ring was degenerate.
    pub degenerate_surfaces_dropped: usize,
}

/// What a dataset comparison skips on the source side.
#[derive(Debug, Clone, Copy, Default, PartialEq, Eq, Structural)]
pub struct Exclusions {
    /// Skip material/texture presence on the source side.
    pub appearance: bool,
    /// Skip `GeometryInstance` geometries on the source side.
    pub geometry_instances: bool,
}

/// At most this many differences are reported one by one.
pub const MAX_DIFFERENCES: usize = 50;

/// Outcome of one dataset comparison.
#[derive(Debug)]
pub struct CompareReport {
    pub equal: bool,
    /// Human-readable, object-id-prefixed; capped at [`MAX_DIFFERENCES`]
    /// entries, beyond which a final truncation notice is appended.
    pub differences: Vec<std::string::String>,
    /// What was skipped and why.
    pub excluded: Vec<std::string::String>,
}

/// The notice that replaces the differences beyond the cap.
pub open spec fn truncation_notice(extra: nat) -> Seq<char> {
    "... "@ + decimal(extra) + " more differences truncated"@
}

/// The reported differences: all of them up to the cap; beyond it the first
/// [`MAX_DIFFERENCES`] and a notice naming how many more there were.
pub open spec fn capped_differences(d: Seq<Seq<char>>) -> Seq<Seq<char>> {
    if d.len() > MAX_DIFFERENCES {
        d.take(MAX_DIFFERENCES as int).push(truncation_notice((d.len() - MAX_DIFFERENCES) as nat))
    } else {
        d
    }
}

/// The views of a list of strings.
pub open spec fn strings_view(v: Seq<std::string::String>) -> Seq<Seq<char>> {
    v.map_values(|s: std::string::String| s@)
}

impl CompareReport {
    /// The report of a comparison that found `differences` (in order) and
    /// skipped `excluded`: equal exactly when nothing differed.
    pub fn finish(differences: Vec<std::string::String>, excluded: Vec<std::string::String>) -> (r: CompareReport)
        ensures
            r.equal == (differences@.len() == 0),
            strings_view(r.differences@) == capped_differences(strings_view(differences@)),
            r.excluded@ == excluded@,
    {
        let mut differences = differences;
        let ghost all = strings_view(differences@);
        if differences.len() > MAX_DIFFERENCES {
            let extra: usize = differences.len() - MAX_DIFFERENCES;
            differences.truncate(MAX_DIFFERENCES);
            let mut notice = owned("... ");
            let count = decimal_string(extra as u64);
            notice.push_str(count.as_str());
            notice.push_str(" more differences truncated");
            proof {
                reveal_strlit("... ");
                reveal_strlit(" more differences truncated");
            }
            differences.push(notice);
            assert(strings_view(differences@) =~= capped_differences(all));
        }
        let equal = differences.len() == 0;
        CompareReport { equal, differences, excluded }
    }
}

} // verus!
