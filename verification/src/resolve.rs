//! Appearance dereferencing for the dataset comparison.
//!
//! Two independently produced files number their appearance definitions
//! differently, so the comparison never looks at index numbers: each
//! geometry's `material`/`texture` map has every index replaced by the
//! definition it names (and every texture UV index by its `[u, v]` pair)
//! before the two sides are compared. With no definitions to resolve
//! against, an index passes through unchanged.

use vstd::prelude::*;
use crate::error::{CityParquetError, Result};
use crate::json::{
    JsonNumber, JsonValue, JsonView, NumView, as_u64_spec, member, clone_json, fields_view, get_spec, items_view,
    lemma_fields_view, lemma_items_view,
};
use crate::shells::schema_err;
use crate::interner::{
    index_of, lemma_index_stable, mat_fields_refs, mat_index_out, mat_index_refs, mat_items_out, mat_items_refs,
    mat_map_out, mat_map_refs, mat_theme_out, mat_theme_refs, mat_tree_out, mat_tree_refs, no_dups,
    is_ring, lemma_tex_items_out_index, lemma_tex_items_sub, ring_out, ring_refs, tex_fields_refs, tex_items_out,
    tex_items_refs, tex_map_out, tex_map_refs, tex_theme_refs, tex_tree_out, tex_tree_refs, uv_ok, uv_pair,
};
use crate::canonical::{nested_themes, nested_themes_fit, realign_nested_themes};
use crate::properties::{realign_appearance_themes, realign_themes};
use crate::shells::strictly_increasing;
use crate::text::{decimal_string, owned};

verus! {

/// The appearance definitions a geometry's indices resolve against: the
/// materials, the textures and the texture vertices (`[u, v]` pairs) of its
/// feature (or of the document, for a template).
pub struct AppearanceDefs {
    pub materials: Vec<JsonValue>,
    pub textures: Vec<JsonValue>,
    pub vertices_texture: Vec<Vec<JsonValue>>,
}

impl AppearanceDefs {
    pub open spec fn mats(&self) -> Seq<JsonView> {
        items_view(self.materials@)
    }

    pub open spec fn texs(&self) -> Seq<JsonView> {
        items_view(self.textures@)
    }

    pub open spec fn uvs(&self) -> Seq<Seq<JsonView>> {
        self.vertices_texture@.map_values(|e: Vec<JsonValue>| items_view(e@))
    }

    /// No definitions at all.
    pub fn empty() -> (r: Self)
        ensures
            r.mats().len() == 0,
            r.texs().len() == 0,
            r.uvs().len() == 0,
    {
        AppearanceDefs { materials: Vec::new(), textures: Vec::new(), vertices_texture: Vec::new() }
    }
}

// ------------------------------------------------------------ materials ----

/// A number naming a definition: passed through when there are no
/// definitions, else the definition at that non-negative integer position
/// (`None` when it is not one, or out of range).
pub open spec fn pick_spec(n: JsonView, defs: Seq<JsonView>) -> Option<JsonView> {
    if defs.len() == 0 {
        Some(n)
    } else {
        match as_u64_spec(n) {
            Some(i) => if i < defs.len() { Some(defs[i as int]) } else { None },
            None => None,
        }
    }
}

/// One material index resolved: `null` stays, a number is picked.
pub open spec fn res_mat_index(v: JsonView, mats: Seq<JsonView>) -> Option<JsonView> {
    match v {
        JsonView::Null => Some(JsonView::Null),
        JsonView::Number(_) => pick_spec(v, mats),
        _ => None,
    }
}

/// A material `values` tree resolved leaf by leaf.
pub open spec fn res_mat_tree(v: JsonView, mats: Seq<JsonView>) -> Option<JsonView>
    decreases v,
{
    match v {
        JsonView::Array(items) => match res_mat_items(items, mats) {
            Some(xs) => Some(JsonView::Array(xs)),
            None => None,
        },
        _ => res_mat_index(v, mats),
    }
}

pub open spec fn res_mat_items(items: Seq<JsonView>, mats: Seq<JsonView>) -> Option<Seq<JsonView>>
    decreases items,
{
    if items.len() == 0 {
        Some(Seq::empty())
    } else {
        match (res_mat_items(items.drop_last(), mats), res_mat_tree(items.last(), mats)) {
            (Some(a), Some(b)) => Some(a.push(b)),
            _ => None,
        }
    }
}

/// One theme of a material map resolved: its `value`, then its `values`,
/// each when present.
pub open spec fn res_mat_theme(inner: JsonView, mats: Seq<JsonView>) -> Option<JsonView> {
    match inner {
        JsonView::Object(_) => {
            let a = match get_spec(inner, "value"@) {
                Some(x) => match res_mat_index(x, mats) {
                    Some(y) => Some(seq![("value"@, y)]),
                    None => None,
                },
                None => Some(Seq::empty()),
            };
            let b = match get_spec(inner, "values"@) {
                Some(x) => match res_mat_tree(x, mats) {
                    Some(y) => Some(seq![("values"@, y)]),
                    None => None,
                },
                None => Some(Seq::empty()),
            };
            match (a, b) {
                (Some(a), Some(b)) => Some(JsonView::Object(a + b)),
                _ => None,
            }
        },
        _ => None,
    }
}

pub open spec fn res_mat_fields(fields: Seq<(Seq<char>, JsonView)>, mats: Seq<JsonView>) -> Option<Seq<(Seq<char>, JsonView)>>
    decreases fields.len(),
{
    if fields.len() == 0 {
        Some(Seq::empty())
    } else {
        match (res_mat_fields(fields.drop_last(), mats), res_mat_theme(fields.last().1, mats)) {
            (Some(a), Some(b)) => Some(a.push((fields.last().0, b))),
            _ => None,
        }
    }
}

/// A whole material map resolved, theme by theme; `None` when it is refused.
pub open spec fn res_mat_map(map: JsonView, mats: Seq<JsonView>) -> Option<JsonView> {
    match map {
        JsonView::Object(fields) => match res_mat_fields(fields, mats) {
            Some(fs) => Some(JsonView::Object(fs)),
            None => None,
        },
        _ => None,
    }
}

proof fn lemma_mat_items_none(items: Seq<JsonView>, mats: Seq<JsonView>, i: int)
    requires
        0 <= i <= items.len(),
        res_mat_items(items.take(i), mats) is None,
    ensures
        res_mat_items(items, mats) is None,
    decreases items.len() - i,
{
    if i < items.len() {
        assert(items.take(i + 1).drop_last() =~= items.take(i));
        lemma_mat_items_none(items, mats, i + 1);
    } else {
        assert(items.take(i) =~= items);
    }
}

proof fn lemma_mat_fields_none(fields: Seq<(Seq<char>, JsonView)>, mats: Seq<JsonView>, i: int)
    requires
        0 <= i <= fields.len(),
        res_mat_fields(fields.take(i), mats) is None,
    ensures
        res_mat_fields(fields, mats) is None,
    decreases fields.len() - i,
{
    if i < fields.len() {
        assert(fields.take(i + 1).drop_last() =~= fields.take(i));
        lemma_mat_fields_none(fields, mats, i + 1);
    } else {
        assert(fields.take(i) =~= fields);
    }
}

/// The definition a number names among `defs` (the number itself when
/// there are none).
fn pick(n: &JsonValue, defs: &Vec<JsonValue>, what: &str) -> (r: Result<JsonValue>)
    ensures
        match pick_spec(n@, items_view(defs@)) {
            Some(x) => r matches Ok(y) && y@ == x,
            None => r matches Err(CityParquetError::Schema(_)),
        },
{
    proof {
        lemma_items_view(defs@);
    }
    if defs.len() == 0 {
        return Ok(clone_json(n));
    }
    match n.as_u64() {
        Some(i) => {
            if i < defs.len() as u64 {
                Ok(clone_json(&defs[i as usize]))
            } else {
                let mut m = owned(what);
                m.push_str(" index ");
                m.push_str(decimal_string(i).as_str());
                m.push_str(" out of range (have ");
                m.push_str(decimal_string(defs.len() as u64).as_str());
                m.push_str(" definitions)");
                Err(CityParquetError::Schema(m))
            }
        },
        None => {
            let mut m = owned(what);
            m.push_str(" index is not a non-negative integer");
            Err(CityParquetError::Schema(m))
        },
    }
}

/// One material index resolved to the definition it names.
pub fn resolve_material_index(v: &JsonValue, defs: &AppearanceDefs) -> (r: Result<JsonValue>)
    ensures
        match res_mat_index(v@, defs.mats()) {
            Some(x) => r matches Ok(y) && y@ == x,
            None => r matches Err(CityParquetError::Schema(_)),
        },
{
    match v {
        JsonValue::Null => Ok(JsonValue::Null),
        JsonValue::Number(_) => pick(v, &defs.materials, "material"),
        _ => Err(schema_err("material index must be an integer or null")),
    }
}

/// A material `values` tree (nested for the solid types, flat for the
/// surface lists) with every leaf index resolved.
pub fn resolve_material_tree(v: &JsonValue, defs: &AppearanceDefs) -> (r: Result<JsonValue>)
    ensures
        match res_mat_tree(v@, defs.mats()) {
            Some(x) => r matches Ok(y) && y@ == x,
            None => r matches Err(CityParquetError::Schema(_)),
        },
    decreases v,
{
    match v {
        JsonValue::Array(items) => {
            proof {
                lemma_items_view(items@);
            }
            let ghost iv = items_view(items@);
            let mut out: Vec<JsonValue> = Vec::new();
            let mut i: usize = 0;
            assert(iv.take(0) =~= Seq::<JsonView>::empty());
            proof {
                lemma_items_view(out@);
            }
            while i < items.len()
                invariant
                    i <= items@.len(),
                    *v == JsonValue::Array(*items),
                    iv == items_view(items@),
                    iv.len() == items@.len(),
                    forall|j: int| 0 <= j < items@.len() ==> #[trigger] iv[j] == items@[j]@,
                    res_mat_items(iv.take(i as int), defs.mats()) == Some(items_view(out@)),
                decreases items.len() - i,
            {
                assert(iv.take(i + 1).drop_last() =~= iv.take(i as int));
                assert(iv.take(i + 1).last() == iv[i as int]);
                proof {
                    assert(decreases_to!(*v => (*v)->Array_0));
                    vstd::std_specs::vec::axiom_vec_index_decreases(*items, i as int);
                }
                match resolve_material_tree(&items[i], defs) {
                    Ok(x) => {
                        let ghost before = out@;
                        out.push(x);
                        assert(out@.drop_last() =~= before);
                    },
                    Err(e) => {
                        proof {
                            lemma_mat_items_none(iv, defs.mats(), i + 1);
                        }
                        return Err(e);
                    },
                }
                i = i + 1;
            }
            assert(iv.take(items.len() as int) =~= iv);
            Ok(JsonValue::Array(out))
        },
        _ => resolve_material_index(v, defs),
    }
}

fn resolve_material_theme(inner: &JsonValue, defs: &AppearanceDefs) -> (r: Result<JsonValue>)
    ensures
        match res_mat_theme(inner@, defs.mats()) {
            Some(x) => r matches Ok(y) && y@ == x,
            None => r matches Err(CityParquetError::Schema(_)),
        },
{
    match inner {
        JsonValue::Object(_) => {},
        _ => return Err(schema_err("material theme must be an object")),
    }
    let mut fields: Vec<(std::string::String, JsonValue)> = Vec::new();
    match inner.get("value") {
        Some(x) => {
            let y = resolve_material_index(x, defs)?;
            fields.push((owned("value"), y));
        },
        None => {},
    }
    match inner.get("values") {
        Some(x) => {
            let y = resolve_material_tree(x, defs)?;
            fields.push((owned("values"), y));
        },
        None => {},
    }
    proof {
        lemma_fields_view(fields@);
        let m = defs.mats();
        let a = match get_spec(inner@, "value"@) {
            Some(x) => seq![("value"@, res_mat_index(x, m)->Some_0)],
            None => Seq::empty(),
        };
        let b = match get_spec(inner@, "values"@) {
            Some(x) => seq![("values"@, res_mat_tree(x, m)->Some_0)],
            None => Seq::empty(),
        };
        assert(fields_view(fields@) =~= a + b);
    }
    Ok(JsonValue::Object(fields))
}

/// One geometry's whole `material` map (`{"<theme>": {"value": i} |
/// {"values": <tree>}}`) with every index resolved to the definition it
/// names; a map that is not an object of theme objects, or an index that is
/// not `null` or (with definitions present) a non-negative integer in range,
/// is a `Schema` error.
pub fn resolve_material_map(map: &JsonValue, defs: &AppearanceDefs) -> (r: Result<JsonValue>)
    ensures
        match res_mat_map(map@, defs.mats()) {
            Some(x) => r matches Ok(y) && y@ == x,
            None => r matches Err(CityParquetError::Schema(_)),
        },
{
    let fields = match map {
        JsonValue::Object(fields) => fields,
        _ => return Err(schema_err("material map must be a JSON object of theme -> {value|values}")),
    };
    proof {
        lemma_fields_view(fields@);
    }
    let ghost fv = fields_view(fields@);
    let mut out: Vec<(std::string::String, JsonValue)> = Vec::new();
    let mut i: usize = 0;
    assert(fv.take(0) =~= Seq::<(Seq<char>, JsonView)>::empty());
    proof {
        lemma_fields_view(out@);
    }
    while i < fields.len()
        invariant
            i <= fields@.len(),
            *map == JsonValue::Object(*fields),
            fv == fields_view(fields@),
            fv.len() == fields@.len(),
            forall|j: int| 0 <= j < fields@.len() ==> #[trigger] fv[j] == (fields@[j].0@, fields@[j].1@),
            res_mat_fields(fv.take(i as int), defs.mats()) == Some(fields_view(out@)),
        decreases fields.len() - i,
    {
        assert(fv.take(i + 1).drop_last() =~= fv.take(i as int));
        assert(fv.take(i + 1).last() == fv[i as int]);
        match resolve_material_theme(&fields[i].1, defs) {
            Ok(x) => {
                let ghost before = out@;
                out.push((owned(fields[i].0.as_str()), x));
                proof {
                    assert(out@.drop_last() =~= before);
                }
            },
            Err(e) => {
                proof {
                    lemma_mat_fields_none(fv, defs.mats(), i + 1);
                }
                return Err(e);
            },
        }
        i = i + 1;
    }
    assert(fv.take(fields.len() as int) =~= fv);
    Ok(JsonValue::Object(out))
}

// ------------------------------------------------------------ textures ----

/// A texture ring: a non-empty array whose first element (the texture
/// index) is a number or `null`.
pub open spec fn is_ring_spec(items: Seq<JsonView>) -> bool {
    items.len() > 0 && (items[0] is Number || items[0] is Null)
}

/// One UV index resolved to its `[u, v]` pair (passed through when there
/// are no texture vertices); `None` when it is not a non-negative integer,
/// is out of range, or names an entry with fewer than two coordinates.
pub open spec fn res_uv(uv: JsonView, uvs: Seq<Seq<JsonView>>) -> Option<JsonView> {
    if uvs.len() == 0 {
        Some(uv)
    } else {
        match as_u64_spec(uv) {
            Some(i) => if i < uvs.len() && uvs[i as int].len() >= 2 {
                Some(JsonView::Array(seq![uvs[i as int][0], uvs[i as int][1]]))
            } else {
                None
            },
            None => None,
        }
    }
}

pub open spec fn res_uvs(s: Seq<JsonView>, uvs: Seq<Seq<JsonView>>) -> Option<Seq<JsonView>>
    decreases s.len(),
{
    if s.len() == 0 {
        Some(Seq::empty())
    } else {
        match (res_uvs(s.drop_last(), uvs), res_uv(s.last(), uvs)) {
            (Some(a), Some(b)) => Some(a.push(b)),
            _ => None,
        }
    }
}

/// A ring's texture index resolved: `null` stays, a number is picked.
pub open spec fn res_tex_head(v: JsonView, texs: Seq<JsonView>) -> Option<JsonView> {
    match v {
        JsonView::Null => Some(JsonView::Null),
        JsonView::Number(_) => pick_spec(v, texs),
        _ => None,
    }
}

/// A ring resolved: `[t, uv0, uv1, ...]` becomes `[<texture>, [u0, v0],
/// [u1, v1], ...]`; `[null]` stays.
pub open spec fn res_ring(items: Seq<JsonView>, texs: Seq<JsonView>, uvs: Seq<Seq<JsonView>>) -> Option<JsonView> {
    if items.len() == 1 && items[0] is Null {
        Some(JsonView::Array(seq![JsonView::Null]))
    } else {
        match (res_tex_head(items[0], texs), res_uvs(items.skip(1), uvs)) {
            (Some(h), Some(t)) => Some(JsonView::Array(seq![h] + t)),
            _ => None,
        }
    }
}

/// A texture `values` tree resolved down to its rings; a non-array node is
/// refused.
pub open spec fn res_tex_tree(v: JsonView, texs: Seq<JsonView>, uvs: Seq<Seq<JsonView>>) -> Option<JsonView>
    decreases v,
{
    match v {
        JsonView::Array(items) => if is_ring_spec(items) {
            res_ring(items, texs, uvs)
        } else {
            match res_tex_items(items, texs, uvs) {
                Some(xs) => Some(JsonView::Array(xs)),
                None => None,
            }
        },
        _ => None,
    }
}

pub open spec fn res_tex_items(items: Seq<JsonView>, texs: Seq<JsonView>, uvs: Seq<Seq<JsonView>>) -> Option<Seq<JsonView>>
    decreases items,
{
    if items.len() == 0 {
        Some(Seq::empty())
    } else {
        match (res_tex_items(items.drop_last(), texs, uvs), res_tex_tree(items.last(), texs, uvs)) {
            (Some(a), Some(b)) => Some(a.push(b)),
            _ => None,
        }
    }
}

/// One theme of a texture map resolved: an object whose `values` tree is
/// resolved; it must have one.
pub open spec fn res_tex_theme(inner: JsonView, texs: Seq<JsonView>, uvs: Seq<Seq<JsonView>>) -> Option<JsonView> {
    match inner {
        JsonView::Object(_) => match get_spec(inner, "values"@) {
            Some(x) => match res_tex_tree(x, texs, uvs) {
                Some(y) => Some(JsonView::Object(seq![("values"@, y)])),
                None => None,
            },
            None => None,
        },
        _ => None,
    }
}

pub open spec fn res_tex_fields(fields: Seq<(Seq<char>, JsonView)>, texs: Seq<JsonView>, uvs: Seq<Seq<JsonView>>) -> Option<Seq<(Seq<char>, JsonView)>>
    decreases fields.len(),
{
    if fields.len() == 0 {
        Some(Seq::empty())
    } else {
        match (res_tex_fields(fields.drop_last(), texs, uvs), res_tex_theme(fields.last().1, texs, uvs)) {
            (Some(a), Some(b)) => Some(a.push((fields.last().0, b))),
            _ => None,
        }
    }
}

/// A whole texture map resolved, theme by theme; `None` when it is refused.
pub open spec fn res_tex_map(map: JsonView, texs: Seq<JsonView>, uvs: Seq<Seq<JsonView>>) -> Option<JsonView> {
    match map {
        JsonView::Object(fields) => match res_tex_fields(fields, texs, uvs) {
            Some(fs) => Some(JsonView::Object(fs)),
            None => None,
        },
        _ => None,
    }
}

proof fn lemma_uvs_none(s: Seq<JsonView>, uvs: Seq<Seq<JsonView>>, i: int)
    requires
        0 <= i <= s.len(),
        res_uvs(s.take(i), uvs) is None,
    ensures
        res_uvs(s, uvs) is None,
    decreases s.len() - i,
{
    if i < s.len() {
        assert(s.take(i + 1).drop_last() =~= s.take(i));
        lemma_uvs_none(s, uvs, i + 1);
    } else {
        assert(s.take(i) =~= s);
    }
}

proof fn lemma_tex_items_none(items: Seq<JsonView>, texs: Seq<JsonView>, uvs: Seq<Seq<JsonView>>, i: int)
    requires
        0 <= i <= items.len(),
        res_tex_items(items.take(i), texs, uvs) is None,
    ensures
        res_tex_items(items, texs, uvs) is None,
    decreases items.len() - i,
{
    if i < items.len() {
        assert(items.take(i + 1).drop_last() =~= items.take(i));
        lemma_tex_items_none(items, texs, uvs, i + 1);
    } else {
        assert(items.take(i) =~= items);
    }
}

proof fn lemma_tex_fields_none(fields: Seq<(Seq<char>, JsonView)>, texs: Seq<JsonView>, uvs: Seq<Seq<JsonView>>, i: int)
    requires
        0 <= i <= fields.len(),
        res_tex_fields(fields.take(i), texs, uvs) is None,
    ensures
        res_tex_fields(fields, texs, uvs) is None,
    decreases fields.len() - i,
{
    if i < fields.len() {
        assert(fields.take(i + 1).drop_last() =~= fields.take(i));
        lemma_tex_fields_none(fields, texs, uvs, i + 1);
    } else {
        assert(fields.take(i) =~= fields);
    }
}

/// Whether `items` is a texture ring.
pub fn is_texture_ring(items: &Vec<JsonValue>) -> (r: bool)
    ensures
        r == is_ring_spec(items_view(items@)),
{
    proof {
        lemma_items_view(items@);
    }
    if items.len() == 0 {
        return false;
    }
    match &items[0] {
        JsonValue::Number(_) | JsonValue::Null => true,
        _ => false,
    }
}

/// One UV index resolved to its `[u, v]` pair.
fn resolve_uv(uv: &JsonValue, defs: &AppearanceDefs) -> (r: Result<JsonValue>)
    ensures
        match res_uv(uv@, defs.uvs()) {
            Some(x) => r matches Ok(y) && y@ == x,
            None => r matches Err(CityParquetError::Schema(_)),
        },
{
    let vt = &defs.vertices_texture;
    if vt.len() == 0 {
        return Ok(clone_json(uv));
    }
    let i = match uv.as_u64() {
        Some(i) => i,
        None => return Err(schema_err("vertex-texture index is not a non-negative integer")),
    };
    if i >= vt.len() as u64 {
        let mut m = owned("vertex-texture index ");
        m.push_str(decimal_string(i).as_str());
        m.push_str(" out of range (have ");
        m.push_str(decimal_string(vt.len() as u64).as_str());
        m.push_str(" entries)");
        return Err(CityParquetError::Schema(m));
    }
    let pair = &vt[i as usize];
    proof {
        lemma_items_view(pair@);
        assert(defs.uvs()[i as int] == items_view(pair@));
    }
    if pair.len() < 2 {
        let mut m = owned("vertex-texture entry ");
        m.push_str(decimal_string(i).as_str());
        m.push_str(" is malformed: expected [u, v], got ");
        m.push_str(decimal_string(pair.len() as u64).as_str());
        m.push_str(" coordinate(s)");
        return Err(CityParquetError::Schema(m));
    }
    let mut out: Vec<JsonValue> = Vec::new();
    out.push(clone_json(&pair[0]));
    out.push(clone_json(&pair[1]));
    proof {
        lemma_items_view(out@);
        assert(items_view(out@) =~= seq![items_view(pair@)[0], items_view(pair@)[1]]);
    }
    Ok(JsonValue::Array(out))
}

/// One texture ring with its texture index and every UV index resolved.
fn resolve_texture_ring(items: &Vec<JsonValue>, defs: &AppearanceDefs) -> (r: Result<JsonValue>)
    requires
        is_ring_spec(items_view(items@)),
    ensures
        match res_ring(items_view(items@), defs.texs(), defs.uvs()) {
            Some(x) => r matches Ok(y) && y@ == x,
            None => r matches Err(CityParquetError::Schema(_)),
        },
{
    proof {
        lemma_items_view(items@);
    }
    let ghost iv = items_view(items@);
    if items.len() == 1 && items[0].is_null() {
        let mut out: Vec<JsonValue> = Vec::new();
        out.push(JsonValue::Null);
        proof {
            lemma_items_view(out@);
            assert(items_view(out@) =~= seq![JsonView::Null]);
        }
        return Ok(JsonValue::Array(out));
    }
    let head = match &items[0] {
        JsonValue::Null => JsonValue::Null,
        _ => pick(&items[0], &defs.textures, "texture")?,
    };
    let mut out: Vec<JsonValue> = Vec::new();
    out.push(head);
    let ghost rest = iv.skip(1);
    let mut i: usize = 1;
    assert(rest.take(0) =~= Seq::<JsonView>::empty());
    proof {
        lemma_items_view(out@);
        assert(items_view(out@) =~= seq![res_tex_head(iv[0], defs.texs())->Some_0] + Seq::<JsonView>::empty());
    }
    while i < items.len()
        invariant
            1 <= i <= items@.len(),
            iv == items_view(items@),
            iv.len() == items@.len(),
            rest == iv.skip(1),
            forall|j: int| 0 <= j < items@.len() ==> #[trigger] iv[j] == items@[j]@,
            res_tex_head(iv[0], defs.texs()) is Some,
            res_uvs(rest.take(i - 1), defs.uvs()) matches Some(t)
                && items_view(out@) == seq![res_tex_head(iv[0], defs.texs())->Some_0] + t,
        decreases items.len() - i,
    {
        assert(rest.take(i as int).drop_last() =~= rest.take(i - 1));
        assert(rest.take(i as int).last() == iv[i as int]);
        match resolve_uv(&items[i], defs) {
            Ok(x) => {
                let ghost before = out@;
                out.push(x);
                proof {
                    assert(out@.drop_last() =~= before);
                    lemma_items_view(out@);
                    lemma_items_view(before);
                    let t = res_uvs(rest.take(i - 1), defs.uvs())->Some_0;
                    assert(items_view(out@) =~= seq![res_tex_head(iv[0], defs.texs())->Some_0] + t.push(x@));
                }
            },
            Err(e) => {
                proof {
                    lemma_uvs_none(rest, defs.uvs(), i as int);
                }
                return Err(e);
            },
        }
        i = i + 1;
    }
    assert(rest.take(items.len() - 1) =~= rest);
    Ok(JsonValue::Array(out))
}

/// A texture `values` tree with every ring resolved.
pub fn resolve_texture_tree(v: &JsonValue, defs: &AppearanceDefs) -> (r: Result<JsonValue>)
    ensures
        match res_tex_tree(v@, defs.texs(), defs.uvs()) {
            Some(x) => r matches Ok(y) && y@ == x,
            None => r matches Err(CityParquetError::Schema(_)),
        },
    decreases v,
{
    let items = match v {
        JsonValue::Array(items) => items,
        _ => return Err(schema_err("unexpected non-array node in texture tree")),
    };
    if is_texture_ring(items) {
        return resolve_texture_ring(items, defs);
    }
    proof {
        lemma_items_view(items@);
    }
    let ghost iv = items_view(items@);
    let mut out: Vec<JsonValue> = Vec::new();
    let mut i: usize = 0;
    assert(iv.take(0) =~= Seq::<JsonView>::empty());
    proof {
        lemma_items_view(out@);
    }
    while i < items.len()
        invariant
            i <= items@.len(),
            *v == JsonValue::Array(*items),
            iv == items_view(items@),
            iv.len() == items@.len(),
            forall|j: int| 0 <= j < items@.len() ==> #[trigger] iv[j] == items@[j]@,
            !is_ring_spec(iv),
            res_tex_items(iv.take(i as int), defs.texs(), defs.uvs()) == Some(items_view(out@)),
        decreases items.len() - i,
    {
        assert(iv.take(i + 1).drop_last() =~= iv.take(i as int));
        assert(iv.take(i + 1).last() == iv[i as int]);
        proof {
            assert(decreases_to!(*v => (*v)->Array_0));
            vstd::std_specs::vec::axiom_vec_index_decreases(*items, i as int);
        }
        match resolve_texture_tree(&items[i], defs) {
            Ok(x) => {
                let ghost before = out@;
                out.push(x);
                assert(out@.drop_last() =~= before);
            },
            Err(e) => {
                proof {
                    lemma_tex_items_none(iv, defs.texs(), defs.uvs(), i + 1);
                }
                return Err(e);
            },
        }
        i = i + 1;
    }
    assert(iv.take(items.len() as int) =~= iv);
    Ok(JsonValue::Array(out))
}

fn resolve_texture_theme(inner: &JsonValue, defs: &AppearanceDefs) -> (r: Result<JsonValue>)
    ensures
        match res_tex_theme(inner@, defs.texs(), defs.uvs()) {
            Some(x) => r matches Ok(y) && y@ == x,
            None => r matches Err(CityParquetError::Schema(_)),
        },
{
    match inner {
        JsonValue::Object(_) => {},
        _ => return Err(schema_err("texture theme must be an object")),
    }
    let values = match inner.get("values") {
        Some(x) => x,
        None => return Err(schema_err("texture theme is missing 'values'")),
    };
    let y = resolve_texture_tree(values, defs)?;
    let mut fields: Vec<(std::string::String, JsonValue)> = Vec::new();
    fields.push((owned("values"), y));
    proof {
        lemma_fields_view(fields@);
        assert(fields_view(fields@) =~= seq![("values"@, res_tex_tree(values@, defs.texs(), defs.uvs())->Some_0)]);
    }
    Ok(JsonValue::Object(fields))
}

/// One geometry's whole `texture` map (`{"<theme>": {"values": <tree>}}`)
/// with every ring resolved; a map that is not an object of theme objects
/// each with a `values` tree of arrays, or an index that does not resolve,
/// is a `Schema` error.
pub fn resolve_texture_map(map: &JsonValue, defs: &AppearanceDefs) -> (r: Result<JsonValue>)
    ensures
        match res_tex_map(map@, defs.texs(), defs.uvs()) {
            Some(x) => r matches Ok(y) && y@ == x,
            None => r matches Err(CityParquetError::Schema(_)),
        },
{
    let fields = match map {
        JsonValue::Object(fields) => fields,
        _ => return Err(schema_err("texture map must be a JSON object of theme -> {values}")),
    };
    proof {
        lemma_fields_view(fields@);
    }
    let ghost fv = fields_view(fields@);
    let mut out: Vec<(std::string::String, JsonValue)> = Vec::new();
    let mut i: usize = 0;
    assert(fv.take(0) =~= Seq::<(Seq<char>, JsonView)>::empty());
    proof {
        lemma_fields_view(out@);
    }
    while i < fields.len()
        invariant
            i <= fields@.len(),
            *map == JsonValue::Object(*fields),
            fv == fields_view(fields@),
            fv.len() == fields@.len(),
            forall|j: int| 0 <= j < fields@.len() ==> #[trigger] fv[j] == (fields@[j].0@, fields@[j].1@),
            res_tex_fields(fv.take(i as int), defs.texs(), defs.uvs()) == Some(fields_view(out@)),
        decreases fields.len() - i,
    {
        assert(fv.take(i + 1).drop_last() =~= fv.take(i as int));
        assert(fv.take(i + 1).last() == fv[i as int]);
        match resolve_texture_theme(&fields[i].1, defs) {
            Ok(x) => {
                let ghost before = out@;
                out.push((owned(fields[i].0.as_str()), x));
                proof {
                    assert(out@.drop_last() =~= before);
                }
            },
            Err(e) => {
                proof {
                    lemma_tex_fields_none(fv, defs.texs(), defs.uvs(), i + 1);
                }
                return Err(e);
            },
        }
        i = i + 1;
    }
    assert(fv.take(fields.len() as int) =~= fv);
    Ok(JsonValue::Object(out))
}

// ------------------------------------------------------------ realigned maps ----

/// The map a realigned comparison resolves: the raw map, with each theme's
/// flat `values` realigned for the dropped surfaces when there are any.
pub open spec fn flat_raw(map: JsonView, dropped: Seq<usize>) -> JsonView {
    if dropped.len() == 0 { map } else { realign_themes(map, dropped) }
}

/// The map a realigned comparison resolves for a solid type: each theme's
/// nested `values` realigned `depth` levels deep when there are drops.
pub open spec fn nested_raw(map: JsonView, depth: nat, dropped: Seq<usize>) -> JsonView {
    if dropped.len() == 0 { map } else { nested_themes(map, depth, dropped) }
}

/// What a realigned comparison of a map gives: nothing without a map or
/// without definitions (appearance excluded), else the resolved map, or a
/// `Schema` error when it does not resolve.
pub open spec fn realigned_result(r: Result<Option<JsonValue>>, map: Option<&JsonValue>, raw: JsonView, defs: Option<&AppearanceDefs>, resolved: Option<JsonView>) -> bool {
    match (map, defs) {
        (Some(_), Some(_)) => match resolved {
            Some(x) => r matches Ok(Some(y)) && y@ == x,
            None => r matches Err(CityParquetError::Schema(_)),
        },
        _ => r matches Ok(None),
    }
}

/// One geometry's `material` map (surface-list and non-polygonal types):
/// realigned for the surfaces normalisation dropped, then resolved. The
/// realignment comes first, so an index that only sits at a dropped
/// position is never resolved. Nothing when the map or the definitions are
/// absent.
pub fn realigned_material(map: Option<&JsonValue>, dropped_surfaces: &[usize], defs: Option<&AppearanceDefs>) -> (r: Result<Option<JsonValue>>)
    requires
        strictly_increasing(dropped_surfaces@),
    ensures
        realigned_result(r, map, flat_raw(map.unwrap()@, dropped_surfaces@), defs,
            res_mat_map(flat_raw(map.unwrap()@, dropped_surfaces@), defs.unwrap().mats())),
{
    let (m, d) = match (map, defs) {
        (Some(m), Some(d)) => (m, d),
        _ => return Ok(None),
    };
    let mut raw = clone_json(m);
    if dropped_surfaces.len() > 0 {
        realign_appearance_themes(&mut raw, dropped_surfaces);
    }
    let v = resolve_material_map(&raw, d)?;
    Ok(Some(v))
}

/// One geometry's `texture` map: the texture counterpart of
/// [`realigned_material`].
pub fn realigned_texture(map: Option<&JsonValue>, dropped_surfaces: &[usize], defs: Option<&AppearanceDefs>) -> (r: Result<Option<JsonValue>>)
    requires
        strictly_increasing(dropped_surfaces@),
    ensures
        realigned_result(r, map, flat_raw(map.unwrap()@, dropped_surfaces@), defs,
            res_tex_map(flat_raw(map.unwrap()@, dropped_surfaces@), defs.unwrap().texs(), defs.unwrap().uvs())),
{
    let (m, d) = match (map, defs) {
        (Some(m), Some(d)) => (m, d),
        _ => return Ok(None),
    };
    let mut raw = clone_json(m);
    if dropped_surfaces.len() > 0 {
        realign_appearance_themes(&mut raw, dropped_surfaces);
    }
    let v = resolve_texture_map(&raw, d)?;
    Ok(Some(v))
}

/// One solid-type geometry's `material` map: each theme's `values` tree
/// realigned `depth` shell/solid levels deep for the dropped faces, then
/// resolved.
pub fn realigned_nested_material(map: Option<&JsonValue>, depth: usize, dropped: &[usize], defs: Option<&AppearanceDefs>) -> (r: Result<Option<JsonValue>>)
    requires
        map is Some && dropped@.len() > 0 ==> nested_themes_fit(map.unwrap()@, depth as nat, dropped@),
    ensures
        realigned_result(r, map, nested_raw(map.unwrap()@, depth as nat, dropped@), defs,
            res_mat_map(nested_raw(map.unwrap()@, depth as nat, dropped@), defs.unwrap().mats())),
{
    let (m, d) = match (map, defs) {
        (Some(m), Some(d)) => (m, d),
        _ => return Ok(None),
    };
    let raw = if dropped.len() > 0 { realign_nested_themes(m, depth, dropped) } else { clone_json(m) };
    let v = resolve_material_map(&raw, d)?;
    Ok(Some(v))
}

/// One solid-type geometry's `texture` map: the texture counterpart of
/// [`realigned_nested_material`].
pub fn realigned_nested_texture(map: Option<&JsonValue>, depth: usize, dropped: &[usize], defs: Option<&AppearanceDefs>) -> (r: Result<Option<JsonValue>>)
    requires
        map is Some && dropped@.len() > 0 ==> nested_themes_fit(map.unwrap()@, depth as nat, dropped@),
    ensures
        realigned_result(r, map, nested_raw(map.unwrap()@, depth as nat, dropped@), defs,
            res_tex_map(nested_raw(map.unwrap()@, depth as nat, dropped@), defs.unwrap().texs(), defs.unwrap().uvs())),
{
    let (m, d) = match (map, defs) {
        (Some(m), Some(d)) => (m, d),
        _ => return Ok(None),
    };
    let raw = if dropped.len() > 0 { realign_nested_themes(m, depth, dropped) } else { clone_json(m) };
    let v = resolve_texture_map(&raw, d)?;
    Ok(Some(v))
}

// ------------------------------------------------------------ round trip ----

/// Every definition `refs` names is in `pool`.
pub open spec fn in_pool(refs: Seq<nat>, defs: Seq<JsonView>, pool: Seq<JsonView>) -> bool {
    forall|k: int| 0 <= k < refs.len() ==> pool.contains(#[trigger] defs[refs[k] as int])
}

pub(crate) proof fn lemma_in_pool_split(a: Seq<nat>, b: Seq<nat>, defs: Seq<JsonView>, pool: Seq<JsonView>)
    requires
        in_pool(a + b, defs, pool),
    ensures
        in_pool(a, defs, pool),
        in_pool(b, defs, pool),
{
    assert forall|k: int| 0 <= k < a.len() implies pool.contains(#[trigger] defs[a[k] as int]) by {
        assert((a + b)[k] == a[k]);
    }
    assert forall|k: int| 0 <= k < b.len() implies pool.contains(#[trigger] defs[b[k] as int]) by {
        assert((a + b)[a.len() + k] == b[k]);
    }
}

/// A global id picks back the definition it was made from.
proof fn lemma_pick_global(pool: Seq<JsonView>, d: JsonView)
    requires
        no_dups(pool),
        pool.contains(d),
        pool.len() <= u64::MAX,
    ensures
        pick_spec(JsonView::Number(NumView::PosInt(index_of(pool, d) as u64)), pool) == Some(d),
{
    lemma_index_stable(pool, pool, d);
    assert((index_of(pool, d) as u64) as nat == index_of(pool, d));
}

proof fn lemma_mat_index_alike(v: JsonView, defs: Seq<JsonView>, pool: Seq<JsonView>)
    requires
        mat_index_refs(v, defs.len()) matches Some(r) && in_pool(r, defs, pool),
        no_dups(pool),
        pool.len() <= u64::MAX,
    ensures
        res_mat_index(v, defs) is Some,
        res_mat_index(mat_index_out(v, pool, defs), pool) == res_mat_index(v, defs),
{
    match v {
        JsonView::Number(NumView::PosInt(i)) => {
            let r = mat_index_refs(v, defs.len())->Some_0;
            assert(r[0] == i as nat);
            assert(pool.contains(defs[i as int]));
            lemma_pick_global(pool, defs[i as int]);
        },
        _ => {},
    }
}

proof fn lemma_mat_tree_alike(v: JsonView, defs: Seq<JsonView>, pool: Seq<JsonView>)
    requires
        mat_tree_refs(v, defs.len()) matches Some(r) && in_pool(r, defs, pool),
        no_dups(pool),
        pool.len() <= u64::MAX,
    ensures
        res_mat_tree(v, defs) is Some,
        res_mat_tree(mat_tree_out(v, pool, defs), pool) == res_mat_tree(v, defs),
    decreases v,
{
    match v {
        JsonView::Array(items) => {
            lemma_mat_items_alike(items, defs, pool);
        },
        _ => {
            lemma_mat_index_alike(v, defs, pool);
        },
    }
}

proof fn lemma_mat_items_alike(items: Seq<JsonView>, defs: Seq<JsonView>, pool: Seq<JsonView>)
    requires
        mat_items_refs(items, defs.len()) matches Some(r) && in_pool(r, defs, pool),
        no_dups(pool),
        pool.len() <= u64::MAX,
    ensures
        res_mat_items(items, defs) is Some,
        res_mat_items(mat_items_out(items, pool, defs), pool) == res_mat_items(items, defs),
    decreases items,
{
    if items.len() > 0 {
        let a = mat_items_refs(items.drop_last(), defs.len())->Some_0;
        let b = mat_tree_refs(items.last(), defs.len())->Some_0;
        lemma_in_pool_split(a, b, defs, pool);
        lemma_mat_items_alike(items.drop_last(), defs, pool);
        lemma_mat_tree_alike(items.last(), defs, pool);
        let out = mat_items_out(items, pool, defs);
        assert(out.drop_last() == mat_items_out(items.drop_last(), pool, defs));
        assert(out.last() == mat_tree_out(items.last(), pool, defs));
    } else {
        assert(mat_items_out(items, pool, defs) =~= Seq::<JsonView>::empty());
    }
}

proof fn lemma_mat_theme_alike(inner: JsonView, defs: Seq<JsonView>, pool: Seq<JsonView>)
    requires
        mat_theme_refs(inner, defs.len()) matches Some(r) && in_pool(r, defs, pool),
        no_dups(pool),
        pool.len() <= u64::MAX,
    ensures
        res_mat_theme(inner, defs) is Some,
        res_mat_theme(mat_theme_out(inner, pool, defs), pool) == res_mat_theme(inner, defs),
{
    reveal_strlit("value");
    reveal_strlit("values");
    let n = defs.len();
    let a = match get_spec(inner, "value"@) { Some(v) => mat_index_refs(v, n), None => Some(Seq::<nat>::empty()) }->Some_0;
    let b = match get_spec(inner, "values"@) { Some(v) => mat_tree_refs(v, n), None => Some(Seq::<nat>::empty()) }->Some_0;
    lemma_in_pool_split(a, b, defs, pool);
    let value_part = match get_spec(inner, "value"@) {
        Some(v) => seq![("value"@, mat_index_out(v, pool, defs))],
        None => Seq::empty(),
    };
    let values_part = match get_spec(inner, "values"@) {
        Some(v) => seq![("values"@, mat_tree_out(v, pool, defs))],
        None => Seq::empty(),
    };
    let fs = value_part + values_part;
    let out = JsonView::Object(fs);
    assert("value"@ != "values"@) by {
        assert("value"@.len() != "values"@.len());
    }
    match get_spec(inner, "value"@) {
        Some(v) => {
            lemma_mat_index_alike(v, defs, pool);
            assert(fs[0] == ("value"@, mat_index_out(v, pool, defs)));
            assert(get_spec(out, "value"@) == Some(mat_index_out(v, pool, defs)));
        },
        None => {},
    }
    match get_spec(inner, "values"@) {
        Some(v) => {
            lemma_mat_tree_alike(v, defs, pool);
            assert(get_spec(out, "values"@) == Some(mat_tree_out(v, pool, defs))) by {
                if value_part.len() == 1 {
                    assert(fs.drop_first() =~= values_part);
                }
            }
        },
        None => {
            if value_part.len() == 1 {
                assert(fs.drop_first() =~= Seq::<(Seq<char>, JsonView)>::empty());
            }
            assert(get_spec(out, "values"@) is None);
        },
    }
    match get_spec(inner, "value"@) {
        Some(_) => {},
        None => {
            assert(get_spec(out, "value"@) is None) by {
                if values_part.len() == 1 {
                    assert(fs[0].0 == "values"@);
                    assert(fs.drop_first() =~= Seq::<(Seq<char>, JsonView)>::empty());
                    assert(member(fs.drop_first(), "value"@) is None);
                } else {
                    assert(fs =~= Seq::<(Seq<char>, JsonView)>::empty());
                }
            }
        },
    }
}

proof fn lemma_mat_fields_alike(fields: Seq<(Seq<char>, JsonView)>, defs: Seq<JsonView>, pool: Seq<JsonView>)
    requires
        mat_fields_refs(fields, defs.len()) matches Some(r) && in_pool(r, defs, pool),
        no_dups(pool),
        pool.len() <= u64::MAX,
    ensures
        res_mat_fields(fields, defs) is Some,
        res_mat_fields(fields.map_values(|f: (Seq<char>, JsonView)| (f.0, mat_theme_out(f.1, pool, defs))), pool)
            == res_mat_fields(fields, defs),
    decreases fields.len(),
{
    let out = fields.map_values(|f: (Seq<char>, JsonView)| (f.0, mat_theme_out(f.1, pool, defs)));
    if fields.len() > 0 {
        let a = mat_fields_refs(fields.drop_last(), defs.len())->Some_0;
        let b = mat_theme_refs(fields.last().1, defs.len())->Some_0;
        lemma_in_pool_split(a, b, defs, pool);
        lemma_mat_fields_alike(fields.drop_last(), defs, pool);
        lemma_mat_theme_alike(fields.last().1, defs, pool);
        assert(out.drop_last() =~= fields.drop_last().map_values(|f: (Seq<char>, JsonView)| (f.0, mat_theme_out(f.1, pool, defs))));
        assert(out.last() == (fields.last().0, mat_theme_out(fields.last().1, pool, defs)));
    } else {
        assert(out =~= Seq::<(Seq<char>, JsonView)>::empty());
    }
}

/// The interner's rewrite keeps what a material map dereferences to: when
/// every definition the map names is in the dataset-global pool, the map
/// rewritten to global ids resolves, against the pool, to exactly what the
/// original map resolves to against its feature's own definitions. This is
/// why the comparison of a round trip looks at definitions, never at index
/// numbers.
pub proof fn lemma_material_rewrite_resolves_alike(map: JsonView, defs: Seq<JsonView>, pool: Seq<JsonView>)
    requires
        mat_map_refs(map, defs.len()) matches Some(r) && in_pool(r, defs, pool),
        no_dups(pool),
        pool.len() <= u64::MAX,
    ensures
        res_mat_map(map, defs) is Some,
        res_mat_map(mat_map_out(map, pool, defs), pool) == res_mat_map(map, defs),
{
    match map {
        JsonView::Object(fields) => {
            lemma_mat_fields_alike(fields, defs, pool);
        },
        _ => {},
    }
}

/// With no texture vertices, UV entries pass through.
proof fn lemma_uvs_pass(s: Seq<JsonView>)
    ensures
        res_uvs(s, Seq::empty()) == Some(s),
    decreases s.len(),
{
    if s.len() > 0 {
        lemma_uvs_pass(s.drop_last());
        assert(s.drop_last().push(s.last()) =~= s);
    }
}

/// Valid UV references resolve to their pairs.
proof fn lemma_uvs_pairs(s: Seq<JsonView>, uvs: Seq<Seq<JsonView>>)
    requires
        forall|k: int| 0 <= k < s.len() ==> uv_ok(#[trigger] s[k], uvs),
    ensures
        res_uvs(s, uvs) == Some(Seq::new(s.len(), |k: int| uv_pair(s[k], uvs))),
    decreases s.len(),
{
    if s.len() > 0 {
        assert forall|k: int| 0 <= k < s.drop_last().len() implies uv_ok(#[trigger] s.drop_last()[k], uvs) by {
            assert(s.drop_last()[k] == s[k]);
        }
        lemma_uvs_pairs(s.drop_last(), uvs);
        assert(uv_ok(s[s.len() - 1], uvs));
        assert(Seq::new(s.drop_last().len(), |k: int| uv_pair(s.drop_last()[k], uvs)).push(uv_pair(s.last(), uvs))
            =~= Seq::new(s.len(), |k: int| uv_pair(s[k], uvs)));
    }
}

proof fn lemma_ring_alike(items: Seq<JsonView>, defs: Seq<JsonView>, pool: Seq<JsonView>, uvs: Seq<Seq<JsonView>>)
    requires
        is_ring(items),
        ring_refs(items, defs.len(), uvs) matches Some(r) && in_pool(r, defs, pool),
        no_dups(pool),
        pool.len() <= u64::MAX,
    ensures
        res_ring(items, defs, uvs) is Some,
        ring_out(items, pool, defs, uvs) matches JsonView::Array(o) && is_ring_spec(o)
            && res_ring(o, pool, Seq::empty()) == res_ring(items, defs, uvs),
{
    if items.len() == 1 && items[0] is Null {
        assert(ring_out(items, pool, defs, uvs) == JsonView::Array(seq![JsonView::Null]));
    } else {
        let o = ring_out(items, pool, defs, uvs)->Array_0;
        let pairs = Seq::new((items.len() - 1) as nat, |k: int| uv_pair(items[k + 1], uvs));
        assert(o == seq![o[0]] + pairs);
        assert(o.skip(1) =~= pairs);
        lemma_uvs_pass(pairs);
        let rest = items.skip(1);
        assert forall|k: int| 0 <= k < rest.len() implies uv_ok(#[trigger] rest[k], uvs) by {
            assert(rest[k] == items[k + 1]);
        }
        lemma_uvs_pairs(rest, uvs);
        assert(Seq::new(rest.len(), |k: int| uv_pair(rest[k], uvs)) =~= pairs);
        match items[0] {
            JsonView::Number(NumView::PosInt(t)) => {
                let r = ring_refs(items, defs.len(), uvs)->Some_0;
                assert(r[0] == t as nat);
                assert(pool.contains(defs[t as int]));
                lemma_pick_global(pool, defs[t as int]);
            },
            _ => {},
        }
    }
}

proof fn lemma_tex_tree_alike(v: JsonView, defs: Seq<JsonView>, pool: Seq<JsonView>, uvs: Seq<Seq<JsonView>>)
    requires
        tex_tree_refs(v, defs.len(), uvs) matches Some(r) && in_pool(r, defs, pool),
        no_dups(pool),
        pool.len() <= u64::MAX,
    ensures
        res_tex_tree(v, defs, uvs) is Some,
        tex_tree_out(v, pool, defs, uvs) is Array,
        res_tex_tree(tex_tree_out(v, pool, defs, uvs), pool, Seq::empty()) == res_tex_tree(v, defs, uvs),
    decreases v,
{
    match v {
        JsonView::Array(items) => {
            if is_ring(items) {
                lemma_ring_alike(items, defs, pool, uvs);
            } else {
                lemma_tex_items_alike(items, defs, pool, uvs);
                lemma_tex_items_out_index(items, pool, defs, uvs);
                let o = tex_items_out(items, pool, defs, uvs);
                if items.len() > 0 {
                    lemma_tex_items_sub(items, defs.len(), uvs, 0);
                    assert(items[0] is Array);
                    assert(!is_ring_spec(items));
                    lemma_tex_tree_array(items[0], defs, pool, uvs);
                    assert(o[0] is Array);
                    assert(!is_ring_spec(o));
                } else {
                    assert(o.len() == 0);
                }
            }
        },
        _ => {},
    }
}

/// A node of a valid tree is an array, and so is its rewrite.
proof fn lemma_tex_tree_array(v: JsonView, defs: Seq<JsonView>, pool: Seq<JsonView>, uvs: Seq<Seq<JsonView>>)
    requires
        tex_tree_refs(v, defs.len(), uvs) is Some,
    ensures
        v is Array,
        tex_tree_out(v, pool, defs, uvs) is Array,
{
}

proof fn lemma_tex_items_alike(items: Seq<JsonView>, defs: Seq<JsonView>, pool: Seq<JsonView>, uvs: Seq<Seq<JsonView>>)
    requires
        tex_items_refs(items, defs.len(), uvs) matches Some(r) && in_pool(r, defs, pool),
        no_dups(pool),
        pool.len() <= u64::MAX,
    ensures
        res_tex_items(items, defs, uvs) is Some,
        res_tex_items(tex_items_out(items, pool, defs, uvs), pool, Seq::empty()) == res_tex_items(items, defs, uvs),
    decreases items,
{
    if items.len() > 0 {
        let a = tex_items_refs(items.drop_last(), defs.len(), uvs)->Some_0;
        let b = tex_tree_refs(items.last(), defs.len(), uvs)->Some_0;
        lemma_in_pool_split(a, b, defs, pool);
        lemma_tex_items_alike(items.drop_last(), defs, pool, uvs);
        lemma_tex_tree_alike(items.last(), defs, pool, uvs);
        let out = tex_items_out(items, pool, defs, uvs);
        assert(out.drop_last() == tex_items_out(items.drop_last(), pool, defs, uvs));
        assert(out.last() == tex_tree_out(items.last(), pool, defs, uvs));
    } else {
        assert(tex_items_out(items, pool, defs, uvs) =~= Seq::<JsonView>::empty());
    }
}

proof fn lemma_tex_fields_alike(fields: Seq<(Seq<char>, JsonView)>, defs: Seq<JsonView>, pool: Seq<JsonView>, uvs: Seq<Seq<JsonView>>)
    requires
        tex_fields_refs(fields, defs.len(), uvs) matches Some(r) && in_pool(r, defs, pool),
        no_dups(pool),
        pool.len() <= u64::MAX,
    ensures
        res_tex_fields(fields, defs, uvs) is Some,
        res_tex_fields(fields.map_values(|f: (Seq<char>, JsonView)|
            (f.0, JsonView::Object(seq![("values"@, tex_tree_out(get_spec(f.1, "values"@)->Some_0, pool, defs, uvs))]))),
            pool, Seq::empty()) == res_tex_fields(fields, defs, uvs),
    decreases fields.len(),
{
    let out = fields.map_values(|f: (Seq<char>, JsonView)|
        (f.0, JsonView::Object(seq![("values"@, tex_tree_out(get_spec(f.1, "values"@)->Some_0, pool, defs, uvs))])));
    if fields.len() > 0 {
        let a = tex_fields_refs(fields.drop_last(), defs.len(), uvs)->Some_0;
        let b = tex_theme_refs(fields.last().1, defs.len(), uvs)->Some_0;
        lemma_in_pool_split(a, b, defs, pool);
        lemma_tex_fields_alike(fields.drop_last(), defs, pool, uvs);
        let values = get_spec(fields.last().1, "values"@)->Some_0;
        lemma_tex_tree_alike(values, defs, pool, uvs);
        assert(out.drop_last() =~= fields.drop_last().map_values(|f: (Seq<char>, JsonView)|
            (f.0, JsonView::Object(seq![("values"@, tex_tree_out(get_spec(f.1, "values"@)->Some_0, pool, defs, uvs))]))));
        let theme = JsonView::Object(seq![("values"@, tex_tree_out(values, pool, defs, uvs))]);
        assert(out.last() == (fields.last().0, theme));
        assert(get_spec(theme, "values"@) == Some(tex_tree_out(values, pool, defs, uvs)));
    } else {
        assert(out =~= Seq::<(Seq<char>, JsonView)>::empty());
    }
}

/// The interner's rewrite keeps what a texture map dereferences to: when
/// every texture the map names is in the dataset-global pool, the map
/// rewritten to global ids, with its UVs inlined, resolves against the pool
/// (no texture vertices needed any more) to exactly what the original map
/// resolves to against its feature's own textures and texture vertices.
pub proof fn lemma_texture_rewrite_resolves_alike(map: JsonView, defs: Seq<JsonView>, uvs: Seq<Seq<JsonView>>, pool: Seq<JsonView>)
    requires
        tex_map_refs(map, defs.len(), uvs) matches Some(r) && in_pool(r, defs, pool),
        no_dups(pool),
        pool.len() <= u64::MAX,
    ensures
        res_tex_map(map, defs, uvs) is Some,
        res_tex_map(tex_map_out(map, pool, defs, uvs), pool, Seq::empty()) == res_tex_map(map, defs, uvs),
{
    match map {
        JsonView::Object(fields) => {
            lemma_tex_fields_alike(fields, defs, pool, uvs);
        },
        _ => {},
    }
}

} // verus!
