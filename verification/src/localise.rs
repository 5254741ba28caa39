//! Per-feature appearance slicer: the inverse of the dataset-global
//! interner.
//!
//! The main table stores each geometry's `material`/`texture` index maps
//! against dataset-global definition ids, with every texture UV inlined as
//! its `[u, v]` pair. On export a feature gets back a self-contained
//! `appearance` block: the global definitions its geometries reference,
//! renumbered feature-locally in order of first use, and a feature-local
//! UV pool into which every inlined pair is interned once.
//!
//! UV pairs are deduplicated by the bit patterns of their two coordinates;
//! the caller supplies the bit pattern of each coordinate number (see
//! [`LocalAppearance::uv_coordinates`]), and the pool holds those patterns.
//!
//! A map is checked whole before anything is assigned, so a map that is
//! refused leaves the slicer as it was.

use vstd::prelude::*;
use crate::error::{CityParquetError, Result};
use crate::interner::{
    dedup_append, index_of, lemma_dedup_append, lemma_dedup_one, lemma_dedup_step, lemma_index_stable, lemma_mat_fields_prefix,
    lemma_mat_fields_prefix_none, lemma_mat_fields_sub, lemma_mat_items_sub, lemma_refs_below, mat_fields_refs,
    mat_index_out, mat_index_refs, mat_items_out, mat_items_refs, mat_map_out, mat_map_refs, mat_theme_collect, mat_theme_out, mat_tree_out, mat_theme_refs, mat_tree_refs, no_dups, theme_err, usizes,
};
use crate::json::{
    JsonNumber, JsonValue, JsonView, NumView, as_str_spec, clone_json, fields_view, json_eq, get_spec, items_view,
    lemma_fields_view, lemma_items_view, member,
};
use crate::interner::{
    is_ring, lemma_tex_items_out_index, lemma_tex_items_sub, ring_out, ring_refs, tex_items_out, tex_items_refs, tex_tree_out,
    tex_tree_refs, uv_ok, tex_fields_refs, tex_map_out, tex_map_refs, tex_theme_refs,
};
use crate::resolve::{in_pool, lemma_in_pool_split, lemma_material_rewrite_resolves_alike, pick_spec, res_mat_index, res_mat_items, res_mat_map, res_mat_theme, res_mat_tree, res_mat_fields};
use crate::shells::schema_err;
use crate::text::{opt_str, owned};

verus! {

// ------------------------------------------------------------ pools ----

/// The position of an item of a pool without repeats is its index.
pub proof fn lemma_index_at<T>(p: Seq<T>, i: int)
    requires
        no_dups(p),
        0 <= i < p.len(),
    ensures
        index_of(p, p[i]) == i,
{
    lemma_index_stable(p, p, p[i]);
}

/// The definitions a list of global ids names, in order.
pub open spec fn picked(defs: Seq<JsonView>, ids: Seq<nat>) -> Seq<JsonView> {
    ids.map_values(|g: nat| defs[g as int])
}

/// The position of `g` in `ids`, when it is there.
fn position_of(ids: &Vec<usize>, g: usize) -> (r: Option<usize>)
    ensures
        match r {
            Some(i) => i < ids@.len() && ids@[i as int] == g,
            None => !usizes(ids@).contains(g as nat),
        },
{
    let mut i: usize = 0;
    while i < ids.len()
        invariant
            i <= ids@.len(),
            forall|j: int| 0 <= j < i ==> ids@[j] != g,
        decreases ids.len() - i,
    {
        if ids[i] == g {
            return Some(i);
        }
        i = i + 1;
    }
    proof {
        if usizes(ids@).contains(g as nat) {
            let w = choose|w: int| 0 <= w < usizes(ids@).len() && usizes(ids@)[w] == g as nat;
            assert(ids@[w] == g);
        }
    }
    None
}

// ------------------------------------------------------------ output ----

/// One material index renumbered: a global id becomes its position in the
/// feature-local id list; anything else stays.
pub open spec fn renum_index(v: JsonView, ids: Seq<nat>) -> JsonView {
    match v {
        JsonView::Number(NumView::PosInt(g)) => JsonView::Number(NumView::PosInt(index_of(ids, g as nat) as u64)),
        _ => v,
    }
}

/// A material `values` tree renumbered.
pub open spec fn renum_tree(v: JsonView, ids: Seq<nat>) -> JsonView
    decreases v,
{
    match v {
        JsonView::Array(items) => JsonView::Array(renum_items(items, ids)),
        _ => renum_index(v, ids),
    }
}

pub open spec fn renum_items(items: Seq<JsonView>, ids: Seq<nat>) -> Seq<JsonView>
    decreases items,
{
    if items.len() == 0 {
        Seq::empty()
    } else {
        renum_items(items.drop_last(), ids).push(renum_tree(items.last(), ids))
    }
}

/// One theme's entry renumbered: `value` then `values`, each when present.
pub open spec fn renum_theme(inner: JsonView, ids: Seq<nat>) -> JsonView {
    let value_part = match get_spec(inner, "value"@) {
        Some(v) => seq![("value"@, renum_index(v, ids))],
        None => Seq::empty(),
    };
    let values_part = match get_spec(inner, "values"@) {
        Some(v) => seq![("values"@, renum_tree(v, ids))],
        None => Seq::empty(),
    };
    JsonView::Object(value_part + values_part)
}

/// A material map renumbered against the feature-local id list.
pub open spec fn renum_mat_map(map: JsonView, ids: Seq<nat>) -> JsonView {
    match map {
        JsonView::Object(fields) => JsonView::Object(
            fields.map_values(|f: (Seq<char>, JsonView)| (f.0, renum_theme(f.1, ids))),
        ),
        _ => map,
    }
}

proof fn lemma_renum_items_index(items: Seq<JsonView>, ids: Seq<nat>)
    ensures
        renum_items(items, ids).len() == items.len(),
        forall|j: int| 0 <= j < items.len() ==> #[trigger] renum_items(items, ids)[j] == renum_tree(items[j], ids),
    decreases items.len(),
{
    if items.len() > 0 {
        lemma_renum_items_index(items.drop_last(), ids);
        assert forall|j: int| 0 <= j < items.len() implies #[trigger] renum_items(items, ids)[j] == renum_tree(items[j], ids) by {
            if j < items.len() - 1 {
                assert(items.drop_last()[j] == items[j]);
            }
        }
    }
}

/// The renumbered form of a valid material tree whose ids are all listed.
fn renum_tree_build(v: &JsonValue, ids: &Vec<usize>, n: usize) -> (r: JsonValue)
    requires
        no_dups(usizes(ids@)),
        mat_tree_refs(v@, n as nat) matches Some(refs)
            && forall|k: int| 0 <= k < refs.len() ==> usizes(ids@).contains(#[trigger] refs[k]),
    ensures
        r@ == renum_tree(v@, usizes(ids@)),
    decreases v,
{
    match v {
        JsonValue::Array(items) => {
            proof {
                lemma_items_view(items@);
            }
            let ghost iv = items_view(items@);
            let mut out: Vec<JsonValue> = Vec::new();
            let mut i: usize = 0;
            while i < items.len()
                invariant
                    i <= items.len(),
                    *v == JsonValue::Array(*items),
                    iv == items_view(items@),
                    iv.len() == items@.len(),
                    forall|j: int| 0 <= j < items@.len() ==> #[trigger] iv[j] == items@[j]@,
                    no_dups(usizes(ids@)),
                    mat_tree_refs(v@, n as nat) matches Some(refs)
                        && forall|k: int| 0 <= k < refs.len() ==> usizes(ids@).contains(#[trigger] refs[k]),
                    out@.len() == i,
                    forall|j: int| 0 <= j < i ==> (#[trigger] out@[j])@ == renum_tree(iv[j], usizes(ids@)),
                decreases items.len() - i,
            {
                proof {
                    lemma_mat_items_sub(iv, n as nat, i as int);
                    assert(decreases_to!(*v => (*v)->Array_0));
                    vstd::std_specs::vec::axiom_vec_index_decreases(*items, i as int);
                    let all = mat_tree_refs(v@, n as nat)->Some_0;
                    let b = mat_tree_refs(iv[i as int], n as nat)->Some_0;
                    assert forall|k: int| 0 <= k < b.len() implies usizes(ids@).contains(#[trigger] b[k]) by {
                        let w = choose|w: int| 0 <= w < all.len() && all[w] == b[k];
                        assert(usizes(ids@).contains(all[w]));
                    }
                }
                let x = renum_tree_build(&items[i], ids, n);
                out.push(x);
                i = i + 1;
            }
            proof {
                lemma_items_view(out@);
                lemma_renum_items_index(iv, usizes(ids@));
                assert(items_view(out@) =~= renum_items(iv, usizes(ids@)));
            }
            JsonValue::Array(out)
        },
        JsonValue::Number(JsonNumber::PosInt(g)) => {
            let ghost refs = mat_tree_refs(v@, n as nat)->Some_0;
            assert(refs[0] == *g as nat);
            let p = match position_of(ids, *g as usize) {
                Some(p) => p,
                None => {
                    assert(false);
                    0
                },
            };
            proof {
                assert(usizes(ids@)[p as int] == *g as nat);
                lemma_index_at(usizes(ids@), p as int);
            }
            JsonValue::Number(JsonNumber::PosInt(p as u64))
        },
        _ => JsonValue::Null,
    }
}

/// One theme's entry renumbered.
fn renum_theme_build(inner: &JsonValue, ids: &Vec<usize>, n: usize) -> (r: JsonValue)
    requires
        no_dups(usizes(ids@)),
        mat_theme_refs(inner@, n as nat) matches Some(refs)
            && forall|k: int| 0 <= k < refs.len() ==> usizes(ids@).contains(#[trigger] refs[k]),
    ensures
        r@ == renum_theme(inner@, usizes(ids@)),
{
    let ghost refs = mat_theme_refs(inner@, n as nat)->Some_0;
    let ghost a = match get_spec(inner@, "value"@) { Some(v) => mat_index_refs(v, n as nat), None => Some(Seq::<nat>::empty()) }->Some_0;
    let ghost b = match get_spec(inner@, "values"@) { Some(v) => mat_tree_refs(v, n as nat), None => Some(Seq::<nat>::empty()) }->Some_0;
    assert(refs == a + b);
    let mut fields: Vec<(std::string::String, JsonValue)> = Vec::new();
    match inner.get("value") {
        Some(v) => {
            assert forall|k: int| 0 <= k < a.len() implies usizes(ids@).contains(#[trigger] a[k]) by {
                assert(refs[k] == a[k]);
            }
            let x = renum_tree_build(v, ids, n);
            fields.push((owned("value"), x));
        },
        None => {},
    }
    match inner.get("values") {
        Some(v) => {
            assert forall|k: int| 0 <= k < b.len() implies usizes(ids@).contains(#[trigger] b[k]) by {
                assert(refs[a.len() + k] == b[k]);
            }
            let x = renum_tree_build(v, ids, n);
            fields.push((owned("values"), x));
        },
        None => {},
    }
    proof {
        lemma_fields_view(fields@);
        let iv = usizes(ids@);
        let vp = match get_spec(inner@, "value"@) {
            Some(v) => seq![("value"@, renum_index(v, iv))],
            None => Seq::empty(),
        };
        let vsp = match get_spec(inner@, "values"@) {
            Some(v) => seq![("values"@, renum_tree(v, iv))],
            None => Seq::empty(),
        };
        assert(fields_view(fields@) =~= vp + vsp);
    }
    JsonValue::Object(fields)
}

// ------------------------------------------------------------ textures ----

/// One inlined UV pair: an array of exactly two numbers.
pub open spec fn uv_pair(v: JsonView) -> Option<(JsonView, JsonView)> {
    match v {
        JsonView::Array(p) => if p.len() == 2 && p[0] is Number && p[1] is Number {
            Some((p[0], p[1]))
        } else {
            None
        },
        _ => None,
    }
}

/// A ring as the slicer reads it: non-empty and led by a number or `null`
/// (the elements after the first are inlined `[u, v]` pairs).
pub open spec fn is_slice_ring(items: Seq<JsonView>) -> bool {
    items.len() > 0 && (items[0] is Number || items[0] is Null)
}

/// What a subtree references: its global texture ids and its inlined UV
/// pairs, each in walk order.
pub open spec fn join_refs(
    a: Option<(Seq<nat>, Seq<(JsonView, JsonView)>)>,
    b: Option<(Seq<nat>, Seq<(JsonView, JsonView)>)>,
) -> Option<(Seq<nat>, Seq<(JsonView, JsonView)>)> {
    match (a, b) {
        (Some(x), Some(y)) => Some((x.0 + y.0, x.1 + y.1)),
        _ => None,
    }
}

/// No references.
pub open spec fn no_refs() -> (Seq<nat>, Seq<(JsonView, JsonView)>) {
    (Seq::empty(), Seq::empty())
}

/// What a ring references: the texture id unless it is `null`, and every
/// following element's pair; `None` when the texture index is not `null`
/// or a non-negative integer below `n`, or an element is not a pair.
pub open spec fn slice_ring_refs(items: Seq<JsonView>, n: nat) -> Option<(Seq<nat>, Seq<(JsonView, JsonView)>)> {
    if !(forall|k: int| 1 <= k < items.len() ==> (#[trigger] uv_pair(items[k])) is Some) {
        None
    } else {
        let pairs = Seq::new((items.len() - 1) as nat, |k: int| uv_pair(items[k + 1])->Some_0);
        match items[0] {
            JsonView::Null => Some((Seq::empty(), pairs)),
            JsonView::Number(NumView::PosInt(g)) => if g < n { Some((seq![g as nat], pairs)) } else { None },
            _ => None,
        }
    }
}

/// What a texture `values` tree references, depth first.
pub open spec fn slice_tree_refs(v: JsonView, n: nat) -> Option<(Seq<nat>, Seq<(JsonView, JsonView)>)>
    decreases v,
{
    match v {
        JsonView::Array(items) => if is_slice_ring(items) { slice_ring_refs(items, n) } else { slice_items_refs(items, n) },
        _ => None,
    }
}

pub open spec fn slice_items_refs(items: Seq<JsonView>, n: nat) -> Option<(Seq<nat>, Seq<(JsonView, JsonView)>)>
    decreases items,
{
    if items.len() == 0 {
        Some(no_refs())
    } else {
        join_refs(slice_items_refs(items.drop_last(), n), slice_tree_refs(items.last(), n))
    }
}

/// What one theme's entry references: it must be an object with `values`.
pub open spec fn slice_theme_refs(inner: JsonView, n: nat) -> Option<(Seq<nat>, Seq<(JsonView, JsonView)>)> {
    match get_spec(inner, "values"@) {
        Some(v) => slice_tree_refs(v, n),
        None => None,
    }
}

pub open spec fn slice_fields_refs(fields: Seq<(Seq<char>, JsonView)>, n: nat) -> Option<(Seq<nat>, Seq<(JsonView, JsonView)>)>
    decreases fields.len(),
{
    if fields.len() == 0 {
        Some(no_refs())
    } else {
        join_refs(slice_fields_refs(fields.drop_last(), n), slice_theme_refs(fields.last().1, n))
    }
}

/// What a whole texture map references, in walk order; `None` when the map
/// is refused.
pub open spec fn slice_map_refs(map: JsonView, n: nat) -> Option<(Seq<nat>, Seq<(JsonView, JsonView)>)> {
    match map {
        JsonView::Object(fields) => slice_fields_refs(fields, n),
        _ => None,
    }
}

/// The bit pattern the table gives a coordinate number: that of its first
/// entry for the number.
pub open spec fn bits_of(table: Seq<(JsonView, u64)>, c: JsonView) -> Option<u64>
    decreases table.len(),
{
    if table.len() == 0 {
        None
    } else if table[0].0 == c {
        Some(table[0].1)
    } else {
        bits_of(table.drop_first(), c)
    }
}

/// The pool key of a UV pair: its two coordinates' bit patterns.
pub open spec fn pair_key(table: Seq<(JsonView, u64)>, p: (JsonView, JsonView)) -> Option<(u64, u64)> {
    match (bits_of(table, p.0), bits_of(table, p.1)) {
        (Some(a), Some(b)) => Some((a, b)),
        _ => None,
    }
}

/// The pool keys of a list of pairs; `None` when the table misses a
/// coordinate.
pub open spec fn keyed(table: Seq<(JsonView, u64)>, pairs: Seq<(JsonView, JsonView)>) -> Option<Seq<(u64, u64)>> {
    if forall|k: int| 0 <= k < pairs.len() ==> (#[trigger] pair_key(table, pairs[k])) is Some {
        Some(Seq::new(pairs.len(), |k: int| pair_key(table, pairs[k])->Some_0))
    } else {
        None
    }
}

/// Every coordinate of a list of pairs, in order.
pub open spec fn coords_of(pairs: Seq<(JsonView, JsonView)>) -> Seq<JsonView> {
    Seq::new(2 * pairs.len(), |k: int| if k % 2 == 0 { pairs[k / 2].0 } else { pairs[k / 2].1 })
}

/// One inlined pair rewritten as its position in the UV pool.
pub open spec fn uv_out(e: JsonView, uvs: Seq<(u64, u64)>, table: Seq<(JsonView, u64)>) -> JsonView {
    JsonView::Number(NumView::PosInt(index_of(uvs, pair_key(table, uv_pair(e)->Some_0)->Some_0) as u64))
}

/// A ring localised: the texture id becomes its feature-local index (`null`
/// stays), every inlined pair its UV pool index.
pub open spec fn slice_ring_out(items: Seq<JsonView>, tids: Seq<nat>, uvs: Seq<(u64, u64)>, table: Seq<(JsonView, u64)>) -> JsonView {
    let head = match items[0] {
        JsonView::Number(NumView::PosInt(g)) => JsonView::Number(NumView::PosInt(index_of(tids, g as nat) as u64)),
        _ => JsonView::Null,
    };
    JsonView::Array(seq![head] + Seq::new((items.len() - 1) as nat, |k: int| uv_out(items[k + 1], uvs, table)))
}

/// A texture `values` tree localised.
pub open spec fn slice_tree_out(v: JsonView, tids: Seq<nat>, uvs: Seq<(u64, u64)>, table: Seq<(JsonView, u64)>) -> JsonView
    decreases v,
{
    match v {
        JsonView::Array(items) => if is_slice_ring(items) {
            slice_ring_out(items, tids, uvs, table)
        } else {
            JsonView::Array(slice_items_out(items, tids, uvs, table))
        },
        _ => v,
    }
}

pub open spec fn slice_items_out(items: Seq<JsonView>, tids: Seq<nat>, uvs: Seq<(u64, u64)>, table: Seq<(JsonView, u64)>) -> Seq<JsonView>
    decreases items,
{
    if items.len() == 0 {
        Seq::empty()
    } else {
        slice_items_out(items.drop_last(), tids, uvs, table).push(slice_tree_out(items.last(), tids, uvs, table))
    }
}

/// One theme's entry localised: `{"values": ...}`.
pub open spec fn slice_theme_out(inner: JsonView, tids: Seq<nat>, uvs: Seq<(u64, u64)>, table: Seq<(JsonView, u64)>) -> JsonView {
    JsonView::Object(seq![("values"@, slice_tree_out(get_spec(inner, "values"@)->Some_0, tids, uvs, table))])
}

/// A texture map localised.
pub open spec fn slice_map_out(map: JsonView, tids: Seq<nat>, uvs: Seq<(u64, u64)>, table: Seq<(JsonView, u64)>) -> JsonView {
    match map {
        JsonView::Object(fields) => JsonView::Object(
            fields.map_values(|f: (Seq<char>, JsonView)| (f.0, slice_theme_out(f.1, tids, uvs, table))),
        ),
        _ => map,
    }
}

/// The table's entries as (number, bits) views.
pub open spec fn table_view(table: Seq<(JsonValue, u64)>) -> Seq<(JsonView, u64)> {
    table.map_values(|e: (JsonValue, u64)| (e.0@, e.1))
}

/// Collected pairs as views.
pub open spec fn pairs_view(p: Seq<(JsonValue, JsonValue)>) -> Seq<(JsonView, JsonView)> {
    p.map_values(|e: (JsonValue, JsonValue)| (e.0@, e.1@))
}

/// Every texture id of `r` is listed and every pair has a listed key.
pub open spec fn covered(r: (Seq<nat>, Seq<(JsonView, JsonView)>), tids: Seq<nat>, uvs: Seq<(u64, u64)>, table: Seq<(JsonView, u64)>) -> bool {
    &&& forall|k: int| 0 <= k < r.0.len() ==> tids.contains(#[trigger] r.0[k])
    &&& forall|k: int| 0 <= k < r.1.len() ==> ((#[trigger] pair_key(table, r.1[k])) matches Some(key) && uvs.contains(key))
}

proof fn lemma_slice_items_prefix(items: Seq<JsonView>, n: nat, i: int)
    requires
        0 <= i < items.len(),
    ensures
        slice_items_refs(items.take(i + 1), n) == join_refs(slice_items_refs(items.take(i), n), slice_tree_refs(items[i], n)),
{
    assert(items.take(i + 1).drop_last() =~= items.take(i));
}

proof fn lemma_slice_items_prefix_none(items: Seq<JsonView>, n: nat, i: int)
    requires
        0 <= i <= items.len(),
        slice_items_refs(items.take(i), n) is None,
    ensures
        slice_items_refs(items, n) is None,
    decreases items.len() - i,
{
    if i < items.len() {
        lemma_slice_items_prefix(items, n, i);
        lemma_slice_items_prefix_none(items, n, i + 1);
    } else {
        assert(items.take(i) =~= items);
    }
}

/// The parts of joined references are covered when the whole is.
proof fn lemma_join_covered(
    a: (Seq<nat>, Seq<(JsonView, JsonView)>),
    b: (Seq<nat>, Seq<(JsonView, JsonView)>),
    tids: Seq<nat>,
    uvs: Seq<(u64, u64)>,
    table: Seq<(JsonView, u64)>,
)
    requires
        covered((a.0 + b.0, a.1 + b.1), tids, uvs, table),
    ensures
        covered(a, tids, uvs, table),
        covered(b, tids, uvs, table),
{
    let w = (a.0 + b.0, a.1 + b.1);
    assert forall|k: int| 0 <= k < a.0.len() implies tids.contains(#[trigger] a.0[k]) by {
        assert(w.0[k] == a.0[k]);
    }
    assert forall|k: int| 0 <= k < b.0.len() implies tids.contains(#[trigger] b.0[k]) by {
        assert(w.0[a.0.len() + k] == b.0[k]);
    }
    assert forall|k: int| 0 <= k < a.1.len() implies ((#[trigger] pair_key(table, a.1[k])) matches Some(key) && uvs.contains(key)) by {
        assert(w.1[k] == a.1[k]);
    }
    assert forall|k: int| 0 <= k < b.1.len() implies ((#[trigger] pair_key(table, b.1[k])) matches Some(key) && uvs.contains(key)) by {
        assert(w.1[a.1.len() + k] == b.1[k]);
    }
}

/// Every item of a valid tree list is valid, and covered when the list is.
proof fn lemma_slice_items_sub(items: Seq<JsonView>, n: nat, j: int, tids: Seq<nat>, uvs: Seq<(u64, u64)>, table: Seq<(JsonView, u64)>)
    requires
        0 <= j < items.len(),
        slice_items_refs(items, n) is Some,
    ensures
        slice_tree_refs(items[j], n) is Some,
        covered(slice_items_refs(items, n)->Some_0, tids, uvs, table) ==> covered(slice_tree_refs(items[j], n)->Some_0, tids, uvs, table),
    decreases items.len(),
{
    let a = slice_items_refs(items.drop_last(), n)->Some_0;
    let b = slice_tree_refs(items.last(), n)->Some_0;
    if covered(slice_items_refs(items, n)->Some_0, tids, uvs, table) {
        lemma_join_covered(a, b, tids, uvs, table);
    }
    if j < items.len() - 1 {
        assert(items.drop_last()[j] == items[j]);
        lemma_slice_items_sub(items.drop_last(), n, j, tids, uvs, table);
    }
}

proof fn lemma_slice_items_out_index(items: Seq<JsonView>, tids: Seq<nat>, uvs: Seq<(u64, u64)>, table: Seq<(JsonView, u64)>)
    ensures
        slice_items_out(items, tids, uvs, table).len() == items.len(),
        forall|j: int| 0 <= j < items.len() ==> #[trigger] slice_items_out(items, tids, uvs, table)[j] == slice_tree_out(items[j], tids, uvs, table),
    decreases items.len(),
{
    if items.len() > 0 {
        lemma_slice_items_out_index(items.drop_last(), tids, uvs, table);
        assert forall|j: int| 0 <= j < items.len() implies #[trigger] slice_items_out(items, tids, uvs, table)[j] == slice_tree_out(items[j], tids, uvs, table) by {
            if j < items.len() - 1 {
                assert(items.drop_last()[j] == items[j]);
            }
        }
    }
}

/// The pair an element of a ring inlines.
fn uv_pair_of(v: &JsonValue) -> (r: Option<(&JsonValue, &JsonValue)>)
    ensures
        match r {
            Some((a, b)) => uv_pair(v@) == Some((a@, b@)),
            None => uv_pair(v@) is None,
        },
{
    match v {
        JsonValue::Array(p) => {
            proof {
                lemma_items_view(p@);
            }
            if p.len() != 2 {
                return None;
            }
            match (&p[0], &p[1]) {
                (JsonValue::Number(_), JsonValue::Number(_)) => Some((&p[0], &p[1])),
                _ => None,
            }
        },
        _ => None,
    }
}

/// Collect what a ring references onto `tids` and `pairs`.
fn slice_ring_collect(items: &Vec<JsonValue>, n: usize, tids: &mut Vec<usize>, pairs: &mut Vec<(JsonValue, JsonValue)>) -> (ok: bool)
    requires
        is_slice_ring(items_view(items@)),
    ensures
        match slice_ring_refs(items_view(items@), n as nat) {
            None => !ok,
            Some(r) => ok && usizes(final(tids)@) == usizes(old(tids)@) + r.0 && pairs_view(final(pairs)@) == pairs_view(old(pairs)@) + r.1,
        },
{
    proof {
        lemma_items_view(items@);
    }
    let ghost iv = items_view(items@);
    let ghost t0 = usizes(tids@);
    let ghost p0 = pairs_view(pairs@);
    let mut k: usize = 1;
    while k < items.len()
        invariant
            1 <= k <= items@.len(),
            iv == items_view(items@),
            iv.len() == items@.len(),
            forall|j: int| 0 <= j < items@.len() ==> #[trigger] iv[j] == items@[j]@,
            usizes(tids@) == t0,
            pairs_view(pairs@).len() == p0.len() + (k - 1),
            forall|j: int| 1 <= j < k ==> (#[trigger] uv_pair(iv[j])) is Some,
            pairs_view(pairs@).take(p0.len() as int) == p0,
            forall|j: int| 1 <= j < k ==> pairs_view(pairs@)[p0.len() + j - 1] == #[trigger] uv_pair(iv[j])->Some_0,
        decreases items.len() - k,
    {
        match uv_pair_of(&items[k]) {
            Some((a, b)) => {
                let ghost before = pairs_view(pairs@);
                let e = (clone_json(a), clone_json(b));
                pairs.push(e);
                assert(pairs_view(pairs@) =~= before.push((a@, b@)));
            },
            None => {
                assert(iv[k as int] == items@[k as int]@);
                assert(uv_pair(iv[k as int]) is None);
                assert(!(forall|j: int| 1 <= j < iv.len() ==> (#[trigger] uv_pair(iv[j])) is Some));
                return false;
            },
        }
        k = k + 1;
    }
    let ghost ps = Seq::new((iv.len() - 1) as nat, |j: int| uv_pair(iv[j + 1])->Some_0);
    assert(pairs_view(pairs@) =~= p0 + ps) by {
        assert forall|j: int| 0 <= j < ps.len() implies pairs_view(pairs@)[p0.len() + j] == ps[j] by {
            assert(pairs_view(pairs@)[p0.len() + (j + 1) - 1] == uv_pair(iv[j + 1])->Some_0);
        }
        assert forall|j: int| 0 <= j < p0.len() implies pairs_view(pairs@)[j] == p0[j] by {
            assert(pairs_view(pairs@).take(p0.len() as int)[j] == pairs_view(pairs@)[j]);
        }
    }
    match &items[0] {
        JsonValue::Null => {
            assert(usizes(tids@) =~= t0 + Seq::<nat>::empty());
            true
        },
        JsonValue::Number(JsonNumber::PosInt(g)) => {
            if *g >= n as u64 {
                return false;
            }
            tids.push(*g as usize);
            assert(usizes(tids@) =~= t0 + seq![*g as nat]);
            true
        },
        _ => false,
    }
}

/// Whether an array is a ring.
fn is_slice_ring_exec(items: &Vec<JsonValue>) -> (r: bool)
    ensures
        r == is_slice_ring(items_view(items@)),
{
    proof {
        lemma_items_view(items@);
    }
    if items.len() == 0 {
        return false;
    }
    match &items[0] {
        JsonValue::Number(_) | JsonValue::Null => true,
        _ => false,
    }
}

/// Collect what a texture `values` tree references onto `tids` and `pairs`;
/// `false` when the tree is invalid.
fn slice_tree_collect(v: &JsonValue, n: usize, tids: &mut Vec<usize>, pairs: &mut Vec<(JsonValue, JsonValue)>) -> (ok: bool)
    ensures
        match slice_tree_refs(v@, n as nat) {
            None => !ok,
            Some(r) => ok && usizes(final(tids)@) == usizes(old(tids)@) + r.0 && pairs_view(final(pairs)@) == pairs_view(old(pairs)@) + r.1,
        },
    decreases v,
{
    match v {
        JsonValue::Array(items) => {
            if is_slice_ring_exec(items) {
                return slice_ring_collect(items, n, tids, pairs);
            }
            proof {
                lemma_items_view(items@);
            }
            let ghost iv = items_view(items@);
            let ghost t0 = usizes(tids@);
            let ghost p0 = pairs_view(pairs@);
            let mut i: usize = 0;
            assert(iv.take(0) =~= Seq::<JsonView>::empty());
            assert(usizes(tids@) =~= t0 + Seq::<nat>::empty());
            assert(pairs_view(pairs@) =~= p0 + Seq::<(JsonView, JsonView)>::empty());
            while i < items.len()
                invariant
                    i <= items.len(),
                    *v == JsonValue::Array(*items),
                    iv == items_view(items@),
                    v@ == JsonView::Array(iv),
                    !is_slice_ring(iv),
                    iv.len() == items@.len(),
                    forall|j: int| 0 <= j < items@.len() ==> #[trigger] iv[j] == items@[j]@,
                    slice_items_refs(iv.take(i as int), n as nat) matches Some(pre)
                        && usizes(tids@) == t0 + pre.0 && pairs_view(pairs@) == p0 + pre.1,
                decreases items.len() - i,
            {
                proof {
                    lemma_slice_items_prefix(iv, n as nat, i as int);
                    assert(decreases_to!(*v => (*v)->Array_0));
                    vstd::std_specs::vec::axiom_vec_index_decreases(*items, i as int);
                }
                if !slice_tree_collect(&items[i], n, tids, pairs) {
                    proof {
                        lemma_slice_items_prefix_none(iv, n as nat, i + 1);
                    }
                    return false;
                }
                proof {
                    let pre = slice_items_refs(iv.take(i + 1), n as nat)->Some_0;
                    assert(usizes(tids@) =~= t0 + pre.0);
                    assert(pairs_view(pairs@) =~= p0 + pre.1);
                }
                i = i + 1;
            }
            assert(iv.take(items.len() as int) =~= iv);
            true
        },
        _ => false,
    }
}

proof fn lemma_slice_fields_prefix(fields: Seq<(Seq<char>, JsonView)>, n: nat, i: int)
    requires
        0 <= i < fields.len(),
    ensures
        slice_fields_refs(fields.take(i + 1), n) == join_refs(slice_fields_refs(fields.take(i), n), slice_theme_refs(fields[i].1, n)),
{
    assert(fields.take(i + 1).drop_last() =~= fields.take(i));
}

proof fn lemma_slice_fields_prefix_none(fields: Seq<(Seq<char>, JsonView)>, n: nat, i: int)
    requires
        0 <= i <= fields.len(),
        slice_fields_refs(fields.take(i), n) is None,
    ensures
        slice_fields_refs(fields, n) is None,
    decreases fields.len() - i,
{
    if i < fields.len() {
        lemma_slice_fields_prefix(fields, n, i);
        lemma_slice_fields_prefix_none(fields, n, i + 1);
    } else {
        assert(fields.take(i) =~= fields);
    }
}

proof fn lemma_slice_fields_sub(fields: Seq<(Seq<char>, JsonView)>, n: nat, j: int, tids: Seq<nat>, uvs: Seq<(u64, u64)>, table: Seq<(JsonView, u64)>)
    requires
        0 <= j < fields.len(),
        slice_fields_refs(fields, n) is Some,
    ensures
        slice_theme_refs(fields[j].1, n) is Some,
        covered(slice_fields_refs(fields, n)->Some_0, tids, uvs, table) ==> covered(slice_theme_refs(fields[j].1, n)->Some_0, tids, uvs, table),
    decreases fields.len(),
{
    let a = slice_fields_refs(fields.drop_last(), n)->Some_0;
    let b = slice_theme_refs(fields.last().1, n)->Some_0;
    if covered(slice_fields_refs(fields, n)->Some_0, tids, uvs, table) {
        lemma_join_covered(a, b, tids, uvs, table);
    }
    if j < fields.len() - 1 {
        assert(fields.drop_last()[j] == fields[j]);
        lemma_slice_fields_sub(fields.drop_last(), n, j, tids, uvs, table);
    }
}

/// Collect what one theme's entry references.
fn slice_theme_collect(inner: &JsonValue, n: usize, tids: &mut Vec<usize>, pairs: &mut Vec<(JsonValue, JsonValue)>) -> (ok: bool)
    ensures
        match slice_theme_refs(inner@, n as nat) {
            None => !ok,
            Some(r) => ok && usizes(final(tids)@) == usizes(old(tids)@) + r.0 && pairs_view(final(pairs)@) == pairs_view(old(pairs)@) + r.1,
        },
{
    match inner.get("values") {
        Some(v) => slice_tree_collect(v, n, tids, pairs),
        None => false,
    }
}

/// The bit pattern the table gives coordinate `c`.
fn bits_lookup(table: &[(JsonValue, u64)], c: &JsonValue) -> (r: Option<u64>)
    ensures
        r == bits_of(table_view(table@), c@),
{
    let ghost tv = table_view(table@);
    let mut i: usize = 0;
    assert(tv.skip(0) =~= tv);
    while i < table.len()
        invariant
            i <= table@.len(),
            tv == table_view(table@),
            tv.len() == table@.len(),
            bits_of(tv, c@) == bits_of(tv.skip(i as int), c@),
        decreases table.len() - i,
    {
        assert(tv.skip(i as int).drop_first() =~= tv.skip(i + 1));
        assert(tv.skip(i as int)[0] == tv[i as int]);
        if json_eq(&table[i].0, c) {
            return Some(table[i].1);
        }
        i = i + 1;
    }
    None
}

/// The pool keys of collected pairs; `None` when the table misses a
/// coordinate.
fn keys_of(table: &[(JsonValue, u64)], pairs: &Vec<(JsonValue, JsonValue)>) -> (r: Option<Vec<(u64, u64)>>)
    ensures
        match keyed(table_view(table@), pairs_view(pairs@)) {
            None => r is None,
            Some(ks) => r matches Some(v) && v@ == ks,
        },
{
    let ghost tv = table_view(table@);
    let ghost pv = pairs_view(pairs@);
    let mut out: Vec<(u64, u64)> = Vec::new();
    let mut k: usize = 0;
    while k < pairs.len()
        invariant
            k <= pairs@.len(),
            tv == table_view(table@),
            pv == pairs_view(pairs@),
            pv.len() == pairs@.len(),
            out@.len() == k,
            forall|j: int| 0 <= j < k ==> (#[trigger] pair_key(tv, pv[j])) == Some(out@[j]),
        decreases pairs.len() - k,
    {
        assert(pv[k as int] == (pairs@[k as int].0@, pairs@[k as int].1@));
        let a = bits_lookup(table, &pairs[k].0);
        let b = bits_lookup(table, &pairs[k].1);
        match (a, b) {
            (Some(x), Some(y)) => out.push((x, y)),
            _ => {
                assert(pair_key(tv, pv[k as int]) is None);
                return None;
            },
        }
        k = k + 1;
    }
    assert(out@ =~= Seq::new(pv.len(), |j: int| pair_key(tv, pv[j])->Some_0));
    Some(out)
}

/// The position of `key` in the UV pool, when it is there.
fn position_key(uvs: &Vec<(u64, u64)>, key: (u64, u64)) -> (r: Option<usize>)
    ensures
        match r {
            Some(i) => i < uvs@.len() && uvs@[i as int] == key,
            None => !uvs@.contains(key),
        },
{
    let mut i: usize = 0;
    while i < uvs.len()
        invariant
            i <= uvs@.len(),
            forall|j: int| 0 <= j < i ==> uvs@[j] != key,
        decreases uvs.len() - i,
    {
        if uvs[i].0 == key.0 && uvs[i].1 == key.1 {
            return Some(i);
        }
        i = i + 1;
    }
    None
}

/// A valid, covered ring localised.
fn slice_ring_build(items: &Vec<JsonValue>, tids: &Vec<usize>, uvs: &Vec<(u64, u64)>, table: &[(JsonValue, u64)], n: usize) -> (r: JsonValue)
    requires
        is_slice_ring(items_view(items@)),
        no_dups(usizes(tids@)),
        no_dups(uvs@),
        slice_ring_refs(items_view(items@), n as nat) matches Some(rr) && covered(rr, usizes(tids@), uvs@, table_view(table@)),
    ensures
        r@ == slice_ring_out(items_view(items@), usizes(tids@), uvs@, table_view(table@)),
{
    proof {
        lemma_items_view(items@);
    }
    let ghost iv = items_view(items@);
    let ghost tv = table_view(table@);
    let ghost rr = slice_ring_refs(iv, n as nat)->Some_0;
    let head = match &items[0] {
        JsonValue::Number(JsonNumber::PosInt(g)) => {
            assert(rr.0[0] == *g as nat);
            let p = match position_of(tids, *g as usize) {
                Some(p) => p,
                None => {
                    assert(usizes(tids@).contains(rr.0[0]));
                    assert(false);
                    0
                },
            };
            proof {
                assert(usizes(tids@)[p as int] == *g as nat);
                lemma_index_at(usizes(tids@), p as int);
            }
            JsonValue::Number(JsonNumber::PosInt(p as u64))
        },
        _ => JsonValue::Null,
    };
    let ghost hv = head@;
    let mut out: Vec<JsonValue> = Vec::new();
    out.push(head);
    let mut k: usize = 1;
    while k < items.len()
        invariant
            1 <= k <= items@.len(),
            iv == items_view(items@),
            iv.len() == items@.len(),
            tv == table_view(table@),
            forall|j: int| 0 <= j < items@.len() ==> #[trigger] iv[j] == items@[j]@,
            no_dups(uvs@),
            slice_ring_refs(iv, n as nat) == Some(rr),
            covered(rr, usizes(tids@), uvs@, tv),
            out@.len() == k,
            out@[0]@ == hv,
            forall|j: int| 1 <= j < k ==> (#[trigger] out@[j])@ == uv_out(iv[j], uvs@, tv),
        decreases items.len() - k,
    {
        assert(uv_pair(iv[k as int]) is Some);
        assert(rr.1[k - 1] == uv_pair(iv[(k - 1) + 1])->Some_0);
        let (a, b) = match uv_pair_of(&items[k]) {
            Some(p) => p,
            None => {
                assert(false);
                return JsonValue::Null;
            },
        };
        let ghost key = pair_key(tv, rr.1[k - 1])->Some_0;
        let x = bits_lookup(table, a);
        let y = bits_lookup(table, b);
        let (x, y) = match (x, y) {
            (Some(x), Some(y)) => (x, y),
            _ => {
                assert(false);
                return JsonValue::Null;
            },
        };
        assert((x, y) == key);
        let p = match position_key(uvs, (x, y)) {
            Some(p) => p,
            None => {
                assert(false);
                return JsonValue::Null;
            },
        };
        proof {
            lemma_index_at(uvs@, p as int);
        }
        out.push(JsonValue::Number(JsonNumber::PosInt(p as u64)));
        k = k + 1;
    }
    proof {
        lemma_items_view(out@);
        let tail = Seq::new((iv.len() - 1) as nat, |j: int| uv_out(iv[j + 1], uvs@, tv));
        assert(items_view(out@) =~= seq![hv] + tail) by {
            assert forall|j: int| 0 <= j < tail.len() implies items_view(out@)[j + 1] == tail[j] by {
                assert(out@[j + 1]@ == uv_out(iv[j + 1], uvs@, tv));
            }
        }
        let head_spec = match iv[0] {
            JsonView::Number(NumView::PosInt(g)) => JsonView::Number(NumView::PosInt(index_of(usizes(tids@), g as nat) as u64)),
            _ => JsonView::Null,
        };
        assert(hv == head_spec);
    }
    JsonValue::Array(out)
}

/// A valid, covered texture `values` tree localised.
fn slice_tree_build(v: &JsonValue, tids: &Vec<usize>, uvs: &Vec<(u64, u64)>, table: &[(JsonValue, u64)], n: usize) -> (r: JsonValue)
    requires
        no_dups(usizes(tids@)),
        no_dups(uvs@),
        slice_tree_refs(v@, n as nat) matches Some(rr) && covered(rr, usizes(tids@), uvs@, table_view(table@)),
    ensures
        r@ == slice_tree_out(v@, usizes(tids@), uvs@, table_view(table@)),
    decreases v,
{
    match v {
        JsonValue::Array(items) => {
            if is_slice_ring_exec(items) {
                return slice_ring_build(items, tids, uvs, table, n);
            }
            proof {
                lemma_items_view(items@);
            }
            let ghost iv = items_view(items@);
            let ghost tv = table_view(table@);
            let mut out: Vec<JsonValue> = Vec::new();
            let mut i: usize = 0;
            while i < items.len()
                invariant
                    i <= items.len(),
                    *v == JsonValue::Array(*items),
                    iv == items_view(items@),
                    v@ == JsonView::Array(iv),
                    !is_slice_ring(iv),
                    iv.len() == items@.len(),
                    tv == table_view(table@),
                    forall|j: int| 0 <= j < items@.len() ==> #[trigger] iv[j] == items@[j]@,
                    no_dups(usizes(tids@)),
                    no_dups(uvs@),
                    slice_items_refs(iv, n as nat) matches Some(rr) && covered(rr, usizes(tids@), uvs@, tv),
                    out@.len() == i,
                    forall|j: int| 0 <= j < i ==> (#[trigger] out@[j])@ == slice_tree_out(iv[j], usizes(tids@), uvs@, tv),
                decreases items.len() - i,
            {
                proof {
                    lemma_slice_items_sub(iv, n as nat, i as int, usizes(tids@), uvs@, tv);
                    assert(decreases_to!(*v => (*v)->Array_0));
                    vstd::std_specs::vec::axiom_vec_index_decreases(*items, i as int);
                }
                let x = slice_tree_build(&items[i], tids, uvs, table, n);
                out.push(x);
                i = i + 1;
            }
            proof {
                lemma_items_view(out@);
                lemma_slice_items_out_index(iv, usizes(tids@), uvs@, tv);
                assert(items_view(out@) =~= slice_items_out(iv, usizes(tids@), uvs@, tv));
            }
            JsonValue::Array(out)
        },
        _ => JsonValue::Null,
    }
}

/// One valid, covered theme's entry localised.
fn slice_theme_build(inner: &JsonValue, tids: &Vec<usize>, uvs: &Vec<(u64, u64)>, table: &[(JsonValue, u64)], n: usize) -> (r: JsonValue)
    requires
        no_dups(usizes(tids@)),
        no_dups(uvs@),
        slice_theme_refs(inner@, n as nat) matches Some(rr) && covered(rr, usizes(tids@), uvs@, table_view(table@)),
    ensures
        r@ == slice_theme_out(inner@, usizes(tids@), uvs@, table_view(table@)),
{
    match inner.get("values") {
        Some(v) => {
            let x = slice_tree_build(v, tids, uvs, table, n);
            let mut fields: Vec<(std::string::String, JsonValue)> = Vec::new();
            fields.push((owned("values"), x));
            proof {
                lemma_fields_view(fields@);
                assert(fields_view(fields@) =~= seq![("values"@, slice_tree_out(get_spec(inner@, "values"@)->Some_0, usizes(tids@), uvs@, table_view(table@)))]);
            }
            JsonValue::Object(fields)
        },
        None => JsonValue::Null,
    }
}

/// Assign feature-local ids to `refs` (global ids below the global
/// definitions count), in order, each once; each new local id gets a copy of
/// its global definition.
fn assign_ids(ids: &mut Vec<usize>, locals: &mut Vec<JsonValue>, globals: &[JsonValue], refs: &Vec<usize>)
    requires
        no_dups(usizes(old(ids)@)),
        items_view(old(locals)@) == picked(items_view(globals@), usizes(old(ids)@)),
        forall|k: int| 0 <= k < old(ids)@.len() ==> (#[trigger] usizes(old(ids)@)[k]) < globals@.len(),
        forall|k: int| 0 <= k < refs@.len() ==> (#[trigger] refs@[k]) < globals@.len(),
    ensures
        usizes(final(ids)@) == dedup_append(usizes(old(ids)@), usizes(refs@)),
        no_dups(usizes(final(ids)@)),
        items_view(final(locals)@) == picked(items_view(globals@), usizes(final(ids)@)),
        forall|k: int| 0 <= k < final(ids)@.len() ==> (#[trigger] usizes(final(ids)@)[k]) < globals@.len(),
{
    let ghost p0 = usizes(ids@);
    let ghost all = usizes(refs@);
    let ghost gv = items_view(globals@);
    proof {
        lemma_items_view(globals@);
    }
    let mut k: usize = 0;
    assert(all.take(0) =~= Seq::<nat>::empty());
    while k < refs.len()
        invariant
            k <= refs@.len(),
            all == usizes(refs@),
            gv == items_view(globals@),
            gv.len() == globals@.len(),
            forall|j: int| 0 <= j < globals@.len() ==> #[trigger] gv[j] == globals@[j]@,
            forall|q: int| 0 <= q < refs@.len() ==> (#[trigger] refs@[q]) < globals@.len(),
            no_dups(usizes(ids@)),
            items_view(locals@) == picked(gv, usizes(ids@)),
            forall|q: int| 0 <= q < ids@.len() ==> (#[trigger] usizes(ids@)[q]) < globals@.len(),
            usizes(ids@) == dedup_append(p0, all.take(k as int)),
        decreases refs.len() - k,
    {
        let g = refs[k];
        let ghost before = usizes(ids@);
        proof {
            lemma_dedup_step(p0, all, k as int);
            lemma_dedup_one(before, g as nat);
            assert(all[k as int] == g as nat);
        }
        match position_of(ids, g) {
            Some(p) => {
                assert(before[p as int] == g as nat);
            },
            None => {
                let def = clone_json(&globals[g]);
                let ghost lmv = locals@;
                let ghost lm = items_view(lmv);
                proof {
                    lemma_items_view(lmv);
                }
                locals.push(def);
                ids.push(g);
                proof {
                    lemma_items_view(locals@);
                    assert(usizes(ids@) =~= before.push(g as nat));
                    assert forall|j: int| 0 <= j < locals@.len() implies
                        #[trigger] items_view(locals@)[j] == picked(gv, usizes(ids@))[j] by {
                        if j < lm.len() {
                            assert(locals@[j] == lmv[j]);
                            assert(lm[j] == picked(gv, before)[j]);
                        }
                    }
                    assert(items_view(locals@) =~= picked(gv, usizes(ids@)));
                    assert forall|q: int| 0 <= q < ids@.len() implies (#[trigger] usizes(ids@)[q]) < globals@.len() by {
                        if q < before.len() {
                            assert(usizes(ids@)[q] == before[q]);
                        }
                    }
                }
            },
        }
        k = k + 1;
    }
    assert(all.take(refs.len() as int) =~= all);
}

/// Every texture id a valid tree references is below the texture count.
proof fn lemma_slice_tree_below(v: JsonView, n: nat)
    ensures
        slice_tree_refs(v, n) matches Some(r) ==> forall|k: int| 0 <= k < r.0.len() ==> #[trigger] r.0[k] < n,
    decreases v,
{
    match v {
        JsonView::Array(items) => if !is_slice_ring(items) {
            lemma_slice_items_below(items, n);
        },
        _ => {},
    }
}

proof fn lemma_slice_items_below(items: Seq<JsonView>, n: nat)
    ensures
        slice_items_refs(items, n) matches Some(r) ==> forall|k: int| 0 <= k < r.0.len() ==> #[trigger] r.0[k] < n,
    decreases items,
{
    if items.len() > 0 {
        lemma_slice_items_below(items.drop_last(), n);
        lemma_slice_tree_below(items.last(), n);
        if let (Some(a), Some(b)) = (slice_items_refs(items.drop_last(), n), slice_tree_refs(items.last(), n)) {
            assert forall|k: int| 0 <= k < (a.0 + b.0).len() implies #[trigger] (a.0 + b.0)[k] < n by {
                if k < a.0.len() {
                    assert((a.0 + b.0)[k] == a.0[k]);
                } else {
                    assert((a.0 + b.0)[k] == b.0[k - a.0.len()]);
                }
            }
        }
    }
}

proof fn lemma_slice_fields_below(fields: Seq<(Seq<char>, JsonView)>, n: nat)
    ensures
        slice_fields_refs(fields, n) matches Some(r) ==> forall|k: int| 0 <= k < r.0.len() ==> #[trigger] r.0[k] < n,
    decreases fields.len(),
{
    if fields.len() > 0 {
        lemma_slice_fields_below(fields.drop_last(), n);
        match get_spec(fields.last().1, "values"@) {
            Some(v) => lemma_slice_tree_below(v, n),
            None => {},
        }
        if let (Some(a), Some(b)) = (slice_fields_refs(fields.drop_last(), n), slice_theme_refs(fields.last().1, n)) {
            assert forall|k: int| 0 <= k < (a.0 + b.0).len() implies #[trigger] (a.0 + b.0)[k] < n by {
                if k < a.0.len() {
                    assert((a.0 + b.0)[k] == a.0[k]);
                } else {
                    assert((a.0 + b.0)[k] == b.0[k - a.0.len()]);
                }
            }
        }
    }
}

/// A table that lists every coordinate of a list of pairs (as
/// [`LocalAppearance::uv_coordinates`] returns them) keys every pair.
pub proof fn lemma_listed_coordinates_key_every_pair(table: Seq<(JsonView, u64)>, pairs: Seq<(JsonView, JsonView)>)
    requires
        forall|k: int| 0 <= k < coords_of(pairs).len() ==> table.map_values(|e: (JsonView, u64)| e.0).contains(#[trigger] coords_of(pairs)[k]),
    ensures
        keyed(table, pairs) is Some,
{
    assert forall|k: int| 0 <= k < pairs.len() implies (#[trigger] pair_key(table, pairs[k])) is Some by {
        let keys = table.map_values(|e: (JsonView, u64)| e.0);
        assert(coords_of(pairs)[2 * k] == pairs[k].0);
        assert(coords_of(pairs)[2 * k + 1] == pairs[k].1);
        assert(keys.contains(coords_of(pairs)[2 * k]));
        assert(keys.contains(coords_of(pairs)[2 * k + 1]));
        let j0 = choose|j: int| 0 <= j < keys.len() && keys[j] == coords_of(pairs)[2 * k];
        let j1 = choose|j: int| 0 <= j < keys.len() && keys[j] == coords_of(pairs)[2 * k + 1];
        lemma_bits_listed(table, pairs[k].0, j0);
        lemma_bits_listed(table, pairs[k].1, j1);
    }
}

/// A coordinate the table lists has a bit pattern.
proof fn lemma_bits_listed(table: Seq<(JsonView, u64)>, c: JsonView, j: int)
    requires
        0 <= j < table.len(),
        table[j].0 == c,
    ensures
        bits_of(table, c) is Some,
    decreases table.len(),
{
    if table[0].0 != c {
        assert(table.drop_first()[j - 1] == table[j]);
        lemma_bits_listed(table.drop_first(), c, j - 1);
    }
}

/// A sliced feature appearance: the referenced definitions and UV pool,
/// each absent when empty, and the dataset-wide default themes.
pub struct SlicedAppearance {
    pub materials: Option<Vec<JsonValue>>,
    pub textures: Option<Vec<JsonValue>>,
    /// Each UV pair's coordinate bit patterns, by pool index.
    pub vertices_texture: Option<Vec<(u64, u64)>>,
    pub default_theme_texture: Option<std::string::String>,
    pub default_theme_material: Option<std::string::String>,
}

/// The text member `key` of the defaults object, if it has one.
pub open spec fn default_member(defaults: Option<JsonView>, key: Seq<char>) -> Option<Seq<char>> {
    match defaults {
        Some(d) => match get_spec(d, key) {
            Some(v) => as_str_spec(v),
            None => None,
        },
        None => None,
    }
}

/// A string member of the defaults object.
fn default_text(defaults: Option<&JsonValue>, key: &str) -> (r: Option<std::string::String>)
    ensures
        opt_str(r) == default_member(match defaults { Some(d) => Some(d@), None => None }, key@),
{
    match defaults {
        Some(d) => match d.get(key) {
            Some(v) => match v.as_str() {
                Some(t) => Some(owned(t)),
                None => None,
            },
            None => None,
        },
        None => None,
    }
}

/// Collect what every theme of a texture map references; the position of
/// the first theme that is refused, if one is.
fn slice_fields_collect(
    fields: &Vec<(std::string::String, JsonValue)>,
    n: usize,
    tids: &mut Vec<usize>,
    pairs: &mut Vec<(JsonValue, JsonValue)>,
) -> (bad: Option<usize>)
    ensures
        match slice_fields_refs(fields_view(fields@), n as nat) {
            None => bad matches Some(i) && i < fields@.len(),
            Some(r) => bad is None && usizes(final(tids)@) == usizes(old(tids)@) + r.0
                && pairs_view(final(pairs)@) == pairs_view(old(pairs)@) + r.1,
        },
{
    proof {
        lemma_fields_view(fields@);
    }
    let ghost fv = fields_view(fields@);
    let ghost t0 = usizes(tids@);
    let ghost p0 = pairs_view(pairs@);
    let mut i: usize = 0;
    assert(fv.take(0) =~= Seq::<(Seq<char>, JsonView)>::empty());
    assert(usizes(tids@) =~= t0 + Seq::<nat>::empty());
    assert(pairs_view(pairs@) =~= p0 + Seq::<(JsonView, JsonView)>::empty());
    while i < fields.len()
        invariant
            i <= fields@.len(),
            fv == fields_view(fields@),
            fv.len() == fields@.len(),
            forall|j: int| 0 <= j < fields@.len() ==> #[trigger] fv[j] == (fields@[j].0@, fields@[j].1@),
            slice_fields_refs(fv.take(i as int), n as nat) matches Some(pre)
                && usizes(tids@) == t0 + pre.0 && pairs_view(pairs@) == p0 + pre.1,
        decreases fields.len() - i,
    {
        proof {
            lemma_slice_fields_prefix(fv, n as nat, i as int);
        }
        if !slice_theme_collect(&fields[i].1, n, tids, pairs) {
            proof {
                lemma_slice_fields_prefix_none(fv, n as nat, i + 1);
            }
            return Some(i);
        }
        proof {
            let pre = slice_fields_refs(fv.take(i + 1), n as nat)->Some_0;
            assert(usizes(tids@) =~= t0 + pre.0);
            assert(pairs_view(pairs@) =~= p0 + pre.1);
        }
        i = i + 1;
    }
    assert(fv.take(fields.len() as int) =~= fv);
    None
}

// ------------------------------------------------------------ laws ----

/// Every id `refs` names is listed in `ids`.
pub open spec fn listed(refs: Seq<nat>, ids: Seq<nat>) -> bool {
    forall|k: int| 0 <= k < refs.len() ==> ids.contains(#[trigger] refs[k])
}

proof fn lemma_listed_split(a: Seq<nat>, b: Seq<nat>, ids: Seq<nat>)
    requires
        listed(a + b, ids),
    ensures
        listed(a, ids),
        listed(b, ids),
{
    assert forall|k: int| 0 <= k < a.len() implies ids.contains(#[trigger] a[k]) by {
        assert((a + b)[k] == a[k]);
    }
    assert forall|k: int| 0 <= k < b.len() implies ids.contains(#[trigger] b[k]) by {
        assert((a + b)[a.len() + k] == b[k]);
    }
}

/// A feature-local index picks, from the sliced definitions, the global
/// definition it was assigned for.
proof fn lemma_pick_local(gdefs: Seq<JsonView>, ids: Seq<nat>, g: nat)
    requires
        no_dups(ids),
        ids.contains(g),
        ids.len() <= u64::MAX,
        g < gdefs.len(),
    ensures
        pick_spec(JsonView::Number(NumView::PosInt(index_of(ids, g) as u64)), picked(gdefs, ids)) == Some(gdefs[g as int]),
{
    lemma_index_stable(ids, ids, g);
    assert((index_of(ids, g) as u64) as nat == index_of(ids, g));
}

proof fn lemma_slice_mat_index_alike(v: JsonView, gdefs: Seq<JsonView>, ids: Seq<nat>)
    requires
        mat_index_refs(v, gdefs.len()) matches Some(r) && listed(r, ids),
        no_dups(ids),
        ids.len() <= u64::MAX,
    ensures
        res_mat_index(v, gdefs) is Some,
        res_mat_index(renum_index(v, ids), picked(gdefs, ids)) == res_mat_index(v, gdefs),
{
    match v {
        JsonView::Number(NumView::PosInt(i)) => {
            let r = mat_index_refs(v, gdefs.len())->Some_0;
            assert(r[0] == i as nat);
            assert(ids.contains(i as nat));
            lemma_pick_local(gdefs, ids, i as nat);
        },
        _ => {},
    }
}

proof fn lemma_slice_mat_tree_alike(v: JsonView, gdefs: Seq<JsonView>, ids: Seq<nat>)
    requires
        mat_tree_refs(v, gdefs.len()) matches Some(r) && listed(r, ids),
        no_dups(ids),
        ids.len() <= u64::MAX,
    ensures
        res_mat_tree(v, gdefs) is Some,
        res_mat_tree(renum_tree(v, ids), picked(gdefs, ids)) == res_mat_tree(v, gdefs),
    decreases v,
{
    match v {
        JsonView::Array(items) => {
            lemma_slice_mat_items_alike(items, gdefs, ids);
        },
        _ => {
            lemma_slice_mat_index_alike(v, gdefs, ids);
        },
    }
}

proof fn lemma_slice_mat_items_alike(items: Seq<JsonView>, gdefs: Seq<JsonView>, ids: Seq<nat>)
    requires
        mat_items_refs(items, gdefs.len()) matches Some(r) && listed(r, ids),
        no_dups(ids),
        ids.len() <= u64::MAX,
    ensures
        res_mat_items(items, gdefs) is Some,
        res_mat_items(renum_items(items, ids), picked(gdefs, ids)) == res_mat_items(items, gdefs),
    decreases items,
{
    if items.len() > 0 {
        let a = mat_items_refs(items.drop_last(), gdefs.len())->Some_0;
        let b = mat_tree_refs(items.last(), gdefs.len())->Some_0;
        lemma_listed_split(a, b, ids);
        lemma_slice_mat_items_alike(items.drop_last(), gdefs, ids);
        lemma_slice_mat_tree_alike(items.last(), gdefs, ids);
        let out = renum_items(items, ids);
        assert(out.drop_last() == renum_items(items.drop_last(), ids));
        assert(out.last() == renum_tree(items.last(), ids));
    } else {
        assert(renum_items(items, ids) =~= Seq::<JsonView>::empty());
    }
}

proof fn lemma_slice_mat_theme_alike(inner: JsonView, gdefs: Seq<JsonView>, ids: Seq<nat>)
    requires
        mat_theme_refs(inner, gdefs.len()) matches Some(r) && listed(r, ids),
        no_dups(ids),
        ids.len() <= u64::MAX,
    ensures
        res_mat_theme(inner, gdefs) is Some,
        res_mat_theme(renum_theme(inner, ids), picked(gdefs, ids)) == res_mat_theme(inner, gdefs),
{
    reveal_strlit("value");
    reveal_strlit("values");
    let n = gdefs.len();
    let a = match get_spec(inner, "value"@) { Some(v) => mat_index_refs(v, n), None => Some(Seq::<nat>::empty()) }->Some_0;
    let b = match get_spec(inner, "values"@) { Some(v) => mat_tree_refs(v, n), None => Some(Seq::<nat>::empty()) }->Some_0;
    lemma_listed_split(a, b, ids);
    let value_part = match get_spec(inner, "value"@) {
        Some(v) => seq![("value"@, renum_index(v, ids))],
        None => Seq::empty(),
    };
    let values_part = match get_spec(inner, "values"@) {
        Some(v) => seq![("values"@, renum_tree(v, ids))],
        None => Seq::empty(),
    };
    let fs = value_part + values_part;
    let out = JsonView::Object(fs);
    assert("value"@ != "values"@) by {
        assert("value"@.len() != "values"@.len());
    }
    match get_spec(inner, "value"@) {
        Some(v) => {
            lemma_slice_mat_index_alike(v, gdefs, ids);
            assert(fs[0] == ("value"@, renum_index(v, ids)));
            assert(get_spec(out, "value"@) == Some(renum_index(v, ids)));
        },
        None => {},
    }
    match get_spec(inner, "values"@) {
        Some(v) => {
            lemma_slice_mat_tree_alike(v, gdefs, ids);
            assert(get_spec(out, "values"@) == Some(renum_tree(v, ids))) by {
                if value_part.len() == 1 {
                    assert(fs.drop_first() =~= values_part);
                }
            }
        },
        None => {
            if value_part.len() == 1 {
                assert(fs.drop_first() =~= Seq::<(Seq<char>, JsonView)>::empty());
            }
            assert(get_spec(out, "values"@) is None);
        },
    }
    match get_spec(inner, "value"@) {
        Some(_) => {},
        None => {
            assert(get_spec(out, "value"@) is None) by {
                if values_part.len() == 1 {
                    assert(fs[0].0 == "values"@);
                    assert(fs.drop_first() =~= Seq::<(Seq<char>, JsonView)>::empty());
                    assert(member(fs.drop_first(), "value"@) is None);
                } else {
                    assert(fs =~= Seq::<(Seq<char>, JsonView)>::empty());
                }
            }
        },
    }
}

proof fn lemma_slice_mat_fields_alike(fields: Seq<(Seq<char>, JsonView)>, gdefs: Seq<JsonView>, ids: Seq<nat>)
    requires
        mat_fields_refs(fields, gdefs.len()) matches Some(r) && listed(r, ids),
        no_dups(ids),
        ids.len() <= u64::MAX,
    ensures
        res_mat_fields(fields, gdefs) is Some,
        res_mat_fields(fields.map_values(|f: (Seq<char>, JsonView)| (f.0, renum_theme(f.1, ids))), picked(gdefs, ids))
            == res_mat_fields(fields, gdefs),
    decreases fields.len(),
{
    let out = fields.map_values(|f: (Seq<char>, JsonView)| (f.0, renum_theme(f.1, ids)));
    if fields.len() > 0 {
        let a = mat_fields_refs(fields.drop_last(), gdefs.len())->Some_0;
        let b = mat_theme_refs(fields.last().1, gdefs.len())->Some_0;
        lemma_listed_split(a, b, ids);
        lemma_slice_mat_fields_alike(fields.drop_last(), gdefs, ids);
        lemma_slice_mat_theme_alike(fields.last().1, gdefs, ids);
        assert(out.drop_last() =~= fields.drop_last().map_values(|f: (Seq<char>, JsonView)| (f.0, renum_theme(f.1, ids))));
        assert(out.last() == (fields.last().0, renum_theme(fields.last().1, ids)));
    } else {
        assert(out =~= Seq::<(Seq<char>, JsonView)>::empty());
    }
}

/// Slicing keeps what a material map dereferences to: when every global id
/// the map names is listed among the feature-local ids, the renumbered map
/// resolves, against the sliced definitions, to exactly what the map
/// resolves to against the global definitions.
pub proof fn lemma_material_slice_resolves_alike(map: JsonView, gdefs: Seq<JsonView>, ids: Seq<nat>)
    requires
        mat_map_refs(map, gdefs.len()) matches Some(r) && listed(r, ids),
        no_dups(ids),
        ids.len() <= u64::MAX,
    ensures
        res_mat_map(map, gdefs) is Some,
        res_mat_map(renum_mat_map(map, ids), picked(gdefs, ids)) == res_mat_map(map, gdefs),
{
    match map {
        JsonView::Object(fields) => {
            lemma_slice_mat_fields_alike(fields, gdefs, ids);
        },
        _ => {},
    }
}

/// The global ids the interner gives a list of local references.
pub open spec fn global_ids(r: Seq<nat>, defs: Seq<JsonView>, pool: Seq<JsonView>) -> Seq<nat> {
    r.map_values(|i: nat| index_of(pool, defs[i as int]))
}

/// The `value` and `values` members of a rewritten theme entry are where
/// the entry was built to put them.
proof fn lemma_two_members(a: Option<JsonView>, b: Option<JsonView>)
    ensures
        ({
            let fs = (match a { Some(x) => seq![("value"@, x)], None => Seq::empty() })
                + (match b { Some(y) => seq![("values"@, y)], None => Seq::empty() });
            member(fs, "value"@) == a && member(fs, "values"@) == b
        }),
{
    reveal_strlit("value");
    reveal_strlit("values");
    let va = match a { Some(x) => seq![("value"@, x)], None => Seq::<(Seq<char>, JsonView)>::empty() };
    let vb = match b { Some(y) => seq![("values"@, y)], None => Seq::<(Seq<char>, JsonView)>::empty() };
    let fs = va + vb;
    let e = Seq::<(Seq<char>, JsonView)>::empty();
    assert("value"@ != "values"@) by {
        assert("value"@.len() != "values"@.len());
    }
    match (a, b) {
        (Some(x), Some(y)) => {
            assert(fs =~= seq![("value"@, x), ("values"@, y)]);
            assert(fs.drop_first() =~= seq![("values"@, y)]);
            assert(fs.drop_first().drop_first() =~= e);
            assert(member(fs, "value"@) == Some(x));
            assert(member(fs.drop_first(), "values"@) == Some(y));
        },
        (Some(x), None) => {
            assert(fs =~= seq![("value"@, x)]);
            assert(fs.drop_first() =~= e);
            assert(member(e, "values"@) is None);
        },
        (None, Some(y)) => {
            assert(fs =~= seq![("values"@, y)]);
            assert(fs.drop_first() =~= e);
            assert(member(e, "value"@) is None);
        },
        (None, None) => {
            assert(fs =~= e);
        },
    }
}

proof fn lemma_out_index_refs(v: JsonView, defs: Seq<JsonView>, pool: Seq<JsonView>)
    requires
        mat_index_refs(v, defs.len()) matches Some(r) && in_pool(r, defs, pool),
        no_dups(pool),
        pool.len() <= u64::MAX,
    ensures
        mat_index_refs(mat_index_out(v, pool, defs), pool.len())
            == Some(global_ids(mat_index_refs(v, defs.len())->Some_0, defs, pool)),
{
    let r = mat_index_refs(v, defs.len())->Some_0;
    match v {
        JsonView::Number(NumView::PosInt(i)) => {
            assert(r[0] == i as nat);
            assert(pool.contains(defs[i as int]));
            lemma_index_stable(pool, pool, defs[i as int]);
            assert((index_of(pool, defs[i as int]) as u64) as nat == index_of(pool, defs[i as int]));
            assert(global_ids(r, defs, pool) =~= seq![index_of(pool, defs[i as int])]);
        },
        _ => {
            assert(global_ids(r, defs, pool) =~= Seq::<nat>::empty());
        },
    }
}

proof fn lemma_out_tree_refs(v: JsonView, defs: Seq<JsonView>, pool: Seq<JsonView>)
    requires
        mat_tree_refs(v, defs.len()) matches Some(r) && in_pool(r, defs, pool),
        no_dups(pool),
        pool.len() <= u64::MAX,
    ensures
        mat_tree_refs(mat_tree_out(v, pool, defs), pool.len())
            == Some(global_ids(mat_tree_refs(v, defs.len())->Some_0, defs, pool)),
    decreases v,
{
    match v {
        JsonView::Array(items) => {
            lemma_out_items_refs(items, defs, pool);
        },
        _ => {
            lemma_out_index_refs(v, defs, pool);
        },
    }
}

proof fn lemma_out_items_refs(items: Seq<JsonView>, defs: Seq<JsonView>, pool: Seq<JsonView>)
    requires
        mat_items_refs(items, defs.len()) matches Some(r) && in_pool(r, defs, pool),
        no_dups(pool),
        pool.len() <= u64::MAX,
    ensures
        mat_items_refs(mat_items_out(items, pool, defs), pool.len())
            == Some(global_ids(mat_items_refs(items, defs.len())->Some_0, defs, pool)),
    decreases items,
{
    let out = mat_items_out(items, pool, defs);
    if items.len() > 0 {
        let a = mat_items_refs(items.drop_last(), defs.len())->Some_0;
        let b = mat_tree_refs(items.last(), defs.len())->Some_0;
        lemma_in_pool_split(a, b, defs, pool);
        lemma_out_items_refs(items.drop_last(), defs, pool);
        lemma_out_tree_refs(items.last(), defs, pool);
        assert(out.drop_last() == mat_items_out(items.drop_last(), pool, defs));
        assert(out.last() == mat_tree_out(items.last(), pool, defs));
        assert(global_ids(a + b, defs, pool) =~= global_ids(a, defs, pool) + global_ids(b, defs, pool));
    } else {
        assert(out =~= Seq::<JsonView>::empty());
        assert(global_ids(Seq::<nat>::empty(), defs, pool) =~= Seq::<nat>::empty());
    }
}

proof fn lemma_out_theme_refs(inner: JsonView, defs: Seq<JsonView>, pool: Seq<JsonView>)
    requires
        mat_theme_refs(inner, defs.len()) matches Some(r) && in_pool(r, defs, pool),
        no_dups(pool),
        pool.len() <= u64::MAX,
    ensures
        mat_theme_refs(mat_theme_out(inner, pool, defs), pool.len())
            == Some(global_ids(mat_theme_refs(inner, defs.len())->Some_0, defs, pool)),
{
    let n = defs.len();
    let a = match get_spec(inner, "value"@) { Some(v) => mat_index_refs(v, n), None => Some(Seq::<nat>::empty()) }->Some_0;
    let b = match get_spec(inner, "values"@) { Some(v) => mat_tree_refs(v, n), None => Some(Seq::<nat>::empty()) }->Some_0;
    lemma_in_pool_split(a, b, defs, pool);
    let oa = match get_spec(inner, "value"@) { Some(v) => Some(mat_index_out(v, pool, defs)), None => None };
    let ob = match get_spec(inner, "values"@) { Some(v) => Some(mat_tree_out(v, pool, defs)), None => None };
    lemma_two_members(oa, ob);
    let out = mat_theme_out(inner, pool, defs);
    assert(get_spec(out, "value"@) == oa);
    assert(get_spec(out, "values"@) == ob);
    match get_spec(inner, "value"@) {
        Some(v) => lemma_out_index_refs(v, defs, pool),
        None => assert(global_ids(a, defs, pool) =~= Seq::<nat>::empty()),
    }
    match get_spec(inner, "values"@) {
        Some(v) => lemma_out_tree_refs(v, defs, pool),
        None => assert(global_ids(b, defs, pool) =~= Seq::<nat>::empty()),
    }
    assert(global_ids(a + b, defs, pool) =~= global_ids(a, defs, pool) + global_ids(b, defs, pool));
}

proof fn lemma_out_fields_refs(fields: Seq<(Seq<char>, JsonView)>, defs: Seq<JsonView>, pool: Seq<JsonView>)
    requires
        mat_fields_refs(fields, defs.len()) matches Some(r) && in_pool(r, defs, pool),
        no_dups(pool),
        pool.len() <= u64::MAX,
    ensures
        mat_fields_refs(fields.map_values(|f: (Seq<char>, JsonView)| (f.0, mat_theme_out(f.1, pool, defs))), pool.len())
            == Some(global_ids(mat_fields_refs(fields, defs.len())->Some_0, defs, pool)),
    decreases fields.len(),
{
    let out = fields.map_values(|f: (Seq<char>, JsonView)| (f.0, mat_theme_out(f.1, pool, defs)));
    if fields.len() > 0 {
        let a = mat_fields_refs(fields.drop_last(), defs.len())->Some_0;
        let b = mat_theme_refs(fields.last().1, defs.len())->Some_0;
        lemma_in_pool_split(a, b, defs, pool);
        lemma_out_fields_refs(fields.drop_last(), defs, pool);
        lemma_out_theme_refs(fields.last().1, defs, pool);
        assert(out.drop_last() =~= fields.drop_last().map_values(|f: (Seq<char>, JsonView)| (f.0, mat_theme_out(f.1, pool, defs))));
        assert(out.last() == (fields.last().0, mat_theme_out(fields.last().1, pool, defs)));
        assert(global_ids(a + b, defs, pool) =~= global_ids(a, defs, pool) + global_ids(b, defs, pool));
    } else {
        assert(out =~= Seq::<(Seq<char>, JsonView)>::empty());
        assert(global_ids(Seq::<nat>::empty(), defs, pool) =~= Seq::<nat>::empty());
    }
}

/// Slicing undoes the interner: a material map the interner rewrote to
/// dataset-global ids is accepted by the slicer, which meets exactly the
/// global ids of the map's definitions, in walk order; and once renumbered
/// against feature-local ids that list them, it resolves against the sliced
/// definitions to exactly what the original map resolved to against the
/// feature's own definitions.
pub proof fn lemma_material_round_trip(map: JsonView, defs: Seq<JsonView>, pool: Seq<JsonView>, ids: Seq<nat>)
    requires
        mat_map_refs(map, defs.len()) matches Some(r) && in_pool(r, defs, pool)
            && listed(global_ids(r, defs, pool), ids),
        no_dups(pool),
        pool.len() <= u64::MAX,
        no_dups(ids),
        ids.len() <= u64::MAX,
    ensures
        mat_map_refs(mat_map_out(map, pool, defs), pool.len())
            == Some(global_ids(mat_map_refs(map, defs.len())->Some_0, defs, pool)),
        res_mat_map(renum_mat_map(mat_map_out(map, pool, defs), ids), picked(pool, ids)) == res_mat_map(map, defs),
{
    match map {
        JsonView::Object(fields) => {
            lemma_out_fields_refs(fields, defs, pool);
        },
        _ => {},
    }
    lemma_material_rewrite_resolves_alike(map, defs, pool);
    lemma_material_slice_resolves_alike(mat_map_out(map, pool, defs), pool, ids);
}

proof fn lemma_dedup_len<T>(acc: Seq<T>, s: Seq<T>)
    ensures
        dedup_append(acc, s).len() <= acc.len() + s.len(),
    decreases s.len(),
{
    if s.len() > 0 {
        lemma_dedup_len(acc, s.drop_last());
    }
}

/// The material round trip as a fresh slicer runs it: after the interner
/// rewrites a feature's material map against the dataset pool, a slicer that
/// has met no material yet accepts the rewritten map, gives out local ids
/// 0, 1, 2, ... to the global ids in the order the map first uses them, and
/// the map so renumbered resolves against the sliced definitions to exactly
/// what the original map resolved to against the feature's own definitions.
pub proof fn lemma_fresh_material_round_trip(map: JsonView, defs: Seq<JsonView>, pool: Seq<JsonView>)
    requires
        mat_map_refs(map, defs.len()) matches Some(r) && in_pool(r, defs, pool) && r.len() <= u64::MAX,
        no_dups(pool),
        pool.len() <= u64::MAX,
    ensures
        mat_map_refs(mat_map_out(map, pool, defs), pool.len())
            == Some(global_ids(mat_map_refs(map, defs.len())->Some_0, defs, pool)),
        ({
            let ids = dedup_append(Seq::<nat>::empty(), mat_map_refs(mat_map_out(map, pool, defs), pool.len())->Some_0);
            res_mat_map(renum_mat_map(mat_map_out(map, pool, defs), ids), picked(pool, ids)) == res_mat_map(map, defs)
        }),
{
    let r = mat_map_refs(map, defs.len())->Some_0;
    let g = global_ids(r, defs, pool);
    let ids = dedup_append(Seq::<nat>::empty(), g);
    lemma_dedup_append(Seq::<nat>::empty(), g);
    lemma_dedup_len(Seq::<nat>::empty(), g);
    assert(listed(g, ids)) by {
        assert forall|k: int| 0 <= k < g.len() implies ids.contains(#[trigger] g[k]) by {}
    }
    lemma_material_round_trip(map, defs, pool, ids);
}

// -------------------------------------------------- texture round trip ----

/// Every UV vertex of a feature with two coordinates has numbers there.
pub open spec fn numeric_uvs(uvs: Seq<Seq<JsonView>>) -> bool {
    forall|i: int| 0 <= i < uvs.len() && (#[trigger] uvs[i]).len() >= 2 ==> uvs[i][0] is Number && uvs[i][1] is Number
}

proof fn lemma_accept_ring(items: Seq<JsonView>, defs: Seq<JsonView>, pool: Seq<JsonView>, uvs: Seq<Seq<JsonView>>)
    requires
        is_ring(items),
        ring_refs(items, defs.len(), uvs) matches Some(r) && in_pool(r, defs, pool),
        numeric_uvs(uvs),
        no_dups(pool),
        pool.len() <= u64::MAX,
    ensures
        ring_out(items, pool, defs, uvs) is Array,
        is_slice_ring(ring_out(items, pool, defs, uvs)->Array_0),
        slice_ring_refs(ring_out(items, pool, defs, uvs)->Array_0, pool.len()) is Some,
        slice_ring_refs(ring_out(items, pool, defs, uvs)->Array_0, pool.len())->Some_0.0
            == global_ids(ring_refs(items, defs.len(), uvs)->Some_0, defs, pool),
{
    let r = ring_refs(items, defs.len(), uvs)->Some_0;
    let x = ring_out(items, pool, defs, uvs);
    let xs = x->Array_0;
    if items.len() == 1 && items[0] is Null {
        assert(xs =~= seq![JsonView::Null]);
        assert(r =~= Seq::<nat>::empty());
        assert(global_ids(r, defs, pool) =~= Seq::<nat>::empty());
    } else {
        assert forall|k: int| 1 <= k < xs.len() implies (#[trigger] uv_pair(xs[k])) is Some by {
            assert(uv_ok(items[k], uvs));
            let u = (items[k]->Number_0->PosInt_0) as int;
            assert(xs[k] == crate::interner::uv_pair(items[k], uvs));
            assert(uvs[u].len() >= 2);
            assert(uvs[u][0] is Number && uvs[u][1] is Number);
        }
        match items[0] {
            JsonView::Number(NumView::PosInt(i)) => {
                assert(r[0] == i as nat);
                assert(pool.contains(defs[i as int]));
                lemma_index_stable(pool, pool, defs[i as int]);
                assert((index_of(pool, defs[i as int]) as u64) as nat == index_of(pool, defs[i as int]));
                assert(global_ids(r, defs, pool) =~= seq![index_of(pool, defs[i as int])]);
            },
            _ => {
                assert(global_ids(r, defs, pool) =~= Seq::<nat>::empty());
            },
        }
    }
}

proof fn lemma_accept_tree(v: JsonView, defs: Seq<JsonView>, pool: Seq<JsonView>, uvs: Seq<Seq<JsonView>>)
    requires
        tex_tree_refs(v, defs.len(), uvs) matches Some(r) && in_pool(r, defs, pool),
        numeric_uvs(uvs),
        no_dups(pool),
        pool.len() <= u64::MAX,
    ensures
        tex_tree_out(v, pool, defs, uvs) is Array,
        slice_tree_refs(tex_tree_out(v, pool, defs, uvs), pool.len()) is Some,
        slice_tree_refs(tex_tree_out(v, pool, defs, uvs), pool.len())->Some_0.0
            == global_ids(tex_tree_refs(v, defs.len(), uvs)->Some_0, defs, pool),
    decreases v,
{
    match v {
        JsonView::Array(items) => {
            if is_ring(items) {
                lemma_accept_ring(items, defs, pool, uvs);
            } else {
                lemma_accept_items(items, defs, pool, uvs);
                let xs = tex_items_out(items, pool, defs, uvs);
                lemma_tex_items_out_index(items, pool, defs, uvs);
                if items.len() > 0 {
                    lemma_tex_items_first(items, defs, pool, uvs);
                }
            }
        },
        _ => {},
    }
}

/// The first item of a valid list that is not a ring is itself a list, and
/// so is what it is rewritten to.
proof fn lemma_tex_items_first(items: Seq<JsonView>, defs: Seq<JsonView>, pool: Seq<JsonView>, uvs: Seq<Seq<JsonView>>)
    requires
        items.len() > 0,
        !is_ring(items),
        tex_items_refs(items, defs.len(), uvs) matches Some(r) && in_pool(r, defs, pool),
        numeric_uvs(uvs),
        no_dups(pool),
        pool.len() <= u64::MAX,
    ensures
        tex_tree_out(items[0], pool, defs, uvs) is Array,
    decreases items.len(),
{
    lemma_tex_items_sub(items, defs.len(), uvs, 0);
    assert(items[0] is Array);
    let b = tex_tree_refs(items[0], defs.len(), uvs)->Some_0;
    let all = tex_items_refs(items, defs.len(), uvs)->Some_0;
    assert(in_pool(b, defs, pool)) by {
        assert forall|k: int| 0 <= k < b.len() implies pool.contains(#[trigger] defs[b[k] as int]) by {
            let w = choose|w: int| 0 <= w < all.len() && all[w] == b[k];
            assert(pool.contains(defs[all[w] as int]));
        }
    }
}

proof fn lemma_accept_items(items: Seq<JsonView>, defs: Seq<JsonView>, pool: Seq<JsonView>, uvs: Seq<Seq<JsonView>>)
    requires
        tex_items_refs(items, defs.len(), uvs) matches Some(r) && in_pool(r, defs, pool),
        numeric_uvs(uvs),
        no_dups(pool),
        pool.len() <= u64::MAX,
    ensures
        slice_items_refs(tex_items_out(items, pool, defs, uvs), pool.len()) is Some,
        slice_items_refs(tex_items_out(items, pool, defs, uvs), pool.len())->Some_0.0
            == global_ids(tex_items_refs(items, defs.len(), uvs)->Some_0, defs, pool),
    decreases items,
{
    let out = tex_items_out(items, pool, defs, uvs);
    if items.len() > 0 {
        let a = tex_items_refs(items.drop_last(), defs.len(), uvs)->Some_0;
        let b = tex_tree_refs(items.last(), defs.len(), uvs)->Some_0;
        lemma_in_pool_split(a, b, defs, pool);
        lemma_accept_items(items.drop_last(), defs, pool, uvs);
        lemma_accept_tree(items.last(), defs, pool, uvs);
        assert(out.drop_last() == tex_items_out(items.drop_last(), pool, defs, uvs));
        assert(out.last() == tex_tree_out(items.last(), pool, defs, uvs));
        assert(global_ids(a + b, defs, pool) =~= global_ids(a, defs, pool) + global_ids(b, defs, pool));
    } else {
        assert(out =~= Seq::<JsonView>::empty());
        assert(global_ids(Seq::<nat>::empty(), defs, pool) =~= Seq::<nat>::empty());
    }
}

/// The rewritten theme entry of a texture map.
pub open spec fn tex_theme_rewritten(inner: JsonView, pool: Seq<JsonView>, defs: Seq<JsonView>, uvs: Seq<Seq<JsonView>>) -> JsonView {
    JsonView::Object(seq![("values"@, tex_tree_out(get_spec(inner, "values"@)->Some_0, pool, defs, uvs))])
}

proof fn lemma_accept_fields(fields: Seq<(Seq<char>, JsonView)>, defs: Seq<JsonView>, pool: Seq<JsonView>, uvs: Seq<Seq<JsonView>>)
    requires
        tex_fields_refs(fields, defs.len(), uvs) matches Some(r) && in_pool(r, defs, pool),
        numeric_uvs(uvs),
        no_dups(pool),
        pool.len() <= u64::MAX,
    ensures
        slice_fields_refs(fields.map_values(|f: (Seq<char>, JsonView)| (f.0, tex_theme_rewritten(f.1, pool, defs, uvs))), pool.len()) is Some,
        slice_fields_refs(fields.map_values(|f: (Seq<char>, JsonView)| (f.0, tex_theme_rewritten(f.1, pool, defs, uvs))), pool.len())->Some_0.0
            == global_ids(tex_fields_refs(fields, defs.len(), uvs)->Some_0, defs, pool),
    decreases fields.len(),
{
    let out = fields.map_values(|f: (Seq<char>, JsonView)| (f.0, tex_theme_rewritten(f.1, pool, defs, uvs)));
    if fields.len() > 0 {
        let a = tex_fields_refs(fields.drop_last(), defs.len(), uvs)->Some_0;
        let b = tex_theme_refs(fields.last().1, defs.len(), uvs)->Some_0;
        lemma_in_pool_split(a, b, defs, pool);
        lemma_accept_fields(fields.drop_last(), defs, pool, uvs);
        let v = get_spec(fields.last().1, "values"@)->Some_0;
        lemma_accept_tree(v, defs, pool, uvs);
        assert(out.drop_last() =~= fields.drop_last().map_values(|f: (Seq<char>, JsonView)| (f.0, tex_theme_rewritten(f.1, pool, defs, uvs))));
        assert(out.last() == (fields.last().0, tex_theme_rewritten(fields.last().1, pool, defs, uvs)));
        assert(get_spec(tex_theme_rewritten(fields.last().1, pool, defs, uvs), "values"@) == Some(tex_tree_out(v, pool, defs, uvs)));
        assert(global_ids(a + b, defs, pool) =~= global_ids(a, defs, pool) + global_ids(b, defs, pool));
    } else {
        assert(out =~= Seq::<(Seq<char>, JsonView)>::empty());
        assert(global_ids(Seq::<nat>::empty(), defs, pool) =~= Seq::<nat>::empty());
    }
}

/// The slicer accepts what the interner wrote: a texture map the interner
/// rewrote to dataset-global ids, over numeric UV coordinates, is a valid
/// map to the slicer, which meets exactly the global ids of the map's
/// texture definitions, in walk order.
pub proof fn lemma_slicer_accepts_rewritten_textures(map: JsonView, defs: Seq<JsonView>, pool: Seq<JsonView>, uvs: Seq<Seq<JsonView>>)
    requires
        tex_map_refs(map, defs.len(), uvs) matches Some(r) && in_pool(r, defs, pool),
        numeric_uvs(uvs),
        no_dups(pool),
        pool.len() <= u64::MAX,
    ensures
        slice_map_refs(tex_map_out(map, pool, defs, uvs), pool.len()) is Some,
        slice_map_refs(tex_map_out(map, pool, defs, uvs), pool.len())->Some_0.0
            == global_ids(tex_map_refs(map, defs.len(), uvs)->Some_0, defs, pool),
{
    match map {
        JsonView::Object(fields) => {
            lemma_accept_fields(fields, defs, pool, uvs);
            assert(tex_map_out(map, pool, defs, uvs)->Object_0 =~=
                fields.map_values(|f: (Seq<char>, JsonView)| (f.0, tex_theme_rewritten(f.1, pool, defs, uvs))));
        },
        _ => {},
    }
}

/// A UV pool key written as JSON: its two bit patterns.
pub open spec fn key_json(k: (u64, u64)) -> JsonView {
    JsonView::Array(seq![JsonView::Number(NumView::PosInt(k.0)), JsonView::Number(NumView::PosInt(k.1))])
}

/// The first two coordinates of the UV vertex a reference names.
pub open spec fn vertex_pair(u: JsonView, uvs: Seq<Seq<JsonView>>) -> (JsonView, JsonView) {
    let i = (u->Number_0->PosInt_0) as int;
    (uvs[i][0], uvs[i][1])
}

/// What a feature's own texture ring means: its texture definition (`null`
/// without one) and, per UV reference, the key of the vertex's coordinates.
pub open spec fn local_ring_meaning(items: Seq<JsonView>, defs: Seq<JsonView>, uvs: Seq<Seq<JsonView>>, table: Seq<(JsonView, u64)>) -> JsonView {
    let head = match items[0] {
        JsonView::Number(NumView::PosInt(i)) => defs[i as int],
        _ => JsonView::Null,
    };
    JsonView::Array(seq![head] + Seq::new((items.len() - 1) as nat, |k: int| key_json(pair_key(table, vertex_pair(items[k + 1], uvs))->Some_0)))
}

/// What a feature's own texture `values` tree means, ring by ring.
pub open spec fn local_tree_meaning(v: JsonView, defs: Seq<JsonView>, uvs: Seq<Seq<JsonView>>, table: Seq<(JsonView, u64)>) -> JsonView
    decreases v,
{
    match v {
        JsonView::Array(items) => if is_ring(items) {
            local_ring_meaning(items, defs, uvs, table)
        } else {
            JsonView::Array(local_items_meaning(items, defs, uvs, table))
        },
        _ => v,
    }
}

pub open spec fn local_items_meaning(items: Seq<JsonView>, defs: Seq<JsonView>, uvs: Seq<Seq<JsonView>>, table: Seq<(JsonView, u64)>) -> Seq<JsonView>
    decreases items,
{
    if items.len() == 0 {
        Seq::empty()
    } else {
        local_items_meaning(items.drop_last(), defs, uvs, table).push(local_tree_meaning(items.last(), defs, uvs, table))
    }
}

/// What a feature's own texture map means, theme by theme.
pub open spec fn local_map_meaning(map: JsonView, defs: Seq<JsonView>, uvs: Seq<Seq<JsonView>>, table: Seq<(JsonView, u64)>) -> JsonView {
    JsonView::Object(map->Object_0.map_values(|f: (Seq<char>, JsonView)|
        (f.0, JsonView::Object(seq![("values"@, local_tree_meaning(get_spec(f.1, "values"@)->Some_0, defs, uvs, table))]))))
}

/// What a sliced ring means: its feature-local texture definition (`null`
/// without one) and the key at each of its UV pool indices.
pub open spec fn sliced_ring_meaning(items: Seq<JsonView>, texdefs: Seq<JsonView>, uvpool: Seq<(u64, u64)>) -> JsonView {
    let head = match items[0] {
        JsonView::Number(NumView::PosInt(l)) => texdefs[l as int],
        _ => JsonView::Null,
    };
    JsonView::Array(seq![head] + Seq::new((items.len() - 1) as nat, |k: int| key_json(uvpool[(items[k + 1]->Number_0->PosInt_0) as int])))
}

pub open spec fn sliced_tree_meaning(v: JsonView, texdefs: Seq<JsonView>, uvpool: Seq<(u64, u64)>) -> JsonView
    decreases v,
{
    match v {
        JsonView::Array(items) => if is_slice_ring(items) {
            sliced_ring_meaning(items, texdefs, uvpool)
        } else {
            JsonView::Array(sliced_items_meaning(items, texdefs, uvpool))
        },
        _ => v,
    }
}

pub open spec fn sliced_items_meaning(items: Seq<JsonView>, texdefs: Seq<JsonView>, uvpool: Seq<(u64, u64)>) -> Seq<JsonView>
    decreases items,
{
    if items.len() == 0 {
        Seq::empty()
    } else {
        sliced_items_meaning(items.drop_last(), texdefs, uvpool).push(sliced_tree_meaning(items.last(), texdefs, uvpool))
    }
}

/// What a sliced texture map means, theme by theme.
pub open spec fn sliced_map_meaning(map: JsonView, texdefs: Seq<JsonView>, uvpool: Seq<(u64, u64)>) -> JsonView {
    JsonView::Object(map->Object_0.map_values(|f: (Seq<char>, JsonView)|
        (f.0, JsonView::Object(seq![("values"@, sliced_tree_meaning(get_spec(f.1, "values"@)->Some_0, texdefs, uvpool))]))))
}

proof fn lemma_round_ring(
    items: Seq<JsonView>, defs: Seq<JsonView>, pool: Seq<JsonView>, uvs: Seq<Seq<JsonView>>,
    table: Seq<(JsonView, u64)>, tids: Seq<nat>, uvpool: Seq<(u64, u64)>,
)
    requires
        is_ring(items),
        ring_refs(items, defs.len(), uvs) matches Some(r) && in_pool(r, defs, pool),
        numeric_uvs(uvs),
        no_dups(pool),
        pool.len() <= u64::MAX,
        covered(slice_ring_refs(ring_out(items, pool, defs, uvs)->Array_0, pool.len())->Some_0, tids, uvpool, table),
        no_dups(tids),
        tids.len() <= u64::MAX,
        no_dups(uvpool),
        uvpool.len() <= u64::MAX,
    ensures
        sliced_tree_meaning(slice_tree_out(ring_out(items, pool, defs, uvs), tids, uvpool, table), picked(pool, tids), uvpool)
            == local_ring_meaning(items, defs, uvs, table),
{
    lemma_accept_ring(items, defs, pool, uvs);
    let xs = ring_out(items, pool, defs, uvs)->Array_0;
    let sr = slice_ring_refs(xs, pool.len())->Some_0;
    let y = slice_ring_out(xs, tids, uvpool, table);
    let ys = y->Array_0;
    assert(slice_tree_out(ring_out(items, pool, defs, uvs), tids, uvpool, table) == y);
    assert(is_slice_ring(ys));
    let lm = local_ring_meaning(items, defs, uvs, table);
    let sm = sliced_ring_meaning(ys, picked(pool, tids), uvpool);
    assert(ys.len() == items.len());
    if items.len() == 1 && items[0] is Null {
        assert(xs =~= seq![JsonView::Null]);
        assert(lm->Array_0 =~= seq![JsonView::Null]);
        assert(sm->Array_0 =~= seq![JsonView::Null]);
    } else {
        // The texture.
        match items[0] {
            JsonView::Number(NumView::PosInt(i)) => {
                let g = index_of(pool, defs[i as int]);
                assert(pool.contains(defs[i as int])) by {
                    let r = ring_refs(items, defs.len(), uvs)->Some_0;
                    assert(r[0] == i as nat);
                }
                lemma_index_stable(pool, pool, defs[i as int]);
                assert((g as u64) as nat == g);
                assert(sr.0 =~= seq![g]);
                assert(tids.contains(sr.0[0]));
                lemma_index_stable(tids, tids, g);
                assert((index_of(tids, g) as u64) as nat == index_of(tids, g));
                assert(sm->Array_0[0] == picked(pool, tids)[index_of(tids, g) as int]);
                assert(sm->Array_0[0] == defs[i as int]);
            },
            _ => {},
        }
        // The UV references.
        assert forall|k: int| 0 <= k < items.len() - 1 implies
            (#[trigger] sm->Array_0[k + 1]) == lm->Array_0[k + 1] by {
            let u = items[k + 1];
            assert(xs[k + 1] == crate::interner::uv_pair(u, uvs));
            assert(uv_pair(xs[k + 1]) == Some(vertex_pair(u, uvs)));
            assert(sr.1[k] == uv_pair(xs[k + 1])->Some_0);
            let key = pair_key(table, sr.1[k])->Some_0;
            assert(pair_key(table, sr.1[k]) is Some && uvpool.contains(key));
            lemma_index_stable(uvpool, uvpool, key);
            assert((index_of(uvpool, key) as u64) as nat == index_of(uvpool, key));
            assert(ys[k + 1] == uv_out(xs[k + 1], uvpool, table));
        }
        assert(sm->Array_0 =~= lm->Array_0);
    }
}

proof fn lemma_round_tree(
    v: JsonView, defs: Seq<JsonView>, pool: Seq<JsonView>, uvs: Seq<Seq<JsonView>>,
    table: Seq<(JsonView, u64)>, tids: Seq<nat>, uvpool: Seq<(u64, u64)>,
)
    requires
        tex_tree_refs(v, defs.len(), uvs) matches Some(r) && in_pool(r, defs, pool),
        numeric_uvs(uvs),
        no_dups(pool),
        pool.len() <= u64::MAX,
        covered(slice_tree_refs(tex_tree_out(v, pool, defs, uvs), pool.len())->Some_0, tids, uvpool, table),
        no_dups(tids),
        tids.len() <= u64::MAX,
        no_dups(uvpool),
        uvpool.len() <= u64::MAX,
    ensures
        sliced_tree_meaning(slice_tree_out(tex_tree_out(v, pool, defs, uvs), tids, uvpool, table), picked(pool, tids), uvpool)
            == local_tree_meaning(v, defs, uvs, table),
    decreases v,
{
    lemma_accept_tree(v, defs, pool, uvs);
    match v {
        JsonView::Array(items) => {
            if is_ring(items) {
                lemma_round_ring(items, defs, pool, uvs, table, tids, uvpool);
            } else {
                let xs = tex_items_out(items, pool, defs, uvs);
                lemma_tex_items_out_index(items, pool, defs, uvs);
                if items.len() > 0 {
                    lemma_tex_items_first(items, defs, pool, uvs);
                }
                assert(!is_slice_ring(xs));
                lemma_round_items(items, defs, pool, uvs, table, tids, uvpool);
                let ys = slice_items_out(xs, tids, uvpool, table);
                lemma_slice_items_out_index(xs, tids, uvpool, table);
                if ys.len() > 0 {
                    assert(ys[0] == slice_tree_out(xs[0], tids, uvpool, table));
                    assert(ys[0] is Array);
                }
                assert(!is_slice_ring(ys));
            }
        },
        _ => {},
    }
}

proof fn lemma_round_items(
    items: Seq<JsonView>, defs: Seq<JsonView>, pool: Seq<JsonView>, uvs: Seq<Seq<JsonView>>,
    table: Seq<(JsonView, u64)>, tids: Seq<nat>, uvpool: Seq<(u64, u64)>,
)
    requires
        tex_items_refs(items, defs.len(), uvs) matches Some(r) && in_pool(r, defs, pool),
        numeric_uvs(uvs),
        no_dups(pool),
        pool.len() <= u64::MAX,
        covered(slice_items_refs(tex_items_out(items, pool, defs, uvs), pool.len())->Some_0, tids, uvpool, table),
        no_dups(tids),
        tids.len() <= u64::MAX,
        no_dups(uvpool),
        uvpool.len() <= u64::MAX,
    ensures
        sliced_items_meaning(slice_items_out(tex_items_out(items, pool, defs, uvs), tids, uvpool, table), picked(pool, tids), uvpool)
            == local_items_meaning(items, defs, uvs, table),
    decreases items,
{
    let xs = tex_items_out(items, pool, defs, uvs);
    if items.len() > 0 {
        let a = tex_items_refs(items.drop_last(), defs.len(), uvs)->Some_0;
        let b = tex_tree_refs(items.last(), defs.len(), uvs)->Some_0;
        lemma_in_pool_split(a, b, defs, pool);
        lemma_accept_items(items.drop_last(), defs, pool, uvs);
        lemma_accept_tree(items.last(), defs, pool, uvs);
        assert(xs.drop_last() == tex_items_out(items.drop_last(), pool, defs, uvs));
        assert(xs.last() == tex_tree_out(items.last(), pool, defs, uvs));
        let sa = slice_items_refs(xs.drop_last(), pool.len())->Some_0;
        let sb = slice_tree_refs(xs.last(), pool.len())->Some_0;
        lemma_join_covered(sa, sb, tids, uvpool, table);
        lemma_round_items(items.drop_last(), defs, pool, uvs, table, tids, uvpool);
        lemma_round_tree(items.last(), defs, pool, uvs, table, tids, uvpool);
        let ys = slice_items_out(xs, tids, uvpool, table);
        assert(ys.drop_last() == slice_items_out(xs.drop_last(), tids, uvpool, table));
        assert(ys.last() == slice_tree_out(xs.last(), tids, uvpool, table));
    } else {
        assert(xs =~= Seq::<JsonView>::empty());
        assert(slice_items_out(xs, tids, uvpool, table) =~= Seq::<JsonView>::empty());
    }
}

proof fn lemma_round_fields(
    fields: Seq<(Seq<char>, JsonView)>, defs: Seq<JsonView>, pool: Seq<JsonView>, uvs: Seq<Seq<JsonView>>,
    table: Seq<(JsonView, u64)>, tids: Seq<nat>, uvpool: Seq<(u64, u64)>,
)
    requires
        tex_fields_refs(fields, defs.len(), uvs) matches Some(r) && in_pool(r, defs, pool),
        numeric_uvs(uvs),
        no_dups(pool),
        pool.len() <= u64::MAX,
        covered(slice_fields_refs(fields.map_values(|f: (Seq<char>, JsonView)| (f.0, tex_theme_rewritten(f.1, pool, defs, uvs))), pool.len())->Some_0,
            tids, uvpool, table),
        no_dups(tids),
        tids.len() <= u64::MAX,
        no_dups(uvpool),
        uvpool.len() <= u64::MAX,
    ensures
        forall|j: int| 0 <= j < fields.len() ==>
            sliced_tree_meaning(slice_tree_out(tex_tree_out(get_spec(#[trigger] fields[j].1, "values"@)->Some_0, pool, defs, uvs), tids, uvpool, table),
                picked(pool, tids), uvpool)
            == local_tree_meaning(get_spec(fields[j].1, "values"@)->Some_0, defs, uvs, table),
    decreases fields.len(),
{
    let out = fields.map_values(|f: (Seq<char>, JsonView)| (f.0, tex_theme_rewritten(f.1, pool, defs, uvs)));
    if fields.len() > 0 {
        let a = tex_fields_refs(fields.drop_last(), defs.len(), uvs)->Some_0;
        let b = tex_theme_refs(fields.last().1, defs.len(), uvs)->Some_0;
        lemma_in_pool_split(a, b, defs, pool);
        lemma_accept_fields(fields.drop_last(), defs, pool, uvs);
        let v = get_spec(fields.last().1, "values"@)->Some_0;
        lemma_accept_tree(v, defs, pool, uvs);
        assert(out.drop_last() =~= fields.drop_last().map_values(|f: (Seq<char>, JsonView)| (f.0, tex_theme_rewritten(f.1, pool, defs, uvs))));
        assert(out.last() == (fields.last().0, tex_theme_rewritten(fields.last().1, pool, defs, uvs)));
        assert(get_spec(tex_theme_rewritten(fields.last().1, pool, defs, uvs), "values"@) == Some(tex_tree_out(v, pool, defs, uvs)));
        let sa = slice_fields_refs(out.drop_last(), pool.len())->Some_0;
        let sb = slice_theme_refs(out.last().1, pool.len())->Some_0;
        lemma_join_covered(sa, sb, tids, uvpool, table);
        lemma_round_fields(fields.drop_last(), defs, pool, uvs, table, tids, uvpool);
        lemma_round_tree(v, defs, pool, uvs, table, tids, uvpool);
        assert forall|j: int| 0 <= j < fields.len() implies
            sliced_tree_meaning(slice_tree_out(tex_tree_out(get_spec(#[trigger] fields[j].1, "values"@)->Some_0, pool, defs, uvs), tids, uvpool, table),
                picked(pool, tids), uvpool)
            == local_tree_meaning(get_spec(fields[j].1, "values"@)->Some_0, defs, uvs, table) by {
            if j < fields.len() - 1 {
                assert(fields.drop_last()[j] == fields[j]);
            }
        }
    }
}

/// Slicing undoes the interner for textures: once the slicer has renumbered
/// a texture map the interner rewrote (over numeric UV coordinates) against
/// feature-local texture ids and a UV pool that hold what the map
/// references, the sliced map means exactly what the feature's own map
/// meant: each ring's texture definition and, for each UV reference, the bit
/// patterns of the UV vertex's coordinates.
pub proof fn lemma_texture_round_trip(
    map: JsonView, defs: Seq<JsonView>, pool: Seq<JsonView>, uvs: Seq<Seq<JsonView>>,
    table: Seq<(JsonView, u64)>, tids: Seq<nat>, uvpool: Seq<(u64, u64)>,
)
    requires
        tex_map_refs(map, defs.len(), uvs) matches Some(r) && in_pool(r, defs, pool),
        numeric_uvs(uvs),
        no_dups(pool),
        pool.len() <= u64::MAX,
        covered(slice_map_refs(tex_map_out(map, pool, defs, uvs), pool.len())->Some_0, tids, uvpool, table),
        no_dups(tids),
        tids.len() <= u64::MAX,
        no_dups(uvpool),
        uvpool.len() <= u64::MAX,
    ensures
        sliced_map_meaning(slice_map_out(tex_map_out(map, pool, defs, uvs), tids, uvpool, table), picked(pool, tids), uvpool)
            == local_map_meaning(map, defs, uvs, table),
{
    let fields = map->Object_0;
    let out = fields.map_values(|f: (Seq<char>, JsonView)| (f.0, tex_theme_rewritten(f.1, pool, defs, uvs)));
    assert(tex_map_out(map, pool, defs, uvs)->Object_0 =~= out);
    lemma_round_fields(fields, defs, pool, uvs, table, tids, uvpool);
    let sliced = slice_map_out(tex_map_out(map, pool, defs, uvs), tids, uvpool, table);
    let lhs = sliced_map_meaning(sliced, picked(pool, tids), uvpool);
    let rhs = local_map_meaning(map, defs, uvs, table);
    assert forall|j: int| 0 <= j < fields.len() implies lhs->Object_0[j] == rhs->Object_0[j] by {
        let t = sliced->Object_0[j];
        assert(t == (out[j].0, slice_theme_out(out[j].1, tids, uvpool, table)));
        assert(get_spec(out[j].1, "values"@) == Some(tex_tree_out(get_spec(fields[j].1, "values"@)->Some_0, pool, defs, uvs)));
        let sv = slice_tree_out(tex_tree_out(get_spec(fields[j].1, "values"@)->Some_0, pool, defs, uvs), tids, uvpool, table);
        assert(get_spec(t.1, "values"@) == Some(sv));
        assert(lhs->Object_0[j] == (fields[j].0, JsonView::Object(seq![("values"@, sliced_tree_meaning(sv, picked(pool, tids), uvpool))])));
    }
    assert(lhs->Object_0 =~= rhs->Object_0);
}

// ------------------------------------------------------------ slicer ----

/// Per-feature slicer: the global definitions a feature's geometries
/// reference, renumbered in first-use order, and the feature-local UV pool.
pub struct LocalAppearance<'a> {
    global_materials: &'a [JsonValue],
    global_textures: &'a [JsonValue],
    local_materials: Vec<JsonValue>,
    material_ids: Vec<usize>,
    local_textures: Vec<JsonValue>,
    texture_ids: Vec<usize>,
    local_uvs: Vec<(u64, u64)>,
}

impl<'a> LocalAppearance<'a> {
    /// The dataset-global material definitions.
    pub closed spec fn gmats(&self) -> Seq<JsonView> {
        items_view(self.global_materials@)
    }

    /// The dataset-global texture definitions.
    pub closed spec fn gtexs(&self) -> Seq<JsonView> {
        items_view(self.global_textures@)
    }

    /// The global id of each feature-local material, by local index.
    pub closed spec fn mat_ids(&self) -> Seq<nat> {
        usizes(self.material_ids@)
    }

    /// The global id of each feature-local texture, by local index.
    pub closed spec fn tex_ids(&self) -> Seq<nat> {
        usizes(self.texture_ids@)
    }

    /// The feature-local UV pool: each pair's coordinate bit patterns.
    pub closed spec fn uvs(&self) -> Seq<(u64, u64)> {
        self.local_uvs@
    }

    /// Each local definition list holds the global definitions its ids name.
    pub closed spec fn inner_wf(&self) -> bool {
        &&& items_view(self.local_materials@) == picked(self.gmats(), self.mat_ids())
        &&& items_view(self.local_textures@) == picked(self.gtexs(), self.tex_ids())
    }

    /// Well formed: no global id and no UV pair is listed twice, and every
    /// listed id names a global definition.
    pub open spec fn wf(&self) -> bool {
        &&& self.inner_wf()
        &&& no_dups(self.mat_ids())
        &&& no_dups(self.tex_ids())
        &&& no_dups(self.uvs())
        &&& forall|k: int| 0 <= k < self.mat_ids().len() ==> #[trigger] self.mat_ids()[k] < self.gmats().len()
        &&& forall|k: int| 0 <= k < self.tex_ids().len() ==> #[trigger] self.tex_ids()[k] < self.gtexs().len()
    }

    /// A slicer over the given global definitions that has assigned nothing.
    pub fn new(global_materials: &'a [JsonValue], global_textures: &'a [JsonValue]) -> (r: Self)
        ensures
            r.wf(),
            r.gmats() == items_view(global_materials@),
            r.gtexs() == items_view(global_textures@),
            r.mat_ids() == Seq::<nat>::empty(),
            r.tex_ids() == Seq::<nat>::empty(),
            r.uvs() == Seq::<(u64, u64)>::empty(),
    {
        let r = LocalAppearance {
            global_materials,
            global_textures,
            local_materials: Vec::new(),
            material_ids: Vec::new(),
            local_textures: Vec::new(),
            texture_ids: Vec::new(),
            local_uvs: Vec::new(),
        };
        assert(items_view(r.local_materials@) =~= picked(r.gmats(), r.mat_ids()));
        assert(items_view(r.local_textures@) =~= picked(r.gtexs(), r.tex_ids()));
        r
    }

    /// The feature-local material definitions, by local index.
    pub fn local_materials(&self) -> (r: &[JsonValue])
        requires
            self.wf(),
        ensures
            items_view(r@) == picked(self.gmats(), self.mat_ids()),
    {
        self.local_materials.as_slice()
    }

    /// The feature-local texture definitions, by local index.
    pub fn local_textures(&self) -> (r: &[JsonValue])
        requires
            self.wf(),
        ensures
            items_view(r@) == picked(self.gtexs(), self.tex_ids()),
    {
        self.local_textures.as_slice()
    }

    /// The feature-local UV pool: each pair's coordinate bit patterns.
    pub fn local_uvs(&self) -> (r: &[(u64, u64)])
        ensures
            r@ == self.uvs(),
    {
        self.local_uvs.as_slice()
    }

    /// Assign feature-local material ids to `refs`, in order, each global id
    /// once.
    fn assign_materials(&mut self, refs: &Vec<usize>)
        requires
            old(self).wf(),
            forall|k: int| 0 <= k < refs@.len() ==> (#[trigger] refs@[k]) < old(self).gmats().len(),
        ensures
            final(self).wf(),
            final(self).gmats() == old(self).gmats(),
            final(self).gtexs() == old(self).gtexs(),
            final(self).tex_ids() == old(self).tex_ids(),
            final(self).uvs() == old(self).uvs(),
            final(self).mat_ids() == dedup_append(old(self).mat_ids(), usizes(refs@)),
    {
        proof {
            lemma_items_view(self.global_materials@);
        }
        assign_ids(&mut self.material_ids, &mut self.local_materials, self.global_materials, refs);
        proof {
            lemma_items_view(self.global_materials@);
        }
    }

    /// Assign feature-local texture ids to `refs`, in order, each global id
    /// once.
    fn assign_textures(&mut self, refs: &Vec<usize>)
        requires
            old(self).wf(),
            forall|k: int| 0 <= k < refs@.len() ==> (#[trigger] refs@[k]) < old(self).gtexs().len(),
        ensures
            final(self).wf(),
            final(self).gmats() == old(self).gmats(),
            final(self).gtexs() == old(self).gtexs(),
            final(self).mat_ids() == old(self).mat_ids(),
            final(self).uvs() == old(self).uvs(),
            final(self).tex_ids() == dedup_append(old(self).tex_ids(), usizes(refs@)),
    {
        proof {
            lemma_items_view(self.global_textures@);
        }
        assign_ids(&mut self.texture_ids, &mut self.local_textures, self.global_textures, refs);
        proof {
            lemma_items_view(self.global_textures@);
        }
    }

    /// Intern UV keys into the pool, in order, each once.
    fn assign_uvs(&mut self, keys: &Vec<(u64, u64)>)
        requires
            old(self).wf(),
        ensures
            final(self).wf(),
            final(self).gmats() == old(self).gmats(),
            final(self).gtexs() == old(self).gtexs(),
            final(self).mat_ids() == old(self).mat_ids(),
            final(self).tex_ids() == old(self).tex_ids(),
            final(self).uvs() == dedup_append(old(self).uvs(), keys@),
    {
        let ghost p0 = self.uvs();
        let mut k: usize = 0;
        assert(keys@.take(0) =~= Seq::<(u64, u64)>::empty());
        while k < keys.len()
            invariant
                k <= keys@.len(),
                self.wf(),
                self.gmats() == old(self).gmats(),
                self.gtexs() == old(self).gtexs(),
                self.mat_ids() == old(self).mat_ids(),
                self.tex_ids() == old(self).tex_ids(),
                self.uvs() == dedup_append(p0, keys@.take(k as int)),
            decreases keys.len() - k,
        {
            let key = keys[k];
            let ghost before = self.uvs();
            proof {
                lemma_dedup_step(p0, keys@, k as int);
                lemma_dedup_one(before, key);
            }
            match position_key(&self.local_uvs, key) {
                Some(_) => {},
                None => {
                    self.local_uvs.push(key);
                    proof {
                        assert forall|i: int, j: int| 0 <= i < self.uvs().len() && 0 <= j < self.uvs().len() && i != j
                            implies self.uvs()[i] != self.uvs()[j] by {
                            if i < before.len() && j < before.len() {
                                assert(before[i] == self.uvs()[i] && before[j] == self.uvs()[j]);
                            } else if i < before.len() {
                                assert(before.contains(before[i]));
                            } else {
                                assert(before.contains(before[j]));
                            }
                        }
                    }
                },
            }
            k = k + 1;
        }
        assert(keys@.take(keys.len() as int) =~= keys@);
    }

    /// Localise one geometry's `material` member: every global id becomes
    /// its feature-local index, assigned in walk order on first use; `null`
    /// stays. A map that is not an object of theme objects, or an index that
    /// is not `null` or a non-negative integer naming a global definition,
    /// is a `Schema` error, and nothing is assigned.
    pub fn localise_material_map(&mut self, map: &JsonValue) -> (r: Result<JsonValue>)
        requires
            old(self).wf(),
        ensures
            final(self).wf(),
            final(self).gmats() == old(self).gmats(),
            final(self).gtexs() == old(self).gtexs(),
            final(self).tex_ids() == old(self).tex_ids(),
            final(self).uvs() == old(self).uvs(),
            match mat_map_refs(map@, old(self).gmats().len()) {
                None => r matches Err(CityParquetError::Schema(_)) && final(self).mat_ids() == old(self).mat_ids(),
                Some(refs) => r matches Ok(x) && x@ == renum_mat_map(map@, final(self).mat_ids())
                    && final(self).mat_ids() == dedup_append(old(self).mat_ids(), refs),
            },
    {
        proof {
            lemma_items_view(self.global_materials@);
        }
        let n = self.global_materials.len();
        let fields = match map {
            JsonValue::Object(fields) => fields,
            _ => return Err(schema_err("material map must be a JSON object of theme -> {value|values}")),
        };
        proof {
            lemma_fields_view(fields@);
        }
        let ghost fv = fields_view(fields@);
        assert(map@ == JsonView::Object(fv));
        let mut refs: Vec<usize> = Vec::new();
        let mut i: usize = 0;
        assert(fv.take(0) =~= Seq::<(Seq<char>, JsonView)>::empty());
        assert(usizes(refs@) =~= Seq::<nat>::empty());
        while i < fields.len()
            invariant
                i <= fields@.len(),
                n == self.gmats().len(),
                fv == fields_view(fields@),
                fv.len() == fields@.len(),
                forall|j: int| 0 <= j < fields@.len() ==> #[trigger] fv[j] == (fields@[j].0@, fields@[j].1@),
                mat_fields_refs(fv.take(i as int), n as nat) matches Some(pre) && usizes(refs@) == pre,
                *self == *old(self),
                self.wf(),
                map@ == JsonView::Object(fv),
            decreases fields.len() - i,
        {
            proof {
                lemma_mat_fields_prefix(fv, n as nat, i as int);
            }
            if !mat_theme_collect(&fields[i].1, n, &mut refs) {
                proof {
                    lemma_mat_fields_prefix_none(fv, n as nat, i + 1);
                }
                return Err(theme_err("material theme '", fields[i].0.as_str(), "' is not an object of valid material indices"));
            }
            i = i + 1;
        }
        assert(fv.take(fields.len() as int) =~= fv);
        let ghost all = usizes(refs@);
        proof {
            assert forall|k: int| 0 <= k < refs@.len() implies (#[trigger] refs@[k]) < n by {
                lemma_refs_below(fv, n as nat, k);
                assert(all[k] == refs@[k] as nat);
            }
        }
        self.assign_materials(&refs);
        let mut out: Vec<(std::string::String, JsonValue)> = Vec::new();
        let mut t: usize = 0;
        while t < fields.len()
            invariant
                t <= fields@.len(),
                n == self.gmats().len(),
                fv == fields_view(fields@),
                fv.len() == fields@.len(),
                forall|j: int| 0 <= j < fields@.len() ==> #[trigger] fv[j] == (fields@[j].0@, fields@[j].1@),
                mat_fields_refs(fv, n as nat) == Some(all),
                self.wf(),
                self.mat_ids() == dedup_append(old(self).mat_ids(), all),
                out@.len() == t,
                forall|j: int| 0 <= j < t ==> (#[trigger] out@[j]).0@ == fv[j].0
                    && out@[j].1@ == renum_theme(fv[j].1, self.mat_ids()),
            decreases fields.len() - t,
        {
            proof {
                lemma_mat_fields_sub(fv, n as nat, t as int);
                lemma_dedup_append(old(self).mat_ids(), all);
                let b = mat_theme_refs(fv[t as int].1, n as nat)->Some_0;
                assert forall|k: int| 0 <= k < b.len() implies self.mat_ids().contains(#[trigger] b[k]) by {
                    let w = choose|w: int| 0 <= w < all.len() && all[w] == b[k];
                    assert(self.mat_ids().contains(all[w]));
                }
            }
            let x = renum_theme_build(&fields[t].1, &self.material_ids, n);
            out.push((owned(fields[t].0.as_str()), x));
            t = t + 1;
        }
        proof {
            lemma_fields_view(out@);
            assert(fields_view(out@) =~= fv.map_values(|f: (Seq<char>, JsonView)| (f.0, renum_theme(f.1, self.mat_ids()))));
        }
        Ok(JsonValue::Object(out))
    }

    /// Every coordinate number of the UV pairs a texture map inlines, pair
    /// by pair, `u` before `v`; empty for a map that is refused. The caller
    /// gives each its bit pattern for [`Self::localise_texture_map`].
    pub fn uv_coordinates(&self, map: &JsonValue) -> (r: Vec<JsonValue>)
        requires
            self.wf(),
        ensures
            match slice_map_refs(map@, self.gtexs().len()) {
                Some(rr) => items_view(r@) == coords_of(rr.1),
                None => r@.len() == 0,
            },
    {
        proof {
            lemma_items_view(self.global_textures@);
        }
        let fields = match map {
            JsonValue::Object(fields) => fields,
            _ => return Vec::new(),
        };
        let mut tids: Vec<usize> = Vec::new();
        let mut pairs: Vec<(JsonValue, JsonValue)> = Vec::new();
        if slice_fields_collect(fields, self.global_textures.len(), &mut tids, &mut pairs).is_some() {
            return Vec::new();
        }
        let ghost pv = pairs_view(pairs@);
        assert(pv =~= slice_map_refs(map@, self.gtexs().len())->Some_0.1);
        let mut out: Vec<JsonValue> = Vec::new();
        let mut k: usize = 0;
        while k < pairs.len()
            invariant
                k <= pairs@.len(),
                pv == pairs_view(pairs@),
                pv.len() == pairs@.len(),
                out@.len() == 2 * k,
                forall|j: int| 0 <= j < 2 * k ==> (#[trigger] out@[j])@ == coords_of(pv)[j],
            decreases pairs.len() - k,
        {
            assert(pv[k as int] == (pairs@[k as int].0@, pairs@[k as int].1@));
            assert(coords_of(pv)[2 * k] == pv[((2 * k) as int) / 2].0);
            assert(coords_of(pv)[2 * k + 1] == pv[((2 * k + 1) as int) / 2].1);
            out.push(clone_json(&pairs[k].0));
            out.push(clone_json(&pairs[k].1));
            k = k + 1;
        }
        proof {
            lemma_items_view(out@);
            assert(items_view(out@) =~= coords_of(pv));
        }
        out
    }

    /// Localise one geometry's `texture` member: in every ring the texture
    /// id becomes its feature-local index (`null` stays) and every inlined
    /// `[u, v]` pair the index of its key in the feature-local UV pool, both
    /// assigned in walk order on first use. `uv_bits` gives each coordinate
    /// number its bit pattern; a pair's key is its coordinates' patterns. A
    /// map that is not an object of theme objects with `values`, a node that
    /// is not an array, a texture index that is not `null` or a non-negative
    /// integer naming a global definition, an element after it that is not a
    /// pair of numbers, or a coordinate `uv_bits` lacks, is a `Schema` error,
    /// and nothing is assigned.
    pub fn localise_texture_map(&mut self, map: &JsonValue, uv_bits: &[(JsonValue, u64)]) -> (r: Result<JsonValue>)
        requires
            old(self).wf(),
        ensures
            final(self).wf(),
            final(self).gmats() == old(self).gmats(),
            final(self).gtexs() == old(self).gtexs(),
            final(self).mat_ids() == old(self).mat_ids(),
            match slice_map_refs(map@, old(self).gtexs().len()) {
                None => r matches Err(CityParquetError::Schema(_))
                    && final(self).tex_ids() == old(self).tex_ids() && final(self).uvs() == old(self).uvs(),
                Some(rr) => match keyed(table_view(uv_bits@), rr.1) {
                    None => r matches Err(CityParquetError::Schema(_))
                        && final(self).tex_ids() == old(self).tex_ids() && final(self).uvs() == old(self).uvs(),
                    Some(keys) => r matches Ok(x)
                        && x@ == slice_map_out(map@, final(self).tex_ids(), final(self).uvs(), table_view(uv_bits@))
                        && final(self).tex_ids() == dedup_append(old(self).tex_ids(), rr.0)
                        && final(self).uvs() == dedup_append(old(self).uvs(), keys),
                },
            },
    {
        proof {
            lemma_items_view(self.global_textures@);
        }
        let n = self.global_textures.len();
        let fields = match map {
            JsonValue::Object(fields) => fields,
            _ => return Err(schema_err("texture map must be a JSON object of theme -> {values}")),
        };
        proof {
            lemma_fields_view(fields@);
        }
        let ghost fv = fields_view(fields@);
        let ghost tv = table_view(uv_bits@);
        assert(map@ == JsonView::Object(fv));
        let mut tids: Vec<usize> = Vec::new();
        let mut pairs: Vec<(JsonValue, JsonValue)> = Vec::new();
        match slice_fields_collect(fields, n, &mut tids, &mut pairs) {
            Some(i) => return Err(theme_err("texture theme '", fields[i].0.as_str(), "' is not an object whose values hold valid texture rings")),
            None => {},
        }
        let ghost rr = slice_fields_refs(fv, n as nat)->Some_0;
        assert(usizes(tids@) =~= rr.0);
        assert(pairs_view(pairs@) =~= rr.1);
        let keys = match keys_of(uv_bits, &pairs) {
            Some(keys) => keys,
            None => return Err(schema_err("an inlined UV coordinate has no bit pattern in the coordinate table")),
        };
        proof {
            lemma_slice_fields_below(fv, n as nat);
            assert forall|k: int| 0 <= k < tids@.len() implies (#[trigger] tids@[k]) < n by {
                assert(rr.0[k] == tids@[k] as nat);
            }
        }
        self.assign_textures(&tids);
        self.assign_uvs(&keys);
        proof {
            lemma_dedup_append(old(self).tex_ids(), rr.0);
            lemma_dedup_append(old(self).uvs(), keys@);
            assert forall|k: int| 0 <= k < rr.1.len() implies ((#[trigger] pair_key(tv, rr.1[k])) matches Some(key) && self.uvs().contains(key)) by {
                assert(keys@[k] == pair_key(tv, rr.1[k])->Some_0);
            }
            assert(covered(rr, self.tex_ids(), self.uvs(), tv));
        }
        let mut out: Vec<(std::string::String, JsonValue)> = Vec::new();
        let mut t: usize = 0;
        while t < fields.len()
            invariant
                t <= fields@.len(),
                n == self.gtexs().len(),
                fv == fields_view(fields@),
                fv.len() == fields@.len(),
                tv == table_view(uv_bits@),
                forall|j: int| 0 <= j < fields@.len() ==> #[trigger] fv[j] == (fields@[j].0@, fields@[j].1@),
                slice_fields_refs(fv, n as nat) == Some(rr),
                self.wf(),
                covered(rr, self.tex_ids(), self.uvs(), tv),
                out@.len() == t,
                forall|j: int| 0 <= j < t ==> (#[trigger] out@[j]).0@ == fv[j].0
                    && out@[j].1@ == slice_theme_out(fv[j].1, self.tex_ids(), self.uvs(), tv),
            decreases fields.len() - t,
        {
            proof {
                lemma_slice_fields_sub(fv, n as nat, t as int, self.tex_ids(), self.uvs(), tv);
            }
            let x = slice_theme_build(&fields[t].1, &self.texture_ids, &self.local_uvs, uv_bits, n);
            out.push((owned(fields[t].0.as_str()), x));
            t = t + 1;
        }
        proof {
            lemma_fields_view(out@);
            assert(fields_view(out@) =~= fv.map_values(|f: (Seq<char>, JsonView)| (f.0, slice_theme_out(f.1, self.tex_ids(), self.uvs(), tv))));
        }
        Ok(JsonValue::Object(out))
    }

    /// The feature's appearance: exactly the definitions and UV pairs it
    /// referenced (each list absent when empty) and the default themes that
    /// `defaults` names; `None` when it referenced nothing and there are no
    /// defaults.
    pub fn into_appearance(self, defaults: Option<&JsonValue>) -> (r: Option<SlicedAppearance>)
        requires
            self.wf(),
        ensures
            r is None <==> (self.mat_ids().len() == 0 && self.tex_ids().len() == 0 && self.uvs().len() == 0
                && defaults is None),
            r matches Some(a) ==> {
                &&& (a.materials matches Some(m) ==> items_view(m@) == picked(self.gmats(), self.mat_ids()))
                &&& (a.materials is None <==> self.mat_ids().len() == 0)
                &&& (a.textures matches Some(t) ==> items_view(t@) == picked(self.gtexs(), self.tex_ids()))
                &&& (a.textures is None <==> self.tex_ids().len() == 0)
                &&& (a.vertices_texture matches Some(u) ==> u@ == self.uvs())
                &&& (a.vertices_texture is None <==> self.uvs().len() == 0)
                &&& opt_str(a.default_theme_material) == default_member(
                    match defaults { Some(d) => Some(d@), None => None }, "default-theme-material"@)
                &&& opt_str(a.default_theme_texture) == default_member(
                    match defaults { Some(d) => Some(d@), None => None }, "default-theme-texture"@)
            },
    {
        let no_defaults = match defaults {
            Some(_) => false,
            None => true,
        };
        if self.material_ids.len() == 0 && self.texture_ids.len() == 0 && self.local_uvs.len() == 0 && no_defaults {
            return None;
        }
        let default_theme_material = default_text(defaults, "default-theme-material");
        let default_theme_texture = default_text(defaults, "default-theme-texture");
        let LocalAppearance { local_materials, material_ids, local_textures, texture_ids, local_uvs, .. } = self;
        proof {
            lemma_items_view(local_materials@);
            lemma_items_view(local_textures@);
        }
        let materials = if material_ids.len() == 0 { None } else { Some(local_materials) };
        let textures = if texture_ids.len() == 0 { None } else { Some(local_textures) };
        let vertices_texture = if local_uvs.len() == 0 { None } else { Some(local_uvs) };
        Some(SlicedAppearance { materials, textures, vertices_texture, default_theme_texture, default_theme_material })
    }
}

} // verus!
