//! Appearance on the CityGML writer side: a geometry's stored material map
//! (`{theme: {values|value: <global-index tree>}}`) flattened to per-face
//! global material ids, the per-face union across themes, the resolution of
//! one geometry's map for writing, and the per-theme accumulation of which
//! faces each material targets.

use vstd::prelude::*;
use crate::error::{CityParquetError, Result, message_of, is_geometry_err};
use crate::json::{
    JsonNumber, JsonValue, JsonView, NumView, fields_view, get_spec, items_view,
    lemma_fields_view, lemma_items_view,
};
use crate::report::WriteReport;
use crate::shape::{DecodedKind, count_faces, face_count};
use crate::text::{chars_of, lex_less, lex_lt, lemma_lex_irreflexive, lemma_lex_total, lemma_lex_transitive, owned, seq_eq};

verus! {

/// The leaves of a material `values` tree in depth-first (face-walk) order:
/// `null` is no material, a non-negative integer below the table length is
/// that material; anything else makes the tree invalid (`None`).
pub open spec fn leaves_of(v: JsonView, n: nat) -> Option<Seq<Option<nat>>>
    decreases v,
{
    match v {
        JsonView::Array(items) => leaves_of_items(items, n),
        JsonView::Null => Some(seq![None]),
        JsonView::Number(NumView::PosInt(i)) => if i < n {
            Some(seq![Some(i as nat)])
        } else {
            None
        },
        _ => None,
    }
}

pub open spec fn leaves_of_items(items: Seq<JsonView>, n: nat) -> Option<Seq<Option<nat>>>
    decreases items,
{
    if items.len() == 0 {
        Some(Seq::empty())
    } else {
        match (leaves_of_items(items.drop_last(), n), leaves_of(items.last(), n)) {
            (Some(a), Some(b)) => Some(a + b),
            _ => None,
        }
    }
}

/// Material ids as natural numbers.
pub open spec fn ids_view(v: Seq<Option<usize>>) -> Seq<Option<nat>> {
    v.map_values(|x: Option<usize>| match x {
        Some(i) => Some(i as nat),
        None => None,
    })
}

fn geom_err(m: &str) -> (e: CityParquetError)
    ensures
        e is Geometry,
        message_of(e) == m@,
{
    CityParquetError::Geometry(owned(m))
}

proof fn lemma_items_prefix_none(items: Seq<JsonView>, i: int, n: nat)
    requires
        0 <= i <= items.len(),
        leaves_of_items(items.take(i), n) is None,
    ensures
        leaves_of_items(items, n) is None,
    decreases items.len() - i,
{
    if i < items.len() {
        assert(items.take(i + 1).drop_last() =~= items.take(i));
        lemma_items_prefix_none(items, i + 1, n);
    } else {
        assert(items.take(i) =~= items);
    }
}

/// Flatten a material `values` tree's leaves (a non-negative integer -> a
/// global material id, `null` -> no material) in depth-first order onto
/// `out`, range-checked against the table length; an invalid leaf is a
/// `Geometry` error.
fn flatten_leaves(v: &JsonValue, n_materials: usize, out: &mut Vec<Option<usize>>) -> (r: Result<()>)
    ensures
        match leaves_of(v@, n_materials as nat) {
            None => is_geometry_err(r),
            Some(x) => r is Ok && ids_view(final(out)@) == ids_view(old(out)@) + x,
        },
    decreases v,
{
    match v {
        JsonValue::Array(items) => {
            proof {
                lemma_items_view(items@);
            }
            let ghost iv = items_view(items@);
            let ghost start = ids_view(out@);
            let mut i: usize = 0;
            assert(iv.take(0) =~= Seq::<JsonView>::empty());
            assert(ids_view(out@) =~= start + Seq::<Option<nat>>::empty());
            while i < items.len()
                invariant
                    i <= items.len(),
                    *v == JsonValue::Array(*items),
                    iv == items_view(items@),
                    iv.len() == items@.len(),
                    forall|j: int| 0 <= j < items@.len() ==> #[trigger] iv[j] == items@[j]@,
                    leaves_of_items(iv.take(i as int), n_materials as nat) matches Some(pre)
                        && ids_view(out@) == start + pre,
                decreases items.len() - i,
            {
                assert(iv.take(i + 1).drop_last() =~= iv.take(i as int));
                assert(iv.take(i + 1).last() == items@[i as int]@);
                proof {
                    assert(decreases_to!(*v => (*v)->Array_0));
                    vstd::std_specs::vec::axiom_vec_index_decreases(*items, i as int);
                }
                let ghost before = ids_view(out@);
                let r = flatten_leaves(&items[i], n_materials, out);
                match r {
                    Err(e) => {
                        proof {
                            lemma_items_prefix_none(iv, i + 1, n_materials as nat);
                        }
                        return Err(e);
                    },
                    Ok(()) => {
                        assert(ids_view(out@) =~= start + leaves_of_items(iv.take(i + 1), n_materials as nat)->Some_0);
                    },
                }
                i = i + 1;
            }
            assert(iv.take(items.len() as int) =~= iv);
            Ok(())
        },
        JsonValue::Null => {
            let ghost before = out@;
            out.push(None);
            assert(ids_view(out@) =~= ids_view(before) + seq![None]);
            Ok(())
        },
        JsonValue::Number(JsonNumber::PosInt(i)) => {
            if *i >= n_materials as u64 {
                return Err(geom_err("material index is not below the materials table length"));
            }
            let ghost before = out@;
            out.push(Some(*i as usize));
            assert(ids_view(out@) =~= ids_view(before) + seq![Some(*i as nat)]);
            Ok(())
        },
        JsonValue::Number(_) => Err(geom_err("material index is not a non-negative integer")),
        _ => Err(geom_err("material values leaf is neither null nor an integer")),
    }
}


/// One theme's per-face material ids: the `values` tree flattened (it must
/// have exactly one leaf per face), or the scalar `value` applied to every
/// face; `None` when neither is usable.
pub open spec fn theme_flat(inner: JsonView, n_faces: nat, n: nat) -> Option<Seq<Option<nat>>> {
    match get_spec(inner, "values"@) {
        Some(vals) => match leaves_of(vals, n) {
            Some(l) => if l.len() == n_faces {
                Some(l)
            } else {
                None
            },
            None => None,
        },
        None => match get_spec(inner, "value"@) {
            Some(JsonView::Number(NumView::PosInt(g))) => if g < n {
                Some(Seq::new(n_faces, |k: int| Some(g as nat)))
            } else {
                None
            },
            _ => None,
        },
    }
}

/// Every theme of a material map resolved, in the map's member order.
pub open spec fn themes_flat(fields: Seq<(Seq<char>, JsonView)>, n_faces: nat, n: nat) -> Option<Seq<(Seq<char>, Seq<Option<nat>>)>>
    decreases fields.len(),
{
    if fields.len() == 0 {
        Some(Seq::empty())
    } else {
        match (themes_flat(fields.drop_last(), n_faces, n), theme_flat(fields.last().1, n_faces, n)) {
            (Some(pre), Some(flat)) => Some(pre.push((fields.last().0, flat))),
            _ => None,
        }
    }
}

/// A geometry's material map (`{theme: {values|value}}`) resolved per theme,
/// or `None` when it is not an object or any theme is unusable.
pub open spec fn material_maps_spec(map: JsonView, n_faces: nat, n: nat) -> Option<Seq<(Seq<char>, Seq<Option<nat>>)>> {
    match map {
        JsonView::Object(fields) => themes_flat(fields, n_faces, n),
        _ => None,
    }
}

/// The per-theme flat material ids, as mathematical values.
pub open spec fn maps_view(m: Seq<(std::string::String, Vec<Option<usize>>)>) -> Seq<(Seq<char>, Seq<Option<nat>>)> {
    m.map_values(|e: (std::string::String, Vec<Option<usize>>)| (e.0@, ids_view(e.1@)))
}

proof fn lemma_themes_prefix_none(fields: Seq<(Seq<char>, JsonView)>, i: int, nf: nat, n: nat)
    requires
        0 <= i <= fields.len(),
        themes_flat(fields.take(i), nf, n) is None,
    ensures
        themes_flat(fields, nf, n) is None,
    decreases fields.len() - i,
{
    if i < fields.len() {
        assert(fields.take(i + 1).drop_last() =~= fields.take(i));
        lemma_themes_prefix_none(fields, i + 1, nf, n);
    } else {
        assert(fields.take(i) =~= fields);
    }
}

fn theme_material_ids(inner: &JsonValue, n_faces: usize, n_materials: usize) -> (r: Result<Vec<Option<usize>>>)
    ensures
        match theme_flat(inner@, n_faces as nat, n_materials as nat) {
            None => is_geometry_err(r),
            Some(x) => r matches Ok(v) && ids_view(v@) == x,
        },
{
    if let Some(values) = inner.get("values") {
        let mut leaves: Vec<Option<usize>> = Vec::new();
        assert(ids_view(leaves@) =~= Seq::<Option<nat>>::empty());
        match flatten_leaves(values, n_materials, &mut leaves) {
            Err(e) => return Err(e),
            Ok(()) => {},
        }
        assert(ids_view(leaves@) =~= leaves_of(values@, n_materials as nat)->Some_0);
        if leaves.len() != n_faces {
            return Err(geom_err("material theme's value count does not match the geometry's face count"));
        }
        Ok(leaves)
    } else if let Some(value) = inner.get("value") {
        let gid = match value.as_u64() {
            Some(g) => g,
            None => return Err(geom_err("scalar material value is not a non-negative integer")),
        };
        if gid >= n_materials as u64 {
            return Err(geom_err("material index is not below the materials table length"));
        }
        let g = gid as usize;
        let mut v: Vec<Option<usize>> = Vec::new();
        let mut k: usize = 0;
        while k < n_faces
            invariant
                k <= n_faces,
                v@.len() == k,
                g as nat == gid as nat,
                forall|j: int| 0 <= j < k ==> #[trigger] v@[j] == Some(g),
            decreases n_faces - k,
        {
            v.push(Some(g));
            k = k + 1;
        }
        assert(ids_view(v@) =~= Seq::new(n_faces as nat, |j: int| Some(gid as nat)));
        Ok(v)
    } else {
        Err(geom_err("material theme has neither 'values' nor 'value'"))
    }
}

/// One geometry's per-theme flat material ids (each list one id or `None` per
/// face), in the map's theme order. The `values` form is flattened; the scalar
/// `value` form (a whole-geometry material) is applied to every face. A map
/// that is not an object, or a theme that is unusable, is a `Geometry` error.
pub fn material_face_maps(material_map: &JsonValue, n_faces: usize, n_materials: usize)
    -> (r: Result<Vec<(std::string::String, Vec<Option<usize>>)>>)
    ensures
        match material_maps_spec(material_map@, n_faces as nat, n_materials as nat) {
            None => is_geometry_err(r),
            Some(x) => r matches Ok(m) && maps_view(m@) == x,
        },
{
    let fields = match material_map {
        JsonValue::Object(f) => f,
        _ => return Err(geom_err("material map must be a JSON object of theme -> {values|value}")),
    };
    proof {
        lemma_fields_view(fields@);
    }
    let ghost fv = fields_view(fields@);
    let mut out: Vec<(std::string::String, Vec<Option<usize>>)> = Vec::new();
    let mut i: usize = 0;
    assert(fv.take(0) =~= Seq::<(Seq<char>, JsonView)>::empty());
    assert(maps_view(out@) =~= Seq::<(Seq<char>, Seq<Option<nat>>)>::empty());
    while i < fields.len()
        invariant
            i <= fields.len(),
            fv == fields_view(fields@),
            fv.len() == fields@.len(),
            material_map@ == JsonView::Object(fv),
            forall|j: int| 0 <= j < fields@.len() ==> #[trigger] fv[j] == (fields@[j].0@, fields@[j].1@),
            themes_flat(fv.take(i as int), n_faces as nat, n_materials as nat) matches Some(pre)
                && maps_view(out@) == pre,
        decreases fields.len() - i,
    {
        assert(fv.take(i + 1).drop_last() =~= fv.take(i as int));
        assert(fv.take(i + 1).last() == (fields@[i as int].0@, fields@[i as int].1@));
        match theme_material_ids(&fields[i].1, n_faces, n_materials) {
            Err(e) => {
                proof {
                    lemma_themes_prefix_none(fv, i + 1, n_faces as nat, n_materials as nat);
                }
                return Err(e);
            },
            Ok(flat) => {
                let ghost before = out@;
                out.push((fields[i].0.clone(), flat));
                assert(maps_view(out@) =~= maps_view(before).push((fields@[i as int].0@, ids_view(flat@))));
            },
        }
        i = i + 1;
    }
    assert(fv.take(fields.len() as int) =~= fv);
    Ok(out)
}

/// Face `k` has a material in some theme.
pub open spec fn colored(maps: Seq<(Seq<char>, Seq<Option<nat>>)>, k: int) -> bool {
    exists|t: int| 0 <= t < maps.len() && k < maps[t].1.len() && (#[trigger] maps[t].1[k]) is Some
}

/// The per-face union across themes: `true` where any theme gives the face a
/// material (so the face needs a `gml:id` for `app:target`).
pub fn material_union(maps: &Vec<(std::string::String, Vec<Option<usize>>)>, n_faces: usize) -> (u: Vec<bool>)
    ensures
        u@.len() == n_faces,
        forall|k: int| 0 <= k < n_faces ==> #[trigger] u@[k] == colored(maps_view(maps@), k),
{
    let ghost mv = maps_view(maps@);
    let mut u: Vec<bool> = Vec::new();
    let mut k: usize = 0;
    while k < n_faces
        invariant
            k <= n_faces,
            u@.len() == k,
            forall|j: int| 0 <= j < k ==> !u@[j],
        decreases n_faces - k,
    {
        u.push(false);
        k = k + 1;
    }
    let mut t: usize = 0;
    while t < maps.len()
        invariant
            t <= maps.len(),
            mv == maps_view(maps@),
            mv.len() == maps@.len(),
            u@.len() == n_faces,
            forall|j: int| 0 <= j < n_faces ==> #[trigger] u@[j] == colored(mv.take(t as int), j),
        decreases maps.len() - t,
    {
        let flat = &maps[t].1;
        assert(mv[t as int].1 == ids_view(flat@));
        let mut j: usize = 0;
        while j < flat.len()
            invariant
                t < maps.len(),
                j <= flat.len(),
                flat@ == maps@[t as int].1@,
                mv == maps_view(maps@),
                mv.len() == maps@.len(),
                mv[t as int].1 == ids_view(flat@),
                u@.len() == n_faces,
                forall|q: int| 0 <= q < n_faces ==> #[trigger] u@[q] == (colored(mv.take(t as int), q)
                    || (q < j && mv[t as int].1[q] is Some)),
            decreases flat.len() - j,
        {
            if flat[j].is_some() && j < u.len() {
                u.set(j, true);
            }
            j = j + 1;
        }
        proof {
            assert forall|q: int| 0 <= q < n_faces implies #[trigger] u@[q] == colored(mv.take(t + 1), q) by {
                let m2 = mv.take(t + 1);
                if colored(m2, q) {
                    let w = choose|w: int| 0 <= w < m2.len() && q < m2[w].1.len() && (#[trigger] m2[w].1[q]) is Some;
                    if w < t {
                        assert(mv.take(t as int)[w] == m2[w]);
                        assert(colored(mv.take(t as int), q));
                    }
                }
                if colored(mv.take(t as int), q) {
                    let w = choose|w: int| 0 <= w < t && q < mv.take(t as int)[w].1.len() && (#[trigger] mv.take(t as int)[w].1[q]) is Some;
                    assert(m2[w] == mv.take(t as int)[w]);
                }
                if q < flat@.len() && mv[t as int].1[q] is Some {
                    assert(m2[t as int] == mv[t as int]);
                }
            }
        }
        t = t + 1;
    }
    assert(mv.take(maps.len() as int) =~= mv);
    u
}

/// One geometry's stored `material` map resolved for writing: per-theme
/// per-face global ids and their per-face union. A missing map gives
/// nothing; a map on a package without a materials table (Core profile)
/// gives nothing and is counted as skipped; a map that does not resolve
/// gives nothing and counts the geometry's materials as dropped, so the
/// geometry is still written, without appearance.
pub fn resolve_materials(
    material: Option<&JsonValue>,
    materials: Option<&[JsonValue]>,
    kind: &DecodedKind,
    report: &mut WriteReport,
) -> (r: (Vec<(std::string::String, Vec<Option<usize>>)>, Vec<bool>))
    requires
        face_count(*kind) <= usize::MAX,
        old(report).appearance_skipped_core_profile < usize::MAX,
        old(report).material_geometries_dropped < usize::MAX,
    ensures
        match (material, materials) {
            (None, _) => r.0@.len() == 0 && r.1@.len() == 0 && *final(report) == *old(report),
            (Some(_), None) => r.0@.len() == 0 && r.1@.len() == 0 && *final(report) == (WriteReport {
                appearance_skipped_core_profile: (old(report).appearance_skipped_core_profile + 1) as usize,
                ..*old(report)
            }),
            (Some(m), Some(table)) => match material_maps_spec(m@, face_count(*kind), table@.len() as nat) {
                None => r.0@.len() == 0 && r.1@.len() == 0 && *final(report) == (WriteReport {
                    material_geometries_dropped: (old(report).material_geometries_dropped + 1) as usize,
                    ..*old(report)
                }),
                Some(x) => maps_view(r.0@) == x && r.1@.len() == face_count(*kind)
                    && (forall|k: int| 0 <= k < face_count(*kind) ==> #[trigger] r.1@[k] == colored(x, k))
                    && *final(report) == *old(report),
            },
        },
{
    let material = match material {
        Some(m) => m,
        None => return (Vec::new(), Vec::new()),
    };
    let table = match materials {
        Some(t) => t,
        None => {
            report.appearance_skipped_core_profile = report.appearance_skipped_core_profile + 1;
            return (Vec::new(), Vec::new());
        },
    };
    let n_faces = count_faces(kind);
    match material_face_maps(material, n_faces, table.len()) {
        Ok(maps) => {
            let union = material_union(&maps, n_faces);
            (maps, union)
        },
        Err(_) => {
            report.material_geometries_dropped = report.material_geometries_dropped + 1;
            (Vec::new(), Vec::new())
        },
    }
}


// ------------------------------------------------------- target accumulator ----

/// The value stored under `k` in an association list (`dflt` when absent).
pub open spec fn find_val<K, V>(v: Seq<(K, V)>, k: K, dflt: V) -> V
    decreases v.len(),
{
    if v.len() == 0 {
        dflt
    } else if v[0].0 == k {
        v[0].1
    } else {
        find_val(v.drop_first(), k, dflt)
    }
}

pub open spec fn keys_unique<K, V>(v: Seq<(K, V)>) -> bool {
    forall|i: int, j: int| 0 <= i < v.len() && 0 <= j < v.len() && i != j ==> (#[trigger] v[i]).0 != (#[trigger] v[j]).0
}

proof fn lemma_find_at<K, V>(v: Seq<(K, V)>, i: int, dflt: V)
    requires
        keys_unique(v),
        0 <= i < v.len(),
    ensures
        find_val(v, v[i].0, dflt) == v[i].1,
    decreases v.len(),
{
    if i > 0 {
        let w = v.drop_first();
        assert(v[0].0 != v[i].0);
        assert(w[i - 1] == v[i]);
        assert forall|a: int, b: int| 0 <= a < w.len() && 0 <= b < w.len() && a != b implies (#[trigger] w[a]).0 != (#[trigger] w[b]).0 by {
            assert(w[a] == v[a + 1]);
            assert(w[b] == v[b + 1]);
        }
        lemma_find_at(w, i - 1, dflt);
    }
}

proof fn lemma_find_absent<K, V>(v: Seq<(K, V)>, k: K, dflt: V)
    requires
        forall|i: int| 0 <= i < v.len() ==> (#[trigger] v[i]).0 != k,
    ensures
        find_val(v, k, dflt) == dflt,
    decreases v.len(),
{
    if v.len() > 0 {
        let w = v.drop_first();
        assert forall|i: int| 0 <= i < w.len() implies (#[trigger] w[i]).0 != k by {
            assert(w[i] == v[i + 1]);
        }
        lemma_find_absent(w, k, dflt);
    }
}

/// One theme's accumulated targets: ascending global material ids, each with
/// the face ids that use it.
pub open spec fn gids_view(v: Seq<(usize, Vec<std::string::String>)>) -> Seq<(nat, Seq<Seq<char>>)> {
    v.map_values(|e: (usize, Vec<std::string::String>)| (e.0 as nat, e.1@.map_values(|s: std::string::String| s@)))
}

pub open spec fn acc_view(v: Seq<(std::string::String, Vec<(usize, Vec<std::string::String>)>)>) -> Seq<(Seq<char>, Seq<(nat, Seq<Seq<char>>)>)> {
    v.map_values(|e: (std::string::String, Vec<(usize, Vec<std::string::String>)>)| (e.0@, gids_view(e.1@)))
}

/// A theme's entry list is in ascending id order and every id has targets.
pub open spec fn gids_wf(g: Seq<(nat, Seq<Seq<char>>)>) -> bool {
    g.len() > 0
    && (forall|i: int, j: int| 0 <= i < j < g.len() ==> (#[trigger] g[i]).0 < (#[trigger] g[j]).0)
    && (forall|i: int| 0 <= i < g.len() ==> (#[trigger] g[i]).1.len() > 0)
}

/// The accumulator's shape: themes in ascending text order, each well formed.
pub open spec fn acc_wf(a: Seq<(Seq<char>, Seq<(nat, Seq<Seq<char>>)>)>) -> bool {
    (forall|i: int, j: int| 0 <= i < j < a.len() ==> lex_lt((#[trigger] a[i]).0, (#[trigger] a[j]).0))
    && (forall|i: int| 0 <= i < a.len() ==> gids_wf((#[trigger] a[i]).1))
}

/// The face ids targeting material `gid` under `theme`.
pub open spec fn acc_targets(a: Seq<(Seq<char>, Seq<(nat, Seq<Seq<char>>)>)>, theme: Seq<char>, gid: nat) -> Seq<Seq<char>> {
    find_val(find_val(a, theme, Seq::empty()), gid, Seq::empty())
}

/// Accumulates, per theme and global material id, the face `gml:id`s to
/// target; themes and ids are kept in ascending order, the order they are
/// emitted in.
#[derive(Debug)]
pub struct AppearanceAcc {
    themes: Vec<(std::string::String, Vec<(usize, Vec<std::string::String>)>)>,
}

proof fn lemma_sorted_unique_themes(a: Seq<(Seq<char>, Seq<(nat, Seq<Seq<char>>)>)>)
    requires
        acc_wf(a),
    ensures
        keys_unique(a),
{
    assert forall|i: int, j: int| 0 <= i < a.len() && 0 <= j < a.len() && i != j implies (#[trigger] a[i]).0 != (#[trigger] a[j]).0 by {
        if a[i].0 == a[j].0 {
            lemma_lex_irreflexive(a[i].0);
        }
    }
}

proof fn lemma_sorted_unique_gids(g: Seq<(nat, Seq<Seq<char>>)>)
    requires
        gids_wf(g),
    ensures
        keys_unique(g),
{
}


proof fn lemma_find_insert<K, V>(v: Seq<(K, V)>, p: int, k: K, val: V, dflt: V)
    requires
        0 <= p <= v.len(),
        keys_unique(v),
        keys_unique(v.insert(p, (k, val))),
    ensures
        forall|q: K| #[trigger] find_val(v.insert(p, (k, val)), q, dflt) == if q == k { val } else { find_val(v, q, dflt) },
{
    let w = v.insert(p, (k, val));
    assert forall|q: K| #[trigger] find_val(w, q, dflt) == if q == k { val } else { find_val(v, q, dflt) } by {
        if q == k {
            lemma_find_at(w, p, dflt);
        } else if exists|i: int| 0 <= i < v.len() && (#[trigger] v[i]).0 == q {
            let i = choose|i: int| 0 <= i < v.len() && (#[trigger] v[i]).0 == q;
            lemma_find_at(v, i, dflt);
            if i < p {
                assert(w[i] == v[i]);
                lemma_find_at(w, i, dflt);
            } else {
                assert(w[i + 1] == v[i]);
                lemma_find_at(w, i + 1, dflt);
            }
        } else {
            lemma_find_absent(v, q, dflt);
            assert forall|i: int| 0 <= i < w.len() implies (#[trigger] w[i]).0 != q by {
                if i < p {
                    assert(w[i] == v[i]);
                } else if i > p {
                    assert(w[i] == v[i - 1]);
                }
            }
            lemma_find_absent(w, q, dflt);
        }
    }
}

proof fn lemma_find_update<K, V>(v: Seq<(K, V)>, p: int, val: V, dflt: V)
    requires
        0 <= p < v.len(),
        keys_unique(v),
    ensures
        keys_unique(v.update(p, (v[p].0, val))),
        forall|q: K| #[trigger] find_val(v.update(p, (v[p].0, val)), q, dflt) == if q == v[p].0 { val } else { find_val(v, q, dflt) },
{
    let k = v[p].0;
    let w = v.update(p, (k, val));
    assert forall|i: int, j: int| 0 <= i < w.len() && 0 <= j < w.len() && i != j implies (#[trigger] w[i]).0 != (#[trigger] w[j]).0 by {
        assert(w[i].0 == v[i].0);
        assert(w[j].0 == v[j].0);
    }
    assert forall|q: K| #[trigger] find_val(w, q, dflt) == if q == k { val } else { find_val(v, q, dflt) } by {
        if q == k {
            lemma_find_at(w, p, dflt);
        } else if exists|i: int| 0 <= i < v.len() && (#[trigger] v[i]).0 == q {
            let i = choose|i: int| 0 <= i < v.len() && (#[trigger] v[i]).0 == q;
            lemma_find_at(v, i, dflt);
            assert(w[i] == v[i]);
            lemma_find_at(w, i, dflt);
        } else {
            lemma_find_absent(v, q, dflt);
            assert forall|i: int| 0 <= i < w.len() implies (#[trigger] w[i]).0 != q by {
                assert(w[i].0 == v[i].0);
            }
            lemma_find_absent(w, q, dflt);
        }
    }
}

/// Append `fid` to the targets of `gid` in one theme's ascending id list.
fn add_gid(inner: &mut Vec<(usize, Vec<std::string::String>)>, gid: usize, fid: std::string::String)
    requires
        old(inner)@.len() == 0 || gids_wf(gids_view(old(inner)@)),
    ensures
        gids_wf(gids_view(final(inner)@)),
        forall|g: nat| #[trigger] find_val(gids_view(final(inner)@), g, Seq::empty())
            == if g == gid { find_val(gids_view(old(inner)@), g, Seq::empty()).push(fid@) }
               else { find_val(gids_view(old(inner)@), g, Seq::empty()) },
{
    let ghost gv0 = gids_view(inner@);
    proof {
        if gv0.len() > 0 {
            lemma_sorted_unique_gids(gv0);
        }
    }
    let mut q: usize = 0;
    while q < inner.len() && inner[q].0 < gid
        invariant
            q <= inner@.len(),
            inner@ == old(inner)@,
            gv0 == gids_view(inner@),
            forall|i: int| 0 <= i < q ==> (#[trigger] gv0[i]).0 < gid,
        decreases inner.len() - q,
    {
        q = q + 1;
    }
    if q < inner.len() && inner[q].0 == gid {
        let (g, mut fids) = inner.remove(q);
        let ghost old_fids = fids@.map_values(|s: std::string::String| s@);
        fids.push(fid);
        assert(fids@.map_values(|s: std::string::String| s@) =~= old_fids.push(fid@));
        inner.insert(q, (g, fids));
        proof {
            assert(gids_view(inner@) =~= gv0.update(q as int, (gid as nat, old_fids.push(fid@))));
            lemma_find_update(gv0, q as int, old_fids.push(fid@), Seq::empty());
            lemma_find_at(gv0, q as int, Seq::<Seq<char>>::empty());
        }
    } else {
        let mut fids: Vec<std::string::String> = Vec::new();
        fids.push(fid);
        inner.insert(q, (gid, fids));
        proof {
            let nv = (gid as nat, seq![fid@]);
            assert(fids@.map_values(|s: std::string::String| s@) =~= seq![fid@]);
            assert(gids_view(inner@) =~= gv0.insert(q as int, nv));
            let w = gv0.insert(q as int, nv);
            assert forall|i: int, j: int| 0 <= i < j < w.len() implies (#[trigger] w[i]).0 < (#[trigger] w[j]).0 by {
                if j < q {
                } else if i < q && j == q {
                } else if i < q {
                    assert(w[j] == gv0[j - 1]);
                } else if i == q {
                    assert(w[j] == gv0[j - 1]);
                    assert(gv0[q as int].0 > gid);
                    assert(gv0[q as int].0 <= gv0[j - 1].0);
                } else {
                    assert(w[i] == gv0[i - 1]);
                    assert(w[j] == gv0[j - 1]);
                }
            }
            assert forall|i: int| 0 <= i < w.len() implies (#[trigger] w[i]).1.len() > 0 by {
                if i < q {
                } else if i > q {
                    assert(w[i] == gv0[i - 1]);
                }
            }
            lemma_sorted_unique_gids(w);
            if gv0.len() == 0 {
                assert(keys_unique(gv0));
            }
            lemma_find_insert(gv0, q as int, gid as nat, seq![fid@], Seq::empty());
            assert forall|i: int| 0 <= i < gv0.len() implies (#[trigger] gv0[i]).0 != gid by {
                if i >= q {
                    assert(gv0[q as int].0 > gid);
                    if i > q {
                        assert(gv0[q as int].0 < gv0[i].0);
                    }
                }
            }
            lemma_find_absent(gv0, gid as nat, Seq::<Seq<char>>::empty());
            assert(Seq::<Seq<char>>::empty().push(fid@) =~= seq![fid@]);
        }
    }
}


/// The face ids one theme's flat ids give material `gid`: every face `k` (in
/// order) whose id is `gid` and that has an allocated face id.
pub open spec fn flat_targets(flat: Seq<Option<nat>>, fids: Seq<Option<Seq<char>>>, gid: nat) -> Seq<Seq<char>>
    decreases flat.len(),
{
    if flat.len() == 0 {
        Seq::empty()
    } else {
        let k = flat.len() - 1;
        flat_targets(flat.drop_last(), fids, gid) + if flat[k] == Some(gid) && k < fids.len() && fids[k] is Some {
            seq![fids[k]->Some_0]
        } else {
            Seq::empty()
        }
    }
}

/// The face ids a geometry's per-theme maps give material `gid` of `theme`.
pub open spec fn added_targets(maps: Seq<(Seq<char>, Seq<Option<nat>>)>, fids: Seq<Option<Seq<char>>>, theme: Seq<char>, gid: nat) -> Seq<Seq<char>>
    decreases maps.len(),
{
    if maps.len() == 0 {
        Seq::empty()
    } else {
        added_targets(maps.drop_last(), fids, theme, gid) + if maps.last().0 == theme {
            flat_targets(maps.last().1, fids, gid)
        } else {
            Seq::empty()
        }
    }
}

/// The texts of optional face ids.
pub open spec fn fids_view(v: Seq<Option<std::string::String>>) -> Seq<Option<Seq<char>>> {
    v.map_values(|x: Option<std::string::String>| match x {
        Some(s) => Some(s@),
        None => None,
    })
}

impl AppearanceAcc {
    /// The accumulated targets, theme by theme, as emitted.
    pub closed spec fn entries(&self) -> Seq<(Seq<char>, Seq<(nat, Seq<Seq<char>>)>)> {
        acc_view(self.themes@)
    }

    pub closed spec fn wf(&self) -> bool {
        acc_wf(self.entries())
    }

    /// The face ids targeting material `gid` under `theme`, in the order added.
    pub open spec fn targets(&self, theme: Seq<char>, gid: nat) -> Seq<Seq<char>> {
        acc_targets(self.entries(), theme, gid)
    }


    /// Append `fid` to the targets of material `gid` under `theme`.
    fn add_one(&mut self, theme: &std::string::String, gid: usize, fid: std::string::String)
        requires
            old(self).wf(),
        ensures
            final(self).wf(),
            forall|th: Seq<char>, g: nat| #[trigger] final(self).targets(th, g)
                == if th == theme@ && g == gid { old(self).targets(th, g).push(fid@) } else { old(self).targets(th, g) },
    {
        let ghost a0 = self.entries();
        proof {
            lemma_sorted_unique_themes(a0);
        }
        let tv = chars_of(theme.as_str());
        let mut p: usize = 0;
        while p < self.themes.len() && lex_less(chars_of(self.themes[p].0.as_str()).as_slice(), tv.as_slice())
            invariant
                p <= self.themes@.len(),
                self.themes@ == old(self).themes@,
                a0 == acc_view(self.themes@),
                tv@ == theme@,
                forall|i: int| 0 <= i < p ==> lex_lt((#[trigger] a0[i]).0, theme@),
            decreases self.themes.len() - p,
        {
            p = p + 1;
        }
        if p < self.themes.len() && seq_eq(chars_of(self.themes[p].0.as_str()).as_slice(), tv.as_slice()) {
            let (name, mut inner) = self.themes.remove(p);
            let ghost inner0 = gids_view(inner@);
            assert(inner0 == a0[p as int].1);
            add_gid(&mut inner, gid, fid);
            let ghost inner1 = gids_view(inner@);
            self.themes.insert(p, (name, inner));
            proof {
                assert(acc_view(self.themes@) =~= a0.update(p as int, (theme@, inner1)));
                lemma_find_update(a0, p as int, inner1, Seq::empty());
                lemma_find_at(a0, p as int, Seq::<(nat, Seq<Seq<char>>)>::empty());
                let a1 = acc_view(self.themes@);
                assert forall|i: int, j: int| 0 <= i < j < a1.len() implies lex_lt((#[trigger] a1[i]).0, (#[trigger] a1[j]).0) by {
                    assert(a1[i].0 == a0[i].0);
                    assert(a1[j].0 == a0[j].0);
                }
                assert forall|i: int| 0 <= i < a1.len() implies gids_wf((#[trigger] a1[i]).1) by {
                    if i != p {
                        assert(a1[i] == a0[i]);
                    }
                }
            }
        } else {
            let mut fids: Vec<std::string::String> = Vec::new();
            fids.push(fid);
            let mut inner: Vec<(usize, Vec<std::string::String>)> = Vec::new();
            inner.push((gid, fids));
            let ghost nv = gids_view(inner@);
            assert(fids@.map_values(|s: std::string::String| s@) =~= seq![fid@]);
            assert(nv =~= seq![(gid as nat, seq![fid@])]);
            self.themes.insert(p, (theme.clone(), inner));
            proof {
                let w = a0.insert(p as int, (theme@, nv));
                assert(acc_view(self.themes@) =~= w);
                // theme sorts after everything before p and before everything from p on
                if p < a0.len() {
                    lemma_lex_total(a0[p as int].0, theme@);
                }
                assert forall|i: int, j: int| 0 <= i < j < w.len() implies lex_lt((#[trigger] w[i]).0, (#[trigger] w[j]).0) by {
                    if j < p {
                    } else if i < p && j == p {
                    } else if i < p {
                        assert(w[j] == a0[j - 1]);
                        lemma_lex_transitive(a0[i].0, theme@, a0[p as int].0);
                        if j - 1 > p {
                            lemma_lex_transitive(a0[i].0, a0[p as int].0, a0[j - 1].0);
                        }
                    } else if i == p {
                        assert(w[j] == a0[j - 1]);
                        if j - 1 > p {
                            lemma_lex_transitive(theme@, a0[p as int].0, a0[j - 1].0);
                        }
                    } else {
                        assert(w[i] == a0[i - 1]);
                        assert(w[j] == a0[j - 1]);
                    }
                }
                assert forall|i: int| 0 <= i < w.len() implies gids_wf((#[trigger] w[i]).1) by {
                    if i < p {
                    } else if i > p {
                        assert(w[i] == a0[i - 1]);
                    }
                }
                lemma_sorted_unique_themes(w);
                lemma_find_insert(a0, p as int, theme@, nv, Seq::empty());
                assert forall|i: int| 0 <= i < a0.len() implies (#[trigger] a0[i]).0 != theme@ by {
                    if i < p {
                        lemma_lex_irreflexive(theme@);
                    } else {
                        if i > p {
                            lemma_lex_transitive(theme@, a0[p as int].0, a0[i].0);
                        }
                        lemma_lex_irreflexive(theme@);
                    }
                }
                lemma_find_absent(a0, theme@, Seq::<(nat, Seq<Seq<char>>)>::empty());
                lemma_find_absent(Seq::<(nat, Seq<Seq<char>>)>::empty(), gid as nat, Seq::<Seq<char>>::empty());
                assert forall|g: nat| g != gid implies #[trigger] find_val(nv, g, Seq::<Seq<char>>::empty()) == Seq::<Seq<char>>::empty() by {
                    assert forall|i: int| 0 <= i < nv.len() implies (#[trigger] nv[i]).0 != g by {}
                    lemma_find_absent(nv, g, Seq::<Seq<char>>::empty());
                }
                lemma_find_at(nv, 0, Seq::<Seq<char>>::empty());
                assert forall|g: nat| Seq::<(nat, Seq<Seq<char>>)>::empty().len() == 0 implies
                    #[trigger] find_val(Seq::<(nat, Seq<Seq<char>>)>::empty(), g, Seq::<Seq<char>>::empty()) == Seq::<Seq<char>>::empty() by {}
                assert(Seq::<Seq<char>>::empty().push(fid@) =~= seq![fid@]);
            }
        }
    }


    /// Record one geometry's contributions: for each theme, each face that has
    /// a material id and an allocated `gml:id` becomes a target of that
    /// material, in face order.
    pub fn add(&mut self, maps: &Vec<(std::string::String, Vec<Option<usize>>)>, face_ids: &[Option<std::string::String>])
        requires
            old(self).wf(),
        ensures
            final(self).wf(),
            forall|th: Seq<char>, g: nat| #[trigger] final(self).targets(th, g)
                == old(self).targets(th, g) + added_targets(maps_view(maps@), fids_view(face_ids@), th, g),
    {
        let ghost mv = maps_view(maps@);
        let ghost fv = fids_view(face_ids@);
        let mut t: usize = 0;
        assert forall|th: Seq<char>, g: nat| #[trigger] self.targets(th, g)
            == old(self).targets(th, g) + added_targets(mv.take(0), fv, th, g) by {
            assert(mv.take(0).len() == 0);
            assert(old(self).targets(th, g) + Seq::<Seq<char>>::empty() =~= old(self).targets(th, g));
        }
        while t < maps.len()
            invariant
                t <= maps.len(),
                self.wf(),
                mv == maps_view(maps@),
                mv.len() == maps@.len(),
                fv == fids_view(face_ids@),
                fv.len() == face_ids@.len(),
                forall|th: Seq<char>, g: nat| #[trigger] self.targets(th, g)
                    == old(self).targets(th, g) + added_targets(mv.take(t as int), fv, th, g),
            decreases maps.len() - t,
        {
            let theme = &maps[t].0;
            let flat = &maps[t].1;
            assert(mv[t as int] == (theme@, ids_view(flat@)));
            let mut k: usize = 0;
            let ghost base = mv.take(t as int);
            assert forall|th: Seq<char>, g: nat| #[trigger] self.targets(th, g)
                == old(self).targets(th, g) + added_targets(base, fv, th, g)
                    + if th == theme@ { flat_targets(ids_view(flat@).take(0), fv, g) } else { Seq::empty() } by {
                assert(ids_view(flat@).take(0).len() == 0);
                assert(added_targets(base, fv, th, g) + Seq::<Seq<char>>::empty() =~= added_targets(base, fv, th, g));
                assert(old(self).targets(th, g) + added_targets(base, fv, th, g) + Seq::<Seq<char>>::empty()
                    =~= old(self).targets(th, g) + added_targets(base, fv, th, g));
            }
            while k < flat.len()
                invariant
                    t < maps.len(),
                    k <= flat.len(),
                    self.wf(),
                    theme == &maps@[t as int].0,
                    flat == &maps@[t as int].1,
                    base == mv.take(t as int),
                    fv == fids_view(face_ids@),
                    fv.len() == face_ids@.len(),
                    forall|th: Seq<char>, g: nat| #[trigger] self.targets(th, g)
                        == old(self).targets(th, g) + added_targets(base, fv, th, g)
                            + if th == theme@ { flat_targets(ids_view(flat@).take(k as int), fv, g) } else { Seq::empty() },
                decreases flat.len() - k,
            {
                let ghost fl = ids_view(flat@);
                assert(fl.take(k + 1).drop_last() =~= fl.take(k as int));
                let ghost before = *self;
                if let Some(gid) = flat[k] {
                    if k < face_ids.len() {
                        if let Some(fid) = &face_ids[k] {
                            self.add_one(theme, gid, fid.clone());
                        }
                    }
                }
                proof {
                    assert forall|th: Seq<char>, g: nat| #[trigger] self.targets(th, g)
                        == old(self).targets(th, g) + added_targets(base, fv, th, g)
                            + if th == theme@ { flat_targets(fl.take(k + 1), fv, g) } else { Seq::empty() } by {
                        let pre = old(self).targets(th, g) + added_targets(base, fv, th, g);
                        if th == theme@ {
                            let c0 = flat_targets(fl.take(k as int), fv, g);
                            assert(fl.take(k + 1)[k as int] == fl[k as int]);
                            if fl[k as int] == Some(g) && k < fv.len() && fv[k as int] is Some {
                                assert(pre + c0 + seq![fv[k as int]->Some_0] =~= (pre + c0).push(fv[k as int]->Some_0));
                            } else {
                                assert(c0 + Seq::<Seq<char>>::empty() =~= c0);
                            }
                        }
                    }
                }
                k = k + 1;
            }
            proof {
                assert(ids_view(flat@).take(flat.len() as int) =~= ids_view(flat@));
                assert(mv.take(t + 1).drop_last() =~= base);
                assert(mv.take(t + 1).last() == mv[t as int]);
                assert forall|th: Seq<char>, g: nat| #[trigger] self.targets(th, g)
                    == old(self).targets(th, g) + added_targets(mv.take(t + 1), fv, th, g) by {
                    if th == theme@ {
                        assert(old(self).targets(th, g) + added_targets(base, fv, th, g) + flat_targets(ids_view(flat@), fv, g)
                            =~= old(self).targets(th, g) + (added_targets(base, fv, th, g) + flat_targets(ids_view(flat@), fv, g)));
                    } else {
                        assert(added_targets(base, fv, th, g) + Seq::<Seq<char>>::empty() =~= added_targets(base, fv, th, g));
                        assert(old(self).targets(th, g) + added_targets(base, fv, th, g) + Seq::<Seq<char>>::empty()
                            =~= old(self).targets(th, g) + added_targets(base, fv, th, g));
                    }
                }
            }
            t = t + 1;
        }
        assert(mv.take(maps.len() as int) =~= mv);
    }

    pub fn new() -> (r: Self)
        ensures
            r.wf(),
            r.entries().len() == 0,
            forall|th: Seq<char>, g: nat| #[trigger] r.targets(th, g) == Seq::<Seq<char>>::empty(),
    {
        AppearanceAcc { themes: Vec::new() }
    }

    /// The accumulated targets: themes in ascending text order, within each
    /// the global material ids in ascending order with their face ids in the
    /// order added.
    pub fn themes(&self) -> (r: &Vec<(std::string::String, Vec<(usize, Vec<std::string::String>)>)>)
        ensures
            acc_view(r@) == self.entries(),
    {
        &self.themes
    }

    /// No theme has any target.
    pub fn is_empty(&self) -> (r: bool)
        requires
            self.wf(),
        ensures
            r == (self.entries().len() == 0),
            r == forall|th: Seq<char>, g: nat| #[trigger] self.targets(th, g) == Seq::<Seq<char>>::empty(),
    {
        let r = self.themes.len() == 0;
        proof {
            if r {
                assert(self.entries() =~= Seq::<(Seq<char>, Seq<(nat, Seq<Seq<char>>)>)>::empty());
            } else {
                let e = self.entries();
                assert(gids_wf(e[0].1));
                let th = e[0].0;
                let g = e[0].1[0].0;
                assert(find_val(e, th, Seq::<(nat, Seq<Seq<char>>)>::empty()) == e[0].1);
                assert(find_val(e[0].1, g, Seq::<Seq<char>>::empty()) == e[0].1[0].1);
                assert(self.targets(th, g).len() > 0);
            }
        }
        r
    }
}


} // verus!
