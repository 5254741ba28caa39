//! Semantic surfaces of a geometry: parsing `geometry_properties.semantics`
//! and resolving each face to its surface index, in the face-walk order the
//! solid/multisurface emitter uses; plus the allocator of generated polygon
//! `gml:id`s.
//!
//! `surfaces` is a flat list of surface type names; `values` maps faces to
//! surface indices, nested by geometry: Solid `[shell][face]`, CompositeSolid
//! `[solid][shell][face]`, MultiSurface flat `[position]`. A `null` value means
//! the face has no semantic surface.

use vstd::prelude::*;
use std::collections::HashSet;
use crate::error::{CityParquetError, Result, message_of, is_geometry_err};
use crate::json::{
    JsonValue, JsonView, NumView, as_array_spec, clone_json, get_spec, items_view,
    lemma_items_view,
};
use crate::shape::Face;
use crate::text::{decimal, decimal_string, lemma_decimal_injective, owned};
use crate::xml::{is_ncname, is_ncname_spec};

verus! {

/// Parsed `geometry_properties.semantics`: the surface type names and the raw
/// (nested) `values` tree.
#[derive(Debug)]
pub struct Semantics {
    pub surfaces: Vec<std::string::String>,
    pub values: JsonValue,
}

/// The type name of one `surfaces` entry (`""` when it has no string `type`).
pub open spec fn surface_type(s: JsonView) -> Seq<char> {
    match get_spec(s, "type"@) {
        Some(JsonView::Str(t)) => t,
        _ => Seq::empty(),
    }
}

/// The `semantics` object of a geometry's properties, when it has a
/// `surfaces` array and a `values` member.
pub open spec fn semantics_parts(props: Option<JsonView>) -> Option<(Seq<JsonView>, JsonView)> {
    match props {
        None => None,
        Some(p) => match get_spec(p, "semantics"@) {
            None => None,
            Some(sem) => match get_spec(sem, "surfaces"@) {
                Some(JsonView::Array(surfs)) => match get_spec(sem, "values"@) {
                    Some(values) => Some((surfs, values)),
                    None => None,
                },
                _ => None,
            },
        },
    }
}

/// The surface type names of the parsed semantics.
pub open spec fn surface_names(s: &Semantics) -> Seq<Seq<char>> {
    s.surfaces@.map_values(|t: std::string::String| t@)
}

/// Extract `{surfaces, values}` from a geometry's `geometry_properties`, or
/// `None` when there is no well-formed semantics object.
pub fn parse_semantics(props: Option<&JsonValue>) -> (r: Option<Semantics>)
    ensures
        match semantics_parts(match props { Some(p) => Some(p@), None => None }) {
            None => r is None,
            Some((surfs, values)) => r matches Some(s) && s.values@ == values
                && surface_names(&s) == surfs.map_values(|x: JsonView| surface_type(x)),
        },
{
    let p = match props {
        Some(p) => p,
        None => return None,
    };
    let sem = match p.get("semantics") {
        Some(s) => s,
        None => return None,
    };
    let surfs = match sem.get("surfaces") {
        Some(JsonValue::Array(items)) => items,
        _ => return None,
    };
    let values = match sem.get("values") {
        Some(v) => v,
        None => return None,
    };
    proof {
        lemma_items_view(surfs@);
    }
    let mut names: Vec<std::string::String> = Vec::new();
    let mut i: usize = 0;
    while i < surfs.len()
        invariant
            i <= surfs.len(),
            names@.len() == i,
            items_view(surfs@).len() == surfs@.len(),
            forall|j: int| 0 <= j < surfs@.len() ==> #[trigger] items_view(surfs@)[j] == surfs@[j]@,
            forall|j: int| 0 <= j < i ==> #[trigger] names@[j]@ == surface_type(surfs@[j]@),
        decreases surfs.len() - i,
    {
        let t = match surfs[i].get("type") {
            Some(JsonValue::String(t)) => t.clone(),
            _ => std::string::String::new(),
        };
        names.push(t);
        i = i + 1;
    }
    let s = Semantics { surfaces: names, values: clone_json(values) };
    assert(surface_names(&s) =~= items_view(surfs@).map_values(|x: JsonView| surface_type(x)));
    Some(s)
}

/// Every surface type is a legal XML element name (NCName), and there is at
/// least one. A CityJSON extension type (`+Foo`) is not, so such a geometry
/// falls back to geometry-only output.
pub fn surfaces_emittable(s: &Semantics) -> (r: bool)
    ensures
        r == (s.surfaces@.len() > 0 && forall|k: int| 0 <= k < s.surfaces@.len()
            ==> is_ncname_spec(#[trigger] s.surfaces@[k]@)),
{
    if s.surfaces.len() == 0 {
        return false;
    }
    let mut k: usize = 0;
    while k < s.surfaces.len()
        invariant
            k <= s.surfaces.len(),
            forall|j: int| 0 <= j < k ==> is_ncname_spec(#[trigger] s.surfaces@[j]@),
        decreases s.surfaces.len() - k,
    {
        if !is_ncname(s.surfaces[k].as_str()) {
            return false;
        }
        k = k + 1;
    }
    true
}

// ------------------------------------------------------------ resolution ----

/// One face's value: `null` is no surface, a non-negative integer below the
/// surface count is that surface; anything else is invalid (`None`).
pub open spec fn face_index_spec(v: JsonView, nsurfaces: nat) -> Option<Option<nat>> {
    match v {
        JsonView::Null => Some(None),
        JsonView::Number(NumView::PosInt(i)) => if i < nsurfaces {
            Some(Some(i as nat))
        } else {
            None
        },
        _ => None,
    }
}

/// A flat list of face values resolved one for one (`None` if any is invalid).
pub open spec fn leaves_spec(vs: Seq<JsonView>, nsurfaces: nat) -> Option<Seq<Option<nat>>>
    decreases vs.len(),
{
    if vs.len() == 0 {
        Some(Seq::empty())
    } else {
        match (leaves_spec(vs.drop_last(), nsurfaces), face_index_spec(vs.last(), nsurfaces)) {
            (Some(pre), Some(x)) => Some(pre.push(x)),
            _ => None,
        }
    }
}

/// One shell's values: an array of exactly `nfaces` valid face values.
pub open spec fn shell_spec(v: JsonView, nfaces: nat, nsurfaces: nat) -> Option<Seq<Option<nat>>> {
    match v {
        JsonView::Array(vs) => if vs.len() == nfaces {
            leaves_spec(vs, nsurfaces)
        } else {
            None
        },
        _ => None,
    }
}

/// A Solid's shells' values concatenated in shell order (`None` if any shell
/// is invalid).
pub open spec fn shells_spec(vs: Seq<JsonView>, nfaces: Seq<nat>, nsurfaces: nat) -> Option<Seq<Option<nat>>>
    decreases vs.len(),
{
    if vs.len() == 0 {
        Some(Seq::empty())
    } else {
        match (shells_spec(vs.drop_last(), nfaces.drop_last(), nsurfaces),
            shell_spec(vs.last(), nfaces.last(), nsurfaces)) {
            (Some(pre), Some(x)) => Some(pre + x),
            _ => None,
        }
    }
}

/// The face counts of a solid's shells.
pub open spec fn shell_sizes(shells: Seq<Vec<Face>>) -> Seq<nat> {
    Seq::new(shells.len(), |i: int| shells[i]@.len())
}

/// A Solid's `[shell][face]` values resolved to one flat per-face list in
/// shell-concatenation order, or `None` when the nesting does not match the
/// shells or a value is invalid.
pub open spec fn solid_spec(values: JsonView, nfaces: Seq<nat>, nsurfaces: nat) -> Option<Seq<Option<nat>>> {
    match values {
        JsonView::Array(vs) => if vs.len() == nfaces.len() {
            shells_spec(vs, nfaces, nsurfaces)
        } else {
            None
        },
        _ => None,
    }
}

/// The surface indices of a resolved face list, as natural numbers.
pub open spec fn idx_view(v: Seq<Option<usize>>) -> Seq<Option<nat>> {
    v.map_values(|x: Option<usize>| match x {
        Some(i) => Some(i as nat),
        None => None,
    })
}

fn geom_err(m: &str) -> (e: CityParquetError)
    ensures
        e is Geometry,
        message_of(e) == m@,
{
    CityParquetError::Geometry(owned(m))
}

fn face_index(v: &JsonValue, nsurfaces: usize) -> (r: Result<Option<usize>>)
    ensures
        match face_index_spec(v@, nsurfaces as nat) {
            None => is_geometry_err(r),
            Some(x) => r matches Ok(y) && match (x, y) {
                (None, None) => true,
                (Some(a), Some(b)) => a == b,
                _ => false,
            },
        },
{
    match v {
        JsonValue::Null => Ok(None),
        JsonValue::Number(n) => match v.as_u64() {
            None => Err(geom_err("semantics value is not a non-negative integer")),
            Some(i) => {
                if i >= nsurfaces as u64 {
                    Err(geom_err("semantics value is not below the number of surfaces"))
                } else {
                    Ok(Some(i as usize))
                }
            },
        },
        _ => Err(geom_err("semantics value is neither null nor an integer")),
    }
}

/// Resolve a list of face values one for one, appending to `out`.
fn push_leaves(vs: &Vec<JsonValue>, nsurfaces: usize, out: &mut Vec<Option<usize>>) -> (r: Result<()>)
    ensures
        match leaves_spec(items_view(vs@), nsurfaces as nat) {
            None => is_geometry_err(r),
            Some(x) => r is Ok && idx_view(final(out)@) == idx_view(old(out)@) + x,
        },
{
    proof {
        lemma_items_view(vs@);
    }
    let ghost start = idx_view(out@);
    let mut i: usize = 0;
    assert(items_view(vs@).take(0) =~= Seq::<JsonView>::empty());
    assert(idx_view(out@) =~= start + Seq::<Option<nat>>::empty());
    while i < vs.len()
        invariant
            i <= vs.len(),
            items_view(vs@).len() == vs@.len(),
            forall|j: int| 0 <= j < vs@.len() ==> #[trigger] items_view(vs@)[j] == vs@[j]@,
            leaves_spec(items_view(vs@).take(i as int), nsurfaces as nat) matches Some(pre)
                && idx_view(out@) == start + pre,
        decreases vs.len() - i,
    {
        let ghost pre_v = items_view(vs@).take(i as int);
        let ghost post_v = items_view(vs@).take(i + 1);
        assert(post_v.drop_last() =~= pre_v);
        assert(post_v.last() == vs@[i as int]@);
        let x = face_index(&vs[i], nsurfaces);
        match x {
            Err(e) => {
                proof {
                    lemma_leaves_prefix_none(items_view(vs@), i + 1, nsurfaces as nat);
                }
                return Err(e);
            },
            Ok(y) => {
                let ghost old_out = out@;
                out.push(y);
                proof {
                    assert(idx_view(out@) =~= idx_view(old_out).push(match y { Some(k) => Some(k as nat), None => None }));
                }
            },
        }
        i = i + 1;
    }
    assert(items_view(vs@).take(vs.len() as int) =~= items_view(vs@));
    Ok(())
}

/// An invalid prefix makes the whole list invalid.
proof fn lemma_leaves_prefix_none(vs: Seq<JsonView>, i: int, n: nat)
    requires
        0 <= i <= vs.len(),
        leaves_spec(vs.take(i), n) is None,
    ensures
        leaves_spec(vs, n) is None,
    decreases vs.len() - i,
{
    if i < vs.len() {
        let t = vs.take(i + 1);
        assert(t.drop_last() =~= vs.take(i));
        lemma_leaves_prefix_none(vs, i + 1, n);
    } else {
        assert(vs.take(i) =~= vs);
    }
}


/// Resolve a Solid's `[shell][face]` values to a flat per-face surface index,
/// in shell-concatenation order (the order the emitter walks faces). A
/// nesting that does not match the shells, or an invalid value, is a
/// `Geometry` error.
pub fn solid_face_surfaces(values: &JsonValue, shells: &[Vec<Face>], nsurfaces: usize) -> (r: Result<Vec<Option<usize>>>)
    ensures
        match solid_spec(values@, shell_sizes(shells@), nsurfaces as nat) {
            None => is_geometry_err(r),
            Some(x) => r matches Ok(out) && idx_view(out@) == x,
        },
{
    let vshells = match values {
        JsonValue::Array(items) => items,
        _ => return Err(geom_err("solid semantics values must be an array of shells")),
    };
    proof {
        lemma_items_view(vshells@);
    }
    if vshells.len() != shells.len() {
        return Err(geom_err("semantics shell count does not match the geometry's"));
    }
    let ghost sizes = shell_sizes(shells@);
    let ghost vv = items_view(vshells@);
    let mut out: Vec<Option<usize>> = Vec::new();
    let mut i: usize = 0;
    assert(idx_view(out@) =~= Seq::<Option<nat>>::empty());
    while i < vshells.len()
        invariant
            i <= vshells.len(),
            vshells.len() == shells.len(),
            sizes == shell_sizes(shells@),
            vv == items_view(vshells@),
            vv.len() == vshells@.len(),
            values@ == JsonView::Array(vv),
            forall|j: int| 0 <= j < vshells@.len() ==> #[trigger] vv[j] == vshells@[j]@,
            shells_spec(vv.take(i as int), sizes.take(i as int), nsurfaces as nat) matches Some(pre)
                && idx_view(out@) == pre,
        decreases vshells.len() - i,
    {
        assert(vv.take(i + 1).drop_last() =~= vv.take(i as int));
        assert(sizes.take(i + 1).drop_last() =~= sizes.take(i as int));
        assert(vv.take(i + 1).last() == vshells@[i as int]@);
        assert(sizes.take(i + 1).last() == shells@[i as int]@.len());
        let vfaces = match &vshells[i] {
            JsonValue::Array(items) => items,
            _ => {
                proof {
                    lemma_shells_prefix_none(vv, sizes, i + 1, nsurfaces as nat);
                }
                return Err(geom_err("shell values must be an array"));
            },
        };
        if vfaces.len() != shells[i].len() {
            proof {
                lemma_items_view(vfaces@);
                lemma_shells_prefix_none(vv, sizes, i + 1, nsurfaces as nat);
            }
            return Err(geom_err("semantics shell face count does not match the geometry's"));
        }
        proof {
            lemma_items_view(vfaces@);
        }
        let res = push_leaves(vfaces, nsurfaces, &mut out);
        match res {
            Err(e) => {
                proof {
                    lemma_shells_prefix_none(vv, sizes, i + 1, nsurfaces as nat);
                }
                return Err(e);
            },
            Ok(()) => {},
        }
        i = i + 1;
    }
    assert(vv.take(vshells.len() as int) =~= vv);
    assert(sizes.take(vshells.len() as int) =~= sizes);
    Ok(out)
}

/// An invalid prefix of shells makes the whole solid invalid.
proof fn lemma_shells_prefix_none(vs: Seq<JsonView>, ns: Seq<nat>, i: int, n: nat)
    requires
        0 <= i <= vs.len(),
        vs.len() == ns.len(),
        shells_spec(vs.take(i), ns.take(i), n) is None,
    ensures
        shells_spec(vs, ns, n) is None,
    decreases vs.len() - i,
{
    if i < vs.len() {
        assert(vs.take(i + 1).drop_last() =~= vs.take(i));
        assert(ns.take(i + 1).drop_last() =~= ns.take(i));
        lemma_shells_prefix_none(vs, ns, i + 1, n);
    } else {
        assert(vs.take(i) =~= vs);
        assert(ns.take(i) =~= ns);
    }
}

/// A CompositeSolid's `[solid][shell][face]` values: one per member solid,
/// each resolved like a Solid (`None` when the member count differs or any
/// member is invalid).
pub open spec fn composite_spec(values: JsonView, members: Seq<Seq<nat>>, nsurfaces: nat) -> Option<Seq<Seq<Option<nat>>>> {
    match values {
        JsonView::Array(vs) => if vs.len() == members.len() {
            members_spec(vs, members, nsurfaces)
        } else {
            None
        },
        _ => None,
    }
}

pub open spec fn members_spec(vs: Seq<JsonView>, members: Seq<Seq<nat>>, nsurfaces: nat) -> Option<Seq<Seq<Option<nat>>>>
    decreases vs.len(),
{
    if vs.len() == 0 {
        Some(Seq::empty())
    } else {
        match (members_spec(vs.drop_last(), members.drop_last(), nsurfaces),
            solid_spec(vs.last(), members.last(), nsurfaces)) {
            (Some(pre), Some(x)) => Some(pre.push(x)),
            _ => None,
        }
    }
}

/// The shell sizes of each member solid.
pub open spec fn member_sizes(members: Seq<Vec<Vec<Face>>>) -> Seq<Seq<nat>> {
    Seq::new(members.len(), |i: int| shell_sizes(members[i]@))
}

/// Resolve a CompositeSolid's `[solid][shell][face]` values, one flat per-face
/// list per member.
pub fn composite_face_surfaces(values: &JsonValue, members: &[Vec<Vec<Face>>], nsurfaces: usize) -> (r: Result<Vec<Vec<Option<usize>>>>)
    ensures
        match composite_spec(values@, member_sizes(members@), nsurfaces as nat) {
            None => is_geometry_err(r),
            Some(x) => r matches Ok(out) && out@.len() == x.len()
                && forall|m: int| 0 <= m < x.len() ==> idx_view(#[trigger] out@[m]@) == x[m],
        },
{
    let vmembers = match values {
        JsonValue::Array(items) => items,
        _ => return Err(geom_err("composite semantics values must be an array of solids")),
    };
    proof {
        lemma_items_view(vmembers@);
    }
    if vmembers.len() != members.len() {
        return Err(geom_err("semantics solid count does not match the CompositeSolid's"));
    }
    let ghost sizes = member_sizes(members@);
    let ghost vv = items_view(vmembers@);
    let mut out: Vec<Vec<Option<usize>>> = Vec::new();
    let mut i: usize = 0;
    while i < vmembers.len()
        invariant
            i <= vmembers.len(),
            vmembers.len() == members.len(),
            sizes == member_sizes(members@),
            vv == items_view(vmembers@),
            vv.len() == vmembers@.len(),
            values@ == JsonView::Array(vv),
            forall|j: int| 0 <= j < vmembers@.len() ==> #[trigger] vv[j] == vmembers@[j]@,
            members_spec(vv.take(i as int), sizes.take(i as int), nsurfaces as nat) matches Some(pre)
                && out@.len() == pre.len()
                && forall|m: int| 0 <= m < pre.len() ==> idx_view(#[trigger] out@[m]@) == pre[m],
        decreases vmembers.len() - i,
    {
        assert(vv.take(i + 1).drop_last() =~= vv.take(i as int));
        assert(sizes.take(i + 1).drop_last() =~= sizes.take(i as int));
        assert(vv.take(i + 1).last() == vmembers@[i as int]@);
        assert(sizes.take(i + 1).last() == shell_sizes(members@[i as int]@));
        let res = solid_face_surfaces(&vmembers[i], members[i].as_slice(), nsurfaces);
        match res {
            Err(e) => {
                proof {
                    lemma_members_prefix_none(vv, sizes, i + 1, nsurfaces as nat);
                }
                return Err(e);
            },
            Ok(flat) => {
                out.push(flat);
            },
        }
        i = i + 1;
    }
    assert(vv.take(vmembers.len() as int) =~= vv);
    assert(sizes.take(vmembers.len() as int) =~= sizes);
    Ok(out)
}

proof fn lemma_members_prefix_none(vs: Seq<JsonView>, ns: Seq<Seq<nat>>, i: int, n: nat)
    requires
        0 <= i <= vs.len(),
        vs.len() == ns.len(),
        members_spec(vs.take(i), ns.take(i), n) is None,
    ensures
        members_spec(vs, ns, n) is None,
    decreases vs.len() - i,
{
    if i < vs.len() {
        assert(vs.take(i + 1).drop_last() =~= vs.take(i));
        assert(ns.take(i + 1).drop_last() =~= ns.take(i));
        lemma_members_prefix_none(vs, ns, i + 1, n);
    } else {
        assert(vs.take(i) =~= vs);
        assert(ns.take(i) =~= ns);
    }
}

/// A MultiSurface's flat `[position]` values: exactly `nfaces` valid values.
pub open spec fn multisurface_spec(values: JsonView, nfaces: nat, nsurfaces: nat) -> Option<Seq<Option<nat>>> {
    shell_spec(values, nfaces, nsurfaces)
}

/// Resolve a MultiSurface's flat `[position]` values.
pub fn multisurface_face_surfaces(values: &JsonValue, nfaces: usize, nsurfaces: usize) -> (r: Result<Vec<Option<usize>>>)
    ensures
        match multisurface_spec(values@, nfaces as nat, nsurfaces as nat) {
            None => is_geometry_err(r),
            Some(x) => r matches Ok(out) && idx_view(out@) == x,
        },
{
    let vs = match values {
        JsonValue::Array(items) => items,
        _ => return Err(geom_err("multisurface semantics values must be an array")),
    };
    proof {
        lemma_items_view(vs@);
    }
    if vs.len() != nfaces {
        return Err(geom_err("semantics value count does not match the geometry's face count"));
    }
    let mut out: Vec<Option<usize>> = Vec::new();
    assert(idx_view(out@) =~= Seq::<Option<nat>>::empty());
    let res = push_leaves(vs, nsurfaces, &mut out);
    match res {
        Err(e) => Err(e),
        Ok(()) => {
            assert(Seq::<Option<nat>>::empty() + leaves_spec(items_view(vs@), nsurfaces as nat)->Some_0
                =~= leaves_spec(items_view(vs@), nsurfaces as nat)->Some_0);
            Ok(out)
        },
    }
}


// ------------------------------------------------------------ polygon ids ----

/// The texts of a set of strings.
pub open spec fn contents(s: Set<std::string::String>) -> Set<Seq<char>> {
    s.map(|x: std::string::String| x@)
}

/// The `k`-th generated polygon id: `_cpq_p<k>`.
pub open spec fn id_text(k: nat) -> Seq<char> {
    "_cpq_p"@ + decimal(k)
}

/// `k` is the first index at or after `c` whose id is not in `taken`.
pub open spec fn is_first_free(taken: Set<Seq<char>>, c: nat, k: nat) -> bool {
    &&& c <= k
    &&& !taken.contains(id_text(k))
    &&& forall|j: nat| c <= j < k ==> taken.contains(#[trigger] id_text(j))
}

/// The index an allocator with ids `taken` and counter `c` gives out next.
pub open spec fn first_free(taken: Set<Seq<char>>, c: nat) -> nat {
    choose|k: nat| is_first_free(taken, c, k)
}

/// The taken ids and counter after `n` allocations from `(taken, c)`.
pub open spec fn alloc_after(taken: Set<Seq<char>>, c: nat, n: nat) -> (Set<Seq<char>>, nat)
    decreases n,
{
    if n == 0 {
        (taken, c)
    } else {
        let s = alloc_after(taken, c, (n - 1) as nat);
        let k = first_free(s.0, s.1);
        (s.0.insert(id_text(k)), k + 1)
    }
}

/// The `n` ids given out, in order, by `n` allocations from `(taken, c)`.
pub open spec fn allocated(taken: Set<Seq<char>>, c: nat, n: nat) -> Seq<Seq<char>>
    decreases n,
{
    if n == 0 {
        Seq::empty()
    } else {
        let s = alloc_after(taken, c, (n - 1) as nat);
        allocated(taken, c, (n - 1) as nat).push(id_text(first_free(s.0, s.1)))
    }
}

/// There is only one first free index.
pub proof fn lemma_first_free_unique(taken: Set<Seq<char>>, c: nat, k: nat)
    requires
        is_first_free(taken, c, k),
    ensures
        first_free(taken, c) == k,
{
    let q = first_free(taken, c);
    assert(is_first_free(taken, c, q));
    if q < k {
        assert(taken.contains(id_text(q)));
    } else if k < q {
        assert(taken.contains(id_text(k)));
    }
}

/// `HashSet::insert` on a set of strings: adds the string and reports whether
/// no string with the same text was there.
#[verifier::external_body]
fn insert_id(seen: &mut HashSet<std::string::String>, id: std::string::String) -> (r: bool)
    ensures
        r == !contents(old(seen)@).contains(id@),
        contents(final(seen)@) == contents(old(seen)@).insert(id@),
{
    seen.insert(id)
}

/// `HashSet::len` on a set of strings: the number of distinct texts it holds.
#[verifier::external_body]
fn seen_len(seen: &HashSet<std::string::String>) -> (n: usize)
    ensures
        n as int == if contents(seen@).finite() { contents(seen@).len() as int } else { -1 },
{
    seen.len()
}

/// Distinct indices give distinct ids.
pub proof fn lemma_id_text_injective(a: nat, b: nat)
    ensures
        id_text(a) == id_text(b) ==> a == b,
{
    if id_text(a) == id_text(b) {
        let p = "_cpq_p"@;
        assert(id_text(a).skip(p.len() as int) =~= decimal(a));
        assert(id_text(b).skip(p.len() as int) =~= decimal(b));
        lemma_decimal_injective(a, b);
    }
}

/// The ids of indices below `c`.
pub open spec fn ids_below(c: nat) -> Set<Seq<char>>
    decreases c,
{
    if c == 0 {
        Set::empty()
    } else {
        ids_below((c - 1) as nat).insert(id_text((c - 1) as nat))
    }
}

proof fn lemma_ids_below(c: nat)
    ensures
        ids_below(c).finite(),
        ids_below(c).len() == c,
        forall|x: Seq<char>| #[trigger] ids_below(c).contains(x) <==> exists|j: nat| j < c && x == id_text(j),
    decreases c,
{
    if c > 0 {
        let p = (c - 1) as nat;
        lemma_ids_below(p);
        if ids_below(p).contains(id_text(p)) {
            let j = choose|j: nat| j < p && id_text(p) == id_text(j);
            lemma_id_text_injective(p, j);
        }
        assert forall|x: Seq<char>| #[trigger] ids_below(c).contains(x) implies exists|j: nat| j < c && x == id_text(j) by {
            if x != id_text(p) {
                let j = choose|j: nat| j < p && x == id_text(j);
                assert(j < c);
            } else {
                assert(p < c);
            }
        }
        assert forall|x: Seq<char>| (exists|j: nat| j < c && x == id_text(j)) implies #[trigger] ids_below(c).contains(x) by {
            let j = choose|j: nat| j < c && x == id_text(j);
            if j < p {
                assert(ids_below(p).contains(x));
            }
        }
    }
}

/// A finite set holding the ids of all indices below `c` has at least `c` members.
proof fn lemma_ids_bound(s: Set<Seq<char>>, c: nat)
    requires
        s.finite(),
        forall|j: nat| j < c ==> s.contains(#[trigger] id_text(j)),
    ensures
        c <= s.len(),
{
    lemma_ids_below(c);
    assert(ids_below(c).subset_of(s)) by {
        assert forall|x: Seq<char>| ids_below(c).contains(x) implies s.contains(x) by {
            let j = choose|j: nat| j < c && x == id_text(j);
        }
    }
    vstd::set_lib::lemma_len_subset(ids_below(c), s);
}

/// Allocates document-unique `gml:id`s for emitted polygons: `_cpq_p<N>` with
/// a monotonic counter, checked against (and inserted into) the shared `seen`
/// set that also holds CityObject `gml:id`s, so a generated id never clashes
/// with an object id or another polygon.
pub struct IdAlloc<'a> {
    next: usize,
    seen: &'a mut HashSet<std::string::String>,
}

impl<'a> IdAlloc<'a> {
    /// The next index to try.
    pub closed spec fn counter(&self) -> nat {
        self.next as nat
    }

    /// The texts of the ids taken so far (object ids and generated ids).
    pub closed spec fn taken(&self) -> Set<Seq<char>> {
        contents(self.seen@)
    }

    /// The allocator's invariant: finitely many ids are taken, among them the
    /// ids of every index below the counter.
    pub closed spec fn wf(&self) -> bool {
        self.taken().finite() && forall|j: nat| j < self.next ==> self.taken().contains(#[trigger] id_text(j))
    }

    /// A well-formed allocator has finitely many ids taken.
    pub proof fn lemma_taken_finite(&self)
        requires
            self.wf(),
        ensures
            self.taken().finite(),
    {
    }

    pub fn new(seen: &'a mut HashSet<std::string::String>) -> (r: Self)
        ensures
            r.counter() == 0,
            r.taken() == contents(old(seen)@),
            r.wf(),
    {
        let _n = seen_len(seen);
        IdAlloc { next: 0, seen }
    }

    /// How many ids are taken so far.
    pub fn taken_len(&self) -> (n: usize)
        requires
            self.wf(),
        ensures
            n == self.taken().len(),
    {
        seen_len(self.seen)
    }

    /// The first `_cpq_p<N>` with `N` at or after the counter that is not
    /// taken; it becomes taken and the counter moves past it.
    pub fn next_id(&mut self) -> (id: std::string::String)
        requires
            old(self).wf(),
            old(self).taken().len() < usize::MAX,
        ensures
            final(self).wf(),
            !old(self).taken().contains(id@),
            final(self).taken() == old(self).taken().insert(id@),
            id@ == id_text(first_free(old(self).taken(), old(self).counter())),
            final(self).counter() == first_free(old(self).taken(), old(self).counter()) + 1,
            exists|k: nat| #![trigger id_text(k)] old(self).counter() <= k && id@ == id_text(k)
                && final(self).counter() == k + 1
                && forall|j: nat| old(self).counter() <= j < k ==> old(self).taken().contains(#[trigger] id_text(j)),
    {
        let ghost start = self.next as nat;
        let ghost taken0 = self.taken();
        proof {
            lemma_ids_bound(taken0, self.next as nat);
        }
        loop
            invariant
                self.taken() == taken0,
                taken0 == old(self).taken(),
                start == old(self).counter(),
                forall|j: nat| start <= j < self.next ==> taken0.contains(#[trigger] id_text(j)),
                taken0.finite(),
                taken0.len() < usize::MAX,
                start <= self.next,
                self.next <= taken0.len(),
                forall|j: nat| j < self.next ==> taken0.contains(#[trigger] id_text(j)),
            decreases taken0.len() - self.next,
        {
            let mut id = owned("_cpq_p");
            let digits = decimal_string(self.next as u64);
            id.push_str(digits.as_str());
            let ghost k = self.next as nat;
            assert(id@ == id_text(k));
            self.next = self.next + 1;
            let fresh = insert_id(self.seen, id.clone());
            if fresh {
                assert(is_first_free(taken0, start, k));
                proof {
                    lemma_first_free_unique(taken0, start, k);
                }
                assert(self.taken() == taken0.insert(id@));
                assert forall|j: nat| j < self.next implies self.taken().contains(#[trigger] id_text(j)) by {
                    if j < k {
                        assert(taken0.contains(id_text(j)));
                    }
                }
                return id;
            }
            assert(self.taken() =~= taken0);
            proof {
                lemma_ids_bound(taken0, self.next as nat);
            }
        }
    }
}

} // verus!
