//! Building assembly decisions: which geometry of each major LoD a building
//! emits, which geometries can carry `bldg:boundedBy` semantics, and the
//! `gml:id`s stamped on appearance-bearing faces and rings.

use vstd::prelude::*;
use crate::json::{JsonValue, JsonView, get_spec, items_view, lemma_items_view};
use crate::semantics::{IdAlloc, id_text, Semantics, semantics_parts, surface_names, surface_type, parse_semantics, surfaces_emittable};
use crate::shape::DecodedKind;
use crate::shells::opt_view;
use crate::xml::is_ncname_spec;
use crate::text::{decimal, decimal_string, owned};

verus! {

/// The ids stamped on one face: the polygon id (when the face carries any
/// appearance) and one id per ring that is textured.
#[derive(Debug)]
pub struct FaceIds {
    pub poly: Option<std::string::String>,
    pub rings: Vec<Option<std::string::String>>,
}

/// Whether face `i` needs a polygon id: it has a material, or any of its rings
/// is textured.
pub open spec fn needs_face(mat_union: Seq<bool>, ring_needs: Seq<Seq<bool>>, i: int) -> bool {
    (i < mat_union.len() && mat_union[i])
        || (i < ring_needs.len() && exists|r: int| 0 <= r < ring_needs[i].len() && #[trigger] ring_needs[i][r])
}

/// The ring needs of face `i` (none for a face beyond the list).
pub open spec fn rings_of(ring_needs: Seq<Seq<bool>>, i: int) -> Seq<bool> {
    if i < ring_needs.len() {
        ring_needs[i]
    } else {
        Seq::empty()
    }
}

/// The id of ring `r` of a polygon with id `poly`: `<poly>_r<r>`.
pub open spec fn ring_id(poly: Seq<char>, r: nat) -> Seq<char> {
    poly + "_r"@ + decimal(r)
}

pub open spec fn views(v: Seq<Vec<bool>>) -> Seq<Seq<bool>> {
    v.map_values(|x: Vec<bool>| x@)
}

fn any_true(v: &[bool]) -> (r: bool)
    ensures
        r == exists|k: int| 0 <= k < v@.len() && #[trigger] v@[k],
{
    let mut k: usize = 0;
    while k < v.len()
        invariant
            k <= v.len(),
            forall|j: int| 0 <= j < k ==> !v@[j],
        decreases v.len() - k,
    {
        if v[k] {
            return true;
        }
        k = k + 1;
    }
    false
}

/// Pre-allocate polygon and ring `gml:id`s for every appearance-bearing face,
/// in face-walk order: a polygon id when the face has a material or any
/// textured ring, and a `<polyid>_r<K>` id for each textured ring `K`, so
/// `app:target` and texture ring references can point at the inline polygon.
pub fn plain_face_ids(mat_union: &[bool], ring_needs: &[Vec<bool>], ids: &mut IdAlloc) -> (out: Vec<FaceIds>)
    requires
        old(ids).wf(),
        old(ids).taken().len() + mat_union@.len() + ring_needs@.len() < usize::MAX,
    ensures
        final(ids).wf(),
        out@.len() == if mat_union@.len() >= ring_needs@.len() { mat_union@.len() } else { ring_needs@.len() },
        forall|i: int| 0 <= i < out@.len() ==> (#[trigger] out@[i].poly is Some) == needs_face(mat_union@, views(ring_needs@), i),
        forall|i: int| 0 <= i < out@.len() ==> (#[trigger] out@[i].rings@.len()) == rings_of(views(ring_needs@), i).len(),
        forall|i: int, r: int| 0 <= i < out@.len() && 0 <= r < out@[i].rings@.len() ==> match #[trigger] out@[i].rings@[r] {
            Some(s) => rings_of(views(ring_needs@), i)[r] && s@ == ring_id(out@[i].poly->Some_0@, r as nat),
            None => !rings_of(views(ring_needs@), i)[r],
        },
        // Every polygon id is new, and no two faces share one.
        forall|i: int| 0 <= i < out@.len() && #[trigger] out@[i].poly is Some ==>
            !old(ids).taken().contains(out@[i].poly->Some_0@) && final(ids).taken().contains(out@[i].poly->Some_0@),
        forall|i: int, j: int| 0 <= i < j < out@.len() && #[trigger] out@[i].poly is Some && #[trigger] out@[j].poly is Some ==>
            out@[i].poly->Some_0@ != out@[j].poly->Some_0@,
        old(ids).taken().subset_of(final(ids).taken()),
        final(ids).taken().len() <= old(ids).taken().len() + out@.len(),
{
    let n: usize = if mat_union.len() >= ring_needs.len() { mat_union.len() } else { ring_needs.len() };
    let ghost taken0 = ids.taken();
    proof {
        ids.lemma_taken_finite();
    }
    let ghost rn = views(ring_needs@);
    let mut out: Vec<FaceIds> = Vec::new();
    let mut i: usize = 0;
    while i < n
        invariant
            i <= n,
            n == if mat_union@.len() >= ring_needs@.len() { mat_union@.len() } else { ring_needs@.len() },
            rn == views(ring_needs@),
            taken0 == old(ids).taken(),
            ids.wf(),
            taken0.finite(),
            ids.taken().finite(),
            taken0.len() + mat_union@.len() + ring_needs@.len() < usize::MAX,
            taken0.subset_of(ids.taken()),
            ids.taken().len() <= taken0.len() + i,
            out@.len() == i,
            forall|k: int| 0 <= k < i ==> (#[trigger] out@[k].poly is Some) == needs_face(mat_union@, rn, k),
            forall|k: int| 0 <= k < i ==> (#[trigger] out@[k].rings@.len()) == rings_of(rn, k).len(),
            forall|k: int, r: int| 0 <= k < i && 0 <= r < out@[k].rings@.len() ==> match #[trigger] out@[k].rings@[r] {
                Some(s) => rings_of(rn, k)[r] && s@ == ring_id(out@[k].poly->Some_0@, r as nat),
                None => !rings_of(rn, k)[r],
            },
            forall|k: int| 0 <= k < i && #[trigger] out@[k].poly is Some ==>
                !taken0.contains(out@[k].poly->Some_0@) && ids.taken().contains(out@[k].poly->Some_0@),
            forall|k: int, j: int| 0 <= k < j < i && #[trigger] out@[k].poly is Some && #[trigger] out@[j].poly is Some ==>
                out@[k].poly->Some_0@ != out@[j].poly->Some_0@,
        decreases n - i,
    {
        let mat = if i < mat_union.len() { mat_union[i] } else { false };
        let empty: Vec<bool> = Vec::new();
        let rings: &Vec<bool> = if i < ring_needs.len() { &ring_needs[i] } else { &empty };
        assert(rings@ == rings_of(rn, i as int));
        let needs = mat || any_true(rings.as_slice());
        let ghost before = ids.taken();
        let poly: Option<std::string::String> = if needs {
            let p = ids.next_id();
            proof {
                ids.lemma_taken_finite();
            }
            Some(p)
        } else {
            None
        };
        let mut ring_ids: Vec<Option<std::string::String>> = Vec::new();
        let mut r: usize = 0;
        while r < rings.len()
            invariant
                r <= rings.len(),
                ring_ids@.len() == r,
                needs == (mat || exists|q: int| 0 <= q < rings@.len() && #[trigger] rings@[q]),
                needs == (poly is Some),
                forall|q: int| 0 <= q < r ==> match #[trigger] ring_ids@[q] {
                    Some(s) => rings@[q] && s@ == ring_id(poly->Some_0@, q as nat),
                    None => !rings@[q],
                },
            decreases rings.len() - r,
        {
            if rings[r] {
                let p = match &poly {
                    Some(p) => p,
                    None => {
                        assert(rings@[r as int]);
                        proof { assert(false); }
                        return out;
                    },
                };
                let mut s = owned(p.as_str());
                s.push_str("_r");
                let d = decimal_string(r as u64);
                s.push_str(d.as_str());
                ring_ids.push(Some(s));
            } else {
                ring_ids.push(None);
            }
            r = r + 1;
        }
        proof {
            if poly is Some {
                assert(!before.contains(poly->Some_0@));
                assert forall|k: int| 0 <= k < i && #[trigger] out@[k].poly is Some implies
                    out@[k].poly->Some_0@ != poly->Some_0@ by {
                    assert(before.contains(out@[k].poly->Some_0@));
                }
            }
        }
        out.push(FaceIds { poly, rings: ring_ids });
        i = i + 1;
    }
    out
}

// ------------------------------------------------------------ LoDs ----

/// A level of detail: `2` is major 2, minor 0; `2.2` is major 2, minor 2.
#[derive(Debug, Clone, Copy, PartialEq, Eq, Structural)]
pub struct Lod {
    pub major: u8,
    pub minor: u8,
}

/// `a` is a more detailed LoD than `b`.
pub open spec fn lod_gt(a: Lod, b: Lod) -> bool {
    a.major > b.major || (a.major == b.major && a.minor > b.minor)
}

impl Lod {
    pub fn major(&self) -> (m: u8)
        ensures
            m == self.major,
    {
        self.major
    }

    /// `self` is a more detailed LoD than `other`.
    pub fn gt(&self, other: &Lod) -> (r: bool)
        ensures
            r == lod_gt(*self, *other),
    {
        self.major > other.major || (self.major == other.major && self.minor > other.minor)
    }
}

/// How one decoded geometry column of a Building is routed.
#[derive(Debug, PartialEq, Eq, Structural)]
pub enum GeomRoute {
    /// Emit as a `bldg:lodNSolid`.
    Emit(Lod),
    /// A MultiSolid: a CityGML 2.0 `Building` has no `lodNMultiSolid` slot and
    /// `gml:MultiSolid` is not a `gml:_Solid`, so it is skipped and counted.
    MultiSolid,
    /// A lodless geometry cannot be a `lod<n>Solid`; skipped and counted.
    Lodless,
}

/// The route of one geometry column: a GeometryCollection whose recorded
/// type is `MultiSolid` is skipped, a lodless geometry is skipped, anything
/// else is emitted (the building writer decides representability).
pub open spec fn route_spec(lod: Option<Lod>, kind: DecodedKind, props: Option<JsonView>) -> GeomRoute {
    match lod {
        None => GeomRoute::Lodless,
        Some(l) => if kind is GeometryCollection && (props matches Some(p)
            && get_spec(p, "type"@) == Some(JsonView::Str("MultiSolid"@))) {
            GeomRoute::MultiSolid
        } else {
            GeomRoute::Emit(l)
        },
    }
}

/// Classify one geometry column; see [`route_spec`].
pub fn route_geometry(lod: Option<Lod>, kind: &DecodedKind, props: Option<&JsonValue>) -> (r: GeomRoute)
    ensures
        r == route_spec(lod, *kind, opt_view(props)),
{
    match lod {
        None => GeomRoute::Lodless,
        Some(l) => {
            if let DecodedKind::GeometryCollection(_) = kind {
                let is_multi = match props {
                    Some(p) => match p.get("type") {
                        Some(t) => match t.as_str() {
                            Some(s) => crate::text::str_eq(s, "MultiSolid"),
                            None => false,
                        },
                        None => false,
                    },
                    None => false,
                };
                if is_multi {
                    return GeomRoute::MultiSolid;
                }
            }
            GeomRoute::Emit(l)
        },
    }
}

/// A `values` tree has a non-null leaf.
pub open spec fn has_nonnull_leaf(v: JsonView) -> bool
    decreases v,
{
    match v {
        JsonView::Null => false,
        JsonView::Array(items) => any_nonnull_leaf(items),
        _ => true,
    }
}

pub open spec fn any_nonnull_leaf(items: Seq<JsonView>) -> bool
    decreases items,
{
    if items.len() == 0 {
        false
    } else {
        any_nonnull_leaf(items.drop_last()) || has_nonnull_leaf(items.last())
    }
}

proof fn lemma_any_prefix(items: Seq<JsonView>, i: int)
    requires
        0 <= i <= items.len(),
        any_nonnull_leaf(items.take(i)),
    ensures
        any_nonnull_leaf(items),
    decreases items.len() - i,
{
    if i < items.len() {
        assert(items.take(i + 1).drop_last() =~= items.take(i));
        lemma_any_prefix(items, i + 1);
    } else {
        assert(items.take(i) =~= items);
    }
}

/// At least one face of a `values` tree has a semantic surface.
pub fn has_nonnull_value(v: &JsonValue) -> (r: bool)
    ensures
        r == has_nonnull_leaf(v@),
    decreases v,
{
    match v {
        JsonValue::Null => false,
        JsonValue::Array(items) => {
            proof {
                lemma_items_view(items@);
            }
            let ghost iv = items_view(items@);
            let mut i: usize = 0;
            assert(iv.take(0) =~= Seq::<JsonView>::empty());
            while i < items.len()
                invariant
                    i <= items.len(),
                    *v == JsonValue::Array(*items),
                    iv == items_view(items@),
                    iv.len() == items@.len(),
                    forall|j: int| 0 <= j < items@.len() ==> #[trigger] iv[j] == items@[j]@,
                    !any_nonnull_leaf(iv.take(i as int)),
                decreases items.len() - i,
            {
                assert(iv.take(i + 1).drop_last() =~= iv.take(i as int));
                proof {
                    assert(decreases_to!(*v => (*v)->Array_0));
                    vstd::std_specs::vec::axiom_vec_index_decreases(*items, i as int);
                }
                if has_nonnull_value(&items[i]) {
                    proof {
                        lemma_any_prefix(iv, i + 1);
                    }
                    return true;
                }
                i = i + 1;
            }
            assert(iv.take(items.len() as int) =~= iv);
            false
        },
        _ => true,
    }
}

/// The semantics a geometry can emit as `bldg:boundedBy`: a major LoD in
/// `2..=4` (a CityGML 2.0 boundary surface has no `lod1MultiSurface`), a
/// Solid, CompositeSolid or MultiSurface shape, well-formed semantics whose
/// every surface type is a legal NCName, and at least one face with a
/// surface (not a building-wide surfaces array stamped with all-null values).
pub open spec fn emittable_spec(major: u8, kind: DecodedKind, props: Option<JsonView>) -> bool {
    &&& 2 <= major <= 4
    &&& (kind is PolyhedralSurface || kind is GeometryCollection || kind is MultiPolygon)
    &&& semantics_parts(props) matches Some((surfs, values))
    &&& surfs.len() > 0
    &&& (forall|k: int| 0 <= k < surfs.len() ==> is_ncname_spec(#[trigger] surface_type(surfs[k])))
    &&& has_nonnull_leaf(values)
}

/// The semantics a geometry can emit as `bldg:boundedBy`, or `None`.
pub fn emittable_semantics(major: u8, kind: &DecodedKind, props: Option<&JsonValue>) -> (r: Option<Semantics>)
    ensures
        emittable_spec(major, *kind, opt_view(props)) == (r is Some),
        r matches Some(s) ==> semantics_parts(opt_view(props)) matches Some((surfs, values))
            && s.values@ == values && surface_names(&s) == surfs.map_values(|x: JsonView| surface_type(x)),
{
    if !(2 <= major && major <= 4) {
        return None;
    }
    match kind {
        DecodedKind::PolyhedralSurface(_) | DecodedKind::GeometryCollection(_) | DecodedKind::MultiPolygon(_) => {},
        _ => return None,
    }
    let sem = match parse_semantics(props) {
        Some(s) => s,
        None => return None,
    };
    let ghost surfs = semantics_parts(opt_view(props))->Some_0.0;
    proof {
        assert(surface_names(&sem).len() == sem.surfaces@.len());
        assert forall|k: int| 0 <= k < sem.surfaces@.len() implies #[trigger] sem.surfaces@[k]@ == surface_type(surfs[k]) by {
            assert(surface_names(&sem)[k] == sem.surfaces@[k]@);
        }
    }
    if surfaces_emittable(&sem) && has_nonnull_value(&sem.values) {
        proof {
            assert forall|k: int| 0 <= k < surfs.len() implies is_ncname_spec(#[trigger] surface_type(surfs[k])) by {
                assert(is_ncname_spec(sem.surfaces@[k]@));
            }
        }
        Some(sem)
    } else {
        proof {
            if surfs.len() > 0 && (forall|k: int| 0 <= k < surfs.len() ==> is_ncname_spec(#[trigger] surface_type(surfs[k]))) {
                assert forall|k: int| 0 <= k < sem.surfaces@.len() implies is_ncname_spec(#[trigger] sem.surfaces@[k]@) by {
                    assert(is_ncname_spec(surface_type(surfs[k])));
                }
            }
        }
        None
    }
}

/// One geometry column of a building, as the LoD selection sees it.
#[derive(Debug, Clone, Copy, PartialEq, Eq, Structural)]
pub struct LodEntry {
    pub lod: Lod,
    /// The geometry has a `lodNSolid` form: a Solid or CompositeSolid, or a
    /// MultiSurface with emittable semantics.
    pub representable: bool,
    /// The geometry has emittable semantics.
    pub semantic: bool,
}

/// The selection-relevant facts of one geometry column.
pub fn lod_entry(lod: Lod, kind: &DecodedKind, props: Option<&JsonValue>) -> (e: LodEntry)
    ensures
        e.lod == lod,
        e.semantic == emittable_spec(lod.major, *kind, opt_view(props)),
        e.representable == match *kind {
            DecodedKind::PolyhedralSurface(_) | DecodedKind::GeometryCollection(_) => true,
            DecodedKind::MultiPolygon(_) => emittable_spec(lod.major, *kind, opt_view(props)),
            _ => false,
        },
{
    let semantic = emittable_semantics(lod.major, kind, props).is_some();
    let representable = match kind {
        DecodedKind::PolyhedralSurface(_) | DecodedKind::GeometryCollection(_) => true,
        DecodedKind::MultiPolygon(_) => semantic,
        _ => false,
    };
    LodEntry { lod, representable, semantic }
}

/// An entry can be a `bldg:lod<major>Solid` of major `m` (CityGML 2.0 has
/// `lod1Solid`..`lod4Solid`).
pub open spec fn eligible(e: LodEntry, m: u8) -> bool {
    e.representable && e.lod.major == m && 1 <= m <= 4
}

/// The entry kept for major `m` among `es`: the most detailed eligible one,
/// the first of equally detailed ones.
pub open spec fn best_for(es: Seq<LodEntry>, m: u8) -> Option<int>
    decreases es.len(),
{
    if es.len() == 0 {
        None
    } else {
        let b = best_for(es.drop_last(), m);
        let last = es.len() - 1;
        if eligible(es[last], m) {
            match b {
                None => Some(last),
                Some(j) => if lod_gt(es[last].lod, es[j].lod) { Some(last) } else { b },
            }
        } else {
            b
        }
    }
}

/// The entries kept, one per major LoD in ascending major order, as
/// `(major, index)`.
pub open spec fn kept(es: Seq<LodEntry>) -> Seq<(u8, int)> {
    partial_kept(es, 4)
}

/// The highest kept major whose geometry has emittable semantics: a
/// building's semantics round-trip for at most one LoD.
pub open spec fn semantic_major(es: Seq<LodEntry>) -> Option<u8> {
    partial_semantic(es, 4)
}

/// How many of the first `k` slots are filled.
pub open spec fn filled_upto(s: Seq<Option<usize>>, k: int) -> nat
    decreases k,
{
    if k <= 0 {
        0
    } else {
        filled_upto(s, k - 1) + if s[k - 1] is Some { 1nat } else { 0nat }
    }
}

/// The LoD selection of one building.
pub struct LodSelection {
    /// `(major, index)` of the kept entries, in ascending major order.
    pub kept: Vec<(u8, usize)>,
    /// The entries not kept: unrepresentable, of an unrepresentable major,
    /// or less detailed than another of their major.
    pub skipped: usize,
    /// The major that emits `bldg:boundedBy` semantics, if any.
    pub semantic_major: Option<u8>,
}

proof fn lemma_best_bounds(es: Seq<LodEntry>, m: u8)
    ensures
        best_for(es, m) matches Some(j) ==> 0 <= j < es.len() && eligible(es[j], m),
    decreases es.len(),
{
    if es.len() > 0 {
        lemma_best_bounds(es.drop_last(), m);
    }
}

/// Keep at most one geometry per major LoD 1..=4, the most detailed (the
/// highest minor), and count every other column as skipped; pick the major
/// that carries semantics.
pub fn select_lods(es: &[LodEntry]) -> (r: LodSelection)
    ensures
        r.kept@.map_values(|p: (u8, usize)| (p.0, p.1 as int)) == kept(es@),
        r.skipped == es@.len() - r.kept@.len(),
        r.semantic_major == semantic_major(es@),
{
    // slot[m - 1] holds the kept index of major m so far.
    let mut slot: Vec<Option<usize>> = Vec::new();
    slot.push(None);
    slot.push(None);
    slot.push(None);
    slot.push(None);
    let mut i: usize = 0;
    let mut skipped: usize = 0;
    assert(es@.take(0) =~= Seq::<LodEntry>::empty());
    proof {
        reveal_with_fuel(filled_upto, 5);
    }
    while i < es.len()
        invariant
            i <= es@.len(),
            slot@.len() == 4,
            skipped + filled_upto(slot@, 4) == i,
            forall|m: int| 1 <= m <= 4 ==> (#[trigger] slot@[m - 1]) == match best_for(es@.take(i as int), m as u8) {
                Some(j) => Some(j as usize),
                None => None::<usize>,
            },
        decreases es.len() - i,
    {
        let e = es[i];
        let ghost pre = es@.take(i as int);
        assert(es@.take(i + 1).drop_last() =~= pre);
        assert(es@.take(i + 1)[i as int] == e);
        proof {
            assert forall|m: int| 1 <= m <= 4 implies (#[trigger] best_for(pre, m as u8) matches Some(j) ==> 0 <= j < i && pre[j] == es@[j]) by {
                lemma_best_bounds(pre, m as u8);
            }
        }
        let m = e.lod.major;
        let ghost old_slot = slot@;
        if e.representable && 1 <= m && m <= 4 {
            let s: usize = (m - 1) as usize;
            match slot[s] {
                None => {
                    slot.set(s, Some(i));
                },
                Some(j) => {
                    if e.lod.gt(&es[j].lod) {
                        slot.set(s, Some(i));
                    }
                    skipped = skipped + 1;
                },
            }
        } else {
            skipped = skipped + 1;
        }
        proof {
            reveal_with_fuel(filled_upto, 5);
        }
        i = i + 1;
    }
    assert(es@.take(es.len() as int) =~= es@);
    let mut kept_v: Vec<(u8, usize)> = Vec::new();
    let mut semantic: Option<u8> = None;
    let mut m: u8 = 1;
    proof {
        assert forall|q: int| 1 <= q <= 4 implies (#[trigger] best_for(es@, q as u8) matches Some(j) ==> 0 <= j < es@.len()) by {
            lemma_best_bounds(es@, q as u8);
        }
    }
    while m <= 4
        invariant
            1 <= m <= 5,
            slot@.len() == 4,
            forall|q: int| 1 <= q <= 4 ==> (#[trigger] slot@[q - 1]) == match best_for(es@, q as u8) {
                Some(j) => Some(j as usize),
                None => None::<usize>,
            },
            forall|q: int| 1 <= q <= 4 ==> (#[trigger] best_for(es@, q as u8) matches Some(j) ==> 0 <= j < es@.len()),
            kept_v@.map_values(|p: (u8, usize)| (p.0, p.1 as int)) == partial_kept(es@, (m - 1) as u8),
            semantic == partial_semantic(es@, (m - 1) as u8),
            kept_v@.len() == filled_upto(slot@, m - 1),
            skipped + filled_upto(slot@, 4) == es@.len(),
        decreases 5 - m,
    {
        let ghost before = kept_v@;
        match slot[(m - 1) as usize] {
            Some(j) => {
                kept_v.push((m, j));
                assert(kept_v@.map_values(|p: (u8, usize)| (p.0, p.1 as int)) =~= before.map_values(|p: (u8, usize)| (p.0, p.1 as int)).push((m, j as int)));
                if es[j].semantic {
                    semantic = Some(m);
                }
            },
            None => {},
        }
        m = m + 1;
    }
    LodSelection { kept: kept_v, skipped, semantic_major: semantic }
}

/// [`kept`] restricted to the majors up to `upto`.
pub open spec fn partial_kept(es: Seq<LodEntry>, upto: u8) -> Seq<(u8, int)>
    decreases upto,
{
    if upto == 0 {
        Seq::empty()
    } else {
        let rest = partial_kept(es, (upto - 1) as u8);
        match best_for(es, upto) {
            Some(j) => rest.push((upto, j)),
            None => rest,
        }
    }
}

/// [`semantic_major`] restricted to the majors up to `upto`.
pub open spec fn partial_semantic(es: Seq<LodEntry>, upto: u8) -> Option<u8>
    decreases upto,
{
    if upto == 0 {
        None
    } else if best_for(es, upto) matches Some(j) && es[j].semantic {
        Some(upto)
    } else {
        partial_semantic(es, (upto - 1) as u8)
    }
}

} // verus!
