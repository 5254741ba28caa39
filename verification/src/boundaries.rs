//! CityJSON `boundaries` and `semantics` rebuilt from a stored geometry: the
//! decoded WKB shape's local indices mapped into the feature's vertex pool,
//! partitioned into shells by the recorded per-shell face counts, and the
//! flat per-face semantic values nested back the same way.

use vstd::prelude::*;
use crate::error::{CityParquetError, Result, message_of};
use crate::json::{JsonNumber, JsonValue, JsonView, NumView, get_spec, items_view, fields_view, lemma_items_view, lemma_fields_view, clone_json};
use crate::text::owned;
use crate::shape::{DecodedKind, Face, GeometryType};
use crate::shells::{
    total, split_by, shells_of, shells_view, partition_shells, shell_faces_flat, shell_faces_nested,
    shells_member, opt_view, usize_list, usize_lists, schema_err, lemma_total_prefix, lemma_total_mono,
};

verus! {

// ------------------------------------------------------------ views ----

/// The index lists of a list of rings.
pub open spec fn rings_dv(v: Seq<Vec<usize>>) -> Seq<Seq<usize>> {
    v.map_values(|r: Vec<usize>| r@)
}

/// The rings of a list of faces, as index lists.
pub open spec fn faces_dv(v: Seq<Face>) -> Seq<Seq<Seq<usize>>> {
    v.map_values(|f: Face| rings_dv(f@))
}

/// The faces of a list of shells, as index lists.
pub open spec fn shells_dv(v: Seq<Vec<Face>>) -> Seq<Seq<Seq<Seq<usize>>>> {
    v.map_values(|s: Vec<Face>| faces_dv(s@))
}

/// Every index of a face list is below `n`.
pub open spec fn faces_in_range(fs: Seq<Seq<Seq<usize>>>, n: nat) -> bool {
    forall|f: int, i: int, k: int| 0 <= f < fs.len() && 0 <= i < fs[f].len() && 0 <= k < fs[f][i].len()
        ==> #[trigger] fs[f][i][k] < n
}

/// Every index a geometry's boundaries are rebuilt from is below `n`.
pub open spec fn kind_in_range(kind: DecodedKind, n: nat) -> bool {
    match kind {
        DecodedKind::MultiPoint(idxs) => forall|k: int| 0 <= k < idxs@.len() ==> #[trigger] idxs@[k] < n,
        DecodedKind::MultiLineString(lines) => forall|i: int, k: int| 0 <= i < lines@.len() && 0 <= k < lines@[i]@.len()
            ==> #[trigger] lines@[i]@[k] < n,
        DecodedKind::MultiPolygon(fs) => faces_in_range(faces_dv(fs@), n),
        DecodedKind::PolyhedralSurface(fs) => faces_in_range(faces_dv(fs@), n),
        DecodedKind::GeometryCollection(ms) => forall|m: int| 0 <= m < ms@.len()
            ==> ((#[trigger] ms@[m]) matches DecodedKind::PolyhedralSurface(fs) ==> faces_in_range(faces_dv(fs@), n)),
    }
}

// ------------------------------------------------------------ remapping ----

/// Indices mapped through `vmap`.
pub open spec fn remap_spec(s: Seq<usize>, vmap: Seq<usize>) -> Seq<usize> {
    s.map_values(|i: usize| vmap[i as int])
}

pub open spec fn remap_rings_spec(s: Seq<Seq<usize>>, vmap: Seq<usize>) -> Seq<Seq<usize>> {
    s.map_values(|r: Seq<usize>| remap_spec(r, vmap))
}

pub open spec fn remap_faces_spec(s: Seq<Seq<Seq<usize>>>, vmap: Seq<usize>) -> Seq<Seq<Seq<usize>>> {
    s.map_values(|f: Seq<Seq<usize>>| remap_rings_spec(f, vmap))
}

/// `idxs` mapped through `vmap`.
pub fn remap_idx(idxs: &[usize], vmap: &[usize]) -> (r: Vec<usize>)
    requires
        forall|k: int| 0 <= k < idxs@.len() ==> (#[trigger] idxs@[k]) < vmap@.len(),
    ensures
        r@ == remap_spec(idxs@, vmap@),
{
    let mut r: Vec<usize> = Vec::new();
    let mut k: usize = 0;
    while k < idxs.len()
        invariant
            k <= idxs.len(),
            forall|q: int| 0 <= q < idxs@.len() ==> (#[trigger] idxs@[q]) < vmap@.len(),
            r@.len() == k,
            forall|q: int| 0 <= q < k ==> #[trigger] r@[q] == vmap@[idxs@[q] as int],
        decreases idxs.len() - k,
    {
        r.push(vmap[idxs[k]]);
        k = k + 1;
    }
    assert(r@ =~= remap_spec(idxs@, vmap@));
    r
}

/// Every ring's indices mapped through `vmap`.
pub fn remap_ring_list(rings: &[Vec<usize>], vmap: &[usize]) -> (r: Vec<Vec<usize>>)
    requires
        forall|i: int, k: int| 0 <= i < rings@.len() && 0 <= k < rings@[i]@.len() ==> (#[trigger] rings@[i]@[k]) < vmap@.len(),
    ensures
        rings_dv(r@) == remap_rings_spec(rings_dv(rings@), vmap@),
{
    let mut r: Vec<Vec<usize>> = Vec::new();
    let mut i: usize = 0;
    while i < rings.len()
        invariant
            i <= rings.len(),
            forall|a: int, k: int| 0 <= a < rings@.len() && 0 <= k < rings@[a]@.len() ==> (#[trigger] rings@[a]@[k]) < vmap@.len(),
            r@.len() == i,
            forall|a: int| 0 <= a < i ==> (#[trigger] r@[a])@ == remap_spec(rings@[a]@, vmap@),
        decreases rings.len() - i,
    {
        let ring = remap_idx(rings[i].as_slice(), vmap);
        r.push(ring);
        i = i + 1;
    }
    assert(rings_dv(r@) =~= remap_rings_spec(rings_dv(rings@), vmap@));
    r
}

/// Every face's rings' indices mapped through `vmap`.
pub fn remap_face_list(faces: &[Face], vmap: &[usize]) -> (r: Vec<Face>)
    requires
        faces_in_range(faces_dv(faces@), vmap@.len()),
    ensures
        faces_dv(r@) == remap_faces_spec(faces_dv(faces@), vmap@),
{
    let mut r: Vec<Face> = Vec::new();
    let mut f: usize = 0;
    while f < faces.len()
        invariant
            f <= faces.len(),
            faces_in_range(faces_dv(faces@), vmap@.len()),
            r@.len() == f,
            forall|a: int| 0 <= a < f ==> rings_dv((#[trigger] r@[a])@) == remap_rings_spec(rings_dv(faces@[a]@), vmap@),
        decreases faces.len() - f,
    {
        proof {
            assert forall|i: int, k: int| 0 <= i < faces@[f as int]@.len() && 0 <= k < faces@[f as int]@[i]@.len()
                implies (#[trigger] faces@[f as int]@[i]@[k]) < vmap@.len() by {
                assert(faces_dv(faces@)[f as int][i][k] == faces@[f as int]@[i]@[k]);
            }
        }
        let face = remap_ring_list(faces[f].as_slice(), vmap);
        r.push(face);
        f = f + 1;
    }
    assert(faces_dv(r@) =~= remap_faces_spec(faces_dv(faces@), vmap@));
    r
}

// ------------------------------------------------------------ JSON ----

/// An index list as a JSON array of integers.
pub open spec fn ints_json(s: Seq<usize>) -> JsonView {
    JsonView::Array(s.map_values(|x: usize| JsonView::Number(NumView::PosInt(x as u64))))
}

pub open spec fn rings_json(s: Seq<Seq<usize>>) -> JsonView {
    JsonView::Array(s.map_values(|r: Seq<usize>| ints_json(r)))
}

pub open spec fn faces_json(s: Seq<Seq<Seq<usize>>>) -> JsonView {
    JsonView::Array(s.map_values(|f: Seq<Seq<usize>>| rings_json(f)))
}

pub open spec fn shells_json(s: Seq<Seq<Seq<Seq<usize>>>>) -> JsonView {
    JsonView::Array(s.map_values(|sh: Seq<Seq<Seq<usize>>>| faces_json(sh)))
}

fn ints_to_json(v: &[usize]) -> (r: JsonValue)
    ensures
        r@ == ints_json(v@),
{
    let mut out: Vec<JsonValue> = Vec::new();
    let mut i: usize = 0;
    while i < v.len()
        invariant
            i <= v@.len(),
            out@.len() == i,
            forall|k: int| 0 <= k < i ==> (#[trigger] out@[k])@ == JsonView::Number(NumView::PosInt(v@[k] as u64)),
        decreases v.len() - i,
    {
        out.push(JsonValue::Number(JsonNumber::PosInt(v[i] as u64)));
        i = i + 1;
    }
    proof {
        lemma_items_view(out@);
        assert(items_view(out@) =~= v@.map_values(|x: usize| JsonView::Number(NumView::PosInt(x as u64))));
    }
    JsonValue::Array(out)
}

fn rings_to_json(v: &[Vec<usize>]) -> (r: JsonValue)
    ensures
        r@ == rings_json(rings_dv(v@)),
{
    let mut out: Vec<JsonValue> = Vec::new();
    let mut i: usize = 0;
    while i < v.len()
        invariant
            i <= v@.len(),
            out@.len() == i,
            forall|k: int| 0 <= k < i ==> (#[trigger] out@[k])@ == ints_json(v@[k]@),
        decreases v.len() - i,
    {
        out.push(ints_to_json(v[i].as_slice()));
        i = i + 1;
    }
    proof {
        lemma_items_view(out@);
        assert(items_view(out@) =~= rings_dv(v@).map_values(|r: Seq<usize>| ints_json(r)));
    }
    JsonValue::Array(out)
}

fn faces_to_json(v: &[Face]) -> (r: JsonValue)
    ensures
        r@ == faces_json(faces_dv(v@)),
{
    let mut out: Vec<JsonValue> = Vec::new();
    let mut i: usize = 0;
    while i < v.len()
        invariant
            i <= v@.len(),
            out@.len() == i,
            forall|k: int| 0 <= k < i ==> (#[trigger] out@[k])@ == rings_json(rings_dv(v@[k]@)),
        decreases v.len() - i,
    {
        out.push(rings_to_json(v[i].as_slice()));
        i = i + 1;
    }
    proof {
        lemma_items_view(out@);
        assert(items_view(out@) =~= faces_dv(v@).map_values(|f: Seq<Seq<usize>>| rings_json(f)));
    }
    JsonValue::Array(out)
}

fn shells_to_json(v: &[Vec<Face>]) -> (r: JsonValue)
    ensures
        r@ == shells_json(shells_dv(v@)),
{
    let mut out: Vec<JsonValue> = Vec::new();
    let mut i: usize = 0;
    while i < v.len()
        invariant
            i <= v@.len(),
            out@.len() == i,
            forall|k: int| 0 <= k < i ==> (#[trigger] out@[k])@ == faces_json(faces_dv(v@[k]@)),
        decreases v.len() - i,
    {
        out.push(faces_to_json(v[i].as_slice()));
        i = i + 1;
    }
    proof {
        lemma_items_view(out@);
        assert(items_view(out@) =~= shells_dv(v@).map_values(|s: Seq<Seq<Seq<usize>>>| faces_json(s)));
    }
    JsonValue::Array(out)
}

// ------------------------------------------------------------ shells ----

/// The per-shell face counts of a Solid's properties: `None` when the
/// `shells` member is malformed, `Some(None)` when it is absent.
pub open spec fn flat_counts(props: Option<JsonView>) -> Option<Option<Seq<usize>>> {
    match shells_member(props) {
        None => Some(None),
        Some(v) => match usize_list(v) {
            None => None,
            Some(c) => Some(Some(c)),
        },
    }
}

/// The per-solid, per-shell face counts of a MultiSolid/CompositeSolid's
/// properties: `None` when malformed, `Some(None)` when absent.
pub open spec fn nested_counts(props: Option<JsonView>) -> Option<Option<Seq<Seq<usize>>>> {
    match shells_member(props) {
        None => Some(None),
        Some(v) => match usize_lists(v) {
            None => None,
            Some(l) => Some(Some(l)),
        },
    }
}

/// A face list partitioned into shells; `None` when counts are given and do
/// not sum to the face total.
pub open spec fn partitioned<T>(fs: Seq<T>, c: Option<Seq<usize>>) -> Option<Seq<Seq<T>>> {
    match c {
        None => Some(seq![fs]),
        Some(c) => if total(c) == fs.len() { Some(split_by(fs, c)) } else { None },
    }
}

/// The faces of a solid member of a GeometryCollection.
pub open spec fn member_faces(m: DecodedKind) -> Seq<Seq<Seq<usize>>> {
    match m {
        DecodedKind::PolyhedralSurface(fs) => faces_dv(fs@),
        _ => Seq::empty(),
    }
}

/// The shell counts of solid `m`, when counts are recorded.
pub open spec fn member_counts(nc: Option<Seq<Seq<usize>>>, m: int) -> Option<Seq<usize>> {
    match nc {
        None => None,
        Some(l) => Some(l[m]),
    }
}

/// Solid `m` of a GeometryCollection can be rebuilt.
pub open spec fn member_ok(ms: Seq<DecodedKind>, nc: Option<Seq<Seq<usize>>>, vmap: Seq<usize>, m: int) -> bool {
    &&& ms[m] is PolyhedralSurface
    &&& (nc matches Some(l) ==> m < l.len())
    &&& partitioned(remap_faces_spec(member_faces(ms[m]), vmap), member_counts(nc, m)) is Some
}

/// The boundaries of solid `m` of a GeometryCollection.
pub open spec fn member_json(ms: Seq<DecodedKind>, nc: Option<Seq<Seq<usize>>>, vmap: Seq<usize>, m: int) -> JsonView {
    shells_json(partitioned(remap_faces_spec(member_faces(ms[m]), vmap), member_counts(nc, m))->Some_0)
}

/// The CityJSON `boundaries` of a stored geometry, from its decoded shape,
/// its recorded type and properties, and the local -> feature vertex map;
/// `None` when the type does not match the shape or the recorded shell
/// counts do not fit the faces.
pub open spec fn boundaries_spec(kind: DecodedKind, gtype: GeometryType, props: Option<JsonView>, vmap: Seq<usize>) -> Option<JsonView> {
    match gtype {
        GeometryType::MultiPoint => match kind {
            DecodedKind::MultiPoint(idxs) => Some(ints_json(remap_spec(idxs@, vmap))),
            _ => None,
        },
        GeometryType::MultiLineString => match kind {
            DecodedKind::MultiLineString(lines) => Some(rings_json(remap_rings_spec(rings_dv(lines@), vmap))),
            _ => None,
        },
        GeometryType::MultiSurface | GeometryType::CompositeSurface => match kind {
            DecodedKind::MultiPolygon(fs) => Some(faces_json(remap_faces_spec(faces_dv(fs@), vmap))),
            _ => None,
        },
        GeometryType::Solid => match kind {
            DecodedKind::PolyhedralSurface(fs) => match flat_counts(props) {
                None => None,
                Some(c) => match partitioned(remap_faces_spec(faces_dv(fs@), vmap), c) {
                    Some(sh) => Some(shells_json(sh)),
                    None => None,
                },
            },
            _ => None,
        },
        GeometryType::MultiSolid | GeometryType::CompositeSolid => match kind {
            DecodedKind::GeometryCollection(ms) => match nested_counts(props) {
                None => None,
                Some(nc) => if forall|m: int| 0 <= m < ms@.len() ==> #[trigger] member_ok(ms@, nc, vmap, m) {
                    Some(JsonView::Array(Seq::new(ms@.len(), |m: int| member_json(ms@, nc, vmap, m))))
                } else {
                    None
                },
            },
            _ => None,
        },
        GeometryType::GeometryInstance => None,
    }
}

proof fn lemma_shells_dv(shells: Seq<Vec<Face>>, faces: Seq<Face>, c: Option<Seq<usize>>)
    requires
        shells_view(shells) == shells_of(faces, c),
        c matches Some(cc) ==> total(cc) == faces.len(),
    ensures
        shells_dv(shells) == shells_of(faces_dv(faces), c),
{
    match c {
        None => {
            assert(shells_view(shells).len() == shells.len());
            assert(seq![faces].len() == 1);
            assert(shells.len() == 1);
            assert(shells_view(shells)[0] == shells[0]@);
            assert(shells_dv(shells) =~= seq![faces_dv(faces)]);
        },
        Some(cc) => {
            assert(shells_view(shells).len() == shells.len());
            assert(split_by(faces, cc).len() == cc.len());
            assert forall|i: int| 0 <= i < shells.len() implies #[trigger] shells_dv(shells)[i] == split_by(faces_dv(faces), cc)[i] by {
                let lo = total(cc.take(i)) as int;
                let hi = total(cc.take(i + 1)) as int;
                lemma_total_prefix(cc, i);
                lemma_total_mono(cc, i + 1);
                assert(shells_view(shells)[i] == shells[i]@);
                assert(faces_dv(faces.subrange(lo, hi)) =~= faces_dv(faces).subrange(lo, hi));
            }
            assert(shells_dv(shells) =~= split_by(faces_dv(faces), cc));
        },
    }
}

fn shape_err() -> (e: CityParquetError)
    ensures
        e is Schema,
        message_of(e) == "geometry_properties type does not match the decoded WKB shape"@,
{
    schema_err("geometry_properties type does not match the decoded WKB shape")
}

/// A Solid's faces, mapped through `vmap` and partitioned into shells by
/// `counts`, as boundaries.
fn solid_boundaries(faces: &Vec<Face>, counts: Option<&[usize]>, vmap: &[usize]) -> (r: Result<JsonValue>)
    requires
        faces_in_range(faces_dv(faces@), vmap@.len()),
    ensures
        match partitioned(remap_faces_spec(faces_dv(faces@), vmap@), match counts { Some(c) => Some(c@), None => None }) {
            Some(sh) => r matches Ok(x) && x@ == shells_json(sh),
            None => r matches Err(CityParquetError::Schema(_)),
        },
{
    let remapped = remap_face_list(faces.as_slice(), vmap);
    let ghost rf = remapped@;
    let ghost c = match counts { Some(c) => Some(c@), None => None };
    assert(faces_dv(rf).len() == rf.len());
    match partition_shells(remapped, counts) {
        Ok(shells) => {
            proof {
                match counts {
                    Some(cc) => {},
                    None => {
                        assert(shells_view(shells@) =~= seq![rf]);
                    },
                }
                lemma_shells_dv(shells@, rf, c);
            }
            Ok(shells_to_json(shells.as_slice()))
        },
        Err(e) => Err(e),
    }
}

/// Rebuild one geometry's CityJSON `boundaries` from its decoded WKB shape,
/// the CityJSON type recorded in its properties (which tells MultiSurface
/// from CompositeSurface and MultiSolid from CompositeSolid, as WKB alone
/// cannot), and the local -> feature vertex map. A type that does not match
/// the shape, malformed `shells` counts, or counts that do not fit the faces
/// are a `Schema` error.
pub fn reconstruct_boundaries(kind: &DecodedKind, gtype: GeometryType, props: Option<&JsonValue>, vmap: &[usize]) -> (r: Result<JsonValue>)
    requires
        kind_in_range(*kind, vmap@.len()),
    ensures
        match boundaries_spec(*kind, gtype, opt_view(props), vmap@) {
            Some(j) => r matches Ok(x) && x@ == j,
            None => r matches Err(CityParquetError::Schema(_)),
        },
{
    match gtype {
        GeometryType::MultiPoint => match kind {
            DecodedKind::MultiPoint(idxs) => {
                let v = remap_idx(idxs.as_slice(), vmap);
                Ok(ints_to_json(v.as_slice()))
            },
            _ => Err(shape_err()),
        },
        GeometryType::MultiLineString => match kind {
            DecodedKind::MultiLineString(lines) => {
                let v = remap_ring_list(lines.as_slice(), vmap);
                Ok(rings_to_json(v.as_slice()))
            },
            _ => Err(shape_err()),
        },
        GeometryType::MultiSurface | GeometryType::CompositeSurface => match kind {
            DecodedKind::MultiPolygon(surfaces) => {
                let v = remap_face_list(surfaces.as_slice(), vmap);
                Ok(faces_to_json(v.as_slice()))
            },
            _ => Err(shape_err()),
        },
        GeometryType::Solid => match kind {
            DecodedKind::PolyhedralSurface(faces) => {
                let counts = match shell_faces_flat(props) {
                    Ok(c) => c,
                    Err(e) => return Err(e),
                };
                let cs: Option<&[usize]> = match &counts {
                    Some(c) => Some(c.as_slice()),
                    None => None,
                };
                solid_boundaries(faces, cs, vmap)
            },
            _ => Err(shape_err()),
        },
        GeometryType::MultiSolid | GeometryType::CompositeSolid => match kind {
            DecodedKind::GeometryCollection(members) => {
                let nested = match shell_faces_nested(props) {
                    Ok(n) => n,
                    Err(e) => return Err(e),
                };
                let ghost nc = nested_counts(opt_view(props))->Some_0;
                let ghost ms = members@;
                let mut solids: Vec<JsonValue> = Vec::new();
                let mut m: usize = 0;
                while m < members.len()
                    invariant
                        m <= ms.len(),
                        ms == members@,
                        *kind == DecodedKind::GeometryCollection(*members),
                        kind_in_range(*kind, vmap@.len()),
                        nested_counts(opt_view(props)) == Some(nc),
                        match nested {
                            None => nc is None,
                            Some(x) => nc matches Some(l) && x@.len() == l.len()
                                && forall|i: int| 0 <= i < l.len() ==> (#[trigger] x@[i])@ == l[i],
                        },
                        solids@.len() == m,
                        forall|q: int| 0 <= q < m ==> #[trigger] member_ok(ms, nc, vmap@, q),
                        forall|q: int| 0 <= q < m ==> (#[trigger] solids@[q])@ == member_json(ms, nc, vmap@, q),
                    decreases members.len() - m,
                {
                    let faces = match &members[m] {
                        DecodedKind::PolyhedralSurface(f) => f,
                        _ => {
                            assert(!member_ok(ms, nc, vmap@, m as int));
                            return Err(shape_err());
                        },
                    };
                    assert(ms[m as int] matches DecodedKind::PolyhedralSurface(f) && f == *faces);
                    let cs: Option<&[usize]> = match &nested {
                        Some(c) => {
                            if m < c.len() {
                                Some(c[m].as_slice())
                            } else {
                                assert(!member_ok(ms, nc, vmap@, m as int));
                                return Err(schema_err("shells lists fewer solids than the stored GeometryCollection has members"));
                            }
                        },
                        None => None,
                    };
                    assert(member_counts(nc, m as int) == match cs { Some(c) => Some(c@), None => None::<Seq<usize>> });
                    match solid_boundaries(faces, cs, vmap) {
                        Ok(j) => solids.push(j),
                        Err(e) => {
                            assert(!member_ok(ms, nc, vmap@, m as int));
                            return Err(e);
                        },
                    }
                    m = m + 1;
                }
                proof {
                    lemma_items_view(solids@);
                    assert(items_view(solids@) =~= Seq::new(ms.len(), |q: int| member_json(ms, nc, vmap@, q)));
                }
                Ok(JsonValue::Array(solids))
            },
            _ => Err(shape_err()),
        },
        GeometryType::GeometryInstance => Err(shape_err()),
    }
}

// ------------------------------------------------------------ semantics ----

/// Face values cut into consecutive JSON arrays of `counts` lengths.
pub open spec fn split_json(fs: Seq<JsonView>, counts: Seq<usize>) -> Seq<JsonView> {
    split_by(fs, counts).map_values(|p: Seq<JsonView>| JsonView::Array(p))
}

/// Copies of a list of values.
fn clone_items(v: &[JsonValue]) -> (r: Vec<JsonValue>)
    ensures
        items_view(r@) == items_view(v@),
{
    proof {
        lemma_items_view(v@);
    }
    let mut r: Vec<JsonValue> = Vec::new();
    let mut i: usize = 0;
    while i < v.len()
        invariant
            i <= v@.len(),
            r@.len() == i,
            forall|k: int| 0 <= k < i ==> (#[trigger] r@[k])@ == v@[k]@,
        decreases v.len() - i,
    {
        r.push(clone_json(&v[i]));
        i = i + 1;
    }
    proof {
        lemma_items_view(r@);
        assert(items_view(r@) =~= items_view(v@));
    }
    r
}

/// Copies of the values `fs[lo..hi]`.
fn clone_range(fs: &[JsonValue], lo: usize, hi: usize) -> (r: Vec<JsonValue>)
    requires
        lo <= hi <= fs@.len(),
    ensures
        items_view(r@) == items_view(fs@).subrange(lo as int, hi as int),
{
    proof {
        lemma_items_view(fs@);
    }
    let mut r: Vec<JsonValue> = Vec::new();
    let mut j: usize = lo;
    while j < hi
        invariant
            lo <= j <= hi <= fs@.len(),
            r@.len() == j - lo,
            forall|t: int| 0 <= t < r@.len() ==> (#[trigger] r@[t])@ == fs@[lo + t]@,
        decreases hi - j,
    {
        r.push(clone_json(&fs[j]));
        j = j + 1;
    }
    proof {
        lemma_items_view(r@);
        assert(items_view(r@) =~= items_view(fs@).subrange(lo as int, hi as int));
    }
    r
}

/// The values from `fs[lo..]` cut into consecutive arrays of `counts` lengths.
fn split_pieces(fs: &[JsonValue], lo: usize, counts: &[usize]) -> (out: Vec<JsonValue>)
    requires
        lo + total(counts@) <= fs@.len(),
    ensures
        items_view(out@) == split_json(items_view(fs@).subrange(lo as int, lo + total(counts@)), counts@),
{
    let ghost fsv = items_view(fs@);
    let ghost whole = fsv.subrange(lo as int, lo + total(counts@));
    let flen = fs.len();
    let mut out: Vec<JsonValue> = Vec::new();
    let mut off: usize = lo;
    let mut s: usize = 0;
    proof {
        lemma_items_view(fs@);
    }
    assert(counts@.take(0) =~= Seq::<usize>::empty());
    while s < counts.len()
        invariant
            s <= counts@.len(),
            fsv == items_view(fs@),
            fsv.len() == fs@.len(),
            whole == fsv.subrange(lo as int, lo + total(counts@)),
            lo + total(counts@) <= fs@.len(),
            flen == fs@.len(),
            off == lo + total(counts@.take(s as int)),
            out@.len() == s,
            forall|q: int| 0 <= q < s ==> (#[trigger] out@[q])@ == split_json(whole, counts@)[q],
        decreases counts.len() - s,
    {
        proof {
            lemma_total_prefix(counts@, s as int);
            lemma_total_mono(counts@, s + 1);
        }
        let n = counts[s];
        assert(off + n <= lo + total(counts@));
        let piece = clone_range(fs, off, off + n);
        proof {
            let a = total(counts@.take(s as int)) as int;
            let b = total(counts@.take(s + 1)) as int;
            assert(whole.subrange(a, b) =~= fsv.subrange(lo + a, lo + b));
        }
        out.push(JsonValue::Array(piece));
        off = off + n;
        s = s + 1;
    }
    proof {
        lemma_items_view(out@);
        assert(items_view(out@) =~= split_json(whole, counts@));
    }
    out
}

/// `total(counts)`, or `None` when it overflows `usize`.
fn checked_total(counts: &[usize]) -> (r: Option<usize>)
    ensures
        match r {
            Some(t) => t == total(counts@),
            None => total(counts@) > usize::MAX,
        },
{
    let mut sum: usize = 0;
    let mut i: usize = 0;
    assert(counts@.take(0) =~= Seq::<usize>::empty());
    while i < counts.len()
        invariant
            i <= counts@.len(),
            sum == total(counts@.take(i as int)),
        decreases counts.len() - i,
    {
        proof {
            lemma_total_prefix(counts@, i as int);
        }
        match sum.checked_add(counts[i]) {
            Some(t) => sum = t,
            None => {
                proof {
                    lemma_total_mono(counts@, i + 1);
                }
                return None;
            },
        }
        i = i + 1;
    }
    assert(counts@.take(counts.len() as int) =~= counts@);
    Some(sum)
}

/// Split a flat `face_semantics` list into consecutive groups of `counts`
/// lengths, the inverse of the encoder's flattening. Counts that do not sum
/// to the list's length are a `Schema` error.
pub fn partition_face_semantics(face_semantics: &[JsonValue], counts: &[usize]) -> (r: Result<Vec<JsonValue>>)
    ensures
        if total(counts@) == face_semantics@.len() {
            r matches Ok(v) && items_view(v@) == split_json(items_view(face_semantics@), counts@)
        } else {
            r matches Err(CityParquetError::Schema(_))
        },
{
    let len = face_semantics.len();
    match checked_total(counts) {
        None => Err(schema_err("shells counts overflow usize")),
        Some(t) => {
            if t != face_semantics.len() {
                return Err(schema_err("shells counts do not sum to the number of face_semantics entries"));
            }
            proof {
                lemma_items_view(face_semantics@);
            }
            let out = split_pieces(face_semantics, 0, counts);
            assert(items_view(face_semantics@).subrange(0, t as int) =~= items_view(face_semantics@));
            Ok(out)
        },
    }
}

/// The total face count of a list of solids' shell counts.
pub open spec fn nested_total(l: Seq<Seq<usize>>) -> nat
    decreases l.len(),
{
    if l.len() == 0 {
        0
    } else {
        nested_total(l.drop_last()) + total(l.last())
    }
}

proof fn lemma_nested_prefix(l: Seq<Seq<usize>>, i: int)
    requires
        0 <= i < l.len(),
    ensures
        nested_total(l.take(i + 1)) == nested_total(l.take(i)) + total(l[i]),
{
    assert(l.take(i + 1).drop_last() =~= l.take(i));
}

proof fn lemma_nested_mono(l: Seq<Seq<usize>>, i: int)
    requires
        0 <= i <= l.len(),
    ensures
        nested_total(l.take(i)) <= nested_total(l),
    decreases l.len() - i,
{
    if i < l.len() {
        lemma_nested_prefix(l, i);
        lemma_nested_mono(l, i + 1);
    } else {
        assert(l.take(i) =~= l);
    }
}

/// The nested face values of solid `i` of a MultiSolid/CompositeSolid.
pub open spec fn solid_values(fs: Seq<JsonView>, l: Seq<Seq<usize>>, i: int) -> JsonView {
    JsonView::Array(split_json(fs.subrange(nested_total(l.take(i)) as int, nested_total(l.take(i + 1)) as int), l[i]))
}

/// The flat per-face semantic values recorded in a geometry's properties
/// (none when absent or not an array).
pub open spec fn face_values(p: JsonView) -> Seq<JsonView> {
    match get_spec(p, "face_semantics"@) {
        Some(JsonView::Array(items)) => items,
        _ => Seq::empty(),
    }
}

/// The semantic `values` tree of a geometry type: flat for points, lines and
/// surfaces; nested per shell for a Solid (one shell without counts); nested
/// per solid and shell for a MultiSolid/CompositeSolid, whose counts are then
/// required. `None` on a count mismatch; `Some(None)` for a GeometryInstance.
pub open spec fn semantic_values(fs: Seq<JsonView>, gtype: GeometryType, props: Option<JsonView>) -> Option<Option<JsonView>> {
    match gtype {
        GeometryType::MultiPoint | GeometryType::MultiLineString | GeometryType::MultiSurface
        | GeometryType::CompositeSurface => Some(Some(JsonView::Array(fs))),
        GeometryType::Solid => match flat_counts(props) {
            None => None,
            Some(None) => Some(Some(JsonView::Array(seq![JsonView::Array(fs)]))),
            Some(Some(c)) => if total(c) == fs.len() {
                Some(Some(JsonView::Array(split_json(fs, c))))
            } else {
                None
            },
        },
        GeometryType::MultiSolid | GeometryType::CompositeSolid => match nested_counts(props) {
            Some(Some(l)) => if nested_total(l) == fs.len() {
                Some(Some(JsonView::Array(Seq::new(l.len(), |i: int| solid_values(fs, l, i)))))
            } else {
                None
            },
            _ => None,
        },
        GeometryType::GeometryInstance => Some(None),
    }
}

/// A geometry's CityJSON `semantics` rebuilt from its properties; `None`
/// (outer) on an error, `Some(None)` when the geometry carried no semantics.
pub open spec fn rebuild_semantics_spec(props: Option<JsonView>, gtype: GeometryType) -> Option<Option<JsonView>> {
    match props {
        None => Some(None),
        Some(p) => match get_spec(p, "surfaces"@) {
            None => Some(None),
            Some(surfaces) => match semantic_values(face_values(p), gtype, props) {
                None => None,
                Some(None) => Some(None),
                Some(Some(values)) => Some(Some(JsonView::Object(seq![("surfaces"@, surfaces), ("values"@, values)]))),
            },
        },
    }
}

/// Rebuild a geometry's CityJSON `semantics` (`{surfaces, values}`) from its
/// flattened properties: `surfaces` verbatim, and the nested `values`
/// re-derived from the flat `face_semantics` using `shells`. `None` when the
/// geometry carried no semantics; a `Schema` error when the counts do not fit.
pub fn rebuild_semantics(props: Option<&JsonValue>, gtype: GeometryType) -> (r: Result<Option<JsonValue>>)
    ensures
        match rebuild_semantics_spec(opt_view(props), gtype) {
            None => r matches Err(CityParquetError::Schema(_)),
            Some(None) => r matches Ok(None),
            Some(Some(j)) => r matches Ok(Some(x)) && x@ == j,
        },
{
    let p = match props {
        None => return Ok(None),
        Some(p) => p,
    };
    let surfaces = match p.get("surfaces") {
        None => return Ok(None),
        Some(s) => s,
    };
    let empty: Vec<JsonValue> = Vec::new();
    let fs: &[JsonValue] = match p.get("face_semantics") {
        Some(v) => match v.as_array() {
            Some(items) => items.as_slice(),
            None => empty.as_slice(),
        },
        None => empty.as_slice(),
    };
    let ghost fsv = face_values(p@);
    proof {
        lemma_items_view(fs@);
    }
    assert(items_view(fs@) == fsv);
    let fs_len = fs.len();
    let values = match gtype {
        GeometryType::MultiPoint | GeometryType::MultiLineString | GeometryType::MultiSurface
        | GeometryType::CompositeSurface => JsonValue::Array(clone_items(fs)),
        GeometryType::Solid => {
            let counts = match shell_faces_flat(props) {
                Ok(c) => c,
                Err(e) => return Err(e),
            };
            match counts {
                Some(c) => match partition_face_semantics(fs, c.as_slice()) {
                    Ok(v) => JsonValue::Array(v),
                    Err(e) => return Err(e),
                },
                None => {
                    let mut one: Vec<JsonValue> = Vec::new();
                    one.push(JsonValue::Array(clone_items(fs)));
                    proof {
                        lemma_items_view(one@);
                        assert(items_view(one@) =~= seq![JsonView::Array(fsv)]);
                    }
                    JsonValue::Array(one)
                },
            }
        },
        GeometryType::MultiSolid | GeometryType::CompositeSolid => {
            let nested = match shell_faces_nested(props) {
                Ok(Some(n)) => n,
                Ok(None) => return Err(schema_err("MultiSolid/CompositeSolid geometry_properties is missing `shells`")),
                Err(e) => return Err(e),
            };
            let ghost l = nested_counts(opt_view(props))->Some_0->Some_0;
            assert(nested@.map_values(|v: Vec<usize>| v@) =~= l);
            let mut solids: Vec<JsonValue> = Vec::new();
            let mut offset: usize = 0;
            let mut i: usize = 0;
            assert(l.take(0) =~= Seq::<Seq<usize>>::empty());
            while i < nested.len()
                invariant
                    i <= nested@.len(),
                    nested@.len() == l.len(),
                    forall|q: int| 0 <= q < l.len() ==> (#[trigger] nested@[q])@ == l[q],
                    fsv == items_view(fs@),
                    fsv.len() == fs@.len(),
                    fs_len == fs@.len(),
                    opt_view(props) == Some(p@),
                    get_spec(p@, "surfaces"@) == Some(surfaces@),
                    face_values(p@) == fsv,
                    nested_counts(opt_view(props)) == Some(Some(l)),
                    gtype == GeometryType::MultiSolid || gtype == GeometryType::CompositeSolid,
                    offset == nested_total(l.take(i as int)),
                    offset <= fs@.len(),
                    solids@.len() == i,
                    forall|q: int| 0 <= q < i ==> (#[trigger] solids@[q])@ == solid_values(fsv, l, q),
                decreases nested.len() - i,
            {
                proof {
                    lemma_nested_prefix(l, i as int);
                    lemma_nested_mono(l, i + 1);
                    lemma_items_view(fs@);
                }
                let shell_counts = nested[i].as_slice();
                let n = match checked_total(shell_counts) {
                    Some(n) => n,
                    None => {
                        assert(nested_total(l) != fsv.len());
                        return Err(schema_err("shells counts overflow usize"));
                    },
                };
                let end = match offset.checked_add(n) {
                    Some(e) => e,
                    None => {
                        assert(nested_total(l) != fsv.len());
                        return Err(schema_err("shells counts overflow usize"));
                    },
                };
                if end > fs_len {
                    assert(nested_total(l) != fsv.len());
                    return Err(schema_err("shells describes more faces than face_semantics has"));
                }
                let pieces = split_pieces(fs, offset, shell_counts);
                solids.push(JsonValue::Array(pieces));
                offset = end;
                i = i + 1;
            }
            assert(l.take(l.len() as int) =~= l);
            if offset != fs.len() {
                return Err(schema_err("shells account for fewer faces than face_semantics has"));
            }
            proof {
                lemma_items_view(solids@);
                assert(items_view(solids@) =~= Seq::new(l.len(), |q: int| solid_values(fsv, l, q)));
            }
            JsonValue::Array(solids)
        },
        GeometryType::GeometryInstance => return Ok(None),
    };
    let mut fields: Vec<(std::string::String, JsonValue)> = Vec::new();
    fields.push((owned("surfaces"), clone_json(surfaces)));
    fields.push((owned("values"), values));
    proof {
        lemma_fields_view(fields@);
        assert(fields_view(fields@) =~= seq![("surfaces"@, surfaces@), ("values"@, values@)]);
    }
    Ok(Some(JsonValue::Object(fields)))
}


// ------------------------------------------------------------ laws ----

/// The items of a JSON array (none for any other value).
pub open spec fn items_of(j: JsonView) -> Seq<JsonView> {
    match j {
        JsonView::Array(a) => a,
        _ => Seq::empty(),
    }
}

/// A vertex index as CityJSON writes it.
pub open spec fn index_json(x: usize) -> JsonView {
    JsonView::Number(NumView::PosInt(x as u64))
}

/// Rebuilt MultiPoint boundaries hold, at each position, the stored local
/// index at that position mapped through the vertex map.
pub proof fn lemma_points_remapped(idxs: Vec<usize>, props: Option<JsonView>, vmap: Seq<usize>)
    ensures
        boundaries_spec(DecodedKind::MultiPoint(idxs), GeometryType::MultiPoint, props, vmap) matches Some(j)
            && items_of(j).len() == idxs@.len()
            && forall|k: int| 0 <= k < idxs@.len() ==> #[trigger] items_of(j)[k] == index_json(vmap[idxs@[k] as int]),
{
}

/// Rebuilt MultiLineString boundaries: line by line, position by position,
/// the stored local index mapped through the vertex map.
pub proof fn lemma_lines_remapped(lines: Vec<Vec<usize>>, props: Option<JsonView>, vmap: Seq<usize>)
    ensures
        boundaries_spec(DecodedKind::MultiLineString(lines), GeometryType::MultiLineString, props, vmap) matches Some(j)
            && items_of(j).len() == lines@.len()
            && (forall|l: int| 0 <= l < lines@.len() ==> (#[trigger] items_of(items_of(j)[l])).len() == lines@[l]@.len())
            && forall|l: int, k: int| 0 <= l < lines@.len() && 0 <= k < lines@[l]@.len()
                ==> #[trigger] items_of(items_of(j)[l])[k] == index_json(vmap[lines@[l]@[k] as int]),
{
}

/// Rebuilt MultiSurface and CompositeSurface boundaries: surface by surface,
/// ring by ring, position by position, the stored local index mapped through
/// the vertex map.
pub proof fn lemma_surfaces_remapped(fs: Vec<Face>, gtype: GeometryType, props: Option<JsonView>, vmap: Seq<usize>)
    requires
        gtype is MultiSurface || gtype is CompositeSurface,
    ensures
        boundaries_spec(DecodedKind::MultiPolygon(fs), gtype, props, vmap) matches Some(j)
            && items_of(j).len() == fs@.len()
            && (forall|s: int| 0 <= s < fs@.len() ==> (#[trigger] items_of(items_of(j)[s])).len() == fs@[s]@.len())
            && (forall|s: int, r: int| 0 <= s < fs@.len() && 0 <= r < fs@[s]@.len()
                ==> (#[trigger] items_of(items_of(items_of(j)[s])[r])).len() == fs@[s]@[r]@.len())
            && forall|s: int, r: int, k: int| 0 <= s < fs@.len() && 0 <= r < fs@[s]@.len() && 0 <= k < fs@[s]@[r]@.len()
                ==> #[trigger] items_of(items_of(items_of(j)[s])[r])[k] == index_json(vmap[fs@[s]@[r]@[k] as int]),
{
}

/// A rebuilt Solid without recorded shell counts is one shell holding every
/// face, each index the stored local index mapped through the vertex map.
pub proof fn lemma_solid_one_shell_remapped(fs: Vec<Face>, props: Option<JsonView>, vmap: Seq<usize>)
    requires
        shells_member(props) is None,
    ensures
        boundaries_spec(DecodedKind::PolyhedralSurface(fs), GeometryType::Solid, props, vmap) matches Some(j)
            && items_of(j).len() == 1
            && items_of(items_of(j)[0]).len() == fs@.len()
            && (forall|f: int, r: int| 0 <= f < fs@.len() && 0 <= r < fs@[f]@.len()
                ==> (#[trigger] items_of(items_of(items_of(items_of(j)[0])[f])[r])).len() == fs@[f]@[r]@.len())
            && forall|f: int, r: int, k: int| 0 <= f < fs@.len() && 0 <= r < fs@[f]@.len() && 0 <= k < fs@[f]@[r]@.len()
                ==> #[trigger] items_of(items_of(items_of(items_of(j)[0])[f])[r])[k] == index_json(vmap[fs@[f]@[r]@[k] as int]),
{
}

/// A rebuilt Solid with recorded shell counts `c` that sum to its face
/// total: shell `sh` holds `c[sh]` faces, its face `f` being stored face
/// `c[0] + ... + c[sh - 1] + f`, each index mapped through the vertex map.
pub proof fn lemma_solid_shells_remapped(fs: Vec<Face>, props: Option<JsonView>, vmap: Seq<usize>, c: Seq<usize>)
    requires
        shells_member(props) matches Some(v) && usize_list(v) == Some(c),
        total(c) == fs@.len(),
    ensures
        boundaries_spec(DecodedKind::PolyhedralSurface(fs), GeometryType::Solid, props, vmap) matches Some(j)
            && items_of(j).len() == c.len()
            && (forall|sh: int| 0 <= sh < c.len() ==> (#[trigger] items_of(items_of(j)[sh])).len() == c[sh])
            && forall|sh: int, f: int, r: int, k: int|
                0 <= sh < c.len() && 0 <= f < c[sh] && 0 <= r < fs@[total(c.take(sh)) + f]@.len()
                && 0 <= k < fs@[total(c.take(sh)) + f]@[r]@.len()
                ==> #[trigger] items_of(items_of(items_of(items_of(j)[sh])[f])[r])[k]
                    == index_json(vmap[fs@[total(c.take(sh)) + f]@[r]@[k] as int]),
{
    let m = remap_faces_spec(faces_dv(fs@), vmap);
    let sp = split_by(m, c);
    assert forall|sh: int| 0 <= sh < c.len() implies sp[sh].len() == c[sh] by {
        lemma_total_prefix(c, sh);
        lemma_total_mono(c, sh + 1);
    }
    assert forall|sh: int, f: int, r: int, k: int|
        0 <= sh < c.len() && 0 <= f < c[sh] && 0 <= r < fs@[total(c.take(sh)) + f]@.len()
        && 0 <= k < fs@[total(c.take(sh)) + f]@[r]@.len()
        implies #[trigger] items_of(items_of(items_of(items_of(shells_json(sp))[sh])[f])[r])[k]
            == index_json(vmap[fs@[total(c.take(sh)) + f]@[r]@[k] as int]) by {
        lemma_total_prefix(c, sh);
        lemma_total_mono(c, sh + 1);
        assert(sp[sh][f] == m[total(c.take(sh)) + f]);
    }
}


/// A rebuilt MultiSolid or CompositeSolid without recorded shell counts:
/// one entry per member solid, each a single shell holding the member's
/// faces, each index the stored local index mapped through the vertex map.
pub proof fn lemma_solids_one_shell_remapped(ms: Vec<DecodedKind>, gtype: GeometryType, props: Option<JsonView>, vmap: Seq<usize>)
    requires
        gtype is MultiSolid || gtype is CompositeSolid,
        shells_member(props) is None,
        forall|m: int| 0 <= m < ms@.len() ==> (#[trigger] ms@[m]) is PolyhedralSurface,
    ensures
        boundaries_spec(DecodedKind::GeometryCollection(ms), gtype, props, vmap) matches Some(j)
            && items_of(j).len() == ms@.len()
            && (forall|m: int| 0 <= m < ms@.len() ==> (#[trigger] items_of(items_of(j)[m])).len() == 1)
            && (forall|m: int| 0 <= m < ms@.len()
                ==> (#[trigger] items_of(items_of(items_of(j)[m])[0])).len() == member_faces(ms@[m]).len())
            && forall|m: int, f: int, r: int, k: int|
                0 <= m < ms@.len() && 0 <= f < member_faces(ms@[m]).len() && 0 <= r < member_faces(ms@[m])[f].len()
                && 0 <= k < member_faces(ms@[m])[f][r].len()
                ==> #[trigger] items_of(items_of(items_of(items_of(items_of(j)[m])[0])[f])[r])[k]
                    == index_json(vmap[member_faces(ms@[m])[f][r][k] as int]),
{
    assert forall|m: int| 0 <= m < ms@.len() implies #[trigger] member_ok(ms@, None, vmap, m) by {}
}

/// A rebuilt MultiSolid or CompositeSolid with recorded per-solid shell
/// counts `l` that fit its members: member `m`'s shell `sh` holds `l[m][sh]`
/// faces, its face `f` being the member's stored face
/// `l[m][0] + ... + l[m][sh - 1] + f`, each index mapped through the vertex map.
pub proof fn lemma_solids_shells_remapped(ms: Vec<DecodedKind>, gtype: GeometryType, props: Option<JsonView>, vmap: Seq<usize>, l: Seq<Seq<usize>>)
    requires
        gtype is MultiSolid || gtype is CompositeSolid,
        shells_member(props) matches Some(v) && usize_lists(v) == Some(l),
        l.len() >= ms@.len(),
        forall|m: int| 0 <= m < ms@.len() ==> (#[trigger] ms@[m]) is PolyhedralSurface
            && total(l[m]) == member_faces(ms@[m]).len(),
    ensures
        boundaries_spec(DecodedKind::GeometryCollection(ms), gtype, props, vmap) matches Some(j)
            && items_of(j).len() == ms@.len()
            && (forall|m: int| 0 <= m < ms@.len() ==> (#[trigger] items_of(items_of(j)[m])).len() == l[m].len())
            && forall|m: int, sh: int, f: int, r: int, k: int|
                0 <= m < ms@.len() && 0 <= sh < l[m].len() && 0 <= f < l[m][sh]
                && 0 <= r < member_faces(ms@[m])[total(l[m].take(sh)) + f].len()
                && 0 <= k < member_faces(ms@[m])[total(l[m].take(sh)) + f][r].len()
                ==> #[trigger] items_of(items_of(items_of(items_of(items_of(j)[m])[sh])[f])[r])[k]
                    == index_json(vmap[member_faces(ms@[m])[total(l[m].take(sh)) + f][r][k] as int]),
{
    assert forall|m: int| 0 <= m < ms@.len() implies #[trigger] member_ok(ms@, Some(l), vmap, m) by {}
    assert forall|m: int, sh: int, f: int, r: int, k: int|
        0 <= m < ms@.len() && 0 <= sh < l[m].len() && 0 <= f < l[m][sh]
        && 0 <= r < member_faces(ms@[m])[total(l[m].take(sh)) + f].len()
        && 0 <= k < member_faces(ms@[m])[total(l[m].take(sh)) + f][r].len()
        implies #[trigger] items_of(items_of(items_of(items_of(member_json(ms@, Some(l), vmap, m))[sh])[f])[r])[k]
            == index_json(vmap[member_faces(ms@[m])[total(l[m].take(sh)) + f][r][k] as int]) by {
        lemma_total_prefix(l[m], sh);
        lemma_total_mono(l[m], sh + 1);
        let mf = remap_faces_spec(member_faces(ms@[m]), vmap);
        assert(split_by(mf, l[m])[sh][f] == mf[total(l[m].take(sh)) + f]);
    }
    assert forall|m: int, sh: int| 0 <= m < ms@.len() && 0 <= sh < l[m].len()
        implies items_of(items_of(member_json(ms@, Some(l), vmap, m))[sh]).len() == l[m][sh] by {
        lemma_total_prefix(l[m], sh);
        lemma_total_mono(l[m], sh + 1);
    }
}

} // verus!
