//! The structure of a decoded WKB geometry: faces and rings as lists of
//! coordinate indices, with the coordinates themselves held by the caller.

use vstd::prelude::*;

verus! {

/// A face: rings of coordinate indices (ring 0 the exterior, 1.. holes).
pub type Face = Vec<Vec<usize>>;

/// The shape of a decoded WKB geometry.
#[derive(Debug)]
pub enum DecodedKind {
    MultiPoint(Vec<usize>),
    MultiLineString(Vec<Vec<usize>>),
    /// A CityJSON MultiSurface/CompositeSurface: one face per surface.
    MultiPolygon(Vec<Face>),
    /// A CityJSON Solid: its shells' faces, concatenated.
    PolyhedralSurface(Vec<Face>),
    /// A CityJSON MultiSolid/CompositeSolid: one member per solid.
    GeometryCollection(Vec<DecodedKind>),
}

/// The CityJSON type of a geometry, as recorded in its properties.
#[derive(Debug, Clone, Copy, PartialEq, Eq, Structural)]
pub enum GeometryType {
    MultiPoint,
    MultiLineString,
    MultiSurface,
    CompositeSurface,
    Solid,
    MultiSolid,
    CompositeSolid,
    GeometryInstance,
}

/// The number of faces of a geometry, in face-walk order.
pub open spec fn face_count(k: DecodedKind) -> nat
    decreases k,
{
    match k {
        DecodedKind::PolyhedralSurface(faces) => faces@.len(),
        DecodedKind::MultiPolygon(faces) => faces@.len(),
        DecodedKind::GeometryCollection(members) => faces_sum(members@),
        _ => 0,
    }
}

/// The total number of faces of a list of geometries.
pub open spec fn faces_sum(ms: Seq<DecodedKind>) -> nat
    decreases ms,
{
    if ms.len() == 0 {
        0
    } else {
        faces_sum(ms.drop_last()) + face_count(ms.last())
    }
}

proof fn lemma_faces_sum_prefix(ms: Seq<DecodedKind>, i: int)
    requires
        0 <= i < ms.len(),
    ensures
        faces_sum(ms.take(i + 1)) == faces_sum(ms.take(i)) + face_count(ms[i]),
{
    assert(ms.take(i + 1).drop_last() =~= ms.take(i));
}

/// The number of faces (polygons) of a geometry, in face-walk order: the
/// length every per-face appearance array of it must have.
pub fn count_faces(kind: &DecodedKind) -> (n: usize)
    requires
        face_count(*kind) <= usize::MAX,
    ensures
        n == face_count(*kind),
    decreases kind,
{
    match kind {
        DecodedKind::PolyhedralSurface(faces) => faces.len(),
        DecodedKind::MultiPolygon(faces) => faces.len(),
        DecodedKind::GeometryCollection(members) => {
            let mut total: usize = 0;
            let mut i: usize = 0;
            assert(members@.take(0) =~= Seq::<DecodedKind>::empty());
            while i < members.len()
                invariant
                    i <= members.len(),
                    *kind == DecodedKind::GeometryCollection(*members),
                    faces_sum(members@) <= usize::MAX,
                    total == faces_sum(members@.take(i as int)),
                decreases members.len() - i,
            {
                proof {
                    lemma_faces_sum_prefix(members@, i as int);
                    lemma_faces_sum_monotone(members@, i + 1);
                    assert(decreases_to!(*kind => (*kind)->GeometryCollection_0));
                    vstd::std_specs::vec::axiom_vec_index_decreases(*members, i as int);
                }
                let c = count_faces(&members[i]);
                total = total + c;
                i = i + 1;
            }
            assert(members@.take(members.len() as int) =~= members@);
            total
        },
        _ => 0,
    }
}

proof fn lemma_faces_sum_monotone(ms: Seq<DecodedKind>, i: int)
    requires
        0 <= i <= ms.len(),
    ensures
        faces_sum(ms.take(i)) <= faces_sum(ms),
        faces_sum(ms.take(i)) >= 0,
    decreases ms.len() - i,
{
    if i < ms.len() {
        lemma_faces_sum_monotone(ms, i + 1);
        lemma_faces_sum_prefix(ms, i);
    } else {
        assert(ms.take(i) =~= ms);
    }
}

} // verus!
