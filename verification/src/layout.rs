//! The layout of a semantics-bearing geometry in CityGML: which faces a
//! Solid/CompositeSolid's shells hold, which semantic surface each face
//! belongs to, which generated `gml:id` each such face gets (its polygon is
//! written once, inside its `bldg:boundedBy` surface, and the solid refers to
//! it by `xlink:href`), and which faces each `bldg:boundedBy` surface holds.
//! The writer emits XML from this plan.

use vstd::prelude::*;
use crate::boundaries::{faces_dv, flat_counts, member_counts, nested_counts, partitioned, rings_dv, shells_dv};
use crate::error::{CityParquetError, Result, message_of, is_geometry_err};
use crate::report::WriteReport;
use crate::json::{JsonValue, JsonView};
use crate::shape::{face_count, faces_sum};
use crate::semantics::{
    IdAlloc, Semantics, composite_face_surfaces, multisurface_face_surfaces, multisurface_spec, composite_spec, idx_view, leaves_spec, member_sizes, members_spec,
    shell_sizes, shells_spec, solid_face_surfaces, solid_spec, alloc_after, allocated,
};
use crate::shape::{DecodedKind, Face};
use crate::shells::{
    concat, lemma_total_mono, lemma_total_prefix, opt_view, partition_shells, shell_faces_flat,
    shell_faces_nested, shells_view, split_by, total,
};
use crate::text::owned;

verus! {

/// Why a layout is refused: the error kind it is reported with.
#[derive(Debug, Clone, Copy, PartialEq, Eq)]
pub enum Refusal {
    Schema,
    Geometry,
}

/// `r` is an error of kind `k`.
pub open spec fn refused_as<T>(r: Result<T>, k: Refusal) -> bool {
    match k {
        Refusal::Schema => r matches Err(CityParquetError::Schema(_)),
        Refusal::Geometry => r matches Err(CityParquetError::Geometry(_)),
    }
}

/// The face counts of a list of shells.
pub open spec fn sizes_dv(sh: Seq<Seq<Seq<Seq<usize>>>>) -> Seq<nat> {
    Seq::new(sh.len(), |i: int| sh[i].len())
}

/// The shells of one member of a CompositeSolid: its faces partitioned by
/// its counts; a member that is not a solid is a `Geometry` refusal, counts
/// that do not fit a `Schema` one.
pub open spec fn member_shells(k: DecodedKind, c: Option<Seq<usize>>) -> std::result::Result<Seq<Seq<Seq<Seq<usize>>>>, Refusal> {
    match k {
        DecodedKind::PolyhedralSurface(fs) => match partitioned(faces_dv(fs@), c) {
            Some(sh) => Ok(sh),
            None => Err(Refusal::Schema),
        },
        _ => Err(Refusal::Geometry),
    }
}

/// The shells of each member, in order; the first member refused decides.
pub open spec fn members_shells(ms: Seq<DecodedKind>, nc: Option<Seq<Seq<usize>>>) -> std::result::Result<Seq<Seq<Seq<Seq<Seq<usize>>>>>, Refusal>
    decreases ms.len(),
{
    if ms.len() == 0 {
        Ok(Seq::empty())
    } else {
        match members_shells(ms.drop_last(), nc) {
            Err(e) => Err(e),
            Ok(a) => match member_shells(ms.last(), member_counts(nc, ms.len() - 1)) {
                Err(e) => Err(e),
                Ok(b) => Ok(a.push(b)),
            },
        }
    }
}

/// The shells and per-face surface indices of a semantics-bearing solid,
/// one entry per member solid (one for a Solid), and whether it is a
/// CompositeSolid; or why it is refused.
pub open spec fn layout_spec(kind: DecodedKind, props: Option<JsonView>, values: JsonView, nsurfaces: nat)
    -> std::result::Result<(Seq<Seq<Seq<Seq<Seq<usize>>>>>, Seq<Seq<Option<nat>>>, bool), Refusal>
{
    match kind {
        DecodedKind::PolyhedralSurface(fs) => match flat_counts(props) {
            None => Err(Refusal::Schema),
            Some(c) => match partitioned(faces_dv(fs@), c) {
                None => Err(Refusal::Schema),
                Some(sh) => match solid_spec(values, sizes_dv(sh), nsurfaces) {
                    None => Err(Refusal::Geometry),
                    Some(f) => Ok((seq![sh], seq![f], false)),
                },
            },
        },
        DecodedKind::GeometryCollection(ms) => match nested_counts(props) {
            None => Err(Refusal::Schema),
            Some(nc) => {
                let counts_fit = match nc {
                    Some(l) => l.len() == ms@.len(),
                    None => true,
                };
                if !counts_fit {
                    Err(Refusal::Geometry)
                } else {
                    match members_shells(ms@, nc) {
                        Err(e) => Err(e),
                        Ok(mshells) => match composite_spec(values, Seq::new(mshells.len(), |m: int| sizes_dv(mshells[m])), nsurfaces) {
                            None => Err(Refusal::Geometry),
                            Some(s) => Ok((mshells, s, true)),
                        },
                    }
                }
            },
        },
        _ => Err(Refusal::Geometry),
    }
}

/// The members' shells, as index lists.
pub open spec fn members_dv(ms: Seq<Vec<Vec<Face>>>) -> Seq<Seq<Seq<Seq<Seq<usize>>>>> {
    Seq::new(ms.len(), |m: int| shells_dv(ms[m]@))
}

/// The members' per-face surface indices.
pub open spec fn surfaces_v(s: Seq<Vec<Option<usize>>>) -> Seq<Seq<Option<nat>>> {
    Seq::new(s.len(), |m: int| idx_view(s[m]@))
}

fn geometry_err(m: &str) -> (e: CityParquetError)
    ensures
        e is Geometry,
        message_of(e) == m@,
{
    CityParquetError::Geometry(owned(m))
}

fn copy_ring(r: &Vec<usize>) -> (c: Vec<usize>)
    ensures
        c@ == r@,
{
    let mut c: Vec<usize> = Vec::new();
    let mut i: usize = 0;
    while i < r.len()
        invariant
            i <= r@.len(),
            c@ == r@.take(i as int),
        decreases r.len() - i,
    {
        c.push(r[i]);
        assert(r@.take(i + 1) =~= r@.take(i as int).push(r@[i as int]));
        i = i + 1;
    }
    assert(r@.take(r@.len() as int) =~= r@);
    c
}

fn copy_faces(fs: &Vec<Face>) -> (c: Vec<Face>)
    ensures
        faces_dv(c@) == faces_dv(fs@),
{
    let mut c: Vec<Face> = Vec::new();
    let mut i: usize = 0;
    while i < fs.len()
        invariant
            i <= fs@.len(),
            c@.len() == i,
            forall|k: int| 0 <= k < i ==> rings_dv((#[trigger] c@[k])@) == rings_dv(fs@[k]@),
        decreases fs.len() - i,
    {
        let f = &fs[i];
        let mut g: Face = Vec::new();
        let mut j: usize = 0;
        while j < f.len()
            invariant
                j <= f@.len(),
                g@.len() == j,
                forall|k: int| 0 <= k < j ==> (#[trigger] g@[k])@ == f@[k]@,
            decreases f.len() - j,
        {
            g.push(copy_ring(&f[j]));
            j = j + 1;
        }
        assert(rings_dv(g@) =~= rings_dv(f@));
        c.push(g);
        i = i + 1;
    }
    assert(faces_dv(c@) =~= faces_dv(fs@));
    c
}

/// Partition a copy of `faces` into shells by `counts`.
fn member_partition(faces: &Vec<Face>, counts: Option<&[usize]>) -> (r: Result<Vec<Vec<Face>>>)
    ensures
        match partitioned(faces_dv(faces@), match counts { Some(c) => Some(c@), None => None }) {
            Some(sh) => r matches Ok(shells) && shells_dv(shells@) == sh && shell_sizes(shells@) == sizes_dv(sh),
            None => r matches Err(CityParquetError::Schema(_)),
        },
{
    let copy = copy_faces(faces);
    let ghost cf = copy@;
    let ghost c = match counts { Some(c) => Some(c@), None => None::<Seq<usize>> };
    assert(faces_dv(cf).len() == cf.len());
    match partition_shells(copy, counts) {
        Ok(shells) => {
            proof {
                match counts {
                    Some(cc) => {
                        let s = shells_view(shells@);
                        assert(s.len() == shells@.len());
                        assert forall|i: int| 0 <= i < shells@.len() implies #[trigger] shells_dv(shells@)[i] == split_by(faces_dv(cf), cc@)[i] by {
                            let lo = total(cc@.take(i)) as int;
                            let hi = total(cc@.take(i + 1)) as int;
                            lemma_total_prefix(cc@, i);
                            lemma_total_mono(cc@, i + 1);
                            assert(s[i] == shells@[i]@);
                            assert(faces_dv(cf.subrange(lo, hi)) =~= faces_dv(cf).subrange(lo, hi));
                        }
                        assert(shells_dv(shells@) =~= split_by(faces_dv(cf), cc@));
                    },
                    None => {
                        assert(shells_view(shells@) =~= seq![cf]);
                        assert(shells_view(shells@)[0] == shells@[0]@);
                        assert(shells_dv(shells@) =~= seq![faces_dv(cf)]);
                    },
                }
                let sh = shells_dv(shells@);
                assert forall|i: int| 0 <= i < shells@.len() implies #[trigger] shell_sizes(shells@)[i] == sizes_dv(sh)[i] by {
                    assert(sh[i] == faces_dv(shells@[i]@));
                }
                assert(shell_sizes(shells@) =~= sizes_dv(sh));
            }
            Ok(shells)
        },
        Err(e) => Err(e),
    }
}

/// The shells and per-face surface indices of a semantics-bearing Solid
/// (a `PolyhedralSurface`, one member) or CompositeSolid (a
/// `GeometryCollection` of them, one member each), partitioned by the
/// `shells` counts of the geometry's properties, and whether it is a
/// CompositeSolid. Malformed or unfitting counts are a `Schema` error; a
/// count list for another number of solids, a member that is not a solid,
/// another shape, or `values` that do not fit the shells are a `Geometry`
/// error.
pub fn solid_layout(kind: &DecodedKind, props: Option<&JsonValue>, values: &JsonValue, nsurfaces: usize)
    -> (r: Result<(Vec<Vec<Vec<Face>>>, Vec<Vec<Option<usize>>>, bool)>)
    ensures
        match layout_spec(*kind, opt_view(props), values@, nsurfaces as nat) {
            Ok((ms, ss, comp)) => r matches Ok((members, surfaces, composite))
                && members_dv(members@) == ms && surfaces_v(surfaces@) == ss && composite == comp,
            Err(k) => refused_as(r, k),
        },
{
    match kind {
        DecodedKind::PolyhedralSurface(faces) => {
            let counts = shell_faces_flat(props)?;
            let cs: Option<&[usize]> = match &counts {
                Some(c) => Some(c.as_slice()),
                None => None,
            };
            let shells = member_partition(faces, cs)?;
            let flat = solid_face_surfaces(values, shells.as_slice(), nsurfaces)?;
            let ghost sh = shells_dv(shells@);
            let mut members: Vec<Vec<Vec<Face>>> = Vec::new();
            members.push(shells);
            let mut surfaces: Vec<Vec<Option<usize>>> = Vec::new();
            surfaces.push(flat);
            proof {
                assert(members_dv(members@) =~= seq![sh]);
                assert(surfaces_v(surfaces@) =~= seq![idx_view(surfaces@[0]@)]);
            }
            Ok((members, surfaces, false))
        },
        DecodedKind::GeometryCollection(gc) => {
            let nested = shell_faces_nested(props)?;
            let ghost nc = nested_counts(opt_view(props))->Some_0;
            match &nested {
                Some(c) => {
                    if c.len() != gc.len() {
                        return Err(geometry_err("solid shell counts list another number of solids than the CompositeSolid has"));
                    }
                },
                None => {},
            }
            let ghost ms = gc@;
            let mut members: Vec<Vec<Vec<Face>>> = Vec::new();
            let mut m: usize = 0;
            assert(ms.take(0) =~= Seq::<DecodedKind>::empty());
            assert(members_dv(members@) =~= Seq::<Seq<Seq<Seq<Seq<usize>>>>>::empty());
            while m < gc.len()
                invariant
                    m <= ms.len(),
                    ms == gc@,
                    *kind == DecodedKind::GeometryCollection(*gc),
                    nested_counts(opt_view(props)) == Some(nc),
                    match nested {
                        None => nc is None,
                        Some(x) => nc matches Some(l) && x@.len() == l.len() && l.len() == ms.len()
                            && forall|i: int| 0 <= i < l.len() ==> (#[trigger] x@[i])@ == l[i],
                    },
                    members@.len() == m,
                    members_shells(ms.take(m as int), nc) == Ok::<Seq<Seq<Seq<Seq<Seq<usize>>>>>, Refusal>(members_dv(members@)),
                    forall|q: int| 0 <= q < m ==> shell_sizes((#[trigger] members@[q])@) == sizes_dv(shells_dv(members@[q]@)),
                decreases gc.len() - m,
            {
                assert(ms.take(m + 1).drop_last() =~= ms.take(m as int));
                assert(ms.take(m + 1).last() == ms[m as int]);
                let faces = match &gc[m] {
                    DecodedKind::PolyhedralSurface(f) => f,
                    _ => {
                        proof {
                            assert(member_shells(ms[m as int], member_counts(nc, m as int)) == Err::<Seq<Seq<Seq<Seq<usize>>>>, Refusal>(Refusal::Geometry));
                            assert(members_shells(ms.take(m + 1), nc) == Err::<Seq<Seq<Seq<Seq<Seq<usize>>>>>, Refusal>(Refusal::Geometry));
                            lemma_members_err(ms, nc, m as int + 1);
                        }
                        return Err(geometry_err("CompositeSolid member is not a PolyhedralSurface"));
                    },
                };
                let cs: Option<&[usize]> = match &nested {
                    Some(c) => Some(c[m].as_slice()),
                    None => None,
                };
                assert(member_counts(nc, m as int) == match cs { Some(c) => Some(c@), None => None::<Seq<usize>> });
                match member_partition(faces, cs) {
                    Ok(shells) => {
                        let ghost before = members@;
                        members.push(shells);
                        proof {
                            assert(members@.drop_last() =~= before);
                            assert(members_dv(members@) =~= members_dv(before).push(shells_dv(members@[m as int]@)));
                        }
                    },
                    Err(e) => {
                        proof {
                            assert(member_shells(ms[m as int], member_counts(nc, m as int)) == Err::<Seq<Seq<Seq<Seq<usize>>>>, Refusal>(Refusal::Schema));
                            assert(members_shells(ms.take(m + 1), nc) == Err::<Seq<Seq<Seq<Seq<Seq<usize>>>>>, Refusal>(Refusal::Schema));
                            lemma_members_err(ms, nc, m as int + 1);
                        }
                        return Err(e);
                    },
                }
                m = m + 1;
            }
            assert(ms.take(gc.len() as int) =~= ms);
            let ghost mshells = members_dv(members@);
            proof {
                assert(member_sizes(members@) =~= Seq::new(mshells.len(), |q: int| sizes_dv(mshells[q])));
            }
            let surfaces = composite_face_surfaces(values, members.as_slice(), nsurfaces)?;
            proof {
                let s = composite_spec(values@, member_sizes(members@), nsurfaces as nat)->Some_0;
                assert(surfaces_v(surfaces@) =~= s);
            }
            Ok((members, surfaces, true))
        },
        _ => Err(geometry_err("a semantics solid needs a PolyhedralSurface or GeometryCollection")),
    }
}

/// A refusal among the first `i` members is the refusal of them all.
proof fn lemma_members_err(ms: Seq<DecodedKind>, nc: Option<Seq<Seq<usize>>>, i: int)
    requires
        0 <= i <= ms.len(),
        members_shells(ms.take(i), nc) is Err,
    ensures
        members_shells(ms, nc) == members_shells(ms.take(i), nc),
    decreases ms.len() - i,
{
    if i < ms.len() {
        assert(ms.take(i + 1).drop_last() =~= ms.take(i));
        lemma_members_err(ms, nc, i + 1);
    } else {
        assert(ms.take(i) =~= ms);
    }
}

// ------------------------------------------------------------ sizes ----

/// The sum of a list of counts.
pub open spec fn sum_nat(s: Seq<nat>) -> nat
    decreases s.len(),
{
    if s.len() == 0 { 0 } else { sum_nat(s.drop_last()) + s.last() }
}

/// The total length of a list of rows.
pub open spec fn rows_len<T>(rows: Seq<Seq<T>>) -> nat
    decreases rows.len(),
{
    if rows.len() == 0 { 0 } else { rows_len(rows.drop_last()) + rows.last().len() }
}

proof fn lemma_leaves_len(vs: Seq<JsonView>, n: nat)
    ensures
        leaves_spec(vs, n) matches Some(x) ==> x.len() == vs.len(),
    decreases vs.len(),
{
    if vs.len() > 0 {
        lemma_leaves_len(vs.drop_last(), n);
    }
}

proof fn lemma_shells_len(vs: Seq<JsonView>, nfs: Seq<nat>, n: nat)
    requires
        vs.len() == nfs.len(),
    ensures
        shells_spec(vs, nfs, n) matches Some(x) ==> x.len() == sum_nat(nfs),
    decreases vs.len(),
{
    if vs.len() > 0 {
        lemma_shells_len(vs.drop_last(), nfs.drop_last(), n);
        match vs.last() {
            JsonView::Array(items) => lemma_leaves_len(items, n),
            _ => {},
        }
    }
}

proof fn lemma_solid_len(values: JsonView, nfs: Seq<nat>, n: nat)
    ensures
        solid_spec(values, nfs, n) matches Some(x) ==> x.len() == sum_nat(nfs),
{
    match values {
        JsonView::Array(vs) => if vs.len() == nfs.len() {
            lemma_shells_len(vs, nfs, n);
        },
        _ => {},
    }
}

proof fn lemma_members_len(vs: Seq<JsonView>, sizes: Seq<Seq<nat>>, n: nat)
    requires
        vs.len() == sizes.len(),
    ensures
        members_spec(vs, sizes, n) matches Some(s) ==> s.len() == vs.len()
            && forall|m: int| 0 <= m < s.len() ==> (#[trigger] s[m]).len() == sum_nat(sizes[m]),
    decreases vs.len(),
{
    if vs.len() > 0 {
        lemma_members_len(vs.drop_last(), sizes.drop_last(), n);
        lemma_solid_len(vs.last(), sizes.last(), n);
        if let Some(s) = members_spec(vs, sizes, n) {
            let pre = members_spec(vs.drop_last(), sizes.drop_last(), n)->Some_0;
            assert forall|m: int| 0 <= m < s.len() implies (#[trigger] s[m]).len() == sum_nat(sizes[m]) by {
                if m < s.len() - 1 {
                    assert(s[m] == pre[m]);
                    assert(sizes.drop_last()[m] == sizes[m]);
                }
            }
        }
    }
}

proof fn lemma_sizes_split(fs: Seq<Seq<Seq<usize>>>, c: Seq<usize>, k: int)
    requires
        total(c) == fs.len(),
        0 <= k <= c.len(),
    ensures
        sum_nat(sizes_dv(split_by(fs, c)).take(k)) == total(c.take(k)),
    decreases k,
{
    if k > 0 {
        lemma_sizes_split(fs, c, k - 1);
        lemma_total_prefix(c, k - 1);
        lemma_total_mono(c, k);
        lemma_total_mono(c, k - 1);
        let sz = sizes_dv(split_by(fs, c));
        assert(sz.take(k).drop_last() =~= sz.take(k - 1));
        assert(sz[k - 1] == split_by(fs, c)[k - 1].len());
    }
}

/// The face counts of a partition add up to the faces partitioned.
proof fn lemma_sizes_partitioned(fs: Seq<Seq<Seq<usize>>>, c: Option<Seq<usize>>)
    requires
        partitioned(fs, c) is Some,
    ensures
        sum_nat(sizes_dv(partitioned(fs, c)->Some_0)) == fs.len(),
{
    match c {
        None => {
            let sz = sizes_dv(seq![fs]);
            assert(sz.len() == 1);
            assert(sz[0] == fs.len());
            assert(sz.drop_last() =~= Seq::<nat>::empty());
            assert(sz.last() == fs.len());
            assert(sum_nat(sz.drop_last()) == 0);
            assert(sum_nat(sz) == sum_nat(sz.drop_last()) + sz.last());
        },
        Some(cc) => {
            lemma_sizes_split(fs, cc, cc.len() as int);
            assert(sizes_dv(split_by(fs, cc)).take(cc.len() as int) =~= sizes_dv(split_by(fs, cc)));
            assert(cc.take(cc.len() as int) =~= cc);
        },
    }
}

/// The members' face counts add up to the collection's.
proof fn lemma_members_faces(ms: Seq<DecodedKind>, nc: Option<Seq<Seq<usize>>>)
    requires
        members_shells(ms, nc) is Ok,
    ensures
        members_shells(ms, nc)->Ok_0.len() == ms.len(),
        sum_nat(Seq::new(ms.len(), |m: int| sum_nat(sizes_dv(members_shells(ms, nc)->Ok_0[m])))) == faces_sum(ms),
    decreases ms.len(),
{
    if ms.len() > 0 {
        lemma_members_faces(ms.drop_last(), nc);
        let a = members_shells(ms.drop_last(), nc)->Ok_0;
        let all = members_shells(ms, nc)->Ok_0;
        let last = ms.last();
        let b = member_shells(last, member_counts(nc, ms.len() - 1))->Ok_0;
        assert(all == a.push(b));
        match last {
            DecodedKind::PolyhedralSurface(fs) => {
                lemma_sizes_partitioned(faces_dv(fs@), member_counts(nc, ms.len() - 1));
                assert(faces_dv(fs@).len() == fs@.len());
                assert(face_count(last) == fs@.len());
            },
            _ => {
                assert(false);
            },
        }
        let whole = Seq::new(ms.len(), |m: int| sum_nat(sizes_dv(all[m])));
        let part = Seq::new(ms.drop_last().len(), |m: int| sum_nat(sizes_dv(a[m])));
        assert(whole.drop_last() =~= part) by {
            assert forall|m: int| 0 <= m < part.len() implies whole.drop_last()[m] == part[m] by {
                assert(all[m] == a[m]);
            }
        }
        assert(whole.last() == sum_nat(sizes_dv(b)));
        assert(faces_sum(ms) == faces_sum(ms.drop_last()) + face_count(ms.last()));
    }
}

proof fn lemma_rows_len_new<T>(rows: Seq<Seq<T>>)
    ensures
        rows_len(rows) == sum_nat(Seq::new(rows.len(), |m: int| rows[m].len())),
    decreases rows.len(),
{
    if rows.len() > 0 {
        lemma_rows_len_new(rows.drop_last());
        let whole = Seq::new(rows.len(), |m: int| rows[m].len());
        let part = Seq::new(rows.drop_last().len(), |m: int| rows.drop_last()[m].len());
        assert(whole.drop_last() =~= part);
    }
}

/// The surfaces of a layout have one entry per face.
proof fn lemma_layout_len(kind: DecodedKind, props: Option<JsonView>, values: JsonView, n: nat)
    requires
        layout_spec(kind, props, values, n) is Ok,
    ensures
        rows_len(layout_spec(kind, props, values, n)->Ok_0.1) == face_count(kind),
        layout_spec(kind, props, values, n)->Ok_0.1.len() == layout_spec(kind, props, values, n)->Ok_0.0.len(),
{
    let ss = layout_spec(kind, props, values, n)->Ok_0.1;
    match kind {
        DecodedKind::PolyhedralSurface(fs) => {
            let c = flat_counts(props)->Some_0;
            let sh = partitioned(faces_dv(fs@), c)->Some_0;
            lemma_solid_len(values, sizes_dv(sh), n);
            lemma_sizes_partitioned(faces_dv(fs@), c);
            assert(ss.drop_last() =~= Seq::<Seq<Option<nat>>>::empty());
            assert(faces_dv(fs@).len() == fs@.len());
            assert(rows_len(ss) == rows_len(ss.drop_last()) + ss.last().len());
        },
        DecodedKind::GeometryCollection(ms) => {
            let nc = nested_counts(props)->Some_0;
            let mshells = members_shells(ms@, nc)->Ok_0;
            let sizes = Seq::new(mshells.len(), |m: int| sizes_dv(mshells[m]));
            lemma_members_faces(ms@, nc);
            match values {
                JsonView::Array(vs) => lemma_members_len(vs, sizes, n),
                _ => {},
            }
            lemma_rows_len_new(ss);
            let a = Seq::new(ss.len(), |m: int| ss[m].len());
            let b = Seq::new(ms@.len(), |m: int| sum_nat(sizes_dv(mshells[m])));
            assert(a =~= b);
        },
        _ => {},
    }
}

// ------------------------------------------------------------ polygon ids ----

/// One of a row's ids has text `x`.
pub open spec fn row_has(row: Seq<Option<std::string::String>>, x: Seq<char>) -> bool {
    exists|f: int| 0 <= f < row.len() && (#[trigger] row[f]) is Some && row[f]->Some_0@ == x
}

/// One of the rows' ids has text `x`.
pub open spec fn rows_have(rows: Seq<Vec<Option<std::string::String>>>, x: Seq<char>) -> bool {
    exists|m: int| 0 <= m < rows.len() && row_has((#[trigger] rows[m])@, x)
}

/// `fids` gives a fresh id to exactly the faces that have a surface, no two
/// the same, and `after` is `before` with those ids added.
pub open spec fn ids_fit(
    fids: Seq<Vec<Option<std::string::String>>>,
    surfs: Seq<Seq<Option<nat>>>,
    before: Set<Seq<char>>,
    after: Set<Seq<char>>,
) -> bool {
    &&& fids.len() == surfs.len()
    &&& forall|m: int| 0 <= m < fids.len() ==> (#[trigger] fids[m])@.len() == surfs[m].len()
    &&& forall|m: int, f: int| 0 <= m < fids.len() && 0 <= f < fids[m]@.len()
        ==> ((#[trigger] fids[m]@[f]) is Some <==> surfs[m][f] is Some)
    &&& forall|m: int, f: int| 0 <= m < fids.len() && 0 <= f < fids[m]@.len() && (#[trigger] fids[m]@[f]) is Some
        ==> !before.contains(fids[m]@[f]->Some_0@)
    &&& forall|m1: int, f1: int, m2: int, f2: int|
        0 <= m1 < fids.len() && 0 <= f1 < fids[m1]@.len() && 0 <= m2 < fids.len() && 0 <= f2 < fids[m2]@.len()
        && (#[trigger] fids[m1]@[f1]) is Some && (#[trigger] fids[m2]@[f2]) is Some && (m1 != m2 || f1 != f2)
        ==> fids[m1]@[f1]->Some_0@ != fids[m2]@[f2]->Some_0@
    &&& forall|x: Seq<char>| #[trigger] after.contains(x) <==> (before.contains(x) || rows_have(fids, x))
}

/// The ids of one row, in face order.
pub open spec fn row_ids(row: Seq<Option<std::string::String>>) -> Seq<Seq<char>>
    decreases row.len(),
{
    if row.len() == 0 {
        Seq::empty()
    } else {
        match row.last() {
            Some(s) => row_ids(row.drop_last()).push(s@),
            None => row_ids(row.drop_last()),
        }
    }
}

/// The ids of all rows, row after row, each in face order.
pub open spec fn rows_ids(rows: Seq<Vec<Option<std::string::String>>>) -> Seq<Seq<char>>
    decreases rows.len(),
{
    if rows.len() == 0 {
        Seq::empty()
    } else {
        rows_ids(rows.drop_last()) + row_ids(rows.last()@)
    }
}

/// Allocate an id for each face of one row that has a surface. The
/// allocator stands `n0` allocations after `(t0, c0)`; the row's ids are the
/// allocations that follow.
fn alloc_row(surfs: &Vec<Option<usize>>, ids: &mut IdAlloc, Ghost(t0): Ghost<Set<Seq<char>>>, Ghost(c0): Ghost<nat>, Ghost(n0): Ghost<nat>)
    -> (row: Vec<Option<std::string::String>>)
    requires
        old(ids).wf(),
        old(ids).taken().len() + surfs@.len() < usize::MAX,
        old(ids).taken() == alloc_after(t0, c0, n0).0,
        old(ids).counter() == alloc_after(t0, c0, n0).1,
    ensures
        allocated(t0, c0, n0) + row_ids(row@) == allocated(t0, c0, n0 + row_ids(row@).len()),
        final(ids).taken() == alloc_after(t0, c0, n0 + row_ids(row@).len()).0,
        final(ids).counter() == alloc_after(t0, c0, n0 + row_ids(row@).len()).1,
        final(ids).wf(),
        row@.len() == surfs@.len(),
        forall|f: int| 0 <= f < row@.len() ==> ((#[trigger] row@[f]) is Some <==> surfs@[f] is Some),
        forall|f: int| 0 <= f < row@.len() && (#[trigger] row@[f]) is Some ==> !old(ids).taken().contains(row@[f]->Some_0@),
        forall|f1: int, f2: int| 0 <= f1 < row@.len() && 0 <= f2 < row@.len() && f1 != f2
            && (#[trigger] row@[f1]) is Some && (#[trigger] row@[f2]) is Some
            ==> row@[f1]->Some_0@ != row@[f2]->Some_0@,
        forall|x: Seq<char>| #[trigger] final(ids).taken().contains(x) <==> (old(ids).taken().contains(x) || row_has(row@, x)),
        final(ids).taken().len() <= old(ids).taken().len() + surfs@.len(),
{
    proof {
        ids.lemma_taken_finite();
    }
    let ghost tz = ids.taken();
    let mut row: Vec<Option<std::string::String>> = Vec::new();
    let mut i: usize = 0;
    assert(allocated(t0, c0, n0) + row_ids(row@) =~= allocated(t0, c0, n0));
    while i < surfs.len()
        invariant
            i <= surfs@.len(),
            ids.wf(),
            tz == old(ids).taken(),
            tz.finite(),
            tz.len() + surfs@.len() < usize::MAX,
            ids.taken().len() <= tz.len() + i,
            allocated(t0, c0, n0) + row_ids(row@) == allocated(t0, c0, n0 + row_ids(row@).len()),
            ids.taken() == alloc_after(t0, c0, n0 + row_ids(row@).len()).0,
            ids.counter() == alloc_after(t0, c0, n0 + row_ids(row@).len()).1,
            row@.len() == i,
            forall|f: int| 0 <= f < i ==> ((#[trigger] row@[f]) is Some <==> surfs@[f] is Some),
            forall|f: int| 0 <= f < i && (#[trigger] row@[f]) is Some ==> !tz.contains(row@[f]->Some_0@),
            forall|f1: int, f2: int| 0 <= f1 < i && 0 <= f2 < i && f1 != f2
                && (#[trigger] row@[f1]) is Some && (#[trigger] row@[f2]) is Some
                ==> row@[f1]->Some_0@ != row@[f2]->Some_0@,
            forall|x: Seq<char>| #[trigger] ids.taken().contains(x) <==> (tz.contains(x) || row_has(row@, x)),
        decreases surfs.len() - i,
    {
        let ghost before = row@;
        let ghost tb = ids.taken();
        match surfs[i] {
            Some(_) => {
                proof {
                    ids.lemma_taken_finite();
                }
                let ghost m = n0 + row_ids(before).len();
                let id = ids.next_id();
                let ghost text = id@;
                row.push(Some(id));
                proof {
                    assert(row@.drop_last() =~= before);
                    assert(row_ids(row@) == row_ids(before).push(text));
                    assert(allocated(t0, c0, m + 1) == allocated(t0, c0, m).push(text));
                    assert(allocated(t0, c0, n0) + row_ids(row@) =~= (allocated(t0, c0, n0) + row_ids(before)).push(text));
                    assert(row@[i as int] is Some && row@[i as int]->Some_0@ == text);
                    assert(!tb.contains(text));
                    assert forall|f: int| 0 <= f < i && (#[trigger] row@[f]) is Some implies row@[f]->Some_0@ != text by {
                        assert(row@[f] == before[f]);
                        assert(row_has(before, before[f]->Some_0@));
                        assert(tb.contains(before[f]->Some_0@));
                    }
                    assert forall|x: Seq<char>| #[trigger] ids.taken().contains(x) <==> (tz.contains(x) || row_has(row@, x)) by {
                        if row_has(row@, x) {
                            let f = choose|f: int| 0 <= f < row@.len() && (#[trigger] row@[f]) is Some && row@[f]->Some_0@ == x;
                            if f < i {
                                assert(row@[f] == before[f]);
                                assert(row_has(before, x));
                            }
                        }
                        if row_has(before, x) {
                            let f = choose|f: int| 0 <= f < before.len() && (#[trigger] before[f]) is Some && before[f]->Some_0@ == x;
                            assert(row@[f] == before[f]);
                            assert(row_has(row@, x));
                        }
                        if x == text {
                            assert(row_has(row@, x));
                        }
                    }
                    assert(tb.finite());
                    assert(ids.taken() == tb.insert(text));
                    assert(ids.taken().len() == tb.len() + 1);
                }
            },
            None => {
                row.push(None);
                proof {
                    assert(row@.drop_last() =~= before);
                    assert(row_ids(row@) == row_ids(before));
                    assert forall|x: Seq<char>| row_has(row@, x) <==> row_has(before, x) by {
                        if row_has(row@, x) {
                            let f = choose|f: int| 0 <= f < row@.len() && (#[trigger] row@[f]) is Some && row@[f]->Some_0@ == x;
                            assert(f < i);
                            assert(row@[f] == before[f]);
                        }
                        if row_has(before, x) {
                            let f = choose|f: int| 0 <= f < before.len() && (#[trigger] before[f]) is Some && before[f]->Some_0@ == x;
                            assert(row@[f] == before[f]);
                        }
                    }
                }
            },
        }
        i = i + 1;
    }
    row
}

proof fn lemma_rows_len_prefix<T>(rows: Seq<Seq<T>>, m: int)
    requires
        0 <= m < rows.len(),
    ensures
        rows_len(rows.take(m + 1)) == rows_len(rows.take(m)) + rows[m].len(),
        rows_len(rows.take(m + 1)) <= rows_len(rows),
    decreases rows.len() - m,
{
    assert(rows.take(m + 1).drop_last() =~= rows.take(m));
    if m + 1 < rows.len() {
        lemma_rows_len_prefix(rows, m + 1);
    } else {
        assert(rows.take(m + 1) =~= rows);
    }
}

/// Allocate the ids of every row.
fn alloc_rows(surfaces: &Vec<Vec<Option<usize>>>, ids: &mut IdAlloc) -> (fids: Vec<Vec<Option<std::string::String>>>)
    requires
        old(ids).wf(),
        old(ids).taken().len() + rows_len(surfaces_v(surfaces@)) < usize::MAX,
    ensures
        final(ids).wf(),
        ids_fit(fids@, surfaces_v(surfaces@), old(ids).taken(), final(ids).taken()),
        rows_ids(fids@) == allocated(old(ids).taken(), old(ids).counter(), rows_ids(fids@).len()),
        final(ids).taken() == alloc_after(old(ids).taken(), old(ids).counter(), rows_ids(fids@).len()).0,
        final(ids).counter() == alloc_after(old(ids).taken(), old(ids).counter(), rows_ids(fids@).len()).1,
{
    proof {
        ids.lemma_taken_finite();
    }
    let ghost t0 = ids.taken();
    let ghost c0 = ids.counter();
    let ghost ss = surfaces_v(surfaces@);
    let mut fids: Vec<Vec<Option<std::string::String>>> = Vec::new();
    let mut m: usize = 0;
    assert(ss.take(0) =~= Seq::<Seq<Option<nat>>>::empty());
    assert(allocated(t0, c0, 0) == Seq::<Seq<char>>::empty());
    while m < surfaces.len()
        invariant
            m <= surfaces@.len(),
            ss == surfaces_v(surfaces@),
            ss.len() == surfaces@.len(),
            ids.wf(),
            t0 == old(ids).taken(),
            t0.finite(),
            t0.len() + rows_len(ss) < usize::MAX,
            ids.taken().len() <= t0.len() + rows_len(ss.take(m as int)),
            ids_fit(fids@, ss.take(m as int), t0, ids.taken()),
            c0 == old(ids).counter(),
            rows_ids(fids@) == allocated(t0, c0, rows_ids(fids@).len()),
            ids.taken() == alloc_after(t0, c0, rows_ids(fids@).len()).0,
            ids.counter() == alloc_after(t0, c0, rows_ids(fids@).len()).1,
        decreases surfaces.len() - m,
    {
        proof {
            lemma_rows_len_prefix(ss, m as int);
            ids.lemma_taken_finite();
        }
        let ghost tb = ids.taken();
        let ghost before = fids@;
        let ghost n0 = rows_ids(fids@).len();
        let row = alloc_row(&surfaces[m], ids, Ghost(t0), Ghost(c0), Ghost(n0));
        assert(ss[m as int] == idx_view(surfaces@[m as int]@));
        fids.push(row);
        proof {
            assert(fids@.drop_last() =~= before);
            assert(rows_ids(fids@) == rows_ids(before) + row_ids(row@));
            let prev = ss.take(m as int);
            let cur = ss.take(m + 1);
            assert(cur =~= prev.push(ss[m as int]));
            let fv = fids@;
            assert(fv.drop_last() =~= before);
            assert(fv[m as int] == row);
            assert forall|q: int| 0 <= q < fv.len() implies (#[trigger] fv[q])@.len() == cur[q].len() by {
                if q < m {
                    assert(fv[q] == before[q]);
                }
            }
            assert forall|q: int, f: int| 0 <= q < fv.len() && 0 <= f < fv[q]@.len()
                implies ((#[trigger] fv[q]@[f]) is Some <==> cur[q][f] is Some) by {
                if q < m {
                    assert(fv[q] == before[q]);
                } else {
                    assert(idx_view(surfaces@[m as int]@)[f] == match surfaces@[m as int]@[f] { Some(i) => Some(i as nat), None => None });
                }
            }
            assert forall|q: int, f: int| 0 <= q < fv.len() && 0 <= f < fv[q]@.len() && (#[trigger] fv[q]@[f]) is Some
                implies !t0.contains(fv[q]@[f]->Some_0@) by {
                if q < m {
                    assert(fv[q] == before[q]);
                } else {
                    assert(!tb.contains(fv[q]@[f]->Some_0@));
                }
            }
            assert forall|m1: int, f1: int, m2: int, f2: int|
                0 <= m1 < fv.len() && 0 <= f1 < fv[m1]@.len() && 0 <= m2 < fv.len() && 0 <= f2 < fv[m2]@.len()
                && (#[trigger] fv[m1]@[f1]) is Some && (#[trigger] fv[m2]@[f2]) is Some && (m1 != m2 || f1 != f2)
                implies fv[m1]@[f1]->Some_0@ != fv[m2]@[f2]->Some_0@ by {
                if m1 < m && m2 < m {
                    assert(fv[m1] == before[m1]);
                    assert(fv[m2] == before[m2]);
                } else if m1 < m {
                    assert(fv[m1] == before[m1]);
                    assert(row_has(before[m1]@, fv[m1]@[f1]->Some_0@));
                    assert(rows_have(before, fv[m1]@[f1]->Some_0@));
                    assert(tb.contains(fv[m1]@[f1]->Some_0@));
                } else if m2 < m {
                    assert(fv[m2] == before[m2]);
                    assert(row_has(before[m2]@, fv[m2]@[f2]->Some_0@));
                    assert(rows_have(before, fv[m2]@[f2]->Some_0@));
                    assert(tb.contains(fv[m2]@[f2]->Some_0@));
                }
            }
            assert forall|x: Seq<char>| #[trigger] ids.taken().contains(x) <==> (t0.contains(x) || rows_have(fv, x)) by {
                if rows_have(fv, x) {
                    let q = choose|q: int| 0 <= q < fv.len() && row_has((#[trigger] fv[q])@, x);
                    if q < m {
                        assert(fv[q] == before[q]);
                        assert(rows_have(before, x));
                    }
                }
                if rows_have(before, x) {
                    let q = choose|q: int| 0 <= q < before.len() && row_has((#[trigger] before[q])@, x);
                    assert(fv[q] == before[q]);
                    assert(rows_have(fv, x));
                }
                if row_has(row@, x) {
                    assert(rows_have(fv, x));
                }
            }
        }
        m = m + 1;
    }
    assert(ss.take(surfaces.len() as int) =~= ss);
    fids
}

/// What the solid emitter writes: the members' shells, each face's surface
/// and, for each face that has one, the generated `gml:id` of its polygon.
#[derive(Debug)]
pub struct SolidPlan {
    /// Per member solid (one for a Solid): its shells' faces.
    pub members: Vec<Vec<Vec<Face>>>,
    /// Per member: each face's semantic surface, in shell-concatenation order.
    pub surfaces: Vec<Vec<Option<usize>>>,
    /// A CompositeSolid: one `gml:solidMember` per member.
    pub composite: bool,
    /// Per member: each face's polygon id (faces without a surface are
    /// written inline and have none).
    pub face_ids: Vec<Vec<Option<std::string::String>>>,
}

/// Plan a Solid/CompositeSolid with semantics: partition it into members and
/// shells, resolve each face's surface, then allocate a `gml:id` for every
/// face that has one, in member-then-face order. A refused layout (see
/// [`solid_layout`]) is an error and allocates nothing.
pub fn plan_solid_semantics(kind: &DecodedKind, props: Option<&JsonValue>, sem: &Semantics, ids: &mut IdAlloc) -> (r: Result<SolidPlan>)
    requires
        old(ids).wf(),
        old(ids).taken().len() + face_count(*kind) < usize::MAX,
    ensures
        final(ids).wf(),
        match layout_spec(*kind, opt_view(props), sem.values@, sem.surfaces@.len() as nat) {
            Ok((ms, ss, comp)) => r matches Ok(p) && members_dv(p.members@) == ms && surfaces_v(p.surfaces@) == ss
                && p.composite == comp && ids_fit(p.face_ids@, ss, old(ids).taken(), final(ids).taken())
                && rows_ids(p.face_ids@) == allocated(old(ids).taken(), old(ids).counter(), rows_ids(p.face_ids@).len())
                && final(ids).taken() == alloc_after(old(ids).taken(), old(ids).counter(), rows_ids(p.face_ids@).len()).0
                && final(ids).counter() == alloc_after(old(ids).taken(), old(ids).counter(), rows_ids(p.face_ids@).len()).1,
            Err(k) => refused_as(r, k) && final(ids).taken() == old(ids).taken() && final(ids).counter() == old(ids).counter(),
        },
{
    let (members, surfaces, composite) = solid_layout(kind, props, &sem.values, sem.surfaces.len())?;
    proof {
        lemma_layout_len(*kind, opt_view(props), sem.values@, sem.surfaces@.len() as nat);
    }
    let face_ids = alloc_rows(&surfaces, ids);
    Ok(SolidPlan { members, surfaces, composite, face_ids })
}

// ------------------------------------------------------------ boundedBy ----

/// The faces of row `m` whose surface is `i`, as (member, face) positions.
pub open spec fn hits(row: Seq<Option<nat>>, m: nat, i: nat) -> Seq<(nat, nat)>
    decreases row.len(),
{
    if row.len() == 0 {
        Seq::empty()
    } else {
        let h = hits(row.drop_last(), m, i);
        if row.last() == Some(i) { h.push((m, (row.len() - 1) as nat)) } else { h }
    }
}

/// The faces of surface `i` across all members, in member-then-face order.
pub open spec fn surface_faces(ss: Seq<Seq<Option<nat>>>, i: nat) -> Seq<(nat, nat)>
    decreases ss.len(),
{
    if ss.len() == 0 {
        Seq::empty()
    } else {
        surface_faces(ss.drop_last(), i) + hits(ss.last(), (ss.len() - 1) as nat, i)
    }
}

pub open spec fn pairs_view(v: Seq<(usize, usize)>) -> Seq<(nat, nat)> {
    v.map_values(|p: (usize, usize)| (p.0 as nat, p.1 as nat))
}

/// The faces each `bldg:boundedBy` surface holds: for each surface index,
/// in order, the (member, face) positions of the faces assigned to it.
pub fn boundedby_groups(surfaces: &Vec<Vec<Option<usize>>>, nsurfaces: usize) -> (g: Vec<Vec<(usize, usize)>>)
    ensures
        g@.len() == nsurfaces,
        forall|i: int| 0 <= i < nsurfaces ==> pairs_view((#[trigger] g@[i])@) == surface_faces(surfaces_v(surfaces@), i as nat),
{
    let ghost ss = surfaces_v(surfaces@);
    let mut g: Vec<Vec<(usize, usize)>> = Vec::new();
    let mut i: usize = 0;
    while i < nsurfaces
        invariant
            i <= nsurfaces,
            ss == surfaces_v(surfaces@),
            g@.len() == i,
            forall|k: int| 0 <= k < i ==> pairs_view((#[trigger] g@[k])@) == surface_faces(ss, k as nat),
        decreases nsurfaces - i,
    {
        let mut polys: Vec<(usize, usize)> = Vec::new();
        let mut m: usize = 0;
        assert(ss.take(0) =~= Seq::<Seq<Option<nat>>>::empty());
        assert(pairs_view(polys@) =~= Seq::<(nat, nat)>::empty());
        while m < surfaces.len()
            invariant
                m <= surfaces@.len(),
                i < nsurfaces,
                ss == surfaces_v(surfaces@),
                ss.len() == surfaces@.len(),
                pairs_view(polys@) == surface_faces(ss.take(m as int), i as nat),
            decreases surfaces.len() - m,
        {
            let row = &surfaces[m];
            let ghost rv = ss[m as int];
            assert(rv == idx_view(row@));
            let ghost base = pairs_view(polys@);
            let mut f: usize = 0;
            assert(rv.take(0) =~= Seq::<Option<nat>>::empty());
            assert(base + hits(rv.take(0), m as nat, i as nat) =~= base);
            while f < row.len()
                invariant
                    f <= row@.len(),
                    rv == idx_view(row@),
                    rv.len() == row@.len(),
                    pairs_view(polys@) == base + hits(rv.take(f as int), m as nat, i as nat),
                decreases row.len() - f,
            {
                assert(rv.take(f + 1).drop_last() =~= rv.take(f as int));
                assert(rv.take(f + 1).last() == rv[f as int]);
                let ghost pv = polys@;
                if row[f] == Some(i) {
                    polys.push((m, f));
                    proof {
                        assert(polys@.drop_last() =~= pv);
                        assert(pairs_view(polys@) =~= pairs_view(pv).push((m as nat, f as nat)));
                    }
                } else {
                    assert(rv[f as int] != Some(i as nat));
                }
                f = f + 1;
            }
            assert(rv.take(row.len() as int) =~= rv);
            assert(ss.take(m + 1).drop_last() =~= ss.take(m as int));
            assert(ss.take(m + 1).last() == rv);
            m = m + 1;
        }
        assert(ss.take(surfaces.len() as int) =~= ss);
        g.push(polys);
        i = i + 1;
    }
    g
}

// ------------------------------------------------------------ MultiSurface ----

/// The positions of the faces whose surface is `i`.
pub open spec fn positions(row: Seq<Option<nat>>, i: nat) -> Seq<nat>
    decreases row.len(),
{
    if row.len() == 0 {
        Seq::empty()
    } else {
        let p = positions(row.drop_last(), i);
        if row.last() == Some(i) { p.push((row.len() - 1) as nat) } else { p }
    }
}

/// The number of faces without a surface.
pub open spec fn nulls(row: Seq<Option<nat>>) -> nat
    decreases row.len(),
{
    if row.len() == 0 {
        0
    } else {
        nulls(row.drop_last()) + if row.last() is None { 1nat } else { 0nat }
    }
}

proof fn lemma_nulls_le(row: Seq<Option<nat>>)
    ensures
        nulls(row) <= row.len(),
    decreases row.len(),
{
    if row.len() > 0 {
        lemma_nulls_le(row.drop_last());
    }
}

/// Plan a semantics-bearing MultiSurface (written without a solid): resolve
/// its flat `values` (see [`multisurface_face_surfaces`]) and give, for each
/// surface index in order, the positions of its faces. A face without a
/// surface has no CityGML home here: it is dropped and counted in the
/// report. Values that do not resolve are a `Geometry` error and count
/// nothing.
pub fn plan_multisurface_semantics(values: &JsonValue, nfaces: usize, nsurfaces: usize, report: &mut WriteReport) -> (r: Result<Vec<Vec<usize>>>)
    requires
        old(report).multisurface_null_faces_dropped + nfaces <= usize::MAX,
    ensures
        match multisurface_spec(values@, nfaces as nat, nsurfaces as nat) {
            None => is_geometry_err(r) && *final(report) == *old(report),
            Some(x) => r matches Ok(g) && g@.len() == nsurfaces
                && (forall|i: int| 0 <= i < nsurfaces ==> (#[trigger] g@[i])@.map_values(|p: usize| p as nat) == positions(x, i as nat))
                && *final(report) == (WriteReport {
                    multisurface_null_faces_dropped: (old(report).multisurface_null_faces_dropped + nulls(x)) as usize,
                    ..*old(report)
                }),
        },
{
    let surfaces = multisurface_face_surfaces(values, nfaces, nsurfaces)?;
    let ghost x = idx_view(surfaces@);
    proof {
        lemma_leaves_len_ms(values@, nfaces as nat, nsurfaces as nat);
        lemma_nulls_le(x);
    }
    let mut count: usize = 0;
    let mut f: usize = 0;
    assert(x.take(0) =~= Seq::<Option<nat>>::empty());
    while f < surfaces.len()
        invariant
            f <= surfaces@.len(),
            x == idx_view(surfaces@),
            x.len() == surfaces@.len(),
            count == nulls(x.take(f as int)),
        decreases surfaces.len() - f,
    {
        assert(x.take(f + 1).drop_last() =~= x.take(f as int));
        assert(x.take(f + 1).last() == x[f as int]);
        proof {
            lemma_nulls_le(x.take(f as int));
        }
        if surfaces[f].is_none() {
            count = count + 1;
        }
        f = f + 1;
    }
    assert(x.take(surfaces.len() as int) =~= x);
    report.multisurface_null_faces_dropped = report.multisurface_null_faces_dropped + count;
    let mut g: Vec<Vec<usize>> = Vec::new();
    let mut i: usize = 0;
    while i < nsurfaces
        invariant
            i <= nsurfaces,
            x == idx_view(surfaces@),
            x.len() == surfaces@.len(),
            g@.len() == i,
            forall|k: int| 0 <= k < i ==> (#[trigger] g@[k])@.map_values(|p: usize| p as nat) == positions(x, k as nat),
        decreases nsurfaces - i,
    {
        let mut ps: Vec<usize> = Vec::new();
        let mut f: usize = 0;
        assert(x.take(0) =~= Seq::<Option<nat>>::empty());
        assert(ps@.map_values(|p: usize| p as nat) =~= Seq::<nat>::empty());
        while f < surfaces.len()
            invariant
                f <= surfaces@.len(),
                i < nsurfaces,
                x == idx_view(surfaces@),
                x.len() == surfaces@.len(),
                ps@.map_values(|p: usize| p as nat) == positions(x.take(f as int), i as nat),
            decreases surfaces.len() - f,
        {
            assert(x.take(f + 1).drop_last() =~= x.take(f as int));
            assert(x.take(f + 1).last() == x[f as int]);
            let ghost before = ps@;
            if surfaces[f] == Some(i) {
                ps.push(f);
                assert(ps@.map_values(|p: usize| p as nat) =~= before.map_values(|p: usize| p as nat).push(f as nat));
            } else {
                assert(x[f as int] != Some(i as nat));
            }
            f = f + 1;
        }
        assert(x.take(surfaces.len() as int) =~= x);
        g.push(ps);
        i = i + 1;
    }
    Ok(g)
}

proof fn lemma_leaves_len_ms(values: JsonView, nfaces: nat, n: nat)
    ensures
        multisurface_spec(values, nfaces, n) matches Some(x) ==> x.len() == nfaces,
{
    match values {
        JsonView::Array(vs) => lemma_leaves_len(vs, n),
        _ => {},
    }
}

} // verus!
