//! Shell partitions and vertex pools used when a stored geometry is turned
//! back into CityJSON boundaries: per-shell face counts read from
//! `geometry_properties`, the partition of a flat face list into shells, the
//! per-shell drop counts, index remapping into a feature's vertex pool, and
//! order-preserving grouping.

use vstd::prelude::*;
use crate::error::{CityParquetError, Result, message_of};
use crate::json::{JsonNumber, JsonValue, JsonView, NumView, get_spec, items_view, lemma_items_view, clone_json};
use crate::shape::Face;
use crate::text::{owned, decimal, decimal_string, str_eq};

verus! {

/// The sum of a list of counts.
pub open spec fn total(counts: Seq<usize>) -> nat
    decreases counts.len(),
{
    if counts.len() == 0 {
        0
    } else {
        total(counts.drop_last()) + (counts.last() as nat)
    }
}

/// The concatenation of a list of lists.
pub open spec fn concat<T>(parts: Seq<Seq<T>>) -> Seq<T>
    decreases parts.len(),
{
    if parts.len() == 0 {
        Seq::empty()
    } else {
        concat(parts.drop_last()) + parts.last()
    }
}

/// `s` cut into consecutive pieces of `counts` lengths, in order.
pub open spec fn split_by<T>(s: Seq<T>, counts: Seq<usize>) -> Seq<Seq<T>> {
    Seq::new(counts.len(), |i: int| s.subrange(total(counts.take(i)) as int, total(counts.take(i + 1)) as int))
}

/// The shells of a flat face list: one shell of all faces without counts,
/// else the pieces of the counted lengths.
pub open spec fn shells_of<T>(s: Seq<T>, counts: Option<Seq<usize>>) -> Seq<Seq<T>> {
    match counts {
        None => seq![s],
        Some(c) => split_by(s, c),
    }
}

pub proof fn lemma_total_prefix(counts: Seq<usize>, i: int)
    requires
        0 <= i < counts.len(),
    ensures
        total(counts.take(i + 1)) == total(counts.take(i)) + counts[i],
{
    assert(counts.take(i + 1).drop_last() =~= counts.take(i));
}

pub proof fn lemma_total_mono(counts: Seq<usize>, i: int)
    requires
        0 <= i <= counts.len(),
    ensures
        total(counts.take(i)) <= total(counts),
    decreases counts.len() - i,
{
    if i < counts.len() {
        lemma_total_prefix(counts, i);
        lemma_total_mono(counts, i + 1);
    } else {
        assert(counts.take(i) =~= counts);
    }
}

pub(crate) fn schema_err(m: &str) -> (e: CityParquetError)
    ensures
        e is Schema,
        message_of(e) == m@,
{
    CityParquetError::Schema(owned(m))
}

/// The faces of each shell as a list of views.
pub open spec fn shells_view(shells: Seq<Vec<Face>>) -> Seq<Seq<Face>> {
    shells.map_values(|s: Vec<Face>| s@)
}

/// The error for shell counts that do not add up to the face total: it gives
/// both numbers, or says the counts overflow when their sum does not fit.
pub open spec fn count_refusal(sum: nat, nfaces: nat, e: CityParquetError) -> bool {
    &&& e is Schema
    &&& if sum <= usize::MAX {
        message_of(e) == "shells counts sum to "@ + decimal(sum) + " but the stored geometry has "@
            + decimal(nfaces) + " faces"@
    } else {
        message_of(e) == "shells counts overflow usize"@
    }
}

/// Partition a flat face list into shells of `counts` faces each, in order;
/// without counts, every face goes into one shell. Counts that do not sum to
/// exactly the face total are a `Schema` error: mis-partitioning, or dropping
/// trailing faces, would corrupt the geometry.
pub fn partition_shells(faces: Vec<Face>, counts: Option<&[usize]>) -> (r: Result<Vec<Vec<Face>>>)
    ensures
        match counts {
            None => r matches Ok(shells) && shells@.len() == 1 && shells@[0]@ == faces@,
            Some(c) => if total(c@) == faces@.len() {
                r matches Ok(shells) && shells@.len() == c@.len()
                    && (forall|i: int| 0 <= i < c@.len() ==> (#[trigger] shells@[i])@.len() == c@[i])
                    && concat(shells_view(shells@)) == faces@
                    && shells_view(shells@) == split_by(faces@, c@)
            } else {
                r matches Err(e) && count_refusal(total(c@), faces@.len(), e)
            },
        },
{
    let c = match counts {
        None => {
            let mut one: Vec<Vec<Face>> = Vec::new();
            one.push(faces);
            return Ok(one);
        },
        Some(c) => c,
    };
    let nfaces: usize = faces.len();
    let mut sum: usize = 0;
    let mut i: usize = 0;
    assert(c@.take(0) =~= Seq::<usize>::empty());
    while i < c.len()
        invariant
            i <= c.len(),
            counts matches Some(cc) && cc@ == c@,
            nfaces == faces@.len(),
            sum == total(c@.take(i as int)),
        decreases c.len() - i,
    {
        proof {
            lemma_total_prefix(c@, i as int);
        }
        match sum.checked_add(c[i]) {
            Some(s) => sum = s,
            None => {
                proof {
                    lemma_total_mono(c@, i + 1);
                    assert(counts is Some);
                    assert(total(c@) > usize::MAX);
                    assert(faces@.len() <= usize::MAX);
                }
                return Err(schema_err("shells counts overflow usize"));
            },
        }
        i = i + 1;
    }
    assert(c@.take(c.len() as int) =~= c@);
    if sum != faces.len() {
        let mut m = owned("shells counts sum to ");
        m.push_str(decimal_string(sum as u64).as_str());
        m.push_str(" but the stored geometry has ");
        m.push_str(decimal_string(nfaces as u64).as_str());
        m.push_str(" faces");
        return Err(CityParquetError::Schema(m));
    }
    let mut shells: Vec<Vec<Face>> = Vec::new();
    let mut rest = faces;
    let ghost all = rest@;
    let mut s: usize = 0;
    let ghost mut off: int = 0;
    assert(shells_view(shells@) =~= Seq::<Seq<Face>>::empty());
    while s < c.len()
        invariant
            s <= c.len(),
            total(c@) == all.len(),
            off == total(c@.take(s as int)),
            shells@.len() == s,
            forall|q: int| 0 <= q < s ==> (#[trigger] shells@[q])@.len() == c@[q],
            forall|q: int| 0 <= q < s ==> (#[trigger] shells@[q])@ == all.subrange(total(c@.take(q)) as int, total(c@.take(q + 1)) as int),
            concat(shells_view(shells@)) == all.take(off),
            rest@ == all.skip(off),
            0 <= off <= all.len(),
        decreases c.len() - s,
    {
        proof {
            lemma_total_prefix(c@, s as int);
            lemma_total_mono(c@, s + 1);
        }
        let n = c[s];
        let mut shell: Vec<Face> = Vec::new();
        // take the first n faces of rest, keeping the remainder
        let mut tail = rest.split_off(n);
        std::mem::swap(&mut shell, &mut rest);
        std::mem::swap(&mut rest, &mut tail);
        assert(shell@ =~= all.subrange(off, off + n));
        let ghost before = shells_view(shells@);
        shells.push(shell);
        proof {
            assert(shells_view(shells@) =~= before.push(all.subrange(off, off + n)));
            assert(shells_view(shells@).drop_last() =~= before);
            assert(all.take(off) + all.subrange(off, off + n) =~= all.take(off + n));
            off = off + n;
            assert(rest@ =~= all.skip(off));
        }
        s = s + 1;
    }
    assert(all.take(off) =~= all);
    assert(shells_view(shells@) =~= split_by(all, c@));
    Ok(shells)
}


// ------------------------------------------------ counts from properties ----

/// A non-negative integer that fits in `usize`.
pub open spec fn fits_usize(v: JsonView) -> bool {
    v matches JsonView::Number(NumView::PosInt(u)) && u <= usize::MAX
}

/// A JSON array of non-negative integers that fit in `usize`, as a list.
pub open spec fn usize_list(v: JsonView) -> Option<Seq<usize>> {
    match v {
        JsonView::Array(items) => if forall|i: int| 0 <= i < items.len() ==> fits_usize(#[trigger] items[i]) {
            Some(Seq::new(items.len(), |i: int| (items[i]->Number_0->PosInt_0) as usize))
        } else {
            None
        },
        _ => None,
    }
}

/// A JSON array of such arrays, as a list of lists.
pub open spec fn usize_lists(v: JsonView) -> Option<Seq<Seq<usize>>> {
    match v {
        JsonView::Array(items) => if forall|i: int| 0 <= i < items.len() ==> usize_list(#[trigger] items[i]) is Some {
            Some(Seq::new(items.len(), |i: int| usize_list(items[i])->Some_0))
        } else {
            None
        },
        _ => None,
    }
}

/// The `shells` member of a geometry's properties.
pub open spec fn shells_member(props: Option<JsonView>) -> Option<JsonView> {
    match props {
        Some(p) => get_spec(p, "shells"@),
        None => None,
    }
}

pub open spec fn opt_view(props: Option<&JsonValue>) -> Option<JsonView> {
    match props {
        Some(p) => Some(p@),
        None => None,
    }
}

fn to_usize_list(v: &JsonValue) -> (r: Option<Vec<usize>>)
    ensures
        match usize_list(v@) {
            None => r is None,
            Some(l) => r matches Some(x) && x@ == l,
        },
{
    let items = match v {
        JsonValue::Array(items) => items,
        _ => return None,
    };
    proof {
        lemma_items_view(items@);
    }
    let ghost iv = items_view(items@);
    let mut out: Vec<usize> = Vec::new();
    let mut i: usize = 0;
    while i < items.len()
        invariant
            i <= items.len(),
            v@ == JsonView::Array(iv),
            iv.len() == items@.len(),
            forall|j: int| 0 <= j < items@.len() ==> #[trigger] iv[j] == items@[j]@,
            out@.len() == i,
            forall|j: int| 0 <= j < i ==> fits_usize(#[trigger] iv[j]) && out@[j] == (iv[j]->Number_0->PosInt_0) as usize,
        decreases items.len() - i,
    {
        match &items[i] {
            JsonValue::Number(JsonNumber::PosInt(u)) => {
                if *u > usize::MAX as u64 {
                    assert(!fits_usize(iv[i as int]));
                    return None;
                }
                out.push(*u as usize);
            },
            _ => {
                assert(!fits_usize(iv[i as int]));
                return None;
            },
        }
        i = i + 1;
    }
    assert(out@ =~= usize_list(v@)->Some_0);
    Some(out)
}

/// The per-shell face counts of a single Solid, from `geometry_properties.shells`
/// (a flat array); `Ok(None)` when absent, a `Schema` error when malformed.
pub fn shell_faces_flat(props: Option<&JsonValue>) -> (r: Result<Option<Vec<usize>>>)
    ensures
        match shells_member(opt_view(props)) {
            None => r matches Ok(None),
            Some(v) => match usize_list(v) {
                Some(l) => r matches Ok(Some(x)) && x@ == l,
                None => r matches Err(CityParquetError::Schema(_)),
            },
        },
{
    let v = match props {
        None => return Ok(None),
        Some(p) => match p.get("shells") {
            None => return Ok(None),
            Some(v) => v,
        },
    };
    match to_usize_list(v) {
        Some(l) => Ok(Some(l)),
        None => Err(schema_err("geometry_properties shells is not an array of face counts")),
    }
}

/// The per-shell face counts of each solid of a MultiSolid/CompositeSolid
/// (an array of arrays); `Ok(None)` when absent, a `Schema` error when malformed.
pub fn shell_faces_nested(props: Option<&JsonValue>) -> (r: Result<Option<Vec<Vec<usize>>>>)
    ensures
        match shells_member(opt_view(props)) {
            None => r matches Ok(None),
            Some(v) => match usize_lists(v) {
                Some(l) => r matches Ok(Some(x)) && x@.len() == l.len()
                    && forall|i: int| 0 <= i < l.len() ==> (#[trigger] x@[i])@ == l[i],
                None => r matches Err(CityParquetError::Schema(_)),
            },
        },
{
    let v = match props {
        None => return Ok(None),
        Some(p) => match p.get("shells") {
            None => return Ok(None),
            Some(v) => v,
        },
    };
    let items = match v {
        JsonValue::Array(items) => items,
        _ => return Err(schema_err("geometry_properties shells is not an array of per-solid face counts")),
    };
    proof {
        lemma_items_view(items@);
    }
    let ghost iv = items_view(items@);
    let mut out: Vec<Vec<usize>> = Vec::new();
    let mut i: usize = 0;
    while i < items.len()
        invariant
            i <= items.len(),
            v@ == JsonView::Array(iv),
            shells_member(opt_view(props)) == Some(v@),
            iv.len() == items@.len(),
            forall|j: int| 0 <= j < items@.len() ==> #[trigger] iv[j] == items@[j]@,
            out@.len() == i,
            forall|j: int| 0 <= j < i ==> usize_list(#[trigger] iv[j]) == Some(out@[j]@),
        decreases items.len() - i,
    {
        match to_usize_list(&items[i]) {
            Some(l) => out.push(l),
            None => {
                assert(usize_list(iv[i as int]) is None);
                return Err(schema_err("geometry_properties shells is not an array of per-solid face counts"));
            },
        }
        i = i + 1;
    }
    Ok(Some(out))
}

// ------------------------------------------------------------ solids ----

/// Whether a geometry's properties say it is a `Solid`.
pub open spec fn says_solid(props: Option<JsonView>) -> bool {
    props matches Some(p) && get_spec(p, "type"@) == Some(JsonView::Str("Solid"@))
}

/// What writing a `PolyhedralSurface` as a solid makes of its flat face
/// list: `Err` unless its properties say `Solid`, a `Schema` error for
/// malformed shell counts, else the faces partitioned as `partition_shells`
/// does; a partition without any shell has no exterior to write.
pub open spec fn solid_shells_spec(faces: Seq<Face>, props: Option<JsonView>) -> std::result::Result<Seq<Seq<Face>>, ()> {
    if !says_solid(props) {
        Err(())
    } else {
        match shells_member(props) {
            None => Ok(seq![faces]),
            Some(v) => match usize_list(v) {
                None => Err(()),
                Some(c) => if total(c) == faces.len() && c.len() > 0 {
                    Ok(split_by(faces, c))
                } else {
                    Err(())
                },
            },
        }
    }
}

/// Properties that say `Solid` and list an empty shell-count array, beside
/// an empty face list.
pub open spec fn no_shells_listed(faces: Seq<Face>, props: Option<JsonView>) -> bool {
    &&& says_solid(props)
    &&& faces.len() == 0
    &&& match shells_member(props) {
        Some(v) => usize_list(v) == Some(Seq::<usize>::empty()),
        None => false,
    }
}

fn geometry_err(m: &str) -> (e: CityParquetError)
    ensures
        e is Geometry,
        message_of(e) == m@,
{
    CityParquetError::Geometry(owned(m))
}

/// The shells of a `PolyhedralSurface` written as a `gml:Solid`: the first
/// is the exterior shell, the rest are interior shells. Properties that do
/// not say `type: "Solid"` are a `Schema` error (the partition would
/// otherwise collapse a multi-shell solid into one shell); so are malformed
/// counts and counts that do not sum to the face total; counts that list no
/// shell at all are a `Geometry` error.
pub fn solid_shells(faces: Vec<Face>, props: Option<&JsonValue>) -> (r: Result<Vec<Vec<Face>>>)
    ensures
        match solid_shells_spec(faces@, opt_view(props)) {
            Ok(sh) => r matches Ok(shells) && shells_view(shells@) == sh && shells@.len() >= 1,
            Err(_) => r is Err,
        },
        !says_solid(opt_view(props)) ==> r matches Err(CityParquetError::Schema(_)),
        (r matches Err(CityParquetError::Geometry(_))) ==> no_shells_listed(faces@, opt_view(props)),
{
    let is_solid = match props {
        None => false,
        Some(p) => match p.get("type") {
            None => false,
            Some(t) => match t.as_str() {
                None => false,
                Some(s) => str_eq(s, "Solid"),
            },
        },
    };
    proof {
        reveal_strlit("Solid");
    }
    if !is_solid {
        return Err(schema_err("geometry_properties type is not Solid; a Solid needs its shell metadata"));
    }
    let counts = shell_faces_flat(props)?;
    let shells = match counts {
        None => partition_shells(faces, None)?,
        Some(c) => partition_shells(faces, Some(c.as_slice()))?,
    };
    if shells.len() == 0 {
        proof {
            let v = shells_member(opt_view(props))->Some_0;
            let c = usize_list(v)->Some_0;
            assert(c =~= Seq::<usize>::empty());
        }
        return Err(geometry_err("solid has no shells to write"));
    }
    Ok(shells)
}

// ------------------------------------------------------------ drops ----

/// How many of `dropped` lie in `[start, start + n)`.
pub open spec fn count_in(dropped: Seq<usize>, start: nat, n: nat) -> nat
    decreases dropped.len(),
{
    if dropped.len() == 0 {
        0
    } else {
        count_in(dropped.drop_last(), start, n) + if start <= dropped.last() < start + n { 1nat } else { 0nat }
    }
}

/// Count how many writer-dropped flat face positions fall inside one shell's
/// `[pos, pos + n)` range, advancing `pos` past the shell.
pub fn dropped_in_shell(dropped: &[usize], pos: &mut usize, n: usize) -> (r: usize)
    requires
        old(pos) + n <= usize::MAX,
    ensures
        *final(pos) == *old(pos) + n,
        r == count_in(dropped@, *old(pos) as nat, n as nat),
{
    let start = *pos;
    *pos = *pos + n;
    let end = start + n;
    let mut c: usize = 0;
    let mut i: usize = 0;
    assert(dropped@.take(0) =~= Seq::<usize>::empty());
    while i < dropped.len()
        invariant
            i <= dropped.len(),
            end == start + n,
            c == count_in(dropped@.take(i as int), start as nat, n as nat),
            c <= i,
        decreases dropped.len() - i,
    {
        assert(dropped@.take(i + 1).drop_last() =~= dropped@.take(i as int));
        let p = dropped[i];
        if p >= start && p < end {
            c = c + 1;
        }
        i = i + 1;
    }
    assert(dropped@.take(dropped.len() as int) =~= dropped@);
    c
}

/// The positions are in strictly ascending order.
pub open spec fn strictly_increasing(s: Seq<usize>) -> bool {
    forall|i: int, j: int| 0 <= i < j < s.len() ==> s[i] < s[j]
}

proof fn lemma_count_in_below(s: Seq<usize>, start: nat, n: nat, m: nat)
    requires
        m <= n,
        forall|k: int| 0 <= k < s.len() ==> s[k] < start + m,
    ensures
        count_in(s, start, n) == count_in(s, start, m),
    decreases s.len(),
{
    if s.len() > 0 {
        lemma_count_in_below(s.drop_last(), start, n, m);
    }
}

/// A shell of `n` faces loses at most `n` of them.
pub proof fn lemma_count_in_le(s: Seq<usize>, start: nat, n: nat)
    requires
        strictly_increasing(s),
    ensures
        count_in(s, start, n) <= n,
    decreases s.len(),
{
    if s.len() > 0 {
        let x = s.last();
        let d = s.drop_last();
        if start <= x && x < start + n {
            let m = (x - start) as nat;
            assert forall|k: int| 0 <= k < d.len() implies d[k] < start + m by {
                assert(d[k] == s[k]);
            }
            lemma_count_in_below(d, start, n, m);
            lemma_count_in_le(d, start, m);
        } else {
            lemma_count_in_le(d, start, n);
        }
    }
}

} // verus!
