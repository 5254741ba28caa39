//! `geometry_properties`: what a stored geometry's WKB cannot hold, recorded
//! beside it — the CityJSON type, the semantics (realigned to the stored
//! surfaces), the shell structure of solids (shells per solid, faces per
//! shell, counted over the stored faces), and what the writer dropped as
//! degenerate.

use vstd::prelude::*;
use crate::error::{CityParquetError, Result};
use crate::json::{
    JsonNumber, JsonValue, JsonView, NumView, clone_json, fields_view, items_view, json_view,
    lemma_fields_view, lemma_items_view,
};
use crate::shape::GeometryType;
use crate::shells::{count_in, dropped_in_shell, fits_usize, lemma_count_in_le, schema_err, strictly_increasing};
use crate::text::{owned, str_eq};

verus! {

// ------------------------------------------------------------ dropped surfaces ----

/// `values` without the entries at the positions in `dropped`, order kept.
pub open spec fn without<T>(values: Seq<T>, dropped: Seq<usize>) -> Seq<T>
    decreases values.len(),
{
    if values.len() == 0 {
        Seq::empty()
    } else {
        let w = without(values.drop_last(), dropped);
        if dropped.contains((values.len() - 1) as usize) {
            w
        } else {
            w.push(values.last())
        }
    }
}

fn contains_pos(dropped: &[usize], p: usize) -> (r: bool)
    ensures
        r == dropped@.contains(p),
{
    let mut i: usize = 0;
    while i < dropped.len()
        invariant
            i <= dropped@.len(),
            forall|j: int| 0 <= j < i ==> dropped@[j] != p,
        decreases dropped.len() - i,
    {
        if dropped[i] == p {
            return true;
        }
        i = i + 1;
    }
    false
}

/// Remove the entries at `dropped` (original positions, ascending) from a
/// per-surface array; positions beyond the array are ignored (a malformed
/// source array shorter than the boundaries).
pub fn remove_dropped_entries(values: &mut Vec<JsonValue>, dropped: &[usize])
    requires
        strictly_increasing(dropped@),
    ensures
        items_view(final(values)@) == without(items_view(old(values)@), dropped@),
{
    proof {
        lemma_items_view(values@);
    }
    let ghost ov = items_view(values@);
    let mut kept: Vec<JsonValue> = Vec::new();
    let mut k: usize = 0;
    assert(ov.take(0) =~= Seq::<JsonView>::empty());
    while k < values.len()
        invariant
            k <= values@.len(),
            values@ == old(values)@,
            ov == items_view(values@),
            ov.len() == values@.len(),
            forall|j: int| 0 <= j < values@.len() ==> #[trigger] ov[j] == values@[j]@,
            items_view(kept@) == without(ov.take(k as int), dropped@),
        decreases values.len() - k,
    {
        assert(ov.take(k + 1).drop_last() =~= ov.take(k as int));
        assert(ov.take(k + 1).last() == ov[k as int]);
        if !contains_pos(dropped, k) {
            let ghost before = kept@;
            kept.push(clone_json(&values[k]));
            proof {
                assert(kept@.drop_last() =~= before);
            }
        }
        k = k + 1;
    }
    assert(ov.take(values.len() as int) =~= ov);
    *values = kept;
}

/// The writer's per-surface drop positions index straight into this type's
/// per-surface appearance and semantics arrays: only the surface-list types
/// qualify (solids nest their values per shell).
pub fn drops_align_with_surface_arrays(gtype: GeometryType) -> (r: bool)
    ensures
        r == (gtype == GeometryType::MultiSurface || gtype == GeometryType::CompositeSurface),
{
    match gtype {
        GeometryType::MultiSurface | GeometryType::CompositeSurface => true,
        _ => false,
    }
}

/// The position of the first member named `key`.
pub open spec fn first_key(fields: Seq<(Seq<char>, JsonView)>, key: Seq<char>) -> Option<int>
    decreases fields.len(),
{
    if fields.len() == 0 {
        None
    } else if fields[0].0 == key {
        Some(0)
    } else {
        match first_key(fields.drop_first(), key) {
            Some(j) => Some(j + 1),
            None => None,
        }
    }
}

/// An object with the array under its first `values` member realigned.
pub open spec fn realign_values(v: JsonView, dropped: Seq<usize>) -> JsonView {
    match v {
        JsonView::Object(fields) => match first_key(fields, "values"@) {
            Some(i) => match fields[i].1 {
                JsonView::Array(items) => JsonView::Object(fields.update(i, ("values"@, JsonView::Array(without(items, dropped))))),
                _ => v,
            },
            None => v,
        },
        _ => v,
    }
}

pub(crate) fn find_key(fields: &Vec<(std::string::String, JsonValue)>, key: &str) -> (r: Option<usize>)
    ensures
        r matches Some(i) ==> i < fields@.len() && fields_view(fields@)[i as int].0 == key@
            && first_key(fields_view(fields@), key@) == Some(i as int),
        r is None ==> first_key(fields_view(fields@), key@) is None,
{
    proof {
        lemma_fields_view(fields@);
    }
    let ghost fv = fields_view(fields@);
    let mut i: usize = 0;
    assert(fv.skip(0) =~= fv);
    while i < fields.len()
        invariant
            i <= fields@.len(),
            fv == fields_view(fields@),
            fv.len() == fields@.len(),
            forall|j: int| 0 <= j < fields@.len() ==> #[trigger] fv[j] == (fields@[j].0@, fields@[j].1@),
            first_key(fv, key@) == match first_key(fv.skip(i as int), key@) {
                Some(j) => Some(j + i),
                None => None::<int>,
            },
        decreases fields.len() - i,
    {
        assert(fv.skip(i as int)[0] == fv[i as int]);
        assert(fv.skip(i as int).drop_first() =~= fv.skip(i + 1));
        if str_eq(fields[i].0.as_str(), key) {
            return Some(i);
        }
        i = i + 1;
    }
    assert(fv.skip(i as int) =~= Seq::<(Seq<char>, JsonView)>::empty());
    None
}

/// The object with the array under its first `values` member realigned;
/// anything else as it is.
fn realigned(v: &JsonValue, dropped: &[usize]) -> (r: JsonValue)
    requires
        strictly_increasing(dropped@),
    ensures
        r@ == realign_values(v@, dropped@),
{
    let fields = match v {
        JsonValue::Object(fields) => fields,
        _ => return clone_json(v),
    };
    proof {
        lemma_fields_view(fields@);
    }
    let ghost fv = fields_view(fields@);
    let i = match find_key(fields, "values") {
        Some(i) => i,
        None => return clone_json(v),
    };
    let items = match &fields[i].1 {
        JsonValue::Array(items) => items,
        _ => return clone_json(v),
    };
    let mut kept = copy_items(items);
    remove_dropped_entries(&mut kept, dropped);
    let ghost new_values = JsonView::Array(without(items_view(items@), dropped@));
    let out = replace_member(fields, i, JsonValue::Array(kept));
    JsonValue::Object(out)
}

/// Copies of a list of values.
fn copy_items(items: &Vec<JsonValue>) -> (r: Vec<JsonValue>)
    ensures
        items_view(r@) == items_view(items@),
{
    proof {
        lemma_items_view(items@);
    }
    let mut kept: Vec<JsonValue> = Vec::new();
    let mut q: usize = 0;
    while q < items.len()
        invariant
            q <= items@.len(),
            kept@.len() == q,
            forall|t: int| 0 <= t < q ==> (#[trigger] kept@[t])@ == items@[t]@,
        decreases items.len() - q,
    {
        kept.push(clone_json(&items[q]));
        q = q + 1;
    }
    proof {
        lemma_items_view(kept@);
        assert(items_view(kept@) =~= items_view(items@));
    }
    kept
}

/// An object's members with member `i`'s value replaced by `x`.
pub(crate) fn replace_member(fields: &Vec<(std::string::String, JsonValue)>, i: usize, x: JsonValue) -> (out: Vec<(std::string::String, JsonValue)>)
    requires
        i < fields@.len(),
    ensures
        fields_view(out@) == fields_view(fields@).update(i as int, (fields_view(fields@)[i as int].0, x@)),
{
    proof {
        lemma_fields_view(fields@);
    }
    let ghost fv = fields_view(fields@);
    let ghost xv = x@;
    let mut out: Vec<(std::string::String, JsonValue)> = Vec::new();
    let mut j: usize = 0;
    let mut replacement = Some(x);
    while j < fields.len()
        invariant
            j <= fields@.len(),
            i < fields@.len(),
            fv == fields_view(fields@),
            fv.len() == fields@.len(),
            forall|t: int| 0 <= t < fields@.len() ==> #[trigger] fv[t] == (fields@[t].0@, fields@[t].1@),
            j <= i ==> (replacement matches Some(y) && y@ == xv),
            out@.len() == j,
            forall|t: int| 0 <= t < j ==> (#[trigger] out@[t]).0@ == fv[t].0
                && out@[t].1@ == (if t == i { xv } else { fv[t].1 }),
        decreases fields.len() - j,
    {
        if j == i {
            let y = match replacement.take() {
                Some(y) => y,
                None => JsonValue::Null,
            };
            out.push((owned(fields[j].0.as_str()), y));
        } else {
            out.push((owned(fields[j].0.as_str()), clone_json(&fields[j].1)));
        }
        j = j + 1;
    }
    proof {
        lemma_fields_view(out@);
        assert(fields_view(out@) =~= fv.update(i as int, (fv[i as int].0, xv)));
    }
    out
}

/// Each theme of an appearance map with its `values` array realigned;
/// anything but an object as it is.
pub open spec fn realign_themes(v: JsonView, dropped: Seq<usize>) -> JsonView {
    match v {
        JsonView::Object(themes) => JsonView::Object(themes.map_values(|t: (Seq<char>, JsonView)| (t.0, realign_values(t.1, dropped)))),
        other => other,
    }
}

/// Realign every material/texture theme's per-surface `values` array after
/// the writer dropped `dropped` surface positions; a theme's scalar `value`
/// applies to all surfaces and needs nothing.
pub fn realign_appearance_themes(appearance: &mut JsonValue, dropped: &[usize])
    requires
        strictly_increasing(dropped@),
    ensures
        final(appearance)@ == realign_themes(old(appearance)@, dropped@),
{
    let replaced = match &*appearance {
        JsonValue::Object(themes) => {
            proof {
                lemma_fields_view(themes@);
            }
            let ghost tv = fields_view(themes@);
            let mut out: Vec<(std::string::String, JsonValue)> = Vec::new();
            let mut k: usize = 0;
            while k < themes.len()
                invariant
                    k <= themes@.len(),
                    tv == fields_view(themes@),
                    tv.len() == themes@.len(),
                    forall|j: int| 0 <= j < themes@.len() ==> #[trigger] tv[j] == (themes@[j].0@, themes@[j].1@),
                    strictly_increasing(dropped@),
                    out@.len() == k,
                    forall|j: int| 0 <= j < k ==> (#[trigger] out@[j]).0@ == tv[j].0 && out@[j].1@ == realign_values(tv[j].1, dropped@),
                decreases themes.len() - k,
            {
                let t = realigned(&themes[k].1, dropped);
                out.push((owned(themes[k].0.as_str()), t));
                k = k + 1;
            }
            proof {
                lemma_fields_view(out@);
                assert(fields_view(out@) =~= tv.map_values(|t: (Seq<char>, JsonView)| (t.0, realign_values(t.1, dropped@))));
            }
            Some(JsonValue::Object(out))
        },
        _ => None,
    };
    if let Some(nv) = replaced {
        *appearance = nv;
    }
}

// ------------------------------------------------------------ shell structure ----

/// `v` is a nested list, `d` arrays deep, of indices that fit `usize`.
pub open spec fn nested_ok(v: JsonView, d: nat) -> bool
    decreases d, 0nat,
{
    if d == 0 {
        fits_usize(v)
    } else {
        match v {
            JsonView::Array(items) => nested_items_ok(items, (d - 1) as nat),
            _ => false,
        }
    }
}

/// Every item is a nested list `d` arrays deep.
pub open spec fn nested_items_ok(items: Seq<JsonView>, d: nat) -> bool
    decreases d, items.len() + 1,
{
    if items.len() == 0 {
        true
    } else {
        nested_items_ok(items.drop_last(), d) && nested_ok(items.last(), d)
    }
}

pub proof fn lemma_nested_items(items: Seq<JsonView>, d: nat)
    ensures
        nested_items_ok(items, d) == forall|k: int| 0 <= k < items.len() ==> nested_ok(#[trigger] items[k], d),
    decreases items.len(),
{
    if items.len() > 0 {
        lemma_nested_items(items.drop_last(), d);
        if nested_items_ok(items, d) {
            assert forall|k: int| 0 <= k < items.len() implies nested_ok(#[trigger] items[k], d) by {
                if k < items.len() - 1 {
                    assert(items.drop_last()[k] == items[k]);
                }
            }
        }
        if forall|k: int| 0 <= k < items.len() ==> nested_ok(#[trigger] items[k], d) {
            assert forall|k: int| 0 <= k < items.drop_last().len() implies nested_ok(#[trigger] items.drop_last()[k], d) by {
                assert(items.drop_last()[k] == items[k]);
            }
            assert(nested_ok(items[items.len() - 1], d));
        }
    }
}

/// The items of an array (none for anything else).
pub open spec fn arr_items(v: JsonView) -> Seq<JsonView> {
    match v {
        JsonView::Array(items) => items,
        _ => Seq::empty(),
    }
}

/// The face count of each shell of a list of shells.
pub open spec fn shell_lens(shells: Seq<JsonView>) -> Seq<nat> {
    shells.map_values(|s: JsonView| arr_items(s).len())
}

/// The sum of a list of counts.
pub open spec fn sum_nat(s: Seq<nat>) -> nat
    decreases s.len(),
{
    if s.len() == 0 {
        0
    } else {
        s[0] + sum_nat(s.drop_first())
    }
}

/// The stored face count of each shell, its flat faces starting at `pos`:
/// its face count less the dropped positions that fall inside it.
pub open spec fn faces_after_drops(lens: Seq<nat>, dropped: Seq<usize>, pos: nat) -> Seq<nat>
    decreases lens.len(),
{
    if lens.len() == 0 {
        Seq::empty()
    } else {
        seq![(lens[0] - count_in(dropped, pos, lens[0])) as nat] + faces_after_drops(lens.drop_first(), dropped, pos + lens[0])
    }
}

/// The same per solid, the flat face positions running on across solids.
pub open spec fn solids_after_drops(sols: Seq<Seq<nat>>, dropped: Seq<usize>, pos: nat) -> Seq<Seq<nat>>
    decreases sols.len(),
{
    if sols.len() == 0 {
        Seq::empty()
    } else {
        seq![faces_after_drops(sols[0], dropped, pos)] + solids_after_drops(sols.drop_first(), dropped, pos + sum_nat(sols[0]))
    }
}

/// The shell face counts of each solid of a MultiSolid/CompositeSolid.
pub open spec fn solid_lens(solids: Seq<JsonView>) -> Seq<Seq<nat>> {
    solids.map_values(|sol: JsonView| shell_lens(arr_items(sol)))
}

/// The total face count over all solids.
pub open spec fn sum_sums(sols: Seq<Seq<nat>>) -> nat
    decreases sols.len(),
{
    if sols.len() == 0 {
        0
    } else {
        sum_nat(sols[0]) + sum_sums(sols.drop_first())
    }
}

/// A list of counts as a JSON array of integers.
pub open spec fn nats_json(s: Seq<nat>) -> JsonView {
    JsonView::Array(s.map_values(|x: nat| JsonView::Number(NumView::PosInt(x as u64))))
}

/// Shells per solid and faces per shell, the payload that lets a reader
/// re-partition a flattened `PolyhedralSurface` into shells.
pub struct SolidShellInfo {
    /// Number of shells per solid.
    pub counts: Vec<usize>,
    /// Stored faces per shell: a flat list for a Solid, one list per solid
    /// for a MultiSolid/CompositeSolid.
    pub faces: JsonValue,
}

fn nested_check(v: &JsonValue, d: usize) -> (r: bool)
    ensures
        r == nested_ok(v@, d as nat),
    decreases d,
{
    if d == 0 {
        return match v {
            JsonValue::Number(JsonNumber::PosInt(u)) => *u <= usize::MAX as u64,
            _ => false,
        };
    }
    match v {
        JsonValue::Array(items) => {
            proof {
                lemma_items_view(items@);
            }
            let ghost iv = items_view(items@);
            let mut k: usize = 0;
            while k < items.len()
                invariant
                    k <= items@.len(),
                    d > 0,
                    v@ == JsonView::Array(iv),
                    iv == items_view(items@),
                    iv.len() == items@.len(),
                    forall|j: int| 0 <= j < items@.len() ==> #[trigger] iv[j] == items@[j]@,
                    forall|j: int| 0 <= j < k ==> nested_ok(#[trigger] iv[j], (d - 1) as nat),
                decreases items.len() - k,
            {
                if !nested_check(&items[k], d - 1) {
                    proof {
                        lemma_nested_items(iv, (d - 1) as nat);
                        assert(!nested_ok(iv[k as int], (d - 1) as nat));
                        assert(!nested_items_ok(iv, (d - 1) as nat));
                        assert(v@ == JsonView::Array(iv));
                        assert(d as nat > 0);
                    }
                    return false;
                }
                k = k + 1;
            }
            proof {
                lemma_nested_items(iv, (d - 1) as nat);
            }
            true
        },
        _ => false,
    }
}

proof fn lemma_faces_after_drops_step(lens: Seq<nat>, dropped: Seq<usize>, pos: nat, i: int)
    requires
        0 <= i < lens.len(),
    ensures
        faces_after_drops(lens.skip(i), dropped, pos) == seq![(lens[i] - count_in(dropped, pos, lens[i])) as nat]
            + faces_after_drops(lens.skip(i + 1), dropped, pos + lens[i]),
        sum_nat(lens.skip(i)) == lens[i] + sum_nat(lens.skip(i + 1)),
{
    assert(lens.skip(i).drop_first() =~= lens.skip(i + 1));
    assert(lens.skip(i)[0] == lens[i]);
}

/// The stored face count of each shell of a list of shells whose flat faces
/// start at `*pos`, advancing `*pos` past them; `None` when the face
/// positions overflow `usize`.
fn shell_face_counts(shells: &Vec<JsonValue>, dropped: &[usize], pos: &mut usize) -> (r: Option<Vec<usize>>)
    requires
        strictly_increasing(dropped@),
        forall|k: int| 0 <= k < shells@.len() ==> (#[trigger] shells@[k])@ is Array,
    ensures
        match r {
            Some(v) => *old(pos) + sum_nat(shell_lens(items_view(shells@))) <= usize::MAX
                && *final(pos) == *old(pos) + sum_nat(shell_lens(items_view(shells@)))
                && v@.map_values(|x: usize| x as nat) == faces_after_drops(shell_lens(items_view(shells@)), dropped@, *old(pos) as nat),
            None => *old(pos) + sum_nat(shell_lens(items_view(shells@))) > usize::MAX,
        },
{
    proof {
        lemma_items_view(shells@);
    }
    let ghost lens = shell_lens(items_view(shells@));
    let ghost start = *pos as nat;
    let mut out: Vec<usize> = Vec::new();
    let mut i: usize = 0;
    assert(lens.skip(0) =~= lens);
    assert(out@.map_values(|x: usize| x as nat) =~= Seq::<nat>::empty());
    while i < shells.len()
        invariant
            i <= shells@.len(),
            lens == shell_lens(items_view(shells@)),
            lens.len() == shells@.len(),
            strictly_increasing(dropped@),
            forall|k: int| 0 <= k < shells@.len() ==> (#[trigger] shells@[k])@ is Array,
            forall|k: int| 0 <= k < shells@.len() ==> #[trigger] items_view(shells@)[k] == shells@[k]@,
            items_view(shells@).len() == shells@.len(),
            *pos + sum_nat(lens.skip(i as int)) == start + sum_nat(lens),
            start == *old(pos) as nat,
            out@.map_values(|x: usize| x as nat) + faces_after_drops(lens.skip(i as int), dropped@, *pos as nat)
                == faces_after_drops(lens, dropped@, start),
        decreases shells.len() - i,
    {
        proof {
            lemma_faces_after_drops_step(lens, dropped@, *pos as nat, i as int);
        }
        let n = match &shells[i] {
            JsonValue::Array(faces) => {
                proof {
                    lemma_items_view(faces@);
                    assert(lens[i as int] == arr_items(items_view(shells@)[i as int]).len());
                }
                faces.len()
            },
            _ => 0,
        };
        assert(n as nat == lens[i as int]);
        if *pos > usize::MAX - n {
            assert(sum_nat(lens.skip(i as int)) >= n);
            assert(start + sum_nat(lens) > usize::MAX);
            return None;
        }
        let p0 = *pos;
        let d = dropped_in_shell(dropped, pos, n);
        proof {
            lemma_count_in_le(dropped@, p0 as nat, n as nat);
        }
        let ghost before = out@.map_values(|x: usize| x as nat);
        out.push(n - d);
        proof {
            assert(out@.map_values(|x: usize| x as nat) =~= before.push((n - d) as nat));
            assert(before.push((n - d) as nat) + faces_after_drops(lens.skip(i + 1), dropped@, *pos as nat)
                =~= before + (seq![(lens[i as int] - count_in(dropped@, p0 as nat, lens[i as int])) as nat]
                    + faces_after_drops(lens.skip(i + 1), dropped@, (p0 + lens[i as int]) as nat)));
        }
        i = i + 1;
    }
    assert(lens.skip(i as int) =~= Seq::<nat>::empty());
    assert(out@.map_values(|x: usize| x as nat) + Seq::<nat>::empty() =~= out@.map_values(|x: usize| x as nat));
    Some(out)
}

fn nats_to_json(v: &Vec<usize>) -> (r: JsonValue)
    ensures
        r@ == nats_json(v@.map_values(|x: usize| x as nat)),
{
    let mut out: Vec<JsonValue> = Vec::new();
    let mut i: usize = 0;
    while i < v.len()
        invariant
            i <= v@.len(),
            out@.len() == i,
            forall|k: int| 0 <= k < i ==> (#[trigger] out@[k])@ == JsonView::Number(NumView::PosInt(v@[k] as u64)),
        decreases v.len() - i,
    {
        out.push(JsonValue::Number(JsonNumber::PosInt(v[i] as u64)));
        i = i + 1;
    }
    proof {
        lemma_items_view(out@);
        assert(items_view(out@) =~= v@.map_values(|x: usize| x as nat).map_values(|x: nat| JsonView::Number(NumView::PosInt(x as u64))));
    }
    JsonValue::Array(out)
}

/// The shell structure of a solid's boundaries, counted over the stored
/// faces (each shell's face count less the writer-dropped faces inside it);
/// `None` (inside `Ok`) for the non-solid types, a `Schema` error when the
/// boundaries are not nested index lists of the type's depth.
pub open spec fn shell_info_spec(gtype: GeometryType, b: JsonView, dropped: Seq<usize>) -> Option<Option<(Seq<nat>, JsonView)>> {
    match gtype {
        GeometryType::Solid => if nested_ok(b, 4) && sum_nat(shell_lens(arr_items(b))) <= usize::MAX {
            Some(Some((seq![arr_items(b).len()], nats_json(faces_after_drops(shell_lens(arr_items(b)), dropped, 0)))))
        } else {
            None
        },
        GeometryType::MultiSolid | GeometryType::CompositeSolid => if nested_ok(b, 5) && sum_sums(solid_lens(arr_items(b))) <= usize::MAX {
            Some(Some((
                arr_items(b).map_values(|sol: JsonView| arr_items(sol).len()),
                JsonView::Array(solids_after_drops(solid_lens(arr_items(b)), dropped, 0).map_values(|f: Seq<nat>| nats_json(f))),
            )))
        } else {
            None
        },
        _ => Some(None),
    }
}

proof fn lemma_solids_step(sols: Seq<Seq<nat>>, dropped: Seq<usize>, pos: nat, i: int)
    requires
        0 <= i < sols.len(),
    ensures
        solids_after_drops(sols.skip(i), dropped, pos) == seq![faces_after_drops(sols[i], dropped, pos)]
            + solids_after_drops(sols.skip(i + 1), dropped, pos + sum_nat(sols[i])),
        sum_sums(sols.skip(i)) == sum_nat(sols[i]) + sum_sums(sols.skip(i + 1)),
{
    assert(sols.skip(i).drop_first() =~= sols.skip(i + 1));
    assert(sols.skip(i)[0] == sols[i]);
}

/// `solid_shell_counts` and `solid_shell_faces` of a geometry; see
/// [`shell_info_spec`].
pub fn solid_shell_info(gtype: GeometryType, boundaries: &JsonValue, dropped: &[usize]) -> (r: Result<Option<SolidShellInfo>>)
    requires
        strictly_increasing(dropped@),
    ensures
        match shell_info_spec(gtype, boundaries@, dropped@) {
            None => r matches Err(CityParquetError::Schema(_)),
            Some(None) => r matches Ok(None),
            Some(Some((counts, faces))) => r matches Ok(Some(info))
                && info.counts@.map_values(|x: usize| x as nat) == counts && info.faces@ == faces,
        },
{
    match gtype {
        GeometryType::Solid => {
            if !nested_check(boundaries, 4) {
                return Err(schema_err("Solid boundaries are not shells of faces of rings of vertex indices"));
            }
            let shells = match boundaries {
                JsonValue::Array(s) => s,
                _ => return Err(schema_err("Solid boundaries are not an array")),
            };
            proof {
                lemma_items_view(shells@);
                lemma_nested_items(items_view(shells@), 3);
                assert forall|k: int| 0 <= k < shells@.len() implies (#[trigger] shells@[k])@ is Array by {
                    assert(items_view(shells@)[k] == shells@[k]@);
                    assert(nested_ok(items_view(shells@)[k], 3));
                }
            }
            let mut pos: usize = 0;
            let faces = match shell_face_counts(shells, dropped, &mut pos) {
                Some(f) => f,
                None => return Err(schema_err("Solid face positions overflow usize")),
            };
            let mut counts: Vec<usize> = Vec::new();
            counts.push(shells.len());
            assert(counts@.map_values(|x: usize| x as nat) =~= seq![arr_items(boundaries@).len()]);
            Ok(Some(SolidShellInfo { counts, faces: nats_to_json(&faces) }))
        },
        GeometryType::MultiSolid | GeometryType::CompositeSolid => {
            if !nested_check(boundaries, 5) {
                return Err(schema_err("MultiSolid/CompositeSolid boundaries are not solids of shells of faces of rings of vertex indices"));
            }
            let solids = match boundaries {
                JsonValue::Array(s) => s,
                _ => return Err(schema_err("MultiSolid/CompositeSolid boundaries are not an array")),
            };
            proof {
                lemma_items_view(solids@);
                lemma_nested_items(items_view(solids@), 4);
            }
            let ghost sv = items_view(solids@);
            let ghost sols = solid_lens(sv);
            let mut counts: Vec<usize> = Vec::new();
            let mut per_solid: Vec<JsonValue> = Vec::new();
            let mut pos: usize = 0;
            let mut m: usize = 0;
            assert(sols.skip(0) =~= sols);
            while m < solids.len()
                invariant
                    m <= solids@.len(),
                    sv == items_view(solids@),
                    sv.len() == solids@.len(),
                    boundaries@ == JsonView::Array(sv),
                    gtype == GeometryType::MultiSolid || gtype == GeometryType::CompositeSolid,
                    nested_ok(boundaries@, 5),
                    forall|k: int| 0 <= k < solids@.len() ==> #[trigger] sv[k] == solids@[k]@,
                    forall|k: int| 0 <= k < sv.len() ==> nested_ok(#[trigger] sv[k], 4),
                    sols == solid_lens(sv),
                    sols.len() == sv.len(),
                    strictly_increasing(dropped@),
                    pos + sum_sums(sols.skip(m as int)) == sum_sums(sols),
                    counts@.len() == m,
                    forall|k: int| 0 <= k < m ==> (#[trigger] counts@[k]) as nat == arr_items(sv[k]).len(),
                    per_solid@.len() == m,
                    items_view(per_solid@).len() == m,
                    items_view(per_solid@) + solids_after_drops(sols.skip(m as int), dropped@, pos as nat).map_values(|f: Seq<nat>| nats_json(f))
                        == solids_after_drops(sols, dropped@, 0).map_values(|f: Seq<nat>| nats_json(f)),
                decreases solids.len() - m,
            {
                proof {
                    lemma_solids_step(sols, dropped@, pos as nat, m as int);
                }
                let shells = match &solids[m] {
                    JsonValue::Array(s) => s,
                    _ => {
                        assert(false);
                        return Err(schema_err("MultiSolid/CompositeSolid solid is not an array"));
                    },
                };
                proof {
                    lemma_items_view(shells@);
                    assert(nested_ok(sv[m as int], 4));
                    lemma_nested_items(items_view(shells@), 3);
                    assert forall|k: int| 0 <= k < shells@.len() implies (#[trigger] shells@[k])@ is Array by {
                        assert(items_view(shells@)[k] == shells@[k]@);
                        assert(nested_ok(items_view(shells@)[k], 3));
                    }
                    assert(sols[m as int] == shell_lens(items_view(shells@)));
                }
                let p0 = pos;
                let faces = match shell_face_counts(shells, dropped, &mut pos) {
                    Some(f) => f,
                    None => {
                        proof {
                            lemma_sum_sums_tail(sols, m as int);
                            assert(sum_sums(sols) > usize::MAX);
                        }
                        return Err(schema_err("MultiSolid/CompositeSolid face positions overflow usize"));
                    },
                };
                counts.push(shells.len());
                let fj = nats_to_json(&faces);
                let ghost before = items_view(per_solid@);
                let ghost before_vec = per_solid@;
                per_solid.push(fj);
                proof {
                    assert(per_solid@.drop_last() =~= before_vec);
                    assert(items_view(per_solid@) =~= before.push(nats_json(faces_after_drops(sols[m as int], dropped@, p0 as nat))));
                    let rest = solids_after_drops(sols.skip(m + 1), dropped@, pos as nat).map_values(|f: Seq<nat>| nats_json(f));
                    let cur = solids_after_drops(sols.skip(m as int), dropped@, p0 as nat).map_values(|f: Seq<nat>| nats_json(f));
                    assert(cur =~= seq![nats_json(faces_after_drops(sols[m as int], dropped@, p0 as nat))] + rest);
                    assert(items_view(per_solid@) + rest =~= before + cur);
                }
                m = m + 1;
            }
            proof {
                assert(sols.skip(m as int) =~= Seq::<Seq<nat>>::empty());
                lemma_items_view(per_solid@);
                assert(items_view(per_solid@) + Seq::<JsonView>::empty() =~= items_view(per_solid@));
                assert(counts@.map_values(|x: usize| x as nat) =~= sv.map_values(|sol: JsonView| arr_items(sol).len()));
            }
            Ok(Some(SolidShellInfo { counts, faces: JsonValue::Array(per_solid) }))
        },
        _ => Ok(None),
    }
}

proof fn lemma_sum_sums_tail(sols: Seq<Seq<nat>>, m: int)
    requires
        0 <= m < sols.len(),
    ensures
        sum_sums(sols.skip(m)) >= sum_nat(sols[m]),
{
    assert(sols.skip(m).drop_first() =~= sols.skip(m + 1));
    assert(sols.skip(m)[0] == sols[m]);
}

// ------------------------------------------------------------ the properties ----

/// The CityJSON name of a geometry type.
pub open spec fn cityjson_type(t: GeometryType) -> Seq<char> {
    match t {
        GeometryType::MultiPoint => "MultiPoint"@,
        GeometryType::MultiLineString => "MultiLineString"@,
        GeometryType::MultiSurface => "MultiSurface"@,
        GeometryType::CompositeSurface => "CompositeSurface"@,
        GeometryType::Solid => "Solid"@,
        GeometryType::MultiSolid => "MultiSolid"@,
        GeometryType::CompositeSolid => "CompositeSolid"@,
        GeometryType::GeometryInstance => "GeometryInstance"@,
    }
}

/// The CityJSON name of a geometry type.
pub fn geometry_type_name(t: GeometryType) -> (r: &'static str)
    ensures
        r@ == cityjson_type(t),
{
    match t {
        GeometryType::MultiPoint => "MultiPoint",
        GeometryType::MultiLineString => "MultiLineString",
        GeometryType::MultiSurface => "MultiSurface",
        GeometryType::CompositeSurface => "CompositeSurface",
        GeometryType::Solid => "Solid",
        GeometryType::MultiSolid => "MultiSolid",
        GeometryType::CompositeSolid => "CompositeSolid",
        GeometryType::GeometryInstance => "GeometryInstance",
    }
}

/// Positions as natural numbers.
pub open spec fn positions(d: Seq<usize>) -> Seq<nat> {
    d.map_values(|x: usize| x as nat)
}

/// A geometry's `geometry_properties`, members in key order: what the
/// writer dropped as degenerate (when anything was), the semantics (their
/// per-surface `values` realigned to the stored surfaces for the
/// surface-list types), the shell structure of solids, and the type; `None`
/// when the solid boundaries are malformed.
pub open spec fn properties_spec(
    gtype: GeometryType,
    semantics: Option<JsonView>,
    boundaries: JsonView,
    dropped_rings: nat,
    dropped: Seq<usize>,
) -> Option<JsonView> {
    match shell_info_spec(gtype, boundaries, dropped) {
        None => None,
        Some(info) => {
            let dd = if dropped_rings > 0 || dropped.len() > 0 {
                seq![("dropped_degenerate"@, JsonView::Object(seq![
                    ("rings"@, JsonView::Number(NumView::PosInt(dropped_rings as u64))),
                    ("surfaces"@, nats_json(positions(dropped))),
                ]))]
            } else {
                Seq::empty()
            };
            let sem = match semantics {
                Some(sv) => seq![("semantics"@, if dropped.len() > 0
                    && (gtype == GeometryType::MultiSurface || gtype == GeometryType::CompositeSurface) {
                    realign_values(sv, dropped)
                } else {
                    sv
                })],
                None => Seq::empty(),
            };
            let shell = match info {
                Some((c, f)) => seq![("solid_shell_counts"@, nats_json(c)), ("solid_shell_faces"@, f)],
                None => Seq::empty(),
            };
            Some(JsonView::Object(dd + sem + shell + seq![("type"@, JsonView::Str(cityjson_type(gtype)))]))
        },
    }
}

fn positions_json(d: &[usize]) -> (r: JsonValue)
    ensures
        r@ == nats_json(positions(d@)),
{
    let mut v: Vec<usize> = Vec::new();
    let mut i: usize = 0;
    while i < d.len()
        invariant
            i <= d@.len(),
            v@ == d@.take(i as int),
        decreases d.len() - i,
    {
        v.push(d[i]);
        i = i + 1;
        assert(v@ =~= d@.take(i as int));
    }
    assert(d@.take(d.len() as int) =~= d@);
    nats_to_json(&v)
}

/// The `geometry_properties` of a geometry: see [`properties_spec`].
/// `dropped_surfaces` are the writer-reported original surface positions,
/// ascending.
pub fn geometry_properties_json(
    gtype: GeometryType,
    semantics: Option<&JsonValue>,
    boundaries: &JsonValue,
    dropped_rings: usize,
    dropped_surfaces: &[usize],
) -> (r: Result<JsonValue>)
    requires
        strictly_increasing(dropped_surfaces@),
    ensures
        match properties_spec(gtype, match semantics { Some(s) => Some(s@), None => None }, boundaries@, dropped_rings as nat, dropped_surfaces@) {
            None => r matches Err(CityParquetError::Schema(_)),
            Some(p) => r matches Ok(x) && x@ == p,
        },
{
    let info = match solid_shell_info(gtype, boundaries, dropped_surfaces) {
        Ok(i) => i,
        Err(e) => return Err(e),
    };
    let mut map: Vec<(std::string::String, JsonValue)> = Vec::new();
    let ghost mut expected: Seq<(Seq<char>, JsonView)> = Seq::empty();
    if dropped_rings > 0 || dropped_surfaces.len() > 0 {
        let mut dd: Vec<(std::string::String, JsonValue)> = Vec::new();
        dd.push((owned("rings"), JsonValue::Number(JsonNumber::PosInt(dropped_rings as u64))));
        dd.push((owned("surfaces"), positions_json(dropped_surfaces)));
        proof {
            lemma_fields_view(dd@);
            assert(fields_view(dd@) =~= seq![
                ("rings"@, JsonView::Number(NumView::PosInt(dropped_rings as u64))),
                ("surfaces"@, nats_json(positions(dropped_surfaces@))),
            ]);
        }
        map.push((owned("dropped_degenerate"), JsonValue::Object(dd)));
    }
    let ghost after_dd = map@;
    match semantics {
        Some(sem) => {
            let value = if dropped_surfaces.len() > 0 && drops_align_with_surface_arrays(gtype) {
                realigned(sem, dropped_surfaces)
            } else {
                clone_json(sem)
            };
            map.push((owned("semantics"), value));
        },
        None => {},
    }
    let ghost after_sem = map@;
    match info {
        Some(i) => {
            let counts_json = nats_to_json(&i.counts);
            map.push((owned("solid_shell_counts"), counts_json));
            map.push((owned("solid_shell_faces"), i.faces));
        },
        None => {},
    }
    let ghost after_shell = map@;
    map.push((owned("type"), JsonValue::String(owned(geometry_type_name(gtype)))));
    proof {
        lemma_fields_view(map@);
        let sv = match semantics { Some(s) => Some(s@), None => None::<JsonView> };
        let p = properties_spec(gtype, sv, boundaries@, dropped_rings as nat, dropped_surfaces@)->Some_0->Object_0;
        assert(fields_view(map@) =~= p);
    }
    Ok(JsonValue::Object(map))
}

} // verus!
