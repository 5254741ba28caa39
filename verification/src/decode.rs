//! Reassembling a stored row into the JSON of a CityObject: the attributes
//! that were diverted into the reserved `other_attributes` column go back
//! into the object's `attributes`.

use vstd::prelude::*;
use crate::error::{CityParquetError, Result, message_of};
use crate::json::{JsonValue, JsonView, clone_json, fields_view, items_view, json_view, lemma_fields_view, lemma_items_view};
use crate::properties::{find_key, first_key};
use crate::text::{owned, str_eq};

verus! {

/// `fields` has a member named `k`.
pub open spec fn key_in(fields: Seq<(Seq<char>, JsonView)>, k: Seq<char>) -> bool {
    exists|i: int| 0 <= i < fields.len() && fields[i].0 == k
}

/// The first diverted member, from position `p` on, whose name is already
/// present: among the attributes or the diverted members before it.
pub open spec fn first_clash(attrs: Seq<(Seq<char>, JsonView)>, div: Seq<(Seq<char>, JsonView)>, p: nat) -> Option<nat>
    decreases div.len() - p,
{
    if p >= div.len() {
        None
    } else if key_in(attrs + div.take(p as int), div[p as int].0) {
        Some(p)
    } else {
        first_clash(attrs, div, p + 1)
    }
}

/// The diverted members merged before the walk stops: all of them, or
/// those before the first clash.
pub open spec fn merged_part(attrs: Seq<(Seq<char>, JsonView)>, div: Seq<(Seq<char>, JsonView)>) -> Seq<(Seq<char>, JsonView)> {
    match first_clash(attrs, div, 0) {
        Some(p) => div.take(p as int),
        None => div,
    }
}

/// The object's `attributes` members, none when it has no `attributes`.
pub open spec fn attrs_of(json: Seq<(Seq<char>, JsonView)>) -> Seq<(Seq<char>, JsonView)> {
    match first_key(json, "attributes"@) {
        Some(i) => json[i].1->Object_0,
        None => Seq::empty(),
    }
}

/// The object's `attributes` exists and is not an object.
pub open spec fn attrs_not_object(json: Seq<(Seq<char>, JsonView)>) -> bool {
    first_key(json, "attributes"@) matches Some(i) && !(json[i].1 is Object)
}

/// `json` with its `attributes` set to `attrs`, created (after the other
/// members) when it has none.
pub open spec fn with_attrs(json: Seq<(Seq<char>, JsonView)>, attrs: Seq<(Seq<char>, JsonView)>) -> Seq<(Seq<char>, JsonView)> {
    match first_key(json, "attributes"@) {
        Some(i) => json.update(i, ("attributes"@, JsonView::Object(attrs))),
        None => json.push(("attributes"@, JsonView::Object(attrs))),
    }
}

proof fn lemma_first_key_in(fields: Seq<(Seq<char>, JsonView)>, k: Seq<char>)
    ensures
        first_key(fields, k) is Some <==> key_in(fields, k),
    decreases fields.len(),
{
    if fields.len() > 0 {
        let rest = fields.drop_first();
        lemma_first_key_in(rest, k);
        if key_in(rest, k) {
            let w = choose|w: int| 0 <= w < rest.len() && rest[w].0 == k;
            assert(fields[w + 1].0 == k);
        }
        if key_in(fields, k) && fields[0].0 != k {
            let w = choose|w: int| 0 <= w < fields.len() && fields[w].0 == k;
            assert(rest[w - 1].0 == k);
        }
        if fields[0].0 == k {
            assert(key_in(fields, k));
        }
    }
}

/// Whether `fields` has a member named `k`.
fn has_key(fields: &Vec<(std::string::String, JsonValue)>, k: &str) -> (r: bool)
    ensures
        r == key_in(fields_view(fields@), k@),
{
    proof {
        lemma_first_key_in(fields_view(fields@), k@);
    }
    find_key(fields, k).is_some()
}

fn metadata_err(id: &str, what: &str) -> (e: CityParquetError)
    ensures
        e is Metadata,
        message_of(e) == "object '"@ + id@ + "': "@ + what@,
{
    let mut m = owned("object '");
    m.push_str(id);
    m.push_str("': ");
    m.push_str(what);
    CityParquetError::Metadata(m)
}

/// The attribute cells of a row, by column name; `None` is a null cell.
pub open spec fn cells_view(cells: Seq<(std::string::String, Option<JsonValue>)>) -> Seq<(Seq<char>, Option<JsonView>)> {
    cells.map_values(|c: (std::string::String, Option<JsonValue>)| (c.0@, match c.1 {
        Some(v) => Some(v@),
        None => None,
    }))
}

/// The non-null cells, in column order.
pub open spec fn present_cells(cells: Seq<(Seq<char>, Option<JsonView>)>) -> Seq<(Seq<char>, JsonView)>
    decreases cells.len(),
{
    if cells.len() == 0 {
        Seq::empty()
    } else {
        match cells.last().1 {
            Some(v) => present_cells(cells.drop_last()).push((cells.last().0, v)),
            None => present_cells(cells.drop_last()),
        }
    }
}

/// A JSON array of strings.
pub open spec fn str_array(v: Seq<Seq<char>>) -> JsonView {
    JsonView::Array(v.map_values(|t: Seq<char>| JsonView::Str(t)))
}

/// A string-list member when the list is present, none when it is null.
pub open spec fn list_member(name: Seq<char>, v: Option<Seq<Seq<char>>>) -> Seq<(Seq<char>, JsonView)> {
    match v {
        Some(l) => seq![(name, str_array(l))],
        None => Seq::empty(),
    }
}

pub open spec fn opt_strings(v: Option<&Vec<std::string::String>>) -> Option<Seq<Seq<char>>> {
    match v {
        Some(l) => Some(l@.map_values(|t: std::string::String| t@)),
        None => None,
    }
}

/// The members a row's CityObject starts from: its type; its non-null
/// attribute cells as `attributes`, when there is one; then `parents`,
/// `children` and `children_roles`, each when its cell is not null.
pub open spec fn row_members(
    object_type: Seq<char>,
    cells: Seq<(Seq<char>, Option<JsonView>)>,
    parents: Option<Seq<Seq<char>>>,
    children: Option<Seq<Seq<char>>>,
    roles: Option<Seq<Seq<char>>>,
) -> Seq<(Seq<char>, JsonView)> {
    seq![("type"@, JsonView::Str(object_type))]
        + (if present_cells(cells).len() > 0 {
            seq![("attributes"@, JsonView::Object(present_cells(cells)))]
        } else {
            Seq::empty()
        })
        + list_member("parents"@, parents)
        + list_member("children"@, children)
        + list_member("children_roles"@, roles)
}

/// A string list as a JSON array.
fn string_array(v: &Vec<std::string::String>) -> (r: JsonValue)
    ensures
        r@ == str_array(v@.map_values(|t: std::string::String| t@)),
{
    let mut items: Vec<JsonValue> = Vec::new();
    let mut i: usize = 0;
    while i < v.len()
        invariant
            i <= v@.len(),
            items@.len() == i,
            forall|j: int| 0 <= j < i ==> (#[trigger] items@[j])@ == JsonView::Str(v@[j]@),
        decreases v.len() - i,
    {
        items.push(JsonValue::String(owned(v[i].as_str())));
        i = i + 1;
    }
    proof {
        lemma_items_view(items@);
        assert(items_view(items@) =~= v@.map_values(|t: std::string::String| t@).map_values(|t: Seq<char>| JsonView::Str(t)));
    }
    JsonValue::Array(items)
}

fn push_list(out: &mut Vec<(std::string::String, JsonValue)>, name: &str, v: Option<&Vec<std::string::String>>)
    ensures
        fields_view(final(out)@) == fields_view(old(out)@) + list_member(name@, opt_strings(v)),
{
    match v {
        Some(l) => {
            let ghost before = out@;
            out.push((owned(name), string_array(l)));
            proof {
                assert(out@.drop_last() =~= before);
            }
            assert(fields_view(out@) =~= fields_view(before) + list_member(name@, opt_strings(v)));
        },
        None => {
            assert(fields_view(out@) =~= fields_view(out@) + list_member(name@, opt_strings(v)));
        },
    }
}

/// The members a row's CityObject is built from (see [`row_members`]); a
/// null attribute cell gives no attribute, and no non-null cell gives no
/// `attributes` at all. The stored type is taken as already spelt the
/// CityJSON way.
pub fn object_members(
    object_type: &str,
    cells: &Vec<(std::string::String, Option<JsonValue>)>,
    parents: Option<&Vec<std::string::String>>,
    children: Option<&Vec<std::string::String>>,
    roles: Option<&Vec<std::string::String>>,
) -> (r: Vec<(std::string::String, JsonValue)>)
    ensures
        fields_view(r@) == row_members(object_type@, cells_view(cells@), opt_strings(parents), opt_strings(children), opt_strings(roles)),
{
    let ghost cv = cells_view(cells@);
    let mut attrs: Vec<(std::string::String, JsonValue)> = Vec::new();
    let mut i: usize = 0;
    assert(cv.take(0) =~= Seq::<(Seq<char>, Option<JsonView>)>::empty());
    while i < cells.len()
        invariant
            i <= cells@.len(),
            cv == cells_view(cells@),
            cv.len() == cells@.len(),
            fields_view(attrs@) == present_cells(cv.take(i as int)),
        decreases cells.len() - i,
    {
        assert(cv.take(i + 1).drop_last() =~= cv.take(i as int));
        assert(cv[i as int].0 == cells@[i as int].0@);
        match &cells[i].1 {
            Some(v) => {
                let ghost before = attrs@;
                attrs.push((owned(cells[i].0.as_str()), clone_json(v)));
                proof {
                    assert(attrs@.drop_last() =~= before);
                }
            },
            None => {},
        }
        i = i + 1;
    }
    assert(cv.take(cells.len() as int) =~= cv);
    let mut out: Vec<(std::string::String, JsonValue)> = Vec::new();
    out.push((owned("type"), JsonValue::String(owned(object_type))));
    proof {
        lemma_fields_view(out@);
        assert(fields_view(out@) =~= seq![("type"@, JsonView::Str(object_type@))]);
    }
    let ghost head = fields_view(out@);
    if attrs.len() > 0 {
        let ghost av = fields_view(attrs@);
        proof {
            lemma_fields_view(attrs@);
        }
        let ghost before = out@;
        out.push((owned("attributes"), JsonValue::Object(attrs)));
        proof {
            assert(out@.drop_last() =~= before);
            assert(out@.last().0@ == "attributes"@);
            assert(json_view(out@.last().1) == JsonView::Object(av));
            assert(fields_view(out@) == fields_view(before).push(("attributes"@, JsonView::Object(av))));
            assert(fields_view(out@) =~= head + seq![("attributes"@, JsonView::Object(av))]);
        }
    } else {
        proof {
            lemma_fields_view(attrs@);
            assert(fields_view(out@) =~= head + Seq::<(Seq<char>, JsonView)>::empty());
        }
    }
    push_list(&mut out, "parents", parents);
    push_list(&mut out, "children", children);
    push_list(&mut out, "children_roles", roles);
    out
}

/// Copies of an object's members.
fn copy_fields(fields: &Vec<(std::string::String, JsonValue)>, out: &mut Vec<(std::string::String, JsonValue)>)
    ensures
        fields_view(final(out)@) == fields_view(old(out)@) + fields_view(fields@),
{
    proof {
        lemma_fields_view(fields@);
        lemma_fields_view(out@);
    }
    let ghost start = fields_view(out@);
    let ghost fv = fields_view(fields@);
    let mut k: usize = 0;
    assert(fv.take(0) =~= Seq::<(Seq<char>, JsonView)>::empty());
    assert(start + fv.take(0) =~= start);
    while k < fields.len()
        invariant
            k <= fields@.len(),
            fv == fields_view(fields@),
            fv.len() == fields@.len(),
            forall|t: int| 0 <= t < fields@.len() ==> #[trigger] fv[t] == (fields@[t].0@, fields@[t].1@),
            fields_view(out@) == start + fv.take(k as int),
        decreases fields.len() - k,
    {
        let ghost before = out@;
        out.push((owned(fields[k].0.as_str()), clone_json(&fields[k].1)));
        proof {
            assert(out@.drop_last() =~= before);
            assert(fields_view(out@) == fields_view(before).push((fields@[k as int].0@, fields@[k as int].1@)));
            assert(fv.take(k + 1) =~= fv.take(k as int).push(fv[k as int]));
            assert(start + fv.take(k + 1) =~= (start + fv.take(k as int)).push(fv[k as int]));
        }
        k = k + 1;
    }
    assert(fv.take(fields.len() as int) =~= fv);
}

/// Merge the `other_attributes` column's diverted entries (its cell, already
/// read as JSON) back into the object's `attributes`, creating `attributes`
/// when the row had none. No cell contributes nothing. The members join one
/// by one, in order; a name that is already present stops the merge with a
/// `Metadata` error naming the object and the name, the members before it
/// having joined. A cell that is not an object, or an `attributes` that is
/// not an object, is a `Metadata` error that leaves the object as it was.
pub fn merge_other_attributes(json: &mut Vec<(std::string::String, JsonValue)>, cell: Option<&JsonValue>, id: &str) -> (r: Result<()>)
    ensures
        match cell {
            None => r is Ok && final(json)@ == old(json)@,
            Some(c) => match c@ {
                JsonView::Object(div) => if attrs_not_object(fields_view(old(json)@)) {
                    r matches Err(e) && e is Metadata
                        && message_of(e) == "object '"@ + id@ + "': "@ + "'attributes' is not a JSON object"@
                        && final(json)@ == old(json)@
                } else {
                    fields_view(final(json)@) == with_attrs(fields_view(old(json)@),
                        attrs_of(fields_view(old(json)@)) + merged_part(attrs_of(fields_view(old(json)@)), div))
                    && match first_clash(attrs_of(fields_view(old(json)@)), div, 0) {
                        None => r is Ok,
                        Some(p) => r matches Err(e) && e is Metadata
                            && message_of(e) == "object '"@ + id@ + "': "@
                                + ("diverted attribute '"@ + div[p as int].0 + "' duplicates a column attribute"@),
                    }
                },
                _ => r matches Err(e) && e is Metadata
                    && message_of(e) == "object '"@ + id@ + "': "@ + "'other_attributes' column must be a JSON object"@
                    && final(json)@ == old(json)@,
            },
        },
{
    let div = match cell {
        None => return Ok(()),
        Some(JsonValue::Object(div)) => div,
        Some(_) => return Err(metadata_err(id, "'other_attributes' column must be a JSON object")),
    };
    proof {
        lemma_fields_view(json@);
        lemma_fields_view(div@);
    }
    let ghost jv = fields_view(json@);
    let ghost dv = fields_view(div@);
    let slot = find_key(json, "attributes");
    let mut all: Vec<(std::string::String, JsonValue)> = Vec::new();
    proof {
        lemma_fields_view(all@);
        assert(fields_view(all@) =~= Seq::<(Seq<char>, JsonView)>::empty());
    }
    match slot {
        Some(i) => {
            match &json[i].1 {
                JsonValue::Object(attrs) => copy_fields(attrs, &mut all),
                _ => return Err(metadata_err(id, "'attributes' is not a JSON object")),
            }
        },
        None => {},
    }
    let ghost av = fields_view(all@);
    assert(av =~= Seq::<(Seq<char>, JsonView)>::empty() + attrs_of(jv));
    let mut k: usize = 0;
    let mut clash = false;
    assert(dv.take(0) =~= Seq::<(Seq<char>, JsonView)>::empty());
    assert(av + dv.take(0) =~= av);
    while k < div.len()
        invariant_except_break
            !clash,
        invariant
            k <= div@.len(),
            dv == fields_view(div@),
            dv.len() == div@.len(),
            forall|t: int| 0 <= t < div@.len() ==> #[trigger] dv[t] == (div@[t].0@, div@[t].1@),
            av == attrs_of(jv),
            fields_view(all@) == av + dv.take(k as int),
            first_clash(av, dv, 0) == first_clash(av, dv, k as nat),
        ensures
            clash ==> k < div@.len() && key_in(av + dv.take(k as int), dv[k as int].0),
            !clash ==> k == div@.len(),
        decreases div.len() - k,
    {
        if has_key(&all, div[k].0.as_str()) {
            clash = true;
            break;
        }
        let ghost before = all@;
        all.push((owned(div[k].0.as_str()), clone_json(&div[k].1)));
        proof {
            lemma_fields_view(all@);
            assert(all@.drop_last() =~= before);
            assert(fields_view(all@) == fields_view(before).push(dv[k as int]));
            assert(dv.take(k + 1) =~= dv.take(k as int).push(dv[k as int]));
            assert(av + dv.take(k + 1) =~= (av + dv.take(k as int)).push(dv[k as int]));
        }
        k = k + 1;
    }
    proof {
        if !clash {
            assert(dv.take(k as int) =~= dv);
        }
    }
    let ghost merged_view = fields_view(all@);
    match slot {
        Some(i) => {
            json.set(i, (owned("attributes"), JsonValue::Object(all)));
            proof {
                lemma_fields_view(json@);
                assert(fields_view(json@) =~= jv.update(i as int, ("attributes"@, JsonView::Object(merged_view))));
            }
        },
        None => {
            let ghost before = json@;
            json.push((owned("attributes"), JsonValue::Object(all)));
            proof {
                assert(json@.drop_last() =~= before);
                lemma_fields_view(json@);
                assert(fields_view(json@) =~= jv.push(("attributes"@, JsonView::Object(merged_view))));
            }
        },
    }
    if clash {
        let mut what = owned("diverted attribute '");
        what.push_str(div[k].0.as_str());
        what.push_str("' duplicates a column attribute");
        proof {
            assert(first_clash(av, dv, k as nat) == Some(k as nat));
        }
        return Err(metadata_err(id, what.as_str()));
    }
    Ok(())
}

} // verus!
