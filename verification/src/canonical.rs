//! Canonical forms the dataset comparison reduces both sides to before it
//! compares them: attributes without `null`-valued members (an explicit
//! null compares equal to an absent member), and a solid's nested
//! per-face values without the faces the writer dropped.

use vstd::prelude::*;
use crate::json::{JsonValue, JsonView, clone_json, fields_view, items_view, lemma_fields_view, lemma_items_view};
use crate::shape::GeometryType;
use crate::text::{decimal, decimal_string, owned, str_eq};
use crate::properties::{find_key, first_key, replace_member};

verus! {

// ------------------------------------------------------------ nulls ----

/// `v` with every `null`-valued object member removed, at every depth.
pub open spec fn strip_spec(v: JsonView) -> JsonView
    decreases v,
{
    match v {
        JsonView::Object(fields) => JsonView::Object(strip_fields(fields)),
        JsonView::Array(items) => JsonView::Array(strip_items(items)),
        _ => v,
    }
}

pub open spec fn strip_fields(fields: Seq<(Seq<char>, JsonView)>) -> Seq<(Seq<char>, JsonView)>
    decreases fields,
{
    if fields.len() == 0 {
        Seq::empty()
    } else {
        let rest = strip_fields(fields.drop_last());
        if fields.last().1 is Null {
            rest
        } else {
            rest.push((fields.last().0, strip_spec(fields.last().1)))
        }
    }
}

pub open spec fn strip_items(items: Seq<JsonView>) -> Seq<JsonView>
    decreases items,
{
    if items.len() == 0 {
        Seq::empty()
    } else {
        strip_items(items.drop_last()).push(strip_spec(items.last()))
    }
}

/// Drop the `null`-valued object members of `v`, recursively.
pub fn strip_nulls(v: &JsonValue) -> (r: JsonValue)
    ensures
        r@ == strip_spec(v@),
    decreases v,
{
    match v {
        JsonValue::Object(fields) => {
            proof {
                lemma_fields_view(fields@);
            }
            let ghost fv = fields_view(fields@);
            let mut out: Vec<(std::string::String, JsonValue)> = Vec::new();
            let mut i: usize = 0;
            assert(fv.take(0) =~= Seq::<(Seq<char>, JsonView)>::empty());
            proof {
                lemma_fields_view(out@);
            }
            while i < fields.len()
                invariant
                    i <= fields@.len(),
                    *v == JsonValue::Object(*fields),
                    fv == fields_view(fields@),
                    fv.len() == fields@.len(),
                    forall|j: int| 0 <= j < fields@.len() ==> #[trigger] fv[j] == (fields@[j].0@, fields@[j].1@),
                    fields_view(out@) == strip_fields(fv.take(i as int)),
                decreases fields.len() - i,
            {
                assert(fv.take(i + 1).drop_last() =~= fv.take(i as int));
                assert(fv.take(i + 1).last() == fv[i as int]);
                if !fields[i].1.is_null() {
                    proof {
                        assert(decreases_to!(*v => (*v)->Object_0));
                        vstd::std_specs::vec::axiom_vec_index_decreases(*fields, i as int);
                        assert(decreases_to!(fields@[i as int] => fields@[i as int].1));
                    }
                    let x = strip_nulls(&fields[i].1);
                    let ghost before = out@;
                    out.push((owned(fields[i].0.as_str()), x));
                    assert(out@.drop_last() =~= before);
                }
                i = i + 1;
            }
            assert(fv.take(fields.len() as int) =~= fv);
            JsonValue::Object(out)
        },
        JsonValue::Array(items) => {
            proof {
                lemma_items_view(items@);
            }
            let ghost iv = items_view(items@);
            let mut out: Vec<JsonValue> = Vec::new();
            let mut i: usize = 0;
            assert(iv.take(0) =~= Seq::<JsonView>::empty());
            while i < items.len()
                invariant
                    i <= items@.len(),
                    *v == JsonValue::Array(*items),
                    iv == items_view(items@),
                    iv.len() == items@.len(),
                    forall|j: int| 0 <= j < items@.len() ==> #[trigger] iv[j] == items@[j]@,
                    items_view(out@) == strip_items(iv.take(i as int)),
                decreases items.len() - i,
            {
                assert(iv.take(i + 1).drop_last() =~= iv.take(i as int));
                assert(iv.take(i + 1).last() == iv[i as int]);
                proof {
                    assert(decreases_to!(*v => (*v)->Array_0));
                    vstd::std_specs::vec::axiom_vec_index_decreases(*items, i as int);
                }
                let x = strip_nulls(&items[i]);
                let ghost before = out@;
                out.push(x);
                assert(out@.drop_last() =~= before);
                i = i + 1;
            }
            assert(iv.take(items.len() as int) =~= iv);
            JsonValue::Array(out)
        },
        _ => clone_json(v),
    }
}

/// Attributes in canonical form: absent or `null` attributes are the empty
/// object; `null`-valued members are dropped at every depth.
pub fn canonicalise_attrs(v: Option<&JsonValue>) -> (r: JsonValue)
    ensures
        r@ == match v {
            None => JsonView::Object(Seq::empty()),
            Some(a) => if a@ is Null { JsonView::Object(Seq::empty()) } else { strip_spec(a@) },
        },
{
    match v {
        None => {
            let e: Vec<(std::string::String, JsonValue)> = Vec::new();
            proof {
                assert(fields_view(e@) =~= Seq::<(Seq<char>, JsonView)>::empty());
            }
            JsonValue::Object(e)
        },
        Some(a) => {
            if a.is_null() {
                let e: Vec<(std::string::String, JsonValue)> = Vec::new();
                proof {
                    assert(fields_view(e@) =~= Seq::<(Seq<char>, JsonView)>::empty());
                }
                JsonValue::Object(e)
            } else {
                strip_nulls(a)
            }
        },
    }
}

// ------------------------------------------------------------ dropped faces ----

/// The shell/solid nesting levels above the per-face entries of a solid
/// type's values: one for a Solid, two for a MultiSolid/CompositeSolid,
/// none (flat) for the other types.
pub fn solid_face_nesting_depth(gtype: GeometryType) -> (r: Option<usize>)
    ensures
        r == match gtype {
            GeometryType::Solid => Some(1usize),
            GeometryType::MultiSolid | GeometryType::CompositeSolid => Some(2usize),
            _ => None,
        },
{
    match gtype {
        GeometryType::Solid => Some(1),
        GeometryType::MultiSolid | GeometryType::CompositeSolid => Some(2),
        _ => None,
    }
}

/// `dropped` holds flat position `p`.
pub open spec fn holds(dropped: Seq<usize>, p: nat) -> bool {
    exists|k: int| 0 <= k < dropped.len() && dropped[k] as nat == p
}

/// The face list whose first face has flat position `flat`, without the
/// dropped faces.
pub open spec fn keep_from(items: Seq<JsonView>, flat: nat, dropped: Seq<usize>) -> Seq<JsonView>
    decreases items.len(),
{
    if items.len() == 0 {
        Seq::empty()
    } else {
        let pre = keep_from(items.drop_last(), flat, dropped);
        if holds(dropped, (flat + items.len() - 1) as nat) {
            pre
        } else {
            pre.push(items.last())
        }
    }
}

/// A nested values tree, `d` levels above its face lists, without the
/// dropped faces; faces are numbered depth first from `flat`. Also the flat
/// position after the tree. A non-array is left as it is.
pub open spec fn walk_spec(v: JsonView, d: nat, flat: nat, dropped: Seq<usize>) -> (JsonView, nat)
    decreases v,
{
    match v {
        JsonView::Array(items) => if d == 0 {
            (JsonView::Array(keep_from(items, flat, dropped)), flat + items.len())
        } else {
            let (its, f) = walk_items(items, (d - 1) as nat, flat, dropped);
            (JsonView::Array(its), f)
        },
        _ => (v, flat),
    }
}

pub open spec fn walk_items(items: Seq<JsonView>, d: nat, flat: nat, dropped: Seq<usize>) -> (Seq<JsonView>, nat)
    decreases items,
{
    if items.len() == 0 {
        (Seq::empty(), flat)
    } else {
        let (pre, f) = walk_items(items.drop_last(), d, flat, dropped);
        let (x, f2) = walk_spec(items.last(), d, f, dropped);
        (pre.push(x), f2)
    }
}

proof fn lemma_walk_mono(v: JsonView, d: nat, flat: nat, dropped: Seq<usize>)
    ensures
        walk_spec(v, d, flat, dropped).1 >= flat,
    decreases v,
{
    match v {
        JsonView::Array(items) => if d > 0 {
            lemma_walk_items_mono(items, (d - 1) as nat, flat, dropped);
        },
        _ => {},
    }
}

proof fn lemma_walk_items_mono(items: Seq<JsonView>, d: nat, flat: nat, dropped: Seq<usize>)
    ensures
        walk_items(items, d, flat, dropped).1 >= flat,
    decreases items,
{
    if items.len() > 0 {
        lemma_walk_items_mono(items.drop_last(), d, flat, dropped);
        let f = walk_items(items.drop_last(), d, flat, dropped).1;
        lemma_walk_mono(items.last(), d, f, dropped);
    }
}

proof fn lemma_walk_items_prefix(items: Seq<JsonView>, d: nat, flat: nat, dropped: Seq<usize>, i: int)
    requires
        0 <= i < items.len(),
    ensures
        walk_items(items.take(i + 1), d, flat, dropped) == ({
            let (pre, f) = walk_items(items.take(i), d, flat, dropped);
            let (x, f2) = walk_spec(items[i], d, f, dropped);
            (pre.push(x), f2)
        }),
        walk_items(items.take(i + 1), d, flat, dropped).1 <= walk_items(items, d, flat, dropped).1,
    decreases items.len() - i,
{
    assert(items.take(i + 1).drop_last() =~= items.take(i));
    assert(items.take(i + 1).last() == items[i]);
    if i + 1 < items.len() {
        lemma_walk_items_prefix(items, d, flat, dropped, i + 1);
        let f = walk_items(items.take(i + 1), d, flat, dropped).1;
        lemma_walk_mono(items[i + 1], d, f, dropped);
    } else {
        assert(items.take(i + 1) =~= items);
    }
}

fn holds_exec(dropped: &[usize], p: usize) -> (r: bool)
    ensures
        r == holds(dropped@, p as nat),
{
    let mut i: usize = 0;
    while i < dropped.len()
        invariant
            i <= dropped@.len(),
            forall|j: int| 0 <= j < i ==> dropped@[j] != p,
        decreases dropped.len() - i,
    {
        if dropped[i] == p {
            return true;
        }
        i = i + 1;
    }
    false
}

fn walk(v: &JsonValue, d: usize, flat: usize, dropped: &[usize]) -> (r: (JsonValue, usize))
    requires
        walk_spec(v@, d as nat, flat as nat, dropped@).1 <= usize::MAX,
    ensures
        r.0@ == walk_spec(v@, d as nat, flat as nat, dropped@).0,
        r.1 as nat == walk_spec(v@, d as nat, flat as nat, dropped@).1,
    decreases v,
{
    let items = match v {
        JsonValue::Array(items) => items,
        _ => return (clone_json(v), flat),
    };
    proof {
        lemma_items_view(items@);
    }
    let ghost iv = items_view(items@);
    let mut out: Vec<JsonValue> = Vec::new();
    let mut f: usize = flat;
    let mut i: usize = 0;
    if d == 0 {
        assert(iv.take(0) =~= Seq::<JsonView>::empty());
        while i < items.len()
            invariant
                i <= items@.len(),
                iv == items_view(items@),
                iv.len() == items@.len(),
                forall|j: int| 0 <= j < items@.len() ==> #[trigger] iv[j] == items@[j]@,
                flat + items@.len() <= usize::MAX,
                f == flat + i,
                items_view(out@) == keep_from(iv.take(i as int), flat as nat, dropped@),
            decreases items.len() - i,
        {
            assert(iv.take(i + 1).drop_last() =~= iv.take(i as int));
            assert(iv.take(i + 1).last() == iv[i as int]);
            if !holds_exec(dropped, f) {
                let ghost before = out@;
                out.push(clone_json(&items[i]));
                assert(out@.drop_last() =~= before);
            }
            f = f + 1;
            i = i + 1;
        }
        assert(iv.take(items.len() as int) =~= iv);
    } else {
        assert(iv.take(0) =~= Seq::<JsonView>::empty());
        while i < items.len()
            invariant
                i <= items@.len(),
                d > 0,
                *v == JsonValue::Array(*items),
                iv == items_view(items@),
                iv.len() == items@.len(),
                forall|j: int| 0 <= j < items@.len() ==> #[trigger] iv[j] == items@[j]@,
                walk_items(iv, (d - 1) as nat, flat as nat, dropped@).1 <= usize::MAX,
                walk_items(iv.take(i as int), (d - 1) as nat, flat as nat, dropped@) == (items_view(out@), f as nat),
            decreases items.len() - i,
        {
            proof {
                lemma_walk_items_prefix(iv, (d - 1) as nat, flat as nat, dropped@, i as int);
                assert(decreases_to!(*v => (*v)->Array_0));
                vstd::std_specs::vec::axiom_vec_index_decreases(*items, i as int);
            }
            let (x, f2) = walk(&items[i], d - 1, f, dropped);
            let ghost before = out@;
            out.push(x);
            assert(out@.drop_last() =~= before);
            f = f2;
            i = i + 1;
        }
        assert(iv.take(items.len() as int) =~= iv);
    }
    (JsonValue::Array(out), f)
}

/// Remove the entries at flat positions `dropped` from a solid type's nested
/// values, walking exactly `depth` levels of shell/solid nesting before
/// treating an array as a face list; positions count faces depth first
/// across shells (and solids).
pub fn realign_nested_values(values: &mut JsonValue, depth: usize, dropped: &[usize])
    requires
        walk_spec(old(values)@, depth as nat, 0, dropped@).1 <= usize::MAX,
    ensures
        final(values)@ == walk_spec(old(values)@, depth as nat, 0, dropped@).0,
{
    let (v, _) = walk(values, depth, 0, dropped);
    *values = v;
}

/// A theme object with the tree under its first `values` member realigned
/// (`walk_spec` from flat position 0); anything else as it is.
pub open spec fn nested_theme(t: JsonView, depth: nat, dropped: Seq<usize>) -> JsonView {
    match t {
        JsonView::Object(fields) => match first_key(fields, "values"@) {
            Some(i) => JsonView::Object(fields.update(i, ("values"@, walk_spec(fields[i].1, depth, 0, dropped).0))),
            None => t,
        },
        _ => t,
    }
}

/// Every theme of an appearance map with its nested `values` realigned;
/// anything but an object as it is.
pub open spec fn nested_themes(v: JsonView, depth: nat, dropped: Seq<usize>) -> JsonView {
    match v {
        JsonView::Object(themes) => JsonView::Object(themes.map_values(|t: (Seq<char>, JsonView)| (t.0, nested_theme(t.1, depth, dropped)))),
        other => other,
    }
}

/// A theme's `values` tree has a face count that fits a `usize`.
pub open spec fn theme_fits(t: JsonView, depth: nat, dropped: Seq<usize>) -> bool {
    match t {
        JsonView::Object(fields) => match first_key(fields, "values"@) {
            Some(i) => walk_spec(fields[i].1, depth, 0, dropped).1 <= usize::MAX,
            None => true,
        },
        _ => true,
    }
}

/// Every theme's `values` tree has a face count that fits a `usize`.
pub open spec fn nested_themes_fit(v: JsonView, depth: nat, dropped: Seq<usize>) -> bool {
    match v {
        JsonView::Object(themes) => forall|j: int| 0 <= j < themes.len() ==> theme_fits(#[trigger] themes[j].1, depth, dropped),
        _ => true,
    }
}

fn nested_theme_exec(t: &JsonValue, depth: usize, dropped: &[usize]) -> (r: JsonValue)
    requires
        theme_fits(t@, depth as nat, dropped@),
    ensures
        r@ == nested_theme(t@, depth as nat, dropped@),
{
    let fields = match t {
        JsonValue::Object(fields) => fields,
        _ => return clone_json(t),
    };
    proof {
        lemma_fields_view(fields@);
    }
    let i = match find_key(fields, "values") {
        Some(i) => i,
        None => return clone_json(t),
    };
    let (w, _) = walk(&fields[i].1, depth, 0, dropped);
    let out = replace_member(fields, i, w);
    JsonValue::Object(out)
}

/// An appearance map with every theme's nested `values` tree realigned for
/// the dropped faces (see [`realign_nested_values`]).
pub fn realign_nested_themes(map: &JsonValue, depth: usize, dropped: &[usize]) -> (r: JsonValue)
    requires
        nested_themes_fit(map@, depth as nat, dropped@),
    ensures
        r@ == nested_themes(map@, depth as nat, dropped@),
{
    let themes = match map {
        JsonValue::Object(themes) => themes,
        _ => return clone_json(map),
    };
    proof {
        lemma_fields_view(themes@);
    }
    let ghost tv = fields_view(themes@);
    assert(map@ == JsonView::Object(tv));
    let mut out: Vec<(std::string::String, JsonValue)> = Vec::new();
    let mut k: usize = 0;
    while k < themes.len()
        invariant
            k <= themes@.len(),
            *map == JsonValue::Object(*themes),
            tv == fields_view(themes@),
            tv.len() == themes@.len(),
            forall|j: int| 0 <= j < themes@.len() ==> #[trigger] tv[j] == (themes@[j].0@, themes@[j].1@),
            forall|j: int| 0 <= j < tv.len() ==> theme_fits(#[trigger] tv[j].1, depth as nat, dropped@),
            out@.len() == k,
            forall|j: int| 0 <= j < k ==> (#[trigger] out@[j]).0@ == tv[j].0 && out@[j].1@ == nested_theme(tv[j].1, depth as nat, dropped@),
        decreases themes.len() - k,
    {
        assert(tv[k as int] == (themes@[k as int].0@, themes@[k as int].1@));
        assert(theme_fits(tv[k as int].1, depth as nat, dropped@));
        let t = nested_theme_exec(&themes[k].1, depth, dropped);
        out.push((owned(themes[k].0.as_str()), t));
        k = k + 1;
    }
    proof {
        lemma_fields_view(out@);
        assert(fields_view(out@) =~= tv.map_values(|t: (Seq<char>, JsonView)| (t.0, nested_theme(t.1, depth as nat, dropped@))));
    }
    JsonValue::Object(out)
}

// ------------------------------------------------------------ group roles ----

/// The key of pair `i` of a CityObjectGroup's children/roles pairing: the
/// child id, or a sentinel naming a surplus role.
pub open spec fn role_key(children: Seq<Seq<char>>, i: nat) -> Seq<char> {
    if i < children.len() { children[i as int] } else { seq!['\0'] + "surplus_role_"@ + decimal(i) }
}

/// The value of pair `i`: the role, when it is a string, or a sentinel
/// naming a missing or non-string role.
pub open spec fn role_value(roles: Seq<JsonView>, i: nat) -> Seq<char> {
    if i < roles.len() && roles[i as int] is Str {
        roles[i as int]->Str_0
    } else {
        seq!['\0'] + "missing_or_nonstring_"@ + decimal(i)
    }
}

/// The `children_roles` entries of a CityObjectGroup (none unless its
/// `children_roles` member is an array).
pub open spec fn roles_of(roles: Option<JsonView>) -> Seq<JsonView> {
    match roles {
        Some(JsonView::Array(rs)) => rs,
        _ => Seq::empty(),
    }
}

/// Child-to-role pairs of a CityObjectGroup, over as many positions as the
/// longer of `children` and the roles, so that a surplus or missing role
/// shows as a sentinel rather than being truncated away; nothing for any
/// other type. Read as a map, a later pair with the same key wins.
pub fn children_roles_pairs(thetype: &str, children: Option<&Vec<std::string::String>>, roles: Option<&JsonValue>)
    -> (r: Vec<(std::string::String, std::string::String)>)
    ensures
        thetype@ != "CityObjectGroup"@ ==> r@.len() == 0,
        thetype@ == "CityObjectGroup"@ ==> ({
            let ch = match children { Some(c) => c@.map_values(|x: std::string::String| x@), None => Seq::empty() };
            let rs = roles_of(match roles { Some(v) => Some(v@), None => None });
            &&& r@.len() == if ch.len() >= rs.len() { ch.len() } else { rs.len() }
            &&& forall|i: int| 0 <= i < r@.len() ==> (#[trigger] r@[i]).0@ == role_key(ch, i as nat)
                && r@[i].1@ == role_value(rs, i as nat)
        }),
{
    let mut out: Vec<(std::string::String, std::string::String)> = Vec::new();
    if !str_eq(thetype, "CityObjectGroup") {
        return out;
    }
    let empty_children: Vec<std::string::String> = Vec::new();
    let ch: &Vec<std::string::String> = match children {
        Some(c) => c,
        None => &empty_children,
    };
    let empty_roles: Vec<JsonValue> = Vec::new();
    let rs: &Vec<JsonValue> = match roles {
        Some(JsonValue::Array(items)) => items,
        _ => &empty_roles,
    };
    proof {
        lemma_items_view(rs@);
        lemma_items_view(empty_roles@);
    }
    let ghost chv = match children { Some(c) => c@.map_values(|x: std::string::String| x@), None => Seq::<Seq<char>>::empty() };
    let ghost rsv = roles_of(match roles { Some(v) => Some(v@), None => None });
    assert(chv =~= ch@.map_values(|x: std::string::String| x@));
    assert(rsv =~= items_view(rs@));
    let n = if ch.len() >= rs.len() { ch.len() } else { rs.len() };
    let mut i: usize = 0;
    while i < n
        invariant
            i <= n,
            n == if chv.len() >= rsv.len() { chv.len() } else { rsv.len() },
            chv == ch@.map_values(|x: std::string::String| x@),
            rsv == items_view(rs@),
            rsv.len() == rs@.len(),
            forall|k: int| 0 <= k < rs@.len() ==> #[trigger] rsv[k] == rs@[k]@,
            out@.len() == i,
            forall|k: int| 0 <= k < i ==> (#[trigger] out@[k]).0@ == role_key(chv, k as nat)
                && out@[k].1@ == role_value(rsv, k as nat),
        decreases n - i,
    {
        let key = if i < ch.len() {
            owned(ch[i].as_str())
        } else {
            let mut k = owned("\u{0}surplus_role_");
            proof {
                reveal_strlit("\u{0}surplus_role_");
                reveal_strlit("surplus_role_");
            }
            assert(k@ =~= seq!['\0'] + "surplus_role_"@);
            k.push_str(decimal_string(i as u64).as_str());
            k
        };
        let value = if i < rs.len() {
            match &rs[i] {
                JsonValue::String(s) => owned(s.as_str()),
                _ => {
                    let mut v = owned("\u{0}missing_or_nonstring_");
                    proof {
                        reveal_strlit("\u{0}missing_or_nonstring_");
                        reveal_strlit("missing_or_nonstring_");
                    }
                    assert(v@ =~= seq!['\0'] + "missing_or_nonstring_"@);
                    v.push_str(decimal_string(i as u64).as_str());
                    v
                },
            }
        } else {
            let mut v = owned("\u{0}missing_or_nonstring_");
            proof {
                reveal_strlit("\u{0}missing_or_nonstring_");
                reveal_strlit("missing_or_nonstring_");
            }
            assert(v@ =~= seq!['\0'] + "missing_or_nonstring_"@);
            v.push_str(decimal_string(i as u64).as_str());
            v
        };
        out.push((key, value));
        i = i + 1;
    }
    out
}

} // verus!
