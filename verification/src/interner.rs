//! Dataset-global appearance interner.
//!
//! CityJSONSeq gives each feature its own local `appearance` block: material
//! and texture definition arrays plus per-geometry index maps into them.
//! CityParquet needs dataset-global identity instead, so this module
//! dedupes definitions across every feature by JSON content, assigning each
//! distinct definition one global row id in order of first use, and rewrites
//! each geometry's `material`/`texture` index map so integer indices
//! reference the global ids; every texture UV index is inlined as its
//! `[u, v]` pair, since UV pools are feature-local.
//!
//! A `material` map is `{"<theme>": {"values": <nested ints|null>}}` or
//! `{"<theme>": {"value": <int>}}`; a `texture` map is `{"<theme>":
//! {"values": <nested rings>}}` where a ring is the innermost array
//! `[t, uv0, uv1, ...]`, or `[null]` for no texture. The walk recurses
//! through arrays generically and recognises a ring by shape: a non-empty
//! array whose first element is a number or `null` and none of whose
//! elements is an array.
//!
//! A map is checked whole before anything is interned, so a map that is
//! refused leaves the interner as it was.

use vstd::prelude::*;
use crate::error::{CityParquetError, Result, message_of};
use crate::json::{
    JsonNumber, JsonValue, JsonView, NumView, clone_json, get_spec, items_view, fields_view, json_eq,
    json_view, lemma_items_view, lemma_fields_view,
};
use crate::shells::schema_err;
use crate::text::owned;

verus! {

// ------------------------------------------------------------ pools ----

/// A `Schema` error naming the theme it concerns.
pub(crate) fn theme_err(before: &str, theme: &str, after: &str) -> (e: CityParquetError)
    ensures
        e is Schema,
        message_of(e) == before@ + theme@ + after@,
{
    let mut m = owned(before);
    m.push_str(theme);
    m.push_str(after);
    CityParquetError::Schema(m)
}

/// No item occurs twice.
pub open spec fn no_dups<T>(p: Seq<T>) -> bool {
    forall|i: int, j: int| 0 <= i < p.len() && 0 <= j < p.len() && i != j ==> p[i] != p[j]
}

/// `acc` with each item of `s` appended, in order, unless already present.
pub open spec fn dedup_append<T>(acc: Seq<T>, s: Seq<T>) -> Seq<T>
    decreases s.len(),
{
    if s.len() == 0 {
        acc
    } else {
        let a = dedup_append(acc, s.drop_last());
        if a.contains(s.last()) {
            a
        } else {
            a.push(s.last())
        }
    }
}

/// The position of `v` in a pool that holds it.
pub open spec fn index_of<T>(p: Seq<T>, v: T) -> nat {
    (choose|i: int| 0 <= i < p.len() && p[i] == v) as nat
}

/// The definitions a list of local references names, in order.
pub open spec fn named(refs: Seq<nat>, defs: Seq<JsonView>) -> Seq<JsonView> {
    refs.map_values(|i: nat| defs[i as int])
}

pub proof fn lemma_dedup_append<T>(acc: Seq<T>, s: Seq<T>)
    ensures
        acc.is_prefix_of(dedup_append(acc, s)),
        no_dups(acc) ==> no_dups(dedup_append(acc, s)),
        forall|k: int| 0 <= k < s.len() ==> dedup_append(acc, s).contains(#[trigger] s[k]),
    decreases s.len(),
{
    if s.len() > 0 {
        lemma_dedup_append(acc, s.drop_last());
        let a = dedup_append(acc, s.drop_last());
        assert forall|k: int| 0 <= k < s.len() implies dedup_append(acc, s).contains(#[trigger] s[k]) by {
            if k < s.len() - 1 {
                assert(s.drop_last()[k] == s[k]);
                assert(a.contains(s[k]));
                let w = choose|w: int| 0 <= w < a.len() && a[w] == s[k];
                if !a.contains(s.last()) {
                    assert(a.push(s.last())[w] == s[k]);
                }
            } else {
                if !a.contains(s.last()) {
                    assert(a.push(s.last())[a.len() as int] == s.last());
                }
            }
        }
    }
}

/// Appending one definition.
pub proof fn lemma_dedup_one<T>(acc: Seq<T>, x: T)
    ensures
        dedup_append(acc, seq![x]) == if acc.contains(x) { acc } else { acc.push(x) },
{
    assert(seq![x].drop_last() =~= Seq::<T>::empty());
    assert(dedup_append(acc, Seq::<T>::empty()) == acc);
    assert(seq![x].last() == x);
}

/// Appending the first `k + 1` definitions is appending the first `k`,
/// then definition `k`.
pub proof fn lemma_dedup_step<T>(acc: Seq<T>, s: Seq<T>, k: int)
    requires
        0 <= k < s.len(),
    ensures
        dedup_append(acc, s.take(k + 1)) == dedup_append(dedup_append(acc, s.take(k)), seq![s[k]]),
{
    assert(s.take(k + 1).drop_last() =~= s.take(k));
    assert(s.take(k + 1).last() == s[k]);
    lemma_dedup_one(dedup_append(acc, s.take(k)), s[k]);
}

/// A pool position stays put as the pool grows.
pub proof fn lemma_index_stable<T>(p1: Seq<T>, p2: Seq<T>, v: T)
    requires
        p1.is_prefix_of(p2),
        no_dups(p2),
        p1.contains(v),
    ensures
        index_of(p2, v) == index_of(p1, v),
        index_of(p1, v) < p1.len(),
        p1[index_of(p1, v) as int] == v,
{
    let i = choose|i: int| 0 <= i < p1.len() && p1[i] == v;
    assert(p2[i] == v);
    let j = choose|j: int| 0 <= j < p2.len() && p2[j] == v;
    assert(i == j);
}

/// Dataset-global material and texture definitions: each distinct
/// definition once, in order of first use.
pub struct AppearanceInterner {
    materials: Vec<JsonValue>,
    textures: Vec<JsonValue>,
}

impl AppearanceInterner {
    /// The material definitions, by global id.
    pub closed spec fn mats(&self) -> Seq<JsonView> {
        items_view(self.materials@)
    }

    /// The texture definitions, by global id.
    pub closed spec fn texs(&self) -> Seq<JsonView> {
        items_view(self.textures@)
    }

    pub open spec fn wf(&self) -> bool {
        no_dups(self.mats()) && no_dups(self.texs())
    }

    /// No definitions yet.
    pub fn new() -> (r: Self)
        ensures
            r.wf(),
            r.mats() == Seq::<JsonView>::empty(),
            r.texs() == Seq::<JsonView>::empty(),
    {
        AppearanceInterner { materials: Vec::new(), textures: Vec::new() }
    }

    /// The material definitions, by global id.
    pub fn materials(&self) -> (r: &[JsonValue])
        ensures
            items_view(r@) == self.mats(),
    {
        self.materials.as_slice()
    }

    /// The texture definitions, by global id.
    pub fn textures(&self) -> (r: &[JsonValue])
        ensures
            items_view(r@) == self.texs(),
    {
        self.textures.as_slice()
    }

    /// The global id of a material definition, interning it when new.
    pub fn intern_material(&mut self, def: &JsonValue) -> (id: usize)
        requires
            old(self).wf(),
        ensures
            final(self).wf(),
            final(self).mats() == dedup_append(old(self).mats(), seq![def@]),
            final(self).texs() == old(self).texs(),
            id == index_of(final(self).mats(), def@),
            id < final(self).mats().len(),
    {
        let id = intern_into(&mut self.materials, def);
        proof {
            lemma_items_view(self.materials@);
        }
        id
    }

    /// The global id of a texture definition, interning it when new.
    pub fn intern_texture(&mut self, def: &JsonValue) -> (id: usize)
        requires
            old(self).wf(),
        ensures
            final(self).wf(),
            final(self).texs() == dedup_append(old(self).texs(), seq![def@]),
            final(self).mats() == old(self).mats(),
            id == index_of(final(self).texs(), def@),
            id < final(self).texs().len(),
    {
        let id = intern_into(&mut self.textures, def);
        proof {
            lemma_items_view(self.textures@);
        }
        id
    }
}

/// The position of `def` in `pool`, if it is there.
fn find_def(pool: &Vec<JsonValue>, def: &JsonValue) -> (r: Option<usize>)
    requires
        no_dups(items_view(pool@)),
    ensures
        match r {
            Some(i) => items_view(pool@).contains(def@) && i == index_of(items_view(pool@), def@)
                && i < pool@.len(),
            None => !items_view(pool@).contains(def@),
        },
{
    proof {
        lemma_items_view(pool@);
    }
    let ghost p = items_view(pool@);
    let mut i: usize = 0;
    while i < pool.len()
        invariant
            i <= pool@.len(),
            p == items_view(pool@),
            p.len() == pool@.len(),
            no_dups(p),
            forall|j: int| 0 <= j < pool@.len() ==> #[trigger] p[j] == pool@[j]@,
            forall|j: int| 0 <= j < i ==> p[j] != def@,
        decreases pool.len() - i,
    {
        if json_eq(&pool[i], def) {
            proof {
                assert(p[i as int] == def@);
                assert(p.contains(def@));
                lemma_index_stable(p, p, def@);
                let c = choose|c: int| 0 <= c < p.len() && p[c] == def@;
                assert(c == i as int);
            }
            return Some(i);
        }
        i = i + 1;
    }
    None
}

fn intern_into(pool: &mut Vec<JsonValue>, def: &JsonValue) -> (id: usize)
    requires
        no_dups(items_view(old(pool)@)),
    ensures
        no_dups(items_view(final(pool)@)),
        items_view(final(pool)@) == dedup_append(items_view(old(pool)@), seq![def@]),
        id == index_of(items_view(final(pool)@), def@),
        id < final(pool)@.len(),
{
    let ghost p0 = items_view(pool@);
    assert(seq![def@].drop_last() =~= Seq::<JsonView>::empty());
    proof {
        lemma_dedup_one(p0, def@);
    }
    match find_def(pool, def) {
        Some(i) => i,
        None => {
            let id = pool.len();
            let c = clone_json(def);
            pool.push(c);
            proof {
                lemma_items_view(pool@);
                assert(pool@.drop_last() =~= old(pool)@);
                assert(items_view(pool@) == p0.push(def@));
                let p = items_view(pool@);
                assert(p[id as int] == def@);
                assert forall|a: int, b: int| 0 <= a < p.len() && 0 <= b < p.len() && a != b implies p[a] != p[b] by {
                    if a < p0.len() && b < p0.len() {
                        assert(p[a] == p0[a] && p[b] == p0[b]);
                    } else if a < p0.len() {
                        assert(p[a] == p0[a]);
                        assert(p0.contains(p[a]));
                    } else if b < p0.len() {
                        assert(p[b] == p0[b]);
                        assert(p0.contains(p[b]));
                    }
                }
                assert(p.contains(def@));
                lemma_index_stable(p, p, def@);
                let c2 = choose|c2: int| 0 <= c2 < p.len() && p[c2] == def@;
                assert(c2 == id as int);
            }
            id
        },
    }
}

/// Intern the definitions named by `refs`, in order.
fn intern_all(pool: &mut Vec<JsonValue>, refs: &Vec<usize>, defs: &[JsonValue])
    requires
        no_dups(items_view(old(pool)@)),
        forall|k: int| 0 <= k < refs@.len() ==> (#[trigger] refs@[k]) < defs@.len(),
    ensures
        no_dups(items_view(final(pool)@)),
        items_view(final(pool)@) == dedup_append(items_view(old(pool)@), named(usizes(refs@), items_view(defs@))),
{
    proof {
        lemma_items_view(defs@);
    }
    let ghost p0 = items_view(pool@);
    let ghost all = named(usizes(refs@), items_view(defs@));
    let mut k: usize = 0;
    assert(all.take(0) =~= Seq::<JsonView>::empty());
    while k < refs.len()
        invariant
            k <= refs@.len(),
            all == named(usizes(refs@), items_view(defs@)),
            all.len() == refs@.len(),
            items_view(defs@).len() == defs@.len(),
            forall|j: int| 0 <= j < defs@.len() ==> #[trigger] items_view(defs@)[j] == defs@[j]@,
            forall|q: int| 0 <= q < refs@.len() ==> (#[trigger] refs@[q]) < defs@.len(),
            no_dups(items_view(pool@)),
            items_view(pool@) == dedup_append(p0, all.take(k as int)),
        decreases refs.len() - k,
    {
        let ghost before = items_view(pool@);
        assert(all[k as int] == defs@[refs@[k as int] as int]@);
        intern_into(pool, &defs[refs[k]]);
        proof {
            lemma_dedup_step(p0, all, k as int);
        }
        k = k + 1;
    }
    assert(all.take(refs.len() as int) =~= all);
}

/// Machine-sized references as natural numbers.
pub open spec fn usizes(v: Seq<usize>) -> Seq<nat> {
    v.map_values(|x: usize| x as nat)
}

// ------------------------------------------------------------ materials ----

/// The local reference of one material index: `null` names nothing, a
/// non-negative integer below the local definitions count names that
/// definition; anything else is invalid (`None`).
pub open spec fn mat_index_refs(v: JsonView, n: nat) -> Option<Seq<nat>> {
    match v {
        JsonView::Null => Some(Seq::empty()),
        JsonView::Number(NumView::PosInt(i)) => if i < n { Some(seq![i as nat]) } else { None },
        _ => None,
    }
}

/// The local references of a material `values` tree, in depth-first order.
pub open spec fn mat_tree_refs(v: JsonView, n: nat) -> Option<Seq<nat>>
    decreases v,
{
    match v {
        JsonView::Array(items) => mat_items_refs(items, n),
        _ => mat_index_refs(v, n),
    }
}

pub open spec fn mat_items_refs(items: Seq<JsonView>, n: nat) -> Option<Seq<nat>>
    decreases items,
{
    if items.len() == 0 {
        Some(Seq::empty())
    } else {
        match (mat_items_refs(items.drop_last(), n), mat_tree_refs(items.last(), n)) {
            (Some(a), Some(b)) => Some(a + b),
            _ => None,
        }
    }
}

/// One material index rewritten against the global pool.
pub open spec fn mat_index_out(v: JsonView, pool: Seq<JsonView>, defs: Seq<JsonView>) -> JsonView {
    match v {
        JsonView::Number(NumView::PosInt(i)) => JsonView::Number(NumView::PosInt(index_of(pool, defs[i as int]) as u64)),
        _ => v,
    }
}

/// A material `values` tree rewritten against the global pool.
pub open spec fn mat_tree_out(v: JsonView, pool: Seq<JsonView>, defs: Seq<JsonView>) -> JsonView
    decreases v,
{
    match v {
        JsonView::Array(items) => JsonView::Array(mat_items_out(items, pool, defs)),
        _ => mat_index_out(v, pool, defs),
    }
}

pub open spec fn mat_items_out(items: Seq<JsonView>, pool: Seq<JsonView>, defs: Seq<JsonView>) -> Seq<JsonView>
    decreases items,
{
    if items.len() == 0 {
        Seq::empty()
    } else {
        mat_items_out(items.drop_last(), pool, defs).push(mat_tree_out(items.last(), pool, defs))
    }
}

pub(crate) proof fn lemma_mat_items_prefix(items: Seq<JsonView>, n: nat, i: int)
    requires
        0 <= i < items.len(),
    ensures
        mat_items_refs(items.take(i + 1), n) == match (mat_items_refs(items.take(i), n), mat_tree_refs(items[i], n)) {
            (Some(a), Some(b)) => Some(a + b),
            _ => None::<Seq<nat>>,
        },
{
    assert(items.take(i + 1).drop_last() =~= items.take(i));
}

pub(crate) proof fn lemma_mat_items_prefix_none(items: Seq<JsonView>, n: nat, i: int)
    requires
        0 <= i <= items.len(),
        mat_items_refs(items.take(i), n) is None,
    ensures
        mat_items_refs(items, n) is None,
    decreases items.len() - i,
{
    if i < items.len() {
        lemma_mat_items_prefix(items, n, i);
        lemma_mat_items_prefix_none(items, n, i + 1);
    } else {
        assert(items.take(i) =~= items);
    }
}

/// Every item of a valid tree list is valid, and its references are among
/// the list's.
pub(crate) proof fn lemma_mat_items_sub(items: Seq<JsonView>, n: nat, j: int)
    requires
        0 <= j < items.len(),
        mat_items_refs(items, n) is Some,
    ensures
        mat_tree_refs(items[j], n) matches Some(b) && forall|k: int| 0 <= k < b.len()
            ==> mat_items_refs(items, n)->Some_0.contains(#[trigger] b[k]),
    decreases items.len(),
{
    let a = mat_items_refs(items.drop_last(), n)->Some_0;
    let last = mat_tree_refs(items.last(), n)->Some_0;
    let all = a + last;
    if j < items.len() - 1 {
        assert(items.drop_last()[j] == items[j]);
        lemma_mat_items_sub(items.drop_last(), n, j);
        let b = mat_tree_refs(items[j], n)->Some_0;
        assert forall|k: int| 0 <= k < b.len() implies all.contains(#[trigger] b[k]) by {
            let w = choose|w: int| 0 <= w < a.len() && a[w] == b[k];
            assert(all[w] == b[k]);
        }
    } else {
        assert forall|k: int| 0 <= k < last.len() implies all.contains(#[trigger] last[k]) by {
            assert(all[a.len() + k] == last[k]);
        }
    }
}

proof fn lemma_mat_items_out_index(items: Seq<JsonView>, pool: Seq<JsonView>, defs: Seq<JsonView>)
    ensures
        mat_items_out(items, pool, defs).len() == items.len(),
        forall|j: int| 0 <= j < items.len() ==> #[trigger] mat_items_out(items, pool, defs)[j] == mat_tree_out(items[j], pool, defs),
    decreases items.len(),
{
    if items.len() > 0 {
        lemma_mat_items_out_index(items.drop_last(), pool, defs);
        assert forall|j: int| 0 <= j < items.len() implies #[trigger] mat_items_out(items, pool, defs)[j] == mat_tree_out(items[j], pool, defs) by {
            if j < items.len() - 1 {
                assert(items.drop_last()[j] == items[j]);
            }
        }
    }
}

/// Collect the local references of a material `values` tree onto `out`;
/// `false` when the tree is invalid.
pub(crate) fn mat_tree_collect(v: &JsonValue, n: usize, out: &mut Vec<usize>) -> (ok: bool)
    ensures
        match mat_tree_refs(v@, n as nat) {
            None => !ok,
            Some(refs) => ok && usizes(final(out)@) == usizes(old(out)@) + refs,
        },
    decreases v,
{
    match v {
        JsonValue::Array(items) => {
            proof {
                lemma_items_view(items@);
            }
            let ghost iv = items_view(items@);
            let ghost start = usizes(out@);
            let mut i: usize = 0;
            assert(iv.take(0) =~= Seq::<JsonView>::empty());
            assert(usizes(out@) =~= start + Seq::<nat>::empty());
            while i < items.len()
                invariant
                    i <= items.len(),
                    *v == JsonValue::Array(*items),
                    iv == items_view(items@),
                    iv.len() == items@.len(),
                    forall|j: int| 0 <= j < items@.len() ==> #[trigger] iv[j] == items@[j]@,
                    mat_items_refs(iv.take(i as int), n as nat) matches Some(pre) && usizes(out@) == start + pre,
                decreases items.len() - i,
            {
                proof {
                    lemma_mat_items_prefix(iv, n as nat, i as int);
                    assert(decreases_to!(*v => (*v)->Array_0));
                    vstd::std_specs::vec::axiom_vec_index_decreases(*items, i as int);
                }
                let ghost before = usizes(out@);
                if !mat_tree_collect(&items[i], n, out) {
                    proof {
                        lemma_mat_items_prefix_none(iv, n as nat, i + 1);
                    }
                    return false;
                }
                assert(usizes(out@) =~= start + mat_items_refs(iv.take(i + 1), n as nat)->Some_0);
                i = i + 1;
            }
            assert(iv.take(items.len() as int) =~= iv);
            true
        },
        JsonValue::Null => true,
        JsonValue::Number(JsonNumber::PosInt(i)) => {
            if *i >= n as u64 {
                return false;
            }
            let ghost before = usizes(out@);
            out.push(*i as usize);
            assert(usizes(out@) =~= before + seq![*i as nat]);
            true
        },
        _ => false,
    }
}

/// Collect the local reference of one material index onto `out`.
pub(crate) fn mat_index_collect(v: &JsonValue, n: usize, out: &mut Vec<usize>) -> (ok: bool)
    ensures
        match mat_index_refs(v@, n as nat) {
            None => !ok,
            Some(refs) => ok && usizes(final(out)@) == usizes(old(out)@) + refs,
        },
{
    match v {
        JsonValue::Array(_) => false,
        _ => mat_tree_collect(v, n, out),
    }
}

/// The rewritten form of a valid material `values` tree whose definitions
/// are all in the pool.
fn mat_tree_build(v: &JsonValue, pool: &Vec<JsonValue>, defs: &[JsonValue]) -> (r: JsonValue)
    requires
        no_dups(items_view(pool@)),
        mat_tree_refs(v@, defs@.len() as nat) matches Some(refs)
            && forall|k: int| 0 <= k < refs.len() ==> items_view(pool@).contains(#[trigger] items_view(defs@)[refs[k] as int]),
    ensures
        r@ == mat_tree_out(v@, items_view(pool@), items_view(defs@)),
    decreases v,
{
    proof {
        lemma_items_view(defs@);
    }
    match v {
        JsonValue::Array(items) => {
            proof {
                lemma_items_view(items@);
            }
            let ghost iv = items_view(items@);
            let ghost n = defs@.len() as nat;
            let mut out: Vec<JsonValue> = Vec::new();
            let mut i: usize = 0;
            while i < items.len()
                invariant
                    i <= items.len(),
                    *v == JsonValue::Array(*items),
                    iv == items_view(items@),
                    iv.len() == items@.len(),
                    n == defs@.len(),
                    forall|j: int| 0 <= j < items@.len() ==> #[trigger] iv[j] == items@[j]@,
                    no_dups(items_view(pool@)),
                    mat_items_refs(iv, n) matches Some(refs)
                        && forall|k: int| 0 <= k < refs.len() ==> items_view(pool@).contains(#[trigger] items_view(defs@)[refs[k] as int]),
                    out@.len() == i,
                    forall|j: int| 0 <= j < i ==> (#[trigger] out@[j])@ == mat_tree_out(iv[j], items_view(pool@), items_view(defs@)),
                decreases items.len() - i,
            {
                proof {
                    lemma_mat_items_sub(iv, n, i as int);
                    assert(decreases_to!(*v => (*v)->Array_0));
                    vstd::std_specs::vec::axiom_vec_index_decreases(*items, i as int);
                    let all = mat_items_refs(iv, n)->Some_0;
                    let b = mat_tree_refs(iv[i as int], n)->Some_0;
                    assert forall|k: int| 0 <= k < b.len() implies items_view(pool@).contains(#[trigger] items_view(defs@)[b[k] as int]) by {
                        let w = choose|w: int| 0 <= w < all.len() && all[w] == b[k];
                        assert(items_view(pool@).contains(items_view(defs@)[all[w] as int]));
                    }
                }
                let x = mat_tree_build(&items[i], pool, defs);
                out.push(x);
                i = i + 1;
            }
            proof {
                lemma_items_view(out@);
                lemma_mat_items_out_index(iv, items_view(pool@), items_view(defs@));
                assert(items_view(out@) =~= mat_items_out(iv, items_view(pool@), items_view(defs@)));
            }
            JsonValue::Array(out)
        },
        JsonValue::Number(JsonNumber::PosInt(i)) => {
            let ghost p = items_view(pool@);
            let ghost refs = mat_tree_refs(v@, defs@.len() as nat)->Some_0;
            assert(refs[0] == *i as nat);
            let id = match find_def(pool, &defs[*i as usize]) {
                Some(id) => id,
                None => {
                    assert(false);
                    0
                },
            };
            JsonValue::Number(JsonNumber::PosInt(id as u64))
        },
        _ => JsonValue::Null,
    }
}

/// One theme's entry of a material map.
pub open spec fn mat_theme_refs(inner: JsonView, n: nat) -> Option<Seq<nat>> {
    match inner {
        JsonView::Object(_) => {
            let value_refs = match get_spec(inner, "value"@) {
                Some(v) => mat_index_refs(v, n),
                None => Some(Seq::empty()),
            };
            let values_refs = match get_spec(inner, "values"@) {
                Some(v) => mat_tree_refs(v, n),
                None => Some(Seq::empty()),
            };
            match (value_refs, values_refs) {
                (Some(a), Some(b)) => Some(a + b),
                _ => None,
            }
        },
        _ => None,
    }
}

/// The themes of a material map, in order.
pub open spec fn mat_fields_refs(fields: Seq<(Seq<char>, JsonView)>, n: nat) -> Option<Seq<nat>>
    decreases fields.len(),
{
    if fields.len() == 0 {
        Some(Seq::empty())
    } else {
        match (mat_fields_refs(fields.drop_last(), n), mat_theme_refs(fields.last().1, n)) {
            (Some(a), Some(b)) => Some(a + b),
            _ => None,
        }
    }
}

/// The theme at position `j` is the first one refused.
pub open spec fn mat_refused_at(fields: Seq<(Seq<char>, JsonView)>, n: nat, j: int) -> bool {
    &&& 0 <= j < fields.len()
    &&& mat_fields_refs(fields.take(j), n) is Some
    &&& mat_theme_refs(fields[j].1, n) is None
}

/// The error a refused material map gets: a `Schema` error naming the first
/// refused theme, or saying the map is not an object.
pub open spec fn mat_refusal(map: JsonView, n: nat, e: CityParquetError) -> bool {
    &&& e is Schema
    &&& match map {
        JsonView::Object(fields) => exists|j: int| #[trigger] mat_refused_at(fields, n, j)
            && message_of(e) == "material theme '"@ + fields[j].0 + "' is not an object of valid material indices"@,
        _ => message_of(e) == "material map must be a JSON object of theme -> {value|values}"@,
    }
}

/// The local references of a whole material map, in walk order; `None`
/// when the map is refused.
pub open spec fn mat_map_refs(map: JsonView, n: nat) -> Option<Seq<nat>> {
    match map {
        JsonView::Object(fields) => mat_fields_refs(fields, n),
        _ => None,
    }
}

/// One theme's entry rewritten: `value` then `values`, each when present.
pub open spec fn mat_theme_out(inner: JsonView, pool: Seq<JsonView>, defs: Seq<JsonView>) -> JsonView {
    let value_part = match get_spec(inner, "value"@) {
        Some(v) => seq![("value"@, mat_index_out(v, pool, defs))],
        None => Seq::empty(),
    };
    let values_part = match get_spec(inner, "values"@) {
        Some(v) => seq![("values"@, mat_tree_out(v, pool, defs))],
        None => Seq::empty(),
    };
    JsonView::Object(value_part + values_part)
}

/// A material map rewritten against the global pool.
pub open spec fn mat_map_out(map: JsonView, pool: Seq<JsonView>, defs: Seq<JsonView>) -> JsonView {
    match map {
        JsonView::Object(fields) => JsonView::Object(
            fields.map_values(|f: (Seq<char>, JsonView)| (f.0, mat_theme_out(f.1, pool, defs))),
        ),
        _ => map,
    }
}

pub(crate) proof fn lemma_mat_fields_prefix(fields: Seq<(Seq<char>, JsonView)>, n: nat, i: int)
    requires
        0 <= i < fields.len(),
    ensures
        mat_fields_refs(fields.take(i + 1), n) == match (mat_fields_refs(fields.take(i), n), mat_theme_refs(fields[i].1, n)) {
            (Some(a), Some(b)) => Some(a + b),
            _ => None::<Seq<nat>>,
        },
{
    assert(fields.take(i + 1).drop_last() =~= fields.take(i));
}

pub(crate) proof fn lemma_mat_fields_prefix_none(fields: Seq<(Seq<char>, JsonView)>, n: nat, i: int)
    requires
        0 <= i <= fields.len(),
        mat_fields_refs(fields.take(i), n) is None,
    ensures
        mat_fields_refs(fields, n) is None,
    decreases fields.len() - i,
{
    if i < fields.len() {
        lemma_mat_fields_prefix(fields, n, i);
        lemma_mat_fields_prefix_none(fields, n, i + 1);
    } else {
        assert(fields.take(i) =~= fields);
    }
}

pub(crate) proof fn lemma_mat_fields_sub(fields: Seq<(Seq<char>, JsonView)>, n: nat, j: int)
    requires
        0 <= j < fields.len(),
        mat_fields_refs(fields, n) is Some,
    ensures
        mat_theme_refs(fields[j].1, n) matches Some(b) && forall|k: int| 0 <= k < b.len()
            ==> mat_fields_refs(fields, n)->Some_0.contains(#[trigger] b[k]),
    decreases fields.len(),
{
    let a = mat_fields_refs(fields.drop_last(), n)->Some_0;
    let last = mat_theme_refs(fields.last().1, n)->Some_0;
    let all = a + last;
    if j < fields.len() - 1 {
        assert(fields.drop_last()[j] == fields[j]);
        lemma_mat_fields_sub(fields.drop_last(), n, j);
        let b = mat_theme_refs(fields[j].1, n)->Some_0;
        assert forall|k: int| 0 <= k < b.len() implies all.contains(#[trigger] b[k]) by {
            let w = choose|w: int| 0 <= w < a.len() && a[w] == b[k];
            assert(all[w] == b[k]);
        }
    } else {
        assert forall|k: int| 0 <= k < last.len() implies all.contains(#[trigger] last[k]) by {
            assert(all[a.len() + k] == last[k]);
        }
    }
}

/// The local references of one theme's entry onto `out`.
pub(crate) fn mat_theme_collect(inner: &JsonValue, n: usize, out: &mut Vec<usize>) -> (ok: bool)
    ensures
        match mat_theme_refs(inner@, n as nat) {
            None => !ok,
            Some(refs) => ok && usizes(final(out)@) == usizes(old(out)@) + refs,
        },
{
    match inner {
        JsonValue::Object(_) => {},
        _ => return false,
    }
    let ghost start = usizes(out@);
    match inner.get("value") {
        Some(v) => {
            if !mat_index_collect(v, n, out) {
                return false;
            }
        },
        None => {
            assert(usizes(out@) =~= start + Seq::<nat>::empty());
        },
    }
    let ghost mid = usizes(out@);
    match inner.get("values") {
        Some(v) => {
            if !mat_tree_collect(v, n, out) {
                return false;
            }
        },
        None => {
            assert(usizes(out@) =~= mid + Seq::<nat>::empty());
        },
    }
    proof {
        let a = match get_spec(inner@, "value"@) { Some(v) => mat_index_refs(v, n as nat), None => Some(Seq::<nat>::empty()) }->Some_0;
        let b = match get_spec(inner@, "values"@) { Some(v) => mat_tree_refs(v, n as nat), None => Some(Seq::<nat>::empty()) }->Some_0;
        assert(usizes(out@) =~= start + (a + b));
    }
    true
}

/// One theme's entry rewritten.
fn mat_theme_build(inner: &JsonValue, pool: &Vec<JsonValue>, defs: &[JsonValue]) -> (r: JsonValue)
    requires
        no_dups(items_view(pool@)),
        mat_theme_refs(inner@, defs@.len() as nat) matches Some(refs)
            && forall|k: int| 0 <= k < refs.len() ==> items_view(pool@).contains(#[trigger] items_view(defs@)[refs[k] as int]),
    ensures
        r@ == mat_theme_out(inner@, items_view(pool@), items_view(defs@)),
{
    let ghost n = defs@.len() as nat;
    let ghost refs = mat_theme_refs(inner@, n)->Some_0;
    let ghost a = match get_spec(inner@, "value"@) { Some(v) => mat_index_refs(v, n), None => Some(Seq::<nat>::empty()) }->Some_0;
    let ghost b = match get_spec(inner@, "values"@) { Some(v) => mat_tree_refs(v, n), None => Some(Seq::<nat>::empty()) }->Some_0;
    assert(refs == a + b);
    let mut fields: Vec<(std::string::String, JsonValue)> = Vec::new();
    match inner.get("value") {
        Some(v) => {
            assert forall|k: int| 0 <= k < a.len() implies items_view(pool@).contains(#[trigger] items_view(defs@)[a[k] as int]) by {
                assert(refs[k] == a[k]);
            }
            let x = mat_tree_build(v, pool, defs);
            fields.push((owned("value"), x));
        },
        None => {},
    }
    let ghost after_value = fields@;
    match inner.get("values") {
        Some(v) => {
            assert forall|k: int| 0 <= k < b.len() implies items_view(pool@).contains(#[trigger] items_view(defs@)[b[k] as int]) by {
                assert(refs[a.len() + k] == b[k]);
            }
            let x = mat_tree_build(v, pool, defs);
            fields.push((owned("values"), x));
        },
        None => {},
    }
    proof {
        lemma_fields_view(fields@);
        let pv = items_view(pool@);
        let dv = items_view(defs@);
        let vp = match get_spec(inner@, "value"@) {
            Some(v) => seq![("value"@, mat_index_out(v, pv, dv))],
            None => Seq::empty(),
        };
        let vsp = match get_spec(inner@, "values"@) {
            Some(v) => seq![("values"@, mat_tree_out(v, pv, dv))],
            None => Seq::empty(),
        };
        assert(fields_view(fields@) =~= vp + vsp);
    }
    JsonValue::Object(fields)
}

impl AppearanceInterner {
    /// Rewrite one geometry's `material` member: every integer index `i`
    /// becomes the global id of `local_defs[i]` (interned in walk order),
    /// `null` stays; a map that is not an object of theme objects, or an
    /// index that is not `null` or a non-negative integer below the number
    /// of local definitions, is a `Schema` error, and nothing is interned.
    pub fn rewrite_material_map(&mut self, map: &JsonValue, local_defs: &[JsonValue]) -> (r: Result<JsonValue>)
        requires
            old(self).wf(),
        ensures
            final(self).wf(),
            final(self).texs() == old(self).texs(),
            match mat_map_refs(map@, local_defs@.len() as nat) {
                None => r matches Err(e) && mat_refusal(map@, local_defs@.len() as nat, e)
                    && final(self).mats() == old(self).mats(),
                Some(refs) => r matches Ok(x) && x@ == mat_map_out(map@, final(self).mats(), items_view(local_defs@))
                    && final(self).mats() == dedup_append(old(self).mats(), named(refs, items_view(local_defs@))),
            },
    {
        let n = local_defs.len();
        let fields = match map {
            JsonValue::Object(fields) => fields,
            _ => return Err(schema_err("material map must be a JSON object of theme -> {value|values}")),
        };
        proof {
            lemma_fields_view(fields@);
            lemma_items_view(local_defs@);
        }
        let ghost fv = fields_view(fields@);
        assert(map@ == JsonView::Object(fv));
        // Check the whole map and collect its references in walk order.
        let mut refs: Vec<usize> = Vec::new();
        let mut i: usize = 0;
        assert(fv.take(0) =~= Seq::<(Seq<char>, JsonView)>::empty());
        assert(usizes(refs@) =~= Seq::<nat>::empty());
        while i < fields.len()
            invariant
                i <= fields@.len(),
                n == local_defs@.len(),
                fv == fields_view(fields@),
                fv.len() == fields@.len(),
                forall|j: int| 0 <= j < fields@.len() ==> #[trigger] fv[j] == (fields@[j].0@, fields@[j].1@),
                mat_fields_refs(fv.take(i as int), n as nat) matches Some(pre) && usizes(refs@) == pre,
                *self == *old(self),
                self.wf(),
                map@ == JsonView::Object(fv),
            decreases fields.len() - i,
        {
            proof {
                lemma_mat_fields_prefix(fv, n as nat, i as int);
            }
            if !mat_theme_collect(&fields[i].1, n, &mut refs) {
                proof {
                    lemma_mat_fields_prefix_none(fv, n as nat, i + 1);
                    assert(mat_refused_at(fv, n as nat, i as int));
                }
                return Err(theme_err("material theme '", fields[i].0.as_str(), "' is not an object of valid material indices"));
            }
            i = i + 1;
        }
        assert(fv.take(fields.len() as int) =~= fv);
        let ghost all = usizes(refs@);
        proof {
            assert forall|k: int| 0 <= k < refs@.len() implies (#[trigger] refs@[k]) < local_defs@.len() by {
                lemma_refs_below(fv, n as nat, k);
                assert(all[k] == refs@[k] as nat);
            }
        }
        intern_all(&mut self.materials, &refs, local_defs);
        // Build the rewritten map against the final pool.
        let mut out: Vec<(std::string::String, JsonValue)> = Vec::new();
        let mut t: usize = 0;
        while t < fields.len()
            invariant
                t <= fields@.len(),
                n == local_defs@.len(),
                fv == fields_view(fields@),
                fv.len() == fields@.len(),
                forall|j: int| 0 <= j < fields@.len() ==> #[trigger] fv[j] == (fields@[j].0@, fields@[j].1@),
                mat_fields_refs(fv, n as nat) == Some(all),
                no_dups(self.mats()),
                self.mats() == dedup_append(old(self).mats(), named(all, items_view(local_defs@))),
                named(all, items_view(local_defs@)).len() == all.len(),
                out@.len() == t,
                forall|j: int| 0 <= j < t ==> (#[trigger] out@[j]).0@ == fv[j].0
                    && out@[j].1@ == mat_theme_out(fv[j].1, self.mats(), items_view(local_defs@)),
            decreases fields.len() - t,
        {
            proof {
                lemma_mat_fields_sub(fv, n as nat, t as int);
                lemma_dedup_append(old(self).mats(), named(all, items_view(local_defs@)));
                let b = mat_theme_refs(fv[t as int].1, n as nat)->Some_0;
                assert forall|k: int| 0 <= k < b.len() implies self.mats().contains(#[trigger] items_view(local_defs@)[b[k] as int]) by {
                    let w = choose|w: int| 0 <= w < all.len() && all[w] == b[k];
                    assert(named(all, items_view(local_defs@))[w] == items_view(local_defs@)[b[k] as int]);
                }
            }
            let x = mat_theme_build(&fields[t].1, &self.materials, local_defs);
            out.push((owned(fields[t].0.as_str()), x));
            t = t + 1;
        }
        proof {
            lemma_fields_view(out@);
            assert(fields_view(out@) =~= fv.map_values(|f: (Seq<char>, JsonView)| (f.0, mat_theme_out(f.1, self.mats(), items_view(local_defs@)))));
        }
        Ok(JsonValue::Object(out))
    }
}

/// Every reference of a valid material tree is below the definitions count.
pub(crate) proof fn lemma_mat_tree_below(v: JsonView, n: nat)
    ensures
        mat_tree_refs(v, n) matches Some(r) ==> forall|k: int| 0 <= k < r.len() ==> #[trigger] r[k] < n,
    decreases v,
{
    match v {
        JsonView::Array(items) => lemma_mat_items_below(items, n),
        _ => {},
    }
}

pub(crate) proof fn lemma_mat_items_below(items: Seq<JsonView>, n: nat)
    ensures
        mat_items_refs(items, n) matches Some(r) ==> forall|k: int| 0 <= k < r.len() ==> #[trigger] r[k] < n,
    decreases items,
{
    if items.len() > 0 {
        lemma_mat_items_below(items.drop_last(), n);
        lemma_mat_tree_below(items.last(), n);
        if let (Some(a), Some(b)) = (mat_items_refs(items.drop_last(), n), mat_tree_refs(items.last(), n)) {
            assert forall|k: int| 0 <= k < (a + b).len() implies #[trigger] (a + b)[k] < n by {
                if k < a.len() {
                    assert((a + b)[k] == a[k]);
                } else {
                    assert((a + b)[k] == b[k - a.len()]);
                }
            }
        }
    }
}

/// Every reference of a valid material map is below the definitions count.
pub(crate) proof fn lemma_refs_below(fv: Seq<(Seq<char>, JsonView)>, n: nat, k: int)
    requires
        mat_fields_refs(fv, n) matches Some(all) && 0 <= k < all.len(),
    ensures
        mat_fields_refs(fv, n)->Some_0[k] < n,
    decreases fv.len(),
{
    let a = mat_fields_refs(fv.drop_last(), n)->Some_0;
    let inner = fv.last().1;
    let b = mat_theme_refs(inner, n)->Some_0;
    if k < a.len() {
        lemma_refs_below(fv.drop_last(), n, k);
        assert((a + b)[k] == a[k]);
    } else {
        let va = match get_spec(inner, "value"@) { Some(v) => mat_index_refs(v, n), None => Some(Seq::<nat>::empty()) }->Some_0;
        let vb = match get_spec(inner, "values"@) { Some(v) => mat_tree_refs(v, n), None => Some(Seq::<nat>::empty()) }->Some_0;
        match get_spec(inner, "values"@) {
            Some(v) => lemma_mat_tree_below(v, n),
            None => {},
        }
        let q = k - a.len();
        assert((a + b)[k] == b[q]);
        if q < va.len() {
            assert(b[q] == va[q]);
        } else {
            assert(b[q] == vb[q - va.len()]);
        }
    }
}

// ------------------------------------------------------------ textures ----

/// The UV pools of a feature, as value views.
pub open spec fn uvs_view(uvs: Seq<Vec<JsonValue>>) -> Seq<Seq<JsonView>> {
    uvs.map_values(|u: Vec<JsonValue>| items_view(u@))
}

/// A texture ring: non-empty, its first element a number or `null`, and
/// none of its elements an array.
pub open spec fn is_ring(items: Seq<JsonView>) -> bool {
    &&& items.len() > 0
    &&& (items[0] is Number || items[0] is Null)
    &&& forall|k: int| 0 <= k < items.len() ==> !((#[trigger] items[k]) is Array)
}

/// A UV reference names a pool vertex with at least two coordinates.
pub open spec fn uv_ok(u: JsonView, uvs: Seq<Seq<JsonView>>) -> bool {
    u matches JsonView::Number(NumView::PosInt(i)) && i < uvs.len() && uvs[i as int].len() >= 2
}

/// The local texture reference of a ring: none for `[null]` or a `null`
/// texture; `None` when the texture index or a UV reference is invalid.
pub open spec fn ring_refs(items: Seq<JsonView>, n: nat, uvs: Seq<Seq<JsonView>>) -> Option<Seq<nat>> {
    if items.len() == 1 && items[0] is Null {
        Some(Seq::empty())
    } else if !(forall|k: int| 1 <= k < items.len() ==> uv_ok(#[trigger] items[k], uvs)) {
        None
    } else {
        match items[0] {
            JsonView::Null => Some(Seq::empty()),
            JsonView::Number(NumView::PosInt(i)) => if i < n { Some(seq![i as nat]) } else { None },
            _ => None,
        }
    }
}

/// The local texture references of a texture `values` tree, depth first.
pub open spec fn tex_tree_refs(v: JsonView, n: nat, uvs: Seq<Seq<JsonView>>) -> Option<Seq<nat>>
    decreases v,
{
    match v {
        JsonView::Array(items) => if is_ring(items) { ring_refs(items, n, uvs) } else { tex_items_refs(items, n, uvs) },
        _ => None,
    }
}

pub open spec fn tex_items_refs(items: Seq<JsonView>, n: nat, uvs: Seq<Seq<JsonView>>) -> Option<Seq<nat>>
    decreases items,
{
    if items.len() == 0 {
        Some(Seq::empty())
    } else {
        match (tex_items_refs(items.drop_last(), n, uvs), tex_tree_refs(items.last(), n, uvs)) {
            (Some(a), Some(b)) => Some(a + b),
            _ => None,
        }
    }
}

/// The inlined `[u, v]` pair of a UV reference.
pub open spec fn uv_pair(u: JsonView, uvs: Seq<Seq<JsonView>>) -> JsonView {
    let i = (u->Number_0->PosInt_0) as int;
    JsonView::Array(seq![uvs[i][0], uvs[i][1]])
}

/// A ring rewritten: the texture index becomes the global id, every UV
/// reference its inlined pair; `[null]` stays.
pub open spec fn ring_out(items: Seq<JsonView>, pool: Seq<JsonView>, defs: Seq<JsonView>, uvs: Seq<Seq<JsonView>>) -> JsonView {
    if items.len() == 1 && items[0] is Null {
        JsonView::Array(seq![JsonView::Null])
    } else {
        let head = match items[0] {
            JsonView::Number(NumView::PosInt(i)) => JsonView::Number(NumView::PosInt(index_of(pool, defs[i as int]) as u64)),
            _ => JsonView::Null,
        };
        JsonView::Array(seq![head] + Seq::new((items.len() - 1) as nat, |k: int| uv_pair(items[k + 1], uvs)))
    }
}

/// A texture `values` tree rewritten.
pub open spec fn tex_tree_out(v: JsonView, pool: Seq<JsonView>, defs: Seq<JsonView>, uvs: Seq<Seq<JsonView>>) -> JsonView
    decreases v,
{
    match v {
        JsonView::Array(items) => if is_ring(items) {
            ring_out(items, pool, defs, uvs)
        } else {
            JsonView::Array(tex_items_out(items, pool, defs, uvs))
        },
        _ => v,
    }
}

pub open spec fn tex_items_out(items: Seq<JsonView>, pool: Seq<JsonView>, defs: Seq<JsonView>, uvs: Seq<Seq<JsonView>>) -> Seq<JsonView>
    decreases items,
{
    if items.len() == 0 {
        Seq::empty()
    } else {
        tex_items_out(items.drop_last(), pool, defs, uvs).push(tex_tree_out(items.last(), pool, defs, uvs))
    }
}

proof fn lemma_tex_items_prefix(items: Seq<JsonView>, n: nat, uvs: Seq<Seq<JsonView>>, i: int)
    requires
        0 <= i < items.len(),
    ensures
        tex_items_refs(items.take(i + 1), n, uvs) == match (tex_items_refs(items.take(i), n, uvs), tex_tree_refs(items[i], n, uvs)) {
            (Some(a), Some(b)) => Some(a + b),
            _ => None::<Seq<nat>>,
        },
{
    assert(items.take(i + 1).drop_last() =~= items.take(i));
}

proof fn lemma_tex_items_prefix_none(items: Seq<JsonView>, n: nat, uvs: Seq<Seq<JsonView>>, i: int)
    requires
        0 <= i <= items.len(),
        tex_items_refs(items.take(i), n, uvs) is None,
    ensures
        tex_items_refs(items, n, uvs) is None,
    decreases items.len() - i,
{
    if i < items.len() {
        lemma_tex_items_prefix(items, n, uvs, i);
        lemma_tex_items_prefix_none(items, n, uvs, i + 1);
    } else {
        assert(items.take(i) =~= items);
    }
}

pub proof fn lemma_tex_items_sub(items: Seq<JsonView>, n: nat, uvs: Seq<Seq<JsonView>>, j: int)
    requires
        0 <= j < items.len(),
        tex_items_refs(items, n, uvs) is Some,
    ensures
        tex_tree_refs(items[j], n, uvs) matches Some(b) && forall|k: int| 0 <= k < b.len()
            ==> tex_items_refs(items, n, uvs)->Some_0.contains(#[trigger] b[k]),
    decreases items.len(),
{
    let a = tex_items_refs(items.drop_last(), n, uvs)->Some_0;
    let last = tex_tree_refs(items.last(), n, uvs)->Some_0;
    let all = a + last;
    if j < items.len() - 1 {
        assert(items.drop_last()[j] == items[j]);
        lemma_tex_items_sub(items.drop_last(), n, uvs, j);
        let b = tex_tree_refs(items[j], n, uvs)->Some_0;
        assert forall|k: int| 0 <= k < b.len() implies all.contains(#[trigger] b[k]) by {
            let w = choose|w: int| 0 <= w < a.len() && a[w] == b[k];
            assert(all[w] == b[k]);
        }
    } else {
        assert forall|k: int| 0 <= k < last.len() implies all.contains(#[trigger] last[k]) by {
            assert(all[a.len() + k] == last[k]);
        }
    }
}

pub proof fn lemma_tex_items_out_index(items: Seq<JsonView>, pool: Seq<JsonView>, defs: Seq<JsonView>, uvs: Seq<Seq<JsonView>>)
    ensures
        tex_items_out(items, pool, defs, uvs).len() == items.len(),
        forall|j: int| 0 <= j < items.len() ==> #[trigger] tex_items_out(items, pool, defs, uvs)[j] == tex_tree_out(items[j], pool, defs, uvs),
    decreases items.len(),
{
    if items.len() > 0 {
        lemma_tex_items_out_index(items.drop_last(), pool, defs, uvs);
        assert forall|j: int| 0 <= j < items.len() implies #[trigger] tex_items_out(items, pool, defs, uvs)[j] == tex_tree_out(items[j], pool, defs, uvs) by {
            if j < items.len() - 1 {
                assert(items.drop_last()[j] == items[j]);
            }
        }
    }
}

proof fn lemma_tex_tree_below(v: JsonView, n: nat, uvs: Seq<Seq<JsonView>>)
    ensures
        tex_tree_refs(v, n, uvs) matches Some(r) ==> forall|k: int| 0 <= k < r.len() ==> #[trigger] r[k] < n,
    decreases v,
{
    match v {
        JsonView::Array(items) => if !is_ring(items) {
            lemma_tex_items_below(items, n, uvs);
        },
        _ => {},
    }
}

proof fn lemma_tex_items_below(items: Seq<JsonView>, n: nat, uvs: Seq<Seq<JsonView>>)
    ensures
        tex_items_refs(items, n, uvs) matches Some(r) ==> forall|k: int| 0 <= k < r.len() ==> #[trigger] r[k] < n,
    decreases items,
{
    if items.len() > 0 {
        lemma_tex_items_below(items.drop_last(), n, uvs);
        lemma_tex_tree_below(items.last(), n, uvs);
        if let (Some(a), Some(b)) = (tex_items_refs(items.drop_last(), n, uvs), tex_tree_refs(items.last(), n, uvs)) {
            assert forall|k: int| 0 <= k < (a + b).len() implies #[trigger] (a + b)[k] < n by {
                if k < a.len() {
                    assert((a + b)[k] == a[k]);
                } else {
                    assert((a + b)[k] == b[k - a.len()]);
                }
            }
        }
    }
}

fn is_texture_ring(items: &Vec<JsonValue>) -> (r: bool)
    ensures
        r == is_ring(items_view(items@)),
{
    proof {
        lemma_items_view(items@);
    }
    let ghost iv = items_view(items@);
    if items.len() == 0 {
        return false;
    }
    match &items[0] {
        JsonValue::Number(_) | JsonValue::Null => {},
        _ => return false,
    }
    let mut k: usize = 0;
    while k < items.len()
        invariant
            k <= items@.len(),
            iv == items_view(items@),
            iv.len() == items@.len(),
            forall|j: int| 0 <= j < items@.len() ==> #[trigger] iv[j] == items@[j]@,
            forall|j: int| 0 <= j < k ==> !((#[trigger] iv[j]) is Array),
        decreases items.len() - k,
    {
        if let JsonValue::Array(_) = &items[k] {
            assert(iv[k as int] is Array);
            return false;
        }
        k = k + 1;
    }
    true
}

/// Collect the local texture reference of a ring onto `out`.
fn ring_collect(items: &Vec<JsonValue>, n: usize, uvs: &[Vec<JsonValue>], out: &mut Vec<usize>) -> (ok: bool)
    requires
        is_ring(items_view(items@)),
    ensures
        match ring_refs(items_view(items@), n as nat, uvs_view(uvs@)) {
            None => !ok,
            Some(refs) => ok && usizes(final(out)@) == usizes(old(out)@) + refs,
        },
{
    proof {
        lemma_items_view(items@);
    }
    let ghost iv = items_view(items@);
    let ghost uv = uvs_view(uvs@);
    let ghost start = usizes(out@);
    if items.len() == 1 && items[0].is_null() {
        assert(usizes(out@) =~= start + Seq::<nat>::empty());
        return true;
    }
    // Every following element must name a UV vertex with two coordinates.
    let mut k: usize = 1;
    while k < items.len()
        invariant
            1 <= k <= items@.len() || items@.len() == 0,
            iv == items_view(items@),
            iv.len() == items@.len(),
            uv == uvs_view(uvs@),
            forall|j: int| 0 <= j < items@.len() ==> #[trigger] iv[j] == items@[j]@,
            forall|j: int| 1 <= j < k ==> uv_ok(#[trigger] iv[j], uv),
        decreases items.len() - k,
    {
        let ok = match &items[k] {
            JsonValue::Number(JsonNumber::PosInt(i)) => {
                if *i < uvs.len() as u64 {
                    proof {
                        lemma_items_view(uvs@[*i as int]@);
                        assert(uv[*i as int] == items_view(uvs@[*i as int]@));
                    }
                    uvs[*i as usize].len() >= 2
                } else {
                    false
                }
            },
            _ => false,
        };
        if !ok {
            assert(!uv_ok(iv[k as int], uv));
            return false;
        }
        k = k + 1;
    }
    if items.len() == 0 {
        return false;
    }
    match &items[0] {
        JsonValue::Null => {
            assert(usizes(out@) =~= start + Seq::<nat>::empty());
            true
        },
        JsonValue::Number(JsonNumber::PosInt(i)) => {
            if *i >= n as u64 {
                return false;
            }
            out.push(*i as usize);
            assert(usizes(out@) =~= start + seq![*i as nat]);
            true
        },
        _ => false,
    }
}

/// Collect the local texture references of a texture `values` tree onto
/// `out`; `false` when the tree is invalid.
fn tex_tree_collect(v: &JsonValue, n: usize, uvs: &[Vec<JsonValue>], out: &mut Vec<usize>) -> (ok: bool)
    ensures
        match tex_tree_refs(v@, n as nat, uvs_view(uvs@)) {
            None => !ok,
            Some(refs) => ok && usizes(final(out)@) == usizes(old(out)@) + refs,
        },
    decreases v,
{
    match v {
        JsonValue::Array(items) => {
            if is_texture_ring(items) {
                return ring_collect(items, n, uvs, out);
            }
            proof {
                lemma_items_view(items@);
            }
            let ghost iv = items_view(items@);
            let ghost uv = uvs_view(uvs@);
            let ghost start = usizes(out@);
            let mut i: usize = 0;
            assert(iv.take(0) =~= Seq::<JsonView>::empty());
            assert(usizes(out@) =~= start + Seq::<nat>::empty());
            while i < items.len()
                invariant
                    i <= items.len(),
                    *v == JsonValue::Array(*items),
                    iv == items_view(items@),
                    iv.len() == items@.len(),
                    uv == uvs_view(uvs@),
                    !is_ring(iv),
                    forall|j: int| 0 <= j < items@.len() ==> #[trigger] iv[j] == items@[j]@,
                    tex_items_refs(iv.take(i as int), n as nat, uv) matches Some(pre) && usizes(out@) == start + pre,
                decreases items.len() - i,
            {
                proof {
                    lemma_tex_items_prefix(iv, n as nat, uv, i as int);
                    assert(decreases_to!(*v => (*v)->Array_0));
                    vstd::std_specs::vec::axiom_vec_index_decreases(*items, i as int);
                }
                if !tex_tree_collect(&items[i], n, uvs, out) {
                    proof {
                        lemma_tex_items_prefix_none(iv, n as nat, uv, i + 1);
                    }
                    return false;
                }
                assert(usizes(out@) =~= start + tex_items_refs(iv.take(i + 1), n as nat, uv)->Some_0);
                i = i + 1;
            }
            assert(iv.take(items.len() as int) =~= iv);
            true
        },
        _ => false,
    }
}

/// A valid ring rewritten against the pool.
fn ring_build(items: &Vec<JsonValue>, pool: &Vec<JsonValue>, defs: &[JsonValue], uvs: &[Vec<JsonValue>]) -> (r: JsonValue)
    requires
        no_dups(items_view(pool@)),
        is_ring(items_view(items@)),
        ring_refs(items_view(items@), defs@.len() as nat, uvs_view(uvs@)) matches Some(refs)
            && forall|k: int| 0 <= k < refs.len() ==> items_view(pool@).contains(#[trigger] items_view(defs@)[refs[k] as int]),
    ensures
        r@ == ring_out(items_view(items@), items_view(pool@), items_view(defs@), uvs_view(uvs@)),
{
    proof {
        lemma_items_view(items@);
        lemma_items_view(defs@);
    }
    let ghost iv = items_view(items@);
    let ghost uv = uvs_view(uvs@);
    let ghost pv = items_view(pool@);
    let ghost dv = items_view(defs@);
    if items.len() == 1 && items[0].is_null() {
        let mut one: Vec<JsonValue> = Vec::new();
        one.push(JsonValue::Null);
        proof {
            lemma_items_view(one@);
            assert(items_view(one@) =~= seq![JsonView::Null]);
        }
        return JsonValue::Array(one);
    }
    let mut out: Vec<JsonValue> = Vec::new();
    let head = match &items[0] {
        JsonValue::Number(JsonNumber::PosInt(i)) => {
            let ghost refs = ring_refs(iv, defs@.len() as nat, uv)->Some_0;
            assert(refs[0] == *i as nat);
            let id = match find_def(pool, &defs[*i as usize]) {
                Some(id) => id,
                None => {
                    assert(false);
                    0
                },
            };
            JsonValue::Number(JsonNumber::PosInt(id as u64))
        },
        _ => JsonValue::Null,
    };
    out.push(head);
    let mut k: usize = 1;
    while k < items.len()
        invariant
            1 <= k <= items@.len(),
            iv == items_view(items@),
            iv.len() == items@.len(),
            uv == uvs_view(uvs@),
            forall|j: int| 0 <= j < items@.len() ==> #[trigger] iv[j] == items@[j]@,
            forall|j: int| 1 <= j < items@.len() ==> uv_ok(#[trigger] iv[j], uv),
            out@.len() == k,
            out@[0]@ == ring_out(iv, pv, dv, uv)->Array_0[0],
            forall|j: int| 1 <= j < k ==> (#[trigger] out@[j])@ == uv_pair(iv[j], uv),
        decreases items.len() - k,
    {
        let u = match &items[k] {
            JsonValue::Number(JsonNumber::PosInt(i)) => *i as usize,
            _ => 0,
        };
        assert(uv_ok(iv[k as int], uv));
        let pair_src = &uvs[u];
        proof {
            lemma_items_view(pair_src@);
            assert(uv[u as int] == items_view(pair_src@));
        }
        let mut pair: Vec<JsonValue> = Vec::new();
        pair.push(clone_json(&pair_src[0]));
        pair.push(clone_json(&pair_src[1]));
        proof {
            lemma_items_view(pair@);
            assert(items_view(pair@) =~= seq![uv[u as int][0], uv[u as int][1]]);
        }
        out.push(JsonValue::Array(pair));
        k = k + 1;
    }
    proof {
        lemma_items_view(out@);
        assert(items_view(out@) =~= ring_out(iv, pv, dv, uv)->Array_0);
    }
    JsonValue::Array(out)
}

/// A valid texture `values` tree rewritten against the pool.
fn tex_tree_build(v: &JsonValue, pool: &Vec<JsonValue>, defs: &[JsonValue], uvs: &[Vec<JsonValue>]) -> (r: JsonValue)
    requires
        no_dups(items_view(pool@)),
        tex_tree_refs(v@, defs@.len() as nat, uvs_view(uvs@)) matches Some(refs)
            && forall|k: int| 0 <= k < refs.len() ==> items_view(pool@).contains(#[trigger] items_view(defs@)[refs[k] as int]),
    ensures
        r@ == tex_tree_out(v@, items_view(pool@), items_view(defs@), uvs_view(uvs@)),
    decreases v,
{
    match v {
        JsonValue::Array(items) => {
            if is_texture_ring(items) {
                return ring_build(items, pool, defs, uvs);
            }
            proof {
                lemma_items_view(items@);
            }
            let ghost iv = items_view(items@);
            let ghost uv = uvs_view(uvs@);
            let ghost n = defs@.len() as nat;
            let mut out: Vec<JsonValue> = Vec::new();
            let mut i: usize = 0;
            while i < items.len()
                invariant
                    i <= items.len(),
                    *v == JsonValue::Array(*items),
                    iv == items_view(items@),
                    iv.len() == items@.len(),
                    uv == uvs_view(uvs@),
                    n == defs@.len(),
                    !is_ring(iv),
                    forall|j: int| 0 <= j < items@.len() ==> #[trigger] iv[j] == items@[j]@,
                    no_dups(items_view(pool@)),
                    tex_items_refs(iv, n, uv) matches Some(refs)
                        && forall|k: int| 0 <= k < refs.len() ==> items_view(pool@).contains(#[trigger] items_view(defs@)[refs[k] as int]),
                    out@.len() == i,
                    forall|j: int| 0 <= j < i ==> (#[trigger] out@[j])@ == tex_tree_out(iv[j], items_view(pool@), items_view(defs@), uv),
                decreases items.len() - i,
            {
                proof {
                    lemma_tex_items_sub(iv, n, uv, i as int);
                    assert(decreases_to!(*v => (*v)->Array_0));
                    vstd::std_specs::vec::axiom_vec_index_decreases(*items, i as int);
                    let all = tex_items_refs(iv, n, uv)->Some_0;
                    let b = tex_tree_refs(iv[i as int], n, uv)->Some_0;
                    assert forall|k: int| 0 <= k < b.len() implies items_view(pool@).contains(#[trigger] items_view(defs@)[b[k] as int]) by {
                        let w = choose|w: int| 0 <= w < all.len() && all[w] == b[k];
                        assert(items_view(pool@).contains(items_view(defs@)[all[w] as int]));
                    }
                }
                let x = tex_tree_build(&items[i], pool, defs, uvs);
                out.push(x);
                i = i + 1;
            }
            proof {
                lemma_items_view(out@);
                lemma_tex_items_out_index(iv, items_view(pool@), items_view(defs@), uv);
                assert(items_view(out@) =~= tex_items_out(iv, items_view(pool@), items_view(defs@), uv));
            }
            JsonValue::Array(out)
        },
        _ => JsonValue::Null,
    }
}

/// One theme's entry of a texture map: an object with `values`.
pub open spec fn tex_theme_refs(inner: JsonView, n: nat, uvs: Seq<Seq<JsonView>>) -> Option<Seq<nat>> {
    match inner {
        JsonView::Object(_) => match get_spec(inner, "values"@) {
            Some(v) => tex_tree_refs(v, n, uvs),
            None => None,
        },
        _ => None,
    }
}

pub open spec fn tex_fields_refs(fields: Seq<(Seq<char>, JsonView)>, n: nat, uvs: Seq<Seq<JsonView>>) -> Option<Seq<nat>>
    decreases fields.len(),
{
    if fields.len() == 0 {
        Some(Seq::empty())
    } else {
        match (tex_fields_refs(fields.drop_last(), n, uvs), tex_theme_refs(fields.last().1, n, uvs)) {
            (Some(a), Some(b)) => Some(a + b),
            _ => None,
        }
    }
}

/// The theme at position `j` is the first one refused.
pub open spec fn tex_refused_at(fields: Seq<(Seq<char>, JsonView)>, n: nat, uvs: Seq<Seq<JsonView>>, j: int) -> bool {
    &&& 0 <= j < fields.len()
    &&& tex_fields_refs(fields.take(j), n, uvs) is Some
    &&& tex_theme_refs(fields[j].1, n, uvs) is None
}

/// The error a refused texture map gets: a `Schema` error naming the first
/// refused theme, or saying the map is not an object.
pub open spec fn tex_refusal(map: JsonView, n: nat, uvs: Seq<Seq<JsonView>>, e: CityParquetError) -> bool {
    &&& e is Schema
    &&& match map {
        JsonView::Object(fields) => exists|j: int| #[trigger] tex_refused_at(fields, n, uvs, j)
            && message_of(e) == "texture theme '"@ + fields[j].0 + "' is not an object of valid texture rings under 'values'"@,
        _ => message_of(e) == "texture map must be a JSON object of theme -> {values}"@,
    }
}

/// The local texture references of a whole texture map, in walk order;
/// `None` when the map is refused.
pub open spec fn tex_map_refs(map: JsonView, n: nat, uvs: Seq<Seq<JsonView>>) -> Option<Seq<nat>> {
    match map {
        JsonView::Object(fields) => tex_fields_refs(fields, n, uvs),
        _ => None,
    }
}

/// A texture map rewritten against the global pool.
pub open spec fn tex_map_out(map: JsonView, pool: Seq<JsonView>, defs: Seq<JsonView>, uvs: Seq<Seq<JsonView>>) -> JsonView {
    match map {
        JsonView::Object(fields) => JsonView::Object(fields.map_values(|f: (Seq<char>, JsonView)|
            (f.0, JsonView::Object(seq![("values"@, tex_tree_out(get_spec(f.1, "values"@)->Some_0, pool, defs, uvs))])))),
        _ => map,
    }
}

proof fn lemma_tex_fields_prefix(fields: Seq<(Seq<char>, JsonView)>, n: nat, uvs: Seq<Seq<JsonView>>, i: int)
    requires
        0 <= i < fields.len(),
    ensures
        tex_fields_refs(fields.take(i + 1), n, uvs) == match (tex_fields_refs(fields.take(i), n, uvs), tex_theme_refs(fields[i].1, n, uvs)) {
            (Some(a), Some(b)) => Some(a + b),
            _ => None::<Seq<nat>>,
        },
{
    assert(fields.take(i + 1).drop_last() =~= fields.take(i));
}

proof fn lemma_tex_fields_prefix_none(fields: Seq<(Seq<char>, JsonView)>, n: nat, uvs: Seq<Seq<JsonView>>, i: int)
    requires
        0 <= i <= fields.len(),
        tex_fields_refs(fields.take(i), n, uvs) is None,
    ensures
        tex_fields_refs(fields, n, uvs) is None,
    decreases fields.len() - i,
{
    if i < fields.len() {
        lemma_tex_fields_prefix(fields, n, uvs, i);
        lemma_tex_fields_prefix_none(fields, n, uvs, i + 1);
    } else {
        assert(fields.take(i) =~= fields);
    }
}

proof fn lemma_tex_fields_sub(fields: Seq<(Seq<char>, JsonView)>, n: nat, uvs: Seq<Seq<JsonView>>, j: int)
    requires
        0 <= j < fields.len(),
        tex_fields_refs(fields, n, uvs) is Some,
    ensures
        tex_theme_refs(fields[j].1, n, uvs) matches Some(b) && forall|k: int| 0 <= k < b.len()
            ==> tex_fields_refs(fields, n, uvs)->Some_0.contains(#[trigger] b[k]),
    decreases fields.len(),
{
    let a = tex_fields_refs(fields.drop_last(), n, uvs)->Some_0;
    let last = tex_theme_refs(fields.last().1, n, uvs)->Some_0;
    let all = a + last;
    if j < fields.len() - 1 {
        assert(fields.drop_last()[j] == fields[j]);
        lemma_tex_fields_sub(fields.drop_last(), n, uvs, j);
        let b = tex_theme_refs(fields[j].1, n, uvs)->Some_0;
        assert forall|k: int| 0 <= k < b.len() implies all.contains(#[trigger] b[k]) by {
            let w = choose|w: int| 0 <= w < a.len() && a[w] == b[k];
            assert(all[w] == b[k]);
        }
    } else {
        assert forall|k: int| 0 <= k < last.len() implies all.contains(#[trigger] last[k]) by {
            assert(all[a.len() + k] == last[k]);
        }
    }
}

proof fn lemma_tex_refs_below(fv: Seq<(Seq<char>, JsonView)>, n: nat, uvs: Seq<Seq<JsonView>>, k: int)
    requires
        tex_fields_refs(fv, n, uvs) matches Some(all) && 0 <= k < all.len(),
    ensures
        tex_fields_refs(fv, n, uvs)->Some_0[k] < n,
    decreases fv.len(),
{
    let a = tex_fields_refs(fv.drop_last(), n, uvs)->Some_0;
    let inner = fv.last().1;
    let b = tex_theme_refs(inner, n, uvs)->Some_0;
    if k < a.len() {
        lemma_tex_refs_below(fv.drop_last(), n, uvs, k);
        assert((a + b)[k] == a[k]);
    } else {
        lemma_tex_tree_below(get_spec(inner, "values"@)->Some_0, n, uvs);
        assert((a + b)[k] == b[k - a.len()]);
    }
}

impl AppearanceInterner {
    /// Rewrite one geometry's `texture` member: in each ring
    /// `[t, uv0, uv1, ...]`, `t` becomes the global id of `local_defs[t]`
    /// (interned in walk order) and every UV reference its inlined `[u, v]`
    /// pair from `local_uvs`; `[null]` stays. A map that is not an object of
    /// theme objects with `values`, a non-array node, or an invalid texture
    /// or UV reference is a `Schema` error, and nothing is interned.
    pub fn rewrite_texture_map(&mut self, map: &JsonValue, local_defs: &[JsonValue], local_uvs: &[Vec<JsonValue>]) -> (r: Result<JsonValue>)
        requires
            old(self).wf(),
        ensures
            final(self).wf(),
            final(self).mats() == old(self).mats(),
            match tex_map_refs(map@, local_defs@.len() as nat, uvs_view(local_uvs@)) {
                None => r matches Err(e) && tex_refusal(map@, local_defs@.len() as nat, uvs_view(local_uvs@), e)
                    && final(self).texs() == old(self).texs(),
                Some(refs) => r matches Ok(x) && x@ == tex_map_out(map@, final(self).texs(), items_view(local_defs@), uvs_view(local_uvs@))
                    && final(self).texs() == dedup_append(old(self).texs(), named(refs, items_view(local_defs@))),
            },
    {
        let n = local_defs.len();
        let ghost uv = uvs_view(local_uvs@);
        let fields = match map {
            JsonValue::Object(fields) => fields,
            _ => return Err(schema_err("texture map must be a JSON object of theme -> {values}")),
        };
        proof {
            lemma_fields_view(fields@);
            lemma_items_view(local_defs@);
        }
        let ghost fv = fields_view(fields@);
        assert(map@ == JsonView::Object(fv));
        let mut refs: Vec<usize> = Vec::new();
        let mut i: usize = 0;
        assert(fv.take(0) =~= Seq::<(Seq<char>, JsonView)>::empty());
        assert(usizes(refs@) =~= Seq::<nat>::empty());
        while i < fields.len()
            invariant
                i <= fields@.len(),
                n == local_defs@.len(),
                uv == uvs_view(local_uvs@),
                fv == fields_view(fields@),
                fv.len() == fields@.len(),
                forall|j: int| 0 <= j < fields@.len() ==> #[trigger] fv[j] == (fields@[j].0@, fields@[j].1@),
                tex_fields_refs(fv.take(i as int), n as nat, uv) matches Some(pre) && usizes(refs@) == pre,
                *self == *old(self),
                self.wf(),
                map@ == JsonView::Object(fv),
            decreases fields.len() - i,
        {
            proof {
                lemma_tex_fields_prefix(fv, n as nat, uv, i as int);
            }
            let inner = &fields[i].1;
            let ok = match inner {
                JsonValue::Object(_) => match inner.get("values") {
                    Some(v) => tex_tree_collect(v, n, local_uvs, &mut refs),
                    None => false,
                },
                _ => false,
            };
            if !ok {
                proof {
                    lemma_tex_fields_prefix_none(fv, n as nat, uv, i + 1);
                    assert(tex_refused_at(fv, n as nat, uv, i as int));
                }
                return Err(theme_err("texture theme '", fields[i].0.as_str(), "' is not an object of valid texture rings under 'values'"));
            }
            i = i + 1;
        }
        assert(fv.take(fields.len() as int) =~= fv);
        let ghost all = usizes(refs@);
        proof {
            assert forall|k: int| 0 <= k < refs@.len() implies (#[trigger] refs@[k]) < local_defs@.len() by {
                lemma_tex_refs_below(fv, n as nat, uv, k);
                assert(all[k] == refs@[k] as nat);
            }
        }
        intern_all(&mut self.textures, &refs, local_defs);
        let mut out: Vec<(std::string::String, JsonValue)> = Vec::new();
        let mut t: usize = 0;
        while t < fields.len()
            invariant
                t <= fields@.len(),
                n == local_defs@.len(),
                uv == uvs_view(local_uvs@),
                fv == fields_view(fields@),
                fv.len() == fields@.len(),
                forall|j: int| 0 <= j < fields@.len() ==> #[trigger] fv[j] == (fields@[j].0@, fields@[j].1@),
                tex_fields_refs(fv, n as nat, uv) == Some(all),
                no_dups(self.texs()),
                self.texs() == dedup_append(old(self).texs(), named(all, items_view(local_defs@))),
                named(all, items_view(local_defs@)).len() == all.len(),
                out@.len() == t,
                forall|j: int| 0 <= j < t ==> (#[trigger] out@[j]).0@ == fv[j].0
                    && out@[j].1@ == JsonView::Object(seq![("values"@, tex_tree_out(get_spec(fv[j].1, "values"@)->Some_0, self.texs(), items_view(local_defs@), uv))]),
            decreases fields.len() - t,
        {
            proof {
                lemma_tex_fields_sub(fv, n as nat, uv, t as int);
                lemma_dedup_append(old(self).texs(), named(all, items_view(local_defs@)));
            }
            let inner = &fields[t].1;
            let values = match inner.get("values") {
                Some(v) => v,
                None => {
                    assert(false);
                    inner
                },
            };
            proof {
                let b = tex_theme_refs(fv[t as int].1, n as nat, uv)->Some_0;
                assert(tex_tree_refs(values@, n as nat, uv) == Some(b));
                assert forall|k: int| 0 <= k < b.len() implies items_view(self.textures@).contains(#[trigger] items_view(local_defs@)[b[k] as int]) by {
                    let w = choose|w: int| 0 <= w < all.len() && all[w] == b[k];
                    assert(named(all, items_view(local_defs@))[w] == items_view(local_defs@)[b[k] as int]);
                }
            }
            let x = tex_tree_build(values, &self.textures, local_defs, local_uvs);
            let mut inner_out: Vec<(std::string::String, JsonValue)> = Vec::new();
            inner_out.push((owned("values"), x));
            proof {
                lemma_fields_view(inner_out@);
                assert(fields_view(inner_out@) =~= seq![("values"@, x@)]);
            }
            out.push((owned(fields[t].0.as_str()), JsonValue::Object(inner_out)));
            t = t + 1;
        }
        proof {
            lemma_fields_view(out@);
            assert(fields_view(out@) =~= fv.map_values(|f: (Seq<char>, JsonView)|
                (f.0, JsonView::Object(seq![("values"@, tex_tree_out(get_spec(f.1, "values"@)->Some_0, self.texs(), items_view(local_defs@), uv))]))));
        }
        Ok(JsonValue::Object(out))
    }
}

} // verus!
