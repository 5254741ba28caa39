//! Per-feature pools used by the export: the vertex pool that interns
//! quantised coordinate triples without duplicates, the template pool that
//! interns raw triples by their bit patterns, and the grouping of items by a
//! string key in order of first appearance.

use vstd::prelude::*;
use crate::text::{chars_of, seq_eq};

verus! {

broadcast use vstd::array::group_array_axioms;

// ------------------------------------------------------------ vertices ----

/// A feature's vertex pool: quantised XYZ triples, each stored once, in
/// order of first interning.
pub struct VertexInterner {
    vertices: Vec<Vec<i64>>,
}

/// The triple as a sequence.
pub open spec fn triple_view(c: [i64; 3]) -> Seq<i64> {
    c@
}

/// A pool is well formed: every vertex is a triple and none occurs twice.
pub open spec fn pool_wf(v: Seq<Seq<i64>>) -> bool {
    &&& forall|i: int| 0 <= i < v.len() ==> (#[trigger] v[i]).len() == 3
    &&& forall|i: int, j: int| 0 <= i < v.len() && 0 <= j < v.len() && i != j ==> v[i] != v[j]
}

impl View for VertexInterner {
    type V = Seq<Seq<i64>>;

    closed spec fn view(&self) -> Seq<Seq<i64>> {
        self.vertices@.map_values(|v: Vec<i64>| v@)
    }
}

/// The position of triple `c` in a pool.
fn find_vertex(vertices: &Vec<Vec<i64>>, c: [i64; 3]) -> (r: Option<usize>)
    ensures
        match r {
            Some(i) => i < vertices@.len() && vertices@[i as int]@ == triple_view(c),
            None => forall|j: int| 0 <= j < vertices@.len() ==> (#[trigger] vertices@[j])@ != triple_view(c),
        },
{
    let ghost t = triple_view(c);
    let c0 = c[0];
    let c1 = c[1];
    let c2 = c[2];
    assert(t.len() == 3);
    assert(t[0] == c0 && t[1] == c1 && t[2] == c2);
    let mut i: usize = 0;
    while i < vertices.len()
        invariant
            i <= vertices@.len(),
            t == triple_view(c),
            t.len() == 3,
            t[0] == c0 && t[1] == c1 && t[2] == c2,
            forall|j: int| 0 <= j < i ==> (#[trigger] vertices@[j])@ != t,
        decreases vertices.len() - i,
    {
        let v = &vertices[i];
        if v.len() == 3 && v[0] == c0 && v[1] == c1 && v[2] == c2 {
            assert(v@ =~= t);
            return Some(i);
        }
        assert(v@ != t) by {
            if v@ == t {
                assert(v@.len() == 3);
                assert(v@[0] == t[0] && v@[1] == t[1] && v@[2] == t[2]);
            }
        }
        i = i + 1;
    }
    None
}

impl VertexInterner {
    pub closed spec fn wf(&self) -> bool {
        pool_wf(self@)
    }

    /// An empty pool.
    pub fn new() -> (r: VertexInterner)
        ensures
            r.wf(),
            r@ == Seq::<Seq<i64>>::empty(),
    {
        let r = VertexInterner { vertices: Vec::new() };
        assert(r@ =~= Seq::<Seq<i64>>::empty());
        r
    }

    /// The pool index of `c`: the index it already has, or a new index at
    /// the end of the pool when it is not there yet.
    pub fn intern(&mut self, c: [i64; 3]) -> (idx: usize)
        requires
            old(self).wf(),
            old(self)@.len() < usize::MAX,
        ensures
            final(self).wf(),
            final(self)@[idx as int] == triple_view(c),
            old(self)@.contains(triple_view(c)) ==> final(self)@ == old(self)@ && idx < old(self)@.len(),
            !old(self)@.contains(triple_view(c)) ==> final(self)@ == old(self)@.push(triple_view(c))
                && idx == old(self)@.len(),
    {
        let ghost t = triple_view(c);
        match find_vertex(&self.vertices, c) {
            Some(i) => {
                assert(self@[i as int] == self.vertices@[i as int]@);
                assert(old(self)@.contains(t));
                return i;
            },
            None => {},
        }
        let idx = self.vertices.len();
        let mut nv: Vec<i64> = Vec::new();
        nv.push(c[0]);
        nv.push(c[1]);
        nv.push(c[2]);
        assert(nv@ =~= t);
        self.vertices.push(nv);
        assert(self@ =~= old(self)@.push(t));
        idx
    }

    /// The pool's vertices, in index order.
    pub fn finish(self) -> (r: Vec<Vec<i64>>)
        ensures
            r@.map_values(|v: Vec<i64>| v@) == self@,
    {
        self.vertices
    }
}

/// The header-scope pool of raw template vertices: each triple is kept by
/// its coordinates' bit patterns (template vertices are never quantised),
/// each stored once, in order of first interning.
pub struct RawVertexInterner {
    vertices: Vec<(u64, u64, u64)>,
}

impl View for RawVertexInterner {
    type V = Seq<(u64, u64, u64)>;

    closed spec fn view(&self) -> Seq<(u64, u64, u64)> {
        self.vertices@
    }
}

impl RawVertexInterner {
    /// No triple occurs twice.
    pub closed spec fn wf(&self) -> bool {
        forall|i: int, j: int| 0 <= i < self@.len() && 0 <= j < self@.len() && i != j ==> self@[i] != self@[j]
    }

    /// An empty pool.
    pub fn new() -> (r: RawVertexInterner)
        ensures
            r.wf(),
            r@ == Seq::<(u64, u64, u64)>::empty(),
    {
        RawVertexInterner { vertices: Vec::new() }
    }

    /// The pool index of the triple whose coordinates have bit patterns `c`:
    /// the index it already has, or a new index at the end of the pool.
    pub fn intern(&mut self, c: (u64, u64, u64)) -> (idx: usize)
        requires
            old(self).wf(),
        ensures
            final(self).wf(),
            idx < final(self)@.len(),
            final(self)@[idx as int] == c,
            old(self)@.contains(c) ==> final(self)@ == old(self)@,
            !old(self)@.contains(c) ==> final(self)@ == old(self)@.push(c) && idx == old(self)@.len(),
    {
        let mut i: usize = 0;
        while i < self.vertices.len()
            invariant
                i <= self@.len(),
                *self == *old(self),
                self.wf(),
                forall|j: int| 0 <= j < i ==> self@[j] != c,
            decreases self.vertices.len() - i,
        {
            let v = self.vertices[i];
            if v.0 == c.0 && v.1 == c.1 && v.2 == c.2 {
                assert(self@[i as int] == c);
                return i;
            }
            i = i + 1;
        }
        let idx = self.vertices.len();
        self.vertices.push(c);
        proof {
            assert forall|a: int, b: int| 0 <= a < self@.len() && 0 <= b < self@.len() && a != b implies self@[a] != self@[b] by {
                if a < idx && b < idx {
                    assert(self@[a] == old(self)@[a] && self@[b] == old(self)@[b]);
                }
            }
        }
        idx
    }

    /// The pool's triples, in index order.
    pub fn finish(self) -> (r: Vec<(u64, u64, u64)>)
        ensures
            r@ == self@,
    {
        self.vertices
    }
}

/// Every quantised coordinate of a geometry interned into the feature's
/// pool: the local-index -> feature-vertex-index map.
pub fn vertex_map(coords: &[[i64; 3]], interner: &mut VertexInterner) -> (vmap: Vec<usize>)
    requires
        old(interner).wf(),
        old(interner)@.len() + coords@.len() < usize::MAX,
    ensures
        final(interner).wf(),
        vmap@.len() == coords@.len(),
        forall|k: int| 0 <= k < coords@.len() ==> (#[trigger] vmap@[k]) < final(interner)@.len()
            && final(interner)@[vmap@[k] as int] == triple_view(coords@[k]),
        old(interner)@.is_prefix_of(final(interner)@),
{
    let mut vmap: Vec<usize> = Vec::new();
    let mut k: usize = 0;
    while k < coords.len()
        invariant
            k <= coords@.len(),
            interner.wf(),
            interner@.len() <= old(interner)@.len() + k,
            old(interner)@.len() + coords@.len() < usize::MAX,
            old(interner)@.is_prefix_of(interner@),
            vmap@.len() == k,
            forall|q: int| 0 <= q < k ==> (#[trigger] vmap@[q]) < interner@.len()
                && interner@[vmap@[q] as int] == triple_view(coords@[q]),
        decreases coords.len() - k,
    {
        let ghost before = interner@;
        let i = interner.intern(coords[k]);
        proof {
            if before.contains(triple_view(coords@[k as int])) {
                assert(i < before.len());
            }
            assert forall|q: int| 0 <= q < k implies (#[trigger] vmap@[q]) < interner@.len()
                && interner@[vmap@[q] as int] == triple_view(coords@[q]) by {
                assert(interner@[vmap@[q] as int] == before[vmap@[q] as int]);
            }
        }
        vmap.push(i);
        k = k + 1;
    }
    vmap
}

/// The same triple is never at two pool indices.
pub proof fn lemma_pool_index_unique(v: Seq<Seq<i64>>, i: int, j: int)
    requires
        pool_wf(v),
        0 <= i < v.len(),
        0 <= j < v.len(),
        v[i] == v[j],
    ensures
        i == j,
{
}

// ------------------------------------------------------------ groups ----

/// Items grouped by a string key, groups in order of the key's first
/// appearance, items within a group in push order.
pub struct OrderedGroups<T> {
    keys: Vec<std::string::String>,
    items: Vec<Vec<T>>,
}

/// Groups are well formed: one item list per key, and no key twice.
pub open spec fn groups_wf<T>(g: Seq<(Seq<char>, Seq<T>)>) -> bool {
    forall|i: int, j: int| 0 <= i < g.len() && 0 <= j < g.len() && i != j ==> (#[trigger] g[i]).0 != (#[trigger] g[j]).0
}

/// The position of `key`'s group, if it has one.
pub open spec fn group_of<T>(g: Seq<(Seq<char>, Seq<T>)>, key: Seq<char>) -> Option<int> {
    if exists|i: int| 0 <= i < g.len() && (#[trigger] g[i]).0 == key {
        Some(choose|i: int| 0 <= i < g.len() && (#[trigger] g[i]).0 == key)
    } else {
        None
    }
}

impl<T> View for OrderedGroups<T> {
    type V = Seq<(Seq<char>, Seq<T>)>;

    closed spec fn view(&self) -> Seq<(Seq<char>, Seq<T>)> {
        Seq::new(self.keys@.len(), |i: int| (self.keys@[i]@, self.items@[i]@))
    }
}

impl<T> OrderedGroups<T> {
    pub closed spec fn wf(&self) -> bool {
        self.keys@.len() == self.items@.len() && groups_wf(self@)
    }

    /// No groups.
    pub fn new() -> (r: OrderedGroups<T>)
        ensures
            r.wf(),
            r@ == Seq::<(Seq<char>, Seq<T>)>::empty(),
    {
        let r = OrderedGroups { keys: Vec::new(), items: Vec::new() };
        assert(r@ =~= Seq::<(Seq<char>, Seq<T>)>::empty());
        r
    }

    /// Append `item` to `key`'s group, opening that group at the end when
    /// the key is new.
    pub fn push(&mut self, key: std::string::String, item: T)
        requires
            old(self).wf(),
        ensures
            final(self).wf(),
            match group_of(old(self)@, key@) {
                Some(i) => final(self)@ == old(self)@.update(i, (key@, old(self)@[i].1.push(item))),
                None => final(self)@ == old(self)@.push((key@, seq![item])),
            },
    {
        let ghost g = self@;
        let k = chars_of(key.as_str());
        let mut i: usize = 0;
        while i < self.keys.len()
            invariant
                i <= self.keys@.len(),
                self.wf(),
                self@ == g,
                *self == *old(self),
                k@ == key@,
                forall|j: int| 0 <= j < i ==> (#[trigger] g[j]).0 != key@,
            decreases self.keys.len() - i,
        {
            let name = chars_of(self.keys[i].as_str());
            assert(g[i as int].0 == self.keys@[i as int]@);
            if seq_eq(name.as_slice(), k.as_slice()) {
                proof {
                    let c = choose|j: int| 0 <= j < g.len() && (#[trigger] g[j]).0 == key@;
                    assert(c == i as int) by {
                        if c != i as int {
                            assert(g[c].0 != g[i as int].0);
                        }
                    }
                }
                self.items[i].push(item);
                assert(self@ =~= g.update(i as int, (key@, g[i as int].1.push(item))));
                return;
            }
            i = i + 1;
        }
        let mut one: Vec<T> = Vec::new();
        one.push(item);
        self.keys.push(key);
        self.items.push(one);
        assert(self@ =~= g.push((key@, seq![item])));
    }

    /// The groups, consumed in first-appearance order.
    pub fn into_ordered(self) -> (r: Vec<(std::string::String, Vec<T>)>)
        requires
            self.wf(),
        ensures
            r@.map_values(|p: (std::string::String, Vec<T>)| (p.0@, p.1@)) == self@,
    {
        let ghost g = self@;
        let mut keys = self.keys;
        let mut items = self.items;
        let mut r: Vec<(std::string::String, Vec<T>)> = Vec::new();
        // Drain from the back, then reverse, so each group is moved once.
        let mut rev: Vec<(std::string::String, Vec<T>)> = Vec::new();
        while keys.len() > 0
            invariant
                keys@.len() == items@.len(),
                keys@.len() + rev@.len() == g.len(),
                forall|i: int| 0 <= i < keys@.len() ==> (keys@[i]@, #[trigger] items@[i]@) == g[i],
                forall|j: int| 0 <= j < rev@.len() ==> ((#[trigger] rev@[j]).0@, rev@[j].1@) == g[g.len() - 1 - j],
            decreases keys@.len(),
        {
            let key = keys.pop().unwrap();
            let its = items.pop().unwrap();
            rev.push((key, its));
        }
        while rev.len() > 0
            invariant
                rev@.len() + r@.len() == g.len(),
                forall|j: int| 0 <= j < rev@.len() ==> ((#[trigger] rev@[j]).0@, rev@[j].1@) == g[g.len() - 1 - j],
                forall|j: int| 0 <= j < r@.len() ==> ((#[trigger] r@[j]).0@, r@[j].1@) == g[j],
            decreases rev@.len(),
        {
            let p = rev.pop().unwrap();
            r.push(p);
        }
        assert(r@.map_values(|p: (std::string::String, Vec<T>)| (p.0@, p.1@)) =~= g);
        r
    }
}

/// A key occurs in at most one group.
pub proof fn lemma_group_keys_unique<T>(g: Seq<(Seq<char>, Seq<T>)>, i: int, j: int)
    requires
        groups_wf(g),
        0 <= i < g.len(),
        0 <= j < g.len(),
        g[i].0 == g[j].0,
    ensures
        i == j,
{
}

} // verus!
