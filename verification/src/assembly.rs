//! The walk over a Building assembly: a Building and, nested under it in
//! `bldg:consistsOfBuildingPart`, the BuildingParts its stored `children`
//! name, depth first, in stored order.
//!
//! The walk decides and the caller writes. Each [`PartWalk::resume`] makes
//! one move and answers with a [`WalkStep`]: render an object's own content
//! (attributes and geometry) with the next feature index, wrap the part just
//! finished into its parent, drop it, go on, or stop. A child that is not a
//! BuildingPart row is counted as unresolved; an object that is its own
//! ancestor, or has no content row, renders nothing; nesting deeper than
//! [`MAX_PART_DEPTH`] and an id that is not an XML NCName are refused; an
//! object renders non-empty when its content or one of its parts did, and a
//! non-empty object's id must be new to the document.

use vstd::prelude::*;
use crate::error::{CityParquetError, Result, message_of};
use crate::interner::no_dups;
use crate::report::WriteReport;
use crate::text::{owned, str_eq};
use crate::xml::{is_ncname, is_ncname_spec};

verus! {

/// The deepest `consistsOfBuildingPart` nesting written (the reader's bound
/// too, so a written document is always re-readable).
pub const MAX_PART_DEPTH: usize = 32;

/// The object graph an assembly is rendered from.
pub struct PartGraph {
    /// The ids of the objects that have a content row.
    pub content: Vec<std::string::String>,
    /// Each object's stored `children` ids, by object id.
    pub children: Vec<(std::string::String, Vec<std::string::String>)>,
    /// Each object's CityObject type, by object id.
    pub kinds: Vec<(std::string::String, std::string::String)>,
}

/// The graph as plain values.
pub struct GraphV {
    pub content: Seq<Seq<char>>,
    pub children: Seq<(Seq<char>, Seq<Seq<char>>)>,
    pub kinds: Seq<(Seq<char>, Seq<char>)>,
}

pub open spec fn strings_view(v: Seq<std::string::String>) -> Seq<Seq<char>> {
    v.map_values(|s: std::string::String| s@)
}

impl PartGraph {
    pub open spec fn view_of(&self) -> GraphV {
        GraphV {
            content: strings_view(self.content@),
            children: self.children@.map_values(|e: (std::string::String, Vec<std::string::String>)| (e.0@, strings_view(e.1@))),
            kinds: self.kinds@.map_values(|e: (std::string::String, std::string::String)| (e.0@, e.1@)),
        }
    }
}

/// The children stored for `id` (its first entry), none when it has none.
pub open spec fn children_of(entries: Seq<(Seq<char>, Seq<Seq<char>>)>, id: Seq<char>) -> Seq<Seq<char>>
    decreases entries.len(),
{
    if entries.len() == 0 {
        Seq::empty()
    } else if entries[0].0 == id {
        entries[0].1
    } else {
        children_of(entries.drop_first(), id)
    }
}

/// The type stored for `id` (its first entry).
pub open spec fn kind_of(entries: Seq<(Seq<char>, Seq<char>)>, id: Seq<char>) -> Option<Seq<char>>
    decreases entries.len(),
{
    if entries.len() == 0 {
        None
    } else if entries[0].0 == id {
        Some(entries[0].1)
    } else {
        kind_of(entries.drop_first(), id)
    }
}

/// One object being rendered.
#[derive(Debug)]
struct PartFrame {
    id: std::string::String,
    children: Vec<std::string::String>,
    next: usize,
    emitted: bool,
}

/// An object being rendered, as plain values: its id, its children, the
/// position of the next child to consider, and whether it has rendered
/// anything yet.
pub struct FrameV {
    pub id: Seq<char>,
    pub children: Seq<Seq<char>>,
    pub next: nat,
    pub emitted: bool,
}

spec fn frame_view(f: PartFrame) -> FrameV {
    FrameV { id: f.id@, children: strings_view(f.children@), next: f.next as nat, emitted: f.emitted }
}

/// What the caller is asked to do next.
#[derive(Debug)]
pub enum WalkStep {
    /// Nothing; call `resume` again.
    Continue,
    /// Render object `id`'s own content into a fresh buffer, giving it
    /// `feature_index`; answer with whether it wrote anything.
    Content { id: std::string::String, feature_index: usize },
    /// The object just finished rendered something: wrap its buffer in
    /// `consistsOfBuildingPart`/`BuildingPart gml:id="id"` inside its
    /// parent's buffer.
    WrapPart { id: std::string::String },
    /// The object just finished rendered nothing: discard its buffer.
    DropPart,
    /// The root finished; its buffer is the assembly's inner content.
    Finished { non_empty: bool },
}

/// A step as plain values.
pub enum StepV {
    Continue,
    Content(Seq<char>, nat),
    WrapPart(Seq<char>),
    DropPart,
    Finished(bool),
}

pub open spec fn step_view(s: WalkStep) -> StepV {
    match s {
        WalkStep::Continue => StepV::Continue,
        WalkStep::Content { id, feature_index } => StepV::Content(id@, feature_index as nat),
        WalkStep::WrapPart { id } => StepV::WrapPart(id@),
        WalkStep::DropPart => StepV::DropPart,
        WalkStep::Finished { non_empty } => StepV::Finished(non_empty),
    }
}

/// The walk's state as plain values.
pub struct WalkV {
    /// The objects being rendered, root first.
    pub frames: Seq<FrameV>,
    /// An object about to be entered, one level below the last frame.
    pub entering: Option<Seq<char>>,
    /// The last frame waits for its content's answer.
    pub awaiting: bool,
    /// The ids already written to the document.
    pub seen: Seq<Seq<char>>,
    /// The BuildingPart ids reached as some object's child.
    pub reached: Seq<Seq<char>>,
    /// The next feature index to give out.
    pub next_fi: nat,
    /// Whether the root finished, and if so whether it rendered anything.
    pub done: Option<bool>,
}

/// How a move changes the report's counters.
pub struct Counts {
    pub unresolved: nat,
    pub written: nat,
    pub skipped: nat,
}

pub open spec fn no_counts() -> Counts {
    Counts { unresolved: 0, written: 0, skipped: 0 }
}

/// The ids of a list of frames.
pub open spec fn frame_ids(frames: Seq<FrameV>) -> Seq<Seq<char>> {
    frames.map_values(|f: FrameV| f.id)
}

/// `s` with `x` added unless it is there.
pub open spec fn with(s: Seq<Seq<char>>, x: Seq<char>) -> Seq<Seq<char>> {
    if s.contains(x) { s } else { s.push(x) }
}

/// An entered object renders nothing: the walk goes on in its parent, which
/// counts it as a skipped part; with no parent, the walk finishes empty.
pub open spec fn enter_nothing(w: WalkV) -> (WalkV, Counts, Option<StepV>) {
    if w.frames.len() == 0 {
        (WalkV { entering: None, done: Some(false), ..w }, no_counts(), Some(StepV::Finished(false)))
    } else {
        (WalkV { entering: None, ..w }, Counts { skipped: 1, ..no_counts() }, Some(StepV::Continue))
    }
}

/// Entering object `id` at depth `frames.len()`.
pub open spec fn enter_spec(w: WalkV, g: GraphV, id: Seq<char>) -> (WalkV, Counts, Option<StepV>) {
    if w.frames.len() > MAX_PART_DEPTH || !is_ncname_spec(id) {
        (w, no_counts(), None)
    } else if frame_ids(w.frames).contains(id) || !g.content.contains(id) {
        enter_nothing(w)
    } else {
        let f = FrameV { id: id, children: children_of(g.children, id), next: 0, emitted: false };
        (
            WalkV { frames: w.frames.push(f), entering: None, awaiting: true, next_fi: w.next_fi + 1, ..w },
            no_counts(),
            Some(StepV::Content(id, w.next_fi)),
        )
    }
}

/// The last frame's next move: consider its next child, or finish it.
pub open spec fn scan_spec(w: WalkV, g: GraphV) -> (WalkV, Counts, Option<StepV>) {
    let top = w.frames.last();
    let rest = w.frames.drop_last();
    if top.next < top.children.len() {
        let child = top.children[top.next as int];
        let moved = w.frames.update(w.frames.len() - 1, FrameV { next: top.next + 1, ..top });
        if kind_of(g.kinds, child) == Some("BuildingPart"@) {
            (WalkV { frames: moved, entering: Some(child), reached: with(w.reached, child), ..w }, no_counts(), Some(StepV::Continue))
        } else {
            (WalkV { frames: moved, ..w }, Counts { unresolved: 1, ..no_counts() }, Some(StepV::Continue))
        }
    } else if top.emitted && w.seen.contains(top.id) {
        (w, no_counts(), None)
    } else {
        let seen = if top.emitted { w.seen.push(top.id) } else { w.seen };
        if rest.len() == 0 {
            (WalkV { frames: rest, seen: seen, done: Some(top.emitted), ..w }, no_counts(), Some(StepV::Finished(top.emitted)))
        } else if top.emitted {
            let parent = rest.last();
            (
                WalkV { frames: rest.update(rest.len() - 1, FrameV { emitted: true, ..parent }), seen: seen, ..w },
                Counts { written: 1, ..no_counts() },
                Some(StepV::WrapPart(top.id)),
            )
        } else {
            (WalkV { frames: rest, seen: seen, ..w }, Counts { skipped: 1, ..no_counts() }, Some(StepV::DropPart))
        }
    }
}

/// One move of the walk, given the answer `emitted` to a content step: the
/// new state, the counter increments, and the step (`None`: refused).
pub open spec fn walk_next(w: WalkV, g: GraphV, emitted: bool) -> (WalkV, Counts, Option<StepV>) {
    if w.done is Some {
        (w, no_counts(), Some(StepV::Finished(w.done->Some_0)))
    } else if w.awaiting {
        let top = w.frames.last();
        (
            WalkV { frames: w.frames.update(w.frames.len() - 1, FrameV { emitted: emitted, ..top }), awaiting: false, ..w },
            no_counts(),
            Some(StepV::Continue),
        )
    } else if w.entering is Some {
        enter_spec(w, g, w.entering->Some_0)
    } else if w.frames.len() == 0 {
        (WalkV { done: Some(false), ..w }, no_counts(), Some(StepV::Finished(false)))
    } else {
        scan_spec(w, g)
    }
}

/// A well-formed walk: no object is its own ancestor, the nesting stays
/// within bounds, no id is written twice, no part is recorded twice, and a
/// frame waits for its content only while it is the last one.
pub open spec fn walk_wf(w: WalkV) -> bool {
    &&& no_dups(frame_ids(w.frames))
    &&& no_dups(w.seen)
    &&& no_dups(w.reached)
    &&& w.frames.len() <= MAX_PART_DEPTH + 1
    &&& (w.awaiting ==> w.frames.len() > 0 && w.entering is None)
    &&& forall|k: int| 0 <= k < w.frames.len() ==> (#[trigger] w.frames[k]).next <= w.frames[k].children.len()
}

proof fn lemma_ids_update(frames: Seq<FrameV>, i: int, f: FrameV)
    requires
        0 <= i < frames.len(),
        f.id == frames[i].id,
    ensures
        frame_ids(frames.update(i, f)) == frame_ids(frames),
{
    assert(frame_ids(frames.update(i, f)) =~= frame_ids(frames));
}

proof fn lemma_no_dups_push(s: Seq<Seq<char>>, x: Seq<char>)
    requires
        no_dups(s),
        !s.contains(x),
    ensures
        no_dups(s.push(x)),
{
    assert forall|i: int, j: int| 0 <= i < s.push(x).len() && 0 <= j < s.push(x).len() && i != j implies s.push(x)[i] != s.push(x)[j] by {
        if i < s.len() && j < s.len() {
        } else if i < s.len() {
            assert(s.contains(s[i]));
        } else {
            assert(s.contains(s[j]));
        }
    }
}

/// Every move keeps a walk well formed: in particular no object is ever
/// nested inside itself, no nesting is deeper than the bound, and no id is
/// written to the document twice.
pub proof fn lemma_walk_keeps_wf(w: WalkV, g: GraphV, emitted: bool)
    requires
        walk_wf(w),
    ensures
        walk_wf(walk_next(w, g, emitted).0),
{
    let r = walk_next(w, g, emitted);
    if w.done is Some {
    } else if w.awaiting {
        let top = w.frames.last();
        let nf = FrameV { emitted: emitted, ..top };
        lemma_ids_update(w.frames, w.frames.len() - 1, nf);
        assert forall|k: int| 0 <= k < r.0.frames.len() implies (#[trigger] r.0.frames[k]).next <= r.0.frames[k].children.len() by {
            assert(w.frames[k].next <= w.frames[k].children.len());
        }
    } else if w.entering is Some {
        let id = w.entering->Some_0;
        if w.frames.len() > MAX_PART_DEPTH || !is_ncname_spec(id) {
        } else if frame_ids(w.frames).contains(id) || !g.content.contains(id) {
        } else {
            let f = FrameV { id: id, children: children_of(g.children, id), next: 0, emitted: false };
            assert(frame_ids(w.frames.push(f)) =~= frame_ids(w.frames).push(id));
            lemma_no_dups_push(frame_ids(w.frames), id);
            assert forall|k: int| 0 <= k < r.0.frames.len() implies (#[trigger] r.0.frames[k]).next <= r.0.frames[k].children.len() by {
                if k < w.frames.len() {
                    assert(r.0.frames[k] == w.frames[k]);
                }
            }
        }
    } else if w.frames.len() == 0 {
    } else {
        let top = w.frames.last();
        let rest = w.frames.drop_last();
        let last = w.frames.len() - 1;
        assert(frame_ids(rest) =~= frame_ids(w.frames).drop_last());
        assert(no_dups(frame_ids(rest))) by {
            assert forall|i: int, j: int| 0 <= i < frame_ids(rest).len() && 0 <= j < frame_ids(rest).len() && i != j
                implies frame_ids(rest)[i] != frame_ids(rest)[j] by {
                assert(frame_ids(rest)[i] == frame_ids(w.frames)[i]);
                assert(frame_ids(rest)[j] == frame_ids(w.frames)[j]);
            }
        }
        assert(w.frames[last].next <= w.frames[last].children.len());
        if top.next < top.children.len() {
            let child = top.children[top.next as int];
            let nf = FrameV { next: top.next + 1, ..top };
            lemma_ids_update(w.frames, last, nf);
            assert forall|k: int| 0 <= k < r.0.frames.len() implies (#[trigger] r.0.frames[k]).next <= r.0.frames[k].children.len() by {
                if k != last {
                    assert(r.0.frames[k] == w.frames[k]);
                }
            }
            if kind_of(g.kinds, child) == Some("BuildingPart"@) && !w.reached.contains(child) {
                lemma_no_dups_push(w.reached, child);
            }
        } else if top.emitted && w.seen.contains(top.id) {
        } else {
            if top.emitted {
                lemma_no_dups_push(w.seen, top.id);
            }
            if rest.len() > 0 && top.emitted {
                let parent = rest.last();
                let pf = FrameV { emitted: true, ..parent };
                lemma_ids_update(rest, rest.len() - 1, pf);
                assert forall|k: int| 0 <= k < r.0.frames.len() implies (#[trigger] r.0.frames[k]).next <= r.0.frames[k].children.len() by {
                    assert(w.frames[k].next <= w.frames[k].children.len());
                    assert(rest[k] == w.frames[k]);
                }
            } else {
                assert forall|k: int| 0 <= k < r.0.frames.len() implies (#[trigger] r.0.frames[k]).next <= r.0.frames[k].children.len() by {
                    assert(w.frames[k].next <= w.frames[k].children.len());
                    assert(rest[k] == w.frames[k]);
                }
            }
        }
    }
}

/// An id the walk hands out for writing is new to the document, and from
/// then on it is recorded as written.
pub proof fn lemma_written_ids_are_new(w: WalkV, g: GraphV, emitted: bool)
    requires
        walk_wf(w),
    ensures
        ({
            let r = walk_next(w, g, emitted);
            forall|id: Seq<char>| (r.2 == Some(StepV::WrapPart(id)) || (r.2 == Some(StepV::Finished(true)) && w.done is None && w.frames.len() > 0 && w.frames.last().id == id))
                ==> !w.seen.contains(id) && r.0.seen == w.seen.push(id)
        }),
{
}

/// Whether `v` holds `x`.
fn holds(v: &Vec<std::string::String>, x: &str) -> (r: bool)
    ensures
        r == strings_view(v@).contains(x@),
{
    let ghost sv = strings_view(v@);
    let mut i: usize = 0;
    while i < v.len()
        invariant
            i <= v@.len(),
            sv == strings_view(v@),
            sv.len() == v@.len(),
            forall|j: int| 0 <= j < i ==> sv[j] != x@,
        decreases v.len() - i,
    {
        assert(sv[i as int] == v@[i as int]@);
        if str_eq(v[i].as_str(), x) {
            return true;
        }
        i = i + 1;
    }
    false
}

/// A copy of a list of strings.
fn copy_strings(v: &Vec<std::string::String>) -> (r: Vec<std::string::String>)
    ensures
        strings_view(r@) == strings_view(v@),
{
    let mut out: Vec<std::string::String> = Vec::new();
    let mut i: usize = 0;
    while i < v.len()
        invariant
            i <= v@.len(),
            out@.len() == i,
            forall|j: int| 0 <= j < i ==> (#[trigger] out@[j])@ == v@[j]@,
        decreases v.len() - i,
    {
        out.push(owned(v[i].as_str()));
        i = i + 1;
    }
    assert(strings_view(out@) =~= strings_view(v@));
    out
}

/// The children stored for `id`.
fn find_children(g: &PartGraph, id: &str) -> (r: Vec<std::string::String>)
    ensures
        strings_view(r@) == children_of(g.view_of().children, id@),
{
    let ghost cv = g.view_of().children;
    let mut i: usize = 0;
    assert(cv.skip(0) =~= cv);
    while i < g.children.len()
        invariant
            i <= g.children@.len(),
            cv == g.view_of().children,
            cv.len() == g.children@.len(),
            children_of(cv, id@) == children_of(cv.skip(i as int), id@),
        decreases g.children.len() - i,
    {
        assert(cv.skip(i as int).drop_first() =~= cv.skip(i + 1));
        assert(cv.skip(i as int)[0] == cv[i as int]);
        if str_eq(g.children[i].0.as_str(), id) {
            return copy_strings(&g.children[i].1);
        }
        i = i + 1;
    }
    Vec::new()
}

/// Whether `id` is stored as a BuildingPart.
fn is_building_part(g: &PartGraph, id: &str) -> (r: bool)
    ensures
        r == (kind_of(g.view_of().kinds, id@) == Some("BuildingPart"@)),
{
    let ghost kv = g.view_of().kinds;
    let mut i: usize = 0;
    assert(kv.skip(0) =~= kv);
    while i < g.kinds.len()
        invariant
            i <= g.kinds@.len(),
            kv == g.view_of().kinds,
            kv.len() == g.kinds@.len(),
            kind_of(kv, id@) == kind_of(kv.skip(i as int), id@),
        decreases g.kinds.len() - i,
    {
        assert(kv.skip(i as int).drop_first() =~= kv.skip(i + 1));
        assert(kv.skip(i as int)[0] == kv[i as int]);
        if str_eq(g.kinds[i].0.as_str(), id) {
            return str_eq(g.kinds[i].1.as_str(), "BuildingPart");
        }
        i = i + 1;
    }
    false
}

/// Whether `id` has a stored type.
fn has_kind(g: &PartGraph, id: &str) -> (r: bool)
    ensures
        r == (kind_of(g.view_of().kinds, id@) is Some),
{
    let ghost kv = g.view_of().kinds;
    let mut i: usize = 0;
    assert(kv.skip(0) =~= kv);
    while i < g.kinds.len()
        invariant
            i <= g.kinds@.len(),
            kv == g.view_of().kinds,
            kv.len() == g.kinds@.len(),
            kind_of(kv, id@) == kind_of(kv.skip(i as int), id@),
        decreases g.kinds.len() - i,
    {
        assert(kv.skip(i as int).drop_first() =~= kv.skip(i + 1));
        assert(kv.skip(i as int)[0] == kv[i as int]);
        if str_eq(g.kinds[i].0.as_str(), id) {
            return true;
        }
        i = i + 1;
    }
    false
}

/// How many stored BuildingParts no walk reached: parts that no Building's
/// `children` lead to, whose geometry has no home.
pub open spec fn orphan_count(kinds: Seq<(Seq<char>, Seq<char>)>, reached: Seq<Seq<char>>) -> nat
    decreases kinds.len(),
{
    if kinds.len() == 0 {
        0
    } else {
        orphan_count(kinds.drop_last(), reached)
            + if kinds.last().1 == "BuildingPart"@ && !reached.contains(kinds.last().0) { 1nat } else { 0nat }
    }
}

impl PartGraph {
    /// A graph with no objects.
    pub fn new() -> (g: PartGraph)
        ensures
            g.view_of().content.len() == 0,
            g.view_of().children.len() == 0,
            g.view_of().kinds.len() == 0,
    {
        PartGraph { content: Vec::new(), children: Vec::new(), kinds: Vec::new() }
    }

    /// Register one object row: its id, CityObject type and stored
    /// `children`. An id that is already registered is a `Metadata` error
    /// (it would silently replace the earlier row), and the graph is left as
    /// it was.
    pub fn add_object(&mut self, id: std::string::String, kind: std::string::String, children: Vec<std::string::String>) -> (r: Result<()>)
        ensures
            if kind_of(old(self).view_of().kinds, id@) is Some {
                &&& r matches Err(e) && e is Metadata
                    && message_of(e) == "duplicate CityObject id \""@ + id@ + "\" in the package"@
                &&& final(self).view_of().content == old(self).view_of().content
                &&& final(self).view_of().children == old(self).view_of().children
                &&& final(self).view_of().kinds == old(self).view_of().kinds
            } else {
                &&& r is Ok
                &&& final(self).view_of().content == old(self).view_of().content.push(id@)
                &&& final(self).view_of().children == old(self).view_of().children.push((id@, strings_view(children@)))
                &&& final(self).view_of().kinds == old(self).view_of().kinds.push((id@, kind@))
            },
    {
        if has_kind(self, id.as_str()) {
            let mut m = owned("duplicate CityObject id \"");
            m.push_str(id.as_str());
            m.push_str("\" in the package");
            return Err(CityParquetError::Metadata(m));
        }
        let ghost before = *self;
        self.content.push(owned(id.as_str()));
        self.children.push((owned(id.as_str()), children));
        self.kinds.push((id, kind));
        proof {
            assert(self.view_of().content =~= before.view_of().content.push(id@));
            assert(self.view_of().children =~= before.view_of().children.push((id@, strings_view(children@))));
            assert(self.view_of().kinds =~= before.view_of().kinds.push((id@, kind@)));
        }
        Ok(())
    }

    /// The number of stored BuildingParts not among `reached`, the parts
    /// the walks from every Building reached.
    pub fn orphaned_parts(&self, reached: &Vec<std::string::String>) -> (n: usize)
        ensures
            n == orphan_count(self.view_of().kinds, strings_view(reached@)),
    {
        let ghost kv = self.view_of().kinds;
        let ghost rv = strings_view(reached@);
        let mut n: usize = 0;
        let mut i: usize = 0;
        assert(kv.take(0) =~= Seq::<(Seq<char>, Seq<char>)>::empty());
        while i < self.kinds.len()
            invariant
                i <= self.kinds@.len(),
                kv == self.view_of().kinds,
                kv.len() == self.kinds@.len(),
                rv == strings_view(reached@),
                n == orphan_count(kv.take(i as int), rv),
                n <= i,
            decreases self.kinds.len() - i,
        {
            assert(kv.take(i + 1).drop_last() =~= kv.take(i as int));
            assert(kv[i as int] == (self.kinds@[i as int].0@, self.kinds@[i as int].1@));
            if str_eq(self.kinds[i].1.as_str(), "BuildingPart") && !holds(reached, self.kinds[i].0.as_str()) {
                n = n + 1;
            }
            i = i + 1;
        }
        assert(kv.take(self.kinds.len() as int) =~= kv);
        n
    }
}

/// Whether `id` is on the path of objects being rendered.
fn on_path(frames: &Vec<PartFrame>, id: &str) -> (r: bool)
    ensures
        r == frame_ids(frames@.map_values(|f: PartFrame| frame_view(f))).contains(id@),
{
    let ghost ids = frame_ids(frames@.map_values(|f: PartFrame| frame_view(f)));
    let mut i: usize = 0;
    while i < frames.len()
        invariant
            i <= frames@.len(),
            ids == frame_ids(frames@.map_values(|f: PartFrame| frame_view(f))),
            ids.len() == frames@.len(),
            forall|j: int| 0 <= j < i ==> ids[j] != id@,
        decreases frames.len() - i,
    {
        assert(ids[i as int] == frames@[i as int].id@);
        if str_eq(frames[i].id.as_str(), id) {
            return true;
        }
        i = i + 1;
    }
    false
}

fn depth_err() -> (e: CityParquetError)
    ensures
        e is Schema,
        message_of(e) == "consistsOfBuildingPart nested deeper than 32"@,
{
    CityParquetError::Schema(owned("consistsOfBuildingPart nested deeper than 32"))
}

fn id_err(before: &str, id: &str, after: &str) -> (e: CityParquetError)
    ensures
        e is Schema,
        message_of(e) == before@ + id@ + after@,
{
    let mut m = owned(before);
    m.push_str(id);
    m.push_str(after);
    CityParquetError::Schema(m)
}

/// The report with the walk's counters moved on by `c`.
pub open spec fn counted(r: WriteReport, c: Counts) -> WriteReport {
    WriteReport {
        children_unresolved: (r.children_unresolved + c.unresolved) as usize,
        building_parts_written: (r.building_parts_written + c.written) as usize,
        building_parts_skipped: (r.building_parts_skipped + c.skipped) as usize,
        ..r
    }
}

/// The walk over one assembly.
#[derive(Debug)]
pub struct PartWalk {
    frames: Vec<PartFrame>,
    entering: Option<std::string::String>,
    awaiting: bool,
    seen: Vec<std::string::String>,
    reached: Vec<std::string::String>,
    next_feature_index: usize,
    done: Option<bool>,
}

impl PartWalk {
    pub closed spec fn view_of(&self) -> WalkV {
        WalkV {
            frames: self.frames@.map_values(|f: PartFrame| frame_view(f)),
            entering: match self.entering { Some(s) => Some(s@), None => None },
            awaiting: self.awaiting,
            seen: strings_view(self.seen@),
            reached: strings_view(self.reached@),
            next_fi: self.next_feature_index as nat,
            done: self.done,
        }
    }

    /// Well formed: see [`walk_wf`].
    pub open spec fn wf(&self) -> bool {
        walk_wf(self.view_of())
    }

    /// A walk about to enter `root`, with the document's ids written so far,
    /// the parts reached so far, and the next feature index.
    pub fn start(root: &str, seen: Vec<std::string::String>, reached: Vec<std::string::String>, next_feature_index: usize) -> (r: PartWalk)
        requires
            no_dups(strings_view(seen@)),
            no_dups(strings_view(reached@)),
        ensures
            r.wf(),
            r.view_of() == (WalkV {
                frames: Seq::empty(),
                entering: Some(root@),
                awaiting: false,
                seen: strings_view(seen@),
                reached: strings_view(reached@),
                next_fi: next_feature_index as nat,
                done: None,
            }),
    {
        let r = PartWalk {
            frames: Vec::new(),
            entering: Some(owned(root)),
            awaiting: false,
            seen,
            reached,
            next_feature_index,
            done: None,
        };
        assert(r.view_of().frames =~= Seq::<FrameV>::empty());
        assert(frame_ids(r.view_of().frames) =~= Seq::<Seq<char>>::empty());
        r
    }

    /// The ids written to the document so far.
    pub fn seen(&self) -> (r: &Vec<std::string::String>)
        ensures
            strings_view(r@) == self.view_of().seen,
    {
        &self.seen
    }

    /// The BuildingPart ids reached as a child so far.
    pub fn reached(&self) -> (r: &Vec<std::string::String>)
        ensures
            strings_view(r@) == self.view_of().reached,
    {
        &self.reached
    }

    /// The next feature index.
    pub fn next_feature_index(&self) -> (r: usize)
        ensures
            r == self.view_of().next_fi,
    {
        self.next_feature_index
    }

    /// Make one move, given `emitted`, the answer to the last content step
    /// (read only when the walk waits for it): the step asks the caller for
    /// its part of the move, and the report's unresolved-children,
    /// parts-written and parts-skipped counters move on. A refused move
    /// (nesting deeper than the bound, an id that is not an NCName, a
    /// non-empty object whose id the document already has) is a `Schema`
    /// error and changes nothing.
    pub fn resume(&mut self, graph: &PartGraph, emitted: bool, report: &mut WriteReport) -> (r: Result<WalkStep>)
        requires
            old(self).wf(),
            old(self).view_of().next_fi < usize::MAX,
            old(report).children_unresolved < usize::MAX,
            old(report).building_parts_written < usize::MAX,
            old(report).building_parts_skipped < usize::MAX,
        ensures
            final(self).wf(),
            ({
                let t = walk_next(old(self).view_of(), graph.view_of(), emitted);
                match t.2 {
                    None => r matches Err(CityParquetError::Schema(_))
                        && final(self).view_of() == old(self).view_of() && *final(report) == *old(report),
                    Some(sv) => r matches Ok(s) && step_view(s) == sv
                        && final(self).view_of() == t.0 && *final(report) == counted(*old(report), t.1),
                }
            }),
    {
        proof {
            lemma_walk_keeps_wf(self.view_of(), graph.view_of(), emitted);
        }
        let ghost w = self.view_of();
        let ghost fv = |f: PartFrame| frame_view(f);
        if let Some(ne) = self.done {
            return Ok(WalkStep::Finished { non_empty: ne });
        }
        if self.awaiting {
            let mut top = self.frames.pop().unwrap();
            top.emitted = emitted;
            self.frames.push(top);
            self.awaiting = false;
            proof {
                assert(self.view_of().frames =~= w.frames.update(w.frames.len() - 1, FrameV { emitted: emitted, ..w.frames.last() }));
            }
            return Ok(WalkStep::Continue);
        }
        if self.entering.is_some() {
            let id = self.entering.take().unwrap();
            if self.frames.len() > MAX_PART_DEPTH {
                self.entering = Some(id);
                return Err(depth_err());
            }
            if !is_ncname(id.as_str()) {
                let e = id_err("CityObject id ", id.as_str(), " is not a valid XML NCName; cannot serialise as gml:id");
                self.entering = Some(id);
                return Err(e);
            }
            if on_path(&self.frames, id.as_str()) || !holds(&graph.content, id.as_str()) {
                if self.frames.len() == 0 {
                    self.done = Some(false);
                    return Ok(WalkStep::Finished { non_empty: false });
                }
                report.building_parts_skipped = report.building_parts_skipped + 1;
                return Ok(WalkStep::Continue);
            }
            let children = find_children(graph, id.as_str());
            let fi = self.next_feature_index;
            self.next_feature_index = fi + 1;
            let step_id = owned(id.as_str());
            self.frames.push(PartFrame { id, children, next: 0, emitted: false });
            self.awaiting = true;
            proof {
                let f = FrameV { id: step_id@, children: children_of(graph.view_of().children, step_id@), next: 0, emitted: false };
                assert(self.view_of().frames =~= w.frames.push(f));
            }
            return Ok(WalkStep::Content { id: step_id, feature_index: fi });
        }
        if self.frames.len() == 0 {
            self.done = Some(false);
            return Ok(WalkStep::Finished { non_empty: false });
        }
        let last = self.frames.len() - 1;
        proof {
            assert(w.frames[last as int] == frame_view(self.frames@[last as int]));
            assert(strings_view(self.frames@[last as int].children@).len() == self.frames@[last as int].children@.len());
        }
        if self.frames[last].next < self.frames[last].children.len() {
            let mut top = self.frames.pop().unwrap();
            let child = owned(top.children[top.next].as_str());
            proof {
                assert(strings_view(top.children@)[top.next as int] == top.children@[top.next as int]@);
            }
            top.next = top.next + 1;
            self.frames.push(top);
            proof {
                let t = w.frames.last();
                assert(self.view_of().frames =~= w.frames.update(w.frames.len() - 1, FrameV { next: t.next + 1, ..t }));
            }
            if is_building_part(graph, child.as_str()) {
                if !holds(&self.reached, child.as_str()) {
                    let c2 = owned(child.as_str());
                    self.reached.push(c2);
                    proof {
                        assert(strings_view(self.reached@) =~= w.reached.push(child@));
                    }
                }
                self.entering = Some(child);
                return Ok(WalkStep::Continue);
            }
            report.children_unresolved = report.children_unresolved + 1;
            return Ok(WalkStep::Continue);
        }
        let top_emitted = self.frames[last].emitted;
        if top_emitted && holds(&self.seen, self.frames[last].id.as_str()) {
            let e = id_err("duplicate CityObject id ", self.frames[last].id.as_str(), "; CityGML gml:id must be document-unique");
            return Err(e);
        }
        let top = self.frames.pop().unwrap();
        proof {
            assert(self.view_of().frames =~= w.frames.drop_last());
        }
        let PartFrame { id, .. } = top;
        if top_emitted {
            let s2 = owned(id.as_str());
            self.seen.push(s2);
            proof {
                assert(strings_view(self.seen@) =~= w.seen.push(id@));
            }
        }
        if self.frames.len() == 0 {
            self.done = Some(top_emitted);
            return Ok(WalkStep::Finished { non_empty: top_emitted });
        }
        if top_emitted {
            let mut parent = self.frames.pop().unwrap();
            parent.emitted = true;
            self.frames.push(parent);
            proof {
                let rest = w.frames.drop_last();
                assert(self.view_of().frames =~= rest.update(rest.len() - 1, FrameV { emitted: true, ..rest.last() }));
            }
            report.building_parts_written = report.building_parts_written + 1;
            return Ok(WalkStep::WrapPart { id });
        }
        report.building_parts_skipped = report.building_parts_skipped + 1;
        Ok(WalkStep::DropPart)
    }
}

} // verus!
