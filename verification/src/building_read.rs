//! The decisions of the CityGML `bldg:Building` reader, and the building's
//! polygon registry.
//!
//! Reading a building is two passes. The first walks its subtree: each
//! `bldg:lodNSolid` holds a `gml:Solid` or `gml:CompositeSolid` (one kept per
//! LoD, the first); a `bldg:lodNMultiSurface` and each `bldg:boundedBy`
//! semantic surface contribute inline polygons by `gml:id`, and each
//! `boundedBy` surface is one semantic surface whose polygons it owns;
//! `bldg:` and `gen:` elements may be attributes. [`bldg_step`] says what
//! each event means. The second pass resolves each solid surface, given
//! inline or by `xlink` into the registry, and gives it the semantic
//! surface of the polygon it refers to.

use vstd::prelude::*;
use vstd::string::StringSliceAdditionalSpecFns;
use crate::error::{CityParquetError, Result, message_of};
use crate::gml::{Polygon, RefTarget, SurfaceRef};
use crate::text::{opt_str, owned, str_eq};
use crate::xml::{XmlAttr, after_last, bytes_eq, find_attr, get_attr_local, lod_suffix, lod_suffix_spec};

verus! {

/// One reader event, as far as the building reader reads it.
pub enum BldgEvent {
    /// An opening tag: whether its namespace is the building module, GML or
    /// the generic-attribute module, its local name and its attributes.
    Start { bldg: bool, gml: bool, generic: bool, local: Vec<u8>, attrs: Vec<XmlAttr> },
    /// A closing tag, by local name.
    End { local: Vec<u8> },
    /// The end of the document.
    Eof,
    /// Anything else.
    Other,
}

/// The element the reader is inside.
pub enum BldgContext {
    /// The `bldg:Building`.
    Building,
    /// A `bldg:lodNSolid`, closed by the given local name.
    LodSolid(Vec<u8>),
    /// A `bldg:boundedBy`.
    BoundedBy,
}

/// What an event means in a context.
#[derive(Debug, PartialEq, Eq)]
pub enum BldgAction {
    /// Nothing: read on.
    Continue,
    /// The context's closing tag: it is finished.
    Done,
    /// A child of no interest: skip its subtree.
    Skip,
    /// Read the solid of this LoD.
    LodSolid(std::string::String),
    /// Harvest the polygons of a `lodNMultiSurface`.
    MultiSurface,
    /// Read a `bldg:boundedBy`.
    BoundedBy,
    /// A `bldg:` element that may be a typed building attribute: the
    /// attribute reader reads it or skips it.
    TypedAttribute,
    /// A `gen:` element that may be a generic attribute, with its `name`
    /// attribute: the attribute reader reads it or skips it.
    GenericAttribute(Option<std::string::String>),
    /// Read a `gml:Solid`.
    Solid,
    /// Read a `gml:CompositeSolid`.
    CompositeSolid,
    /// A semantic surface of this element name: harvest its polygons.
    Surface(Vec<u8>),
}

/// An action as plain values.
pub enum BldgActionV {
    Continue,
    Done,
    Skip,
    LodSolid(Seq<char>),
    MultiSurface,
    BoundedBy,
    TypedAttribute,
    GenericAttribute(Option<Seq<char>>),
    Solid,
    CompositeSolid,
    Surface(Seq<u8>),
}

pub open spec fn bldg_action_view(a: BldgAction) -> BldgActionV {
    match a {
        BldgAction::Continue => BldgActionV::Continue,
        BldgAction::Done => BldgActionV::Done,
        BldgAction::Skip => BldgActionV::Skip,
        BldgAction::LodSolid(l) => BldgActionV::LodSolid(l@),
        BldgAction::MultiSurface => BldgActionV::MultiSurface,
        BldgAction::BoundedBy => BldgActionV::BoundedBy,
        BldgAction::TypedAttribute => BldgActionV::TypedAttribute,
        BldgAction::GenericAttribute(n) => BldgActionV::GenericAttribute(opt_str(n)),
        BldgAction::Solid => BldgActionV::Solid,
        BldgAction::CompositeSolid => BldgActionV::CompositeSolid,
        BldgAction::Surface(k) => BldgActionV::Surface(k@),
    }
}

/// Whether a closing tag `local` finishes the element of a context.
pub open spec fn bldg_closes(ctx: BldgContext, local: Seq<u8>) -> bool {
    match ctx {
        BldgContext::Building => local == "Building".spec_bytes(),
        BldgContext::LodSolid(end) => local == end@,
        BldgContext::BoundedBy => local == "boundedBy".spec_bytes(),
    }
}

/// What an opening tag means in a context.
pub open spec fn bldg_start_spec(ctx: BldgContext, bldg: bool, gml: bool, generic: bool, local: Seq<u8>, attrs: Seq<XmlAttr>) -> BldgActionV {
    match ctx {
        BldgContext::Building => if bldg && lod_suffix_spec(local, "Solid".spec_bytes()) is Some {
            BldgActionV::LodSolid(lod_suffix_spec(local, "Solid".spec_bytes())->Some_0)
        } else if bldg && lod_suffix_spec(local, "MultiSurface".spec_bytes()) is Some {
            BldgActionV::MultiSurface
        } else if bldg && local == "boundedBy".spec_bytes() {
            BldgActionV::BoundedBy
        } else if bldg {
            BldgActionV::TypedAttribute
        } else if generic {
            BldgActionV::GenericAttribute(find_attr(attrs, |k: Seq<u8>| after_last(k, 58u8) == "name".spec_bytes()))
        } else {
            BldgActionV::Skip
        },
        BldgContext::LodSolid(_) => if gml && local == "Solid".spec_bytes() {
            BldgActionV::Solid
        } else if gml && local == "CompositeSolid".spec_bytes() {
            BldgActionV::CompositeSolid
        } else {
            BldgActionV::Skip
        },
        BldgContext::BoundedBy => if bldg { BldgActionV::Surface(local) } else { BldgActionV::Skip },
    }
}

/// What an event means in a context: the context's closing tag finishes
/// it, other closing tags and anything else are read past; `None` (a
/// `Schema` error) for the end of the document.
pub open spec fn bldg_step_spec(ctx: BldgContext, ev: BldgEvent) -> Option<BldgActionV> {
    match ev {
        BldgEvent::Eof => None,
        BldgEvent::Other => Some(BldgActionV::Continue),
        BldgEvent::End { local } => Some(if bldg_closes(ctx, local@) { BldgActionV::Done } else { BldgActionV::Continue }),
        BldgEvent::Start { bldg, gml, generic, local, attrs } => Some(bldg_start_spec(ctx, bldg, gml, generic, local@, attrs@)),
    }
}

fn is_name(local: &[u8], name: &str) -> (r: bool)
    ensures
        r == (local@ == name.spec_bytes()),
{
    bytes_eq(local, name.as_bytes())
}

/// How a context is named in an end-of-document message.
pub open spec fn bldg_context_name(ctx: BldgContext) -> Seq<char> {
    match ctx {
        BldgContext::Building => "bldg:Building"@,
        BldgContext::LodSolid(_) => "bldg:lodNSolid"@,
        BldgContext::BoundedBy => "bldg:boundedBy"@,
    }
}

fn eof_err(ctx: &BldgContext) -> (e: CityParquetError)
    ensures
        e is Schema,
        message_of(e) == "unexpected end of document inside <"@ + bldg_context_name(*ctx) + ">"@,
{
    let what = match ctx {
        BldgContext::Building => "bldg:Building",
        BldgContext::LodSolid(_) => "bldg:lodNSolid",
        BldgContext::BoundedBy => "bldg:boundedBy",
    };
    let mut m = owned("unexpected end of document inside <");
    m.push_str(what);
    m.push_str(">");
    CityParquetError::Schema(m)
}

fn copy_bytes(v: &[u8]) -> (r: Vec<u8>)
    ensures
        r@ == v@,
{
    let mut r: Vec<u8> = Vec::new();
    let mut i: usize = 0;
    while i < v.len()
        invariant
            i <= v@.len(),
            r@ == v@.subrange(0, i as int),
        decreases v.len() - i,
    {
        r.push(v[i]);
        assert(r@ =~= v@.subrange(0, i + 1));
        i = i + 1;
    }
    assert(v@.subrange(0, v@.len() as int) =~= v@);
    r
}

fn bldg_start(ctx: &BldgContext, bldg: bool, gml: bool, generic: bool, local: &[u8], attrs: &[XmlAttr]) -> (r: BldgAction)
    ensures
        bldg_action_view(r) == bldg_start_spec(*ctx, bldg, gml, generic, local@, attrs@),
{
    match ctx {
        BldgContext::Building => {
            if bldg {
                if let Some(lod) = lod_suffix(local, "Solid".as_bytes()) {
                    return BldgAction::LodSolid(lod);
                }
                if lod_suffix(local, "MultiSurface".as_bytes()).is_some() {
                    return BldgAction::MultiSurface;
                }
                if is_name(local, "boundedBy") {
                    return BldgAction::BoundedBy;
                }
                return BldgAction::TypedAttribute;
            }
            if generic {
                return BldgAction::GenericAttribute(get_attr_local(attrs, "name".as_bytes()));
            }
            BldgAction::Skip
        },
        BldgContext::LodSolid(_) => if gml && is_name(local, "Solid") {
            BldgAction::Solid
        } else if gml && is_name(local, "CompositeSolid") {
            BldgAction::CompositeSolid
        } else {
            BldgAction::Skip
        },
        BldgContext::BoundedBy => if bldg { BldgAction::Surface(copy_bytes(local)) } else { BldgAction::Skip },
    }
}

/// What one event means inside the element of `ctx` (see [`bldg_step_spec`]).
pub fn bldg_step(ctx: &BldgContext, ev: &BldgEvent) -> (r: Result<BldgAction>)
    ensures
        match bldg_step_spec(*ctx, *ev) {
            None => r matches Err(CityParquetError::Schema(_)),
            Some(a) => r matches Ok(x) && bldg_action_view(x) == a,
        },
{
    match ev {
        BldgEvent::Eof => Err(eof_err(ctx)),
        BldgEvent::Other => Ok(BldgAction::Continue),
        BldgEvent::End { local } => {
            let closes = match ctx {
                BldgContext::Building => is_name(local.as_slice(), "Building"),
                BldgContext::LodSolid(end) => bytes_eq(local.as_slice(), end.as_slice()),
                BldgContext::BoundedBy => is_name(local.as_slice(), "boundedBy"),
            };
            Ok(if closes { BldgAction::Done } else { BldgAction::Continue })
        },
        BldgEvent::Start { bldg, gml, generic, local, attrs } => Ok(bldg_start(ctx, *bldg, *gml, *generic, local.as_slice(), attrs.as_slice())),
    }
}

/// The solid a `bldg:lodNSolid` held: the last `gml:Solid` or
/// `gml:CompositeSolid` read in it; a `Schema` error when there was none.
pub fn lod_solid_of<S>(geom: Option<S>) -> (r: Result<S>)
    ensures
        match geom {
            Some(g) => r == Ok::<S, CityParquetError>(g),
            None => r matches Err(CityParquetError::Schema(_)),
        },
{
    match geom {
        Some(g) => Ok(g),
        None => Err(CityParquetError::Schema(owned("bldg:lodNSolid without gml:Solid or gml:CompositeSolid"))),
    }
}

/// The LoDs of a list of solids.
pub open spec fn lods_of<S>(solids: Seq<(std::string::String, S)>) -> Seq<Seq<char>> {
    solids.map_values(|e: (std::string::String, S)| e.0@)
}

/// Keep a building's solid of LoD `lod` unless it already has one of that
/// LoD: the first solid of each LoD is the one kept.
pub fn add_solid<S>(solids: &mut Vec<(std::string::String, S)>, lod: std::string::String, geom: S) -> (added: bool)
    ensures
        added == !lods_of(old(solids)@).contains(lod@),
        added ==> final(solids)@ == old(solids)@.push((lod, geom)),
        !added ==> final(solids)@ == old(solids)@,
{
    let ghost lv = lods_of(solids@);
    let mut i: usize = 0;
    while i < solids.len()
        invariant
            i <= solids@.len(),
            lv == lods_of(solids@),
            lv.len() == solids@.len(),
            forall|j: int| 0 <= j < i ==> lv[j] != lod@,
        decreases solids.len() - i,
    {
        assert(lv[i as int] == solids@[i as int].0@);
        if str_eq(solids[i].0.as_str(), lod.as_str()) {
            return false;
        }
        i = i + 1;
    }
    solids.push((lod, geom));
    true
}

// ------------------------------------------------------------ registry ----

/// The value last stored under `id`.
pub open spec fn latest<V>(entries: Seq<(Seq<char>, V)>, id: Seq<char>) -> Option<V>
    decreases entries.len(),
{
    if entries.len() == 0 {
        None
    } else if entries.last().0 == id {
        Some(entries.last().1)
    } else {
        latest(entries.drop_last(), id)
    }
}

/// The named polygons of a harvested list, in order.
pub open spec fn named_polygons<R>(list: Seq<(Option<std::string::String>, Polygon<R>)>) -> Seq<(Seq<char>, Polygon<R>)>
    decreases list.len(),
{
    if list.len() == 0 {
        Seq::empty()
    } else {
        let rest = named_polygons(list.drop_last());
        match list.last().0 {
            Some(id) => rest.push((id@, list.last().1)),
            None => rest,
        }
    }
}

/// Each named polygon's id with semantic surface `i`.
pub open spec fn sem_entries<R>(named: Seq<(Seq<char>, Polygon<R>)>, i: nat) -> Seq<(Seq<char>, nat)> {
    named.map_values(|e: (Seq<char>, Polygon<R>)| (e.0, i))
}

fn copy_string(s: &std::string::String) -> (r: std::string::String)
    ensures
        r@ == s@,
{
    owned(s.as_str())
}

/// What a building's first pass gathers for resolving its solids: every
/// named inline polygon (a later one replacing an earlier one of the same
/// id), the semantic surface types in document order, and the semantic
/// surface of each `boundedBy` polygon.
pub struct PolygonRegistry<R> {
    polygons: Vec<(std::string::String, Polygon<R>)>,
    surfaces: Vec<std::string::String>,
    semantic: Vec<(std::string::String, usize)>,
}

impl<R> PolygonRegistry<R> {
    /// The registered polygons, in registration order.
    pub closed spec fn polys(&self) -> Seq<(Seq<char>, Polygon<R>)> {
        self.polygons@.map_values(|e: (std::string::String, Polygon<R>)| (e.0@, e.1))
    }

    /// The semantic surface types, in document order.
    pub closed spec fn kinds(&self) -> Seq<Seq<char>> {
        self.surfaces@.map_values(|s: std::string::String| s@)
    }

    /// The semantic surface of each registered boundary polygon, in
    /// registration order.
    pub closed spec fn sems(&self) -> Seq<(Seq<char>, nat)> {
        self.semantic@.map_values(|e: (std::string::String, usize)| (e.0@, e.1 as nat))
    }

    /// Nothing registered.
    pub fn new() -> (r: Self)
        ensures
            r.polys() == Seq::<(Seq<char>, Polygon<R>)>::empty(),
            r.kinds() == Seq::<Seq<char>>::empty(),
            r.sems() == Seq::<(Seq<char>, nat)>::empty(),
    {
        let r = PolygonRegistry { polygons: Vec::new(), surfaces: Vec::new(), semantic: Vec::new() };
        assert(r.polys() =~= Seq::<(Seq<char>, Polygon<R>)>::empty());
        assert(r.kinds() =~= Seq::<Seq<char>>::empty());
        assert(r.sems() =~= Seq::<(Seq<char>, nat)>::empty());
        r
    }

    /// The semantic surface types, in document order.
    pub fn surfaces(&self) -> (r: &Vec<std::string::String>)
        ensures
            r@.map_values(|s: std::string::String| s@) == self.kinds(),
    {
        &self.surfaces
    }

    /// Register the named polygons of a `lodNMultiSurface`.
    pub fn add_polygons(&mut self, list: Vec<(Option<std::string::String>, Polygon<R>)>)
        ensures
            final(self).polys() == old(self).polys() + named_polygons(list@),
            final(self).kinds() == old(self).kinds(),
            final(self).sems() == old(self).sems(),
    {
        self.register(list, None);
    }

    /// Register one `boundedBy` semantic surface of type `kind` and its
    /// polygons: the surface takes the next semantic index, and each named
    /// polygon is registered and belongs to it.
    pub fn add_surface(&mut self, kind: std::string::String, list: Vec<(Option<std::string::String>, Polygon<R>)>) -> (idx: usize)
        requires
            old(self).kinds().len() < usize::MAX,
        ensures
            idx == old(self).kinds().len(),
            final(self).kinds() == old(self).kinds().push(kind@),
            final(self).polys() == old(self).polys() + named_polygons(list@),
            final(self).sems() == old(self).sems() + sem_entries(named_polygons(list@), idx as nat),
    {
        let idx = self.surfaces.len();
        let ghost k0 = self.kinds();
        self.surfaces.push(kind);
        assert(self.kinds() =~= k0.push(kind@));
        self.register(list, Some(idx));
        idx
    }

    /// Register named polygons, each belonging to semantic surface `sem`
    /// when there is one.
    fn register(&mut self, list: Vec<(Option<std::string::String>, Polygon<R>)>, sem: Option<usize>)
        ensures
            final(self).polys() == old(self).polys() + named_polygons(list@),
            final(self).kinds() == old(self).kinds(),
            final(self).sems() == match sem {
                Some(i) => old(self).sems() + sem_entries(named_polygons(list@), i as nat),
                None => old(self).sems(),
            },
    {
        let ghost l = list@;
        let ghost base = self.polys();
        let ghost sbase = self.sems();
        let mut list = list;
        let ghost mut done: Seq<(Option<std::string::String>, Polygon<R>)> = Seq::empty();
        assert(l =~= done + list@);
        while list.len() > 0
            invariant
                l == done + list@,
                self.polys() == base + named_polygons(done),
                self.kinds() == old(self).kinds(),
                self.sems() == match sem {
                    Some(i) => sbase + sem_entries(named_polygons(done), i as nat),
                    None => sbase,
                },
            decreases list.len(),
        {
            let ghost before = list@;
            let ghost prev = self.polys();
            let ghost sprev = self.sems();
            let (id, poly) = list.remove(0);
            let ghost item = before[0];
            let ghost d2 = done.push(item);
            assert(d2.drop_last() =~= done);
            assert(d2.last() == item);
            match id {
                Some(name) => {
                    assert(named_polygons(d2) == named_polygons(done).push((name@, poly)));
                    if let Some(i) = sem {
                        let n2 = copy_string(&name);
                        self.semantic.push((n2, i));
                        assert(self.sems() =~= sprev.push((name@, i as nat)));
                        assert(sem_entries(named_polygons(d2), i as nat)
                            =~= sem_entries(named_polygons(done), i as nat).push((name@, i as nat)));
                    }
                    self.polygons.push((name, poly));
                    assert(self.polys() =~= prev.push((item.0->Some_0@, poly)));
                    assert(self.polys() =~= base + named_polygons(d2));
                },
                None => {
                    assert(named_polygons(d2) == named_polygons(done));
                },
            }
            proof {
                done = d2;
                assert(l =~= done + list@) by {
                    assert(before =~= seq![item] + list@);
                }
            }
        }
        assert(done =~= l);
    }

    /// The polygon a solid surface is: its own, or the one last registered
    /// under the id it refers to; a reference to a polygon this building
    /// does not define is a `Schema` error.
    pub fn resolve<'a>(&'a self, sref: &'a SurfaceRef<R>) -> (r: Result<&'a Polygon<R>>)
        ensures
            match sref.target {
                RefTarget::Inline(p) => r matches Ok(q) && *q == p,
                RefTarget::Xlink(id) => match latest(self.polys(), id@) {
                    Some(p) => r matches Ok(q) && *q == p,
                    None => r matches Err(CityParquetError::Schema(_)),
                },
            },
    {
        match &sref.target {
            RefTarget::Inline(p) => Ok(p),
            RefTarget::Xlink(id) => {
                let ghost pv = self.polys();
                let mut i: usize = self.polygons.len();
                assert(pv.take(i as int) =~= pv);
                while i > 0
                    invariant
                        i <= self.polygons@.len(),
                        pv == self.polys(),
                        pv.len() == self.polygons@.len(),
                        sref.target == RefTarget::<R>::Xlink(*id),
                        latest(pv, id@) == latest(pv.take(i as int), id@),
                    decreases i,
                {
                    let ghost t = pv.take(i as int);
                    assert(t.last() == pv[i - 1]);
                    assert(t.drop_last() =~= pv.take(i - 1));
                    if str_eq(self.polygons[i - 1].0.as_str(), id.as_str()) {
                        return Ok(&self.polygons[i - 1].1);
                    }
                    i = i - 1;
                }
                let mut m = owned("CityGML solid references #");
                m.push_str(id.as_str());
                m.push_str(", which is not defined in this building (cross-building/shared geometry is out of scope)");
                Err(CityParquetError::Schema(m))
            },
        }
    }

    /// The semantic surface of a solid surface: that of the boundary
    /// polygon it refers to, none for an inline polygon or one no
    /// `boundedBy` surface holds.
    pub fn semantic_value(&self, sref: &SurfaceRef<R>) -> (r: Option<usize>)
        ensures
            match sref.target {
                RefTarget::Inline(_) => r is None,
                RefTarget::Xlink(id) => match r {
                    Some(i) => latest(self.sems(), id@) == Some(i as nat),
                    None => latest(self.sems(), id@) is None,
                },
            },
    {
        match &sref.target {
            RefTarget::Inline(_) => None,
            RefTarget::Xlink(id) => {
                let ghost sv = self.sems();
                let mut i: usize = self.semantic.len();
                assert(sv.take(i as int) =~= sv);
                while i > 0
                    invariant
                        i <= self.semantic@.len(),
                        sv == self.sems(),
                        sv.len() == self.semantic@.len(),
                        sref.target == RefTarget::<R>::Xlink(*id),
                        latest(sv, id@) == latest(sv.take(i as int), id@),
                    decreases i,
                {
                    let ghost t = sv.take(i as int);
                    assert(t.last() == sv[i - 1]);
                    assert(t.drop_last() =~= sv.take(i - 1));
                    if str_eq(self.semantic[i - 1].0.as_str(), id.as_str()) {
                        return Some(self.semantic[i - 1].1);
                    }
                    i = i - 1;
                }
                None
            },
        }
    }
}

} // verus!
