//! The decisions of the streaming GML geometry reader.
//!
//! A `gml:Solid`/`gml:CompositeSolid` is read into an unresolved tree of
//! surface references (each an `xlink:href` to a polygon defined elsewhere
//! in the building, or an inline `gml:Polygon`, with an orientation flip for
//! `gml:OrientableSurface orientation="-"`); polygons are read into their
//! rings and ring ids. The reader walks the document one event at a time:
//! for the element it is inside, [`gml_step`] says what an event means
//! (descend into a child of a given kind, skip the child's subtree, the
//! element's own end tag, or nothing), and the `*_of` functions assemble an
//! element's result from what its children gave. Ring coordinates are read
//! by the caller; here a ring is an opaque value `R`.

use vstd::prelude::*;
use crate::error::{CityParquetError, Result, message_of};
use vstd::string::StringSliceAdditionalSpecFns;
use crate::text::{all_digits, chars_of, decimal_value, is_digit, owned, trim, trim_chars};
use crate::xml::{XmlAttr, bytes_eq, after_last, find_attr, fragment_id, get_attr, gml_id, utf8_text, xlink_fragment};

verus! {

/// A polygon: its `gml:id`, its exterior ring and holes, and the `gml:id` of
/// each ring (exterior first).
#[derive(Debug)]
pub struct Polygon<R> {
    pub id: Option<std::string::String>,
    pub exterior: R,
    pub interiors: Vec<R>,
    pub ring_ids: Vec<Option<std::string::String>>,
}

/// Where a surface of a shell comes from.
#[derive(Debug)]
pub enum RefTarget<R> {
    /// A `#fragment` reference to a polygon defined elsewhere in the building.
    Xlink(std::string::String),
    /// A polygon defined inline.
    Inline(Polygon<R>),
}

/// One surface of a solid shell, before xlink resolution; `reverse` when
/// its orientation is flipped.
#[derive(Debug)]
pub struct SurfaceRef<R> {
    pub reverse: bool,
    pub target: RefTarget<R>,
}

/// A `gml:Solid`: its shells, the exterior first.
#[derive(Debug)]
pub struct RawSolid<R> {
    pub shells: Vec<Vec<SurfaceRef<R>>>,
}

/// What the geometry reader sees of one event.
#[derive(Debug)]
pub enum GmlEvent {
    /// An opening tag: whether its namespace is GML, its local name and its
    /// attributes.
    Start { gml: bool, local: Vec<u8>, attrs: Vec<XmlAttr> },
    /// A closing tag, by local name.
    End { local: Vec<u8> },
    /// The end of the document.
    Eof,
    /// Anything else (text, comments, ...).
    Other,
}

/// The element the reader is inside.
#[derive(Debug)]
pub enum GmlContext {
    CompositeSolid,
    SolidMember,
    Solid,
    /// A `gml:exterior`/`gml:interior` of a solid, closed by the given name.
    Shell(Vec<u8>),
    /// A `gml:CompositeSurface`/`gml:Surface`/`gml:MultiSurface`, closed by
    /// the given name.
    SurfaceCollection(Vec<u8>),
    /// A `gml:surfaceMember` without an `xlink:href`.
    SurfaceMember,
    OrientableSurface,
    /// A `gml:baseSurface` without an `xlink:href`.
    BaseSurface,
    Polygon,
    /// A `gml:exterior`/`gml:interior` of a polygon, closed by the given name.
    RingContainer(Vec<u8>),
    LinearRing,
}

/// What an event means in a context.
#[derive(Debug, PartialEq, Eq)]
pub enum GmlAction {
    /// Nothing: read on.
    Continue,
    /// The element's own closing tag: it is finished.
    Done,
    /// A child of no interest: skip its subtree.
    Skip,
    /// Read a `gml:solidMember`.
    SolidMember,
    /// Read a `gml:Solid`.
    Solid,
    /// Read the exterior shell or ring.
    Exterior,
    /// Read an interior shell or ring.
    Interior,
    /// Read the surface members of a collection closed by the given name.
    SurfaceCollection(Vec<u8>),
    /// A surface member referring to the polygon with this id; skip its subtree.
    XlinkMember(std::string::String),
    /// Read the inline content of a surface member.
    InlineMember,
    /// Read a polygon with this `gml:id`.
    Polygon(Option<std::string::String>),
    /// Read an orientable surface; `true` when it flips its base surface.
    Orientable(bool),
    /// A base surface referring to the polygon with this id; skip its subtree.
    XlinkBase(std::string::String),
    /// Read the inline content of a base surface.
    InlineBase,
    /// Read a linear ring with this `gml:id`.
    LinearRing(Option<std::string::String>),
    /// Read coordinates (`gml:pos`/`gml:posList`) of this dimension.
    Coordinates(usize),
}

// ------------------------------------------------------------ attributes ----

/// `str::parse::<usize>`: an optional `+`, then one or more decimal digits
/// whose value fits `usize`.
pub open spec fn usize_text(s: Seq<char>) -> Option<usize> {
    let d = if s.len() > 0 && s[0] == '+' { s.drop_first() } else { s };
    if d.len() > 0 && all_digits(d) && decimal_value(d) <= usize::MAX {
        Some(decimal_value(d) as usize)
    } else {
        None
    }
}

/// The value of the first attribute with exactly this key.
pub open spec fn attr_value(attrs: Seq<XmlAttr>, key: Seq<u8>) -> Option<Seq<char>> {
    find_attr(attrs, |k: Seq<u8>| k == key)
}

/// The `srsDimension` of a coordinate element, when it parses.
pub open spec fn srs_dimension_spec(attrs: Seq<XmlAttr>) -> Option<usize> {
    match attr_value(attrs, "srsDimension".spec_bytes()) {
        Some(s) => usize_text(trim(s)),
        None => None,
    }
}

/// The element's `gml:id` (or bare `id`).
pub open spec fn gml_id_spec(attrs: Seq<XmlAttr>) -> Option<Seq<char>> {
    match attr_value(attrs, "gml:id".spec_bytes()) {
        Some(v) => Some(v),
        None => attr_value(attrs, "id".spec_bytes()),
    }
}

/// The `#fragment` of the element's `xlink:href`: `Ok(None)` without one,
/// `Err(())` for a reference that is not intra-document.
pub open spec fn href_fragment(attrs: Seq<XmlAttr>) -> core::result::Result<Option<Seq<char>>, ()> {
    match find_attr(attrs, |k: Seq<u8>| after_last(k, 58u8) == "href".spec_bytes()) {
        None => Ok(None),
        Some(href) => match fragment_id(href) {
            Some(id) => Ok(Some(id)),
            None => Err(()),
        },
    }
}

fn parse_usize(s: &Vec<char>) -> (r: Option<usize>)
    ensures
        r == usize_text(s@),
{
    let mut i: usize = 0;
    if s.len() > 0 && s[0] == '+' {
        i = 1;
    }
    let ghost d = if s@.len() > 0 && s@[0] == '+' { s@.drop_first() } else { s@ };
    assert(d =~= s@.skip(i as int));
    if i >= s.len() {
        return None;
    }
    let mut n: usize = 0;
    let start = i;
    assert(d.take(0) =~= Seq::<char>::empty());
    while i < s.len()
        invariant
            start <= i <= s@.len(),
            start < s@.len(),
            d == s@.skip(start as int),
            d == (if s@.len() > 0 && s@[0] == '+' { s@.drop_first() } else { s@ }),
            d.len() > 0,
            all_digits(d.take(i - start)),
            n == decimal_value(d.take(i - start)),
        decreases s.len() - i,
    {
        let c = s[i];
        assert(d.take(i - start + 1).drop_last() =~= d.take(i - start));
        assert(d.take(i - start + 1).last() == c);
        if !('0' <= c && c <= '9') {
            proof {
                assert(d[i - start] == c);
                assert(!is_digit(d[i - start]));
                assert(!all_digits(d));
                assert(usize_text(s@) is None);
            }
            return None;
        }
        let digit: usize = (c as u32 - 48) as usize;
        assert(digit == (c as u32) - 48);
        proof {
            assert(all_digits(d.take(i - start + 1))) by {
                assert forall|k: int| 0 <= k < d.take(i - start + 1).len() implies is_digit(#[trigger] d.take(i - start + 1)[k]) by {
                    if k < i - start {
                        assert(d.take(i - start + 1)[k] == d.take(i - start)[k]);
                    }
                }
            }
        }
        match n.checked_mul(10) {
            Some(m) => match m.checked_add(digit) {
                Some(v) => {
                    n = v;
                },
                None => {
                    proof {
                        assert(decimal_value(d.take(i - start + 1)) == n * 10 + digit);
                        if all_digits(d) {
                            lemma_value_grows(d, (i - start + 1) as int);
                        }
                        assert(usize_text(s@) is None);
                    }
                    return None;
                },
            },
            None => {
                proof {
                    assert(decimal_value(d.take(i - start + 1)) == n * 10 + digit);
                    if all_digits(d) {
                        lemma_value_grows(d, (i - start + 1) as int);
                    }
                    assert(usize_text(s@) is None);
                }
                return None;
            },
        }
        i = i + 1;
    }
    assert(d.take(s.len() - start) =~= d);
    Some(n)
}

/// The value of a digit string is at least that of any of its prefixes.
proof fn lemma_value_grows(d: Seq<char>, k: int)
    requires
        0 <= k <= d.len(),
        all_digits(d),
    ensures
        decimal_value(d.take(k)) <= decimal_value(d),
    decreases d.len() - k,
{
    if k < d.len() {
        lemma_value_grows(d, k + 1);
        assert(d.take(k + 1).drop_last() =~= d.take(k));
        assert(d.take(k + 1).last() == d[k]);
        assert(is_digit(d[k]));
    } else {
        assert(d.take(k) =~= d);
    }
}

/// The `srsDimension` of a coordinate element, when it parses.
pub fn srs_dimension(attrs: &[XmlAttr]) -> (r: Option<usize>)
    ensures
        r == srs_dimension_spec(attrs@),
{
    match get_attr(attrs, "srsDimension".as_bytes()) {
        Some(s) => {
            let v = chars_of(s.as_str());
            let t = trim_chars(v.as_slice());
            parse_usize(&t)
        },
        None => None,
    }
}

/// A `gml:OrientableSurface` flips its base surface when its `orientation`
/// is `-`.
pub fn orientation_reversed(attrs: &[XmlAttr]) -> (r: bool)
    ensures
        r == (attr_value(attrs@, "orientation".spec_bytes()) == Some("-"@)),
{
    match get_attr(attrs, "orientation".as_bytes()) {
        Some(s) => {
            proof {
                reveal_strlit("-");
            }
            let v = chars_of(s.as_str());
            let r = v.len() == 1 && v[0] == '-';
            proof {
                if r {
                    assert(v@ =~= "-"@);
                } else {
                    assert(v@ != "-"@) by {
                        if v@ == "-"@ {
                            assert(v@.len() == 1);
                            assert(v@[0] == '-');
                        }
                    }
                }
            }
            r
        },
        None => false,
    }
}

// ------------------------------------------------------------ decisions ----

/// The mathematical content of a [`GmlAction`].
pub enum ActionView {
    Continue,
    Done,
    Skip,
    SolidMember,
    Solid,
    Exterior,
    Interior,
    SurfaceCollection(Seq<u8>),
    XlinkMember(Seq<char>),
    InlineMember,
    Polygon(Option<Seq<char>>),
    Orientable(bool),
    XlinkBase(Seq<char>),
    InlineBase,
    LinearRing(Option<Seq<char>>),
    Coordinates(usize),
}

pub open spec fn opt_text(o: Option<std::string::String>) -> Option<Seq<char>> {
    match o {
        Some(s) => Some(s@),
        None => None,
    }
}

pub open spec fn action_view(a: GmlAction) -> ActionView {
    match a {
        GmlAction::Continue => ActionView::Continue,
        GmlAction::Done => ActionView::Done,
        GmlAction::Skip => ActionView::Skip,
        GmlAction::SolidMember => ActionView::SolidMember,
        GmlAction::Solid => ActionView::Solid,
        GmlAction::Exterior => ActionView::Exterior,
        GmlAction::Interior => ActionView::Interior,
        GmlAction::SurfaceCollection(e) => ActionView::SurfaceCollection(e@),
        GmlAction::XlinkMember(id) => ActionView::XlinkMember(id@),
        GmlAction::InlineMember => ActionView::InlineMember,
        GmlAction::Polygon(id) => ActionView::Polygon(opt_text(id)),
        GmlAction::Orientable(r) => ActionView::Orientable(r),
        GmlAction::XlinkBase(id) => ActionView::XlinkBase(id@),
        GmlAction::InlineBase => ActionView::InlineBase,
        GmlAction::LinearRing(id) => ActionView::LinearRing(opt_text(id)),
        GmlAction::Coordinates(d) => ActionView::Coordinates(d),
    }
}

/// The local name that closes the element of a context.
pub open spec fn closing_name(ctx: GmlContext) -> Seq<u8> {
    match ctx {
        GmlContext::CompositeSolid => "CompositeSolid".spec_bytes(),
        GmlContext::SolidMember => "solidMember".spec_bytes(),
        GmlContext::Solid => "Solid".spec_bytes(),
        GmlContext::Shell(e) => e@,
        GmlContext::SurfaceCollection(e) => e@,
        GmlContext::SurfaceMember => "surfaceMember".spec_bytes(),
        GmlContext::OrientableSurface => "OrientableSurface".spec_bytes(),
        GmlContext::BaseSurface => "baseSurface".spec_bytes(),
        GmlContext::Polygon => "Polygon".spec_bytes(),
        GmlContext::RingContainer(e) => e@,
        GmlContext::LinearRing => "LinearRing".spec_bytes(),
    }
}

/// A member surface given by reference (`on_ref`) or inline (`inline`),
/// by its `xlink:href`; `None` when the reference is not intra-document.
pub open spec fn by_href(attrs: Seq<XmlAttr>, is_base: bool) -> Option<ActionView> {
    match href_fragment(attrs) {
        Ok(Some(id)) => Some(if is_base { ActionView::XlinkBase(id) } else { ActionView::XlinkMember(id) }),
        Ok(None) => Some(if is_base { ActionView::InlineBase } else { ActionView::InlineMember }),
        Err(_) => None,
    }
}

/// What an opening GML tag `local` means in a context.
pub open spec fn gml_start_spec(ctx: GmlContext, local: Seq<u8>, attrs: Seq<XmlAttr>) -> Option<ActionView> {
    match ctx {
        GmlContext::CompositeSolid => Some(if local == "solidMember".spec_bytes() { ActionView::SolidMember } else { ActionView::Skip }),
        GmlContext::SolidMember => Some(if local == "Solid".spec_bytes() { ActionView::Solid } else { ActionView::Skip }),
        GmlContext::Solid | GmlContext::Polygon => Some(
            if local == "exterior".spec_bytes() {
                ActionView::Exterior
            } else if local == "interior".spec_bytes() {
                ActionView::Interior
            } else {
                ActionView::Skip
            },
        ),
        GmlContext::Shell(_) => Some(
            if local == "CompositeSurface".spec_bytes() || local == "Surface".spec_bytes() {
                ActionView::SurfaceCollection(local)
            } else {
                ActionView::Skip
            },
        ),
        GmlContext::SurfaceCollection(_) => if local == "surfaceMember".spec_bytes() {
            by_href(attrs, false)
        } else {
            Some(ActionView::Skip)
        },
        GmlContext::SurfaceMember => Some(
            if local == "Polygon".spec_bytes() {
                ActionView::Polygon(gml_id_spec(attrs))
            } else if local == "OrientableSurface".spec_bytes() {
                ActionView::Orientable(attr_value(attrs, "orientation".spec_bytes()) == Some("-"@))
            } else if local == "CompositeSurface".spec_bytes() || local == "MultiSurface".spec_bytes() {
                ActionView::SurfaceCollection(local)
            } else {
                ActionView::Skip
            },
        ),
        GmlContext::OrientableSurface => if local == "baseSurface".spec_bytes() {
            by_href(attrs, true)
        } else {
            Some(ActionView::Skip)
        },
        GmlContext::BaseSurface => Some(
            if local == "Polygon".spec_bytes() {
                ActionView::Polygon(gml_id_spec(attrs))
            } else if local == "OrientableSurface".spec_bytes() {
                ActionView::Orientable(attr_value(attrs, "orientation".spec_bytes()) == Some("-"@))
            } else {
                ActionView::Skip
            },
        ),
        GmlContext::RingContainer(_) => Some(
            if local == "LinearRing".spec_bytes() { ActionView::LinearRing(gml_id_spec(attrs)) } else { ActionView::Skip },
        ),
        GmlContext::LinearRing => Some(
            if local == "pos".spec_bytes() || local == "posList".spec_bytes() {
                ActionView::Coordinates(
                    match srs_dimension_spec(attrs) {
                        Some(d) => d,
                        None => 3,
                    },
                )
            } else {
                ActionView::Skip
            },
        ),
    }
}

/// What an event means in a context: a non-GML child is skipped, the
/// context's closing tag finishes it, other closing tags and anything else
/// are read past; `None` (a `Schema` error) for the end of the document or
/// an external `xlink:href`.
pub open spec fn gml_step_spec(ctx: GmlContext, ev: GmlEvent) -> Option<ActionView> {
    match ev {
        GmlEvent::Eof => None,
        GmlEvent::Other => Some(ActionView::Continue),
        GmlEvent::End { local } => Some(if local@ == closing_name(ctx) { ActionView::Done } else { ActionView::Continue }),
        GmlEvent::Start { gml, local, attrs } => if gml { gml_start_spec(ctx, local@, attrs@) } else { Some(ActionView::Skip) },
    }
}

fn closing_name_exec(ctx: &GmlContext) -> (r: &[u8])
    ensures
        r@ == closing_name(*ctx),
{
    match ctx {
        GmlContext::CompositeSolid => "CompositeSolid".as_bytes(),
        GmlContext::SolidMember => "solidMember".as_bytes(),
        GmlContext::Solid => "Solid".as_bytes(),
        GmlContext::Shell(e) => e.as_slice(),
        GmlContext::SurfaceCollection(e) => e.as_slice(),
        GmlContext::SurfaceMember => "surfaceMember".as_bytes(),
        GmlContext::OrientableSurface => "OrientableSurface".as_bytes(),
        GmlContext::BaseSurface => "baseSurface".as_bytes(),
        GmlContext::Polygon => "Polygon".as_bytes(),
        GmlContext::RingContainer(e) => e.as_slice(),
        GmlContext::LinearRing => "LinearRing".as_bytes(),
    }
}

/// How a context is named in an end-of-document message.
pub open spec fn gml_context_name(ctx: GmlContext) -> Seq<char> {
    match ctx {
        GmlContext::CompositeSolid => "CompositeSolid"@,
        GmlContext::SolidMember => "solidMember"@,
        GmlContext::Solid => "Solid"@,
        GmlContext::Shell(_) => "shell"@,
        GmlContext::SurfaceCollection(_) => "surface collection"@,
        GmlContext::SurfaceMember => "surfaceMember"@,
        GmlContext::OrientableSurface => "OrientableSurface"@,
        GmlContext::BaseSurface => "baseSurface"@,
        GmlContext::Polygon => "Polygon"@,
        GmlContext::RingContainer(_) => "ring container"@,
        GmlContext::LinearRing => "LinearRing"@,
    }
}

fn eof_err(ctx: &GmlContext) -> (e: CityParquetError)
    ensures
        e is Schema,
        message_of(e) == "unexpected end of CityGML document inside <"@ + gml_context_name(*ctx) + ">"@,
{
    let what = match ctx {
        GmlContext::CompositeSolid => "CompositeSolid",
        GmlContext::SolidMember => "solidMember",
        GmlContext::Solid => "Solid",
        GmlContext::Shell(_) => "shell",
        GmlContext::SurfaceCollection(_) => "surface collection",
        GmlContext::SurfaceMember => "surfaceMember",
        GmlContext::OrientableSurface => "OrientableSurface",
        GmlContext::BaseSurface => "baseSurface",
        GmlContext::Polygon => "Polygon",
        GmlContext::RingContainer(_) => "ring container",
        GmlContext::LinearRing => "LinearRing",
    };
    let mut m = owned("unexpected end of CityGML document inside <");
    m.push_str(what);
    m.push_str(">");
    CityParquetError::Schema(m)
}

fn copy_bytes(v: &[u8]) -> (r: Vec<u8>)
    ensures
        r@ == v@,
{
    let mut r: Vec<u8> = Vec::new();
    let mut i: usize = 0;
    while i < v.len()
        invariant
            i <= v@.len(),
            r@ == v@.take(i as int),
        decreases v.len() - i,
    {
        r.push(v[i]);
        assert(v@.take(i + 1) =~= v@.take(i as int).push(v@[i as int]));
        i = i + 1;
    }
    assert(v@.take(v@.len() as int) =~= v@);
    r
}

fn href_action(attrs: &[XmlAttr], is_base: bool) -> (r: Result<GmlAction>)
    ensures
        match by_href(attrs@, is_base) {
            None => r matches Err(CityParquetError::Schema(_)),
            Some(a) => r matches Ok(x) && action_view(x) == a,
        },
{
    match xlink_fragment(attrs)? {
        Some(id) => Ok(if is_base { GmlAction::XlinkBase(id) } else { GmlAction::XlinkMember(id) }),
        None => Ok(if is_base { GmlAction::InlineBase } else { GmlAction::InlineMember }),
    }
}

fn is_name(local: &[u8], name: &str) -> (r: bool)
    ensures
        r == (local@ == name.spec_bytes()),
{
    bytes_eq(local, name.as_bytes())
}

fn gml_start(ctx: &GmlContext, local: &[u8], attrs: &[XmlAttr]) -> (r: Result<GmlAction>)
    ensures
        match gml_start_spec(*ctx, local@, attrs@) {
            None => r matches Err(CityParquetError::Schema(_)),
            Some(a) => r matches Ok(x) && action_view(x) == a,
        },
{
    match ctx {
        GmlContext::CompositeSolid => Ok(if is_name(local, "solidMember") { GmlAction::SolidMember } else { GmlAction::Skip }),
        GmlContext::SolidMember => Ok(if is_name(local, "Solid") { GmlAction::Solid } else { GmlAction::Skip }),
        GmlContext::Solid | GmlContext::Polygon => Ok(
            if is_name(local, "exterior") {
                GmlAction::Exterior
            } else if is_name(local, "interior") {
                GmlAction::Interior
            } else {
                GmlAction::Skip
            },
        ),
        GmlContext::Shell(_) => Ok(
            if is_name(local, "CompositeSurface") || is_name(local, "Surface") {
                GmlAction::SurfaceCollection(copy_bytes(local))
            } else {
                GmlAction::Skip
            },
        ),
        GmlContext::SurfaceCollection(_) => if is_name(local, "surfaceMember") {
            href_action(attrs, false)
        } else {
            Ok(GmlAction::Skip)
        },
        GmlContext::SurfaceMember => Ok(
            if is_name(local, "Polygon") {
                GmlAction::Polygon(gml_id(attrs))
            } else if is_name(local, "OrientableSurface") {
                GmlAction::Orientable(orientation_reversed(attrs))
            } else if is_name(local, "CompositeSurface") || is_name(local, "MultiSurface") {
                GmlAction::SurfaceCollection(copy_bytes(local))
            } else {
                GmlAction::Skip
            },
        ),
        GmlContext::OrientableSurface => if is_name(local, "baseSurface") {
            href_action(attrs, true)
        } else {
            Ok(GmlAction::Skip)
        },
        GmlContext::BaseSurface => Ok(
            if is_name(local, "Polygon") {
                GmlAction::Polygon(gml_id(attrs))
            } else if is_name(local, "OrientableSurface") {
                GmlAction::Orientable(orientation_reversed(attrs))
            } else {
                GmlAction::Skip
            },
        ),
        GmlContext::RingContainer(_) => Ok(
            if is_name(local, "LinearRing") { GmlAction::LinearRing(gml_id(attrs)) } else { GmlAction::Skip },
        ),
        GmlContext::LinearRing => Ok(
            if is_name(local, "pos") || is_name(local, "posList") {
                GmlAction::Coordinates(
                    match srs_dimension(attrs) {
                        Some(d) => d,
                        None => 3,
                    },
                )
            } else {
                GmlAction::Skip
            },
        ),
    }
}

/// What one event means inside the element of `ctx` (see [`gml_step_spec`]).
pub fn gml_step(ctx: &GmlContext, ev: &GmlEvent) -> (r: Result<GmlAction>)
    ensures
        match gml_step_spec(*ctx, *ev) {
            None => r matches Err(CityParquetError::Schema(_)),
            Some(a) => r matches Ok(x) && action_view(x) == a,
        },
{
    match ev {
        GmlEvent::Eof => Err(eof_err(ctx)),
        GmlEvent::Other => Ok(GmlAction::Continue),
        GmlEvent::End { local } => Ok(
            if bytes_eq(local.as_slice(), closing_name_exec(ctx)) { GmlAction::Done } else { GmlAction::Continue },
        ),
        GmlEvent::Start { gml, local, attrs } => {
            if *gml {
                gml_start(ctx, local.as_slice(), attrs.as_slice())
            } else {
                Ok(GmlAction::Skip)
            }
        },
    }
}

// ------------------------------------------------------------ results ----

/// A `gml:Solid`'s shells: the exterior (when there is one) first, then the
/// interiors in document order.
pub fn solid_of<R>(exterior: Option<Vec<SurfaceRef<R>>>, interiors: Vec<Vec<SurfaceRef<R>>>) -> (s: RawSolid<R>)
    ensures
        s.shells@ == match exterior {
            Some(e) => seq![e] + interiors@,
            None => interiors@,
        },
{
    let mut shells: Vec<Vec<SurfaceRef<R>>> = Vec::new();
    let ghost with_ext = if exterior is Some { seq![exterior->Some_0] } else { Seq::<Vec<SurfaceRef<R>>>::empty() };
    match exterior {
        Some(e) => shells.push(e),
        None => {},
    }
    assert(shells@ =~= with_ext);
    let mut rest = interiors;
    let ghost all = rest@;
    let n = rest.len();
    let mut k: usize = 0;
    while rest.len() > 0
        invariant
            k <= all.len(),
            all.len() == n,
            rest@ == all.skip(k as int),
            shells@ == with_ext + all.take(k as int),
        decreases rest.len(),
    {
        let shell = rest.remove(0);
        assert(shell == all[k as int]);
        shells.push(shell);
        assert(all.take(k + 1) =~= all.take(k as int).push(all[k as int]));
        assert(rest@ =~= all.skip(k + 1));
        k = k + 1;
    }
    assert(k == all.len()) by {
        assert(all.skip(k as int).len() == 0);
    }
    assert(all.take(k as int) =~= all);
    assert(shells@ =~= match exterior { Some(e) => seq![e] + all, None => all });
    RawSolid { shells }
}

/// A `gml:solidMember`'s solid (the last one it holds); without one it is a
/// `Schema` error.
pub fn solid_member_of<R>(solid: Option<RawSolid<R>>) -> (r: Result<RawSolid<R>>)
    ensures
        match solid {
            Some(s) => r == Ok::<RawSolid<R>, CityParquetError>(s),
            None => r matches Err(CityParquetError::Schema(_)),
        },
{
    match solid {
        Some(s) => Ok(s),
        None => Err(CityParquetError::Schema(owned("gml:solidMember without gml:Solid"))),
    }
}

/// The surface a `gml:OrientableSurface` (`orientable`) or `gml:baseSurface`
/// (otherwise) holds; without one it is a `Schema` error.
pub fn surface_of<R>(result: Option<SurfaceRef<R>>, orientable: bool) -> (r: Result<SurfaceRef<R>>)
    ensures
        match result {
            Some(x) => r == Ok::<SurfaceRef<R>, CityParquetError>(x),
            None => r matches Err(CityParquetError::Schema(_)),
        },
{
    match result {
        Some(x) => Ok(x),
        None => Err(CityParquetError::Schema(owned(
            if orientable { "gml:OrientableSurface without baseSurface" } else { "gml:baseSurface without a surface" },
        ))),
    }
}

/// An inline base surface seen through an orientable surface: nested flips
/// combine (exclusive or).
pub fn flipped<R>(reverse: bool, inner: SurfaceRef<R>) -> (r: SurfaceRef<R>)
    ensures
        r.reverse == (reverse != inner.reverse),
        r.target == inner.target,
{
    SurfaceRef { reverse: reverse != inner.reverse, target: inner.target }
}

/// A `gml:Polygon` from its exterior ring (the last one) and its holes, each
/// with its `gml:LinearRing` id: the ring ids list the exterior's first.
/// Without an exterior it is a `Schema` error. The polygon's own id is set
/// by the caller.
pub fn polygon_of<R>(exterior: Option<(R, Option<std::string::String>)>, interiors: Vec<(R, Option<std::string::String>)>)
    -> (r: Result<Polygon<R>>)
    ensures
        match exterior {
            None => r matches Err(CityParquetError::Schema(_)),
            Some((ext, ext_id)) => r matches Ok(p) && p.id is None && p.exterior == ext
                && p.interiors@ == interiors@.map_values(|x: (R, Option<std::string::String>)| x.0)
                && p.ring_ids@ == seq![ext_id] + interiors@.map_values(|x: (R, Option<std::string::String>)| x.1),
        },
{
    let (ext, ext_id) = match exterior {
        Some(e) => e,
        None => return Err(CityParquetError::Schema(owned("gml:Polygon without exterior ring"))),
    };
    let mut ring_ids: Vec<Option<std::string::String>> = Vec::new();
    ring_ids.push(ext_id);
    let mut holes: Vec<R> = Vec::new();
    let mut rest = interiors;
    let ghost all = rest@;
    let n = rest.len();
    let mut k: usize = 0;
    assert(holes@ =~= all.take(0).map_values(|x: (R, Option<std::string::String>)| x.0));
    assert(ring_ids@ =~= seq![ext_id] + all.take(0).map_values(|x: (R, Option<std::string::String>)| x.1));
    while rest.len() > 0
        invariant
            k <= all.len(),
            all.len() == n,
            rest@ == all.skip(k as int),
            holes@ == all.take(k as int).map_values(|x: (R, Option<std::string::String>)| x.0),
            ring_ids@ == seq![ext_id] + all.take(k as int).map_values(|x: (R, Option<std::string::String>)| x.1),
        decreases rest.len(),
    {
        let (ring, id) = rest.remove(0);
        assert((ring, id) == all[k as int]);
        holes.push(ring);
        ring_ids.push(id);
        assert(all.take(k + 1) =~= all.take(k as int).push(all[k as int]));
        assert(holes@ =~= all.take(k + 1).map_values(|x: (R, Option<std::string::String>)| x.0));
        assert(ring_ids@ =~= seq![ext_id] + all.take(k + 1).map_values(|x: (R, Option<std::string::String>)| x.1));
        assert(rest@ =~= all.skip(k + 1));
        k = k + 1;
    }
    assert(k == all.len()) by {
        assert(all.skip(k as int).len() == 0);
    }
    assert(all.take(k as int) =~= all);
    Ok(Polygon { id: None, exterior: ext, interiors: holes, ring_ids })
}

/// A polygon ring container's ring (the last `gml:LinearRing` it holds);
/// without one it is a `Schema` error.
pub fn ring_of<R>(ring: Option<(R, Option<std::string::String>)>) -> (r: Result<(R, Option<std::string::String>)>)
    ensures
        match ring {
            Some(x) => r == Ok::<(R, Option<std::string::String>), CityParquetError>(x),
            None => r matches Err(CityParquetError::Schema(_)),
        },
{
    match ring {
        Some(x) => Ok(x),
        None => Err(CityParquetError::Schema(owned("gml ring without LinearRing"))),
    }
}

/// What the polygon harvester does next.
#[derive(Debug, PartialEq, Eq)]
pub enum CollectStep {
    /// Read a `gml:Polygon` with this `gml:id` (its subtree is consumed by
    /// the polygon reader, so the depth stays).
    Polygon(Option<std::string::String>),
    /// Read on, now this deep.
    Continue(usize),
    /// The harvested element's own closing tag.
    Done,
}

/// One event of harvesting every `gml:Polygon` in an element's subtree,
/// `depth` levels below the element's parent (1 right after its opening
/// tag): a GML polygon is read whole, another opening tag nests one level
/// deeper, a closing tag one level shallower and finishes at depth 0. The
/// end of the document is a `Schema` error.
pub fn collect_step(depth: usize, ev: &GmlEvent) -> (r: Result<CollectStep>)
    requires
        depth >= 1,
        ev is Start ==> depth < usize::MAX,
    ensures
        match ev {
            GmlEvent::Start { gml, local, attrs } => if *gml && local@ == "Polygon".spec_bytes() {
                r matches Ok(CollectStep::Polygon(id)) && opt_text(id) == gml_id_spec(attrs@)
            } else {
                r == Ok::<CollectStep, CityParquetError>(CollectStep::Continue((depth + 1) as usize))
            },
            GmlEvent::End { .. } => if depth == 1 {
                r == Ok::<CollectStep, CityParquetError>(CollectStep::Done)
            } else {
                r == Ok::<CollectStep, CityParquetError>(CollectStep::Continue((depth - 1) as usize))
            },
            GmlEvent::Eof => r matches Err(CityParquetError::Schema(_)),
            GmlEvent::Other => r == Ok::<CollectStep, CityParquetError>(CollectStep::Continue(depth)),
        },
{
    match ev {
        GmlEvent::Start { gml, local, attrs } => {
            if *gml && is_name(local.as_slice(), "Polygon") {
                Ok(CollectStep::Polygon(gml_id(attrs.as_slice())))
            } else {
                Ok(CollectStep::Continue(depth + 1))
            }
        },
        GmlEvent::End { .. } => {
            if depth == 1 {
                Ok(CollectStep::Done)
            } else {
                Ok(CollectStep::Continue(depth - 1))
            }
        },
        GmlEvent::Eof => Err(CityParquetError::Schema(owned("unexpected end of CityGML document inside <polygon collection>"))),
        GmlEvent::Other => Ok(CollectStep::Continue(depth)),
    }
}


/// Inside a polygon (and a solid) every GML `exterior` and `interior` child
/// is read, whatever its attributes: a polygon keeps its outer ring and each
/// of its holes, in document order; any other GML child is skipped, and so
/// is every child outside the GML namespace.
pub proof fn lemma_boundary_children_read(ctx: GmlContext, local: Vec<u8>, attrs: Vec<XmlAttr>)
    requires
        ctx is Polygon || ctx is Solid,
    ensures
        local@ == "exterior".spec_bytes() ==> gml_step_spec(ctx, GmlEvent::Start { gml: true, local, attrs })
            == Some(ActionView::Exterior),
        local@ == "interior".spec_bytes() ==> gml_step_spec(ctx, GmlEvent::Start { gml: true, local, attrs })
            == Some(ActionView::Interior),
        local@ != "exterior".spec_bytes() && local@ != "interior".spec_bytes()
            ==> gml_step_spec(ctx, GmlEvent::Start { gml: true, local, attrs }) == Some(ActionView::Skip),
        gml_step_spec(ctx, GmlEvent::Start { gml: false, local, attrs }) == Some(ActionView::Skip),
{
    reveal_strlit("exterior");
    reveal_strlit("interior");
    assert(vstd::string::is_ascii("exterior"));
    assert(vstd::string::is_ascii("interior"));
    vstd::string::is_ascii_spec_bytes("exterior");
    vstd::string::is_ascii_spec_bytes("interior");
    assert("exterior".spec_bytes()[0] != "interior".spec_bytes()[0]);
}


/// In every context: a child outside the GML namespace is skipped whole,
/// the element's own closing tag finishes it, another closing tag or any
/// other event is read past, and the end of the document inside it is a
/// `Schema` error.
pub proof fn lemma_gml_step_frame(ctx: GmlContext, local: Vec<u8>, attrs: Vec<XmlAttr>)
    ensures
        gml_step_spec(ctx, GmlEvent::Start { gml: false, local, attrs }) == Some(ActionView::Skip),
        local@ == closing_name(ctx) ==> gml_step_spec(ctx, GmlEvent::End { local }) == Some(ActionView::Done),
        local@ != closing_name(ctx) ==> gml_step_spec(ctx, GmlEvent::End { local }) == Some(ActionView::Continue),
        gml_step_spec(ctx, GmlEvent::Other) == Some(ActionView::Continue),
        gml_step_spec(ctx, GmlEvent::Eof) is None,
{
}


/// Inside a ring container the GML `LinearRing` is read with its own id,
/// and inside a ring every GML `pos`/`posList` is read as coordinates of
/// the declared `srsDimension`, three when it declares none.
pub proof fn lemma_rings_read(e: Vec<u8>, local: Vec<u8>, attrs: Vec<XmlAttr>)
    ensures
        local@ == "LinearRing".spec_bytes() ==> gml_step_spec(GmlContext::RingContainer(e), GmlEvent::Start { gml: true, local, attrs })
            == Some(ActionView::LinearRing(gml_id_spec(attrs@))),
        local@ == "pos".spec_bytes() || local@ == "posList".spec_bytes() ==> gml_step_spec(GmlContext::LinearRing, GmlEvent::Start { gml: true, local, attrs })
            == Some(ActionView::Coordinates(match srs_dimension_spec(attrs@) { Some(d) => d, None => 3 })),
{
}

} // verus!
