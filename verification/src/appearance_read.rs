//! The decisions of the CityGML `app:appearance` reader.
//!
//! An `app:appearance` property holds an `app:Appearance`: an optional
//! `app:theme` (absent is the empty theme) and `app:surfaceDataMember`s, each
//! an `app:X3DMaterial` (a CityJSON material: `gml:name`, the X3D colours and
//! scalars, `isSmooth`, and the `app:target` polygons it colours) or an
//! `app:ParameterizedTexture` (a CityJSON texture: image, type, texture type,
//! wrap mode, border colour, and per-ring texture coordinates under
//! `app:target`). The reader walks the events; for each one, [`app_step`]
//! says what it means in the element being read. Numbers are parsed by the
//! caller.

use vstd::prelude::*;
use vstd::string::StringSliceAdditionalSpecFns;
use crate::error::{CityParquetError, Result, message_of};
use crate::text::{chars_of, opt_str, owned, slice_vec, string_of, trim, trim_chars};
use crate::xml::{XmlAttr, after_last, bytes_eq, find_attr, get_attr_local};

verus! {

/// One reader event, as far as the appearance reader reads it.
pub enum AppEvent {
    /// An opening tag: whether its namespace is CityGML appearance or GML,
    /// its local name and its attributes.
    Start { app: bool, gml: bool, local: Vec<u8>, attrs: Vec<XmlAttr> },
    /// A closing tag, by local name.
    End { local: Vec<u8> },
    /// The end of the document.
    Eof,
    /// Anything else.
    Other,
}

/// The element the reader is inside.
#[derive(Debug, Clone, Copy, PartialEq, Eq, Structural)]
pub enum AppContext {
    /// The `app:appearance` property.
    Property,
    /// An `app:Appearance`.
    Appearance,
    SurfaceDataMember,
    X3DMaterial,
    ParameterizedTexture,
    /// A texture's `app:target` or an `app:TexCoordList` inside it.
    TextureTarget,
}

/// What an event means in a context.
#[derive(Debug, PartialEq, Eq)]
pub enum AppAction {
    /// Nothing: read on.
    Continue,
    /// The context's closing tag: it is finished.
    Done,
    /// A child of no interest: skip its subtree.
    Skip,
    /// Read an `app:Appearance`.
    Appearance,
    /// Read the theme's text (trimmed).
    Theme,
    /// Read a surface data member.
    SurfaceDataMember,
    /// Read an X3D material.
    X3DMaterial,
    /// Read a parameterized texture.
    ParameterizedTexture,
    /// Read the material's name (trimmed).
    Name,
    /// Read the colour stored under this key (numbers).
    Color(std::string::String),
    /// Read the scalar stored under this key (a number).
    Scalar(std::string::String),
    /// Read whether the material is smooth.
    IsSmooth,
    /// Read a polygon the material targets.
    Target,
    /// Read the texture's image (trimmed).
    Image,
    /// Read the texture's MIME type.
    MimeType,
    /// Read the texture type (trimmed).
    TextureType,
    /// Read the wrap mode (trimmed).
    WrapMode,
    /// Read the border colour (numbers).
    BorderColor,
    /// Read the texture's target rings.
    TextureTarget,
    /// Read one ring's texture coordinates; the ring's id when it names one.
    TexCoords(Option<std::string::String>),
    /// Read the coordinate lists of an `app:TexCoordList`.
    TexCoordList,
}

/// An action as plain values.
pub enum AppActionV {
    Continue,
    Done,
    Skip,
    Appearance,
    Theme,
    SurfaceDataMember,
    X3DMaterial,
    ParameterizedTexture,
    Name,
    Color(Seq<char>),
    Scalar(Seq<char>),
    IsSmooth,
    Target,
    Image,
    MimeType,
    TextureType,
    WrapMode,
    BorderColor,
    TextureTarget,
    TexCoords(Option<Seq<char>>),
    TexCoordList,
}

pub open spec fn app_action_view(a: AppAction) -> AppActionV {
    match a {
        AppAction::Continue => AppActionV::Continue,
        AppAction::Done => AppActionV::Done,
        AppAction::Skip => AppActionV::Skip,
        AppAction::Appearance => AppActionV::Appearance,
        AppAction::Theme => AppActionV::Theme,
        AppAction::SurfaceDataMember => AppActionV::SurfaceDataMember,
        AppAction::X3DMaterial => AppActionV::X3DMaterial,
        AppAction::ParameterizedTexture => AppActionV::ParameterizedTexture,
        AppAction::Name => AppActionV::Name,
        AppAction::Color(k) => AppActionV::Color(k@),
        AppAction::Scalar(k) => AppActionV::Scalar(k@),
        AppAction::IsSmooth => AppActionV::IsSmooth,
        AppAction::Target => AppActionV::Target,
        AppAction::Image => AppActionV::Image,
        AppAction::MimeType => AppActionV::MimeType,
        AppAction::TextureType => AppActionV::TextureType,
        AppAction::WrapMode => AppActionV::WrapMode,
        AppAction::BorderColor => AppActionV::BorderColor,
        AppAction::TextureTarget => AppActionV::TextureTarget,
        AppAction::TexCoords(r) => AppActionV::TexCoords(opt_str(r)),
        AppAction::TexCoordList => AppActionV::TexCoordList,
    }
}

/// Whether a closing tag `local` finishes the element of a context.
pub open spec fn app_closes(ctx: AppContext, local: Seq<u8>) -> bool {
    match ctx {
        AppContext::Property => local == "appearance".spec_bytes(),
        AppContext::Appearance => local == "Appearance".spec_bytes(),
        AppContext::SurfaceDataMember => local == "surfaceDataMember".spec_bytes(),
        AppContext::X3DMaterial => local == "X3DMaterial".spec_bytes(),
        AppContext::ParameterizedTexture => local == "ParameterizedTexture".spec_bytes(),
        AppContext::TextureTarget => local == "target".spec_bytes() || local == "TexCoordList".spec_bytes(),
    }
}

/// The ring a texture-coordinate list names: its `ring` attribute, trimmed,
/// with the leading `#` removed; none without a `#`.
pub open spec fn ring_ref_spec(attrs: Seq<XmlAttr>) -> Option<Seq<char>> {
    match find_attr(attrs, |k: Seq<u8>| after_last(k, 58u8) == "ring".spec_bytes()) {
        Some(v) => {
            let t = trim(v);
            if t.len() > 0 && t[0] == '#' { Some(t.drop_first()) } else { None }
        },
        None => None,
    }
}

/// What an opening tag of an appearance-namespace (`app`) or GML (`gml`)
/// element `local` means in a context.
pub open spec fn app_start_spec(ctx: AppContext, app: bool, gml: bool, local: Seq<u8>, attrs: Seq<XmlAttr>) -> AppActionV {
    match ctx {
        AppContext::Property => if app && local == "Appearance".spec_bytes() { AppActionV::Appearance } else { AppActionV::Skip },
        AppContext::Appearance => if app && local == "theme".spec_bytes() {
            AppActionV::Theme
        } else if app && local == "surfaceDataMember".spec_bytes() {
            AppActionV::SurfaceDataMember
        } else {
            AppActionV::Skip
        },
        AppContext::SurfaceDataMember => if app && local == "X3DMaterial".spec_bytes() {
            AppActionV::X3DMaterial
        } else if app && local == "ParameterizedTexture".spec_bytes() {
            AppActionV::ParameterizedTexture
        } else {
            AppActionV::Skip
        },
        AppContext::X3DMaterial => if gml && local == "name".spec_bytes() {
            AppActionV::Name
        } else if !app {
            AppActionV::Skip
        } else if local == "diffuseColor".spec_bytes() {
            AppActionV::Color("diffuseColor"@)
        } else if local == "emissiveColor".spec_bytes() {
            AppActionV::Color("emissiveColor"@)
        } else if local == "specularColor".spec_bytes() {
            AppActionV::Color("specularColor"@)
        } else if local == "ambientIntensity".spec_bytes() {
            AppActionV::Scalar("ambientIntensity"@)
        } else if local == "shininess".spec_bytes() {
            AppActionV::Scalar("shininess"@)
        } else if local == "transparency".spec_bytes() {
            AppActionV::Scalar("transparency"@)
        } else if local == "isSmooth".spec_bytes() {
            AppActionV::IsSmooth
        } else if local == "target".spec_bytes() {
            AppActionV::Target
        } else {
            AppActionV::Skip
        },
        AppContext::ParameterizedTexture => if !app {
            AppActionV::Skip
        } else if local == "imageURI".spec_bytes() {
            AppActionV::Image
        } else if local == "mimeType".spec_bytes() {
            AppActionV::MimeType
        } else if local == "textureType".spec_bytes() {
            AppActionV::TextureType
        } else if local == "wrapMode".spec_bytes() {
            AppActionV::WrapMode
        } else if local == "borderColor".spec_bytes() {
            AppActionV::BorderColor
        } else if local == "target".spec_bytes() {
            AppActionV::TextureTarget
        } else {
            AppActionV::Skip
        },
        AppContext::TextureTarget => if app && local == "textureCoordinates".spec_bytes() {
            AppActionV::TexCoords(ring_ref_spec(attrs))
        } else if app && local == "TexCoordList".spec_bytes() {
            AppActionV::TexCoordList
        } else {
            AppActionV::Skip
        },
    }
}

/// What an event means in a context: the context's closing tag finishes
/// it, other closing tags and anything else are read past; `None` (a
/// `Schema` error) for the end of the document.
pub open spec fn app_step_spec(ctx: AppContext, ev: AppEvent) -> Option<AppActionV> {
    match ev {
        AppEvent::Eof => None,
        AppEvent::Other => Some(AppActionV::Continue),
        AppEvent::End { local } => Some(if app_closes(ctx, local@) { AppActionV::Done } else { AppActionV::Continue }),
        AppEvent::Start { app, gml, local, attrs } => Some(app_start_spec(ctx, app, gml, local@, attrs@)),
    }
}

fn is_name(local: &[u8], name: &str) -> (r: bool)
    ensures
        r == (local@ == name.spec_bytes()),
{
    bytes_eq(local, name.as_bytes())
}

/// How a context is named in an end-of-document message.
pub open spec fn app_context_name(ctx: AppContext) -> Seq<char> {
    match ctx {
        AppContext::Property => "appearance"@,
        AppContext::Appearance => "Appearance"@,
        AppContext::SurfaceDataMember => "surfaceDataMember"@,
        AppContext::X3DMaterial => "X3DMaterial"@,
        AppContext::ParameterizedTexture => "ParameterizedTexture"@,
        AppContext::TextureTarget => "texture target"@,
    }
}

fn eof_err(ctx: AppContext) -> (e: CityParquetError)
    ensures
        e is Schema,
        message_of(e) == "unexpected end of CityGML document inside <"@ + app_context_name(ctx) + ">"@,
{
    let what = match ctx {
        AppContext::Property => "appearance",
        AppContext::Appearance => "Appearance",
        AppContext::SurfaceDataMember => "surfaceDataMember",
        AppContext::X3DMaterial => "X3DMaterial",
        AppContext::ParameterizedTexture => "ParameterizedTexture",
        AppContext::TextureTarget => "texture target",
    };
    let mut m = owned("unexpected end of CityGML document inside <");
    m.push_str(what);
    m.push_str(">");
    CityParquetError::Schema(m)
}

/// The ring a texture-coordinate list names (see [`ring_ref_spec`]).
pub fn ring_ref(attrs: &[XmlAttr]) -> (r: Option<std::string::String>)
    ensures
        opt_str(r) == ring_ref_spec(attrs@),
{
    match get_attr_local(attrs, "ring".as_bytes()) {
        Some(v) => {
            let t = trim_chars(chars_of(v.as_str()).as_slice());
            if t.len() > 0 && t[0] == '#' {
                let rest = slice_vec(t.as_slice(), 1, t.len());
                assert(rest@ =~= t@.drop_first());
                Some(string_of(rest.as_slice()))
            } else {
                None
            }
        },
        None => None,
    }
}

fn app_start(ctx: AppContext, app: bool, gml: bool, local: &[u8], attrs: &[XmlAttr]) -> (r: AppAction)
    ensures
        app_action_view(r) == app_start_spec(ctx, app, gml, local@, attrs@),
{
    match ctx {
        AppContext::Property => if app && is_name(local, "Appearance") { AppAction::Appearance } else { AppAction::Skip },
        AppContext::Appearance => if app && is_name(local, "theme") {
            AppAction::Theme
        } else if app && is_name(local, "surfaceDataMember") {
            AppAction::SurfaceDataMember
        } else {
            AppAction::Skip
        },
        AppContext::SurfaceDataMember => if app && is_name(local, "X3DMaterial") {
            AppAction::X3DMaterial
        } else if app && is_name(local, "ParameterizedTexture") {
            AppAction::ParameterizedTexture
        } else {
            AppAction::Skip
        },
        AppContext::X3DMaterial => if gml && is_name(local, "name") {
            AppAction::Name
        } else if !app {
            AppAction::Skip
        } else if is_name(local, "diffuseColor") {
            AppAction::Color(owned("diffuseColor"))
        } else if is_name(local, "emissiveColor") {
            AppAction::Color(owned("emissiveColor"))
        } else if is_name(local, "specularColor") {
            AppAction::Color(owned("specularColor"))
        } else if is_name(local, "ambientIntensity") {
            AppAction::Scalar(owned("ambientIntensity"))
        } else if is_name(local, "shininess") {
            AppAction::Scalar(owned("shininess"))
        } else if is_name(local, "transparency") {
            AppAction::Scalar(owned("transparency"))
        } else if is_name(local, "isSmooth") {
            AppAction::IsSmooth
        } else if is_name(local, "target") {
            AppAction::Target
        } else {
            AppAction::Skip
        },
        AppContext::ParameterizedTexture => if !app {
            AppAction::Skip
        } else if is_name(local, "imageURI") {
            AppAction::Image
        } else if is_name(local, "mimeType") {
            AppAction::MimeType
        } else if is_name(local, "textureType") {
            AppAction::TextureType
        } else if is_name(local, "wrapMode") {
            AppAction::WrapMode
        } else if is_name(local, "borderColor") {
            AppAction::BorderColor
        } else if is_name(local, "target") {
            AppAction::TextureTarget
        } else {
            AppAction::Skip
        },
        AppContext::TextureTarget => if app && is_name(local, "textureCoordinates") {
            AppAction::TexCoords(ring_ref(attrs))
        } else if app && is_name(local, "TexCoordList") {
            AppAction::TexCoordList
        } else {
            AppAction::Skip
        },
    }
}

fn closes(ctx: AppContext, local: &[u8]) -> (r: bool)
    ensures
        r == app_closes(ctx, local@),
{
    match ctx {
        AppContext::Property => is_name(local, "appearance"),
        AppContext::Appearance => is_name(local, "Appearance"),
        AppContext::SurfaceDataMember => is_name(local, "surfaceDataMember"),
        AppContext::X3DMaterial => is_name(local, "X3DMaterial"),
        AppContext::ParameterizedTexture => is_name(local, "ParameterizedTexture"),
        AppContext::TextureTarget => is_name(local, "target") || is_name(local, "TexCoordList"),
    }
}

/// What one event means inside the element of `ctx` (see [`app_step_spec`]).
pub fn app_step(ctx: AppContext, ev: &AppEvent) -> (r: Result<AppAction>)
    ensures
        match app_step_spec(ctx, *ev) {
            None => r matches Err(CityParquetError::Schema(_)),
            Some(a) => r matches Ok(x) && app_action_view(x) == a,
        },
{
    match ev {
        AppEvent::Eof => Err(eof_err(ctx)),
        AppEvent::Other => Ok(AppAction::Continue),
        AppEvent::End { local } => Ok(if closes(ctx, local.as_slice()) { AppAction::Done } else { AppAction::Continue }),
        AppEvent::Start { app, gml, local, attrs } => Ok(app_start(ctx, *app, *gml, local.as_slice(), attrs.as_slice())),
    }
}

// ------------------------------------------------------------ text ----

/// Element text as the reader keeps it: without leading and trailing white
/// space.
pub fn trimmed(text: &str) -> (r: std::string::String)
    ensures
        r@ == trim(text@),
{
    let t = trim_chars(chars_of(text).as_slice());
    string_of(t.as_slice())
}

/// `app:isSmooth` text: smooth exactly when it reads `true`, white space
/// aside.
pub fn smooth_flag(text: &str) -> (r: bool)
    ensures
        r == (trim(text@) == "true"@),
{
    let t = trim_chars(chars_of(text).as_slice());
    let want = chars_of("true");
    crate::text::seq_eq(t.as_slice(), want.as_slice())
}

/// The polygon an `app:target` names: its text, trimmed, after a leading
/// `#`, when that leaves something; none otherwise.
pub open spec fn target_id_spec(text: Seq<char>) -> Option<Seq<char>> {
    let t = trim(text);
    if t.len() > 1 && t[0] == '#' { Some(t.drop_first()) } else { None }
}

pub fn target_id(text: &str) -> (r: Option<std::string::String>)
    ensures
        opt_str(r) == target_id_spec(text@),
{
    let t = trim_chars(chars_of(text).as_slice());
    if t.len() > 1 && t[0] == '#' {
        let rest = slice_vec(t.as_slice(), 1, t.len());
        assert(rest@ =~= t@.drop_first());
        Some(string_of(rest.as_slice()))
    } else {
        None
    }
}

} // verus!
